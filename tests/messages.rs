use mini_chat::messages::{random_client_name, ConnectParams, PublishedMessage, ServerResponse};
use mini_chat::settings::{parse_u32, AppSettings, DEFAULT_PORT, VERSION};

#[test]
fn error_response_carries_detail() {
    let r = ServerResponse::from_error("boom");
    assert_eq!(r.status, "error");
    let info = r.info.unwrap();
    assert_eq!(info.detail, Some("Error encountered: boom".to_string()));
    assert!(info.total_subscribers.is_none());
}

#[test]
fn default_response_is_plain_ok() {
    let r = ServerResponse::default();
    assert_eq!(r.status, "ok");
    assert!(r.info.is_none());
}

#[test]
fn welcome_names_the_client() {
    let r = ServerResponse::welcome("abc");
    assert_eq!(r.status, "ok");
    assert_eq!(r.info.unwrap().client_name, Some("abc".to_string()));
}

#[test]
fn published_message_keeps_its_fields() {
    let m = PublishedMessage::new("me", "text", "room");
    assert_eq!(m.sender, "me");
    assert_eq!(m.content, "text");
    assert_eq!(m.channel_name, "room");
    assert!(m.sent_at.contains('T'));
}

#[test]
fn random_names_are_alphanumeric() {
    let n = random_client_name(28);
    assert_eq!(n.len(), 28);
    assert!(n.chars().all(|c| c.is_ascii_alphanumeric()));
    assert_eq!(random_client_name(0), "");
}

#[test]
fn connect_params_default_has_no_name() {
    assert!(ConnectParams::default().client_name.is_none());
}

#[test]
fn settings_defaults() {
    let s = AppSettings::default();
    assert_eq!(s.port, 3501);
    assert_eq!(s.static_path, "assets");
    assert_eq!(s.log_level, "INFO");
    assert_eq!(s.environment, "dev");
    assert_eq!(s.version, VERSION);
}

#[test]
fn settings_from_values() {
    let s = AppSettings::from_values(
        Some("8080".to_string()),
        None,
        Some("DEBUG".to_string()),
        None,
        Some("v2".to_string()),
    );
    assert_eq!(s.port, 8080);
    assert_eq!(s.static_path, "assets");
    assert_eq!(s.log_level, "DEBUG");
    assert_eq!(s.environment, "dev");
    assert_eq!(s.version, "v2");
    let bad = AppSettings::from_values(Some("80a".to_string()), None, None, None, None);
    assert_eq!(bad.port, DEFAULT_PORT);
}

#[test]
fn parse_u32_matches_std() {
    for s in ["0", "+7", "4294967295", "4294967296", "", "+", "-1", "12 ", "007", "99999999999"] {
        assert_eq!(parse_u32(s), s.parse::<u32>().ok(), "input {:?}", s);
    }
}
