use mini_chat::dispatcher::{Delivery, Dispatcher};
use mini_chat::messages::{ClientMessage, ServerResponse};

fn total(r: &ServerResponse) -> Option<usize> {
    r.info.as_ref().and_then(|i| i.total_subscribers)
}

fn detail(r: &ServerResponse) -> String {
    r.info
        .as_ref()
        .and_then(|i| i.detail.clone())
        .unwrap_or_default()
}

fn sorted_recipients(d: &Delivery) -> Vec<String> {
    let mut v = d.recipients.clone();
    v.sort();
    v
}

fn with_clients(names: &[&str]) -> Dispatcher {
    let mut d = Dispatcher::new();
    for n in names {
        d.add_client(n).unwrap();
    }
    d
}

#[test]
fn broadcast_reaches_other_subscriber() {
    let mut d = with_clients(&["A", "B"]);
    assert_eq!(total(&d.subscribe("A", "room1".to_string())), Some(1));
    assert_eq!(total(&d.subscribe("B", "room1".to_string())), Some(2));
    let (resp, delivery) = d.process_message(
        ClientMessage::Publish {
            channel_name: "room1".to_string(),
            content: "hello".to_string(),
        },
        "A",
    );
    assert_eq!(resp.status, "ok");
    assert!(resp.info.is_none());
    let delivery = delivery.unwrap();
    assert_eq!(delivery.message.sender, "A");
    assert_eq!(delivery.message.channel_name, "room1");
    assert_eq!(delivery.message.content, "hello");
    assert!(!delivery.message.sent_at.is_empty());
    assert_eq!(sorted_recipients(&delivery), vec!["A".to_string(), "B".to_string()]);
}

#[test]
fn publisher_not_subscribed_gets_no_echo() {
    let mut d = with_clients(&["A", "B"]);
    d.subscribe("B", "room1".to_string());
    let (resp, delivery) = d.publish_message("A", "room1".to_string(), "hello".to_string());
    assert_eq!(resp.status, "ok");
    assert_eq!(sorted_recipients(&delivery.unwrap()), vec!["B".to_string()]);
}

#[test]
fn publish_to_empty_topic_is_an_error() {
    let d = with_clients(&["A"]);
    let (resp, delivery) = d.publish_message("A", "empty".to_string(), "x".to_string());
    assert_eq!(resp.status, "error");
    assert!(detail(&resp).contains("empty"));
    assert_eq!(detail(&resp), "Error encountered: Channel 'empty' not found!");
    assert!(delivery.is_none());
}

#[test]
fn topic_gone_after_last_subscriber_disconnects() {
    let mut d = with_clients(&["C", "P"]);
    d.subscribe("C", "t1".to_string());
    d.remove_client("C");
    let (resp, delivery) = d.publish_message("P", "t1".to_string(), "x".to_string());
    assert_eq!(resp.status, "error");
    assert!(detail(&resp).contains("t1"));
    assert!(delivery.is_none());
}

#[test]
fn duplicate_identity_is_refused_once_registered() {
    let mut d = Dispatcher::new();
    let first = d.add_client("same");
    let second = d.add_client("same");
    assert!(first.is_ok());
    assert_eq!(second, Err("Client same already exists!".to_string()));
}

#[test]
fn subscribe_twice_reports_same_count() {
    let mut d = with_clients(&["A", "B"]);
    d.subscribe("B", "t".to_string());
    let once = d.subscribe("A", "t".to_string());
    let twice = d.subscribe("A", "t".to_string());
    assert_eq!(total(&once), Some(2));
    assert_eq!(total(&twice), Some(2));
    assert_eq!(once.status, "ok");
}

#[test]
fn unsubscribe_twice_is_harmless() {
    let mut d = with_clients(&["A", "B"]);
    d.subscribe("A", "t".to_string());
    d.subscribe("B", "t".to_string());
    let first = d.unsubscribe("A", "t".to_string());
    let second = d.unsubscribe("A", "t".to_string());
    assert_eq!(first.status, "ok");
    assert_eq!(second.status, "ok");
    assert!(second.info.is_none());
    let (_, delivery) = d.publish_message("B", "t".to_string(), "x".to_string());
    assert_eq!(sorted_recipients(&delivery.unwrap()), vec!["B".to_string()]);
    assert_eq!(total(&d.subscribe("A", "t".to_string())), Some(2));
}

#[test]
fn unsubscribe_last_removes_topic() {
    let mut d = with_clients(&["A"]);
    d.subscribe("A", "t".to_string());
    d.unsubscribe("A", "t".to_string());
    let (resp, _) = d.publish_message("A", "t".to_string(), "x".to_string());
    assert_eq!(resp.status, "error");
}

#[test]
fn unsubscribe_never_subscribed_is_ok() {
    let mut d = with_clients(&["A"]);
    let r = d.unsubscribe("A", "nowhere".to_string());
    assert_eq!(r.status, "ok");
}

#[test]
fn remove_client_twice_leaves_no_trace() {
    let mut d = with_clients(&["A", "B"]);
    d.subscribe("A", "t".to_string());
    d.subscribe("B", "t".to_string());
    d.subscribe("A", "u".to_string());
    d.remove_client("A");
    d.remove_client("A");
    let (_, delivery) = d.publish_message("B", "t".to_string(), "x".to_string());
    assert_eq!(sorted_recipients(&delivery.unwrap()), vec!["B".to_string()]);
    let (resp, _) = d.publish_message("B", "u".to_string(), "x".to_string());
    assert_eq!(resp.status, "error");
    assert!(d.add_client("A").is_ok());
}

#[test]
fn remove_unknown_client_is_noop() {
    let mut d = with_clients(&["A"]);
    d.remove_client("ghost");
    assert_eq!(total(&d.subscribe("A", "t".to_string())), Some(1));
}

#[test]
fn unknown_client_cannot_subscribe() {
    let mut d = Dispatcher::new();
    let r = d.subscribe("nobody", "t".to_string());
    assert_eq!(r.status, "error");
    assert_eq!(detail(&r), "Error encountered: Did not find channels for client nobody");
    let (resp, _) = d.publish_message("x", "t".to_string(), "y".to_string());
    assert_eq!(resp.status, "error");
}

#[test]
fn unknown_client_cannot_unsubscribe() {
    let mut d = Dispatcher::new();
    let (r, delivery) = d.process_message(
        ClientMessage::Unsubscribe {
            channel_name: "t".to_string(),
        },
        "nobody",
    );
    assert_eq!(r.status, "error");
    assert_eq!(detail(&r), "Error encountered: Did not find channel set for nobody");
    assert!(delivery.is_none());
}

#[test]
fn process_subscribe_reports_count() {
    let mut d = with_clients(&["A"]);
    let (r, delivery) = d.process_message(
        ClientMessage::Subscribe {
            channel_name: "t".to_string(),
        },
        "A",
    );
    assert_eq!(r.status, "ok");
    assert_eq!(total(&r), Some(1));
    assert!(delivery.is_none());
}

#[test]
fn separate_topics_stay_separate() {
    let mut d = with_clients(&["A", "B", "C"]);
    d.subscribe("A", "x".to_string());
    d.subscribe("B", "y".to_string());
    d.subscribe("C", "x".to_string());
    let (_, delivery) = d.publish_message("B", "x".to_string(), "m".to_string());
    assert_eq!(
        sorted_recipients(&delivery.unwrap()),
        vec!["A".to_string(), "C".to_string()]
    );
}
