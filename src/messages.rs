use rand::Rng;
use vstd::prelude::*;

verus! {

/// A request from a connected client.
pub enum ClientMessage {
    Subscribe { channel_name: String },
    Unsubscribe { channel_name: String },
    Publish { channel_name: String, content: String },
}

/// Information contained in a server response to a client message.
pub struct ServerResponseInfo {
    pub detail: Option<String>,
    pub channel_name: Option<String>,
    pub client_name: Option<String>,
    pub total_subscribers: Option<usize>,
}

impl ServerResponseInfo {
    pub open spec fn is_empty(&self) -> bool {
        &&& self.detail is None
        &&& self.channel_name is None
        &&& self.client_name is None
        &&& self.total_subscribers is None
    }
}

impl Default for ServerResponseInfo {
    fn default() -> (r: Self)
        ensures
            r.is_empty(),
    {
        ServerResponseInfo {
            detail: None,
            channel_name: None,
            client_name: None,
            total_subscribers: None,
        }
    }
}

/// Response from the server to a client message.
pub struct ServerResponse {
    pub status: String,
    pub info: Option<ServerResponseInfo>,
}

/// The text an error response carries for a failure described by `d`.
pub open spec fn error_detail(d: Seq<char>) -> Seq<char> {
    "Error encountered: "@ + d
}

impl ServerResponse {
    /// A plain success: status "ok" and no information.
    pub open spec fn is_success(&self) -> bool {
        self.status@ == "ok"@ && self.info is None
    }

    /// A failure whose only information is the detail text for `d`.
    pub open spec fn is_error_with(&self, d: Seq<char>) -> bool {
        &&& self.status@ == "error"@
        &&& match self.info {
            Some(info) => {
                &&& info.channel_name is None
                &&& info.client_name is None
                &&& info.total_subscribers is None
                &&& match info.detail {
                    Some(text) => text@ == error_detail(d),
                    None => false,
                }
            },
            None => false,
        }
    }

    /// A success that reports the number of subscribers of a topic.
    pub open spec fn is_count(&self, n: nat) -> bool {
        &&& self.status@ == "ok"@
        &&& match self.info {
            Some(info) => {
                &&& info.detail is None
                &&& info.channel_name is None
                &&& info.client_name is None
                &&& info.total_subscribers == Some(n as usize)
                &&& n <= usize::MAX
            },
            None => false,
        }
    }

    /// A success that tells a client the name it was registered under.
    pub open spec fn is_welcome(&self, name: Seq<char>) -> bool {
        &&& self.status@ == "ok"@
        &&& match self.info {
            Some(info) => {
                &&& info.detail is None
                &&& info.channel_name is None
                &&& info.total_subscribers is None
                &&& match info.client_name {
                    Some(c) => c@ == name,
                    None => false,
                }
            },
            None => false,
        }
    }

    /// An error response whose detail describes `value`.
    pub fn from_error(value: &str) -> (r: Self)
        ensures
            r.is_error_with(value@),
    {
        let mut detail = "Error encountered: ".to_owned();
        detail.append(value);
        let mut info = ServerResponseInfo::default();
        info.detail = Some(detail);
        ServerResponse { status: "error".to_owned(), info: Some(info) }
    }

    /// A success that carries the subscriber count of a topic.
    pub fn with_total(n: usize) -> (r: Self)
        ensures
            r.is_count(n as nat),
    {
        let mut info = ServerResponseInfo::default();
        info.total_subscribers = Some(n);
        ServerResponse { status: "ok".to_owned(), info: Some(info) }
    }

    /// The acknowledgement sent to a client once it is registered.
    pub fn welcome(client_name: &str) -> (r: Self)
        ensures
            r.is_welcome(client_name@),
    {
        let mut info = ServerResponseInfo::default();
        info.client_name = Some(client_name.to_owned());
        ServerResponse { status: "ok".to_owned(), info: Some(info) }
    }
}

impl Default for ServerResponse {
    /// Default simple success response.
    fn default() -> (r: Self)
        ensures
            r.is_success(),
    {
        ServerResponse { status: "ok".to_owned(), info: None }
    }
}

/// A message as it is broadcast to the subscribers of a topic.
pub struct PublishedMessage {
    pub sender: String,
    pub channel_name: String,
    pub content: String,
    pub sent_at: String,
}

/// Relies on chrono's `Utc::now` and `DateTime::to_rfc3339`: the current
/// time as an RFC 3339 timestamp. Nothing is promised of its value.
#[verifier::external_body]
fn timestamp_now() -> String {
    chrono::Utc::now().to_rfc3339()
}

impl PublishedMessage {
    /// A message from `sender` to `channel_name`, stamped with the time now.
    pub fn new(sender: &str, content: &str, channel_name: &str) -> (r: Self)
        ensures
            r.sender@ == sender@,
            r.channel_name@ == channel_name@,
            r.content@ == content@,
    {
        let sent_at = timestamp_now();
        PublishedMessage {
            sender: sender.to_owned(),
            channel_name: channel_name.to_owned(),
            content: content.to_owned(),
            sent_at,
        }
    }
}

/// Query parameters for opening a new connection.
pub struct ConnectParams {
    pub client_name: Option<String>,
}

impl Default for ConnectParams {
    fn default() -> (r: Self)
        ensures
            r.client_name is None,
    {
        ConnectParams { client_name: None }
    }
}

/// An ASCII letter or digit.
pub open spec fn is_alphanumeric(c: char) -> bool {
    ('a' <= c && c <= 'z') || ('A' <= c && c <= 'Z') || ('0' <= c && c <= '9')
}

/// Relies on rand's `rng()` and the `Alphanumeric` distribution, which draws
/// one of `A-Z`, `a-z` and `0-9`.
#[verifier::external_body]
fn random_alphanumeric() -> (r: String)
    ensures
        r@.len() == 1,
        is_alphanumeric(r@[0]),
{
    String::from(rand::rng().sample(rand::distr::Alphanumeric) as char)
}

/// A random name of `length` ASCII letters and digits.
pub fn random_client_name(length: usize) -> (r: String)
    ensures
        r@.len() == length,
        forall|i: int| 0 <= i < length ==> is_alphanumeric(#[trigger] r@[i]),
{
    let mut out = String::new();
    let mut i: usize = 0;
    while i < length
        invariant
            i <= length,
            out@.len() == i,
            forall|j: int| 0 <= j < i ==> is_alphanumeric(#[trigger] out@[j]),
        decreases length - i,
    {
        let c = random_alphanumeric();
        let ghost before = out@;
        out.append(c.as_str());
        proof {
            assert(out@ =~= before + c@);
            assert forall|j: int| 0 <= j < i + 1 implies is_alphanumeric(#[trigger] out@[j]) by {
                if j == i {
                    assert(out@[j] == c@[0]);
                } else {
                    assert(out@[j] == before[j]);
                }
            }
        }
        i = i + 1;
    }
    out
}

/// `a`, then `b`.
pub fn join2(a: &str, b: &str) -> (r: String)
    ensures
        r@ == a@ + b@,
{
    let mut s = a.to_owned();
    s.append(b);
    s
}

/// `a`, then `b`, then `c`.
pub fn join3(a: &str, b: &str, c: &str) -> (r: String)
    ensures
        r@ == a@ + b@ + c@,
{
    let mut s = a.to_owned();
    s.append(b);
    s.append(c);
    s
}

} // verus!
