use vstd::prelude::*;
use vstd::utf8::encode_utf8;

verus! {

/// The version reported when none is configured.
pub const VERSION: &'static str = "v0.1.0";

/// The port used when none is configured, or the configured one is no number.
pub const DEFAULT_PORT: u32 = 3501;

/// Server settings.
pub struct AppSettings {
    pub port: u32,
    pub static_path: String,
    pub log_level: String,
    pub environment: String,
    pub version: String,
}

impl Default for AppSettings {
    fn default() -> (r: Self)
        ensures
            r.port == DEFAULT_PORT,
            r.static_path@ == "assets"@,
            r.log_level@ == "INFO"@,
            r.environment@ == "dev"@,
            r.version@ == VERSION@,
    {
        AppSettings {
            port: DEFAULT_PORT,
            static_path: "assets".to_owned(),
            log_level: "INFO".to_owned(),
            environment: "dev".to_owned(),
            version: VERSION.to_owned(),
        }
    }
}

pub open spec fn is_digit(b: u8) -> bool {
    48 <= b && b <= 57
}

/// The number written by the decimal digits `s`.
pub open spec fn digits_value(s: Seq<u8>) -> int
    decreases s.len(),
{
    if s.len() == 0 {
        0
    } else {
        digits_value(s.drop_last()) * 10 + (s.last() - 48)
    }
}

/// `s` without one leading `+`.
pub open spec fn unsigned_digits(s: Seq<u8>) -> Seq<u8> {
    if s.len() > 0 && s[0] == 43 {
        s.drop_first()
    } else {
        s
    }
}

/// The `u32` that the text `s` spells in decimal: an optional `+`, then one
/// or more digits, with a value that fits.
pub open spec fn parsed_u32(s: Seq<u8>) -> Option<u32> {
    let d = unsigned_digits(s);
    if d.len() > 0 && (forall|i: int| 0 <= i < d.len() ==> is_digit(#[trigger] d[i]))
        && digits_value(d) <= u32::MAX {
        Some(digits_value(d) as u32)
    } else {
        None
    }
}

proof fn lemma_digits_value_grows(s: Seq<u8>, k: int)
    requires
        0 <= k <= s.len(),
        forall|i: int| 0 <= i < s.len() ==> is_digit(#[trigger] s[i]),
    ensures
        digits_value(s.subrange(0, k)) <= digits_value(s),
        0 <= digits_value(s),
    decreases s.len(),
{
    if s.len() > 0 {
        let init = s.drop_last();
        assert forall|i: int| 0 <= i < init.len() implies is_digit(#[trigger] init[i]) by {
            assert(init[i] == s[i]);
        }
        if k == s.len() {
            assert(s.subrange(0, k) =~= s);
            lemma_digits_value_grows(init, 0);
        } else {
            assert(s.subrange(0, k) =~= init.subrange(0, k));
            lemma_digits_value_grows(init, k);
        }
    }
}

/// Read a `u32` written in decimal, as `str::parse` does.
pub fn parse_u32(s: &str) -> (r: Option<u32>)
    ensures
        r == parsed_u32(encode_utf8(s@)),
{
    let b = s.as_bytes();
    let n = b.len();
    let ghost bytes = encode_utf8(s@);
    let start: usize = if n > 0 && b[0] == 43 { 1 } else { 0 };
    let ghost d = unsigned_digits(bytes);
    proof {
        assert(d =~= bytes.subrange(start as int, n as int));
    }
    if start == n {
        return None;
    }
    let mut acc: u64 = 0;
    let mut i: usize = start;
    while i < n
        invariant
            b@ == bytes,
            bytes == encode_utf8(s@),
            n == bytes.len(),
            start <= i <= n,
            d =~= bytes.subrange(start as int, n as int),
            d == unsigned_digits(bytes),
            forall|j: int| 0 <= j < i - start ==> is_digit(#[trigger] d[j]),
            acc == digits_value(d.subrange(0, i - start)),
            acc <= u32::MAX,
        decreases n - i,
    {
        let c = b[i];
        if c < 48 || c > 57 {
            proof {
                assert(d[i - start] == c);
                assert(!is_digit(d[i - start]));
            }
            return None;
        }
        let next = acc * 10 + (c - 48) as u64;
        proof {
            let pre = d.subrange(0, i - start + 1);
            assert(pre.drop_last() =~= d.subrange(0, i - start));
            assert(pre.last() == c);
            assert(digits_value(pre) == next);
        }
        if next > 4294967295 {
            proof {
                if forall|j: int| 0 <= j < d.len() ==> is_digit(#[trigger] d[j]) {
                    lemma_digits_value_grows(d, i - start + 1);
                }
            }
            return None;
        }
        acc = next;
        i = i + 1;
    }
    proof {
        assert(d.subrange(0, n - start) =~= d);
    }
    Some(acc as u32)
}

impl AppSettings {
    /// Settings from the configured values, each default where absent; a
    /// port that is no number falls back to the default port.
    pub fn from_values(
        port: Option<String>,
        static_path: Option<String>,
        log_level: Option<String>,
        environment: Option<String>,
        version: Option<String>,
    ) -> (r: Self)
        ensures
            r.port == match port {
                Some(p) => match parsed_u32(encode_utf8(p@)) {
                    Some(v) => v,
                    None => DEFAULT_PORT,
                },
                None => DEFAULT_PORT,
            },
            r.static_path@ == match static_path {
                Some(v) => v@,
                None => "assets"@,
            },
            r.log_level@ == match log_level {
                Some(v) => v@,
                None => "INFO"@,
            },
            r.environment@ == match environment {
                Some(v) => v@,
                None => "dev"@,
            },
            r.version@ == match version {
                Some(v) => v@,
                None => VERSION@,
            },
    {
        let default = Self::default();
        let port = match port {
            Some(p) => match parse_u32(p.as_str()) {
                Some(v) => v,
                None => default.port,
            },
            None => default.port,
        };
        AppSettings {
            port,
            static_path: match static_path {
                Some(v) => v,
                None => default.static_path,
            },
            log_level: match log_level {
                Some(v) => v,
                None => default.log_level,
            },
            environment: match environment {
                Some(v) => v,
                None => default.environment,
            },
            version: match version {
                Some(v) => v,
                None => default.version,
            },
        }
    }
}

} // verus!
