//! What a fetch reports: its error values and their messages, the status
//! check before a body is decoded, and header lookup results.
use vstd::prelude::*;
use crate::text::push_char;

verus! {

/// An error raised while fetching, reading, or decoding a response.
#[derive(Debug)]
pub enum FetchError {
    /// The fetch itself was rejected (network, CORS or security error).
    Network(String),
    /// The response came back with a status outside 200-299.
    Status { code: u16, reason: String },
    /// The response body could not be decoded as JSON.
    Decode(String),
}

/// The digit character for `d` in `0..10`.
pub open spec fn digit_char(d: int) -> char {
    (48 + d) as char
}

/// `n` written in decimal, without leading zeros.
pub open spec fn decimal_spec(n: nat) -> Seq<char>
    decreases n,
{
    if n < 10 {
        seq![digit_char(n as int)]
    } else {
        decimal_spec(n / 10).push(digit_char((n % 10) as int))
    }
}

/// Appends `n` in decimal to `out`.
fn push_decimal(out: &mut String, n: u64)
    ensures
        final(out)@ == old(out)@ + decimal_spec(n as nat),
    decreases n,
{
    if n >= 10 {
        push_decimal(out, n / 10);
    }
    let d: u8 = (n % 10) as u8;
    let c: char = (48u8 + d) as char;
    assert(c == digit_char((n % 10) as int));
    push_char(out, c);
    proof {
        if n >= 10 {
            assert(decimal_spec(n as nat) == decimal_spec((n / 10) as nat).push(c));
        } else {
            assert(decimal_spec(n as nat) == seq![c]);
        }
    }
}

/// `n` in decimal, as `u64`'s `Display` writes it.
pub fn decimal(n: u64) -> (r: String)
    ensures
        r@ == decimal_spec(n as nat),
{
    let mut s = String::new();
    push_decimal(&mut s, n);
    assert(s@ =~= decimal_spec(n as nat));
    s
}

pub open spec fn network_prefix() -> Seq<char> {
    "fetch network error: "@
}

pub open spec fn status_prefix() -> Seq<char> {
    "fetch returned "@
}

pub open spec fn decode_prefix() -> Seq<char> {
    "fetch JSON decode error: "@
}

/// The message of an error, as its `Display` form reads.
pub open spec fn message_spec(e: FetchError) -> Seq<char> {
    match e {
        FetchError::Network(m) => network_prefix() + m@,
        FetchError::Status { code, reason } => status_prefix() + decimal_spec(code as nat) + seq![' ']
            + reason@,
        FetchError::Decode(m) => decode_prefix() + m@,
    }
}

/// The text used when a rejected fetch carries no string.
pub open spec fn unknown_js_error() -> Seq<char> {
    "unknown JS fetch error"@
}

impl FetchError {
    /// A human-readable message: `fetch network error: ..`,
    /// `fetch returned <code> <reason>` or `fetch JSON decode error: ..`.
    pub fn message(&self) -> (r: String)
        ensures
            r@ == message_spec(*self),
    {
        match self {
            FetchError::Network(m) => {
                let mut s = String::from_str("fetch network error: ");
                s.append(m.as_str());
                s
            },
            FetchError::Status { code, reason } => {
                let mut s = String::from_str("fetch returned ");
                let d = decimal(*code as u64);
                s.append(d.as_str());
                push_char(&mut s, ' ');
                s.append(reason.as_str());
                s
            },
            FetchError::Decode(m) => {
                let mut s = String::from_str("fetch JSON decode error: ");
                s.append(m.as_str());
                s
            },
        }
    }

    /// The error for a rejected fetch, from the string the rejection carried
    /// (if it was a string).
    pub fn from_js_message(text: Option<String>) -> (r: FetchError)
        ensures
            r matches FetchError::Network(m) && m@ == match text {
                Some(t) => t@,
                None => unknown_js_error(),
            },
    {
        match text {
            Some(t) => FetchError::Network(t),
            None => FetchError::Network(String::from_str("unknown JS fetch error")),
        }
    }
}

/// The status test made before a body is decoded: a response that is not `ok`
/// fails with its status code and status text.
pub fn check_status(ok: bool, code: u16, reason: String) -> (r: Result<(), FetchError>)
    ensures
        ok <==> r is Ok,
        !ok ==> (r matches Err(FetchError::Status { code: c, reason: t }) && c == code && t@
            == reason@),
{
    if ok {
        Ok(())
    } else {
        Err(FetchError::Status { code, reason })
    }
}

/// A header lookup result: a missing or empty header reads as absent.
pub fn header_value(raw: Option<String>) -> (r: Option<String>)
    ensures
        match raw {
            Some(v) => if v@.len() > 0 {
                r matches Some(x) && x@ == v@
            } else {
                r is None
            },
            None => r is None,
        },
{
    match raw {
        Some(v) => {
            if v.unicode_len() > 0 {
                Some(v)
            } else {
                None
            }
        },
        None => None,
    }
}

} // verus!
