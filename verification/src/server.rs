//! The scan request of the HTTP API and the replies it gets.

use vstd::prelude::*;
use crate::text::{trim, trim_str};

verus! {

broadcast use vstd::string::group_string_axioms;

/// A request to scan a repository.
#[derive(Clone, Debug)]
pub struct ScanRequest {
    pub url: String,
}

/// The status code and, for failures, the error message of a reply.
#[derive(Clone, Debug)]
pub struct ScanReply {
    pub status: u16,
    pub error: Option<String>,
}

/// How running a scan ended.
#[derive(Clone, Debug)]
pub enum ScanOutcome {
    /// The analysis succeeded; its result is the body.
    Analyzed,
    /// The analysis failed with this message.
    Failed(String),
    /// The task running the analysis failed with this message.
    JoinFailed(String),
}

/// The URL to scan: the trimmed URL of the request, or a `400` reply when it is empty.
pub fn scan_target(req: &ScanRequest) -> (r: Result<String, ScanReply>)
    ensures
        trim(req.url@).len() > 0 ==> (r matches Ok(u) && u@ == trim(req.url@)),
        trim(req.url@).len() == 0 ==> (r matches Err(reply) && reply.status == 400 && (
        reply.error matches Some(m) && m@ == "url must not be empty"@)),
{
    let url = trim_str(req.url.as_str());
    if url.is_empty() {
        Err(ScanReply { status: 400, error: Some(String::from_str("url must not be empty")) })
    } else {
        Ok(String::from_str(url))
    }
}

/// The reply to a scan that ran: `200` on success, `500` with the message on failure, with
/// `task join: ` before the message when the task itself failed.
pub fn scan_reply(outcome: &ScanOutcome) -> (r: ScanReply)
    ensures
        match outcome {
            ScanOutcome::Analyzed => r.status == 200 && r.error is None,
            ScanOutcome::Failed(m) => r.status == 500 && (r.error matches Some(e) && e@ == m@),
            ScanOutcome::JoinFailed(d) => r.status == 500 && (r.error matches Some(e) && e@
                == "task join: "@ + d@),
        },
{
    match outcome {
        ScanOutcome::Analyzed => ScanReply { status: 200, error: None },
        ScanOutcome::Failed(m) => ScanReply { status: 500, error: Some(m.clone()) },
        ScanOutcome::JoinFailed(d) => {
            let mut e = String::from_str("task join: ");
            e.append(d.as_str());
            ScanReply { status: 500, error: Some(e) }
        },
    }
}

/// The port used when none is configured.
pub const DEFAULT_PORT: u16 = 8787;

/// Value of the ASCII decimal digits `d`.
pub open spec fn decimal_value(d: Seq<char>) -> nat
    decreases d.len(),
{
    if d.len() == 0 {
        0
    } else {
        decimal_value(d.drop_last()) * 10 + ((d.last() as u32) - ('0' as u32)) as nat
    }
}

/// Whether every character of `d` is an ASCII digit.
pub open spec fn all_digits(d: Seq<char>) -> bool {
    forall|i: int| 0 <= i < d.len() ==> '0' <= #[trigger] d[i] && d[i] <= '9'
}

/// `str::parse::<u16>`: an optional `+`, then at least one decimal digit, of value at most
/// 65535.
pub open spec fn parse_u16_of(s: Seq<char>) -> Option<u16> {
    let d = if s.len() > 0 && s[0] == '+' {
        s.skip(1)
    } else {
        s
    };
    if d.len() > 0 && all_digits(d) && decimal_value(d) <= 65535 {
        Some(decimal_value(d) as u16)
    } else {
        None
    }
}

proof fn lemma_decimal_value_prefix(d: Seq<char>, i: int)
    requires
        0 <= i <= d.len(),
        all_digits(d),
    ensures
        decimal_value(d.take(i)) <= decimal_value(d),
    decreases d.len() - i,
{
    if i < d.len() {
        lemma_decimal_value_prefix(d, i + 1);
        assert(d.take(i + 1).drop_last() =~= d.take(i));
        assert('0' <= d[i] && d[i] <= '9');
    } else {
        assert(d.take(i) =~= d);
    }
}

/// `s` parsed as a `u16` the way `str::parse` does.
pub fn parse_u16(s: &str) -> (r: Option<u16>)
    ensures
        r == parse_u16_of(s@),
{
    let cs = crate::text::chars_of(s);
    let start: usize = if cs.len() > 0 && cs[0] == '+' {
        1
    } else {
        0
    };
    let n = cs.len();
    if start >= n {
        assert(cs@.skip(start as int).len() == 0);
        return None;
    }
    let ghost d = cs@.skip(start as int);
    assert(d =~= (if s@.len() > 0 && s@[0] == '+' { s@.skip(1) } else { s@ }));
    let mut value: u32 = 0;
    let mut i: usize = start;
    while i < n
        invariant
            start <= i <= n == cs@.len(),
            cs@ == s@,
            start < n,
            start as int == (if s@.len() > 0 && s@[0] == '+' { 1int } else { 0int }),
            d == cs@.skip(start as int),
            d == (if s@.len() > 0 && s@[0] == '+' { s@.skip(1) } else { s@ }),
            value as nat == decimal_value(d.take(i - start)),
            value <= 65535,
            forall|k: int| 0 <= k < i - start ==> '0' <= #[trigger] d[k] && d[k] <= '9',
        decreases n - i,
    {
        let c = cs[i];
        assert(d[i - start] == c);
        if c < '0' || c > '9' {
            assert(!all_digits(d));
            return None;
        }
        assert(d.take(i - start + 1).drop_last() =~= d.take(i - start));
        let digit = (c as u32) - ('0' as u32);
        let next = value * 10 + digit;
        assert(next as nat == decimal_value(d.take(i - start + 1)));
        if next > 65535 {
            proof {
                if all_digits(d) {
                    lemma_decimal_value_prefix(d, i - start + 1);
                }
            }
            return None;
        }
        value = next;
        i = i + 1;
    }
    assert(d.take(n - start) =~= d);
    assert(all_digits(d));
    Some(value as u16)
}

/// The port to listen on, from the optional `SCANNER_PORT` value: its value as a `u16`, or
/// the default port when it is absent or not a valid port number.
pub fn port_from_setting(value: Option<&str>) -> (r: u16)
    ensures
        r == match value {
            Some(v) => match parse_u16_of(v@) {
                Some(p) => p,
                None => DEFAULT_PORT,
            },
            None => DEFAULT_PORT,
        },
{
    match value {
        Some(v) => match parse_u16(v) {
            Some(p) => p,
            None => DEFAULT_PORT,
        },
        None => DEFAULT_PORT,
    }
}

} // verus!
