//! The decisions of the stdio relay: every message a client writes is handed
//! to the host over HTTP, and what the relay does when that goes wrong — a
//! host that forgot the session, a host that went away — is decided here from
//! what the attempt came back with. Sending, starting a host and writing
//! lines are the caller's.

use vstd::prelude::*;
use crate::scan::{find, find_chars, lemma_find_bounds, trim};
use crate::text::{chars_of, decimal, decimal_string, push_str, string_of};

verus! {

/// How one attempt to hand a message to the host went.
pub enum Attempt {
    /// The host answered, with this status and this text.
    Replied { code: u16, text: String },
    /// Nothing answers at this address.
    Unreachable(String),
    /// The exchange failed some other way, for this reason.
    Failed(String),
}

/// What the relay does after its first attempt.
#[derive(Debug, PartialEq, Eq)]
pub enum Next {
    /// Hand the reply on to the client.
    Deliver,
    /// Replay the client's handshake so the host knows a session, then try once more.
    Reinitialize,
    /// Become the host, replay the handshake unless the message is the
    /// handshake itself, then try once more.
    TakeOver { reinitialize: bool },
    /// Give the client this error.
    Fail(String),
}

/// What the host says when it has forgotten a session.
pub open spec fn session_not_found() -> Seq<char> {
    "Session not found"@
}

/// What the relay does after its first attempt: a host that has forgotten
/// an idle session is handed the handshake again; a host that is gone is
/// replaced by this process.
pub open spec fn next_spec(attempt: Attempt, had_session: bool, initialize: bool) -> Next {
    match attempt {
        Attempt::Replied { code, text } => if code == 404 && had_session && !initialize && find(
            text@,
            session_not_found(),
        ) is Some {
            Next::Reinitialize
        } else {
            Next::Deliver
        },
        Attempt::Unreachable(_) => Next::TakeOver { reinitialize: !initialize },
        Attempt::Failed(e) => Next::Fail(e),
    }
}

/// What the relay does after its first attempt.
pub fn after_first(attempt: &Attempt, had_session: bool, initialize: bool) -> (n: Next)
    ensures
        match next_spec(*attempt, had_session, initialize) {
            Next::Fail(e) => n matches Next::Fail(f) && f@ == e@,
            other => n == other,
        },
{
    match attempt {
        Attempt::Replied { code, text } => {
            let cs = chars_of(text.as_str());
            let pat = chars_of("Session not found");
            proof {
                reveal_strlit("Session not found");
            }
            let gone = if pat.len() <= cs.len() {
                find_chars(&cs, &pat, 0).is_some()
            } else {
                proof {
                    lemma_find_bounds(cs@, pat@, 0);
                }
                false
            };
            if *code == 404 && had_session && !initialize && gone {
                Next::Reinitialize
            } else {
                Next::Deliver
            }
        },
        Attempt::Unreachable(_) => Next::TakeOver { reinitialize: !initialize },
        Attempt::Failed(e) => Next::Fail(e.clone()),
    }
}

/// What the one retry after a replayed handshake amounts to: a reply is
/// delivered, whatever it says.
pub open spec fn session_retry_spec(attempt: Attempt) -> Result<(), Seq<char>> {
    match attempt {
        Attempt::Replied { .. } => Ok(()),
        Attempt::Unreachable(address) => Err("no parcad answers on "@ + address@),
        Attempt::Failed(e) => Err(e@),
    }
}

/// What the one retry after becoming the host amounts to.
pub open spec fn take_over_retry_spec(attempt: Attempt) -> Result<(), Seq<char>> {
    match attempt {
        Attempt::Replied { .. } => Ok(()),
        Attempt::Unreachable(address) => Err("no parcad answers on "@ + address@ + ", even after starting one"@),
        Attempt::Failed(e) => Err(e@),
    }
}

/// What the retry after a replayed handshake amounts to.
pub fn after_session_retry(attempt: &Attempt) -> (r: Result<(), String>)
    ensures
        r matches Ok(_) ==> session_retry_spec(*attempt) is Ok,
        r matches Err(e) ==> session_retry_spec(*attempt) == Err::<(), Seq<char>>(e@),
{
    match attempt {
        Attempt::Replied { .. } => Ok(()),
        Attempt::Unreachable(address) => {
            let mut e = String::from_str("no parcad answers on ");
            push_str(&mut e, address.as_str());
            Err(e)
        },
        Attempt::Failed(e) => Err(e.clone()),
    }
}

/// What the retry after becoming the host amounts to.
pub fn after_take_over_retry(attempt: &Attempt) -> (r: Result<(), String>)
    ensures
        r matches Ok(_) ==> take_over_retry_spec(*attempt) is Ok,
        r matches Err(e) ==> take_over_retry_spec(*attempt) == Err::<(), Seq<char>>(e@),
{
    match attempt {
        Attempt::Replied { .. } => Ok(()),
        Attempt::Unreachable(address) => {
            let mut e = String::from_str("no parcad answers on ");
            push_str(&mut e, address.as_str());
            push_str(&mut e, ", even after starting one");
            Err(e)
        },
        Attempt::Failed(e) => Err(e.clone()),
    }
}

/// Why a request the host answered without a JSON-RPC reply to it failed:
/// such a refusal still owes the client an answer, or it waits forever.
pub open spec fn unanswered_spec(code: u16, text: Seq<char>) -> Seq<char> {
    if 200 <= code <= 299 {
        "the host sent no reply"@
    } else {
        "the host answered "@ + decimal(code as nat) + ": "@ + crate::scan::trim_spec(text)
    }
}

/// What a request the host left unanswered is told.
pub fn unanswered(code: u16, text: &str) -> (s: String)
    ensures
        s@ == unanswered_spec(code, text@),
{
    if 200 <= code && code <= 299 {
        return String::from_str("the host sent no reply");
    }
    let mut s = String::from_str("the host answered ");
    push_str(&mut s, decimal_string(code as u64).as_str());
    push_str(&mut s, ": ");
    let t = trim(chars_of(text).as_slice());
    push_str(&mut s, string_of(t.as_slice()).as_str());
    s
}

} // verus!
