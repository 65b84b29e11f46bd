//! Selector resolution. A token that parses as a number names that window
//! directly (`parse_wid` in the parsing module); any other token goes to
//! the external window-manager query, whose raw reply is interpreted
//! here.

use vstd::prelude::*;
use crate::bytes::{spec_trim, starts_with, trim_range};
use crate::parse::{parse_radix_range, spec_parse_radix};

verus! {

/// Failure to resolve a selector token to one window.
#[derive(Debug, PartialEq, Eq)]
pub enum SelectorError {
    /// The manager query rejected the selector; carries its message with
    /// the well-known prefix and surrounding whitespace removed.
    Rejected(Vec<u8>),
    /// The query ran but matched no node; carries the token.
    NoMatch(Vec<u8>),
    /// The query's reply does not carry a `0x`-prefixed hexadecimal
    /// identifier within range; carries the reply.
    BadReply(Vec<u8>),
}

/// The prefix `query -n: ` that the manager puts before its own error
/// messages.
pub open spec fn query_prefix() -> Seq<u8> {
    seq![113u8, 117u8, 101u8, 114u8, 121u8, 32u8, 45u8, 110u8, 58u8, 32u8]
}

/// A rejection message as reported: the diagnostic output with the
/// well-known prefix removed, if present, and whitespace trimmed from
/// both ends.
pub open spec fn spec_rejection(diag: Seq<u8>) -> Seq<u8> {
    if diag.len() >= query_prefix().len() && diag.subrange(0, query_prefix().len() as int)
        == query_prefix() {
        spec_trim(diag.skip(query_prefix().len() as int))
    } else {
        spec_trim(diag)
    }
}

/// A copy of `s[lo..hi]`.
pub fn bytes_of_range(s: &[u8], lo: usize, hi: usize) -> (r: Vec<u8>)
    requires
        lo <= hi <= s@.len(),
    ensures
        r@ == s@.subrange(lo as int, hi as int),
{
    let mut out: Vec<u8> = Vec::new();
    let mut i: usize = lo;
    proof {
        assert(s@.subrange(lo as int, lo as int) =~= Seq::<u8>::empty());
    }
    while i < hi
        invariant
            lo <= i <= hi <= s@.len(),
            out@ == s@.subrange(lo as int, i as int),
        decreases hi - i,
    {
        out.push(s[i]);
        proof {
            assert(s@.subrange(lo as int, i as int + 1) =~= s@.subrange(
                lo as int,
                i as int,
            ).push(s@[i as int]));
        }
        i = i + 1;
    }
    out
}

/// Interprets the manager query's reply for one token: `reply` is what
/// the query printed on its output stream, `diag` on its diagnostic
/// stream. Any diagnostic output is a rejection; an empty reply matched
/// no node; otherwise the reply names exactly one window in `0x`-prefixed
/// hexadecimal.
pub fn interpret_query_reply(token: &[u8], reply: &[u8], diag: &[u8]) -> (r: Result<
    u32,
    SelectorError,
>)
    ensures
        diag@.len() > 0 ==> (r matches Err(SelectorError::Rejected(m)) && m@ == spec_rejection(
            diag@,
        )),
        diag@.len() == 0 && reply@.len() == 0 ==> (r matches Err(SelectorError::NoMatch(tk))
            && tk@ == token@),
        diag@.len() == 0 && reply@.len() > 0 && !(reply@.len() >= 2 && reply@[0] == 48
            && reply@[1] == 120) ==> (r matches Err(SelectorError::BadReply(o)) && o@ == reply@),
        diag@.len() == 0 && reply@.len() >= 2 && reply@[0] == 48 && reply@[1] == 120 ==> (match
        spec_parse_radix(spec_trim(reply@.skip(2)), 16) {
            Some(w) => r == Ok::<u32, SelectorError>(w),
            None => r matches Err(SelectorError::BadReply(o)) && o@ == reply@,
        }),
{
    if diag.len() > 0 {
        let prefix: Vec<u8> = vec![113u8, 117u8, 101u8, 114u8, 121u8, 32u8, 45u8, 110u8, 58u8, 32u8];
        proof {
            assert(prefix@ =~= query_prefix());
        }
        let start: usize = if starts_with(diag, prefix.as_slice()) {
            prefix.len()
        } else {
            0
        };
        proof {
            if start == 10 {
                assert(diag@.subrange(10, diag@.len() as int) =~= diag@.skip(10));
            } else {
                assert(diag@.subrange(0, diag@.len() as int) =~= diag@);
            }
        }
        let (lo, hi) = trim_range(diag, start, diag.len());
        return Err(SelectorError::Rejected(bytes_of_range(diag, lo, hi)));
    }
    if reply.len() == 0 {
        proof {
            assert(token@.subrange(0, token@.len() as int) =~= token@);
        }
        return Err(SelectorError::NoMatch(bytes_of_range(token, 0, token.len())));
    }
    if !(reply.len() >= 2 && reply[0] == 48 && reply[1] == 120) {
        proof {
            assert(reply@.subrange(0, reply@.len() as int) =~= reply@);
        }
        return Err(SelectorError::BadReply(bytes_of_range(reply, 0, reply.len())));
    }
    proof {
        assert(reply@.subrange(2, reply@.len() as int) =~= reply@.skip(2));
    }
    let (lo, hi) = trim_range(reply, 2, reply.len());
    match parse_radix_range(reply, lo, hi, true) {
        Some(w) => Ok(w),
        None => {
            proof {
                assert(reply@.subrange(0, reply@.len() as int) =~= reply@);
            }
            Err(SelectorError::BadReply(bytes_of_range(reply, 0, reply.len())))
        },
    }
}

} // verus!
