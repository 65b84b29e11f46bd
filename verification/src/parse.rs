//! Numeric and line parsing: decimal and hexadecimal window identifiers,
//! the stdout of the container spawner, and node-added event lines.

use vstd::prelude::*;
use crate::bytes::{is_ws, is_ws_byte, spec_trim, trim_range};

verus! {

/// Value of a hexadecimal digit byte (`0-9`, `a-f`, `A-F`).
pub open spec fn hex_digit(b: u8) -> Option<u32> {
    if 48 <= b && b <= 57 {
        Some((b - 48) as u32)
    } else if 97 <= b && b <= 102 {
        Some((b - 87) as u32)
    } else if 65 <= b && b <= 70 {
        Some((b - 55) as u32)
    } else {
        None
    }
}

/// Value of a decimal digit byte.
pub open spec fn dec_digit(b: u8) -> Option<u32> {
    if 48 <= b && b <= 57 {
        Some((b - 48) as u32)
    } else {
        None
    }
}

pub fn hex_digit_val(b: u8) -> (r: Option<u32>)
    ensures
        r == hex_digit(b),
{
    if 48 <= b && b <= 57 {
        Some((b - 48) as u32)
    } else if 97 <= b && b <= 102 {
        Some((b - 87) as u32)
    } else if 65 <= b && b <= 70 {
        Some((b - 55) as u32)
    } else {
        None
    }
}

pub fn dec_digit_val(b: u8) -> (r: Option<u32>)
    ensures
        r == dec_digit(b),
{
    if 48 <= b && b <= 57 {
        Some((b - 48) as u32)
    } else {
        None
    }
}

/// Left-to-right accumulation of digits in the given radix, starting from
/// `acc`; `None` on a non-digit byte or when the value leaves `u32`.
pub open spec fn parse_radix_rec(s: Seq<u8>, radix: u32, acc: u32) -> Option<u32>
    decreases s.len(),
{
    if s.len() == 0 {
        Some(acc)
    } else {
        let d = if radix == 16 {
            hex_digit(s[0])
        } else {
            dec_digit(s[0])
        };
        match d {
            None => None,
            Some(dv) => if acc * radix + dv > u32::MAX {
                None
            } else {
                parse_radix_rec(s.skip(1), radix, (acc * radix + dv) as u32)
            },
        }
    }
}

/// The number written by `s` in the given radix: at least one digit, all
/// bytes digits, value within `u32`.
pub open spec fn spec_parse_radix(s: Seq<u8>, radix: u32) -> Option<u32> {
    if s.len() == 0 {
        None
    } else {
        parse_radix_rec(s, radix, 0)
    }
}

/// Parses `s[lo..hi]` as an unsigned number, hexadecimal when `hex` is set
/// and decimal otherwise.
pub fn parse_radix_range(s: &[u8], lo: usize, hi: usize, hex: bool) -> (r: Option<u32>)
    requires
        lo <= hi <= s@.len(),
    ensures
        r == spec_parse_radix(s@.subrange(lo as int, hi as int), if hex { 16u32 } else { 10u32 }),
{
    let ghost radix: u32 = if hex { 16u32 } else { 10u32 };
    let ghost target = s@.subrange(lo as int, hi as int);
    if lo == hi {
        return None;
    }
    let mut i: usize = lo;
    let mut acc: u32 = 0;
    while i < hi
        invariant
            lo <= i <= hi <= s@.len(),
            radix == if hex { 16u32 } else { 10u32 },
            target == s@.subrange(lo as int, hi as int),
            parse_radix_rec(s@.subrange(i as int, hi as int), radix, acc) == parse_radix_rec(
                target,
                radix,
                0,
            ),
        decreases hi - i,
    {
        let ghost before = s@.subrange(i as int, hi as int);
        proof {
            assert(before[0] == s@[i as int]);
            assert(before.skip(1) =~= s@.subrange(i as int + 1, hi as int));
        }
        let d = if hex {
            hex_digit_val(s[i])
        } else {
            dec_digit_val(s[i])
        };
        match d {
            None => {
                return None;
            },
            Some(dv) => {
                let wide: u64 = if hex {
                    acc as u64 * 16
                } else {
                    acc as u64 * 10
                } + dv as u64;
                if wide > 0xFFFF_FFFFu64 {
                    return None;
                }
                acc = wide as u32;
                i = i + 1;
            },
        }
    }
    proof {
        assert(s@.subrange(i as int, hi as int) =~= Seq::<u8>::empty());
    }
    Some(acc)
}

/// A window identifier written directly as a number: decimal, or
/// hexadecimal behind a `0x` or `0X` prefix.
pub open spec fn spec_parse_wid(s: Seq<u8>) -> Option<u32> {
    if s.len() >= 2 && s[0] == 48 && (s[1] == 120 || s[1] == 88) {
        spec_parse_radix(s.skip(2), 16)
    } else {
        spec_parse_radix(s, 10)
    }
}

/// Parses a user-supplied token as a literal window identifier. `None`
/// means the token is not numeric and must go to the external manager
/// query instead.
pub fn parse_wid(token: &[u8]) -> (r: Option<u32>)
    ensures
        r == spec_parse_wid(token@),
{
    if token.len() >= 2 && token[0] == 48 && (token[1] == 120 || token[1] == 88) {
        proof {
            assert(token@.subrange(2, token@.len() as int) =~= token@.skip(2));
        }
        parse_radix_range(token, 2, token.len(), true)
    } else {
        proof {
            assert(token@.subrange(0, token@.len() as int) =~= token@);
        }
        parse_radix_range(token, 0, token.len(), false)
    }
}

/// Failure to read a window identifier off an external program's output.
#[derive(Debug, PartialEq, Eq, Structural, Clone, Copy)]
pub enum OutputError {
    /// The output does not begin with the literal prefix `0x`.
    MissingHexPrefix,
    /// What follows the prefix is not a hexadecimal number within range.
    BadHexDigits,
}

/// The identifier printed by the container spawner: a `0x` prefix, then
/// hexadecimal digits, with surrounding whitespace tolerated after the
/// prefix is removed.
pub open spec fn spec_parse_hex_output(s: Seq<u8>) -> Result<u32, OutputError> {
    if !(s.len() >= 2 && s[0] == 48 && s[1] == 120) {
        Err(OutputError::MissingHexPrefix)
    } else {
        match spec_parse_radix(spec_trim(s.skip(2)), 16) {
            None => Err(OutputError::BadHexDigits),
            Some(w) => Ok(w),
        }
    }
}

/// Reads the window identifier that the container spawner printed.
pub fn parse_hex_output(out: &[u8]) -> (r: Result<u32, OutputError>)
    ensures
        r == spec_parse_hex_output(out@),
{
    if !(out.len() >= 2 && out[0] == 48 && out[1] == 120) {
        return Err(OutputError::MissingHexPrefix);
    }
    proof {
        assert(out@.subrange(2, out@.len() as int) =~= out@.skip(2));
    }
    let (lo, hi) = trim_range(out, 2, out.len());
    match parse_radix_range(out, lo, hi, true) {
        None => Err(OutputError::BadHexDigits),
        Some(w) => Ok(w),
    }
}

/// One step of whitespace splitting: feed the next byte into the finished
/// tokens and the token under construction.
pub open spec fn tok_fold(s: Seq<u8>, toks: Seq<Seq<u8>>, cur: Seq<u8>) -> (Seq<Seq<u8>>, Seq<u8>)
    decreases s.len(),
{
    if s.len() == 0 {
        (toks, cur)
    } else if is_ws(s[0]) {
        if cur.len() > 0 {
            tok_fold(s.skip(1), toks.push(cur), Seq::empty())
        } else {
            tok_fold(s.skip(1), toks, cur)
        }
    } else {
        tok_fold(s.skip(1), toks, cur.push(s[0]))
    }
}

/// The whitespace-separated fields of a line, in order.
pub open spec fn spec_tokens(s: Seq<u8>) -> Seq<Seq<u8>> {
    let r = tok_fold(s, Seq::empty(), Seq::empty());
    if r.1.len() > 0 {
        r.0.push(r.1)
    } else {
        r.0
    }
}

/// Splits a line into its whitespace-separated fields.
pub fn split_ws(s: &[u8]) -> (r: Vec<Vec<u8>>)
    ensures
        r@.map_values(|v: Vec<u8>| v@) == spec_tokens(s@),
{
    let mut toks: Vec<Vec<u8>> = Vec::new();
    let mut cur: Vec<u8> = Vec::new();
    let mut i: usize = 0;
    proof {
        assert(s@.skip(0) =~= s@);
        assert(toks@.map_values(|v: Vec<u8>| v@) =~= Seq::<Seq<u8>>::empty());
    }
    while i < s.len()
        invariant
            0 <= i <= s@.len(),
            tok_fold(s@, Seq::empty(), Seq::empty()) == tok_fold(
                s@.skip(i as int),
                toks@.map_values(|v: Vec<u8>| v@),
                cur@,
            ),
        decreases s@.len() - i,
    {
        let ghost rest = s@.skip(i as int);
        proof {
            assert(rest[0] == s@[i as int]);
            assert(rest.skip(1) =~= s@.skip(i as int + 1));
        }
        if is_ws_byte(s[i]) {
            if cur.len() > 0 {
                let ghost old_toks = toks@.map_values(|v: Vec<u8>| v@);
                let ghost old_cur = cur@;
                let finished = cur;
                cur = Vec::new();
                toks.push(finished);
                proof {
                    assert(toks@.map_values(|v: Vec<u8>| v@) =~= old_toks.push(old_cur));
                }
            }
        } else {
            cur.push(s[i]);
        }
        i = i + 1;
    }
    proof {
        assert(s@.skip(i as int) =~= Seq::<u8>::empty());
    }
    if cur.len() > 0 {
        let ghost old_toks = toks@.map_values(|v: Vec<u8>| v@);
        let ghost old_cur = cur@;
        toks.push(cur);
        proof {
            assert(toks@.map_values(|v: Vec<u8>| v@) =~= old_toks.push(old_cur));
        }
    }
    toks
}

/// Failure to read the new window's identifier off a node-added event
/// line. Each of these is fatal to the embed operation.
#[derive(Debug, PartialEq, Eq, Structural, Clone, Copy)]
pub enum EventError {
    /// The line has fewer than five whitespace-separated fields.
    WrongFieldCount,
    /// The fifth field does not begin with the literal prefix `0x`.
    MissingHexPrefix,
    /// What follows the prefix is not a hexadecimal number within range.
    BadHexDigits,
}

/// The window identifier carried by a node-added event line: its fifth
/// whitespace-separated field, a `0x`-prefixed hexadecimal value.
pub open spec fn spec_parse_event(line: Seq<u8>) -> Result<u32, EventError> {
    let toks = spec_tokens(line);
    if toks.len() < 5 {
        Err(EventError::WrongFieldCount)
    } else {
        let t = toks[4];
        if !(t.len() >= 2 && t[0] == 48 && t[1] == 120) {
            Err(EventError::MissingHexPrefix)
        } else {
            match spec_parse_radix(t.skip(2), 16) {
                None => Err(EventError::BadHexDigits),
                Some(w) => Ok(w),
            }
        }
    }
}

/// Reads the newly added window's identifier off one event line.
pub fn parse_node_add_event(line: &[u8]) -> (r: Result<u32, EventError>)
    ensures
        r == spec_parse_event(line@),
{
    let toks = split_ws(line);
    if toks.len() < 5 {
        return Err(EventError::WrongFieldCount);
    }
    let t: &Vec<u8> = &toks[4];
    proof {
        assert(t@ == spec_tokens(line@)[4]);
    }
    if !(t.len() >= 2 && t[0] == 48 && t[1] == 120) {
        return Err(EventError::MissingHexPrefix);
    }
    proof {
        assert(t@.subrange(2, t@.len() as int) =~= t@.skip(2));
    }
    match parse_radix_range(t.as_slice(), 2, t.len(), true) {
        None => Err(EventError::BadHexDigits),
        Some(w) => Ok(w),
    }
}

} // verus!
