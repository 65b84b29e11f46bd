//! Low-level helpers over byte slices: whitespace, equality, prefixes,
//! and trimming, each pinned to a spec-level description.

use vstd::prelude::*;

verus! {

/// ASCII whitespace, as the character class that line-oriented external
/// programs separate their fields with.
pub open spec fn is_ws(b: u8) -> bool {
    b == 9 || b == 10 || b == 11 || b == 12 || b == 13 || b == 32
}

pub fn is_ws_byte(b: u8) -> (r: bool)
    ensures
        r == is_ws(b),
{
    b == 9 || b == 10 || b == 11 || b == 12 || b == 13 || b == 32
}

/// The byte sequence with its leading whitespace dropped.
pub open spec fn trim_start(s: Seq<u8>) -> Seq<u8>
    decreases s.len(),
{
    if s.len() > 0 && is_ws(s[0]) {
        trim_start(s.skip(1))
    } else {
        s
    }
}

/// The byte sequence with its trailing whitespace dropped.
pub open spec fn trim_end(s: Seq<u8>) -> Seq<u8>
    decreases s.len(),
{
    if s.len() > 0 && is_ws(s.last()) {
        trim_end(s.drop_last())
    } else {
        s
    }
}

/// The byte sequence with whitespace dropped at both ends.
pub open spec fn spec_trim(s: Seq<u8>) -> Seq<u8> {
    trim_end(trim_start(s))
}

pub fn bytes_eq(a: &[u8], b: &[u8]) -> (r: bool)
    ensures
        r == (a@ == b@),
{
    if a.len() != b.len() {
        return false;
    }
    let mut i: usize = 0;
    while i < a.len()
        invariant
            0 <= i <= a@.len(),
            a@.len() == b@.len(),
            forall|k: int| 0 <= k < i ==> a@[k] == b@[k],
        decreases a@.len() - i,
    {
        if a[i] != b[i] {
            return false;
        }
        i = i + 1;
    }
    proof {
        assert(a@ =~= b@);
    }
    true
}

pub fn starts_with(s: &[u8], p: &[u8]) -> (r: bool)
    ensures
        r == (p@.len() <= s@.len() && s@.subrange(0, p@.len() as int) == p@),
{
    if p.len() > s.len() {
        return false;
    }
    let mut i: usize = 0;
    while i < p.len()
        invariant
            0 <= i <= p@.len() <= s@.len(),
            forall|k: int| 0 <= k < i ==> s@[k] == p@[k],
        decreases p@.len() - i,
    {
        if s[i] != p[i] {
            proof {
                assert(s@.subrange(0, p@.len() as int)[i as int] == s@[i as int]);
            }
            return false;
        }
        i = i + 1;
    }
    proof {
        assert(s@.subrange(0, p@.len() as int) =~= p@);
    }
    true
}

/// Bounds of the given range of `s` with whitespace trimmed at both ends.
pub fn trim_range(s: &[u8], lo0: usize, hi0: usize) -> (r: (usize, usize))
    requires
        lo0 <= hi0 <= s@.len(),
    ensures
        lo0 <= r.0 <= r.1 <= hi0,
        s@.subrange(r.0 as int, r.1 as int) == spec_trim(s@.subrange(lo0 as int, hi0 as int)),
{
    let ghost orig = s@.subrange(lo0 as int, hi0 as int);
    let mut lo: usize = lo0;
    while lo < hi0 && is_ws_byte(s[lo])
        invariant
            lo0 <= lo <= hi0 <= s@.len(),
            trim_start(orig) == trim_start(s@.subrange(lo as int, hi0 as int)),
            orig == s@.subrange(lo0 as int, hi0 as int),
        decreases hi0 - lo,
    {
        proof {
            assert(s@.subrange(lo as int, hi0 as int).skip(1) =~= s@.subrange(
                lo as int + 1,
                hi0 as int,
            ));
        }
        lo = lo + 1;
    }
    proof {
        assert(trim_start(orig) == s@.subrange(lo as int, hi0 as int));
    }
    let mut hi: usize = hi0;
    while hi > lo && is_ws_byte(s[hi - 1])
        invariant
            lo <= hi <= hi0 <= s@.len(),
            trim_end(s@.subrange(lo as int, hi0 as int)) == trim_end(
                s@.subrange(lo as int, hi as int),
            ),
        decreases hi - lo,
    {
        proof {
            assert(s@.subrange(lo as int, hi as int).drop_last() =~= s@.subrange(
                lo as int,
                hi as int - 1,
            ));
        }
        hi = hi - 1;
    }
    proof {
        assert(spec_trim(orig) == s@.subrange(lo as int, hi as int));
    }
    (lo, hi)
}

} // verus!
