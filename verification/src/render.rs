//! Rendering window identifiers as text: decimal for selector strings
//! handed to the window manager, hexadecimal for display, and the
//! first-ancestor selector used while detaching.

use vstd::prelude::*;
use crate::parse::{dec_digit, hex_digit, parse_radix_rec, spec_parse_radix, spec_parse_wid};

verus! {

/// Decimal digits of `n`, most significant first.
pub open spec fn spec_dec(n: nat) -> Seq<u8>
    decreases n,
{
    if n < 10 {
        seq![(48 + n) as u8]
    } else {
        spec_dec(n / 10).push((48 + n % 10) as u8)
    }
}

/// The byte for one hexadecimal digit, upper case.
pub open spec fn hex_digit_byte(d: nat) -> u8 {
    if d < 10 {
        (48 + d) as u8
    } else {
        (55 + d) as u8
    }
}

/// Hexadecimal digits of `n`, most significant first, upper case.
pub open spec fn spec_hex(n: nat) -> Seq<u8>
    decreases n,
{
    if n < 16 {
        seq![hex_digit_byte(n)]
    } else {
        spec_hex(n / 16).push(hex_digit_byte(n % 16))
    }
}

fn push_dec(n: u32, out: &mut Vec<u8>)
    ensures
        final(out)@ == old(out)@ + spec_dec(n as nat),
    decreases n,
{
    if n < 10 {
        out.push((48 + n) as u8);
        proof {
            assert(out@ =~= old(out)@ + spec_dec(n as nat));
        }
    } else {
        push_dec(n / 10, out);
        out.push((48 + n % 10) as u8);
        proof {
            assert(out@ =~= old(out)@ + spec_dec(n as nat));
        }
    }
}

fn push_hex(n: u32, out: &mut Vec<u8>)
    ensures
        final(out)@ == old(out)@ + spec_hex(n as nat),
    decreases n,
{
    if n < 16 {
        let d: u32 = if n < 10 {
            48 + n
        } else {
            55 + n
        };
        out.push(d as u8);
        proof {
            assert(out@ =~= old(out)@ + spec_hex(n as nat));
        }
    } else {
        push_hex(n / 16, out);
        let m: u32 = n % 16;
        let d: u32 = if m < 10 {
            48 + m
        } else {
            55 + m
        };
        out.push(d as u8);
        proof {
            assert(out@ =~= old(out)@ + spec_hex(n as nat));
        }
    }
}

/// The identifier in decimal, as the window manager's selectors take it.
pub fn wid_dec(w: u32) -> (r: Vec<u8>)
    ensures
        r@ == spec_dec(w as nat),
{
    let mut out: Vec<u8> = Vec::new();
    push_dec(w, &mut out);
    proof {
        assert(out@ =~= spec_dec(w as nat));
    }
    out
}

/// The identifier in `0x`-prefixed upper-case hexadecimal, for display.
pub fn wid_hex_upper(w: u32) -> (r: Vec<u8>)
    ensures
        r@ == seq![48u8, 120u8] + spec_hex(w as nat),
{
    let mut out: Vec<u8> = Vec::new();
    out.push(48);
    out.push(120);
    push_hex(w, &mut out);
    proof {
        assert(out@ =~= seq![48u8, 120u8] + spec_hex(w as nat));
    }
    out
}

/// The suffix that turns a window's selector into one naming its first
/// ancestor.
pub open spec fn ancestor_suffix() -> Seq<u8> {
    seq![
        35u8, 102u8, 105u8, 114u8, 115u8, 116u8, 95u8, 97u8, 110u8, 99u8, 101u8, 115u8, 116u8,
        111u8, 114u8,
    ]
}

/// The selector `<wid>#first_ancestor`, naming the first ancestor of the
/// given window.
pub fn first_ancestor_selector(w: u32) -> (r: Vec<u8>)
    ensures
        r@ == spec_dec(w as nat) + ancestor_suffix(),
{
    let mut out = wid_dec(w);
    let suffix: Vec<u8> = vec![
        35u8, 102u8, 105u8, 114u8, 115u8, 116u8, 95u8, 97u8, 110u8, 99u8, 101u8, 115u8, 116u8,
        111u8, 114u8,
    ];
    let mut i: usize = 0;
    while i < suffix.len()
        invariant
            0 <= i <= suffix@.len(),
            out@ == spec_dec(w as nat) + suffix@.take(i as int),
            suffix@ == ancestor_suffix(),
        decreases suffix@.len() - i,
    {
        out.push(suffix[i]);
        proof {
            assert(spec_dec(w as nat) + suffix@.take(i as int + 1) =~= (spec_dec(w as nat)
                + suffix@.take(i as int)).push(suffix@[i as int]));
        }
        i = i + 1;
    }
    proof {
        assert(suffix@ =~= ancestor_suffix());
        assert(suffix@.take(suffix@.len() as int) =~= suffix@);
        assert(spec_dec(w as nat) + suffix@.take(0) =~= spec_dec(w as nat));
    }
    out
}

/// Parsing digit by digit walks an appended sequence left to right.
proof fn lemma_parse_append(a: Seq<u8>, b: Seq<u8>, radix: u32, acc: u32)
    ensures
        parse_radix_rec(a + b, radix, acc) == (match parse_radix_rec(a, radix, acc) {
            None => None::<u32>,
            Some(v) => parse_radix_rec(b, radix, v),
        }),
    decreases a.len(),
{
    if a.len() == 0 {
        assert(a + b =~= b);
    } else {
        assert((a + b)[0] == a[0]);
        assert((a + b).skip(1) =~= a.skip(1) + b);
        let d = if radix == 16 {
            hex_digit(a[0])
        } else {
            dec_digit(a[0])
        };
        match d {
            None => {},
            Some(dv) => {
                if acc * radix + dv <= u32::MAX {
                    lemma_parse_append(a.skip(1), b, radix, (acc * radix + dv) as u32);
                }
            },
        }
    }
}

/// A decimal rendering reads back as the number it came from.
pub proof fn lemma_dec_round_trip(w: u32)
    ensures
        spec_parse_radix(spec_dec(w as nat), 10) == Some(w),
    decreases w,
{
    if w < 10 {
        assert(spec_dec(w as nat) == seq![(48 + w as nat) as u8]);
        assert(dec_digit((48 + w as nat) as u8) == Some(w));
        assert(spec_dec(w as nat).skip(1) =~= Seq::<u8>::empty());
        assert(parse_radix_rec(Seq::<u8>::empty(), 10, w) == Some(w));
    } else {
        lemma_dec_round_trip(w / 10);
        let head = spec_dec((w / 10) as nat);
        let digit = (48 + w as nat % 10) as u8;
        assert(head.len() > 0);
        assert(parse_radix_rec(head, 10, 0) == Some(w / 10));
        assert(spec_dec(w as nat) == head.push(digit));
        assert(head.push(digit) =~= head + seq![digit]);
        lemma_parse_append(head, seq![digit], 10, 0);
        assert(dec_digit(digit) == Some((w % 10) as u32));
        assert((w / 10) * 10 + w % 10 == w);
        assert(seq![digit].skip(1) =~= Seq::<u8>::empty());
        assert(parse_radix_rec(Seq::<u8>::empty(), 10, w) == Some(w));
        assert(parse_radix_rec(seq![digit], 10, w / 10) == Some(w));
        assert(parse_radix_rec(spec_dec(w as nat), 10, 0) == Some(w));
    }
}

/// A `0x`-prefixed upper-case hexadecimal rendering reads back, through
/// the identifier parser, as the number it came from.
pub proof fn lemma_hex_round_trip(w: u32)
    ensures
        spec_parse_wid(seq![48u8, 120u8] + spec_hex(w as nat)) == Some(w),
{
    let s = seq![48u8, 120u8] + spec_hex(w as nat);
    assert(spec_hex(w as nat).len() >= 1) by {
        lemma_hex_len(w);
    }
    assert(s.len() >= 2 && s[0] == 48 && s[1] == 120);
    assert(s.skip(2) =~= spec_hex(w as nat));
    lemma_hex_digits_parse(w);
}

proof fn lemma_hex_len(w: u32)
    ensures
        spec_hex(w as nat).len() >= 1,
{
}

proof fn lemma_hex_digits_parse(w: u32)
    ensures
        spec_parse_radix(spec_hex(w as nat), 16) == Some(w),
    decreases w,
{
    if w < 16 {
        let b = hex_digit_byte(w as nat);
        assert(spec_hex(w as nat) == seq![b]);
        assert(hex_digit(b) == Some(w));
        assert(seq![b].skip(1) =~= Seq::<u8>::empty());
        assert(parse_radix_rec(Seq::<u8>::empty(), 16, w) == Some(w));
    } else {
        lemma_hex_digits_parse(w / 16);
        let head = spec_hex((w / 16) as nat);
        let digit = hex_digit_byte((w % 16) as nat);
        assert(head.len() > 0);
        assert(parse_radix_rec(head, 16, 0) == Some(w / 16));
        assert(spec_hex(w as nat) == head.push(digit));
        assert(head.push(digit) =~= head + seq![digit]);
        lemma_parse_append(head, seq![digit], 16, 0);
        assert(hex_digit(digit) == Some((w % 16) as u32));
        assert((w / 16) * 16 + w % 16 == w);
        assert(seq![digit].skip(1) =~= Seq::<u8>::empty());
        assert(parse_radix_rec(Seq::<u8>::empty(), 16, w) == Some(w));
        assert(parse_radix_rec(seq![digit], 16, w / 16) == Some(w));
        assert(parse_radix_rec(spec_hex(w as nat), 16, 0) == Some(w));
    }
}

} // verus!
