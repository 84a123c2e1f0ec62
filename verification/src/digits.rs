//! Decimal rendering of integers as ASCII bytes.
//!
//! The renderers of this crate build their output as a `Vec<u8>` of ASCII
//! bytes, fully specified by spec functions over byte sequences, and turn it
//! into a `String` only at the boundary.

use vstd::prelude::*;

verus! {

/// The ASCII decimal digits of `n`, most significant first.
pub open spec fn dec_digits(n: nat) -> Seq<u8>
    decreases n,
{
    if n < 10 {
        seq![(48 + n) as u8]
    } else {
        dec_digits(n / 10).push((48 + n % 10) as u8)
    }
}

/// The ASCII rendering of a signed integer: a minus sign followed by the
/// digits of its magnitude.
pub open spec fn dec_int(n: int) -> Seq<u8> {
    if n < 0 {
        seq![45u8] + dec_digits((-n) as nat)
    } else {
        dec_digits(n as nat)
    }
}

/// Every byte of a decimal digit rendering is an ASCII digit.
pub proof fn lemma_dec_digits_ascii(n: nat)
    ensures
        forall|i: int|
            0 <= i < dec_digits(n).len() ==> 48 <= #[trigger] dec_digits(n)[i] <= 57,
    decreases n,
{
    if n >= 10 {
        lemma_dec_digits_ascii(n / 10);
        let prefix = dec_digits(n / 10);
        let all = dec_digits(n);
        assert forall|i: int| 0 <= i < all.len() implies 48 <= #[trigger] all[i] <= 57 by {
            if i < prefix.len() {
                assert(all[i] == prefix[i]);
            } else {
                assert(all[i] == (48 + n % 10) as u8);
            }
        }
    }
}

/// Append the decimal digits of `n` to `out`.
pub fn push_u64_dec(out: &mut Vec<u8>, n: u64)
    ensures
        final(out)@ == old(out)@ + dec_digits(n as nat),
    decreases n,
{
    if n >= 10 {
        push_u64_dec(out, n / 10);
        out.push(48 + (n % 10) as u8);
        proof {
            assert(final(out)@ =~= old(out)@ + dec_digits(n as nat));
        }
    } else {
        out.push(48 + n as u8);
        proof {
            assert(final(out)@ =~= old(out)@ + dec_digits(n as nat));
        }
    }
}

/// Append the decimal rendering of a signed integer to `out`.
pub fn push_i64_dec(out: &mut Vec<u8>, n: i64)
    ensures
        final(out)@ == old(out)@ + dec_int(n as int),
    {
    if n < 0 {
        out.push(45);
        let magnitude: u64 = (-(n as i128)) as u64;
        push_u64_dec(out, magnitude);
        proof {
            assert(final(out)@ =~= old(out)@ + dec_int(n as int));
        }
    } else {
        push_u64_dec(out, n as u64);
    }
}

/// Whether every byte of a sequence is ASCII.
pub open spec fn all_ascii(s: Seq<u8>) -> bool {
    forall|i: int| 0 <= i < s.len() ==> #[trigger] s[i] < 128
}

/// ASCII survives concatenation.
pub proof fn lemma_ascii_concat(a: Seq<u8>, b: Seq<u8>)
    requires
        all_ascii(a),
        all_ascii(b),
    ensures
        all_ascii(a + b),
{
    assert forall|i: int| 0 <= i < (a + b).len() implies #[trigger] (a + b)[i] < 128 by {
        if i < a.len() {
            assert((a + b)[i] == a[i]);
        } else {
            assert((a + b)[i] == b[i - a.len()]);
        }
    }
}

/// A signed decimal rendering is ASCII.
pub proof fn lemma_ascii_dec_int(n: int)
    ensures
        all_ascii(dec_int(n)),
{
    if n < 0 {
        lemma_dec_digits_ascii((-n) as nat);
        lemma_ascii_concat(seq![45u8], dec_digits((-n) as nat));
    } else {
        lemma_dec_digits_ascii(n as nat);
    }
}

/// One unit component of a time rendering: nothing for a zero value,
/// otherwise the value and its unit letter, preceded by a separating space
/// when an earlier component was already written.
pub open spec fn unit_seq(v: int, unit: u8, sep: bool) -> Seq<u8> {
    if v == 0 {
        Seq::empty()
    } else {
        (if sep {
            seq![32u8]
        } else {
            Seq::<u8>::empty()
        }) + dec_int(v) + seq![unit]
    }
}

/// A unit component with an ASCII unit letter is ASCII.
pub proof fn lemma_ascii_unit_seq(v: int, unit: u8, sep: bool)
    requires
        unit < 128,
    ensures
        all_ascii(unit_seq(v, unit, sep)),
{
    if v != 0 {
        lemma_ascii_dec_int(v);
        let sep_seq: Seq<u8> = if sep {
            seq![32u8]
        } else {
            Seq::<u8>::empty()
        };
        lemma_ascii_concat(sep_seq, dec_int(v));
        lemma_ascii_concat(sep_seq + dec_int(v), seq![unit]);
    }
}

/// Append one unit component to `out`.
pub fn push_unit(out: &mut Vec<u8>, v: i64, unit: u8, sep: bool)
    ensures
        final(out)@ == old(out)@ + unit_seq(v as int, unit, sep),
{
    if v != 0 {
        if sep {
            out.push(32);
        }
        push_i64_dec(out, v);
        out.push(unit);
        proof {
            assert(out@ =~= old(out)@ + unit_seq(v as int, unit, sep));
        }
    } else {
        proof {
            assert(out@ =~= old(out)@ + unit_seq(v as int, unit, sep));
        }
    }
}

/// The characters of an ASCII byte sequence.
pub open spec fn ascii_view(s: Seq<u8>) -> Seq<char> {
    Seq::new(s.len(), |i: int| s[i] as char)
}

/// Relies on `String::from_utf8`: a vector of ASCII bytes is valid UTF-8 and
/// converts to the string of exactly those characters.
#[verifier::external_body]
pub fn ascii_string(bytes: Vec<u8>) -> (r: String)
    requires
        forall|i: int| 0 <= i < bytes@.len() ==> bytes@[i] < 128,
    ensures
        r@ == ascii_view(bytes@),
{
    String::from_utf8(bytes).unwrap()
}

} // verus!
