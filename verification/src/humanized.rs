//! Human-readable renderings of the simulation time types.
//!
//! A delta renders as its non-zero year, day, hour and minute components
//! with their unit letters, followed by the seconds with an exact decimal
//! fraction (ticks are 1/1024 s, so every fraction terminates). Parsing
//! accepts any sequence of signed decimal numbers with unit letters and
//! sums them.

use vstd::prelude::*;
use vstd::string::StringSliceAdditionalSpecFns;

use crate::digits::{
    all_ascii, ascii_string, ascii_view, dec_digits, dec_int, lemma_ascii_concat,
    lemma_ascii_unit_seq, lemma_dec_digits_ascii, push_u64_dec, push_unit, unit_seq,
};
use crate::sim_time::{
    div_trunc, rem_trunc, Duration, NegativeTimeDelta, Time, TimeDelta, TICKS_PER_DAY,
    TICKS_PER_HOUR, TICKS_PER_MINUTE, TICKS_PER_SECOND, TICKS_PER_YEAR,
};

verus! {

broadcast use crate::sim_time::lemma_delta_bounds;

/// Wraps a time value to render it in, and parse it from, a human-readable
/// form.
#[derive(Clone, Copy, Debug, Hash, PartialEq, Eq, PartialOrd, Ord)]
pub struct Humanized<T>(pub T);

/// Parsing a human-readable time delta failed.
#[derive(Clone, Copy, Debug, PartialEq, Eq, Structural)]
pub enum ParseTimeDeltaError {
    /// Expected a sequence of numbers and units.
    UnrecognizedTerm,
    /// A number failed to convert; kept for completeness, the grammar only
    /// admits convertible numbers.
    FloatConversionError,
}

/// Parsing a human-readable duration failed.
#[derive(Clone, Copy, Debug, PartialEq, Eq, Structural)]
pub enum ParseDurationError {
    /// The text denotes a negative delta, which is no duration.
    NegativeTimeDelta(NegativeTimeDelta),
    /// The text is not a delta at all.
    ParseTimeDeltaError(ParseTimeDeltaError),
}

/// The decimal digits of the fraction `r`/1024, high digit first, with
/// trailing zeros stripped; ten digits always suffice.
pub open spec fn frac_digits_spec(r: int, fuel: nat) -> Seq<u8>
    decreases fuel,
{
    if fuel == 0 || r <= 0 {
        Seq::empty()
    } else {
        seq![(48 + (r * 10) / 1024) as u8] + frac_digits_spec((r * 10) % 1024, (fuel - 1) as nat)
    }
}

/// The seconds part of a rendering: the signed tick count `t` shown as
/// seconds, with an exact decimal fraction when it is not whole.
pub open spec fn seconds_str(t: int) -> Seq<u8> {
    let mag = if t < 0 {
        -t
    } else {
        t
    };
    let sign: Seq<u8> = if t < 0 {
        seq![45u8]
    } else {
        Seq::<u8>::empty()
    };
    let whole = mag / (TICKS_PER_SECOND as int);
    let fr = mag % (TICKS_PER_SECOND as int);
    sign + dec_digits(whole as nat) + (if fr == 0 {
        Seq::<u8>::empty()
    } else {
        seq![46u8] + frac_digits_spec(fr, 10)
    })
}

/// The full human-readable rendering of a delta of `v` ticks.
pub open spec fn render_delta_spec(v: int) -> Seq<u8> {
    if v == 0 {
        seq![48u8]
    } else {
        let years = div_trunc(v, TICKS_PER_YEAR as int);
        let t1 = rem_trunc(v, TICKS_PER_YEAR as int);
        let days = div_trunc(t1, TICKS_PER_DAY as int);
        let t2 = rem_trunc(t1, TICKS_PER_DAY as int);
        let hours = div_trunc(t2, TICKS_PER_HOUR as int);
        let t3 = rem_trunc(t2, TICKS_PER_HOUR as int);
        let minutes = div_trunc(t3, TICKS_PER_MINUTE as int);
        let t4 = rem_trunc(t3, TICKS_PER_MINUTE as int);
        let written = years != 0 || days != 0 || hours != 0 || minutes != 0;
        unit_seq(years, 121, false) + unit_seq(days, 100, years != 0) + unit_seq(
            hours,
            104,
            years != 0 || days != 0,
        ) + unit_seq(minutes, 109, years != 0 || days != 0 || hours != 0) + (if t4 != 0 {
            (if written {
                seq![32u8]
            } else {
                Seq::<u8>::empty()
            }) + seconds_str(t4) + seq![115u8]
        } else {
            Seq::<u8>::empty()
        })
    }
}

/// The fraction digits are ASCII digits.
proof fn lemma_ascii_frac_digits(r: int, fuel: nat)
    requires
        r < 1024,
    ensures
        all_ascii(frac_digits_spec(r, fuel)),
    decreases fuel,
{
    if fuel > 0 && r > 0 {
        vstd::arithmetic::div_mod::lemma_mod_division_less_than_divisor(r * 10, 1024);
        vstd::arithmetic::div_mod::lemma_div_is_ordered(r * 10, 10240 - 1, 1024);
        vstd::arithmetic::div_mod::lemma_div_pos_is_pos(r * 10, 1024);
        lemma_ascii_frac_digits((r * 10) % 1024, (fuel - 1) as nat);
        let d = (r * 10) / 1024;
        lemma_ascii_concat(
            seq![(48 + d) as u8],
            frac_digits_spec((r * 10) % 1024, (fuel - 1) as nat),
        );
    }
}

/// The seconds part is ASCII.
proof fn lemma_ascii_seconds_str(t: int)
    ensures
        all_ascii(seconds_str(t)),
{
    let mag = if t < 0 {
        -t
    } else {
        t
    };
    let sign: Seq<u8> = if t < 0 {
        seq![45u8]
    } else {
        Seq::<u8>::empty()
    };
    let whole = mag / (TICKS_PER_SECOND as int);
    let fr = mag % (TICKS_PER_SECOND as int);
    lemma_dec_digits_ascii(whole as nat);
    vstd::arithmetic::div_mod::lemma_mod_division_less_than_divisor(mag, 1024);
    lemma_ascii_frac_digits(fr, 10);
    lemma_ascii_concat(sign, dec_digits(whole as nat));
    if fr != 0 {
        lemma_ascii_concat(seq![46u8], frac_digits_spec(fr, 10));
        lemma_ascii_concat(sign + dec_digits(whole as nat), seq![46u8] + frac_digits_spec(fr, 10));
    } else {
        lemma_ascii_concat(sign + dec_digits(whole as nat), Seq::<u8>::empty());
    }
}

/// A delta rendering is ASCII.
proof fn lemma_ascii_render_delta(v: int)
    ensures
        all_ascii(render_delta_spec(v)),
{
    if v != 0 {
        let years = div_trunc(v, TICKS_PER_YEAR as int);
        let t1 = rem_trunc(v, TICKS_PER_YEAR as int);
        let days = div_trunc(t1, TICKS_PER_DAY as int);
        let t2 = rem_trunc(t1, TICKS_PER_DAY as int);
        let hours = div_trunc(t2, TICKS_PER_HOUR as int);
        let t3 = rem_trunc(t2, TICKS_PER_HOUR as int);
        let minutes = div_trunc(t3, TICKS_PER_MINUTE as int);
        let t4 = rem_trunc(t3, TICKS_PER_MINUTE as int);
        let written = years != 0 || days != 0 || hours != 0 || minutes != 0;
        lemma_ascii_unit_seq(years, 121, false);
        lemma_ascii_unit_seq(days, 100, years != 0);
        lemma_ascii_unit_seq(hours, 104, years != 0 || days != 0);
        lemma_ascii_unit_seq(minutes, 109, years != 0 || days != 0 || hours != 0);
        let a = unit_seq(years, 121, false);
        let b = unit_seq(days, 100, years != 0);
        let c = unit_seq(hours, 104, years != 0 || days != 0);
        let d = unit_seq(minutes, 109, years != 0 || days != 0 || hours != 0);
        lemma_ascii_concat(a, b);
        lemma_ascii_concat(a + b, c);
        lemma_ascii_concat(a + b + c, d);
        let tail: Seq<u8> = if t4 != 0 {
            (if written {
                seq![32u8]
            } else {
                Seq::<u8>::empty()
            }) + seconds_str(t4) + seq![115u8]
        } else {
            Seq::<u8>::empty()
        };
        if t4 != 0 {
            let sep: Seq<u8> = if written {
                seq![32u8]
            } else {
                Seq::<u8>::empty()
            };
            lemma_ascii_seconds_str(t4);
            lemma_ascii_concat(sep, seconds_str(t4));
            lemma_ascii_concat(sep + seconds_str(t4), seq![115u8]);
        }
        lemma_ascii_concat(a + b + c + d, tail);
    }
}

/// Whether a sequence is free of newline bytes.
pub open spec fn no_nl(s: Seq<u8>) -> bool {
    forall|k: int| 0 <= k < s.len() ==> #[trigger] s[k] != 10
}

/// Newline-freedom survives concatenation.
proof fn lemma_no_nl_concat(a: Seq<u8>, b: Seq<u8>)
    requires
        no_nl(a),
        no_nl(b),
    ensures
        no_nl(a + b),
{
    assert forall|k: int| 0 <= k < (a + b).len() implies #[trigger] (a + b)[k] != 10 by {
        if k < a.len() {
            assert((a + b)[k] == a[k]);
        } else {
            assert((a + b)[k] == b[k - a.len()]);
        }
    }
}

/// A signed decimal rendering holds no newline.
proof fn lemma_no_nl_dec_int(n: int)
    ensures
        no_nl(dec_int(n)),
{
    if n < 0 {
        lemma_dec_digits_ascii((-n) as nat);
        lemma_no_nl_concat(seq![45u8], dec_digits((-n) as nat));
    } else {
        lemma_dec_digits_ascii(n as nat);
    }
}

/// A unit component holds no newline.
proof fn lemma_no_nl_unit_seq(v: int, unit: u8, sep: bool)
    requires
        unit != 10,
    ensures
        no_nl(unit_seq(v, unit, sep)),
{
    if v != 0 {
        lemma_no_nl_dec_int(v);
        let sep_seq: Seq<u8> = if sep {
            seq![32u8]
        } else {
            Seq::<u8>::empty()
        };
        lemma_no_nl_concat(sep_seq, dec_int(v));
        lemma_no_nl_concat(sep_seq + dec_int(v), seq![unit]);
    }
}

/// The seconds part holds no newline.
proof fn lemma_no_nl_seconds_str(t: int)
    ensures
        no_nl(seconds_str(t)),
{
    let mag = if t < 0 {
        -t
    } else {
        t
    };
    let sign: Seq<u8> = if t < 0 {
        seq![45u8]
    } else {
        Seq::<u8>::empty()
    };
    let whole = mag / (TICKS_PER_SECOND as int);
    let fr = mag % (TICKS_PER_SECOND as int);
    lemma_dec_digits_ascii(whole as nat);
    vstd::arithmetic::div_mod::lemma_mod_division_less_than_divisor(mag, 1024);
    lemma_frac_digits_are_digits(fr, 10);
    lemma_no_nl_concat(sign, dec_digits(whole as nat));
    if fr != 0 {
        lemma_no_nl_concat(seq![46u8], frac_digits_spec(fr, 10));
        lemma_no_nl_concat(sign + dec_digits(whole as nat), seq![46u8] + frac_digits_spec(fr, 10));
    } else {
        lemma_no_nl_concat(sign + dec_digits(whole as nat), Seq::<u8>::empty());
    }
}

/// A delta rendering holds no newline.
proof fn lemma_no_nl_render_delta(v: int)
    ensures
        no_nl(render_delta_spec(v)),
{
    if v != 0 {
        let years = div_trunc(v, TICKS_PER_YEAR as int);
        let t1 = rem_trunc(v, TICKS_PER_YEAR as int);
        let days = div_trunc(t1, TICKS_PER_DAY as int);
        let t2 = rem_trunc(t1, TICKS_PER_DAY as int);
        let hours = div_trunc(t2, TICKS_PER_HOUR as int);
        let t3 = rem_trunc(t2, TICKS_PER_HOUR as int);
        let minutes = div_trunc(t3, TICKS_PER_MINUTE as int);
        let t4 = rem_trunc(t3, TICKS_PER_MINUTE as int);
        let written = years != 0 || days != 0 || hours != 0 || minutes != 0;
        lemma_no_nl_unit_seq(years, 121, false);
        lemma_no_nl_unit_seq(days, 100, years != 0);
        lemma_no_nl_unit_seq(hours, 104, years != 0 || days != 0);
        lemma_no_nl_unit_seq(minutes, 109, years != 0 || days != 0 || hours != 0);
        let a = unit_seq(years, 121, false);
        let b = unit_seq(days, 100, years != 0);
        let c = unit_seq(hours, 104, years != 0 || days != 0);
        let d = unit_seq(minutes, 109, years != 0 || days != 0 || hours != 0);
        lemma_no_nl_concat(a, b);
        lemma_no_nl_concat(a + b, c);
        lemma_no_nl_concat(a + b + c, d);
        let tail: Seq<u8> = if t4 != 0 {
            (if written {
                seq![32u8]
            } else {
                Seq::<u8>::empty()
            }) + seconds_str(t4) + seq![115u8]
        } else {
            Seq::<u8>::empty()
        };
        if t4 != 0 {
            let sep: Seq<u8> = if written {
                seq![32u8]
            } else {
                Seq::<u8>::empty()
            };
            lemma_no_nl_seconds_str(t4);
            lemma_no_nl_concat(sep, seconds_str(t4));
            lemma_no_nl_concat(sep + seconds_str(t4), seq![115u8]);
        }
        lemma_no_nl_concat(a + b + c + d, tail);
    }
}

/// Append the seconds part to `out`.
fn push_seconds(out: &mut Vec<u8>, t: i64)
    requires
        -(TICKS_PER_MINUTE as int) < t < TICKS_PER_MINUTE as int,
    ensures
        final(out)@ == old(out)@ + seconds_str(t as int),
{
    if t < 0 {
        out.push(45);
    }
    let mag: u64 = if t < 0 {
        (-(t as i128)) as u64
    } else {
        t as u64
    };
    let whole: u64 = mag / 1024;
    let mut fr: u64 = mag % 1024;
    push_u64_dec(out, whole);
    proof {
        vstd::arithmetic::div_mod::lemma_mod_division_less_than_divisor(mag as int, 1024);
    }
    if fr != 0 {
        out.push(46);
        let ghost fr0 = fr as int;
        let ghost base = out@;
        let mut fuel: u64 = 10;
        while fr != 0 && fuel > 0
            invariant
                0 <= fr < 1024,
                fuel <= 10,
                out@ + frac_digits_spec(fr as int, fuel as nat) == base + frac_digits_spec(
                    fr0,
                    10,
                ),
            decreases fuel,
        {
            let d: u64 = (fr * 10) / 1024;
            proof {
                vstd::arithmetic::div_mod::lemma_div_is_ordered(fr as int * 10, 10240 - 1, 1024);
                vstd::arithmetic::div_mod::lemma_mod_division_less_than_divisor(
                    fr as int * 10,
                    1024,
                );
            }
            out.push(48 + d as u8);
            proof {
                assert(out@ + frac_digits_spec((fr as int * 10) % 1024, (fuel - 1) as nat) =~= base
                    + frac_digits_spec(fr0, 10));
            }
            fr = (fr * 10) % 1024;
            fuel = fuel - 1;
        }
        proof {
            assert(out@ =~= base + frac_digits_spec(fr0, 10));
            assert(out@ =~= old(out)@ + seconds_str(t as int));
        }
    } else {
        proof {
            assert(out@ =~= old(out)@ + seconds_str(t as int));
        }
    }
}

/// Append the rendering of a delta of `v` ticks to `out`.
#[verifier::spinoff_prover]
#[verifier::rlimit(100)]
fn push_delta(out: &mut Vec<u8>, v: i64)
    ensures
        final(out)@ == old(out)@ + render_delta_spec(v as int),
{
    if v == 0 {
        out.push(48);
        proof {
            assert(out@ =~= old(out)@ + render_delta_spec(v as int));
        }
        return ;
    }
    let years: i64 = crate::sim_time::div_trunc_i64(v, TICKS_PER_YEAR);
    let t1: i64 = crate::sim_time::rem_trunc_i64(v, TICKS_PER_YEAR);
    let days: i64 = crate::sim_time::div_trunc_i64(t1, TICKS_PER_DAY);
    let t2: i64 = crate::sim_time::rem_trunc_i64(t1, TICKS_PER_DAY);
    let hours: i64 = crate::sim_time::div_trunc_i64(t2, TICKS_PER_HOUR);
    let t3: i64 = crate::sim_time::rem_trunc_i64(t2, TICKS_PER_HOUR);
    let minutes: i64 = crate::sim_time::div_trunc_i64(t3, TICKS_PER_MINUTE);
    let t4: i64 = crate::sim_time::rem_trunc_i64(t3, TICKS_PER_MINUTE);
    push_unit(out, years, 121, false);
    push_unit(out, days, 100, years != 0);
    push_unit(out, hours, 104, years != 0 || days != 0);
    push_unit(out, minutes, 109, years != 0 || days != 0 || hours != 0);
    let written: bool = years != 0 || days != 0 || hours != 0 || minutes != 0;
    proof {
        assert(out@ =~= old(out)@ + unit_seq(years as int, 121, false) + unit_seq(
            days as int,
            100,
            years != 0,
        ) + unit_seq(hours as int, 104, years != 0 || days != 0) + unit_seq(
            minutes as int,
            109,
            years != 0 || days != 0 || hours != 0,
        ));
    }
    proof {
        assert(render_delta_spec(v as int) == unit_seq(
            div_trunc(v as int, TICKS_PER_YEAR as int),
            121,
            false,
        ) + unit_seq(days as int, 100, years != 0) + unit_seq(
            hours as int,
            104,
            years != 0 || days != 0,
        ) + unit_seq(minutes as int, 109, years != 0 || days != 0 || hours != 0) + (if t4 as int
            != 0 {
            (if years != 0 || days != 0 || hours != 0 || minutes != 0 {
                seq![32u8]
            } else {
                Seq::<u8>::empty()
            }) + seconds_str(t4 as int) + seq![115u8]
        } else {
            Seq::<u8>::empty()
        }));
    }
    let ghost head = old(out)@ + unit_seq(years as int, 121, false) + unit_seq(
        days as int,
        100,
        years != 0,
    ) + unit_seq(hours as int, 104, years != 0 || days != 0) + unit_seq(
        minutes as int,
        109,
        years != 0 || days != 0 || hours != 0,
    );
    if t4 != 0 {
        if written {
            out.push(32);
        }
        proof {
            crate::sim_time::lemma_rem_trunc_range(t3 as int, TICKS_PER_MINUTE as int);
        }
        push_seconds(out, t4);
        out.push(115);
        proof {
            assert(out@ =~= head + ((if written {
                seq![32u8]
            } else {
                Seq::<u8>::empty()
            }) + seconds_str(t4 as int) + seq![115u8]));
        }
    }
    proof {
        assert(out@ =~= old(out)@ + render_delta_spec(v as int));
    }
}

/// ASCII whitespace, as the parser's grammar understands it.
pub open spec fn is_ws(b: u8) -> bool {
    b == 32 || b == 9 || b == 10 || b == 11 || b == 12 || b == 13
}

/// An ASCII decimal digit.
pub open spec fn is_digit(b: u8) -> bool {
    48 <= b <= 57
}

/// A unit letter: `y`, `d`, `h`, `m` or `s`.
pub open spec fn is_unit_letter(b: u8) -> bool {
    b == 121 || b == 100 || b == 104 || b == 109 || b == 115
}

/// The tick count of one unit.
pub open spec fn unit_ticks(b: u8) -> int {
    if b == 121 {
        TICKS_PER_YEAR as int
    } else if b == 100 {
        TICKS_PER_DAY as int
    } else if b == 104 {
        TICKS_PER_HOUR as int
    } else if b == 109 {
        TICKS_PER_MINUTE as int
    } else {
        TICKS_PER_SECOND as int
    }
}

/// The first position at or after `i` that does not hold whitespace.
pub open spec fn skip_ws_spec(s: Seq<u8>, i: int) -> int
    decreases s.len() - i,
{
    if !(0 <= i < s.len()) {
        i
    } else if !is_ws(s[i]) {
        i
    } else {
        skip_ws_spec(s, i + 1)
    }
}

/// The first position at or after `i` that does not hold a digit.
pub open spec fn skip_digits_spec(s: Seq<u8>, i: int) -> int
    decreases s.len() - i,
{
    if !(0 <= i < s.len()) {
        i
    } else if !is_digit(s[i]) {
        i
    } else {
        skip_digits_spec(s, i + 1)
    }
}

/// The first position at or after `i` that does not hold an ASCII zero.
pub open spec fn skip_zeros_spec(s: Seq<u8>, i: int) -> int
    decreases s.len() - i,
{
    if !(0 <= i < s.len()) {
        i
    } else if s[i] != 48 {
        i
    } else {
        skip_zeros_spec(s, i + 1)
    }
}

/// The first position, scanning backward from `i`, such that everything
/// between it and `i` is whitespace.
pub open spec fn rskip_ws_spec(s: Seq<u8>, i: int) -> int
    decreases i,
{
    if i <= 0 || i > s.len() {
        i
    } else if !is_ws(s[i - 1]) {
        i
    } else {
        rskip_ws_spec(s, i - 1)
    }
}

/// The input with leading and trailing ASCII whitespace removed.
pub open spec fn trim_spec(s: Seq<u8>) -> Seq<u8> {
    let a = skip_ws_spec(s, 0);
    let b = rskip_ws_spec(s, s.len() as int);
    if 0 <= a <= b <= s.len() {
        s.subrange(a, b)
    } else {
        Seq::empty()
    }
}

/// A literal that denotes exactly zero: optional sign, zeros with an
/// optional point, and an optional exponent (the one place the grammar
/// accepts an upper-case `E`).
pub open spec fn is_zero_literal(s: Seq<u8>) -> bool {
    let i1: int = if s.len() > 0 && s[0] == 45 {
        1
    } else {
        0
    };
    let ze = skip_zeros_spec(s, i1);
    let after: int = if ze > i1 {
        if ze < s.len() && s[ze] == 46 {
            skip_zeros_spec(s, ze + 1)
        } else {
            ze
        }
    } else if i1 < s.len() && s[i1] == 46 && skip_zeros_spec(s, i1 + 1) > i1 + 1 {
        skip_zeros_spec(s, i1 + 1)
    } else {
        -1
    };
    if after < 0 {
        false
    } else if after == s.len() {
        true
    } else if (s[after] == 101 || s[after] == 69) && skip_digits_spec(s, after + 1) > after + 1 {
        skip_digits_spec(s, after + 1) == s.len()
    } else {
        false
    }
}

/// The digit bytes with their leading zeros removed.
pub open spec fn strip0(s: Seq<u8>) -> Seq<u8>
    decreases s.len(),
{
    if s.len() > 0 && s[0] == 48 {
        strip0(s.drop_first())
    } else {
        s
    }
}

/// The value of a sequence of ASCII digit bytes, high digit first.
pub open spec fn dval(s: Seq<u8>) -> int
    decreases s.len(),
{
    if s.len() == 0 {
        0
    } else {
        dval(s.drop_last()) * 10 + (s.last() - 48)
    }
}

/// Ten to the `n`.
pub open spec fn pow10(n: nat) -> int
    decreases n,
{
    if n == 0 {
        1
    } else {
        10 * pow10((n - 1) as nat)
    }
}

/// The first 25 bytes, or all of them when there are fewer.
pub open spec fn take25(s: Seq<u8>) -> Seq<u8> {
    if s.len() <= 25 {
        s
    } else {
        s.take(25)
    }
}

/// A value clipped to the range a delta can hold.
pub open spec fn clamp_i64(v: int) -> int {
    if v > i64::MAX {
        i64::MAX as int
    } else if v < i64::MIN {
        i64::MIN as int
    } else {
        v
    }
}

/// The tick value of one parsed term: the decimal literal, scaled by its
/// unit, truncated toward zero and clipped to the delta range. The literal
/// is read from its first 25 significant digits; later digits only hold
/// their places.
pub open spec fn term_value(neg: bool, digits: Seq<u8>, f: int, e: int, unit: int) -> int {
    let sig = strip0(digits);
    let point = sig.len() + e - f;
    if sig.len() == 0 {
        0
    } else if point >= 20 {
        if neg {
            i64::MIN as int
        } else {
            i64::MAX as int
        }
    } else if point <= -12 {
        0
    } else {
        let lp: int = if sig.len() <= 25 {
            sig.len() as int
        } else {
            25
        };
        let p = dval(sig.take(lp));
        let raw: int = if point >= lp {
            p * unit * pow10((point - lp) as nat)
        } else {
            (p * unit) / pow10((lp - point) as nat)
        };
        clamp_i64(
            if neg {
                -raw
            } else {
                raw
            },
        )
    }
}

/// Whether a newline byte occurs at or after position `i`.
pub open spec fn contains_nl(s: Seq<u8>, i: int) -> bool {
    exists|j: int| i <= j < s.len() && s[j] == 10
}

/// The rest of a term after its digits: an optional exponent, optional
/// whitespace, the unit letter, and trailing whitespace; what follows on
/// the same line is handed back as the next term's start.
pub open spec fn term_tail(s: Seq<u8>, neg: bool, digits: Seq<u8>, f: int, pos: int) -> Option<
    (int, int),
> {
    let has_e = pos < s.len() && s[pos] == 101 && skip_digits_spec(s, pos + 1) > pos + 1;
    let e: int = if has_e {
        dval(s.subrange(pos + 1, skip_digits_spec(s, pos + 1)))
    } else {
        0
    };
    let after: int = if has_e {
        skip_digits_spec(s, pos + 1)
    } else {
        pos
    };
    let upos = skip_ws_spec(s, after);
    if upos < s.len() && is_unit_letter(s[upos]) {
        let v = term_value(neg, digits, f, e, unit_ticks(s[upos]));
        let rest = skip_ws_spec(s, upos + 1);
        if rest == s.len() {
            Some((v, rest))
        } else if contains_nl(s, rest) {
            None
        } else {
            Some((v, rest))
        }
    } else {
        None
    }
}

/// One term starting at position `i`: a signed decimal number, an optional
/// exponent, and a unit letter. Yields its tick value and the position of
/// the next term.
pub open spec fn term_at(s: Seq<u8>, i: int) -> Option<(int, int)> {
    let neg = i < s.len() && s[i] == 45;
    let i1: int = if neg {
        i + 1
    } else {
        i
    };
    let ie = skip_digits_spec(s, i1);
    if ie > i1 {
        let dotted = ie < s.len() && s[ie] == 46;
        let fs: int = if dotted {
            ie + 1
        } else {
            ie
        };
        let fe: int = if dotted {
            skip_digits_spec(s, ie + 1)
        } else {
            ie
        };
        term_tail(s, neg, s.subrange(i1, ie) + s.subrange(fs, fe), fe - fs, fe)
    } else if i1 < s.len() && s[i1] == 46 && skip_digits_spec(s, i1 + 1) > i1 + 1 {
        let fe = skip_digits_spec(s, i1 + 1);
        term_tail(s, neg, s.subrange(i1 + 1, fe), fe - (i1 + 1), fe)
    } else {
        None
    }
}

/// What remains of the fraction `r`/1024 after the renderer has emitted
/// its digits.
pub open spec fn frac_rem(r: int, fuel: nat) -> int
    decreases fuel,
{
    if fuel == 0 || r <= 0 {
        r
    } else {
        frac_rem((r * 10) % 1024, (fuel - 1) as nat)
    }
}

/// The fraction digits represent `r`/1024 up to the remainder left when
/// the digit budget runs out.
pub proof fn lemma_frac_digits_value(r: int, fuel: nat)
    requires
        0 <= r < 1024,
    ensures
        r * pow10(frac_digits_spec(r, fuel).len()) == dval(frac_digits_spec(r, fuel)) * 1024
            + frac_rem(r, fuel),
    decreases fuel,
{
    if fuel == 0 || r <= 0 {
        assert(frac_digits_spec(r, fuel).len() == 0);
    } else {
        let d = (r * 10) / 1024;
        let r2 = (r * 10) % 1024;
        let rest = frac_digits_spec(r2, (fuel - 1) as nat);
        let s = frac_digits_spec(r, fuel);
        vstd::arithmetic::div_mod::lemma_mod_division_less_than_divisor(r * 10, 1024);
        vstd::arithmetic::div_mod::lemma_div_is_ordered(r * 10, 10240 - 1, 1024);
        vstd::arithmetic::div_mod::lemma_div_pos_is_pos(r * 10, 1024);
        lemma_frac_digits_value(r2, (fuel - 1) as nat);
        assert(s == seq![(48 + d) as u8] + rest);
        assert(s.len() == 1 + rest.len());
        lemma_dval_prepend_digit(d, rest);
        vstd::arithmetic::div_mod::lemma_fundamental_div_mod(r * 10, 1024);
        // r * 10^(1+len) == (r*10) * 10^len == (1024*d + r2) * 10^len
        assert(pow10((1 + rest.len()) as nat) == 10 * pow10(rest.len()));
        assert(r * (10 * pow10(rest.len())) == (r * 10) * pow10(rest.len()))
            by (nonlinear_arith);
        assert((1024 * d + r2) * pow10(rest.len()) == (1024 * d) * pow10(rest.len()) + r2 * pow10(
            rest.len(),
        )) by (nonlinear_arith);
        assert((d * pow10(rest.len()) + dval(rest)) * 1024 == (1024 * d) * pow10(rest.len())
            + dval(rest) * 1024) by (nonlinear_arith);
    }
}

/// Prepending a digit to a digit string scales its value by the string's
/// length in powers of ten.
proof fn lemma_dval_prepend_digit(d: int, rest: Seq<u8>)
    requires
        0 <= d <= 9,
    ensures
        dval(seq![(48 + d) as u8] + rest) == d * pow10(rest.len()) + dval(rest),
    decreases rest.len(),
{
    let s = seq![(48 + d) as u8] + rest;
    if rest.len() == 0 {
        assert(s =~= seq![(48 + d) as u8]);
        assert(s.drop_last() =~= Seq::<u8>::empty());
        assert(dval(Seq::<u8>::empty()) == 0);
        assert(pow10(0) == 1);
        assert(dval(s) == d);
        assert(d * 1 == d) by (nonlinear_arith);
    } else {
        lemma_dval_prepend_digit(d, rest.drop_last());
        assert(s.drop_last() =~= seq![(48 + d) as u8] + rest.drop_last());
        assert(s.last() == rest.last());
        assert(pow10(rest.len()) == 10 * pow10((rest.len() - 1) as nat));
        assert(d * (10 * pow10((rest.len() - 1) as nat)) == (d * pow10(
            (rest.len() - 1) as nat,
        )) * 10) by (nonlinear_arith);
    }
}

/// Ten digits always exhaust the fraction: nothing remains after them.
pub proof fn lemma_frac_digits_exact(r: int)
    requires
        0 <= r < 1024,
    ensures
        frac_rem(r, 10) == 0,
{
    vstd::arithmetic::power2::lemma2_to64();
    assert(vstd::arithmetic::power2::pow2(10) == 1024);
    vstd::arithmetic::div_mod::lemma_mod_multiples_basic(r, 1024);
    assert(r * 1024 == 1024 * r) by (nonlinear_arith);
    lemma_frac_rem_step(r, 10);
}

/// When `r * 2^fuel` is a multiple of 1024, the remaining digit budget
/// drives the residual to zero: each emitted digit gains a factor of two.
proof fn lemma_frac_rem_step(r: int, fuel: nat)
    requires
        0 <= r < 1024,
        (r * vstd::arithmetic::power2::pow2(fuel)) % 1024 == 0,
    ensures
        frac_rem(r, fuel) == 0,
    decreases fuel,
{
    vstd::arithmetic::power2::lemma_pow2_pos(fuel);
    if fuel == 0 {
        assert(vstd::arithmetic::power2::pow2(0) == 1) by {
            vstd::arithmetic::power2::lemma2_to64();
        }
        vstd::arithmetic::div_mod::lemma_small_mod(r as nat, 1024);
    } else if r <= 0 {
    } else {
        let r2 = (r * 10) % 1024;
        let p = vstd::arithmetic::power2::pow2((fuel - 1) as nat);
        vstd::arithmetic::power2::lemma_pow2_pos((fuel - 1) as nat);
        vstd::arithmetic::div_mod::lemma_mod_division_less_than_divisor(r * 10, 1024);
        // r2 * 2^(fuel-1) == (r*10 - 1024*q) * 2^(fuel-1)
        //                 == 5 * (r * 2^fuel) - 1024 * (q * 2^(fuel-1))
        vstd::arithmetic::div_mod::lemma_fundamental_div_mod(r * 10, 1024);
        let q = (r * 10) / 1024;
        assert(vstd::arithmetic::power2::pow2(fuel) == 2 * p) by {
            vstd::arithmetic::power2::lemma_pow2_unfold(fuel);
        }
        assert(r2 * p == 5 * (r * (2 * p)) - 1024 * (q * p)) by (nonlinear_arith)
            requires
                r2 == r * 10 - 1024 * q,
        ;
        lemma_mod_combo(r * (2 * p), 5, q * p, r2 * p);
        lemma_frac_rem_step(r2, (fuel - 1) as nat);
    }
}

/// Scaling a multiple of the modulus and subtracting another multiple
/// leaves a multiple of the modulus.
proof fn lemma_mod_combo(m: int, factor: int, k: int, c: int)
    requires
        m % 1024 == 0,
        c == factor * m - 1024 * k,
    ensures
        c % 1024 == 0,
{
    vstd::arithmetic::div_mod::lemma_fundamental_div_mod(m, 1024);
    let qm = m / 1024;
    assert(c == 1024 * (factor * qm - k)) by (nonlinear_arith)
        requires
            m == 1024 * qm,
            c == factor * m - 1024 * k,
    ;
    vstd::arithmetic::div_mod::lemma_mod_multiples_basic(factor * qm - k, 1024);
}

/// The digit renderer and the digit reader invert each other: the decimal
/// rendering of a number carries no leading zero and reads back as exactly
/// that number.
pub proof fn lemma_digits_round_trip(n: nat)
    ensures
        dval(dec_digits(n)) == n,
        n > 0 ==> dec_digits(n)[0] != 48,
    decreases n,
{
    if n < 10 {
        assert(dec_digits(n) == seq![(48 + n) as u8]);
        assert(dec_digits(n).drop_last() =~= Seq::<u8>::empty());
        assert(dval(Seq::<u8>::empty()) == 0);
    } else {
        lemma_digits_round_trip(n / 10);
        assert(dec_digits(n) == dec_digits(n / 10).push((48 + n % 10) as u8));
        assert(dec_digits(n).drop_last() =~= dec_digits(n / 10));
        assert(dec_digits(n).last() == (48 + n % 10) as u8);
        assert(0 <= n % 10 < 10) by {
            vstd::arithmetic::div_mod::lemma_mod_division_less_than_divisor(n as int, 10);
        }
        assert(dval(dec_digits(n)) == dval(dec_digits(n / 10)) * 10 + ((48 + n % 10) as u8 - 48));
        vstd::arithmetic::div_mod::lemma_fundamental_div_mod(n as int, 10);
        assert(dec_digits(n)[0] == dec_digits(n / 10)[0]);
    }
}

/// A digit scan runs to the end of a segment of digits.
proof fn lemma_skip_digits_segment(s: Seq<u8>, i: int, j: int)
    requires
        0 <= i <= j <= s.len(),
        forall|k: int| i <= k < j ==> is_digit(#[trigger] s[k]),
        j < s.len() ==> !is_digit(s[j]),
    ensures
        skip_digits_spec(s, i) == j,
    decreases j - i,
{
    if i < j {
        lemma_skip_digits_segment(s, i + 1, j);
    }
}

/// A zero scan over zeros runs to the given boundary.
proof fn lemma_skip_zeros_segment(s: Seq<u8>, i: int, j: int)
    requires
        0 <= i <= j <= s.len(),
        forall|k: int| i <= k < j ==> #[trigger] s[k] == 48,
        j < s.len() ==> s[j] != 48,
    ensures
        skip_zeros_spec(s, i) == j,
    decreases j - i,
{
    if i < j {
        lemma_skip_zeros_segment(s, i + 1, j);
    }
}

/// A zero scan over a digit segment that holds a non-zero digit stops at a
/// non-zero digit inside the segment.
proof fn lemma_skip_zeros_finds_nonzero(s: Seq<u8>, i: int, j: int)
    requires
        0 <= i <= j <= s.len(),
        forall|k: int| i <= k < j ==> is_digit(#[trigger] s[k]),
        exists|k: int| i <= k < j && #[trigger] s[k] != 48,
    ensures
        i <= skip_zeros_spec(s, i) < j,
        s[skip_zeros_spec(s, i)] != 48,
        is_digit(s[skip_zeros_spec(s, i)]),
    decreases j - i,
{
    if s[i] != 48 {
    } else {
        let k = choose|k: int| i <= k < j && #[trigger] s[k] != 48;
        assert(i + 1 <= k < j);
        lemma_skip_zeros_finds_nonzero(s, i + 1, j);
    }
}

/// A whitespace scan runs to the end of a segment of whitespace.
proof fn lemma_skip_ws_segment(s: Seq<u8>, i: int, j: int)
    requires
        0 <= i <= j <= s.len(),
        forall|k: int| i <= k < j ==> is_ws(#[trigger] s[k]),
        j < s.len() ==> !is_ws(s[j]),
    ensures
        skip_ws_spec(s, i) == j,
    decreases j - i,
{
    if i < j {
        lemma_skip_ws_segment(s, i + 1, j);
    }
}

/// A decimal rendering of a number below ten to the `k` has at most `k`
/// digits.
proof fn lemma_dec_digits_len_bound(n: nat, k: nat)
    requires
        k >= 1,
        n < pow10(k),
    ensures
        dec_digits(n).len() <= k,
    decreases n,
{
    if n >= 10 {
        assert(k >= 2) by {
            assert(pow10(1) == 10) by {
                assert(pow10(0) == 1);
            }
            if k < 2 {
                assert(pow10(k) == 10);
            }
        }
        assert(n / 10 < pow10((k - 1) as nat)) by {
            assert(pow10(k) == 10 * pow10((k - 1) as nat));
            vstd::arithmetic::div_mod::lemma_fundamental_div_mod(n as int, 10);
        }
        lemma_dec_digits_len_bound(n / 10, (k - 1) as nat);
    }
}

/// A truncated remainder is no larger in magnitude than the dividend and
/// shares its sign; the quotient times the divisor makes up the rest.
proof fn lemma_rem_trunc_facts(a: int, b: int)
    requires
        b > 0,
    ensures
        a == b * div_trunc(a, b) + rem_trunc(a, b),
        a >= 0 ==> 0 <= rem_trunc(a, b) <= a,
        a <= 0 ==> a <= rem_trunc(a, b) <= 0,
    decreases b,
{
    crate::sim_time::lemma_rem_trunc_range(a, b);
    if a == 0 {
        assert(b * 0 == 0) by (nonlinear_arith);
    } else if a > 0 {
        vstd::arithmetic::div_mod::lemma_fundamental_div_mod(a, b);
        vstd::arithmetic::div_mod::lemma_mod_division_less_than_divisor(a, b);
        vstd::arithmetic::div_mod::lemma_mod_decreases(a as nat, b as nat);
    } else {
        vstd::arithmetic::div_mod::lemma_fundamental_div_mod(a * -1, b);
        vstd::arithmetic::div_mod::lemma_mod_division_less_than_divisor(a * -1, b);
        vstd::arithmetic::div_mod::lemma_mod_decreases((a * -1) as nat, b as nat);
        let qq = (a * -1) / b;
        let mm = (a * -1) % b;
        assert(b * (qq * -1) == (b * qq) * -1) by (nonlinear_arith);
        assert(a == b * (qq * -1) + (mm * -1));
    }
}

/// The value of concatenated digit strings.
proof fn lemma_dval_concat(a: Seq<u8>, b: Seq<u8>)
    ensures
        dval(a + b) == dval(a) * pow10(b.len()) + dval(b),
    decreases b.len(),
{
    if b.len() == 0 {
        assert(a + b =~= a);
        assert(pow10(0) == 1);
        assert(dval(a) * 1 == dval(a)) by (nonlinear_arith);
    } else {
        lemma_dval_concat(a, b.drop_last());
        assert((a + b).drop_last() =~= a + b.drop_last());
        assert((a + b).last() == b.last());
        assert(pow10(b.len()) == 10 * pow10((b.len() - 1) as nat));
        assert((dval(a) * pow10((b.len() - 1) as nat) + dval(b.drop_last())) * 10 == dval(a) * (10
            * pow10((b.len() - 1) as nat)) + dval(b.drop_last()) * 10) by (nonlinear_arith);
    }
}

/// Leading zeros carry no value.
proof fn lemma_dval_strip0(s: Seq<u8>)
    ensures
        dval(strip0(s)) == dval(s),
    decreases s.len(),
{
    if s.len() > 0 && s[0] == 48 {
        lemma_dval_strip0(s.drop_first());
        assert(s =~= seq![48u8] + s.drop_first());
        lemma_dval_concat(seq![48u8], s.drop_first());
        assert(dval(seq![48u8]) == 0) by {
            assert(seq![48u8].drop_last() =~= Seq::<u8>::empty());
            assert(dval(Seq::<u8>::empty()) == 0);
        }
        assert(0 * pow10(s.drop_first().len()) == 0) by (nonlinear_arith);
    }
}

/// A string of zero digits has value zero, so a positive value means some
/// digit is not zero.
proof fn lemma_dval_zero_digits(s: Seq<u8>)
    requires
        forall|k: int| 0 <= k < s.len() ==> #[trigger] s[k] == 48,
    ensures
        dval(s) == 0,
    decreases s.len(),
{
    if s.len() > 0 {
        assert(forall|k: int|
            0 <= k < s.drop_last().len() ==> #[trigger] s.drop_last()[k] == 48);
        lemma_dval_zero_digits(s.drop_last());
    }
}

/// The fraction digits are decimal digits, and there are at most `fuel` of
/// them.
proof fn lemma_frac_digits_are_digits(r: int, fuel: nat)
    requires
        0 <= r < 1024,
    ensures
        forall|k: int|
            0 <= k < frac_digits_spec(r, fuel).len() ==> is_digit(
                #[trigger] frac_digits_spec(r, fuel)[k],
            ),
        frac_digits_spec(r, fuel).len() <= fuel,
    decreases fuel,
{
    if fuel > 0 && r > 0 {
        vstd::arithmetic::div_mod::lemma_mod_division_less_than_divisor(r * 10, 1024);
        vstd::arithmetic::div_mod::lemma_div_is_ordered(r * 10, 10240 - 1, 1024);
        vstd::arithmetic::div_mod::lemma_div_pos_is_pos(r * 10, 1024);
        lemma_frac_digits_are_digits((r * 10) % 1024, (fuel - 1) as nat);
        let s = frac_digits_spec(r, fuel);
        let d = (r * 10) / 1024;
        let rest = frac_digits_spec((r * 10) % 1024, (fuel - 1) as nat);
        assert forall|k: int| 0 <= k < s.len() implies is_digit(#[trigger] s[k]) by {
            if k == 0 {
                assert(s[0] == (48 + d) as u8);
            } else {
                assert(s[k] == rest[k - 1]);
            }
        }
    }
}

/// Small values divide to zero and are their own remainder, also under
/// truncation.
proof fn lemma_small_trunc(a: int, b: int)
    requires
        b > 0,
        -b < a < b,
    ensures
        div_trunc(a, b) == 0,
        rem_trunc(a, b) == a,
{
    if a > 0 {
        vstd::arithmetic::div_mod::lemma_basic_div(a, b);
        vstd::arithmetic::div_mod::lemma_small_mod(a as nat, b as nat);
    } else if a < 0 {
        vstd::arithmetic::div_mod::lemma_basic_div(a * -1, b);
        vstd::arithmetic::div_mod::lemma_small_mod((a * -1) as nat, b as nat);
    }
}

/// A rendered unit component, sitting at position `i` of the input and
/// followed either by the end of the input or by a single space and the
/// next term, scans as one term worth its value times its unit.
#[verifier::rlimit(100)]
#[verifier::spinoff_prover]
proof fn lemma_scan_component(s: Seq<u8>, i: int, c: int, u: u8, next: int)
    requires
        c != 0,
        i64::MIN <= c <= i64::MAX,
        is_unit_letter(u),
        0 <= i,
        i + dec_int(c).len() + 1 <= s.len(),
        forall|k: int| 0 <= k < dec_int(c).len() ==> s[i + k] == #[trigger] dec_int(c)[k],
        s[i + dec_int(c).len()] == u,
        next == i + dec_int(c).len() + 1 || next == i + dec_int(c).len() + 2,
        next == i + dec_int(c).len() + 1 ==> next == s.len(),
        next == i + dec_int(c).len() + 2 ==> next < s.len() && s[next - 1] == 32 && !is_ws(
            s[next],
        ),
        forall|k: int| next <= k < s.len() ==> #[trigger] s[k] != 10,
        i64::MIN <= c * unit_ticks(u) <= i64::MAX,
    ensures
        term_at(s, i) == Some((c * unit_ticks(u), next)),
{
    let cd = dec_int(c);
    let mag = if c < 0 {
        -c
    } else {
        c
    };
    let wd = dec_digits(mag as nat);
    lemma_digits_round_trip(mag as nat);
    lemma_dec_digits_ascii(mag as nat);
    lemma_pow10_consts();
    lemma_dec_digits_len_bound(mag as nat, 19);
    let neg = c < 0;
    let i1: int = if neg {
        i + 1
    } else {
        i
    };
    let we: int = i1 + wd.len();
    if neg {
        assert(cd == seq![45u8] + wd);
        assert(cd[0] == 45);
        assert(s[i + 0] == cd[0]);
        assert(s[i] == 45);
        assert forall|k: int| i1 <= k < we implies s[k] == wd[k - i1] by {
            assert(s[i + (k - i)] == cd[k - i]);
            assert(cd[k - i] == wd[k - i1]);
        }
    } else {
        assert(cd == wd);
        assert(s[i + 0] == cd[0]);
        assert(s[i] == wd[0]);
        assert(s[i] != 45);
        assert forall|k: int| i1 <= k < we implies s[k] == wd[k - i1] by {
            assert(s[i + (k - i)] == cd[k - i]);
        }
    }
    assert(forall|k: int| i1 <= k < we ==> is_digit(#[trigger] s[k]));
    assert(s[we] == u);
    assert(!is_digit(u));
    lemma_skip_digits_segment(s, i1, we);
    assert(s.subrange(i1, we) =~= wd);
    assert(s.subrange(we, we) =~= Seq::<u8>::empty());
    assert(wd + Seq::<u8>::empty() =~= wd);
    assert(u != 46 && u != 101 && !is_ws(u));
    assert(term_at(s, i) == term_tail(s, neg, wd, 0, we));
    assert(skip_ws_spec(s, we) == we);
    let after_unit = we + 1;
    if next == after_unit {
        assert(after_unit == s.len());
        assert(skip_ws_spec(s, after_unit) == next);
    } else {
        assert(s[after_unit] == 32);
        assert(!is_ws(s[next]));
        lemma_skip_ws_segment(s, after_unit, next);
        assert(!contains_nl(s, next));
    }
    let value = term_value(neg, wd, 0, 0, unit_ticks(u));
    assert(term_tail(s, neg, wd, 0, we) == Some((value, next)));

    // the term's value is the component times its unit
    assert(wd[0] != 48);
    assert(strip0(wd) == wd);
    let point = wd.len() + 0 - 0;
    assert(1 <= point <= 19);
    let lp: int = wd.len() as int;
    assert(wd.take(lp) =~= wd);
    assert(pow10(0) == 1);
    let unit = unit_ticks(u);
    assert(mag * unit * 1 == mag * unit) by (nonlinear_arith);
    if neg {
        assert(-(mag * unit) == c * unit) by (nonlinear_arith)
            requires
                mag == -c,
        ;
        assert(value == c * unit);
    } else {
        assert(value == c * unit);
    }
}

/// A rendered seconds term at the end of the input scans as one term worth
/// the rendered tick count.
#[verifier::rlimit(100)]
#[verifier::spinoff_prover]
proof fn lemma_scan_seconds(s: Seq<u8>, i: int, t: int)
    requires
        -(TICKS_PER_MINUTE as int) < t < TICKS_PER_MINUTE as int,
        t != 0,
        0 <= i,
        i + seconds_str(t).len() + 1 == s.len(),
        forall|k: int| 0 <= k < seconds_str(t).len() ==> s[i + k] == #[trigger] seconds_str(t)[k],
        s[s.len() - 1] == 115,
    ensures
        term_at(s, i) == Some((t, s.len() as int)),
{
    let mag = if t < 0 {
        -t
    } else {
        t
    };
    let w = mag / 1024;
    let r = mag % 1024;
    vstd::arithmetic::div_mod::lemma_mod_division_less_than_divisor(mag, 1024);
    vstd::arithmetic::div_mod::lemma_div_pos_is_pos(mag, 1024);
    vstd::arithmetic::div_mod::lemma_fundamental_div_mod(mag, 1024);
    let sign: Seq<u8> = if t < 0 {
        seq![45u8]
    } else {
        Seq::<u8>::empty()
    };
    let wd = dec_digits(w as nat);
    let frac = frac_digits_spec(r, 10);
    let fracpart: Seq<u8> = if r == 0 {
        Seq::<u8>::empty()
    } else {
        seq![46u8] + frac
    };
    let body = seconds_str(t);
    assert(body =~= sign + wd + fracpart);
    lemma_digits_round_trip(w as nat);
    lemma_dec_digits_ascii(w as nat);
    lemma_frac_digits_are_digits(r, 10);
    lemma_frac_digits_value(r, 10);
    lemma_frac_digits_exact(r);
    let i1: int = i + sign.len();
    let we: int = i1 + wd.len();
    let fe: int = we + fracpart.len();
    assert(s.len() == fe + 1);
    assert forall|k: int| i1 <= k < we implies s[k] == wd[k - i1] by {
        assert(s[i + (k - i)] == body[k - i]);
        assert(body[k - i] == wd[k - i1]);
    }
    assert(forall|k: int| i1 <= k < we ==> is_digit(#[trigger] s[k]));
    assert(s[fe] == 115);
    if t < 0 {
        assert(s[i + 0] == body[0]);
        assert(s[i] == 45);
    } else {
        assert(s[i + 0] == body[0]);
        assert(s[i] == wd[0]);
        assert(s[i] != 45);
    }

    let neg = t < 0;
    assert((i < s.len() && s[i] == 45) == neg);
    let digits: Seq<u8>;
    let f: int;
    if r != 0 {
        assert(s[i + (we - i)] == body[we - i]);
        assert(s[we] == 46);
        lemma_skip_digits_segment(s, i1, we);
        let fs = we + 1;
        assert forall|k: int| fs <= k < fe implies s[k] == frac[k - fs] by {
            assert(s[i + (k - i)] == body[k - i]);
            assert(body[k - i] == fracpart[k - i - sign.len() - wd.len()]);
        }
        assert(forall|k: int| fs <= k < fe ==> is_digit(#[trigger] s[k]));
        lemma_skip_digits_segment(s, fs, fe);
        assert(s.subrange(i1, we) =~= wd);
        assert(s.subrange(fs, fe) =~= frac);
        digits = wd + frac;
        f = frac.len() as int;
        assert(term_at(s, i) == term_tail(s, neg, digits, f, fe));
    } else {
        assert(s[we] == 115);
        lemma_skip_digits_segment(s, i1, we);
        assert(s.subrange(i1, we) =~= wd);
        assert(s.subrange(we, we) =~= Seq::<u8>::empty());
        assert(wd + Seq::<u8>::empty() =~= wd);
        digits = wd;
        f = 0;
        assert(term_at(s, i) == term_tail(s, neg, digits, f, fe));
    }
    assert(s[fe] != 101);
    assert(skip_ws_spec(s, fe) == fe);
    assert(is_unit_letter(s[fe]));
    assert(unit_ticks(s[fe]) == 1024);
    assert(skip_ws_spec(s, fe + 1) == s.len());
    let value = term_value(neg, digits, f, 0, 1024);
    assert(term_tail(s, neg, digits, f, fe) == Some((value, s.len() as int)));
    lemma_seconds_term_value(t, mag, w, r, wd, frac, digits, f);
}

/// Rendering and parsing invert each other: the human-readable text of any
/// delta parses back to exactly that delta.
#[verifier::rlimit(100)]
#[verifier::spinoff_prover]
pub proof fn lemma_render_parse_round_trip(v: int)
    requires
        i64::MIN <= v <= i64::MAX,
    ensures
        parse_delta_spec(render_delta_spec(v)) == Some(v),
{
    if v == 0 {
        let s = render_delta_spec(v);
        assert(s == seq![48u8]);
        assert(s[0] == 48);
        assert(skip_ws_spec(s, 0) == 0);
        assert(rskip_ws_spec(s, 1) == 1);
        assert(trim_spec(s) =~= s);
        lemma_skip_zeros_segment(s, 0, 1);
        assert(is_zero_literal(s));
        return ;
    }
    let c1 = div_trunc(v, TICKS_PER_YEAR as int);
    let t1 = rem_trunc(v, TICKS_PER_YEAR as int);
    let c2 = div_trunc(t1, TICKS_PER_DAY as int);
    let t2 = rem_trunc(t1, TICKS_PER_DAY as int);
    let c3 = div_trunc(t2, TICKS_PER_HOUR as int);
    let t3 = rem_trunc(t2, TICKS_PER_HOUR as int);
    let c4 = div_trunc(t3, TICKS_PER_MINUTE as int);
    let t4 = rem_trunc(t3, TICKS_PER_MINUTE as int);
    lemma_rem_trunc_facts(v, TICKS_PER_YEAR as int);
    lemma_rem_trunc_facts(t1, TICKS_PER_DAY as int);
    lemma_rem_trunc_facts(t2, TICKS_PER_HOUR as int);
    lemma_rem_trunc_facts(t3, TICKS_PER_MINUTE as int);
    crate::sim_time::lemma_rem_trunc_range(t3, TICKS_PER_MINUTE as int);
    if c1 == 0 && c2 == 0 && c3 == 0 && c4 == 0 {
        // a pure seconds rendering; the whole delta is below a minute
        assert(TICKS_PER_YEAR as int * 0 == 0) by (nonlinear_arith);
        assert(TICKS_PER_DAY as int * 0 == 0) by (nonlinear_arith);
        assert(TICKS_PER_HOUR as int * 0 == 0) by (nonlinear_arith);
        assert(TICKS_PER_MINUTE as int * 0 == 0) by (nonlinear_arith);
        assert(v == t4);
        lemma_seconds_round_trip(v);
        return ;
    }
    let written = c1 != 0 || c2 != 0 || c3 != 0 || c4 != 0;
    let a1 = unit_seq(c1, 121, false);
    let a2 = unit_seq(c2, 100, c1 != 0);
    let a3 = unit_seq(c3, 104, c1 != 0 || c2 != 0);
    let a4 = unit_seq(c4, 109, c1 != 0 || c2 != 0 || c3 != 0);
    let tail: Seq<u8> = if t4 != 0 {
        seq![32u8] + seconds_str(t4) + seq![115u8]
    } else {
        Seq::<u8>::empty()
    };
    let s = a1 + a2 + a3 + a4 + tail;
    assert(render_delta_spec(v) =~= s);
    lemma_no_nl_render_delta(v);
    assert(no_nl(s));
    lemma_round_trip_terms(v, c1, t1, c2, t2, c3, t3, c4, t4, s);
}

/// The term chain of a rendering with at least one whole unit component
/// sums back to the rendered delta.
#[verifier::rlimit(100)]
#[verifier::spinoff_prover]
proof fn lemma_round_trip_terms(
    v: int,
    c1: int,
    t1: int,
    c2: int,
    t2: int,
    c3: int,
    t3: int,
    c4: int,
    t4: int,
    s: Seq<u8>,
)
    requires
        i64::MIN <= v <= i64::MAX,
        v != 0,
        c1 != 0 || c2 != 0 || c3 != 0 || c4 != 0,
        c1 == div_trunc(v, TICKS_PER_YEAR as int),
        t1 == rem_trunc(v, TICKS_PER_YEAR as int),
        c2 == div_trunc(t1, TICKS_PER_DAY as int),
        t2 == rem_trunc(t1, TICKS_PER_DAY as int),
        c3 == div_trunc(t2, TICKS_PER_HOUR as int),
        t3 == rem_trunc(t2, TICKS_PER_HOUR as int),
        c4 == div_trunc(t3, TICKS_PER_MINUTE as int),
        t4 == rem_trunc(t3, TICKS_PER_MINUTE as int),
        s == unit_seq(c1, 121, false) + unit_seq(c2, 100, c1 != 0) + unit_seq(
            c3,
            104,
            c1 != 0 || c2 != 0,
        ) + unit_seq(c4, 109, c1 != 0 || c2 != 0 || c3 != 0) + (if t4 != 0 {
            seq![32u8] + seconds_str(t4) + seq![115u8]
        } else {
            Seq::<u8>::empty()
        }),
        s == render_delta_spec(v),
        no_nl(s),
    ensures
        parse_delta_spec(render_delta_spec(v)) == Some(v),
{
    lemma_rt_edges(v, c1, t1, c2, t2, c3, t3, c4, t4, s);
    lemma_rt_stage1(v, c1, t1, c2, t2, c3, t3, c4, t4, s, 0, 0);
    assert(parse_delta_spec(s) == Some(v));
}

/// Where the day component's rendering begins.
spec fn rt_p2(c1: int) -> int {
    unit_seq(c1, 121, false).len() as int
}

/// Where the hour component's rendering begins.
spec fn rt_p3(c1: int, c2: int) -> int {
    rt_p2(c1) + unit_seq(c2, 100, c1 != 0).len()
}

/// Where the minute component's rendering begins.
spec fn rt_p4(c1: int, c2: int, c3: int) -> int {
    rt_p3(c1, c2) + unit_seq(c3, 104, c1 != 0 || c2 != 0).len()
}

/// Where the seconds tail begins.
spec fn rt_p5(c1: int, c2: int, c3: int, c4: int) -> int {
    rt_p4(c1, c2, c3) + unit_seq(c4, 109, c1 != 0 || c2 != 0 || c3 != 0).len()
}

/// Where the day term's number begins, past its separating space.
spec fn rt_start2(c1: int) -> int {
    rt_p2(c1) + (if c1 != 0 {
        1int
    } else {
        0int
    })
}

/// Where the hour term's number begins.
spec fn rt_start3(c1: int, c2: int) -> int {
    rt_p3(c1, c2) + (if c1 != 0 || c2 != 0 {
        1int
    } else {
        0int
    })
}

/// Where the minute term's number begins.
spec fn rt_start4(c1: int, c2: int, c3: int) -> int {
    rt_p4(c1, c2, c3) + (if c1 != 0 || c2 != 0 || c3 != 0 {
        1int
    } else {
        0int
    })
}

/// Where the seconds term's number begins.
spec fn rt_start5(c1: int, c2: int, c3: int, c4: int) -> int {
    rt_p5(c1, c2, c3, c4) + 1
}

/// Where the scan stands when the seconds stage begins.
spec fn rt_chain5(c1: int, c2: int, c3: int, c4: int, t4: int, len: int) -> int {
    if t4 != 0 {
        rt_start5(c1, c2, c3, c4)
    } else {
        len
    }
}

/// Where the scan stands when the minute stage begins.
spec fn rt_chain4(c1: int, c2: int, c3: int, c4: int, t4: int, len: int) -> int {
    if c4 != 0 {
        rt_start4(c1, c2, c3)
    } else {
        rt_chain5(c1, c2, c3, c4, t4, len)
    }
}

/// Where the scan stands when the hour stage begins.
spec fn rt_chain3(c1: int, c2: int, c3: int, c4: int, t4: int, len: int) -> int {
    if c3 != 0 {
        rt_start3(c1, c2)
    } else {
        rt_chain4(c1, c2, c3, c4, t4, len)
    }
}

/// Where the scan stands when the day stage begins.
spec fn rt_chain2(c1: int, c2: int, c3: int, c4: int, t4: int, len: int) -> int {
    if c2 != 0 {
        rt_start2(c1)
    } else {
        rt_chain3(c1, c2, c3, c4, t4, len)
    }
}

/// Walk the year component of the rendering, then the rest.
#[verifier::rlimit(100)]
#[verifier::spinoff_prover]
proof fn lemma_rt_stage1(
    v: int,
    c1: int,
    t1: int,
    c2: int,
    t2: int,
    c3: int,
    t3: int,
    c4: int,
    t4: int,
    s: Seq<u8>,
    pos: int,
    total: int,
)
    requires
        i64::MIN <= v <= i64::MAX,
        v != 0,
        c1 == div_trunc(v, TICKS_PER_YEAR as int),
        t1 == rem_trunc(v, TICKS_PER_YEAR as int),
        c2 == div_trunc(t1, TICKS_PER_DAY as int),
        t2 == rem_trunc(t1, TICKS_PER_DAY as int),
        c3 == div_trunc(t2, TICKS_PER_HOUR as int),
        t3 == rem_trunc(t2, TICKS_PER_HOUR as int),
        c4 == div_trunc(t3, TICKS_PER_MINUTE as int),
        t4 == rem_trunc(t3, TICKS_PER_MINUTE as int),
        s == unit_seq(c1, 121, false) + unit_seq(c2, 100, c1 != 0) + unit_seq(
            c3,
            104,
            c1 != 0 || c2 != 0,
        ) + unit_seq(c4, 109, c1 != 0 || c2 != 0 || c3 != 0) + (if t4 != 0 {
            seq![32u8] + seconds_str(t4) + seq![115u8]
        } else {
            Seq::<u8>::empty()
        }),
        no_nl(s),
        pos == (if c1 != 0 {
            0int
        } else {
            rt_chain2(c1, c2, c3, c4, t4, s.len() as int)
        }),
        total == v - v,
    ensures
        parse_terms(s, pos, total) == Some(v),
{
    let a1 = unit_seq(c1, 121, false);
    let a2 = unit_seq(c2, 100, c1 != 0);
    let a3 = unit_seq(c3, 104, c1 != 0 || c2 != 0);
    let a4 = unit_seq(c4, 109, c1 != 0 || c2 != 0 || c3 != 0);
    let tail: Seq<u8> = if t4 != 0 {
        seq![32u8] + seconds_str(t4) + seq![115u8]
    } else {
        Seq::<u8>::empty()
    };
    lemma_rem_trunc_facts(v, TICKS_PER_YEAR as int);
    lemma_rem_trunc_facts(t1, TICKS_PER_DAY as int);
    lemma_rem_trunc_facts(t2, TICKS_PER_HOUR as int);
    lemma_rem_trunc_facts(t3, TICKS_PER_MINUTE as int);
    crate::sim_time::lemma_rem_trunc_range(t3, TICKS_PER_MINUTE as int);
    if c1 != 0 {
        assert(c1 * (TICKS_PER_YEAR as int) == v - t1) by (nonlinear_arith)
            requires
                v == (TICKS_PER_YEAR as int) * c1 + t1,
        ;
        lemma_digit_heads(c1, c2, c3, c4, t4);
        assert(forall|k: int| 0 <= k < a1.len() ==> s[0 + k] == a1[k]);
        assert(a1 == dec_int(c1) + seq![121u8]);
        assert forall|k: int| 0 <= k < dec_int(c1).len() implies s[pos + k] == #[trigger] dec_int(
            c1,
        )[k] by {
            assert(s[0 + (pos - 0 + k)] == a1[pos - 0 + k]);
        }
        assert(s[0 + (pos - 0 + dec_int(c1).len())] == a1[pos - 0 + dec_int(
            c1,
        ).len()]);
        assert(s[pos + dec_int(c1).len() as int] == 121);
        let next = rt_chain2(c1, c2, c3, c4, t4, s.len() as int);
        lemma_rt_next_byte(v, c1, t1, c2, t2, c3, t3, c4, t4, s, next);
        lemma_scan_component(s, pos, c1, 121, next);
        assert(sat_add_i64(total, c1 * (TICKS_PER_YEAR as int)) == v - t1);
        assert(parse_terms(s, pos, total) == parse_terms(s, next, v - t1));
        lemma_rt_stage2(v, c1, t1, c2, t2, c3, t3, c4, t4, s, next, v - t1);
    } else {
        assert((TICKS_PER_YEAR as int) * 0 == 0) by (nonlinear_arith);
        assert(t1 == v);
        assert(a1 =~= Seq::<u8>::empty());
        lemma_rt_stage2(v, c1, t1, c2, t2, c3, t3, c4, t4, s, pos, total);
    }
}

/// Walk the day component of the rendering, then the rest.
#[verifier::rlimit(100)]
#[verifier::spinoff_prover]
proof fn lemma_rt_stage2(
    v: int,
    c1: int,
    t1: int,
    c2: int,
    t2: int,
    c3: int,
    t3: int,
    c4: int,
    t4: int,
    s: Seq<u8>,
    pos: int,
    total: int,
)
    requires
        i64::MIN <= v <= i64::MAX,
        v != 0,
        c1 == div_trunc(v, TICKS_PER_YEAR as int),
        t1 == rem_trunc(v, TICKS_PER_YEAR as int),
        c2 == div_trunc(t1, TICKS_PER_DAY as int),
        t2 == rem_trunc(t1, TICKS_PER_DAY as int),
        c3 == div_trunc(t2, TICKS_PER_HOUR as int),
        t3 == rem_trunc(t2, TICKS_PER_HOUR as int),
        c4 == div_trunc(t3, TICKS_PER_MINUTE as int),
        t4 == rem_trunc(t3, TICKS_PER_MINUTE as int),
        s == unit_seq(c1, 121, false) + unit_seq(c2, 100, c1 != 0) + unit_seq(
            c3,
            104,
            c1 != 0 || c2 != 0,
        ) + unit_seq(c4, 109, c1 != 0 || c2 != 0 || c3 != 0) + (if t4 != 0 {
            seq![32u8] + seconds_str(t4) + seq![115u8]
        } else {
            Seq::<u8>::empty()
        }),
        no_nl(s),
        pos == rt_chain2(c1, c2, c3, c4, t4, s.len() as int),
        total == v - t1,
    ensures
        parse_terms(s, pos, total) == Some(v),
{
    let a1 = unit_seq(c1, 121, false);
    let a2 = unit_seq(c2, 100, c1 != 0);
    let a3 = unit_seq(c3, 104, c1 != 0 || c2 != 0);
    let a4 = unit_seq(c4, 109, c1 != 0 || c2 != 0 || c3 != 0);
    let tail: Seq<u8> = if t4 != 0 {
        seq![32u8] + seconds_str(t4) + seq![115u8]
    } else {
        Seq::<u8>::empty()
    };
    lemma_rem_trunc_facts(v, TICKS_PER_YEAR as int);
    lemma_rem_trunc_facts(t1, TICKS_PER_DAY as int);
    lemma_rem_trunc_facts(t2, TICKS_PER_HOUR as int);
    lemma_rem_trunc_facts(t3, TICKS_PER_MINUTE as int);
    crate::sim_time::lemma_rem_trunc_range(t3, TICKS_PER_MINUTE as int);
    if c2 != 0 {
        assert(c2 * (TICKS_PER_DAY as int) == t1 - t2) by (nonlinear_arith)
            requires
                t1 == (TICKS_PER_DAY as int) * c2 + t2,
        ;
        lemma_digit_heads(c1, c2, c3, c4, t4);
        assert(forall|k: int| 0 <= k < a2.len() ==> s[rt_p2(c1) + k] == a2[k]);
        assert(a2 == (if c1 != 0 {
            seq![32u8]
        } else {
            Seq::<u8>::empty()
        }) + dec_int(c2) + seq![100u8]);
        assert forall|k: int| 0 <= k < dec_int(c2).len() implies s[pos + k] == #[trigger] dec_int(
            c2,
        )[k] by {
            assert(s[rt_p2(c1) + (pos - rt_p2(c1) + k)] == a2[pos - rt_p2(c1) + k]);
        }
        assert(s[rt_p2(c1) + (pos - rt_p2(c1) + dec_int(c2).len())] == a2[pos - rt_p2(c1) + dec_int(
            c2,
        ).len()]);
        assert(s[pos + dec_int(c2).len() as int] == 100);
        let next = rt_chain3(c1, c2, c3, c4, t4, s.len() as int);
        lemma_rt_next_byte(v, c1, t1, c2, t2, c3, t3, c4, t4, s, next);
        lemma_scan_component(s, pos, c2, 100, next);
        assert(sat_add_i64(total, c2 * (TICKS_PER_DAY as int)) == v - t2);
        assert(parse_terms(s, pos, total) == parse_terms(s, next, v - t2));
        lemma_rt_stage3(v, c1, t1, c2, t2, c3, t3, c4, t4, s, next, v - t2);
    } else {
        assert((TICKS_PER_DAY as int) * 0 == 0) by (nonlinear_arith);
        assert(t2 == t1);
        assert(a2 =~= Seq::<u8>::empty());
        lemma_rt_stage3(v, c1, t1, c2, t2, c3, t3, c4, t4, s, pos, total);
    }
}

/// Walk the hour component of the rendering, then the rest.
#[verifier::rlimit(100)]
#[verifier::spinoff_prover]
proof fn lemma_rt_stage3(
    v: int,
    c1: int,
    t1: int,
    c2: int,
    t2: int,
    c3: int,
    t3: int,
    c4: int,
    t4: int,
    s: Seq<u8>,
    pos: int,
    total: int,
)
    requires
        i64::MIN <= v <= i64::MAX,
        v != 0,
        c1 == div_trunc(v, TICKS_PER_YEAR as int),
        t1 == rem_trunc(v, TICKS_PER_YEAR as int),
        c2 == div_trunc(t1, TICKS_PER_DAY as int),
        t2 == rem_trunc(t1, TICKS_PER_DAY as int),
        c3 == div_trunc(t2, TICKS_PER_HOUR as int),
        t3 == rem_trunc(t2, TICKS_PER_HOUR as int),
        c4 == div_trunc(t3, TICKS_PER_MINUTE as int),
        t4 == rem_trunc(t3, TICKS_PER_MINUTE as int),
        s == unit_seq(c1, 121, false) + unit_seq(c2, 100, c1 != 0) + unit_seq(
            c3,
            104,
            c1 != 0 || c2 != 0,
        ) + unit_seq(c4, 109, c1 != 0 || c2 != 0 || c3 != 0) + (if t4 != 0 {
            seq![32u8] + seconds_str(t4) + seq![115u8]
        } else {
            Seq::<u8>::empty()
        }),
        no_nl(s),
        pos == rt_chain3(c1, c2, c3, c4, t4, s.len() as int),
        total == v - t2,
    ensures
        parse_terms(s, pos, total) == Some(v),
{
    let a1 = unit_seq(c1, 121, false);
    let a2 = unit_seq(c2, 100, c1 != 0);
    let a3 = unit_seq(c3, 104, c1 != 0 || c2 != 0);
    let a4 = unit_seq(c4, 109, c1 != 0 || c2 != 0 || c3 != 0);
    let tail: Seq<u8> = if t4 != 0 {
        seq![32u8] + seconds_str(t4) + seq![115u8]
    } else {
        Seq::<u8>::empty()
    };
    lemma_rem_trunc_facts(v, TICKS_PER_YEAR as int);
    lemma_rem_trunc_facts(t1, TICKS_PER_DAY as int);
    lemma_rem_trunc_facts(t2, TICKS_PER_HOUR as int);
    lemma_rem_trunc_facts(t3, TICKS_PER_MINUTE as int);
    crate::sim_time::lemma_rem_trunc_range(t3, TICKS_PER_MINUTE as int);
    if c3 != 0 {
        assert(c3 * (TICKS_PER_HOUR as int) == t2 - t3) by (nonlinear_arith)
            requires
                t2 == (TICKS_PER_HOUR as int) * c3 + t3,
        ;
        lemma_digit_heads(c1, c2, c3, c4, t4);
        assert(forall|k: int| 0 <= k < a3.len() ==> s[rt_p3(c1, c2) + k] == a3[k]);
        assert(a3 == (if c1 != 0 || c2 != 0 {
            seq![32u8]
        } else {
            Seq::<u8>::empty()
        }) + dec_int(c3) + seq![104u8]);
        assert forall|k: int| 0 <= k < dec_int(c3).len() implies s[pos + k] == #[trigger] dec_int(
            c3,
        )[k] by {
            assert(s[rt_p3(c1, c2) + (pos - rt_p3(c1, c2) + k)] == a3[pos - rt_p3(c1, c2) + k]);
        }
        assert(s[rt_p3(c1, c2) + (pos - rt_p3(c1, c2) + dec_int(c3).len())] == a3[pos - rt_p3(c1, c2) + dec_int(
            c3,
        ).len()]);
        assert(s[pos + dec_int(c3).len() as int] == 104);
        let next = rt_chain4(c1, c2, c3, c4, t4, s.len() as int);
        lemma_rt_next_byte(v, c1, t1, c2, t2, c3, t3, c4, t4, s, next);
        lemma_scan_component(s, pos, c3, 104, next);
        assert(sat_add_i64(total, c3 * (TICKS_PER_HOUR as int)) == v - t3);
        assert(parse_terms(s, pos, total) == parse_terms(s, next, v - t3));
        lemma_rt_stage4(v, c1, t1, c2, t2, c3, t3, c4, t4, s, next, v - t3);
    } else {
        assert((TICKS_PER_HOUR as int) * 0 == 0) by (nonlinear_arith);
        assert(t3 == t2);
        assert(a3 =~= Seq::<u8>::empty());
        lemma_rt_stage4(v, c1, t1, c2, t2, c3, t3, c4, t4, s, pos, total);
    }
}

/// Walk the minute component of the rendering, then the seconds.
#[verifier::rlimit(100)]
#[verifier::spinoff_prover]
proof fn lemma_rt_stage4(
    v: int,
    c1: int,
    t1: int,
    c2: int,
    t2: int,
    c3: int,
    t3: int,
    c4: int,
    t4: int,
    s: Seq<u8>,
    pos: int,
    total: int,
)
    requires
        i64::MIN <= v <= i64::MAX,
        v != 0,
        c1 == div_trunc(v, TICKS_PER_YEAR as int),
        t1 == rem_trunc(v, TICKS_PER_YEAR as int),
        c2 == div_trunc(t1, TICKS_PER_DAY as int),
        t2 == rem_trunc(t1, TICKS_PER_DAY as int),
        c3 == div_trunc(t2, TICKS_PER_HOUR as int),
        t3 == rem_trunc(t2, TICKS_PER_HOUR as int),
        c4 == div_trunc(t3, TICKS_PER_MINUTE as int),
        t4 == rem_trunc(t3, TICKS_PER_MINUTE as int),
        s == unit_seq(c1, 121, false) + unit_seq(c2, 100, c1 != 0) + unit_seq(
            c3,
            104,
            c1 != 0 || c2 != 0,
        ) + unit_seq(c4, 109, c1 != 0 || c2 != 0 || c3 != 0) + (if t4 != 0 {
            seq![32u8] + seconds_str(t4) + seq![115u8]
        } else {
            Seq::<u8>::empty()
        }),
        no_nl(s),
        pos == rt_chain4(c1, c2, c3, c4, t4, s.len() as int),
        total == v - t3,
    ensures
        parse_terms(s, pos, total) == Some(v),
{
    let a1 = unit_seq(c1, 121, false);
    let a2 = unit_seq(c2, 100, c1 != 0);
    let a3 = unit_seq(c3, 104, c1 != 0 || c2 != 0);
    let a4 = unit_seq(c4, 109, c1 != 0 || c2 != 0 || c3 != 0);
    let tail: Seq<u8> = if t4 != 0 {
        seq![32u8] + seconds_str(t4) + seq![115u8]
    } else {
        Seq::<u8>::empty()
    };
    lemma_rem_trunc_facts(v, TICKS_PER_YEAR as int);
    lemma_rem_trunc_facts(t1, TICKS_PER_DAY as int);
    lemma_rem_trunc_facts(t2, TICKS_PER_HOUR as int);
    lemma_rem_trunc_facts(t3, TICKS_PER_MINUTE as int);
    crate::sim_time::lemma_rem_trunc_range(t3, TICKS_PER_MINUTE as int);
    if c4 != 0 {
        assert(c4 * (TICKS_PER_MINUTE as int) == t3 - t4) by (nonlinear_arith)
            requires
                t3 == (TICKS_PER_MINUTE as int) * c4 + t4,
        ;
        lemma_digit_heads(c1, c2, c3, c4, t4);
        assert(forall|k: int| 0 <= k < a4.len() ==> s[rt_p4(c1, c2, c3) + k] == a4[k]);
        assert(a4 == (if c1 != 0 || c2 != 0 || c3 != 0 {
            seq![32u8]
        } else {
            Seq::<u8>::empty()
        }) + dec_int(c4) + seq![109u8]);
        assert forall|k: int| 0 <= k < dec_int(c4).len() implies s[pos + k] == #[trigger] dec_int(
            c4,
        )[k] by {
            assert(s[rt_p4(c1, c2, c3) + (pos - rt_p4(c1, c2, c3) + k)] == a4[pos - rt_p4(c1, c2, c3) + k]);
        }
        assert(s[rt_p4(c1, c2, c3) + (pos - rt_p4(c1, c2, c3) + dec_int(c4).len())] == a4[pos - rt_p4(c1, c2, c3) + dec_int(
            c4,
        ).len()]);
        assert(s[pos + dec_int(c4).len() as int] == 109);
        let next = rt_chain5(c1, c2, c3, c4, t4, s.len() as int);
        lemma_rt_next_byte(v, c1, t1, c2, t2, c3, t3, c4, t4, s, next);
        lemma_scan_component(s, pos, c4, 109, next);
        assert(sat_add_i64(total, c4 * (TICKS_PER_MINUTE as int)) == v - t4);
        assert(parse_terms(s, pos, total) == parse_terms(s, next, v - t4));
        lemma_rt_stage5(v, c1, t1, c2, t2, c3, t3, c4, t4, s, next, v - t4);
    } else {
        assert((TICKS_PER_MINUTE as int) * 0 == 0) by (nonlinear_arith);
        assert(t4 == t3);
        assert(a4 =~= Seq::<u8>::empty());
        lemma_rt_stage5(v, c1, t1, c2, t2, c3, t3, c4, t4, s, pos, total);
    }
}

/// Walk the seconds term of the rendering, closing the sum.
#[verifier::rlimit(100)]
#[verifier::spinoff_prover]
proof fn lemma_rt_stage5(
    v: int,
    c1: int,
    t1: int,
    c2: int,
    t2: int,
    c3: int,
    t3: int,
    c4: int,
    t4: int,
    s: Seq<u8>,
    pos: int,
    total: int,
)
    requires
        i64::MIN <= v <= i64::MAX,
        v != 0,
        c1 == div_trunc(v, TICKS_PER_YEAR as int),
        t1 == rem_trunc(v, TICKS_PER_YEAR as int),
        c2 == div_trunc(t1, TICKS_PER_DAY as int),
        t2 == rem_trunc(t1, TICKS_PER_DAY as int),
        c3 == div_trunc(t2, TICKS_PER_HOUR as int),
        t3 == rem_trunc(t2, TICKS_PER_HOUR as int),
        c4 == div_trunc(t3, TICKS_PER_MINUTE as int),
        t4 == rem_trunc(t3, TICKS_PER_MINUTE as int),
        s == unit_seq(c1, 121, false) + unit_seq(c2, 100, c1 != 0) + unit_seq(
            c3,
            104,
            c1 != 0 || c2 != 0,
        ) + unit_seq(c4, 109, c1 != 0 || c2 != 0 || c3 != 0) + (if t4 != 0 {
            seq![32u8] + seconds_str(t4) + seq![115u8]
        } else {
            Seq::<u8>::empty()
        }),
        no_nl(s),
        pos == rt_chain5(c1, c2, c3, c4, t4, s.len() as int),
        total == v - t4,
    ensures
        parse_terms(s, pos, total) == Some(v),
{
    let a1 = unit_seq(c1, 121, false);
    let a2 = unit_seq(c2, 100, c1 != 0);
    let a3 = unit_seq(c3, 104, c1 != 0 || c2 != 0);
    let a4 = unit_seq(c4, 109, c1 != 0 || c2 != 0 || c3 != 0);
    let tail: Seq<u8> = if t4 != 0 {
        seq![32u8] + seconds_str(t4) + seq![115u8]
    } else {
        Seq::<u8>::empty()
    };
    lemma_rem_trunc_facts(v, TICKS_PER_YEAR as int);
    lemma_rem_trunc_facts(t1, TICKS_PER_DAY as int);
    lemma_rem_trunc_facts(t2, TICKS_PER_HOUR as int);
    lemma_rem_trunc_facts(t3, TICKS_PER_MINUTE as int);
    crate::sim_time::lemma_rem_trunc_range(t3, TICKS_PER_MINUTE as int);
    if t4 != 0 {
        assert(forall|k: int| 0 <= k < tail.len() ==> s[rt_p5(c1, c2, c3, c4) + k] == tail[k]);
        assert(tail == seq![32u8] + seconds_str(t4) + seq![115u8]);
        assert forall|k: int| 0 <= k < seconds_str(t4).len() implies s[pos + k]
            == #[trigger] seconds_str(t4)[k] by {
            assert(s[rt_p5(c1, c2, c3, c4) + (1 + k)] == tail[1 + k]);
        }
        assert(s[rt_p5(c1, c2, c3, c4) + (tail.len() - 1)] == tail[tail.len() - 1]);
        assert(s[s.len() - 1] == 115);
        assert(pos + seconds_str(t4).len() + 1 == s.len());
        lemma_scan_seconds(s, pos, t4);
        assert(sat_add_i64(total, t4) == v);
        assert(parse_terms(s, pos, total) == parse_terms(s, s.len() as int, v));
        assert(parse_terms(s, s.len() as int, v) == Some(v));
    } else {
        assert(tail =~= Seq::<u8>::empty());
        assert(pos == s.len());
        assert(total == v);
        assert(parse_terms(s, pos, total) == Some(v));
    }
}

/// Whenever the walk hands the scan a position short of the end, that
/// position opens the next term: the byte before it is the separating
/// space and the byte at it starts a number.
#[verifier::rlimit(100)]
#[verifier::spinoff_prover]
proof fn lemma_rt_next_byte(
    v: int,
    c1: int,
    t1: int,
    c2: int,
    t2: int,
    c3: int,
    t3: int,
    c4: int,
    t4: int,
    s: Seq<u8>,
    next: int,
)
    requires
        i64::MIN <= v <= i64::MAX,
        v != 0,
        c1 == div_trunc(v, TICKS_PER_YEAR as int),
        t1 == rem_trunc(v, TICKS_PER_YEAR as int),
        c2 == div_trunc(t1, TICKS_PER_DAY as int),
        t2 == rem_trunc(t1, TICKS_PER_DAY as int),
        c3 == div_trunc(t2, TICKS_PER_HOUR as int),
        t3 == rem_trunc(t2, TICKS_PER_HOUR as int),
        c4 == div_trunc(t3, TICKS_PER_MINUTE as int),
        t4 == rem_trunc(t3, TICKS_PER_MINUTE as int),
        s == unit_seq(c1, 121, false) + unit_seq(c2, 100, c1 != 0) + unit_seq(
            c3,
            104,
            c1 != 0 || c2 != 0,
        ) + unit_seq(c4, 109, c1 != 0 || c2 != 0 || c3 != 0) + (if t4 != 0 {
            seq![32u8] + seconds_str(t4) + seq![115u8]
        } else {
            Seq::<u8>::empty()
        }),
        no_nl(s),
        (next == rt_chain2(c1, c2, c3, c4, t4, s.len() as int) && c1 != 0) || (next == rt_chain3(
            c1,
            c2,
            c3,
            c4,
            t4,
            s.len() as int,
        ) && (c1 != 0 || c2 != 0)) || (next == rt_chain4(c1, c2, c3, c4, t4, s.len() as int) && (
        c1 != 0 || c2 != 0 || c3 != 0)) || next == rt_chain5(c1, c2, c3, c4, t4, s.len() as int),
    ensures
        next == s.len() || (0 < next < s.len() && s[next - 1] == 32 && !is_ws(s[next])),
{
    let a1 = unit_seq(c1, 121, false);
    let a2 = unit_seq(c2, 100, c1 != 0);
    let a3 = unit_seq(c3, 104, c1 != 0 || c2 != 0);
    let a4 = unit_seq(c4, 109, c1 != 0 || c2 != 0 || c3 != 0);
    let tail: Seq<u8> = if t4 != 0 {
        seq![32u8] + seconds_str(t4) + seq![115u8]
    } else {
        Seq::<u8>::empty()
    };
    lemma_digit_heads(c1, c2, c3, c4, t4);
    if next != s.len() {
        if c2 != 0 && next == rt_start2(c1) && c1 != 0 {
            assert(forall|k: int| 0 <= k < a2.len() ==> s[rt_p2(c1) + k] == a2[k]);
            assert(s[rt_p2(c1) + 0] == a2[0]);
            assert(s[rt_p2(c1) + 1] == a2[1]);
            assert(a2[1] == dec_int(c2)[0]);
            lemma_dec_digits_ascii((if c2 < 0 {
                -c2
            } else {
                c2
            }) as nat);
            assert(!is_ws(a2[1]));
        } else if c3 != 0 && next == rt_start3(c1, c2) && (c1 != 0 || c2 != 0) {
            assert(forall|k: int| 0 <= k < a3.len() ==> s[rt_p3(c1, c2) + k] == a3[k]);
            assert(s[rt_p3(c1, c2) + 0] == a3[0]);
            assert(s[rt_p3(c1, c2) + 1] == a3[1]);
            assert(a3[1] == dec_int(c3)[0]);
            lemma_dec_digits_ascii((if c3 < 0 {
                -c3
            } else {
                c3
            }) as nat);
            assert(!is_ws(a3[1]));
        } else if c4 != 0 && next == rt_start4(c1, c2, c3) && (c1 != 0 || c2 != 0 || c3 != 0) {
            assert(forall|k: int| 0 <= k < a4.len() ==> s[rt_p4(c1, c2, c3) + k] == a4[k]);
            assert(s[rt_p4(c1, c2, c3) + 0] == a4[0]);
            assert(s[rt_p4(c1, c2, c3) + 1] == a4[1]);
            assert(a4[1] == dec_int(c4)[0]);
            lemma_dec_digits_ascii((if c4 < 0 {
                -c4
            } else {
                c4
            }) as nat);
            assert(!is_ws(a4[1]));
        } else if t4 != 0 && next == rt_start5(c1, c2, c3, c4) {
            assert(forall|k: int| 0 <= k < tail.len() ==> s[rt_p5(c1, c2, c3, c4) + k] == tail[k]);
            assert(s[rt_p5(c1, c2, c3, c4) + 0] == tail[0]);
            assert(s[rt_p5(c1, c2, c3, c4) + 1] == tail[1]);
            lemma_seconds_head(t4);
        } else {
            assert(next == s.len());
        }
    }
}

/// The first byte of a seconds rendering is a sign or a digit.
proof fn lemma_seconds_head(t: int)
    ensures
        seconds_str(t).len() > 0,
        !is_ws(seconds_str(t)[0]),
        seconds_str(t)[0] != 10,
{
    let mag = if t < 0 {
        -t
    } else {
        t
    };
    let whole = mag / (TICKS_PER_SECOND as int);
    lemma_dec_digits_ascii(whole as nat);
    if t < 0 {
        assert(seconds_str(t)[0] == 45);
    } else {
        assert(seconds_str(t)[0] == dec_digits(whole as nat)[0]);
    }
}

/// A rendering with a whole unit component needs no trimming and is no
/// zero literal: it opens with a sign or a non-zero digit and ends with a
/// unit letter.
#[verifier::rlimit(100)]
#[verifier::spinoff_prover]
proof fn lemma_rt_edges(
    v: int,
    c1: int,
    t1: int,
    c2: int,
    t2: int,
    c3: int,
    t3: int,
    c4: int,
    t4: int,
    s: Seq<u8>,
)
    requires
        i64::MIN <= v <= i64::MAX,
        v != 0,
        c1 != 0 || c2 != 0 || c3 != 0 || c4 != 0,
        c1 == div_trunc(v, TICKS_PER_YEAR as int),
        t1 == rem_trunc(v, TICKS_PER_YEAR as int),
        c2 == div_trunc(t1, TICKS_PER_DAY as int),
        t2 == rem_trunc(t1, TICKS_PER_DAY as int),
        c3 == div_trunc(t2, TICKS_PER_HOUR as int),
        t3 == rem_trunc(t2, TICKS_PER_HOUR as int),
        c4 == div_trunc(t3, TICKS_PER_MINUTE as int),
        t4 == rem_trunc(t3, TICKS_PER_MINUTE as int),
        s == unit_seq(c1, 121, false) + unit_seq(c2, 100, c1 != 0) + unit_seq(
            c3,
            104,
            c1 != 0 || c2 != 0,
        ) + unit_seq(c4, 109, c1 != 0 || c2 != 0 || c3 != 0) + (if t4 != 0 {
            seq![32u8] + seconds_str(t4) + seq![115u8]
        } else {
            Seq::<u8>::empty()
        }),
    ensures
        trim_spec(s) == s,
        !is_zero_literal(s),
{
    let a1 = unit_seq(c1, 121, false);
    let a2 = unit_seq(c2, 100, c1 != 0);
    let a3 = unit_seq(c3, 104, c1 != 0 || c2 != 0);
    let a4 = unit_seq(c4, 109, c1 != 0 || c2 != 0 || c3 != 0);
    let tail: Seq<u8> = if t4 != 0 {
        seq![32u8] + seconds_str(t4) + seq![115u8]
    } else {
        Seq::<u8>::empty()
    };
    let first = if c1 != 0 {
        c1
    } else if c2 != 0 {
        c2
    } else if c3 != 0 {
        c3
    } else {
        c4
    };
    lemma_digit_head(first);
    assert(s[0] == dec_int(first)[0]);
    lemma_digits_round_trip((if first < 0 {
        -first
    } else {
        first
    }) as nat);
    lemma_dec_digits_ascii((if first < 0 {
        -first
    } else {
        first
    }) as nat);
    assert(s[0] == 45 || (is_digit(s[0]) && s[0] != 48));
    assert(skip_ws_spec(s, 0) == 0);
    assert(!is_ws(s[s.len() - 1])) by {
        if t4 != 0 {
            assert(s[s.len() - 1] == 115);
        } else if c4 != 0 {
            assert(s[s.len() - 1] == 109);
        } else if c3 != 0 {
            assert(s[s.len() - 1] == 104);
        } else if c2 != 0 {
            assert(s[s.len() - 1] == 100);
        } else {
            assert(s[s.len() - 1] == 121);
        }
    }
    assert(rskip_ws_spec(s, s.len() as int) == s.len());
    assert(trim_spec(s) =~= s);
    let iz: int = if s[0] == 45 {
        1
    } else {
        0
    };
    assert(s[iz] == dec_int(first)[iz]);
    assert(is_digit(s[iz]) && s[iz] != 48);
    lemma_skip_zeros_segment(s, iz, iz);
    assert(!is_zero_literal(s));
}

/// The first digit of every non-zero rendered component is not zero.
proof fn lemma_digit_heads(c1: int, c2: int, c3: int, c4: int, t4: int)
    ensures
        c1 != 0 ==> dec_int(c1)[if c1 < 0 {
            1int
        } else {
            0int
        }] != 48,
        c2 != 0 ==> dec_int(c2)[if c2 < 0 {
            1int
        } else {
            0int
        }] != 48,
        c3 != 0 ==> dec_int(c3)[if c3 < 0 {
            1int
        } else {
            0int
        }] != 48,
        c4 != 0 ==> dec_int(c4)[if c4 < 0 {
            1int
        } else {
            0int
        }] != 48,
{
    lemma_digit_head(c1);
    lemma_digit_head(c2);
    lemma_digit_head(c3);
    lemma_digit_head(c4);
}

/// The leading digit of a non-zero number's rendering is not zero.
proof fn lemma_digit_head(c: int)
    ensures
        c != 0 ==> dec_int(c)[if c < 0 {
            1int
        } else {
            0int
        }] != 48,
{
    if c != 0 {
        let mag = if c < 0 {
            -c
        } else {
            c
        };
        lemma_digits_round_trip(mag as nat);
        if c < 0 {
            assert(dec_int(c)[1] == dec_digits(mag as nat)[0]);
        }
    }
}

/// Rendering and parsing invert each other on the seconds range: a
/// non-zero delta of less than a minute renders as a single seconds term,
/// and parsing that text yields exactly the delta again.
#[verifier::rlimit(100)]
#[verifier::spinoff_prover]
proof fn lemma_seconds_round_trip(v: int)
    requires
        -(TICKS_PER_MINUTE as int) < v < TICKS_PER_MINUTE as int,
        v != 0,
    ensures
        parse_delta_spec(render_delta_spec(v)) == Some(v),
{
    let mag = if v < 0 {
        -v
    } else {
        v
    };
    let w = mag / 1024;
    let r = mag % 1024;
    vstd::arithmetic::div_mod::lemma_mod_division_less_than_divisor(mag, 1024);
    vstd::arithmetic::div_mod::lemma_div_pos_is_pos(mag, 1024);
    vstd::arithmetic::div_mod::lemma_fundamental_div_mod(mag, 1024);
    let sign: Seq<u8> = if v < 0 {
        seq![45u8]
    } else {
        Seq::<u8>::empty()
    };
    let wd = dec_digits(w as nat);
    let frac = frac_digits_spec(r, 10);
    let fracpart: Seq<u8> = if r == 0 {
        Seq::<u8>::empty()
    } else {
        seq![46u8] + frac
    };
    let s = sign + wd + fracpart + seq![115u8];

    // the rendering is exactly the seconds term
    lemma_small_trunc(v, TICKS_PER_YEAR as int);
    lemma_small_trunc(v, TICKS_PER_DAY as int);
    lemma_small_trunc(v, TICKS_PER_HOUR as int);
    lemma_small_trunc(v, TICKS_PER_MINUTE as int);
    assert(render_delta_spec(v) =~= s);

    // character classes of each region
    lemma_digits_round_trip(w as nat);
    lemma_dec_digits_ascii(w as nat);
    lemma_frac_digits_are_digits(r, 10);
    lemma_frac_digits_value(r, 10);
    lemma_frac_digits_exact(r);
    let i1: int = sign.len() as int;
    let we: int = i1 + wd.len();
    let fe: int = we + fracpart.len();
    assert(s.len() == fe + 1);
    assert(forall|k: int| i1 <= k < we ==> s[k] == wd[k - i1]);
    assert(forall|k: int| i1 <= k < we ==> is_digit(#[trigger] s[k]));
    assert(s[fe] == 115);
    assert(v < 0 ==> s[0] == 45);
    assert(v > 0 ==> s[0] == wd[0]);

    // the input is already trimmed
    assert(skip_ws_spec(s, 0) == 0);
    assert(rskip_ws_spec(s, s.len() as int) == s.len());
    assert(trim_spec(s) =~= s);

    // it is not a zero literal: the scan over zeros runs into a non-zero
    // digit, a decimal point in the wrong place, or the unit letter
    if w > 0 {
        assert(s[i1] != 48);
        lemma_skip_zeros_segment(s, i1, i1);
        assert(!is_zero_literal(s));
    } else {
        assert(mag == r);
        assert(r > 0);
        assert(wd =~= seq![48u8]);
        assert(s[i1] == 48);
        assert(s[i1 + 1] == 46);
        lemma_skip_zeros_segment(s, i1, i1 + 1);
        let fs = i1 + 2;
        assert(forall|k: int| fs <= k < fe ==> s[k] == frac[k - fs]);
        assert(forall|k: int| fs <= k < fe ==> is_digit(#[trigger] s[k]));
        assert(dval(frac) > 0) by {
            lemma_pow10_pos(frac.len());
            if dval(frac) <= 0 {
                assert(r * pow10(frac.len()) <= 0) by (nonlinear_arith)
                    requires
                        dval(frac) * 1024 + 0 >= r * pow10(frac.len()),
                        dval(frac) <= 0,
                ;
                assert(r * pow10(frac.len()) >= r) by (nonlinear_arith)
                    requires
                        r > 0,
                        pow10(frac.len()) >= 1,
                ;
            }
        }
        assert(exists|k: int| fs <= k < fe && #[trigger] s[k] != 48) by {
            if forall|k: int| fs <= k < fe ==> #[trigger] s[k] == 48 {
                assert forall|k: int| 0 <= k < frac.len() implies #[trigger] frac[k] == 48 by {
                    assert(s[fs + k] == frac[k]);
                    assert(s[fs + k] == 48);
                }
                lemma_dval_zero_digits(frac);
                assert(false);
            }
        }
        lemma_skip_zeros_finds_nonzero(s, fs, fe);
        let z2 = skip_zeros_spec(s, fs);
        assert(s[z2] != 101 && s[z2] != 69);
        assert(!is_zero_literal(s));
    }

    // the one term scans to the end of the text
    let neg = v < 0;
    assert((0 < s.len() && s[0] == 45) == neg);
    lemma_skip_digits_segment(s, i1, we);
    let digits: Seq<u8>;
    let f: int;
    if r != 0 {
        assert(s[we] == 46);
        let fs = we + 1;
        assert(forall|k: int| fs <= k < fe ==> s[k] == frac[k - fs]);
        assert(forall|k: int| fs <= k < fe ==> is_digit(#[trigger] s[k]));
        lemma_skip_digits_segment(s, fs, fe);
        assert(s.subrange(i1, we) =~= wd);
        assert(s.subrange(fs, fe) =~= frac);
        digits = wd + frac;
        f = frac.len() as int;
        assert(term_at(s, 0) == term_tail(s, neg, digits, f, fe));
    } else {
        assert(s[we] == 115);
        assert(s.subrange(i1, we) =~= wd);
        assert(s.subrange(we, we) =~= Seq::<u8>::empty());
        assert(wd + Seq::<u8>::empty() =~= wd);
        digits = wd;
        f = 0;
        assert(term_at(s, 0) == term_tail(s, neg, digits, f, fe));
    }
    assert(s[fe] != 101);
    assert(skip_ws_spec(s, fe) == fe);
    assert(is_unit_letter(s[fe]));
    assert(unit_ticks(s[fe]) == 1024);
    assert(skip_ws_spec(s, fe + 1) == s.len());
    let value = term_value(neg, digits, f, 0, 1024);
    assert(term_tail(s, neg, digits, f, fe) == Some((value, s.len() as int)));

    // the term's value is the delta itself
    lemma_seconds_term_value(v, mag, w, r, wd, frac, digits, f);
    assert(value == v);

    // one term, then the end of the input
    assert(parse_terms(s, s.len() as int, v) == Some(v));
    assert(sat_add_i64(0, v) == v);
    assert(parse_terms(s, 0, 0) == Some(v));
    assert(parse_delta_spec(render_delta_spec(v)) == Some(v));
}

/// The seconds term of a rendering evaluates back to the rendered delta.
#[verifier::rlimit(100)]
#[verifier::spinoff_prover]
proof fn lemma_seconds_term_value(v: int, mag: int, w: int, r: int, wd: Seq<u8>, frac: Seq<u8>, digits: Seq<u8>, f: int)
    requires
        -(TICKS_PER_MINUTE as int) < v < TICKS_PER_MINUTE as int,
        v != 0,
        mag == if v < 0 {
            -v
        } else {
            v
        },
        w == mag / 1024,
        r == mag % 1024,
        wd == dec_digits(w as nat),
        frac == frac_digits_spec(r, 10),
        digits == if r == 0 {
            wd
        } else {
            wd + frac
        },
        f == if r == 0 {
            0
        } else {
            frac.len() as int
        },
    ensures
        term_value(v < 0, digits, f, 0, 1024) == v,
{
    vstd::arithmetic::div_mod::lemma_mod_division_less_than_divisor(mag, 1024);
    vstd::arithmetic::div_mod::lemma_div_pos_is_pos(mag, 1024);
    vstd::arithmetic::div_mod::lemma_fundamental_div_mod(mag, 1024);
    lemma_digits_round_trip(w as nat);
    lemma_dec_digits_ascii(w as nat);
    lemma_frac_digits_are_digits(r, 10);
    lemma_frac_digits_value(r, 10);
    lemma_frac_digits_exact(r);
    lemma_pow10_consts();
    assert(w < 60);
    assert(wd.len() <= 2) by {
        if w >= 10 {
            assert(dec_digits(w as nat) == dec_digits((w / 10) as nat).push(
                (48 + w % 10) as u8,
            ));
            assert(w / 10 < 10) by {
                vstd::arithmetic::div_mod::lemma_div_is_ordered(w, 59, 10);
            }
        }
    }
    let sig = strip0(digits);
    if w > 0 {
        assert(wd[0] != 48);
        assert(digits[0] != 48);
        assert(sig == digits);
        assert(dval(sig) == w * pow10(f as nat) + (if r == 0 {
            0
        } else {
            dval(frac)
        })) by {
            if r != 0 {
                lemma_dval_concat(wd, frac);
            } else {
                assert(pow10(0) == 1);
                assert(w * 1 == w) by (nonlinear_arith);
            }
        }
        let point = sig.len() + 0 - f;
        assert(point == wd.len());
        assert(1 <= point <= 2);
        let lp: int = sig.len() as int;
        assert(lp <= 12);
        assert(sig.take(lp) =~= sig);
        if f > 0 {
            // value = (dval(sig) * 1024) / 10^f == mag
            assert(dval(sig) * 1024 == mag * pow10(f as nat)) by (nonlinear_arith)
                requires
                    dval(sig) == w * pow10(f as nat) + dval(frac),
                    dval(frac) * 1024 == r * pow10(f as nat),
                    mag == 1024 * w + r,
            ;
            lemma_pow10_pos(f as nat);
            vstd::arithmetic::div_mod::lemma_div_multiples_vanish(mag, pow10(f as nat));
            assert((dval(sig) * 1024) / pow10(f as nat) == mag) by {
                assert(mag * pow10(f as nat) == pow10(f as nat) * mag) by (nonlinear_arith);
            }
            assert(term_value(v < 0, digits, f, 0, 1024) == v);
        } else {
            assert(point >= lp);
            assert(pow10((point - lp) as nat) == 1);
            assert(dval(sig) * 1024 * 1 == mag) by (nonlinear_arith)
                requires
                    dval(sig) == w,
                    mag == 1024 * w + r,
                    r == 0,
            ;
            assert(term_value(v < 0, digits, f, 0, 1024) == v);
        }
    } else {
        // no whole seconds: the significant digits are the fraction's
        assert(mag == r);
        assert(r > 0);
        assert(wd =~= seq![48u8]);
        assert(digits =~= seq![48u8] + frac);
        assert(strip0(digits) == strip0(frac)) by {
            assert(digits[0] == 48);
            assert(digits.drop_first() =~= frac);
        }
        lemma_dval_strip0(frac);
        assert(dval(sig) == dval(frac));
        assert(dval(frac) > 0) by {
            lemma_pow10_pos(frac.len());
            if dval(frac) <= 0 {
                assert(r * pow10(frac.len()) <= 0) by (nonlinear_arith)
                    requires
                        dval(frac) * 1024 + 0 >= r * pow10(frac.len()),
                        dval(frac) <= 0,
                ;
                assert(r * pow10(frac.len()) >= r) by (nonlinear_arith)
                    requires
                        r > 0,
                        pow10(frac.len()) >= 1,
                ;
            }
        }
        assert(sig.len() > 0) by {
            if sig.len() == 0 {
                assert(dval(sig) == 0);
            }
        }
        let point = sig.len() + 0 - f;
        assert(f == frac.len());
        assert(sig.len() <= frac.len()) by {
            lemma_strip0_props(frac);
        }
        assert(-10 <= point <= 0);
        let lp: int = sig.len() as int;
        assert(sig.take(lp) =~= sig);
        assert(point < lp);
        let k = lp - point;
        assert(k == f);
        assert(dval(sig) * 1024 == r * pow10(f as nat));
        lemma_pow10_pos(f as nat);
        vstd::arithmetic::div_mod::lemma_div_multiples_vanish(r, pow10(f as nat));
        assert((dval(sig) * 1024) / pow10(f as nat) == r) by {
            assert(r * pow10(f as nat) == pow10(f as nat) * r) by (nonlinear_arith);
        }
        assert(term_value(v < 0, digits, f, 0, 1024) == v);
    }
}

/// Addition that sticks to the ends of the delta range instead of wrapping.
pub open spec fn sat_add_i64(a: int, b: int) -> int {
    clamp_i64(a + b)
}

/// The sum of all terms from position `i` on, starting from `total`;
/// nothing when the text does not match the grammar.
pub open spec fn parse_terms(s: Seq<u8>, i: int, total: int) -> Option<int>
    decreases s.len() - i,
{
    if !(0 <= i < s.len()) {
        Some(total)
    } else {
        match term_at(s, i) {
            None => None,
            Some(p) => if i < p.1 <= s.len() {
                parse_terms(s, p.1, sat_add_i64(total, p.0))
            } else {
                None
            },
        }
    }
}

/// What a human-readable delta text denotes: nothing when it does not match
/// the grammar, otherwise the saturating sum of its terms in ticks. The
/// trimmed empty text and any literal zero denote the zero delta.
pub open spec fn parse_delta_spec(s: Seq<u8>) -> Option<int> {
    let t = trim_spec(s);
    if is_zero_literal(t) {
        Some(0)
    } else {
        parse_terms(t, 0, 0)
    }
}

/// Whether this byte is grammar whitespace.
fn is_ws_exec(b: u8) -> (r: bool)
    ensures
        r == is_ws(b),
{
    b == 32 || b == 9 || b == 10 || b == 11 || b == 12 || b == 13
}

/// Scan past whitespace.
fn skip_ws_exec(t: &[u8], i: usize) -> (r: usize)
    requires
        i <= t@.len(),
    ensures
        r == skip_ws_spec(t@, i as int),
        i <= r <= t@.len(),
{
    let mut j: usize = i;
    while j < t.len() && is_ws_exec(t[j])
        invariant
            i <= j <= t@.len(),
            skip_ws_spec(t@, i as int) == skip_ws_spec(t@, j as int),
        decreases t@.len() - j,
    {
        j = j + 1;
    }
    j
}

/// Scan past digits.
fn skip_digits_exec(t: &[u8], i: usize) -> (r: usize)
    requires
        i <= t@.len(),
    ensures
        r == skip_digits_spec(t@, i as int),
        i <= r <= t@.len(),
        forall|k: int| i <= k < r ==> is_digit(#[trigger] t@[k]),
{
    let mut j: usize = i;
    while j < t.len() && 48 <= t[j] && t[j] <= 57
        invariant
            i <= j <= t@.len(),
            skip_digits_spec(t@, i as int) == skip_digits_spec(t@, j as int),
            forall|k: int| i <= k < j ==> is_digit(#[trigger] t@[k]),
        decreases t@.len() - j,
    {
        j = j + 1;
    }
    j
}

/// Scan past ASCII zeros.
fn skip_zeros_exec(t: &[u8], i: usize) -> (r: usize)
    requires
        i <= t@.len(),
    ensures
        r == skip_zeros_spec(t@, i as int),
        i <= r <= t@.len(),
{
    let mut j: usize = i;
    while j < t.len() && t[j] == 48
        invariant
            i <= j <= t@.len(),
            skip_zeros_spec(t@, i as int) == skip_zeros_spec(t@, j as int),
        decreases t@.len() - j,
    {
        j = j + 1;
    }
    j
}

/// Scan backward past trailing whitespace.
fn rskip_ws_exec(t: &[u8]) -> (r: usize)
    ensures
        r == rskip_ws_spec(t@, t@.len() as int),
        r <= t@.len(),
{
    let mut j: usize = t.len();
    while j > 0 && is_ws_exec(t[j - 1])
        invariant
            j <= t@.len(),
            rskip_ws_spec(t@, t@.len() as int) == rskip_ws_spec(t@, j as int),
        decreases j,
    {
        j = j - 1;
    }
    j
}

/// Whether the trimmed input is a literal denoting zero.
fn check_zero_exec(t: &[u8]) -> (r: bool)
    ensures
        r == is_zero_literal(t@),
{
    let len: usize = t.len();
    let i1: usize = if len > 0 && t[0] == 45 {
        1
    } else {
        0
    };
    let ze: usize = skip_zeros_exec(t, i1);
    let after: usize = if ze > i1 {
        if ze < len && t[ze] == 46 {
            skip_zeros_exec(t, ze + 1)
        } else {
            ze
        }
    } else if i1 < len && t[i1] == 46 && skip_zeros_exec(t, i1 + 1) > i1 + 1 {
        skip_zeros_exec(t, i1 + 1)
    } else {
        return false;
    };
    if after == len {
        true
    } else if (t[after] == 101 || t[after] == 69) && skip_digits_exec(t, after + 1) > after + 1 {
        skip_digits_exec(t, after + 1) == len
    } else {
        false
    }
}

/// Ten to any power is positive.
proof fn lemma_pow10_pos(n: nat)
    ensures
        pow10(n) >= 1,
    decreases n,
{
    if n > 0 {
        lemma_pow10_pos((n - 1) as nat);
    }
}

/// Powers of ten grow with the exponent.
proof fn lemma_pow10_mono(a: nat, b: nat)
    requires
        a <= b,
    ensures
        pow10(a) <= pow10(b),
    decreases b,
{
    if a < b {
        lemma_pow10_mono(a, (b - 1) as nat);
        lemma_pow10_pos((b - 1) as nat);
    }
}

/// Powers of ten multiply by adding exponents.
proof fn lemma_pow10_adds(a: nat, b: nat)
    ensures
        pow10(a + b) == pow10(a) * pow10(b),
    decreases a,
{
    if a > 0 {
        lemma_pow10_adds((a - 1) as nat, b);
        assert(10 * (pow10((a - 1) as nat) * pow10(b)) == (10 * pow10((a - 1) as nat)) * pow10(
            b,
        )) by (nonlinear_arith);
    }
}

/// The concrete powers of ten the parser compares against.
proof fn lemma_pow10_consts()
    ensures
        pow10(19) == 10000000000000000000,
        pow10(20) == 100000000000000000000,
        pow10(25) == 10000000000000000000000000,
        pow10(26) == 100000000000000000000000000,
        pow10(37) == 10000000000000000000000000000000000000,
{
    reveal_with_fuel(pow10, 40);
}

/// A digit string's value is bounded by ten to its length.
proof fn lemma_dval_bound(s: Seq<u8>)
    requires
        forall|j: int| 0 <= j < s.len() ==> is_digit(#[trigger] s[j]),
    ensures
        0 <= dval(s) < pow10(s.len()),
    decreases s.len(),
{
    if s.len() > 0 {
        assert(forall|j: int|
            0 <= j < s.drop_last().len() ==> is_digit(#[trigger] s.drop_last()[j]));
        lemma_dval_bound(s.drop_last());
    }
}

/// Pushing a digit multiplies the value by ten and adds the digit.
proof fn lemma_dval_push(s: Seq<u8>, b: u8)
    ensures
        dval(s.push(b)) == dval(s) * 10 + (b - 48),
{
    assert(s.push(b).drop_last() =~= s);
}

/// How stripping leading zeros interacts with appending a digit.
proof fn lemma_strip0_push(s: Seq<u8>, b: u8)
    ensures
        strip0(s.push(b)) == if strip0(s).len() == 0 && b == 48 {
            Seq::<u8>::empty()
        } else {
            strip0(s).push(b)
        },
    decreases s.len(),
{
    if s.len() == 0 {
        if b == 48 {
            assert(s.push(b).drop_first() =~= Seq::<u8>::empty());
            assert(strip0(Seq::<u8>::empty()) == Seq::<u8>::empty());
            assert(strip0(s.push(b)) =~= Seq::<u8>::empty());
        } else {
            assert(strip0(s.push(b)) =~= strip0(s).push(b));
        }
    } else if s[0] == 48 {
        assert(s.push(b).drop_first() =~= s.drop_first().push(b));
        lemma_strip0_push(s.drop_first(), b);
    } else {
        assert(strip0(s.push(b)) =~= strip0(s).push(b));
    }
}

/// Stripped digits are still digits, and never begin with a zero.
proof fn lemma_strip0_props(s: Seq<u8>)
    requires
        forall|j: int| 0 <= j < s.len() ==> is_digit(#[trigger] s[j]),
    ensures
        strip0(s).len() <= s.len(),
        forall|j: int| 0 <= j < strip0(s).len() ==> is_digit(#[trigger] strip0(s)[j]),
        strip0(s).len() > 0 ==> strip0(s)[0] != 48,
    decreases s.len(),
{
    if s.len() > 0 && s[0] == 48 {
        assert(forall|j: int|
            0 <= j < s.drop_first().len() ==> is_digit(#[trigger] s.drop_first()[j]));
        lemma_strip0_props(s.drop_first());
    }
}

/// Feed the digit bytes of `t[from..to]` into the significant-digit window:
/// `sig_len` counts the significant digits seen, `acc` holds the value of
/// the first 25 of them.
fn feed_digits(t: &[u8], from: usize, to: usize, acc: &mut u128, sig_len: &mut u64, Ghost(prev): Ghost<
    Seq<u8>,
>)
    requires
        from <= to <= t@.len(),
        forall|k: int| from <= k < to ==> is_digit(#[trigger] t@[k]),
        forall|k: int| 0 <= k < prev.len() ==> is_digit(#[trigger] prev[k]),
        *old(sig_len) == strip0(prev).len(),
        *old(acc) == dval(take25(strip0(prev))),
        prev.len() + (to - from) <= u64::MAX,
    ensures
        *final(sig_len) == strip0(prev + t@.subrange(from as int, to as int)).len(),
        *final(acc) == dval(take25(strip0(prev + t@.subrange(from as int, to as int)))),
{
    let ghost t_seq = t@;
    let mut j: usize = from;
    proof {
        assert(prev + t_seq.subrange(from as int, from as int) =~= prev);
    }
    while j < to
        invariant
            from <= j <= to <= t_seq.len(),
            t_seq == t@,
            forall|k: int| from <= k < to ==> is_digit(#[trigger] t_seq[k]),
            forall|k: int| 0 <= k < prev.len() ==> is_digit(#[trigger] prev[k]),
            *sig_len == strip0(prev + t_seq.subrange(from as int, j as int)).len(),
            *acc == dval(take25(strip0(prev + t_seq.subrange(from as int, j as int)))),
            prev.len() + (to - from) <= u64::MAX,
        decreases to - j,
    {
        let b: u8 = t[j];
        let ghost cur = prev + t_seq.subrange(from as int, j as int);
        let ghost sig = strip0(cur);
        proof {
            assert(forall|k: int| 0 <= k < cur.len() ==> is_digit(#[trigger] cur[k]));
            lemma_strip0_props(cur);
            assert(cur.push(b) =~= prev + t_seq.subrange(from as int, j as int + 1));
            lemma_strip0_push(cur, b);
            lemma_pow10_consts();
            if sig.len() <= 25 {
                assert(take25(sig) == sig);
                lemma_dval_bound(sig);
                lemma_pow10_mono(sig.len(), 25);
            } else {
                assert(forall|k: int|
                    0 <= k < sig.take(25).len() ==> is_digit(#[trigger] sig.take(25)[k]));
                lemma_dval_bound(sig.take(25));
            }
        }
        if *sig_len == 0 && b == 48 {
            proof {
                assert(strip0(cur.push(b)) =~= Seq::<u8>::empty());
            }
        } else {
            proof {
                assert(strip0(cur.push(b)) == sig.push(b));
                if sig.len() < 25 {
                    assert(take25(sig.push(b)) =~= take25(sig).push(b));
                    lemma_dval_push(take25(sig), b);
                } else {
                    assert(sig.push(b).take(25) =~= sig.take(25));
                    assert(take25(sig.push(b)) == take25(sig));
                }
            }
            if *sig_len < 25 {
                *acc = *acc * 10 + ((b - 48) as u128);
            }
            *sig_len = *sig_len + 1;
        }
        j = j + 1;
    }
}

/// Read an exponent's digits; values at or above ten to the 25 are reported
/// as that bound, which already forces saturation.
fn feed_exp(t: &[u8], from: usize, to: usize) -> (r: u128)
    requires
        from <= to <= t@.len(),
        forall|k: int| from <= k < to ==> is_digit(#[trigger] t@[k]),
    ensures
        dval(t@.subrange(from as int, to as int)) < pow10(25) ==> r == dval(
            t@.subrange(from as int, to as int),
        ),
        dval(t@.subrange(from as int, to as int)) >= pow10(25) ==> r >= pow10(25),
        r < pow10(26),
{
    let ghost t_seq = t@;
    let mut acc: u128 = 0;
    let mut j: usize = from;
    proof {
        lemma_pow10_consts();
        assert(t_seq.subrange(from as int, from as int) =~= Seq::<u8>::empty());
    }
    while j < to
        invariant
            from <= j <= to <= t_seq.len(),
            t_seq == t@,
            forall|k: int| from <= k < to ==> is_digit(#[trigger] t_seq[k]),
            dval(t_seq.subrange(from as int, j as int)) < pow10(25) ==> acc == dval(
                t_seq.subrange(from as int, j as int),
            ),
            dval(t_seq.subrange(from as int, j as int)) >= pow10(25) ==> acc >= pow10(25),
            acc < pow10(26),
        decreases to - j,
    {
        let b: u8 = t[j];
        let ghost cur = t_seq.subrange(from as int, j as int);
        proof {
            lemma_pow10_consts();
            assert(forall|k: int| 0 <= k < cur.len() ==> is_digit(#[trigger] cur[k]));
            lemma_dval_bound(cur);
            assert(cur.push(b) =~= t_seq.subrange(from as int, j as int + 1));
            lemma_dval_push(cur, b);
        }
        if acc < 10000000000000000000000000u128 {
            acc = acc * 10 + ((b - 48) as u128);
        }
        j = j + 1;
    }
    proof {
        lemma_pow10_consts();
    }
    acc
}

/// An exec power of ten.
fn pow10_u128(k: u64) -> (r: u128)
    requires
        k <= 37,
    ensures
        r == pow10(k as nat),
{
    let mut acc: u128 = 1;
    let mut j: u64 = 0;
    while j < k
        invariant
            j <= k <= 37,
            acc == pow10(j as nat),
        decreases k - j,
    {
        proof {
            lemma_pow10_consts();
            lemma_pow10_mono((j as nat + 1) as nat, 37);
            lemma_pow10_pos(j as nat);
        }
        acc = acc * 10;
        j = j + 1;
    }
    acc
}

/// Apply the sign and clip to the delta range.
fn clamp_signed(neg: bool, raw: u128) -> (r: i64)
    ensures
        r == clamp_i64(
            if neg {
                -(raw as int)
            } else {
                raw as int
            },
        ),
{
    if neg {
        if raw >= 9223372036854775808u128 {
            i64::MIN
        } else {
            -(raw as i64)
        }
    } else {
        if raw > 9223372036854775807u128 {
            i64::MAX
        } else {
            raw as i64
        }
    }
}

/// The tick count of one unit letter.
fn unit_ticks_exec(b: u8) -> (u: u64)
    requires
        is_unit_letter(b),
    ensures
        u as int == unit_ticks(b),
        1024 <= u <= 0x8_0000_0000,
{
    if b == 121 {
        TICKS_PER_YEAR as u64
    } else if b == 100 {
        TICKS_PER_DAY as u64
    } else if b == 104 {
        TICKS_PER_HOUR as u64
    } else if b == 109 {
        TICKS_PER_MINUTE as u64
    } else {
        TICKS_PER_SECOND as u64
    }
}

/// Whether the line is free of newline bytes from `i` on.
fn line_ok(t: &[u8], i: usize) -> (r: bool)
    requires
        i <= t@.len(),
    ensures
        r == !contains_nl(t@, i as int),
{
    let mut j: usize = i;
    while j < t.len()
        invariant
            i <= j <= t@.len(),
            forall|k: int| i <= k < j ==> t@[k] != 10,
        decreases t@.len() - j,
    {
        if t[j] == 10 {
            return false;
        }
        j = j + 1;
    }
    true
}

/// Compute one term's tick value from its scanned pieces.
#[verifier::spinoff_prover]
#[verifier::rlimit(100)]
fn term_value_exec(
    t: &[u8],
    neg: bool,
    a1: usize,
    b1: usize,
    a2: usize,
    b2: usize,
    es: usize,
    ee: usize,
    unit: u64,
) -> (r: i64)
    requires
        a1 <= b1 <= t@.len(),
        a2 <= b2 <= t@.len(),
        es <= ee <= t@.len(),
        (b1 - a1) + (b2 - a2) <= t@.len(),
        forall|k: int| a1 <= k < b1 ==> is_digit(#[trigger] t@[k]),
        forall|k: int| a2 <= k < b2 ==> is_digit(#[trigger] t@[k]),
        forall|k: int| es <= k < ee ==> is_digit(#[trigger] t@[k]),
        1024 <= unit <= 0x8_0000_0000,
    ensures
        r == term_value(
            neg,
            t@.subrange(a1 as int, b1 as int) + t@.subrange(a2 as int, b2 as int),
            b2 - a2,
            dval(t@.subrange(es as int, ee as int)),
            unit as int,
        ),
{
    let ghost digits = t@.subrange(a1 as int, b1 as int) + t@.subrange(a2 as int, b2 as int);
    let ghost sig = strip0(digits);
    let ghost e_spec = dval(t@.subrange(es as int, ee as int));
    let tlen: usize = t.len();
    let mut acc: u128 = 0;
    let mut sig_len: u64 = 0;
    proof {
        assert(Seq::<u8>::empty() + t@.subrange(a1 as int, b1 as int) =~= t@.subrange(
            a1 as int,
            b1 as int,
        ));
        assert(strip0(Seq::<u8>::empty()) =~= Seq::<u8>::empty());
        assert(take25(Seq::<u8>::empty()) =~= Seq::<u8>::empty());
    }
    feed_digits(t, a1, b1, &mut acc, &mut sig_len, Ghost(Seq::<u8>::empty()));
    feed_digits(t, a2, b2, &mut acc, &mut sig_len, Ghost(t@.subrange(a1 as int, b1 as int)));
    let e_low: u128 = feed_exp(t, es, ee);
    let f: u64 = (b2 - a2) as u64;
    proof {
        lemma_pow10_consts();
        assert(forall|k: int| 0 <= k < digits.len() ==> is_digit(#[trigger] digits[k]));
        lemma_strip0_props(digits);
    }
    if sig_len == 0 {
        return 0;
    }
    if e_low >= 10000000000000000000000000u128 {
        // the exponent alone puts the value far past the range
        if neg {
            return i64::MIN;
        } else {
            return i64::MAX;
        }
    }
    let point: i128 = sig_len as i128 + (e_low as i128) - (f as i128);
    proof {
        assert(point as int == sig.len() + e_spec - (b2 - a2));
    }
    if point >= 20 {
        if neg {
            i64::MIN
        } else {
            i64::MAX
        }
    } else if point <= -12 {
        0
    } else {
        let lp: u64 = if sig_len <= 25 {
            sig_len
        } else {
            25
        };
        proof {
            assert(take25(sig) =~= sig.take(lp as int));
            assert(forall|k: int|
                0 <= k < sig.take(lp as int).len() ==> is_digit(#[trigger] sig.take(lp as int)[k]));
            lemma_dval_bound(sig.take(lp as int));
            lemma_pow10_mono(lp as nat, 25);
        }
        let pt: i64 = point as i64;
        if pt >= lp as i64 {
            let k: u64 = (pt - lp as i64) as u64;
            let mult: u128 = pow10_u128(k);
            proof {
                lemma_pow10_consts();
                lemma_pow10_adds(lp as nat, k as nat);
                lemma_pow10_mono((lp + k) as nat, 19);
                assert(acc * (unit as u128) < pow10(lp as nat) * 0x8_0000_0001)
                    by (nonlinear_arith)
                    requires
                        0 <= acc < pow10(lp as nat),
                        0 < unit as u128 <= 0x8_0000_0000,
                ;
                assert((acc * (unit as u128)) * mult <= (pow10(lp as nat) * 0x8_0000_0001) * mult)
                    by (nonlinear_arith)
                    requires
                        acc * (unit as u128) <= pow10(lp as nat) * 0x8_0000_0001,
                        mult >= 0,
                ;
                assert((pow10(lp as nat) * 0x8_0000_0001) * mult == (pow10(lp as nat) * mult)
                    * 0x8_0000_0001) by (nonlinear_arith);
                assert(pow10(lp as nat) * mult == pow10((lp + k) as nat));
            }
            let au: u128 = acc * (unit as u128);
            let raw: u128 = au * mult;
            proof {
                assert(raw as int == dval(sig.take(lp as int)) * (unit as int) * pow10(k as nat));
            }
            clamp_signed(neg, raw)
        } else {
            let k: u64 = (lp as i64 - pt) as u64;
            let denom: u128 = pow10_u128(k);
            proof {
                lemma_pow10_consts();
                lemma_pow10_pos(k as nat);
                assert(acc * (unit as u128) < pow10(25) * 0x8_0000_0001) by (nonlinear_arith)
                    requires
                        0 <= acc < pow10(25),
                        0 < unit as u128 <= 0x8_0000_0000,
                ;
            }
            let au: u128 = acc * (unit as u128);
            let raw: u128 = au / denom;
            proof {
                assert(raw as int == (dval(sig.take(lp as int)) * (unit as int)) / pow10(
                    k as nat,
                ));
            }
            clamp_signed(neg, raw)
        }
    }
}

/// Saturating addition of two tick counts.
fn sat_add_exec(a: i64, b: i64) -> (r: i64)
    ensures
        r == sat_add_i64(a as int, b as int),
{
    match a.checked_add(b) {
        Some(v) => v,
        None => if b > 0 {
            i64::MAX
        } else {
            i64::MIN
        },
    }
}

/// Scan one term at position `i`, yielding its tick value and the position
/// after it.
#[verifier::spinoff_prover]
#[verifier::rlimit(100)]
fn scan_term(t: &[u8], i: usize) -> (r: Option<(i64, usize)>)
    requires
        i < t@.len(),
    ensures
        match term_at(t@, i as int) {
            None => r is None,
            Some(p) => r is Some && (r->0).0 == p.0 && (r->0).1 == p.1 && i < p.1 <= t@.len(),
        },
{
    let len: usize = t.len();
    let neg: bool = t[i] == 45;
    let i1: usize = if neg {
        i + 1
    } else {
        i
    };
    if i1 > len {
        return None;
    }
    let ie: usize = skip_digits_exec(t, i1);
    let a1: usize;
    let b1: usize;
    let a2: usize;
    let b2: usize;
    if ie > i1 {
        let dotted: bool = ie < len && t[ie] == 46;
        a1 = i1;
        b1 = ie;
        if dotted {
            a2 = ie + 1;
            b2 = skip_digits_exec(t, ie + 1);
        } else {
            a2 = ie;
            b2 = ie;
        }
    } else if i1 < len && t[i1] == 46 && skip_digits_exec(t, i1 + 1) > i1 + 1 {
        a1 = i1 + 1;
        b1 = i1 + 1;
        a2 = i1 + 1;
        b2 = skip_digits_exec(t, i1 + 1);
    } else {
        return None;
    }
    let pos: usize = b2;
    let has_e: bool = pos < len && t[pos] == 101 && skip_digits_exec(t, pos + 1) > pos + 1;
    let es: usize;
    let ee: usize;
    let after: usize;
    if has_e {
        es = pos + 1;
        ee = skip_digits_exec(t, pos + 1);
        after = ee;
    } else {
        es = pos;
        ee = pos;
        after = pos;
    }
    let upos: usize = skip_ws_exec(t, after);
    if !(upos < len) {
        return None;
    }
    let ub: u8 = t[upos];
    if !(ub == 121 || ub == 100 || ub == 104 || ub == 109 || ub == 115) {
        return None;
    }
    let unit: u64 = unit_ticks_exec(ub);
    proof {
        if !has_e {
            assert(t@.subrange(es as int, ee as int) =~= Seq::<u8>::empty());
        }
        if a1 == b1 {
            assert(t@.subrange(a1 as int, b1 as int) =~= Seq::<u8>::empty());
        }
        if a2 == b2 {
            assert(t@.subrange(a2 as int, b2 as int) =~= Seq::<u8>::empty());
        }
    }
    let v: i64 = term_value_exec(t, neg, a1, b1, a2, b2, es, ee, unit);
    let rest: usize = skip_ws_exec(t, upos + 1);
    if rest == len {
        Some((v, rest))
    } else if line_ok(t, rest) {
        Some((v, rest))
    } else {
        None
    }
}

impl Humanized<TimeDelta> {
    /// Parse a human-readable delta, as `parse_delta_spec` describes: the
    /// saturating sum of signed decimal numbers with unit letters.
    pub fn parse(s: &str) -> (r: Result<Humanized<TimeDelta>, ParseTimeDeltaError>)
        ensures
            parse_delta_spec(s.spec_bytes()) is Some <==> r is Ok,
            r is Ok ==> r->Ok_0.0@ == parse_delta_spec(s.spec_bytes())->0,
            r is Err ==> r->Err_0 == ParseTimeDeltaError::UnrecognizedTerm,
    {
        let bytes: &[u8] = s.as_bytes();
        let a: usize = skip_ws_exec(bytes, 0);
        let b: usize = rskip_ws_exec(bytes);
        let t: &[u8] = if a <= b {
            &bytes[a..b]
        } else {
            &bytes[0..0]
        };
        proof {
            if a > b {
                assert(t@ =~= trim_spec(bytes@));
            } else {
                assert(t@ =~= trim_spec(bytes@));
            }
        }
        if check_zero_exec(t) {
            return Ok(Humanized(TimeDelta::from_ticks(0)));
        }
        let mut i: usize = 0;
        let mut total: i64 = 0;
        while i < t.len()
            invariant
                0 <= i <= t@.len(),
                t@ == trim_spec(s.spec_bytes()),
                !is_zero_literal(t@),
                parse_terms(t@, 0, 0) == parse_terms(t@, i as int, total as int),
            decreases t@.len() - i,
        {
            match scan_term(t, i) {
                None => {
                    proof {
                        assert(parse_terms(t@, i as int, total as int) is None);
                    }
                    return Err(ParseTimeDeltaError::UnrecognizedTerm);
                },
                Some((v, j)) => {
                    proof {
                        assert(parse_terms(t@, i as int, total as int) == parse_terms(
                            t@,
                            j as int,
                            sat_add_i64(total as int, v as int),
                        ));
                    }
                    total = sat_add_exec(total, v);
                    i = j;
                },
            }
        }
        proof {
            assert(parse_terms(t@, i as int, total as int) == Some(total as int));
        }
        Ok(Humanized(TimeDelta::from_ticks(total)))
    }
}

impl Humanized<Duration> {
    /// Parse a human-readable duration: a delta that must not be negative.
    pub fn parse(s: &str) -> (r: Result<Humanized<Duration>, ParseDurationError>)
        ensures
            parse_delta_spec(s.spec_bytes()) is Some && parse_delta_spec(
                s.spec_bytes(),
            )->0 >= 0 <==> r is Ok,
            r is Ok ==> r->Ok_0.0@ == parse_delta_spec(s.spec_bytes())->0,
            parse_delta_spec(s.spec_bytes()) is None ==> r == Err::<
                Humanized<Duration>,
                ParseDurationError,
            >(ParseDurationError::ParseTimeDeltaError(ParseTimeDeltaError::UnrecognizedTerm)),
            parse_delta_spec(s.spec_bytes()) is Some && parse_delta_spec(s.spec_bytes())->0 < 0
                ==> (r is Err && (r->Err_0 matches ParseDurationError::NegativeTimeDelta(n)
                && n.0@ == parse_delta_spec(s.spec_bytes())->0)),
    {
        match Humanized::<TimeDelta>::parse(s) {
            Err(e) => Err(ParseDurationError::ParseTimeDeltaError(e)),
            Ok(h) => match Duration::try_from(h.0) {
                Ok(d) => Ok(Humanized(d)),
                Err(n) => Err(ParseDurationError::NegativeTimeDelta(n)),
            },
        }
    }
}

impl Humanized<Time> {
    /// Parse a human-readable time: a delta from the time origin.
    pub fn parse(s: &str) -> (r: Result<Humanized<Time>, ParseDurationError>)
        ensures
            parse_delta_spec(s.spec_bytes()) is Some <==> r is Ok,
            r is Ok ==> r->Ok_0.0@ == parse_delta_spec(s.spec_bytes())->0,
            r is Err ==> r == Err::<Humanized<Time>, ParseDurationError>(
                ParseDurationError::ParseTimeDeltaError(ParseTimeDeltaError::UnrecognizedTerm),
            ),
    {
        match Humanized::<TimeDelta>::parse(s) {
            Err(e) => Err(ParseDurationError::ParseTimeDeltaError(e)),
            Ok(h) => Ok(Humanized(Time::zero().offset(h.0))),
        }
    }
}

impl Humanized<TimeDelta> {
    /// The delta as human-readable text.
    pub fn render(&self) -> (r: String)
        ensures
            r@ == ascii_view(render_delta_spec(self.0@)),
    {
        let mut out: Vec<u8> = Vec::new();
        push_delta(&mut out, self.0.ticks());
        proof {
            lemma_ascii_render_delta(self.0@);
        }
        ascii_string(out)
    }
}

impl Humanized<Duration> {
    /// The duration as human-readable text.
    pub fn render(&self) -> (r: String)
        ensures
            r@ == ascii_view(render_delta_spec(self.0@)),
    {
        let mut out: Vec<u8> = Vec::new();
        push_delta(&mut out, self.0.delta().ticks());
        proof {
            lemma_ascii_render_delta(self.0@);
        }
        ascii_string(out)
    }
}

impl Humanized<Time> {
    /// The time as human-readable text: its delta from the time origin.
    pub fn render(&self) -> (r: String)
        ensures
            r@ == ascii_view(render_delta_spec(self.0@)),
    {
        let mut out: Vec<u8> = Vec::new();
        push_delta(&mut out, self.0.since_origin().ticks());
        proof {
            lemma_ascii_render_delta(self.0@);
        }
        ascii_string(out)
    }
}

} // verus!
