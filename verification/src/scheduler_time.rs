//! The scheduler's clock: a wrapping signed tick count.
//!
//! [`Time`] here is both a point on the scheduler's time line and a span of
//! it, counted in ticks of 1/1024 s in an `i64` whose arithmetic wraps
//! around on overflow. It can be split into calendar-like components and
//! rendered as text.

use vstd::prelude::*;

use crate::digits::{
    all_ascii, ascii_string, ascii_view, dec_digits, dec_int, lemma_ascii_concat,
    lemma_ascii_dec_int, lemma_ascii_unit_seq, lemma_dec_digits_ascii, push_i64_dec, push_u64_dec,
    push_unit, unit_seq,
};
use crate::sim_time::{div_trunc, div_trunc_i64, rem_trunc, rem_trunc_i64};

verus! {

/// Ticks per second of the scheduler clock.
pub const SECOND_TICKS: i64 = 1024;

/// Ticks per minute.
pub const MINUTE_TICKS: i64 = 1024 * 60;

/// Ticks per hour.
pub const HOUR_TICKS: i64 = 1024 * 60 * 60;

/// Ticks per day.
pub const DAY_TICKS: i64 = 1024 * 60 * 60 * 24;

/// Ticks per week.
pub const WEEK_TICKS: i64 = 1024 * 60 * 60 * 24 * 7;

/// Ticks per month of 30 days.
pub const MONTH_TICKS: i64 = 1024 * 60 * 60 * 24 * 30;

/// Ticks per year of 365 days.
pub const YEAR_TICKS: i64 = 1024 * 60 * 60 * 24 * 365;

/// A time of the scheduler: a signed tick count with wrapping arithmetic.
#[derive(Clone, Copy, Debug, Hash, PartialEq, Eq, Structural, PartialOrd, Ord)]
pub struct Time(i64);

impl View for Time {
    type V = int;

    /// The signed tick count.
    closed spec fn view(&self) -> int {
        self.0 as int
    }
}

/// Every scheduler time's tick count fits the machine word it is kept in.
pub broadcast proof fn lemma_ticks_bounds(t: Time)
    ensures
        i64::MIN <= #[trigger] t@ <= i64::MAX,
{
}

/// The result of wrapping an unbounded tick count back into the `i64` range.
pub open spec fn wrap_i64(v: int) -> int {
    ((v + i64::MAX + 1) % 0x1_0000_0000_0000_0000) - i64::MAX - 1
}

impl Time {
    /// The time origin.
    pub fn zero() -> (r: Time)
        ensures
            r@ == 0,
    {
        Time(0)
    }

    /// One tick: the smallest representable step of the clock.
    pub fn epsilon() -> (r: Time)
        ensures
            r@ == 1,
    {
        Time(1)
    }

    /// One second.
    pub fn second() -> (r: Time)
        ensures
            r@ == SECOND_TICKS,
    {
        Time(SECOND_TICKS)
    }

    /// One minute.
    pub fn minute() -> (r: Time)
        ensures
            r@ == MINUTE_TICKS,
    {
        Time(MINUTE_TICKS)
    }

    /// One hour.
    pub fn hour() -> (r: Time)
        ensures
            r@ == HOUR_TICKS,
    {
        Time(HOUR_TICKS)
    }

    /// One day.
    pub fn day() -> (r: Time)
        ensures
            r@ == DAY_TICKS,
    {
        Time(DAY_TICKS)
    }

    /// One week.
    pub fn week() -> (r: Time)
        ensures
            r@ == WEEK_TICKS,
    {
        Time(WEEK_TICKS)
    }

    /// One month of 30 days.
    pub fn month() -> (r: Time)
        ensures
            r@ == MONTH_TICKS,
    {
        Time(MONTH_TICKS)
    }

    /// One year of 365 days.
    pub fn year() -> (r: Time)
        ensures
            r@ == YEAR_TICKS,
    {
        Time(YEAR_TICKS)
    }

    /// The raw tick count.
    pub(crate) fn ticks(self) -> (r: i64)
        ensures
            r == self@,
    {
        self.0
    }

    /// Wrapping sum of two times.
    pub fn add(self, rhs: Time) -> (r: Time)
        ensures
            r@ == wrap_i64(self@ + rhs@),
    {
        Time(self.0.wrapping_add(rhs.0))
    }

    /// Wrapping difference of two times.
    pub fn sub(self, rhs: Time) -> (r: Time)
        ensures
            r@ == wrap_i64(self@ - rhs@),
    {
        Time(self.0.wrapping_sub(rhs.0))
    }

    /// Wrapping negation.
    pub fn neg(self) -> (r: Time)
        ensures
            r@ == wrap_i64(-self@),
    {
        Time((0i64).wrapping_sub(self.0))
    }

    /// Wrapping multiplication by an integer factor.
    pub fn mul(self, rhs: i64) -> (r: Time)
        ensures
            r@ == wrap_i64(self@ * rhs),
    {
        Time(self.0.wrapping_mul(rhs))
    }

    /// How many times `rhs` fits in `self`, rounding toward zero; the one
    /// wrapping case divides the smallest time by minus one.
    pub fn div(self, rhs: Time) -> (r: i64)
        requires
            rhs@ != 0,
        ensures
            r == if self@ == i64::MIN && rhs@ == -1 {
                i64::MIN as int
            } else {
                div_trunc(self@, rhs@)
            },
    {
        if self.0 == i64::MIN && rhs.0 == -1 {
            i64::MIN
        } else {
            div_trunc_i64(self.0, rhs.0)
        }
    }

    /// The time divided by an integer, rounding toward zero; the one
    /// wrapping case divides the smallest time by minus one.
    pub fn div_int(self, rhs: i64) -> (r: Time)
        requires
            rhs != 0,
        ensures
            r@ == if self@ == i64::MIN && rhs == -1 {
                i64::MIN as int
            } else {
                div_trunc(self@, rhs as int)
            },
    {
        if self.0 == i64::MIN && rhs == -1 {
            Time(i64::MIN)
        } else {
            Time(div_trunc_i64(self.0, rhs))
        }
    }

    /// The remainder of one time modulo another, with the sign of `self`.
    pub fn rem(self, rhs: Time) -> (r: Time)
        requires
            rhs@ != 0,
        ensures
            r@ == if self@ == i64::MIN && rhs@ == -1 {
                0
            } else {
                rem_trunc(self@, rhs@)
            },
    {
        if self.0 == i64::MIN && rhs.0 == -1 {
            Time(0)
        } else {
            Time(rem_trunc_i64(self.0, rhs.0))
        }
    }

    /// Split off the integer number of years, returning it and the remainder.
    pub fn split_years(self) -> (r: (i64, Time))
        ensures
            r.0 == div_trunc(self@, YEAR_TICKS as int),
            r.1@ == rem_trunc(self@, YEAR_TICKS as int),
    {
        (div_trunc_i64(self.0, YEAR_TICKS), Time(rem_trunc_i64(self.0, YEAR_TICKS)))
    }

    /// Split off the integer number of 30-day months.
    pub fn split_months(self) -> (r: (i64, Time))
        ensures
            r.0 == div_trunc(self@, MONTH_TICKS as int),
            r.1@ == rem_trunc(self@, MONTH_TICKS as int),
    {
        (div_trunc_i64(self.0, MONTH_TICKS), Time(rem_trunc_i64(self.0, MONTH_TICKS)))
    }

    /// Split off the integer number of weeks.
    pub fn split_weeks(self) -> (r: (i64, Time))
        ensures
            r.0 == div_trunc(self@, WEEK_TICKS as int),
            r.1@ == rem_trunc(self@, WEEK_TICKS as int),
    {
        (div_trunc_i64(self.0, WEEK_TICKS), Time(rem_trunc_i64(self.0, WEEK_TICKS)))
    }

    /// Split off the integer number of days.
    pub fn split_days(self) -> (r: (i64, Time))
        ensures
            r.0 == div_trunc(self@, DAY_TICKS as int),
            r.1@ == rem_trunc(self@, DAY_TICKS as int),
    {
        (div_trunc_i64(self.0, DAY_TICKS), Time(rem_trunc_i64(self.0, DAY_TICKS)))
    }

    /// Split off the integer number of hours.
    pub fn split_hours(self) -> (r: (i64, Time))
        ensures
            r.0 == div_trunc(self@, HOUR_TICKS as int),
            r.1@ == rem_trunc(self@, HOUR_TICKS as int),
    {
        (div_trunc_i64(self.0, HOUR_TICKS), Time(rem_trunc_i64(self.0, HOUR_TICKS)))
    }

    /// Split off the integer number of minutes.
    pub fn split_minutes(self) -> (r: (i64, Time))
        ensures
            r.0 == div_trunc(self@, MINUTE_TICKS as int),
            r.1@ == rem_trunc(self@, MINUTE_TICKS as int),
    {
        (div_trunc_i64(self.0, MINUTE_TICKS), Time(rem_trunc_i64(self.0, MINUTE_TICKS)))
    }

    /// Split off the integer number of seconds.
    pub fn split_seconds(self) -> (r: (i64, Time))
        ensures
            r.0 == div_trunc(self@, SECOND_TICKS as int),
            r.1@ == rem_trunc(self@, SECOND_TICKS as int),
    {
        (div_trunc_i64(self.0, SECOND_TICKS), Time(rem_trunc_i64(self.0, SECOND_TICKS)))
    }

    /// The fractional part of a second as a numerator over the tick count of
    /// one second.
    pub fn split_fractional_second(self) -> (r: (i64, i64))
        ensures
            r.0 == rem_trunc(self@, SECOND_TICKS as int),
            r.1 == SECOND_TICKS,
    {
        (rem_trunc_i64(self.0, SECOND_TICKS), SECOND_TICKS)
    }

    /// Render the time as text, as `render_spec` describes: the non-zero
    /// year, month, day, hour and minute components with their unit letters,
    /// then the seconds — alternate form shows exact tick fractions, the
    /// plain form three rounded decimals.
    #[verifier::rlimit(100)]
    pub fn render(&self, alternate: bool) -> (r: String)
        ensures
            r@ == ascii_view(render_spec(self@, alternate)),
    {
        let mut out: Vec<u8> = Vec::new();
        let years_split: (i64, Time) = self.split_years();
        let years: i64 = years_split.0;
        let months_split: (i64, Time) = years_split.1.split_months();
        let months: i64 = months_split.0;
        let days_split: (i64, Time) = months_split.1.split_days();
        let days: i64 = days_split.0;
        let hours_split: (i64, Time) = days_split.1.split_hours();
        let hours: i64 = hours_split.0;
        let minutes_split: (i64, Time) = hours_split.1.split_minutes();
        let minutes: i64 = minutes_split.0;
        let seconds_split: (i64, Time) = minutes_split.1.split_seconds();
        let seconds: i64 = seconds_split.0;
        let sub: i64 = minutes_split.1.split_fractional_second().0;

        push_unit(&mut out, years, 89, false);
        push_unit(&mut out, months, 77, years != 0);
        push_unit(&mut out, days, 68, years != 0 || months != 0);
        push_unit(&mut out, hours, 104, years != 0 || months != 0 || days != 0);
        push_unit(&mut out, minutes, 109, years != 0 || months != 0 || days != 0 || hours != 0);
        let written: bool = years != 0 || months != 0 || days != 0 || hours != 0 || minutes != 0;
        proof {
            assert(out@ =~= head_spec(self@));
        }

        proof {
            crate::sim_time::lemma_rem_trunc_range(minutes_split.1@, SECOND_TICKS as int);
        }
        push_tail(&mut out, seconds, sub, written, alternate);
        proof {
            assert(out@ =~= render_spec(self@, alternate));
            lemma_render_spec_ascii(self@, alternate);
        }
        ascii_string(out)
    }
}

/// Append the seconds component to `out`.
fn push_tail(out: &mut Vec<u8>, seconds: i64, sub: i64, written: bool, alternate: bool)
    requires
        -1024 < sub < 1024,
    ensures
        final(out)@ == old(out)@ + tail_spec(seconds as int, sub as int, written, alternate),
{
    if seconds == 0 && sub == 0 {
        if !written {
            out.push(32);
            out.push(48);
            out.push(115);
        }
        proof {
            assert(out@ =~= old(out)@ + tail_spec(
                seconds as int,
                sub as int,
                written,
                alternate,
            ));
        }
    } else if sub == 0 {
        if written {
            out.push(32);
        }
        push_i64_dec(out, seconds);
        out.push(115);
        proof {
            assert(out@ =~= old(out)@ + tail_spec(
                seconds as int,
                sub as int,
                written,
                alternate,
            ));
        }
    } else if alternate {
        if written {
            out.push(32);
        }
        if seconds != 0 {
            push_i64_dec(out, seconds);
            out.push(32);
        }
        push_i64_dec(out, sub);
        out.push(47);
        push_u64_dec(out, 1024);
        out.push(115);
        proof {
            assert(out@ =~= old(out)@ + tail_spec(
                seconds as int,
                sub as int,
                written,
                alternate,
            ));
        }
    } else {
        if written {
            out.push(32);
        }
        push_fixed3(out, seconds, sub);
        out.push(115);
        proof {
            assert(out@ =~= old(out)@ + tail_spec(
                seconds as int,
                sub as int,
                written,
                alternate,
            ));
        }
    }
}

/// Append the three-decimal seconds rendering to `out`.
fn push_fixed3(out: &mut Vec<u8>, seconds: i64, sub: i64)
    requires
        -1024 < sub < 1024,
    ensures
        final(out)@ == old(out)@ + fixed3_spec(seconds as int, sub as int),
{
    let neg: bool = seconds < 0 || sub < 0;
    if neg {
        out.push(45);
    }
    let mag_s: u64 = if seconds < 0 {
        (-(seconds as i128)) as u64
    } else {
        seconds as u64
    };
    let mag_n: u64 = if sub < 0 {
        (-(sub as i128)) as u64
    } else {
        sub as u64
    };
    let p: u64 = mag_n * 1000;
    let q: u64 = p / 1024;
    let rest: u64 = p % 1024;
    proof {
        vstd::arithmetic::div_mod::lemma_div_is_ordered(p as int, 1023000, 1024);
        vstd::arithmetic::div_mod::lemma_mod_division_less_than_divisor(p as int, 1024);
    }
    let millis: u64 = if 2 * rest > 1024 {
        q + 1
    } else if 2 * rest < 1024 {
        q
    } else if q % 2 == 1 {
        q + 1
    } else {
        q
    };
    push_u64_dec(out, mag_s);
    out.push(46);
    out.push(48 + ((millis / 100) % 10) as u8);
    out.push(48 + ((millis / 10) % 10) as u8);
    out.push(48 + (millis % 10) as u8);
    proof {
        assert(millis as int == millis_spec(mag_n as int));
        assert(out@ =~= old(out)@ + fixed3_spec(seconds as int, sub as int));
    }
}

/// The year, month, day, hour and minute components of the rendering of `v`.
pub open spec fn head_spec(v: int) -> Seq<u8> {
    let years = div_trunc(v, YEAR_TICKS as int);
    let t1 = rem_trunc(v, YEAR_TICKS as int);
    let months = div_trunc(t1, MONTH_TICKS as int);
    let t2 = rem_trunc(t1, MONTH_TICKS as int);
    let days = div_trunc(t2, DAY_TICKS as int);
    let t3 = rem_trunc(t2, DAY_TICKS as int);
    let hours = div_trunc(t3, HOUR_TICKS as int);
    let t4 = rem_trunc(t3, HOUR_TICKS as int);
    let minutes = div_trunc(t4, MINUTE_TICKS as int);
    unit_seq(years, 89, false) + unit_seq(months, 77, years != 0) + unit_seq(
        days,
        68,
        years != 0 || months != 0,
    ) + unit_seq(hours, 104, years != 0 || months != 0 || days != 0) + unit_seq(
        minutes,
        109,
        years != 0 || months != 0 || days != 0 || hours != 0,
    )
}

/// The milliseconds shown for a tick fraction `n`/1024, rounded to nearest
/// with ties to even.
pub open spec fn millis_spec(mag_n: int) -> int {
    let p = mag_n * 1000;
    let q = p / 1024;
    let rest = p % 1024;
    if 2 * rest > 1024 {
        q + 1
    } else if 2 * rest < 1024 {
        q
    } else if q % 2 == 1 {
        q + 1
    } else {
        q
    }
}

/// The seconds component rendered with three decimals, sign included.
pub open spec fn fixed3_spec(seconds: int, sub: int) -> Seq<u8> {
    let neg = seconds < 0 || sub < 0;
    let mag_s = if seconds < 0 {
        -seconds
    } else {
        seconds
    };
    let mag_n = if sub < 0 {
        -sub
    } else {
        sub
    };
    let millis = millis_spec(mag_n);
    (if neg {
        seq![45u8]
    } else {
        Seq::<u8>::empty()
    }) + dec_digits(mag_s as nat) + seq![46u8] + seq![
        (48 + (millis / 100) % 10) as u8,
        (48 + (millis / 10) % 10) as u8,
        (48 + millis % 10) as u8,
    ]
}

/// The seconds component of the rendering.
pub open spec fn tail_spec(seconds: int, sub: int, written: bool, alternate: bool) -> Seq<u8> {
    let sep: Seq<u8> = if written {
        seq![32u8]
    } else {
        Seq::<u8>::empty()
    };
    if seconds == 0 && sub == 0 {
        if written {
            Seq::<u8>::empty()
        } else {
            seq![32u8, 48u8, 115u8]
        }
    } else if sub == 0 {
        sep + dec_int(seconds) + seq![115u8]
    } else if alternate {
        if seconds == 0 {
            sep + dec_int(sub) + seq![47u8] + dec_digits(1024) + seq![115u8]
        } else {
            sep + dec_int(seconds) + seq![32u8] + dec_int(sub) + seq![47u8] + dec_digits(1024)
                + seq![115u8]
        }
    } else {
        sep + fixed3_spec(seconds, sub) + seq![115u8]
    }
}

/// The full text rendering of the time `v`.
pub open spec fn render_spec(v: int, alternate: bool) -> Seq<u8> {
    let years = div_trunc(v, YEAR_TICKS as int);
    let t1 = rem_trunc(v, YEAR_TICKS as int);
    let months = div_trunc(t1, MONTH_TICKS as int);
    let t2 = rem_trunc(t1, MONTH_TICKS as int);
    let days = div_trunc(t2, DAY_TICKS as int);
    let t3 = rem_trunc(t2, DAY_TICKS as int);
    let hours = div_trunc(t3, HOUR_TICKS as int);
    let t4 = rem_trunc(t3, HOUR_TICKS as int);
    let minutes = div_trunc(t4, MINUTE_TICKS as int);
    let t5 = rem_trunc(t4, MINUTE_TICKS as int);
    let seconds = div_trunc(t5, SECOND_TICKS as int);
    let sub = rem_trunc(t5, SECOND_TICKS as int);
    let written = years != 0 || months != 0 || days != 0 || hours != 0 || minutes != 0;
    head_spec(v) + tail_spec(seconds, sub, written, alternate)
}

/// Every byte of a rendering is ASCII.
proof fn lemma_render_spec_ascii(v: int, alternate: bool)
    ensures
        all_ascii(render_spec(v, alternate)),
{
    let years = div_trunc(v, YEAR_TICKS as int);
    let t1 = rem_trunc(v, YEAR_TICKS as int);
    let months = div_trunc(t1, MONTH_TICKS as int);
    let t2 = rem_trunc(t1, MONTH_TICKS as int);
    let days = div_trunc(t2, DAY_TICKS as int);
    let t3 = rem_trunc(t2, DAY_TICKS as int);
    let hours = div_trunc(t3, HOUR_TICKS as int);
    let t4 = rem_trunc(t3, HOUR_TICKS as int);
    let minutes = div_trunc(t4, MINUTE_TICKS as int);
    let t5 = rem_trunc(t4, MINUTE_TICKS as int);
    let seconds = div_trunc(t5, SECOND_TICKS as int);
    let sub = rem_trunc(t5, SECOND_TICKS as int);
    let written = years != 0 || months != 0 || days != 0 || hours != 0 || minutes != 0;

    lemma_ascii_unit_seq(years, 89, false);
    lemma_ascii_unit_seq(months, 77, years != 0);
    lemma_ascii_unit_seq(days, 68, years != 0 || months != 0);
    lemma_ascii_unit_seq(hours, 104, years != 0 || months != 0 || days != 0);
    lemma_ascii_unit_seq(minutes, 109, years != 0 || months != 0 || days != 0 || hours != 0);
    lemma_ascii_concat(unit_seq(years, 89, false), unit_seq(months, 77, years != 0));
    lemma_ascii_concat(
        unit_seq(years, 89, false) + unit_seq(months, 77, years != 0),
        unit_seq(days, 68, years != 0 || months != 0),
    );
    lemma_ascii_concat(
        unit_seq(years, 89, false) + unit_seq(months, 77, years != 0) + unit_seq(
            days,
            68,
            years != 0 || months != 0,
        ),
        unit_seq(hours, 104, years != 0 || months != 0 || days != 0),
    );
    lemma_ascii_concat(
        unit_seq(years, 89, false) + unit_seq(months, 77, years != 0) + unit_seq(
            days,
            68,
            years != 0 || months != 0,
        ) + unit_seq(hours, 104, years != 0 || months != 0 || days != 0),
        unit_seq(minutes, 109, years != 0 || months != 0 || days != 0 || hours != 0),
    );
    lemma_ascii_tail(seconds, sub, written, alternate);
    lemma_ascii_concat(head_spec(v), tail_spec(seconds, sub, written, alternate));
}

/// The seconds component of a rendering is ASCII.
proof fn lemma_ascii_tail(seconds: int, sub: int, written: bool, alternate: bool)
    ensures
        all_ascii(tail_spec(seconds, sub, written, alternate)),
{
    let sep: Seq<u8> = if written {
        seq![32u8]
    } else {
        Seq::<u8>::empty()
    };
    if seconds == 0 && sub == 0 {
    } else if sub == 0 {
        lemma_ascii_dec_int(seconds);
        lemma_ascii_concat(sep, dec_int(seconds));
        lemma_ascii_concat(sep + dec_int(seconds), seq![115u8]);
    } else if alternate {
        lemma_ascii_dec_int(seconds);
        lemma_ascii_dec_int(sub);
        lemma_dec_digits_ascii(1024);
        if seconds == 0 {
            lemma_ascii_concat(sep, dec_int(sub));
            lemma_ascii_concat(sep + dec_int(sub), seq![47u8]);
            lemma_ascii_concat(sep + dec_int(sub) + seq![47u8], dec_digits(1024));
            lemma_ascii_concat(sep + dec_int(sub) + seq![47u8] + dec_digits(1024), seq![115u8]);
        } else {
            lemma_ascii_concat(sep, dec_int(seconds));
            lemma_ascii_concat(sep + dec_int(seconds), seq![32u8]);
            lemma_ascii_concat(sep + dec_int(seconds) + seq![32u8], dec_int(sub));
            lemma_ascii_concat(sep + dec_int(seconds) + seq![32u8] + dec_int(sub), seq![47u8]);
            lemma_ascii_concat(
                sep + dec_int(seconds) + seq![32u8] + dec_int(sub) + seq![47u8],
                dec_digits(1024),
            );
            lemma_ascii_concat(
                sep + dec_int(seconds) + seq![32u8] + dec_int(sub) + seq![47u8] + dec_digits(1024),
                seq![115u8],
            );
        }
    } else {
        lemma_ascii_fixed3(seconds, sub);
        lemma_ascii_concat(sep, fixed3_spec(seconds, sub));
        lemma_ascii_concat(sep + fixed3_spec(seconds, sub), seq![115u8]);
    }
}

/// The three-decimal rendering is ASCII.
proof fn lemma_ascii_fixed3(seconds: int, sub: int)
    ensures
        all_ascii(fixed3_spec(seconds, sub)),
{
    let neg = seconds < 0 || sub < 0;
    let mag_s = if seconds < 0 {
        -seconds
    } else {
        seconds
    };
    let mag_n = if sub < 0 {
        -sub
    } else {
        sub
    };
    let millis = millis_spec(mag_n);
    let sign: Seq<u8> = if neg {
        seq![45u8]
    } else {
        Seq::<u8>::empty()
    };
    lemma_dec_digits_ascii(mag_s as nat);
    vstd::arithmetic::div_mod::lemma_mod_division_less_than_divisor(millis / 100, 10);
    vstd::arithmetic::div_mod::lemma_mod_division_less_than_divisor(millis / 10, 10);
    vstd::arithmetic::div_mod::lemma_mod_division_less_than_divisor(millis, 10);
    lemma_ascii_concat(sign, dec_digits(mag_s as nat));
    lemma_ascii_concat(sign + dec_digits(mag_s as nat), seq![46u8]);
    lemma_ascii_concat(
        sign + dec_digits(mag_s as nat) + seq![46u8],
        seq![
            (48 + (millis / 100) % 10) as u8,
            (48 + (millis / 10) % 10) as u8,
            (48 + millis % 10) as u8,
        ],
    );
}

} // verus!
