//! Time for the simulation, with 1/1024 of a second accuracy.
//!
//! [`TimeDelta`] is a signed difference between two points in time,
//! [`Duration`] a non-negative one, and [`Time`] a position on the
//! simulation's time line. All three count ticks of 1/1024 s in an `i64`.

use vstd::prelude::*;

verus! {

/// Ticks per second of the simulation clock.
pub const TICKS_PER_SECOND: i64 = 1024;

/// Ticks per minute.
pub const TICKS_PER_MINUTE: i64 = 1024 * 60;

/// Ticks per hour.
pub const TICKS_PER_HOUR: i64 = 1024 * 60 * 60;

/// Ticks per day.
pub const TICKS_PER_DAY: i64 = 1024 * 60 * 60 * 24;

/// Ticks per year (365 days).
pub const TICKS_PER_YEAR: i64 = 1024 * 60 * 60 * 24 * 365;

/// Truncated (round-toward-zero) integer division, the semantics of `/` on
/// Rust's signed integers.
pub open spec fn div_trunc(a: int, b: int) -> int {
    if a == 0 {
        0
    } else if a > 0 && b > 0 {
        a / b
    } else if a < 0 && b < 0 {
        (a * -1) / (b * -1)
    } else if a < 0 {
        ((a * -1) / b) * -1
    } else {
        (a / (b * -1)) * -1
    }
}

/// Remainder matching [`div_trunc`]: the semantics of `%` on Rust's signed
/// integers, with the sign of the dividend.
pub open spec fn rem_trunc(a: int, b: int) -> int {
    if a == 0 {
        0
    } else if a > 0 && b > 0 {
        a % b
    } else if a < 0 && b < 0 {
        ((a * -1) % (b * -1)) * -1
    } else if a < 0 {
        ((a * -1) % b) * -1
    } else {
        a % (b * -1)
    }
}

/// The remainder of a truncated division by a positive divisor lies
/// strictly between `-b` and `b`.
pub proof fn lemma_rem_trunc_range(a: int, b: int)
    requires
        b > 0,
    ensures
        -b < rem_trunc(a, b) < b,
{
    if a > 0 {
        vstd::arithmetic::div_mod::lemma_mod_division_less_than_divisor(a, b);
    } else if a < 0 {
        vstd::arithmetic::div_mod::lemma_mod_division_less_than_divisor(a * -1, b);
    }
}

/// A truncated quotient by a positive divisor is no larger in magnitude
/// than the bound of the dividend divided by the divisor.
pub proof fn lemma_div_trunc_abs(a: int, b: int, c: int)
    requires
        b > 0,
        0 <= c,
        -c <= a <= c,
    ensures
        -(c / b) <= div_trunc(a, b) <= c / b,
{
    if a > 0 {
        vstd::arithmetic::div_mod::lemma_div_is_ordered(a, c, b);
        vstd::arithmetic::div_mod::lemma_div_pos_is_pos(a, b);
    } else if a < 0 {
        vstd::arithmetic::div_mod::lemma_div_is_ordered(a * -1, c, b);
        vstd::arithmetic::div_mod::lemma_div_pos_is_pos(a * -1, b);
    } else {
        vstd::arithmetic::div_mod::lemma_div_pos_is_pos(c, b);
    }
}

/// Truncated division of two `i64` values, carried out on their absolute
/// values so that every bound is explicit.
pub(crate) fn div_trunc_i64(a: i64, b: i64) -> (r: i64)
    requires
        b != 0,
        !(a == i64::MIN && b == -1),
    ensures
        r == div_trunc(a as int, b as int),
{
    let a_neg: bool = a < 0;
    let b_neg: bool = b < 0;
    let a_u: u64 = if a_neg {
        (-(a as i128)) as u64
    } else {
        a as u64
    };
    let b_u: u64 = if b_neg {
        (-(b as i128)) as u64
    } else {
        b as u64
    };
    let q: u64 = a_u / b_u;
    proof {
        vstd::arithmetic::div_mod::lemma_div_nonincreasing(a_u as int, b_u as int);
        if b_u > 1 && a_u > 0 {
            vstd::arithmetic::div_mod::lemma_div_decreases(a_u as int, b_u as int);
        }
    }
    if a_neg != b_neg {
        if q >= 9223372036854775808u64 {
            i64::MIN
        } else {
            -(q as i64)
        }
    } else {
        q as i64
    }
}

/// Truncated remainder of two `i64` values; the result has the sign of `a`.
pub(crate) fn rem_trunc_i64(a: i64, b: i64) -> (r: i64)
    requires
        b != 0,
        !(a == i64::MIN && b == -1),
    ensures
        r == rem_trunc(a as int, b as int),
{
    let a_neg: bool = a < 0;
    let b_u: u64 = if b < 0 {
        (-(b as i128)) as u64
    } else {
        b as u64
    };
    let a_u: u64 = if a_neg {
        (-(a as i128)) as u64
    } else {
        a as u64
    };
    let m: u64 = a_u % b_u;
    proof {
        vstd::arithmetic::div_mod::lemma_mod_division_less_than_divisor(a_u as int, b_u as int);
        if a == 0 {
            vstd::arithmetic::div_mod::lemma_small_mod(0nat, b_u as nat);
        }
    }
    if a_neg {
        -(m as i64)
    } else {
        m as i64
    }
}

/// Every delta's tick count fits the machine word it is kept in.
pub broadcast proof fn lemma_delta_bounds(t: TimeDelta)
    ensures
        i64::MIN <= #[trigger] t@ <= i64::MAX,
{
}

/// A difference between two points in time, in ticks of 1/1024 s.
#[derive(Clone, Copy, Debug, Hash, PartialEq, Eq, Structural, PartialOrd, Ord)]
pub struct TimeDelta(i64);

impl View for TimeDelta {
    type V = int;

    /// The delta's signed length in ticks.
    closed spec fn view(&self) -> int {
        self.0 as int
    }
}

impl TimeDelta {
    /// The delta of no time at all.
    pub fn zero() -> (r: TimeDelta)
        ensures
            r@ == 0,
    {
        TimeDelta(0)
    }

    /// The smallest representable positive delta: one tick.
    pub fn epsilon() -> (r: TimeDelta)
        ensures
            r@ == 1,
    {
        TimeDelta(1)
    }

    /// One second.
    pub fn second() -> (r: TimeDelta)
        ensures
            r@ == TICKS_PER_SECOND,
    {
        TimeDelta(TICKS_PER_SECOND)
    }

    /// One minute.
    pub fn minute() -> (r: TimeDelta)
        ensures
            r@ == TICKS_PER_MINUTE,
    {
        TimeDelta(TICKS_PER_MINUTE)
    }

    /// One hour.
    pub fn hour() -> (r: TimeDelta)
        ensures
            r@ == TICKS_PER_HOUR,
    {
        TimeDelta(TICKS_PER_HOUR)
    }

    /// One day.
    pub fn day() -> (r: TimeDelta)
        ensures
            r@ == TICKS_PER_DAY,
    {
        TimeDelta(TICKS_PER_DAY)
    }

    /// One year of 365 days.
    pub fn year() -> (r: TimeDelta)
        ensures
            r@ == TICKS_PER_YEAR,
    {
        TimeDelta(TICKS_PER_YEAR)
    }

    /// Build a delta from a raw tick count.
    pub(crate) fn from_ticks(ticks: i64) -> (r: TimeDelta)
        ensures
            r@ == ticks,
    {
        TimeDelta(ticks)
    }

    /// The raw tick count of this delta.
    pub(crate) fn ticks(self) -> (r: i64)
        ensures
            r == self@,
    {
        self.0
    }

    /// Sum of two deltas.
    pub fn add(self, rhs: TimeDelta) -> (r: TimeDelta)
        requires
            i64::MIN <= self@ + rhs@ <= i64::MAX,
        ensures
            r@ == self@ + rhs@,
    {
        TimeDelta(self.0 + rhs.0)
    }

    /// Difference of two deltas.
    pub fn sub(self, rhs: TimeDelta) -> (r: TimeDelta)
        requires
            i64::MIN <= self@ - rhs@ <= i64::MAX,
        ensures
            r@ == self@ - rhs@,
    {
        TimeDelta(self.0 - rhs.0)
    }

    /// The delta of the same length in the opposite direction.
    pub fn neg(self) -> (r: TimeDelta)
        requires
            self@ != i64::MIN,
        ensures
            r@ == -self@,
    {
        TimeDelta(-self.0)
    }

    /// The delta scaled by an integer factor.
    pub fn mul(self, rhs: i64) -> (r: TimeDelta)
        requires
            i64::MIN <= self@ * rhs <= i64::MAX,
        ensures
            r@ == self@ * rhs,
    {
        TimeDelta(self.0 * rhs)
    }

    /// The delta divided by an integer, rounding toward zero.
    pub fn div(self, rhs: i64) -> (r: TimeDelta)
        requires
            rhs != 0,
            !(self@ == i64::MIN && rhs == -1),
        ensures
            r@ == div_trunc(self@, rhs as int),
    {
        TimeDelta(div_trunc_i64(self.0, rhs))
    }

    /// The remainder of this delta modulo another, with the sign of `self`.
    pub fn rem(self, rhs: TimeDelta) -> (r: TimeDelta)
        requires
            rhs@ != 0,
            !(self@ == i64::MIN && rhs@ == -1),
        ensures
            r@ == rem_trunc(self@, rhs@),
    {
        TimeDelta(rem_trunc_i64(self.0, rhs.0))
    }

    /// How many times `rhs` fits in `self`, rounding toward zero.
    pub fn div_i(&self, rhs: TimeDelta) -> (r: i64)
        requires
            rhs@ != 0,
            !(self@ == i64::MIN && rhs@ == -1),
        ensures
            r == div_trunc(self@, rhs@),
    {
        div_trunc_i64(self.0, rhs.0)
    }

    /// The delta's absolute length.
    pub fn abs(self) -> (r: Duration)
        requires
            self@ != i64::MIN,
        ensures
            r@ == if self@ >= 0 { self@ } else { -self@ },
    {
        if self.0 >= 0 {
            Duration(self)
        } else {
            Duration(TimeDelta(-self.0))
        }
    }
}

/// A non-negative difference between two points in time.
#[derive(Clone, Copy, Debug, Hash, PartialEq, Eq, Structural, PartialOrd, Ord)]
pub struct Duration(TimeDelta);

impl View for Duration {
    type V = int;

    /// The duration's length in ticks; never negative.
    closed spec fn view(&self) -> int {
        self.0@
    }
}

/// A negative time delta was converted to a duration; carries the offending
/// delta.
#[derive(Clone, Copy, Debug, PartialEq, Eq, Structural)]
pub struct NegativeTimeDelta(pub TimeDelta);

impl Duration {
    #[verifier::type_invariant]
    spec fn non_negative(self) -> bool {
        self.0@ >= 0
    }

    /// The empty duration.
    pub fn zero() -> (r: Duration)
        ensures
            r@ == 0,
    {
        Duration(TimeDelta(0))
    }

    /// A duration of one tick.
    pub fn epsilon() -> (r: Duration)
        ensures
            r@ == 1,
    {
        Duration(TimeDelta(1))
    }

    /// One second.
    pub fn second() -> (r: Duration)
        ensures
            r@ == TICKS_PER_SECOND,
    {
        Duration(TimeDelta(TICKS_PER_SECOND))
    }

    /// One minute.
    pub fn minute() -> (r: Duration)
        ensures
            r@ == TICKS_PER_MINUTE,
    {
        Duration(TimeDelta(TICKS_PER_MINUTE))
    }

    /// One hour.
    pub fn hour() -> (r: Duration)
        ensures
            r@ == TICKS_PER_HOUR,
    {
        Duration(TimeDelta(TICKS_PER_HOUR))
    }

    /// One day.
    pub fn day() -> (r: Duration)
        ensures
            r@ == TICKS_PER_DAY,
    {
        Duration(TimeDelta(TICKS_PER_DAY))
    }

    /// One year of 365 days.
    pub fn year() -> (r: Duration)
        ensures
            r@ == TICKS_PER_YEAR,
    {
        Duration(TimeDelta(TICKS_PER_YEAR))
    }

    /// A duration is exactly a non-negative delta; a negative delta is
    /// rejected with [`NegativeTimeDelta`].
    pub fn try_from(value: TimeDelta) -> (r: Result<Duration, NegativeTimeDelta>)
        ensures
            r is Ok <==> value@ >= 0,
            r is Ok ==> r->Ok_0@ == value@,
            r is Err ==> r->Err_0 == NegativeTimeDelta(value),
    {
        if value.0 >= 0 {
            Ok(Duration(value))
        } else {
            Err(NegativeTimeDelta(value))
        }
    }

    /// The duration as a signed delta.
    pub fn delta(self) -> (r: TimeDelta)
        ensures
            r@ == self@,
            r@ >= 0,
    {
        proof {
            use_type_invariant(self);
        }
        self.0
    }

    /// Sum of two durations.
    pub fn add(self, rhs: Duration) -> (r: Duration)
        requires
            self@ + rhs@ <= i64::MAX,
        ensures
            r@ == self@ + rhs@,
    {
        proof {
            use_type_invariant(self);
            use_type_invariant(rhs);
        }
        Duration(TimeDelta(self.0.0 + rhs.0.0))
    }

    /// Difference of two durations; may be negative.
    pub fn sub(self, rhs: Duration) -> (r: TimeDelta)
        ensures
            r@ == self@ - rhs@,
    {
        proof {
            use_type_invariant(self);
            use_type_invariant(rhs);
        }
        TimeDelta(self.0.0 - rhs.0.0)
    }

    /// The duration scaled by a non-negative integer factor.
    pub fn mul(self, rhs: u64) -> (r: Duration)
        requires
            self@ * rhs <= i64::MAX,
        ensures
            r@ == self@ * rhs,
    {
        proof {
            use_type_invariant(self);
        }
        if self.0.0 == 0 {
            proof {
                assert(self@ == 0);
                assert(self@ * rhs == 0) by (nonlinear_arith)
                    requires
                        self@ == 0,
                ;
            }
            Duration(TimeDelta(0))
        } else {
            proof {
                assert(rhs <= self.0.0 * rhs) by (nonlinear_arith)
                    requires
                        self.0.0 >= 1,
                        rhs >= 0,
                ;
            }
            let factor: i64 = rhs as i64;
            proof {
                assert(self.0.0 * factor >= 0) by (nonlinear_arith)
                    requires
                        self.0.0 >= 0,
                        factor >= 0,
                ;
            }
            proof {
                assert((self.0.0 as int) * (factor as int) == self@ * rhs);
            }
            Duration(TimeDelta(self.0.0 * factor))
        }
    }

    /// The duration divided by a positive integer, rounding toward zero.
    pub fn div(self, rhs: u64) -> (r: Duration)
        requires
            1 <= rhs <= i64::MAX,
        ensures
            r@ == self@ / (rhs as int),
    {
        proof {
            use_type_invariant(self);
        }
        let q: u64 = (self.0.0 as u64) / rhs;
        proof {
            vstd::arithmetic::div_mod::lemma_div_nonincreasing(self.0.0 as int, rhs as int);
        }
        Duration(TimeDelta(q as i64))
    }

    /// The remainder of one duration modulo another.
    pub fn rem(self, rhs: Duration) -> (r: Duration)
        requires
            rhs@ != 0,
        ensures
            r@ == self@ % rhs@,
    {
        proof {
            use_type_invariant(self);
            use_type_invariant(rhs);
        }
        let m: u64 = (self.0.0 as u64) % (rhs.0.0 as u64);
        proof {
            vstd::arithmetic::div_mod::lemma_mod_division_less_than_divisor(
                self.0.0 as int,
                rhs.0.0 as int,
            );
        }
        Duration(TimeDelta(m as i64))
    }
}

/// A position on the simulation's time line, in ticks of 1/1024 s from the
/// time origin.
#[derive(Clone, Copy, Debug, Hash, PartialEq, Eq, Structural, PartialOrd, Ord)]
pub struct Time(TimeDelta);

impl View for Time {
    type V = int;

    /// The signed distance from the time origin, in ticks.
    closed spec fn view(&self) -> int {
        self.0@
    }
}

impl Time {
    /// The time origin.
    pub fn zero() -> (r: Time)
        ensures
            r@ == 0,
    {
        Time(TimeDelta(0))
    }

    /// Add a time delta to this moment in time.
    pub fn offset(self, delta: TimeDelta) -> (r: Time)
        requires
            i64::MIN <= self@ + delta@ <= i64::MAX,
        ensures
            r@ == self@ + delta@,
    {
        Time(self.0.add(delta))
    }

    /// The delta from another moment to this one.
    pub fn sub(self, rhs: Time) -> (r: TimeDelta)
        requires
            i64::MIN <= self@ - rhs@ <= i64::MAX,
        ensures
            r@ == self@ - rhs@,
    {
        self.0.sub(rhs.0)
    }

    /// The delta from the time origin to this moment.
    pub(crate) fn since_origin(self) -> (r: TimeDelta)
        ensures
            r@ == self@,
    {
        self.0
    }

    /// Build a time from a raw tick count.
    pub(crate) fn from_ticks(ticks: i64) -> (r: Time)
        ensures
            r@ == ticks,
    {
        Time(TimeDelta(ticks))
    }
}

} // verus!
