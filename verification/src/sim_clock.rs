//! The clock of the event-driven simulation framework.
//!
//! [`Time`] is a point on the framework's time line: a `u64` tick count whose
//! largest value stands for infinity (the time after the last event).
//! [`TimeDelta`] is a signed, finite difference between two such points, and
//! [`PositiveTimeDelta`] a delta known to be strictly positive. This clock
//! counts 16 ticks per millisecond.

use vstd::prelude::*;

verus! {

/// Ticks per millisecond of the framework clock.
pub const MILLI_TICKS: i64 = 16;

/// Ticks per second.
pub const SECOND_TICKS: i64 = 16 * 1000;

/// Ticks per minute.
pub const MINUTE_TICKS: i64 = 16 * 1000 * 60;

/// Ticks per hour.
pub const HOUR_TICKS: i64 = 16 * 1000 * 60 * 60;

/// Ticks per day.
pub const DAY_TICKS: i64 = 16 * 1000 * 60 * 60 * 24;

/// Ticks per year of 365 days.
pub const YEAR_TICKS: i64 = 16 * 1000 * 60 * 60 * 24 * 365;

/// A point in the time of the simulation. The raw value `u64::MAX` is the
/// point at infinity; every smaller value is a finite tick count.
#[derive(Clone, Copy, Debug, Hash, PartialEq, Eq, Structural, PartialOrd, Ord)]
pub struct Time(u64);

impl View for Time {
    type V = int;

    /// The tick count; `u64::MAX` stands for infinity.
    closed spec fn view(&self) -> int {
        self.0 as int
    }
}

/// The spec-level tick count that stands for the point at infinity.
pub open spec fn infinity_ticks() -> int {
    u64::MAX as int
}

/// Every time lies between the origin and the point at infinity.
pub broadcast proof fn lemma_time_bounds(t: Time)
    ensures
        0 <= #[trigger] t@ <= infinity_ticks(),
{
}

impl Time {
    /// The start of the time line.
    pub fn zero() -> (r: Time)
        ensures
            r@ == 0,
    {
        Time(0)
    }

    /// The point at infinity: after every finite time.
    pub fn infinity() -> (r: Time)
        ensures
            r@ == infinity_ticks(),
    {
        Time(u64::MAX)
    }

    /// Whether this time is finite (strictly before infinity).
    pub fn is_finite(&self) -> (r: bool)
        ensures
            r == (self@ < infinity_ticks()),
    {
        self.0 < u64::MAX
    }

    /// The delta from `from` to `self`. `None` when either end is infinite or
    /// the signed difference does not fit a delta.
    pub fn difference(&self, from: &Time) -> (r: Option<TimeDelta>)
        ensures
            r is Some <==> self@ < infinity_ticks() && from@ < infinity_ticks()
                && -(i64::MAX as int) <= self@ - from@ <= i64::MAX,
            r is Some ==> r->0@ == self@ - from@,
    {
        if self.is_finite() && from.is_finite() {
            if self.0 >= from.0 {
                let d: u64 = self.0 - from.0;
                if d <= i64::MAX as u64 {
                    Some(TimeDelta(d as i64))
                } else {
                    None
                }
            } else {
                let d: u64 = from.0 - self.0;
                if d <= i64::MAX as u64 {
                    Some(TimeDelta(-(d as i64)))
                } else {
                    None
                }
            }
        } else {
            None
        }
    }

    /// Move a finite time by a delta; infinity stays infinity. The result may
    /// land on the point at infinity when the sum reaches the largest raw
    /// value.
    pub fn add_delta(self, rhs: TimeDelta) -> (r: Time)
        requires
            self@ < infinity_ticks() ==> 0 <= self@ + rhs@ <= u64::MAX,
        ensures
            self@ < infinity_ticks() ==> r@ == self@ + rhs@,
            self@ == infinity_ticks() ==> r == self,
    {
        if self.is_finite() {
            if rhs.0 >= 0 {
                Time(self.0 + (rhs.0 as u64))
            } else {
                Time(self.0 - ((-(rhs.0 as i128)) as u64))
            }
        } else {
            self
        }
    }

    /// Move a finite time backward by a delta; infinity stays infinity.
    pub fn sub_delta(self, rhs: TimeDelta) -> (r: Time)
        requires
            rhs@ != i64::MIN,
            self@ < infinity_ticks() ==> 0 <= self@ - rhs@ <= u64::MAX,
        ensures
            self@ < infinity_ticks() ==> r@ == self@ - rhs@,
            self@ == infinity_ticks() ==> r == self,
    {
        self.add_delta(rhs.neg())
    }

    /// The raw tick count; `u64::MAX` is the point at infinity.
    pub fn raw(&self) -> (r: u64)
        ensures
            r == self@,
    {
        self.0
    }

    /// Whether this time is strictly before another.
    pub fn lt(&self, rhs: &Time) -> (r: bool)
        ensures
            r == (self@ < rhs@),
    {
        self.0 < rhs.0
    }
}

/// A finite difference between two simulation time points, in ticks.
#[derive(Clone, Copy, Debug, Hash, PartialEq, Eq, Structural, PartialOrd, Ord)]
pub struct TimeDelta(i64);

impl View for TimeDelta {
    type V = int;

    /// The delta's signed length in ticks.
    closed spec fn view(&self) -> int {
        self.0 as int
    }
}

impl TimeDelta {
    /// The zero time delta.
    pub fn zero() -> (r: TimeDelta)
        ensures
            r@ == 0,
    {
        TimeDelta(0)
    }

    /// The smallest positive time delta: one tick.
    pub fn epsilon() -> (r: TimeDelta)
        ensures
            r@ == 1,
    {
        TimeDelta(1)
    }

    /// The equivalent of a millisecond.
    pub fn milli() -> (r: TimeDelta)
        ensures
            r@ == MILLI_TICKS,
    {
        TimeDelta(MILLI_TICKS)
    }

    /// The equivalent of a second.
    pub fn second() -> (r: TimeDelta)
        ensures
            r@ == SECOND_TICKS,
    {
        TimeDelta(SECOND_TICKS)
    }

    /// The equivalent of a minute.
    pub fn minute() -> (r: TimeDelta)
        ensures
            r@ == MINUTE_TICKS,
    {
        TimeDelta(MINUTE_TICKS)
    }

    /// The equivalent of an hour.
    pub fn hour() -> (r: TimeDelta)
        ensures
            r@ == HOUR_TICKS,
    {
        TimeDelta(HOUR_TICKS)
    }

    /// The equivalent of a day.
    pub fn day() -> (r: TimeDelta)
        ensures
            r@ == DAY_TICKS,
    {
        TimeDelta(DAY_TICKS)
    }

    /// The equivalent of a year of 365 days.
    pub fn year() -> (r: TimeDelta)
        ensures
            r@ == YEAR_TICKS,
    {
        TimeDelta(YEAR_TICKS)
    }

    /// The raw signed tick count.
    pub fn ticks(&self) -> (r: i64)
        ensures
            r == self@,
    {
        self.0
    }

    /// Whether the delta points into the past.
    pub fn is_negative(&self) -> (r: bool)
        ensures
            r == (self@ < 0),
    {
        self.0 < 0
    }

    /// Whether the delta points into the future.
    pub fn is_positive(&self) -> (r: bool)
        ensures
            r == (self@ > 0),
    {
        self.0 > 0
    }

    /// Sum of two deltas.
    pub fn add(self, rhs: TimeDelta) -> (r: TimeDelta)
        requires
            i64::MIN <= self@ + rhs@ <= i64::MAX,
        ensures
            r@ == self@ + rhs@,
    {
        TimeDelta(self.0 + rhs.0)
    }

    /// Difference of two deltas.
    pub fn sub(self, rhs: TimeDelta) -> (r: TimeDelta)
        requires
            i64::MIN <= self@ - rhs@ <= i64::MAX,
        ensures
            r@ == self@ - rhs@,
    {
        TimeDelta(self.0 - rhs.0)
    }

    /// The delta of the same length in the opposite direction.
    pub fn neg(self) -> (r: TimeDelta)
        requires
            self@ != i64::MIN,
        ensures
            r@ == -self@,
    {
        TimeDelta(-self.0)
    }

    /// The delta scaled by an integer factor.
    pub fn mul(self, rhs: i64) -> (r: TimeDelta)
        requires
            i64::MIN <= self@ * rhs <= i64::MAX,
        ensures
            r@ == self@ * rhs,
    {
        TimeDelta(self.0 * rhs)
    }
}

/// A positive, non-zero time delta.
#[derive(Clone, Copy, Debug, Hash, PartialEq, Eq, Structural, PartialOrd, Ord)]
pub struct PositiveTimeDelta(TimeDelta);

impl View for PositiveTimeDelta {
    type V = int;

    /// The delta's length in ticks; always strictly positive.
    closed spec fn view(&self) -> int {
        self.0@
    }
}

/// A delta that was not strictly positive, split by the way it failed.
#[derive(Clone, Copy, Debug, PartialEq, Eq, Structural)]
pub enum NotPositiveTimeDelta {
    /// The time delta is negative.
    Negative,
    /// The time delta is zero.
    Zero,
}

impl PositiveTimeDelta {
    #[verifier::type_invariant]
    spec fn strictly_positive(self) -> bool {
        self.0@ > 0
    }

    /// The underlying delta; strictly positive.
    pub fn get(self) -> (r: TimeDelta)
        ensures
            r@ == self@,
            r@ > 0,
    {
        proof {
            use_type_invariant(self);
        }
        self.0
    }

    /// A positive delta is exactly a delta greater than zero; zero and
    /// negative deltas are rejected with the matching error.
    pub fn try_from(value: TimeDelta) -> (r: Result<PositiveTimeDelta, NotPositiveTimeDelta>)
        ensures
            r is Ok <==> value@ > 0,
            r is Ok ==> r->Ok_0@ == value@,
            value@ < 0 ==> r == Err::<PositiveTimeDelta, NotPositiveTimeDelta>(
                NotPositiveTimeDelta::Negative,
            ),
            value@ == 0 ==> r == Err::<PositiveTimeDelta, NotPositiveTimeDelta>(
                NotPositiveTimeDelta::Zero,
            ),
    {
        if value.0 < 0 {
            Err(NotPositiveTimeDelta::Negative)
        } else if value.0 == 0 {
            Err(NotPositiveTimeDelta::Zero)
        } else {
            Ok(PositiveTimeDelta(value))
        }
    }
}

} // verus!
