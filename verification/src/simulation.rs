//! An event-driven simulation framework.
//!
//! A [`Simulation`] owns a clock, a caller-chosen state, and a queue of
//! pending events. Events are popped in time order; each popped event is
//! handed the whole simulation and may schedule further events. When the
//! queue runs dry the clock moves to infinity and the simulation has ended.

use vstd::prelude::*;

use crate::sim_clock::{infinity_ticks, PositiveTimeDelta, Time};

verus! {

broadcast use crate::sim_clock::lemma_time_bounds;

/// How far the clock still has to travel from `now` to `target`.
pub open spec fn gap_to(target: int, now: int) -> nat {
    if target > now {
        (target - now) as nat
    } else {
        0
    }
}

/// How many of the queued events are due at or before time `t`.
pub open spec fn due_count<E>(s: Seq<(int, E)>, t: int) -> nat
    decreases s.len(),
{
    if s.len() == 0 {
        0
    } else {
        (if s.first().0 <= t {
            1nat
        } else {
            0nat
        }) + due_count(s.drop_first(), t)
    }
}

/// Pushing an event changes [`due_count`] by one exactly when the new event
/// is due at or before `t`.
pub proof fn lemma_due_count_push<E>(s: Seq<(int, E)>, t: int, x: (int, E))
    ensures
        due_count(s.push(x), t) == due_count(s, t) + (if x.0 <= t {
            1nat
        } else {
            0nat
        }),
    decreases s.len(),
{
    if s.len() == 0 {
        assert(s.push(x).drop_first() =~= s);
    } else {
        assert(s.push(x).drop_first() =~= s.drop_first().push(x));
        lemma_due_count_push(s.drop_first(), t, x);
    }
}

/// Removing an event changes [`due_count`] by one exactly when the removed
/// event is due at or before `t`.
pub proof fn lemma_due_count_remove<E>(s: Seq<(int, E)>, t: int, i: int)
    requires
        0 <= i < s.len(),
    ensures
        due_count(s, t) == due_count(s.remove(i), t) + (if s[i].0 <= t {
            1nat
        } else {
            0nat
        }),
    decreases s.len(),
{
    if i == 0 {
        assert(s.remove(0) =~= s.drop_first());
    } else {
        assert(s.remove(i).drop_first() =~= s.drop_first().remove(i - 1));
        lemma_due_count_remove(s.drop_first(), t, i - 1);
    }
}

/// An event of the simulation.
pub trait Event<State>: Sized {
    type Error;

    /// React to this event: inspect and update the simulation, possibly
    /// scheduling further events. Implementations must keep the simulation
    /// well formed, must not move its clock backward, and may only add
    /// events that are due strictly after the time at which they run; the
    /// framework's own operations all keep these promises.
    fn trigger(self, simulation: &mut Simulation<Self, State>) -> (r: Result<(), Self::Error>)
        requires
            old(simulation).wf(),
        ensures
            final(simulation).wf(),
            final(simulation).spec_time() >= old(simulation).spec_time(),
            forall|t: int|
                t <= old(simulation).spec_time() ==> due_count(final(simulation).spec_events(), t)
                    <= due_count(old(simulation).spec_events(), t),
    ;
}

/// An event with the time at which it is due.
#[derive(Debug, Clone)]
struct QueuedEvent<E> {
    /// The time at which the event is scheduled.
    time: Time,
    /// The scheduled event.
    event: E,
}

/// A simulation: a clock, a state, and the queue of events due to happen.
#[derive(Debug, Clone)]
pub struct Simulation<Event, State> {
    time: Time,
    state: State,
    events: Vec<QueuedEvent<Event>>,
}

impl<E, S> Simulation<E, S> {
    /// The current position of the simulation clock, in ticks.
    pub closed spec fn spec_time(&self) -> int {
        self.time@
    }

    /// The simulation's state.
    pub closed spec fn spec_state(&self) -> S {
        self.state
    }

    /// The pending events, each paired with its due time in ticks, in queue
    /// order.
    pub closed spec fn spec_events(&self) -> Seq<(int, E)> {
        Seq::new(self.events@.len(), |i: int| (self.events@[i].time@, self.events@[i].event))
    }

    /// A simulation is well formed when no pending event is due before the
    /// current time.
    pub open spec fn wf(&self) -> bool {
        forall|i: int|
            0 <= i < self.spec_events().len() ==> #[trigger] self.spec_events()[i].0
                >= self.spec_time()
    }

    /// Create a new simulation at the time origin with no pending events.
    pub fn new(state: S) -> (r: Simulation<E, S>)
        ensures
            r.spec_time() == 0,
            r.spec_state() == state,
            r.spec_events() =~= Seq::<(int, E)>::empty(),
            r.wf(),
    {
        Simulation { time: Time::zero(), state, events: Vec::new() }
    }

    /// The current time of the simulation.
    pub fn time(&self) -> (r: Time)
        ensures
            r@ == self.spec_time(),
    {
        self.time
    }

    /// Whether the simulation has ended: its clock stands at infinity.
    pub fn ended(&self) -> (r: bool)
        ensures
            r == (self.spec_time() == infinity_ticks()),
    {
        !self.time.is_finite()
    }

    /// The state of the simulation.
    pub fn state(&self) -> (r: &S)
        ensures
            *r == self.spec_state(),
    {
        &self.state
    }

    /// Mutable access to the state of the simulation.
    pub fn state_mut(&mut self) -> (r: &mut S)
        ensures
            *r == old(self).spec_state(),
            final(self).spec_state() == *final(r),
            final(self).spec_time() == old(self).spec_time(),
            final(self).spec_events() == old(self).spec_events(),
    {
        &mut self.state
    }

    /// How many events are pending.
    pub fn events_count(&self) -> (r: usize)
        ensures
            r == self.spec_events().len(),
    {
        self.events.len()
    }

    /// Drop every pending event.
    pub fn events_clear(&mut self)
        ensures
            final(self).spec_events() =~= Seq::<(int, E)>::empty(),
            final(self).spec_time() == old(self).spec_time(),
            final(self).spec_state() == old(self).spec_state(),
            final(self).wf(),
    {
        self.events.clear()
    }

    /// Whether no event is pending.
    pub fn events_is_empty(&self) -> (r: bool)
        ensures
            r == (self.spec_events().len() == 0),
    {
        self.events.is_empty()
    }

    /// Schedule an event to trigger after the given positive delay. Fails
    /// when the simulation has already ended.
    pub fn schedule(&mut self, event: E, delay: PositiveTimeDelta) -> (r: Result<
        (),
        CannotScheduleAtInfinite,
    >)
        requires
            old(self).spec_time() < infinity_ticks() ==> old(self).spec_time() + delay@
                <= u64::MAX,
        ensures
            old(self).spec_time() == infinity_ticks() ==> r is Err && *final(self) == *old(self),
            old(self).spec_time() < infinity_ticks() ==> r is Ok && final(self).spec_events()
                =~= old(self).spec_events().push(
                (old(self).spec_time() + delay@, event),
            ) && final(self).spec_time() == old(self).spec_time() && final(self).spec_state()
                == old(self).spec_state(),
            old(self).wf() ==> final(self).wf(),
            forall|t: int|
                t <= old(self).spec_time() ==> due_count(final(self).spec_events(), t) <= due_count(
                    old(self).spec_events(),
                    t,
                ),
    {
        if !self.time.is_finite() {
            return Err(CannotScheduleAtInfinite);
        }
        let time: Time = self.time.add_delta(delay.get());
        self.events.push(QueuedEvent { time, event });
        proof {
            assert(final(self).spec_events() =~= old(self).spec_events().push(
                (old(self).spec_time() + delay@, event),
            ));
            assert forall|t: int| t <= old(self).spec_time() implies due_count(
                final(self).spec_events(),
                t,
            ) <= due_count(old(self).spec_events(), t) by {
                lemma_due_count_push(
                    old(self).spec_events(),
                    t,
                    (old(self).spec_time() + delay@, event),
                );
            }
        }
        Ok(())
    }
}

/// The index of an event with the earliest due time.
fn earliest_index<E>(events: &Vec<QueuedEvent<E>>) -> (r: usize)
    requires
        events@.len() > 0,
    ensures
        0 <= r < events@.len(),
        forall|j: int|
            0 <= j < events@.len() ==> events@[r as int].time@ <= #[trigger] events@[j].time@,
{
    let mut min_idx: usize = 0;
    let mut i: usize = 1;
    while i < events.len()
        invariant
            events@.len() > 0,
            0 <= min_idx < events@.len(),
            1 <= i <= events@.len(),
            forall|j: int|
                0 <= j < i ==> events@[min_idx as int].time@ <= #[trigger] events@[j].time@,
        decreases events@.len() - i,
    {
        if events[i].time.lt(&events[min_idx].time) {
            min_idx = i;
        }
        i += 1;
    }
    min_idx
}

impl<E, S> Simulation<E, S> where E: Event<S> {
    /// Advance the simulation monotonically: pop an event with the earliest
    /// due time, move the clock to it and trigger it; with no event left the
    /// clock moves to infinity. Returns the time reached.
    pub fn step(&mut self) -> (r: Result<Time, E::Error>)
        requires
            old(self).wf(),
        ensures
            final(self).wf(),
            final(self).spec_time() >= old(self).spec_time(),
            old(self).spec_events().len() == 0 ==> r is Ok && final(self).spec_time()
                == infinity_ticks() && final(self).spec_events() == old(self).spec_events()
                && final(self).spec_state() == old(self).spec_state(),
            r is Ok ==> r->Ok_0@ == final(self).spec_time(),
            forall|t: int|
                t <= old(self).spec_time() ==> due_count(final(self).spec_events(), t) <= due_count(
                    old(self).spec_events(),
                    t,
                ),
            old(self).spec_events().len() > 0 && final(self).spec_time() == old(self).spec_time()
                ==> due_count(final(self).spec_events(), old(self).spec_time()) < due_count(
                old(self).spec_events(),
                old(self).spec_time(),
            ),
    {
        if self.events.is_empty() {
            // no more events, going to infinity
            self.time = Time::infinity();
            return Ok(self.time);
        }
        let ghost entry = *self;
        let idx: usize = earliest_index(&self.events);
        let queued: QueuedEvent<E> = self.events.remove(idx);
        self.time = queued.time;
        proof {
            assert(self.spec_events() =~= entry.spec_events().remove(idx as int));
            assert forall|t: int| true implies due_count(self.spec_events(), t) + (if entry.spec_events()[
                idx as int
            ].0 <= t {
                1nat
            } else {
                0nat
            }) == due_count(entry.spec_events(), t) by {
                lemma_due_count_remove(entry.spec_events(), t, idx as int);
            }
        }
        let ghost mid = *self;
        match queued.event.trigger(self) {
            Ok(()) => {
                proof {
                    assert(due_count(self.spec_events(), mid.spec_time()) <= due_count(
                        mid.spec_events(),
                        mid.spec_time(),
                    ));
                }
                Ok(self.time)
            },
            Err(e) => Err(e),
        }
    }

    /// Advance the simulation until its clock has reached the given time.
    pub fn run_until(&mut self, time: Time) -> (r: Result<(), E::Error>)
        requires
            old(self).wf(),
        ensures
            final(self).wf(),
            final(self).spec_time() >= old(self).spec_time(),
            r is Ok ==> final(self).spec_time() >= time@,
            forall|t: int|
                t <= old(self).spec_time() ==> due_count(final(self).spec_events(), t) <= due_count(
                    old(self).spec_events(),
                    t,
                ),
    {
        while self.time.lt(&time)
            invariant
                self.wf(),
                self.spec_time() >= old(self).spec_time(),
                forall|t: int|
                    t <= old(self).spec_time() ==> due_count(self.spec_events(), t) <= due_count(
                        old(self).spec_events(),
                        t,
                    ),
            decreases gap_to(time@, self.spec_time()), due_count(
                self.spec_events(),
                self.spec_time(),
            ),
        {
            let ghost before = *self;
            match self.step() {
                Ok(_) => (),
                Err(e) => {
                    return Err(e);
                },
            }
            proof {
                if self.spec_time() == before.spec_time() {
                    assert(before.spec_events().len() > 0);
                }
            }
        }
        Ok(())
    }

    /// Advance the simulation for the given positive delay.
    pub fn run_for(&mut self, time: PositiveTimeDelta) -> (r: Result<(), E::Error>)
        requires
            old(self).wf(),
            old(self).spec_time() < infinity_ticks() ==> old(self).spec_time() + time@
                <= u64::MAX,
        ensures
            final(self).wf(),
            final(self).spec_time() >= old(self).spec_time(),
            r is Ok && old(self).spec_time() < infinity_ticks() ==> final(self).spec_time()
                >= old(self).spec_time() + time@,
    {
        let target: Time = self.time.add_delta(time.get());
        self.run_until(target)
    }

    /// Advance the simulation until no more events happen.
    pub fn run(&mut self) -> (r: Result<(), E::Error>)
        requires
            old(self).wf(),
        ensures
            final(self).wf(),
            final(self).spec_time() >= old(self).spec_time(),
            r is Ok ==> final(self).spec_time() == infinity_ticks(),
    {
        self.run_until(Time::infinity())
    }
}

/// An event cannot be scheduled at infinite time: the simulation has ended.
#[derive(Debug, Clone, Copy, PartialEq, Eq, Structural)]
pub struct CannotScheduleAtInfinite;

} // verus!
