//! The event scheduler: a priority queue of timed events and the simulation
//! loop that drains it.
//!
//! The queue keeps its events in a priority heap from the `priq` crate,
//! keyed by due time; the heap holds plain scores and slot indices, while
//! the events themselves live in a slot table of this module, so that
//! everything around the heap is verified against the heap's contract.

use vstd::multiset::Multiset;
use vstd::prelude::*;

use crate::scheduler_time::Time;

verus! {

broadcast use crate::scheduler_time::lemma_ticks_bounds;

/// The priority heap of the `priq` crate: an array-backed binary min-heap of
/// score / item pairs, popped lowest score first.
#[verifier::external_type_specification]
#[verifier::external_body]
#[verifier::reject_recursive_types(S)]
#[verifier::reject_recursive_types(T)]
pub struct ExPriorityQueue<S, T>(priq::PriorityQueue<S, T>) where S: PartialOrd;

/// The pairs a heap holds, as a multiset: the heap promises nothing about
/// their order in memory.
pub uninterp spec fn heap_multiset(q: priq::PriorityQueue<i64, usize>) -> Multiset<(i64, usize)>;

/// Relies on `priq::PriorityQueue::new`: the new heap is empty.
#[verifier::external_body]
fn heap_new() -> (q: priq::PriorityQueue<i64, usize>)
    ensures
        heap_multiset(q) == Multiset::<(i64, usize)>::empty(),
{
    priq::PriorityQueue::new()
}

/// Relies on `priq::PriorityQueue::put`: adds the pair to the heap.
#[verifier::external_body]
fn heap_put(q: &mut priq::PriorityQueue<i64, usize>, score: i64, item: usize)
    ensures
        heap_multiset(*final(q)) == heap_multiset(*old(q)).insert((score, item)),
{
    q.put(score, item)
}

/// Relies on `priq::PriorityQueue::pop`: removes and returns a pair whose
/// score is lowest; on an empty heap it returns nothing and changes nothing.
#[verifier::external_body]
fn heap_pop(q: &mut priq::PriorityQueue<i64, usize>) -> (r: Option<(i64, usize)>)
    ensures
        match r {
            None => heap_multiset(*old(q)).len() == 0 && *final(q) == *old(q),
            Some(p) => heap_multiset(*old(q)).count(p) > 0 && heap_multiset(*final(q))
                == heap_multiset(*old(q)).remove(p) && forall|x: (i64, usize)|
                #[trigger] heap_multiset(*old(q)).count(x) > 0 ==> p.0 <= x.0,
        },
{
    q.pop()
}

/// Relies on `priq::PriorityQueue::peek`: returns a pair whose score is
/// lowest, without removing it.
#[verifier::external_body]
fn heap_peek(q: &priq::PriorityQueue<i64, usize>) -> (r: Option<(i64, usize)>)
    ensures
        match r {
            None => heap_multiset(*q).len() == 0,
            Some(p) => heap_multiset(*q).count(p) > 0 && forall|x: (i64, usize)|
                #[trigger] heap_multiset(*q).count(x) > 0 ==> p.0 <= x.0,
        },
{
    q.peek().copied()
}

/// A queue of events, each due at a time.
pub struct EventQueue<E> {
    heap: priq::PriorityQueue<i64, usize>,
    slots: Vec<Option<(Time, E)>>,
}

/// The timed events a slot table holds, as a multiset of due-time / event
/// pairs.
pub open spec fn slots_multiset<E>(s: Seq<Option<(Time, E)>>) -> Multiset<(int, E)>
    decreases s.len(),
{
    if s.len() == 0 {
        Multiset::empty()
    } else {
        let rest = slots_multiset(s.drop_last());
        match s.last() {
            Some(p) => rest.insert((p.0@, p.1)),
            None => rest,
        }
    }
}

/// Appending a filled slot adds its pair to the multiset.
proof fn lemma_slots_push<E>(s: Seq<Option<(Time, E)>>, p: (Time, E))
    ensures
        slots_multiset(s.push(Some(p))) == slots_multiset(s).insert((p.0@, p.1)),
{
    assert(s.push(Some(p)).drop_last() =~= s);
}

/// A filled slot's pair is in the multiset.
proof fn lemma_slots_contains<E>(s: Seq<Option<(Time, E)>>, i: int)
    requires
        0 <= i < s.len(),
        s[i] is Some,
    ensures
        slots_multiset(s).count(((s[i]->0).0@, (s[i]->0).1)) > 0,
    decreases s.len(),
{
    if i == s.len() - 1 {
    } else {
        lemma_slots_contains(s.drop_last(), i);
    }
}

/// Every pair of the multiset sits in some filled slot.
proof fn lemma_slots_origin<E>(s: Seq<Option<(Time, E)>>, x: (int, E))
    requires
        slots_multiset(s).count(x) > 0,
    ensures
        exists|i: int|
            0 <= i < s.len() && s[i] is Some && ((#[trigger] s[i]->0).0@, (s[i]->0).1) == x,
    decreases s.len(),
{
    if s.len() > 0 {
        let last = s.last();
        if last is Some && ((last->0).0@, (last->0).1) == x {
            assert(s[s.len() - 1] is Some);
        } else {
            lemma_slots_origin(s.drop_last(), x);
            let i = choose|i: int|
                0 <= i < s.drop_last().len() && s.drop_last()[i] is Some && ((#[trigger] s.drop_last()[i]->0).0@, (s.drop_last()[i]->0).1) == x;
            assert(s[i] == s.drop_last()[i]);
        }
    }
}

/// Emptying a filled slot removes its pair from the multiset.
proof fn lemma_slots_clear<E>(s: Seq<Option<(Time, E)>>, i: int)
    requires
        0 <= i < s.len(),
        s[i] is Some,
    ensures
        slots_multiset(s.update(i, None)) == slots_multiset(s).remove(((s[i]->0).0@, (s[i]->0).1)),
    decreases s.len(),
{
    let x = ((s[i]->0).0@, (s[i]->0).1);
    if i == s.len() - 1 {
        assert(s.update(i, None).drop_last() =~= s.drop_last());
        assert(slots_multiset(s.update(i, None)) =~= slots_multiset(s).remove(x));
    } else {
        assert(s.update(i, None).drop_last() =~= s.drop_last().update(i, None));
        lemma_slots_clear(s.drop_last(), i);
        lemma_slots_contains(s.drop_last(), i);
        assert(s.update(i, None).last() == s.last());
        match s.last() {
            Some(q) => {
                assert(slots_multiset(s.update(i, None)) =~= slots_multiset(s).remove(x));
            },
            None => {},
        }
    }
}

impl<E> EventQueue<E> {
    /// The timed events the queue holds, as a multiset of due-time / event
    /// pairs.
    pub closed spec fn contents(&self) -> Multiset<(int, E)> {
        slots_multiset(self.slots@)
    }

    /// The queue's heap mirrors its slot table: every heap pair points at a
    /// filled slot with that due time, and every filled slot has exactly one
    /// heap pair.
    pub closed spec fn inv(&self) -> bool {
        &&& forall|p: (i64, usize)|
            #[trigger] heap_multiset(self.heap).count(p) > 0 ==> 0 <= p.1 < self.slots@.len()
                && self.slots@[p.1 as int] is Some && (self.slots@[p.1 as int]->0).0@ == p.0
        &&& forall|i: int|
            0 <= i < self.slots@.len() && (#[trigger] self.slots@[i]) is Some ==> heap_multiset(
                self.heap,
            ).count((((self.slots@[i]->0).0@) as i64, i as usize)) == 1
        &&& forall|p: (i64, usize)| #[trigger] heap_multiset(self.heap).count(p) <= 1
    }

    /// A new, empty queue.
    pub fn new() -> (r: EventQueue<E>)
        ensures
            r.inv(),
            r.contents() == Multiset::<(int, E)>::empty(),
    {
        let q = EventQueue { heap: heap_new(), slots: Vec::new() };
        proof {
            assert(q.slots@.len() == 0);
        }
        q
    }

    /// Add an event to the queue, due at `time`.
    pub fn schedule(&mut self, time: Time, event: E)
        requires
            old(self).inv(),
        ensures
            final(self).inv(),
            final(self).contents() == old(self).contents().insert((time@, event)),
    {
        let idx: usize = self.slots.len();
        self.slots.push(Some((time, event)));
        let score: i64 = time.ticks();
        heap_put(&mut self.heap, score, idx);
        proof {
            lemma_slots_push(old(self).slots@, (time, event));
            let old_heap = heap_multiset(old(self).heap);
            let new_heap = heap_multiset(self.heap);
            assert(old_heap.count((score, idx)) == 0) by {
                if old_heap.count((score, idx)) > 0 {
                    assert(idx < old(self).slots@.len());
                }
            }
            assert forall|p: (i64, usize)| new_heap.count(p) > 0 implies 0 <= p.1
                < self.slots@.len() && (#[trigger] self.slots@[p.1 as int]) is Some && (
            self.slots@[p.1 as int]->0).0@ == p.0 by {
                if p == (score, idx) {
                    assert(self.slots@[idx as int] == Some((time, event)));
                } else {
                    assert(old_heap.count(p) > 0);
                    assert(self.slots@[p.1 as int] == old(self).slots@[p.1 as int]);
                }
            }
            assert forall|i: int|
                0 <= i < self.slots@.len() && (#[trigger] self.slots@[i]) is Some implies new_heap.count(
                (((self.slots@[i]->0).0@) as i64, i as usize),
            ) == 1 by {
                if i == idx as int {
                    assert(self.slots@[i] == Some((time, event)));
                } else {
                    assert(self.slots@[i] == old(self).slots@[i]);
                    assert(old_heap.count((((self.slots@[i]->0).0@) as i64, i as usize)) == 1);
                }
            }
        }
    }

    /// Remove and return an event with the earliest due time; nothing when
    /// the queue is empty.
    pub fn next(&mut self) -> (r: Option<(Time, E)>)
        requires
            old(self).inv(),
        ensures
            final(self).inv(),
            match r {
                None => old(self).contents().len() == 0 && *final(self) == *old(self),
                Some(p) => old(self).contents().count((p.0@, p.1)) > 0 && final(self).contents()
                    == old(self).contents().remove((p.0@, p.1)) && forall|x: (int, E)|
                    old(self).contents().count(x) > 0 ==> p.0@ <= #[trigger] x.0,
            },
    {
        match heap_pop(&mut self.heap) {
            None => {
                proof {
                    if self.contents().len() > 0 {
                        let x = self.contents().choose();
                        lemma_slots_origin(self.slots@, x);
                        let i = choose|i: int|
                            0 <= i < self.slots@.len() && self.slots@[i] is Some && ((
                            #[trigger] self.slots@[i]->0).0@, (self.slots@[i]->0).1) == x;
                    }
                }
                None
            },
            Some((score, idx)) => {
                proof {
                    assert(heap_multiset(old(self).heap).count((score, idx)) > 0);
                }
                let pair: Option<(Time, E)> = self.remove_entry(idx);
                proof {
                    let slots0 = old(self).slots@;
                    let x = ((slots0[idx as int]->0).0@, (slots0[idx as int]->0).1);
                    lemma_slots_clear(slots0, idx as int);
                    lemma_slots_contains(slots0, idx as int);
                    assert forall|y: (int, E)| old(self).contents().count(y) > 0 implies score as int
                        <= y.0 by {
                        lemma_slots_origin(slots0, y);
                        let i = choose|i: int|
                            0 <= i < slots0.len() && slots0[i] is Some && ((
                            #[trigger] slots0[i]->0).0@, (slots0[i]->0).1) == y;
                        assert(heap_multiset(old(self).heap).count(
                            (((slots0[i]->0).0@) as i64, i as usize),
                        ) == 1);
                    }
                    let old_heap = heap_multiset(old(self).heap);
                    let new_heap = heap_multiset(self.heap);
                    assert forall|p: (i64, usize)| new_heap.count(p) > 0 implies 0 <= p.1
                        < self.slots@.len() && (#[trigger] self.slots@[p.1 as int]) is Some && (
                    self.slots@[p.1 as int]->0).0@ == p.0 by {
                        assert(old_heap.count(p) > 0);
                        if p.1 == idx {
                            assert((slots0[idx as int]->0).0@ == p.0);
                            assert((slots0[idx as int]->0).0@ == score);
                            assert(p == (score, idx));
                            assert(old_heap.count((score, idx)) <= 1);
                            assert(new_heap.count((score, idx)) == 0);
                            assert(false);
                        } else {
                            assert(self.slots@[p.1 as int] == slots0[p.1 as int]);
                        }
                    }
                    assert forall|i: int|
                        0 <= i < self.slots@.len() && (#[trigger] self.slots@[i]) is Some implies new_heap.count(
                        (((self.slots@[i]->0).0@) as i64, i as usize),
                    ) == 1 by {
                        assert(i != idx as int);
                        assert(self.slots@[i] == slots0[i]);
                        assert(old_heap.count((((slots0[i]->0).0@) as i64, i as usize)) == 1);
                        vstd::std_specs::vec::axiom_spec_len(&self.slots);
                        assert(i as usize as int == i);
                        assert((((slots0[i]->0).0@) as i64, i as usize) != (score, idx));
                        assert(new_heap == old_heap.remove((score, idx)));
                        assert(new_heap.count((((slots0[i]->0).0@) as i64, i as usize)) == old_heap.count(
                            (((slots0[i]->0).0@) as i64, i as usize),
                        ));
                    }
                }
                pair
            },
        }
    }

    /// The earliest due time among the queued events; nothing when the
    /// queue is empty.
    pub fn peek_next_time(&self) -> (r: Option<Time>)
        requires
            self.inv(),
        ensures
            match r {
                None => self.contents().len() == 0,
                Some(t) => (exists|x: (int, E)|
                    #[trigger] self.contents().count(x) > 0 && x.0 == t@) && forall|x: (int, E)|
                    self.contents().count(x) > 0 ==> t@ <= #[trigger] x.0,
            },
    {
        match heap_peek(&self.heap) {
            None => {
                proof {
                    if self.contents().len() > 0 {
                        let x = self.contents().choose();
                        lemma_slots_origin(self.slots@, x);
                        let i = choose|i: int|
                            0 <= i < self.slots@.len() && self.slots@[i] is Some && ((
                            #[trigger] self.slots@[i]->0).0@, (self.slots@[i]->0).1) == x;
                    }
                }
                None
            },
            Some((score, idx)) => {
                proof {
                    assert(heap_multiset(self.heap).count((score, idx)) > 0);
                    lemma_slots_contains(self.slots@, idx as int);
                    assert forall|x: (int, E)| self.contents().count(x) > 0 implies score as int
                        <= x.0 by {
                        lemma_slots_origin(self.slots@, x);
                        let i = choose|i: int|
                            0 <= i < self.slots@.len() && self.slots@[i] is Some && ((
                            #[trigger] self.slots@[i]->0).0@, (self.slots@[i]->0).1) == x;
                        assert(heap_multiset(self.heap).count(
                            (((self.slots@[i]->0).0@) as i64, i as usize),
                        ) == 1);
                    }
                }
                let slot: &Option<(Time, E)> = self.get_ref(idx);
                match slot {
                    Some(p) => {
                        proof {
                            assert(self.contents().count((p.0@, p.1)) > 0);
                        }
                        Some(p.0)
                    },
                    None => {
                        proof {
                            assert(false);
                        }
                        None
                    },
                }
            },
        }
    }

    /// Take the pair out of slot `idx`, leaving the slot empty.
    fn remove_entry(&mut self, idx: usize) -> (r: Option<(Time, E)>)
        requires
            idx < old(self).slots@.len(),
        ensures
            final(self).slots@ == old(self).slots@.update(idx as int, None),
            final(self).heap == old(self).heap,
            r == old(self).slots@[idx as int],
    {
        self.slots[idx].take()
    }

    /// A borrow of slot `idx`.
    fn get_ref(&self, idx: usize) -> (r: &Option<(Time, E)>)
        requires
            idx < self.slots@.len(),
        ensures
            *r == self.slots@[idx as int],
    {
        &self.slots[idx]
    }
}

/// An event of the scheduler's simulation.
pub trait Event: Sized {
    type Error;

    type State;

    /// Run the event: inspect and update the simulation. Implementations
    /// must keep the simulation well formed, must not move its clock
    /// backward, and must not enlarge the event queue; the queue offers no
    /// way to add events while a simulation runs.
    fn run(self, simulation: &mut Simulation<Self, Self::State>) -> (r: Result<(), Self::Error>)
        requires
            old(simulation).wf(),
        ensures
            final(simulation).wf(),
            final(simulation).spec_time() >= old(simulation).spec_time(),
            final(simulation).spec_events().len() <= old(simulation).spec_events().len(),
    ;
}

/// An entire simulation: a clock, an event queue, and a state.
pub struct Simulation<E, S> {
    /// The current time of the simulation.
    time: Time,
    /// The queue of events due to happen.
    events: EventQueue<E>,
    /// The state of the simulation.
    state: S,
}

impl<E, S> Simulation<E, S> {
    /// The current position of the simulation clock, in ticks.
    pub closed spec fn spec_time(&self) -> int {
        self.time@
    }

    /// The simulation's state.
    pub closed spec fn spec_state(&self) -> S {
        self.state
    }

    /// The pending events with their due times, as a multiset.
    pub closed spec fn spec_events(&self) -> Multiset<(int, E)> {
        self.events.contents()
    }

    /// A simulation is well formed when its queue's bookkeeping holds and no
    /// pending event is due before the current time. Every operation of this
    /// module that needs it also re-establishes it.
    pub closed spec fn wf(&self) -> bool {
        &&& self.events.inv()
        &&& forall|p: (int, E)|
            #[trigger] self.spec_events().count(p) > 0 ==> p.0 >= self.spec_time()
    }

    /// Build a simulation at the time origin over a pre-filled queue whose
    /// events are all due at or after the origin.
    pub fn new(state: S, events: EventQueue<E>) -> (r: Simulation<E, S>)
        requires
            events.inv(),
            forall|p: (int, E)| #[trigger] events.contents().count(p) > 0 ==> p.0 >= 0,
        ensures
            r.wf(),
            r.spec_time() == 0,
            r.spec_state() == state,
            r.spec_events() == events.contents(),
    {
        Simulation { time: Time::zero(), events, state }
    }

    /// Time elapsed from the start of the simulation.
    pub fn time(&self) -> (r: Time)
        ensures
            r@ == self.spec_time(),
    {
        self.time
    }

    /// Get the state of the simulation.
    pub fn state(&self) -> (r: &S)
        ensures
            *r == self.spec_state(),
    {
        &self.state
    }

    /// Get the mutable state of the simulation.
    pub fn state_mut(&mut self) -> (r: &mut S)
        ensures
            *r == old(self).spec_state(),
            final(self).spec_state() == *final(r),
            final(self).spec_time() == old(self).spec_time(),
            final(self).spec_events() == old(self).spec_events(),
            old(self).wf() ==> final(self).wf(),
    {
        &mut self.state
    }
}

impl<E, S> Simulation<E, S> where E: Event<State = S> {
    /// Step the simulation by one event: pop an event with the earliest due
    /// time, move the clock to it and run it. Returns the time of the event
    /// that ran; with an empty queue, fails with [`SimulationError::NoMoreEvents`].
    pub fn step(&mut self) -> (r: Result<Time, TimedSimulationError<E>>)
        requires
            old(self).wf(),
        ensures
            final(self).wf(),
            final(self).spec_time() >= old(self).spec_time(),
            final(self).spec_events().len() <= old(self).spec_events().len(),
            old(self).spec_events().len() == 0 ==> r is Err && r->Err_0.error is NoMoreEvents
                && r->Err_0.time@ == old(self).spec_time() && *final(self) == *old(self),
            old(self).spec_events().len() > 0 ==> final(self).spec_events().len() < old(
                self,
            ).spec_events().len(),
            r is Ok ==> (exists|x: (int, E)|
                #[trigger] old(self).spec_events().count(x) > 0 && x.0 == r->Ok_0@) && forall|
                x: (int, E),
            |
                #[trigger] old(self).spec_events().count(x) > 0 ==> r->Ok_0@ <= x.0,
    {
        match self.events.next() {
            None => Err(SimulationError::NoMoreEvents.at(self.time)),
            Some((next_time, event)) => {
                self.time = next_time;
                proof {
                    assert forall|x: (int, E)| #[trigger] self.spec_events().count(x)
                        > 0 implies x.0 >= self.spec_time() by {
                        assert(old(self).spec_events().count(x) > 0);
                    }
                }
                proof {
                    assert(old(self).spec_events().count((next_time@, event)) > 0);
                    assert(exists|x: (int, E)|
                        #[trigger] old(self).spec_events().count(x) > 0 && x.0 == next_time@);
                    assert forall|x: (int, E)| #[trigger] old(self).spec_events().count(x)
                        > 0 implies next_time@ <= x.0 by {}
                }
                match event.run(self) {
                    Ok(()) => Ok(next_time),
                    Err(err) => Err(SimulationError::EventError(err).at(next_time)),
                }
            },
        }
    }

    /// Run the simulation until the given timestamp: run every event due
    /// strictly before it, then move the clock exactly there. Fails when the
    /// queue runs dry first or an event fails.
    pub fn run_until(&mut self, time: Time) -> (r: Result<Time, TimedSimulationError<E>>)
        requires
            old(self).wf(),
        ensures
            final(self).wf(),
            final(self).spec_events().len() <= old(self).spec_events().len(),
            r is Ok ==> final(self).spec_time() == time@ && r->Ok_0@ == time@,
            r is Err ==> final(self).spec_time() >= old(self).spec_time(),
    {
        loop
            invariant
                self.wf(),
                self.spec_time() >= old(self).spec_time(),
                self.spec_events().len() <= old(self).spec_events().len(),
            ensures
                self.wf(),
                self.spec_events().len() <= old(self).spec_events().len(),
                forall|p: (int, E)| #[trigger] self.spec_events().count(p) > 0 ==> p.0 >= time@,
            decreases self.spec_events().len(),
        {
            match self.events.peek_next_time() {
                None => {
                    return Err(SimulationError::NoMoreEvents.at(self.time));
                },
                Some(next) => {
                    if next.ticks() < time.ticks() {
                        match self.step() {
                            Ok(_) => (),
                            Err(e) => {
                                return Err(e);
                            },
                        }
                    } else {
                        proof {
                            assert forall|p: (int, E)| #[trigger] self.spec_events().count(p)
                                > 0 implies p.0 >= time@ by {}
                        }
                        break;
                    }
                },
            }
        }
        self.time = time;
        Ok(self.time)
    }

    /// Run the simulation for the given time from now.
    pub fn run_for(&mut self, time: Time) -> (r: Result<Time, TimedSimulationError<E>>)
        requires
            old(self).wf(),
        ensures
            final(self).wf(),
            final(self).spec_events().len() <= old(self).spec_events().len(),
            r is Ok ==> final(self).spec_time() == crate::scheduler_time::wrap_i64(
                old(self).spec_time() + time@,
            ),
    {
        let target: Time = self.time.add(time);
        self.run_until(target)
    }

    /// Run the simulation while a condition on it holds. Returns the time
    /// reached when the condition first fails.
    pub fn run_while<F: Fn(&Simulation<E, S>) -> bool>(&mut self, condition: F) -> (r: Result<
        Time,
        TimedSimulationError<E>,
    >)
        requires
            old(self).wf(),
            forall|s: &Simulation<E, S>| #[trigger] condition.requires((s,)),
        ensures
            final(self).wf(),
            final(self).spec_events().len() <= old(self).spec_events().len(),
            final(self).spec_time() >= old(self).spec_time(),
            r is Ok ==> r->Ok_0@ == final(self).spec_time(),
    {
        loop
            invariant
                self.wf(),
                self.spec_time() >= old(self).spec_time(),
                self.spec_events().len() <= old(self).spec_events().len(),
                forall|s: &Simulation<E, S>| #[trigger] condition.requires((s,)),
            decreases self.spec_events().len(),
        {
            if !condition(self) {
                break;
            }
            match self.step() {
                Ok(_) => (),
                Err(e) => {
                    return Err(e);
                },
            }
        }
        Ok(self.time)
    }
}

/// A generic error occurred during a simulation.
pub enum SimulationError<E: Event> {
    /// The event queue was emptied.
    NoMoreEvents,
    /// An event failed.
    EventError(E::Error),
}

impl<E: Event> SimulationError<E> {
    /// Attach the time at which this error occurred.
    pub fn at(self, time: Time) -> (r: TimedSimulationError<E>)
        ensures
            r.time == time,
            r.error == self,
    {
        TimedSimulationError { time, error: self }
    }
}

/// An error occurred during a simulation, with the time at which it
/// occurred.
pub struct TimedSimulationError<E: Event> {
    /// The simulation time of the failure.
    pub time: Time,
    /// What went wrong.
    pub error: SimulationError<E>,
}

} // verus!
