//! Tests of the two simulation frameworks, the scheduler clock and the
//! lattice index arithmetic.

use simcore::lattice::vertex_index;
use simcore::scheduler;
use simcore::scheduler_time;
use simcore::sim_clock::{NotPositiveTimeDelta, PositiveTimeDelta, Time, TimeDelta};
use simcore::simulation::{CannotScheduleAtInfinite, Event, Simulation};

fn delay_secs(n: i64) -> PositiveTimeDelta {
    PositiveTimeDelta::try_from(TimeDelta::second().mul(n)).unwrap()
}

struct Ping(u32);

impl Event<Vec<u32>> for Ping {
    type Error = ();

    fn trigger(self, sim: &mut Simulation<Ping, Vec<u32>>) -> Result<(), ()> {
        sim.state_mut().push(self.0);
        if self.0 < 3 {
            let next = Ping(self.0 + 1);
            sim.schedule(next, delay_secs(1)).unwrap();
        }
        Ok(())
    }
}

#[test]
fn clock_basics() {
    assert!(Time::zero().is_finite());
    assert!(!Time::infinity().is_finite());
    let t = Time::zero().add_delta(TimeDelta::minute());
    assert_eq!(t.difference(&Time::zero()), Some(TimeDelta::minute()));
    assert_eq!(Time::zero().difference(&t), Some(TimeDelta::minute().neg()));
    assert_eq!(t.difference(&Time::infinity()), None);
    assert_eq!(t.sub_delta(TimeDelta::minute()), Time::zero());
    assert_eq!(Time::infinity().add_delta(TimeDelta::hour()), Time::infinity());
    assert!(TimeDelta::second().is_positive());
    assert!(!TimeDelta::second().is_negative());
    assert!(TimeDelta::zero().sub(TimeDelta::second()).is_negative());
    assert_eq!(TimeDelta::milli().mul(1000), TimeDelta::second());
    assert_eq!(TimeDelta::minute(), TimeDelta::second().mul(60));
    assert_eq!(TimeDelta::year(), TimeDelta::day().mul(365));
}

#[test]
fn positive_delta_errors() {
    assert_eq!(
        PositiveTimeDelta::try_from(TimeDelta::zero()),
        Err(NotPositiveTimeDelta::Zero)
    );
    assert_eq!(
        PositiveTimeDelta::try_from(TimeDelta::second().neg()),
        Err(NotPositiveTimeDelta::Negative)
    );
    assert_eq!(delay_secs(2).get(), TimeDelta::second().mul(2));
}

#[test]
fn simulation_runs_events_in_order() {
    let mut sim: Simulation<Ping, Vec<u32>> = Simulation::new(Vec::new());
    assert!(sim.events_is_empty());
    sim.schedule(Ping(10), delay_secs(5)).unwrap();
    sim.schedule(Ping(1), delay_secs(1)).unwrap();
    assert_eq!(sim.events_count(), 2);
    let t = sim.step().unwrap();
    assert_eq!(t.difference(&Time::zero()), Some(TimeDelta::second()));
    assert_eq!(sim.state(), &vec![1]);
    sim.run().unwrap();
    assert_eq!(sim.state(), &vec![1, 2, 3, 10]);
    assert!(sim.ended());
    assert!(sim.events_is_empty());
    assert_eq!(
        sim.schedule(Ping(9), delay_secs(1)),
        Err(CannotScheduleAtInfinite)
    );
}

#[test]
fn simulation_run_until_steps_past_target() {
    let mut sim: Simulation<Ping, Vec<u32>> = Simulation::new(Vec::new());
    sim.schedule(Ping(1), delay_secs(10)).unwrap();
    // stepping does not stop between events: the one event before the
    // target is the one at 10 s, and stepping to it overshoots 4 s
    sim.run_until(Time::zero().add_delta(TimeDelta::second().mul(4))).unwrap();
    assert_eq!(sim.state(), &vec![1]);
    assert_eq!(sim.time().difference(&Time::zero()), Some(TimeDelta::second().mul(10)));
    sim.run_for(delay_secs(20)).unwrap();
    assert_eq!(sim.state(), &vec![1, 2, 3]);
    assert!(sim.ended());
}

#[test]
fn simulation_events_clear() {
    let mut sim: Simulation<Ping, Vec<u32>> = Simulation::new(Vec::new());
    sim.schedule(Ping(1), delay_secs(1)).unwrap();
    sim.events_clear();
    assert!(sim.events_is_empty());
    sim.run().unwrap();
    assert!(sim.ended());
    assert!(sim.state().is_empty());
}

struct Tick;

impl scheduler::Event for Tick {
    type Error = String;
    type State = u32;

    fn run(
        self,
        sim: &mut scheduler::Simulation<Tick, u32>,
    ) -> Result<(), String> {
        *sim.state_mut() += 1;
        Ok(())
    }
}

fn stime(secs: i64) -> scheduler_time::Time {
    scheduler_time::Time::second().mul(secs)
}

/// Unwrap a scheduler result whose error type carries no `Debug` impl.
fn ok_or_panic<T>(r: Result<T, scheduler::TimedSimulationError<Tick>>) -> T {
    match r {
        Ok(v) => v,
        Err(_) => panic!("unexpected simulation error"),
    }
}

fn err_or_panic<T>(
    r: Result<T, scheduler::TimedSimulationError<Tick>>,
) -> scheduler::TimedSimulationError<Tick> {
    match r {
        Ok(_) => panic!("expected a simulation error"),
        Err(e) => e,
    }
}

fn below_two(sim: &scheduler::Simulation<Tick, u32>) -> bool {
    *sim.state() < 2
}

#[test]
fn event_queue_pops_in_time_order() {
    let mut q: scheduler::EventQueue<Tick> = scheduler::EventQueue::new();
    assert!(q.peek_next_time().is_none());
    q.schedule(stime(30), Tick);
    q.schedule(stime(10), Tick);
    q.schedule(stime(20), Tick);
    assert_eq!(q.peek_next_time(), Some(stime(10)));
    let (t1, _) = q.next().unwrap();
    let (t2, _) = q.next().unwrap();
    let (t3, _) = q.next().unwrap();
    assert_eq!((t1, t2, t3), (stime(10), stime(20), stime(30)));
    assert!(q.next().is_none());
}

#[test]
fn scheduler_simulation_steps() {
    let mut q: scheduler::EventQueue<Tick> = scheduler::EventQueue::new();
    q.schedule(stime(1), Tick);
    q.schedule(stime(2), Tick);
    let mut sim = scheduler::Simulation::new(0u32, q);
    assert_eq!(sim.time(), scheduler_time::Time::zero());
    let t = ok_or_panic(sim.step());
    assert_eq!(t, stime(1));
    assert_eq!(*sim.state(), 1);
    // the queue runs dry before the target, which is an error at the time
    // of the last event
    let err = err_or_panic(sim.run_until(stime(50)));
    assert_eq!(err.time, stime(2));
    assert!(matches!(err.error, scheduler::SimulationError::NoMoreEvents));
    assert_eq!(*sim.state(), 2);
    assert_eq!(sim.time(), stime(2));
}

#[test]
fn scheduler_simulation_run_while() {
    let mut q: scheduler::EventQueue<Tick> = scheduler::EventQueue::new();
    q.schedule(stime(1), Tick);
    q.schedule(stime(2), Tick);
    q.schedule(stime(3), Tick);
    let mut sim = scheduler::Simulation::new(0u32, q);
    let t = ok_or_panic(sim.run_while(below_two));
    assert_eq!(*sim.state(), 2);
    assert_eq!(t, stime(2));
    let err = err_or_panic(sim.run_until(stime(100)));
    assert_eq!(err.time, stime(3));
    assert!(matches!(err.error, scheduler::SimulationError::NoMoreEvents));
    assert_eq!(*sim.state(), 3);
}

#[test]
fn scheduler_run_for_advances_relative() {
    let mut q: scheduler::EventQueue<Tick> = scheduler::EventQueue::new();
    q.schedule(stime(8), Tick);
    let mut sim = scheduler::Simulation::new(0u32, q);
    let t = ok_or_panic(sim.run_for(stime(5)));
    assert_eq!(t, stime(5));
    assert_eq!(sim.time(), stime(5));
    assert_eq!(*sim.state(), 0);
    // the next stretch consumes the only event and then runs dry
    let err = err_or_panic(sim.run_for(stime(5)));
    assert_eq!(err.time, stime(8));
    assert_eq!(sim.time(), stime(8));
    assert_eq!(*sim.state(), 1);
}

#[test]
fn scheduler_time_splits() {
    let t = scheduler_time::Time::year()
        .add(scheduler_time::Time::day().mul(2))
        .add(scheduler_time::Time::hour().mul(3))
        .add(scheduler_time::Time::minute().mul(4))
        .add(stime(5));
    let (years, rest) = t.split_years();
    assert_eq!(years, 1);
    let (months, _) = rest.split_months();
    assert_eq!(months, 0);
    let (days, rest) = rest.split_days();
    assert_eq!(days, 2);
    let (hours, rest) = rest.split_hours();
    assert_eq!(hours, 3);
    let (minutes, rest) = rest.split_minutes();
    assert_eq!(minutes, 4);
    let (seconds, rest) = rest.split_seconds();
    assert_eq!(seconds, 5);
    let (n, d) = rest.split_fractional_second();
    assert_eq!((n, d), (0, 1024));
    let w = scheduler_time::Time::week();
    assert_eq!(w.split_weeks(), (1, scheduler_time::Time::zero()));
    assert_eq!(w.div(scheduler_time::Time::day()), 7);
}

#[test]
fn scheduler_time_wrapping_arithmetic() {
    let max = scheduler_time::Time::epsilon().mul(i64::MAX);
    assert_eq!(max.add(scheduler_time::Time::epsilon()), scheduler_time::Time::epsilon().mul(i64::MIN));
    assert_eq!(scheduler_time::Time::zero().sub(max).sub(scheduler_time::Time::epsilon()), scheduler_time::Time::epsilon().mul(i64::MIN));
    let m = scheduler_time::Time::epsilon().mul(i64::MIN);
    assert_eq!(m.neg(), m);
    assert_eq!(m.div_int(-1), m);
    assert_eq!(m.rem(scheduler_time::Time::epsilon().mul(-1)), scheduler_time::Time::zero());
    assert_eq!(scheduler_time::Time::epsilon().mul(-7).div_int(2), scheduler_time::Time::epsilon().mul(-3));
}

#[test]
fn scheduler_time_render_plain() {
    let t = scheduler_time::Time::year()
        .add(scheduler_time::Time::day().mul(2))
        .add(scheduler_time::Time::hour().mul(3))
        .add(scheduler_time::Time::minute().mul(4))
        .add(stime(5))
        .add(scheduler_time::Time::epsilon().mul(126));
    assert_eq!(t.render(false), "1Y 2D 3h 4m 5.123s");
    assert_eq!(t.render(true), "1Y 2D 3h 4m 5 126/1024s");
    assert_eq!(scheduler_time::Time::zero().render(false), " 0s");
    assert_eq!(stime(7).render(false), "7s");
    assert_eq!(scheduler_time::Time::minute().render(false), "1m");
    assert_eq!(
        scheduler_time::Time::epsilon().mul(126).render(true),
        "126/1024s"
    );
    assert_eq!(stime(-90).render(false), "-1m -30s");
    assert_eq!(scheduler_time::Time::month().mul(2).render(false), "2M");
}

#[test]
fn scheduler_time_render_matches_float_formatting() {
    for n in 1..1024i64 {
        let t = scheduler_time::Time::epsilon().mul(n);
        let expected = format!("{:.3}s", (n as f64) / 1024.0);
        assert_eq!(t.render(false), expected, "ticks {}", n);
    }
}

#[test]
fn lattice_vertex_resolution() {
    assert_eq!(vertex_index(2, 7, 6, 10), (1, 5));
    assert_eq!(vertex_index(0, 0, 6, 10), (0, 0));
    assert_eq!(vertex_index(-1, 0, 6, 10), (0, 9));
    assert_eq!(vertex_index(0, -1, 6, 10), (5, 7));
}

#[test]
fn lattice_toroidal_wrap() {
    let rows: usize = 6;
    let cols: usize = 10;
    let half: i64 = (rows / 2) as i64;
    for &(c, r) in &[(0i64, 0i64), (3, 2), (-4, -9), (17, 23), (-100, 55)] {
        // a full vertical period shifts columns by half a period
        assert_eq!(
            vertex_index(c, r + rows as i64, rows, cols),
            vertex_index(c + half, r, rows, cols)
        );
        // a full horizontal period resolves identically
        assert_eq!(
            vertex_index(c + cols as i64, r, rows, cols),
            vertex_index(c, r, rows, cols)
        );
    }
}
