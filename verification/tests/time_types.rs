//! Tests of the time types and their human-readable form.

use simcore::humanized::{Humanized, ParseDurationError, ParseTimeDeltaError};
use simcore::sim_time::{Duration, Time, TimeDelta};

/// The tick count of a delta, recovered through public arithmetic.
fn delta_of_ticks(ticks: i64) -> TimeDelta {
    TimeDelta::epsilon().mul(ticks)
}

fn ticks_of_delta(d: TimeDelta) -> i64 {
    d.div_i(TimeDelta::epsilon())
}

/// The deltas the original fuzz harness drew: `factor * unit` with
/// `factor = k/1024 - 1024` for raw `k` below `2^21`, over the five units.
fn sampled_deltas() -> Vec<TimeDelta> {
    let units: [i64; 5] = [
        ticks_of_delta(TimeDelta::second()),
        ticks_of_delta(TimeDelta::minute()),
        ticks_of_delta(TimeDelta::day()),
        ticks_of_delta(TimeDelta::hour()),
        ticks_of_delta(TimeDelta::year()),
    ];
    let raws: [i64; 12] = [
        0,
        1,
        511,
        1024,
        1025,
        104857,
        1048576,
        1048577,
        1572864,
        2097151,
        2000000,
        3,
    ];
    let mut out: Vec<TimeDelta> = Vec::new();
    for unit in units {
        for raw in raws {
            // factor = (raw as f64 / 1024.) - 1024., applied exactly:
            // delta = trunc(unit * (raw - 1024 * 1024) / 1024)
            let m: i128 = raw as i128 - (1024 * 1024);
            let ticks: i128 = (unit as i128 * m) / 1024;
            out.push(delta_of_ticks(ticks as i64));
        }
    }
    out
}

#[test]
fn timedelta() {
    for arb in sampled_deltas() {
        let displayed = Humanized(arb).render();
        let parsed = Humanized::<TimeDelta>::parse(&displayed).unwrap().0;
        assert_eq!(arb, parsed);
    }
}

#[test]
fn time() {
    for arb in sampled_deltas() {
        let arb_time = Time::zero().offset(arb);
        let displayed = Humanized(arb_time).render();
        let parsed = Humanized::<Time>::parse(&displayed).unwrap().0;
        assert_eq!(arb_time, parsed);
    }
}

#[test]
fn duration() {
    for arb in sampled_deltas() {
        if ticks_of_delta(arb) == i64::MIN {
            continue;
        }
        let arb_duration = arb.abs();
        let displayed = Humanized(arb_duration).render();
        let parsed = Humanized::<Duration>::parse(&displayed).unwrap().0;
        assert_eq!(arb_duration, parsed);
    }
}

#[test]
fn delta_arithmetic() {
    let s = TimeDelta::second();
    let m = TimeDelta::minute();
    assert_eq!(s.mul(60), m);
    assert_eq!(m.sub(s).add(s), m);
    assert_eq!(m.div_i(s), 60);
    assert_eq!(m.div(60), s);
    assert_eq!(m.rem(s), TimeDelta::zero());
    assert_eq!(delta_of_ticks(-7).div(2), delta_of_ticks(-3));
    assert_eq!(delta_of_ticks(-7).rem(delta_of_ticks(2)), delta_of_ticks(-1));
    assert_eq!(s.neg(), TimeDelta::zero().sub(s));
    assert_eq!(TimeDelta::hour(), s.mul(3600));
    assert_eq!(TimeDelta::day(), TimeDelta::hour().mul(24));
    assert_eq!(TimeDelta::year(), TimeDelta::day().mul(365));
}

#[test]
fn delta_abs_and_duration() {
    let neg = delta_of_ticks(-1536);
    let dur = neg.abs();
    assert_eq!(dur, delta_of_ticks(1536).abs());
    assert_eq!(dur.delta(), delta_of_ticks(1536));
    assert!(Duration::try_from(neg).is_err());
    let nd = Duration::try_from(neg).unwrap_err();
    assert_eq!(nd.0, neg);
    assert_eq!(Duration::try_from(delta_of_ticks(5)).unwrap().delta(), delta_of_ticks(5));
    assert_eq!(Duration::second().mul(90).div(60), Duration::second().mul(3).div(2));
    assert_eq!(Duration::minute().rem(Duration::second().mul(7)), Duration::second().mul(4));
    assert_eq!(Duration::minute().sub(Duration::hour()), TimeDelta::minute().mul(-59));
}

#[test]
fn time_offsets() {
    let t = Time::zero().offset(TimeDelta::hour());
    assert_eq!(t.sub(Time::zero()), TimeDelta::hour());
    assert_eq!(t.offset(TimeDelta::hour().neg()), Time::zero());
}

#[test]
fn render_examples() {
    assert_eq!(Humanized(TimeDelta::zero()).render(), "0");
    assert_eq!(Humanized(delta_of_ticks(512)).render(), "0.5s");
    assert_eq!(Humanized(delta_of_ticks(-512)).render(), "-0.5s");
    assert_eq!(Humanized(delta_of_ticks(1)).render(), "0.0009765625s");
    assert_eq!(Humanized(TimeDelta::second().mul(2)).render(), "2s");
    assert_eq!(
        Humanized(TimeDelta::minute().add(TimeDelta::second().mul(30))).render(),
        "1m 30s"
    );
    assert_eq!(
        Humanized(TimeDelta::minute().add(TimeDelta::second().mul(30)).neg()).render(),
        "-1m -30s"
    );
    assert_eq!(
        Humanized(
            TimeDelta::year()
                .add(TimeDelta::day().mul(2))
                .add(TimeDelta::hour().mul(3))
                .add(TimeDelta::minute().mul(4))
                .add(delta_of_ticks(5632))
        )
        .render(),
        "1y 2d 3h 4m 5.5s"
    );
    assert_eq!(Humanized(TimeDelta::day().mul(3)).render(), "3d");
}

#[test]
fn parse_examples() {
    let p = |s: &str| Humanized::<TimeDelta>::parse(s).unwrap().0;
    assert_eq!(p(""), TimeDelta::zero());
    assert_eq!(p("   "), TimeDelta::zero());
    assert_eq!(p("0"), TimeDelta::zero());
    assert_eq!(p("-0.000"), TimeDelta::zero());
    assert_eq!(p("0E3"), TimeDelta::zero());
    assert_eq!(p("1.5s"), delta_of_ticks(1536));
    assert_eq!(p("2m"), TimeDelta::minute().mul(2));
    assert_eq!(p("1e2s"), TimeDelta::second().mul(100));
    assert_eq!(p("1y 2d"), TimeDelta::year().add(TimeDelta::day().mul(2)));
    assert_eq!(p("-1m -30s"), TimeDelta::minute().add(TimeDelta::second().mul(30)).neg());
    assert_eq!(p("  1 m  "), TimeDelta::minute());
    assert_eq!(p(".5s"), delta_of_ticks(512));
    assert_eq!(p("1.s"), TimeDelta::second());
    assert_eq!(p("2.5e3m"), TimeDelta::minute().mul(2500));
}

#[test]
fn parse_saturates() {
    let p = |s: &str| Humanized::<TimeDelta>::parse(s).unwrap().0;
    assert_eq!(p("99999999999999999999y"), delta_of_ticks(i64::MAX));
    assert_eq!(p("-99999999999999999999y"), delta_of_ticks(i64::MIN));
    assert_eq!(p("1e30s"), delta_of_ticks(i64::MAX));
    assert_eq!(p("0.0000000000001s"), TimeDelta::zero());
}

#[test]
fn parse_rejects() {
    let err = |s: &str| Humanized::<TimeDelta>::parse(s).unwrap_err();
    assert_eq!(err("abc"), ParseTimeDeltaError::UnrecognizedTerm);
    assert_eq!(err("5"), ParseTimeDeltaError::UnrecognizedTerm);
    assert_eq!(err("1x"), ParseTimeDeltaError::UnrecognizedTerm);
    assert_eq!(err("1m 2"), ParseTimeDeltaError::UnrecognizedTerm);
    assert_eq!(err("1E2s"), ParseTimeDeltaError::UnrecognizedTerm);
    assert_eq!(err("1m x\ny"), ParseTimeDeltaError::UnrecognizedTerm);
    assert_eq!(err("--1s"), ParseTimeDeltaError::UnrecognizedTerm);
    assert_eq!(err("1es"), ParseTimeDeltaError::UnrecognizedTerm);
}

#[test]
fn parse_duration_errors() {
    let res = Humanized::<Duration>::parse("-1s");
    assert!(matches!(res, Err(ParseDurationError::NegativeTimeDelta(_))));
    let res = Humanized::<Duration>::parse("junk");
    assert!(matches!(
        res,
        Err(ParseDurationError::ParseTimeDeltaError(ParseTimeDeltaError::UnrecognizedTerm))
    ));
    assert_eq!(
        Humanized::<Duration>::parse("90s").unwrap().0,
        TimeDelta::second().mul(90).abs()
    );
    let res = Humanized::<Time>::parse("-1h");
    assert_eq!(res.unwrap().0, Time::zero().offset(TimeDelta::hour().neg()));
}
