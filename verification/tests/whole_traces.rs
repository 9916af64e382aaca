//! What comes out over a whole trace, in one mode against another.

use mstlo::atomic_operators::Atomic;
use mstlo::binary_operators::{And, Or};
use mstlo::operator::StlOperatorAndSignalIdentifier;
use mstlo::ring_buffer::{RingBuffer, Step};
use mstlo::semantics::{Robustness, RobustnessInterval};
use mstlo::synchronizer::SignalInterpolation;
use mstlo::time::{Time, TimeInterval};
use mstlo::until_operator::Until;

type DelayedAnd = And<i64, RingBuffer<bool>, bool, false, false>;
type EagerAnd = And<i64, RingBuffer<bool>, bool, true, false>;
type ValueAnd = And<i64, RingBuffer<Robustness>, Robustness, false, false>;
type ValueOr = Or<i64, RingBuffer<Robustness>, Robustness, false, false>;
type DelayedUntil = Until<i64, RingBuffer<bool>, bool, false, false>;
type EagerUntil = Until<i64, RingBuffer<bool>, bool, true, false>;
type DelayedOr = Or<i64, RingBuffer<bool>, bool, false, false>;
type IntervalAnd = And<i64, RingBuffer<RobustnessInterval>, RobustnessInterval, false, true>;
type IntervalOr = Or<i64, RingBuffer<RobustnessInterval>, RobustnessInterval, false, true>;
type ValueUntil = Until<i64, RingBuffer<Robustness>, Robustness, false, false>;
type IntervalUntil = Until<i64, RingBuffer<RobustnessInterval>, RobustnessInterval, false, true>;

type Sample = (&'static str, i64, Time);

/// Neither signal waits for the other one.
const TRACE: [Sample; 7] = [
    ("x", 3, 0),
    ("y", -1, 0),
    ("y", 2, 3),
    ("x", 1, 5),
    ("y", -4, 6),
    ("x", -2, 9),
    ("y", 1, 9),
];

const WINDOW: TimeInterval = TimeInterval { start: 2, end: 4 };

/// What is emitted on each sample of a trace.
fn monitor<Y: Copy>(
    mut operator: impl StlOperatorAndSignalIdentifier<i64, Y>,
    trace: &[Sample],
) -> Vec<Vec<(Time, Y)>> {
    operator.get_signal_identifiers();
    trace
        .iter()
        .map(|&(signal, value, t)| {
            operator
                .update(&Step::new(signal, value, t))
                .iter()
                .map(|step| (step.timestamp, step.value))
                .collect()
        })
        .collect()
}

/// Everything emitted, with the sample it was emitted on.
fn listed<Y: Copy>(emitted: &[Vec<(Time, Y)>]) -> Vec<(usize, Time, Y)> {
    let mut all = Vec::new();
    for (k, verdicts) in emitted.iter().enumerate() {
        for &(t, value) in verdicts {
            all.push((k, t, value));
        }
    }
    all
}

fn finite(v: i128) -> Robustness {
    Robustness::Finite(v)
}

fn truth(signal: &'static str) -> Box<Atomic<i64, bool>> {
    Box::new(Atomic::new_greater_than(signal, 0))
}

fn value(signal: &'static str) -> Box<Atomic<i64, Robustness>> {
    Box::new(Atomic::new_greater_than(signal, 0))
}

fn interval(signal: &'static str) -> Box<Atomic<i64, RobustnessInterval>> {
    Box::new(Atomic::new_greater_than(signal, 0))
}

fn le(a: Robustness, b: Robustness) -> bool {
    match (a, b) {
        (Robustness::NegInfinity, _) | (_, Robustness::Infinity) => true,
        (Robustness::Finite(a), Robustness::Finite(b)) => a <= b,
        _ => false,
    }
}

/// A conjunction answers at the samples of either signal, once the other one has come as far.
#[test]
fn conjunction_answers_joint_timestamps() {
    let emitted = monitor(ValueAnd::new(value("x"), value("y"), None, None), &TRACE);
    assert_eq!(
        emitted,
        vec![
            vec![],
            vec![(0, finite(-1))],
            vec![],
            vec![(3, finite(2))],
            vec![(5, finite(1))],
            vec![(6, finite(-4))],
            vec![(9, finite(-2))],
        ]
    );
}

/// Eager conjunction gives every verdict of the delayed one, no later and the same.
#[test]
fn eager_conjunction_agrees_with_delayed() {
    let delayed = listed(&monitor(DelayedAnd::new(truth("x"), truth("y"), None, None), &TRACE));
    let eager = listed(&monitor(EagerAnd::new(truth("x"), truth("y"), None, None), &TRACE));
    assert_eq!(delayed.len(), 5);
    for (k, t, verdict) in delayed {
        let early: Vec<_> = eager.iter().filter(|entry| entry.1 == t).collect();
        assert_eq!(early.len(), 1);
        assert!(early[0].0 <= k && early[0].2 == verdict);
    }
}

/// The negation of a conjunction is the disjunction of the negations.
#[test]
fn disjunction_is_dual_to_conjunction() {
    let below = |signal: &'static str| -> Box<Atomic<i64, Robustness>> {
        Box::new(Atomic::new_less_than(signal, 0))
    };
    let and = listed(&monitor(ValueAnd::new(value("x"), value("y"), None, None), &TRACE));
    let or = listed(&monitor(ValueOr::new(below("x"), below("y"), None, None), &TRACE));
    assert_eq!(and.len(), or.len());
    for (left, right) in and.iter().zip(or.iter()) {
        assert_eq!((left.0, left.1), (right.0, right.1));
        match (left.2, right.2) {
            (Robustness::Finite(a), Robustness::Finite(b)) => assert_eq!(a, -b),
            _ => panic!("a verdict on whole numbers is one"),
        }
    }
}

/// Until answers at the samples and where their windows begin and end, each time on the sample
/// that completes its window.
#[test]
fn delayed_until_answers_what_is_due() {
    let until = ValueUntil::new(WINDOW, value("x"), value("y"), None, None);
    assert_eq!(
        monitor(until, &TRACE),
        vec![
            vec![],
            vec![],
            vec![],
            vec![],
            vec![(0, finite(2)), (1, finite(2))],
            vec![(2, finite(2))],
            vec![(3, finite(1)), (4, finite(-4)), (5, finite(-2))],
        ]
    );
}

/// Eager until decides some windows ahead of time, as they turn out, and none twice.
#[test]
fn eager_until_agrees_with_delayed() {
    let eager = monitor(EagerUntil::new(WINDOW, truth("x"), truth("y"), None, None), &TRACE);
    assert_eq!(
        eager,
        vec![
            vec![],
            vec![],
            vec![],
            vec![(0, true), (1, true)],
            vec![(2, true), (3, true)],
            vec![],
            vec![(4, false), (5, false), (6, false), (7, false)],
        ]
    );
    let delayed = listed(&monitor(
        DelayedUntil::new(WINDOW, truth("x"), truth("y"), None, None),
        &TRACE,
    ));
    let eager = listed(&eager);
    assert!(eager.windows(2).all(|pair| pair[0].1 < pair[1].1));
    for (k, t, verdict) in delayed {
        let early = eager.iter().find(|entry| entry.1 == t).copied();
        assert!(matches!(early, Some((i, _, v)) if i <= k && v == verdict));
    }
}

/// The intervals for a time narrow down to its robustness, and end there.
#[test]
fn intervals_narrow_to_the_verdict() {
    let refined = listed(&monitor(
        IntervalUntil::new(WINDOW, interval("x"), interval("y"), None, None),
        &TRACE,
    ));
    let values = listed(&monitor(
        ValueUntil::new(WINDOW, value("x"), value("y"), None, None),
        &TRACE,
    ));
    assert_eq!(values.len(), 6);
    for (k, t, v) in values {
        let given: Vec<_> = refined.iter().filter(|entry| entry.1 == t).collect();
        assert_eq!(
            given.last().map(|entry| (entry.0, entry.2)),
            Some((k, RobustnessInterval(v, v)))
        );
        assert!(given.iter().all(|entry| le(entry.2 .0, v) && le(v, entry.2 .1)));
        for pair in given.windows(2) {
            assert!(le(pair[0].2 .0, pair[1].2 .0) && le(pair[1].2 .1, pair[0].2 .1));
        }
    }
}

/// A sample of a signal that is not read still sets the time, and one that lags behind hides
/// what was known past it.
#[test]
fn lagging_sample_of_a_third_signal_widens_an_interval() {
    let trace = [("x", 3, 0), ("y", 1, 0), ("x", 3, 5), ("y", 2, 5), ("z", 0, 2)];
    let until = IntervalUntil::new(
        TimeInterval { start: 0, end: 10 },
        interval("x"),
        interval("y"),
        None,
        None,
    );
    let emitted = monitor(until, &trace);
    assert_eq!(emitted[3][0], (0, RobustnessInterval(finite(2), Robustness::Infinity)));
    assert_eq!(emitted[4][0], (0, RobustnessInterval(finite(1), Robustness::Infinity)));
}

/// The intervals of a connective over predicates are points, given as the delayed one answers
/// and again with later samples.
#[test]
fn connective_intervals_are_the_verdicts() {
    let and = (
        listed(&monitor(IntervalAnd::new(interval("x"), interval("y"), None, None), &TRACE)),
        listed(&monitor(ValueAnd::new(value("x"), value("y"), None, None), &TRACE)),
    );
    let or = (
        listed(&monitor(IntervalOr::new(interval("x"), interval("y"), None, None), &TRACE)),
        listed(&monitor(ValueOr::new(value("x"), value("y"), None, None), &TRACE)),
    );
    for (refined, values) in [and, or] {
        assert_eq!(values.len(), 5);
        for (k, t, v) in values {
            let given: Vec<_> = refined.iter().filter(|entry| entry.1 == t).collect();
            assert_eq!(given[0].0, k);
            assert!(given.iter().all(|entry| entry.2 == RobustnessInterval(v, v)));
        }
    }
}

/// Two signals that cross 4 at whole nanoseconds, one at 2 and 6, the other at 3 and at 8, where
/// it has a sample.
const CROSSING: [Sample; 7] = [
    ("x", 6, 0),
    ("y", 1, 0),
    ("x", 2, 4),
    ("y", 7, 6),
    ("x", 6, 8),
    ("y", 4, 8),
    ("y", 2, 10),
];

fn straight(signal: &'static str) -> Box<Atomic<i64, bool>> {
    let predicate = Atomic::new_greater_than(signal, 4);
    Box::new(predicate.with_interpolation(SignalInterpolation::Linear))
}

/// Whether a signal of a trace that runs straight between its samples is above 4 from `s` on, at
/// first, if the trace tells.
fn above_from(signal: &'static str, trace: &[Sample], s: Time) -> Option<bool> {
    let points: Vec<(i128, i128)> = trace
        .iter()
        .filter(|sample| sample.0 == signal)
        .map(|sample| (sample.2 as i128, sample.1 as i128))
        .collect();
    let s = s as i128;
    let (t_last, v_last) = *points.last()?;
    if s == t_last && v_last != 4 {
        return Some(v_last > 4);
    }
    let pair = points.windows(2).find(|pair| pair[0].0 <= s && s < pair[1].0)?;
    let ((t0, v0), (t1, v1)) = (pair[0], pair[1]);
    let height = (v1 - v0) * (s - t0) - (4 - v0) * (t1 - t0);
    Some(height > 0 || (height == 0 && v1 > v0))
}

/// What a connective says of straight signals is true of them.
#[test]
fn connectives_are_true_of_straight_signals() {
    let and = listed(&monitor(
        DelayedAnd::new(straight("x"), straight("y"), None, None),
        &CROSSING,
    ));
    let or = listed(&monitor(
        DelayedOr::new(straight("x"), straight("y"), None, None),
        &CROSSING,
    ));
    let times: Vec<Time> = and.iter().map(|entry| entry.1).collect();
    assert_eq!(times, vec![0, 2, 3, 4, 6, 8]);
    for (_, t, verdict) in and {
        let (x, y) = (above_from("x", &CROSSING, t), above_from("y", &CROSSING, t));
        assert_eq!(Some(verdict), x.zip(y).map(|(x, y)| x && y));
    }
    for (_, t, verdict) in or {
        let (x, y) = (above_from("x", &CROSSING, t), above_from("y", &CROSSING, t));
        assert_eq!(Some(verdict), x.zip(y).map(|(x, y)| x || y));
    }
    let eager = listed(&monitor(
        EagerAnd::new(straight("x"), straight("y"), None, None),
        &CROSSING,
    ));
    for (_, t, verdict) in eager {
        let x = above_from("x", &CROSSING, t);
        let y = above_from("y", &CROSSING, t);
        assert!(x.zip(y).map(|(x, y)| x && y) == Some(verdict)
            || (!verdict && (x == Some(false) || y == Some(false))));
    }
}

/// What until says of straight signals is true of them: there is a witness or there is none.
#[test]
fn until_is_true_of_straight_signals() {
    let window = TimeInterval { start: 1, end: 3 };
    let witness = |t: Time| -> bool {
        (t + 1..=t + 3).any(|u| {
            above_from("x", &CROSSING, u) == Some(true)
                && (t..=u).all(|s| above_from("y", &CROSSING, s) == Some(true))
        })
    };
    let delayed = listed(&monitor(
        DelayedUntil::new(window, straight("y"), straight("x"), None, None),
        &CROSSING,
    ));
    assert!(delayed.iter().any(|entry| entry.2) && delayed.iter().any(|entry| !entry.2));
    for (_, t, verdict) in delayed {
        assert_eq!(verdict, witness(t));
    }
    let eager = listed(&monitor(
        EagerUntil::new(window, straight("y"), straight("x"), None, None),
        &CROSSING,
    ));
    for (_, t, verdict) in eager {
        if t + 3 <= 8 {
            assert_eq!(verdict, witness(t));
        }
    }
}

/// A crossing that is rounded down is reported before the signal is there.
#[test]
fn rounded_crossing_blurs_its_nanosecond() {
    let predicate = Atomic::<i64, bool>::new_greater_than("x", 1);
    let emitted = monitor(
        predicate.with_interpolation(SignalInterpolation::Linear),
        &[("x", 0, 0), ("x", 4, 5)],
    );
    assert_eq!(emitted, vec![vec![(0, false)], vec![(1, true), (5, true)]]);
}
