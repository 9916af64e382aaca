//! Deciding early, and starting over.

use mstlo::atomic_operators::Atomic;
use mstlo::binary_operators::{
    clamp_to_known, joint_frontier, settle_eager_watermark, within, And, Or,
};
use mstlo::operator::StlOperatorAndSignalIdentifier;
use mstlo::ring_buffer::{RingBuffer, Step};
use mstlo::semantics::{Robustness, RobustnessInterval};
use mstlo::synchronizer::SignalInterpolation;
use mstlo::time::{Time, TimeInterval};
use mstlo::until_operator::{enqueue_eval, Until};
use mstlo::variables::Variables;

type Truth = Atomic<i64, bool>;
type EagerAnd = And<i64, RingBuffer<bool>, bool, true, false>;
type EagerOr = Or<i64, RingBuffer<bool>, bool, true, false>;
type EagerUntil = Until<i64, RingBuffer<bool>, bool, true, false>;
type DelayedUntil = Until<i64, RingBuffer<bool>, bool, false, false>;

fn above(signal: &'static str, c: i64) -> Box<Truth> {
    Box::new(Truth::new_greater_than(signal, c))
}

fn feed<Y: Copy>(
    operator: &mut dyn StlOperatorAndSignalIdentifier<i64, Y>,
    signal: &'static str,
    value: i64,
    t: Time,
) -> Vec<(Time, Y)> {
    operator
        .update(&Step::new(signal, value, t))
        .iter()
        .map(|step| (step.timestamp, step.value))
        .collect()
}

#[test]
fn frontiers() {
    assert_eq!(joint_frontier(Some(3), Some(5)), Some(3));
    assert_eq!(joint_frontier(None, Some(5)), None);
    assert_eq!(clamp_to_known(Some(7), Some(4)), Some(4));
    assert_eq!(clamp_to_known(Some(7), None), Some(7));
    assert_eq!(clamp_to_known(None, Some(4)), None);
    assert!(within(Some(4), 4) && !within(Some(4), 5) && !within(None, 0));
}

#[test]
fn watermark_stops_at_the_joint_frontier() {
    let output = vec![
        Step::new("output", false, 3),
        Step::new("output", false, 5),
        Step::new("output", false, 8),
    ];
    let mut mark = Some(1);
    let mut ahead: Vec<Time> = vec![5, 9];
    settle_eager_watermark(&output, Some(5), &mut mark, &mut ahead);
    assert_eq!(mark, Some(5));
    assert_eq!(ahead, vec![9, 8]);
    settle_eager_watermark(&Vec::<Step<bool>>::new(), None, &mut mark, &mut ahead);
    assert_eq!((mark, ahead), (Some(5), vec![9, 8]));
}

/// One false operand decides a conjunction ahead of the other one, a true one does not. What
/// was decided is not said twice, and what was left out in between is still answered.
#[test]
fn conjunction_short_circuits_on_false() {
    let mut and = EagerAnd::new(above("x", 0), above("y", 0), None, None);
    and.get_signal_identifiers();
    assert_eq!(feed(&mut and, "x", -1, 10), vec![(10, false)]);
    assert_eq!(and.known_through(), Some(0));
    assert_eq!(feed(&mut and, "x", 1, 20), vec![]);
    assert_eq!(feed(&mut and, "y", 1, 5), vec![]);
    assert_eq!(feed(&mut and, "y", 1, 15), vec![(15, false)]);
    assert_eq!(and.known_through(), Some(15));
    assert_eq!(feed(&mut and, "y", 1, 25), vec![(20, true)]);
    assert_eq!(and.known_through(), Some(20));
}

#[test]
fn disjunction_short_circuits_on_true() {
    let mut or = EagerOr::new(above("x", 0), above("y", 0), None, None);
    or.get_signal_identifiers();
    assert_eq!(feed(&mut or, "x", 1, 10), vec![(10, true)]);
    assert_eq!(feed(&mut or, "x", -1, 20), vec![]);
    assert_eq!(feed(&mut or, "y", -1, 0), vec![]);
    assert_eq!(feed(&mut or, "y", -1, 30), vec![(20, false)]);
}

#[test]
fn delayed_output_has_no_gaps_to_report() {
    let mut and: And<i64, RingBuffer<bool>, bool, false, false> =
        And::new(above("x", 0), above("y", 0), None, None);
    and.get_signal_identifiers();
    assert_eq!(feed(&mut and, "x", -1, 10), vec![]);
    assert_eq!(and.known_through(), None);
    assert_eq!(feed(&mut and, "y", 1, 10), vec![(10, false)]);
}

/// A witness decides the window at once; a phi that dies before one can come does too.
#[test]
fn until_is_decided_early() {
    let interval = TimeInterval { start: 0, end: 100 };
    let mut until = EagerUntil::new(interval, above("x", 0), above("y", 0), None, None);
    until.get_signal_identifiers();
    assert_eq!(feed(&mut until, "x", 1, 0), vec![]);
    assert_eq!(feed(&mut until, "y", -1, 0), vec![]);
    assert_eq!(feed(&mut until, "x", 1, 10), vec![]);
    assert_eq!(feed(&mut until, "y", 1, 10), vec![(0, true), (10, true)]);
    assert_eq!(until.known_through(), Some(10));
    assert_eq!(feed(&mut until, "y", -1, 20), vec![]);
    assert_eq!(feed(&mut until, "x", -1, 20), vec![(20, false)]);
}

#[test]
fn until_looks_ahead_past_its_operands() {
    let interval = TimeInterval { start: 2, end: 5 };
    let inner = DelayedUntil::new(interval, above("x", 0), above("y", 0), None, None);
    assert_eq!(inner.get_max_lookahead(), 5);
    let outer = DelayedUntil::new(
        TimeInterval { start: 0, end: 10 },
        Box::new(inner),
        above("y", 0),
        None,
        None,
    );
    assert_eq!(outer.get_max_lookahead(), 15);
}

#[test]
fn tasks_are_queued_in_order_and_once() {
    let mut tasks: Vec<Time> = Vec::new();
    for t in [5, 3, 9, 3, 5, 4] {
        enqueue_eval(&mut tasks, t);
    }
    assert_eq!(tasks, vec![3, 4, 5, 9]);
}

/// Verdicts over an open window are refined until it is covered.
#[test]
fn until_is_refined() {
    let interval = TimeInterval { start: 0, end: 10 };
    let mut until: Until<i64, RingBuffer<RobustnessInterval>, RobustnessInterval, false, true> =
        Until::new(
            interval,
            Box::new(Atomic::<i64, RobustnessInterval>::new_greater_than("x", 0)),
            Box::new(Atomic::<i64, RobustnessInterval>::new_greater_than("x", 5)),
            None,
            None,
        );
    until.get_signal_identifiers();
    let finite = Robustness::Finite;
    assert_eq!(
        feed(&mut until, "x", 2, 0),
        vec![(0, RobustnessInterval(finite(-3), Robustness::Infinity))]
    );
    assert_eq!(
        feed(&mut until, "x", 9, 4),
        vec![
            (0, RobustnessInterval(finite(2), Robustness::Infinity)),
            (4, RobustnessInterval(finite(4), Robustness::Infinity)),
        ]
    );
    assert_eq!(
        feed(&mut until, "x", 1, 10)[0],
        (0, RobustnessInterval(finite(2), finite(2)))
    );
}

/// After a reset a trace is monitored as if it were the first one.
#[test]
fn reset_starts_over() {
    let trace = [("x", 1, 0), ("y", -1, 0), ("x", 1, 10), ("y", 1, 10), ("x", -1, 20), ("y", 1, 25)];
    let interval = TimeInterval { start: 0, end: 10 };
    let mut until = EagerUntil::new(
        interval,
        Box::new(EagerAnd::new(above("x", 0), above("x", -5), None, None)),
        Box::new(EagerOr::new(above("y", 0), above("y", 5), None, None)),
        None,
        None,
    );
    until.get_signal_identifiers();
    let mut runs = Vec::new();
    for _ in 0..2 {
        let mut verdicts = Vec::new();
        for (signal, value, t) in trace {
            verdicts.extend(feed(&mut until, signal, value, t));
        }
        runs.push(verdicts);
        until.reset();
    }
    assert!(!runs[0].is_empty());
    assert_eq!(runs[0], runs[1]);
}

#[test]
fn reset_forgets_a_withheld_verdict() {
    let mut atomic = Truth::new_greater_than("x", 4).with_interpolation(SignalInterpolation::Linear);
    assert_eq!(feed(&mut atomic, "x", 4, 0), vec![]);
    atomic.reset();
    assert_eq!(feed(&mut atomic, "x", 8, 10), vec![(10, true)]);
    assert_eq!(feed(&mut atomic, "x", 4, 20), vec![]);
    assert_eq!(feed(&mut atomic, "x", 0, 30), vec![(20, false), (30, false)]);
}

/// Binding reaches every predicate of a formula, and what is missing is named.
#[test]
fn variables_are_bound_throughout_a_formula() {
    let mut and = EagerAnd::new(
        Box::new(Truth::new_greater_than_var("x", "A", Variables::new())),
        Box::new(Truth::new_less_than_var("y", "B", Variables::new())),
        None,
        None,
    );
    and.get_signal_identifiers();
    let x = Step::new("x", 3, 0);
    let y = Step::new("y", 3, 0);
    assert_eq!(and.missing_variable(&x), Some("A"));
    assert_eq!(and.missing_variable(&y), Some("B"));
    assert_eq!(and.missing_variable(&Step::new("z", 3, 0)), None);
    let mut vars = Variables::new();
    vars.set("A", 1);
    vars.set("B", 5);
    and.bind(&vars);
    assert_eq!(and.missing_variable(&x), None);
    assert_eq!(feed(&mut and, "x", 3, 0), vec![]);
    assert_eq!(feed(&mut and, "y", 3, 0), vec![(0, true)]);
    let mut text = String::new();
    and.push_text(&mut text);
    assert_eq!(text, "(x > $A) ∧ (y < $B)");
}
