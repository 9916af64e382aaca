use mstlo::atomic_operators::Atomic;
use mstlo::binary_operators::{And, Or};
use mstlo::operator::StlOperatorAndSignalIdentifier;
use mstlo::ring_buffer::{RingBuffer, Step};
use mstlo::semantics::{AtomicSemantics, RobustnessSemantics, SignalValue};
use mstlo::text::Text;
use mstlo::time::{Time, TimeInterval};
use mstlo::until_operator::Until;
use mstlo::variables::Variables;
use std::collections::HashSet;

/// A real number, as a sample and as a robustness value.
#[derive(Debug, Clone, Copy, PartialEq)]
struct Real(f64);

impl RobustnessSemantics for Real {
    fn and_spec(l: Real, r: Real) -> Real {
        Real::and(l, r)
    }
    fn or_spec(l: Real, r: Real) -> Real {
        Real::or(l, r)
    }
    fn true_spec() -> Real {
        Real::atomic_true()
    }
    fn false_spec() -> Real {
        Real::atomic_false()
    }
    fn unknown_spec() -> Real {
        Real::unknown()
    }
    fn final_spec(v: Real) -> bool {
        v.is_final()
    }
    fn same_spec(a: Real, b: Real) -> bool {
        a.same(&b)
    }
    fn and(l: Real, r: Real) -> Real {
        Real(l.0.min(r.0))
    }
    fn or(l: Real, r: Real) -> Real {
        Real(l.0.max(r.0))
    }
    fn atomic_true() -> Real {
        Real(f64::INFINITY)
    }
    fn atomic_false() -> Real {
        Real(f64::NEG_INFINITY)
    }
    fn unknown() -> Real {
        Real(f64::NEG_INFINITY)
    }
    fn is_final(&self) -> bool {
        true
    }
    fn same(&self, other: &Real) -> bool {
        self == other
    }
}

impl SignalValue for Real {
    fn greater_spec(a: Real, b: Real) -> bool {
        Real::greater(a, b)
    }
    fn equal_spec(a: Real, b: Real) -> bool {
        Real::equal(a, b)
    }
    fn offset_spec(span: Time, v0: Real, v1: Real, c: Real) -> Option<Time> {
        Real::crossing_offset(span, v0, v1, c)
    }
    fn text_spec(_: Real) -> Text {
        unreachable!("only contracts speak of it")
    }
    fn greater(a: Real, b: Real) -> bool {
        a.0 > b.0
    }
    fn equal(a: Real, b: Real) -> bool {
        a.0 == b.0
    }
    fn crossing_offset(span: Time, v0: Real, v1: Real, c: Real) -> Option<Time> {
        let alpha = (c.0 - v0.0) / (v1.0 - v0.0);
        if !alpha.is_finite() {
            return None;
        }
        let nanos = 1_000_000_000;
        let span = std::time::Duration::new((span / nanos) as u64, (span % nanos) as u32);
        let seconds = span.as_secs_f64() * alpha.clamp(0.0, 1.0);
        std::time::Duration::try_from_secs_f64(seconds)
            .ok()
            .map(|offset| offset.as_nanos())
    }
    fn push_text(&self, text: &mut String) {
        text.push_str(&format!("{}", self.0));
    }
}

impl AtomicSemantics<Real> for Real {
    fn greater_than_spec(value: Real, c: Real) -> Real {
        Real::atomic_greater_than(value, c)
    }
    fn less_than_spec(value: Real, c: Real) -> Real {
        Real::atomic_less_than(value, c)
    }
    fn atomic_greater_than(value: Real, c: Real) -> Real {
        Real(value.0 - c.0)
    }
    fn atomic_less_than(value: Real, c: Real) -> Real {
        Real(c.0 - value.0)
    }
}

type Quantitative = Atomic<Real, Real>;
type Qualitative = Atomic<Real, bool>;
type DelayedAnd = And<Real, RingBuffer<Real>, Real, false, false>;
type DelayedOr = Or<Real, RingBuffer<Real>, Real, false, false>;
type DelayedUntil = Until<Real, RingBuffer<bool>, bool, false, false>;
type QuantitativeUntil = Until<Real, RingBuffer<Real>, Real, false, false>;

fn secs(t: u64) -> Time {
    u128::from(t) * 1_000_000_000
}

fn interval(start: u64, end: u64) -> TimeInterval {
    TimeInterval {
        start: secs(start),
        end: secs(end),
    }
}

fn sample(signal: &'static str, value: f64, t: u64) -> Step<Real> {
    Step::new(signal, Real(value), secs(t))
}

fn shown<Y>(operator: &dyn StlOperatorAndSignalIdentifier<Real, Y>) -> String {
    let mut text = String::new();
    operator.push_text(&mut text);
    text
}

/// Feeds a sample, refusing one that needs a variable that is not bound.
fn feed<Y>(
    operator: &mut dyn StlOperatorAndSignalIdentifier<Real, Y>,
    step: &Step<Real>,
) -> Vec<Step<Y>> {
    if let Some(name) = operator.missing_variable(step) {
        panic!("Variable '{}' not found in context", name);
    }
    operator.update(step)
}

// ── Atomic ──────────────────────────────────────────────────────────────────

#[test]
fn atomic_unexisting_identifier() {
    let mut atomic = Quantitative::new_greater_than("x", Real(10.0));
    atomic.get_signal_identifiers();
    let robustness = atomic.update(&sample("y", 15.0, 5));
    assert!(robustness.is_empty());
}

#[test]
#[should_panic(expected = "Variable 'A' not found in context")]
fn atomics_gt_variables_not_in_context() {
    let mut atomic = Quantitative::new_greater_than_var("x", "A", Variables::new());
    atomic.get_signal_identifiers();
    feed(&mut atomic, &sample("x", 15.0, 5));
}

#[test]
#[should_panic(expected = "Variable 'A' not found in context")]
fn atomics_lt_variables_not_in_context() {
    let mut atomic = Quantitative::new_less_than_var("x", "A", Variables::new());
    atomic.get_signal_identifiers();
    feed(&mut atomic, &sample("x", 15.0, 5));
}

#[test]
fn atomic_greater_than_robustness() {
    let mut atomic = Quantitative::new_greater_than("x", Real(10.0));
    atomic.get_signal_identifiers();
    assert_eq!(
        atomic.update(&sample("x", 15.0, 5)),
        vec![sample("output", 5.0, 5)]
    );
    assert_eq!(
        atomic.update(&sample("x", 8.0, 6)),
        vec![sample("output", -2.0, 6)]
    );
}

#[test]
fn atomic_less_than_robustness() {
    let mut atomic = Quantitative::new_less_than("x", Real(10.0));
    atomic.get_signal_identifiers();
    assert_eq!(
        atomic.update(&sample("x", 5.0, 5)),
        vec![sample("output", 5.0, 5)]
    );
    assert_eq!(
        atomic.update(&sample("x", 12.0, 6)),
        vec![sample("output", -2.0, 6)]
    );
}

#[test]
fn atomic_true_robustness() {
    let mut atomic = Quantitative::new_true();
    atomic.get_signal_identifiers();
    assert_eq!(
        atomic.update(&sample("x", 0.0, 5)),
        vec![sample("output", f64::INFINITY, 5)]
    );
}

#[test]
fn atomic_false_robustness() {
    let mut atomic = Quantitative::new_false();
    atomic.get_signal_identifiers();
    assert_eq!(
        atomic.update(&sample("x", 0.0, 5)),
        vec![sample("output", f64::NEG_INFINITY, 5)]
    );
}

#[test]
fn atomic_with_variables_robustness() {
    let mut vars = Variables::new();
    vars.set("A", Real(10.0));
    let mut atomic = Quantitative::new_greater_than_var("x", "A", vars);
    atomic.get_signal_identifiers();
    assert_eq!(
        feed(&mut atomic, &sample("x", 15.0, 5)),
        vec![sample("output", 5.0, 5)]
    );

    let mut vars = Variables::new();
    vars.set("A", Real(10.0));
    let mut atomic = Quantitative::new_less_than_var("x", "A", vars);
    atomic.get_signal_identifiers();
    assert_eq!(
        feed(&mut atomic, &sample("x", 15.0, 5)),
        vec![sample("output", -5.0, 5)]
    );
}

#[test]
fn atomic_signal_identifiers() {
    let mut atomic_gt = Quantitative::new_greater_than("x", Real(10.0));
    let ids_gt = atomic_gt.get_signal_identifiers();
    assert_eq!(ids_gt.len(), 1);
    assert!(ids_gt.contains(&"x"));
    let mut atomic_lt = Quantitative::new_less_than("y", Real(5.0));
    let ids_lt = atomic_lt.get_signal_identifiers();
    assert_eq!(ids_lt.len(), 1);
    assert!(ids_lt.contains(&"y"));
    let mut atomic_true = Quantitative::new_true();
    assert_eq!(atomic_true.get_signal_identifiers().len(), 0);
    let mut atomic_false = Quantitative::new_false();
    assert_eq!(atomic_false.get_signal_identifiers().len(), 0);
}

#[test]
fn atomic_display() {
    let atomic_gt = Quantitative::new_greater_than("x", Real(10.0));
    assert_eq!(shown(&atomic_gt), "x > 10");
    let atomic_lt = Quantitative::new_less_than("y", Real(5.0));
    assert_eq!(shown(&atomic_lt), "y < 5");
    let atomic_gt_var = Quantitative::new_greater_than_var("x", "A", Variables::new());
    assert_eq!(shown(&atomic_gt_var), "x > $A");
    let atomic_lt_var = Quantitative::new_less_than_var("y", "B", Variables::new());
    assert_eq!(shown(&atomic_lt_var), "y < $B");
    assert_eq!(shown(&Quantitative::new_true()), "True");
    assert_eq!(shown(&Quantitative::new_false()), "False");
}

// ── Conjunction and disjunction ─────────────────────────────────────────────

fn gt(signal: &'static str, c: f64) -> Box<Quantitative> {
    Box::new(Quantitative::new_greater_than(signal, Real(c)))
}

fn lt(signal: &'static str, c: f64) -> Box<Quantitative> {
    Box::new(Quantitative::new_less_than(signal, Real(c)))
}

#[test]
fn test_binary_display() {
    let and = DelayedAnd::new(gt("x", 10.0), lt("y", 5.0), None, None);
    let or = DelayedOr::new(gt("x", 10.0), lt("y", 5.0), None, None);

    assert_eq!(shown(&and), "(x > 10) ∧ (y < 5)");
    assert_eq!(shown(&or), "(x > 10) v (y < 5)");
}

#[test]
fn test_update_wrong_signal() {
    let mut and = DelayedAnd::new(gt("x", 10.0), lt("y", 5.0), None, None);
    and.get_signal_identifiers();
    assert_eq!(and.update(&sample("z", 15.0, 5)).len(), 0);

    let mut or = DelayedOr::new(gt("x", 10.0), lt("y", 5.0), None, None);
    or.get_signal_identifiers();
    assert_eq!(or.update(&sample("z", 15.0, 5)).len(), 0);
}

#[test]
fn and_operator_robustness_delayed() {
    let mut and = DelayedAnd::new(gt("x", 10.0), lt("x", 20.0), None, None);
    and.get_signal_identifiers();
    assert_eq!(
        and.update(&sample("x", 15.0, 5)),
        vec![sample("output", 5.0, 5)]
    );
}

#[test]
fn or_operator_robustness_delayed() {
    let mut or = DelayedOr::new(gt("x", 10.0), lt("x", 5.0), None, None);
    or.get_signal_identifiers();
    assert_eq!(
        or.update(&sample("x", 15.0, 5)),
        vec![sample("output", 5.0, 5)]
    );
}

#[test]
fn binary_operators_total_size_includes_children() {
    let child_sum = gt("x", 10.0).total_size() + lt("y", 5.0).total_size();
    let and = DelayedAnd::new(gt("x", 10.0), lt("y", 5.0), None, None);
    assert!(and.total_size() >= child_sum + std::mem::size_of_val(&and));
}

#[test]
fn total_size_or_includes_children() {
    let child_sum = gt("x", 10.0).total_size() + lt("y", 5.0).total_size();
    let or = DelayedOr::new(gt("x", 10.0), lt("y", 5.0), None, None);
    assert!(or.total_size() >= child_sum + std::mem::size_of_val(&or));
}

#[test]
fn total_size_grows_after_update() {
    let mut and = DelayedAnd::new(gt("x", 10.0), lt("x", 20.0), None, None);
    and.get_signal_identifiers();
    let before = and.total_size();
    and.update(&sample("x", 15.0, 5));
    assert!(and.total_size() >= before + std::mem::size_of::<Step<Real>>());
}

#[test]
fn binary_operators_signal_identifiers() {
    let mut and = DelayedAnd::new(gt("x", 10.0), lt("y", 5.0), None, None);
    let ids: HashSet<&'static str> = and.get_signal_identifiers().into_iter().collect();
    let expected: HashSet<&'static str> = ["x", "y"].iter().cloned().collect();
    assert_eq!(ids, expected);
}

// ── Until ───────────────────────────────────────────────────────────────────

fn above(signal: &'static str, c: f64) -> Box<Qualitative> {
    Box::new(Qualitative::new_greater_than(signal, Real(c)))
}

fn below(signal: &'static str, c: f64) -> Box<Qualitative> {
    Box::new(Qualitative::new_less_than(signal, Real(c)))
}

#[test]
fn until_operator_robustness() {
    let mut until = DelayedUntil::new(interval(0, 4), below("x", 10.0), above("x", 5.0), None, None);
    until.get_signal_identifiers();
    let mut all_outputs = Vec::new();
    for (value, t) in [(2.0, 0), (2.0, 2), (2.0, 4), (6.0, 6), (12.0, 8)] {
        all_outputs.extend(until.update(&sample("x", value, t)));
    }
    assert_eq!(
        all_outputs,
        vec![
            Step::new("output", false, secs(0)),
            Step::new("output", true, secs(2)),
            Step::new("output", true, secs(4)),
        ]
    );
}

#[test]
fn until_operator_robustness_nonzero_lowbound() {
    let mut until = DelayedUntil::new(interval(3, 4), below("x", 10.0), above("x", 5.0), None, None);
    until.get_signal_identifiers();
    let mut all_outputs = Vec::new();
    for (value, t) in [(2.0, 0), (6.0, 2), (2.0, 3), (2.0, 4), (6.0, 6), (12.0, 8)] {
        all_outputs.extend(until.update(&sample("x", value, t)));
    }
    assert_eq!(
        all_outputs,
        vec![
            // x > 5 in [3, 4], which it is not.
            Step::new("output", false, secs(0)),
            // t = 1 is the breakpoint at 4s shifted by the lower bound. x holds at 2 over
            // its window [4, 5].
            Step::new("output", false, secs(1)),
            Step::new("output", true, secs(2)),
            Step::new("output", true, secs(3)),
            Step::new("output", true, secs(4)),
        ]
    );
}

/// A window must not be finalized while psi is still behind.
///
/// `x > 0` holds throughout and `y > 5` becomes true at 1s, inside the window `[0, 2]`
/// of the evaluation at 0s. The answer at 0s must wait for `y` to cover the window,
/// and then be `true`.
#[test]
fn until_does_not_finalize_before_psi_frontier_covers_the_window() {
    let mut until = DelayedUntil::new(interval(0, 2), above("x", 0.0), above("y", 5.0), None, None);
    until.get_signal_identifiers();

    let at_zero = |outputs: &[Step<bool>]| {
        outputs
            .iter()
            .find(|s| s.timestamp == secs(0))
            .map(|s| s.value)
    };

    let mut all_outputs = Vec::new();
    // `x` runs ahead to 3s while `y` is still at 0s.
    for step in [
        sample("x", 1.0, 0),
        sample("y", 0.0, 0),
        sample("x", 1.0, 3),
        sample("y", 10.0, 1),
    ] {
        all_outputs.extend(until.update(&step));
    }

    // `y` has only reached 1s, short of the window end at 2s, so 0s is undecided.
    assert_eq!(
        at_zero(&all_outputs),
        None,
        "0s was finalized while psi only reached 1s; got {all_outputs:?}"
    );

    // `y` now covers the window end, so the window closes.
    all_outputs.extend(until.update(&sample("y", 10.0, 5)));
    assert_eq!(
        at_zero(&all_outputs),
        Some(true),
        "psi becomes true at 1s, inside the window [0, 2]; got {all_outputs:?}"
    );
}

#[test]
fn until_signal_identifiers() {
    let mut until = DelayedUntil::new(interval(0, 4), above("x", 5.0), below("y", 10.0), None, None);
    let ids: HashSet<&'static str> = until.get_signal_identifiers().into_iter().collect();
    let expected_ids: HashSet<&'static str> = vec!["x", "y"].into_iter().collect();
    assert_eq!(ids, expected_ids);
}

#[test]
fn until_operator_total_size_includes_children() {
    let child_sum = gt("x", 5.0).total_size() + lt("y", 10.0).total_size();
    let until = QuantitativeUntil::new(interval(0, 4), gt("x", 5.0), lt("y", 10.0), None, None);
    assert!(until.total_size() >= child_sum + std::mem::size_of_val(&until));
}

#[test]
fn total_size_after_data() {
    let mut until = QuantitativeUntil::new(interval(0, 4), gt("x", 5.0), lt("x", 10.0), None, None);
    until.get_signal_identifiers();
    let before = until.total_size();
    until.update(&sample("x", 7.0, 0));
    assert!(until.total_size() >= before + std::mem::size_of::<Step<Real>>());
}

#[test]
fn until_display() {
    let until = QuantitativeUntil::new(interval(1, 5), gt("x", 0.0), lt("y", 10.0), None, None);
    assert_eq!(shown(&until), "(x > 0) U[1, 5] (y < 10)");
}
