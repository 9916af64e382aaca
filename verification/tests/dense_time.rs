//! Formulas monitored over whole traces, under all four semantics.
//!
//! A sample at `ts` holds its value over `[ts, next_ts)`. `F[a,b] phi` is written `true U[a,b] phi`.

use mstlo::atomic_operators::Atomic;
use mstlo::binary_operators::{And, Or};
use mstlo::operator::StlOperatorAndSignalIdentifier;
use mstlo::ring_buffer::{RingBuffer, Step};
use mstlo::semantics::{AtomicSemantics, RobustnessSemantics, SignalValue};
use mstlo::synchronizer::{Interpolatable, SignalInterpolation, Synchronizer};
use mstlo::text::Text;
use mstlo::time::{Time, TimeInterval};
use mstlo::until_operator::Until;
use std::collections::{BTreeMap, HashMap, HashSet};
use std::ops::{Add, Sub};

/// A real number, as a sample and as a robustness value.
#[derive(Debug, Clone, Copy, PartialEq)]
struct Real(f64);

impl RobustnessSemantics for Real {
    fn and_spec(l: Real, r: Real) -> Real {
        Real::and(l, r)
    }
    fn or_spec(l: Real, r: Real) -> Real {
        Real::or(l, r)
    }
    fn true_spec() -> Real {
        Real::atomic_true()
    }
    fn false_spec() -> Real {
        Real::atomic_false()
    }
    fn unknown_spec() -> Real {
        Real::unknown()
    }
    fn final_spec(v: Real) -> bool {
        v.is_final()
    }
    fn same_spec(a: Real, b: Real) -> bool {
        a.same(&b)
    }
    fn and(l: Real, r: Real) -> Real {
        Real(l.0.min(r.0))
    }
    fn or(l: Real, r: Real) -> Real {
        Real(l.0.max(r.0))
    }
    fn atomic_true() -> Real {
        Real(f64::INFINITY)
    }
    fn atomic_false() -> Real {
        Real(f64::NEG_INFINITY)
    }
    fn unknown() -> Real {
        Real(f64::NEG_INFINITY)
    }
    fn is_final(&self) -> bool {
        true
    }
    fn same(&self, other: &Real) -> bool {
        self == other
    }
}

impl SignalValue for Real {
    fn greater_spec(a: Real, b: Real) -> bool {
        Real::greater(a, b)
    }
    fn equal_spec(a: Real, b: Real) -> bool {
        Real::equal(a, b)
    }
    fn offset_spec(span: Time, v0: Real, v1: Real, c: Real) -> Option<Time> {
        Real::crossing_offset(span, v0, v1, c)
    }
    fn text_spec(_: Real) -> Text {
        unreachable!("only contracts speak of it")
    }
    fn greater(a: Real, b: Real) -> bool {
        a.0 > b.0
    }
    fn equal(a: Real, b: Real) -> bool {
        a.0 == b.0
    }
    fn crossing_offset(span: Time, v0: Real, v1: Real, c: Real) -> Option<Time> {
        let alpha = (c.0 - v0.0) / (v1.0 - v0.0);
        if !alpha.is_finite() {
            return None;
        }
        let nanos = 1_000_000_000;
        let span = std::time::Duration::new((span / nanos) as u64, (span % nanos) as u32);
        let seconds = span.as_secs_f64() * alpha.clamp(0.0, 1.0);
        std::time::Duration::try_from_secs_f64(seconds)
            .ok()
            .map(|offset| offset.as_nanos())
    }
    fn push_text(&self, text: &mut String) {
        text.push_str(&format!("{}", self.0));
    }
}

impl AtomicSemantics<Real> for Real {
    fn greater_than_spec(value: Real, c: Real) -> Real {
        Real::atomic_greater_than(value, c)
    }
    fn less_than_spec(value: Real, c: Real) -> Real {
        Real::atomic_less_than(value, c)
    }
    fn atomic_greater_than(value: Real, c: Real) -> Real {
        Real(value.0 - c.0)
    }
    fn atomic_less_than(value: Real, c: Real) -> Real {
        Real(c.0 - value.0)
    }
}

/// The robustness values still possible.
#[derive(Debug, Clone, Copy, PartialEq)]
struct Interval(f64, f64);

impl RobustnessSemantics for Interval {
    fn and_spec(l: Interval, r: Interval) -> Interval {
        Interval::and(l, r)
    }
    fn or_spec(l: Interval, r: Interval) -> Interval {
        Interval::or(l, r)
    }
    fn true_spec() -> Interval {
        Interval::atomic_true()
    }
    fn false_spec() -> Interval {
        Interval::atomic_false()
    }
    fn unknown_spec() -> Interval {
        Interval::unknown()
    }
    fn final_spec(v: Interval) -> bool {
        v.is_final()
    }
    fn same_spec(a: Interval, b: Interval) -> bool {
        a.same(&b)
    }
    fn and(l: Interval, r: Interval) -> Interval {
        Interval(l.0.min(r.0), l.1.min(r.1))
    }
    fn or(l: Interval, r: Interval) -> Interval {
        Interval(l.0.max(r.0), l.1.max(r.1))
    }
    fn atomic_true() -> Interval {
        Interval(f64::INFINITY, f64::INFINITY)
    }
    fn atomic_false() -> Interval {
        Interval(f64::NEG_INFINITY, f64::NEG_INFINITY)
    }
    fn unknown() -> Interval {
        Interval(f64::NEG_INFINITY, f64::INFINITY)
    }
    fn is_final(&self) -> bool {
        self.0 == self.1
    }
    fn same(&self, other: &Interval) -> bool {
        self == other
    }
}

impl AtomicSemantics<Real> for Interval {
    fn greater_than_spec(value: Real, c: Real) -> Interval {
        Interval::atomic_greater_than(value, c)
    }
    fn less_than_spec(value: Real, c: Real) -> Interval {
        Interval::atomic_less_than(value, c)
    }
    fn atomic_greater_than(value: Real, c: Real) -> Interval {
        Interval(value.0 - c.0, value.0 - c.0)
    }
    fn atomic_less_than(value: Real, c: Real) -> Interval {
        Interval(c.0 - value.0, c.0 - value.0)
    }
}

impl Add for Real {
    type Output = Real;
    fn add(self, other: Real) -> Real {
        Real(self.0 + other.0)
    }
}

impl Sub for Real {
    type Output = Real;
    fn sub(self, other: Real) -> Real {
        Real(self.0 - other.0)
    }
}

impl Interpolatable for Real {
    fn zero_spec() -> Real {
        Real(0.0)
    }
    fn zero() -> Real {
        Real(0.0)
    }
}

// ── Formulas ────────────────────────────────────────────────────────────────

#[derive(Debug, Clone)]
enum Formula {
    True,
    Gt(&'static str, f64),
    Lt(&'static str, f64),
    And(Box<Formula>, Box<Formula>),
    Or(Box<Formula>, Box<Formula>),
    Until(f64, f64, Box<Formula>, Box<Formula>),
}

fn gt(signal: &'static str, c: f64) -> Formula {
    Formula::Gt(signal, c)
}

fn lt(signal: &'static str, c: f64) -> Formula {
    Formula::Lt(signal, c)
}

fn and(l: Formula, r: Formula) -> Formula {
    Formula::And(Box::new(l), Box::new(r))
}

fn or(l: Formula, r: Formula) -> Formula {
    Formula::Or(Box::new(l), Box::new(r))
}

fn until(l: Formula, start: f64, end: f64, r: Formula) -> Formula {
    Formula::Until(start, end, Box::new(l), Box::new(r))
}

fn eventually(start: f64, end: f64, phi: Formula) -> Formula {
    until(Formula::True, start, end, phi)
}

type Operator<Y> = Box<dyn StlOperatorAndSignalIdentifier<Real, Y>>;

fn build<Y, const IS_EAGER: bool, const IS_ROSI: bool>(
    formula: &Formula,
    interpolation: SignalInterpolation,
) -> Operator<Y>
where
    Y: AtomicSemantics<Real> + 'static,
{
    let child = |f: &Formula| build::<Y, IS_EAGER, IS_ROSI>(f, interpolation);
    match formula {
        Formula::True => Box::new(Atomic::<Real, Y>::new_true()),
        Formula::Gt(signal, c) => Box::new(
            Atomic::<Real, Y>::new_greater_than(signal, Real(*c)).with_interpolation(interpolation),
        ),
        Formula::Lt(signal, c) => Box::new(
            Atomic::<Real, Y>::new_less_than(signal, Real(*c)).with_interpolation(interpolation),
        ),
        Formula::And(l, r) => Box::new(And::<Real, RingBuffer<Y>, Y, IS_EAGER, IS_ROSI>::new(
            child(l),
            child(r),
            None,
            None,
        )),
        Formula::Or(l, r) => Box::new(Or::<Real, RingBuffer<Y>, Y, IS_EAGER, IS_ROSI>::new(
            child(l),
            child(r),
            None,
            None,
        )),
        Formula::Until(start, end, l, r) => {
            Box::new(Until::<Real, RingBuffer<Y>, Y, IS_EAGER, IS_ROSI>::new(
                TimeInterval {
                    start: secs(*start),
                    end: secs(*end),
                },
                child(l),
                child(r),
                None,
                None,
            ))
        }
    }
}

// ── Monitoring ──────────────────────────────────────────────────────────────

fn secs(t: f64) -> Time {
    std::time::Duration::from_secs_f64(t).as_nanos()
}

fn sample(signal: &'static str, value: f64, t: f64) -> Step<Real> {
    Step::new(signal, Real(value), secs(t))
}

/// Every signal takes its own first sample from time zero on, unless there is only one.
fn initial_values(trace: &[Step<Real>]) -> Vec<(&'static str, Real)> {
    let mut initial: Vec<(&'static str, Real)> = Vec::new();
    for step in trace {
        if !initial.iter().any(|(signal, _)| *signal == step.signal) {
            initial.push((step.signal, step.value));
        }
    }
    initial
}

/// What each sample of the trace makes available.
fn monitor_with<Y>(
    mut operator: Operator<Y>,
    interpolation: SignalInterpolation,
    initial: Vec<(&'static str, Real)>,
    trace: &[Step<Real>],
) -> Vec<Vec<Step<Y>>> {
    let mut synchronizer = Synchronizer::new(interpolation);
    if operator.get_signal_identifiers().len() > 1 {
        synchronizer.set_initial_values(initial);
    }
    let mut outputs = Vec::new();
    for step in trace {
        assert_eq!(synchronizer.evaluate(*step), Ok(()));
        let mut verdicts = Vec::new();
        while let Some(admitted) = synchronizer.pending.pop_front() {
            verdicts.extend(operator.update(&admitted));
        }
        outputs.push(verdicts);
    }
    outputs
}

fn monitor<Y, const IS_EAGER: bool, const IS_ROSI: bool>(
    formula: &Formula,
    trace: &[Step<Real>],
) -> Vec<Vec<Step<Y>>>
where
    Y: AtomicSemantics<Real> + 'static,
{
    let hold = SignalInterpolation::ZeroOrderHold;
    monitor_with(
        build::<Y, IS_EAGER, IS_ROSI>(formula, hold),
        hold,
        initial_values(trace),
        trace,
    )
}

/// The last verdict emitted for `at`, with the sample it was first emitted on. Intervals are
/// refined until they are final, and may be repeated after.
fn verdict_at<Y, const IS_EAGER: bool, const IS_ROSI: bool>(
    formula: &Formula,
    trace: &[Step<Real>],
    at: Time,
) -> Option<(Step<Real>, Y)>
where
    Y: AtomicSemantics<Real> + PartialEq + 'static,
{
    let mut verdict: Option<(Step<Real>, Y)> = None;
    for (input, outputs) in trace
        .iter()
        .zip(monitor::<Y, IS_EAGER, IS_ROSI>(formula, trace))
    {
        for out in outputs {
            if out.timestamp == at
                && verdict.as_ref().map_or(true, |(_, value)| *value != out.value)
            {
                verdict = Some((*input, out.value));
            }
        }
    }
    verdict
}

/// Asserts the verdict at `at` under all four semantics: robustness `rho`, satisfied iff
/// `rho > 0`, emitted on input step `on`.
fn assert_verdict_at(formula: Formula, trace: &[Step<Real>], at: f64, rho: f64, on: &Step<Real>) {
    let at = secs(at);
    assert_eq!(
        verdict_at::<bool, false, false>(&formula, trace, at),
        Some((*on, rho > 0.0)),
        "DelayedQualitative, {formula:?}"
    );
    assert_eq!(
        verdict_at::<Real, false, false>(&formula, trace, at),
        Some((*on, Real(rho))),
        "DelayedQuantitative, {formula:?}"
    );
    assert_eq!(
        verdict_at::<bool, true, false>(&formula, trace, at),
        Some((*on, rho > 0.0)),
        "EagerQualitative, {formula:?}"
    );
    assert_eq!(
        verdict_at::<Interval, false, true>(&formula, trace, at),
        Some((*on, Interval(rho, rho))),
        "Rosi, {formula:?}"
    );
}

// ── Windows over a signal ───────────────────────────────────────────────────

fn out_of_phase_signal() -> Vec<Step<Real>> {
    vec![
        sample("x", 7.0, 0.0),
        sample("x", 4.0, 1.0),
        sample("x", 7.0, 2.0),
        sample("x", 4.0, 3.0),
    ]
}

/// No sample ever falls inside `[t+0.98, t+0.99]`; the window reads the held `x = 7`.
#[test]
fn empty_window_reads_the_held_value() {
    let signal = out_of_phase_signal();
    assert_verdict_at(
        eventually(0.98, 0.99, gt("x", 3.0)),
        &signal,
        0.0,
        4.0,
        &signal[1],
    );
}

#[test]
fn p1_empty_window_delayed_qualitative() {
    let formula = eventually(0.98, 0.99, gt("x", 3.0));
    assert_eq!(
        verdict_at::<bool, false, false>(&formula, &out_of_phase_signal(), secs(0.0)),
        Some((sample("x", 4.0, 1.0), true))
    );
}

#[test]
fn p1_empty_window_delayed_quantitative() {
    let formula = eventually(0.98, 0.99, gt("x", 3.0));
    assert_eq!(
        verdict_at::<Real, false, false>(&formula, &out_of_phase_signal(), secs(0.0)),
        Some((sample("x", 4.0, 1.0), Real(4.0)))
    );
}

#[test]
fn p1_empty_window_eager_qualitative() {
    let formula = eventually(0.98, 0.99, gt("x", 3.0));
    assert_eq!(
        verdict_at::<bool, true, false>(&formula, &out_of_phase_signal(), secs(0.0)),
        Some((sample("x", 4.0, 1.0), true))
    );
}

#[test]
fn p1_empty_window_rosi() {
    let formula = eventually(0.98, 0.99, gt("x", 3.0));
    assert_eq!(
        verdict_at::<Interval, false, true>(&formula, &out_of_phase_signal(), secs(0.0)),
        Some((sample("x", 4.0, 1.0), Interval(4.0, 4.0)))
    );
}

/// The window closes on the operand's frontier, not the input clock: `x @1s` alone cannot
/// complete the conjunction at 1s, so the verdict waits for `y @1s`.
#[test]
fn window_closes_when_the_operand_catches_up() {
    let signal = two_signals_x_then_y();
    let formula = eventually(0.0, 1.0, and(gt("x", 3.0), gt("y", 3.0)));
    assert_verdict_at(formula, &signal, 0.0, 1.0, &signal[3]);
}

fn two_signals_x_then_y() -> Vec<Step<Real>> {
    vec![
        sample("x", 1.0, 0.0),
        sample("y", 1.0, 0.0),
        sample("x", 4.0, 1.0),
        sample("y", 4.0, 1.0),
    ]
}

fn eventually_both() -> Formula {
    eventually(0.0, 1.0, and(gt("x", 3.0), gt("y", 3.0)))
}

#[test]
fn p2_premature_close_delayed_qualitative() {
    assert_eq!(
        verdict_at::<bool, false, false>(&eventually_both(), &two_signals_x_then_y(), secs(0.0)),
        Some((sample("y", 4.0, 1.0), true))
    );
}

#[test]
fn p2_premature_close_delayed_quantitative() {
    assert_eq!(
        verdict_at::<Real, false, false>(&eventually_both(), &two_signals_x_then_y(), secs(0.0)),
        Some((sample("y", 4.0, 1.0), Real(1.0)))
    );
}

#[test]
fn p2_premature_close_eager_qualitative() {
    assert_eq!(
        verdict_at::<bool, true, false>(&eventually_both(), &two_signals_x_then_y(), secs(0.0)),
        Some((sample("y", 4.0, 1.0), true))
    );
}

#[test]
fn p2_premature_close_rosi() {
    assert_eq!(
        verdict_at::<Interval, false, true>(&eventually_both(), &two_signals_x_then_y(), secs(0.0)),
        Some((sample("y", 4.0, 1.0), Interval(1.0, 1.0)))
    );
}

/// `x > 3` is true on `[0s, 1s)`, false on `[1s, 2s)`, true from 2s.
fn punctual_signal() -> Vec<Step<Real>> {
    vec![
        sample("x", 7.0, 0.0),
        sample("x", 1.0, 1.0),
        sample("x", 7.0, 2.0),
    ]
}

#[test]
fn p3_punctual_eventually_delayed_qualitative() {
    let formula = eventually(0.5, 0.5, gt("x", 3.0));
    assert_eq!(
        verdict_at::<bool, false, false>(&formula, &punctual_signal(), secs(0.0)),
        Some((sample("x", 1.0, 1.0), true))
    );
    assert_eq!(
        verdict_at::<bool, false, false>(&formula, &punctual_signal(), secs(1.0)),
        Some((sample("x", 7.0, 2.0), false))
    );
}

#[test]
fn p3_punctual_eventually_delayed_quantitative() {
    let formula = eventually(0.5, 0.5, gt("x", 3.0));
    assert_eq!(
        verdict_at::<Real, false, false>(&formula, &punctual_signal(), secs(0.0)),
        Some((sample("x", 1.0, 1.0), Real(4.0)))
    );
    assert_eq!(
        verdict_at::<Real, false, false>(&formula, &punctual_signal(), secs(1.0)),
        Some((sample("x", 7.0, 2.0), Real(-2.0)))
    );
}

#[test]
fn p3_punctual_eventually_eager_qualitative() {
    let formula = eventually(0.5, 0.5, gt("x", 3.0));
    assert_eq!(
        verdict_at::<bool, true, false>(&formula, &punctual_signal(), secs(0.0)),
        Some((sample("x", 1.0, 1.0), true))
    );
}

#[test]
fn p3_punctual_eventually_rosi() {
    let formula = eventually(0.5, 0.5, gt("x", 3.0));
    assert_eq!(
        verdict_at::<Interval, false, true>(&formula, &punctual_signal(), secs(0.0)),
        Some((sample("x", 1.0, 1.0), Interval(4.0, 4.0)))
    );
}

#[test]
fn p3_punctual_on_grid_eventually() {
    let formula = eventually(1.0, 1.0, gt("x", 3.0));
    assert_eq!(
        verdict_at::<Real, false, false>(&formula, &punctual_signal(), secs(0.0)),
        Some((sample("x", 1.0, 1.0), Real(-2.0)))
    );
}

/// `6.75s = 8.75s - 2s` is a shifted evaluation time, queued only once `x @8.75s` arrives. The
/// value in force there must not have been pruned by then.
fn late_window_signal() -> Vec<Step<Real>> {
    vec![
        sample("x", 7.0, 4.75),
        sample("x", 1.0, 7.75),
        sample("x", 1.0, 8.75),
    ]
}

#[test]
fn window_start_survives_prune_eventually_delayed_qualitative() {
    let formula = eventually(0.0, 2.0, gt("x", 3.0));
    let verdict = verdict_at::<bool, false, false>(&formula, &late_window_signal(), secs(6.75));
    assert_eq!(verdict.map(|(_, value)| value), Some(true));
}

#[test]
fn window_start_survives_prune_eventually_delayed_quantitative() {
    let formula = eventually(0.0, 2.0, gt("x", 3.0));
    let verdict = verdict_at::<Real, false, false>(&formula, &late_window_signal(), secs(6.75));
    assert_eq!(verdict.map(|(_, value)| value), Some(Real(4.0)));
}

#[test]
fn window_start_survives_prune_eventually_eager_qualitative() {
    let formula = eventually(0.0, 2.0, gt("x", 3.0));
    let verdict = verdict_at::<bool, true, false>(&formula, &late_window_signal(), secs(6.75));
    assert_eq!(verdict.map(|(_, value)| value), Some(true));
}

#[test]
fn window_start_survives_prune_eventually_rosi() {
    let formula = eventually(0.0, 2.0, gt("x", 3.0));
    let verdict = verdict_at::<Interval, false, true>(&formula, &late_window_signal(), secs(6.75));
    assert_eq!(verdict.map(|(_, value)| value), Some(Interval(4.0, 4.0)));
}

/// As above, with until itself: phi holds throughout, and psi up to the late sample.
#[test]
fn window_start_survives_pruning_under_until() {
    let signal = late_window_signal();
    assert_verdict_at(
        until(lt("x", 8.0), 0.0, 2.0, gt("x", 3.0)),
        &signal,
        6.75,
        1.0,
        &signal[2],
    );
}

// ── Several signals ─────────────────────────────────────────────────────────

/// A conjunction is known only where both signals are. The timestamps `x` reports since
/// `y @0s` wait for `y @10s`, which settles all four at once.
#[test]
fn interleaved_signals_answer_once_both_are_known() {
    let steps = [
        sample("x", 1.0, 0.0),
        sample("y", 1.0, 0.0),
        sample("x", 1.0, 2.0),
        sample("x", 1.0, 4.0),
        sample("x", 1.0, 6.0),
        sample("x", 1.0, 8.0),
        sample("y", 1.0, 10.0),
    ];
    let formula = and(gt("x", 0.0), lt("y", 150.0));
    let verdicts = monitor::<Interval, false, true>(&formula, &steps);
    let at = |update: usize, t: f64| {
        verdicts[update]
            .iter()
            .find(|verdict| verdict.timestamp == secs(t))
            .map(|verdict| verdict.value)
    };

    // Nothing past `y`'s frontier is reported before it moves, not even bounded by `x`.
    for update in 2..=5 {
        assert_eq!(at(update, 2.0), None, "update {update}");
    }
    for t in [2.0, 4.0, 6.0, 8.0] {
        assert_eq!(at(6, t), Some(Interval(1.0, 1.0)), "at {t}s");
    }
}

/// `x` on even and `y` on odd seconds: every second from 1s to 99s, where both are known, is
/// answered.
#[test]
fn conjunction_answers_every_joint_timestamp() {
    let signal: Vec<Step<Real>> = (0..101)
        .map(|i| sample(if i % 2 == 0 { "x" } else { "y" }, f64::from(i), f64::from(i)))
        .collect();
    let formula = and(gt("x", 0.0), lt("y", 150.0));
    let answered: HashSet<Time> = monitor::<Interval, false, true>(&formula, &signal)
        .into_iter()
        .flatten()
        .map(|verdict| verdict.timestamp)
        .collect();
    for t in 1..100 {
        assert!(answered.contains(&secs(f64::from(t))), "missing verdict at {t}s");
    }
}

/// Until whose operands are sampled on disjoint grids still answers.
#[test]
fn until_over_disjoint_grids_answers() {
    let mut signal = Vec::new();
    for (value, t) in [(5.0, 0.0), (3.0, 3.0), (1.0, 4.0), (-7.0, 5.0), (1.0, 7.0), (1.0, 8.0)] {
        signal.push(sample("x", value, t));
    }
    for (value, t) in [(1.0, 2.0), (8.0, 6.0), (8.0, 9.0), (10.0, 10.0)] {
        signal.push(sample("y", value, t));
    }
    signal.sort_by_key(|step| step.timestamp);
    let formula = until(gt("x", 0.0), 0.0, 4.0, gt("y", 5.0));
    let delayed: Vec<_> = monitor::<Real, false, false>(&formula, &signal)
        .into_iter()
        .flatten()
        .collect();
    let eager: Vec<_> = monitor::<bool, true, false>(&formula, &signal)
        .into_iter()
        .flatten()
        .collect();
    assert!(!delayed.is_empty(), "no delayed verdicts");
    assert!(!eager.is_empty(), "no eager verdicts");
    // The verdicts agree wherever both are given.
    for verdict in &delayed {
        let early = eager.iter().find(|e| e.timestamp == verdict.timestamp);
        if let Some(early) = early {
            assert_eq!(early.value, verdict.value.0 > 0.0, "at {}", verdict.timestamp);
        }
    }
}

// ── Linear interpolation ────────────────────────────────────────────────────

/// Latest verdict per timestamp, which is what a consumer of the stream ends up holding.
fn read_as(
    formula: &Formula,
    interpolation: SignalInterpolation,
    trace: &[Step<Real>],
) -> BTreeMap<Time, bool> {
    monitor_with(
        build::<bool, false, false>(formula, interpolation),
        interpolation,
        Vec::new(),
        trace,
    )
    .into_iter()
    .flatten()
    .map(|verdict| (verdict.timestamp, verdict.value))
    .collect()
}

fn linear(formula: &Formula, trace: &[Step<Real>]) -> BTreeMap<Time, bool> {
    read_as(formula, SignalInterpolation::Linear, trace)
}

fn zoh(formula: &Formula, trace: &[Step<Real>]) -> BTreeMap<Time, bool> {
    read_as(formula, SignalInterpolation::ZeroOrderHold, trace)
}

fn x_trace(points: &[(f64, f64)]) -> Vec<Step<Real>> {
    points.iter().map(|&(t, v)| sample("x", v, t)).collect()
}

fn expect(pairs: &[(f64, bool)]) -> BTreeMap<Time, bool> {
    pairs.iter().map(|&(t, v)| (secs(t), v)).collect()
}

#[test]
fn falling_crossing() {
    assert_eq!(
        linear(&gt("x", 4.0), &x_trace(&[(0.0, 6.0), (4.0, 2.0)])),
        expect(&[(0.0, true), (2.0, false), (4.0, false)])
    );
}

#[test]
fn rising_crossing() {
    assert_eq!(
        linear(&gt("x", 4.0), &x_trace(&[(0.0, 2.0), (4.0, 6.0)])),
        expect(&[(0.0, false), (2.0, true), (4.0, true)])
    );
}

#[test]
fn no_crossing() {
    assert_eq!(
        linear(&gt("x", 4.0), &x_trace(&[(0.0, 5.0), (4.0, 6.0)])),
        expect(&[(0.0, true), (4.0, true)])
    );
}

/// `x = 4` is not `> 4`, but the rising segment makes `[0s, 4s)` true.
#[test]
fn crossing_at_left_sample() {
    assert_eq!(
        linear(&gt("x", 4.0), &x_trace(&[(0.0, 4.0), (4.0, 8.0)])),
        expect(&[(0.0, true), (4.0, true)])
    );
}

/// Touching the threshold without exceeding it is no crossing.
#[test]
fn tangential_touch() {
    assert_eq!(
        linear(&gt("x", 4.0), &x_trace(&[(0.0, 2.0), (2.0, 4.0), (4.0, 2.0)])),
        expect(&[(0.0, false), (2.0, false), (4.0, false)])
    );
}

#[test]
fn less_than() {
    assert_eq!(
        linear(&lt("x", 4.0), &x_trace(&[(0.0, 6.0), (4.0, 2.0)])),
        expect(&[(0.0, false), (2.0, true), (4.0, true)])
    );
}

/// Control: held zero-order, the falling trace has no crossing, so the cases above pass
/// because `Linear` was selected.
#[test]
fn zero_order_hold_invents_no_crossing() {
    let verdicts = zoh(&gt("x", 4.0), &x_trace(&[(0.0, 6.0), (4.0, 2.0)]));
    assert_eq!(verdicts, expect(&[(0.0, true), (4.0, false)]));
}

/// The crossing at 2s is also queued shifted by the window bound, as 1s, so the verdict
/// flips exactly at 2s rather than at the next sample.
#[test]
fn eventually_answers_the_shifted_crossing_timestamps() {
    let trace = x_trace(&[(0.0, 6.0), (4.0, 2.0)]);
    let formula = eventually(0.0, 1.0, gt("x", 4.0));

    assert_eq!(
        linear(&formula, &trace),
        expect(&[(0.0, true), (1.0, true), (2.0, false), (3.0, false)]),
        "true while [t, t+1] still overlaps [0s, 2s), false once t reaches the crossing"
    );

    let held = zoh(&formula, &trace);
    assert!(
        held.values().all(|&v| v),
        "held zero-order the predicate never falls inside the evaluated range; got {held:?}"
    );
}

/// Each operand's crossing survives the union walk: `x` crosses at 2s and `y` at 3s, on
/// disjoint sample grids. Held zero-order, neither is a breakpoint.
#[test]
fn conjunction_walks_both_operands_crossings() {
    let trace = vec![
        sample("x", 6.0, 0.0),
        sample("y", 6.0, 1.0),
        sample("x", 2.0, 4.0),
        sample("y", 2.0, 5.0),
    ];
    let formula = and(gt("x", 4.0), gt("y", 4.0));

    let verdicts = linear(&formula, &trace);
    assert_eq!(
        verdicts.get(&secs(1.0)),
        Some(&true),
        "both operands are above the threshold once y is known at 1s; got {verdicts:?}"
    );
    assert_eq!(
        verdicts.get(&secs(2.0)),
        Some(&false),
        "x's crossing at 2s must appear even though y has no sample there; got {verdicts:?}"
    );
    assert_eq!(
        zoh(&formula, &trace).get(&secs(2.0)),
        None,
        "held zero-order, 2s is not a breakpoint of either operand"
    );
}

/// `y` crosses 4 at 2s, inside `[0, 3]`; its next sample, at 4s, is outside it.
#[test]
fn until_finds_a_witness_strictly_between_psi_samples() {
    let mut trace = vec![sample("y", 2.0, 0.0), sample("y", 6.0, 4.0)];
    trace.extend((0..=8).map(|t| sample("x", 5.0, f64::from(t))));
    trace.sort_by_key(|s| s.timestamp);
    let formula = until(gt("x", 0.0), 0.0, 3.0, gt("y", 4.0));

    assert_eq!(
        linear(&formula, &trace).get(&secs(0.0)),
        Some(&true),
        "y crosses 4 at 2s, inside [0,3]"
    );
    assert_eq!(
        zoh(&formula, &trace).get(&secs(0.0)),
        Some(&false),
        "held zero-order, y first exceeds 4 at 4s, outside [0,3]"
    );
}

// ── Refinement ──────────────────────────────────────────────────────────────

/// Intervals only ever narrow, bracket the delayed value, and have collapsed onto it by the
/// time the delayed value is given.
fn check_refinement(formula: &Formula, signal: &[Step<Real>]) {
    let intervals = monitor::<Interval, false, true>(formula, signal);
    let delayed = monitor::<Real, false, false>(formula, signal);
    let mut newest: HashMap<Time, Interval> = HashMap::new();
    let mut settled: HashMap<Time, f64> = HashMap::new();
    for (outs, finals) in intervals.iter().zip(&delayed) {
        for out in outs {
            if let Some(previous) = newest.insert(out.timestamp, out.value) {
                assert!(
                    out.value.0 >= previous.0 && out.value.1 <= previous.1,
                    "widened at {}: {previous:?} became {:?}, in {formula:?}",
                    out.timestamp,
                    out.value
                );
            }
        }
        for step in finals {
            settled.insert(step.timestamp, step.value.0);
            let interval = newest[&step.timestamp];
            assert!(
                interval.0 <= step.value.0 && step.value.0 <= interval.1,
                "delayed value {:?} outside {interval:?} at {}, in {formula:?}",
                step.value,
                step.timestamp
            );
        }
    }
    assert!(!settled.is_empty(), "nothing to converge on in {formula:?}");
    for (timestamp, value) in &settled {
        assert_eq!(
            newest[timestamp],
            Interval(*value, *value),
            "did not converge at {timestamp}, in {formula:?}"
        );
    }
}

/// Two signals sampled at unrelated times, so each operand settles at its own pace.
fn two_signals() -> Vec<Step<Real>> {
    [
        ("x", 2.0, 0),
        ("y", -2.0, 0),
        ("x", 2.0, 371),
        ("y", -2.0, 529),
        ("y", -1.0, 763),
        ("x", 0.0, 907),
        ("y", -1.0, 1291),
        ("x", -2.0, 1334),
        ("y", -1.0, 1650),
        ("x", -1.0, 2148),
        ("y", 0.0, 2466),
        ("y", -1.0, 2918),
        ("x", 0.0, 3005),
        ("y", 0.0, 3322),
        ("y", -2.0, 3479),
        ("y", -2.0, 3932),
        ("x", 1.0, 3993),
        ("x", -2.0, 4206),
        ("y", 0.0, 4423),
        ("x", 0.0, 4917),
        ("y", 2.0, 5186),
        ("x", -1.0, 5434),
        ("x", 2.0, 6186),
        ("x", -1.0, 6320),
    ]
    .iter()
    .map(|&(signal, value, ms)| Step::new(signal, Real(value), ms * 1_000_000))
    .collect()
}

#[test]
fn until_refines_towards_the_delayed_value() {
    check_refinement(&until(gt("x", 0.0), 0.0, 2.0, gt("y", 0.0)), &two_signals());
    check_refinement(&until(lt("x", 1.5), 0.5, 2.0, gt("y", -1.5)), &two_signals());
}

#[test]
fn combinations_refine_towards_the_delayed_value() {
    let either = or(gt("x", 0.0), lt("y", -1.0));
    check_refinement(&either, &two_signals());
    check_refinement(
        &and(eventually(0.0, 2.0, gt("y", 0.0)), gt("x", 0.0)),
        &two_signals(),
    );
    check_refinement(&eventually(0.0, 1.0, either), &two_signals());
}

#[test]
fn nested_until_refines_towards_the_delayed_value() {
    let inner = eventually(0.2, 1.0, gt("x", 1.0));
    check_refinement(&until(gt("x", -3.0), 0.5, 2.0, inner), &two_signals());
}

/// Every verdict given early is the one the delayed semantics settles on, if that one answers
/// the same time.
#[test]
fn early_verdicts_agree_with_delayed_ones() {
    let formulas = [
        until(gt("x", -1.5), 0.0, 2.0, gt("y", -0.5)),
        until(lt("y", 1.0), 0.5, 1.5, gt("x", 0.0)),
        and(gt("x", 0.0), lt("y", 0.0)),
        or(gt("x", 0.0), eventually(0.0, 1.0, gt("y", 0.0))),
    ];
    for formula in formulas {
        let early: HashMap<Time, bool> = monitor::<bool, true, false>(&formula, &two_signals())
            .into_iter()
            .flatten()
            .map(|verdict| (verdict.timestamp, verdict.value))
            .collect();
        let mut agreeing = 0;
        for verdict in monitor::<bool, false, false>(&formula, &two_signals())
            .into_iter()
            .flatten()
        {
            if let Some(value) = early.get(&verdict.timestamp) {
                assert_eq!(*value, verdict.value, "{formula:?} at {}", verdict.timestamp);
                agreeing += 1;
            }
        }
        assert!(agreeing > 0, "{formula:?}");
    }
}
