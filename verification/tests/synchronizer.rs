use mstlo::ring_buffer::Step;
use mstlo::synchronizer::{
    Interpolatable, SignalInterpolation, SynchronizationStrategy, Synchronizer,
};
use mstlo::time::Time;
use std::ops::{Add, Sub};

#[derive(Debug, Clone, Copy, PartialEq)]
struct Real(f64);

impl Add for Real {
    type Output = Real;
    fn add(self, other: Real) -> Real {
        Real(self.0 + other.0)
    }
}

impl Sub for Real {
    type Output = Real;
    fn sub(self, other: Real) -> Real {
        Real(self.0 - other.0)
    }
}

impl Interpolatable for Real {
    fn zero_spec() -> Real {
        Real(0.0)
    }

    fn zero() -> Real {
        Real(0.0)
    }
}

fn secs(t: u64) -> Time {
    u128::from(t) * 1_000_000_000
}

fn step(signal: &'static str, value: f64, timestamp: Time) -> Step<Real> {
    Step::new(signal, Real(value), timestamp)
}

/// Drains everything admitted so far.
fn drain(sync: &mut Synchronizer<Real>) -> Vec<Step<Real>> {
    std::iter::from_fn(|| sync.pending.pop_front()).collect()
}

/// Steps are forwarded verbatim under either interpolation; nothing is synthesized.
#[test]
fn test_only_real_steps_are_forwarded() {
    let steps = vec![
        step("A", 0.0, secs(0)),
        step("B", 0.0, secs(0)),
        step("A", 10.0, secs(2)),
        step("B", 20.0, secs(4)),
    ];

    for interpolation in [
        SignalInterpolation::ZeroOrderHold,
        SignalInterpolation::Linear,
    ] {
        let mut sync = Synchronizer::new(interpolation);
        let mut result = Vec::new();
        for step in &steps {
            assert_eq!(sync.evaluate(*step), Ok(()));
            while let Some(s) = sync.pending.pop_front() {
                result.push(s);
            }
        }
        assert_eq!(
            result, steps,
            "{:?}: only the real steps may be forwarded",
            interpolation
        );
        assert_eq!(sync.interpolation(), interpolation);
    }
}

/// An initial value is emitted at time zero, but not before a sample past it needs it.
#[test]
fn test_initial_values_flushed_at_first_step_past_zero() {
    let mut sync = Synchronizer::new(SignalInterpolation::ZeroOrderHold);
    sync.set_initial_values(vec![("A", Real(1.0)), ("B", Real(10.0))]);
    assert!(sync.pending.is_empty(), "nothing is owed before a sample");

    let sample = step("A", 5.0, secs(1));
    sync.evaluate(sample).unwrap();

    assert_eq!(
        drain(&mut sync),
        vec![step("A", 1.0, 0), step("B", 10.0, 0), sample],
        "both signals are defined from t=0, in signal order, before the sample"
    );
}

/// A signal sampled at time zero defines itself there; its initial value is dropped.
#[test]
fn test_real_zero_sample_overrides_initial_value() {
    let mut sync = Synchronizer::new(SignalInterpolation::ZeroOrderHold);
    sync.set_initial_values(vec![("A", Real(1.0)), ("B", Real(10.0))]);

    let real = step("A", 5.0, 0);
    sync.evaluate(real).unwrap();
    assert_eq!(drain(&mut sync), vec![real], "no initial value for A");

    // B has still not been sampled, so it is the only one left to define.
    let past_zero = step("A", 6.0, secs(1));
    sync.evaluate(past_zero).unwrap();
    assert_eq!(drain(&mut sync), vec![step("B", 10.0, 0), past_zero]);
}

/// Initial values survive a reset and are owed again.
#[test]
fn test_reset_rearms_initial_values() {
    let mut sync = Synchronizer::new(SignalInterpolation::ZeroOrderHold);
    sync.set_initial_values(vec![("A", Real(1.0))]);
    sync.evaluate(step("A", 5.0, secs(1))).unwrap();
    drain(&mut sync);

    sync.reset();
    sync.evaluate(step("A", 7.0, secs(1))).unwrap();
    assert_eq!(
        drain(&mut sync),
        vec![step("A", 1.0, 0), step("A", 7.0, secs(1))]
    );
}

/// The deprecated strategy is nothing but a name for an interpolation.
#[test]
fn test_strategy_maps_onto_interpolation() {
    assert_eq!(
        SynchronizationStrategy::Linear.interpolation(),
        SignalInterpolation::Linear
    );
    for held in [
        SynchronizationStrategy::Unsynchronized,
        SynchronizationStrategy::ZeroOrderHold,
    ] {
        assert_eq!(held.interpolation(), SignalInterpolation::ZeroOrderHold);
    }
    assert_eq!(
        SynchronizationStrategy::default(),
        SynchronizationStrategy::ZeroOrderHold
    );
    assert_eq!(
        SignalInterpolation::default(),
        SignalInterpolation::ZeroOrderHold
    );
}

#[test]
fn test_non_increasing_timestamp_ignored() {
    let mut sync = Synchronizer::new(SignalInterpolation::ZeroOrderHold);

    // First step at t=2
    assert_eq!(sync.evaluate(step("A", 10.0, secs(2))), Ok(()));
    assert_eq!(sync.pending.len(), 1);
    sync.pending.clear();

    // Valid step at t=3 (strictly increasing)
    assert_eq!(sync.evaluate(step("A", 15.0, secs(3))), Ok(()));
    assert_eq!(sync.pending.len(), 1);
    sync.pending.clear();

    // Invalid step at t=3 (equal, should be ignored)
    assert_eq!(sync.evaluate(step("A", 20.0, secs(3))), Err(secs(3)));
    assert_eq!(sync.pending.len(), 0, "Equal timestamp should be ignored");

    // Invalid step at t=1 (decreasing, should be ignored)
    assert_eq!(sync.evaluate(step("A", 25.0, secs(1))), Err(secs(3)));
    assert_eq!(
        sync.pending.len(),
        0,
        "Decreasing timestamp should be ignored"
    );

    // Valid step at t=5 (strictly increasing again)
    assert_eq!(sync.evaluate(step("A", 30.0, secs(5))), Ok(()));
    assert_eq!(sync.pending.len(), 1);
}

#[test]
fn test_different_signals_independent_timestamps() {
    let mut sync = Synchronizer::new(SignalInterpolation::ZeroOrderHold);

    // Signal A at t=5
    assert_eq!(sync.evaluate(step("A", 10.0, secs(5))), Ok(()));
    assert_eq!(sync.pending.len(), 1);
    sync.pending.clear();

    // Signal B at t=2 is valid (different signal)
    assert_eq!(sync.evaluate(step("B", 20.0, secs(2))), Ok(()));
    assert_eq!(sync.pending.len(), 1);
    sync.pending.clear();

    // Signal A at t=3 is invalid (less than previous A timestamp)
    assert_eq!(sync.evaluate(step("A", 15.0, secs(3))), Err(secs(5)));
    assert_eq!(sync.pending.len(), 0, "Signal A timestamp must be > 5");

    // Signal B at t=3 is valid (greater than previous B timestamp)
    assert_eq!(sync.evaluate(step("B", 25.0, secs(3))), Ok(()));
    assert_eq!(sync.pending.len(), 1);
}

#[test]
fn heap_size_empty() {
    let sync: Synchronizer<Real> = Synchronizer::new(SignalInterpolation::ZeroOrderHold);
    assert_eq!(sync.heap_size(), 0);
}

#[test]
fn heap_size_after_evaluate() {
    let mut sync = Synchronizer::new(SignalInterpolation::ZeroOrderHold);
    sync.evaluate(step("A", 1.0, secs(1))).unwrap();
    // pending queue holds at least one Step
    assert!(sync.heap_size() >= std::mem::size_of::<Step<Real>>());
}

#[test]
fn heap_size_after_reset() {
    let mut sync = Synchronizer::new(SignalInterpolation::ZeroOrderHold);
    sync.evaluate(step("A", 1.0, secs(1))).unwrap();
    let before = sync.heap_size();
    assert!(before > 0);
    sync.reset();
    // reset clears collections but capacity may remain
    assert!(sync.heap_size() <= before);
}

/// Initial values are emitted in name order whatever order they were given in, and the last
/// value given for a name counts.
#[test]
fn initial_values_are_emitted_in_name_order() {
    let mut sync = Synchronizer::new(SignalInterpolation::Linear);
    assert!(!sync.has_initial_values());
    sync.set_initial_values(vec![("b", 2i64), ("a", 1), ("ab", 3), ("b", 4)]);
    assert!(sync.has_initial_values());
    sync.evaluate(Step::new("c", 9, 1)).unwrap();
    let drained: Vec<(&str, i64)> = sync.pending.iter().map(|s| (s.signal, s.value)).collect();
    assert_eq!(drained, vec![("a", 1), ("ab", 3), ("b", 4), ("c", 9)]);
    assert_eq!(sync.evaluate(Step::new("a", 5, 0)), Err(0));
}

#[test]
fn unspecified_initial_value_is_zero() {
    assert_eq!(<i64 as Interpolatable>::zero(), 0);
    assert_eq!(Real::zero(), Real(0.0));
}

/// A signal with its own sample at time zero before the first sample past it gets no initial
/// value, even if one is set only afterwards.
#[test]
fn a_sampled_signal_is_owed_no_initial_value() {
    let mut sync = Synchronizer::new(SignalInterpolation::ZeroOrderHold);
    assert_eq!(sync.evaluate(Step::new("A", 5i64, 0)), Ok(()));
    sync.pending.clear();
    sync.set_initial_values(vec![("A", 1), ("B", 2)]);
    assert_eq!(sync.evaluate(Step::new("A", 6, 1_000_000_000)), Ok(()));
    let pending: Vec<Step<i64>> = sync.pending.iter().copied().collect();
    assert_eq!(
        pending,
        vec![Step::new("B", 2, 0), Step::new("A", 6, 1_000_000_000)]
    );
    sync.reset();
    assert_eq!(sync.evaluate(Step::new("B", 7, 1)), Ok(()));
    assert_eq!(sync.pending.len(), 3);
}
