//! What predicates promise over time, and what reading a signal straight between its samples
//! means.

use crate::atomic_operators::{crossing, AtomicState};
use crate::operator::{Event, Machine};
use crate::ring_buffer::{in_order, Step};
use crate::semantics::{distance, nearest, AtomicSemantics, SignalValue};
use crate::synchronizer::SignalInterpolation;
use crate::time::Time;
use vstd::arithmetic::div_mod::lemma_fundamental_div_mod;
use vstd::prelude::*;

verus! {

/// Under zero-order hold a sample of the signal gives one verdict, at its own timestamp, and a
/// sample of another signal gives none. Nothing is invented between samples.
pub proof fn zero_order_hold_invents_no_crossing<V: SignalValue, Y: AtomicSemantics<V>>(
    state: AtomicState<V>,
    step: Step<V>,
)
    requires
        state.interpolation == SignalInterpolation::ZeroOrderHold,
    ensures
        state.answers::<Y>(step) == (if state.comparison.accepts(step.signal@) {
            seq![
                Step::spec_new(
                    "output",
                    state.comparison.verdict::<Y>(state.context, step.value),
                    step.timestamp,
                ),
            ]
        } else {
            Seq::empty()
        }),
        state.after_sample(step) == state,
{
}

/// For samples in time order the verdicts come in time order, none before the previous sample,
/// and none at it unless it was withheld.
pub proof fn verdicts_come_in_order<V: SignalValue, Y: AtomicSemantics<V>>(
    state: AtomicState<V>,
    step: Step<V>,
)
    requires
        state.prev matches Some((ts, _)) ==> ts < step.timestamp,
    ensures
        in_order(state.answers::<Y>(step)),
        forall|k: int|
            0 <= k < state.answers::<Y>(step).len() ==> {
                let t = (#[trigger] state.answers::<Y>(step)[k]).timestamp;
                &&& t <= step.timestamp
                &&& state.crossed() is Some ==> (state.prev matches Some((ts, _)) ==> if state.deferred {
                    ts <= t
                } else {
                    ts < t
                })
            },
{
}

/// Resetting leaves the predicate, its variables and the interpolation as they are and forgets
/// the previous sample.
pub proof fn reset_forgets<V: SignalValue, Y: AtomicSemantics<V>>(
    state: AtomicState<V>,
)
    ensures
        Machine::<V, Y>::next(state, Event::Reset) == (AtomicState {
            interpolation: state.interpolation,
            ..AtomicState::initial(state.comparison, state.context)
        }),
{
}

/// A signal that runs straight from `(t0, v0)` to `(t1, v1)` is above `c` at `s`.
pub open spec fn is_above(t0: Time, v0: i64, t1: Time, v1: i64, c: i64, s: Time) -> bool {
    (v1 - v0) * (s - t0) > (c - v0) * (t1 - t0)
}

/// A signal that runs straight from `(t0, v0)` to `(t1, v1)` is below `c` at `s`.
pub open spec fn is_below(t0: Time, v0: i64, t1: Time, v1: i64, c: i64, s: Time) -> bool {
    (v1 - v0) * (s - t0) < (c - v0) * (t1 - t0)
}

/// A crossing is exact to the nanosecond: the signal meets the threshold within half a
/// nanosecond of it.
pub proof fn crossing_is_exact_to_a_nanosecond(t0: Time, v0: i64, t1: Time, v1: i64, c: i64)
    requires
        crossing(t0, v0, t1, v1, c) is Some,
    ensures
        ({
            let offset = crossing(t0, v0, t1, v1, c)->0 - t0;
            &&& t0 < crossing(t0, v0, t1, v1, c)->0 < t1
            &&& (2 * offset - 1) * distance(v0, v1) <= 2 * ((t1 - t0) * distance(v0, c))
            &&& 2 * ((t1 - t0) * distance(v0, c)) <= (2 * offset + 1) * distance(v0, v1)
            &&& (v0 < v1) == (v0 < c)
        }),
{
    let span = t1 - t0;
    let num = distance(v0, c) as int;
    let den = distance(v0, v1) as int;
    let offset = crossing(t0, v0, t1, v1, c)->0 - t0;
    assert(num < den && den > 0);
    lemma_nearest(span, num, den);
    assert(offset == nearest(span * num, den));
}

/// Rounding to the nearest whole number moves by half at most, and stays within the segment.
pub proof fn lemma_nearest(span: int, num: int, den: int)
    requires
        0 <= span,
        0 <= num < den,
    ensures
        0 <= nearest(span * num, den) <= span,
        (2 * nearest(span * num, den) - 1) * den <= 2 * (span * num),
        2 * (span * num) <= (2 * nearest(span * num, den) + 1) * den,
{
    let all = span * num;
    let whole = all / den;
    let rest = all % den;
    lemma_fundamental_div_mod(all, den);
    assert(0 <= all) by (nonlinear_arith)
        requires
            all == span * num,
            0 <= span,
            0 <= num,
    ;
    assert(0 <= rest < den && whole >= 0) by (nonlinear_arith)
        requires
            rest == all % den,
            whole == all / den,
            all >= 0,
            den > 0,
    ;
    assert(whole <= span && (rest != 0 ==> whole < span)) by (nonlinear_arith)
        requires
            span * num == den * whole + rest,
            0 <= rest < den,
            0 <= num < den,
            span >= 0,
    ;
    let n = nearest(all, den);
    assert((2 * n - 1) * den <= 2 * all && 2 * all <= (2 * n + 1) * den) by (nonlinear_arith)
        requires
            all == den * whole + rest,
            0 <= rest < den,
            (n == whole && 2 * rest <= den) || (n == whole + 1 && 2 * rest >= den),
    ;
}

/// A crossing splits a segment where the truth of `x > c` changes: before it the signal is as
/// it was at the first sample, after it as at the second.
pub proof fn crossing_splits_the_segment(t0: Time, v0: i64, t1: Time, v1: i64, c: i64, s: Time)
    requires
        t0 < s < t1,
        v0 != c,
        crossing(t0, v0, t1, v1, c) is Some,
        s != crossing(t0, v0, t1, v1, c)->0,
    ensures
        is_above(t0, v0, t1, v1, c, s) == (if s < crossing(t0, v0, t1, v1, c)->0 {
            v0 > c
        } else {
            v1 > c
        }),
        is_below(t0, v0, t1, v1, c, s) == (if s < crossing(t0, v0, t1, v1, c)->0 {
            v0 < c
        } else {
            v1 < c
        }),
{
    crossing_is_exact_to_a_nanosecond(t0, v0, t1, v1, c);
    let t_c = crossing(t0, v0, t1, v1, c)->0;
    let offset = t_c - t0;
    let span = t1 - t0;
    let num = distance(v0, c) as int;
    let den = distance(v0, v1) as int;
    let at = s - t0;
    assert(num < den);
    if s < t_c {
        assert(at * den < span * num) by (nonlinear_arith)
            requires
                at <= offset - 1,
                (2 * offset - 1) * den <= 2 * (span * num),
                den > 0,
        ;
    } else {
        assert(at * den > span * num) by (nonlinear_arith)
            requires
                at >= offset + 1,
                2 * (span * num) <= (2 * offset + 1) * den,
                den > 0,
        ;
    }
    lemma_signs(t0, v0, t1, v1, c, s);
}

/// The comparison along a segment in terms of distances.
pub proof fn lemma_signs(t0: Time, v0: i64, t1: Time, v1: i64, c: i64, s: Time)
    requires
        (v0 < v1) == (v0 < c),
        v0 != v1,
        v0 != c,
        t0 <= s <= t1,
    ensures
        v0 < c ==> (is_above(t0, v0, t1, v1, c, s) <==> (s - t0) * distance(v0, v1) > (t1 - t0)
            * distance(v0, c)),
        v0 < c ==> (is_below(t0, v0, t1, v1, c, s) <==> (s - t0) * distance(v0, v1) < (t1 - t0)
            * distance(v0, c)),
        v0 > c ==> (is_above(t0, v0, t1, v1, c, s) <==> (s - t0) * distance(v0, v1) < (t1 - t0)
            * distance(v0, c)),
        v0 > c ==> (is_below(t0, v0, t1, v1, c, s) <==> (s - t0) * distance(v0, v1) > (t1 - t0)
            * distance(v0, c)),
{
    let at = s - t0;
    let span = t1 - t0;
    let num = distance(v0, c) as int;
    let den = distance(v0, v1) as int;
    if v0 < c {
        assert((v1 - v0) * at == at * den) by (nonlinear_arith)
            requires
                den == v1 - v0,
        ;
        assert((c - v0) * span == span * num) by (nonlinear_arith)
            requires
                num == c - v0,
        ;
    } else {
        assert((v1 - v0) * at == -(at * den)) by (nonlinear_arith)
            requires
                den == v0 - v1,
        ;
        assert((c - v0) * span == -(span * num)) by (nonlinear_arith)
            requires
                num == v0 - c,
        ;
    }
}

/// A segment whose ends agree on `x > c` has no crossing to report: they agree with everything
/// in between. So it is with `x < c`.
pub proof fn agreeing_ends_hide_no_crossing(t0: Time, v0: i64, t1: Time, v1: i64, c: i64, s: Time)
    requires
        t0 < s < t1,
    ensures
        (v0 > c) == (v1 > c) ==> is_above(t0, v0, t1, v1, c, s) == (v1 > c),
        (v0 < c) == (v1 < c) ==> is_below(t0, v0, t1, v1, c, s) == (v1 < c),
{
    let at = s - t0;
    let span = t1 - t0;
    let a = v1 - v0;
    let b = c - v0;
    if v0 > c && v1 > c {
        // b < 0 and b < a.
        assert(a * at > b * span) by (nonlinear_arith)
            requires
                0 < at < span,
                b < 0,
                b < a,
        ;
    }
    if v0 <= c && v1 <= c {
        assert(a * at <= b * span) by (nonlinear_arith)
            requires
                0 < at < span,
                b >= 0,
                a <= b,
        ;
    }
    if v0 < c && v1 < c {
        assert(a * at < b * span) by (nonlinear_arith)
            requires
                0 < at < span,
                b > 0,
                a < b,
        ;
    }
    if v0 >= c && v1 >= c {
        assert(a * at >= b * span) by (nonlinear_arith)
            requires
                0 < at < span,
                b <= 0,
                a >= b,
        ;
    }
}

/// From a sample on the threshold the signal goes where the next sample is, which is why the
/// verdict withheld at it is that of the next one.
pub proof fn withheld_verdict_is_the_next_one(t0: Time, v0: i64, t1: Time, v1: i64, s: Time)
    requires
        t0 < s < t1,
    ensures
        is_above(t0, v0, t1, v1, v0, s) == (v1 > v0),
        is_below(t0, v0, t1, v1, v0, s) == (v1 < v0),
{
    let at = s - t0;
    let a = v1 - v0;
    assert((a * at > 0) == (a > 0)) by (nonlinear_arith)
        requires
            at > 0,
    ;
    assert((a * at < 0) == (a < 0)) by (nonlinear_arith)
        requires
            at > 0,
    ;
    assert((v0 - v0) * (t1 - t0) == 0);
}

} // verus!
