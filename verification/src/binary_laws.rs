//! What conjunction and disjunction promise over time.

use crate::binary_node::{unanswered, BinaryState};
use crate::binary_operators::{after_mark, answers_are_sound_and_complete, lemma_after_mark};
use crate::binary_operators::{merged_lists_every_timestamp, newest_reached, out_of_reach};
use crate::binary_operators::{reached, settled_mark, times_after};
use crate::binary_operators::{Answer, Connective, Pairing};
use crate::operator::{Event, Machine};
use crate::ring_buffer::{count_upto, has_entry_at, in_force, in_order, lemma_count_upto};
use crate::ring_buffer::{lemma_count_upto_unique, Step};
use crate::semantics::{is_bounded, is_lattice, lattice_laws_at, Robustness, RobustnessInterval};
use crate::semantics::RobustnessSemantics;
use crate::time::Time;
use vstd::prelude::*;

verus! {

/// The combination is made point by point in dense time: wherever both operands have reported
/// and hold a value, the output in force there is the combination of the two.
pub proof fn combination_is_pointwise<Y: RobustnessSemantics>(pairing: Pairing<Y>, t: Time)
    requires
        pairing.left.wf(),
        pairing.right.wf(),
        !pairing.rosi,
        reached(pairing.joint(), t),
        in_force(pairing.left.cache, t) is Some,
        in_force(pairing.right.cache, t) is Some,
        forall|s: Time|
            s <= t && count_upto(pairing.left.cache, s) > 0 ==> #[trigger] in_force(
                pairing.left.cache,
                s,
            ) is Some,
        forall|s: Time|
            s <= t && count_upto(pairing.right.cache, s) > 0 ==> #[trigger] in_force(
                pairing.right.cache,
                s,
            ) is Some,
    ensures
        ({
            let output = pairing.answers(pairing.breakpoints(None));
            let l = in_force(pairing.left.cache, t)->0.value;
            let r = in_force(pairing.right.cache, t)->0.value;
            &&& in_force(output, t) is Some
            &&& in_force(output, t)->0.value == pairing.connective.combined(l, r)
        }),
{
    let l = pairing.left.cache;
    let r = pairing.right.cache;
    let times = pairing.breakpoints(None);
    let output = pairing.answers(times);
    merged_lists_every_timestamp(l, r);
    answers_are_sound_and_complete(pairing, times);
    let n = count_upto(l, t);
    let m = count_upto(r, t);
    lemma_count_upto(l, t);
    lemma_count_upto(r, t);
    // The newest breakpoint at or before `t`.
    let e = if l[n - 1].timestamp <= r[m - 1].timestamp {
        r[m - 1].timestamp
    } else {
        l[n - 1].timestamp
    };
    lemma_count_upto_unique(l, e, n);
    lemma_count_upto_unique(r, e, m);
    assert(has_entry_at(l, e) || has_entry_at(r, e)) by {
        assert(l[n - 1].timestamp == e || r[m - 1].timestamp == e);
    }
    assert(times.contains(e));
    let i = choose|i: int| 0 <= i < times.len() && times[i] == e;
    assert(in_force(l, e) is Some && in_force(r, e) is Some);
    let v = pairing.connective.combined(l[n - 1].value, r[m - 1].value);
    assert(pairing.answer(e) == Answer::Emit(v));
    let wanted = Step::spec_new("output", v, times[i]);
    assert(output.contains(wanted));
    let k = choose|k: int| 0 <= k < output.len() && output[k] == wanted;
    assert(k + 1 < output.len() ==> output[k + 1].timestamp > t) by {
        if k + 1 < output.len() {
            let ts = output[k + 1].timestamp;
            assert(times.contains(ts));
            if ts <= t {
                if has_entry_at(l, ts) {
                    let a = choose|a: int| 0 <= a < l.len() && (#[trigger] l[a]).timestamp == ts;
                    assert(a <= n - 1);
                    assert(l[a].timestamp <= l[n - 1].timestamp);
                } else {
                    let a = choose|a: int| 0 <= a < r.len() && (#[trigger] r[a]).timestamp == ts;
                    assert(a <= m - 1);
                    assert(r[a].timestamp <= r[m - 1].timestamp);
                }
            }
        }
    }
    lemma_count_upto_unique(output, t, (k + 1) as nat);
}

/// Dropping steps keeps the rest in order, and drops just those listed.
pub proof fn lemma_unanswered<Y>(output: Seq<Step<Y>>, known: Seq<Time>)
    requires
        in_order(output),
    ensures
        in_order(unanswered(output, known)),
        forall|s: Step<Y>| #[trigger]
            unanswered(output, known).contains(s) <==> output.contains(s) && !known.contains(
                s.timestamp,
            ),
    decreases output.len(),
{
    let kept = unanswered(output, known);
    if output.len() == 0 {
        assert forall|s: Step<Y>| #[trigger] kept.contains(s) <==> output.contains(s)
            && !known.contains(s.timestamp) by {}
    } else {
        let p = output.drop_last();
        let last = output.last();
        assert(in_order(p));
        lemma_unanswered(p, known);
        let head = unanswered(p, known);
        assert forall|i: int| 0 <= i < head.len() implies (#[trigger] head[i]).timestamp
            < last.timestamp by {
            assert(head.contains(head[i]));
            let j = choose|j: int| 0 <= j < p.len() && p[j] == head[i];
            assert(output[j] == p[j]);
        }
        assert forall|s: Step<Y>| #[trigger] kept.contains(s) <==> output.contains(s)
            && !known.contains(s.timestamp) by {
            assert(output.contains(s) <==> p.contains(s) || s == last) by {
                if output.contains(s) {
                    let j = choose|j: int| 0 <= j < output.len() && output[j] == s;
                    if j < p.len() {
                        assert(p[j] == s);
                    }
                }
                if p.contains(s) {
                    let j = choose|j: int| 0 <= j < p.len() && p[j] == s;
                    assert(output[j] == s);
                }
                assert(output[output.len() - 1] == last);
            }
            if known.contains(last.timestamp) {
                assert(kept == head);
            } else {
                assert(kept.contains(s) <==> head.contains(s) || s == last) by {
                    if kept.contains(s) {
                        let j = choose|j: int| 0 <= j < kept.len() && kept[j] == s;
                        if j < head.len() {
                            assert(head[j] == s);
                        }
                    }
                    if head.contains(s) {
                        let j = choose|j: int| 0 <= j < head.len() && head[j] == s;
                        assert(kept[j] == s);
                    }
                    assert(kept[kept.len() - 1] == last);
                }
            }
        }
    }
}

/// Whether the timestamp `t` needs no answer any more.
pub open spec fn is_answered<T, Y>(state: BinaryState<T, Y>, t: Time) -> bool {
    reached(state.mark, t) || state.ahead.contains(t)
}

/// What is emitted comes in time order and within the horizon, each step with the verdict for
/// its timestamp. In delayed and refinable mode the horizon is the time both operands have
/// reported up to.
pub proof fn output_is_ordered_and_within_the_horizon<T, Y: RobustnessSemantics>(
    state: BinaryState<T, Y>,
    step: Step<T>,
)
    requires
        state.taken_in(step).wf(),
    ensures
        in_order(state.emit(Event::Sample(step))),
        forall|k: int|
            0 <= k < state.emit(Event::Sample(step)).len() ==> {
                let out = #[trigger] state.emit(Event::Sample(step))[k];
                let pairing = state.taken_in(step).pairing();
                &&& reached(pairing.horizon(), out.timestamp)
                &&& pairing.answer(out.timestamp) == Answer::Emit(out.value)
                &&& !state.eager || state.rosi ==> reached(pairing.joint(), out.timestamp)
                &&& !state.rosi ==> !reached(state.mark, out.timestamp)
                &&& state.eager && !state.rosi ==> !is_answered(state, out.timestamp)
            },
{
    let taken = state.taken_in(step);
    let pairing = taken.pairing();
    let start = if state.rosi {
        None
    } else {
        state.mark
    };
    let l = after_mark(taken.left_cache, start);
    let r = after_mark(taken.right_cache, start);
    lemma_after_mark(taken.left_cache, start);
    lemma_after_mark(taken.right_cache, start);
    merged_lists_every_timestamp(l, r);
    answers_are_sound_and_complete(pairing, pairing.breakpoints(start));
    let all = pairing.answers(pairing.breakpoints(start));
    let output = state.emit(Event::Sample(step));
    lemma_unanswered(all, taken.ahead);
    assert forall|k: int| 0 <= k < output.len() implies {
        let out = #[trigger] output[k];
        &&& reached(pairing.horizon(), out.timestamp)
        &&& pairing.answer(out.timestamp) == Answer::Emit(out.value)
        &&& !state.eager || state.rosi ==> reached(pairing.joint(), out.timestamp)
        &&& !state.rosi ==> !reached(state.mark, out.timestamp)
        &&& state.eager && !state.rosi ==> !is_answered(state, out.timestamp)
    } by {
        assert(output.contains(output[k]));
        let i = choose|i: int| 0 <= i < all.len() && all[i] == output[k];
        assert(pairing.breakpoints(start).contains(all[i].timestamp));
    }
}

/// The newest step within reach is one of them and none in reach is newer.
pub proof fn lemma_newest_reached<Y>(output: Seq<Step<Y>>, frontier: Option<Time>)
    requires
        in_order(output),
    ensures
        newest_reached(output, frontier) matches Some(ts) ==> reached(frontier, ts)
            && has_entry_at(output, ts),
        forall|i: int|
            0 <= i < output.len() && reached(frontier, (#[trigger] output[i]).timestamp) ==> reached(
                newest_reached(output, frontier),
                output[i].timestamp,
            ),
    decreases output.len(),
{
    if output.len() > 0 {
        let p = output.drop_last();
        assert(in_order(p));
        lemma_newest_reached(p, frontier);
        assert(output.last() == output[output.len() - 1]);
        if !reached(frontier, output.last().timestamp) {
            if let Some(ts) = newest_reached(p, frontier) {
                let i = choose|i: int| 0 <= i < p.len() && (#[trigger] p[i]).timestamp == ts;
                assert(output[i].timestamp == ts);
            }
            assert forall|i: int|
                0 <= i < output.len() && reached(
                    frontier,
                    (#[trigger] output[i]).timestamp,
                ) implies reached(newest_reached(output, frontier), output[i].timestamp) by {
                assert(p[i] == output[i]);
            }
        }
    }
}

pub proof fn lemma_out_of_reach<Y>(output: Seq<Step<Y>>, frontier: Option<Time>)
    ensures
        forall|i: int|
            0 <= i < output.len() && !reached(frontier, (#[trigger] output[i]).timestamp)
                ==> out_of_reach(output, frontier).contains(output[i].timestamp),
    decreases output.len(),
{
    if output.len() > 0 {
        let p = output.drop_last();
        lemma_out_of_reach(p, frontier);
        let head = out_of_reach(p, frontier);
        let all = out_of_reach(output, frontier);
        assert forall|i: int|
            0 <= i < output.len() && !reached(
                frontier,
                (#[trigger] output[i]).timestamp,
            ) implies all.contains(output[i].timestamp) by {
            if i < p.len() {
                assert(p[i] == output[i]);
                let k = choose|k: int| 0 <= k < head.len() && head[k] == output[i].timestamp;
                assert(all[k] == output[i].timestamp);
            } else {
                assert(all[all.len() - 1] == output[i].timestamp);
            }
        }
    }
}

pub proof fn lemma_times_after(times: Seq<Time>, mark: Option<Time>)
    ensures
        forall|t: Time|
            times.contains(t) && !reached(mark, t) ==> #[trigger] times_after(times, mark).contains(
                t,
            ),
    decreases times.len(),
{
    if times.len() > 0 {
        let p = times.drop_last();
        lemma_times_after(p, mark);
        let head = times_after(p, mark);
        let all = times_after(times, mark);
        assert forall|t: Time| times.contains(t) && !reached(mark, t) implies #[trigger] all.contains(
            t,
        ) by {
            let i = choose|i: int| 0 <= i < times.len() && times[i] == t;
            if i < p.len() {
                assert(p[i] == t);
                assert(head.contains(t));
                let k = choose|k: int| 0 <= k < head.len() && head[k] == t;
                assert(all[k] == t);
            } else {
                assert(all[all.len() - 1] == t);
            }
        }
    }
}

/// No timestamp is answered twice in delayed or eager mode: what is emitted was not answered
/// before, and stays answered from then on.
pub proof fn every_timestamp_is_answered_once<T, Y: RobustnessSemantics>(
    state: BinaryState<T, Y>,
    step: Step<T>,
)
    requires
        state.taken_in(step).wf(),
        !state.rosi,
        !state.eager ==> state.ahead.len() == 0,
    ensures
        forall|k: int|
            0 <= k < state.emit(Event::Sample(step)).len() ==> {
                let t = (#[trigger] state.emit(Event::Sample(step))[k]).timestamp;
                &&& !is_answered(state, t)
                &&& is_answered(Machine::<T, Y>::next(state, Event::Sample(step)), t)
            },
        forall|t: Time| #[trigger]
            is_answered(state, t) ==> is_answered(
                Machine::<T, Y>::next(state, Event::Sample(step)),
                t,
            ),
{
    output_is_ordered_and_within_the_horizon(state, step);
    let taken = state.taken_in(step);
    let output = state.emit(Event::Sample(step));
    let after = Machine::<T, Y>::next(state, Event::Sample(step));
    let joint = taken.joint();
    if state.eager {
        let mark = settled_mark(output, joint, state.mark);
        let all = state.ahead + out_of_reach(output, joint);
        lemma_newest_reached(output, joint);
        lemma_out_of_reach(output, joint);
        lemma_times_after(all, mark);
        assert(after.mark == mark);
        assert(after.ahead == times_after(all, mark));
        // The mark never falls.
        assert forall|t: Time| reached(state.mark, t) implies reached(mark, t) by {
            if let Some(ts) = newest_reached(output, joint) {
                let i = choose|i: int| 0 <= i < output.len() && (#[trigger] output[i]).timestamp == ts;
                assert(!reached(state.mark, output[i].timestamp));
            }
        }
        assert forall|t: Time| #[trigger] is_answered(state, t) implies is_answered(after, t) by {
            if state.ahead.contains(t) {
                let i = choose|i: int| 0 <= i < state.ahead.len() && state.ahead[i] == t;
                assert(all[i] == t);
            }
        }
        assert forall|k: int| 0 <= k < output.len() implies is_answered(
            after,
            (#[trigger] output[k]).timestamp,
        ) by {
            let t = output[k].timestamp;
            if !reached(joint, t) {
                assert(out_of_reach(output, joint).contains(t));
                let i = choose|i: int|
                    0 <= i < out_of_reach(output, joint).len() && out_of_reach(output, joint)[i] == t;
                assert(all[state.ahead.len() + i] == t);
            }
        }
    } else {
        assert forall|k: int| 0 <= k < output.len() implies is_answered(
            after,
            (#[trigger] output[k]).timestamp,
        ) by {
            assert(output[k].timestamp <= output[output.len() - 1].timestamp);
        }
        assert forall|t: Time| #[trigger] is_answered(state, t) implies is_answered(after, t) by {
            if output.len() > 0 {
                assert(!reached(state.mark, output[output.len() - 1].timestamp));
            }
        }
    }
}

/// A verdict given past the joint frontier stands: the combination is the same whatever the
/// lagging operand turns out to be worth.
pub proof fn short_circuit_stands<Y: RobustnessSemantics>(connective: Connective, v: Y, other: Y)
    requires
        is_lattice::<Y>(),
        is_bounded::<Y>(),
        Y::same_spec(connective.settling::<Y>(), v),
    ensures
        connective.combined(v, other) == v,
        connective.combined(other, v) == v,
{
    assert(lattice_laws_at(v, other, v));
}

/// Resetting forgets everything but the operands, which are reset themselves, and which
/// signals they read: two operators that agree in those behave alike from then on.
pub proof fn reset_forgets<T, Y: RobustnessSemantics>(a: BinaryState<T, Y>, b: BinaryState<T, Y>)
    requires
        a.operands.next(Event::Reset) == b.operands.next(Event::Reset),
        a.left_lookahead == b.left_lookahead,
        a.right_lookahead == b.right_lookahead,
        a.connective == b.connective,
        a.eager == b.eager,
        a.rosi == b.rosi,
    ensures
        Machine::<T, Y>::next(a, Event::Reset) == Machine::<T, Y>::next(b, Event::Reset),
{
}

/// An interval given for a timestamp contains the combination of what the operands turn out to
/// be worth there, if the intervals they are settled at do.
pub proof fn refinable_answer_brackets_the_combination(
    pairing: Pairing<RobustnessInterval>,
    t: Time,
    a: Robustness,
    b: Robustness,
    interval: RobustnessInterval,
)
    requires
        pairing.rosi,
        reached(pairing.joint(), t),
        in_force(pairing.left.cache, t) is Some && t + pairing.left.lookahead
            <= pairing.left.frontier->0 ==> in_force(pairing.left.cache, t)->0.value.contains(a),
        in_force(pairing.right.cache, t) is Some && t + pairing.right.lookahead
            <= pairing.right.frontier->0 ==> in_force(pairing.right.cache, t)->0.value.contains(b),
        pairing.answer(t) == Answer::Emit(interval),
    ensures
        interval.contains(pairing.connective.combined(a, b)),
{
}

} // verus!
