//! Conjunction and disjunction over any operands, predicates or temporal ones, however far they
//! look ahead: what the answers are, in terms of what the operands say.

use crate::binary_eager_laws::{advances, keeps_up, lemma_step, Pair};
use crate::binary_node::BinaryState;
use crate::binary_operators::{answers_are_sound_and_complete, merged_lists_every_timestamp};
use crate::binary_operators::{joint, reached, Connective};
use crate::binary_stream_laws::{complete, history, is_complete, is_steady, is_steady_throughout};
use crate::binary_stream_laws::{kept, lemma_stream, lemma_taken_in, run, streamed};
use crate::operands::OperandsState;
use crate::operator::{Event, Machine};
use crate::ring_buffer::{count_upto, has_entry_at, in_force, in_order, Step};
use crate::ring_buffer::lemma_count_upto;
use crate::semantics::RobustnessSemantics;
use crate::time::{Time, FOREVER, MAX_TIME};
use vstd::prelude::*;

verus! {

/// The operands after a trace.
pub open spec fn operands_after<T, Y>(
    operands: OperandsState<T, Y>,
    steps: Seq<Step<T>>,
) -> OperandsState<T, Y>
    decreases steps.len(),
{
    if steps.len() == 0 {
        operands
    } else {
        operands_after(operands, steps.drop_last()).next(Event::Sample(steps.last()))
    }
}

/// Everything the left operand says over a trace.
pub open spec fn left_said<T, Y>(operands: OperandsState<T, Y>, steps: Seq<Step<T>>) -> Seq<Step<Y>>
    decreases steps.len(),
{
    if steps.len() == 0 {
        Seq::empty()
    } else {
        left_said(operands, steps.drop_last()) + operands_after(
            operands,
            steps.drop_last(),
        ).left_emits(Event::Sample(steps.last()))
    }
}

/// Everything the right operand says over a trace.
pub open spec fn right_said<T, Y>(
    operands: OperandsState<T, Y>,
    steps: Seq<Step<T>>,
) -> Seq<Step<Y>>
    decreases steps.len(),
{
    if steps.len() == 0 {
        Seq::empty()
    } else {
        right_said(operands, steps.drop_last()) + operands_after(
            operands,
            steps.drop_last(),
        ).right_emits(Event::Sample(steps.last()))
    }
}

/// Verdicts of an operand come in time order, within the range of time, and are held on.
pub open spec fn is_steady_report<Y>(said: Seq<Step<Y>>) -> bool {
    &&& forall|i: int, j: int|
        0 <= i < j < said.len() ==> (#[trigger] said[i]).timestamp < (#[trigger] said[j]).timestamp
    &&& forall|i: int|
        0 <= i < said.len() ==> (#[trigger] said[i]).timestamp <= MAX_TIME && said[i].held_until
            == FOREVER
}

/// Both operands report steadily all along a trace, and without gaps.
pub open spec fn report_steadily<T, Y>(operands: OperandsState<T, Y>, steps: Seq<Step<T>>) -> bool
    decreases steps.len(),
{
    &&& is_steady_report(left_said(operands, steps))
    &&& is_steady_report(right_said(operands, steps))
    &&& steps.len() > 0 ==> {
        &&& report_steadily(operands, steps.drop_last())
        &&& operands_after(operands, steps).left.known_now() is None
        &&& operands_after(operands, steps).right.known_now() is None
    }
}

/// Nothing has been taken in yet, whatever the operands are.
pub open spec fn is_fresh<T, Y: RobustnessSemantics>(state: BinaryState<T, Y>) -> bool {
    &&& state.left_cache.len() == 0
    &&& state.right_cache.len() == 0
    &&& state.mark is None
    &&& state.ahead.len() == 0
    &&& state.left_frontier is None
    &&& state.right_frontier is None
    &&& state.left_lookahead <= MAX_TIME
    &&& state.right_lookahead <= MAX_TIME
}

/// `h` holds what both operands have said over a trace.
spec fn records<T, Y: RobustnessSemantics>(
    h: BinaryState<T, Y>,
    operands: OperandsState<T, Y>,
    steps: Seq<Step<T>>,
) -> bool {
    &&& has_operands(h, operands, steps)
    &&& h.left_cache == left_said(operands, steps)
    &&& h.right_cache == right_said(operands, steps)
}

spec fn has_operands<T, Y: RobustnessSemantics>(
    h: BinaryState<T, Y>,
    operands: OperandsState<T, Y>,
    steps: Seq<Step<T>>,
) -> bool {
    h.operands == operands_after(operands, steps)
}

proof fn lemma_steady<T, Y: RobustnessSemantics>(
    h: BinaryState<T, Y>,
    operands: OperandsState<T, Y>,
    steps: Seq<Step<T>>,
)
    requires
        steps.len() > 0,
        report_steadily(operands, steps),
        records(h, operands, steps.drop_last()),
    ensures
        is_steady(h, steps.last()),
        h.left_cache + h.operands.left_emits(Event::Sample(steps.last())) == left_said(
            operands,
            steps,
        ),
        h.right_cache + h.operands.right_emits(Event::Sample(steps.last())) == right_said(
            operands,
            steps,
        ),
{
    let l = left_said(operands, steps);
    let r = right_said(operands, steps);
    let left = h.operands.left_emits(Event::Sample(steps.last()));
    let right = h.operands.right_emits(Event::Sample(steps.last()));
    assert forall|i: int| 0 <= i < left.len() implies (#[trigger] left[i]).timestamp <= MAX_TIME
        && left[i].held_until == FOREVER by {
        assert(left[i] == l[h.left_cache.len() + i]);
    }
    assert forall|i: int| 0 <= i < right.len() implies (#[trigger] right[i]).timestamp <= MAX_TIME
        && right[i].held_until == FOREVER by {
        assert(right[i] == r[h.right_cache.len() + i]);
    }
}

proof fn lemma_recorded<T, Y: RobustnessSemantics>(
    h: BinaryState<T, Y>,
    operands: OperandsState<T, Y>,
    steps: Seq<Step<T>>,
)
    requires
        steps.len() > 0,
        report_steadily(operands, steps),
        records(h, operands, steps.drop_last()),
        is_complete(h),
    ensures
        records(kept(h, steps.last()), operands, steps),
{
    lemma_steady(h, operands, steps);
    assert(h.mark matches Some(m) ==> reached(h.joint(), m)) by {
        merged_lists_every_timestamp(h.left_cache, h.right_cache);
        answers_are_sound_and_complete(h.pairing(), h.pairing().breakpoints(None));
        if complete(h).len() > 0 {
            assert(complete(h).last() == complete(h)[complete(h).len() - 1]);
        }
    }
    lemma_taken_in(h, steps.last());
}

proof fn lemma_history<T, Y: RobustnessSemantics>(state: BinaryState<T, Y>, steps: Seq<Step<T>>)
    requires
        is_fresh(state),
        !state.eager,
        !state.rosi,
        report_steadily(state.operands, steps),
    ensures
        ({
            let h = history(state, steps);
            &&& is_steady_throughout(state, steps)
            &&& is_complete(h)
            &&& records(h, state.operands, steps)
            &&& h.connective == state.connective
            &&& streamed(state, steps) == complete(h)
        }),
    decreases steps.len(),
{
    assert(state.left_cache =~= Seq::empty());
    assert(state.right_cache =~= Seq::empty());
    assert(state.ahead =~= Seq::empty());
    assert(is_cleared(state));
    if steps.len() == 0 {
        assert(is_steady_throughout(state, steps));
        lemma_stream(state, steps);
    } else {
        let before = steps.drop_last();
        assert(before =~= steps.take(steps.len() - 1));
        lemma_history(state, before);
        let h = history(state, before);
        lemma_steady(h, state.operands, steps);
        assert(is_steady_throughout(state, steps)) by {
            assert forall|k: int| 0 <= k < steps.len() implies is_steady(
                history(state, #[trigger] steps.take(k)),
                steps[k],
            ) by {
                if k < before.len() {
                    assert(before.take(k) =~= steps.take(k));
                    assert(before[k] == steps[k]);
                } else {
                    assert(steps.take(k) =~= before);
                }
            }
        }
        lemma_recorded(h, state.operands, steps);
        lemma_stream(state, steps);
    }
}

spec fn is_cleared<T, Y: RobustnessSemantics>(state: BinaryState<T, Y>) -> bool {
    state == state.cleared()
}

/// Over any two operands, whatever they are and however far they look ahead, every verdict of a
/// delayed conjunction is the conjunction of what its operands say at that time, and every
/// verdict of a disjunction the disjunction: of the newest verdict of each operand by then.
/// Verdicts come in time order, at verdicts of an operand that the other one has come to.
pub proof fn verdicts_combine_those_of_the_operands<T, Y: RobustnessSemantics>(
    state: BinaryState<T, Y>,
    steps: Seq<Step<T>>,
    k: int,
) -> (res: (int, int))
    requires
        is_fresh(state),
        !state.eager,
        !state.rosi,
        report_steadily(state.operands, steps),
        0 <= k < streamed(state, steps).len(),
    ensures
        ({
            let out = streamed(state, steps);
            let left = left_said(state.operands, steps);
            let right = right_said(state.operands, steps);
            let t = out[k].timestamp;
            let (i, j) = res;
            &&& 0 <= i < left.len()
            &&& left[i].timestamp <= t
            &&& i + 1 < left.len() ==> t < left[i + 1].timestamp
            &&& 0 <= j < right.len()
            &&& right[j].timestamp <= t
            &&& j + 1 < right.len() ==> t < right[j + 1].timestamp
            &&& left[i].timestamp == t || right[j].timestamp == t
            &&& t <= left.last().timestamp
            &&& t <= right.last().timestamp
            &&& out[k].value == match state.connective {
                Connective::And => Y::and_spec(left[i].value, right[j].value),
                Connective::Or => Y::or_spec(left[i].value, right[j].value),
            }
            &&& k + 1 < out.len() ==> t < out[k + 1].timestamp
        }),
{
    let h = history(state, steps);
    let p = h.pairing();
    let times = p.breakpoints(None);
    let out = streamed(state, steps);
    let left = left_said(state.operands, steps);
    let right = right_said(state.operands, steps);
    let t = out[k].timestamp;
    lemma_history(state, steps);
    merged_lists_every_timestamp(left, right);
    answers_are_sound_and_complete(p, times);
    assert(times.contains(out[k].timestamp));
    lemma_count_upto(left, t);
    lemma_count_upto(right, t);
    let i = count_upto(left, t) - 1;
    let j = count_upto(right, t) - 1;
    assert(in_force(left, t) is Some && in_force(right, t) is Some);
    lemma_entry_is_newest(left, t);
    lemma_entry_is_newest(right, t);
    assert(p.answer(out[k].timestamp) is Emit);
    (i, j)
}

/// An entry at a time is the newest one by then.
proof fn lemma_entry_is_newest<Y>(s: Seq<Step<Y>>, t: Time)
    requires
        in_order(s),
    ensures
        has_entry_at(s, t) ==> count_upto(s, t) > 0 && s[count_upto(s, t) - 1].timestamp == t,
{
    lemma_count_upto(s, t);
    let n = count_upto(s, t);
    if has_entry_at(s, t) {
        let i = choose|i: int| 0 <= i < s.len() && (#[trigger] s[i]).timestamp == t;
        assert(i < n);
        assert(i < n - 1 ==> s[i].timestamp < s[n - 1].timestamp);
    }
}

/// Nothing is left out: over any two operands, every time at which one of them has a verdict is
/// answered as soon as both have come to it, if both have begun by then. So after every step of
/// a trace exactly these times have been answered.
pub proof fn joint_verdicts_are_all_given<T, Y: RobustnessSemantics>(
    state: BinaryState<T, Y>,
    steps: Seq<Step<T>>,
    t: Time,
) -> (k: int)
    requires
        is_fresh(state),
        !state.eager,
        !state.rosi,
        report_steadily(state.operands, steps),
        ({
            let left = left_said(state.operands, steps);
            let right = right_said(state.operands, steps);
            &&& left.len() > 0 && left[0].timestamp <= t <= left.last().timestamp
            &&& right.len() > 0 && right[0].timestamp <= t <= right.last().timestamp
            &&& (exists|i: int| 0 <= i < left.len() && (#[trigger] left[i]).timestamp == t) || (
            exists|j: int| 0 <= j < right.len() && (#[trigger] right[j]).timestamp == t)
        }),
    ensures
        0 <= k < streamed(state, steps).len(),
        streamed(state, steps)[k].timestamp == t,
{
    let h = history(state, steps);
    let p = h.pairing();
    let times = p.breakpoints(None);
    let out = streamed(state, steps);
    let left = left_said(state.operands, steps);
    let right = right_said(state.operands, steps);
    lemma_history(state, steps);
    merged_lists_every_timestamp(left, right);
    answers_are_sound_and_complete(p, times);
    lemma_count_upto(left, t);
    lemma_count_upto(right, t);
    assert(count_upto(left, t) > 0 && count_upto(right, t) > 0);
    assert(left[count_upto(left, t) - 1].held_until == FOREVER);
    assert(right[count_upto(right, t) - 1].held_until == FOREVER);
    assert(t <= MAX_TIME) by {
        assert(left[left.len() - 1].timestamp <= MAX_TIME);
    }
    assert(has_entry_at(left, t) || has_entry_at(right, t));
    assert(times.contains(t));
    let i = choose|i: int| 0 <= i < times.len() && times[i] == t;
    assert(reached(p.joint(), times[i]));
    assert(p.answer(times[i]) is Emit);
    let step = Step::spec_new("output", p.answer(t)->Emit_0, t);
    let k = choose|k: int| 0 <= k < out.len() && out[k] == step;
    k
}

spec fn pair_of<T>(
    operands: OperandsState<T, bool>,
    connective: Connective,
    steps: Seq<Step<T>>,
) -> Pair {
    Pair { left: left_said(operands, steps), right: right_said(operands, steps), connective }
}

proof fn lemma_eager_run<T>(state: BinaryState<T, bool>, steps: Seq<Step<T>>) -> (res: (int, int))
    requires
        is_fresh(state),
        state.eager,
        !state.rosi,
        report_steadily(state.operands, steps),
    ensures
        keeps_up(
            run(state, steps),
            pair_of(state.operands, state.connective, steps),
            res.0,
            res.1,
            streamed(state, steps),
        ),
        has_operands(run(state, steps), state.operands, steps),
    decreases steps.len(),
{
    let q = pair_of(state.operands, state.connective, steps);
    if steps.len() == 0 {
        assert(q.left.skip(0) =~= state.left_cache);
        assert(q.right.skip(0) =~= state.right_cache);
        (0, 0)
    } else {
        let before = steps.drop_last();
        let (i, j) = lemma_eager_run(state, before);
        let s = run(state, before);
        let p = pair_of(state.operands, state.connective, before);
        assert(advances(s, p, q, steps.last()));
        lemma_step(s, p, q, i, j, streamed(state, before), steps.last())
    }
}

/// Over any two operands, whatever they are and however far they look ahead, every verdict of an
/// eager conjunction or disjunction is one of two things. It combines the newest verdicts of
/// both operands by then, where both have come to that time; or one operand settles it: false
/// a conjunction, true a disjunction. It is at a verdict of one of them, and no time is answered
/// twice. Here `res` gives the places of these verdicts, and which case it is.
pub proof fn eager_verdicts_combine_or_are_settled<T>(
    state: BinaryState<T, bool>,
    steps: Seq<Step<T>>,
    k: int,
) -> (res: (int, int))
    requires
        is_fresh(state),
        state.eager,
        !state.rosi,
        report_steadily(state.operands, steps),
        0 <= k < streamed(state, steps).len(),
    ensures
        ({
            let out = streamed(state, steps);
            let left = left_said(state.operands, steps);
            let right = right_said(state.operands, steps);
            let t = out[k].timestamp;
            let v = out[k].value;
            let (i, j) = res;
            let by_left = 0 <= i < left.len() && left[i].timestamp <= t && (i + 1 < left.len() ==> t
                < left[i + 1].timestamp) && t <= left.last().timestamp;
            let by_right = 0 <= j < right.len() && right[j].timestamp <= t && (j + 1 < right.len()
                ==> t < right[j + 1].timestamp) && t <= right.last().timestamp;
            &&& match state.connective {
                Connective::And => {
                    ||| by_left && by_right && v == (left[i].value && right[j].value)
                    ||| by_left && !left[i].value && !v
                    ||| by_right && !right[j].value && !v
                },
                Connective::Or => {
                    ||| by_left && by_right && v == (left[i].value || right[j].value)
                    ||| by_left && left[i].value && v
                    ||| by_right && right[j].value && v
                },
            }
            &&& (exists|n: int| 0 <= n < left.len() && (#[trigger] left[n]).timestamp == t) || (
            exists|n: int| 0 <= n < right.len() && (#[trigger] right[n]).timestamp == t)
            &&& forall|m: int|
                0 <= m < out.len() && m != k ==> (#[trigger] out[m]).timestamp != t
        }),
{
    let out = streamed(state, steps);
    let p = pair_of(state.operands, state.connective, steps);
    let t = out[k].timestamp;
    lemma_eager_run(state, steps);
    assert(p.justifies(out[k]));
    lemma_count_upto(p.left, t);
    lemma_count_upto(p.right, t);
    (count_upto(p.left, t) - 1, count_upto(p.right, t) - 1)
}

/// Nothing that both operands have come to is left out of eager output either.
pub proof fn eager_output_leaves_nothing_out<T>(
    state: BinaryState<T, bool>,
    steps: Seq<Step<T>>,
    t: Time,
) -> (k: int)
    requires
        is_fresh(state),
        state.eager,
        !state.rosi,
        report_steadily(state.operands, steps),
        ({
            let left = left_said(state.operands, steps);
            let right = right_said(state.operands, steps);
            &&& left.len() > 0 && left[0].timestamp <= t <= left.last().timestamp
            &&& right.len() > 0 && right[0].timestamp <= t <= right.last().timestamp
            &&& (exists|i: int| 0 <= i < left.len() && (#[trigger] left[i]).timestamp == t) || (
            exists|j: int| 0 <= j < right.len() && (#[trigger] right[j]).timestamp == t)
        }),
    ensures
        0 <= k < streamed(state, steps).len(),
        streamed(state, steps)[k].timestamp == t,
{
    let out = streamed(state, steps);
    let p = pair_of(state.operands, state.connective, steps);
    lemma_eager_run(state, steps);
    lemma_count_upto(p.left, t);
    lemma_count_upto(p.right, t);
    assert(count_upto(p.left, t) > 0 && count_upto(p.right, t) > 0);
    assert(p.left[count_upto(p.left, t) - 1].held_until == FOREVER);
    assert(p.right[count_upto(p.right, t) - 1].held_until == FOREVER);
    assert(t <= MAX_TIME) by {
        assert(p.left[p.left.len() - 1].timestamp <= MAX_TIME);
    }
    assert(has_entry_at(p.left, t) || has_entry_at(p.right, t));
    let step = Step::spec_new("output", p.combined(t), t);
    assert(out.contains(step));
    let k = choose|k: int| 0 <= k < out.len() && out[k] == step;
    k
}

} // verus!
