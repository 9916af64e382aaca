//! Conjunction and disjunction with refinable verdicts: that the intervals given for a timestamp
//! only narrow, and over whole traces of two predicates on signals held between their samples,
//! what they narrow to.

use crate::atomic_operators::AtomicState;
use crate::atomic_trace::{held_at, is_held, is_sampled_at, last_sample, lemma_emits};
use crate::atomic_trace::{lemma_rises_before, lemma_unchanged, lemma_verdicts, lemma_verdicts_grow};
use crate::atomic_trace::{rises_per_signal, routed, signal_of, verdicts_of};
use crate::binary_node::BinaryState;
use crate::binary_operators::{answers_are_sound_and_complete, joint, merged_lists_every_timestamp};
use crate::binary_operators::{reached, Answer, Connective, Pairing};
use crate::binary_stream_laws::{held_on, newest, run, streamed};
use crate::binary_trace::{extends, is_forgotten, lemma_appended, lemma_entry_kept, lemma_extends};
use crate::binary_trace::{lemma_pruned_up_to_joint, lemma_read_left, lemma_skipped};
use crate::binary_trace_laws::{emitted, joined, joint_timestamps_are_answered};
use crate::operator::{Event, Machine};
use crate::ring_buffer::{all_upto, has_entry_at, in_force, in_order, Step};
use crate::semantics::{Robustness, RobustnessInterval, RobustnessSemantics};
use crate::time::{Time, MAX_TIME};
use crate::until_refinement_laws::{lemma_point_verdict, point};
use crate::until_trace_laws::lemma_held_stays;
use vstd::prelude::*;

verus! {

/// Whatever the operands are, an interval given for a timestamp only narrows as long as what is
/// read of each of them there does.
pub proof fn refinable_answer_only_narrows(
    pairing: Pairing<RobustnessInterval>,
    later: Pairing<RobustnessInterval>,
    t: Time,
    before: RobustnessInterval,
    after: RobustnessInterval,
)
    requires
        pairing.rosi,
        later.rosi,
        pairing.connective == later.connective,
        reached(pairing.joint(), t),
        reached(later.joint(), t),
        pairing.left.read(true, t) matches Some(l) ==> (later.left.read(true, t) matches Some(l2)
            ==> l2.within(l)),
        pairing.right.read(true, t) matches Some(r) ==> (later.right.read(true, t) matches Some(r2)
            ==> r2.within(r)),
        pairing.answer(t) == Answer::Emit(before),
        later.answer(t) == Answer::Emit(after),
    ensures
        after.within(before),
{
}

/// Two operands have said `left` and `right`, in time order, and what is said is held on.
pub open spec fn is_said<Y>(left: Seq<Step<Y>>, right: Seq<Step<Y>>) -> bool {
    &&& in_order(left)
    &&& in_order(right)
    &&& all_upto(left, MAX_TIME)
    &&& all_upto(right, MAX_TIME)
    &&& held_on(left)
    &&& held_on(right)
}

/// `s` gives refinable verdicts over operands that have said `left` and `right` and look at no
/// time but the present. It has forgotten the first `i` and `j` of their verdicts.
spec fn refines<T, Y: RobustnessSemantics>(
    s: BinaryState<T, Y>,
    left: Seq<Step<Y>>,
    right: Seq<Step<Y>>,
    i: int,
    j: int,
) -> bool {
    let shared = joint(newest(left), newest(right));
    &&& is_said(left, right)
    &&& s.rosi
    &&& s.left_lookahead == 0
    &&& s.right_lookahead == 0
    &&& s.left_frontier == newest(left)
    &&& s.right_frontier == newest(right)
    &&& is_forgotten(s.left_cache, left, i, shared)
    &&& is_forgotten(s.right_cache, right, j, shared)
    &&& s.mark matches Some(m) ==> reached(shared, m)
}

/// A step takes the operands from what they have said to `left` and `right`.
spec fn advances<T, Y: RobustnessSemantics>(
    s: BinaryState<T, Y>,
    left: Seq<Step<Y>>,
    right: Seq<Step<Y>>,
    more_left: Seq<Step<Y>>,
    more_right: Seq<Step<Y>>,
    step: Step<T>,
) -> bool {
    &&& is_said(more_left, more_right)
    &&& more_left == left + s.operands.left_emits(Event::Sample(step))
    &&& more_right == right + s.operands.right_emits(Event::Sample(step))
    &&& s.operands.next(Event::Sample(step)).left.known_now() is None
    &&& s.operands.next(Event::Sample(step)).right.known_now() is None
}

/// The sample is handed to the operands.
proof fn lemma_taken<T, Y: RobustnessSemantics>(
    s: BinaryState<T, Y>,
    left: Seq<Step<Y>>,
    right: Seq<Step<Y>>,
    more_left: Seq<Step<Y>>,
    more_right: Seq<Step<Y>>,
    i: int,
    j: int,
    step: Step<T>,
)
    requires
        refines(s, left, right, i, j),
        advances(s, left, right, more_left, more_right, step),
    ensures
        refines(s.taken_in(step), more_left, more_right, i, j),
        is_forgotten(
            s.taken_in(step).left_cache,
            more_left,
            i,
            joint(newest(left), newest(right)),
        ),
        is_forgotten(
            s.taken_in(step).right_cache,
            more_right,
            j,
            joint(newest(left), newest(right)),
        ),
        extends(left, more_left),
        extends(right, more_right),
        s.taken_in(step).connective == s.connective,
        s.taken_in(step).wf(),
{
    let shared = joint(newest(left), newest(right));
    let l = s.operands.left_emits(Event::Sample(step));
    let r = s.operands.right_emits(Event::Sample(step));
    lemma_extends(left, l);
    lemma_extends(right, r);
    lemma_appended(left, l, i, shared, true, s.mark);
    lemma_appended(right, r, j, shared, true, s.mark);
    let now = joint(newest(more_left), newest(more_right));
    assert forall|t: Time| reached(shared, t) implies #[trigger] reached(now, t) by {
        assert(reached(newest(more_left), t) && reached(newest(more_right), t));
    }
    lemma_skipped(more_left, i);
    lemma_skipped(more_right, j);
}

/// What is emitted: at breakpoints of either operand that both have come to, what both come to.
spec fn is_combination<Y: RobustnessSemantics>(
    connective: Connective,
    left: Seq<Step<Y>>,
    right: Seq<Step<Y>>,
    step: Step<Y>,
) -> bool {
    let t = step.timestamp;
    &&& has_entry_at(left, t) || has_entry_at(right, t)
    &&& reached(joint(newest(left), newest(right)), t)
    &&& in_force(left, t) is Some
    &&& in_force(right, t) is Some
    &&& step.value == connective.combined(in_force(left, t)->0.value, in_force(right, t)->0.value)
}

/// What is emitted on a step combines what both operands have said by then; and a breakpoint
/// that both come to on the step is answered.
proof fn lemma_emission<T, Y: RobustnessSemantics>(
    s: BinaryState<T, Y>,
    left: Seq<Step<Y>>,
    right: Seq<Step<Y>>,
    more_left: Seq<Step<Y>>,
    more_right: Seq<Step<Y>>,
    i: int,
    j: int,
    step: Step<T>,
)
    requires
        refines(s, left, right, i, j),
        advances(s, left, right, more_left, more_right, step),
    ensures
        forall|n: int|
            0 <= n < s.emit(Event::Sample(step)).len() ==> is_combination(
                s.connective,
                more_left,
                more_right,
                #[trigger] s.emit(Event::Sample(step))[n],
            ),
        forall|t: Time|
            (has_entry_at(more_left, t) || has_entry_at(more_right, t)) && in_force(
                more_left,
                t,
            ) is Some && in_force(more_right, t) is Some && reached(
                joint(newest(more_left), newest(more_right)),
                t,
            ) && !reached(joint(newest(left), newest(right)), t) ==> #[trigger] has_entry_at(
                s.emit(Event::Sample(step)),
                t,
            ),
{
    let taken = s.taken_in(step);
    let out = taken.available();
    let old = joint(newest(left), newest(right));
    let now = joint(newest(more_left), newest(more_right));
    let pairing = taken.pairing();
    let times = pairing.breakpoints(None);
    lemma_taken(s, left, right, more_left, more_right, i, j, step);
    merged_lists_every_timestamp(taken.left_cache, taken.right_cache);
    answers_are_sound_and_complete(pairing, times);
    assert(out == pairing.answers(times));
    assert forall|n: int| 0 <= n < out.len() implies is_combination(
        s.connective,
        more_left,
        more_right,
        #[trigger] out[n],
    ) by {
        let t = out[n].timestamp;
        lemma_read_left(more_left, i, now, t);
        lemma_read_left(more_right, j, now, t);
        lemma_entry_kept(more_left, i, t);
        lemma_entry_kept(more_right, j, t);
    }
    assert forall|t: Time|
        (has_entry_at(more_left, t) || has_entry_at(more_right, t)) && in_force(
            more_left,
            t,
        ) is Some && in_force(more_right, t) is Some && reached(now, t) && !reached(
            old,
            t,
        ) implies #[trigger] has_entry_at(out, t) by {
        lemma_read_left(more_left, i, old, t);
        lemma_read_left(more_right, j, old, t);
        assert(times.contains(t));
        let n = choose|n: int| 0 <= n < times.len() && times[n] == t;
        assert(pairing.answer(times[n]) is Emit);
        let target = Step::spec_new("output", pairing.answer(t)->Emit_0, t);
        let k = choose|k: int| 0 <= k < out.len() && out[k] == target;
        assert(out[k].timestamp == t);
    }
}

/// An operator with refinable verdicts keeps up with its operands.
proof fn lemma_step<T, Y: RobustnessSemantics>(
    s: BinaryState<T, Y>,
    left: Seq<Step<Y>>,
    right: Seq<Step<Y>>,
    more_left: Seq<Step<Y>>,
    more_right: Seq<Step<Y>>,
    i: int,
    j: int,
    step: Step<T>,
) -> (res: (int, int))
    requires
        refines(s, left, right, i, j),
        advances(s, left, right, more_left, more_right, step),
    ensures
        refines(
            Machine::<T, Y>::next(s, Event::Sample(step)),
            more_left,
            more_right,
            res.0,
            res.1,
        ),
        Machine::<T, Y>::next(s, Event::Sample(step)).connective == s.connective,
{
    let taken = s.taken_in(step);
    let out = taken.available();
    let now = joint(newest(more_left), newest(more_right));
    lemma_taken(s, left, right, more_left, more_right, i, j, step);
    lemma_emission(s, left, right, more_left, more_right, i, j, step);
    if out.len() > 0 {
        assert(is_combination(
            s.connective,
            more_left,
            more_right,
            s.emit(Event::Sample(step))[0],
        ));
    }
    let i2 = lemma_pruned_up_to_joint(more_left, i, 0, now);
    let j2 = lemma_pruned_up_to_joint(more_right, j, 0, now);
    (i2, j2)
}

/// The operands are two predicates that are handed the samples they read.
spec fn has_operands(
    s: BinaryState<i64, RobustnessInterval>,
    a: AtomicState<i64>,
    b: AtomicState<i64>,
) -> bool {
    s.operands == routed::<i64, RobustnessInterval>(a, b)
}

/// A step takes two predicates from what they say of a trace to what they say of it with the
/// step.
proof fn lemma_advances(
    s: BinaryState<i64, RobustnessInterval>,
    a: AtomicState<i64>,
    b: AtomicState<i64>,
    steps: Seq<Step<i64>>,
)
    requires
        is_held(a),
        is_held(b),
        rises_per_signal(steps),
        steps.len() > 0,
        has_operands(s, a, b),
    ensures
        has_operands(
            Machine::<i64, RobustnessInterval>::next(s, Event::Sample(steps.last())),
            a,
            b,
        ),
        advances(
            s,
            verdicts_of::<i64, RobustnessInterval>(a, steps.drop_last()),
            verdicts_of::<i64, RobustnessInterval>(b, steps.drop_last()),
            verdicts_of::<i64, RobustnessInterval>(a, steps),
            verdicts_of::<i64, RobustnessInterval>(b, steps),
            steps.last(),
        ),
{
    lemma_emits::<i64, RobustnessInterval>(a, b, steps.last());
    lemma_unchanged::<i64, RobustnessInterval>(a, b, steps.last());
    lemma_verdicts_grow::<i64, RobustnessInterval>(a, steps);
    lemma_verdicts_grow::<i64, RobustnessInterval>(b, steps);
    lemma_verdicts::<i64, RobustnessInterval>(a, steps);
    lemma_verdicts::<i64, RobustnessInterval>(b, steps);
}

/// A connective with refinable verdicts over two predicates, before the first sample.
pub open spec fn refining(
    a: AtomicState<i64>,
    b: AtomicState<i64>,
    connective: Connective,
    eager: bool,
) -> BinaryState<i64, RobustnessInterval> {
    joined::<i64, RobustnessInterval>(a, b, connective, eager, true)
}

proof fn lemma_run(
    a: AtomicState<i64>,
    b: AtomicState<i64>,
    connective: Connective,
    eager: bool,
    steps: Seq<Step<i64>>,
) -> (res: (int, int))
    requires
        is_held(a),
        is_held(b),
        rises_per_signal(steps),
    ensures
        ({
            let s = run(refining(a, b, connective, eager), steps);
            &&& has_operands(s, a, b)
            &&& s.connective == connective
            &&& refines(
                s,
                verdicts_of::<i64, RobustnessInterval>(a, steps),
                verdicts_of::<i64, RobustnessInterval>(b, steps),
                res.0,
                res.1,
            )
        }),
    decreases steps.len(),
{
    let state = refining(a, b, connective, eager);
    let left = verdicts_of::<i64, RobustnessInterval>(a, steps);
    let right = verdicts_of::<i64, RobustnessInterval>(b, steps);
    if steps.len() == 0 {
        assert(left.skip(0) =~= state.left_cache);
        assert(right.skip(0) =~= state.right_cache);
        (0, 0)
    } else {
        let before = steps.drop_last();
        assert(before =~= steps.take(steps.len() - 1));
        lemma_rises_before(steps, steps.len() - 1);
        let (i, j) = lemma_run(a, b, connective, eager, before);
        let s = run(state, before);
        lemma_advances(s, a, b, steps);
        lemma_step(
            s,
            verdicts_of::<i64, RobustnessInterval>(a, before),
            verdicts_of::<i64, RobustnessInterval>(b, before),
            left,
            right,
            i,
            j,
            steps.last(),
        )
    }
}

/// What both predicates come to at `t`, of the values the signals hold over a trace.
pub open spec fn worth_at(
    a: AtomicState<i64>,
    b: AtomicState<i64>,
    connective: Connective,
    steps: Seq<Step<i64>>,
    t: Time,
) -> Robustness {
    connective.combined(
        a.comparison.verdict::<Robustness>(a.context, held_at(steps, signal_of(a), t)->0),
        b.comparison.verdict::<Robustness>(b.context, held_at(steps, signal_of(b), t)->0),
    )
}

/// One of two signals is sampled at `t`, and both have a value there and were sampled since.
pub open spec fn is_joint(
    a: AtomicState<i64>,
    b: AtomicState<i64>,
    steps: Seq<Step<i64>>,
    t: Time,
) -> bool {
    let x = signal_of(a);
    let y = signal_of(b);
    &&& is_sampled_at(steps, x, t) || is_sampled_at(steps, y, t)
    &&& held_at(steps, x, t) is Some
    &&& held_at(steps, y, t) is Some
    &&& reached(joint(last_sample(steps, x), last_sample(steps, y)), t)
}

/// Every interval that is given combines what both predicates have said.
proof fn lemma_given_combines(
    a: AtomicState<i64>,
    b: AtomicState<i64>,
    connective: Connective,
    eager: bool,
    steps: Seq<Step<i64>>,
    k: int,
)
    requires
        is_held(a),
        is_held(b),
        rises_per_signal(steps),
        0 <= k < steps.len(),
    ensures
        ({
            let out = emitted(refining(a, b, connective, eager), steps, k);
            let left = verdicts_of::<i64, RobustnessInterval>(a, steps.take(k));
            let right = verdicts_of::<i64, RobustnessInterval>(b, steps.take(k));
            let more_left = verdicts_of::<i64, RobustnessInterval>(a, steps.take(k + 1));
            let more_right = verdicts_of::<i64, RobustnessInterval>(b, steps.take(k + 1));
            &&& forall|n: int|
                0 <= n < out.len() ==> is_combination(
                    connective,
                    more_left,
                    more_right,
                    #[trigger] out[n],
                )
            &&& forall|t: Time|
                (has_entry_at(more_left, t) || has_entry_at(more_right, t)) && in_force(
                    more_left,
                    t,
                ) is Some && in_force(more_right, t) is Some && reached(
                    joint(newest(more_left), newest(more_right)),
                    t,
                ) && !reached(joint(newest(left), newest(right)), t) ==> #[trigger] has_entry_at(
                    out,
                    t,
                )
            &&& extends(left, more_left)
            &&& extends(right, more_right)
        }),
{
    let seen = steps.take(k + 1);
    let before = steps.take(k);
    let s = run(refining(a, b, connective, eager), before);
    let left = verdicts_of::<i64, RobustnessInterval>(a, before);
    let right = verdicts_of::<i64, RobustnessInterval>(b, before);
    let more_left = verdicts_of::<i64, RobustnessInterval>(a, seen);
    let more_right = verdicts_of::<i64, RobustnessInterval>(b, seen);
    assert(seen.drop_last() =~= before);
    assert(seen.last() == steps[k]);
    lemma_rises_before(steps, k);
    lemma_rises_before(steps, k + 1);
    let (i, j) = lemma_run(a, b, connective, eager, before);
    lemma_advances(s, a, b, seen);
    lemma_emission(s, left, right, more_left, more_right, i, j, steps[k]);
    lemma_taken(s, left, right, more_left, more_right, i, j, steps[k]);
}

/// What two predicates are known to say on a step, in terms of what their signals hold over the
/// whole trace.
proof fn lemma_combination(
    a: AtomicState<i64>,
    b: AtomicState<i64>,
    connective: Connective,
    steps: Seq<Step<i64>>,
    k: int,
    out: Step<RobustnessInterval>,
)
    requires
        is_held(a),
        is_held(b),
        rises_per_signal(steps),
        0 <= k <= steps.len(),
        is_combination(
            connective,
            verdicts_of::<i64, RobustnessInterval>(a, steps.take(k)),
            verdicts_of::<i64, RobustnessInterval>(b, steps.take(k)),
            out,
        ),
    ensures
        is_joint(a, b, steps.take(k), out.timestamp),
        out.value == point(worth_at(a, b, connective, steps, out.timestamp)),
{
    let t = out.timestamp;
    lemma_rises_before(steps, k);
    lemma_known(a, steps, k, t);
    lemma_known(b, steps, k, t);
}

/// What a predicate is known to say by a step.
proof fn lemma_known(atom: AtomicState<i64>, steps: Seq<Step<i64>>, k: int, t: Time)
    requires
        is_held(atom),
        rises_per_signal(steps),
        0 <= k <= steps.len(),
        ({
            let said = verdicts_of::<i64, RobustnessInterval>(atom, steps.take(k));
            reached(newest(said), t) && in_force(said, t) is Some
        }),
    ensures
        ({
            let seen = steps.take(k);
            let said = verdicts_of::<i64, RobustnessInterval>(atom, seen);
            &&& t <= MAX_TIME
            &&& held_at(seen, signal_of(atom), t) is Some
            &&& newest(said) == last_sample(seen, signal_of(atom))
            &&& has_entry_at(said, t) == is_sampled_at(seen, signal_of(atom), t)
            &&& in_force(said, t)->0.value == point(
                atom.comparison.verdict::<Robustness>(
                    atom.context,
                    held_at(steps, signal_of(atom), t)->0,
                ),
            )
        }),
{
    let seen = steps.take(k);
    let said = verdicts_of::<i64, RobustnessInterval>(atom, seen);
    lemma_rises_before(steps, k);
    lemma_verdicts::<i64, RobustnessInterval>(atom, seen);
    assert(said[said.len() - 1].timestamp <= MAX_TIME);
    lemma_held_stays::<i64, RobustnessInterval>(atom, steps, k, t);
    lemma_verdicts::<i64, RobustnessInterval>(atom, steps);
    assert(in_force(verdicts_of::<i64, RobustnessInterval>(atom, steps), t) is Some);
    lemma_point_verdict(atom, held_at(steps, signal_of(atom), t)->0);
}

/// Every interval that is given leaves just what both predicates come to.
proof fn lemma_given_is_point(
    a: AtomicState<i64>,
    b: AtomicState<i64>,
    connective: Connective,
    eager: bool,
    steps: Seq<Step<i64>>,
    k: int,
    n: int,
)
    requires
        is_held(a),
        is_held(b),
        rises_per_signal(steps),
        0 <= k < steps.len(),
        0 <= n < emitted(refining(a, b, connective, eager), steps, k).len(),
    ensures
        ({
            let out = emitted(refining(a, b, connective, eager), steps, k)[n];
            &&& is_joint(a, b, steps.take(k + 1), out.timestamp)
            &&& out.value == point(worth_at(a, b, connective, steps, out.timestamp))
        }),
{
    lemma_given_combines(a, b, connective, eager, steps, k);
    let out = emitted(refining(a, b, connective, eager), steps, k);
    lemma_combination(a, b, connective, steps, k + 1, out[n]);
}

/// Successive intervals that a refinable connective gives for one timestamp over a trace only
/// narrow. Over predicates each is a point from the start, so that they are the same.
pub proof fn connective_intervals_only_narrow(
    a: AtomicState<i64>,
    b: AtomicState<i64>,
    connective: Connective,
    eager: bool,
    steps: Seq<Step<i64>>,
    i: int,
    m: int,
    k: int,
    n: int,
)
    requires
        is_held(a),
        is_held(b),
        rises_per_signal(steps),
        0 <= i <= k < steps.len(),
        0 <= m < emitted(refining(a, b, connective, eager), steps, i).len(),
        0 <= n < emitted(refining(a, b, connective, eager), steps, k).len(),
        emitted(refining(a, b, connective, eager), steps, i)[m].timestamp == emitted(
            refining(a, b, connective, eager),
            steps,
            k,
        )[n].timestamp,
    ensures
        emitted(refining(a, b, connective, eager), steps, k)[n].value.within(
            emitted(refining(a, b, connective, eager), steps, i)[m].value,
        ),
        emitted(refining(a, b, connective, eager), steps, k)[n].value == emitted(
            refining(a, b, connective, eager),
            steps,
            i,
        )[m].value,
{
    lemma_given_is_point(a, b, connective, eager, steps, i, m);
    lemma_given_is_point(a, b, connective, eager, steps, k, n);
}

/// What a delayed connective has answered by a step.
proof fn lemma_delayed(
    a: AtomicState<i64>,
    b: AtomicState<i64>,
    connective: Connective,
    steps: Seq<Step<i64>>,
    k: int,
    n: int,
)
    requires
        is_held(a),
        is_held(b),
        rises_per_signal(steps),
        0 <= k < steps.len(),
        0 <= n < emitted(joined::<i64, Robustness>(a, b, connective, false, false), steps, k).len(),
    ensures
        ({
            let out = emitted(
                joined::<i64, Robustness>(a, b, connective, false, false),
                steps,
                k,
            )[n];
            &&& out.value == worth_at(a, b, connective, steps, out.timestamp)
            &&& is_joint(a, b, steps.take(k + 1), out.timestamp)
            &&& forall|i: int|
                0 <= i <= k ==> !is_joint(a, b, #[trigger] steps.take(i), out.timestamp)
        }),
{
    let state = joined::<i64, Robustness>(a, b, connective, false, false);
    let out = emitted(state, steps, k);
    let t = out[n].timestamp;
    let before = steps.take(k);
    let seen = steps.take(k + 1);
    assert(seen.drop_last() =~= before);
    assert(seen.last() == steps[k]);
    lemma_rises_before(steps, k + 1);
    joint_timestamps_are_answered::<i64, Robustness>(a, b, connective, seen);
    let all = streamed(state, seen);
    let old = streamed(state, before);
    assert(all == old + out);
    assert(all[old.len() + n] == out[n]);
    assert(has_entry_at(all, t));
    assert forall|i: int| 0 <= i <= k implies !is_joint(a, b, #[trigger] steps.take(i), t) by {
        if is_joint(a, b, steps.take(i), t) {
            lemma_rises_before(steps, i);
            joint_timestamps_are_answered::<i64, Robustness>(a, b, connective, steps.take(i));
            assert(has_entry_at(streamed(state, steps.take(i)), t));
            lemma_streamed_grows(state, steps, i, k);
            let m = choose|m: int|
                0 <= m < streamed(state, steps.take(i)).len() && (#[trigger] streamed(
                    state,
                    steps.take(i),
                )[m]).timestamp == t;
            assert(all[m] == old[m]);
            assert(old[m] == streamed(state, steps.take(i))[m]);
            assert(all[m].timestamp < all[old.len() + n].timestamp);
        }
    }
    lemma_held_value(a, b, connective, steps, k + 1, t);
}

/// What was emitted over the beginning of a trace is the beginning of what is emitted over it.
proof fn lemma_streamed_grows<V, Y: RobustnessSemantics>(
    state: BinaryState<V, Y>,
    steps: Seq<Step<V>>,
    i: int,
    k: int,
)
    requires
        0 <= i <= k <= steps.len(),
    ensures
        streamed(state, steps.take(i)).len() <= streamed(state, steps.take(k)).len(),
        forall|m: int|
            0 <= m < streamed(state, steps.take(i)).len() ==> #[trigger] streamed(
                state,
                steps.take(i),
            )[m] == streamed(state, steps.take(k))[m],
    decreases k,
{
    if i < k {
        lemma_streamed_grows(state, steps, i, k - 1);
        assert(steps.take(k).drop_last() =~= steps.take(k - 1));
    }
}

/// What two signals are known to hold by a step, they hold over the whole trace.
proof fn lemma_held_value(
    a: AtomicState<i64>,
    b: AtomicState<i64>,
    connective: Connective,
    steps: Seq<Step<i64>>,
    k: int,
    t: Time,
)
    requires
        is_held(a),
        is_held(b),
        rises_per_signal(steps),
        0 <= k <= steps.len(),
        is_joint(a, b, steps.take(k), t),
    ensures
        worth_at(a, b, connective, steps.take(k), t) == worth_at(a, b, connective, steps, t),
{
    lemma_rises_before(steps, k);
    lemma_held_known(a, steps, k, t);
    lemma_held_known(b, steps, k, t);
}

proof fn lemma_held_known(atom: AtomicState<i64>, steps: Seq<Step<i64>>, k: int, t: Time)
    requires
        is_held(atom),
        rises_per_signal(steps),
        0 <= k <= steps.len(),
        reached(last_sample(steps.take(k), signal_of(atom)), t),
        held_at(steps.take(k), signal_of(atom), t) is Some,
    ensures
        atom.comparison.verdict::<Robustness>(
            atom.context,
            held_at(steps.take(k), signal_of(atom), t)->0,
        ) == atom.comparison.verdict::<Robustness>(
            atom.context,
            held_at(steps, signal_of(atom), t)->0,
        ),
{
    let seen = steps.take(k);
    let said = verdicts_of::<i64, Robustness>(atom, seen);
    lemma_rises_before(steps, k);
    lemma_verdicts::<i64, Robustness>(atom, seen);
    lemma_verdicts::<i64, Robustness>(atom, steps);
    assert(said[said.len() - 1].timestamp <= MAX_TIME);
    assert(in_force(said, t) is Some);
    lemma_held_stays::<i64, Robustness>(atom, steps, k, t);
    assert(in_force(verdicts_of::<i64, Robustness>(atom, steps), t) is Some);
}

/// Every interval that a refinable connective gives for a timestamp over a trace contains the
/// robustness value that the delayed one answers with there; over predicates it is the interval
/// of just that value, and is not given before the delayed one answers.
pub proof fn connective_intervals_contain_the_verdict(
    a: AtomicState<i64>,
    b: AtomicState<i64>,
    connective: Connective,
    eager: bool,
    steps: Seq<Step<i64>>,
    i: int,
    m: int,
    k: int,
    n: int,
)
    requires
        is_held(a),
        is_held(b),
        rises_per_signal(steps),
        0 <= i < steps.len(),
        0 <= m < emitted(refining(a, b, connective, eager), steps, i).len(),
        0 <= k < steps.len(),
        0 <= n < emitted(joined::<i64, Robustness>(a, b, connective, false, false), steps, k).len(),
        emitted(refining(a, b, connective, eager), steps, i)[m].timestamp == emitted(
            joined::<i64, Robustness>(a, b, connective, false, false),
            steps,
            k,
        )[n].timestamp,
    ensures
        k <= i,
        ({
            let refined = emitted(refining(a, b, connective, eager), steps, i)[m].value;
            let v = emitted(
                joined::<i64, Robustness>(a, b, connective, false, false),
                steps,
                k,
            )[n].value;
            refined.contains(v) && refined == point(v)
        }),
{
    lemma_given_is_point(a, b, connective, eager, steps, i, m);
    lemma_delayed(a, b, connective, steps, k, n);
    if i < k {
        assert(!is_joint(
            a,
            b,
            steps.take(i + 1),
            emitted(refining(a, b, connective, eager), steps, i)[m].timestamp,
        ));
    }
}

/// When the delayed connective answers with a robustness value, the refinable one gives the
/// interval of that value alone on the same step. What it gives for the timestamp later is the
/// same, so that this is the newest one at the end of the trace.
pub proof fn connective_refinement_ends_at_the_verdict(
    a: AtomicState<i64>,
    b: AtomicState<i64>,
    connective: Connective,
    eager: bool,
    steps: Seq<Step<i64>>,
    k: int,
    n: int,
)
    requires
        is_held(a),
        is_held(b),
        rises_per_signal(steps),
        0 <= k < steps.len(),
        0 <= n < emitted(joined::<i64, Robustness>(a, b, connective, false, false), steps, k).len(),
    ensures
        ({
            let out = emitted(
                joined::<i64, Robustness>(a, b, connective, false, false),
                steps,
                k,
            )[n];
            let refined = emitted(refining(a, b, connective, eager), steps, k);
            exists|m: int|
                0 <= m < refined.len() && (#[trigger] refined[m]).timestamp == out.timestamp
                    && refined[m].value == point(out.value)
        }),
{
    let t = emitted(
        joined::<i64, Robustness>(a, b, connective, false, false),
        steps,
        k,
    )[n].timestamp;
    let refined = emitted(refining(a, b, connective, eager), steps, k);
    lemma_delayed(a, b, connective, steps, k, n);
    lemma_given_combines(a, b, connective, eager, steps, k);
    lemma_newly_joint(a, b, steps, k, t);
    assert(has_entry_at(refined, t));
    let m = choose|m: int| 0 <= m < refined.len() && (#[trigger] refined[m]).timestamp == t;
    lemma_given_is_point(a, b, connective, eager, steps, k, m);
}

/// A timestamp that becomes joint on a step lies past what both predicates had come to.
proof fn lemma_newly_joint(
    a: AtomicState<i64>,
    b: AtomicState<i64>,
    steps: Seq<Step<i64>>,
    k: int,
    t: Time,
)
    requires
        is_held(a),
        is_held(b),
        rises_per_signal(steps),
        0 <= k < steps.len(),
        is_joint(a, b, steps.take(k + 1), t),
        !is_joint(a, b, steps.take(k), t),
        extends(
            verdicts_of::<i64, RobustnessInterval>(a, steps.take(k)),
            verdicts_of::<i64, RobustnessInterval>(a, steps.take(k + 1)),
        ),
        extends(
            verdicts_of::<i64, RobustnessInterval>(b, steps.take(k)),
            verdicts_of::<i64, RobustnessInterval>(b, steps.take(k + 1)),
        ),
    ensures
        ({
            let left = verdicts_of::<i64, RobustnessInterval>(a, steps.take(k));
            let right = verdicts_of::<i64, RobustnessInterval>(b, steps.take(k));
            let more_left = verdicts_of::<i64, RobustnessInterval>(a, steps.take(k + 1));
            let more_right = verdicts_of::<i64, RobustnessInterval>(b, steps.take(k + 1));
            &&& has_entry_at(more_left, t) || has_entry_at(more_right, t)
            &&& in_force(more_left, t) is Some
            &&& in_force(more_right, t) is Some
            &&& reached(joint(newest(more_left), newest(more_right)), t)
            &&& !reached(joint(newest(left), newest(right)), t)
        }),
{
    let before = steps.take(k);
    let seen = steps.take(k + 1);
    let left = verdicts_of::<i64, RobustnessInterval>(a, before);
    let right = verdicts_of::<i64, RobustnessInterval>(b, before);
    let more_left = verdicts_of::<i64, RobustnessInterval>(a, seen);
    let more_right = verdicts_of::<i64, RobustnessInterval>(b, seen);
    lemma_rises_before(steps, k);
    lemma_rises_before(steps, k + 1);
    lemma_verdicts::<i64, RobustnessInterval>(a, before);
    lemma_verdicts::<i64, RobustnessInterval>(b, before);
    lemma_verdicts::<i64, RobustnessInterval>(a, seen);
    lemma_verdicts::<i64, RobustnessInterval>(b, seen);
    assert(more_left[more_left.len() - 1].timestamp <= MAX_TIME);
    assert(has_entry_at(more_left, t) == is_sampled_at(seen, signal_of(a), t));
    assert(has_entry_at(more_right, t) == is_sampled_at(seen, signal_of(b), t));
    assert(in_force(more_left, t) is Some);
    assert(in_force(more_right, t) is Some);
    if reached(joint(newest(left), newest(right)), t) {
        assert(reached(newest(left), t) && reached(newest(right), t));
        assert(in_force(left, t) == in_force(more_left, t));
        assert(in_force(right, t) == in_force(more_right, t));
        assert(has_entry_at(left, t) == has_entry_at(more_left, t));
        assert(has_entry_at(right, t) == has_entry_at(more_right, t));
        assert(has_entry_at(left, t) == is_sampled_at(before, signal_of(a), t));
        assert(has_entry_at(right, t) == is_sampled_at(before, signal_of(b), t));
    }
}

} // verus!
