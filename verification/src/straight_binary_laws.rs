//! Conjunction and disjunction of two predicates, whose signals are held or run straight between
//! their samples, over whole traces: that the answers are true of the signals.

use crate::atomic_operators::AtomicState;
use crate::atomic_trace::{lemma_rises_before, rises_per_signal};
use crate::binary_eager_laws::{advances, each_once, keeps_up, lemma_step, Pair};
use crate::binary_node::BinaryState;
use crate::binary_operators::{answers_are_sound_and_complete, joint, merged_lists_every_timestamp};
use crate::binary_operators::{reached, Answer, Connective};
use crate::binary_stream_laws::{complete, history, is_complete, is_steady, is_steady_throughout};
use crate::binary_stream_laws::{kept, lemma_stream, lemma_taken_in, newest, run, streamed};
use crate::binary_trace_laws::joined;
use crate::operator::{Event, Machine};
use crate::ring_buffer::{has_entry_at, in_force, in_order, Step};
use crate::straight_laws::{is_exact_at, is_read, is_routed_after, lemma_report, lemma_routed_first};
use crate::straight_laws::{lemma_routed_on, said, true_at};
use crate::time::{Time, MAX_TIME};
use vstd::prelude::*;

verus! {

/// `h` holds what both predicates say of a trace.
spec fn records(
    h: BinaryState<i64, bool>,
    a: AtomicState<i64>,
    b: AtomicState<i64>,
    steps: Seq<Step<i64>>,
) -> bool {
    &&& is_routed_after(h.operands, a, b, steps)
    &&& h.left_cache == said::<i64, bool>(a, steps)
    &&& h.right_cache == said::<i64, bool>(b, steps)
    &&& h.left_lookahead == 0
    &&& h.right_lookahead == 0
}

/// The predicates report steadily.
proof fn lemma_steady(
    h: BinaryState<i64, bool>,
    a: AtomicState<i64>,
    b: AtomicState<i64>,
    steps: Seq<Step<i64>>,
)
    requires
        is_read(a),
        is_read(b),
        rises_per_signal(steps),
        steps.len() > 0,
        records(h, a, b, steps.drop_last()),
    ensures
        is_steady(h, steps.last()),
        h.left_cache + h.operands.left_emits(Event::Sample(steps.last())) == said::<i64, bool>(
            a,
            steps,
        ),
        h.right_cache + h.operands.right_emits(Event::Sample(steps.last())) == said::<i64, bool>(
            b,
            steps,
        ),
        is_routed_after(h.operands.next(Event::Sample(steps.last())), a, b, steps),
{
    lemma_routed_on(h.operands, a, b, steps);
    lemma_report(a, steps);
    lemma_report(b, steps);
    let left = h.operands.left_emits(Event::Sample(steps.last()));
    let right = h.operands.right_emits(Event::Sample(steps.last()));
    let l = said::<i64, bool>(a, steps);
    let r = said::<i64, bool>(b, steps);
    assert forall|i: int| 0 <= i < left.len() implies (#[trigger] left[i]).timestamp <= MAX_TIME
        && left[i].held_until == crate::time::FOREVER by {
        assert(left[i] == l[h.left_cache.len() + i]);
    }
    assert forall|i: int| 0 <= i < right.len() implies (#[trigger] right[i]).timestamp <= MAX_TIME
        && right[i].held_until == crate::time::FOREVER by {
        assert(right[i] == r[h.right_cache.len() + i]);
    }
}

/// What a step leaves behind records it, if everything is kept.
proof fn lemma_recorded(
    h: BinaryState<i64, bool>,
    a: AtomicState<i64>,
    b: AtomicState<i64>,
    steps: Seq<Step<i64>>,
)
    requires
        is_read(a),
        is_read(b),
        rises_per_signal(steps),
        steps.len() > 0,
        records(h, a, b, steps.drop_last()),
        is_complete(h),
    ensures
        records(kept(h, steps.last()), a, b, steps),
{
    let last = steps.last();
    lemma_steady(h, a, b, steps);
    assert(h.mark matches Some(m) ==> reached(h.joint(), m)) by {
        merged_lists_every_timestamp(h.left_cache, h.right_cache);
        answers_are_sound_and_complete(h.pairing(), h.pairing().breakpoints(None));
        if complete(h).len() > 0 {
            assert(complete(h).last() == complete(h)[complete(h).len() - 1]);
        }
    }
    lemma_taken_in(h, last);
}

/// In delayed mode the complete history holds what both predicates say.
proof fn lemma_history(
    a: AtomicState<i64>,
    b: AtomicState<i64>,
    connective: Connective,
    steps: Seq<Step<i64>>,
)
    requires
        is_read(a),
        is_read(b),
        rises_per_signal(steps),
    ensures
        ({
            let state = joined::<i64, bool>(a, b, connective, false, false);
            let h = history(state, steps);
            &&& is_steady_throughout(state, steps)
            &&& is_complete(h)
            &&& records(h, a, b, steps)
            &&& h.connective == connective
            &&& streamed(state, steps) == complete(h)
        }),
    decreases steps.len(),
{
    let state = joined::<i64, bool>(a, b, connective, false, false);
    if steps.len() == 0 {
        assert(is_steady_throughout(state, steps));
        lemma_stream(state, steps);
        lemma_routed_first(a, b, steps);
    } else {
        let before = steps.drop_last();
        assert(before =~= steps.take(steps.len() - 1));
        lemma_rises_before(steps, steps.len() - 1);
        lemma_history(a, b, connective, before);
        let h = history(state, before);
        lemma_steady(h, a, b, steps);
        assert(is_steady_throughout(state, steps)) by {
            assert forall|k: int| 0 <= k < steps.len() implies is_steady(
                history(state, #[trigger] steps.take(k)),
                steps[k],
            ) by {
                if k < before.len() {
                    assert(before.take(k) =~= steps.take(k));
                    assert(before[k] == steps[k]);
                } else {
                    assert(steps.take(k) =~= before);
                }
            }
        }
        lemma_recorded(h, a, b, steps);
        lemma_stream(state, steps);
    }
}

/// A delayed connective over two predicates answers exactly at the samples of their signals and
/// at the crossings between them, as far as both predicates have reported, in time order and
/// each time once. Every answer is true of the signals there: it combines what the predicates
/// are from that time on, of signals that are held or run straight, unless a crossing of one of
/// them blurs it.
pub proof fn answers_are_true_of_the_signals(
    a: AtomicState<i64>,
    b: AtomicState<i64>,
    connective: Connective,
    steps: Seq<Step<i64>>,
)
    requires
        is_read(a),
        is_read(b),
        rises_per_signal(steps),
    ensures
        ({
            let out = streamed(joined::<i64, bool>(a, b, connective, false, false), steps);
            let left = said::<i64, bool>(a, steps);
            let right = said::<i64, bool>(b, steps);
            &&& in_order(out)
            &&& forall|t: Time| #[trigger]
                has_entry_at(out, t) <==> {
                    &&& has_entry_at(left, t) || has_entry_at(right, t)
                    &&& in_force(left, t) is Some
                    &&& in_force(right, t) is Some
                    &&& reached(joint(newest(left), newest(right)), t)
                }
            &&& forall|k: int|
                0 <= k < out.len() ==> {
                    let t = (#[trigger] out[k]).timestamp;
                    &&& true_at(a, steps, t) is Some
                    &&& true_at(b, steps, t) is Some
                    &&& is_exact_at(a, steps, t) && is_exact_at(b, steps, t) ==> out[k].value
                        == connective.combined(true_at(a, steps, t)->0, true_at(b, steps, t)->0)
                }
        }),
{
    let state = joined::<i64, bool>(a, b, connective, false, false);
    let h = history(state, steps);
    let p = h.pairing();
    let times = p.breakpoints(None);
    let out = streamed(state, steps);
    let left = said::<i64, bool>(a, steps);
    let right = said::<i64, bool>(b, steps);
    lemma_history(a, b, connective, steps);
    lemma_report(a, steps);
    lemma_report(b, steps);
    merged_lists_every_timestamp(left, right);
    answers_are_sound_and_complete(p, times);
    assert forall|t: Time| #[trigger] has_entry_at(out, t) == ((has_entry_at(left, t)
        || has_entry_at(right, t)) && in_force(left, t) is Some && in_force(right, t) is Some
        && reached(p.joint(), t)) by {
        if has_entry_at(out, t) {
            let k = choose|k: int| 0 <= k < out.len() && (#[trigger] out[k]).timestamp == t;
            assert(times.contains(out[k].timestamp));
        }
        if (has_entry_at(left, t) || has_entry_at(right, t)) && in_force(left, t) is Some
            && in_force(right, t) is Some && reached(p.joint(), t) {
            assert(times.contains(t));
            let i = choose|i: int| 0 <= i < times.len() && times[i] == t;
            assert(p.answer(times[i]) is Emit);
            let step = Step::spec_new("output", p.answer(t)->Emit_0, t);
            let k = choose|k: int| 0 <= k < out.len() && out[k] == step;
            assert(out[k].timestamp == t);
        }
    }
    assert forall|k: int| 0 <= k < out.len() implies {
        let t = (#[trigger] out[k]).timestamp;
        &&& true_at(a, steps, t) is Some
        &&& true_at(b, steps, t) is Some
        &&& is_exact_at(a, steps, t) && is_exact_at(b, steps, t) ==> out[k].value
            == connective.combined(true_at(a, steps, t)->0, true_at(b, steps, t)->0)
    } by {
        let t = out[k].timestamp;
        assert(has_entry_at(out, t));
        assert(in_force(left, t) is Some && in_force(right, t) is Some);
        assert(p.answer(t) == Answer::Emit(out[k].value));
    }
}

/// What both predicates have said over a trace.
spec fn pair_after(
    a: AtomicState<i64>,
    b: AtomicState<i64>,
    connective: Connective,
    steps: Seq<Step<i64>>,
) -> Pair {
    Pair {
        left: said::<i64, bool>(a, steps),
        right: said::<i64, bool>(b, steps),
        connective,
    }
}

proof fn lemma_eager_run(
    a: AtomicState<i64>,
    b: AtomicState<i64>,
    connective: Connective,
    steps: Seq<Step<i64>>,
) -> (res: (int, int))
    requires
        is_read(a),
        is_read(b),
        rises_per_signal(steps),
    ensures
        ({
            let state = joined::<i64, bool>(a, b, connective, true, false);
            let s = run(state, steps);
            &&& keeps_up(
                s,
                pair_after(a, b, connective, steps),
                res.0,
                res.1,
                streamed(state, steps),
            )
            &&& is_routed_after(s.operands, a, b, steps)
        }),
    decreases steps.len(),
{
    let state = joined::<i64, bool>(a, b, connective, true, false);
    let q = pair_after(a, b, connective, steps);
    lemma_report(a, steps);
    lemma_report(b, steps);
    if steps.len() == 0 {
        assert(q.left.skip(0) =~= state.left_cache);
        assert(q.right.skip(0) =~= state.right_cache);
        lemma_routed_first(a, b, steps);
        (0, 0)
    } else {
        let before = steps.drop_last();
        assert(before =~= steps.take(steps.len() - 1));
        lemma_rises_before(steps, steps.len() - 1);
        let (i, j) = lemma_eager_run(a, b, connective, before);
        let s = run(state, before);
        let p = pair_after(a, b, connective, before);
        lemma_routed_on(s.operands, a, b, steps);
        assert(advances(s, p, q, steps.last()));
        lemma_step(s, p, q, i, j, streamed(state, before), steps.last())
    }
}

/// `v` is true of the signals at `t`: it combines what both predicates are from then on, or is
/// what one of them settles by itself.
pub open spec fn is_true_answer(
    a: AtomicState<i64>,
    b: AtomicState<i64>,
    connective: Connective,
    steps: Seq<Step<i64>>,
    t: Time,
    v: bool,
) -> bool {
    let l = true_at(a, steps, t);
    let r = true_at(b, steps, t);
    let settling = connective.settling::<bool>();
    ||| l is Some && r is Some && v == connective.combined(l->0, r->0)
    ||| v == settling && (l == Some(settling) || r == Some(settling))
}

/// Eager answers are true of the signals too, and no time is answered twice. So an answer ahead
/// of one of the signals is what the combination comes to whatever that signal turns out to be.
pub proof fn eager_answers_are_true_of_the_signals(
    a: AtomicState<i64>,
    b: AtomicState<i64>,
    connective: Connective,
    steps: Seq<Step<i64>>,
)
    requires
        is_read(a),
        is_read(b),
        rises_per_signal(steps),
    ensures
        ({
            let out = streamed(joined::<i64, bool>(a, b, connective, true, false), steps);
            &&& each_once(out)
            &&& forall|k: int|
                0 <= k < out.len() ==> {
                    let t = (#[trigger] out[k]).timestamp;
                    is_exact_at(a, steps, t) && is_exact_at(b, steps, t) ==> is_true_answer(
                        a,
                        b,
                        connective,
                        steps,
                        t,
                        out[k].value,
                    )
                }
        }),
{
    let state = joined::<i64, bool>(a, b, connective, true, false);
    let out = streamed(state, steps);
    let p = pair_after(a, b, connective, steps);
    lemma_eager_run(a, b, connective, steps);
    lemma_report(a, steps);
    lemma_report(b, steps);
    assert forall|k: int| 0 <= k < out.len() implies {
        let t = (#[trigger] out[k]).timestamp;
        is_exact_at(a, steps, t) && is_exact_at(b, steps, t) ==> is_true_answer(
            a,
            b,
            connective,
            steps,
            t,
            out[k].value,
        )
    } by {
        assert(p.justifies(out[k]));
    }
}

} // verus!
