//! Conjunction and disjunction of two predicates over signals held between their samples, over
//! whole traces.

use crate::atomic_operators::{AtomicState, Comparison};
use crate::atomic_trace::{held_at, is_held, is_sampled_at, last_sample, rises_per_signal, routed};
use crate::atomic_trace::{lemma_emits, lemma_rises_before, lemma_verdicts, lemma_verdicts_grow};
use crate::atomic_trace::{lemma_routed, lemma_unchanged, signal_of, verdicts_of};
use crate::binary_node::BinaryState;
use crate::binary_operators::{answers_are_sound_and_complete, joint, reached};
use crate::binary_operators::{merged_lists_every_timestamp, Answer, Connective};
use crate::binary_stream_laws::{complete, history, is_complete, is_steady};
use crate::binary_stream_laws::{is_steady_throughout, kept, lemma_stream, lemma_taken_in, run};
use crate::binary_stream_laws::streamed;
use crate::operator::{behavior_of, Event, Machine};
use crate::ring_buffer::{all_upto, has_entry_at, in_force, in_order, Step};
use crate::semantics::{AtomicSemantics, Robustness, RobustnessSemantics, SignalValue};
use crate::time::{Time, MAX_TIME};
use vstd::prelude::*;

verus! {

/// A connective over two predicates that are handed the samples they read, before the first
/// sample.
pub open spec fn joined<V: SignalValue, Y: AtomicSemantics<V>>(
    a: AtomicState<V>,
    b: AtomicState<V>,
    connective: Connective,
    eager: bool,
    rosi: bool,
) -> BinaryState<V, Y> {
    BinaryState {
        operands: routed::<V, Y>(a, b),
        left_cache: Seq::empty(),
        right_cache: Seq::empty(),
        mark: None,
        ahead: Seq::empty(),
        left_frontier: None,
        right_frontier: None,
        left_lookahead: 0,
        right_lookahead: 0,
        connective,
        eager,
        rosi,
    }
}

/// That is what a new connective over two predicates is once the signals they read are
/// collected.
pub proof fn collecting_signals_routes_samples<V: SignalValue, Y: AtomicSemantics<V>>(
    a: AtomicState<V>,
    b: AtomicState<V>,
    connective: Connective,
    eager: bool,
    rosi: bool,
)
    ensures
        is_next(
            BinaryState::initial(
                behavior_of::<V, Y, AtomicState<V>>(a),
                behavior_of::<V, Y, AtomicState<V>>(b),
                a.profile(),
                b.profile(),
                Seq::empty(),
                Seq::empty(),
                connective,
                eager,
                rosi,
            ),
            Event::Route,
            joined::<V, Y>(a, b, connective, eager, rosi),
        ),
{
    lemma_routed::<V, Y>(a, b);
}

/// `event` takes an operator from one state to the other.
pub open spec fn is_next<V, Y: RobustnessSemantics>(
    before: BinaryState<V, Y>,
    event: Event<V>,
    after: BinaryState<V, Y>,
) -> bool {
    Machine::<V, Y>::next(before, event) == after
}

/// `h` holds what both predicates say of a trace.
pub open spec fn records<V: SignalValue, Y: AtomicSemantics<V>>(
    h: BinaryState<V, Y>,
    a: AtomicState<V>,
    b: AtomicState<V>,
    steps: Seq<Step<V>>,
) -> bool {
    &&& h.operands == routed::<V, Y>(a, b)
    &&& h.left_cache == verdicts_of::<V, Y>(a, steps)
    &&& h.right_cache == verdicts_of::<V, Y>(b, steps)
    &&& h.left_lookahead == 0
    &&& h.right_lookahead == 0
}

/// The predicates report steadily.
proof fn lemma_steady<V: SignalValue, Y: AtomicSemantics<V>>(
    h: BinaryState<V, Y>,
    a: AtomicState<V>,
    b: AtomicState<V>,
    steps: Seq<Step<V>>,
)
    requires
        is_held(a),
        is_held(b),
        rises_per_signal(steps),
        steps.len() > 0,
        records(h, a, b, steps.drop_last()),
    ensures
        is_steady(h, steps.last()),
        h.left_cache + h.operands.left_emits(Event::Sample(steps.last())) == verdicts_of::<V, Y>(
            a,
            steps,
        ),
        h.right_cache + h.operands.right_emits(Event::Sample(steps.last())) == verdicts_of::<V, Y>(
            b,
            steps,
        ),
{
    let last = steps.last();
    lemma_emits::<V, Y>(a, b, last);
    lemma_verdicts_grow::<V, Y>(a, steps);
    lemma_verdicts_grow::<V, Y>(b, steps);
    lemma_verdicts::<V, Y>(a, steps);
    lemma_verdicts::<V, Y>(b, steps);
    assert(last == steps[steps.len() - 1]);
}

/// What a step leaves behind records it, if everything is kept.
proof fn lemma_recorded<V: SignalValue, Y: AtomicSemantics<V>>(
    h: BinaryState<V, Y>,
    a: AtomicState<V>,
    b: AtomicState<V>,
    steps: Seq<Step<V>>,
)
    requires
        is_held(a),
        is_held(b),
        rises_per_signal(steps),
        steps.len() > 0,
        records(h, a, b, steps.drop_last()),
        is_complete(h),
    ensures
        records(kept(h, steps.last()), a, b, steps),
{
    let last = steps.last();
    lemma_steady(h, a, b, steps);
    lemma_unchanged::<V, Y>(a, b, last);
    assert(h.mark matches Some(m) ==> reached(h.joint(), m)) by {
        merged_lists_every_timestamp(h.left_cache, h.right_cache);
        answers_are_sound_and_complete(h.pairing(), h.pairing().breakpoints(None));
        if complete(h).len() > 0 {
            assert(complete(h).last() == complete(h)[complete(h).len() - 1]);
        }
    }
    lemma_taken_in(h, last);
}

/// In delayed mode the complete history holds the verdicts of both predicates.
proof fn lemma_history<V: SignalValue, Y: AtomicSemantics<V>>(
    a: AtomicState<V>,
    b: AtomicState<V>,
    connective: Connective,
    steps: Seq<Step<V>>,
)
    requires
        is_held(a),
        is_held(b),
        rises_per_signal(steps),
    ensures
        ({
            let state = joined::<V, Y>(a, b, connective, false, false);
            let h = history(state, steps);
            &&& is_steady_throughout(state, steps)
            &&& is_complete(h)
            &&& records(h, a, b, steps)
            &&& h.connective == connective
            &&& streamed(state, steps) == complete(h)
        }),
    decreases steps.len(),
{
    let state = joined::<V, Y>(a, b, connective, false, false);
    if steps.len() == 0 {
        assert(is_steady_throughout(state, steps));
        lemma_stream(state, steps);
        assert(verdicts_of::<V, Y>(a, steps) =~= state.left_cache);
        assert(verdicts_of::<V, Y>(b, steps) =~= state.right_cache);
    } else {
        let before = steps.drop_last();
        assert(before =~= steps.take(steps.len() - 1));
        lemma_rises_before(steps, steps.len() - 1);
        lemma_history::<V, Y>(a, b, connective, before);
        let h = history(state, before);
        lemma_steady(h, a, b, steps);
        assert(is_steady_throughout(state, steps)) by {
            assert forall|k: int| 0 <= k < steps.len() implies is_steady(
                history(state, #[trigger] steps.take(k)),
                steps[k],
            ) by {
                if k < before.len() {
                    assert(before.take(k) =~= steps.take(k));
                    assert(before[k] == steps[k]);
                } else {
                    assert(steps.take(k) =~= before);
                }
            }
        }
        lemma_recorded(h, a, b, steps);
        lemma_stream(state, steps);
    }
}

/// A delayed connective over two predicates answers exactly the times at which one of the
/// signals is sampled and both have a value and have been sampled since: from the later of
/// their first samples to the earlier of their last ones. The answer combines what the
/// predicates say of the values the signals hold. Answers come in time order, each time once.
pub proof fn joint_timestamps_are_answered<V: SignalValue, Y: AtomicSemantics<V>>(
    a: AtomicState<V>,
    b: AtomicState<V>,
    connective: Connective,
    steps: Seq<Step<V>>,
)
    requires
        is_held(a),
        is_held(b),
        rises_per_signal(steps),
    ensures
        ({
            let out = streamed(joined::<V, Y>(a, b, connective, false, false), steps);
            let x = signal_of(a);
            let y = signal_of(b);
            &&& in_order(out)
            &&& forall|t: Time| #[trigger]
                has_entry_at(out, t) <==> {
                    &&& is_sampled_at(steps, x, t) || is_sampled_at(steps, y, t)
                    &&& held_at(steps, x, t) is Some
                    &&& held_at(steps, y, t) is Some
                    &&& reached(joint(last_sample(steps, x), last_sample(steps, y)), t)
                }
            &&& forall|k: int|
                0 <= k < out.len() ==> (#[trigger] out[k]) == Step::spec_new(
                    "output",
                    connective.combined(
                        a.comparison.verdict::<Y>(
                            a.context,
                            held_at(steps, x, out[k].timestamp)->0,
                        ),
                        b.comparison.verdict::<Y>(
                            b.context,
                            held_at(steps, y, out[k].timestamp)->0,
                        ),
                    ),
                    out[k].timestamp,
                )
        }),
{
    let state = joined::<V, Y>(a, b, connective, false, false);
    let h = history(state, steps);
    let p = h.pairing();
    let times = p.breakpoints(None);
    let out = streamed(state, steps);
    let x = signal_of(a);
    let y = signal_of(b);
    lemma_history::<V, Y>(a, b, connective, steps);
    lemma_verdicts::<V, Y>(a, steps);
    lemma_verdicts::<V, Y>(b, steps);
    merged_lists_every_timestamp(h.left_cache, h.right_cache);
    answers_are_sound_and_complete(p, times);
    assert forall|t: Time| t <= MAX_TIME && times.contains(t) implies #[trigger] p.answer(t) == (
    if held_at(steps, x, t) is Some && held_at(steps, y, t) is Some && reached(p.joint(), t) {
        Answer::Emit(
            connective.combined(
                a.comparison.verdict::<Y>(a.context, held_at(steps, x, t)->0),
                b.comparison.verdict::<Y>(b.context, held_at(steps, y, t)->0),
            ),
        )
    } else {
        p.answer(t)
    }) by {
        assert((in_force(h.left_cache, t) is Some) == (held_at(steps, x, t) is Some));
        assert((in_force(h.right_cache, t) is Some) == (held_at(steps, y, t) is Some));
    }
    assert forall|k: int| 0 <= k < out.len() implies {
        let t = (#[trigger] out[k]).timestamp;
        &&& t <= MAX_TIME
        &&& held_at(steps, x, t) is Some
        &&& held_at(steps, y, t) is Some
        &&& reached(p.joint(), t)
        &&& is_sampled_at(steps, x, t) || is_sampled_at(steps, y, t)
    } by {
        let t = out[k].timestamp;
        assert(times.contains(t));
        lemma_entry_upto(h.left_cache, t);
        lemma_entry_upto(h.right_cache, t);
        assert(p.answer(t) is Emit);
        assert((in_force(h.left_cache, t) is Some) == (held_at(steps, x, t) is Some));
        assert((in_force(h.right_cache, t) is Some) == (held_at(steps, y, t) is Some));
    }
    assert forall|t: Time| #[trigger] has_entry_at(out, t) == ((is_sampled_at(steps, x, t)
        || is_sampled_at(steps, y, t)) && held_at(steps, x, t) is Some && held_at(
        steps,
        y,
        t,
    ) is Some && reached(p.joint(), t)) by {
        if has_entry_at(out, t) {
            let k = choose|k: int| 0 <= k < out.len() && (#[trigger] out[k]).timestamp == t;
        }
        if (is_sampled_at(steps, x, t) || is_sampled_at(steps, y, t)) && held_at(
            steps,
            x,
            t,
        ) is Some && held_at(steps, y, t) is Some && reached(p.joint(), t) {
            lemma_sampled_upto(steps, x, t);
            lemma_sampled_upto(steps, y, t);
            assert(has_entry_at(h.left_cache, t) == is_sampled_at(steps, x, t));
            assert(has_entry_at(h.right_cache, t) == is_sampled_at(steps, y, t));
            assert(times.contains(t));
            let i = choose|i: int| 0 <= i < times.len() && times[i] == t;
            assert(p.answer(times[i]) is Emit);
            let step = Step::spec_new("output", p.answer(t)->Emit_0, t);
            let k = choose|k: int| 0 <= k < out.len() && out[k] == step;
            assert(out[k].timestamp == t);
        }
    }
}

proof fn lemma_entry_upto<Y>(s: Seq<Step<Y>>, t: Time)
    requires
        all_upto(s, MAX_TIME),
    ensures
        has_entry_at(s, t) ==> t <= MAX_TIME,
{
}

proof fn lemma_sampled_upto<V>(steps: Seq<Step<V>>, signal: Seq<char>, t: Time)
    requires
        rises_per_signal(steps),
    ensures
        is_sampled_at(steps, signal, t) ==> t <= MAX_TIME,
{
}

/// Strictly ordered lists with entries at the same times list the same times.
proof fn lemma_same_times<A, B>(s: Seq<Step<A>>, r: Seq<Step<B>>)
    requires
        in_order(s),
        in_order(r),
        forall|t: Time| #[trigger] has_entry_at(s, t) == has_entry_at(r, t),
    ensures
        s.len() == r.len(),
        forall|i: int| 0 <= i < s.len() ==> (#[trigger] s[i]).timestamp == r[i].timestamp,
    decreases s.len(),
{
    if s.len() == 0 {
        if r.len() > 0 {
            assert(has_entry_at(r, r[0].timestamp));
            assert(has_entry_at(s, r[0].timestamp));
        }
    } else {
        let t = s.last().timestamp;
        assert(s[s.len() - 1].timestamp == t);
        assert(has_entry_at(s, t));
        assert(has_entry_at(r, t));
        let i = choose|i: int| 0 <= i < r.len() && (#[trigger] r[i]).timestamp == t;
        let u = r.last().timestamp;
        assert(r[r.len() - 1].timestamp == u);
        assert(has_entry_at(r, u));
        assert(has_entry_at(s, u));
        let j = choose|j: int| 0 <= j < s.len() && (#[trigger] s[j]).timestamp == u;
        assert(t == u) by {
            assert(i < r.len() - 1 ==> r[i].timestamp < r[r.len() - 1].timestamp);
            assert(j < s.len() - 1 ==> s[j].timestamp < s[s.len() - 1].timestamp);
        }
        let (s1, r1) = (s.drop_last(), r.drop_last());
        assert forall|v: Time| #[trigger] has_entry_at(s1, v) == has_entry_at(r1, v) by {
            assert(has_entry_at(s, v) == has_entry_at(r, v));
            lemma_entry_before(s, v);
            lemma_entry_before(r, v);
        }
        assert(in_order(s1) && in_order(r1));
        lemma_same_times(s1, r1);
        assert forall|k: int| 0 <= k < s.len() implies (#[trigger] s[k]).timestamp
            == r[k].timestamp by {
            if k < s1.len() {
                assert(s1[k].timestamp == r1[k].timestamp);
            }
        }
    }
}

proof fn lemma_entry_before<A>(s: Seq<Step<A>>, t: Time)
    requires
        in_order(s),
        s.len() > 0,
    ensures
        has_entry_at(s.drop_last(), t) == (has_entry_at(s, t) && t != s.last().timestamp),
{
    let p = s.drop_last();
    if has_entry_at(p, t) {
        let i = choose|i: int| 0 <= i < p.len() && (#[trigger] p[i]).timestamp == t;
        assert(s[i].timestamp == t);
        assert(s[i].timestamp < s[s.len() - 1].timestamp);
    }
    if has_entry_at(s, t) && t != s.last().timestamp {
        let i = choose|i: int| 0 <= i < s.len() && (#[trigger] s[i]).timestamp == t;
        assert(p[i].timestamp == t);
    }
}

/// The other connective.
pub open spec fn dual(connective: Connective) -> Connective {
    match connective {
        Connective::And => Connective::Or,
        Connective::Or => Connective::And,
    }
}

/// The predicate that compares the other way round.
pub open spec fn opposite<V>(atom: AtomicState<V>) -> AtomicState<V> {
    AtomicState {
        comparison: match atom.comparison {
            Comparison::Less(signal, bound) => Comparison::Greater(signal, bound),
            Comparison::Greater(signal, bound) => Comparison::Less(signal, bound),
            Comparison::True => Comparison::False,
            Comparison::False => Comparison::True,
        },
        ..atom
    }
}

/// The robustness of the contrary.
pub open spec fn negated(v: Robustness) -> Robustness {
    match v {
        Robustness::NegInfinity => Robustness::Infinity,
        Robustness::Finite(n) => Robustness::Finite((-n) as i128),
        Robustness::Infinity => Robustness::NegInfinity,
    }
}

/// What is emitted on the step at `k`.
pub open spec fn emitted<V, Y: RobustnessSemantics>(
    state: BinaryState<V, Y>,
    steps: Seq<Step<V>>,
    k: int,
) -> Seq<Step<Y>> {
    run(state, steps.take(k)).emit(Event::Sample(steps[k]))
}

/// Everything emitted over opposite predicates under the other connective is the negation of
/// what is emitted.
proof fn lemma_dual_streams(
    a: AtomicState<i64>,
    b: AtomicState<i64>,
    connective: Connective,
    steps: Seq<Step<i64>>,
)
    requires
        is_held(a),
        is_held(b),
        rises_per_signal(steps),
    ensures
        ({
            let out = streamed(
                joined::<i64, Robustness>(a, b, connective, false, false),
                steps,
            );
            let contrary = streamed(
                joined::<i64, Robustness>(
                    opposite(a),
                    opposite(b),
                    dual(connective),
                    false,
                    false,
                ),
                steps,
            );
            &&& contrary.len() == out.len()
            &&& forall|i: int|
                0 <= i < out.len() ==> (#[trigger] contrary[i]) == Step::spec_new(
                    "output",
                    negated(out[i].value),
                    out[i].timestamp,
                )
        }),
{
    let (na, nb) = (opposite(a), opposite(b));
    let out = streamed(joined::<i64, Robustness>(a, b, connective, false, false), steps);
    let contrary = streamed(
        joined::<i64, Robustness>(na, nb, dual(connective), false, false),
        steps,
    );
    joint_timestamps_are_answered::<i64, Robustness>(a, b, connective, steps);
    joint_timestamps_are_answered::<i64, Robustness>(na, nb, dual(connective), steps);
    assert forall|t: Time| #[trigger] has_entry_at(contrary, t) == has_entry_at(out, t) by {}
    lemma_same_times(contrary, out);
    assert forall|i: int| 0 <= i < out.len() implies (#[trigger] contrary[i]) == Step::spec_new(
        "output",
        negated(out[i].value),
        out[i].timestamp,
    ) by {
        let t = out[i].timestamp;
        assert(contrary[i].timestamp == t);
        let v = held_at(steps, signal_of(a), t)->0;
        let w = held_at(steps, signal_of(b), t)->0;
        lemma_opposite(a, v);
        lemma_opposite(b, w);
        let l = a.comparison.verdict::<Robustness>(a.context, v);
        let r = b.comparison.verdict::<Robustness>(b.context, w);
        assert(dual(connective).combined(negated(l), negated(r)) == negated(
            connective.combined(l, r),
        ));
    }
}

proof fn lemma_opposite(atom: AtomicState<i64>, v: i64)
    requires
        is_held(atom),
    ensures
        ({
            let n = opposite(atom);
            let value = atom.comparison.verdict::<Robustness>(atom.context, v);
            &&& n.comparison.verdict::<Robustness>(n.context, v) == negated(value)
            &&& value matches Robustness::Finite(x) && -0x1_0000_0000_0000_0000 < x
                < 0x1_0000_0000_0000_0000
        }),
{
}

/// De Morgan over whole traces: disjunction over opposite predicates says on every step the
/// negation of what conjunction says, at the same times in the same order, and the other way
/// round.
pub proof fn connectives_are_dual(
    a: AtomicState<i64>,
    b: AtomicState<i64>,
    connective: Connective,
    steps: Seq<Step<i64>>,
    k: int,
)
    requires
        is_held(a),
        is_held(b),
        rises_per_signal(steps),
        0 <= k < steps.len(),
    ensures
        ({
            let out = emitted(
                joined::<i64, Robustness>(a, b, connective, false, false),
                steps,
                k,
            );
            let contrary = emitted(
                joined::<i64, Robustness>(
                    opposite(a),
                    opposite(b),
                    dual(connective),
                    false,
                    false,
                ),
                steps,
                k,
            );
            &&& contrary.len() == out.len()
            &&& forall|i: int|
                0 <= i < out.len() ==> (#[trigger] contrary[i]) == Step::spec_new(
                    "output",
                    negated(out[i].value),
                    out[i].timestamp,
                )
        }),
{
    let p = joined::<i64, Robustness>(a, b, connective, false, false);
    let q = joined::<i64, Robustness>(opposite(a), opposite(b), dual(connective), false, false);
    let before = steps.take(k);
    let after = steps.take(k + 1);
    assert(after.drop_last() =~= before);
    assert(after.last() == steps[k]);
    lemma_rises_before(steps, k);
    lemma_rises_before(steps, k + 1);
    lemma_dual_streams(a, b, connective, before);
    lemma_dual_streams(a, b, connective, after);
    let n = streamed(p, before).len();
    assert forall|i: int| 0 <= i < emitted(p, steps, k).len() implies (
    #[trigger] emitted(q, steps, k)[i]) == Step::spec_new(
        "output",
        negated(emitted(p, steps, k)[i].value),
        emitted(p, steps, k)[i].timestamp,
    ) by {
        assert(streamed(p, after)[n + i] == emitted(p, steps, k)[i]);
        assert(streamed(q, after)[n + i] == emitted(q, steps, k)[i]);
    }
}

} // verus!
