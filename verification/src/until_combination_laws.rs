//! Until over any operands, predicates or temporal ones, however far they look ahead: what the
//! answers are, in terms of what the operands say.

use crate::combination_laws::{left_said, operands_after, report_steadily, right_said};
use crate::operands::OperandsState;
use crate::operator::{Event, Machine};
use crate::ring_buffer::{count_upto, in_force, lemma_count_upto, Step};
use crate::semantics::{is_bounded, is_lattice, RobustnessSemantics};
use crate::time::{Time, FOREVER, MAX_TIME};
use crate::until_laws::{covered_window_has_the_dense_verdict, holds_throughout, is_until_value};
use crate::until_laws::{covered_window_is_true_iff_there_is_a_witness, is_witness};
use crate::until_laws::delayed_verdict_waits_for_both_operands;
use crate::until_operator::UntilState;
use crate::until_stream_laws::{history, is_steady, is_steady_throughout, kept, lemma_prepared};
use crate::until_stream_laws::{lemma_evaluable_prefix, lemma_stream, prepared, run};
use crate::until_stream_laws::pruning_changes_no_verdict;
use vstd::prelude::*;

verus! {

/// Nothing has been taken in yet, whatever the operands are.
pub open spec fn is_fresh<T, Y: RobustnessSemantics>(state: UntilState<T, Y>) -> bool {
    &&& state.left_cache.len() == 0
    &&& state.right_cache.len() == 0
    &&& state.t_max == (0 as Time, 0 as Time)
    &&& state.settled == (0 as Time, 0 as Time)
    &&& state.tasks.len() == 0
    &&& state.first_ts is None
    &&& state.finalized_ts is None
    &&& state.interval.start <= MAX_TIME
    &&& state.interval.end <= state.lookahead <= MAX_TIME
}

spec fn is_cleared<T, Y: RobustnessSemantics>(state: UntilState<T, Y>) -> bool {
    state == state.cleared()
}

spec fn has_operands<T, Y: RobustnessSemantics>(
    h: UntilState<T, Y>,
    operands: OperandsState<T, Y>,
    steps: Seq<Step<T>>,
) -> bool {
    h.operands == operands_after(operands, steps)
}

/// The time of the last verdict, or zero without one.
spec fn last_said<Y>(said: Seq<Step<Y>>) -> Time {
    if said.len() == 0 {
        0
    } else {
        said.last().timestamp
    }
}

/// `h` holds what both operands have said over a trace.
spec fn records<T, Y: RobustnessSemantics>(
    h: UntilState<T, Y>,
    operands: OperandsState<T, Y>,
    steps: Seq<Step<T>>,
) -> bool {
    &&& has_operands(h, operands, steps)
    &&& h.left_cache == left_said(operands, steps)
    &&& h.right_cache == right_said(operands, steps)
    &&& h.t_max.0 == last_said(left_said(operands, steps))
    &&& h.t_max.1 == last_said(right_said(operands, steps))
}

proof fn lemma_ready<T, Y: RobustnessSemantics>(
    h: UntilState<T, Y>,
    operands: OperandsState<T, Y>,
    steps: Seq<Step<T>>,
)
    requires
        steps.len() > 0,
        h.wf(),
        report_steadily(operands, steps),
        records(h, operands, steps.drop_last()),
    ensures
        is_steady(h, steps.last()),
        records(prepared(h, steps.last()), operands, steps),
{
    let event = Event::Sample(steps.last());
    let l = left_said(operands, steps);
    let r = right_said(operands, steps);
    let left = h.operands.left_emits(event);
    let right = h.operands.right_emits(event);
    assert(h.left_cache + left == l);
    assert(h.right_cache + right == r);
    assert forall|i: int| 0 <= i < left.len() implies (#[trigger] left[i]).timestamp
        <= MAX_TIME by {
        assert(left[i] == l[h.left_cache.len() + i]);
    }
    assert forall|i: int| 0 <= i < right.len() implies (#[trigger] right[i]).timestamp
        <= MAX_TIME by {
        assert(right[i] == r[h.right_cache.len() + i]);
    }
    lemma_prepared(h, steps.last());
    let ready = prepared(h, steps.last());
    assert(has_operands(ready, operands, steps));
    assert(ready.operands.left.known_now() is None);
    assert(ready.operands.right.known_now() is None);
    if left.len() > 0 {
        assert(l.last() == left.last());
        if h.left_cache.len() > 0 {
            assert(l[h.left_cache.len() - 1].timestamp < l[l.len() - 1].timestamp);
        }
    } else {
        assert(l =~= h.left_cache);
    }
    if right.len() > 0 {
        assert(r.last() == right.last());
        if h.right_cache.len() > 0 {
            assert(r[h.right_cache.len() - 1].timestamp < r[r.len() - 1].timestamp);
        }
    } else {
        assert(r =~= h.right_cache);
    }
}

proof fn lemma_history<T, Y: RobustnessSemantics>(state: UntilState<T, Y>, steps: Seq<Step<T>>)
    requires
        is_fresh(state),
        report_steadily(state.operands, steps),
    ensures
        ({
            let h = history(state, steps);
            &&& is_steady_throughout(state, steps)
            &&& h.wf()
            &&& records(h, state.operands, steps)
            &&& h.interval == state.interval
            &&& h.eager == state.eager
            &&& h.rosi == state.rosi
        }),
    decreases steps.len(),
{
    assert(state.left_cache =~= Seq::empty());
    assert(state.right_cache =~= Seq::empty());
    assert(state.tasks =~= Seq::empty());
    assert(is_cleared(state));
    if steps.len() > 0 {
        let before = steps.drop_last();
        lemma_history(state, before);
        let h = history(state, before);
        lemma_ready(h, state.operands, steps);
        assert(before =~= steps.take(steps.len() - 1));
        assert(is_steady_throughout(state, steps)) by {
            assert forall|k: int| 0 <= k < steps.len() implies is_steady(
                history(state, #[trigger] steps.take(k)),
                steps[k],
            ) by {
                if k < before.len() {
                    assert(before.take(k) =~= steps.take(k));
                    assert(before[k] == steps[k]);
                } else {
                    assert(steps.take(k) =~= before);
                }
            }
        }
        assert(has_operands(kept(h, steps.last()), state.operands, steps));
    }
    lemma_stream(state, steps);
}

/// What is said of a time can be read wherever the operand has begun.
proof fn lemma_holds<Y>(said: Seq<Step<Y>>, from: Time, to: Time)
    requires
        forall|i: int, j: int|
            0 <= i < j < said.len() ==> (#[trigger] said[i]).timestamp < (
            #[trigger] said[j]).timestamp,
        forall|i: int| 0 <= i < said.len() ==> (#[trigger] said[i]).held_until == FOREVER,
        said.len() > 0,
        said[0].timestamp <= from,
        to < FOREVER,
    ensures
        holds_throughout(said, from, to),
{
    assert forall|t: Time| from <= t <= to implies #[trigger] in_force(said, t) is Some by {
        lemma_count_upto(said, t);
        assert(count_upto(said, t) > 0);
        assert(said[count_upto(said, t) - 1].held_until == FOREVER);
    }
}

proof fn lemma_window<T, Y: RobustnessSemantics>(
    state: UntilState<T, Y>,
    steps: Seq<Step<T>>,
    m: int,
)
    requires
        steps.len() > 0,
        is_fresh(state),
        !state.eager,
        !state.rosi,
        state.interval.start <= state.interval.end,
        report_steadily(state.operands, steps),
        0 <= m < run(state, steps.drop_last()).emit(Event::Sample(steps.last())).len(),
        speaks_of_the_past(state.operands, steps),
        ({
            let t = run(state, steps.drop_last()).emit(Event::Sample(steps.last()))[m].timestamp;
            let left = left_said(state.operands, steps);
            let right = right_said(state.operands, steps);
            &&& left.len() > 0 && left[0].timestamp <= t
            &&& right.len() > 0 && right[0].timestamp <= t + state.interval.start
        }),
    ensures
        ({
            let b = prepared(history(state, steps.drop_last()), steps.last());
            let out = run(state, steps.drop_last()).emit(Event::Sample(steps.last()))[m];
            let w = b.window(b.tasks[m], steps.last().timestamp);
            let left = left_said(state.operands, steps);
            let right = right_said(state.operands, steps);
            &&& w.wf()
            &&& w.left == left
            &&& w.right == right
            &&& w.t == out.timestamp
            &&& w.start() == out.timestamp + state.interval.start
            &&& w.end() == out.timestamp + state.interval.end
            &&& w.interval == state.interval
            &&& !w.rosi
            &&& w.left_settled == w.left_known
            &&& w.right_settled == w.right_known
            &&& w.covered()
            &&& w.end() <= w.now
            &&& w.end() <= left.last().timestamp
            &&& w.end() <= right.last().timestamp
            &&& holds_throughout(w.left, w.t, w.end())
            &&& holds_throughout(w.right, w.start(), w.end())
            &&& w.outcome() is Final
            &&& w.outcome()->Final_0 == out.value
        }),
{
    let before = steps.drop_last();
    let step = steps.last();
    let h = history(state, before);
    lemma_history(state, before);
    lemma_history(state, steps);
    assert(steps.take(steps.len() - 1) =~= before);
    assert(state.left_cache =~= Seq::empty());
    assert(state.right_cache =~= Seq::empty());
    assert(state.tasks =~= Seq::empty());
    assert(is_cleared(state));
    pruning_changes_no_verdict(state, steps, steps.len() - 1);
    lemma_ready(h, state.operands, steps);
    lemma_prepared(h, step);
    let b = prepared(h, step);
    let now = step.timestamp;
    lemma_evaluable_prefix(b, b.tasks, now);
    let w = b.window(b.tasks[m], now);
    delayed_verdict_waits_for_both_operands(w);
    let left = left_said(state.operands, steps);
    let right = right_said(state.operands, steps);
    assert(b.tasks[m] <= MAX_TIME);
    assert(w.covered());
    lemma_holds(left, w.t, w.end());
    lemma_holds(right, w.start(), w.end());
}

/// Neither operand has said anything yet of a time later than the newest sample.
pub open spec fn speaks_of_the_past<T, Y>(operands: OperandsState<T, Y>, steps: Seq<Step<T>>) -> bool {
    let left = left_said(operands, steps);
    let right = right_said(operands, steps);
    &&& left.len() > 0 ==> left.last().timestamp <= steps.last().timestamp
    &&& right.len() > 0 ==> right.last().timestamp <= steps.last().timestamp
}

/// Over any two operands, whatever they are and however far they look ahead, every verdict of a
/// delayed until is what until is worth in dense time over everything they have said, for the
/// window that begins and ends where the interval says. Both operands have come to its end.
pub proof fn verdicts_are_dense_over_the_operands<T, Y: RobustnessSemantics>(
    state: UntilState<T, Y>,
    steps: Seq<Step<T>>,
    m: int,
)
    requires
        is_lattice::<Y>(),
        is_bounded::<Y>(),
        steps.len() > 0,
        is_fresh(state),
        !state.eager,
        !state.rosi,
        state.interval.start <= state.interval.end,
        report_steadily(state.operands, steps),
        speaks_of_the_past(state.operands, steps),
        0 <= m < run(state, steps.drop_last()).emit(Event::Sample(steps.last())).len(),
        ({
            let t = run(state, steps.drop_last()).emit(Event::Sample(steps.last()))[m].timestamp;
            let left = left_said(state.operands, steps);
            let right = right_said(state.operands, steps);
            &&& left.len() > 0 && left[0].timestamp <= t
            &&& right.len() > 0 && right[0].timestamp <= t + state.interval.start
        }),
    ensures
        ({
            let out = run(state, steps.drop_last()).emit(Event::Sample(steps.last()))[m];
            let t = out.timestamp;
            let left = left_said(state.operands, steps);
            let right = right_said(state.operands, steps);
            &&& t + state.interval.end <= left.last().timestamp
            &&& t + state.interval.end <= right.last().timestamp
            &&& is_until_value(
                left,
                right,
                t,
                (t + state.interval.start) as Time,
                (t + state.interval.end) as Time,
                out.value,
            )
        }),
{
    lemma_window(state, steps, m);
    let b = prepared(history(state, steps.drop_last()), steps.last());
    covered_window_has_the_dense_verdict(b.window(b.tasks[m], steps.last().timestamp));
}

/// The newest verdict of an operand by `t` is true.
pub open spec fn says_true(said: Seq<Step<bool>>, t: Time) -> bool {
    exists|i: int|
        0 <= i < said.len() && (#[trigger] said[i]).timestamp <= t && said[i].value && (i + 1
            < said.len() ==> t < said[i + 1].timestamp)
}

proof fn lemma_says(said: Seq<Step<bool>>, t: Time)
    requires
        forall|i: int, j: int|
            0 <= i < j < said.len() ==> (#[trigger] said[i]).timestamp < (
            #[trigger] said[j]).timestamp,
        in_force(said, t) is Some,
    ensures
        says_true(said, t) <==> in_force(said, t)->0.value,
{
    lemma_count_upto(said, t);
    let n = count_upto(said, t) as int;
    assert(said[n - 1].timestamp <= t);
    assert(n < said.len() ==> t < said[n].timestamp);
    if says_true(said, t) {
        let i = choose|i: int|
            0 <= i < said.len() && (#[trigger] said[i]).timestamp <= t && said[i].value && (i + 1
                < said.len() ==> t < said[i + 1].timestamp);
        assert(i < n);
        assert(i + 1 < said.len() ==> !(i + 1 < n));
    }
}

/// Over any two operands with truth values, a delayed until is true at a time exactly if there is
/// a witness in its window: a time at which the right operand is true, with the left one true all
/// the way from the time evaluated at up to and including it.
pub proof fn verdicts_are_true_iff_there_is_a_witness<T>(
    state: UntilState<T, bool>,
    steps: Seq<Step<T>>,
    m: int,
)
    requires
        steps.len() > 0,
        is_fresh(state),
        !state.eager,
        !state.rosi,
        state.interval.start <= state.interval.end,
        report_steadily(state.operands, steps),
        speaks_of_the_past(state.operands, steps),
        0 <= m < run(state, steps.drop_last()).emit(Event::Sample(steps.last())).len(),
        ({
            let t = run(state, steps.drop_last()).emit(Event::Sample(steps.last()))[m].timestamp;
            let left = left_said(state.operands, steps);
            let right = right_said(state.operands, steps);
            &&& left.len() > 0 && left[0].timestamp <= t
            &&& right.len() > 0 && right[0].timestamp <= t + state.interval.start
        }),
    ensures
        ({
            let out = run(state, steps.drop_last()).emit(Event::Sample(steps.last()))[m];
            let t = out.timestamp;
            let left = left_said(state.operands, steps);
            let right = right_said(state.operands, steps);
            out.value <==> exists|u: Time|
                {
                    &&& t + state.interval.start <= u <= t + state.interval.end
                    &&& #[trigger] says_true(right, u)
                    &&& forall|s: Time| t <= s <= u ==> #[trigger] says_true(left, s)
                }
        }),
{
    lemma_window(state, steps, m);
    let b = prepared(history(state, steps.drop_last()), steps.last());
    let w = b.window(b.tasks[m], steps.last().timestamp);
    covered_window_is_true_iff_there_is_a_witness(w);
    assert forall|s: Time| w.t <= s <= w.end() implies (#[trigger] says_true(w.left, s) <==> (
    in_force(w.left, s)->0.value)) by {
        assert(in_force(w.left, s) is Some);
        lemma_says(w.left, s);
    }
    assert forall|s: Time| w.start() <= s <= w.end() implies (#[trigger] says_true(w.right, s)
        <==> (in_force(w.right, s)->0.value)) by {
        assert(in_force(w.right, s) is Some);
        lemma_says(w.right, s);
    }
    let is_met = |u: Time|
        {
            &&& w.start() <= u <= w.end()
            &&& says_true(w.right, u)
            &&& forall|s: Time| w.t <= s <= u ==> #[trigger] says_true(w.left, s)
        };
    assert forall|u: Time| #[trigger]
        is_witness(w.left, w.right, w.t, w.start(), w.end(), u) implies says_true(w.right, u)
        && is_met(u) by {
        assert forall|s: Time| w.t <= s <= u implies #[trigger] says_true(w.left, s) by {
            assert(crate::until_laws::value_at(w.left, s));
        }
    }
    assert forall|u: Time| #[trigger] says_true(w.right, u) && is_met(u) implies is_witness(
        w.left,
        w.right,
        w.t,
        w.start(),
        w.end(),
        u,
    ) by {
        assert forall|s: Time| w.t <= s <= u implies #[trigger] crate::until_laws::value_at(
            w.left,
            s,
        ) by {
            assert(says_true(w.left, s));
        }
    }
}

} // verus!
