//! Until over a whole stream: which times are evaluated, and that pruning the caches on the way
//! changes no verdict.

use crate::binary_operators::rising;
use crate::binary_stream_laws::{lemma_pruned_index, lemma_skip};
use crate::operator::{Event, Machine};
use crate::ring_buffer::{all_upto, count_upto, in_order, lemma_count_upto};
use crate::ring_buffer::{lemma_count_upto_monotone, lemma_count_upto_unique, put, Step};
use crate::semantics::{is_bounded, is_lattice, RobustnessSemantics};
use crate::time::{min_time, Time, MAX_TIME};
use crate::until_laws::{covered_window_has_the_dense_verdict, holds_throughout, is_until_value};
use crate::until_laws::delayed_verdict_waits_for_both_operands;
use crate::until_operator::{late_among, lemma_with_task, timestamps, with_all, UntilState};
use crate::until_window::{entries_within, lemma_candidates, WindowView};
use vstd::prelude::*;

verus! {

/// Whether one of `points` is a breakpoint that asks for an evaluation at `t`: at `t` itself,
/// or where the window of `t` begins or ends.
pub open spec fn is_asked_for<T, Y: RobustnessSemantics>(
    state: UntilState<T, Y>,
    points: Seq<Time>,
    late: Seq<Time>,
    t: Time,
) -> bool {
    exists|k: int|
        0 <= k < points.len() && asks_for(state, #[trigger] points[k], t) && state.queues(
            points[k],
            late,
            t,
        )
}

/// A breakpoint at `ts` is one at `t` itself, or where the window of `t` begins or ends.
pub open spec fn asks_for<T, Y: RobustnessSemantics>(
    state: UntilState<T, Y>,
    ts: Time,
    t: Time,
) -> bool {
    ts == t || ts == t + state.interval.start || ts == t + state.interval.end
}

proof fn lemma_with_shifted<T, Y: RobustnessSemantics>(
    state: UntilState<T, Y>,
    tasks: Seq<Time>,
    ts: Time,
    late: Seq<Time>,
    shift: Time,
)
    requires
        rising(tasks),
    ensures
        rising(state.with_shifted(tasks, ts, late, shift)),
        forall|t: Time| #[trigger]
            state.with_shifted(tasks, ts, late, shift).contains(t) <==> tasks.contains(t) || (ts
                == t + shift && state.queues(ts, late, t)),
{
    if ts >= shift {
        lemma_with_task(tasks, (ts - shift) as Time);
    }
}

/// The queue holds what it held before and what the new breakpoints ask for, in time order and
/// each time once.
pub proof fn queue_is_what_breakpoints_ask_for<T, Y: RobustnessSemantics>(
    state: UntilState<T, Y>,
    points: Seq<Time>,
    late: Seq<Time>,
)
    requires
        rising(state.tasks),
    ensures
        rising(state.queued(points, late)),
        forall|t: Time| #[trigger]
            state.queued(points, late).contains(t) <==> state.tasks.contains(t) || is_asked_for(
                state,
                points,
                late,
                t,
            ),
    decreases points.len(),
{
    if points.len() == 0 {
        assert forall|t: Time| !is_asked_for(state, points, late, t) by {}
    } else {
        let head = points.drop_last();
        let ts = points.last();
        queue_is_what_breakpoints_ask_for(state, head, late);
        let t0 = state.queued(head, late);
        let t1 = state.with_shifted(t0, ts, late, 0);
        let t2 = state.with_shifted(t1, ts, late, state.interval.start);
        let t3 = state.with_shifted(t2, ts, late, state.interval.end);
        lemma_with_shifted(state, t0, ts, late, 0);
        lemma_with_shifted(state, t1, ts, late, state.interval.start);
        lemma_with_shifted(state, t2, ts, late, state.interval.end);
        assert forall|t: Time| #[trigger] t3.contains(t) <==> state.tasks.contains(t)
            || is_asked_for(state, points, late, t) by {
            assert(t2.contains(t) == t2.contains(t));
            assert(t1.contains(t) == t1.contains(t));
            assert(t0.contains(t) == t0.contains(t));
            if is_asked_for(state, head, late, t) {
                let k = choose|k: int|
                    0 <= k < head.len() && asks_for(state, #[trigger] head[k], t) && state.queues(
                        head[k],
                        late,
                        t,
                    );
                assert(points[k] == head[k]);
            }
            if is_asked_for(state, points, late, t) {
                let k = choose|k: int|
                    0 <= k < points.len() && asks_for(state, #[trigger] points[k], t)
                        && state.queues(points[k], late, t);
                if k < head.len() {
                    assert(head[k] == points[k]);
                    assert(is_asked_for(state, head, late, t));
                }
            }
            if asks_for(state, ts, t) && state.queues(ts, late, t) {
                assert(points[points.len() - 1] == ts);
            }
        }
    }
}

/// Resetting forgets everything but the operands, which are reset themselves, and which
/// signals they read: two operators that agree in those behave alike from then on.
pub proof fn reset_forgets<T, Y: RobustnessSemantics>(a: UntilState<T, Y>, b: UntilState<T, Y>)
    requires
        a.operands.next(Event::Reset) == b.operands.next(Event::Reset),
        a.interval == b.interval,
        a.lookahead == b.lookahead,
        a.eager == b.eager,
        a.rosi == b.rosi,
    ensures
        Machine::<T, Y>::next(a, Event::Reset) == Machine::<T, Y>::next(b, Event::Reset),
{
}

/// What is emitted comes in time order.
pub proof fn output_is_ordered<T, Y: RobustnessSemantics>(state: UntilState<T, Y>, now: Time)
    requires
        rising(state.tasks),
    ensures
        in_order(state.available(now)),
{
    lemma_evaluable_len(state, state.tasks, now);
}

proof fn lemma_evaluable_len<T, Y: RobustnessSemantics>(
    state: UntilState<T, Y>,
    tasks: Seq<Time>,
    now: Time,
)
    ensures
        state.evaluable(tasks, now) <= tasks.len(),
    decreases tasks.len(),
{
    if tasks.len() > 0 {
        lemma_evaluable_len(state, tasks.skip(1), now);
    }
}

/// The window without the first `i` and `j` verdicts of its operands.
spec fn without<Y>(w: WindowView<Y>, i: int, j: int) -> WindowView<Y> {
    WindowView { left: w.left.skip(i), right: w.right.skip(j), ..w }
}

/// What was superseded by `p` can be left out.
spec fn may_skip<Y>(s: Seq<Step<Y>>, i: int, p: Time) -> bool {
    &&& 0 <= i <= s.len()
    &&& i > 0 ==> i < s.len() && s[i].timestamp <= p
}

/// Infimum and death of phi do not depend on what was superseded before the time evaluated at.
proof fn lemma_phi_without<Y: RobustnessSemantics>(w: WindowView<Y>, i: int, j: int, n: nat)
    requires
        w.wf(),
        may_skip(w.left, i, w.t),
        i <= n <= w.left.len(),
        count_upto(w.left, w.t) <= n,
    ensures
        without(w, i, j).phi_held() == w.phi_held(),
        without(w, i, j).phi_inf((n - i) as nat) == w.phi_inf(n),
        without(w, i, j).phi_died((n - i) as nat) == w.phi_died(n),
    decreases n,
{
    let v = without(w, i, j);
    lemma_skip(w.left, i, w.t, w.t);
    lemma_count_upto(w.left, w.t);
    if n > count_upto(w.left, w.t) {
        assert(i < n) by {
            if i == n {
                assert(i > 0 && w.left[i].timestamp <= w.t);
                lemma_count_upto(w.left, w.t);
            }
        }
        lemma_phi_without(w, i, j, (n - 1) as nat);
        assert(v.left[n - i - 1] == w.left[n - 1]);
    }
}

/// The entries between two times do not depend on what was superseded before them.
proof fn lemma_entries_without<Y>(s: Seq<Step<Y>>, i: int, p: Time, from: Time, to: Time)
    requires
        in_order(s),
        may_skip(s, i, p),
        p <= from,
    ensures
        entries_within(s.skip(i), from, to) == entries_within(s, from, to),
{
    if from <= to {
        lemma_skip(s, i, p, from);
        lemma_skip(s, i, p, to);
        lemma_count_upto(s, from);
        lemma_count_upto(s, to);
        lemma_count_upto_monotone(s, from, to);
        assert(entries_within(s.skip(i), from, to) =~= entries_within(s, from, to));
    }
}

/// The best witness does not depend on what was superseded before the time evaluated at.
proof fn lemma_best_without<Y: RobustnessSemantics>(
    w: WindowView<Y>,
    i: int,
    j: int,
    times: Seq<Time>,
)
    requires
        w.wf(),
        may_skip(w.left, i, w.t),
        may_skip(w.right, j, w.t),
        forall|k: int| 0 <= k < times.len() ==> w.t <= #[trigger] times[k],
    ensures
        without(w, i, j).best(times) == w.best(times),
    decreases times.len(),
{
    if times.len() > 0 {
        let c = times.last();
        assert(c == times[times.len() - 1]);
        lemma_best_without(w, i, j, times.drop_last());
        lemma_skip(w.left, i, w.t, c);
        lemma_skip(w.right, j, w.t, c);
        lemma_count_upto(w.left, c);
        lemma_count_upto_monotone(w.left, w.t, c);
        lemma_phi_without(w, i, j, count_upto(w.left, c));
    }
}

/// The verdict over a window does not depend on what was superseded before it.
proof fn lemma_outcome_without<Y: RobustnessSemantics>(w: WindowView<Y>, i: int, j: int)
    requires
        w.wf(),
        may_skip(w.left, i, w.t),
        may_skip(w.right, j, w.t),
    ensures
        without(w, i, j).outcome() == w.outcome(),
{
    let v = without(w, i, j);
    lemma_skip(w.left, i, w.t, w.t);
    lemma_entries_without(w.left, i, w.t, w.start(), w.effective_end());
    lemma_entries_without(w.right, j, w.t, w.start(), w.effective_end());
    assert(v.candidates() == w.candidates());
    lemma_candidates(w);
    lemma_best_without(w, i, j, w.candidates());
}

/// Verdicts come in time order, after those that came before.
pub open spec fn is_steady<T, Y: RobustnessSemantics>(
    state: UntilState<T, Y>,
    step: Step<T>,
) -> bool {
    let left = state.operands.left_emits(Event::Sample(step));
    let right = state.operands.right_emits(Event::Sample(step));
    &&& in_order(state.left_cache + left)
    &&& in_order(state.right_cache + right)
    &&& all_upto(left, MAX_TIME)
    &&& all_upto(right, MAX_TIME)
}

/// The state when a sample was taken in and the queue extended.
pub open spec fn prepared<T, Y: RobustnessSemantics>(
    state: UntilState<T, Y>,
    step: Step<T>,
) -> UntilState<T, Y> {
    state.taken_in(step).with_tasks(state, step)
}

/// The state after a sample, with everything kept.
pub open spec fn kept<T, Y: RobustnessSemantics>(
    state: UntilState<T, Y>,
    step: Step<T>,
) -> UntilState<T, Y> {
    let ready = prepared(state, step);
    UntilState {
        left_cache: ready.left_cache,
        right_cache: ready.right_cache,
        ..ready.answered(step.timestamp)
    }
}

/// Verdicts that come in order after those cached are appended, and none of them is late.
proof fn lemma_with_all_appends<Y>(cache: Seq<Step<Y>>, updates: Seq<Step<Y>>)
    requires
        in_order(cache + updates),
    ensures
        with_all(cache, updates) == cache + updates,
        late_among(cache, updates) == Seq::<Time>::empty(),
    decreases updates.len(),
{
    if updates.len() == 0 {
        assert(cache + updates =~= cache);
    } else {
        let all = cache + updates;
        let p = updates.drop_last();
        let last = updates.last();
        let head = cache + p;
        assert(head =~= all.drop_last());
        assert forall|i: int, j: int| 0 <= i < j < head.len() implies head[i].timestamp
            < head[j].timestamp by {
            assert(head[i] == all[i]);
            assert(head[j] == all[j]);
        }
        lemma_with_all_appends(cache, p);
        assert forall|i: int| 0 <= i < head.len() implies (#[trigger] head[i]).timestamp
            < last.timestamp by {
            assert(head[i] == all[i]);
            assert(last == all[all.len() - 1]);
        }
        lemma_count_upto_unique(head, last.timestamp, head.len());
        assert(put(head, last) =~= all);
        if head.len() > 0 {
            assert(head.last() == head[head.len() - 1]);
        }
    }
}

/// `s` is `u` without the first `i` and `j` entries of its caches. What is missing was
/// superseded by `p`, and nothing earlier is evaluated any more.
pub open spec fn forgets<T, Y: RobustnessSemantics>(
    s: UntilState<T, Y>,
    u: UntilState<T, Y>,
    i: int,
    j: int,
    p: Time,
) -> bool {
    &&& s == (UntilState { left_cache: s.left_cache, right_cache: s.right_cache, ..u })
    &&& 0 <= i <= u.left_cache.len()
    &&& 0 <= j <= u.right_cache.len()
    &&& i > 0 ==> i < u.left_cache.len() && u.left_cache[i].timestamp <= p
    &&& j > 0 ==> j < u.right_cache.len() && u.right_cache[j].timestamp <= p
    &&& s.left_cache == u.left_cache.skip(i)
    &&& s.right_cache == u.right_cache.skip(j)
    &&& p <= match u.finalized_ts {
        Some(t) => t,
        None => 0,
    }
    &&& forall|k: int| 0 <= k < u.tasks.len() ==> p <= #[trigger] u.tasks[k]
}

/// Queueing does not look at the caches.
proof fn lemma_queued_same<T, Y: RobustnessSemantics>(
    a: UntilState<T, Y>,
    b: UntilState<T, Y>,
    points: Seq<Time>,
    late: Seq<Time>,
)
    requires
        b == (UntilState { left_cache: b.left_cache, right_cache: b.right_cache, ..a }),
    ensures
        b.queued(points, late) == a.queued(points, late),
    decreases points.len(),
{
    if points.len() > 0 {
        lemma_queued_same(a, b, points.drop_last(), late);
    }
}

/// What a sample leaves of a steady stream.
pub proof fn lemma_prepared<T, Y: RobustnessSemantics>(u: UntilState<T, Y>, step: Step<T>)
    requires
        u.wf(),
        is_steady(u, step),
    ensures
        ({
            let left = u.operands.left_emits(Event::Sample(step));
            let right = u.operands.right_emits(Event::Sample(step));
            let ready = prepared(u, step);
            &&& ready.left_cache == u.left_cache + left
            &&& ready.right_cache == u.right_cache + right
            &&& ready.tasks == u.taken_in(step).queued(
                timestamps(right) + timestamps(left),
                Seq::empty(),
            )
            &&& ready.wf()
        }),
{
    let left = u.operands.left_emits(Event::Sample(step));
    let right = u.operands.right_emits(Event::Sample(step));
    let l = u.left_cache + left;
    let r = u.right_cache + right;
    lemma_with_all_appends(u.left_cache, left);
    lemma_with_all_appends(u.right_cache, right);
    assert(late_among(u.right_cache, right) + late_among(u.left_cache, left) =~= Seq::<
        Time,
    >::empty());
    assert forall|k: int| 0 <= k < l.len() implies (#[trigger] l[k]).timestamp <= MAX_TIME by {
        if k < u.left_cache.len() {
            assert(l[k] == u.left_cache[k]);
        } else {
            assert(l[k] == left[k - u.left_cache.len()]);
        }
    }
    assert forall|k: int| 0 <= k < r.len() implies (#[trigger] r[k]).timestamp <= MAX_TIME by {
        if k < u.right_cache.len() {
            assert(r[k] == u.right_cache[k]);
        } else {
            assert(r[k] == right[k - u.right_cache.len()]);
        }
    }
    let points = timestamps(right) + timestamps(left);
    let taken = u.taken_in(step);
    queue_is_what_breakpoints_ask_for(taken, points, Seq::empty());
    let tasks = taken.queued(points, Seq::empty());
    assert forall|k: int| 0 <= k < tasks.len() implies (#[trigger] tasks[k]) <= MAX_TIME by {
        let t = tasks[k];
        assert(tasks.contains(t));
        if taken.tasks.contains(t) {
            let n = choose|n: int| 0 <= n < u.tasks.len() && u.tasks[n] == t;
            assert(u.tasks[n] <= MAX_TIME);
        } else {
            let n = choose|n: int|
                0 <= n < points.len() && asks_for(taken, #[trigger] points[n], t) && taken.queues(
                    points[n],
                    Seq::empty(),
                    t,
                );
            assert(points[n] <= MAX_TIME) by {
                if n < right.len() {
                    assert(points[n] == right[n].timestamp);
                } else {
                    assert(points[n] == left[n - right.len()].timestamp);
                }
            }
        }
    }
}

/// Nothing before `p` is queued.
proof fn lemma_tasks_from<T, Y: RobustnessSemantics>(u: UntilState<T, Y>, step: Step<T>, p: Time)
    requires
        u.wf(),
        is_steady(u, step),
        p <= match u.finalized_ts {
            Some(t) => t,
            None => 0,
        },
        forall|k: int| 0 <= k < u.tasks.len() ==> p <= #[trigger] u.tasks[k],
    ensures
        forall|k: int|
            0 <= k < prepared(u, step).tasks.len() ==> p <= #[trigger] prepared(u, step).tasks[k],
{
    lemma_prepared(u, step);
    let left = u.operands.left_emits(Event::Sample(step));
    let right = u.operands.right_emits(Event::Sample(step));
    let points = timestamps(right) + timestamps(left);
    let taken = u.taken_in(step);
    queue_is_what_breakpoints_ask_for(taken, points, Seq::empty());
    let tasks = prepared(u, step).tasks;
    assert forall|k: int| 0 <= k < tasks.len() implies p <= #[trigger] tasks[k] by {
        let t = tasks[k];
        assert(tasks.contains(t));
        if taken.tasks.contains(t) {
            let n = choose|n: int| 0 <= n < u.tasks.len() && u.tasks[n] == t;
            assert(p <= u.tasks[n]);
        } else {
            let n = choose|n: int|
                0 <= n < points.len() && asks_for(taken, #[trigger] points[n], t) && taken.queues(
                    points[n],
                    Seq::empty(),
                    t,
                );
            assert(!Seq::<Time>::empty().contains(points[n]));
        }
    }
}

/// What a sample leaves of a steady stream in an operator that forgets.
proof fn lemma_forgetful_prepared<T, Y: RobustnessSemantics>(
    s: UntilState<T, Y>,
    u: UntilState<T, Y>,
    i: int,
    j: int,
    p: Time,
    step: Step<T>,
)
    requires
        u.wf(),
        is_steady(u, step),
        forgets(s, u, i, j, p),
    ensures
        prepared(s, step) == (UntilState {
            left_cache: prepared(u, step).left_cache.skip(i),
            right_cache: prepared(u, step).right_cache.skip(j),
            ..prepared(u, step)
        }),
{
    let left = u.operands.left_emits(Event::Sample(step));
    let right = u.operands.right_emits(Event::Sample(step));
    lemma_prepared(u, step);
    lemma_skip(u.left_cache, i, p, p);
    lemma_skip(u.right_cache, j, p, p);
    let l = u.left_cache + left;
    let r = u.right_cache + right;
    assert(s.left_cache + left =~= l.skip(i));
    assert(s.right_cache + right =~= r.skip(j));
    assert(in_order(l.skip(i)));
    assert(in_order(r.skip(j)));
    lemma_with_all_appends(s.left_cache, left);
    lemma_with_all_appends(s.right_cache, right);
    lemma_with_all_appends(u.left_cache, left);
    lemma_with_all_appends(u.right_cache, right);
    lemma_queued_same(
        u.taken_in(step),
        s.taken_in(step),
        timestamps(right) + timestamps(left),
        Seq::empty(),
    );
    assert(late_among(s.right_cache, right) + late_among(s.left_cache, left) =~= Seq::<
        Time,
    >::empty());
    assert(prepared(s, step) =~= UntilState {
        left_cache: prepared(u, step).left_cache.skip(i),
        right_cache: prepared(u, step).right_cache.skip(j),
        ..prepared(u, step)
    });
}

/// Evaluating the queue gives the same with and without what was superseded.
proof fn lemma_evaluation_same<T, Y: RobustnessSemantics>(
    a: UntilState<T, Y>,
    b: UntilState<T, Y>,
    tasks: Seq<Time>,
    now: Time,
)
    requires
        forall|k: int|
            0 <= k < tasks.len() ==> a.window(#[trigger] tasks[k], now).outcome() == b.window(
                tasks[k],
                now,
            ).outcome(),
    ensures
        a.evaluable(tasks, now) == b.evaluable(tasks, now),
    decreases tasks.len(),
{
    if tasks.len() > 0 {
        let rest = tasks.skip(1);
        assert forall|k: int| 0 <= k < rest.len() implies a.window(
            #[trigger] rest[k],
            now,
        ).outcome() == b.window(rest[k], now).outcome() by {
            assert(rest[k] == tasks[k + 1]);
        }
        lemma_evaluation_same(a, b, rest, now);
        assert(a.window(tasks[0], now).outcome() == b.window(tasks[0], now).outcome());
    }
}

proof fn lemma_bookkeeping_same<T, Y: RobustnessSemantics>(
    a: UntilState<T, Y>,
    b: UntilState<T, Y>,
    tasks: Seq<Time>,
    now: Time,
)
    requires
        forall|k: int|
            0 <= k < tasks.len() ==> a.window(#[trigger] tasks[k], now).outcome() == b.window(
                tasks[k],
                now,
            ).outcome(),
    ensures
        a.still_open(tasks, now) == b.still_open(tasks, now),
        a.newest_final(tasks, now) == b.newest_final(tasks, now),
    decreases tasks.len(),
{
    if tasks.len() > 0 {
        let head = tasks.drop_last();
        assert forall|k: int| 0 <= k < head.len() implies a.window(
            #[trigger] head[k],
            now,
        ).outcome() == b.window(head[k], now).outcome() by {
            assert(head[k] == tasks[k]);
        }
        lemma_bookkeeping_same(a, b, head, now);
        assert(tasks.last() == tasks[tasks.len() - 1]);
    }
}

/// The newest final task is one of them; what is still open was queued.
proof fn lemma_bookkeeping_from<T, Y: RobustnessSemantics>(
    a: UntilState<T, Y>,
    tasks: Seq<Time>,
    now: Time,
    p: Time,
)
    requires
        forall|k: int| 0 <= k < tasks.len() ==> p <= #[trigger] tasks[k],
    ensures
        a.newest_final(tasks, now) matches Some(t) ==> p <= t,
        forall|k: int|
            0 <= k < a.still_open(tasks, now).len() ==> p <= #[trigger] a.still_open(tasks, now)[k],
    decreases tasks.len(),
{
    if tasks.len() > 0 {
        let head = tasks.drop_last();
        assert forall|k: int| 0 <= k < head.len() implies p <= #[trigger] head[k] by {
            assert(head[k] == tasks[k]);
        }
        lemma_bookkeeping_from(a, head, now, p);
        assert(tasks.last() == tasks[tasks.len() - 1]);
        let open = a.still_open(tasks, now);
        let rest = a.still_open(head, now);
        assert forall|k: int| 0 <= k < open.len() implies p <= #[trigger] open[k] by {
            if k < rest.len() {
                assert(open[k] == rest[k]);
            }
        }
    }
}

/// The state without the first `i` and `j` entries of its caches.
spec fn forgetting<T, Y: RobustnessSemantics>(u: UntilState<T, Y>, i: int, j: int) -> UntilState<
    T,
    Y,
> {
    UntilState { left_cache: u.left_cache.skip(i), right_cache: u.right_cache.skip(j), ..u }
}

/// The queue is evaluated alike with and without what was superseded before it.
proof fn lemma_same_evaluation<T, Y: RobustnessSemantics>(
    b: UntilState<T, Y>,
    i: int,
    j: int,
    p: Time,
    now: Time,
)
    requires
        b.wf(),
        may_skip(b.left_cache, i, p),
        may_skip(b.right_cache, j, p),
        forall|k: int| 0 <= k < b.tasks.len() ==> p <= #[trigger] b.tasks[k],
    ensures
        forgetting(b, i, j).evaluable(b.tasks, now) == b.evaluable(b.tasks, now),
        b.evaluable(b.tasks, now) <= b.tasks.len(),
        forgetting(b, i, j).available(now) == b.available(now),
        ({
            let done = b.tasks.take(b.evaluable(b.tasks, now) as int);
            &&& forgetting(b, i, j).still_open(done, now) == b.still_open(done, now)
            &&& forgetting(b, i, j).newest_final(done, now) == b.newest_final(done, now)
        }),
{
    let a = forgetting(b, i, j);
    let tasks = b.tasks;
    assert forall|k: int| 0 <= k < tasks.len() implies a.window(#[trigger] tasks[k], now).outcome()
        == b.window(tasks[k], now).outcome() by {
        let w = b.window(tasks[k], now);
        assert(a.window(tasks[k], now) == without(w, i, j));
        lemma_outcome_without(w, i, j);
    }
    lemma_evaluation_same(a, b, tasks, now);
    lemma_evaluable_len(b, tasks, now);
    let n = b.evaluable(tasks, now) as int;
    let done = tasks.take(n);
    assert forall|k: int| 0 <= k < done.len() implies a.window(#[trigger] done[k], now).outcome()
        == b.window(done[k], now).outcome() by {
        assert(done[k] == tasks[k]);
    }
    lemma_bookkeeping_same(a, b, done, now);
    assert(a.left_cache.len() == 0 <==> b.left_cache.len() == 0);
    assert(a.right_cache.len() == 0 <==> b.right_cache.len() == 0);
    assert forall|k: int| 0 <= k < n implies a.verdict(#[trigger] tasks[k], now) == b.verdict(
        tasks[k],
        now,
    ) by {
        assert(a.window(tasks[k], now).outcome() == b.window(tasks[k], now).outcome());
    }
    assert(a.available(now) =~= b.available(now));
}

/// Everything left in the queue is at or after what is protected.
proof fn lemma_protected<T, Y: RobustnessSemantics>(b: UntilState<T, Y>, now: Time, p: Time)
    requires
        b.wf(),
        b.left_cache.len() > 0,
        b.right_cache.len() > 0,
        p <= match b.finalized_ts {
            Some(t) => t,
            None => 0,
        },
        forall|k: int| 0 <= k < b.tasks.len() ==> p <= #[trigger] b.tasks[k],
    ensures
        p <= protected_by(b, now),
        protected_by(b, now) <= match b.answered(now).finalized_ts {
            Some(t) => t,
            None => 0,
        },
        forall|k: int|
            0 <= k < b.answered(now).tasks.len() ==> protected_by(b, now)
                <= #[trigger] b.answered(now).tasks[k],
{
    let tasks = b.tasks;
    lemma_evaluable_len(b, tasks, now);
    let n = b.evaluable(tasks, now) as int;
    let done = tasks.take(n);
    assert forall|k: int| 0 <= k < done.len() implies p <= #[trigger] done[k] by {
        assert(done[k] == tasks[k]);
    }
    lemma_bookkeeping_from(b, done, now, p);
    let after = b.answered(now).tasks;
    let open = b.still_open(done, now);
    if tasks.len() > 0 {
        assert forall|m: int| 0 <= m < done.len() implies tasks[0] <= #[trigger] done[m] by {
            assert(done[m] == tasks[m]);
        }
        lemma_bookkeeping_from(b, done, now, tasks[0]);
    } else {
        assert(done =~= Seq::empty());
    }
    assert forall|k: int| 0 <= k < after.len() implies protected_by(b, now)
        <= #[trigger] after[k] by {
        if k < open.len() {
            assert(after[k] == open[k]);
        } else {
            assert(after[k] == tasks[n + k - open.len()]);
        }
    }
}

/// The time whose value in force pruning keeps.
spec fn protected_by<T, Y: RobustnessSemantics>(b: UntilState<T, Y>, now: Time) -> Time {
    let floor = match b.answered(now).finalized_ts {
        Some(t) => t,
        None => 0,
    };
    if b.tasks.len() > 0 {
        min_time(b.tasks[0], floor)
    } else {
        floor
    }
}

/// Forgetting what was superseded before everything still to be evaluated changes nothing that
/// is emitted, and goes on doing so.
proof fn lemma_forgetful_answer<T, Y: RobustnessSemantics>(
    b: UntilState<T, Y>,
    i: int,
    j: int,
    p: Time,
    now: Time,
) -> (res: (int, int, Time))
    requires
        b.wf(),
        forgets(forgetting(b, i, j), b, i, j, p),
    ensures
        forgetting(b, i, j).available(now) == b.available(now),
        forgets(
            forgetting(b, i, j).answered(now),
            (UntilState {
                left_cache: b.left_cache,
                right_cache: b.right_cache,
                ..b.answered(now)
            }),
            res.0,
            res.1,
            res.2,
        ),
{
    let a = forgetting(b, i, j);
    let u2 = UntilState { left_cache: b.left_cache, right_cache: b.right_cache, ..b.answered(now) };
    lemma_same_evaluation(b, i, j, p, now);
    if b.left_cache.len() == 0 || b.right_cache.len() == 0 {
        assert(u2 =~= b);
        assert(a.answered(now) == a);
        (i, j, p)
    } else {
        lemma_protected(b, now, p);
        let protected_ts = protected_by(b, now);
        let i2 = lemma_pruned_index(b.left_cache, i, b.lookahead, protected_ts);
        let j2 = lemma_pruned_index(b.right_cache, j, b.lookahead, protected_ts);
        assert(a.answered(now).left_cache == b.left_cache.skip(i2));
        assert(a.answered(now).right_cache == b.right_cache.skip(j2));
        assert(a.answered(now) =~= forgetting(u2, i2, j2));
        (i2, j2, protected_ts)
    }
}

/// The same over a whole sample.
proof fn lemma_forgetful_step<T, Y: RobustnessSemantics>(
    s: UntilState<T, Y>,
    u: UntilState<T, Y>,
    i: int,
    j: int,
    p: Time,
    step: Step<T>,
) -> (res: (int, int, Time))
    requires
        u.wf(),
        is_steady(u, step),
        forgets(s, u, i, j, p),
    ensures
        s.emit(Event::Sample(step)) == u.emit(Event::Sample(step)),
        kept(u, step).wf(),
        forgets(
            Machine::<T, Y>::next(s, Event::Sample(step)),
            kept(u, step),
            res.0,
            res.1,
            res.2,
        ),
{
    let b = prepared(u, step);
    lemma_prepared(u, step);
    lemma_forgetful_prepared(s, u, i, j, p, step);
    lemma_tasks_from(u, step, p);
    lemma_kept_wf(u, step);
    assert(i > 0 ==> b.left_cache[i] == u.left_cache[i]);
    assert(j > 0 ==> b.right_cache[j] == u.right_cache[j]);
    assert(prepared(s, step) == forgetting(b, i, j));
    assert(forgets(forgetting(b, i, j), b, i, j, p));
    lemma_forgetful_answer(b, i, j, p, step.timestamp)
}

/// What is kept of a steady stream is in order.
pub proof fn lemma_kept_wf<T, Y: RobustnessSemantics>(u: UntilState<T, Y>, step: Step<T>)
    requires
        u.wf(),
        is_steady(u, step),
    ensures
        kept(u, step).wf(),
{
    lemma_prepared(u, step);
    crate::until_operator::lemma_answered(prepared(u, step), step.timestamp);
}

/// The state after a whole trace, as it is kept in memory.
pub open spec fn run<T, Y: RobustnessSemantics>(
    state: UntilState<T, Y>,
    steps: Seq<Step<T>>,
) -> UntilState<T, Y>
    decreases steps.len(),
{
    if steps.len() == 0 {
        state
    } else {
        Machine::<T, Y>::next(run(state, steps.drop_last()), Event::Sample(steps.last()))
    }
}

/// The state after a whole trace, had everything been kept.
pub open spec fn history<T, Y: RobustnessSemantics>(
    state: UntilState<T, Y>,
    steps: Seq<Step<T>>,
) -> UntilState<T, Y>
    decreases steps.len(),
{
    if steps.len() == 0 {
        state
    } else {
        kept(history(state, steps.drop_last()), steps.last())
    }
}

/// Both operands report steadily all along a trace.
pub open spec fn is_steady_throughout<T, Y: RobustnessSemantics>(
    state: UntilState<T, Y>,
    steps: Seq<Step<T>>,
) -> bool {
    forall|k: int|
        0 <= k < steps.len() ==> is_steady(
            history(state, #[trigger] steps.take(k)),
            steps[k],
        )
}

pub proof fn lemma_stream<T, Y: RobustnessSemantics>(state: UntilState<T, Y>, steps: Seq<Step<T>>) -> (
res: (int, int, Time))
    requires
        state == state.cleared(),
        state.wf(),
        is_steady_throughout(state, steps),
    ensures
        history(state, steps).wf(),
        forgets(run(state, steps), history(state, steps), res.0, res.1, res.2),
    decreases steps.len(),
{
    if steps.len() == 0 {
        assert(state.left_cache.skip(0) =~= state.left_cache);
        assert(state.right_cache.skip(0) =~= state.right_cache);
        (0, 0, 0)
    } else {
        let before = steps.drop_last();
        assert(is_steady_throughout(state, before)) by {
            assert forall|k: int| 0 <= k < before.len() implies is_steady(
                history(state, #[trigger] before.take(k)),
                before[k],
            ) by {
                assert(before.take(k) =~= steps.take(k));
            }
        }
        let (i, j, p) = lemma_stream(state, before);
        assert(steps.take(steps.len() - 1) =~= before);
        lemma_forgetful_step(run(state, before), history(state, before), i, j, p, steps.last())
    }
}

/// Pruning leaves what is emitted as it is. On every sample of a trace, what comes with caches
/// pruned on the way is what the complete history of both operands gives. In particular the
/// value a window opens on is still there when the window is evaluated.
pub proof fn pruning_changes_no_verdict<T, Y: RobustnessSemantics>(
    state: UntilState<T, Y>,
    steps: Seq<Step<T>>,
    k: int,
)
    requires
        state == state.cleared(),
        state.wf(),
        is_steady_throughout(state, steps),
        0 <= k < steps.len(),
    ensures
        run(state, steps.take(k)).emit(Event::Sample(steps[k])) == history(
            state,
            steps.take(k),
        ).emit(Event::Sample(steps[k])),
{
    let before = steps.take(k);
    assert(is_steady_throughout(state, before)) by {
        assert forall|n: int| 0 <= n < before.len() implies is_steady(
            history(state, #[trigger] before.take(n)),
            before[n],
        ) by {
            assert(before.take(n) =~= steps.take(n));
        }
    }
    let (i, j, p) = lemma_stream(state, before);
    lemma_forgetful_step(run(state, before), history(state, before), i, j, p, steps[k]);
}

/// Everything still queued is later than every final answer.
pub open spec fn is_ahead_of_answers<T, Y: RobustnessSemantics>(state: UntilState<T, Y>) -> bool {
    state.finalized_ts matches Some(answered) ==> forall|k: int|
        0 <= k < state.tasks.len() ==> answered < #[trigger] state.tasks[k]
}

/// Unless verdicts are refinable, every task that is evaluated is answered for good.
pub proof fn lemma_answered_tasks<T, Y: RobustnessSemantics>(
    state: UntilState<T, Y>,
    tasks: Seq<Time>,
    now: Time,
)
    requires
        !state.rosi,
        forall|k: int|
            0 <= k < tasks.len() ==> !(state.window(#[trigger] tasks[k], now).outcome() is Wait),
    ensures
        state.still_open(tasks, now).len() == 0,
        state.newest_final(tasks, now) == (if tasks.len() == 0 {
            None
        } else {
            Some(tasks.last())
        }),
    decreases tasks.len(),
{
    if tasks.len() > 0 {
        let head = tasks.drop_last();
        assert forall|k: int| 0 <= k < head.len() implies !(state.window(
            #[trigger] head[k],
            now,
        ).outcome() is Wait) by {
            assert(head[k] == tasks[k]);
        }
        lemma_answered_tasks(state, head, now);
        assert(tasks.last() == tasks[tasks.len() - 1]);
    }
}

pub proof fn lemma_evaluable_prefix<T, Y: RobustnessSemantics>(
    state: UntilState<T, Y>,
    tasks: Seq<Time>,
    now: Time,
)
    ensures
        state.evaluable(tasks, now) <= tasks.len(),
        forall|k: int|
            0 <= k < state.evaluable(tasks, now) ==> !(state.window(
                #[trigger] tasks[k],
                now,
            ).outcome() is Wait),
    decreases tasks.len(),
{
    if tasks.len() > 0 && !(state.window(tasks[0], now).outcome() is Wait) {
        let rest = tasks.skip(1);
        lemma_evaluable_prefix(state, rest, now);
        assert forall|k: int| 0 <= k < state.evaluable(tasks, now) implies !(state.window(
            #[trigger] tasks[k],
            now,
        ).outcome() is Wait) by {
            if k > 0 {
                assert(rest[k - 1] == tasks[k]);
            }
        }
    }
}

/// Unless they are refinable, verdicts come in time order over the whole stream and each time is
/// answered once: what is emitted on a sample is later than everything answered before, and
/// what stays queued is later still. So nothing is left out up to the newest answer.
pub proof fn verdicts_come_once_and_in_order<T, Y: RobustnessSemantics>(
    state: UntilState<T, Y>,
    step: Step<T>,
)
    requires
        state.wf(),
        !state.rosi,
        is_steady(state, step),
        is_ahead_of_answers(state),
    ensures
        in_order(state.emit(Event::Sample(step))),
        state.finalized_ts matches Some(answered) ==> forall|k: int|
            0 <= k < state.emit(Event::Sample(step)).len() ==> answered < (
            #[trigger] state.emit(Event::Sample(step))[k]).timestamp,
        Machine::<T, Y>::next(state, Event::Sample(step)).finalized_ts == (if state.emit(
            Event::Sample(step),
        ).len() == 0 {
            state.finalized_ts
        } else {
            Some(state.emit(Event::Sample(step)).last().timestamp)
        }),
        is_ahead_of_answers(Machine::<T, Y>::next(state, Event::Sample(step))),
{
    let now = step.timestamp;
    let b = prepared(state, step);
    lemma_prepared(state, step);
    output_is_ordered(b, now);
    // What is queued anew is later than the answers too.
    assert(is_ahead_of_answers(b)) by {
        if let Some(answered) = state.finalized_ts {
            let left = state.operands.left_emits(Event::Sample(step));
            let right = state.operands.right_emits(Event::Sample(step));
            let points = timestamps(right) + timestamps(left);
            let taken = state.taken_in(step);
            queue_is_what_breakpoints_ask_for(taken, points, Seq::empty());
            assert forall|k: int| 0 <= k < b.tasks.len() implies answered
                < #[trigger] b.tasks[k] by {
                let t = b.tasks[k];
                assert(b.tasks.contains(t));
                if taken.tasks.contains(t) {
                    let n = choose|n: int| 0 <= n < state.tasks.len() && state.tasks[n] == t;
                    assert(answered < state.tasks[n]);
                } else {
                    let n = choose|n: int|
                        0 <= n < points.len() && asks_for(taken, #[trigger] points[n], t)
                            && taken.queues(points[n], Seq::empty(), t);
                    assert(!Seq::<Time>::empty().contains(points[n]));
                }
            }
        }
    }
    if b.left_cache.len() > 0 && b.right_cache.len() > 0 {
        lemma_evaluable_prefix(b, b.tasks, now);
        let n = b.evaluable(b.tasks, now) as int;
        let done = b.tasks.take(n);
        assert forall|k: int| 0 <= k < done.len() implies !(b.window(
            #[trigger] done[k],
            now,
        ).outcome() is Wait) by {
            assert(done[k] == b.tasks[k]);
        }
        lemma_answered_tasks(b, done, now);
        let after = b.answered(now);
        assert(after.tasks =~= b.tasks.skip(n));
        assert forall|k: int| 0 <= k < after.tasks.len() && n > 0 implies b.tasks[n - 1]
            < #[trigger] after.tasks[k] by {
            assert(after.tasks[k] == b.tasks[n + k]);
        }
    }
}

/// In delayed mode every verdict is what until is worth in dense time over what the operands
/// have reported.
pub proof fn delayed_verdicts_are_dense<T, Y: RobustnessSemantics>(
    state: UntilState<T, Y>,
    step: Step<T>,
    k: int,
)
    requires
        is_lattice::<Y>(),
        is_bounded::<Y>(),
        state.wf(),
        !state.eager,
        !state.rosi,
        is_steady(state, step),
        state.interval.start <= state.interval.end,
        0 <= k < state.emit(Event::Sample(step)).len(),
        ({
            let b = prepared(state, step);
            let w = b.window(b.tasks[k], step.timestamp);
            &&& w.end() <= step.timestamp
            &&& holds_throughout(b.left_cache, w.t, w.end())
            &&& holds_throughout(b.right_cache, w.start(), w.end())
        }),
    ensures
        ({
            let b = prepared(state, step);
            let out = state.emit(Event::Sample(step))[k];
            let w = b.window(b.tasks[k], step.timestamp);
            &&& out.timestamp == b.tasks[k]
            &&& is_until_value(b.left_cache, b.right_cache, w.t, w.start(), w.end(), out.value)
        }),
{
    let b = prepared(state, step);
    let now = step.timestamp;
    lemma_prepared(state, step);
    lemma_evaluable_prefix(b, b.tasks, now);
    let w = b.window(b.tasks[k], now);
    delayed_verdict_waits_for_both_operands(w);
    covered_window_has_the_dense_verdict(w);
}

} // verus!
