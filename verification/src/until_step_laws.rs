//! One step of an until, in every mode and over any operands: what is taken in, which times are
//! queued, what is answered, and what is remembered of it.

use crate::answer_laws::is_said;
use crate::cache_laws::{adding_a_sample_keeps_the_others, pruning_removes_what_is_superseded};
use crate::operands::infix_text;
use crate::operator::{Behavior, Event, Machine, Profile};
use crate::ring_buffer::{in_order, lemma_put_in_order, Step};
use crate::semantics::RobustnessSemantics;
use crate::text::seconds_text;
use crate::time::{Time, TimeInterval, FOREVER, MAX_TIME};
use crate::until_operator::{capped, earliest, final_through, lands_behind, late_among};
use crate::until_operator::{lemma_with_task, reported, timestamps, until_infix, until_profile};
use crate::until_operator::{with_all, with_task, UntilState};
use crate::until_stream_laws::{is_asked_for, queue_is_what_breakpoints_ask_for};
use crate::until_window::Outcome;
use vstd::prelude::*;

verus! {

/// Verdicts are cached one after the other: of several on one time the last one counts, and those
/// cached before on other times stay.
pub proof fn verdicts_are_cached_in_turn<Y>(cache: Seq<Step<Y>>, updates: Seq<Step<Y>>, e: Step<Y>)
    requires
        in_order(cache),
    ensures
        in_order(with_all(cache, updates)),
        with_all(cache, updates).contains(e) <==> {
            ||| exists|i: int|
                0 <= i < updates.len() && #[trigger] updates[i] == e && forall|j: int|
                    i < j < updates.len() ==> (#[trigger] updates[j]).timestamp != e.timestamp
            ||| cache.contains(e) && forall|j: int|
                0 <= j < updates.len() ==> (#[trigger] updates[j]).timestamp != e.timestamp
        },
    decreases updates.len(),
{
    if updates.len() > 0 {
        let init = updates.drop_last();
        let last = updates.last();
        let head = with_all(cache, init);
        let n = updates.len() - 1;
        verdicts_are_cached_in_turn(cache, init, e);
        lemma_put_in_order(head, last);
        adding_a_sample_keeps_the_others(head, last, e);
        assert(updates[n] == last);
        assert forall|i: int| 0 <= i < n implies #[trigger] init[i] == updates[i] by {}
        if exists|i: int|
            0 <= i < init.len() && #[trigger] init[i] == e && forall|j: int|
                i < j < init.len() ==> (#[trigger] init[j]).timestamp != e.timestamp {
            let i = choose|i: int|
                0 <= i < init.len() && #[trigger] init[i] == e && forall|j: int|
                    i < j < init.len() ==> (#[trigger] init[j]).timestamp != e.timestamp;
            assert(updates[i] == e);
            assert(forall|j: int|
                i < j < n ==> (#[trigger] updates[j]).timestamp != e.timestamp) by {
                assert(forall|j: int| i < j < n ==> init[j] == #[trigger] updates[j]);
            }
        }
        if exists|i: int|
            0 <= i < updates.len() && #[trigger] updates[i] == e && forall|j: int|
                i < j < updates.len() ==> (#[trigger] updates[j]).timestamp != e.timestamp {
            let i = choose|i: int|
                0 <= i < updates.len() && #[trigger] updates[i] == e && forall|j: int|
                    i < j < updates.len() ==> (#[trigger] updates[j]).timestamp != e.timestamp;
            if i < n {
                assert(init[i] == e);
                assert(updates[n].timestamp != e.timestamp);
                assert(forall|j: int| i < j < n ==> #[trigger] init[j] == updates[j]);
            }
        }
        assert((forall|j: int|
            0 <= j < updates.len() ==> (#[trigger] updates[j]).timestamp != e.timestamp) <==> (
        forall|j: int| 0 <= j < n ==> (#[trigger] init[j]).timestamp != e.timestamp)
            && last.timestamp != e.timestamp) by {
            assert(forall|j: int| 0 <= j < n ==> init[j] == #[trigger] updates[j]);
        }
    }
}

/// How far an operand has reported after a step is the later of how far it had and its last
/// verdict, but no farther than it says it is known to.
pub open spec fn is_reach<Y>(before: Time, said: Seq<Step<Y>>, known: Option<Time>, after: Time) -> bool {
    let farthest = if said.len() > 0 && before < said[said.len() - 1].timestamp {
        said[said.len() - 1].timestamp
    } else {
        before
    };
    if known is Some && known->0 < farthest {
        after == known->0
    } else {
        after == farthest
    }
}

/// How far an operand has reported for good is the latest of how far it had and its final
/// verdicts.
pub open spec fn is_settled<Y: RobustnessSemantics>(
    before: Time,
    said: Seq<Step<Y>>,
    after: Time,
) -> bool {
    &&& before <= after
    &&& forall|i: int|
        0 <= i < said.len() && Y::final_spec((#[trigger] said[i]).value) ==> said[i].timestamp
            <= after
    &&& after == before || exists|i: int|
        0 <= i < said.len() && Y::final_spec((#[trigger] said[i]).value) && said[i].timestamp
            == after
}

/// The newest final verdict is how far an operand has reported for good.
pub proof fn final_verdicts_settle<Y: RobustnessSemantics>(before: Time, said: Seq<Step<Y>>)
    ensures
        is_settled(before, said, final_through(before, said)),
    decreases said.len(),
{
    if said.len() > 0 {
        let p = said.drop_last();
        let n = said.len() - 1;
        final_verdicts_settle(before, p);
        assert(said[n] == said.last());
        let head = final_through(before, p);
        assert forall|i: int|
            0 <= i < said.len() && Y::final_spec((#[trigger] said[i]).value) implies said[i].timestamp
            <= final_through(before, said) by {
            if i < n {
                assert(p[i] == said[i]);
            }
        }
        if head != before {
            let i = choose|i: int|
                0 <= i < p.len() && Y::final_spec((#[trigger] p[i]).value) && p[i].timestamp
                    == head;
            assert(said[i] == p[i]);
        }
    }
}

/// How far an operand has reported, how a cache tells that a verdict is late, and which times
/// verdicts are at.
pub proof fn reports_are_measured_by_their_times<Y>(
    t: Time,
    said: Seq<Step<Y>>,
    known: Option<Time>,
    cache: Seq<Step<Y>>,
    step: Step<Y>,
)
    requires
        in_order(cache),
    ensures
        is_reach(t, said, known, capped(reported(t, said), known)),
        known is None ==> capped(t, known) == t,
        known is Some ==> capped(t, known) <= t && capped(t, known) <= known->0 && (capped(t, known)
            == t || capped(t, known) == known->0),
        lands_behind(cache, step) <==> exists|k: int|
            0 <= k < cache.len() && step.timestamp < (#[trigger] cache[k]).timestamp,
        timestamps(said).len() == said.len(),
        forall|i: int|
            0 <= i < said.len() ==> #[trigger] timestamps(said)[i] == said[i].timestamp,
{
    if cache.len() > 0 {
        assert(cache.last() == cache[cache.len() - 1]);
    }
    if exists|k: int| 0 <= k < cache.len() && step.timestamp < (#[trigger] cache[k]).timestamp {
        let k = choose|k: int|
            0 <= k < cache.len() && step.timestamp < (#[trigger] cache[k]).timestamp;
        assert(k < cache.len() - 1 ==> cache[k].timestamp < cache[cache.len() - 1].timestamp);
    }
}

/// A time is queued once, at its place, and everything that was queued stays.
pub proof fn times_are_queued_once(tasks: Seq<Time>, t: Time, u: Time)
    requires
        forall|i: int, j: int| 0 <= i < j < tasks.len() ==> tasks[i] < tasks[j],
    ensures
        with_task(tasks, t).contains(u) <==> tasks.contains(u) || u == t,
        forall|i: int, j: int|
            0 <= i < j < with_task(tasks, t).len() ==> (#[trigger] with_task(tasks, t)[i]) < (
            #[trigger] with_task(tasks, t)[j]),
{
    lemma_with_task(tasks, t);
}

/// What a step leaves of each operand before anything is answered: of several verdicts on one
/// time the last one counts, and an earlier verdict on another time stays.
pub proof fn a_step_takes_in_what_the_operands_say<T, Y: RobustnessSemantics>(
    state: UntilState<T, Y>,
    step: Step<T>,
    left: Seq<Step<Y>>,
    right: Seq<Step<Y>>,
    e: Step<Y>,
)
    requires
        in_order(state.left_cache),
        in_order(state.right_cache),
        is_said(state.operands.left, state.operands.left_signals, step, left),
        is_said(state.operands.right, state.operands.right_signals, step, right),
    ensures
        ({
            let s = state.taken_in(step).with_tasks(state, step);
            &&& in_order(s.left_cache) && in_order(s.right_cache)
            &&& s.left_cache.contains(e) <==> {
                ||| exists|i: int|
                    0 <= i < left.len() && #[trigger] left[i] == e && forall|j: int|
                        i < j < left.len() ==> (#[trigger] left[j]).timestamp != e.timestamp
                ||| state.left_cache.contains(e) && forall|j: int|
                    0 <= j < left.len() ==> (#[trigger] left[j]).timestamp != e.timestamp
            }
            &&& s.right_cache.contains(e) <==> {
                ||| exists|i: int|
                    0 <= i < right.len() && #[trigger] right[i] == e && forall|j: int|
                        i < j < right.len() ==> (#[trigger] right[j]).timestamp != e.timestamp
                ||| state.right_cache.contains(e) && forall|j: int|
                    0 <= j < right.len() ==> (#[trigger] right[j]).timestamp != e.timestamp
            }
            &&& is_reach(
                state.t_max.0,
                left,
                (s.operands.left.known)(Seq::empty()),
                s.t_max.0,
            )
            &&& is_reach(
                state.t_max.1,
                right,
                (s.operands.right.known)(Seq::empty()),
                s.t_max.1,
            )
            &&& is_settled(state.settled.0, left, s.settled.0)
            &&& is_settled(state.settled.1, right, s.settled.1)
            &&& s.finalized_ts == state.finalized_ts
            &&& s.interval == state.interval
            &&& s.lookahead == state.lookahead
            &&& s.eager == state.eager
            &&& s.rosi == state.rosi
        }),
{
    let event = Event::Sample(step);
    assert(state.operands.left_emits(event) =~= left);
    assert(state.operands.right_emits(event) =~= right);
    verdicts_are_cached_in_turn(state.left_cache, left, e);
    verdicts_are_cached_in_turn(state.right_cache, right, e);
    final_verdicts_settle(state.settled.0, left);
    final_verdicts_settle(state.settled.1, right);
}

/// The earliest of some times is one of them, and none is earlier.
pub proof fn the_earliest_is_no_later_than_any(first: Option<Time>, times: Seq<Time>)
    ensures
        earliest(first, times) is None <==> first is None && times.len() == 0,
        earliest(first, times) matches Some(t) ==> {
            &&& first is Some ==> t <= first->0
            &&& forall|i: int| 0 <= i < times.len() ==> t <= #[trigger] times[i]
            &&& first == Some(t) || times.contains(t)
        },
    decreases times.len(),
{
    if times.len() > 0 {
        let p = times.drop_last();
        let n = times.len() - 1;
        the_earliest_is_no_later_than_any(first, p);
        assert(times[n] == times.last());
        let t = earliest(first, times)->0;
        assert forall|i: int| 0 <= i < times.len() implies t <= #[trigger] times[i] by {
            if i < n {
                assert(p[i] == times[i]);
            }
        }
        if earliest(first, p) is Some && p.contains(earliest(first, p)->0) {
            let i = choose|i: int| 0 <= i < p.len() && p[i] == earliest(first, p)->0;
            assert(times[i] == p[i]);
        }
    }
}

/// Nothing before the first verdict of an operand is ever evaluated: that time is fixed by the
/// first step on which one of them says anything, as the earliest it says.
pub proof fn evaluation_begins_with_the_first_verdict<T, Y: RobustnessSemantics>(
    state: UntilState<T, Y>,
    step: Step<T>,
    left: Seq<Step<Y>>,
    right: Seq<Step<Y>>,
)
    requires
        is_said(state.operands.left, state.operands.left_signals, step, left),
        is_said(state.operands.right, state.operands.right_signals, step, right),
    ensures
        ({
            let first = state.taken_in(step).with_tasks(state, step).first_ts;
            &&& state.first_ts is Some ==> first == state.first_ts
            &&& state.first_ts is None ==> (first is None <==> left.len() == 0 && right.len() == 0)
            &&& state.first_ts is None && first is Some ==> {
                &&& forall|i: int|
                    0 <= i < left.len() ==> first->0 <= (#[trigger] left[i]).timestamp
                &&& forall|i: int|
                    0 <= i < right.len() ==> first->0 <= (#[trigger] right[i]).timestamp
                &&& (exists|i: int|
                    0 <= i < left.len() && (#[trigger] left[i]).timestamp == first->0) || (exists|
                    i: int,
                |
                    0 <= i < right.len() && (#[trigger] right[i]).timestamp == first->0)
            }
        }),
{
    let event = Event::Sample(step);
    assert(state.operands.left_emits(event) =~= left);
    assert(state.operands.right_emits(event) =~= right);
    let times = timestamps(right) + timestamps(left);
    let first = state.taken_in(step).with_tasks(state, step).first_ts;
    the_earliest_is_no_later_than_any(None, times);
    if state.first_ts is None && first is Some {
        assert forall|i: int| 0 <= i < left.len() implies first->0 <= (
        #[trigger] left[i]).timestamp by {
            assert(times[right.len() + i] == left[i].timestamp);
        }
        assert forall|i: int| 0 <= i < right.len() implies first->0 <= (
        #[trigger] right[i]).timestamp by {
            assert(times[i] == right[i].timestamp);
        }
        let k = choose|k: int| 0 <= k < times.len() && times[k] == first->0;
        if k < right.len() {
            assert(right[k].timestamp == first->0);
        } else {
            assert(left[k - right.len()].timestamp == first->0);
        }
    }
}

/// A verdict of an operand at `p` comes late if some later one came before it.
pub open spec fn comes_late<Y>(cache: Seq<Step<Y>>, said: Seq<Step<Y>>, p: Time) -> bool {
    exists|i: int|
        0 <= i < said.len() && (#[trigger] said[i]).timestamp == p && ((exists|k: int|
            0 <= k < cache.len() && p < (#[trigger] cache[k]).timestamp) || (exists|j: int|
            0 <= j < i && p < (#[trigger] said[j]).timestamp))
}

/// Whether a later timestamp than `p` is cached or was said.
spec fn has_later<Y>(cache: Seq<Step<Y>>, said: Seq<Step<Y>>, p: Time) -> bool {
    ||| exists|k: int| 0 <= k < cache.len() && p < (#[trigger] cache[k]).timestamp
    ||| exists|j: int| 0 <= j < said.len() && p < (#[trigger] said[j]).timestamp
}

proof fn lemma_has_later<Y>(cache: Seq<Step<Y>>, said: Seq<Step<Y>>, p: Time)
    requires
        in_order(cache),
    ensures
        in_order(with_all(cache, said)),
        with_all(cache, said).len() > 0 && p < with_all(cache, said).last().timestamp <==> has_later(
            cache,
            said,
            p,
        ),
    decreases said.len(),
{
    let all = with_all(cache, said);
    if said.len() == 0 {
        if has_later(cache, said, p) {
            let k = choose|k: int| 0 <= k < cache.len() && p < (#[trigger] cache[k]).timestamp;
            assert(k < cache.len() - 1 ==> cache[k].timestamp < cache[cache.len() - 1].timestamp);
        }
        if cache.len() > 0 {
            assert(cache.last() == cache[cache.len() - 1]);
        }
    } else {
        let init = said.drop_last();
        let last = said.last();
        let head = with_all(cache, init);
        let n = said.len() - 1;
        lemma_has_later(cache, init, p);
        lemma_put_in_order(head, last);
        assert(said[n] == last);
        assert(has_later(cache, said, p) <==> has_later(cache, init, p) || p < last.timestamp) by {
            if has_later(cache, init, p) && !(exists|k: int|
                0 <= k < cache.len() && p < (#[trigger] cache[k]).timestamp) {
                let j = choose|j: int| 0 <= j < init.len() && p < (#[trigger] init[j]).timestamp;
                assert(said[j] == init[j]);
            }
            if has_later(cache, said, p) && !(exists|k: int|
                0 <= k < cache.len() && p < (#[trigger] cache[k]).timestamp) {
                let j = choose|j: int| 0 <= j < said.len() && p < (#[trigger] said[j]).timestamp;
                if j < n {
                    assert(init[j] == said[j]);
                }
            }
        }
        // The newest entry is the new one, or the one that was newest before.
        adding_a_sample_keeps_the_others(head, last, last);
        let m = all.len() - 1;
        let i = choose|i: int| 0 <= i < all.len() && all[i] == last;
        assert(i < m ==> all[i].timestamp < all[m].timestamp);
        if head.len() > 0 {
            let h = head.last();
            assert(head[head.len() - 1] == h);
            adding_a_sample_keeps_the_others(head, last, h);
            if h.timestamp != last.timestamp {
                assert(head.contains(h));
                let k = choose|k: int| 0 <= k < all.len() && all[k] == h;
                assert(k < m ==> all[k].timestamp < all[m].timestamp);
            }
        }
        adding_a_sample_keeps_the_others(head, last, all[m]);
        assert(all.contains(all[m]));
        if all[m] != last {
            let k = choose|k: int| 0 <= k < head.len() && head[k] == all[m];
            assert(k < head.len() - 1 ==> head[k].timestamp < head[head.len() - 1].timestamp);
        }
    }
}

/// The times that count as late are those of verdicts that come after a later one.
pub proof fn late_verdicts_come_after_later_ones<Y>(cache: Seq<Step<Y>>, said: Seq<Step<Y>>, p: Time)
    requires
        in_order(cache),
    ensures
        late_among(cache, said).contains(p) <==> comes_late(cache, said, p),
    decreases said.len(),
{
    if said.len() > 0 {
        let init = said.drop_last();
        let last = said.last();
        let n = said.len() - 1;
        let head = late_among(cache, init);
        let all = late_among(cache, said);
        late_verdicts_come_after_later_ones(cache, init, p);
        lemma_has_later(cache, init, last.timestamp);
        assert(said[n] == last);
        if head.contains(p) {
            let k = choose|k: int| 0 <= k < head.len() && head[k] == p;
            assert(all[k] == p);
        }
        if comes_late(cache, init, p) {
            let i = choose|i: int|
                0 <= i < init.len() && (#[trigger] init[i]).timestamp == p && ((exists|k: int|
                    0 <= k < cache.len() && p < (#[trigger] cache[k]).timestamp) || (exists|j: int|
                    0 <= j < i && p < (#[trigger] init[j]).timestamp));
            assert(said[i].timestamp == p);
            if exists|j: int| 0 <= j < i && p < (#[trigger] init[j]).timestamp {
                let j = choose|j: int| 0 <= j < i && p < (#[trigger] init[j]).timestamp;
                assert(said[j] == init[j]);
            }
            assert(comes_late(cache, said, p));
        }
        if all.contains(p) && !head.contains(p) {
            let k = choose|k: int| 0 <= k < all.len() && all[k] == p;
            assert(k < head.len() ==> head[k] == p);
            assert(p == last.timestamp && has_later(cache, init, p));
            if exists|j: int| 0 <= j < init.len() && p < (#[trigger] init[j]).timestamp {
                let j = choose|j: int| 0 <= j < init.len() && p < (#[trigger] init[j]).timestamp;
                assert(said[j] == init[j]);
            }
            assert(comes_late(cache, said, p));
        }
        if comes_late(cache, said, p) && !comes_late(cache, init, p) {
            let i = choose|i: int|
                0 <= i < said.len() && (#[trigger] said[i]).timestamp == p && ((exists|k: int|
                    0 <= k < cache.len() && p < (#[trigger] cache[k]).timestamp) || (exists|j: int|
                    0 <= j < i && p < (#[trigger] said[j]).timestamp));
            if exists|j: int| 0 <= j < i && p < (#[trigger] said[j]).timestamp {
                let j = choose|j: int| 0 <= j < i && p < (#[trigger] said[j]).timestamp;
                assert(init[j] == said[j]);
            }
            if i < n {
                assert(init[i] == said[i]);
                assert(comes_late(cache, init, p));
            }
            assert(i == n);
            assert(has_later(cache, init, p));
            assert(all[all.len() - 1] == p);
        }
    }
}

/// A verdict of an operand at `p` puts `t` into the queue: it is at `t` itself or where the
/// window of `t` begins or ends, `t` is no earlier than the first verdict, and it is later than
/// everything answered for good; or else the verdict comes late and the window of `t` ends past
/// the time both operands have reported to.
pub open spec fn puts_into_queue<T, Y: RobustnessSemantics>(
    s: UntilState<T, Y>,
    p: Time,
    late: bool,
    t: Time,
) -> bool {
    &&& p == t || p == t + s.interval.start || p == t + s.interval.end
    &&& s.first_ts is Some && s.first_ts->0 <= t
    &&& s.finalized_ts is None || s.finalized_ts->0 < t || (late && (t + s.interval.end > s.t_max.0
        || t + s.interval.end > s.t_max.1))
}

/// The queue a step leaves to be evaluated holds what it held before, what the verdicts of the
/// operands on this step put into it, and nothing else, in time order.
pub proof fn verdicts_queue_where_windows_meet_them<T, Y: RobustnessSemantics>(
    state: UntilState<T, Y>,
    step: Step<T>,
    left: Seq<Step<Y>>,
    right: Seq<Step<Y>>,
    t: Time,
)
    requires
        in_order(state.left_cache),
        in_order(state.right_cache),
        forall|i: int, j: int| 0 <= i < j < state.tasks.len() ==> state.tasks[i] < state.tasks[j],
        is_said(state.operands.left, state.operands.left_signals, step, left),
        is_said(state.operands.right, state.operands.right_signals, step, right),
    ensures
        ({
            let s = state.taken_in(step).with_tasks(state, step);
            let late = |p: Time|
                comes_late(state.left_cache, left, p) || comes_late(state.right_cache, right, p);
            &&& s.tasks.contains(t) <==> {
                ||| state.tasks.contains(t)
                ||| exists|i: int|
                    0 <= i < left.len() && puts_into_queue(
                        s,
                        (#[trigger] left[i]).timestamp,
                        late(left[i].timestamp),
                        t,
                    )
                ||| exists|i: int|
                    0 <= i < right.len() && puts_into_queue(
                        s,
                        (#[trigger] right[i]).timestamp,
                        late(right[i].timestamp),
                        t,
                    )
            }
            &&& forall|i: int, j: int| 0 <= i < j < s.tasks.len() ==> s.tasks[i] < s.tasks[j]
        }),
{
    let event = Event::Sample(step);
    assert(state.operands.left_emits(event) =~= left);
    assert(state.operands.right_emits(event) =~= right);
    let taken = state.taken_in(step);
    let s = taken.with_tasks(state, step);
    let points = timestamps(right) + timestamps(left);
    let l = late_among(state.left_cache, left);
    let r = late_among(state.right_cache, right);
    let late = r + l;
    queue_is_what_breakpoints_ask_for(taken, points, late);
    assert(s.tasks.contains(t) <==> state.tasks.contains(t) || is_asked_for(
        taken,
        points,
        late,
        t,
    ));
    assert forall|p: Time| #[trigger] late.contains(p) <==> comes_late(state.left_cache, left, p)
        || comes_late(state.right_cache, right, p) by {
        late_verdicts_come_after_later_ones(state.left_cache, left, p);
        late_verdicts_come_after_later_ones(state.right_cache, right, p);
        if late.contains(p) {
            let k = choose|k: int| 0 <= k < late.len() && late[k] == p;
            assert(k < r.len() ==> r[k] == p);
            assert(k >= r.len() ==> l[k - r.len()] == p);
        }
        if r.contains(p) {
            let k = choose|k: int| 0 <= k < r.len() && r[k] == p;
            assert(late[k] == p);
        }
        if l.contains(p) {
            let k = choose|k: int| 0 <= k < l.len() && l[k] == p;
            assert(late[r.len() + k] == p);
        }
    }
    if is_asked_for(taken, points, late, t) {
        let k = choose|k: int|
            0 <= k < points.len() && crate::until_stream_laws::asks_for(
                taken,
                #[trigger] points[k],
                t,
            ) && taken.queues(points[k], late, t);
        assert(late.contains(points[k]) == late.contains(points[k]));
        if k < right.len() {
            assert(points[k] == right[k].timestamp);
        } else {
            assert(points[k] == left[k - right.len()].timestamp);
        }
    }
    if exists|i: int|
        0 <= i < left.len() && puts_into_queue(
            s,
            (#[trigger] left[i]).timestamp,
            comes_late(state.left_cache, left, left[i].timestamp) || comes_late(
                state.right_cache,
                right,
                left[i].timestamp,
            ),
            t,
        ) {
        let i = choose|i: int|
            0 <= i < left.len() && puts_into_queue(
                s,
                (#[trigger] left[i]).timestamp,
                comes_late(state.left_cache, left, left[i].timestamp) || comes_late(
                    state.right_cache,
                    right,
                    left[i].timestamp,
                ),
                t,
            );
        assert(points[right.len() + i] == left[i].timestamp);
        assert(late.contains(left[i].timestamp) == late.contains(left[i].timestamp));
    }
    if exists|i: int|
        0 <= i < right.len() && puts_into_queue(
            s,
            (#[trigger] right[i]).timestamp,
            comes_late(state.left_cache, left, right[i].timestamp) || comes_late(
                state.right_cache,
                right,
                right[i].timestamp,
            ),
            t,
        ) {
        let i = choose|i: int|
            0 <= i < right.len() && puts_into_queue(
                s,
                (#[trigger] right[i]).timestamp,
                comes_late(state.left_cache, left, right[i].timestamp) || comes_late(
                    state.right_cache,
                    right,
                    right[i].timestamp,
                ),
                t,
            );
        assert(points[i] == right[i].timestamp);
        assert(late.contains(right[i].timestamp) == late.contains(right[i].timestamp));
    }
}

/// What a window is evaluated on: the verdicts kept of both operands, how far they have
/// reported, and how far for good, which is the same unless verdicts are refined.
pub proof fn windows_are_evaluated_on_what_is_kept<T, Y: RobustnessSemantics>(
    s: UntilState<T, Y>,
    t: Time,
    now: Time,
)
    ensures
        ({
            let w = s.window(t, now);
            &&& w.left == s.left_cache
            &&& w.right == s.right_cache
            &&& w.left_known == s.t_max.0
            &&& w.right_known == s.t_max.1
            &&& !s.rosi ==> w.left_settled == s.t_max.0 && w.right_settled == s.t_max.1
            &&& s.rosi ==> w.left_settled <= s.t_max.0 && w.left_settled <= s.settled.0 && (
            w.left_settled == s.t_max.0 || w.left_settled == s.settled.0)
            &&& s.rosi ==> w.right_settled <= s.t_max.1 && w.right_settled <= s.settled.1 && (
            w.right_settled == s.t_max.1 || w.right_settled == s.settled.1)
            &&& w.t == t
            &&& w.now == now
            &&& w.interval == s.interval
            &&& w.eager == s.eager
            &&& w.rosi == s.rosi
        }),
{
}

proof fn lemma_evaluable<T, Y: RobustnessSemantics>(
    s: UntilState<T, Y>,
    tasks: Seq<Time>,
    now: Time,
)
    ensures
        s.evaluable(tasks, now) <= tasks.len(),
        forall|k: int|
            0 <= k < s.evaluable(tasks, now) ==> !(s.window(
                #[trigger] tasks[k],
                now,
            ).outcome() is Wait),
        s.evaluable(tasks, now) < tasks.len() ==> s.window(
            tasks[s.evaluable(tasks, now) as int],
            now,
        ).outcome() is Wait,
    decreases tasks.len(),
{
    if tasks.len() > 0 && !(s.window(tasks[0], now).outcome() is Wait) {
        let rest = tasks.skip(1);
        lemma_evaluable(s, rest, now);
        assert forall|k: int| 0 <= k < s.evaluable(tasks, now) implies !(s.window(
            #[trigger] tasks[k],
            now,
        ).outcome() is Wait) by {
            if k > 0 {
                assert(rest[k - 1] == tasks[k]);
            }
        }
    }
}

proof fn lemma_still_open<T, Y: RobustnessSemantics>(
    s: UntilState<T, Y>,
    tasks: Seq<Time>,
    now: Time,
    t: Time,
)
    ensures
        s.still_open(tasks, now).contains(t) <==> tasks.contains(t) && !(s.window(
            t,
            now,
        ).outcome() is Final),
        s.newest_final(tasks, now) is None ==> (forall|k: int|
            0 <= k < tasks.len() ==> !(s.window(#[trigger] tasks[k], now).outcome() is Final)),
        s.newest_final(tasks, now) matches Some(f) ==> exists|k: int|
            0 <= k < tasks.len() && #[trigger] tasks[k] == f && s.window(
                f,
                now,
            ).outcome() is Final && forall|j: int|
                k < j < tasks.len() ==> !(s.window(#[trigger] tasks[j], now).outcome() is Final),
    decreases tasks.len(),
{
    if tasks.len() > 0 {
        let p = tasks.drop_last();
        let n = tasks.len() - 1;
        let head = s.still_open(p, now);
        let all = s.still_open(tasks, now);
        lemma_still_open(s, p, now, t);
        assert(tasks[n] == tasks.last());
        if head.contains(t) {
            let k = choose|k: int| 0 <= k < head.len() && head[k] == t;
            assert(all[k] == t);
            let i = choose|i: int| 0 <= i < p.len() && p[i] == t;
            assert(tasks[i] == t);
        }
        if all.contains(t) && !head.contains(t) {
            let k = choose|k: int| 0 <= k < all.len() && all[k] == t;
            assert(k < head.len() ==> head[k] == t);
        }
        if tasks.contains(t) && !(s.window(t, now).outcome() is Final) {
            let i = choose|i: int| 0 <= i < tasks.len() && tasks[i] == t;
            if i < n {
                assert(p[i] == t);
            } else {
                assert(all[all.len() - 1] == t);
            }
        }
        if s.newest_final(tasks, now) is None {
            assert forall|k: int| 0 <= k < tasks.len() implies !(s.window(
                #[trigger] tasks[k],
                now,
            ).outcome() is Final) by {
                if k < n {
                    assert(p[k] == tasks[k]);
                }
            }
        }
        if let Some(f) = s.newest_final(tasks, now) {
            if s.window(tasks.last(), now).outcome() is Final {
                assert(tasks[n] == f);
            } else {
                let k = choose|k: int|
                    0 <= k < p.len() && #[trigger] p[k] == f && s.window(
                        f,
                        now,
                    ).outcome() is Final && forall|j: int|
                        k < j < p.len() ==> !(s.window(#[trigger] p[j], now).outcome() is Final);
                assert(tasks[k] == f);
                assert forall|j: int| k < j < tasks.len() implies !(s.window(
                    #[trigger] tasks[j],
                    now,
                ).outcome() is Final) by {
                    if j < n {
                        assert(p[j] == tasks[j]);
                    }
                }
            }
        }
    }
}

/// What a step answers: the queued times in order, each with what its window comes to, up to the
/// first that has to wait; and nothing at all until both operands have said something.
pub proof fn a_step_answers_the_queue_in_order<T, Y: RobustnessSemantics>(
    state: UntilState<T, Y>,
    step: Step<T>,
)
    ensures
        ({
            let s = state.taken_in(step).with_tasks(state, step);
            let out = state.emit(Event::Sample(step));
            let now = step.timestamp;
            let outcome = |t: Time| s.window(t, now).outcome();
            &&& s.left_cache.len() == 0 || s.right_cache.len() == 0 ==> out.len() == 0
            &&& s.left_cache.len() > 0 && s.right_cache.len() > 0 ==> {
                &&& out.len() <= s.tasks.len()
                &&& out.len() < s.tasks.len() ==> outcome(s.tasks[out.len() as int]) is Wait
                &&& forall|k: int|
                    0 <= k < out.len() ==> {
                        let step = #[trigger] out[k];
                        &&& step.timestamp == s.tasks[k]
                        &&& outcome(s.tasks[k]) == Outcome::Final(step.value) || outcome(s.tasks[k])
                            == Outcome::Open(step.value)
                        &&& step.signal == "output"
                        &&& step.held_until == FOREVER
                    }
            }
        }),
{
    let s = state.taken_in(step).with_tasks(state, step);
    lemma_evaluable(s, s.tasks, step.timestamp);
}

/// What is remembered of the answers of a step. Times answered for good leave the queue, and no
/// other; the newest of them is where answers have come to. Of the operands those verdicts are
/// forgotten whose successor is no later than what is still queued and than what was answered
/// for good, and lies at least the lookahead before the newest. Here `i` and `j` are how many.
pub proof fn a_step_remembers_its_answers<T, Y: RobustnessSemantics>(
    state: UntilState<T, Y>,
    step: Step<T>,
    t: Time,
) -> (res: (int, int))
    requires
        ({
            let s = state.taken_in(step).with_tasks(state, step);
            in_order(s.left_cache) && in_order(s.right_cache)
        }),
    ensures
        ({
            let s = state.taken_in(step).with_tasks(state, step);
            let out = state.emit(Event::Sample(step));
            let next = state.next(Event::Sample(step));
            let now = step.timestamp;
            let is_final = |t: Time| s.window(t, now).outcome() is Final;
            let (i, j) = res;
            let old = |u: Time|
                (s.tasks.len() > 0 ==> u <= s.tasks[0]) && (next.finalized_ts is Some ==> u
                    <= next.finalized_ts->0) && (next.finalized_ts is None ==> u == 0);
            &&& s.left_cache.len() == 0 || s.right_cache.len() == 0 ==> next.tasks == s.tasks
                && next.finalized_ts == s.finalized_ts && next.left_cache == s.left_cache
                && next.right_cache == s.right_cache
            &&& s.left_cache.len() > 0 && s.right_cache.len() > 0 ==> {
                &&& next.tasks.contains(t) <==> (exists|k: int|
                    0 <= k < out.len() && #[trigger] s.tasks[k] == t && !is_final(t)) || (exists|
                    k: int,
                |
                    out.len() <= k < s.tasks.len() && #[trigger] s.tasks[k] == t)
                &&& (forall|k: int| 0 <= k < out.len() ==> !is_final(#[trigger] s.tasks[k]))
                    ==> next.finalized_ts == s.finalized_ts
                &&& (exists|k: int| 0 <= k < out.len() && is_final(#[trigger] s.tasks[k]))
                    ==> exists|k: int|
                    0 <= k < out.len() && is_final(#[trigger] s.tasks[k]) && next.finalized_ts
                        == Some(s.tasks[k]) && forall|m: int|
                        k < m < out.len() ==> !is_final(#[trigger] s.tasks[m])
                &&& 0 <= i < s.left_cache.len()
                &&& 0 <= j < s.right_cache.len()
                &&& next.left_cache == s.left_cache.skip(i)
                &&& next.right_cache == s.right_cache.skip(j)
                &&& forall|k: int|
                    0 < k < s.left_cache.len() ==> (k <= i <==> old(
                        (#[trigger] s.left_cache[k]).timestamp,
                    ) && s.left_cache[k].timestamp + s.lookahead <= s.left_cache.last().timestamp)
                &&& forall|k: int|
                    0 < k < s.right_cache.len() ==> (k <= j <==> old(
                        (#[trigger] s.right_cache[k]).timestamp,
                    ) && s.right_cache[k].timestamp + s.lookahead
                        <= s.right_cache.last().timestamp)
            }
            &&& next.t_max == s.t_max
            &&& next.settled == s.settled
            &&& next.first_ts == s.first_ts
            &&& next.interval == state.interval
            &&& next.lookahead == state.lookahead
            &&& next.eager == state.eager
            &&& next.rosi == state.rosi
        }),
{
    let s = state.taken_in(step).with_tasks(state, step);
    let now = step.timestamp;
    let next = state.next(Event::Sample(step));
    if s.left_cache.len() == 0 || s.right_cache.len() == 0 {
        (0, 0)
    } else {
        lemma_evaluable(s, s.tasks, now);
        let n = s.evaluable(s.tasks, now) as int;
        let done = s.tasks.take(n);
        let open = s.still_open(done, now);
        let rest = s.tasks.skip(n);
        lemma_still_open(s, done, now, t);
        assert(next.tasks == open + rest);
        if open.contains(t) {
            let k = choose|k: int| 0 <= k < open.len() && open[k] == t;
            assert(next.tasks[k] == t);
            let m = choose|m: int| 0 <= m < done.len() && done[m] == t;
            assert(s.tasks[m] == t);
        }
        if rest.contains(t) {
            let k = choose|k: int| 0 <= k < rest.len() && rest[k] == t;
            assert(next.tasks[open.len() + k] == t);
            assert(s.tasks[n + k] == t);
        }
        if next.tasks.contains(t) {
            let k = choose|k: int| 0 <= k < next.tasks.len() && next.tasks[k] == t;
            assert(k < open.len() ==> open[k] == t);
            assert(k >= open.len() ==> rest[k - open.len()] == t);
        }
        if exists|k: int| n <= k < s.tasks.len() && #[trigger] s.tasks[k] == t {
            let k = choose|k: int| n <= k < s.tasks.len() && #[trigger] s.tasks[k] == t;
            assert(rest[k - n] == t);
        }
        if exists|k: int|
            0 <= k < n && #[trigger] s.tasks[k] == t && !(s.window(t, now).outcome() is Final) {
            let k = choose|k: int|
                0 <= k < n && #[trigger] s.tasks[k] == t && !(s.window(
                    t,
                    now,
                ).outcome() is Final);
            assert(done[k] == t);
        }
        assert forall|k: int| 0 <= k < n implies #[trigger] done[k] == s.tasks[k] by {}
        let newest = s.newest_final(done, now);
        if newest is None {
            assert forall|k: int| 0 <= k < n implies !(s.window(
                #[trigger] s.tasks[k],
                now,
            ).outcome() is Final) by {
                assert(done[k] == s.tasks[k]);
            }
        } else {
            let k = choose|k: int|
                0 <= k < done.len() && #[trigger] done[k] == newest->0 && s.window(
                    newest->0,
                    now,
                ).outcome() is Final && forall|j: int|
                    k < j < done.len() ==> !(s.window(#[trigger] done[j], now).outcome() is Final);
            assert(s.tasks[k] == newest->0);
            assert forall|m: int| k < m < n implies !(s.window(
                #[trigger] s.tasks[m],
                now,
            ).outcome() is Final) by {
                assert(done[m] == s.tasks[m]);
            }
        }
        let floor = match next.finalized_ts {
            Some(t) => t,
            None => 0,
        };
        let protected_ts = if s.tasks.len() > 0 && s.tasks[0] <= floor {
            s.tasks[0]
        } else {
            floor
        };
        let i = pruning_removes_what_is_superseded(s.left_cache, s.lookahead, protected_ts);
        let j = pruning_removes_what_is_superseded(s.right_cache, s.lookahead, protected_ts);
        (i, j)
    }
}

/// The state before anything has happened holds the operands, what they read, the interval and
/// how far to look ahead, whatever verdicts were handed over, and nothing else.
pub proof fn nothing_has_happened_at_first<T, Y: RobustnessSemantics>(
    interval: TimeInterval,
    left: Behavior<T, Y>,
    right: Behavior<T, Y>,
    left_profile: Profile,
    right_profile: Profile,
    left_cache: Seq<Step<Y>>,
    right_cache: Seq<Step<Y>>,
    eager: bool,
    rosi: bool,
)
    requires
        interval.end + left_profile.lookahead <= MAX_TIME,
        interval.end + right_profile.lookahead <= MAX_TIME,
    ensures
        ({
            let s = UntilState::initial(
                interval,
                left,
                right,
                left_profile,
                right_profile,
                left_cache,
                right_cache,
                eager,
                rosi,
            );
            &&& s.operands.left == left
            &&& s.operands.right == right
            &&& s.operands.left_reads == left_profile.identifiers
            &&& s.operands.right_reads == right_profile.identifiers
            &&& s.operands.left_signals == Set::<Seq<char>>::empty()
            &&& s.operands.right_signals == Set::<Seq<char>>::empty()
            &&& s.left_cache == left_cache
            &&& s.right_cache == right_cache
            &&& s.t_max == (0 as Time, 0 as Time)
            &&& s.settled == (0 as Time, 0 as Time)
            &&& s.tasks.len() == 0
            &&& s.first_ts is None
            &&& s.finalized_ts is None
            &&& s.interval == interval
            &&& s.lookahead >= interval.end + left_profile.lookahead
            &&& s.lookahead >= interval.end + right_profile.lookahead
            &&& s.lookahead == interval.end + left_profile.lookahead || s.lookahead == interval.end
                + right_profile.lookahead
            &&& s.eager == eager
            &&& s.rosi == rosi
        }),
{
}

/// Only a sample is answered. A reset forgets all verdicts, answers and what was queued, and
/// binding variables or learning what the operands read forgets nothing.
pub proof fn other_events_are_not_answered<T, Y: RobustnessSemantics>(
    state: UntilState<T, Y>,
    event: Event<T>,
)
    requires
        !(event is Sample),
    ensures
        state.emit(event).len() == 0,
        ({
            let next = state.next(event);
            &&& event is Reset ==> next.left_cache.len() == 0 && next.right_cache.len() == 0
                && next.t_max == (0 as Time, 0 as Time) && next.settled == (0 as Time, 0 as Time)
                && next.tasks.len() == 0 && next.first_ts is None && next.finalized_ts is None
            &&& !(event is Reset) ==> next.left_cache == state.left_cache && next.right_cache
                == state.right_cache && next.t_max == state.t_max && next.settled == state.settled
                && next.tasks == state.tasks && next.first_ts == state.first_ts && next.finalized_ts
                == state.finalized_ts
            &&& next.interval == state.interval
            &&& next.lookahead == state.lookahead
            &&& next.eager == state.eager
            &&& next.rosi == state.rosi
        }),
{
}

/// Only eager output can have gaps. It has none up to the newest time answered for good whose
/// window ends where its operands have none.
pub proof fn output_is_known_as_far_as_it_is_answered<T, Y: RobustnessSemantics>(
    state: UntilState<T, Y>,
)
    requires
        state.finalized_ts is Some ==> state.finalized_ts->0 <= MAX_TIME,
        state.interval.end <= MAX_TIME,
    ensures
        state.known() is Some <==> state.eager && !state.rosi,
        state.known() matches Some(t) ==> {
            let left = (state.operands.left.known)(Seq::empty());
            let right = (state.operands.right.known)(Seq::empty());
            let answered = if state.finalized_ts is Some {
                state.finalized_ts->0
            } else {
                0
            };
            let bound = |known: Option<Time>, u: Time|
                known is Some ==> u + state.interval.end <= known->0 || u == 0;
            &&& t <= answered
            &&& bound(left, t)
            &&& bound(right, t)
            &&& left is None && right is None ==> t == answered
            &&& t < answered ==> t + state.interval.end == MAX_TIME || left is Some && (t
                + state.interval.end == left->0 || t == 0) || right is Some && (t
                + state.interval.end == right->0 || t == 0)
        },
{
}

/// An until looks as far ahead as its interval ends, and the farther of its operands looks on
/// from there. It reads what either one reads, and is written with both in brackets and its
/// interval in between, in seconds.
pub proof fn an_until_looks_ahead_past_its_interval(
    left: Profile,
    right: Profile,
    interval: TimeInterval,
    name: Seq<char>,
)
    requires
        interval.end + left.lookahead <= MAX_TIME,
        interval.end + right.lookahead <= MAX_TIME,
    ensures
        ({
            let p = until_profile(left, right, interval);
            &&& p.lookahead >= interval.end + left.lookahead
            &&& p.lookahead >= interval.end + right.lookahead
            &&& p.lookahead == interval.end + left.lookahead || p.lookahead == interval.end
                + right.lookahead
            &&& p.identifiers.contains(name) <==> left.identifiers.contains(name)
                || right.identifiers.contains(name)
            &&& p.variables.contains(name) <==> left.variables.contains(name)
                || right.variables.contains(name)
            &&& p.text == infix_text(left.text, until_infix(interval), right.text)
        }),
        until_infix(interval) == seq![' ', 'U', '['] + seconds_text(interval.start) + seq![
            ',',
            ' ',
        ] + seconds_text(interval.end) + seq![']', ' '],
{
    reveal_strlit(" U[");
    reveal_strlit(", ");
    reveal_strlit("] ");
    assert(" U["@ =~= seq![' ', 'U', '[']);
    assert(", "@ =~= seq![',', ' ']);
    assert("] "@ =~= seq![']', ' ']);
}

/// Whatever happens to the operator happens to its operands, and to them alone.
pub proof fn operands_go_on_with_every_event<T, Y: RobustnessSemantics>(
    state: UntilState<T, Y>,
    event: Event<T>,
)
    ensures
        state.next(event).operands.left == state.operands.next(event).left,
        state.next(event).operands.right == state.operands.next(event).right,
        state.next(event).operands.left_signals == state.operands.next(event).left_signals,
        state.next(event).operands.right_signals == state.operands.next(event).right_signals,
        state.next(event).operands.left_reads == state.operands.left_reads,
        state.next(event).operands.right_reads == state.operands.right_reads,
{
}

} // verus!
