//! Conjunction and disjunction over a whole stream in delayed mode: what is emitted sample by
//! sample, with caches pruned on the way, is what the complete history of both operands gives.

use crate::binary_node::{absorbed, BinaryState};
use crate::binary_operators::{after_mark, answers_are_sound_and_complete, joint};
use crate::binary_operators::{lemma_after_mark, merged, merged_lists_every_timestamp, reached};
use crate::binary_operators::{OperandView, Pairing};
use crate::operator::{Event, Machine};
use crate::ring_buffer::{all_upto, count_upto, has_entry_at, in_force, in_order};
use crate::ring_buffer::{lemma_count_upto, lemma_count_upto_unique};
use crate::ring_buffer::{prune_cutoff, pruned, put, Step};
use crate::semantics::RobustnessSemantics;
use crate::time::{max_time, minus, Time, FOREVER, MAX_TIME};
use vstd::prelude::*;

verus! {

/// The time of the newest entry.
pub open spec fn newest<Y>(s: Seq<Step<Y>>) -> Option<Time> {
    if s.len() == 0 {
        None
    } else {
        Some(s.last().timestamp)
    }
}

/// Every entry is held until the next one.
pub open spec fn held_on<Y>(s: Seq<Step<Y>>) -> bool {
    forall|i: int| 0 <= i < s.len() ==> (#[trigger] s[i]).held_until == FOREVER
}

/// Verdicts come in time order, after those that came before, and are held on; and no gap is
/// reported.
pub open spec fn is_steady<T, Y: RobustnessSemantics>(
    state: BinaryState<T, Y>,
    step: Step<T>,
) -> bool {
    let event = Event::Sample(step);
    let left = state.operands.left_emits(event);
    let right = state.operands.right_emits(event);
    let operands = state.operands.next(event);
    &&& in_order(state.left_cache + left)
    &&& in_order(state.right_cache + right)
    &&& all_upto(left, MAX_TIME)
    &&& all_upto(right, MAX_TIME)
    &&& held_on(left)
    &&& held_on(right)
    &&& operands.left.known_now() is None
    &&& operands.right.known_now() is None
}

/// The state after a sample, with everything kept.
pub open spec fn kept<T, Y: RobustnessSemantics>(
    state: BinaryState<T, Y>,
    step: Step<T>,
) -> BinaryState<T, Y> {
    let taken = state.taken_in(step);
    BinaryState {
        left_cache: taken.left_cache,
        right_cache: taken.right_cache,
        ..taken.answered(taken.available())
    }
}

/// What the complete history of both operands gives.
pub open spec fn complete<T, Y: RobustnessSemantics>(state: BinaryState<T, Y>) -> Seq<Step<Y>> {
    state.pairing().answers(state.pairing().breakpoints(None))
}

/// `state` holds the complete history, and everything there is to say was said.
pub open spec fn is_complete<T, Y: RobustnessSemantics>(state: BinaryState<T, Y>) -> bool {
    &&& state.wf()
    &&& !state.eager
    &&& !state.rosi
    &&& held_on(state.left_cache)
    &&& held_on(state.right_cache)
    &&& state.left_frontier == newest(state.left_cache)
    &&& state.right_frontier == newest(state.right_cache)
    &&& state.mark == newest(complete(state))
}

/// The distinct timestamps of two caches are those up to `m` and then those after.
proof fn lemma_merged_split<Y>(l: Seq<Step<Y>>, r: Seq<Step<Y>>, a: int, b: int, m: Time)
    requires
        0 <= a <= l.len(),
        0 <= b <= r.len(),
        forall|i: int| 0 <= i < a ==> (#[trigger] l[i]).timestamp <= m,
        forall|i: int| a <= i < l.len() ==> (#[trigger] l[i]).timestamp > m,
        forall|i: int| 0 <= i < b ==> (#[trigger] r[i]).timestamp <= m,
        forall|i: int| b <= i < r.len() ==> (#[trigger] r[i]).timestamp > m,
    ensures
        merged(l, r) == merged(l.take(a), r.take(b)) + merged(l.skip(a), r.skip(b)),
    decreases l.len() + r.len(),
{
    let l1 = l.take(a);
    let r1 = r.take(b);
    let low = merged(l1, r1);
    let high = merged(l.skip(a), r.skip(b));
    if a == 0 && b == 0 {
        assert(l.skip(0) =~= l);
        assert(r.skip(0) =~= r);
        assert(low =~= Seq::empty());
        assert(low + high =~= high);
    } else {
        let take_left = b == 0 || (a > 0 && l[0].timestamp <= r[0].timestamp);
        let take_right = a == 0 || (b > 0 && r[0].timestamp <= l[0].timestamp);
        let l2 = if take_left {
            l.skip(1)
        } else {
            l
        };
        let r2 = if take_right {
            r.skip(1)
        } else {
            r
        };
        let a2 = if take_left {
            a - 1
        } else {
            a
        };
        let b2 = if take_right {
            b - 1
        } else {
            b
        };
        let first = if take_left {
            l[0].timestamp
        } else {
            r[0].timestamp
        };
        lemma_merged_split(l2, r2, a2, b2, m);
        assert(l2.skip(a2) =~= l.skip(a));
        assert(r2.skip(b2) =~= r.skip(b));
        assert(take_left ==> l2.take(a2) =~= l1.skip(1));
        assert(!take_left ==> l2.take(a2) =~= l1);
        assert(take_right ==> r2.take(b2) =~= r1.skip(1));
        assert(!take_right ==> r2.take(b2) =~= r1);
        assert(low =~= seq![first] + merged(l2.take(a2), r2.take(b2)));
        assert(merged(l, r) =~= seq![first] + merged(l2, r2));
        assert(low + high =~= merged(l, r));
    }
}

/// Answers at times none of which has to wait come one after the other.
proof fn lemma_answers_append<Y: RobustnessSemantics>(
    pairing: Pairing<Y>,
    a: Seq<Time>,
    b: Seq<Time>,
)
    requires
        forall|i: int|
            0 <= i < a.len() ==> reached(pairing.horizon(), #[trigger] a[i]) && !(pairing.answer(
                a[i],
            ) is Stop),
    ensures
        pairing.answers(a + b) == pairing.answers(a) + pairing.answers(b),
    decreases a.len(),
{
    if a.len() == 0 {
        assert(a + b =~= b);
        assert(pairing.answers(a) + pairing.answers(b) =~= pairing.answers(b));
    } else {
        let tail = a.skip(1);
        assert((a + b).skip(1) =~= tail + b);
        assert forall|i: int| 0 <= i < tail.len() implies reached(
            pairing.horizon(),
            #[trigger] tail[i],
        ) && !(pairing.answer(tail[i]) is Stop) by {
            assert(tail[i] == a[i + 1]);
        }
        lemma_answers_append(pairing, tail, b);
        assert((a + b)[0] == a[0]);
        assert(pairing.answers(a + b) =~= pairing.answers(a) + pairing.answers(b));
    }
}

/// Two pairings that agree at `times` answer them alike.
proof fn lemma_answers_agree<Y: RobustnessSemantics>(
    p: Pairing<Y>,
    q: Pairing<Y>,
    times: Seq<Time>,
)
    requires
        forall|i: int|
            0 <= i < times.len() ==> p.answer(#[trigger] times[i]) == q.answer(times[i]) && reached(
                p.horizon(),
                times[i],
            ) == reached(q.horizon(), times[i]),
    ensures
        p.answers(times) == q.answers(times),
    decreases times.len(),
{
    if times.len() > 0 {
        let tail = times.skip(1);
        assert forall|i: int| 0 <= i < tail.len() implies p.answer(#[trigger] tail[i]) == q.answer(
            tail[i],
        ) && reached(p.horizon(), tail[i]) == reached(q.horizon(), tail[i]) by {
            assert(tail[i] == times[i + 1]);
        }
        lemma_answers_agree(p, q, tail);
        assert(times[0] == times[0]);
    }
}

/// Times that are passed over have no answers.
proof fn lemma_answers_skip<Y: RobustnessSemantics>(pairing: Pairing<Y>, times: Seq<Time>)
    requires
        forall|i: int| 0 <= i < times.len() ==> pairing.answer(#[trigger] times[i]) is Skip,
    ensures
        pairing.answers(times) == Seq::<Step<Y>>::empty(),
    decreases times.len(),
{
    if times.len() > 0 {
        let tail = times.skip(1);
        assert forall|i: int| 0 <= i < tail.len() implies pairing.answer(
            #[trigger] tail[i],
        ) is Skip by {
            assert(tail[i] == times[i + 1]);
        }
        lemma_answers_skip(pairing, tail);
        assert(pairing.answer(times[0]) is Skip);
    }
}

/// Verdicts that come in order after those cached are appended.
pub proof fn lemma_absorbed_appends<Y>(
    cache: Seq<Step<Y>>,
    updates: Seq<Step<Y>>,
    rosi: bool,
    mark: Option<Time>,
)
    requires
        in_order(cache + updates),
        forall|i: int| 0 <= i < updates.len() ==> !reached(mark, (#[trigger] updates[i]).timestamp),
    ensures
        absorbed(cache, updates, rosi, mark) == cache + updates,
    decreases updates.len(),
{
    if updates.len() == 0 {
        assert(cache + updates =~= cache);
    } else {
        let p = updates.drop_last();
        let last = updates.last();
        assert(cache + p =~= (cache + updates).drop_last());
        assert forall|i: int| 0 <= i < p.len() implies !reached(
            mark,
            (#[trigger] p[i]).timestamp,
        ) by {
            assert(p[i] == updates[i]);
        }
        lemma_absorbed_appends(cache, p, rosi, mark);
        assert(!reached(mark, updates[updates.len() - 1].timestamp));
        let head = cache + p;
        assert(in_order(head)) by {
            assert forall|i: int, j: int| 0 <= i < j < head.len() implies head[i].timestamp
                < head[j].timestamp by {
                assert(head[i] == (cache + updates)[i]);
                assert(head[j] == (cache + updates)[j]);
            }
        }
        assert forall|i: int| 0 <= i < head.len() implies (#[trigger] head[i]).timestamp
            < last.timestamp by {
            assert(head[i] == (cache + updates)[i]);
            assert(last == (cache + updates)[cache.len() + updates.len() - 1]);
        }
        lemma_count_upto_unique(head, last.timestamp, head.len());
        assert(put(head, last) =~= cache + updates);
    }
}

/// Appending later entries changes nothing before them.
pub proof fn lemma_append_in_force<Y>(cache: Seq<Step<Y>>, updates: Seq<Step<Y>>, t: Time)
    requires
        in_order(cache + updates),
        updates.len() > 0 ==> t < updates[0].timestamp,
    ensures
        count_upto(cache + updates, t) == count_upto(cache, t),
        in_force(cache + updates, t) == in_force(cache, t),
{
    let all = cache + updates;
    assert(in_order(cache)) by {
        assert forall|i: int, j: int| 0 <= i < j < cache.len() implies cache[i].timestamp
            < cache[j].timestamp by {
            assert(cache[i] == all[i]);
            assert(cache[j] == all[j]);
        }
    }
    lemma_count_upto(cache, t);
    let n = count_upto(cache, t);
    assert(n > 0 ==> all[n - 1] == cache[n - 1]);
    assert(n < all.len() ==> all[n as int].timestamp > t) by {
        if n < cache.len() {
            assert(all[n as int] == cache[n as int]);
        } else if n < all.len() {
            assert(all[n as int] == updates[0]);
        }
    }
    lemma_count_upto_unique(all, t, n);
}

/// What a sample leaves of a steady stream in the caches and frontiers.
pub proof fn lemma_taken_in<T, Y: RobustnessSemantics>(state: BinaryState<T, Y>, step: Step<T>)
    requires
        state.wf(),
        !state.eager,
        !state.rosi,
        held_on(state.left_cache),
        held_on(state.right_cache),
        state.left_frontier == newest(state.left_cache),
        state.right_frontier == newest(state.right_cache),
        state.mark matches Some(m) ==> reached(state.joint(), m),
        is_steady(state, step),
    ensures
        ({
            let taken = state.taken_in(step);
            let left = state.operands.left_emits(Event::Sample(step));
            let right = state.operands.right_emits(Event::Sample(step));
            &&& taken.left_cache == state.left_cache + left
            &&& taken.right_cache == state.right_cache + right
            &&& taken.left_frontier == newest(taken.left_cache)
            &&& taken.right_frontier == newest(taken.right_cache)
            &&& taken.wf()
            &&& held_on(taken.left_cache)
            &&& held_on(taken.right_cache)
            &&& forall|t: Time| reached(state.joint(), t) ==> #[trigger] reached(taken.joint(), t)
            &&& left.len() > 0 ==> !reached(state.joint(), left[0].timestamp)
            &&& right.len() > 0 ==> !reached(state.joint(), right[0].timestamp)
        }),
{
    let left = state.operands.left_emits(Event::Sample(step));
    let right = state.operands.right_emits(Event::Sample(step));
    let l = state.left_cache + left;
    let r = state.right_cache + right;
    assert forall|i: int| 0 <= i < left.len() implies !reached(
        state.joint(),
        (#[trigger] left[i]).timestamp,
    ) by {
        if state.left_cache.len() > 0 {
            assert(l[state.left_cache.len() - 1].timestamp < l[state.left_cache.len()
                + i].timestamp);
        }
    }
    assert forall|i: int| 0 <= i < right.len() implies !reached(
        state.joint(),
        (#[trigger] right[i]).timestamp,
    ) by {
        if state.right_cache.len() > 0 {
            assert(r[state.right_cache.len() - 1].timestamp < r[state.right_cache.len()
                + i].timestamp);
        }
    }
    lemma_absorbed_appends(state.left_cache, left, false, state.mark);
    lemma_absorbed_appends(state.right_cache, right, false, state.mark);
    if left.len() > 0 {
        assert(l.last() == left.last());
        if state.left_cache.len() > 0 {
            assert(l[state.left_cache.len() - 1].timestamp < l[l.len() - 1].timestamp);
        }
    } else {
        assert(l =~= state.left_cache);
    }
    if right.len() > 0 {
        assert(r.last() == right.last());
        if state.right_cache.len() > 0 {
            assert(r[state.right_cache.len() - 1].timestamp < r[r.len() - 1].timestamp);
        }
    } else {
        assert(r =~= state.right_cache);
    }
    assert(all_upto(l, MAX_TIME)) by {
        assert forall|i: int| 0 <= i < l.len() implies (#[trigger] l[i]).timestamp <= MAX_TIME by {
            if i < state.left_cache.len() {
                assert(l[i] == state.left_cache[i]);
            } else {
                assert(l[i] == left[i - state.left_cache.len()]);
            }
        }
    }
    assert(all_upto(r, MAX_TIME)) by {
        assert forall|i: int| 0 <= i < r.len() implies (#[trigger] r[i]).timestamp <= MAX_TIME by {
            if i < state.right_cache.len() {
                assert(r[i] == state.right_cache[i]);
            } else {
                assert(r[i] == right[i - state.right_cache.len()]);
            }
        }
    }
}

/// A sample adds to the complete answer just what is emitted on it.
proof fn lemma_complete_grows<T, Y: RobustnessSemantics>(state: BinaryState<T, Y>, step: Step<T>)
    requires
        is_complete(state),
        is_steady(state, step),
    ensures
        complete(kept(state, step)) == complete(state) + state.taken_in(step).available(),
        is_complete(kept(state, step)),
{
    let taken = state.taken_in(step);
    let after = kept(state, step);
    let p = state.pairing();
    let q = taken.pairing();
    let l = state.left_cache;
    let r = state.right_cache;
    let out = taken.available();
    let old_out = complete(state);
    merged_lists_every_timestamp(l, r);
    answers_are_sound_and_complete(p, p.breakpoints(None));
    assert(state.mark matches Some(m) ==> reached(state.joint(), m)) by {
        if old_out.len() > 0 {
            assert(old_out.last() == old_out[old_out.len() - 1]);
        }
    }
    lemma_taken_in(state, step);
    let left = state.operands.left_emits(Event::Sample(step));
    let right = state.operands.right_emits(Event::Sample(step));
    let l2 = taken.left_cache;
    let r2 = taken.right_cache;
    merged_lists_every_timestamp(l2, r2);
    answers_are_sound_and_complete(q, q.breakpoints(None));
    assert(after.pairing() == q);
    assert(complete(after) == q.answers(merged(l2, r2)));
    match state.mark {
        None => {
            assert(old_out =~= Seq::empty());
            assert(old_out + out =~= out);
            assert(out == complete(after));
        },
        Some(m) => {
            let a = count_upto(l, m);
            let b = count_upto(r, m);
            lemma_count_upto(l, m);
            lemma_count_upto(r, m);
            lemma_count_upto(l2, m);
            lemma_count_upto(r2, m);
            lemma_append_in_force(l, left, m);
            lemma_append_in_force(r, right, m);
            lemma_merged_split(l, r, a as int, b as int, m);
            lemma_merged_split(l2, r2, a as int, b as int, m);
            assert(l2.take(a as int) =~= l.take(a as int));
            assert(r2.take(b as int) =~= r.take(b as int));
            let low = merged(l.take(a as int), r.take(b as int));
            let high = merged(l.skip(a as int), r.skip(b as int));
            let high2 = merged(l2.skip(a as int), r2.skip(b as int));
            // Up to the mark nothing has changed.
            assert forall|i: int| 0 <= i < low.len() implies (#[trigger] low[i]) <= m && q.answer(
                low[i],
            ) == p.answer(low[i]) && reached(p.horizon(), low[i]) && reached(q.horizon(), low[i])
                && !(p.answer(low[i]) is Stop) by {
                lemma_low(l, r, a as int, b as int, m, low[i]);
                lemma_append_in_force(l, left, low[i]);
                lemma_append_in_force(r, right, low[i]);
            }
            lemma_answers_agree(p, q, low);
            lemma_answers_append(p, low, high);
            lemma_answers_append(q, low, high2);
            // Nothing past the mark was answered before.
            assert(p.answers(high).len() == 0) by {
                if p.answers(high).len() > 0 {
                    assert(in_order(l.skip(a as int)));
                    assert(in_order(r.skip(b as int)));
                    merged_lists_every_timestamp(l.skip(a as int), r.skip(b as int));
                    answers_are_sound_and_complete(p, high);
                    let k = p.answers(high).len() - 1;
                    let ts = p.answers(high)[k].timestamp;
                    assert(high.contains(ts));
                    lemma_high(l, r, a as int, b as int, m, ts);
                    assert(old_out.last() == p.answers(high)[k]);
                }
            }
            assert(old_out =~= p.answers(low));
            assert(out == q.answers(high2));
            assert(complete(after) =~= old_out + out);
        },
    }
    if out.len() > 0 {
        assert(complete(after).last() == out.last());
    } else {
        assert(complete(after) =~= old_out);
    }
}

proof fn lemma_low<Y>(l: Seq<Step<Y>>, r: Seq<Step<Y>>, a: int, b: int, m: Time, t: Time)
    requires
        in_order(l),
        in_order(r),
        0 <= a <= l.len(),
        0 <= b <= r.len(),
        forall|i: int| 0 <= i < a ==> (#[trigger] l[i]).timestamp <= m,
        forall|i: int| 0 <= i < b ==> (#[trigger] r[i]).timestamp <= m,
        merged(l.take(a), r.take(b)).contains(t),
    ensures
        t <= m,
{
    let x = l.take(a);
    let y = r.take(b);
    assert(in_order(x));
    assert(in_order(y));
    merged_lists_every_timestamp(x, y);
    if has_entry_at(x, t) {
        let i = choose|i: int| 0 <= i < x.len() && (#[trigger] x[i]).timestamp == t;
        assert(l[i].timestamp == t);
    } else {
        let i = choose|i: int| 0 <= i < y.len() && (#[trigger] y[i]).timestamp == t;
        assert(r[i].timestamp == t);
    }
}

proof fn lemma_high<Y>(l: Seq<Step<Y>>, r: Seq<Step<Y>>, a: int, b: int, m: Time, t: Time)
    requires
        in_order(l),
        in_order(r),
        0 <= a <= l.len(),
        0 <= b <= r.len(),
        forall|i: int| a <= i < l.len() ==> (#[trigger] l[i]).timestamp > m,
        forall|i: int| b <= i < r.len() ==> (#[trigger] r[i]).timestamp > m,
        merged(l.skip(a), r.skip(b)).contains(t),
    ensures
        t > m,
        has_entry_at(l, t) || has_entry_at(r, t),
{
    let x = l.skip(a);
    let y = r.skip(b);
    assert(in_order(x));
    assert(in_order(y));
    merged_lists_every_timestamp(x, y);
    if has_entry_at(x, t) {
        let i = choose|i: int| 0 <= i < x.len() && (#[trigger] x[i]).timestamp == t;
        assert(l[a + i].timestamp == t);
    } else {
        let i = choose|i: int| 0 <= i < y.len() && (#[trigger] y[i]).timestamp == t;
        assert(r[b + i].timestamp == t);
    }
}

/// `s` is `u` without the first `i` and `j` entries of its caches. What is missing was
/// superseded by `p`, and no breakpoint up to there is of any more use: it was answered, or one
/// operand had not begun by then.
pub open spec fn forgets<T, Y: RobustnessSemantics>(
    s: BinaryState<T, Y>,
    u: BinaryState<T, Y>,
    i: int,
    j: int,
    p: Time,
) -> bool {
    &&& s == (BinaryState { left_cache: s.left_cache, right_cache: s.right_cache, ..u })
    &&& 0 <= i <= u.left_cache.len()
    &&& 0 <= j <= u.right_cache.len()
    &&& i > 0 ==> i < u.left_cache.len() && u.left_cache[i].timestamp <= p
    &&& j > 0 ==> j < u.right_cache.len() && u.right_cache[j].timestamp <= p
    &&& s.left_cache == u.left_cache.skip(i)
    &&& s.right_cache == u.right_cache.skip(j)
    &&& i > 0 || j > 0 ==> reached(u.joint(), p) && forall|t: Time|
        t <= p && (has_entry_at(u.left_cache, t) || has_entry_at(u.right_cache, t)) ==> reached(
            u.mark,
            t,
        ) || #[trigger] count_upto(u.left_cache, t) == 0 || count_upto(u.right_cache, t) == 0
}

/// Skipping entries superseded by `p` changes no count from `p` on, and keeps what begins late
/// beginning late.
pub proof fn lemma_skip<Y>(s: Seq<Step<Y>>, i: int, p: Time, t: Time)
    requires
        in_order(s),
        0 <= i <= s.len(),
        i > 0 ==> i < s.len() && s[i].timestamp <= p,
    ensures
        in_order(s.skip(i)),
        p <= t ==> count_upto(s.skip(i), t) == count_upto(s, t) - i && in_force(s.skip(i), t)
            == in_force(s, t),
        count_upto(s, t) == 0 ==> count_upto(s.skip(i), t) == 0,
        has_entry_at(s.skip(i), t) ==> has_entry_at(s, t),
{
    let d = s.skip(i);
    assert(in_order(d));
    lemma_count_upto(s, t);
    lemma_count_upto(d, t);
    let n = count_upto(s, t);
    if p <= t {
        if i > 0 {
            assert(n > i) by {
                if n <= i {
                    assert(s[i].timestamp > t);
                }
            }
            assert(d[n - i - 1] == s[n - 1]);
            assert(n < s.len() ==> d[n - i] == s[n as int]);
            lemma_count_upto_unique(d, t, (n - i) as nat);
        } else {
            assert(d =~= s);
        }
    }
    if n == 0 && count_upto(d, t) > 0 {
        assert(d[0] == s[i]);
        assert(s[i].timestamp > t);
    }
    if has_entry_at(d, t) {
        let k = choose|k: int| 0 <= k < d.len() && (#[trigger] d[k]).timestamp == t;
        assert(s[i + k].timestamp == t);
    }
}

/// What lies after both the mark and `p` is the same with and without what was superseded.
proof fn lemma_tail<Y>(s: Seq<Step<Y>>, i: int, p: Time, mark: Option<Time>)
    requires
        in_order(s),
        0 <= i <= s.len(),
        i > 0 ==> i < s.len() && s[i].timestamp <= p,
    ensures
        ({
            let a = after_mark(s, mark);
            let b = after_mark(s.skip(i), mark);
            a.skip(count_upto(a, p) as int) == b.skip(count_upto(b, p) as int)
        }),
{
    let d = s.skip(i);
    let a = after_mark(s, mark);
    let b = after_mark(d, mark);
    lemma_skip(s, i, p, p);
    lemma_after_mark(s, mark);
    lemma_after_mark(d, mark);
    lemma_count_upto(a, p);
    lemma_count_upto(b, p);
    let x = a.skip(count_upto(a, p) as int);
    let y = b.skip(count_upto(b, p) as int);
    // Both are the entries of `s` from the same index on.
    let m = match mark {
        Some(ts) => count_upto(s, ts) as int,
        None => 0,
    };
    let k = match mark {
        Some(ts) => count_upto(d, ts) as int,
        None => 0,
    };
    if let Some(ts) = mark {
        lemma_count_upto(s, ts);
        lemma_count_upto(d, ts);
    }
    let from_a = m + count_upto(a, p);
    let from_b = i + k + count_upto(b, p);
    assert(x =~= s.skip(from_a));
    assert(y =~= s.skip(from_b));
    // Both indices split `s` at the later of the mark and `p`.
    if from_a < from_b {
        let e = s[from_a];
        assert(a[count_upto(a, p) as int] == e);
        assert(e.timestamp > p);
        assert(from_a >= i) by {
            if from_a < i {
                assert(s[from_a].timestamp < s[i].timestamp);
            }
        }
        if from_a < i + k {
            assert(d[from_a - i] == e);
        } else {
            assert(b[from_a - i - k] == e);
        }
    } else if from_b < from_a {
        let e = s[from_b];
        assert(b[count_upto(b, p) as int] == e);
        assert(e.timestamp > p);
        if from_b < m {
            assert(reached(mark, e.timestamp));
            assert(has_entry_at(b, e.timestamp));
        } else {
            assert(a[from_b - m] == e);
        }
    }
}

/// A breakpoint that only one operand has begun by is passed over.
proof fn lemma_one_sided<Y: RobustnessSemantics>(pairing: Pairing<Y>, t: Time)
    requires
        !pairing.rosi,
        reached(pairing.joint(), t),
        count_upto(pairing.left.cache, t) == 0 || count_upto(pairing.right.cache, t) == 0,
    ensures
        pairing.answer(t) is Skip,
{
}

/// A breakpoint up to the joint frontier that both operands have begun by is answered.
proof fn lemma_answered_by<Y: RobustnessSemantics>(
    pairing: Pairing<Y>,
    mark: Option<Time>,
    t: Time,
)
    requires
        pairing.left.wf(),
        pairing.right.wf(),
        !pairing.rosi,
        held_on(pairing.left.cache),
        held_on(pairing.right.cache),
        reached(pairing.joint(), t),
        !reached(mark, t),
        has_entry_at(pairing.left.cache, t) || has_entry_at(pairing.right.cache, t),
        count_upto(pairing.left.cache, t) > 0,
        count_upto(pairing.right.cache, t) > 0,
    ensures
        reached(newest(pairing.answers(pairing.breakpoints(mark))), t),
{
    let l = pairing.left.cache;
    let r = pairing.right.cache;
    lemma_after_mark(l, mark);
    lemma_after_mark(r, mark);
    lemma_count_upto(l, t);
    lemma_count_upto(r, t);
    let times = pairing.breakpoints(mark);
    merged_lists_every_timestamp(after_mark(l, mark), after_mark(r, mark));
    answers_are_sound_and_complete(pairing, times);
    let out = pairing.answers(times);
    assert(times.contains(t));
    let k = choose|k: int| 0 <= k < times.len() && times[k] == t;
    assert(t <= MAX_TIME) by {
        if has_entry_at(l, t) {
            let n = choose|n: int| 0 <= n < l.len() && (#[trigger] l[n]).timestamp == t;
            assert(l[n].timestamp <= MAX_TIME);
        } else {
            let n = choose|n: int| 0 <= n < r.len() && (#[trigger] r[n]).timestamp == t;
            assert(r[n].timestamp <= MAX_TIME);
        }
    }
    assert(l[count_upto(l, t) - 1].held_until == FOREVER);
    assert(r[count_upto(r, t) - 1].held_until == FOREVER);
    assert(pairing.answer(t) is Emit);
    let wanted = Step::spec_new("output", pairing.answer(times[k])->Emit_0, times[k]);
    assert(out.contains(wanted));
    let n = choose|n: int| 0 <= n < out.len() && out[n] == wanted;
    assert(out[n].timestamp <= out[out.len() - 1].timestamp);
}

/// The pairing without the first `i` and `j` entries of its operands.
spec fn without<Y>(pairing: Pairing<Y>, i: int, j: int) -> Pairing<Y> {
    Pairing {
        left: OperandView { cache: pairing.left.cache.skip(i), ..pairing.left },
        right: OperandView { cache: pairing.right.cache.skip(j), ..pairing.right },
        ..pairing
    }
}

/// No breakpoint up to `p` and after the mark has been begun by both operands.
spec fn is_one_sided_upto<Y>(pairing: Pairing<Y>, mark: Option<Time>, p: Time) -> bool {
    forall|t: Time|
        t <= p && !reached(mark, t) && (has_entry_at(pairing.left.cache, t) || has_entry_at(
            pairing.right.cache,
            t,
        )) ==> #[trigger] count_upto(pairing.left.cache, t) == 0 || count_upto(
            pairing.right.cache,
            t,
        ) == 0
}

/// Forgetting what is of no more use changes no answer.
proof fn lemma_same_answers<Y: RobustnessSemantics>(
    u: Pairing<Y>,
    i: int,
    j: int,
    p: Time,
    mark: Option<Time>,
)
    requires
        u.left.wf(),
        u.right.wf(),
        !u.rosi,
        !u.eager,
        0 <= i <= u.left.cache.len(),
        0 <= j <= u.right.cache.len(),
        i > 0 ==> i < u.left.cache.len() && u.left.cache[i].timestamp <= p,
        j > 0 ==> j < u.right.cache.len() && u.right.cache[j].timestamp <= p,
        reached(u.joint(), p),
        is_one_sided_upto(u, mark, p),
    ensures
        without(u, i, j).answers(without(u, i, j).breakpoints(mark)) == u.answers(
            u.breakpoints(mark),
        ),
{
    let s = without(u, i, j);
    let lu = after_mark(u.left.cache, mark);
    let ru = after_mark(u.right.cache, mark);
    let ls = after_mark(s.left.cache, mark);
    let rs = after_mark(s.right.cache, mark);
    lemma_skip(u.left.cache, i, p, p);
    lemma_skip(u.right.cache, j, p, p);
    lemma_after_mark(u.left.cache, mark);
    lemma_after_mark(u.right.cache, mark);
    lemma_after_mark(s.left.cache, mark);
    lemma_after_mark(s.right.cache, mark);
    lemma_tail(u.left.cache, i, p, mark);
    lemma_tail(u.right.cache, j, p, mark);
    let a = count_upto(lu, p) as int;
    let b = count_upto(ru, p) as int;
    let c = count_upto(ls, p) as int;
    let d = count_upto(rs, p) as int;
    lemma_count_upto(lu, p);
    lemma_count_upto(ru, p);
    lemma_count_upto(ls, p);
    lemma_count_upto(rs, p);
    lemma_merged_split(lu, ru, a, b, p);
    lemma_merged_split(ls, rs, c, d, p);
    let low_u = merged(lu.take(a), ru.take(b));
    let low_s = merged(ls.take(c), rs.take(d));
    let high = merged(lu.skip(a), ru.skip(b));
    merged_lists_every_timestamp(lu, ru);
    merged_lists_every_timestamp(ls, rs);
    // Up to `p` everything is passed over.
    assert forall|k: int| 0 <= k < low_u.len() implies reached(u.horizon(), #[trigger] low_u[k])
        && u.answer(low_u[k]) is Skip by {
        let t = low_u[k];
        lemma_low(lu, ru, a, b, p, t);
        assert(merged(lu, ru)[k] == t);
        assert(merged(lu, ru).contains(t));
        assert(count_upto(u.left.cache, t) == 0 || count_upto(u.right.cache, t) == 0);
        lemma_one_sided(u, t);
    }
    assert forall|k: int| 0 <= k < low_s.len() implies reached(s.horizon(), #[trigger] low_s[k])
        && s.answer(low_s[k]) is Skip by {
        let t = low_s[k];
        lemma_low(ls, rs, c, d, p, t);
        assert(merged(ls, rs)[k] == t);
        assert(merged(ls, rs).contains(t));
        lemma_skip(u.left.cache, i, p, t);
        lemma_skip(u.right.cache, j, p, t);
        assert(count_upto(u.left.cache, t) == 0 || count_upto(u.right.cache, t) == 0);
        lemma_one_sided(s, t);
    }
    lemma_answers_skip(u, low_u);
    lemma_answers_skip(s, low_s);
    lemma_answers_append(u, low_u, high);
    lemma_answers_append(s, low_s, high);
    // After `p` both read the same.
    assert forall|k: int| 0 <= k < high.len() implies s.answer(#[trigger] high[k]) == u.answer(
        high[k],
    ) && reached(s.horizon(), high[k]) == reached(u.horizon(), high[k]) by {
        let t = high[k];
        assert(high.contains(t));
        lemma_high(lu, ru, a, b, p, t);
        lemma_skip(u.left.cache, i, p, t);
        lemma_skip(u.right.cache, j, p, t);
    }
    lemma_answers_agree(s, u, high);
    assert(u.answers(low_u) + u.answers(high) =~= u.answers(high));
    assert(s.answers(low_s) + s.answers(high) =~= s.answers(high));
}

/// What a sample leaves in the caches of an operator that forgets.
proof fn lemma_forgetful_taken<T, Y: RobustnessSemantics>(
    s: BinaryState<T, Y>,
    u: BinaryState<T, Y>,
    i: int,
    j: int,
    p: Time,
    step: Step<T>,
)
    requires
        is_complete(u),
        is_steady(u, step),
        forgets(s, u, i, j, p),
        u.mark matches Some(m) ==> reached(u.joint(), m),
    ensures
        s.taken_in(step) == (BinaryState {
            left_cache: u.taken_in(step).left_cache.skip(i),
            right_cache: u.taken_in(step).right_cache.skip(j),
            ..u.taken_in(step)
        }),
{
    let event = Event::Sample(step);
    let left = u.operands.left_emits(event);
    let right = u.operands.right_emits(event);
    lemma_taken_in(u, step);
    lemma_skip(u.left_cache, i, p, p);
    lemma_skip(u.right_cache, j, p, p);
    assert(s.left_cache + left =~= (u.left_cache + left).skip(i));
    assert(s.right_cache + right =~= (u.right_cache + right).skip(j));
    let l = u.left_cache + left;
    let r = u.right_cache + right;
    assert(in_order(l.skip(i)));
    assert(in_order(r.skip(j)));
    assert(newest(s.left_cache) == newest(u.left_cache));
    assert(newest(s.right_cache) == newest(u.right_cache));
    assert(held_on(s.left_cache));
    assert(held_on(s.right_cache));
    assert(s.wf());
    lemma_taken_in(s, step);
    assert(s.taken_in(step) =~= BinaryState {
        left_cache: u.taken_in(step).left_cache.skip(i),
        right_cache: u.taken_in(step).right_cache.skip(j),
        ..u.taken_in(step)
    });
}

/// What is one-sided up to a time both operands have reported to stays so.
proof fn lemma_stays_one_sided<T, Y: RobustnessSemantics>(
    u: BinaryState<T, Y>,
    p: Time,
    step: Step<T>,
)
    requires
        is_complete(u),
        is_steady(u, step),
        u.mark matches Some(m) ==> reached(u.joint(), m),
        reached(u.joint(), p),
        is_one_sided_upto(u.pairing(), u.mark, p),
    ensures
        is_one_sided_upto(u.taken_in(step).pairing(), u.mark, p),
{
    lemma_taken_in(u, step);
    let tu = u.taken_in(step);
    let event = Event::Sample(step);
    let left = u.operands.left_emits(event);
    let right = u.operands.right_emits(event);
    assert forall|t: Time|
        t <= p && !reached(u.mark, t) && (has_entry_at(tu.left_cache, t) || has_entry_at(
            tu.right_cache,
            t,
        )) implies #[trigger] count_upto(tu.left_cache, t) == 0 || count_upto(tu.right_cache, t)
        == 0 by {
        assert(reached(u.joint(), t));
        assert(left.len() > 0 ==> t < left[0].timestamp);
        assert(right.len() > 0 ==> t < right[0].timestamp);
        lemma_append_in_force(u.left_cache, left, t);
        lemma_append_in_force(u.right_cache, right, t);
        lemma_no_new_entry(u.left_cache, left, t);
        lemma_no_new_entry(u.right_cache, right, t);
        assert(count_upto(u.left_cache, t) == 0 || count_upto(u.right_cache, t) == 0);
    }
}

/// Later entries are not at `t`.
proof fn lemma_no_new_entry<Y>(cache: Seq<Step<Y>>, updates: Seq<Step<Y>>, t: Time)
    requires
        in_order(cache + updates),
        updates.len() > 0 ==> t < updates[0].timestamp,
    ensures
        has_entry_at(cache + updates, t) ==> has_entry_at(cache, t),
{
    let all = cache + updates;
    if has_entry_at(all, t) {
        let k = choose|k: int| 0 <= k < all.len() && (#[trigger] all[k]).timestamp == t;
        if k >= cache.len() {
            assert(all[cache.len() as int] == updates[0]);
            assert(all[cache.len() as int].timestamp <= all[k].timestamp);
        }
        assert(cache[k].timestamp == t);
    }
}

/// Forgetting what is of no more use changes nothing that is emitted.
proof fn lemma_forgetful_emission<T, Y: RobustnessSemantics>(
    s: BinaryState<T, Y>,
    u: BinaryState<T, Y>,
    i: int,
    j: int,
    p: Time,
    step: Step<T>,
)
    requires
        is_complete(u),
        is_steady(u, step),
        forgets(s, u, i, j, p),
        u.mark matches Some(m) ==> reached(u.joint(), m),
    ensures
        s.taken_in(step).available() == u.taken_in(step).available(),
{
    lemma_forgetful_taken(s, u, i, j, p, step);
    lemma_taken_in(u, step);
    let tu = u.taken_in(step);
    let ts = s.taken_in(step);
    if i == 0 && j == 0 {
        assert(ts.left_cache =~= tu.left_cache);
        assert(ts.right_cache =~= tu.right_cache);
        assert(ts == tu);
    } else {
        lemma_stays_one_sided(u, p, step);
        assert(i > 0 ==> tu.left_cache[i] == u.left_cache[i]);
        assert(j > 0 ==> tu.right_cache[j] == u.right_cache[j]);
        lemma_same_answers(tu.pairing(), i, j, p, u.mark);
        assert(ts.pairing() == without(tu.pairing(), i, j));
    }
}

/// What is forgotten after a sample is again of no more use.
proof fn lemma_forgetful_step<T, Y: RobustnessSemantics>(
    s: BinaryState<T, Y>,
    u: BinaryState<T, Y>,
    i: int,
    j: int,
    p: Time,
    step: Step<T>,
) -> (res: (int, int, Time))
    requires
        is_complete(u),
        is_steady(u, step),
        forgets(s, u, i, j, p),
        u.mark matches Some(m) ==> reached(u.joint(), m),
    ensures
        s.taken_in(step).available() == u.taken_in(step).available(),
        forgets(
            Machine::<T, Y>::next(s, Event::Sample(step)),
            kept(u, step),
            res.0,
            res.1,
            res.2,
        ),
{
    lemma_forgetful_emission(s, u, i, j, p, step);
    lemma_forgetful_taken(s, u, i, j, p, step);
    lemma_taken_in(u, step);
    let tu = u.taken_in(step);
    let ts = s.taken_in(step);
    let out = tu.available();
    let u2 = kept(u, step);
    let protected_ts = minus(
        match tu.joint() {
            Some(t) => t,
            None => 0,
        },
        tu.lookahead(),
    );
    let p2 = if i > 0 || j > 0 {
        max_time(p, protected_ts)
    } else {
        protected_ts
    };
    let i2 = lemma_pruned_index(tu.left_cache, i, tu.lookahead(), protected_ts);
    let j2 = lemma_pruned_index(tu.right_cache, j, tu.lookahead(), protected_ts);
    assert(i > 0 ==> tu.left_cache[i] == u.left_cache[i]);
    assert(j > 0 ==> tu.right_cache[j] == u.right_cache[j]);
    assert(reached(u.joint(), p) ==> reached(tu.joint(), p));
    let s2 = Machine::<T, Y>::next(s, Event::Sample(step));
    assert(s2 == ts.answered(out));
    assert(s2 =~= BinaryState {
        left_cache: tu.left_cache.skip(i2),
        right_cache: tu.right_cache.skip(j2),
        ..u2
    });
    if i2 > 0 || j2 > 0 {
        assert(reached(tu.joint(), p2));
        assert forall|t: Time|
            t <= p2 && (has_entry_at(tu.left_cache, t) || has_entry_at(
                tu.right_cache,
                t,
            )) implies reached(u2.mark, t) || #[trigger] count_upto(tu.left_cache, t) == 0
            || count_upto(tu.right_cache, t) == 0 by {
            if count_upto(tu.left_cache, t) > 0 && count_upto(tu.right_cache, t) > 0 {
                if !reached(u.mark, t) {
                    lemma_answered_by(tu.pairing(), u.mark, t);
                } else {
                    lemma_mark_rises(tu, u.mark);
                }
            }
        }
    }
    (i2, j2, p2)
}

/// What is answered lies after the mark.
proof fn lemma_mark_rises<T, Y: RobustnessSemantics>(taken: BinaryState<T, Y>, mark: Option<Time>)
    requires
        taken.wf(),
        !taken.rosi,
        !taken.eager,
        taken.mark == mark,
    ensures
        taken.available().len() > 0 ==> !reached(mark, taken.available().last().timestamp),
{
    let pairing = taken.pairing();
    let l = after_mark(taken.left_cache, mark);
    let r = after_mark(taken.right_cache, mark);
    lemma_after_mark(taken.left_cache, mark);
    lemma_after_mark(taken.right_cache, mark);
    merged_lists_every_timestamp(l, r);
    answers_are_sound_and_complete(pairing, pairing.breakpoints(mark));
    let out = taken.available();
    if out.len() > 0 {
        assert(out.last() == out[out.len() - 1]);
        assert(pairing.breakpoints(mark).contains(out[out.len() - 1].timestamp));
    }
}

/// Pruning a suffix leaves a suffix.
pub proof fn lemma_pruned_index<Y>(s: Seq<Step<Y>>, i: int, lookahead: Time, protected_ts: Time) -> (k:
    int)
    requires
        in_order(s),
        0 <= i <= s.len(),
        i > 0 ==> i < s.len(),
    ensures
        pruned(s.skip(i), lookahead, protected_ts) == s.skip(k),
        i <= k <= s.len(),
        k > i ==> k < s.len() && s[k].timestamp <= protected_ts,
        protected_ts == 0 ==> k == i,
        k > 0 ==> k < s.len(),
{
    let d = s.skip(i);
    assert(in_order(d));
    if d.len() == 0 {
        i
    } else {
        let cutoff = prune_cutoff(d, lookahead, protected_ts);
        let n = count_upto(d, cutoff);
        lemma_count_upto(d, cutoff);
        if n > 0 {
            assert(d.skip(n - 1) =~= s.skip(i + n - 1));
            assert(d[n - 1] == s[i + n - 1]);
            if protected_ts == 0 && n > 1 {
                assert(d[0].timestamp < d[1].timestamp);
            }
            i + n - 1
        } else {
            i
        }
    }
}

/// The state after a whole trace, as it is kept in memory.
pub open spec fn run<T, Y: RobustnessSemantics>(
    state: BinaryState<T, Y>,
    steps: Seq<Step<T>>,
) -> BinaryState<T, Y>
    decreases steps.len(),
{
    if steps.len() == 0 {
        state
    } else {
        Machine::<T, Y>::next(run(state, steps.drop_last()), Event::Sample(steps.last()))
    }
}

/// Everything emitted over a whole trace.
pub open spec fn streamed<T, Y: RobustnessSemantics>(
    state: BinaryState<T, Y>,
    steps: Seq<Step<T>>,
) -> Seq<Step<Y>>
    decreases steps.len(),
{
    if steps.len() == 0 {
        Seq::empty()
    } else {
        streamed(state, steps.drop_last()) + run(state, steps.drop_last()).emit(
            Event::Sample(steps.last()),
        )
    }
}

/// The state after a whole trace, had everything been kept.
pub open spec fn history<T, Y: RobustnessSemantics>(
    state: BinaryState<T, Y>,
    steps: Seq<Step<T>>,
) -> BinaryState<T, Y>
    decreases steps.len(),
{
    if steps.len() == 0 {
        state
    } else {
        kept(history(state, steps.drop_last()), steps.last())
    }
}

/// Both operands report steadily all along a trace.
pub open spec fn is_steady_throughout<T, Y: RobustnessSemantics>(
    state: BinaryState<T, Y>,
    steps: Seq<Step<T>>,
) -> bool {
    forall|k: int|
        0 <= k < steps.len() ==> is_steady(
            history(state, #[trigger] steps.take(k)),
            steps[k],
        )
}

pub proof fn lemma_stream<T, Y: RobustnessSemantics>(state: BinaryState<T, Y>, steps: Seq<Step<T>>) -> (
res: (int, int, Time))
    requires
        state == state.cleared(),
        state.wf(),
        !state.eager,
        !state.rosi,
        is_steady_throughout(state, steps),
    ensures
        is_complete(history(state, steps)),
        streamed(state, steps) == complete(history(state, steps)),
        forgets(run(state, steps), history(state, steps), res.0, res.1, res.2),
    decreases steps.len(),
{
    if steps.len() == 0 {
        let pairing = state.pairing();
        assert(merged(state.left_cache, state.right_cache) =~= Seq::<Time>::empty());
        assert(complete(state) =~= Seq::empty());
        assert(state.left_cache.skip(0) =~= state.left_cache);
        assert(state.right_cache.skip(0) =~= state.right_cache);
        (0, 0, 0)
    } else {
        let before = steps.drop_last();
        let last = steps.last();
        assert(is_steady_throughout(state, before)) by {
            assert forall|k: int| 0 <= k < before.len() implies is_steady(
                history(state, #[trigger] before.take(k)),
                before[k],
            ) by {
                assert(before.take(k) =~= steps.take(k));
            }
        }
        let (i, j, p) = lemma_stream(state, before);
        assert(steps.take(steps.len() - 1) =~= before);
        let u = history(state, before);
        let s = run(state, before);
        assert(is_steady(u, last));
        lemma_complete_grows(u, last);
        assert(u.mark matches Some(m) ==> reached(u.joint(), m)) by {
            merged_lists_every_timestamp(u.left_cache, u.right_cache);
            answers_are_sound_and_complete(u.pairing(), u.pairing().breakpoints(None));
            if complete(u).len() > 0 {
                assert(complete(u).last() == complete(u)[complete(u).len() - 1]);
            }
        }
        lemma_forgetful_step(s, u, i, j, p, last)
    }
}

/// Streaming equals batch: what a conjunction or disjunction emits over a whole trace, one
/// sample at a time and forgetting verdicts on the way, is exactly what the complete history of
/// its operands gives at once. It is as steady as what the operands report.
pub proof fn streaming_equals_batch<T, Y: RobustnessSemantics>(
    state: BinaryState<T, Y>,
    steps: Seq<Step<T>>,
)
    requires
        state == state.cleared(),
        state.wf(),
        !state.eager,
        !state.rosi,
        is_steady_throughout(state, steps),
    ensures
        streamed(state, steps) == complete(history(state, steps)),
        in_order(streamed(state, steps)),
        held_on(streamed(state, steps)),
{
    lemma_stream(state, steps);
    let u = history(state, steps);
    merged_lists_every_timestamp(u.left_cache, u.right_cache);
    answers_are_sound_and_complete(u.pairing(), u.pairing().breakpoints(None));
}

} // verus!
