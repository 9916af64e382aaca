//! One step of a conjunction or disjunction, in every mode and over any operands: what is read
//! of the operands, what is answered, and what is remembered of it.

use crate::binary_laws::{lemma_newest_reached, lemma_unanswered};
use crate::binary_node::{absorbed, BinaryState};
use crate::binary_operators::{answers_are_sound_and_complete, merged_lists_every_timestamp};
use crate::binary_operators::{out_of_reach, reached, Answer, Connective, Pairing};
use crate::binary_operators::{after_mark, lemma_after_mark, newest_reached};
use crate::cache_laws::{a_cache_is_read_at_its_newest_sample, adding_a_sample_keeps_the_others};
use crate::cache_laws::pruning_removes_what_is_superseded;
use crate::pairing_laws::{answers_are_given_up_to_a_time_that_waits, lemma_beyond, lemma_later};
use crate::pairing_laws::breakpoints_are_the_timestamps_past_the_mark;
use crate::operator::{Behavior, Event, Machine, Profile};
use crate::ring_buffer::{has_entry_at, in_force, in_order, lemma_put_in_order, Step};
use crate::semantics::RobustnessSemantics;
use crate::time::{Time, FOREVER, MAX_TIME};
use vstd::prelude::*;

verus! {

/// What is kept of an operand: its verdicts, how far it has come, and how far it looks ahead.
pub struct Report<Y> {
    pub cache: Seq<Step<Y>>,
    pub frontier: Option<Time>,
    pub lookahead: Time,
}

/// `v` is what an operand is worth at `t`: nothing past the time it has come to; unknown, where
/// verdicts are refined, as long as samples that it looks ahead to are still to come; and else
/// its newest verdict by then, if that is still held.
pub open spec fn is_worth<Y: RobustnessSemantics>(
    report: Report<Y>,
    rosi: bool,
    t: Time,
    v: Y,
) -> bool {
    &&& report.frontier is Some
    &&& t <= report.frontier->0
    &&& if rosi && t + report.lookahead > report.frontier->0 {
        v == Y::unknown_spec()
    } else {
        exists|i: int|
            {
                &&& 0 <= i < report.cache.len()
                &&& (#[trigger] report.cache[i]).timestamp <= t < report.cache[i].held_until
                &&& i + 1 < report.cache.len() ==> t < report.cache[i + 1].timestamp
                &&& v == report.cache[i].value
            }
    }
}

/// What is kept of the left operand.
pub open spec fn left_report<T, Y: RobustnessSemantics>(s: BinaryState<T, Y>) -> Report<Y> {
    Report { cache: s.left_cache, frontier: s.left_frontier, lookahead: s.left_lookahead }
}

/// What is kept of the right operand.
pub open spec fn right_report<T, Y: RobustnessSemantics>(s: BinaryState<T, Y>) -> Report<Y> {
    Report { cache: s.right_cache, frontier: s.right_frontier, lookahead: s.right_lookahead }
}

/// What an operand is worth is what is read of it, and it is worth one thing at most.
proof fn lemma_worth<T, Y: RobustnessSemantics>(s: BinaryState<T, Y>, t: Time)
    requires
        in_order(s.left_cache),
        in_order(s.right_cache),
    ensures
        forall|v: Y| #[trigger]
            is_worth(left_report(s), s.rosi, t, v) <==> s.pairing().left.read(s.rosi, t) == Some(v),
        forall|v: Y| #[trigger]
            is_worth(right_report(s), s.rosi, t, v) <==> s.pairing().right.read(s.rosi, t) == Some(
                v,
            ),
{
    lemma_worth_of(left_report(s), s.rosi, t);
    lemma_worth_of(right_report(s), s.rosi, t);
}

/// What an operand is worth at a time is the verdict in force there, or unknown.
pub proof fn lemma_worth_of<Y: RobustnessSemantics>(r: Report<Y>, rosi: bool, t: Time)
    requires
        in_order(r.cache),
    ensures
        forall|v: Y| #[trigger]
            is_worth(r, rosi, t, v) <==> r.frontier is Some && t <= r.frontier->0 && (if rosi && t
                + r.lookahead > r.frontier->0 {
                v == Y::unknown_spec()
            } else {
                in_force(r.cache, t) is Some && v == in_force(r.cache, t)->0.value
            }),
{
    let n = a_cache_is_read_at_its_newest_sample(r.cache, t);
    assert forall|v: Y| #[trigger]
        is_worth(r, rosi, t, v) <==> r.frontier is Some && t <= r.frontier->0 && (if rosi && t
            + r.lookahead > r.frontier->0 {
            v == Y::unknown_spec()
        } else {
            in_force(r.cache, t) is Some && v == in_force(r.cache, t)->0.value
        }) by {
        if n > 0 {
            assert(r.cache[n - 1].timestamp <= t);
            assert(n < r.cache.len() ==> t < r.cache[n].timestamp);
        }
        if is_worth(r, rosi, t, v) && !(rosi && t + r.lookahead > r.frontier->0) {
            let i = choose|i: int|
                {
                    &&& 0 <= i < r.cache.len()
                    &&& (#[trigger] r.cache[i]).timestamp <= t < r.cache[i].held_until
                    &&& i + 1 < r.cache.len() ==> t < r.cache[i + 1].timestamp
                    &&& v == r.cache[i].value
                };
            assert(i < n);
            assert(i + 1 < r.cache.len() ==> !(i + 1 < n));
        }
    }
}

/// The operands are combined as they are, by the connective of the operator, whatever they are
/// and however far they look ahead.
pub proof fn operands_are_combined_as_they_are<T, Y: RobustnessSemantics>(s: BinaryState<T, Y>)
    ensures
        ({
            let p = s.pairing();
            &&& p.connective == s.connective
            &&& p.eager == s.eager
            &&& p.rosi == s.rosi
            &&& p.left.cache == s.left_cache
            &&& p.left.frontier == s.left_frontier
            &&& p.left.lookahead == s.left_lookahead
            &&& p.right.cache == s.right_cache
            &&& p.right.frontier == s.right_frontier
            &&& p.right.lookahead == s.right_lookahead
        }),
{
}

/// Every answer a step gives is at a verdict kept of one of the operands, which was not answered
/// before unless verdicts are refined, and is one of two things. It is the conjunction, or the
/// disjunction, of what both operands are worth there, whatever their lookahead. Or, in eager
/// mode alone, it is what one operand is worth, past the time that the other has come to, and
/// settles the matter: false a conjunction, true a disjunction. Answers come in time order.
pub proof fn answers_of_a_step<T, Y: RobustnessSemantics>(
    state: BinaryState<T, Y>,
    step: Step<T>,
    k: int,
) -> (res: (Y, Y, bool))
    requires
        in_order(state.taken_in(step).left_cache),
        in_order(state.taken_in(step).right_cache),
        0 <= k < state.emit(Event::Sample(step)).len(),
    ensures
        ({
            let s = state.taken_in(step);
            let out = state.emit(Event::Sample(step));
            let t = out[k].timestamp;
            let v = out[k].value;
            let (l, r, both) = res;
            &&& both ==> is_worth(left_report(s), s.rosi, t, l) && is_worth(
                right_report(s),
                s.rosi,
                t,
                r,
            ) && v == match state.connective {
                Connective::And => Y::and_spec(l, r),
                Connective::Or => Y::or_spec(l, r),
            }
            &&& !both ==> {
                &&& state.eager && !state.rosi
                &&& is_worth(left_report(s), s.rosi, t, v) || is_worth(
                    right_report(s),
                    s.rosi,
                    t,
                    v,
                )
                &&& s.left_frontier is None || s.right_frontier is None || t > s.left_frontier->0
                    || t > s.right_frontier->0
                &&& match state.connective {
                    Connective::And => Y::same_spec(Y::false_spec(), v),
                    Connective::Or => Y::same_spec(Y::true_spec(), v),
                }
            }
            &&& (exists|i: int|
                0 <= i < s.left_cache.len() && (#[trigger] s.left_cache[i]).timestamp == t) || (
            exists|i: int|
                0 <= i < s.right_cache.len() && (#[trigger] s.right_cache[i]).timestamp == t)
            &&& !state.rosi ==> state.mark is None || t > state.mark->0
            &&& state.eager && !state.rosi ==> !state.ahead.contains(t)
            &&& out[k].signal == "output"
            &&& out[k].held_until == FOREVER
            &&& forall|j: int| k < j < out.len() ==> t < (#[trigger] out[j]).timestamp
        }),
{
    let s = state.taken_in(step);
    let p = s.pairing();
    let start = if state.rosi {
        None
    } else {
        state.mark
    };
    let all = p.answers(p.breakpoints(start));
    let out = state.emit(Event::Sample(step));
    let t = out[k].timestamp;
    lemma_after_mark(s.left_cache, start);
    lemma_after_mark(s.right_cache, start);
    merged_lists_every_timestamp(
        after_mark(s.left_cache, start),
        after_mark(s.right_cache, start),
    );
    answers_are_sound_and_complete(p, p.breakpoints(start));
    lemma_unanswered(all, s.ahead);
    assert(out.contains(out[k]));
    let i = choose|i: int| 0 <= i < all.len() && all[i] == out[k];
    assert(p.breakpoints(start).contains(all[i].timestamp));
    assert(has_entry_at(s.left_cache, t) || has_entry_at(s.right_cache, t));
    lemma_worth(s, t);
    match (p.left.read(s.rosi, t), p.right.read(s.rosi, t)) {
        (Some(l), Some(r)) => {
            assert(is_worth(left_report(s), s.rosi, t, l));
            assert(is_worth(right_report(s), s.rosi, t, r));
            (l, r, true)
        },
        _ => {
            assert(is_worth(left_report(s), s.rosi, t, out[k].value) || is_worth(
                right_report(s),
                s.rosi,
                t,
                out[k].value,
            ));
            (out[k].value, out[k].value, false)
        },
    }
}

/// Nothing is left out: a verdict kept of either operand is answered on the step that brings
/// both operands to it, if it was not before and both are worth something there.
pub proof fn a_step_answers_what_both_operands_reach<T, Y: RobustnessSemantics>(
    state: BinaryState<T, Y>,
    step: Step<T>,
    t: Time,
    l: Y,
    r: Y,
) -> (k: int)
    requires
        in_order(state.taken_in(step).left_cache),
        in_order(state.taken_in(step).right_cache),
        ({
            let s = state.taken_in(step);
            &&& is_worth(left_report(s), s.rosi, t, l)
            &&& is_worth(right_report(s), s.rosi, t, r)
            &&& (exists|i: int|
                0 <= i < s.left_cache.len() && (#[trigger] s.left_cache[i]).timestamp == t) || (
            exists|i: int|
                0 <= i < s.right_cache.len() && (#[trigger] s.right_cache[i]).timestamp == t)
            &&& state.rosi || state.mark is None || t > state.mark->0
            &&& state.eager && !state.rosi ==> !state.ahead.contains(t)
        }),
    ensures
        0 <= k < state.emit(Event::Sample(step)).len(),
        state.emit(Event::Sample(step))[k].timestamp == t,
        state.emit(Event::Sample(step))[k].value == match state.connective {
            Connective::And => Y::and_spec(l, r),
            Connective::Or => Y::or_spec(l, r),
        },
{
    let s = state.taken_in(step);
    let p = s.pairing();
    let start = if state.rosi {
        None
    } else {
        state.mark
    };
    let times = p.breakpoints(start);
    let all = p.answers(times);
    let out = state.emit(Event::Sample(step));
    lemma_after_mark(s.left_cache, start);
    lemma_after_mark(s.right_cache, start);
    merged_lists_every_timestamp(
        after_mark(s.left_cache, start),
        after_mark(s.right_cache, start),
    );
    answers_are_sound_and_complete(p, times);
    lemma_unanswered(all, s.ahead);
    lemma_worth(s, t);
    assert(p.left.read(s.rosi, t) == Some(l));
    assert(p.right.read(s.rosi, t) == Some(r));
    assert(has_entry_at(s.left_cache, t) || has_entry_at(s.right_cache, t));
    assert(times.contains(t));
    let i = choose|i: int| 0 <= i < times.len() && times[i] == t;
    assert(reached(p.joint(), times[i]));
    let answer = Step::spec_new("output", p.answer(t)->Emit_0, t);
    assert(all.contains(answer));
    assert(out.contains(answer));
    choose|k: int| 0 <= k < out.len() && out[k] == answer
}

/// Answers go on up to the first time that has to wait.
proof fn lemma_up_to_a_stop<Y: RobustnessSemantics>(p: Pairing<Y>, times: Seq<Time>, n: int)
    requires
        0 <= n < times.len(),
        forall|i: int|
            0 <= i <= n ==> reached(p.horizon(), #[trigger] times[i]) && !(p.answer(
                times[i],
            ) is Stop),
        p.answer(times[n]) is Emit,
    ensures
        p.answers(times).contains(
            Step::spec_new("output", p.answer(times[n])->Emit_0, times[n]),
        ),
    decreases n,
{
    let answer = Step::spec_new("output", p.answer(times[n])->Emit_0, times[n]);
    let rest = p.answers(times.skip(1));
    let all = p.answers(times);
    assert(reached(p.horizon(), times[0]));
    if n == 0 {
        assert(all[0] == answer);
    } else {
        assert forall|i: int| 0 <= i <= n - 1 implies reached(
            p.horizon(),
            #[trigger] times.skip(1)[i],
        ) && !(p.answer(times.skip(1)[i]) is Stop) by {
            assert(times.skip(1)[i] == times[i + 1]);
        }
        lemma_up_to_a_stop(p, times.skip(1), n - 1);
        let k = choose|k: int| 0 <= k < rest.len() && rest[k] == answer;
        if p.answer(times[0]) is Emit {
            assert(all[k + 1] == answer);
        }
    }
}

/// In eager mode what one operand settles by itself is answered on the same step, unless some
/// earlier verdict has to wait: one past the time the other operand has come to, that settles
/// nothing.
pub proof fn a_step_answers_what_one_operand_settles<T, Y: RobustnessSemantics>(
    state: BinaryState<T, Y>,
    step: Step<T>,
    t: Time,
    v: Y,
) -> (k: int)
    requires
        state.eager,
        !state.rosi,
        in_order(state.taken_in(step).left_cache),
        in_order(state.taken_in(step).right_cache),
        match state.connective {
            Connective::And => Y::same_spec(Y::false_spec(), v),
            Connective::Or => Y::same_spec(Y::true_spec(), v),
        },
        ({
            let s = state.taken_in(step);
            let left = left_report(s);
            let right = right_report(s);
            &&& is_worth(left, false, t, v) && (s.right_frontier is None || t
                > s.right_frontier->0) || is_worth(right, false, t, v) && (s.left_frontier is None
                || t > s.left_frontier->0)
            &&& (exists|i: int|
                0 <= i < s.left_cache.len() && (#[trigger] s.left_cache[i]).timestamp == t) || (
            exists|i: int|
                0 <= i < s.right_cache.len() && (#[trigger] s.right_cache[i]).timestamp == t)
            &&& state.mark is None || t > state.mark->0
            &&& !state.ahead.contains(t)
            &&& forall|u: Time, w: Y|
                {
                    ||| #[trigger] is_worth(left, false, u, w) && u < t && (s.right_frontier is None
                        || u > s.right_frontier->0)
                    ||| #[trigger] is_worth(right, false, u, w) && u < t && (s.left_frontier is None
                        || u > s.left_frontier->0)
                } ==> match state.connective {
                    Connective::And => Y::same_spec(Y::false_spec(), w),
                    Connective::Or => Y::same_spec(Y::true_spec(), w),
                }
        }),
    ensures
        0 <= k < state.emit(Event::Sample(step)).len(),
        state.emit(Event::Sample(step))[k].timestamp == t,
        state.emit(Event::Sample(step))[k].value == v,
{
    let s = state.taken_in(step);
    let p = s.pairing();
    let start = state.mark;
    let times = p.breakpoints(start);
    let all = p.answers(times);
    let out = state.emit(Event::Sample(step));
    lemma_after_mark(s.left_cache, start);
    lemma_after_mark(s.right_cache, start);
    merged_lists_every_timestamp(
        after_mark(s.left_cache, start),
        after_mark(s.right_cache, start),
    );
    answers_are_sound_and_complete(p, times);
    lemma_unanswered(all, s.ahead);
    assert(has_entry_at(s.left_cache, t) || has_entry_at(s.right_cache, t));
    assert(times.contains(t));
    let n = choose|n: int| 0 <= n < times.len() && times[n] == t;
    lemma_worth(s, t);
    assert(p.answer(t) == Answer::Emit(v));
    assert forall|i: int| 0 <= i <= n implies reached(p.horizon(), #[trigger] times[i]) && !(
    p.answer(times[i]) is Stop) by {
        if i < n {
            let u = times[i];
            assert(u < t);
            lemma_worth(s, u);
            match (p.left.read(false, u), p.right.read(false, u)) {
                (Some(w), None) => {
                    assert(is_worth(left_report(s), false, u, w));
                    assert(is_worth(right_report(s), false, u, w) == false);
                },
                (None, Some(w)) => {
                    assert(is_worth(right_report(s), false, u, w));
                    assert(is_worth(left_report(s), false, u, w) == false);
                },
                _ => {},
            }
        }
    }
    lemma_up_to_a_stop(p, times, n);
    let answer = Step::spec_new("output", v, t);
    assert(out.contains(answer));
    choose|k: int| 0 <= k < out.len() && out[k] == answer
}

/// Nothing is answered past a time that waits: if a step answers a time, then whatever one operand
/// alone is worth at an earlier verdict not answered for good, past the time the other has come
/// to, settles the matter there.
pub proof fn nothing_is_answered_past_a_time_that_waits<T, Y: RobustnessSemantics>(
    state: BinaryState<T, Y>,
    step: Step<T>,
    k: int,
    u: Time,
    w: Y,
)
    requires
        in_order(state.taken_in(step).left_cache),
        in_order(state.taken_in(step).right_cache),
        0 <= k < state.emit(Event::Sample(step)).len(),
        u < state.emit(Event::Sample(step))[k].timestamp,
        state.rosi || state.mark is None || u > state.mark->0,
        ({
            let s = state.taken_in(step);
            &&& (exists|i: int|
                0 <= i < s.left_cache.len() && (#[trigger] s.left_cache[i]).timestamp == u) || (
            exists|i: int|
                0 <= i < s.right_cache.len() && (#[trigger] s.right_cache[i]).timestamp == u)
            &&& is_worth(left_report(s), s.rosi, u, w) && (s.right_frontier is None || u
                > s.right_frontier->0) || is_worth(right_report(s), s.rosi, u, w) && (
            s.left_frontier is None || u > s.left_frontier->0)
        }),
    ensures
        match state.connective {
            Connective::And => Y::same_spec(Y::false_spec(), w),
            Connective::Or => Y::same_spec(Y::true_spec(), w),
        },
{
    let s = state.taken_in(step);
    let p = s.pairing();
    let start = if state.rosi {
        None
    } else {
        state.mark
    };
    let times = p.breakpoints(start);
    let all = p.answers(times);
    let out = state.emit(Event::Sample(step));
    breakpoints_are_the_timestamps_past_the_mark(p, start, u);
    answers_are_sound_and_complete(p, times);
    lemma_unanswered(all, s.ahead);
    assert(out.contains(out[k]));
    let m = choose|m: int| 0 <= m < all.len() && all[m] == out[k];
    let (at, n) = answers_are_given_up_to_a_time_that_waits(p, times);
    assert(all[m].timestamp == times[at[m]]);
    let i = choose|i: int| 0 <= i < times.len() && times[i] == u;
    assert(i < at[m]);
    assert(!(p.answer(times[i]) is Stop));
    lemma_worth(s, u);
}

/// What reaches an operand of a step: a sample does if it is of a signal the operand reads, or
/// if nothing is known yet of what it reads.
pub open spec fn is_heard<T>(signals: Set<Seq<char>>, step: Step<T>) -> bool {
    signals.contains(step.signal@) || signals == Set::<Seq<char>>::empty()
}

/// What an operand says on a step: nothing, unless the sample reaches it.
pub open spec fn is_said<T, Y>(
    operand: Behavior<T, Y>,
    signals: Set<Seq<char>>,
    step: Step<T>,
    said: Seq<Step<Y>>,
) -> bool {
    if is_heard(signals, step) {
        said == (operand.run)(seq![Event::Sample(step)])
    } else {
        said.len() == 0
    }
}

proof fn lemma_absorbed<Y>(
    cache: Seq<Step<Y>>,
    updates: Seq<Step<Y>>,
    rosi: bool,
    mark: Option<Time>,
    e: Step<Y>,
)
    requires
        in_order(cache),
    ensures
        in_order(absorbed(cache, updates, rosi, mark)),
        absorbed(cache, updates, rosi, mark).contains(e) <==> {
            let matters = mark is None || e.timestamp > mark->0 || (rosi && e.timestamp == mark->0);
            ||| matters && exists|i: int|
                0 <= i < updates.len() && #[trigger] updates[i] == e && forall|j: int|
                    i < j < updates.len() ==> (#[trigger] updates[j]).timestamp != e.timestamp
            ||| cache.contains(e) && (matters ==> forall|j: int|
                0 <= j < updates.len() ==> (#[trigger] updates[j]).timestamp != e.timestamp)
        },
    decreases updates.len(),
{
    if updates.len() > 0 {
        let init = updates.drop_last();
        let last = updates.last();
        let head = absorbed(cache, init, rosi, mark);
        let matters = mark is None || e.timestamp > mark->0 || (rosi && e.timestamp == mark->0);
        lemma_absorbed(cache, init, rosi, mark, e);
        lemma_put_in_order(head, last);
        adding_a_sample_keeps_the_others(head, last, e);
        let n = updates.len() - 1;
        assert(updates[n] == last);
        assert forall|i: int| 0 <= i < n implies #[trigger] init[i] == updates[i] by {}
        if matters {
            if exists|i: int|
                0 <= i < init.len() && #[trigger] init[i] == e && forall|j: int|
                    i < j < init.len() ==> (#[trigger] init[j]).timestamp != e.timestamp {
                let i = choose|i: int|
                    0 <= i < init.len() && #[trigger] init[i] == e && forall|j: int|
                        i < j < init.len() ==> (#[trigger] init[j]).timestamp != e.timestamp;
                assert(updates[i] == e);
                assert(forall|j: int|
                    i < j < n ==> (#[trigger] updates[j]).timestamp != e.timestamp) by {
                    assert(forall|j: int| i < j < n ==> init[j] == #[trigger] updates[j]);
                }
            }
            if exists|i: int|
                0 <= i < updates.len() && #[trigger] updates[i] == e && forall|j: int|
                    i < j < updates.len() ==> (#[trigger] updates[j]).timestamp != e.timestamp {
                let i = choose|i: int|
                    0 <= i < updates.len() && #[trigger] updates[i] == e && forall|j: int|
                        i < j < updates.len() ==> (#[trigger] updates[j]).timestamp
                            != e.timestamp;
                if i < n {
                    assert(init[i] == e);
                    assert(updates[n].timestamp != e.timestamp);
                    assert(forall|j: int| i < j < n ==> #[trigger] init[j] == updates[j]);
                }
            }
            assert((forall|j: int|
                0 <= j < updates.len() ==> (#[trigger] updates[j]).timestamp != e.timestamp) <==> (
            forall|j: int| 0 <= j < n ==> (#[trigger] init[j]).timestamp != e.timestamp)
                && last.timestamp != e.timestamp) by {
                assert(forall|j: int| 0 <= j < n ==> init[j] == #[trigger] updates[j]);
            }
        }
    }
}

/// How far an operand has come after a step is the later of how far it had come and its last
/// verdict, but no farther than it says it is known to.
pub open spec fn is_frontier(
    before: Option<Time>,
    last: Option<Time>,
    known: Option<Time>,
    after: Option<Time>,
) -> bool {
    &&& after is None <==> before is None && last is None
    &&& after matches Some(f) ==> {
        &&& known is Some ==> f <= known->0
        &&& f == known->0 && known is Some || f == before->0 && before is Some || f == last->0
            && last is Some
        &&& before is Some && f < before->0 ==> known is Some && f == known->0
        &&& last is Some && f < last->0 ==> known is Some && f == known->0
    }
}

/// What a step leaves of each operand before anything is answered: of several verdicts on one
/// time the last one counts, an earlier verdict on another time stays, and what has been
/// answered for good is not taken in again.
pub proof fn a_step_takes_in_what_the_operands_say<T, Y: RobustnessSemantics>(
    state: BinaryState<T, Y>,
    step: Step<T>,
    left: Seq<Step<Y>>,
    right: Seq<Step<Y>>,
    e: Step<Y>,
)
    requires
        in_order(state.left_cache),
        in_order(state.right_cache),
        is_said(state.operands.left, state.operands.left_signals, step, left),
        is_said(state.operands.right, state.operands.right_signals, step, right),
    ensures
        ({
            let s = state.taken_in(step);
            let matters = state.mark is None || e.timestamp > state.mark->0 || (state.rosi
                && e.timestamp == state.mark->0);
            &&& in_order(s.left_cache) && in_order(s.right_cache)
            &&& s.left_cache.contains(e) <==> {
                ||| matters && exists|i: int|
                    0 <= i < left.len() && #[trigger] left[i] == e && forall|j: int|
                        i < j < left.len() ==> (#[trigger] left[j]).timestamp != e.timestamp
                ||| state.left_cache.contains(e) && (matters ==> forall|j: int|
                    0 <= j < left.len() ==> (#[trigger] left[j]).timestamp != e.timestamp)
            }
            &&& s.right_cache.contains(e) <==> {
                ||| matters && exists|i: int|
                    0 <= i < right.len() && #[trigger] right[i] == e && forall|j: int|
                        i < j < right.len() ==> (#[trigger] right[j]).timestamp != e.timestamp
                ||| state.right_cache.contains(e) && (matters ==> forall|j: int|
                    0 <= j < right.len() ==> (#[trigger] right[j]).timestamp != e.timestamp)
            }
            &&& is_frontier(
                state.left_frontier,
                if left.len() > 0 {
                    Some(left[left.len() - 1].timestamp)
                } else {
                    None
                },
                (s.operands.left.known)(Seq::empty()),
                s.left_frontier,
            )
            &&& is_frontier(
                state.right_frontier,
                if right.len() > 0 {
                    Some(right[right.len() - 1].timestamp)
                } else {
                    None
                },
                (s.operands.right.known)(Seq::empty()),
                s.right_frontier,
            )
            &&& s.mark == state.mark
            &&& s.ahead == state.ahead
            &&& s.connective == state.connective
            &&& s.eager == state.eager
            &&& s.rosi == state.rosi
            &&& s.left_lookahead == state.left_lookahead
            &&& s.right_lookahead == state.right_lookahead
        }),
{
    let event = Event::Sample(step);
    assert(state.operands.left_emits(event) =~= left);
    assert(state.operands.right_emits(event) =~= right);
    lemma_absorbed(state.left_cache, left, state.rosi, state.mark, e);
    lemma_absorbed(state.right_cache, right, state.rosi, state.mark, e);
}

/// What is remembered of the answers of a step. In delayed mode that is the time of the last
/// answer, and where verdicts are refined that of the first. In eager mode it is the latest
/// answer that both operands had come to, and of the answers past that every time. Without
/// answers nothing changes.
pub proof fn a_step_remembers_its_answers<T, Y: RobustnessSemantics>(
    state: BinaryState<T, Y>,
    step: Step<T>,
    t: Time,
)
    requires
        in_order(state.taken_in(step).left_cache),
        in_order(state.taken_in(step).right_cache),
    ensures
        ({
            let s = state.taken_in(step);
            let out = state.emit(Event::Sample(step));
            let next = state.next(Event::Sample(step));
            let both = |u: Time|
                s.left_frontier is Some && s.right_frontier is Some && u <= s.left_frontier->0 && u
                    <= s.right_frontier->0;
            &&& !state.eager || state.rosi ==> next.mark == (if out.len() == 0 {
                state.mark
            } else if state.rosi {
                Some(out[0].timestamp)
            } else {
                Some(out[out.len() - 1].timestamp)
            })
            &&& !state.eager || state.rosi ==> next.ahead == state.ahead
            &&& state.eager && !state.rosi ==> {
                &&& (forall|i: int|
                    0 <= i < out.len() ==> !both((#[trigger] out[i]).timestamp)) ==> next.mark
                    == state.mark
                &&& (exists|i: int| 0 <= i < out.len() && both((#[trigger] out[i]).timestamp))
                    ==> next.mark is Some && both(next.mark->0) && (exists|i: int|
                    0 <= i < out.len() && (#[trigger] out[i]).timestamp == next.mark->0)
                &&& forall|i: int|
                    0 <= i < out.len() && both((#[trigger] out[i]).timestamp) ==> next.mark is Some
                        && out[i].timestamp <= next.mark->0
                &&& next.ahead.contains(t) <==> (next.mark is None || t > next.mark->0) && (
                state.ahead.contains(t) || !both(t) && exists|i: int|
                    0 <= i < out.len() && (#[trigger] out[i]).timestamp == t)
            }
            &&& next.left_frontier == s.left_frontier
            &&& next.right_frontier == s.right_frontier
            &&& next.left_lookahead == state.left_lookahead
            &&& next.right_lookahead == state.right_lookahead
            &&& next.connective == state.connective
            &&& next.eager == state.eager
            &&& next.rosi == state.rosi
        }),
{
    let s = state.taken_in(step);
    let p = s.pairing();
    let out = state.emit(Event::Sample(step));
    let next = state.next(Event::Sample(step));
    let start = if state.rosi {
        None
    } else {
        state.mark
    };
    let all = p.answers(p.breakpoints(start));
    lemma_after_mark(s.left_cache, start);
    lemma_after_mark(s.right_cache, start);
    merged_lists_every_timestamp(
        after_mark(s.left_cache, start),
        after_mark(s.right_cache, start),
    );
    answers_are_sound_and_complete(p, p.breakpoints(start));
    lemma_unanswered(all, s.ahead);
    assert(in_order(out));
    if state.eager && !state.rosi {
        lemma_newest_reached(out, s.joint());
        lemma_beyond(out, s.joint(), t);
        let beyond = out_of_reach(out, s.joint());
        lemma_later(state.ahead + beyond, next.mark, t);
        assert((state.ahead + beyond).contains(t) <==> state.ahead.contains(t) || beyond.contains(
            t,
        )) by {
            let sum = state.ahead + beyond;
            if sum.contains(t) {
                let k = choose|k: int| 0 <= k < sum.len() && sum[k] == t;
                assert(k < state.ahead.len() ==> state.ahead[k] == t);
                assert(k >= state.ahead.len() ==> beyond[k - state.ahead.len()] == t);
            }
            if state.ahead.contains(t) {
                let k = choose|k: int| 0 <= k < state.ahead.len() && state.ahead[k] == t;
                assert(sum[k] == t);
            }
            if beyond.contains(t) {
                let k = choose|k: int| 0 <= k < beyond.len() && beyond[k] == t;
                assert(sum[state.ahead.len() + k] == t);
            }
        }
        let newest = newest_reached(out, s.joint());
        if newest is Some {
            let i = choose|i: int|
                0 <= i < out.len() && (#[trigger] out[i]).timestamp == newest->0;
            assert(reached(s.joint(), out[i].timestamp));
        }
    }
}

/// What is kept of the operands after a step, `i` and `j` being how many verdicts are forgotten:
/// those whose successor is at least the longer lookahead before the time both operands have come
/// to, and before the newest verdict kept.
pub proof fn a_step_forgets_what_is_superseded<T, Y: RobustnessSemantics>(
    state: BinaryState<T, Y>,
    step: Step<T>,
) -> (res: (int, int))
    requires
        in_order(state.taken_in(step).left_cache),
        in_order(state.taken_in(step).right_cache),
        state.left_lookahead <= MAX_TIME,
        state.right_lookahead <= MAX_TIME,
    ensures
        ({
            let s = state.taken_in(step);
            let next = state.next(Event::Sample(step));
            let (i, j) = res;
            let old = |u: Time|
                s.left_frontier is Some && s.right_frontier is Some && u + s.left_lookahead
                    <= s.left_frontier->0 && u + s.right_lookahead <= s.left_frontier->0 && u
                    + s.left_lookahead <= s.right_frontier->0 && u + s.right_lookahead
                    <= s.right_frontier->0;
            &&& 0 <= i <= s.left_cache.len() && (s.left_cache.len() > 0 ==> i < s.left_cache.len())
            &&& 0 <= j <= s.right_cache.len() && (s.right_cache.len() > 0 ==> j
                < s.right_cache.len())
            &&& next.left_cache == s.left_cache.skip(i)
            &&& next.right_cache == s.right_cache.skip(j)
            &&& forall|k: int|
                0 < k < s.left_cache.len() ==> (k <= i <==> old(
                    (#[trigger] s.left_cache[k]).timestamp,
                ) && s.left_cache[k].timestamp + s.left_lookahead <= s.left_cache.last().timestamp
                    && s.left_cache[k].timestamp + s.right_lookahead
                    <= s.left_cache.last().timestamp)
            &&& forall|k: int|
                0 < k < s.right_cache.len() ==> (k <= j <==> old(
                    (#[trigger] s.right_cache[k]).timestamp,
                ) && s.right_cache[k].timestamp + s.left_lookahead
                    <= s.right_cache.last().timestamp && s.right_cache[k].timestamp
                    + s.right_lookahead <= s.right_cache.last().timestamp)
        }),
{
    let s = state.taken_in(step);
    let protected_ts = crate::time::minus(
        match s.joint() {
            Some(ts) => ts,
            None => 0,
        },
        s.lookahead(),
    );
    let i = pruning_removes_what_is_superseded(s.left_cache, s.lookahead(), protected_ts);
    let j = pruning_removes_what_is_superseded(s.right_cache, s.lookahead(), protected_ts);
    assert forall|k: int| 0 < k < s.left_cache.len() implies (#[trigger] s.left_cache[k]).timestamp
        > 0 by {
        assert(s.left_cache[0].timestamp < s.left_cache[k].timestamp);
    }
    assert forall|k: int|
        0 < k < s.right_cache.len() implies (#[trigger] s.right_cache[k]).timestamp > 0 by {
        assert(s.right_cache[0].timestamp < s.right_cache[k].timestamp);
    }
    (i, j)
}

/// The state before anything has happened holds the operands, what they read and how far they
/// look ahead, whatever verdicts were handed over, and nothing else.
pub proof fn nothing_has_happened_at_first<T, Y: RobustnessSemantics>(
    left: Behavior<T, Y>,
    right: Behavior<T, Y>,
    left_profile: Profile,
    right_profile: Profile,
    left_cache: Seq<Step<Y>>,
    right_cache: Seq<Step<Y>>,
    connective: Connective,
    eager: bool,
    rosi: bool,
)
    ensures
        ({
            let s = BinaryState::initial(
                left,
                right,
                left_profile,
                right_profile,
                left_cache,
                right_cache,
                connective,
                eager,
                rosi,
            );
            &&& s.operands.left == left
            &&& s.operands.right == right
            &&& s.operands.left_reads == left_profile.identifiers
            &&& s.operands.right_reads == right_profile.identifiers
            &&& s.operands.left_signals == Set::<Seq<char>>::empty()
            &&& s.operands.right_signals == Set::<Seq<char>>::empty()
            &&& s.left_cache == left_cache
            &&& s.right_cache == right_cache
            &&& s.left_lookahead == left_profile.lookahead
            &&& s.right_lookahead == right_profile.lookahead
            &&& s.mark is None
            &&& s.ahead.len() == 0
            &&& s.left_frontier is None
            &&& s.right_frontier is None
            &&& s.connective == connective
            &&& s.eager == eager
            &&& s.rosi == rosi
        }),
{
}

/// Only a sample is answered. A reset forgets all verdicts and answers, and binding variables or
/// learning what the operands read forgets none.
pub proof fn other_events_are_not_answered<T, Y: RobustnessSemantics>(
    state: BinaryState<T, Y>,
    event: Event<T>,
)
    requires
        !(event is Sample),
    ensures
        state.emit(event).len() == 0,
        ({
            let next = state.next(event);
            &&& event is Reset ==> next.left_cache.len() == 0 && next.right_cache.len() == 0
                && next.mark is None && next.ahead.len() == 0 && next.left_frontier is None
                && next.right_frontier is None
            &&& !(event is Reset) ==> next.left_cache == state.left_cache && next.right_cache
                == state.right_cache && next.mark == state.mark && next.ahead == state.ahead
                && next.left_frontier == state.left_frontier && next.right_frontier
                == state.right_frontier
            &&& next.left_lookahead == state.left_lookahead
            &&& next.right_lookahead == state.right_lookahead
            &&& next.connective == state.connective
            &&& next.eager == state.eager
            &&& next.rosi == state.rosi
        }),
{
}

/// Only eager output can have gaps, and none up to the time both operands have come to.
pub proof fn output_is_known_to_the_joint_frontier<T, Y: RobustnessSemantics>(
    state: BinaryState<T, Y>,
)
    ensures
        state.known() is Some <==> state.eager && !state.rosi,
        state.known() matches Some(t) ==> {
            &&& state.left_frontier is Some && state.right_frontier is Some ==> t
                <= state.left_frontier->0 && t <= state.right_frontier->0 && (t
                == state.left_frontier->0 || t == state.right_frontier->0)
            &&& state.left_frontier is None || state.right_frontier is None ==> t == 0
        },
{
}

/// Whatever happens to the operator happens to its operands, and to them alone.
pub proof fn operands_go_on_with_every_event<T, Y: RobustnessSemantics>(
    state: BinaryState<T, Y>,
    event: Event<T>,
)
    ensures
        state.next(event).operands.left == state.operands.next(event).left,
        state.next(event).operands.right == state.operands.next(event).right,
        state.next(event).operands.left_signals == state.operands.next(event).left_signals,
        state.next(event).operands.right_signals == state.operands.next(event).right_signals,
        state.next(event).operands.left_reads == state.operands.left_reads,
        state.next(event).operands.right_reads == state.operands.right_reads,
{
}

} // verus!
