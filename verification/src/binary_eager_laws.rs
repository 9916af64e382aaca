//! Eager conjunction and disjunction of two predicates against delayed ones, over whole traces.

use crate::atomic_operators::AtomicState;
use crate::atomic_trace::{held_at, is_held, is_sampled_at, last_sample, rises_per_signal};
use crate::atomic_trace::{lemma_emits, lemma_rises_before, lemma_unchanged, lemma_verdicts};
use crate::atomic_trace::{lemma_verdicts_grow, routed, signal_of, verdicts_of};
use crate::binary_laws::{every_timestamp_is_answered_once, is_answered, lemma_newest_reached};
use crate::binary_laws::{lemma_unanswered, output_is_ordered_and_within_the_horizon};
use crate::binary_node::BinaryState;
use crate::binary_operators::{after_mark, answers_are_sound_and_complete, joint, lemma_after_mark};
use crate::binary_operators::{merged_lists_every_timestamp, out_of_reach, reached, times_after};
use crate::binary_operators::Connective;
use crate::binary_stream_laws::{held_on, newest, run, streamed};
use crate::binary_trace::{extends, is_forgotten, lemma_appended, lemma_entry_kept, lemma_extends};
use crate::binary_trace::{lemma_pruned_up_to_joint, lemma_read_left, lemma_skipped};
use crate::binary_trace_laws::{joined, joint_timestamps_are_answered};
use crate::operator::{Event, Machine};
use crate::ring_buffer::{all_upto, has_entry_at, in_force, in_order, Step};
use crate::semantics::{AtomicSemantics, SignalValue};
use crate::time::{Time, MAX_TIME};
use vstd::prelude::*;

verus! {

/// What two operands are known to say: everything they have said so far.
pub struct Pair {
    pub left: Seq<Step<bool>>,
    pub right: Seq<Step<bool>>,
    pub connective: Connective,
}

impl Pair {
    pub open spec fn wf(self) -> bool {
        &&& in_order(self.left)
        &&& in_order(self.right)
        &&& all_upto(self.left, MAX_TIME)
        &&& all_upto(self.right, MAX_TIME)
        &&& held_on(self.left)
        &&& held_on(self.right)
    }

    pub open spec fn joint(self) -> Option<Time> {
        joint(newest(self.left), newest(self.right))
    }

    /// Both operands are known at `t`.
    pub open spec fn both_known(self, t: Time) -> bool {
        &&& reached(self.joint(), t)
        &&& in_force(self.left, t) is Some
        &&& in_force(self.right, t) is Some
    }

    /// What both operands come to at `t`.
    pub open spec fn combined(self, t: Time) -> bool {
        self.connective.combined(
            in_force(self.left, t)->0.value,
            in_force(self.right, t)->0.value,
        )
    }

    /// One operand settles `t` by itself.
    pub open spec fn is_settled(self, t: Time) -> bool {
        ||| reached(newest(self.left), t) && in_force(self.left, t) is Some && in_force(
            self.left,
            t,
        )->0.value == self.connective.settling::<bool>()
        ||| reached(newest(self.right), t) && in_force(self.right, t) is Some && in_force(
            self.right,
            t,
        )->0.value == self.connective.settling::<bool>()
    }

    /// `step` says of its time what both operands come to, or what one of them settles.
    pub open spec fn justifies(self, step: Step<bool>) -> bool {
        let t = step.timestamp;
        &&& step == Step::spec_new("output", step.value, t)
        &&& has_entry_at(self.left, t) || has_entry_at(self.right, t)
        &&& self.both_known(t) && step.value == self.combined(t) || step.value
            == self.connective.settling::<bool>() && self.is_settled(t)
    }
}

/// What was justified stays so.
proof fn lemma_stays_justified(p: Pair, q: Pair, step: Step<bool>)
    requires
        extends(p.left, q.left),
        extends(p.right, q.right),
        p.connective == q.connective,
        p.justifies(step),
    ensures
        q.justifies(step),
{
    let t = step.timestamp;
    if p.both_known(t) {
        assert(in_force(q.left, t) == in_force(p.left, t));
        assert(in_force(q.right, t) == in_force(p.right, t));
        assert(reached(newest(q.left), t) && reached(newest(q.right), t));
    }
    if p.is_settled(t) {
        if reached(newest(p.left), t) {
            assert(in_force(q.left, t) == in_force(p.left, t));
            assert(reached(newest(q.left), t));
        }
        if reached(newest(p.right), t) {
            assert(in_force(q.right, t) == in_force(p.right, t));
            assert(reached(newest(q.right), t));
        }
    }
}

/// `s` is an eager operator that has said `said` over operands that have said what is in `p`.
/// It has forgotten the first `i` and `j` of their verdicts.
pub open spec fn keeps_up<T>(s: BinaryState<T, bool>, p: Pair, i: int, j: int, said: Seq<Step<bool>>) -> bool {
    &&& p.wf()
    &&& s.eager
    &&& !s.rosi
    &&& s.connective == p.connective
    &&& s.left_lookahead <= MAX_TIME
    &&& s.right_lookahead <= MAX_TIME
    &&& s.left_frontier == newest(p.left)
    &&& s.right_frontier == newest(p.right)
    &&& is_forgotten(s.left_cache, p.left, i, p.joint())
    &&& is_forgotten(s.right_cache, p.right, j, p.joint())
    &&& s.mark matches Some(m) ==> reached(p.joint(), m)
    &&& all_justified(p, said)
    &&& all_said(s.ahead, said)
    &&& all_answered(s, said)
    &&& each_once(said)
    &&& says_everything(p, said)
}

pub open spec fn all_justified(p: Pair, said: Seq<Step<bool>>) -> bool {
    forall|k: int| 0 <= k < said.len() ==> p.justifies(#[trigger] said[k])
}

pub open spec fn all_said(ahead: Seq<Time>, said: Seq<Step<bool>>) -> bool {
    forall|t: Time| #[trigger] ahead.contains(t) ==> has_entry_at(said, t)
}

pub open spec fn all_answered<T>(s: BinaryState<T, bool>, said: Seq<Step<bool>>) -> bool {
    forall|k: int| 0 <= k < said.len() ==> is_answered(s, (#[trigger] said[k]).timestamp)
}

/// No time is answered twice.
pub open spec fn each_once<Y>(said: Seq<Step<Y>>) -> bool {
    forall|k: int, l: int|
        0 <= k < l < said.len() ==> (#[trigger] said[k]).timestamp != (
        #[trigger] said[l]).timestamp
}

/// A step takes the operands from what is in `p` to what is in `q`.
pub open spec fn advances<T>(s: BinaryState<T, bool>, p: Pair, q: Pair, step: Step<T>) -> bool {
    &&& q.wf()
    &&& q.connective == p.connective
    &&& q.left == p.left + s.operands.left_emits(Event::Sample(step))
    &&& q.right == p.right + s.operands.right_emits(Event::Sample(step))
    &&& s.operands.next(Event::Sample(step)).left.known_now() is None
    &&& s.operands.next(Event::Sample(step)).right.known_now() is None
}

/// Every breakpoint at which both operands are known was answered.
pub open spec fn says_everything(p: Pair, said: Seq<Step<bool>>) -> bool {
    forall|t: Time|
        p.both_known(t) && (has_entry_at(p.left, t) || has_entry_at(p.right, t))
            ==> #[trigger] said.contains(Step::spec_new("output", p.combined(t), t))
}

/// What the operator has taken in.
spec fn has_taken_in<T>(taken: BinaryState<T, bool>, p: Pair, i: int, j: int) -> bool {
    &&& taken.eager
    &&& !taken.rosi
    &&& taken.connective == p.connective
    &&& taken.left_lookahead <= MAX_TIME
    &&& taken.right_lookahead <= MAX_TIME
    &&& taken.left_frontier == newest(p.left)
    &&& taken.right_frontier == newest(p.right)
    &&& is_forgotten(taken.left_cache, p.left, i, p.joint())
    &&& is_forgotten(taken.right_cache, p.right, j, p.joint())
}

/// What becomes of a time is justified by what the operands say.
proof fn lemma_answer<T>(taken: BinaryState<T, bool>, p: Pair, i: int, j: int, t: Time, v: bool)
    requires
        p.wf(),
        has_taken_in(taken, p, i, j),
        has_entry_at(taken.left_cache, t) || has_entry_at(taken.right_cache, t),
        taken.pairing().answer(t) == crate::binary_operators::Answer::Emit(v),
    ensures
        p.justifies(Step::spec_new("output", v, t)),
{
    lemma_read_left(p.left, i, p.joint(), t);
    lemma_read_left(p.right, j, p.joint(), t);
    lemma_entry_kept(p.left, i, t);
    lemma_entry_kept(p.right, j, t);
}

/// A breakpoint past the old joint frontier at which both operands are known is answered.
proof fn lemma_answers_past<T>(
    taken: BinaryState<T, bool>,
    p: Pair,
    i: int,
    j: int,
    old_joint: Option<Time>,
    t: Time,
)
    requires
        p.wf(),
        has_taken_in(taken, p, i, j),
        is_forgotten(taken.left_cache, p.left, i, old_joint),
        is_forgotten(taken.right_cache, p.right, j, old_joint),
        taken.mark matches Some(m) ==> reached(old_joint, m),
        p.both_known(t),
        has_entry_at(p.left, t) || has_entry_at(p.right, t),
        !reached(old_joint, t),
    ensures
        taken.pairing().answers(taken.pairing().breakpoints(taken.mark)).contains(
            Step::spec_new("output", p.combined(t), t),
        ),
{
    let pairing = taken.pairing();
    lemma_read_left(p.left, i, old_joint, t);
    lemma_read_left(p.right, j, old_joint, t);
    lemma_after_mark(taken.left_cache, taken.mark);
    lemma_after_mark(taken.right_cache, taken.mark);
    let l = after_mark(taken.left_cache, taken.mark);
    let r = after_mark(taken.right_cache, taken.mark);
    merged_lists_every_timestamp(l, r);
    let times = pairing.breakpoints(taken.mark);
    answers_are_sound_and_complete(pairing, times);
    assert(has_entry_at(l, t) || has_entry_at(r, t)) by {
        assert(!reached(taken.mark, t));
        assert(has_entry_at(taken.left_cache, t) || has_entry_at(taken.right_cache, t));
        assert(has_entry_at(l, t) == has_entry_at(taken.left_cache, t));
        assert(has_entry_at(r, t) == has_entry_at(taken.right_cache, t));
    }
    assert(times.contains(t));
    let n = choose|n: int| 0 <= n < times.len() && times[n] == t;
    assert(reached(pairing.joint(), times[n]));
    assert(pairing.answer(times[n]) == crate::binary_operators::Answer::Emit(p.combined(t)));
}

proof fn lemma_out_of_reach_within(output: Seq<Step<bool>>, frontier: Option<Time>, t: Time)
    ensures
        out_of_reach(output, frontier).contains(t) ==> has_entry_at(output, t),
    decreases output.len(),
{
    let out = out_of_reach(output, frontier);
    if output.len() > 0 && out.contains(t) {
        let p = output.drop_last();
        lemma_out_of_reach_within(p, frontier, t);
        let k = choose|k: int| 0 <= k < out.len() && out[k] == t;
        if k < out_of_reach(p, frontier).len() {
            assert(out_of_reach(p, frontier)[k] == t);
            let i = choose|i: int| 0 <= i < p.len() && (#[trigger] p[i]).timestamp == t;
            assert(output[i].timestamp == t);
        } else {
            assert(output[output.len() - 1].timestamp == t);
        }
    }
}

proof fn lemma_times_after_within(times: Seq<Time>, mark: Option<Time>, t: Time)
    ensures
        times_after(times, mark).contains(t) ==> times.contains(t),
    decreases times.len(),
{
    let out = times_after(times, mark);
    if times.len() > 0 && out.contains(t) {
        let p = times.drop_last();
        lemma_times_after_within(p, mark, t);
        let k = choose|k: int| 0 <= k < out.len() && out[k] == t;
        if k < times_after(p, mark).len() {
            assert(times_after(p, mark)[k] == t);
            let i = choose|i: int| 0 <= i < p.len() && p[i] == t;
            assert(times[i] == t);
        } else {
            assert(times[times.len() - 1] == t);
        }
    }
}

/// The sample is handed to the operands.
proof fn lemma_taken<T>(
    s: BinaryState<T, bool>,
    p: Pair,
    q: Pair,
    i: int,
    j: int,
    said: Seq<Step<bool>>,
    step: Step<T>,
)
    requires
        keeps_up(s, p, i, j, said),
        advances(s, p, q, step),
    ensures
        has_taken_in(s.taken_in(step), q, i, j),
        is_forgotten(s.taken_in(step).left_cache, q.left, i, p.joint()),
        is_forgotten(s.taken_in(step).right_cache, q.right, j, p.joint()),
        extends(p.left, q.left),
        extends(p.right, q.right),
        s.taken_in(step).wf(),
        s.taken_in(step).mark == s.mark,
        s.taken_in(step).ahead == s.ahead,
{
    let left = s.operands.left_emits(Event::Sample(step));
    let right = s.operands.right_emits(Event::Sample(step));
    lemma_extends(p.left, left);
    lemma_extends(p.right, right);
    lemma_appended(p.left, left, i, p.joint(), false, s.mark);
    lemma_appended(p.right, right, j, p.joint(), false, s.mark);
    let taken = s.taken_in(step);
    assert(forall|t: Time| reached(p.joint(), t) ==> #[trigger] reached(q.joint(), t)) by {
        assert forall|t: Time| reached(p.joint(), t) implies #[trigger] reached(q.joint(), t) by {
            assert(reached(newest(q.left), t) && reached(newest(q.right), t));
        }
    }
    assert(taken.wf()) by {
        lemma_skipped(q.left, i);
        lemma_skipped(q.right, j);
    }
}

/// An eager operator keeps up with its operands.
pub proof fn lemma_step<T>(
    s: BinaryState<T, bool>,
    p: Pair,
    q: Pair,
    i: int,
    j: int,
    said: Seq<Step<bool>>,
    step: Step<T>,
) -> (res: (int, int))
    requires
        keeps_up(s, p, i, j, said),
        advances(s, p, q, step),
    ensures
        keeps_up(
            Machine::<T, bool>::next(s, Event::Sample(step)),
            q,
            res.0,
            res.1,
            said + s.emit(Event::Sample(step)),
        ),
{
    let taken = s.taken_in(step);
    let out = taken.available();
    let all = said + out;
    lemma_taken(s, p, q, i, j, said, step);
    lemma_all_justified(s, p, q, i, j, said, step);
    lemma_all_answered(s, p, q, i, j, said, step);
    lemma_all_said(s, p, q, i, j, said, step);
    lemma_says_everything(s, p, q, i, j, said, step);
    let i2 = lemma_pruned_up_to_joint(q.left, i, taken.lookahead(), q.joint());
    let j2 = lemma_pruned_up_to_joint(q.right, j, taken.lookahead(), q.joint());
    (i2, j2)
}

proof fn lemma_all_justified<T>(
    s: BinaryState<T, bool>,
    p: Pair,
    q: Pair,
    i: int,
    j: int,
    said: Seq<Step<bool>>,
    step: Step<T>,
)
    requires
        keeps_up(s, p, i, j, said),
        advances(s, p, q, step),
    ensures
        all_justified(q, said + s.emit(Event::Sample(step))),
{
    let taken = s.taken_in(step);
    let out = taken.available();
    let all = said + out;
    lemma_taken(s, p, q, i, j, said, step);
    let pairing = taken.pairing();
    let times = pairing.breakpoints(taken.mark);
    lemma_after_mark(taken.left_cache, taken.mark);
    lemma_after_mark(taken.right_cache, taken.mark);
    merged_lists_every_timestamp(
        after_mark(taken.left_cache, taken.mark),
        after_mark(taken.right_cache, taken.mark),
    );
    answers_are_sound_and_complete(pairing, times);
    let answers = pairing.answers(times);
    lemma_unanswered(answers, taken.ahead);
    assert forall|k: int| 0 <= k < all.len() implies q.justifies(#[trigger] all[k]) by {
        if k < said.len() {
            assert(all[k] == said[k]);
            lemma_stays_justified(p, q, said[k]);
        } else {
            let o = out[k - said.len()];
            assert(out.contains(o));
            let n = choose|n: int| 0 <= n < answers.len() && answers[n] == o;
            assert(answers[n] == o);
            assert(times.contains(answers[n].timestamp));
            assert(has_entry_at(after_mark(taken.left_cache, taken.mark), o.timestamp)
                || has_entry_at(after_mark(taken.right_cache, taken.mark), o.timestamp));
            lemma_answer(taken, q, i, j, o.timestamp, o.value);
        }
    }
}

proof fn lemma_all_answered<T>(
    s: BinaryState<T, bool>,
    p: Pair,
    q: Pair,
    i: int,
    j: int,
    said: Seq<Step<bool>>,
    step: Step<T>,
)
    requires
        keeps_up(s, p, i, j, said),
        advances(s, p, q, step),
    ensures
        all_answered(
            Machine::<T, bool>::next(s, Event::Sample(step)),
            said + s.emit(Event::Sample(step)),
        ),
        each_once(said + s.emit(Event::Sample(step))),
        in_order(s.emit(Event::Sample(step))),
{
    let next = Machine::<T, bool>::next(s, Event::Sample(step));
    let out = s.emit(Event::Sample(step));
    let all = said + out;
    lemma_taken(s, p, q, i, j, said, step);
    every_timestamp_is_answered_once(s, step);
    output_is_ordered_and_within_the_horizon(s, step);
    assert forall|k: int| 0 <= k < all.len() implies is_answered(
        next,
        (#[trigger] all[k]).timestamp,
    ) by {
        if k < said.len() {
            assert(all[k] == said[k]);
            assert(is_answered(s, said[k].timestamp));
        } else {
            assert(out[k - said.len()] == all[k]);
        }
    }
    assert forall|k: int, l: int| 0 <= k < l < all.len() implies (#[trigger] all[k]).timestamp != (
    #[trigger] all[l]).timestamp by {
        if l < said.len() {
            assert(all[k] == said[k] && all[l] == said[l]);
        } else {
            assert(all[l] == out[l - said.len()]);
            if k < said.len() {
                assert(all[k] == said[k]);
                assert(is_answered(s, said[k].timestamp));
            } else {
                assert(all[k] == out[k - said.len()]);
            }
        }
    }
}

proof fn lemma_all_said<T>(
    s: BinaryState<T, bool>,
    p: Pair,
    q: Pair,
    i: int,
    j: int,
    said: Seq<Step<bool>>,
    step: Step<T>,
)
    requires
        keeps_up(s, p, i, j, said),
        advances(s, p, q, step),
    ensures
        all_said(
            Machine::<T, bool>::next(s, Event::Sample(step)).ahead,
            said + s.emit(Event::Sample(step)),
        ),
        Machine::<T, bool>::next(s, Event::Sample(step)).mark matches Some(m) ==> reached(
            q.joint(),
            m,
        ),
{
    let taken = s.taken_in(step);
    let out = taken.available();
    let next = taken.answered(out);
    let all = said + out;
    lemma_taken(s, p, q, i, j, said, step);
    lemma_all_answered(s, p, q, i, j, said, step);
    lemma_newest_reached(out, taken.joint());
    if let Some(m) = s.mark {
        assert(reached(newest(q.left), m) && reached(newest(q.right), m));
    }
    assert forall|t: Time| #[trigger] next.ahead.contains(t) implies has_entry_at(all, t) by {
        let wide = taken.ahead + out_of_reach(out, taken.joint());
        lemma_times_after_within(wide, next.mark, t);
        let n = choose|n: int| 0 <= n < wide.len() && wide[n] == t;
        if n < taken.ahead.len() {
            assert(s.ahead.contains(t)) by {
                assert(s.ahead[n] == t);
            }
            let k = choose|k: int| 0 <= k < said.len() && (#[trigger] said[k]).timestamp == t;
            assert(all[k].timestamp == t);
        } else {
            assert(out_of_reach(out, taken.joint())[n - taken.ahead.len()] == t);
            lemma_out_of_reach_within(out, taken.joint(), t);
            let k = choose|k: int| 0 <= k < out.len() && (#[trigger] out[k]).timestamp == t;
            assert(all[said.len() + k].timestamp == t);
        }
    }
}

proof fn lemma_says_everything<T>(
    s: BinaryState<T, bool>,
    p: Pair,
    q: Pair,
    i: int,
    j: int,
    said: Seq<Step<bool>>,
    step: Step<T>,
)
    requires
        keeps_up(s, p, i, j, said),
        advances(s, p, q, step),
    ensures
        says_everything(q, said + s.emit(Event::Sample(step))),
{
    let taken = s.taken_in(step);
    let out = taken.available();
    let all = said + out;
    lemma_taken(s, p, q, i, j, said, step);
    assert forall|t: Time|
        q.both_known(t) && (has_entry_at(q.left, t) || has_entry_at(q.right, t)) implies
        #[trigger] all.contains(Step::spec_new("output", q.combined(t), t)) by {
        lemma_says(s, taken, p, q, i, j, said, t);
        let target = Step::spec_new("output", q.combined(t), t);
        if said.contains(target) {
            let k = choose|k: int| 0 <= k < said.len() && said[k] == target;
            assert(all[k] == target);
        } else {
            let k = choose|k: int| 0 <= k < out.len() && out[k] == target;
            assert(all[said.len() + k] == target);
        }
    }
}

/// A breakpoint at which both operands are known was answered before or is answered now.
proof fn lemma_says<T>(
    s: BinaryState<T, bool>,
    taken: BinaryState<T, bool>,
    p: Pair,
    q: Pair,
    i: int,
    j: int,
    said: Seq<Step<bool>>,
    t: Time,
)
    requires
        keeps_up(s, p, i, j, said),
        q.wf(),
        q.connective == p.connective,
        extends(p.left, q.left),
        extends(p.right, q.right),
        has_taken_in(taken, q, i, j),
        is_forgotten(taken.left_cache, q.left, i, p.joint()),
        is_forgotten(taken.right_cache, q.right, j, p.joint()),
        taken.mark == s.mark,
        taken.ahead == s.ahead,
        taken.wf(),
        q.both_known(t),
        has_entry_at(q.left, t) || has_entry_at(q.right, t),
    ensures
        said.contains(Step::spec_new("output", q.combined(t), t)) || taken.available().contains(
            Step::spec_new("output", q.combined(t), t),
        ),
{
    let target = Step::spec_new("output", q.combined(t), t);
    if reached(p.joint(), t) {
        assert(reached(newest(p.left), t) && reached(newest(p.right), t));
        assert(in_force(q.left, t) == in_force(p.left, t));
        assert(in_force(q.right, t) == in_force(p.right, t));
        assert(has_entry_at(q.left, t) == has_entry_at(p.left, t));
        assert(has_entry_at(q.right, t) == has_entry_at(p.right, t));
        assert(said.contains(Step::spec_new("output", p.combined(t), t)));
    } else if s.ahead.contains(t) {
        let k = choose|k: int| 0 <= k < said.len() && (#[trigger] said[k]).timestamp == t;
        lemma_stays_justified(p, q, said[k]);
        assert(said[k] == target);
    } else {
        lemma_answers_past(taken, q, i, j, p.joint(), t);
        let pairing = taken.pairing();
        let times = pairing.breakpoints(taken.mark);
        lemma_after_mark(taken.left_cache, taken.mark);
        lemma_after_mark(taken.right_cache, taken.mark);
        merged_lists_every_timestamp(
            after_mark(taken.left_cache, taken.mark),
            after_mark(taken.right_cache, taken.mark),
        );
        answers_are_sound_and_complete(pairing, times);
        lemma_unanswered(pairing.answers(times), taken.ahead);
        assert(taken.available().contains(target));
    }
}

/// What both predicates have said over a trace.
pub open spec fn pair_of<V: SignalValue>(
    a: AtomicState<V>,
    b: AtomicState<V>,
    connective: Connective,
    steps: Seq<Step<V>>,
) -> Pair {
    Pair {
        left: verdicts_of::<V, bool>(a, steps),
        right: verdicts_of::<V, bool>(b, steps),
        connective,
    }
}

proof fn lemma_eager_run<V: SignalValue>(
    a: AtomicState<V>,
    b: AtomicState<V>,
    connective: Connective,
    steps: Seq<Step<V>>,
) -> (res: (int, int))
    requires
        is_held(a),
        is_held(b),
        rises_per_signal(steps),
    ensures
        keeps_up(
            run(joined::<V, bool>(a, b, connective, true, false), steps),
            pair_of(a, b, connective, steps),
            res.0,
            res.1,
            streamed(joined::<V, bool>(a, b, connective, true, false), steps),
        ),
        has_operands(
            run(joined::<V, bool>(a, b, connective, true, false), steps),
            a,
            b,
        ),
    decreases steps.len(),
{
    let state = joined::<V, bool>(a, b, connective, true, false);
    let q = pair_of(a, b, connective, steps);
    lemma_verdicts::<V, bool>(a, steps);
    lemma_verdicts::<V, bool>(b, steps);
    if steps.len() == 0 {
        assert(q.left.skip(0) =~= state.left_cache);
        assert(q.right.skip(0) =~= state.right_cache);
        (0, 0)
    } else {
        let before = steps.drop_last();
        let last = steps.last();
        assert(before =~= steps.take(steps.len() - 1));
        lemma_rises_before(steps, steps.len() - 1);
        let (i, j) = lemma_eager_run(a, b, connective, before);
        let s = run(state, before);
        let p = pair_of(a, b, connective, before);
        lemma_operands_next(s, a, b, last);
        lemma_verdicts_grow::<V, bool>(a, steps);
        lemma_verdicts_grow::<V, bool>(b, steps);
        lemma_step(s, p, q, i, j, streamed(state, before), last)
    }
}

/// The operands are two predicates that are handed the samples they read.
spec fn has_operands<V: SignalValue>(
    s: BinaryState<V, bool>,
    a: AtomicState<V>,
    b: AtomicState<V>,
) -> bool {
    s.operands == routed::<V, bool>(a, b)
}

proof fn lemma_operands_next<V: SignalValue>(
    s: BinaryState<V, bool>,
    a: AtomicState<V>,
    b: AtomicState<V>,
    step: Step<V>,
)
    requires
        is_held(a),
        is_held(b),
        has_operands(s, a, b),
    ensures
        has_operands(Machine::<V, bool>::next(s, Event::Sample(step)), a, b),
        s.operands.left_emits(Event::Sample(step)) == (if step.signal@
            == signal_of(a) {
            seq![a.answer::<bool>(step.value, step.timestamp)]
        } else {
            Seq::empty()
        }),
        s.operands.right_emits(Event::Sample(step)) == (if step.signal@
            == signal_of(b) {
            seq![b.answer::<bool>(step.value, step.timestamp)]
        } else {
            Seq::empty()
        }),
        s.operands.next(Event::Sample(step)).left.known_now() is None,
        s.operands.next(Event::Sample(step)).right.known_now() is None,
{
    lemma_emits::<V, bool>(a, b, step);
    lemma_unchanged::<V, bool>(a, b, step);
}

/// What both predicates are known to say is what they say of the values their signals hold.
proof fn lemma_known<V: SignalValue>(
    a: AtomicState<V>,
    b: AtomicState<V>,
    connective: Connective,
    steps: Seq<Step<V>>,
    t: Time,
)
    requires
        rises_per_signal(steps),
    ensures
        ({
            let p = pair_of(a, b, connective, steps);
            let x = signal_of(a);
            let y = signal_of(b);
            &&& t <= MAX_TIME ==> p.both_known(t) == (held_at(steps, x, t) is Some && held_at(
                steps,
                y,
                t,
            ) is Some && reached(joint(last_sample(steps, x), last_sample(steps, y)), t))
            &&& t <= MAX_TIME && p.both_known(t) ==> p.combined(t) == connective.combined(
                a.comparison.verdict::<bool>(a.context, held_at(steps, x, t)->0),
                b.comparison.verdict::<bool>(b.context, held_at(steps, y, t)->0),
            )
            &&& has_entry_at(p.left, t) == is_sampled_at(steps, x, t)
            &&& has_entry_at(p.right, t) == is_sampled_at(steps, y, t)
            &&& has_entry_at(p.left, t) || has_entry_at(p.right, t) ==> t <= MAX_TIME
        }),
{
    let p = pair_of(a, b, connective, steps);
    lemma_verdicts::<V, bool>(a, steps);
    lemma_verdicts::<V, bool>(b, steps);
    assert(t <= MAX_TIME ==> (in_force(p.left, t) is Some) == (held_at(
        steps,
        signal_of(a),
        t,
    ) is Some));
    assert(t <= MAX_TIME ==> (in_force(p.right, t) is Some) == (held_at(
        steps,
        signal_of(b),
        t,
    ) is Some));
    assert(t <= MAX_TIME ==> has_entry_at(p.left, t) == is_sampled_at(steps, signal_of(a), t));
    assert(t <= MAX_TIME ==> has_entry_at(p.right, t) == is_sampled_at(steps, signal_of(b), t));
}

/// Eager and delayed monitoring agree over whole traces. The eager operator never answers a
/// time twice. Everything the delayed one has said of a trace, the eager one has said by then,
/// with the same verdict; and whatever else it has said is the verdict that one operand settles
/// by itself: false for a conjunction, true for a disjunction.
pub proof fn eager_agrees_with_delayed<V: SignalValue>(
    a: AtomicState<V>,
    b: AtomicState<V>,
    connective: Connective,
    steps: Seq<Step<V>>,
)
    requires
        is_held(a),
        is_held(b),
        rises_per_signal(steps),
    ensures
        ({
            let eager = streamed(joined::<V, bool>(a, b, connective, true, false), steps);
            let delayed = streamed(joined::<V, bool>(a, b, connective, false, false), steps);
            &&& each_once(eager)
            &&& forall|k: int| 0 <= k < delayed.len() ==> eager.contains(#[trigger] delayed[k])
            &&& forall|k: int|
                0 <= k < eager.len() ==> delayed.contains(#[trigger] eager[k]) || eager[k].value
                    == connective.settling::<bool>()
        }),
{
    let eager = streamed(joined::<V, bool>(a, b, connective, true, false), steps);
    let delayed = streamed(joined::<V, bool>(a, b, connective, false, false), steps);
    let p = pair_of(a, b, connective, steps);
    lemma_eager_run(a, b, connective, steps);
    lemma_verdicts::<V, bool>(a, steps);
    lemma_verdicts::<V, bool>(b, steps);
    joint_timestamps_are_answered::<V, bool>(a, b, connective, steps);
    assert forall|k: int| 0 <= k < delayed.len() implies eager.contains(#[trigger] delayed[k]) by {
        let t = delayed[k].timestamp;
        assert(has_entry_at(delayed, t));
        lemma_known(a, b, connective, steps, t);
        assert(delayed[k] == Step::spec_new("output", p.combined(t), t));
    }
    assert forall|k: int| 0 <= k < eager.len() implies delayed.contains(#[trigger] eager[k])
        || eager[k].value == connective.settling::<bool>() by {
        let t = eager[k].timestamp;
        assert(p.justifies(eager[k]));
        if eager[k].value != connective.settling::<bool>() {
            assert(p.both_known(t));
            lemma_known(a, b, connective, steps, t);
            assert(has_entry_at(delayed, t));
            let n = choose|n: int| 0 <= n < delayed.len() && (#[trigger] delayed[n]).timestamp == t;
            assert(delayed[n] == eager[k]);
        }
    }
}

} // verus!
