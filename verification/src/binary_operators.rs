//! Binary operators: conjunction and disjunction.
//!
//! Three modes of execution are supported:
//! - delayed (`IS_EAGER = false`, `IS_ROSI = false`),
//! - eager short-circuiting (`IS_EAGER = true`, `IS_ROSI = false`), and
//! - refinable intervals (`IS_ROSI = true`).

use crate::binary_node::{cached, is_usable, joined_profile, BinaryNode, BinaryState};
use crate::memory::{countable, room_for, sum_of};
use crate::operator::{behavior_of, lemma_behavior_of_next, Behavior, Event, Profile};
use crate::operator::StlOperatorAndSignalIdentifier;
use crate::ring_buffer::{all_upto, count_upto, has_entry_at, in_force, in_order};
use crate::ring_buffer::lemma_count_upto;
use crate::ring_buffer::{RingBufferTrait, Step};
use crate::semantics::RobustnessSemantics;
use crate::time::{earlier, later, Time, MAX_TIME};
use crate::time::{max_time, min_time};
use crate::variables::Variables;
use vstd::prelude::*;

verus! {

/// Which of the two operators combines the operands.
#[derive(Debug, Clone, Copy, PartialEq, Eq, Structural)]
pub enum Connective {
    And,
    Or,
}

impl Connective {
    pub open spec fn combined<Y: RobustnessSemantics>(self, l: Y, r: Y) -> Y {
        match self {
            Connective::And => Y::and_spec(l, r),
            Connective::Or => Y::or_spec(l, r),
        }
    }

    /// The verdict of one operand that settles the combination whatever the other one is.
    pub open spec fn settling<Y: RobustnessSemantics>(self) -> Y {
        match self {
            Connective::And => Y::false_spec(),
            Connective::Or => Y::true_spec(),
        }
    }

    pub fn combine<Y: RobustnessSemantics>(self, l: Y, r: Y) -> (res: Y)
        ensures
            res == self.combined(l, r),
    {
        match self {
            Connective::And => Y::and(l, r),
            Connective::Or => Y::or(l, r),
        }
    }

    pub fn short_circuit<Y: RobustnessSemantics>(self) -> (res: Y)
        ensures
            res == self.settling::<Y>(),
    {
        match self {
            Connective::And => Y::atomic_false(),
            Connective::Or => Y::atomic_true(),
        }
    }
}

/// The time up to which both operands have reported, if they both have.
pub open spec fn joint(left: Option<Time>, right: Option<Time>) -> Option<Time> {
    match (left, right) {
        (Some(l), Some(r)) => Some(min_time(l, r)),
        _ => None,
    }
}

/// A frontier capped by how far the operand is free of gaps.
pub open spec fn clamped(frontier: Option<Time>, known: Option<Time>) -> Option<Time> {
    match (frontier, known) {
        (Some(f), Some(bound)) => Some(min_time(f, bound)),
        _ => frontier,
    }
}

/// Whether `ts` lies inside a region that has been reported on.
pub open spec fn reached(frontier: Option<Time>, ts: Time) -> bool {
    match frontier {
        Some(f) => ts <= f,
        None => false,
    }
}

/// The farther of two frontiers.
pub open spec fn farthest(left: Option<Time>, right: Option<Time>) -> Option<Time> {
    match (left, right) {
        (Some(l), Some(r)) => Some(max_time(l, r)),
        (Some(l), None) => Some(l),
        (None, r) => r,
    }
}

/// The timestamp up to which both operands have reported, if they both have.
///
/// `None` for an operand that has produced nothing yet is what separates it from one that
/// has reported at time zero: the first cannot answer anywhere, the second answers there.
pub fn joint_frontier(left: Option<Time>, right: Option<Time>) -> (res: Option<Time>)
    ensures
        res == joint(left, right),
{
    match (left, right) {
        (Some(l), Some(r)) => Some(earlier(l, r)),
        _ => None,
    }
}

/// Caps a frontier by what the operand reports as free of gaps. Without a bound there are no
/// gaps, so there is no cap.
///
/// To be applied after taking the maximum with the newest emitted timestamp: unlike that
/// timestamp the bound does not only rise, and must be able to pull the frontier back when a
/// gap opens.
pub fn clamp_to_known(frontier: Option<Time>, known: Option<Time>) -> (res: Option<Time>)
    ensures
        res == clamped(frontier, known),
{
    match (frontier, known) {
        (Some(f), Some(bound)) => Some(earlier(f, bound)),
        _ => frontier,
    }
}

/// Whether `ts` lies inside the region both operands have reported on.
pub fn within(joint: Option<Time>, ts: Time) -> (res: bool)
    ensures
        res == reached(joint, ts),
{
    match joint {
        Some(frontier) => ts <= frontier,
        None => false,
    }
}

/// The newest timestamp in `output` that `frontier` reaches, by position.
pub open spec fn newest_reached<Y>(output: Seq<Step<Y>>, frontier: Option<Time>) -> Option<Time>
    decreases output.len(),
{
    if output.len() == 0 {
        None
    } else if reached(frontier, output.last().timestamp) {
        Some(output.last().timestamp)
    } else {
        newest_reached(output.drop_last(), frontier)
    }
}

/// The timestamps in `output` that `frontier` does not reach.
pub open spec fn out_of_reach<Y>(output: Seq<Step<Y>>, frontier: Option<Time>) -> Seq<Time>
    decreases output.len(),
{
    if output.len() == 0 {
        Seq::empty()
    } else {
        let head = out_of_reach(output.drop_last(), frontier);
        if reached(frontier, output.last().timestamp) {
            head
        } else {
            head.push(output.last().timestamp)
        }
    }
}

/// The times in `times` that lie after `mark`.
pub open spec fn times_after(times: Seq<Time>, mark: Option<Time>) -> Seq<Time>
    decreases times.len(),
{
    if times.len() == 0 {
        Seq::empty()
    } else {
        let head = times_after(times.drop_last(), mark);
        if reached(mark, times.last()) {
            head
        } else {
            head.push(times.last())
        }
    }
}

/// The watermark after a batch of eager output.
pub open spec fn settled_mark<Y>(
    output: Seq<Step<Y>>,
    joint: Option<Time>,
    mark: Option<Time>,
) -> Option<Time> {
    match newest_reached(output, joint) {
        Some(ts) => Some(ts),
        None => mark,
    }
}

/// The timestamps answered ahead of the watermark after a batch of eager output.
pub open spec fn settled_ahead<Y>(
    output: Seq<Step<Y>>,
    joint: Option<Time>,
    mark: Option<Time>,
    ahead: Seq<Time>,
) -> Seq<Time> {
    times_after(ahead + out_of_reach(output, joint), settled_mark(output, joint, mark))
}

/// Settles the emission watermark for eager mode after a batch of output.
///
/// Advances it to the newest output at or below the joint frontier, and records the
/// timestamps short-circuited past that frontier separately. Those answers are final, but
/// must not move the watermark: the lagging operand can still deliver a breakpoint earlier
/// in time, and the watermark is what would drop it.
pub fn settle_eager_watermark<Y>(
    output: &Vec<Step<Y>>,
    joint: Option<Time>,
    last_eval_time: &mut Option<Time>,
    answered_beyond_joint: &mut Vec<Time>,
)
    ensures
        *final(last_eval_time) == settled_mark(output@, joint, *old(last_eval_time)),
        final(answered_beyond_joint)@ == settled_ahead(
            output@,
            joint,
            *old(last_eval_time),
            old(answered_beyond_joint)@,
        ),
{
    let ghost mark = *last_eval_time;
    let ghost ahead = answered_beyond_joint@;
    let mut i: usize = 0;
    let mut newest: Option<Time> = None;
    assert(output@.take(0) =~= Seq::empty());
    assert(ahead + out_of_reach(output@.take(0), joint) =~= ahead);
    while i < output.len()
        invariant
            i <= output@.len(),
            newest == newest_reached(output@.take(i as int), joint),
            answered_beyond_joint@ == ahead + out_of_reach(output@.take(i as int), joint),
        decreases output@.len() - i,
    {
        let ts: Time = output[i].timestamp;
        proof {
            let longer = output@.take(i + 1);
            assert(longer.drop_last() =~= output@.take(i as int));
            assert(longer.last() == output@[i as int]);
        }
        let ghost before = answered_beyond_joint@;
        if within(joint, ts) {
            newest = Some(ts);
        } else {
            answered_beyond_joint.push(ts);
            assert(before.push(ts) =~= ahead + out_of_reach(output@.take(i + 1), joint));
        }
        i = i + 1;
    }
    assert(output@.take(i as int) =~= output@);
    if newest.is_some() {
        *last_eval_time = newest;
    }
    // Once the watermark reaches a remembered timestamp it suppresses re-emission on its own.
    let ghost all = answered_beyond_joint@;
    let settled: Option<Time> = *last_eval_time;
    let mut kept: Vec<Time> = Vec::new();
    let mut j: usize = 0;
    assert(all.take(0) =~= Seq::empty());
    while j < answered_beyond_joint.len()
        invariant
            answered_beyond_joint@ == all,
            j <= all.len(),
            kept@ == times_after(all.take(j as int), settled),
        decreases all.len() - j,
    {
        let ts: Time = answered_beyond_joint[j];
        proof {
            assert(all.take(j + 1).drop_last() =~= all.take(j as int));
        }
        if !within(settled, ts) {
            kept.push(ts);
        }
        j = j + 1;
    }
    assert(all.take(j as int) =~= all);
    *answered_beyond_joint = kept;
}

/// One side of a binary operator: the cache of what that operand has emitted, and what is
/// needed to read a value back out of it correctly.
pub struct Operand<'a, C> {
    pub cache: &'a C,
    /// Newest timestamp the operand has produced a value for. Its output is known up to
    /// here and no further.
    pub frontier: Option<Time>,
    /// How far the operand looks ahead, which for a temporal operator is the distance from
    /// its window end back to the evaluation timestamp.
    pub lookahead: Time,
}

/// One side of a binary operator.
pub struct OperandView<Y> {
    pub cache: Seq<Step<Y>>,
    pub frontier: Option<Time>,
    pub lookahead: Time,
}

impl<Y: RobustnessSemantics> OperandView<Y> {
    pub open spec fn wf(self) -> bool {
        &&& in_order(self.cache)
        &&& all_upto(self.cache, MAX_TIME)
        &&& self.lookahead <= MAX_TIME
    }

    /// What the operand is worth at `ts`. Under refinable semantics a value the operand may
    /// still refine counts as unknown.
    pub open spec fn read(self, rosi: bool, ts: Time) -> Option<Y> {
        if !reached(self.frontier, ts) {
            None
        } else if rosi && ts + self.lookahead > self.frontier->0 {
            Some(Y::unknown_spec())
        } else {
            match in_force(self.cache, ts) {
                Some(entry) => Some(entry.value),
                None => None,
            }
        }
    }
}

impl<'a, C: RingBufferTrait> Operand<'a, C> {
    pub open spec fn view(&self) -> OperandView<C::Value> {
        OperandView {
            cache: self.cache.entries(),
            frontier: self.frontier,
            lookahead: self.lookahead,
        }
    }
}

/// Reads what an operand is worth at `ts`, through the cache of its emissions.
///
/// An operand's output is piecewise constant with breakpoints exactly where it emits, so a
/// zero-order-hold read of the cache is exact, but only up to `frontier - lookahead`.
/// Past that mark the operand's own window is still open at `ts`, so the value it emitted
/// below `ts` is refinable, and holding it forward would pass on a finality the operand
/// never claimed.
pub fn read_operand<C, Y, const IS_ROSI: bool>(operand: &Operand<'_, C>, ts: Time) -> (res: Option<
    Y,
>) where C: RingBufferTrait<Value = Y>, Y: RobustnessSemantics
    requires
        operand.view().wf(),
        ts <= MAX_TIME,
    ensures
        res == operand.view().read(IS_ROSI, ts),
{
    if !within(operand.frontier, ts) {
        return None;
    }
    if IS_ROSI {
        if let Some(bound) = operand.frontier {
            if ts + operand.lookahead > bound {
                return Some(Y::unknown());
            }
        }
    }
    match operand.cache.zoh_at(ts) {
        Some(entry) => Some(entry.value),
        None => None,
    }
}

/// The distinct timestamps of two caches in time order.
pub open spec fn merged<Y>(l: Seq<Step<Y>>, r: Seq<Step<Y>>) -> Seq<Time>
    decreases l.len() + r.len(),
{
    if l.len() == 0 && r.len() == 0 {
        Seq::empty()
    } else if r.len() == 0 || (l.len() > 0 && l[0].timestamp < r[0].timestamp) {
        seq![l[0].timestamp] + merged(l.skip(1), r)
    } else if l.len() == 0 || r[0].timestamp < l[0].timestamp {
        seq![r[0].timestamp] + merged(l, r.skip(1))
    } else {
        seq![l[0].timestamp] + merged(l.skip(1), r.skip(1))
    }
}

/// What becomes of one timestamp.
pub enum Answer<Y> {
    /// It is answered.
    Emit(Y),
    /// It is passed over.
    Skip,
    /// It has to wait, and so does every later one.
    Stop,
}

/// Two operands, how they are combined, and in which mode.
pub struct Pairing<Y> {
    pub left: OperandView<Y>,
    pub right: OperandView<Y>,
    pub connective: Connective,
    pub eager: bool,
    pub rosi: bool,
}

impl<Y: RobustnessSemantics> Pairing<Y> {
    pub open spec fn joint(self) -> Option<Time> {
        joint(self.left.frontier, self.right.frontier)
    }

    /// The time past which nothing can be answered.
    pub open spec fn horizon(self) -> Option<Time> {
        if self.eager && !self.rosi {
            farthest(self.left.frontier, self.right.frontier)
        } else {
            self.joint()
        }
    }

    /// What becomes of `ts`: the combination where both operands are known, and past the
    /// joint frontier the one verdict that settles it by itself.
    pub open spec fn answer(self, ts: Time) -> Answer<Y> {
        match (self.left.read(self.rosi, ts), self.right.read(self.rosi, ts)) {
            (Some(l), Some(r)) => Answer::Emit(self.connective.combined(l, r)),
            (None, None) => Answer::Skip,
            (Some(v), None) => self.answer_alone(v, ts),
            (None, Some(v)) => self.answer_alone(v, ts),
        }
    }

    pub open spec fn answer_alone(self, v: Y, ts: Time) -> Answer<Y> {
        if reached(self.joint(), ts) {
            Answer::Skip
        } else if Y::same_spec(self.connective.settling::<Y>(), v) {
            Answer::Emit(v)
        } else {
            Answer::Stop
        }
    }

    /// The answers at `times`, up to the first one that has to wait.
    pub open spec fn answers(self, times: Seq<Time>) -> Seq<Step<Y>>
        decreases times.len(),
    {
        if times.len() == 0 || !reached(self.horizon(), times[0]) {
            Seq::empty()
        } else {
            let rest = self.answers(times.skip(1));
            match self.answer(times[0]) {
                Answer::Emit(v) => seq![Step::spec_new("output", v, times[0])] + rest,
                Answer::Skip => rest,
                Answer::Stop => Seq::empty(),
            }
        }
    }

    /// The breakpoints of either operand after `mark`, in time order.
    pub open spec fn breakpoints(self, mark: Option<Time>) -> Seq<Time> {
        merged(after_mark(self.left.cache, mark), after_mark(self.right.cache, mark))
    }
}

/// The entries of an ordered cache after `mark`.
pub open spec fn after_mark<Y>(s: Seq<Step<Y>>, mark: Option<Time>) -> Seq<Step<Y>> {
    match mark {
        Some(ts) => s.skip(count_upto(s, ts) as int),
        None => s,
    }
}

/// What lies after the mark of an ordered cache is ordered and later than the mark.
pub proof fn lemma_after_mark<Y>(s: Seq<Step<Y>>, mark: Option<Time>)
    requires
        in_order(s),
    ensures
        in_order(after_mark(s, mark)),
        forall|bound: Time| all_upto(s, bound) ==> #[trigger] all_upto(after_mark(s, mark), bound),
        forall|t: Time| #[trigger]
            has_entry_at(after_mark(s, mark), t) <==> has_entry_at(s, t) && !reached(mark, t),
{
    if let Some(ts) = mark {
        lemma_count_upto(s, ts);
        let n = count_upto(s, ts) as int;
        let tail = s.skip(n);
        assert forall|t: Time| #[trigger]
            has_entry_at(tail, t) <==> has_entry_at(s, t) && !reached(mark, t) by {
            if has_entry_at(tail, t) {
                let i = choose|i: int| 0 <= i < tail.len() && (#[trigger] tail[i]).timestamp == t;
                assert(s[n + i].timestamp == t);
            }
            if has_entry_at(s, t) && !reached(mark, t) {
                let i = choose|i: int| 0 <= i < s.len() && (#[trigger] s[i]).timestamp == t;
                assert(tail[i - n].timestamp == t);
            }
        }
    }
}

/// The times rise strictly.
pub open spec fn rising(times: Seq<Time>) -> bool {
    forall|i: int, j: int| 0 <= i < j < times.len() ==> times[i] < times[j]
}

/// Merging lists every timestamp of either cache exactly once, in time order.
pub proof fn merged_lists_every_timestamp<Y>(l: Seq<Step<Y>>, r: Seq<Step<Y>>)
    requires
        in_order(l),
        in_order(r),
    ensures
        rising(merged(l, r)),
        forall|t: Time| #[trigger]
            merged(l, r).contains(t) <==> has_entry_at(l, t) || has_entry_at(r, t),
    decreases l.len() + r.len(),
{
    let times = merged(l, r);
    if l.len() == 0 && r.len() == 0 {
        assert(times =~= Seq::empty());
    } else {
        let take_left = r.len() == 0 || (l.len() > 0 && l[0].timestamp <= r[0].timestamp);
        let take_right = l.len() == 0 || (r.len() > 0 && r[0].timestamp <= l[0].timestamp);
        let l2 = if take_left {
            l.skip(1)
        } else {
            l
        };
        let r2 = if take_right {
            r.skip(1)
        } else {
            r
        };
        let first = if take_left {
            l[0].timestamp
        } else {
            r[0].timestamp
        };
        let rest = merged(l2, r2);
        assert(times =~= seq![first] + rest);
        assert(in_order(l2) && in_order(r2));
        merged_lists_every_timestamp(l2, r2);
        assert forall|t: Time| has_entry_at(l2, t) || has_entry_at(r2, t) implies first < t by {
            if has_entry_at(l2, t) {
                let i = choose|i: int| 0 <= i < l2.len() && (#[trigger] l2[i]).timestamp == t;
                assert(l2[i] == l[if take_left {
                    i + 1
                } else {
                    i
                }]);
            } else {
                let i = choose|i: int| 0 <= i < r2.len() && (#[trigger] r2[i]).timestamp == t;
                assert(r2[i] == r[if take_right {
                    i + 1
                } else {
                    i
                }]);
            }
        }
        assert forall|i: int, j: int| 0 <= i < j < times.len() implies times[i] < times[j] by {
            assert(rest.contains(rest[j - 1]));
            if i > 0 {
                assert(times[i] == rest[i - 1]);
            }
        }
        assert forall|t: Time| #[trigger]
            times.contains(t) <==> has_entry_at(l, t) || has_entry_at(r, t) by {
            if times.contains(t) {
                let k = choose|k: int| 0 <= k < times.len() && times[k] == t;
                if k == 0 {
                    assert(take_left ==> l[0].timestamp == t);
                    assert(!take_left ==> r[0].timestamp == t);
                } else {
                    assert(rest[k - 1] == t);
                    assert(rest.contains(t));
                }
            }
            lemma_has_entry_skip(l, t);
            lemma_has_entry_skip(r, t);
            if has_entry_at(l, t) || has_entry_at(r, t) {
                if t == first {
                    assert(times[0] == t);
                } else {
                    assert(rest.contains(t));
                    let k = choose|k: int| 0 <= k < rest.len() && rest[k] == t;
                    assert(times[k + 1] == t);
                }
            }
        }
    }
}

/// An entry is the first one or among the rest.
proof fn lemma_has_entry_skip<Y>(s: Seq<Step<Y>>, t: Time)
    ensures
        s.len() > 0 ==> (has_entry_at(s, t) <==> s[0].timestamp == t || has_entry_at(
            s.skip(1),
            t,
        )),
{
    if has_entry_at(s, t) {
        let i = choose|i: int| 0 <= i < s.len() && (#[trigger] s[i]).timestamp == t;
        if i > 0 {
            assert(s.skip(1)[i - 1].timestamp == t);
        }
    }
    if s.len() > 0 && has_entry_at(s.skip(1), t) {
        let i = choose|i: int| 0 <= i < s.skip(1).len() && (#[trigger] s.skip(1)[i]).timestamp == t;
        assert(s[i + 1].timestamp == t);
    }
}

/// Every answer is given at one of the times asked for and within the horizon, carries the
/// verdict for that time, and answers come in time order. Nothing within the joint frontier
/// that has a verdict is left out.
pub proof fn answers_are_sound_and_complete<Y: RobustnessSemantics>(
    pairing: Pairing<Y>,
    times: Seq<Time>,
)
    requires
        rising(times),
    ensures
        in_order(pairing.answers(times)),
        forall|k: int|
            0 <= k < pairing.answers(times).len() ==> {
                let step = #[trigger] pairing.answers(times)[k];
                &&& times.contains(step.timestamp)
                &&& reached(pairing.horizon(), step.timestamp)
                &&& pairing.answer(step.timestamp) == Answer::Emit(step.value)
                &&& step == Step::spec_new("output", step.value, step.timestamp)
            },
        forall|i: int|
            0 <= i < times.len() && reached(pairing.joint(), #[trigger] times[i])
                && pairing.answer(times[i]) is Emit ==> pairing.answers(times).contains(
                Step::spec_new("output", pairing.answer(times[i])->Emit_0, times[i]),
            ),
    decreases times.len(),
{
    let out = pairing.answers(times);
    if times.len() > 0 && reached(pairing.horizon(), times[0]) {
        let tail = times.skip(1);
        let rest = pairing.answers(tail);
        assert(rising(tail));
        answers_are_sound_and_complete(pairing, tail);
        assert forall|k: int| 0 <= k < rest.len() implies times.contains(
            (#[trigger] rest[k]).timestamp,
        ) && times[0] < rest[k].timestamp by {
            let m = choose|m: int| 0 <= m < tail.len() && tail[m] == rest[k].timestamp;
            assert(times[m + 1] == rest[k].timestamp);
        }
        assert(times.contains(times[0]));
        match pairing.answer(times[0]) {
            Answer::Emit(v) => {
                assert(out =~= seq![Step::spec_new("output", v, times[0])] + rest);
                assert forall|k: int| 0 < k < out.len() implies #[trigger] out[k] == rest[k - 1] by {
                }
            },
            Answer::Skip => {},
            Answer::Stop => {},
        }
        assert forall|i: int|
            0 <= i < times.len() && reached(pairing.joint(), #[trigger] times[i])
                && pairing.answer(times[i]) is Emit implies out.contains(
            Step::spec_new("output", pairing.answer(times[i])->Emit_0, times[i]),
        ) by {
            assert(times[0] <= times[i]);
            assert(reached(pairing.joint(), times[0]));
            if i > 0 {
                assert(tail[i - 1] == times[i]);
                let wanted = Step::spec_new("output", pairing.answer(times[i])->Emit_0, times[i]);
                assert(rest.contains(wanted));
                let m = choose|m: int| 0 <= m < rest.len() && rest[m] == wanted;
                if pairing.answer(times[0]) is Emit {
                    assert(out[m + 1] == wanted);
                } else {
                    assert(out[m] == wanted);
                }
            } else {
                assert(out[0] == Step::spec_new(
                    "output",
                    pairing.answer(times[0])->Emit_0,
                    times[0],
                ));
            }
        }
    } else {
        assert forall|i: int|
            0 <= i < times.len() && reached(pairing.joint(), #[trigger] times[i]) implies reached(
            pairing.horizon(),
            times[0],
        ) by {
            assert(times[0] <= times[i]);
        }
    }
}

/// Combines two operands at every breakpoint of either one.
///
/// Both operands are piecewise constant between the steps they emit, so the combination is
/// piecewise constant too and its breakpoints are the union of theirs. Each operand is
/// therefore read at the breakpoints of the other under zero-order hold.
///
/// A timestamp is answered once both operands are known there, that is up to the older of the
/// two frontiers. Eager mode may decide a timestamp past it from one operand alone.
pub fn process_binary<C, Y, const IS_EAGER: bool, const IS_ROSI: bool>(
    left: &Operand<'_, C>,
    right: &Operand<'_, C>,
    start_after: Option<Time>,
    connective: Connective,
) -> (output: Vec<Step<Y>>) where C: RingBufferTrait<Value = Y>, Y: RobustnessSemantics
    requires
        left.view().wf(),
        right.view().wf(),
    ensures
        ({
            let pairing = Pairing {
                left: left.view(),
                right: right.view(),
                connective,
                eager: IS_EAGER,
                rosi: IS_ROSI,
            };
            output@ == pairing.answers(pairing.breakpoints(start_after))
        }),
{
    let ghost pairing = Pairing {
        left: left.view(),
        right: right.view(),
        connective,
        eager: IS_EAGER,
        rosi: IS_ROSI,
    };
    let ghost lc = left.cache.entries();
    let ghost rc = right.cache.entries();
    let mut output: Vec<Step<Y>> = Vec::new();
    let joint: Option<Time> = joint_frontier(left.frontier, right.frontier);
    let horizon: Option<Time> = if IS_EAGER && !IS_ROSI {
        match (left.frontier, right.frontier) {
            (Some(l), Some(r)) => Some(later(l, r)),
            (Some(l), None) => Some(l),
            (None, r) => r,
        }
    } else {
        joint
    };
    // Breakpoints at or before `start_after` have been answered already, so the walk starts
    // past them and costs only what is new.
    let mut i: usize = match start_after {
        Some(ts) => left.cache.partition_point(ts),
        None => 0,
    };
    let mut j: usize = match start_after {
        Some(ts) => right.cache.partition_point(ts),
        None => 0,
    };
    let n: usize = left.cache.len();
    let m: usize = right.cache.len();
    let settling: Y = connective.short_circuit();
    proof {
        assert(lc.skip(0) =~= lc);
        assert(rc.skip(0) =~= rc);
        assert(output@ + pairing.answers(merged(lc.skip(i as int), rc.skip(j as int)))
            =~= pairing.answers(pairing.breakpoints(start_after)));
    }
    while i < n || j < m
        invariant
            n == lc.len(),
            m == rc.len(),
            i <= n,
            j <= m,
            lc == left.cache.entries(),
            rc == right.cache.entries(),
            left.view().wf(),
            right.view().wf(),
            pairing == (Pairing {
                left: left.view(),
                right: right.view(),
                connective,
                eager: IS_EAGER,
                rosi: IS_ROSI,
            }),
            joint == pairing.joint(),
            horizon == pairing.horizon(),
            settling == connective.settling::<Y>(),
            output@ + pairing.answers(merged(lc.skip(i as int), rc.skip(j as int)))
                == pairing.answers(pairing.breakpoints(start_after)),
        decreases n - i + m - j,
    {
        let ghost times = merged(lc.skip(i as int), rc.skip(j as int));
        let ghost before = output@;
        // Walk the union of the two breakpoint sets, consuming both where they coincide.
        let take_left: bool = j == m || (i < n && left.cache.get(i).timestamp <= right.cache.get(
            j,
        ).timestamp);
        let take_right: bool = i == n || (j < m && right.cache.get(j).timestamp
            <= left.cache.get(i).timestamp);
        let ts: Time = if take_left {
            left.cache.get(i).timestamp
        } else {
            right.cache.get(j).timestamp
        };
        proof {
            assert(i < n ==> lc.skip(i as int).skip(1) =~= lc.skip(i + 1));
            assert(j < m ==> rc.skip(j as int).skip(1) =~= rc.skip(j + 1));
        }
        if take_left {
            i = i + 1;
        }
        if take_right {
            j = j + 1;
        }
        proof {
            assert(times[0] == ts);
            assert(times.skip(1) =~= merged(lc.skip(i as int), rc.skip(j as int)));
        }
        let ghost rest = pairing.answers(merged(lc.skip(i as int), rc.skip(j as int)));
        if !within(horizon, ts) {
            assert(before + Seq::<Step<Y>>::empty() =~= before);
            return output;
        }
        let left_value: Option<Y> = read_operand::<C, Y, IS_ROSI>(left, ts);
        let right_value: Option<Y> = read_operand::<C, Y, IS_ROSI>(right, ts);
        let alone: Y = match (left_value, right_value) {
            (Some(l), Some(r)) => {
                let value: Y = connective.combine(l, r);
                output.push(Step::new("output", value, ts));
                assert(before + (seq![Step::spec_new("output", value, ts)] + rest) =~= output@
                    + rest);
                continue ;
            },
            (None, None) => {
                continue ;
            },
            (Some(value), None) => value,
            (None, Some(value)) => value,
        };
        // Where both operands have reported, one cache no longer holds the value in force:
        // it was pruned, which happens only once `ts` was answered.
        if within(joint, ts) {
            continue ;
        }
        // Past the joint frontier, so this is eager mode running ahead on one operand. A
        // conjunction is already false, and a disjunction already true, if that operand is.
        // Otherwise the answer has to wait, and so does every later one.
        if !settling.same(&alone) {
            assert(before + Seq::<Step<Y>>::empty() =~= before);
            return output;
        }
        output.push(Step::new("output", alone, ts));
        assert(before + (seq![Step::spec_new("output", alone, ts)] + rest) =~= output@ + rest);
    }
    proof {
        assert(lc.skip(i as int) =~= Seq::empty());
        assert(rc.skip(j as int) =~= Seq::empty());
        assert(output@ + Seq::<Step<Y>>::empty() =~= output@);
    }
    output
}

/// Logical conjunction.
///
/// Combines the verdicts of two operands with [`RobustnessSemantics::and`].
#[verifier::reject_recursive_types(T)]
#[verifier::reject_recursive_types(Y)]
pub struct And<T, C, Y, const IS_EAGER: bool, const IS_ROSI: bool> {
    node: BinaryNode<T, C, Y, IS_EAGER, IS_ROSI>,
}

impl<T, C, Y, const IS_EAGER: bool, const IS_ROSI: bool> And<T, C, Y, IS_EAGER, IS_ROSI> where
    C: RingBufferTrait<Value = Y>,
    Y: RobustnessSemantics,
 {
    pub closed spec fn state(&self) -> BinaryState<T, Y> {
        self.node.state()
    }

    /// Whether the left operand has the variables it needs for `step`.
    pub closed spec fn left_ready(&self, step: Step<T>) -> bool {
        self.node.left_ready(step)
    }

    /// Whether the right operand has the variables it needs for `step`.
    pub closed spec fn right_ready(&self, step: Step<T>) -> bool {
        self.node.right_ready(step)
    }

    /// A step can be evaluated just if the operands that it reaches can: those that read its
    /// signal, and both while it is not known what they read.
    pub proof fn readiness_is_that_of_the_operands_reached(&self, step: Step<T>)
        ensures
            ({
                let operands = self.state().operands;
                let left = operands.left_signals;
                let right = operands.right_signals;
                let empty = Set::<Seq<char>>::empty();
                self.ready(step) <==> (left.contains(step.signal@) || left == empty
                    ==> self.left_ready(step)) && (right.contains(step.signal@) || right == empty
                    ==> self.right_ready(step))
            }),
    {
        self.node.readiness_is_that_of_the_operands_reached(step);
    }

    /// Whether `bytes` is an estimate of the memory the left operand uses.
    pub closed spec fn left_takes(&self, bytes: usize) -> bool {
        self.node.left_takes(bytes)
    }

    /// Whether `bytes` is an estimate of the memory the right operand uses.
    pub closed spec fn right_takes(&self, bytes: usize) -> bool {
        self.node.right_takes(bytes)
    }

    /// An estimate of the memory in use includes the operator itself, both operands and both
    /// caches.
    pub proof fn estimate_includes_operands(&self, bytes: usize)
        requires
            self.takes(bytes),
        ensures
            exists|left: usize, right: usize|
                #[trigger] self.left_takes(left) && #[trigger] self.right_takes(right) && bytes
                    >= countable(
                    vstd::layout::size_of::<Self>() + left + right + (self.state().left_cache.len()
                        + self.state().right_cache.len()) * vstd::layout::size_of::<Step<Y>>(),
                ),
    {
        let node = choose|node: usize| #[trigger]
            self.node.takes(node) && bytes == countable(
                (vstd::layout::size_of::<Self>() + node) as int,
            );
        self.node.lemma_takes(node);
        let (left, right) = choose|left: usize, right: usize|
            #[trigger] self.node.left_takes(left) && #[trigger] self.node.right_takes(right) && node
                >= countable(
                left + right + (self.state().left_cache.len() + self.state().right_cache.len())
                    * vstd::layout::size_of::<Step<Y>>(),
            );
        assert(self.left_takes(left) && self.right_takes(right));
    }

    /// The operator takes its own size, what its operands take, and room for the verdicts it
    /// keeps, for the times it answered ahead, and for the names of the signals its operands
    /// read.
    pub proof fn memory_is_that_of_its_parts(&self, bytes: usize)
        requires
            self.wf(),
            self.takes(bytes),
        ensures
            exists|left: usize, right: usize, kept: (usize, usize), ahead: usize|
                {
                    &&& #[trigger] self.left_takes(left)
                    &&& #[trigger] self.right_takes(right)
                    &&& #[trigger] room_for(
                        kept.0,
                        self.state().left_cache.len(),
                        vstd::layout::size_of::<Step<Y>>(),
                    )
                    &&& #[trigger] room_for(
                        kept.1,
                        self.state().right_cache.len(),
                        vstd::layout::size_of::<Step<Y>>(),
                    )
                    &&& #[trigger] room_for(
                        ahead,
                        self.state().ahead.len(),
                        vstd::layout::size_of::<Time>(),
                    )
                    &&& bytes == countable(
                        vstd::layout::size_of::<Self>() + left + right + (
                        self.state().operands.left_signals.len() + self.state().operands.right_signals.len()) * (
                        vstd::layout::size_of::<&'static str>() + 1) + kept.0 + kept.1 + ahead,
                    )
                },
    {
        let node = choose|node: usize| #[trigger]
            self.node.takes(node) && bytes == countable(
                (vstd::layout::size_of::<Self>() + node) as int,
            );
        self.node.memory_is_that_of_its_parts(node);
        let s = self.state();
        let step = vstd::layout::size_of::<Step<Y>>();
        let names = (s.operands.left_signals.len() + s.operands.right_signals.len()) * (
        vstd::layout::size_of::<&'static str>() + 1);
        let (left, right, kept, ahead) = choose|
            left: usize,
            right: usize,
            kept: (usize, usize),
            ahead: usize,
        |
            {
                &&& #[trigger] self.node.left_takes(left)
                &&& #[trigger] self.node.right_takes(right)
                &&& #[trigger] room_for(kept.0, s.left_cache.len(), step)
                &&& #[trigger] room_for(kept.1, s.right_cache.len(), step)
                &&& #[trigger] room_for(ahead, s.ahead.len(), vstd::layout::size_of::<Time>())
                &&& node == countable(left + right + names + kept.0 + kept.1 + ahead)
            };
        assert(self.left_takes(left) && self.right_takes(right));
        assert(room_for(kept.0, s.left_cache.len(), step));
        assert(room_for(kept.1, s.right_cache.len(), step));
    }

    /// The mode is the one that the type says.
    pub proof fn lemma_mode(&self)
        requires
            self.wf(),
        ensures
            self.state().eager == IS_EAGER,
            self.state().rosi == IS_ROSI,
            self.state().connective == Connective::And,
            self.state().wf(),
    {
        self.node.lemma_mode();
    }

    /// Creates a conjunction of two operands.
    ///
    /// If caches are `None`, empty caches are created.
    pub fn new(
        left: Box<dyn StlOperatorAndSignalIdentifier<T, Y>>,
        right: Box<dyn StlOperatorAndSignalIdentifier<T, Y>>,
        left_cache: Option<C>,
        right_cache: Option<C>,
    ) -> (res: Self)
        requires
            left.wf(),
            right.wf(),
            is_usable(left_cache),
            is_usable(right_cache),
        ensures
            res.wf(),
            res.state() == BinaryState::<T, Y>::initial(
                left.behavior(),
                right.behavior(),
                left.profile(),
                right.profile(),
                cached(left_cache),
                cached(right_cache),
                Connective::And,
                IS_EAGER,
                IS_ROSI,
            ),
            res.profile() == joined_profile(left.profile(), right.profile(), " ∧ "@),
            forall|s: Step<T>| res.ready(s) == (left.ready(s) && right.ready(s)),
            forall|s: Step<T>| #[trigger] res.left_ready(s) == left.ready(s),
            forall|s: Step<T>| #[trigger] res.right_ready(s) == right.ready(s),
            forall|b: usize| #[trigger] res.left_takes(b) == left.takes(b),
            forall|b: usize| #[trigger] res.right_takes(b) == right.takes(b),
    {
        let children = (left, right);
        And { node: BinaryNode::new(children, left_cache, right_cache, Connective::And) }
    }
}

impl<
    T,
    C,
    Y,
    const IS_EAGER: bool,
    const IS_ROSI: bool,
> StlOperatorAndSignalIdentifier<T, Y> for And<T, C, Y, IS_EAGER, IS_ROSI> where
    C: RingBufferTrait<Value = Y>,
    Y: RobustnessSemantics,
 {
    closed spec fn wf(&self) -> bool {
        self.node.wf() && self.node.state().connective == Connective::And
    }

    open spec fn behavior(&self) -> Behavior<T, Y> {
        behavior_of(self.state())
    }

    /// The operands stand in brackets with `∧` between them.
    closed spec fn profile(&self) -> Profile {
        joined_profile(self.node.left_profile(), self.node.right_profile(), " ∧ "@)
    }

    closed spec fn ready(&self, step: Step<T>) -> bool {
        self.node.ready(step)
    }

    closed spec fn takes(&self, bytes: usize) -> bool {
        exists|node: usize| #[trigger]
            self.node.takes(node) && bytes == countable(
                (vstd::layout::size_of::<Self>() + node) as int,
            )
    }

    /// Hands a sample to both operands and emits what can be answered.
    ///
    /// - delayed: final verdicts only,
    /// - eager: may short-circuit on `false`,
    /// - refinable: verdicts at timestamps already answered may be refined.
    fn update(&mut self, step: &Step<T>) -> (out: Vec<Step<Y>>) {
        proof {
            lemma_behavior_of_next(self.node.state(), Event::Sample(*step));
        }
        self.node.update(step)
    }

    fn get_max_lookahead(&self) -> (res: Time) {
        self.node.get_max_lookahead()
    }

    fn known_through(&self) -> (res: Option<Time>) {
        proof {
            lemma_behavior_of_next(self.node.state(), Event::<T>::Reset);
        }
        self.node.known_through()
    }

    fn reset(&mut self) {
        proof {
            lemma_behavior_of_next(self.node.state(), Event::<T>::Reset);
        }
        self.node.reset();
    }

    fn get_signal_identifiers(&mut self) -> (res: Vec<&'static str>) {
        proof {
            lemma_behavior_of_next(self.node.state(), Event::<T>::Route);
        }
        self.node.get_signal_identifiers()
    }

    fn bind(&mut self, vars: &Variables<T>) {
        proof {
            lemma_behavior_of_next(self.node.state(), Event::Bind(vars@));
        }
        self.node.bind(vars);
    }

    fn missing_variable(&self, step: &Step<T>) -> (res: Option<&'static str>) {
        self.node.missing_variable(step)
    }

    fn total_size(&self) -> (res: usize) {
        sum_of(core::mem::size_of::<Self>(), self.node.total_size())
    }

    fn push_text(&self, text: &mut String) {
        self.node.push_text(text, " ∧ ");
    }
}

/// Logical disjunction.
///
/// Combines the verdicts of two operands with [`RobustnessSemantics::or`].
#[verifier::reject_recursive_types(T)]
#[verifier::reject_recursive_types(Y)]
pub struct Or<T, C, Y, const IS_EAGER: bool, const IS_ROSI: bool> {
    node: BinaryNode<T, C, Y, IS_EAGER, IS_ROSI>,
}

impl<T, C, Y, const IS_EAGER: bool, const IS_ROSI: bool> Or<T, C, Y, IS_EAGER, IS_ROSI> where
    C: RingBufferTrait<Value = Y>,
    Y: RobustnessSemantics,
 {
    pub closed spec fn state(&self) -> BinaryState<T, Y> {
        self.node.state()
    }

    /// Whether the left operand has the variables it needs for `step`.
    pub closed spec fn left_ready(&self, step: Step<T>) -> bool {
        self.node.left_ready(step)
    }

    /// Whether the right operand has the variables it needs for `step`.
    pub closed spec fn right_ready(&self, step: Step<T>) -> bool {
        self.node.right_ready(step)
    }

    /// A step can be evaluated just if the operands that it reaches can: those that read its
    /// signal, and both while it is not known what they read.
    pub proof fn readiness_is_that_of_the_operands_reached(&self, step: Step<T>)
        ensures
            ({
                let operands = self.state().operands;
                let left = operands.left_signals;
                let right = operands.right_signals;
                let empty = Set::<Seq<char>>::empty();
                self.ready(step) <==> (left.contains(step.signal@) || left == empty
                    ==> self.left_ready(step)) && (right.contains(step.signal@) || right == empty
                    ==> self.right_ready(step))
            }),
    {
        self.node.readiness_is_that_of_the_operands_reached(step);
    }

    /// Whether `bytes` is an estimate of the memory the left operand uses.
    pub closed spec fn left_takes(&self, bytes: usize) -> bool {
        self.node.left_takes(bytes)
    }

    /// Whether `bytes` is an estimate of the memory the right operand uses.
    pub closed spec fn right_takes(&self, bytes: usize) -> bool {
        self.node.right_takes(bytes)
    }

    /// An estimate of the memory in use includes the operator itself, both operands and both
    /// caches.
    pub proof fn estimate_includes_operands(&self, bytes: usize)
        requires
            self.takes(bytes),
        ensures
            exists|left: usize, right: usize|
                #[trigger] self.left_takes(left) && #[trigger] self.right_takes(right) && bytes
                    >= countable(
                    vstd::layout::size_of::<Self>() + left + right + (self.state().left_cache.len()
                        + self.state().right_cache.len()) * vstd::layout::size_of::<Step<Y>>(),
                ),
    {
        let node = choose|node: usize| #[trigger]
            self.node.takes(node) && bytes == countable(
                (vstd::layout::size_of::<Self>() + node) as int,
            );
        self.node.lemma_takes(node);
        let (left, right) = choose|left: usize, right: usize|
            #[trigger] self.node.left_takes(left) && #[trigger] self.node.right_takes(right) && node
                >= countable(
                left + right + (self.state().left_cache.len() + self.state().right_cache.len())
                    * vstd::layout::size_of::<Step<Y>>(),
            );
        assert(self.left_takes(left) && self.right_takes(right));
    }

    /// The operator takes its own size, what its operands take, and room for the verdicts it
    /// keeps, for the times it answered ahead, and for the names of the signals its operands
    /// read.
    pub proof fn memory_is_that_of_its_parts(&self, bytes: usize)
        requires
            self.wf(),
            self.takes(bytes),
        ensures
            exists|left: usize, right: usize, kept: (usize, usize), ahead: usize|
                {
                    &&& #[trigger] self.left_takes(left)
                    &&& #[trigger] self.right_takes(right)
                    &&& #[trigger] room_for(
                        kept.0,
                        self.state().left_cache.len(),
                        vstd::layout::size_of::<Step<Y>>(),
                    )
                    &&& #[trigger] room_for(
                        kept.1,
                        self.state().right_cache.len(),
                        vstd::layout::size_of::<Step<Y>>(),
                    )
                    &&& #[trigger] room_for(
                        ahead,
                        self.state().ahead.len(),
                        vstd::layout::size_of::<Time>(),
                    )
                    &&& bytes == countable(
                        vstd::layout::size_of::<Self>() + left + right + (
                        self.state().operands.left_signals.len() + self.state().operands.right_signals.len()) * (
                        vstd::layout::size_of::<&'static str>() + 1) + kept.0 + kept.1 + ahead,
                    )
                },
    {
        let node = choose|node: usize| #[trigger]
            self.node.takes(node) && bytes == countable(
                (vstd::layout::size_of::<Self>() + node) as int,
            );
        self.node.memory_is_that_of_its_parts(node);
        let s = self.state();
        let step = vstd::layout::size_of::<Step<Y>>();
        let names = (s.operands.left_signals.len() + s.operands.right_signals.len()) * (
        vstd::layout::size_of::<&'static str>() + 1);
        let (left, right, kept, ahead) = choose|
            left: usize,
            right: usize,
            kept: (usize, usize),
            ahead: usize,
        |
            {
                &&& #[trigger] self.node.left_takes(left)
                &&& #[trigger] self.node.right_takes(right)
                &&& #[trigger] room_for(kept.0, s.left_cache.len(), step)
                &&& #[trigger] room_for(kept.1, s.right_cache.len(), step)
                &&& #[trigger] room_for(ahead, s.ahead.len(), vstd::layout::size_of::<Time>())
                &&& node == countable(left + right + names + kept.0 + kept.1 + ahead)
            };
        assert(self.left_takes(left) && self.right_takes(right));
        assert(room_for(kept.0, s.left_cache.len(), step));
        assert(room_for(kept.1, s.right_cache.len(), step));
    }

    /// The mode is the one that the type says.
    pub proof fn lemma_mode(&self)
        requires
            self.wf(),
        ensures
            self.state().eager == IS_EAGER,
            self.state().rosi == IS_ROSI,
            self.state().connective == Connective::Or,
            self.state().wf(),
    {
        self.node.lemma_mode();
    }

    /// Creates a disjunction of two operands.
    ///
    /// If caches are `None`, empty caches are created.
    pub fn new(
        left: Box<dyn StlOperatorAndSignalIdentifier<T, Y>>,
        right: Box<dyn StlOperatorAndSignalIdentifier<T, Y>>,
        left_cache: Option<C>,
        right_cache: Option<C>,
    ) -> (res: Self)
        requires
            left.wf(),
            right.wf(),
            is_usable(left_cache),
            is_usable(right_cache),
        ensures
            res.wf(),
            res.state() == BinaryState::<T, Y>::initial(
                left.behavior(),
                right.behavior(),
                left.profile(),
                right.profile(),
                cached(left_cache),
                cached(right_cache),
                Connective::Or,
                IS_EAGER,
                IS_ROSI,
            ),
            res.profile() == joined_profile(left.profile(), right.profile(), " v "@),
            forall|s: Step<T>| res.ready(s) == (left.ready(s) && right.ready(s)),
            forall|s: Step<T>| #[trigger] res.left_ready(s) == left.ready(s),
            forall|s: Step<T>| #[trigger] res.right_ready(s) == right.ready(s),
            forall|b: usize| #[trigger] res.left_takes(b) == left.takes(b),
            forall|b: usize| #[trigger] res.right_takes(b) == right.takes(b),
    {
        let children = (left, right);
        Or { node: BinaryNode::new(children, left_cache, right_cache, Connective::Or) }
    }
}

impl<
    T,
    C,
    Y,
    const IS_EAGER: bool,
    const IS_ROSI: bool,
> StlOperatorAndSignalIdentifier<T, Y> for Or<T, C, Y, IS_EAGER, IS_ROSI> where
    C: RingBufferTrait<Value = Y>,
    Y: RobustnessSemantics,
 {
    closed spec fn wf(&self) -> bool {
        self.node.wf() && self.node.state().connective == Connective::Or
    }

    open spec fn behavior(&self) -> Behavior<T, Y> {
        behavior_of(self.state())
    }

    /// The operands stand in brackets with `v` between them.
    closed spec fn profile(&self) -> Profile {
        joined_profile(self.node.left_profile(), self.node.right_profile(), " v "@)
    }

    closed spec fn ready(&self, step: Step<T>) -> bool {
        self.node.ready(step)
    }

    closed spec fn takes(&self, bytes: usize) -> bool {
        exists|node: usize| #[trigger]
            self.node.takes(node) && bytes == countable(
                (vstd::layout::size_of::<Self>() + node) as int,
            )
    }

    /// Hands a sample to both operands and emits what can be answered.
    ///
    /// - delayed: final verdicts only,
    /// - eager: may short-circuit on `true`,
    /// - refinable: verdicts at timestamps already answered may be refined.
    fn update(&mut self, step: &Step<T>) -> (out: Vec<Step<Y>>) {
        proof {
            lemma_behavior_of_next(self.node.state(), Event::Sample(*step));
        }
        self.node.update(step)
    }

    fn get_max_lookahead(&self) -> (res: Time) {
        self.node.get_max_lookahead()
    }

    fn known_through(&self) -> (res: Option<Time>) {
        proof {
            lemma_behavior_of_next(self.node.state(), Event::<T>::Reset);
        }
        self.node.known_through()
    }

    fn reset(&mut self) {
        proof {
            lemma_behavior_of_next(self.node.state(), Event::<T>::Reset);
        }
        self.node.reset();
    }

    fn get_signal_identifiers(&mut self) -> (res: Vec<&'static str>) {
        proof {
            lemma_behavior_of_next(self.node.state(), Event::<T>::Route);
        }
        self.node.get_signal_identifiers()
    }

    fn bind(&mut self, vars: &Variables<T>) {
        proof {
            lemma_behavior_of_next(self.node.state(), Event::Bind(vars@));
        }
        self.node.bind(vars);
    }

    fn missing_variable(&self, step: &Step<T>) -> (res: Option<&'static str>) {
        self.node.missing_variable(step)
    }

    fn total_size(&self) -> (res: usize) {
        sum_of(core::mem::size_of::<Self>(), self.node.total_size())
    }

    fn push_text(&self, text: &mut String) {
        self.node.push_text(text, " v ");
    }
}

} // verus!
