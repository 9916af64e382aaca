//! What conjunction and disjunction have in common: two operands combined breakpoint by
//! breakpoint as their verdicts arrive.

use crate::binary_operators::{after_mark, answers_are_sound_and_complete, lemma_after_mark};
use crate::binary_operators::{clamped, merged_lists_every_timestamp, joint, settled_ahead, settled_mark};
use crate::binary_operators::{clamp_to_known, joint_frontier, process_binary, settle_eager_watermark};
use crate::binary_operators::{Connective, Operand, OperandView, Pairing};
use crate::memory::{countable, lemma_room_for, room_for, sum_of, vec_heap_size};
use crate::names::{all_distinct, name_set};
use crate::operands::{infix_text, Operands, OperandsState};
use crate::operator::{Behavior, Event, Machine, Profile};
use crate::operator::StlOperatorAndSignalIdentifier;
use crate::ring_buffer::{all_upto, guarded_prune, has_entry_at, in_order, lemma_pruned, lemma_put_in_order};
use crate::ring_buffer::{pruned, put, RingBufferTrait, Step};
use crate::semantics::RobustnessSemantics;
use crate::time::{later, max_time, minus, saturating_minus, Time, MAX_TIME};
use crate::variables::Variables;
use vstd::prelude::*;
use vstd::string::*;

verus! {

/// A frontier after the operand has emitted `updates`.
pub open spec fn advanced<Y>(frontier: Option<Time>, updates: Seq<Step<Y>>) -> Option<Time> {
    if updates.len() == 0 {
        frontier
    } else {
        match frontier {
            Some(f) => Some(max_time(f, updates.last().timestamp)),
            None => Some(updates.last().timestamp),
        }
    }
}

/// Whether a verdict of an operand at `ts` can still matter once `mark` has been settled.
/// Refinable verdicts can be revised at the mark itself.
pub open spec fn is_relevant(rosi: bool, mark: Option<Time>, ts: Time) -> bool {
    match mark {
        Some(settled) => if rosi {
            ts >= settled
        } else {
            ts > settled
        },
        None => true,
    }
}

/// A cache after those of `updates` that can still matter were added to it.
pub open spec fn absorbed<Y>(
    cache: Seq<Step<Y>>,
    updates: Seq<Step<Y>>,
    rosi: bool,
    mark: Option<Time>,
) -> Seq<Step<Y>>
    decreases updates.len(),
{
    if updates.len() == 0 {
        cache
    } else {
        let head = absorbed(cache, updates.drop_last(), rosi, mark);
        if is_relevant(rosi, mark, updates.last().timestamp) {
            put(head, updates.last())
        } else {
            head
        }
    }
}

/// `output` without the timestamps in `known`.
pub open spec fn unanswered<Y>(output: Seq<Step<Y>>, known: Seq<Time>) -> Seq<Step<Y>>
    decreases output.len(),
{
    if output.len() == 0 {
        output
    } else {
        let head = unanswered(output.drop_last(), known);
        if known.contains(output.last().timestamp) {
            head
        } else {
            head.push(output.last())
        }
    }
}

/// A conjunction or disjunction between two events.
#[verifier::ext_equal]
#[verifier::reject_recursive_types(T)]
pub struct BinaryState<T, Y> {
    pub operands: OperandsState<T, Y>,
    /// The verdicts of the left operand that are still needed.
    pub left_cache: Seq<Step<Y>>,
    /// The verdicts of the right operand that are still needed.
    pub right_cache: Seq<Step<Y>>,
    /// The time up to which output is settled.
    pub mark: Option<Time>,
    /// The timestamps past the mark that are answered already.
    pub ahead: Seq<Time>,
    /// How far the left operand has reported.
    pub left_frontier: Option<Time>,
    /// How far the right operand has reported.
    pub right_frontier: Option<Time>,
    pub left_lookahead: Time,
    pub right_lookahead: Time,
    pub connective: Connective,
    pub eager: bool,
    pub rosi: bool,
}

/// The contents of a cache that may have been handed over.
pub open spec fn cached<C: RingBufferTrait>(cache: Option<C>) -> Seq<Step<C::Value>> {
    match cache {
        Some(c) => c.entries(),
        None => Seq::empty(),
    }
}

/// Whether a cache, if one was handed over, is in time order.
pub open spec fn is_usable<C: RingBufferTrait>(cache: Option<C>) -> bool {
    in_order(cached(cache)) && all_upto(cached(cache), MAX_TIME)
}

/// What never changes of an operator over two operands with the given profiles.
pub open spec fn joined_profile(left: Profile, right: Profile, infix: Seq<char>) -> Profile {
    Profile {
        lookahead: max_time(left.lookahead, right.lookahead),
        identifiers: left.identifiers.union(right.identifiers),
        variables: left.variables.union(right.variables),
        text: infix_text(left.text, infix, right.text),
    }
}

impl<T, Y: RobustnessSemantics> BinaryState<T, Y> {
    /// The state before anything has happened.
    pub open spec fn initial(
        left: Behavior<T, Y>,
        right: Behavior<T, Y>,
        left_profile: Profile,
        right_profile: Profile,
        left_cache: Seq<Step<Y>>,
        right_cache: Seq<Step<Y>>,
        connective: Connective,
        eager: bool,
        rosi: bool,
    ) -> BinaryState<T, Y> {
        BinaryState {
            operands: OperandsState {
                left,
                right,
                left_reads: left_profile.identifiers,
                right_reads: right_profile.identifiers,
                left_signals: Set::empty(),
                right_signals: Set::empty(),
            },
            left_cache,
            right_cache,
            mark: None,
            ahead: Seq::empty(),
            left_frontier: None,
            right_frontier: None,
            left_lookahead: left_profile.lookahead,
            right_lookahead: right_profile.lookahead,
            connective,
            eager,
            rosi,
        }
    }

    pub open spec fn lookahead(self) -> Time {
        max_time(self.left_lookahead, self.right_lookahead)
    }

    pub open spec fn joint(self) -> Option<Time> {
        joint(self.left_frontier, self.right_frontier)
    }

    pub open spec fn wf(self) -> bool {
        &&& self.pairing().left.wf()
        &&& self.pairing().right.wf()
    }

    /// The operands as they are combined.
    pub open spec fn pairing(self) -> Pairing<Y> {
        Pairing {
            left: OperandView {
                cache: self.left_cache,
                frontier: self.left_frontier,
                lookahead: self.left_lookahead,
            },
            right: OperandView {
                cache: self.right_cache,
                frontier: self.right_frontier,
                lookahead: self.right_lookahead,
            },
            connective: self.connective,
            eager: self.eager,
            rosi: self.rosi,
        }
    }

    /// The sample is handed to the operands, and what they emit is taken in.
    pub open spec fn taken_in(self, step: Step<T>) -> BinaryState<T, Y> {
        let event = Event::Sample(step);
        let left = self.operands.left_emits(event);
        let right = self.operands.right_emits(event);
        let operands = self.operands.next(event);
        BinaryState {
            operands,
            left_frontier: clamped(
                advanced(self.left_frontier, left),
                operands.left.known_now(),
            ),
            right_frontier: clamped(
                advanced(self.right_frontier, right),
                operands.right.known_now(),
            ),
            left_cache: absorbed(self.left_cache, left, self.rosi, self.mark),
            right_cache: absorbed(self.right_cache, right, self.rosi, self.mark),
            ..self
        }
    }

    /// The answers that are available and were not given before. Refinable verdicts are given
    /// again as long as their breakpoints are kept.
    pub open spec fn available(self) -> Seq<Step<Y>> {
        let start = if self.rosi {
            None
        } else {
            self.mark
        };
        let output = self.pairing().answers(self.pairing().breakpoints(start));
        if self.eager && !self.rosi {
            unanswered(output, self.ahead)
        } else {
            output
        }
    }

    /// The answers were given: what is no longer needed is forgotten.
    pub open spec fn answered(self, output: Seq<Step<Y>>) -> BinaryState<T, Y> {
        let protected_ts = minus(
            match self.joint() {
                Some(ts) => ts,
                None => 0,
            },
            self.lookahead(),
        );
        BinaryState {
            left_cache: pruned(self.left_cache, self.lookahead(), protected_ts),
            right_cache: pruned(self.right_cache, self.lookahead(), protected_ts),
            mark: if self.eager && !self.rosi {
                settled_mark(output, self.joint(), self.mark)
            } else if output.len() == 0 {
                self.mark
            } else if self.rosi {
                Some(output[0].timestamp)
            } else {
                Some(output.last().timestamp)
            },
            ahead: if self.eager && !self.rosi {
                settled_ahead(output, self.joint(), self.mark, self.ahead)
            } else {
                self.ahead
            },
            ..self
        }
    }

    /// Nothing has been taken in since the operands were in the state they are in.
    pub open spec fn cleared(self) -> BinaryState<T, Y> {
        BinaryState {
            left_cache: Seq::empty(),
            right_cache: Seq::empty(),
            mark: None,
            ahead: Seq::empty(),
            left_frontier: None,
            right_frontier: None,
            ..self
        }
    }
}

impl<T, Y: RobustnessSemantics> Machine<T, Y> for BinaryState<T, Y> {
    open spec fn next(self, event: Event<T>) -> Self {
        let routed = BinaryState { operands: self.operands.next(event), ..self };
        match event {
            Event::Sample(step) => {
                let taken = self.taken_in(step);
                taken.answered(taken.available())
            },
            Event::Bind(_) => routed,
            Event::Reset => routed.cleared(),
            Event::Route => routed,
        }
    }

    open spec fn emit(self, event: Event<T>) -> Seq<Step<Y>> {
        match event {
            Event::Sample(step) => self.taken_in(step).available(),
            _ => Seq::empty(),
        }
    }

    /// Short-circuiting past the joint frontier is what leaves gaps, so the joint frontier is
    /// how far there are none. In every other mode a timestamp is answered only once both
    /// operands are known there.
    open spec fn known(self) -> Option<Time> {
        if self.eager && !self.rosi {
            Some(
                match self.joint() {
                    Some(ts) => ts,
                    None => 0,
                },
            )
        } else {
            None
        }
    }
}

/// What is added to an ordered cache keeps it ordered.
proof fn lemma_absorbed<Y>(
    cache: Seq<Step<Y>>,
    updates: Seq<Step<Y>>,
    rosi: bool,
    mark: Option<Time>,
)
    requires
        in_order(cache),
    ensures
        in_order(absorbed(cache, updates, rosi, mark)),
        forall|bound: Time|
            all_upto(cache, bound) && all_upto(updates, bound) ==> #[trigger] all_upto(
                absorbed(cache, updates, rosi, mark),
                bound,
            ),
    decreases updates.len(),
{
    if updates.len() > 0 {
        let head = absorbed(cache, updates.drop_last(), rosi, mark);
        lemma_absorbed(cache, updates.drop_last(), rosi, mark);
        lemma_put_in_order(head, updates.last());
        assert forall|bound: Time|
            all_upto(cache, bound) && all_upto(updates, bound) implies #[trigger] all_upto(
            absorbed(cache, updates, rosi, mark),
            bound,
        ) by {
            assert(all_upto(updates.drop_last(), bound));
            assert(updates.last() == updates[updates.len() - 1]);
        }
    }
}

/// Everything available lies within the bounds of what is cached.
proof fn lemma_available_upto<T, Y: RobustnessSemantics>(state: BinaryState<T, Y>)
    requires
        state.wf(),
    ensures
        all_upto(state.available(), MAX_TIME),
{
    let start = if state.rosi {
        None
    } else {
        state.mark
    };
    let pairing = state.pairing();
    let l = after_mark(state.left_cache, start);
    let r = after_mark(state.right_cache, start);
    lemma_after_mark(state.left_cache, start);
    lemma_after_mark(state.right_cache, start);
    merged_lists_every_timestamp(l, r);
    answers_are_sound_and_complete(pairing, pairing.breakpoints(start));
    let output = pairing.answers(pairing.breakpoints(start));
    assert forall|k: int| 0 <= k < output.len() implies (#[trigger] output[k]).timestamp
        <= MAX_TIME by {
        let t = output[k].timestamp;
        assert(pairing.breakpoints(start).contains(t));
        if has_entry_at(l, t) {
            let i = choose|i: int| 0 <= i < l.len() && (#[trigger] l[i]).timestamp == t;
            assert(l[i].timestamp <= MAX_TIME);
        } else {
            let i = choose|i: int| 0 <= i < r.len() && (#[trigger] r[i]).timestamp == t;
            assert(r[i].timestamp <= MAX_TIME);
        }
    }
    lemma_unanswered_upto(output, state.ahead, MAX_TIME);
}

/// Two operands combined by a connective.
#[verifier::reject_recursive_types(T)]
#[verifier::reject_recursive_types(Y)]
pub struct BinaryNode<T, C, Y, const IS_EAGER: bool, const IS_ROSI: bool> {
    operands: Operands<T, Y>,
    connective: Connective,
    left_cache: C,
    right_cache: C,
    last_eval_time: Option<Time>,
    /// Timestamps answered ahead of the joint frontier in eager mode. Held apart from
    /// `last_eval_time` so a short-circuit cannot strand an earlier breakpoint that arrives
    /// later; see [`settle_eager_watermark`].
    answered_beyond_joint: Vec<Time>,
    /// Newest timestamp each operand has produced a value for. It is known up to here and no
    /// further, which is what decides how far the combination can be answered.
    left_frontier: Option<Time>,
    right_frontier: Option<Time>,
    max_lookahead: Time,
}

/// Adds to `cache` those of `updates` that can still matter.
fn absorb<C, Y, const IS_ROSI: bool>(
    cache: &mut C,
    updates: &Vec<Step<Y>>,
    last_eval_time: Option<Time>,
) where C: RingBufferTrait<Value = Y>, Y: RobustnessSemantics
    requires
        in_order(old(cache).entries()),
    ensures
        final(cache).entries() == absorbed(
            old(cache).entries(),
            updates@,
            IS_ROSI,
            last_eval_time,
        ),
{
    let ghost before = cache.entries();
    let mut i: usize = 0;
    assert(updates@.take(0) =~= Seq::empty());
    while i < updates.len()
        invariant
            i <= updates@.len(),
            in_order(before),
            cache.entries() == absorbed(before, updates@.take(i as int), IS_ROSI, last_eval_time),
        decreases updates@.len() - i,
    {
        let update: Step<Y> = updates[i];
        let relevant: bool = match last_eval_time {
            Some(last) => if IS_ROSI {
                update.timestamp >= last
            } else {
                update.timestamp > last
            },
            None => true,
        };
        proof {
            let longer = updates@.take(i + 1);
            assert(longer.drop_last() =~= updates@.take(i as int));
            assert(longer.last() == update);
            lemma_absorbed(before, updates@.take(i as int), IS_ROSI, last_eval_time);
        }
        if relevant && !cache.update_step(update) {
            // An operand can emit out of order.
            cache.insert_step(update);
        }
        i = i + 1;
    }
    assert(updates@.take(i as int) =~= updates@);
}

/// A frontier moved on by what the operand has emitted, as far as that is free of gaps.
fn advance<Y>(frontier: Option<Time>, updates: &Vec<Step<Y>>, known: Option<Time>) -> (res: Option<
    Time,
>)
    ensures
        res == clamped(advanced(frontier, updates@), known),
{
    let len: usize = updates.len();
    if len == 0 {
        return clamp_to_known(frontier, known);
    }
    let newest: Time = updates[len - 1].timestamp;
    let moved: Time = match frontier {
        Some(f) => later(f, newest),
        None => newest,
    };
    clamp_to_known(Some(moved), known)
}

/// The steps of `output` whose timestamps are not listed in `known`.
fn drop_answered<Y: Copy>(output: Vec<Step<Y>>, known: &Vec<Time>) -> (res: Vec<Step<Y>>)
    ensures
        res@ == unanswered(output@, known@),
{
    let mut kept: Vec<Step<Y>> = Vec::new();
    let mut i: usize = 0;
    assert(output@.take(0) =~= Seq::empty());
    while i < output.len()
        invariant
            i <= output@.len(),
            kept@ == unanswered(output@.take(i as int), known@),
        decreases output@.len() - i,
    {
        let step: Step<Y> = output[i];
        let mut found: bool = false;
        let mut j: usize = 0;
        while j < known.len() && !found
            invariant
                j <= known@.len(),
                found ==> known@.contains(step.timestamp),
                !found ==> forall|k: int| 0 <= k < j ==> known@[k] != step.timestamp,
            decreases known@.len() - j + (if found { 0int } else { 1int }),
        {
            if known[j] == step.timestamp {
                found = true;
                assert(known@[j as int] == step.timestamp);
            } else {
                j = j + 1;
            }
        }
        proof {
            assert(output@.take(i + 1).drop_last() =~= output@.take(i as int));
            assert(output@.take(i + 1).last() == step);
        }
        if !found {
            kept.push(step);
        }
        i = i + 1;
    }
    assert(output@.take(i as int) =~= output@);
    kept
}

/// Dropping timestamps keeps the rest within bounds.
proof fn lemma_unanswered_upto<Y>(output: Seq<Step<Y>>, known: Seq<Time>, bound: Time)
    requires
        all_upto(output, bound),
    ensures
        all_upto(unanswered(output, known), bound),
    decreases output.len(),
{
    if output.len() > 0 {
        assert(all_upto(output.drop_last(), bound));
        lemma_unanswered_upto(output.drop_last(), known, bound);
        assert(output.last() == output[output.len() - 1]);
    }
}

impl<T, C, Y, const IS_EAGER: bool, const IS_ROSI: bool> BinaryNode<
    T,
    C,
    Y,
    IS_EAGER,
    IS_ROSI,
> where C: RingBufferTrait<Value = Y>, Y: RobustnessSemantics {
    pub closed spec fn wf(&self) -> bool {
        &&& self.operands.wf()
        &&& self.state().wf()
        &&& self.max_lookahead == self.state().lookahead()
    }

    pub closed spec fn state(&self) -> BinaryState<T, Y> {
        BinaryState {
            operands: self.operands.state(),
            left_cache: self.left_cache.entries(),
            right_cache: self.right_cache.entries(),
            mark: self.last_eval_time,
            ahead: self.answered_beyond_joint@,
            left_frontier: self.left_frontier,
            right_frontier: self.right_frontier,
            left_lookahead: self.operands.left_profile().lookahead,
            right_lookahead: self.operands.right_profile().lookahead,
            connective: self.connective,
            eager: IS_EAGER,
            rosi: IS_ROSI,
        }
    }

    pub closed spec fn left_profile(&self) -> Profile {
        self.operands.left_profile()
    }

    pub closed spec fn right_profile(&self) -> Profile {
        self.operands.right_profile()
    }

    pub closed spec fn ready(&self, step: Step<T>) -> bool {
        self.operands.ready(step)
    }

    /// Whether `bytes` is an estimate of the memory in use besides the node itself: that of
    /// the operands, of both caches and of the list of answers given ahead.
    pub closed spec fn takes(&self, bytes: usize) -> bool {
        let step = vstd::layout::size_of::<Step<Y>>();
        let time = vstd::layout::size_of::<Time>();
        exists|operands: usize, left: usize, right: usize, ahead: usize|
            {
                &&& #[trigger] self.operands.takes(operands)
                &&& #[trigger] room_for(left, self.left_cache.entries().len(), step)
                &&& #[trigger] room_for(right, self.right_cache.entries().len(), step)
                &&& #[trigger] room_for(ahead, self.answered_beyond_joint@.len(), time)
                &&& bytes == countable(operands + left + right + ahead)
            }
    }

    /// Whether the left operand has the variables it needs for `step`.
    pub closed spec fn left_ready(&self, step: Step<T>) -> bool {
        self.operands.left_ready(step)
    }

    /// Whether the right operand has the variables it needs for `step`.
    pub closed spec fn right_ready(&self, step: Step<T>) -> bool {
        self.operands.right_ready(step)
    }

    /// A step can be evaluated just if the operands that it reaches can: those that read its
    /// signal, and both while it is not known what they read.
    pub proof fn readiness_is_that_of_the_operands_reached(&self, step: Step<T>)
        ensures
            ({
                let operands = self.state().operands;
                let left = operands.left_signals;
                let right = operands.right_signals;
                let empty = Set::<Seq<char>>::empty();
                self.ready(step) <==> (left.contains(step.signal@) || left == empty
                    ==> self.left_ready(step)) && (right.contains(step.signal@) || right == empty
                    ==> self.right_ready(step))
            }),
    {
        self.operands.readiness_is_that_of_the_operands_reached(step);
    }

    /// Whether `bytes` is an estimate of the memory the left operand uses.
    pub closed spec fn left_takes(&self, bytes: usize) -> bool {
        self.operands.left_takes(bytes)
    }

    /// Whether `bytes` is an estimate of the memory the right operand uses.
    pub closed spec fn right_takes(&self, bytes: usize) -> bool {
        self.operands.right_takes(bytes)
    }

    /// The memory of both operands and of both caches is included in what the node takes.
    pub proof fn lemma_takes(&self, bytes: usize)
        requires
            self.takes(bytes),
        ensures
            exists|left: usize, right: usize|
                #[trigger] self.left_takes(left) && #[trigger] self.right_takes(right) && bytes
                    >= countable(
                    left + right + (self.state().left_cache.len() + self.state().right_cache.len())
                        * vstd::layout::size_of::<Step<Y>>(),
                ),
    {
        let step = vstd::layout::size_of::<Step<Y>>();
        let time = vstd::layout::size_of::<Time>();
        let l = self.left_cache.entries().len();
        let r = self.right_cache.entries().len();
        let (operands, left, right, ahead) = choose|
            operands: usize,
            left: usize,
            right: usize,
            ahead: usize,
        |
            {
                &&& #[trigger] self.operands.takes(operands)
                &&& #[trigger] room_for(left, l, step)
                &&& #[trigger] room_for(right, r, step)
                &&& #[trigger] room_for(ahead, self.answered_beyond_joint@.len(), time)
                &&& bytes == countable(operands + left + right + ahead)
            };
        self.operands.lemma_takes(operands);
        lemma_room_for(left, l, step);
        lemma_room_for(right, r, step);
        assert((l + r) * step == l * step + r * step) by (nonlinear_arith);
        let (a, b) = choose|a: usize, b: usize|
            #[trigger] self.operands.left_takes(a) && #[trigger] self.operands.right_takes(b)
                && operands >= countable(a + b);
        assert(self.left_takes(a) && self.right_takes(b));
    }

    /// A node takes, besides itself, what its operands take, and room for the verdicts it keeps,
    /// for the times it answered ahead, and for the names of the signals its operands read.
    pub proof fn memory_is_that_of_its_parts(&self, bytes: usize)
        requires
            self.wf(),
            self.takes(bytes),
        ensures
            exists|left: usize, right: usize, kept: (usize, usize), ahead: usize|
                {
                    &&& #[trigger] self.left_takes(left)
                    &&& #[trigger] self.right_takes(right)
                    &&& #[trigger] room_for(
                        kept.0,
                        self.state().left_cache.len(),
                        vstd::layout::size_of::<Step<Y>>(),
                    )
                    &&& #[trigger] room_for(
                        kept.1,
                        self.state().right_cache.len(),
                        vstd::layout::size_of::<Step<Y>>(),
                    )
                    &&& #[trigger] room_for(
                        ahead,
                        self.state().ahead.len(),
                        vstd::layout::size_of::<Time>(),
                    )
                    &&& bytes == countable(
                        left + right + (self.state().operands.left_signals.len()
                            + self.state().operands.right_signals.len()) * (vstd::layout::size_of::<
                            &'static str,
                        >() + 1) + kept.0 + kept.1 + ahead,
                    )
                },
    {
        let step = vstd::layout::size_of::<Step<Y>>();
        let time = vstd::layout::size_of::<Time>();
        let (operands, left, right, ahead) = choose|
            operands: usize,
            left: usize,
            right: usize,
            ahead: usize,
        |
            {
                &&& #[trigger] self.operands.takes(operands)
                &&& #[trigger] room_for(left, self.left_cache.entries().len(), step)
                &&& #[trigger] room_for(right, self.right_cache.entries().len(), step)
                &&& #[trigger] room_for(ahead, self.answered_beyond_joint@.len(), time)
                &&& bytes == countable(operands + left + right + ahead)
            };
        self.operands.memory_is_that_of_both_operands(operands);
        let names = (self.operands.state().left_signals.len()
            + self.operands.state().right_signals.len()) * (vstd::layout::size_of::<
            &'static str,
        >() + 1);
        let (a, b) = choose|a: usize, b: usize|
            #[trigger] self.operands.left_takes(a) && #[trigger] self.operands.right_takes(b)
                && operands == countable(a + b + names);
        let kept = (left, right);
        assert(self.left_takes(a) && self.right_takes(b));
        assert(room_for(kept.0, self.state().left_cache.len(), step));
        assert(room_for(kept.1, self.state().right_cache.len(), step));
        assert(room_for(ahead, self.state().ahead.len(), time));
    }

    /// The mode is the one that the type says.
    pub proof fn lemma_mode(&self)
        requires
            self.wf(),
        ensures
            self.state().eager == IS_EAGER,
            self.state().rosi == IS_ROSI,
            self.state().wf(),
    {
    }

    /// Creates a node over two operands. Caches that are not given are created empty.
    pub fn new(
        children: (
            Box<dyn StlOperatorAndSignalIdentifier<T, Y>>,
            Box<dyn StlOperatorAndSignalIdentifier<T, Y>>,
        ),
        left_cache: Option<C>,
        right_cache: Option<C>,
        connective: Connective,
    ) -> (res: Self)
        requires
            children.0.wf(),
            children.1.wf(),
            is_usable(left_cache),
            is_usable(right_cache),
        ensures
            res.wf(),
            res.state() == BinaryState::<T, Y>::initial(
                children.0.behavior(),
                children.1.behavior(),
                children.0.profile(),
                children.1.profile(),
                cached(left_cache),
                cached(right_cache),
                connective,
                IS_EAGER,
                IS_ROSI,
            ),
            res.left_profile() == children.0.profile(),
            res.right_profile() == children.1.profile(),
            forall|s: Step<T>| res.ready(s) == (children.0.ready(s) && children.1.ready(s)),
            forall|s: Step<T>| #[trigger] res.left_ready(s) == children.0.ready(s),
            forall|s: Step<T>| #[trigger] res.right_ready(s) == children.1.ready(s),
            forall|b: usize| #[trigger] res.left_takes(b) == children.0.takes(b),
            forall|b: usize| #[trigger] res.right_takes(b) == children.1.takes(b),
    {
        let operands: Operands<T, Y> = Operands::new(children);
        let lookaheads: (Time, Time) = operands.lookaheads();
        let left_cache: C = match left_cache {
            Some(cache) => cache,
            None => C::new(),
        };
        let right_cache: C = match right_cache {
            Some(cache) => cache,
            None => C::new(),
        };
        BinaryNode {
            operands,
            connective,
            left_cache,
            right_cache,
            last_eval_time: None,
            answered_beyond_joint: Vec::new(),
            left_frontier: None,
            right_frontier: None,
            max_lookahead: later(lookaheads.0, lookaheads.1),
        }
    }

    /// Hands a sample to the operands and combines what they have to say.
    pub fn update(&mut self, step: &Step<T>) -> (output: Vec<Step<Y>>)
        requires
            old(self).wf(),
            old(self).ready(*step),
            step.timestamp <= MAX_TIME,
        ensures
            final(self).wf(),
            output@ == old(self).state().emit(Event::Sample(*step)),
            final(self).state() == old(self).state().next(Event::Sample(*step)),
            final(self).left_profile() == old(self).left_profile(),
            final(self).right_profile() == old(self).right_profile(),
            forall|s: Step<T>| final(self).ready(s) == old(self).ready(s),
            all_upto(output@, MAX_TIME),
    {
        let ghost before = self.state();
        let (left_updates, right_updates) = self.operands.update(step);
        let (left_known, right_known) = self.operands.known_through();
        self.left_frontier = advance(self.left_frontier, &left_updates, left_known);
        self.right_frontier = advance(self.right_frontier, &right_updates, right_known);
        absorb::<C, Y, IS_ROSI>(&mut self.left_cache, &left_updates, self.last_eval_time);
        absorb::<C, Y, IS_ROSI>(&mut self.right_cache, &right_updates, self.last_eval_time);
        let ghost taken = before.taken_in(*step);
        proof {
            lemma_absorbed(before.left_cache, left_updates@, IS_ROSI, before.mark);
            lemma_absorbed(before.right_cache, right_updates@, IS_ROSI, before.mark);
            assert(self.state() =~= taken);
            assert(taken.wf());
            lemma_available_upto(taken);
        }
        let (left_lookahead, right_lookahead) = self.operands.lookaheads();
        let mut output: Vec<Step<Y>> = process_binary::<C, Y, IS_EAGER, IS_ROSI>(
            &Operand {
                cache: &self.left_cache,
                frontier: self.left_frontier,
                lookahead: left_lookahead,
            },
            &Operand {
                cache: &self.right_cache,
                frontier: self.right_frontier,
                lookahead: right_lookahead,
            },
            if IS_ROSI {
                None
            } else {
                self.last_eval_time
            },
            self.connective,
        );
        // A timestamp short-circuited beyond the joint frontier is walked again on every later
        // update, because the watermark deliberately stops short of it. The value is final and
        // was reported already.
        if IS_EAGER && !IS_ROSI {
            output = drop_answered(output, &self.answered_beyond_joint);
        }
        assert(output@ == taken.available());
        let joint: Option<Time> = joint_frontier(self.left_frontier, self.right_frontier);
        let reported: Time = match joint {
            Some(ts) => ts,
            None => 0,
        };
        let lookahead: Time = self.max_lookahead;
        let protected_ts: Time = saturating_minus(reported, lookahead);
        proof {
            lemma_pruned(taken.left_cache, lookahead, protected_ts);
            lemma_pruned(taken.right_cache, lookahead, protected_ts);
        }
        guarded_prune(&mut self.left_cache, lookahead, protected_ts);
        guarded_prune(&mut self.right_cache, lookahead, protected_ts);
        let len: usize = output.len();
        if IS_ROSI {
            // Intervals can be revised from the start of the batch on.
            if len > 0 {
                self.last_eval_time = Some(output[0].timestamp);
            }
        } else if IS_EAGER {
            settle_eager_watermark(
                &output,
                joint,
                &mut self.last_eval_time,
                &mut self.answered_beyond_joint,
            );
        } else if len > 0 {
            // Everything up to the end of the batch is final.
            self.last_eval_time = Some(output[len - 1].timestamp);
        }
        assert(self.state() =~= before.next(Event::Sample(*step)));
        output
    }

    /// How far past a timestamp samples can matter to the verdict there.
    pub fn get_max_lookahead(&self) -> (res: Time)
        requires
            self.wf(),
        ensures
            res == max_time(self.left_profile().lookahead, self.right_profile().lookahead),
            res <= MAX_TIME,
    {
        self.max_lookahead
    }

    /// How far the output is free of gaps; `None` where it never has any.
    pub fn known_through(&self) -> (res: Option<Time>)
        ensures
            res == self.state().known(),
    {
        if !IS_EAGER || IS_ROSI {
            return None;
        }
        match joint_frontier(self.left_frontier, self.right_frontier) {
            Some(ts) => Some(ts),
            None => Some(0),
        }
    }

    /// Returns to the initial state.
    pub fn reset(&mut self)
        requires
            old(self).wf(),
        ensures
            final(self).wf(),
            final(self).state() == old(self).state().next(Event::Reset),
            final(self).left_profile() == old(self).left_profile(),
            final(self).right_profile() == old(self).right_profile(),
            forall|s: Step<T>| final(self).ready(s) == old(self).ready(s),
    {
        self.left_cache.clear();
        self.right_cache.clear();
        self.last_eval_time = None;
        self.answered_beyond_joint = Vec::new();
        self.left_frontier = None;
        self.right_frontier = None;
        self.operands.reset();
        assert(self.state() =~= old(self).state().next(Event::Reset));
    }

    /// Lists the signals that either operand reads, and from then on hands each of them only
    /// samples of its own.
    pub fn get_signal_identifiers(&mut self) -> (res: Vec<&'static str>)
        requires
            old(self).wf(),
        ensures
            final(self).wf(),
            final(self).state() == old(self).state().next(Event::Route),
            final(self).left_profile() == old(self).left_profile(),
            final(self).right_profile() == old(self).right_profile(),
            name_set(res@) == old(self).left_profile().identifiers.union(
                old(self).right_profile().identifiers,
            ),
            forall|s: Step<T>| old(self).ready(s) ==> final(self).ready(s),
            all_distinct(res@),
    {
        let ids: Vec<&'static str> = self.operands.route();
        assert(self.state() =~= old(self).state().next(Event::Route));
        ids
    }

    /// Replaces the context that variable thresholds are read from.
    pub fn bind(&mut self, vars: &Variables<T>)
        requires
            old(self).wf(),
            vars.wf(),
        ensures
            final(self).wf(),
            final(self).state() == old(self).state().next(Event::Bind(vars@)),
            final(self).left_profile() == old(self).left_profile(),
            final(self).right_profile() == old(self).right_profile(),
            old(self).left_profile().variables.union(
                old(self).right_profile().variables,
            ).subset_of(vars@.dom()) ==> forall|s: Step<T>| final(self).ready(s),
    {
        self.operands.bind(vars);
        assert(self.state() =~= old(self).state().next(Event::Bind(vars@)));
    }

    /// Names a variable that evaluating `step` needs and that is not bound, if there is one.
    pub fn missing_variable(&self, step: &Step<T>) -> (res: Option<&'static str>)
        requires
            self.wf(),
        ensures
            res is None <==> self.ready(*step),
            res matches Some(name) ==> self.left_profile().variables.union(
                self.right_profile().variables,
            ).contains(name@),
    {
        self.operands.missing_variable(step)
    }

    /// Estimated memory in bytes, operands included, besides the node itself.
    pub fn total_size(&self) -> (res: usize)
        requires
            self.wf(),
        ensures
            self.takes(res),
    {
        let caches: usize = sum_of(self.left_cache.heap_size(), self.right_cache.heap_size());
        let ahead: usize = vec_heap_size(&self.answered_beyond_joint);
        sum_of(sum_of(self.operands.total_size(), caches), ahead)
    }

    /// Appends the operator in the notation of formulas, with `infix` between its operands.
    pub fn push_text(&self, text: &mut String, infix: &str)
        requires
            self.wf(),
        ensures
            final(text)@ == old(text)@ + infix_text(
                self.left_profile().text,
                infix@,
                self.right_profile().text,
            ),
    {
        self.operands.push_text(text, infix);
    }
}

} // verus!
