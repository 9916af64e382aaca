//! What reaches the operands of an operator, and what an operator has from them.

use crate::atomic_operators::{Atomic, AtomicState, Bound, Comparison};
use crate::binary_node::{cached, is_usable, joined_profile};
use crate::binary_operators::{And, Or};
use crate::operands::{infix_text, OperandsState};
use crate::operator::{behavior_of, lemma_behavior_of_next, Behavior, Event, Machine, Profile};
use crate::operator::StlOperatorAndSignalIdentifier;
use crate::predicate_laws::a_new_predicate_reads_what_it_names;
use crate::ring_buffer::{RingBufferTrait, Step};
use crate::semantics::{AtomicSemantics, RobustnessSemantics, SignalValue};
use crate::time::MAX_TIME;
use crate::until_operator::Until;
use vstd::prelude::*;

verus! {

/// A sample reaches just the operands that read its signal, and all of them while it is not
/// known what they read. Whatever else happens, happens to both.
pub proof fn samples_reach_the_operands_that_read_them<T, Y>(
    operands: OperandsState<T, Y>,
    event: Event<T>,
)
    ensures
        ({
            let next = operands.next(event);
            let left = match event {
                Event::Sample(step) => operands.left_signals.contains(step.signal@)
                    || operands.left_signals == Set::<Seq<char>>::empty(),
                _ => true,
            };
            let right = match event {
                Event::Sample(step) => operands.right_signals.contains(step.signal@)
                    || operands.right_signals == Set::<Seq<char>>::empty(),
                _ => true,
            };
            &&& left ==> next.left == operands.left.after(event) && operands.left_emits(event) == (
            operands.left.run)(seq![event])
            &&& !left ==> next.left == operands.left && operands.left_emits(event).len() == 0
            &&& right ==> next.right == operands.right.after(event) && operands.right_emits(event)
                == (operands.right.run)(seq![event])
            &&& !right ==> next.right == operands.right && operands.right_emits(event).len() == 0
        }),
{
}

/// Only when asked what is read does an operator learn what its operands read: from then on those
/// signals, and whatever it knew of before.
pub proof fn operands_are_known_by_what_they_read<T, Y>(
    operands: OperandsState<T, Y>,
    event: Event<T>,
    name: Seq<char>,
)
    ensures
        ({
            let next = operands.next(event);
            &&& next.left_signals.contains(name) <==> operands.left_signals.contains(name) || (event
                is Route && operands.left_reads.contains(name))
            &&& next.right_signals.contains(name) <==> operands.right_signals.contains(name) || (
            event is Route && operands.right_reads.contains(name))
            &&& next.left_reads == operands.left_reads
            &&& next.right_reads == operands.right_reads
        }),
{
}

/// What an operator does after an event is what it does with that event first.
pub proof fn behavior_goes_on_from_an_event<T, Y>(
    behavior: Behavior<T, Y>,
    event: Event<T>,
    events: Seq<Event<T>>,
)
    requires
        events.len() > 0,
    ensures
        (behavior.after(event).run)(events) == (behavior.run)(seq![event] + events),
        (behavior.after(event).known)(events) == (behavior.known)(seq![event] + events),
        behavior.after(event).known_now() == (behavior.known)(seq![event]),
        behavior.emits(event) == (behavior.run)(seq![event]),
{
    assert(seq![event] + Seq::<Event<T>>::empty() =~= seq![event]);
}

/// A machine behaves as it is made: what it emits on an event is what it emits in the state it is
/// in, and it goes on from the state that the event leaves it in.
pub proof fn machines_behave_as_they_are_made<T, Y, M: Machine<T, Y>>(m: M, event: Event<T>)
    ensures
        behavior_of::<T, Y, M>(m).emits(event) == m.emit(event),
        behavior_of::<T, Y, M>(m).known_now() == m.known(),
        behavior_of::<T, Y, M>(m).after(event) == behavior_of::<T, Y, M>(m.next(event)),
{
    assert(seq![event].drop_last() =~= Seq::<Event<T>>::empty());
    lemma_behavior_of_next::<T, Y, M>(m, event);
}

/// A conjunction or disjunction looks as far ahead as the operand that looks farther, reads what
/// either one reads, and is written with both in brackets.
pub proof fn a_combination_has_its_operands_lookahead_and_names(
    left: Profile,
    right: Profile,
    infix: Seq<char>,
    name: Seq<char>,
)
    ensures
        ({
            let p = joined_profile(left, right, infix);
            &&& p.lookahead >= left.lookahead && p.lookahead >= right.lookahead
            &&& p.lookahead == left.lookahead || p.lookahead == right.lookahead
            &&& p.identifiers.contains(name) <==> left.identifiers.contains(name)
                || right.identifiers.contains(name)
            &&& p.variables.contains(name) <==> left.variables.contains(name)
                || right.variables.contains(name)
            &&& p.text == infix_text(left.text, infix, right.text)
        }),
{
}

/// The operands stand in brackets with what joins them in between.
pub proof fn operands_stand_in_brackets(left: Seq<char>, infix: Seq<char>, right: Seq<char>)
    ensures
        ({
            let t = infix_text(left, infix, right);
            let n = left.len() as int;
            let m = infix.len() as int;
            &&& t.len() == n + m + right.len() + 4
            &&& t[0] == '(' && t[n + 1] == ')' && t[n + m + 2] == '(' && t[t.len() - 1] == ')'
            &&& t.subrange(1, n + 1) == left
            &&& t.subrange(n + 2, n + m + 2) == infix
            &&& t.subrange(n + m + 3, t.len() - 1) == right
        }),
{
    reveal_strlit("(");
    reveal_strlit(")");
    let t = infix_text(left, infix, right);
    let n = left.len() as int;
    let m = infix.len() as int;
    assert(t.subrange(1, n + 1) =~= left);
    assert(t.subrange(n + 2, n + m + 2) =~= infix);
    assert(t.subrange(n + m + 3, t.len() - 1) =~= right);
}

/// What a conjunction does is what its state says, and goes on from the state an event leaves.
pub proof fn conjunctions_behave_as_their_state_says<T, C, Y, const IS_EAGER: bool, const IS_ROSI: bool>(
    op: And<T, C, Y, IS_EAGER, IS_ROSI>,
    event: Event<T>,
) where C: RingBufferTrait<Value = Y>, Y: RobustnessSemantics
    ensures
        op.behavior().emits(event) == op.state().emit(event),
        op.behavior().known_now() == op.state().known(),
        op.behavior().after(event) == behavior_of(op.state().next(event)),
{
    machines_behave_as_they_are_made(op.state(), event);
}

/// What a disjunction does is what its state says, and goes on from the state an event leaves.
pub proof fn disjunctions_behave_as_their_state_says<T, C, Y, const IS_EAGER: bool, const IS_ROSI: bool>(
    op: Or<T, C, Y, IS_EAGER, IS_ROSI>,
    event: Event<T>,
) where C: RingBufferTrait<Value = Y>, Y: RobustnessSemantics
    ensures
        op.behavior().emits(event) == op.state().emit(event),
        op.behavior().known_now() == op.state().known(),
        op.behavior().after(event) == behavior_of(op.state().next(event)),
{
    machines_behave_as_they_are_made(op.state(), event);
}

/// What an until does is what its state says, and goes on from the state an event leaves.
pub proof fn untils_behave_as_their_state_says<T, C, Y, const IS_EAGER: bool, const IS_ROSI: bool>(
    op: Until<T, C, Y, IS_EAGER, IS_ROSI>,
    event: Event<T>,
) where C: RingBufferTrait<Value = Y>, Y: RobustnessSemantics
    ensures
        op.behavior().emits(event) == op.state().emit(event),
        op.behavior().known_now() == op.state().known(),
        op.behavior().after(event) == behavior_of(op.state().next(event)),
{
    machines_behave_as_they_are_made(op.state(), event);
}

/// What a predicate does is what its state says, and goes on from the state an event leaves; it
/// needs its variable, if it reads one, for the samples it compares.
pub proof fn predicates_behave_as_their_state_says<V: SignalValue, Y: AtomicSemantics<V>>(
    op: Atomic<V, Y>,
    event: Event<V>,
    step: Step<V>,
)
    ensures
        op.behavior().emits(event) == Machine::<V, Y>::emit(op.state(), event),
        op.behavior().known_now() == Machine::<V, Y>::known(op.state()),
        op.behavior().after(event) == behavior_of::<V, Y, AtomicState<V>>(
            Machine::<V, Y>::next(op.state(), event),
        ),
        op.profile() == op.state().profile(),
        op.ready(step) <==> match op.state().comparison {
            Comparison::Less(signal, Bound::Variable(name)) => signal == step.signal@
                ==> op.state().context.contains_key(name),
            Comparison::Greater(signal, Bound::Variable(name)) => signal == step.signal@
                ==> op.state().context.contains_key(name),
            _ => true,
        },
        forall|bytes: usize| #[trigger]
            op.takes(bytes) <==> bytes == vstd::layout::size_of::<Atomic<V, Y>>(),
{
    machines_behave_as_they_are_made::<V, Y, AtomicState<V>>(op.state(), event);
    a_new_predicate_reads_what_it_names(
        op.state().comparison,
        op.state().context,
        step.signal@,
    );
    assert(op.state().profile() == op.state().profile());
}

/// A cache that is handed over is used as it is, and none stands for an empty one. It has to be
/// in time order, within the range of time.
pub proof fn caches_are_used_as_they_are<C: RingBufferTrait>(cache: C, given: Option<C>)
    ensures
        cached(Some(cache)) == cache.entries(),
        cached(None::<C>).len() == 0,
        is_usable(given) <==> {
            let s = cached(given);
            &&& forall|i: int, j: int|
                0 <= i < j < s.len() ==> (#[trigger] s[i]).timestamp < (#[trigger] s[j]).timestamp
            &&& forall|i: int| 0 <= i < s.len() ==> (#[trigger] s[i]).timestamp <= MAX_TIME
        },
{
}

} // verus!
