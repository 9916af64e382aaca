//! What a predicate makes of a sample, in every domain of verdicts: which ones it answers, when
//! and with what, and what it remembers.

use crate::atomic_operators::{bound_text, crossing, AtomicState, Bound, Comparison, Predicate};
use crate::operator::{Event, Machine};
use crate::ring_buffer::Step;
use crate::semantics::{AtomicSemantics, SignalValue};
use crate::synchronizer::SignalInterpolation;
use crate::time::{Time, FOREVER};
use vstd::prelude::*;

verus! {

/// `v` is the verdict on `value`: of `value < c` or `value > c` for the threshold `c`, given or
/// bound to a variable, or the constant.
pub open spec fn is_verdict<V: SignalValue, Y: AtomicSemantics<V>>(
    s: AtomicState<V>,
    value: V,
    v: Y,
) -> bool {
    match s.comparison {
        Comparison::Less(_, Bound::Constant(c)) => v == Y::less_than_spec(value, c),
        Comparison::Less(_, Bound::Variable(name)) => v == Y::less_than_spec(
            value,
            s.context[name],
        ),
        Comparison::Greater(_, Bound::Constant(c)) => v == Y::greater_than_spec(value, c),
        Comparison::Greater(_, Bound::Variable(name)) => v == Y::greater_than_spec(
            value,
            s.context[name],
        ),
        Comparison::True => v == Y::true_spec(),
        Comparison::False => v == Y::false_spec(),
    }
}

/// Whether a sample is of the signal that is compared; the constants take any.
pub open spec fn is_read<V: SignalValue>(comparison: Comparison<V>, step: Step<V>) -> bool {
    match comparison {
        Comparison::Less(signal, _) => signal == step.signal@,
        Comparison::Greater(signal, _) => signal == step.signal@,
        Comparison::True => true,
        Comparison::False => true,
    }
}

/// Whether a sample can show that the signal crossed a threshold, and which one: only where
/// signals run straight between samples, and only if there is a threshold.
pub open spec fn is_watched<V: SignalValue>(s: AtomicState<V>, c: V) -> bool {
    &&& s.interpolation == SignalInterpolation::Linear
    &&& match s.comparison {
        Comparison::Less(_, Bound::Constant(own)) => c == own,
        Comparison::Less(_, Bound::Variable(name)) => c == s.context[name],
        Comparison::Greater(_, Bound::Constant(own)) => c == own,
        Comparison::Greater(_, Bound::Variable(name)) => c == s.context[name],
        _ => false,
    }
}

/// A sample of a held signal, or one that meets a constant, is answered at once: by one verdict,
/// at its own time, and nothing is remembered of it. A sample of another signal is passed over.
pub proof fn held_samples_are_answered_at_once<V: SignalValue, Y: AtomicSemantics<V>>(
    s: AtomicState<V>,
    step: Step<V>,
)
    requires
        s.interpolation == SignalInterpolation::ZeroOrderHold || s.comparison is True
            || s.comparison is False,
    ensures
        ({
            let out: Seq<Step<Y>> = s.emit(Event::Sample(step));
            &&& is_read(s.comparison, step) ==> out.len() == 1 && out[0].timestamp
                == step.timestamp && is_verdict(s, step.value, out[0].value) && out[0].signal
                == "output" && out[0].held_until == FOREVER
            &&& !is_read(s.comparison, step) ==> out.len() == 0
            &&& Machine::<V, Y>::next(s, Event::Sample(step)) == s
        }),
{
}

/// A sample of a signal that runs straight is answered at its own time, unless it is on the
/// threshold itself: then its verdict is withheld until the next sample. Before that comes one
/// verdict on the time since the previous sample at most, with the value of the new one: at the
/// previous sample, if its verdict was withheld, and else where the signal crossed the
/// threshold, if the two samples compare differently with it.
pub proof fn straight_samples_are_answered_from_the_crossing_on<
    V: SignalValue,
    Y: AtomicSemantics<V>,
>(s: AtomicState<V>, step: Step<V>, c: V)
    requires
        is_watched(s, c),
        is_read(s.comparison, step),
    ensures
        ({
            let out: Seq<Step<Y>> = s.emit(Event::Sample(step));
            let on = V::equal_spec(step.value, c);
            let differ = |a: V, b: V|
                match s.comparison {
                    Comparison::Less(_, _) => V::greater_spec(c, a) != V::greater_spec(c, b),
                    _ => V::greater_spec(a, c) != V::greater_spec(b, c),
                };
            let between: Option<Time> = match s.prev {
                None => None,
                Some((t, v)) => if s.deferred {
                    Some(t)
                } else if differ(v, step.value) {
                    crossing(t, v, step.timestamp, step.value, c)
                } else {
                    None
                },
            };
            let first: int = if between is Some {
                1
            } else {
                0
            };
            let own: int = if on {
                0
            } else {
                1
            };
            &&& out.len() == first + own
            &&& between is Some ==> out[0].timestamp == between->0
            &&& !on ==> out[first].timestamp == step.timestamp
            &&& forall|k: int|
                0 <= k < out.len() ==> is_verdict(s, step.value, (#[trigger] out[k]).value)
                    && out[k].signal == "output" && out[k].held_until == FOREVER
            &&& Machine::<V, Y>::next(s, Event::Sample(step)) == (AtomicState {
                prev: Some((step.timestamp, step.value)),
                deferred: on,
                ..s
            })
        }),
{
}

/// A sample of a signal that is not compared is neither answered nor remembered.
pub proof fn other_signals_are_passed_over<V: SignalValue, Y: AtomicSemantics<V>>(
    s: AtomicState<V>,
    step: Step<V>,
)
    requires
        !is_read(s.comparison, step),
    ensures
        Machine::<V, Y>::emit(s, Event::Sample(step)).len() == 0,
        Machine::<V, Y>::next(s, Event::Sample(step)) == s,
{
}

/// Only samples are answered, without gaps. A reset forgets the previous sample, and binding
/// variables replaces those of a predicate that reads one; nothing else changes.
pub proof fn predicates_answer_samples_only<V: SignalValue, Y: AtomicSemantics<V>>(
    s: AtomicState<V>,
    event: Event<V>,
)
    requires
        !(event is Sample),
    ensures
        Machine::<V, Y>::emit(s, event).len() == 0,
        Machine::<V, Y>::known(s) is None,
        ({
            let next = Machine::<V, Y>::next(s, event);
            let reads_a_variable = match s.comparison {
                Comparison::Less(_, bound) => bound is Variable,
                Comparison::Greater(_, bound) => bound is Variable,
                _ => false,
            };
            &&& next.comparison == s.comparison
            &&& next.interpolation == s.interpolation
            &&& event is Reset ==> next.prev is None && !next.deferred
            &&& !(event is Reset) ==> next.prev == s.prev && next.deferred == s.deferred
            &&& event matches Event::Bind(context) ==> next.context == (if reads_a_variable {
                context
            } else {
                s.context
            })
            &&& !(event is Bind) ==> next.context == s.context
        }),
{
    match s.comparison {
        Comparison::Less(_, Bound::Variable(name)) => {
            assert(s.comparison.variables().contains(name));
        },
        Comparison::Greater(_, Bound::Variable(name)) => {
            assert(s.comparison.variables().contains(name));
        },
        _ => {
            assert(s.comparison.variables() =~= Set::empty());
        },
    }
}

/// A new predicate holds its signal, remembers nothing, looks no way ahead, and reads what it
/// names.
pub proof fn a_new_predicate_reads_what_it_names<V: SignalValue>(
    comparison: Comparison<V>,
    context: Map<Seq<char>, V>,
    name: Seq<char>,
)
    ensures
        ({
            let s = AtomicState::initial(comparison, context);
            &&& s.comparison == comparison
            &&& s.context == context
            &&& s.interpolation == SignalInterpolation::ZeroOrderHold
            &&& s.prev is None
            &&& !s.deferred
        }),
        forall|s: AtomicState<V>|
            s.comparison == comparison ==> {
                let p = #[trigger] s.profile();
                &&& p.lookahead == 0
                &&& p.identifiers.contains(name) <==> match comparison {
                    Comparison::Less(signal, _) => name == signal,
                    Comparison::Greater(signal, _) => name == signal,
                    _ => false,
                }
                &&& p.variables.contains(name) <==> match comparison {
                    Comparison::Less(_, Bound::Variable(own)) => name == own,
                    Comparison::Greater(_, Bound::Variable(own)) => name == own,
                    _ => false,
                }
                &&& p.text == comparison.text()
                &&& s.is_bound() <==> match comparison {
                    Comparison::Less(_, Bound::Variable(own)) => s.context.contains_key(own),
                    Comparison::Greater(_, Bound::Variable(own)) => s.context.contains_key(own),
                    _ => true,
                }
            },
{
    assert forall|s: AtomicState<V>| s.comparison == comparison implies {
        #[trigger] s.profile().text == s.profile().text && (s.is_bound() <==> match comparison {
            Comparison::Less(_, Bound::Variable(own)) => s.context.contains_key(own),
            Comparison::Greater(_, Bound::Variable(own)) => s.context.contains_key(own),
            _ => true,
        })
    } by {
        match comparison {
            Comparison::Less(_, Bound::Variable(own)) => {
                assert(comparison.variables().contains(own));
            },
            Comparison::Greater(_, Bound::Variable(own)) => {
                assert(comparison.variables().contains(own));
            },
            _ => {},
        }
    }
}

/// What a predicate stands for is what it is made of.
pub proof fn predicates_stand_for_their_comparison<V: SignalValue>(predicate: Predicate<V>)
    ensures
        match predicate {
            Predicate::LessThan(signal, c) => predicate@ == Comparison::Less(
                signal@,
                Bound::Constant(c),
            ),
            Predicate::GreaterThan(signal, c) => predicate@ == Comparison::Greater(
                signal@,
                Bound::Constant(c),
            ),
            Predicate::LessThanVar(signal, name, vars) => predicate@ == Comparison::<V>::Less(
                signal@,
                Bound::Variable(name@),
            ) && predicate.context() == vars@,
            Predicate::GreaterThanVar(signal, name, vars) => predicate@ == Comparison::<
                V,
            >::Greater(signal@, Bound::Variable(name@)) && predicate.context() == vars@,
            Predicate::True => predicate@ == Comparison::<V>::True,
            Predicate::False => predicate@ == Comparison::<V>::False,
        },
{
}

/// How a predicate is written: its signal, the relation and the threshold, a variable being
/// marked with a dollar sign.
pub proof fn predicates_are_written_as_comparisons<V: SignalValue>(
    signal: Seq<char>,
    name: Seq<char>,
    c: V,
)
    ensures
        bound_text(Bound::Constant(c)) == V::text_spec(c),
        bound_text::<V>(Bound::Variable(name)) == seq!['$'] + name,
        forall|bound: Bound<V>| #[trigger]
            Comparison::Less(signal, bound).text() == signal + seq![' ', '<', ' '] + bound_text(
                bound,
            ),
        forall|bound: Bound<V>| #[trigger]
            Comparison::Greater(signal, bound).text() == signal + seq![' ', '>', ' '] + bound_text(
                bound,
            ),
        Comparison::<V>::True.text() == seq!['T', 'r', 'u', 'e'],
        Comparison::<V>::False.text() == seq!['F', 'a', 'l', 's', 'e'],
{
    reveal_strlit("$");
    reveal_strlit(" < ");
    reveal_strlit(" > ");
    reveal_strlit("True");
    reveal_strlit("False");
    assert("$"@ =~= seq!['$']);
    assert(" < "@ =~= seq![' ', '<', ' ']);
    assert(" > "@ =~= seq![' ', '>', ' ']);
    assert("True"@ =~= seq!['T', 'r', 'u', 'e']);
    assert("False"@ =~= seq!['F', 'a', 'l', 's', 'e']);
}

} // verus!
