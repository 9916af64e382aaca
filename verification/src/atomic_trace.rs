//! What an atomic predicate over a signal held between its samples says of a whole trace.

use crate::atomic_operators::AtomicState;
use crate::binary_stream_laws::{held_on, newest};
use crate::operands::OperandsState;
use crate::operator::{behavior_of, lemma_behavior_of_next, Event};
use crate::ring_buffer::{all_upto, count_upto, in_force, in_order, lemma_count_upto, Step};
use crate::semantics::{AtomicSemantics, RobustnessSemantics, SignalValue};
use crate::synchronizer::SignalInterpolation;
use crate::time::{Time, FOREVER, MAX_TIME};
use vstd::prelude::*;

verus! {

/// The predicate compares a signal that is held between its samples.
pub open spec fn is_held<V: SignalValue>(atom: AtomicState<V>) -> bool {
    atom.interpolation == SignalInterpolation::ZeroOrderHold && atom.comparison.signal() is Some
}

/// The signal that is compared.
pub open spec fn signal_of<V: SignalValue>(atom: AtomicState<V>) -> Seq<char> {
    atom.comparison.signal()->0
}

/// Timestamps rise strictly from each sample of a signal to its next one.
pub open spec fn rises_per_signal<V>(steps: Seq<Step<V>>) -> bool {
    &&& forall|i: int, j: int|
        0 <= i < j < steps.len() && steps[i].signal@ == steps[j].signal@ ==> (
        #[trigger] steps[i]).timestamp < (#[trigger] steps[j]).timestamp
    &&& all_upto(steps, MAX_TIME)
}

/// The samples of a signal.
pub open spec fn samples<V>(steps: Seq<Step<V>>, signal: Seq<char>) -> Seq<Step<V>>
    decreases steps.len(),
{
    if steps.len() == 0 {
        Seq::empty()
    } else if steps.last().signal@ == signal {
        samples(steps.drop_last(), signal).push(steps.last())
    } else {
        samples(steps.drop_last(), signal)
    }
}

/// The value a signal holds at `t`: that of its newest sample by then.
pub open spec fn held_at<V>(steps: Seq<Step<V>>, signal: Seq<char>, t: Time) -> Option<V> {
    let s = samples(steps, signal);
    let n = count_upto(s, t);
    if n > 0 {
        Some(s[n - 1].value)
    } else {
        None
    }
}

/// Whether a signal is sampled at `t`.
pub open spec fn is_sampled_at<V>(steps: Seq<Step<V>>, signal: Seq<char>, t: Time) -> bool {
    exists|i: int|
        0 <= i < steps.len() && (#[trigger] steps[i]).signal@ == signal && steps[i].timestamp == t
}

/// The time of the first sample of a signal.
pub open spec fn first_sample<V>(steps: Seq<Step<V>>, signal: Seq<char>) -> Option<Time> {
    let s = samples(steps, signal);
    if s.len() == 0 {
        None
    } else {
        Some(s[0].timestamp)
    }
}

/// The time of the last sample of a signal.
pub open spec fn last_sample<V>(steps: Seq<Step<V>>, signal: Seq<char>) -> Option<Time> {
    newest(samples(steps, signal))
}

/// The verdicts a predicate gives over a trace.
pub open spec fn verdicts_of<V: SignalValue, Y: AtomicSemantics<V>>(
    atom: AtomicState<V>,
    steps: Seq<Step<V>>,
) -> Seq<Step<Y>> {
    let s = samples(steps, signal_of(atom));
    Seq::new(s.len(), |i: int| atom.answer::<Y>(s[i].value, s[i].timestamp))
}

/// Two predicates as operands that are handed the samples they read.
pub open spec fn routed<V: SignalValue, Y: AtomicSemantics<V>>(
    a: AtomicState<V>,
    b: AtomicState<V>,
) -> OperandsState<V, Y> {
    OperandsState {
        left: behavior_of::<V, Y, AtomicState<V>>(a),
        right: behavior_of::<V, Y, AtomicState<V>>(b),
        left_reads: a.profile().identifiers,
        right_reads: b.profile().identifiers,
        left_signals: a.profile().identifiers,
        right_signals: b.profile().identifiers,
    }
}

/// Samples of a signal are listed in the order of the trace.
pub proof fn lemma_samples<V>(steps: Seq<Step<V>>, signal: Seq<char>)
    requires
        rises_per_signal(steps),
    ensures
        in_order(samples(steps, signal)),
        all_upto(samples(steps, signal), MAX_TIME),
        forall|t: Time| #[trigger]
            is_sampled_at(steps, signal, t) <==> crate::ring_buffer::has_entry_at(
                samples(steps, signal),
                t,
            ),
        forall|i: int|
            0 <= i < samples(steps, signal).len() ==> (#[trigger] samples(steps, signal)[i]).signal@
                == signal,
    decreases steps.len(),
{
    let s = samples(steps, signal);
    if steps.len() > 0 {
        let before = steps.drop_last();
        let last = steps.last();
        assert(rises_per_signal(before)) by {
            assert forall|i: int, j: int|
                0 <= i < j < before.len() && before[i].signal@ == before[j].signal@ implies (
            #[trigger] before[i]).timestamp < (#[trigger] before[j]).timestamp by {
                assert(before[i] == steps[i] && before[j] == steps[j]);
            }
            assert forall|i: int| 0 <= i < before.len() implies (#[trigger] before[i]).timestamp
                <= MAX_TIME by {
                assert(before[i] == steps[i]);
            }
        }
        lemma_samples(before, signal);
        let p = samples(before, signal);
        assert(steps[steps.len() - 1].timestamp <= MAX_TIME);
        if last.signal@ == signal {
            assert forall|i: int| 0 <= i < p.len() implies (#[trigger] p[i]).timestamp
                < last.timestamp by {
                assert(crate::ring_buffer::has_entry_at(p, p[i].timestamp));
                assert(is_sampled_at(before, signal, p[i].timestamp));
                let k = choose|k: int|
                    0 <= k < before.len() && (#[trigger] before[k]).signal@ == signal
                        && before[k].timestamp == p[i].timestamp;
                assert(steps[k] == before[k]);
                assert(steps[k].timestamp < steps[steps.len() - 1].timestamp);
            }
        }
        assert forall|t: Time| #[trigger]
            is_sampled_at(steps, signal, t) == crate::ring_buffer::has_entry_at(s, t) by {
            if is_sampled_at(steps, signal, t) {
                let k = choose|k: int|
                    0 <= k < steps.len() && (#[trigger] steps[k]).signal@ == signal
                        && steps[k].timestamp == t;
                if k < before.len() {
                    assert(before[k] == steps[k]);
                    assert(is_sampled_at(before, signal, t));
                    let i = choose|i: int| 0 <= i < p.len() && (#[trigger] p[i]).timestamp == t;
                    assert(s[i] == p[i]);
                } else {
                    assert(s[s.len() - 1] == last);
                }
            }
            if crate::ring_buffer::has_entry_at(s, t) {
                let i = choose|i: int| 0 <= i < s.len() && (#[trigger] s[i]).timestamp == t;
                if i < p.len() {
                    assert(p[i] == s[i]);
                    assert(crate::ring_buffer::has_entry_at(p, t));
                    assert(is_sampled_at(before, signal, t));
                    let k = choose|k: int|
                        0 <= k < before.len() && (#[trigger] before[k]).signal@ == signal
                            && before[k].timestamp == t;
                    assert(steps[k] == before[k]);
                } else {
                    assert(steps[steps.len() - 1] == last);
                }
            }
        }
    } else {
        assert forall|t: Time| !is_sampled_at(steps, signal, t) by {}
    }
}

/// Part of a trace rises as the whole does.
pub proof fn lemma_rises_before<V>(steps: Seq<Step<V>>, k: int)
    requires
        rises_per_signal(steps),
        0 <= k <= steps.len(),
    ensures
        rises_per_signal(steps.take(k)),
{
    let before = steps.take(k);
    assert forall|i: int, j: int|
        0 <= i < j < before.len() && before[i].signal@ == before[j].signal@ implies (
    #[trigger] before[i]).timestamp < (#[trigger] before[j]).timestamp by {
        assert(before[i] == steps[i] && before[j] == steps[j]);
    }
    assert forall|i: int| 0 <= i < before.len() implies (#[trigger] before[i]).timestamp
        <= MAX_TIME by {
        assert(before[i] == steps[i]);
    }
}

/// Lists with the same timestamps are counted alike.
pub proof fn lemma_same_counts<A, B>(s: Seq<Step<A>>, r: Seq<Step<B>>, t: Time)
    requires
        s.len() == r.len(),
        forall|i: int| 0 <= i < s.len() ==> (#[trigger] s[i]).timestamp == r[i].timestamp,
    ensures
        count_upto(s, t) == count_upto(r, t),
    decreases s.len(),
{
    if s.len() > 0 {
        assert(s[s.len() - 1].timestamp == r[r.len() - 1].timestamp);
        assert forall|i: int| 0 <= i < s.len() - 1 implies (#[trigger] s.drop_last()[i]).timestamp
            == r.drop_last()[i].timestamp by {
            assert(s[i].timestamp == r[i].timestamp);
        }
        lemma_same_counts(s.drop_last(), r.drop_last(), t);
    }
}

/// The verdicts over a trace come in time order, are held on, and are those of the values the
/// signal holds.
pub proof fn lemma_verdicts<V: SignalValue, Y: AtomicSemantics<V>>(
    atom: AtomicState<V>,
    steps: Seq<Step<V>>,
)
    requires
        rises_per_signal(steps),
    ensures
        in_order(verdicts_of::<V, Y>(atom, steps)),
        all_upto(verdicts_of::<V, Y>(atom, steps), MAX_TIME),
        held_on(verdicts_of::<V, Y>(atom, steps)),
        newest(verdicts_of::<V, Y>(atom, steps)) == last_sample(steps, signal_of(atom)),
        forall|t: Time|
            t < FOREVER ==> (#[trigger] in_force(verdicts_of::<V, Y>(atom, steps), t) is Some) == (held_at(
                steps,
                signal_of(atom),
                t,
            ) is Some),
        forall|t: Time|
            t < FOREVER && held_at(steps, signal_of(atom), t) is Some ==> (#[trigger] in_force(
                verdicts_of::<V, Y>(atom, steps),
                t,
            ))->0.value == atom.comparison.verdict::<Y>(
                atom.context,
                held_at(steps, signal_of(atom), t)->0,
            ),
        forall|t: Time| t <= MAX_TIME ==> #[trigger]
            crate::ring_buffer::has_entry_at(verdicts_of::<V, Y>(atom, steps), t)
                == is_sampled_at(steps, signal_of(atom), t),
{
    let s = samples(steps, signal_of(atom));
    let v = verdicts_of::<V, Y>(atom, steps);
    lemma_samples(steps, signal_of(atom));
    assert forall|t: Time|
        #![trigger in_force(v, t)]
        t < FOREVER implies (in_force(v, t) is Some) == (held_at(steps, signal_of(atom), t) is Some) && (held_at(
            steps,
            signal_of(atom),
            t,
        ) is Some ==> in_force(v, t)->0.value == atom.comparison.verdict::<Y>(
            atom.context,
            held_at(steps, signal_of(atom), t)->0,
        )) by {
        lemma_same_counts(v, s, t);
        lemma_count_upto(s, t);
        let n = count_upto(s, t);
        if n > 0 {
            assert(s[n - 1].timestamp <= MAX_TIME);
            assert(v[n - 1].held_until > t);
        }
    }
    assert forall|t: Time| t <= MAX_TIME implies #[trigger] crate::ring_buffer::has_entry_at(v, t)
        == is_sampled_at(steps, signal_of(atom), t) by {
        if crate::ring_buffer::has_entry_at(v, t) {
            let i = choose|i: int| 0 <= i < v.len() && (#[trigger] v[i]).timestamp == t;
            assert(s[i].timestamp == t);
            assert(crate::ring_buffer::has_entry_at(s, t));
        }
        if is_sampled_at(steps, signal_of(atom), t) {
            assert(crate::ring_buffer::has_entry_at(s, t));
            let i = choose|i: int| 0 <= i < s.len() && (#[trigger] s[i]).timestamp == t;
            assert(v[i].timestamp == t);
        }
    }
}

/// A predicate over a held signal emits one verdict on each sample of its signal and none on
/// any other, and never has gaps.
pub proof fn lemma_emits<V: SignalValue, Y: AtomicSemantics<V>>(
    a: AtomicState<V>,
    b: AtomicState<V>,
    step: Step<V>,
)
    requires
        is_held(a),
        is_held(b),
    ensures
        ({
            let operands = routed::<V, Y>(a, b);
            let event = Event::Sample(step);
            &&& operands.left_emits(event) == (if step.signal@ == signal_of(a) {
                seq![a.answer::<Y>(step.value, step.timestamp)]
            } else {
                Seq::empty()
            })
            &&& operands.right_emits(event) == (if step.signal@ == signal_of(b) {
                seq![b.answer::<Y>(step.value, step.timestamp)]
            } else {
                Seq::empty()
            })
            &&& operands.next(event).left.known_now() is None
            &&& operands.next(event).right.known_now() is None
        }),
{
    let event = Event::Sample(step);
    lemma_behavior_of_next::<V, Y, AtomicState<V>>(a, event);
    lemma_behavior_of_next::<V, Y, AtomicState<V>>(b, event);
    lemma_unchanged::<V, Y>(a, b, step);
    assert(a.profile().identifiers.contains(signal_of(a)));
    assert(b.profile().identifiers.contains(signal_of(b)));
}

/// A predicate over a held signal is after a sample as it was before.
pub proof fn lemma_unchanged<V: SignalValue, Y: AtomicSemantics<V>>(
    a: AtomicState<V>,
    b: AtomicState<V>,
    step: Step<V>,
)
    requires
        is_held(a),
        is_held(b),
    ensures
        stays(routed::<V, Y>(a, b), Event::Sample(step)),
{
    let event = Event::Sample(step);
    let operands = routed::<V, Y>(a, b);
    lemma_behavior_of_next::<V, Y, AtomicState<V>>(a, event);
    lemma_behavior_of_next::<V, Y, AtomicState<V>>(b, event);
    assert(a.after_sample(step) =~= a);
    assert(b.after_sample(step) =~= b);
}

/// `event` leaves the operands as they are.
pub open spec fn stays<V, Y>(operands: OperandsState<V, Y>, event: Event<V>) -> bool {
    operands.next(event) == operands
}

/// The verdicts over a trace grow by what its last step emits.
pub proof fn lemma_verdicts_grow<V: SignalValue, Y: AtomicSemantics<V>>(
    atom: AtomicState<V>,
    steps: Seq<Step<V>>,
)
    requires
        steps.len() > 0,
    ensures
        verdicts_of::<V, Y>(atom, steps) == verdicts_of::<V, Y>(atom, steps.drop_last()) + (
        if steps.last().signal@ == signal_of(atom) {
            seq![atom.answer::<Y>(steps.last().value, steps.last().timestamp)]
        } else {
            Seq::empty()
        }),
{
    assert(verdicts_of::<V, Y>(atom, steps) =~= verdicts_of::<V, Y>(atom, steps.drop_last()) + (
    if steps.last().signal@ == signal_of(atom) {
        seq![atom.answer::<Y>(steps.last().value, steps.last().timestamp)]
    } else {
        Seq::empty()
    }));
}

/// Two predicates as operands before it is known what they read.
pub open spec fn unrouted<V: SignalValue, Y: AtomicSemantics<V>>(
    a: AtomicState<V>,
    b: AtomicState<V>,
) -> OperandsState<V, Y> {
    OperandsState {
        left_signals: Set::empty(),
        right_signals: Set::empty(),
        ..routed::<V, Y>(a, b)
    }
}

/// Collecting the signals that are read routes the operands.
pub proof fn lemma_routed<V: SignalValue, Y: AtomicSemantics<V>>(
    a: AtomicState<V>,
    b: AtomicState<V>,
)
    ensures
        unrouted::<V, Y>(a, b).next(Event::Route) == routed::<V, Y>(a, b),
{
    let next = unrouted::<V, Y>(a, b).next(Event::Route);
    lemma_behavior_of_next::<V, Y, AtomicState<V>>(a, Event::Route);
    lemma_behavior_of_next::<V, Y, AtomicState<V>>(b, Event::Route);
    assert(next.left_signals =~= a.profile().identifiers);
    assert(next.right_signals =~= b.profile().identifiers);
}

} // verus!
