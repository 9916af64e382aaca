//! What the synchronizer promises of the steps it admits.

use crate::memory::{countable, room_for};
use crate::ring_buffer::Step;
use crate::synchronizer::{collected, defines_from_zero, SignalInterpolation, SynchronizerView};
use crate::text::lemma_name_order;
use crate::time::Time;
use vstd::prelude::*;

verus! {

/// Admitted steps rise strictly per signal and are remembered, and no signal that has been
/// sampled is still owed an initial value.
pub open spec fn is_consistent<T>(view: SynchronizerView<T>) -> bool {
    &&& forall|n: Seq<char>| #[trigger]
        view.pending_inits.contains_key(n) ==> !view.last_timestamps.contains_key(n)
    &&& forall|i: int|
        0 <= i < view.pending.len() ==> {
            let step = #[trigger] view.pending[i];
            &&& view.last_timestamps.contains_key(step.signal@)
            &&& step.timestamp <= view.last_timestamps[step.signal@]
        }
    &&& forall|i: int, j: int|
        0 <= i < j < view.pending.len() && view.pending[i].signal@ == view.pending[j].signal@
            ==> (#[trigger] view.pending[i]).timestamp < (#[trigger] view.pending[j]).timestamp
}

/// A new synchronizer is consistent, and stays so when initial values are set, at whatever
/// time, when it is reset, and when steps are drained. A signal that has been sampled is owed
/// no initial value that is set afterwards.
pub proof fn consistency_is_established<T>(
    interpolation: SignalInterpolation,
    view: SynchronizerView<T>,
    values: Map<Seq<char>, T>,
)
    ensures
        is_consistent(SynchronizerView::<T>::initial(interpolation)),
        is_consistent(view) ==> is_consistent(
            (SynchronizerView {
                initial_values: values,
                pending_inits: values.remove_keys(view.last_timestamps.dom()),
                ..view
            }),
        ),
        forall|n: Seq<char>| #[trigger]
            values.remove_keys(view.last_timestamps.dom()).contains_key(n)
                <==> values.contains_key(n) && !view.last_timestamps.contains_key(n),
        is_consistent(view.rearmed()),
        is_consistent(view) && view.pending.len() > 0 ==> is_consistent(
            (SynchronizerView { pending: view.pending.skip(1), ..view }),
        ),
{
    let drained = SynchronizerView { pending: view.pending.skip(1), ..view };
    if is_consistent(view) && view.pending.len() > 0 {
        assert forall|i: int| 0 <= i < drained.pending.len() implies {
            let step = #[trigger] drained.pending[i];
            &&& drained.last_timestamps.contains_key(step.signal@)
            &&& step.timestamp <= drained.last_timestamps[step.signal@]
        } by {
            assert(drained.pending[i] == view.pending[i + 1]);
        }
        assert forall|i: int, j: int|
            0 <= i < j < drained.pending.len() && drained.pending[i].signal@
                == drained.pending[j].signal@ implies (#[trigger] drained.pending[i]).timestamp < (
        #[trigger] drained.pending[j]).timestamp by {
            assert(drained.pending[i] == view.pending[i + 1]);
            assert(drained.pending[j] == view.pending[j + 1]);
        }
    }
}

/// Admitting a step keeps every signal rising strictly.
pub proof fn admitted_steps_rise_per_signal<T>(
    view: SynchronizerView<T>,
    step: Step<T>,
    flushed: Seq<Step<T>>,
)
    requires
        is_consistent(view),
        view.admits(step),
        defines_from_zero(flushed, view.due(step)),
    ensures
        is_consistent(view.after_admitting(step, flushed)),
{
    let after = view.after_admitting(step, flushed);
    let n = view.pending.len();
    let m = flushed.len();
    assert forall|i: int| 0 <= i < after.pending.len() implies {
        let s = #[trigger] after.pending[i];
        &&& after.last_timestamps.contains_key(s.signal@)
        &&& s.timestamp <= after.last_timestamps[s.signal@]
    } by {
        if i < n {
            let s = view.pending[i];
            assert(after.pending[i] == s);
            assert(!view.due(step).contains_key(s.signal@)) by {
                if view.due(step).contains_key(s.signal@) {
                    assert(view.pending_inits.contains_key(s.signal@));
                }
            }
        } else if i < n + m {
            assert(after.pending[i] == flushed[i - n]);
        }
    }
    assert forall|i: int, j: int|
        0 <= i < j < after.pending.len() && after.pending[i].signal@
            == after.pending[j].signal@ implies (#[trigger] after.pending[i]).timestamp < (
    #[trigger] after.pending[j]).timestamp by {
        let a = after.pending[i];
        let b = after.pending[j];
        if j < n {
            assert(a == view.pending[i]);
            assert(b == view.pending[j]);
        } else if j < n + m {
            assert(b == flushed[j - n]);
            assert(view.pending_inits.contains_key(b.signal@));
            if i < n {
                assert(a == view.pending[i]);
            } else {
                assert(a == flushed[i - n]);
                lemma_name_order(a.signal@, b.signal@);
            }
        } else {
            assert(b == step);
            if i < n {
                assert(a == view.pending[i]);
            } else {
                assert(a == flushed[i - n]);
            }
        }
    }
    assert forall|k: Seq<char>| #[trigger]
        after.pending_inits.contains_key(k) implies !after.last_timestamps.contains_key(k) by {
        assert(view.pending_inits.contains_key(k));
        assert(step.timestamp == 0);
        assert(!view.due(step).contains_key(k));
    }
}

/// Only real steps are forwarded: what is appended besides the step itself is an initial value
/// still owed, at time zero. Where none is owed, or the step is itself at time zero, nothing is.
pub proof fn only_real_steps_are_forwarded<T>(
    view: SynchronizerView<T>,
    step: Step<T>,
    flushed: Seq<Step<T>>,
)
    requires
        defines_from_zero(flushed, view.due(step)),
    ensures
        view.after_admitting(step, flushed).pending == view.pending + flushed + seq![step],
        forall|i: int|
            0 <= i < flushed.len() ==> (#[trigger] flushed[i]).timestamp == 0
                && view.pending_inits.contains_key(flushed[i].signal@) && flushed[i].value
                == view.pending_inits[flushed[i].signal@],
        view.pending_inits.dom() =~= Set::empty() || step.timestamp == 0 ==> view.after_admitting(
            step,
            flushed,
        ).pending == view.pending.push(step),
{
    let after = view.after_admitting(step, flushed);
    assert(after.pending =~= view.pending + flushed + seq![step]);
    if view.pending_inits.dom() =~= Set::empty() || step.timestamp == 0 {
        assert(flushed.len() == 0) by {
            if flushed.len() > 0 {
                let s = flushed[0];
                assert(view.due(step).contains_key(s.signal@));
                assert(view.pending_inits.dom().contains(s.signal@));
            }
        }
        assert(after.pending =~= view.pending.push(step));
    }
}

/// A sample at time zero takes the place of the initial value of its signal. Past time zero
/// every initial value is given, and none is owed afterwards until a reset.
pub proof fn initial_values_are_owed_once<T>(
    view: SynchronizerView<T>,
    step: Step<T>,
    flushed: Seq<Step<T>>,
)
    requires
        defines_from_zero(flushed, view.due(step)),
    ensures
        step.timestamp == 0 ==> !view.after_admitting(step, flushed).pending_inits.contains_key(
            step.signal@,
        ),
        step.timestamp > 0 ==> forall|n: Seq<char>| #[trigger]
            view.pending_inits.contains_key(n) ==> exists|i: int|
                0 <= i < flushed.len() && (#[trigger] flushed[i]).signal@ == n,
        step.timestamp > 0 ==> view.after_admitting(step, flushed).pending_inits == Map::<
            Seq<char>,
            T,
        >::empty(),
        view.rearmed().pending_inits == view.initial_values,
        view.after_admitting(step, flushed).rearmed() == view.rearmed(),
{
    if step.timestamp > 0 {
        assert forall|n: Seq<char>| #[trigger] view.pending_inits.contains_key(n) implies exists|
            i: int,
        |
            0 <= i < flushed.len() && (#[trigger] flushed[i]).signal@ == n by {
            assert(view.due(step).contains_key(n));
        }
    }
}

/// What becomes of a synchronizer that owes no initial values when `step` is handed to it.
pub open spec fn offered<T>(view: SynchronizerView<T>, step: Step<T>) -> SynchronizerView<T> {
    if view.admits(step) {
        view.after_admitting(step, Seq::empty())
    } else {
        view
    }
}

/// What becomes of it when steps are handed to it one after the other.
pub open spec fn offered_all<T>(view: SynchronizerView<T>, steps: Seq<Step<T>>) -> SynchronizerView<T>
    decreases steps.len(),
{
    if steps.len() == 0 {
        view
    } else {
        offered(offered_all(view, steps.drop_last()), steps.last())
    }
}

/// `last_timestamps` holds the latest time of every signal of `steps`.
spec fn remembers_latest<T>(view: SynchronizerView<T>, steps: Seq<Step<T>>) -> bool {
    &&& view.pending_inits.dom() =~= Set::empty()
    &&& forall|i: int|
        0 <= i < steps.len() ==> view.last_timestamps.contains_key((#[trigger] steps[i]).signal@)
            && steps[i].timestamp <= view.last_timestamps[steps[i].signal@]
    &&& forall|n: Seq<char>| #[trigger]
        view.last_timestamps.contains_key(n) ==> exists|i: int|
            0 <= i < steps.len() && (#[trigger] steps[i]).signal@ == n && steps[i].timestamp
                == view.last_timestamps[n]
}

proof fn lemma_remembers_latest<T>(interpolation: SignalInterpolation, steps: Seq<Step<T>>)
    ensures
        remembers_latest(
            offered_all(SynchronizerView::<T>::initial(interpolation), steps),
            steps,
        ),
    decreases steps.len(),
{
    let view = offered_all(SynchronizerView::<T>::initial(interpolation), steps);
    if steps.len() > 0 {
        let head = steps.drop_last();
        let step = steps.last();
        let before = offered_all(SynchronizerView::<T>::initial(interpolation), head);
        lemma_remembers_latest(interpolation, head);
        assert forall|i: int| 0 <= i < steps.len() implies view.last_timestamps.contains_key(
            (#[trigger] steps[i]).signal@,
        ) && steps[i].timestamp <= view.last_timestamps[steps[i].signal@] by {
            if i < head.len() {
                assert(head[i] == steps[i]);
            }
        }
        assert forall|n: Seq<char>| #[trigger] view.last_timestamps.contains_key(n) implies exists|
            i: int,
        |
            0 <= i < steps.len() && (#[trigger] steps[i]).signal@ == n && steps[i].timestamp
                == view.last_timestamps[n] by {
            if before.admits(step) && n == step.signal@ {
                assert(steps[steps.len() - 1].timestamp == view.last_timestamps[n]);
            } else {
                assert(before.last_timestamps.contains_key(n));
                let i = choose|i: int|
                    0 <= i < head.len() && (#[trigger] head[i]).signal@ == n && head[i].timestamp
                        == before.last_timestamps[n];
                assert(steps[i] == head[i]);
            }
        }
    }
}

/// Of steps handed to a new synchronizer, whatever they are and however far apart, exactly
/// those are forwarded that are strictly later than every step of their signal before them; and
/// they are forwarded in the order they arrive in.
pub proof fn strictly_later_steps_are_forwarded<T>(
    interpolation: SignalInterpolation,
    steps: Seq<Step<T>>,
    k: int,
)
    requires
        0 <= k < steps.len(),
    ensures
        ({
            let start = SynchronizerView::<T>::initial(interpolation);
            let before = offered_all(start, steps.take(k)).pending;
            let after = offered_all(start, steps.take(k + 1)).pending;
            let is_later = forall|i: int|
                0 <= i < k && (#[trigger] steps[i]).signal@ == steps[k].signal@
                    ==> steps[i].timestamp < steps[k].timestamp;
            &&& is_later ==> after == before.push(steps[k])
            &&& !is_later ==> after == before
        }),
{
    let start = SynchronizerView::<T>::initial(interpolation);
    let head = steps.take(k);
    let before = offered_all(start, head);
    assert(steps.take(k + 1).drop_last() =~= head);
    assert(steps.take(k + 1).last() == steps[k]);
    lemma_remembers_latest(interpolation, head);
    assert forall|i: int| 0 <= i < k implies #[trigger] steps[i] == head[i] by {}
    let is_later = forall|i: int|
        0 <= i < k && (#[trigger] steps[i]).signal@ == steps[k].signal@ ==> steps[i].timestamp
            < steps[k].timestamp;
    if before.last_timestamps.contains_key(steps[k].signal@) {
        let i = choose|i: int|
            0 <= i < head.len() && (#[trigger] head[i]).signal@ == steps[k].signal@
                && head[i].timestamp == before.last_timestamps[steps[k].signal@];
        assert(steps[i] == head[i]);
    }
    assert(before.pending + Seq::<Step<T>>::empty() =~= before.pending);
}

/// Whatever a synchronizer has taken in and owes, a step is admitted if and only if its signal
/// was not sampled yet or it is strictly later than the last admitted step of its signal.
/// Admitting it makes it the last one of its signal and the last one forwarded, and leaves what
/// was forwarded before, the configuration, and the times of all other signals as they are,
/// but for those that take their initial value from time zero on.
pub proof fn admission_is_by_time_alone<T>(
    view: SynchronizerView<T>,
    step: Step<T>,
    flushed: Seq<Step<T>>,
)
    requires
        defines_from_zero(flushed, view.due(step)),
    ensures
        view.admits(step) <==> (view.last_timestamps.contains_key(step.signal@)
            ==> view.last_timestamps[step.signal@] < step.timestamp),
        ({
            let after = view.after_admitting(step, flushed);
            &&& after.interpolation == view.interpolation
            &&& after.initial_values == view.initial_values
            &&& after.last_timestamps.contains_key(step.signal@)
            &&& after.last_timestamps[step.signal@] == step.timestamp
            &&& forall|n: Seq<char>|
                #![trigger after.last_timestamps.contains_key(n)]
                n != step.signal@ ==> {
                    let defaulted = step.timestamp > 0 && view.pending_inits.contains_key(n);
                    &&& after.last_timestamps.contains_key(n) == (view.last_timestamps.contains_key(
                        n,
                    ) || defaulted)
                    &&& after.last_timestamps.contains_key(n) ==> after.last_timestamps[n] == (
                    if defaulted {
                        0
                    } else {
                        view.last_timestamps[n]
                    })
                }
            &&& after.pending.len() == view.pending.len() + flushed.len() + 1
            &&& after.pending.last() == step
            &&& forall|i: int|
                0 <= i < view.pending.len() ==> #[trigger] after.pending[i] == view.pending[i]
            &&& forall|i: int|
                0 <= i < flushed.len() ==> #[trigger] after.pending[view.pending.len() + i]
                    == flushed[i]
            &&& forall|n: Seq<char>| #[trigger]
                after.pending_inits.contains_key(n) <==> step.timestamp == 0
                    && view.pending_inits.contains_key(n) && n != step.signal@
            &&& forall|n: Seq<char>| #[trigger]
                after.pending_inits.contains_key(n) ==> after.pending_inits[n]
                    == view.pending_inits[n]
        }),
        step.timestamp == 0 ==> flushed.len() == 0,
        forall|i: int|
            0 <= i < flushed.len() ==> {
                let owed = #[trigger] flushed[i];
                &&& owed.timestamp == 0
                &&& view.pending_inits.contains_key(owed.signal@)
                &&& owed.value == view.pending_inits[owed.signal@]
            },
        step.timestamp > 0 ==> forall|n: Seq<char>| #[trigger]
            view.pending_inits.contains_key(n) ==> exists|i: int|
                0 <= i < flushed.len() && (#[trigger] flushed[i]).signal@ == n,
        forall|i: int, j: int|
            0 <= i < j < flushed.len() ==> (#[trigger] flushed[i]).signal@ != (
            #[trigger] flushed[j]).signal@,
{
    let after = view.after_admitting(step, flushed);
    if step.timestamp == 0 && flushed.len() > 0 {
        assert(view.due(step).contains_key(flushed[0].signal@));
    }
    assert forall|i: int| 0 <= i < flushed.len() implies {
        let owed = #[trigger] flushed[i];
        &&& owed.timestamp == 0
        &&& view.pending_inits.contains_key(owed.signal@)
        &&& owed.value == view.pending_inits[owed.signal@]
    } by {
        assert(view.due(step).contains_key(flushed[i].signal@));
    }
    if step.timestamp > 0 {
        assert forall|n: Seq<char>| #[trigger] view.pending_inits.contains_key(n) implies exists|
            i: int,
        |
            0 <= i < flushed.len() && (#[trigger] flushed[i]).signal@ == n by {
            assert(view.due(step).contains_key(n));
        }
    }
    assert forall|i: int, j: int| 0 <= i < j < flushed.len() implies (#[trigger] flushed[i]).signal@
        != (#[trigger] flushed[j]).signal@ by {
        lemma_name_order(flushed[i].signal@, flushed[j].signal@);
    }
    assert forall|n: Seq<char>|
        #![trigger after.last_timestamps.contains_key(n)]
        n != step.signal@ implies {
        let defaulted = step.timestamp > 0 && view.pending_inits.contains_key(n);
        &&& after.last_timestamps.contains_key(n) == (view.last_timestamps.contains_key(n)
            || defaulted)
        &&& after.last_timestamps.contains_key(n) ==> after.last_timestamps[n] == (if defaulted {
            0
        } else {
            view.last_timestamps[n]
        })
    } by {
        assert(view.due(step).contains_key(n) == (step.timestamp > 0
            && view.pending_inits.contains_key(n)));
    }
}

/// A new synchronizer has seen nothing and owes nothing. Resetting one forgets what it has seen
/// and forwarded, and owes every initial value it was given once more.
pub proof fn starting_over_owes_every_initial_value<T>(
    interpolation: SignalInterpolation,
    view: SynchronizerView<T>,
    name: Seq<char>,
)
    ensures
        ({
            let fresh = SynchronizerView::<T>::initial(interpolation);
            &&& fresh.interpolation == interpolation
            &&& !fresh.last_timestamps.contains_key(name)
            &&& !fresh.initial_values.contains_key(name)
            &&& !fresh.pending_inits.contains_key(name)
            &&& fresh.pending.len() == 0
        }),
        ({
            let again = view.rearmed();
            &&& again.interpolation == view.interpolation
            &&& !again.last_timestamps.contains_key(name)
            &&& again.initial_values == view.initial_values
            &&& again.pending_inits == view.initial_values
            &&& again.pending.len() == 0
        }),
{
}

/// Of initial values that are listed, the last one of each name counts.
pub proof fn last_initial_value_counts<T>(list: Seq<(&'static str, T)>, name: Seq<char>, i: int)
    requires
        -1 <= i < list.len(),
        i >= 0 ==> list[i].0@ == name,
        forall|j: int| i < j < list.len() ==> (#[trigger] list[j]).0@ != name,
    ensures
        collected(list).contains_key(name) <==> i >= 0,
        i >= 0 ==> collected(list)[name] == list[i].1,
    decreases list.len(),
{
    if list.len() > 0 && i < list.len() - 1 {
        let head = list.drop_last();
        assert(list[list.len() - 1] == list.last());
        assert forall|j: int| i < j < head.len() implies (#[trigger] head[j]).0@ != name by {
            assert(list[j] == head[j]);
        }
        last_initial_value_counts(head, name, i);
    }
}

/// A synchronizer takes room for the steps it holds back and for a time per signal sampled, and
/// what the initial values take, those it was given and those still owed.
pub proof fn memory_is_that_of_its_parts<T>(view: SynchronizerView<T>, bytes: usize)
    requires
        view.takes(bytes),
    ensures
        exists|queue: usize, times: usize|
            {
                &&& #[trigger] room_for(
                    queue,
                    view.pending.len(),
                    vstd::layout::size_of::<Step<T>>(),
                )
                &&& #[trigger] room_for(
                    times,
                    view.last_timestamps.dom().len(),
                    vstd::layout::size_of::<(&'static str, Time)>(),
                )
                &&& bytes == countable(
                    queue + times + (view.initial_values.dom().len()
                        + view.pending_inits.dom().len()) * (vstd::layout::size_of::<
                        &'static str,
                    >() + vstd::layout::size_of::<T>() + 1),
                )
            },
{
}

} // verus!
