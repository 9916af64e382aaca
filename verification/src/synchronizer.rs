//! Input admission and the signal model.
//!
//! Every sample passes through here before it reaches the operator tree. Timestamps are
//! checked to rise strictly per signal, and each signal's initial value is emitted at time
//! zero; see [`Synchronizer::set_initial_values`]. The configured [`SignalInterpolation`] is
//! stored here but applied at the predicate layer.

use crate::memory::{bytes_of, countable, deque_heap_size, room_for, sum_of};
use crate::memory::lemma_countable_product;
use crate::name_map::{lemma_map_of, lemma_one_item_per_name, NameMap};
use crate::ring_buffer::Step;
use crate::text::name_before;
use crate::time::Time;
use std::collections::VecDeque;
use std::ops::{Add, Sub};
use vstd::prelude::*;

verus! {

/// How an input signal is read between two consecutive samples.
///
/// This is a property of each signal, configured at the monitor level.
#[derive(Debug, Clone, Copy, PartialEq, Eq, Structural)]
pub enum SignalInterpolation {
    /// The signal holds its last value until the next sample.
    ZeroOrderHold,
    /// The signal runs straight between samples.
    Linear,
}

impl Default for SignalInterpolation {
    fn default() -> (res: SignalInterpolation)
        ensures
            res == SignalInterpolation::ZeroOrderHold,
    {
        SignalInterpolation::ZeroOrderHold
    }
}

/// Deprecated; superseded by [`SignalInterpolation`]. Each variant selects the interpolation
/// of the same name.
#[derive(Debug, Clone, Copy, PartialEq, Eq, Structural)]
pub enum SynchronizationStrategy {
    /// No synchronization; selects [`SignalInterpolation::ZeroOrderHold`].
    Unsynchronized,
    /// Zero-order hold; selects [`SignalInterpolation::ZeroOrderHold`].
    ZeroOrderHold,
    /// Selects [`SignalInterpolation::Linear`].
    Linear,
}

impl Default for SynchronizationStrategy {
    fn default() -> (res: SynchronizationStrategy)
        ensures
            res == SynchronizationStrategy::ZeroOrderHold,
    {
        SynchronizationStrategy::ZeroOrderHold
    }
}

impl SynchronizationStrategy {
    /// The interpolation this strategy selects.
    pub fn interpolation(self) -> (res: SignalInterpolation)
        ensures
            res == (if self == SynchronizationStrategy::Linear {
                SignalInterpolation::Linear
            } else {
                SignalInterpolation::ZeroOrderHold
            }),
    {
        match self {
            SynchronizationStrategy::Linear => SignalInterpolation::Linear,
            SynchronizationStrategy::Unsynchronized | SynchronizationStrategy::ZeroOrderHold => {
                SignalInterpolation::ZeroOrderHold
            },
        }
    }
}

/// Values that a signal can be interpolated over.
pub trait Interpolatable: Copy + Add<Output = Self> + Sub<Output = Self> {
    spec fn zero_spec() -> Self;

    /// The value a signal is initialized to when no other one is given.
    fn zero() -> (res: Self)
        ensures
            res == Self::zero_spec(),
    ;
}

impl Interpolatable for i64 {
    open spec fn zero_spec() -> i64 {
        0
    }

    fn zero() -> (res: i64) {
        0
    }
}

/// What a synchronizer remembers.
#[verifier::ext_equal]
pub struct SynchronizerView<T> {
    pub interpolation: SignalInterpolation,
    /// The timestamp of the last admitted step per signal.
    pub last_timestamps: Map<Seq<char>, Time>,
    /// The initial value per signal, as configured.
    pub initial_values: Map<Seq<char>, T>,
    /// The initial values still owed.
    pub pending_inits: Map<Seq<char>, T>,
    /// The admitted steps not yet drained.
    pub pending: Seq<Step<T>>,
}

/// `steps` defines each signal of `owed` at time zero, in signal order.
pub open spec fn defines_from_zero<T>(steps: Seq<Step<T>>, owed: Map<Seq<char>, T>) -> bool {
    &&& forall|i: int, j: int|
        0 <= i < j < steps.len() ==> name_before(
            (#[trigger] steps[i]).signal@,
            (#[trigger] steps[j]).signal@,
        )
    &&& forall|i: int|
        0 <= i < steps.len() ==> {
            let step = #[trigger] steps[i];
            &&& owed.contains_key(step.signal@)
            &&& step == Step::spec_new(step.signal, owed[step.signal@], 0)
        }
    &&& forall|n: Seq<char>| #[trigger]
        owed.contains_key(n) ==> exists|i: int|
            0 <= i < steps.len() && (#[trigger] steps[i]).signal@ == n
}

/// The last value bound to each name of a list.
pub open spec fn collected<T>(list: Seq<(&'static str, T)>) -> Map<Seq<char>, T>
    decreases list.len(),
{
    if list.len() == 0 {
        Map::empty()
    } else {
        collected(list.drop_last()).insert(list.last().0@, list.last().1)
    }
}

impl<T> SynchronizerView<T> {
    /// Nothing admitted, nothing owed.
    pub open spec fn initial(interpolation: SignalInterpolation) -> SynchronizerView<T> {
        SynchronizerView {
            interpolation,
            last_timestamps: Map::empty(),
            initial_values: Map::empty(),
            pending_inits: Map::empty(),
            pending: Seq::empty(),
        }
    }

    /// The state a reset leaves: as configured, with every initial value owed again.
    pub open spec fn rearmed(self) -> SynchronizerView<T> {
        SynchronizerView {
            last_timestamps: Map::empty(),
            pending_inits: self.initial_values,
            pending: Seq::empty(),
            ..self
        }
    }

    /// Whether `step` is later than every admitted step of its signal.
    pub open spec fn admits(self, step: Step<T>) -> bool {
        !self.last_timestamps.contains_key(step.signal@) || self.last_timestamps[step.signal@]
            < step.timestamp
    }

    /// Whether `bytes` is an estimate of the heap memory in use: that of the queue, of a
    /// timestamp per signal and of the initial values, configured and still owed.
    pub open spec fn takes(self, bytes: usize) -> bool {
        let step = vstd::layout::size_of::<Step<T>>();
        let time_entry = vstd::layout::size_of::<(&'static str, Time)>();
        let value_entry = vstd::layout::size_of::<&'static str>() + vstd::layout::size_of::<T>()
            + 1;
        let values = (self.initial_values.dom().len() + self.pending_inits.dom().len())
            * value_entry;
        exists|queue: usize, times: usize|
            {
                &&& #[trigger] room_for(queue, self.pending.len(), step)
                &&& #[trigger] room_for(times, self.last_timestamps.dom().len(), time_entry)
                &&& bytes == countable(queue + times + values)
            }
    }

    /// The initial values that have to be emitted before `step`.
    pub open spec fn due(self, step: Step<T>) -> Map<Seq<char>, T> {
        if step.timestamp == 0 {
            Map::empty()
        } else {
            self.pending_inits
        }
    }

    /// The state once `step` was admitted, with `flushed` the initial values emitted before it.
    pub open spec fn after_admitting(self, step: Step<T>, flushed: Seq<Step<T>>) -> SynchronizerView<
        T,
    > {
        SynchronizerView {
            last_timestamps: self.last_timestamps.union_prefer_right(
                Map::new(|n: Seq<char>| self.due(step).contains_key(n), |n: Seq<char>| 0),
            ).insert(step.signal@, step.timestamp),
            pending_inits: if step.timestamp == 0 {
                self.pending_inits.remove(step.signal@)
            } else {
                Map::empty()
            },
            pending: (self.pending + flushed).push(step),
            ..self
        }
    }
}

/// What is remembered of the steps admitted so far.
pub struct Ledger<T> {
    interpolation: SignalInterpolation,
    last_timestamps: NameMap<Time>,
    initial_values: NameMap<T>,
    pending_inits: NameMap<T>,
}

/// What a ledger holds.
#[verifier::ext_equal]
pub struct LedgerView<T> {
    pub interpolation: SignalInterpolation,
    /// The timestamp of the last admitted step per signal.
    pub last_timestamps: Map<Seq<char>, Time>,
    /// The initial value per signal, as configured.
    pub initial_values: Map<Seq<char>, T>,
    /// The initial values still owed.
    pub pending_inits: Map<Seq<char>, T>,
}

impl<T> View for Ledger<T> {
    type V = LedgerView<T>;

    closed spec fn view(&self) -> LedgerView<T> {
        LedgerView {
            interpolation: self.interpolation,
            last_timestamps: self.last_timestamps@,
            initial_values: self.initial_values@,
            pending_inits: self.pending_inits@,
        }
    }
}

impl<T> Ledger<T> {
    pub closed spec fn wf(&self) -> bool {
        &&& self.last_timestamps.wf()
        &&& self.initial_values.wf()
        &&& self.pending_inits.wf()
    }
}

/// Admits input steps on their way to the operator tree.
///
/// Rejects steps that go backwards in time per signal, and places admitted steps on
/// `pending` in arrival order, preceded by any initial values.
pub struct Synchronizer<T> {
    pub ledger: Ledger<T>,
    /// Queue of admitted steps to be drained by consumers.
    pub pending: VecDeque<Step<T>>,
}

impl<T> View for Synchronizer<T> {
    type V = SynchronizerView<T>;

    open spec fn view(&self) -> SynchronizerView<T> {
        SynchronizerView {
            interpolation: self.ledger@.interpolation,
            last_timestamps: self.ledger@.last_timestamps,
            initial_values: self.ledger@.initial_values,
            pending_inits: self.ledger@.pending_inits,
            pending: self.pending@,
        }
    }
}

impl<T: Interpolatable> Synchronizer<T> {
    pub open spec fn wf(&self) -> bool {
        self.ledger.wf()
    }

    /// Creates a new synchronizer reading signals under `interpolation`.
    pub fn new(interpolation: SignalInterpolation) -> (res: Synchronizer<T>)
        ensures
            res.wf(),
            res@ == SynchronizerView::<T>::initial(interpolation),
    {
        let ledger = Ledger {
            interpolation,
            last_timestamps: NameMap::new(),
            initial_values: NameMap::new(),
            pending_inits: NameMap::new(),
        };
        Synchronizer { ledger, pending: VecDeque::new() }
    }

    /// Defines each signal of `initial_values` from time zero, until its own first sample
    /// arrives.
    ///
    /// Initial values are emitted as steps at time zero when the first sample past it is
    /// admitted. A signal with its own sample at time zero before then gets none.
    pub fn set_initial_values(&mut self, initial_values: Vec<(&'static str, T)>)
        requires
            old(self).wf(),
        ensures
            final(self).wf(),
            final(self)@ == (SynchronizerView {
                initial_values: collected(initial_values@),
                pending_inits: collected(initial_values@).remove_keys(
                    old(self)@.last_timestamps.dom(),
                ),
                ..old(self)@
            }),
    {
        let mut values: NameMap<T> = NameMap::new();
        let mut owed: NameMap<T> = NameMap::new();
        let ghost sampled = self@.last_timestamps.dom();
        let mut i: usize = 0;
        assert(initial_values@.take(0) =~= Seq::empty());
        assert(owed@ =~= collected(initial_values@.take(0)).remove_keys(sampled));
        while i < initial_values.len()
            invariant
                i <= initial_values@.len(),
                *self == *old(self),
                self.wf(),
                sampled == self@.last_timestamps.dom(),
                values.wf(),
                owed.wf(),
                values@ == collected(initial_values@.take(i as int)),
                owed@ == collected(initial_values@.take(i as int)).remove_keys(sampled),
            decreases initial_values@.len() - i,
        {
            let (name, value) = initial_values[i];
            proof {
                assert(initial_values@.take(i + 1).drop_last() =~= initial_values@.take(i as int));
            }
            let ghost before = values@;
            values.insert(name, value);
            // A signal that has been sampled defines itself.
            if self.ledger.last_timestamps.get(name).is_none() {
                owed.insert(name, value);
            }
            assert(owed@ =~= before.insert(name@, value).remove_keys(sampled));
            i = i + 1;
        }
        assert(initial_values@.take(i as int) =~= initial_values@);
        self.ledger.pending_inits = owed;
        self.ledger.initial_values = values;
    }

    /// Whether any signal is defined from time zero by [`Synchronizer::set_initial_values`].
    pub fn has_initial_values(&self) -> (res: bool)
        requires
            self.wf(),
        ensures
            res == !(self@.initial_values =~= Map::<Seq<char>, T>::empty()),
    {
        let res: bool = self.ledger.initial_values.len() > 0;
        proof {
            if res {
                lemma_map_of(self.ledger.initial_values.items(), 0);
                assert(self@.initial_values.dom().contains(self.ledger.initial_values.items()[0].0@));
            } else {
                assert(self@.initial_values =~= Map::empty());
            }
        }
        res
    }

    /// Returns how this synchronizer reads signals between their own samples.
    pub fn interpolation(&self) -> (res: SignalInterpolation)
        ensures
            res == self@.interpolation,
    {
        self.ledger.interpolation
    }

    /// Resets all runtime state.
    ///
    /// The signal interpolation and the initial values are preserved, and the latter are
    /// armed again.
    pub fn reset(&mut self)
        requires
            old(self).wf(),
        ensures
            final(self).wf(),
            final(self)@ == old(self)@.rearmed(),
    {
        self.ledger.last_timestamps.clear();
        self.pending.clear();
        self.ledger.pending_inits = self.ledger.initial_values.duplicate();
    }

    /// Returns estimated heap memory in bytes used by the synchronizer's internal data
    /// structures. Memory that is reserved but not in use is included; how much is reserved
    /// is up to the allocator.
    pub fn heap_size(&self) -> (res: usize)
        requires
            self.wf(),
        ensures
            self@.takes(res),
    {
        proof {
            lemma_one_item_per_name(self.ledger.last_timestamps.items());
            lemma_one_item_per_name(self.ledger.initial_values.items());
            lemma_one_item_per_name(self.ledger.pending_inits.items());
        }
        let value_entry: usize = sum_of(
            sum_of(core::mem::size_of::<&'static str>(), core::mem::size_of::<T>()),
            1,
        );
        let queue: usize = deque_heap_size(&self.pending);
        let times: usize = self.ledger.last_timestamps.heap_size();
        let count: usize = sum_of(
            self.ledger.initial_values.len(),
            self.ledger.pending_inits.len(),
        );
        let values: usize = bytes_of(count, value_entry);
        proof {
            lemma_countable_product(
                (self@.initial_values.dom().len() + self@.pending_inits.dom().len()) as int,
                vstd::layout::size_of::<&'static str>() as int + vstd::layout::size_of::<T>() + 1,
            );
            assert(room_for(queue, self@.pending.len(), vstd::layout::size_of::<Step<T>>()));
            assert(room_for(
                times,
                self@.last_timestamps.dom().len(),
                vstd::layout::size_of::<(&'static str, Time)>(),
            ));
        }
        sum_of(sum_of(queue, times), values)
    }

    /// Admits a new step, appending it to `pending`.
    ///
    /// Timestamps must rise strictly per signal. A step violating this is left out, and the
    /// timestamp it does not exceed is returned.
    ///
    /// Any initial value still owed is emitted first; see [`Synchronizer::set_initial_values`].
    pub fn evaluate(&mut self, current_step: Step<T>) -> (res: Result<(), Time>)
        requires
            old(self).wf(),
        ensures
            final(self).wf(),
            res is Ok <==> old(self)@.admits(current_step),
            res is Ok <==> (old(self)@.last_timestamps.contains_key(current_step.signal@) ==> old(
                self,
            )@.last_timestamps[current_step.signal@] < current_step.timestamp),
            res is Ok ==> final(self).pending@.len() > old(self).pending@.len()
                && final(self).pending@.last() == current_step
                && final(self)@.last_timestamps.contains_key(current_step.signal@)
                && final(self)@.last_timestamps[current_step.signal@] == current_step.timestamp,
            res matches Err(last) ==> last == old(self)@.last_timestamps[current_step.signal@]
                && final(self)@ == old(self)@,
            res is Ok ==> exists|flushed: Seq<Step<T>>|
                defines_from_zero(flushed, old(self)@.due(current_step)) && final(self)@ == #[trigger] old(
                    self,
                )@.after_admitting(current_step, flushed),
    {
        let signal_id: &'static str = current_step.signal;
        let current_time: Time = current_step.timestamp;
        if let Some(last) = self.ledger.last_timestamps.get(signal_id) {
            if current_time <= last {
                return Err(last);
            }
        }
        let ghost start = self@;
        let ghost mut flushed: Seq<Step<T>> = Seq::empty();
        if current_time == 0 {
            // The signal defines itself at time zero; its initial value is not needed.
            self.ledger.pending_inits.remove(signal_id);
            assert(start.pending + flushed =~= start.pending);
        } else {
            // Past time zero the prefix is fixed: every signal still without a sample takes
            // its initial value from there.
            let mut i: usize = 0;
            let n: usize = self.ledger.pending_inits.len();
            let ghost items = self.ledger.pending_inits.items();
            assert(start.pending + flushed =~= start.pending);
            assert(start.last_timestamps.union_prefer_right(
                Map::new(|k: Seq<char>| exists|j: int| 0 <= j < 0 && (#[trigger] items[j]).0@ == k, |k: Seq<char>| 0),
            ) =~= start.last_timestamps);
            while i < n
                invariant
                    n == items.len(),
                    i <= n,
                    items == self.ledger.pending_inits.items(),
                    self.ledger.pending_inits == old(self).ledger.pending_inits,
                    self.ledger.initial_values == old(self).ledger.initial_values,
                    self.ledger.interpolation == old(self).ledger.interpolation,
                    self.ledger.pending_inits.wf(),
                    self.ledger.initial_values.wf(),
                    self.ledger.last_timestamps.wf(),
                    self.pending@ == start.pending + flushed,
                    flushed.len() == i,
                    forall|j: int|
                        0 <= j < i ==> (#[trigger] flushed[j]) == Step::spec_new(
                            items[j].0,
                            items[j].1,
                            0,
                        ),
                    self.ledger.last_timestamps@ == start.last_timestamps.union_prefer_right(
                        Map::new(
                            |k: Seq<char>|
                                exists|j: int| 0 <= j < i && (#[trigger] items[j]).0@ == k,
                            |k: Seq<char>| 0,
                        ),
                    ),
                decreases n - i,
            {
                let (signal, value) = *self.ledger.pending_inits.at(i);
                let ghost before = self.ledger.last_timestamps@;
                self.ledger.last_timestamps.insert(signal, 0);
                self.pending.push_back(Step::new(signal, value, 0));
                proof {
                    flushed = flushed.push(Step::spec_new(signal, value, 0));
                    assert(self.pending@ =~= start.pending + flushed);
                    let wider = Map::new(
                        |k: Seq<char>| exists|j: int| 0 <= j < i + 1 && (#[trigger] items[j]).0@ == k,
                        |k: Seq<char>| 0u128,
                    );
                    assert forall|k: Seq<char>| #[trigger]
                        before.insert(signal@, 0).dom().contains(k)
                            == start.last_timestamps.union_prefer_right(wider).dom().contains(k) by {
                        if k == signal@ {
                            assert(items[i as int].0@ == k);
                        }
                    }
                    assert(self.ledger.last_timestamps@ =~= start.last_timestamps.union_prefer_right(wider)) by {
                        assert(items[i as int].0@ == signal@);
                    }
                }
                i = i + 1;
            }
            proof {
                assert forall|k: Seq<char>|
                    (exists|j: int| 0 <= j < items.len() && (#[trigger] items[j]).0@ == k)
                        == #[trigger] start.pending_inits.contains_key(k) by {
                    if start.pending_inits.contains_key(k) {
                        let j = choose|j: int| crate::name_map::named_at(items, k, j);
                        assert(items[j].0@ == k);
                    }
                    if exists|j: int| 0 <= j < items.len() && (#[trigger] items[j]).0@ == k {
                        let j = choose|j: int| 0 <= j < items.len() && (#[trigger] items[j]).0@ == k;
                        lemma_map_of(items, j);
                    }
                }
                assert(self.ledger.last_timestamps@ =~= start.last_timestamps.union_prefer_right(
                    Map::new(|k: Seq<char>| start.pending_inits.contains_key(k), |k: Seq<char>| 0),
                ));
                assert forall|j: int| 0 <= j < flushed.len() implies {
                    let step = #[trigger] flushed[j];
                    &&& start.pending_inits.contains_key(step.signal@)
                    &&& step == Step::spec_new(step.signal, start.pending_inits[step.signal@], 0)
                } by {
                    lemma_map_of(items, j);
                }
                assert forall|k: Seq<char>| #[trigger]
                    start.pending_inits.contains_key(k) implies exists|j: int|
                    0 <= j < flushed.len() && (#[trigger] flushed[j]).signal@ == k by {
                    let j = choose|j: int| crate::name_map::named_at(items, k, j);
                    assert(flushed[j].signal@ == k);
                }
                assert(defines_from_zero(flushed, start.due(current_step)));
            }
            self.ledger.pending_inits.clear();
        }
        self.ledger.last_timestamps.insert(signal_id, current_time);
        self.pending.push_back(current_step);
        proof {
            if current_time == 0 {
                assert(start.last_timestamps.union_prefer_right(
                    Map::new(|n: Seq<char>| start.due(current_step).contains_key(n), |n: Seq<char>| 0),
                ) =~= start.last_timestamps);
            }
            assert(self@ =~= start.after_admitting(current_step, flushed));
        }
        Ok(())
    }
}

} // verus!
