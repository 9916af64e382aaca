//! What an operator of a formula tree is, and what it means for one to behave like another.
//!
//! An operator is a machine fed with [`Event`]s. Its [`Behavior`] says what it answers after
//! every sequence of them, which is all that a parent can observe of a child.

use crate::names::{all_distinct, name_set};
use crate::ring_buffer::{all_upto, Step};
use crate::time::{Time, MAX_TIME};
use crate::variables::Variables;
use vstd::prelude::*;

verus! {

/// What can happen to an operator.
#[verifier::ext_equal]
pub enum Event<T> {
    /// A sample arrives.
    Sample(Step<T>),
    /// The variables context is replaced.
    Bind(Map<Seq<char>, T>),
    /// The operator is taken back to its initial state.
    Reset,
    /// The operator learns which signals each of its operands reads.
    Route,
}

/// Everything observable of an operator from now on.
#[verifier::ext_equal]
#[verifier::reject_recursive_types(T)]
pub struct Behavior<T, Y> {
    /// The steps emitted on the last of a sequence of events.
    pub run: spec_fn(Seq<Event<T>>) -> Seq<Step<Y>>,
    /// How far the output is free of gaps after a sequence of events.
    pub known: spec_fn(Seq<Event<T>>) -> Option<Time>,
}

impl<T, Y> Behavior<T, Y> {
    /// The behavior left once `event` has happened.
    pub open spec fn after(self, event: Event<T>) -> Behavior<T, Y> {
        Behavior {
            run: |h: Seq<Event<T>>|
                if h.len() == 0 {
                    Seq::empty()
                } else {
                    (self.run)(seq![event] + h)
                },
            known: |h: Seq<Event<T>>| (self.known)(seq![event] + h),
        }
    }

    /// What is emitted when `event` happens now.
    pub open spec fn emits(self, event: Event<T>) -> Seq<Step<Y>> {
        (self.run)(seq![event])
    }

    /// How far the output is free of gaps now.
    pub open spec fn known_now(self) -> Option<Time> {
        (self.known)(Seq::empty())
    }
}

/// A state machine over events.
pub trait Machine<T, Y>: Sized {
    spec fn next(self, event: Event<T>) -> Self;

    spec fn emit(self, event: Event<T>) -> Seq<Step<Y>>;

    spec fn known(self) -> Option<Time>;
}

/// The state `m` is in after `events`.
pub open spec fn state_after<T, Y, M: Machine<T, Y>>(m: M, events: Seq<Event<T>>) -> M
    decreases events.len(),
{
    if events.len() == 0 {
        m
    } else {
        state_after::<T, Y, M>(m, events.drop_last()).next(events.last())
    }
}

/// The behavior of a machine in state `m`.
pub open spec fn behavior_of<T, Y, M: Machine<T, Y>>(m: M) -> Behavior<T, Y> {
    Behavior {
        run: |h: Seq<Event<T>>|
            if h.len() == 0 {
                Seq::empty()
            } else {
                state_after::<T, Y, M>(m, h.drop_last()).emit(h.last())
            },
        known: |h: Seq<Event<T>>| state_after::<T, Y, M>(m, h).known(),
    }
}

proof fn lemma_state_after_first<T, Y, M: Machine<T, Y>>(m: M, event: Event<T>, h: Seq<Event<T>>)
    ensures
        state_after::<T, Y, M>(m, seq![event] + h) == state_after::<T, Y, M>(m.next(event), h),
    decreases h.len(),
{
    let all = seq![event] + h;
    if h.len() == 0 {
        assert(all.drop_last() =~= Seq::empty());
        assert(state_after::<T, Y, M>(m, all.drop_last()) == m);
    } else {
        assert(all.drop_last() =~= seq![event] + h.drop_last());
        lemma_state_after_first::<T, Y, M>(m, event, h.drop_last());
    }
}

/// A machine that makes a step behaves as before with that step taken.
pub proof fn lemma_behavior_of_next<T, Y, M: Machine<T, Y>>(m: M, event: Event<T>)
    ensures
        behavior_of::<T, Y, M>(m.next(event)) == behavior_of::<T, Y, M>(m).after(event),
        behavior_of::<T, Y, M>(m).emits(event) == m.emit(event),
        behavior_of::<T, Y, M>(m).known_now() == m.known(),
{
    let a = behavior_of::<T, Y, M>(m.next(event));
    let b = behavior_of::<T, Y, M>(m).after(event);
    assert forall|h: Seq<Event<T>>| #[trigger] (a.run)(h) == (b.run)(h) by {
        let all = seq![event] + h;
        if h.len() > 0 {
            assert(all.drop_last() =~= seq![event] + h.drop_last());
            lemma_state_after_first::<T, Y, M>(m, event, h.drop_last());
        }
    }
    assert forall|h: Seq<Event<T>>| #[trigger] (a.known)(h) == (b.known)(h) by {
        lemma_state_after_first::<T, Y, M>(m, event, h);
    }
    assert(a.run =~= b.run);
    assert(a.known =~= b.known);
    assert(a =~= b);
    assert(seq![event].drop_last() =~= Seq::empty());
}

/// What never changes of an operator.
#[verifier::ext_equal]
pub struct Profile {
    /// How far past a timestamp samples can matter to the verdict there.
    pub lookahead: Time,
    /// The signals that are read.
    pub identifiers: Set<Seq<char>>,
    /// The variables that are read.
    pub variables: Set<Seq<char>>,
    /// The operator in the notation of formulas.
    pub text: Seq<char>,
}

/// An operator of a formula tree over samples `T` with verdicts `Y`.
pub trait StlOperatorAndSignalIdentifier<T, Y> {
    spec fn wf(&self) -> bool;

    spec fn behavior(&self) -> Behavior<T, Y>;

    spec fn profile(&self) -> Profile;

    /// Whether every variable needed to evaluate `step` is bound.
    spec fn ready(&self, step: Step<T>) -> bool;

    /// Whether `bytes` is an estimate of the memory in use. There is more than one, since how
    /// much memory is reserved beyond what is needed is up to the allocator.
    spec fn takes(&self, bytes: usize) -> bool;

    /// Takes in a sample and returns the verdicts it makes available.
    fn update(&mut self, step: &Step<T>) -> (out: Vec<Step<Y>>)
        requires
            old(self).wf(),
            old(self).ready(*step),
            step.timestamp <= MAX_TIME,
        ensures
            final(self).wf(),
            out@ == old(self).behavior().emits(Event::Sample(*step)),
            final(self).behavior() == old(self).behavior().after(Event::Sample(*step)),
            final(self).profile() == old(self).profile(),
            forall|s: Step<T>| final(self).ready(s) == old(self).ready(s),
            all_upto(out@, MAX_TIME),
    ;

    /// How far past a timestamp samples can matter to the verdict there.
    fn get_max_lookahead(&self) -> (res: Time)
        requires
            self.wf(),
        ensures
            res == self.profile().lookahead,
            res <= MAX_TIME,
    ;

    /// How far the output is free of gaps; `None` where it never has any.
    fn known_through(&self) -> (res: Option<Time>)
        requires
            self.wf(),
        ensures
            res == self.behavior().known_now(),
    ;

    /// Returns to the initial state.
    fn reset(&mut self)
        requires
            old(self).wf(),
        ensures
            final(self).wf(),
            final(self).behavior() == old(self).behavior().after(Event::Reset),
            final(self).profile() == old(self).profile(),
            forall|s: Step<T>| final(self).ready(s) == old(self).ready(s),
    ;

    /// Lists the signals that are read. From then on an operand is handed only samples of
    /// the signals it reads.
    fn get_signal_identifiers(&mut self) -> (res: Vec<&'static str>)
        requires
            old(self).wf(),
        ensures
            final(self).wf(),
            final(self).behavior() == old(self).behavior().after(Event::Route),
            final(self).profile() == old(self).profile(),
            forall|s: Step<T>| old(self).ready(s) ==> final(self).ready(s),
            all_distinct(res@),
            name_set(res@) == old(self).profile().identifiers,
    ;

    /// Replaces the context that variable thresholds are read from.
    fn bind(&mut self, vars: &Variables<T>)
        requires
            old(self).wf(),
            vars.wf(),
        ensures
            final(self).wf(),
            final(self).behavior() == old(self).behavior().after(Event::Bind(vars@)),
            final(self).profile() == old(self).profile(),
            old(self).profile().variables.subset_of(vars@.dom()) ==> forall|s: Step<T>|
                final(self).ready(s),
    ;

    /// Names a variable that evaluating `step` needs and that is not bound, if there is one.
    fn missing_variable(&self, step: &Step<T>) -> (res: Option<&'static str>)
        requires
            self.wf(),
        ensures
            res is None <==> self.ready(*step),
            res matches Some(name) ==> self.profile().variables.contains(name@),
    ;

    /// Estimated memory in bytes, operands included.
    fn total_size(&self) -> (res: usize)
        requires
            self.wf(),
        ensures
            self.takes(res),
    ;

    /// Appends the operator in the notation of formulas.
    fn push_text(&self, text: &mut String)
        requires
            self.wf(),
        ensures
            final(text)@ == old(text)@ + self.profile().text,
    ;
}

} // verus!
