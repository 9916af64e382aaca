//! The two operands of a binary operator, and which samples each of them is handed.

use crate::memory::{bytes_of, countable, lemma_countable_product, sum_of};
use crate::names::{all_distinct, concerns, name_set};
use crate::names::{extend_names, is_concerned, lemma_distinct_names};
use crate::operator::{Behavior, Event, Profile, StlOperatorAndSignalIdentifier};
use crate::ring_buffer::{all_upto, Step};
use crate::time::{Time, MAX_TIME};
use crate::variables::Variables;
use vstd::prelude::*;
use vstd::string::*;

verus! {

/// Two operands as seen from the operator above them.
#[verifier::ext_equal]
#[verifier::reject_recursive_types(T)]
pub struct OperandsState<T, Y> {
    pub left: Behavior<T, Y>,
    pub right: Behavior<T, Y>,
    /// The signals the left operand reads.
    pub left_reads: Set<Seq<char>>,
    /// The signals the right operand reads.
    pub right_reads: Set<Seq<char>>,
    /// The signals the left operand is handed samples of; every signal while empty.
    pub left_signals: Set<Seq<char>>,
    /// The signals the right operand is handed samples of; every signal while empty.
    pub right_signals: Set<Seq<char>>,
}

impl<T, Y> OperandsState<T, Y> {
    /// Whether the left operand takes notice of `event`. Only samples are kept from it.
    pub open spec fn reaches_left(self, event: Event<T>) -> bool {
        match event {
            Event::Sample(step) => concerns(self.left_signals, step.signal@),
            _ => true,
        }
    }

    /// Whether the right operand takes notice of `event`. Only samples are kept from it.
    pub open spec fn reaches_right(self, event: Event<T>) -> bool {
        match event {
            Event::Sample(step) => concerns(self.right_signals, step.signal@),
            _ => true,
        }
    }

    pub open spec fn next(self, event: Event<T>) -> OperandsState<T, Y> {
        OperandsState {
            left: if self.reaches_left(event) {
                self.left.after(event)
            } else {
                self.left
            },
            right: if self.reaches_right(event) {
                self.right.after(event)
            } else {
                self.right
            },
            left_signals: if event is Route {
                self.left_signals.union(self.left_reads)
            } else {
                self.left_signals
            },
            right_signals: if event is Route {
                self.right_signals.union(self.right_reads)
            } else {
                self.right_signals
            },
            ..self
        }
    }

    /// What the left operand emits when `event` happens.
    pub open spec fn left_emits(self, event: Event<T>) -> Seq<Step<Y>> {
        if self.reaches_left(event) {
            self.left.emits(event)
        } else {
            Seq::empty()
        }
    }

    /// What the right operand emits when `event` happens.
    pub open spec fn right_emits(self, event: Event<T>) -> Seq<Step<Y>> {
        if self.reaches_right(event) {
            self.right.emits(event)
        } else {
            Seq::empty()
        }
    }
}

/// `(left)`, the infix, `(right)`.
pub open spec fn infix_text(left: Seq<char>, infix: Seq<char>, right: Seq<char>) -> Seq<char> {
    "("@ + left + ")"@ + infix + "("@ + right + ")"@
}

/// Two operands, and the signals whose samples each of them is handed.
#[verifier::reject_recursive_types(T)]
#[verifier::reject_recursive_types(Y)]
pub struct Operands<T, Y> {
    children: (
        Box<dyn StlOperatorAndSignalIdentifier<T, Y>>,
        Box<dyn StlOperatorAndSignalIdentifier<T, Y>>,
    ),
    left_signals: Vec<&'static str>,
    right_signals: Vec<&'static str>,
}

impl<T, Y> Operands<T, Y> {
    pub closed spec fn wf(&self) -> bool {
        &&& self.children.0.wf()
        &&& self.children.1.wf()
        &&& all_distinct(self.left_signals@)
        &&& all_distinct(self.right_signals@)
        &&& self.left_signals@.len() == 0 || name_set(self.left_signals@)
            == self.children.0.profile().identifiers
        &&& self.right_signals@.len() == 0 || name_set(self.right_signals@)
            == self.children.1.profile().identifiers
    }

    pub closed spec fn state(&self) -> OperandsState<T, Y> {
        OperandsState {
            left: self.children.0.behavior(),
            right: self.children.1.behavior(),
            left_reads: self.children.0.profile().identifiers,
            right_reads: self.children.1.profile().identifiers,
            left_signals: name_set(self.left_signals@),
            right_signals: name_set(self.right_signals@),
        }
    }

    pub closed spec fn left_profile(&self) -> Profile {
        self.children.0.profile()
    }

    pub closed spec fn right_profile(&self) -> Profile {
        self.children.1.profile()
    }

    /// Whether every variable needed by the operands that `step` reaches is bound.
    pub closed spec fn ready(&self, step: Step<T>) -> bool {
        &&& concerns(name_set(self.left_signals@), step.signal@) ==> self.children.0.ready(step)
        &&& concerns(name_set(self.right_signals@), step.signal@) ==> self.children.1.ready(step)
    }

    /// Whether the left operand has the variables it needs for `step`.
    pub closed spec fn left_ready(&self, step: Step<T>) -> bool {
        self.children.0.ready(step)
    }

    /// Whether the right operand has the variables it needs for `step`.
    pub closed spec fn right_ready(&self, step: Step<T>) -> bool {
        self.children.1.ready(step)
    }

    /// A step can be evaluated just if the operands that it reaches can: those that read its
    /// signal, and both while it is not known what they read.
    pub proof fn readiness_is_that_of_the_operands_reached(&self, step: Step<T>)
        ensures
            ({
                let operands = self.state();
                let left = operands.left_signals;
                let right = operands.right_signals;
                let empty = Set::<Seq<char>>::empty();
                self.ready(step) <==> (left.contains(step.signal@) || left == empty
                    ==> self.left_ready(step)) && (right.contains(step.signal@) || right == empty
                    ==> self.right_ready(step))
            }),
    {
    }

    /// Whether `bytes` is an estimate of the memory the left operand uses.
    pub closed spec fn left_takes(&self, bytes: usize) -> bool {
        self.children.0.takes(bytes)
    }

    /// Whether `bytes` is an estimate of the memory the right operand uses.
    pub closed spec fn right_takes(&self, bytes: usize) -> bool {
        self.children.1.takes(bytes)
    }

    /// Whether `bytes` is an estimate of the memory in use: that of the operands and of the
    /// lists of signals they read.
    pub closed spec fn takes(&self, bytes: usize) -> bool {
        let names = (self.left_signals@.len() + self.right_signals@.len()) as int;
        exists|left: usize, right: usize|
            {
                &&& #[trigger] self.left_takes(left)
                &&& #[trigger] self.right_takes(right)
                &&& bytes == countable(
                    left + right + names * (vstd::layout::size_of::<&'static str>() + 1),
                )
            }
    }

    /// The memory of both operands is included in what they take together.
    pub proof fn lemma_takes(&self, bytes: usize)
        requires
            self.takes(bytes),
        ensures
            exists|left: usize, right: usize|
                #[trigger] self.left_takes(left) && #[trigger] self.right_takes(right) && bytes
                    >= countable(left + right),
    {
    }

    /// Both operands together take what each of them takes, and room for the names of the
    /// signals that they are known to read.
    pub proof fn memory_is_that_of_both_operands(&self, bytes: usize)
        requires
            self.wf(),
            self.takes(bytes),
        ensures
            exists|left: usize, right: usize|
                #[trigger] self.left_takes(left) && #[trigger] self.right_takes(right) && bytes
                    == countable(
                    left + right + (self.state().left_signals.len()
                        + self.state().right_signals.len()) * (vstd::layout::size_of::<
                        &'static str,
                    >() + 1),
                ),
    {
        lemma_distinct_names(self.left_signals@);
        lemma_distinct_names(self.right_signals@);
    }

    pub fn new(
        children: (
            Box<dyn StlOperatorAndSignalIdentifier<T, Y>>,
            Box<dyn StlOperatorAndSignalIdentifier<T, Y>>,
        ),
    ) -> (res: Operands<T, Y>)
        requires
            children.0.wf(),
            children.1.wf(),
        ensures
            res.wf(),
            res.state() == (OperandsState {
                left: children.0.behavior(),
                right: children.1.behavior(),
                left_reads: children.0.profile().identifiers,
                right_reads: children.1.profile().identifiers,
                left_signals: Set::empty(),
                right_signals: Set::empty(),
            }),
            res.left_profile() == children.0.profile(),
            res.right_profile() == children.1.profile(),
            forall|s: Step<T>| res.ready(s) == (children.0.ready(s) && children.1.ready(s)),
            forall|s: Step<T>| #[trigger] res.left_ready(s) == children.0.ready(s),
            forall|s: Step<T>| #[trigger] res.right_ready(s) == children.1.ready(s),
            forall|b: usize| #[trigger] res.left_takes(b) == children.0.takes(b),
            forall|b: usize| #[trigger] res.right_takes(b) == children.1.takes(b),
    {
        let left_signals: Vec<&'static str> = Vec::new();
        let right_signals: Vec<&'static str> = Vec::new();
        proof {
            assert(name_set(left_signals@) =~= Set::empty());
            assert(name_set(right_signals@) =~= Set::empty());
        }
        Operands { children, left_signals, right_signals }
    }

    /// Hands a sample to the operands that read its signal.
    pub fn update(&mut self, step: &Step<T>) -> (res: (Vec<Step<Y>>, Vec<Step<Y>>))
        requires
            old(self).wf(),
            old(self).ready(*step),
            step.timestamp <= MAX_TIME,
        ensures
            final(self).wf(),
            res.0@ == old(self).state().left_emits(Event::Sample(*step)),
            res.1@ == old(self).state().right_emits(Event::Sample(*step)),
            final(self).state() == old(self).state().next(Event::Sample(*step)),
            final(self).left_profile() == old(self).left_profile(),
            final(self).right_profile() == old(self).right_profile(),
            forall|s: Step<T>| final(self).ready(s) == old(self).ready(s),
            all_upto(res.0@, MAX_TIME),
            all_upto(res.1@, MAX_TIME),
    {
        let left_updates: Vec<Step<Y>> = if is_concerned(&self.left_signals, step.signal) {
            self.children.0.update(step)
        } else {
            Vec::new()
        };
        let right_updates: Vec<Step<Y>> = if is_concerned(&self.right_signals, step.signal) {
            self.children.1.update(step)
        } else {
            Vec::new()
        };
        (left_updates, right_updates)
    }

    /// How far the output of each operand is free of gaps.
    pub fn known_through(&self) -> (res: (Option<Time>, Option<Time>))
        requires
            self.wf(),
        ensures
            res.0 == self.state().left.known_now(),
            res.1 == self.state().right.known_now(),
    {
        (self.children.0.known_through(), self.children.1.known_through())
    }

    /// How far each operand looks ahead.
    pub fn lookaheads(&self) -> (res: (Time, Time))
        requires
            self.wf(),
        ensures
            res.0 == self.left_profile().lookahead,
            res.1 == self.right_profile().lookahead,
            res.0 <= MAX_TIME,
            res.1 <= MAX_TIME,
    {
        (self.children.0.get_max_lookahead(), self.children.1.get_max_lookahead())
    }

    /// Returns both operands to their initial state.
    pub fn reset(&mut self)
        requires
            old(self).wf(),
        ensures
            final(self).wf(),
            final(self).state() == old(self).state().next(Event::Reset),
            final(self).left_profile() == old(self).left_profile(),
            final(self).right_profile() == old(self).right_profile(),
            forall|s: Step<T>| final(self).ready(s) == old(self).ready(s),
    {
        self.children.0.reset();
        self.children.1.reset();
    }

    /// Lists the signals that either operand reads, and from then on hands each of them only
    /// samples of its own.
    pub fn route(&mut self) -> (res: Vec<&'static str>)
        requires
            old(self).wf(),
        ensures
            final(self).wf(),
            final(self).state() == old(self).state().next(Event::Route),
            final(self).left_profile() == old(self).left_profile(),
            final(self).right_profile() == old(self).right_profile(),
            forall|s: Step<T>| old(self).ready(s) ==> final(self).ready(s),
            all_distinct(res@),
            name_set(res@) == old(self).left_profile().identifiers.union(
                old(self).right_profile().identifiers,
            ),
    {
        let ghost left_before = name_set(self.left_signals@);
        let ghost right_before = name_set(self.right_signals@);
        proof {
            lemma_empty_names(self.left_signals@);
            lemma_empty_names(self.right_signals@);
        }
        let left_ids: Vec<&'static str> = self.children.0.get_signal_identifiers();
        extend_names(&mut self.left_signals, &left_ids);
        let right_ids: Vec<&'static str> = self.children.1.get_signal_identifiers();
        extend_names(&mut self.right_signals, &right_ids);
        let mut ids: Vec<&'static str> = Vec::new();
        proof {
            lemma_empty_names(ids@);
            lemma_empty_names(self.left_signals@);
            lemma_empty_names(self.right_signals@);
            assert(name_set(self.left_signals@) =~= self.left_profile().identifiers);
            assert(name_set(self.right_signals@) =~= self.right_profile().identifiers);
        }
        extend_names(&mut ids, &self.left_signals);
        extend_names(&mut ids, &self.right_signals);
        proof {
            assert(name_set(ids@) =~= self.left_profile().identifiers.union(
                self.right_profile().identifiers,
            ));
        }
        ids
    }

    /// Replaces the context that variable thresholds are read from.
    pub fn bind(&mut self, vars: &Variables<T>)
        requires
            old(self).wf(),
            vars.wf(),
        ensures
            final(self).wf(),
            final(self).state() == old(self).state().next(Event::Bind(vars@)),
            final(self).left_profile() == old(self).left_profile(),
            final(self).right_profile() == old(self).right_profile(),
            old(self).left_profile().variables.union(
                old(self).right_profile().variables,
            ).subset_of(vars@.dom()) ==> forall|s: Step<T>| final(self).ready(s),
    {
        let ghost left_vars = self.left_profile().variables;
        let ghost right_vars = self.right_profile().variables;
        self.children.0.bind(vars);
        self.children.1.bind(vars);
        proof {
            if left_vars.union(right_vars).subset_of(vars@.dom()) {
                assert forall|n: Seq<char>| left_vars.contains(n) implies vars@.dom().contains(
                    n,
                ) by {
                    assert(left_vars.union(right_vars).contains(n));
                }
                assert forall|n: Seq<char>| right_vars.contains(n) implies vars@.dom().contains(
                    n,
                ) by {
                    assert(left_vars.union(right_vars).contains(n));
                }
            }
        }
    }

    /// Names a variable that the operands `step` reaches need and that is not bound.
    pub fn missing_variable(&self, step: &Step<T>) -> (res: Option<&'static str>)
        requires
            self.wf(),
        ensures
            res is None <==> self.ready(*step),
            res matches Some(name) ==> self.left_profile().variables.union(
                self.right_profile().variables,
            ).contains(name@),
    {
        if is_concerned(&self.left_signals, step.signal) {
            if let Some(name) = self.children.0.missing_variable(step) {
                return Some(name);
            }
        }
        if is_concerned(&self.right_signals, step.signal) {
            if let Some(name) = self.children.1.missing_variable(step) {
                return Some(name);
            }
        }
        None
    }

    /// Estimated memory in bytes of both operands and their lists of signals.
    pub fn total_size(&self) -> (res: usize)
        requires
            self.wf(),
        ensures
            self.takes(res),
    {
        let left: usize = self.children.0.total_size();
        let right: usize = self.children.1.total_size();
        let names: usize = sum_of(self.left_signals.len(), self.right_signals.len());
        let size: usize = sum_of(core::mem::size_of::<&'static str>(), 1);
        proof {
            lemma_countable_product(
                (self.left_signals@.len() + self.right_signals@.len()) as int,
                vstd::layout::size_of::<&'static str>() as int + 1,
            );
        }
        assert(self.left_takes(left) && self.right_takes(right));
        sum_of(sum_of(left, right), bytes_of(names, size))
    }

    /// Appends both operands in the notation of formulas, with `infix` between them.
    pub fn push_text(&self, text: &mut String, infix: &str)
        requires
            self.wf(),
        ensures
            final(text)@ == old(text)@ + infix_text(
                self.left_profile().text,
                infix@,
                self.right_profile().text,
            ),
    {
        let ghost start = text@;
        text.append("(");
        self.children.0.push_text(text);
        text.append(")");
        text.append(infix);
        text.append("(");
        self.children.1.push_text(text);
        text.append(")");
        proof {
            let l = self.left_profile().text;
            let r = self.right_profile().text;
            assert(text@ =~= start + infix_text(l, infix@, r));
        }
    }
}

/// A list names nothing exactly if it is empty.
proof fn lemma_empty_names(list: Seq<&'static str>)
    ensures
        list.len() == 0 <==> name_set(list) =~= Set::empty(),
{
    if list.len() > 0 {
        assert(name_set(list).contains(list[0]@));
    }
}

} // verus!
