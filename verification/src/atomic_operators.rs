//! Atomic operators: the predicate leaves of a formula tree.
//!
//! An atomic operator evaluates one sample and emits one verdict in the domain `Y`.

use crate::names::name_set;
use crate::operator::{behavior_of, lemma_behavior_of_next, Behavior, Event, Machine, Profile};
use crate::operator::StlOperatorAndSignalIdentifier;
use crate::ring_buffer::Step;
use crate::semantics::{AtomicSemantics, RobustnessSemantics, SignalValue};
use crate::synchronizer::SignalInterpolation;
use crate::text::same_text;
use crate::time::{Time, MAX_TIME};
use crate::variables::Variables;
use std::marker::PhantomData;
use vstd::prelude::*;
use vstd::string::*;

verus! {

/// What a signal is compared with.
pub enum Bound<V> {
    Constant(V),
    Variable(Seq<char>),
}

/// A comparison.
pub enum Comparison<V> {
    Less(Seq<char>, Bound<V>),
    Greater(Seq<char>, Bound<V>),
    True,
    False,
}

impl<V: SignalValue> Comparison<V> {
    /// The signal that is read, if one is.
    pub open spec fn signal(self) -> Option<Seq<char>> {
        match self {
            Comparison::Less(signal, _) => Some(signal),
            Comparison::Greater(signal, _) => Some(signal),
            _ => None,
        }
    }

    /// Whether a sample of `signal` is evaluated. The constants take any.
    pub open spec fn accepts(self, signal: Seq<char>) -> bool {
        match self.signal() {
            Some(name) => name == signal,
            None => true,
        }
    }

    pub open spec fn bound(self) -> Option<Bound<V>> {
        match self {
            Comparison::Less(_, bound) => Some(bound),
            Comparison::Greater(_, bound) => Some(bound),
            _ => None,
        }
    }

    /// The variables that are read.
    pub open spec fn variables(self) -> Set<Seq<char>> {
        match self.bound() {
            Some(Bound::Variable(name)) => set![name],
            _ => Set::empty(),
        }
    }

    /// The threshold in force under `vars`, or `None` for the constants.
    pub open spec fn threshold(self, vars: Map<Seq<char>, V>) -> Option<V> {
        match self.bound() {
            Some(Bound::Constant(c)) => Some(c),
            Some(Bound::Variable(name)) => Some(vars[name]),
            None => None,
        }
    }

    /// Whether the predicate is true of `value`.
    pub open spec fn holds(self, vars: Map<Seq<char>, V>, value: V) -> bool {
        match self {
            Comparison::Less(_, _) => V::greater_spec(self.threshold(vars)->0, value),
            Comparison::Greater(_, _) => V::greater_spec(value, self.threshold(vars)->0),
            Comparison::True => true,
            Comparison::False => false,
        }
    }

    /// The verdict on `value` in the domain `Y`.
    pub open spec fn verdict<Y: AtomicSemantics<V>>(self, vars: Map<Seq<char>, V>, value: V) -> Y {
        match self {
            Comparison::Less(_, _) => Y::less_than_spec(value, self.threshold(vars)->0),
            Comparison::Greater(_, _) => Y::greater_than_spec(value, self.threshold(vars)->0),
            Comparison::True => Y::true_spec(),
            Comparison::False => Y::false_spec(),
        }
    }

    /// The predicate in the notation of formulas.
    pub open spec fn text(self) -> Seq<char> {
        match self {
            Comparison::Less(signal, bound) => signal + " < "@ + bound_text(bound),
            Comparison::Greater(signal, bound) => signal + " > "@ + bound_text(bound),
            Comparison::True => "True"@,
            Comparison::False => "False"@,
        }
    }
}

/// Variables are marked with a dollar sign.
pub open spec fn bound_text<V: SignalValue>(bound: Bound<V>) -> Seq<char> {
    match bound {
        Bound::Constant(c) => V::text_spec(c),
        Bound::Variable(name) => "$"@ + name,
    }
}

/// The comparison an [`Atomic`] performs.
///
/// Every variant compares one signal against one value at a time, so where it is true stays
/// piecewise constant under [`SignalInterpolation::Linear`].
pub enum Predicate<V> {
    /// Signal less than constant: signal < value
    LessThan(&'static str, V),
    /// Signal greater than constant: signal > value
    GreaterThan(&'static str, V),
    /// Signal less than variable: signal < $var_name
    LessThanVar(&'static str, &'static str, Variables<V>),
    /// Signal greater than variable: signal > $var_name
    GreaterThanVar(&'static str, &'static str, Variables<V>),
    /// Always true
    True,
    /// Always false
    False,
}

impl<V: SignalValue> Predicate<V> {
    pub open spec fn wf(&self) -> bool {
        match self {
            Predicate::LessThanVar(_, _, vars) => vars.wf(),
            Predicate::GreaterThanVar(_, _, vars) => vars.wf(),
            _ => true,
        }
    }

    pub open spec fn view(&self) -> Comparison<V> {
        match self {
            Predicate::LessThan(signal, c) => Comparison::Less(signal@, Bound::Constant(*c)),
            Predicate::GreaterThan(signal, c) => Comparison::Greater(signal@, Bound::Constant(*c)),
            Predicate::LessThanVar(signal, name, _) => Comparison::Less(
                signal@,
                Bound::Variable(name@),
            ),
            Predicate::GreaterThanVar(signal, name, _) => Comparison::Greater(
                signal@,
                Bound::Variable(name@),
            ),
            Predicate::True => Comparison::True,
            Predicate::False => Comparison::False,
        }
    }

    /// The variables context.
    pub open spec fn context(&self) -> Map<Seq<char>, V> {
        match self {
            Predicate::LessThanVar(_, _, vars) => vars@,
            Predicate::GreaterThanVar(_, _, vars) => vars@,
            _ => Map::empty(),
        }
    }

    /// Whether the variable that is read is bound.
    pub open spec fn is_bound(&self) -> bool {
        self@.variables().subset_of(self.context().dom())
    }

    /// The signal this predicate reads, or `None` for the constants.
    pub fn signal(&self) -> (res: Option<&'static str>)
        ensures
            match res {
                Some(signal) => self@.signal() == Some(signal@),
                None => self@.signal() is None,
            },
    {
        match self {
            Predicate::LessThan(s, _) => Some(*s),
            Predicate::GreaterThan(s, _) => Some(*s),
            Predicate::LessThanVar(s, _, _) => Some(*s),
            Predicate::GreaterThanVar(s, _, _) => Some(*s),
            Predicate::True | Predicate::False => None,
        }
    }

    /// The variable this predicate reads, if it reads one and it is not bound.
    pub fn missing_variable(&self) -> (res: Option<&'static str>)
        requires
            self.wf(),
        ensures
            res is None <==> self.is_bound(),
            res matches Some(name) ==> self@.variables().contains(name@),
    {
        let (name, vars) = match self {
            Predicate::LessThanVar(_, name, vars) => (*name, vars),
            Predicate::GreaterThanVar(_, name, vars) => (*name, vars),
            _ => {
                return None;
            },
        };
        assert(self@.variables().contains(name@));
        if vars.contains(name) {
            None
        } else {
            Some(name)
        }
    }

    /// The threshold in force right now, or `None` for the constants.
    ///
    /// For the variable forms this is read from the variables context on every call.
    pub fn threshold(&self) -> (res: Option<V>)
        requires
            self.wf(),
            self.is_bound(),
        ensures
            res == self@.threshold(self.context()),
    {
        proof {
            if let Some(Bound::Variable(name)) = self@.bound() {
                assert(self@.variables().contains(name));
            }
        }
        match self {
            Predicate::LessThan(_, c) => Some(*c),
            Predicate::GreaterThan(_, c) => Some(*c),
            Predicate::LessThanVar(_, var_name, vars) => vars.get(var_name),
            Predicate::GreaterThanVar(_, var_name, vars) => vars.get(var_name),
            Predicate::True | Predicate::False => None,
        }
    }

    /// Replaces the variables context. The forms that read no variable have none.
    pub fn bind(&mut self, vars: &Variables<V>)
        requires
            old(self).wf(),
            vars.wf(),
        ensures
            final(self).wf(),
            final(self)@ == old(self)@,
            final(self).context() == (if old(self)@.variables() =~= Set::empty() {
                old(self).context()
            } else {
                vars@
            }),
    {
        let ghost before = self@.variables();
        match self {
            Predicate::LessThanVar(signal, name, _) => {
                assert(before.contains(name@));
                *self = Predicate::LessThanVar(*signal, *name, vars.duplicate());
            },
            Predicate::GreaterThanVar(signal, name, _) => {
                assert(before.contains(name@));
                *self = Predicate::GreaterThanVar(*signal, *name, vars.duplicate());
            },
            _ => {},
        }
    }

    /// Appends the predicate in the notation of formulas.
    pub fn push_text(&self, text: &mut String)
        ensures
            final(text)@ == old(text)@ + self@.text(),
    {
        let ghost start = text@;
        match self {
            Predicate::LessThan(signal_name, c) => {
                text.append(signal_name);
                text.append(" < ");
                c.push_text(text);
            },
            Predicate::GreaterThan(signal_name, c) => {
                text.append(signal_name);
                text.append(" > ");
                c.push_text(text);
            },
            Predicate::LessThanVar(signal_name, var_name, _) => {
                text.append(signal_name);
                text.append(" < ");
                text.append("$");
                text.append(var_name);
            },
            Predicate::GreaterThanVar(signal_name, var_name, _) => {
                text.append(signal_name);
                text.append(" > ");
                text.append("$");
                text.append(var_name);
            },
            Predicate::True => text.append("True"),
            Predicate::False => text.append("False"),
        }
        assert(text@ =~= start + self@.text());
    }

    /// Whether the predicate holds at `value`. Used to detect crossings between samples.
    pub fn holds(&self, value: V) -> (res: bool)
        requires
            self.wf(),
            self.is_bound(),
        ensures
            res == self@.holds(self.context(), value),
    {
        let threshold: Option<V> = self.threshold();
        match self {
            Predicate::True => true,
            Predicate::False => false,
            Predicate::GreaterThan(_, _) | Predicate::GreaterThanVar(_, _, _) => match threshold {
                Some(c) => V::greater(value, c),
                None => false,
            },
            Predicate::LessThan(_, _) | Predicate::LessThanVar(_, _, _) => match threshold {
                Some(c) => V::greater(c, value),
                None => false,
            },
        }
    }
}

/// The instant a straight segment from `(t0, v0)` to `(t1, v1)` meets the threshold `c`, if
/// that falls strictly inside the segment at nanosecond resolution.
pub open spec fn crossing<V: SignalValue>(t0: Time, v0: V, t1: Time, v1: V, c: V) -> Option<Time> {
    if t1 < t0 {
        None
    } else {
        match V::offset_spec((t1 - t0) as Time, v0, v1, c) {
            Some(offset) => if t0 < t0 + offset < t1 {
                Some((t0 + offset) as Time)
            } else {
                None
            },
            None => None,
        }
    }
}

/// The instant a straight segment from `(t0, v0)` to `(t1, v1)` meets the threshold `c`.
///
/// Returns `None` when the crossing does not fall strictly inside the segment at nanosecond
/// resolution.
pub fn crossing_time<V: SignalValue>(t0: Time, v0: V, t1: Time, v1: V, c: V) -> (res: Option<Time>)
    requires
        t0 <= MAX_TIME,
        t1 <= MAX_TIME,
    ensures
        res == crossing(t0, v0, t1, v1, c),
{
    if t1 < t0 {
        return None;
    }
    match V::crossing_offset(t1 - t0, v0, v1, c) {
        Some(offset) => {
            let t_c: Time = t0 + offset;
            if t_c > t0 && t_c < t1 {
                Some(t_c)
            } else {
                None
            }
        },
        None => None,
    }
}

/// An atomic operator between two events.
#[verifier::ext_equal]
pub struct AtomicState<V> {
    pub comparison: Comparison<V>,
    pub context: Map<Seq<char>, V>,
    pub interpolation: SignalInterpolation,
    /// The previous sample of the signal that is read, under `Linear` only.
    pub prev: Option<(Time, V)>,
    /// Whether the verdict at the previous sample is withheld.
    pub deferred: bool,
}

impl<V: SignalValue> AtomicState<V> {
    /// The state before anything has happened.
    pub open spec fn initial(comparison: Comparison<V>, context: Map<Seq<char>, V>) -> AtomicState<
        V,
    > {
        AtomicState {
            comparison,
            context,
            interpolation: SignalInterpolation::ZeroOrderHold,
            prev: None,
            deferred: false,
        }
    }

    /// What never changes of the operator.
    pub open spec fn profile(self) -> Profile {
        Profile {
            lookahead: 0,
            identifiers: match self.comparison.signal() {
                Some(signal) => set![signal],
                None => Set::empty(),
            },
            variables: self.comparison.variables(),
            text: self.comparison.text(),
        }
    }

    /// Whether the variable that is read is bound.
    pub open spec fn is_bound(self) -> bool {
        self.comparison.variables().subset_of(self.context.dom())
    }

    /// The threshold to look for crossings of.
    pub open spec fn crossed(self) -> Option<V> {
        if self.interpolation == SignalInterpolation::Linear {
            self.comparison.threshold(self.context)
        } else {
            None
        }
    }

    pub open spec fn answer<Y: AtomicSemantics<V>>(self, value: V, timestamp: Time) -> Step<Y> {
        Step::spec_new("output", self.comparison.verdict::<Y>(self.context, value), timestamp)
    }

    /// What a sample says about the time since the previous one: the verdict withheld there,
    /// or the one from the crossing on.
    pub open spec fn between<Y: AtomicSemantics<V>>(self, step: Step<V>, threshold: V) -> Seq<
        Step<Y>,
    > {
        match self.prev {
            Some((prev_ts, prev_value)) => if self.deferred {
                seq![self.answer(step.value, prev_ts)]
            } else if self.comparison.holds(self.context, prev_value) != self.comparison.holds(
                self.context,
                step.value,
            ) {
                match crossing(prev_ts, prev_value, step.timestamp, step.value, threshold) {
                    Some(t_c) => seq![self.answer(step.value, t_c)],
                    None => Seq::empty(),
                }
            } else {
                Seq::empty()
            },
            None => Seq::empty(),
        }
    }

    /// What a sample makes available.
    pub open spec fn answers<Y: AtomicSemantics<V>>(self, step: Step<V>) -> Seq<Step<Y>> {
        if !self.comparison.accepts(step.signal@) {
            Seq::empty()
        } else {
            match self.crossed() {
                None => seq![self.answer(step.value, step.timestamp)],
                Some(threshold) => if V::equal_spec(step.value, threshold) {
                    self.between(step, threshold)
                } else {
                    self.between(step, threshold).push(self.answer(step.value, step.timestamp))
                },
            }
        }
    }

    /// What a sample leaves behind.
    pub open spec fn after_sample(self, step: Step<V>) -> AtomicState<V> {
        match self.crossed() {
            Some(threshold) if self.comparison.accepts(step.signal@) => AtomicState {
                prev: Some((step.timestamp, step.value)),
                deferred: V::equal_spec(step.value, threshold),
                ..self
            },
            _ => self,
        }
    }
}

impl<V: SignalValue, Y: AtomicSemantics<V>> Machine<V, Y> for AtomicState<V> {
    open spec fn next(self, event: Event<V>) -> Self {
        match event {
            Event::Sample(step) => self.after_sample(step),
            Event::Bind(context) => AtomicState {
                context: if self.comparison.variables() =~= Set::empty() {
                    self.context
                } else {
                    context
                },
                ..self
            },
            Event::Reset => AtomicState { prev: None, deferred: false, ..self },
            Event::Route => self,
        }
    }

    open spec fn emit(self, event: Event<V>) -> Seq<Step<Y>> {
        match event {
            Event::Sample(step) => self.answers(step),
            _ => Seq::empty(),
        }
    }

    /// Output has no gaps.
    open spec fn known(self) -> Option<Time> {
        None
    }
}

/// Atomic predicates.
///
/// Supports both constant thresholds (e.g., `x > 5`) and variable thresholds (e.g., `x > $A`
/// where `A` is looked up in a [`Variables`] context at every sample).
///
/// Under [`SignalInterpolation::Linear`] it also emits a breakpoint at each threshold
/// crossing between samples.
pub struct Atomic<V, Y> {
    predicate: Predicate<V>,
    interpolation: SignalInterpolation,
    /// The previous sample of the referenced signal, under `Linear` only.
    prev: Option<(Time, V)>,
    /// Set when `prev` sits exactly on the threshold. Its verdict holds from there to the next
    /// breakpoint, so it is withheld until the next sample shows which way the signal goes.
    deferred: bool,
    domain: PhantomData<Y>,
}

impl<V: SignalValue, Y: AtomicSemantics<V>> Atomic<V, Y> {
    pub closed spec fn state(&self) -> AtomicState<V> {
        AtomicState {
            comparison: self.predicate@,
            context: self.predicate.context(),
            interpolation: self.interpolation,
            prev: self.prev,
            deferred: self.deferred,
        }
    }

    /// Creates an atomic operator that reads its signal under zero-order hold.
    pub fn from_predicate(predicate: Predicate<V>) -> (res: Self)
        requires
            predicate.wf(),
        ensures
            res.wf(),
            res.state() == AtomicState::initial(predicate@, predicate.context()),
    {
        Atomic {
            predicate,
            interpolation: SignalInterpolation::default(),
            prev: None,
            deferred: false,
            domain: PhantomData,
        }
    }

    /// Selects how the input signal is read between samples.
    pub fn with_interpolation(self, interpolation: SignalInterpolation) -> (res: Self)
        requires
            self.wf(),
        ensures
            res.wf(),
            res.state() == (AtomicState { interpolation, ..self.state() }),
    {
        let mut res = self;
        res.interpolation = interpolation;
        res
    }

    /// Creates an atomic predicate `signal_name < val`.
    pub fn new_less_than(signal_name: &'static str, val: V) -> (res: Self)
        ensures
            res.wf(),
            res.state() == AtomicState::initial(
                Comparison::Less(signal_name@, Bound::Constant(val)),
                Map::empty(),
            ),
    {
        Self::from_predicate(Predicate::LessThan(signal_name, val))
    }

    /// Creates an atomic predicate `signal_name > val`.
    pub fn new_greater_than(signal_name: &'static str, val: V) -> (res: Self)
        ensures
            res.wf(),
            res.state() == AtomicState::initial(
                Comparison::Greater(signal_name@, Bound::Constant(val)),
                Map::empty(),
            ),
    {
        Self::from_predicate(Predicate::GreaterThan(signal_name, val))
    }

    /// Creates an atomic predicate `signal_name < $var_name`.
    ///
    /// The threshold is looked up in `vars` at evaluation time.
    pub fn new_less_than_var(
        signal_name: &'static str,
        var_name: &'static str,
        vars: Variables<V>,
    ) -> (res: Self)
        requires
            vars.wf(),
        ensures
            res.wf(),
            res.state() == AtomicState::initial(
                Comparison::Less(signal_name@, Bound::Variable(var_name@)),
                vars@,
            ),
    {
        Self::from_predicate(Predicate::LessThanVar(signal_name, var_name, vars))
    }

    /// Creates an atomic predicate `signal_name > $var_name`.
    ///
    /// The threshold is looked up in `vars` at evaluation time.
    pub fn new_greater_than_var(
        signal_name: &'static str,
        var_name: &'static str,
        vars: Variables<V>,
    ) -> (res: Self)
        requires
            vars.wf(),
        ensures
            res.wf(),
            res.state() == AtomicState::initial(
                Comparison::Greater(signal_name@, Bound::Variable(var_name@)),
                vars@,
            ),
    {
        Self::from_predicate(Predicate::GreaterThanVar(signal_name, var_name, vars))
    }

    /// Creates a constant `True` atomic operator.
    pub fn new_true() -> (res: Self)
        ensures
            res.wf(),
            res.state() == AtomicState::initial(Comparison::<V>::True, Map::empty()),
    {
        Self::from_predicate(Predicate::True)
    }

    /// Creates a constant `False` atomic operator.
    pub fn new_false() -> (res: Self)
        ensures
            res.wf(),
            res.state() == AtomicState::initial(Comparison::<V>::False, Map::empty()),
    {
        Self::from_predicate(Predicate::False)
    }

    /// The predicate's value at `value`, in the domain `Y`.
    pub fn robustness(&self, value: V) -> (res: Y)
        requires
            self.wf(),
            self.state().is_bound(),
        ensures
            res == self.state().comparison.verdict::<Y>(self.state().context, value),
    {
        let threshold: Option<V> = self.predicate.threshold();
        match &self.predicate {
            Predicate::True => Y::atomic_true(),
            Predicate::False => Y::atomic_false(),
            Predicate::GreaterThan(_, _) | Predicate::GreaterThanVar(_, _, _) => match threshold {
                Some(c) => Y::atomic_greater_than(value, c),
                None => Y::unknown(),
            },
            Predicate::LessThan(_, _) | Predicate::LessThanVar(_, _, _) => match threshold {
                Some(c) => Y::atomic_less_than(value, c),
                None => Y::unknown(),
            },
        }
    }
}

impl<V: SignalValue, Y: AtomicSemantics<V>> StlOperatorAndSignalIdentifier<V, Y> for Atomic<V, Y> {
    closed spec fn wf(&self) -> bool {
        &&& self.predicate.wf()
        &&& self.prev matches Some((ts, _)) ==> ts <= MAX_TIME
    }

    open spec fn behavior(&self) -> Behavior<V, Y> {
        behavior_of(self.state())
    }

    open spec fn profile(&self) -> Profile {
        self.state().profile()
    }

    open spec fn ready(&self, step: Step<V>) -> bool {
        self.state().comparison.accepts(step.signal@) ==> self.state().is_bound()
    }

    open spec fn takes(&self, bytes: usize) -> bool {
        bytes == vstd::layout::size_of::<Self>()
    }

    /// Evaluates the predicate at a sample.
    ///
    /// If the sample is of another signal than the predicate reads, nothing is emitted.
    fn update(&mut self, step: &Step<V>) -> (out: Vec<Step<Y>>) {
        let ghost before = self.state();
        proof {
            lemma_behavior_of_next::<V, Y, AtomicState<V>>(before, Event::Sample(*step));
        }
        // `True` and `False` read no signal and accept any sample.
        let accepts_step: bool = match self.predicate.signal() {
            Some(signal_name) => same_text(signal_name, step.signal),
            None => true,
        };
        if !accepts_step {
            return Vec::new();
        }
        let value: V = step.value;
        let result: Y = self.robustness(value);
        let mut output: Vec<Step<Y>> = Vec::new();
        let crossed: Option<V> = match self.interpolation {
            SignalInterpolation::Linear => self.predicate.threshold(),
            SignalInterpolation::ZeroOrderHold => None,
        };
        let threshold: V = match crossed {
            Some(c) => c,
            None => {
                // Zero-order hold, and the constants, which have no signal to interpolate.
                output.push(Step::new("output", result, step.timestamp));
                assert(output@ =~= before.answers::<Y>(*step));
                return output;
            },
        };
        if let Some((prev_ts, prev_value)) = self.prev {
            if self.deferred {
                // The previous sample sat on the threshold: its verdict is given now that the
                // direction is known.
                output.push(Step::new("output", result, prev_ts));
            } else if self.predicate.holds(prev_value) != self.predicate.holds(value) {
                if let Some(t_c) = crossing_time(
                    prev_ts,
                    prev_value,
                    step.timestamp,
                    value,
                    threshold,
                ) {
                    output.push(Step::new("output", result, t_c));
                }
            }
        }
        assert(output@ =~= before.between::<Y>(*step, threshold));
        self.prev = Some((step.timestamp, value));
        self.deferred = V::equal(value, threshold);
        if !self.deferred {
            output.push(Step::new("output", result, step.timestamp));
        }
        assert(self.state() =~= before.after_sample(*step));
        output
    }

    fn get_max_lookahead(&self) -> (res: Time) {
        0
    }

    fn known_through(&self) -> (res: Option<Time>) {
        proof {
            lemma_behavior_of_next::<V, Y, AtomicState<V>>(self.state(), Event::Reset);
        }
        None
    }

    fn reset(&mut self) {
        proof {
            lemma_behavior_of_next::<V, Y, AtomicState<V>>(self.state(), Event::Reset);
        }
        self.prev = None;
        self.deferred = false;
    }

    /// Lists the signal that is read. The constants read none.
    fn get_signal_identifiers(&mut self) -> (res: Vec<&'static str>) {
        proof {
            lemma_behavior_of_next::<V, Y, AtomicState<V>>(self.state(), Event::Route);
        }
        let mut ids: Vec<&'static str> = Vec::new();
        if let Some(signal_name) = self.predicate.signal() {
            ids.push(signal_name);
            assert(ids@[0]@ == signal_name@);
        }
        assert(name_set(ids@) =~= self.profile().identifiers);
        ids
    }

    fn bind(&mut self, vars: &Variables<V>) {
        proof {
            lemma_behavior_of_next::<V, Y, AtomicState<V>>(self.state(), Event::Bind(vars@));
        }
        self.predicate.bind(vars);
    }

    fn missing_variable(&self, step: &Step<V>) -> (res: Option<&'static str>) {
        let accepts_step: bool = match self.predicate.signal() {
            Some(signal_name) => same_text(signal_name, step.signal),
            None => true,
        };
        if accepts_step {
            self.predicate.missing_variable()
        } else {
            None
        }
    }

    fn total_size(&self) -> (res: usize) {
        core::mem::size_of::<Self>()
    }

    fn push_text(&self, text: &mut String) {
        self.predicate.push_text(text);
    }
}

} // verus!
