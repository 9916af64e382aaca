//! The temporal operator until: `phi U[a,b] psi` over samples as they arrive, in delayed,
//! eager and refinable mode.

use crate::binary_node::{cached, is_usable};
use crate::binary_operators::rising;
use crate::memory::{countable, lemma_room_for, room_for, sum_of, vec_heap_size};
use crate::operands::{infix_text, Operands, OperandsState};
use crate::operator::{behavior_of, lemma_behavior_of_next, Behavior, Event, Machine, Profile};
use crate::operator::StlOperatorAndSignalIdentifier;
use crate::ring_buffer::{all_upto, guarded_prune, in_order, lemma_pruned, lemma_put_in_order};
use crate::ring_buffer::{pruned, put, RingBufferTrait, Step};
use crate::semantics::RobustnessSemantics;
use crate::text::{push_seconds, seconds_text};
use crate::time::{earlier, later, max_time, min_time, minus, saturating_minus};
use crate::time::{Time, TimeInterval, MAX_TIME};
use crate::until_window::{Outcome, Window, WindowView};
use crate::variables::Variables;
use vstd::prelude::*;
use vstd::string::*;

verus! {

/// `t`, but no later than `bound` if there is one.
pub open spec fn capped(t: Time, bound: Option<Time>) -> Time {
    match bound {
        Some(b) => min_time(t, b),
        None => t,
    }
}

/// How far an operand has reported, once it has emitted `updates`.
pub open spec fn reported<Y>(t: Time, updates: Seq<Step<Y>>) -> Time {
    if updates.len() == 0 {
        t
    } else {
        max_time(t, updates.last().timestamp)
    }
}

/// The newest final verdict among `updates`, if it is newer than `t`.
pub open spec fn final_through<Y: RobustnessSemantics>(t: Time, updates: Seq<Step<Y>>) -> Time
    decreases updates.len(),
{
    if updates.len() == 0 {
        t
    } else {
        let head = final_through(t, updates.drop_last());
        if Y::final_spec(updates.last().value) {
            max_time(head, updates.last().timestamp)
        } else {
            head
        }
    }
}

/// A cache after `updates` were added to it.
pub open spec fn with_all<Y>(cache: Seq<Step<Y>>, updates: Seq<Step<Y>>) -> Seq<Step<Y>>
    decreases updates.len(),
{
    if updates.len() == 0 {
        cache
    } else {
        put(with_all(cache, updates.drop_last()), updates.last())
    }
}

/// The timestamp of `step` lies behind the newest one in `cache`.
pub open spec fn lands_behind<Y>(cache: Seq<Step<Y>>, step: Step<Y>) -> bool {
    cache.len() > 0 && step.timestamp < cache.last().timestamp
}

/// The timestamps among `updates` that land behind the newest one cached by then.
pub open spec fn late_among<Y>(cache: Seq<Step<Y>>, updates: Seq<Step<Y>>) -> Seq<Time>
    decreases updates.len(),
{
    if updates.len() == 0 {
        Seq::empty()
    } else {
        let head = late_among(cache, updates.drop_last());
        if lands_behind(with_all(cache, updates.drop_last()), updates.last()) {
            head.push(updates.last().timestamp)
        } else {
            head
        }
    }
}

/// The timestamps of `steps`.
pub open spec fn timestamps<Y>(steps: Seq<Step<Y>>) -> Seq<Time> {
    Seq::new(steps.len(), |i: int| steps[i].timestamp)
}

/// The least of `first` and `times`.
pub open spec fn earliest(first: Option<Time>, times: Seq<Time>) -> Option<Time>
    decreases times.len(),
{
    if times.len() == 0 {
        first
    } else {
        match earliest(first, times.drop_last()) {
            Some(t) => Some(min_time(t, times.last())),
            None => Some(times.last()),
        }
    }
}

/// How many of the rising `tasks` lie before `t`.
pub open spec fn count_before(tasks: Seq<Time>, t: Time) -> nat
    decreases tasks.len(),
{
    if tasks.len() == 0 {
        0
    } else if tasks.last() < t {
        tasks.len()
    } else {
        count_before(tasks.drop_last(), t)
    }
}

/// `tasks` with `t` at its place, once.
pub open spec fn with_task(tasks: Seq<Time>, t: Time) -> Seq<Time> {
    let n = count_before(tasks, t) as int;
    if n < tasks.len() && tasks[n] == t {
        tasks
    } else {
        tasks.insert(n, t)
    }
}

/// The count splits rising tasks at `t`.
proof fn lemma_count_before(tasks: Seq<Time>, t: Time)
    requires
        rising(tasks),
    ensures
        count_before(tasks, t) <= tasks.len(),
        forall|i: int| 0 <= i < count_before(tasks, t) ==> #[trigger] tasks[i] < t,
        forall|i: int| count_before(tasks, t) <= i < tasks.len() ==> #[trigger] tasks[i] >= t,
    decreases tasks.len(),
{
    if tasks.len() > 0 && tasks.last() >= t {
        let p = tasks.drop_last();
        assert(rising(p));
        lemma_count_before(p, t);
        assert forall|i: int| count_before(tasks, t) <= i < tasks.len() implies #[trigger] tasks[i]
            >= t by {
            if i < p.len() {
                assert(p[i] == tasks[i]);
            }
        }
        assert forall|i: int| 0 <= i < count_before(tasks, t) implies #[trigger] tasks[i] < t by {
            assert(p[i] == tasks[i]);
        }
    }
}

/// Queueing a task keeps the queue rising and adds just that task.
pub proof fn lemma_with_task(tasks: Seq<Time>, t: Time)
    requires
        rising(tasks),
    ensures
        rising(with_task(tasks, t)),
        forall|u: Time| #[trigger] with_task(tasks, t).contains(u) <==> tasks.contains(u) || u == t,
{
    lemma_count_before(tasks, t);
    let n = count_before(tasks, t) as int;
    let more = with_task(tasks, t);
    if n < tasks.len() && tasks[n] == t {
    } else {
        assert forall|u: Time| #[trigger] more.contains(u) <==> tasks.contains(u) || u == t by {
            if more.contains(u) {
                let i = choose|i: int| 0 <= i < more.len() && more[i] == u;
                if i < n {
                    assert(tasks[i] == u);
                } else if i > n {
                    assert(tasks[i - 1] == u);
                }
            }
            if tasks.contains(u) {
                let i = choose|i: int| 0 <= i < tasks.len() && tasks[i] == u;
                if i < n {
                    assert(more[i] == u);
                } else {
                    assert(more[i + 1] == u);
                }
            }
            assert(more[n] == t);
        }
    }
}

/// Puts `t` into an ordered queue of tasks, once.
pub fn enqueue_eval(tasks: &mut Vec<Time>, t: Time)
    requires
        rising(old(tasks)@),
    ensures
        final(tasks)@ == with_task(old(tasks)@, t),
{
    let mut n: usize = tasks.len();
    let ghost before = tasks@;
    proof {
        lemma_count_before(before, t);
    }
    while n > 0 && tasks[n - 1] >= t
        invariant
            tasks@ == before,
            n <= before.len(),
            rising(before),
            forall|i: int| n <= i < before.len() ==> #[trigger] before[i] >= t,
        decreases n,
    {
        n = n - 1;
    }
    proof {
        let c = count_before(before, t);
        assert(n == c) by {
            if n < c {
                assert(before[n as int] < t);
            } else if c < n {
                assert(before[n - 1] >= t);
            }
        }
    }
    if n < tasks.len() && tasks[n] == t {
        return;
    }
    tasks.insert(n, t);
}

/// An until between two events.
#[verifier::ext_equal]
#[verifier::reject_recursive_types(T)]
pub struct UntilState<T, Y> {
    pub operands: OperandsState<T, Y>,
    /// The verdicts of phi that are still needed.
    pub left_cache: Seq<Step<Y>>,
    /// The verdicts of psi that are still needed.
    pub right_cache: Seq<Step<Y>>,
    /// How far each operand has reported.
    pub t_max: (Time, Time),
    /// The newest timestamp each operand has reported a final value for.
    pub settled: (Time, Time),
    /// The times waiting to be evaluated.
    pub tasks: Seq<Time>,
    /// The first timestamp of an operand. Nothing is evaluated before it.
    pub first_ts: Option<Time>,
    /// The newest time with a final answer.
    pub finalized_ts: Option<Time>,
    pub interval: TimeInterval,
    pub lookahead: Time,
    pub eager: bool,
    pub rosi: bool,
}

/// The part of an until between its operands.
pub open spec fn until_infix(interval: TimeInterval) -> Seq<char> {
    " U["@ + seconds_text(interval.start) + ", "@ + seconds_text(interval.end) + "] "@
}

/// What never changes of an until over two operands with the given profiles.
pub open spec fn until_profile(left: Profile, right: Profile, interval: TimeInterval) -> Profile {
    Profile {
        lookahead: (interval.end + max_time(left.lookahead, right.lookahead)) as Time,
        identifiers: left.identifiers.union(right.identifiers),
        variables: left.variables.union(right.variables),
        text: infix_text(left.text, until_infix(interval), right.text),
    }
}

impl<T, Y: RobustnessSemantics> UntilState<T, Y> {
    /// The state before anything has happened.
    pub open spec fn initial(
        interval: TimeInterval,
        left: Behavior<T, Y>,
        right: Behavior<T, Y>,
        left_profile: Profile,
        right_profile: Profile,
        left_cache: Seq<Step<Y>>,
        right_cache: Seq<Step<Y>>,
        eager: bool,
        rosi: bool,
    ) -> UntilState<T, Y> {
        UntilState {
            operands: OperandsState {
                left,
                right,
                left_reads: left_profile.identifiers,
                right_reads: right_profile.identifiers,
                left_signals: Set::empty(),
                right_signals: Set::empty(),
            },
            left_cache,
            right_cache,
            t_max: (0, 0),
            settled: (0, 0),
            tasks: Seq::empty(),
            first_ts: None,
            finalized_ts: None,
            interval,
            lookahead: (interval.end + max_time(
                left_profile.lookahead,
                right_profile.lookahead,
            )) as Time,
            eager,
            rosi,
        }
    }

    pub open spec fn wf(self) -> bool {
        &&& in_order(self.left_cache)
        &&& in_order(self.right_cache)
        &&& all_upto(self.left_cache, MAX_TIME)
        &&& all_upto(self.right_cache, MAX_TIME)
        &&& rising(self.tasks)
        &&& forall|i: int| 0 <= i < self.tasks.len() ==> #[trigger] self.tasks[i] <= MAX_TIME
        &&& self.interval.start <= MAX_TIME
        &&& self.interval.end <= self.lookahead <= MAX_TIME
    }

    /// The time through which both operands have reported.
    pub open spec fn combined(self) -> Time {
        min_time(self.t_max.0, self.t_max.1)
    }

    /// Whether a breakpoint at `ts` queues `t`. An answered time is taken up again only for a
    /// breakpoint that came late, and only if its window was not covered yet.
    pub open spec fn queues(self, ts: Time, late: Seq<Time>, t: Time) -> bool {
        &&& self.first_ts matches Some(first) && t >= first
        &&& late.contains(ts) && t + self.interval.end > self.combined() || match self.finalized_ts {
            Some(answered) => t > answered,
            None => true,
        }
    }

    /// `tasks` with `ts - shift`, if that is a time that a breakpoint at `ts` queues.
    pub open spec fn with_shifted(
        self,
        tasks: Seq<Time>,
        ts: Time,
        late: Seq<Time>,
        shift: Time,
    ) -> Seq<Time> {
        if ts >= shift && self.queues(ts, late, (ts - shift) as Time) {
            with_task(tasks, (ts - shift) as Time)
        } else {
            tasks
        }
    }

    /// The queue once the breakpoints at `points` are known. Each one queues its own time and
    /// the times whose windows begin and end there, since the output only changes where an end
    /// of the window crosses a breakpoint.
    pub open spec fn queued(self, points: Seq<Time>, late: Seq<Time>) -> Seq<Time>
        decreases points.len(),
    {
        if points.len() == 0 {
            self.tasks
        } else {
            let ts = points.last();
            let t0 = self.queued(points.drop_last(), late);
            let t1 = self.with_shifted(t0, ts, late, 0);
            let t2 = self.with_shifted(t1, ts, late, self.interval.start);
            self.with_shifted(t2, ts, late, self.interval.end)
        }
    }

    /// The sample is handed to the operands, and what they emit is cached.
    pub open spec fn taken_in(self, step: Step<T>) -> UntilState<T, Y> {
        let event = Event::Sample(step);
        let left = self.operands.left_emits(event);
        let right = self.operands.right_emits(event);
        let operands = self.operands.next(event);
        UntilState {
            operands,
            left_cache: with_all(self.left_cache, left),
            right_cache: with_all(self.right_cache, right),
            t_max: (
                capped(reported(self.t_max.0, left), operands.left.known_now()),
                capped(reported(self.t_max.1, right), operands.right.known_now()),
            ),
            settled: (
                final_through(self.settled.0, left),
                final_through(self.settled.1, right),
            ),
            first_ts: match self.first_ts {
                Some(first) => Some(first),
                None => earliest(None, timestamps(right) + timestamps(left)),
            },
            ..self
        }
    }

    /// The times that what the operands emit on a sample puts into the queue.
    pub open spec fn with_tasks(self, before: UntilState<T, Y>, step: Step<T>) -> UntilState<T, Y> {
        let event = Event::Sample(step);
        let left = before.operands.left_emits(event);
        let right = before.operands.right_emits(event);
        UntilState {
            tasks: self.queued(
                timestamps(right) + timestamps(left),
                late_among(before.right_cache, right) + late_among(before.left_cache, left),
            ),
            ..self
        }
    }

    /// The evaluation at `t` when the newest sample is of time `now`.
    pub open spec fn window(self, t: Time, now: Time) -> WindowView<Y> {
        WindowView {
            left: self.left_cache,
            right: self.right_cache,
            left_known: self.t_max.0,
            right_known: self.t_max.1,
            left_settled: if self.rosi {
                min_time(self.settled.0, self.t_max.0)
            } else {
                self.t_max.0
            },
            right_settled: if self.rosi {
                min_time(self.settled.1, self.t_max.1)
            } else {
                self.t_max.1
            },
            t,
            interval: self.interval,
            now,
            eager: self.eager,
            rosi: self.rosi,
        }
    }

    /// How many of `tasks` can be evaluated in order before one has to wait.
    pub open spec fn evaluable(self, tasks: Seq<Time>, now: Time) -> nat
        decreases tasks.len(),
    {
        if tasks.len() == 0 || self.window(tasks[0], now).outcome() is Wait {
            0
        } else {
            1 + self.evaluable(tasks.skip(1), now)
        }
    }

    /// The verdict at `t`, which need not be final.
    pub open spec fn verdict(self, t: Time, now: Time) -> Step<Y> {
        let value = match self.window(t, now).outcome() {
            Outcome::Final(v) => v,
            Outcome::Open(v) => v,
            Outcome::Wait => Y::unknown_spec(),
        };
        Step::spec_new("output", value, t)
    }

    /// The verdicts that can be given.
    pub open spec fn available(self, now: Time) -> Seq<Step<Y>> {
        if self.left_cache.len() == 0 || self.right_cache.len() == 0 {
            Seq::empty()
        } else {
            Seq::new(
                self.evaluable(self.tasks, now),
                |i: int| self.verdict(self.tasks[i], now),
            )
        }
    }

    /// Those of `tasks` whose verdict is not final.
    pub open spec fn still_open(self, tasks: Seq<Time>, now: Time) -> Seq<Time>
        decreases tasks.len(),
    {
        if tasks.len() == 0 {
            tasks
        } else {
            let head = self.still_open(tasks.drop_last(), now);
            if self.window(tasks.last(), now).outcome() is Final {
                head
            } else {
                head.push(tasks.last())
            }
        }
    }

    /// The newest of `tasks` whose verdict is final.
    pub open spec fn newest_final(self, tasks: Seq<Time>, now: Time) -> Option<Time>
        decreases tasks.len(),
    {
        if tasks.len() == 0 {
            None
        } else if self.window(tasks.last(), now).outcome() is Final {
            Some(tasks.last())
        } else {
            self.newest_final(tasks.drop_last(), now)
        }
    }

    /// The verdicts that could be given were given: what is no longer needed is forgotten.
    pub open spec fn answered(self, now: Time) -> UntilState<T, Y> {
        if self.left_cache.len() == 0 || self.right_cache.len() == 0 {
            self
        } else {
            let n = self.evaluable(self.tasks, now) as int;
            let done = self.tasks.take(n);
            let finalized_ts = match self.newest_final(done, now) {
                Some(t) => Some(t),
                None => self.finalized_ts,
            };
            let floor = match finalized_ts {
                Some(t) => t,
                None => 0,
            };
            // Any time after the floor can still become a task.
            let protected_ts = if self.tasks.len() > 0 {
                min_time(self.tasks[0], floor)
            } else {
                floor
            };
            UntilState {
                left_cache: pruned(self.left_cache, self.lookahead, protected_ts),
                right_cache: pruned(self.right_cache, self.lookahead, protected_ts),
                tasks: self.still_open(done, now) + self.tasks.skip(n),
                finalized_ts,
                ..self
            }
        }
    }

    /// Nothing has been taken in since the operands were in the state they are in.
    pub open spec fn cleared(self) -> UntilState<T, Y> {
        UntilState {
            left_cache: Seq::empty(),
            right_cache: Seq::empty(),
            t_max: (0, 0),
            settled: (0, 0),
            tasks: Seq::empty(),
            first_ts: None,
            finalized_ts: None,
            ..self
        }
    }
}

impl<T, Y: RobustnessSemantics> Machine<T, Y> for UntilState<T, Y> {
    open spec fn next(self, event: Event<T>) -> Self {
        let routed = UntilState { operands: self.operands.next(event), ..self };
        match event {
            Event::Sample(step) => self.taken_in(step).with_tasks(self, step).answered(
                step.timestamp,
            ),
            Event::Bind(_) => routed,
            Event::Reset => routed.cleared(),
            Event::Route => routed,
        }
    }

    open spec fn emit(self, event: Event<T>) -> Seq<Step<Y>> {
        match event {
            Event::Sample(step) => self.taken_in(step).with_tasks(self, step).available(
                step.timestamp,
            ),
            _ => Seq::empty(),
        }
    }

    /// Eager output is free of gaps up to the newest final answer, and no further than the
    /// operands are, shifted back by the end of the interval. In the other modes output comes
    /// in order and has no gaps.
    open spec fn known(self) -> Option<Time> {
        if self.eager && !self.rosi {
            let answered = match self.finalized_ts {
                Some(t) => t,
                None => 0,
            };
            match (self.operands.left.known_now(), self.operands.right.known_now()) {
                (None, None) => Some(answered),
                (left, right) => Some(
                    min_time(
                        answered,
                        minus(capped(capped(MAX_TIME, left), right), self.interval.end),
                    ),
                ),
            }
        } else {
            None
        }
    }
}

/// What is added to an ordered cache keeps it ordered.
proof fn lemma_with_all<Y>(cache: Seq<Step<Y>>, updates: Seq<Step<Y>>)
    requires
        in_order(cache),
    ensures
        in_order(with_all(cache, updates)),
        forall|bound: Time|
            all_upto(cache, bound) && all_upto(updates, bound) ==> #[trigger] all_upto(
                with_all(cache, updates),
                bound,
            ),
    decreases updates.len(),
{
    if updates.len() > 0 {
        lemma_with_all(cache, updates.drop_last());
        lemma_put_in_order(with_all(cache, updates.drop_last()), updates.last());
        assert forall|bound: Time|
            all_upto(cache, bound) && all_upto(updates, bound) implies #[trigger] all_upto(
            with_all(cache, updates),
            bound,
        ) by {
            assert(all_upto(updates.drop_last(), bound));
            assert(updates.last() == updates[updates.len() - 1]);
        }
    }
}

/// The queue stays ordered and within bounds.
proof fn lemma_with_shifted<T, Y: RobustnessSemantics>(
    state: UntilState<T, Y>,
    tasks: Seq<Time>,
    ts: Time,
    late: Seq<Time>,
    shift: Time,
)
    requires
        rising(tasks),
        forall|i: int| 0 <= i < tasks.len() ==> #[trigger] tasks[i] <= MAX_TIME,
        ts <= MAX_TIME,
    ensures
        rising(state.with_shifted(tasks, ts, late, shift)),
        forall|i: int|
            0 <= i < state.with_shifted(tasks, ts, late, shift).len()
                ==> #[trigger] state.with_shifted(tasks, ts, late, shift)[i] <= MAX_TIME,
{
    let more = state.with_shifted(tasks, ts, late, shift);
    if ts >= shift {
        let t = (ts - shift) as Time;
        lemma_with_task(tasks, t);
        assert forall|i: int| 0 <= i < more.len() implies #[trigger] more[i] <= MAX_TIME by {
            assert(more.contains(more[i]));
            if tasks.contains(more[i]) {
                let j = choose|j: int| 0 <= j < tasks.len() && tasks[j] == more[i];
                assert(tasks[j] <= MAX_TIME);
            }
        }
    }
}

/// The queue stays ordered and within bounds.
proof fn lemma_queued<T, Y: RobustnessSemantics>(
    state: UntilState<T, Y>,
    points: Seq<Time>,
    late: Seq<Time>,
)
    requires
        rising(state.tasks),
        forall|i: int| 0 <= i < state.tasks.len() ==> #[trigger] state.tasks[i] <= MAX_TIME,
        forall|i: int| 0 <= i < points.len() ==> #[trigger] points[i] <= MAX_TIME,
    ensures
        rising(state.queued(points, late)),
        forall|i: int|
            0 <= i < state.queued(points, late).len() ==> #[trigger] state.queued(points, late)[i]
                <= MAX_TIME,
    decreases points.len(),
{
    if points.len() > 0 {
        let ts = points.last();
        assert(ts == points[points.len() - 1]);
        let t0 = state.queued(points.drop_last(), late);
        lemma_queued(state, points.drop_last(), late);
        let t1 = state.with_shifted(t0, ts, late, 0);
        lemma_with_shifted(state, t0, ts, late, 0);
        let t2 = state.with_shifted(t1, ts, late, state.interval.start);
        lemma_with_shifted(state, t1, ts, late, state.interval.start);
        lemma_with_shifted(state, t2, ts, late, state.interval.end);
    }
}

/// Temporal until operator `phi U[a,b] psi`.
///
/// At each evaluation time `t` it takes the best witness on the window `[t + a, t + b]`: a time
/// at which psi holds, with phi holding from `t` up to and including it.
///
/// Verdicts of the operands are cached, and the times to evaluate are queued, so that results
/// can be given as samples arrive.
#[verifier::reject_recursive_types(T)]
#[verifier::reject_recursive_types(Y)]
pub struct Until<T, C, Y, const IS_EAGER: bool, const IS_ROSI: bool> {
    interval: TimeInterval,
    operands: Operands<T, Y>,
    left_cache: C,
    right_cache: C,
    /// How far each operand has reported.
    t_max: (Time, Time),
    /// Newest timestamp for which each operand has reported a final value.
    settled: (Time, Time),
    eval_buffer: Vec<Time>,
    max_lookahead: Time,
    /// Timestamp of the first operand output. Earlier evaluation times are dropped.
    first_ts: Option<Time>,
    /// Newest evaluation time with a final answer. Earlier ones are not queued again.
    finalized_ts: Option<Time>,
}

/// Adds a step to a cache, in time order.
///
/// Returns `true` when the step landed behind the newest one already cached.
pub fn add_to_cache<C: RingBufferTrait>(cache: &mut C, step: Step<C::Value>) -> (res: bool)
    requires
        in_order(old(cache).entries()),
    ensures
        final(cache).entries() == put(old(cache).entries(), step),
        res == lands_behind(old(cache).entries(), step),
{
    let is_late: bool = match cache.get_back() {
        Some(back) => step.timestamp < back.timestamp,
        None => false,
    };
    // An eager child can emit out of order, so the step is inserted rather than appended.
    cache.insert_step(step);
    is_late
}

/// Caches what an operand has emitted. Lists the timestamps that came late in `late`, and
/// returns how far the operand's verdicts are final.
fn cache_updates<C, Y>(
    cache: &mut C,
    updates: &Vec<Step<Y>>,
    settled: Time,
    late: &mut Vec<Time>,
) -> (res: Time) where C: RingBufferTrait<Value = Y>, Y: RobustnessSemantics
    requires
        in_order(old(cache).entries()),
    ensures
        final(cache).entries() == with_all(old(cache).entries(), updates@),
        final(late)@ == old(late)@ + late_among(old(cache).entries(), updates@),
        res == final_through(settled, updates@),
{
    let ghost before = cache.entries();
    let ghost listed = late@;
    let mut through: Time = settled;
    let mut i: usize = 0;
    proof {
        assert(updates@.take(0) =~= Seq::empty());
        assert(listed + Seq::<Time>::empty() =~= listed);
    }
    while i < updates.len()
        invariant
            i <= updates@.len(),
            in_order(before),
            cache.entries() == with_all(before, updates@.take(i as int)),
            late@ == listed + late_among(before, updates@.take(i as int)),
            through == final_through(settled, updates@.take(i as int)),
        decreases updates@.len() - i,
    {
        let update: Step<Y> = updates[i];
        proof {
            let longer = updates@.take(i + 1);
            assert(longer.drop_last() =~= updates@.take(i as int));
            assert(longer.last() == update);
            lemma_with_all(before, updates@.take(i as int));
        }
        let ghost so_far = late_among(before, updates@.take(i as int));
        if update.value.is_final() {
            through = later(through, update.timestamp);
        }
        if add_to_cache(cache, update) {
            late.push(update.timestamp);
            assert(late@ =~= listed + so_far.push(update.timestamp));
        }
        i = i + 1;
    }
    assert(updates@.take(i as int) =~= updates@);
    through
}

/// Appends the timestamps of `updates` to `points`.
fn push_timestamps<Y>(points: &mut Vec<Time>, updates: &Vec<Step<Y>>)
    ensures
        final(points)@ == old(points)@ + timestamps(updates@),
{
    let ghost before = points@;
    let mut i: usize = 0;
    while i < updates.len()
        invariant
            i <= updates@.len(),
            points@ == before + timestamps(updates@).take(i as int),
        decreases updates@.len() - i,
    {
        points.push(updates[i].timestamp);
        assert(timestamps(updates@).take(i + 1) =~= timestamps(updates@).take(i as int).push(
            updates@[i as int].timestamp,
        ));
        i = i + 1;
    }
    assert(timestamps(updates@).take(i as int) =~= timestamps(updates@));
}

/// The least of `points`.
fn earliest_of(points: &Vec<Time>) -> (res: Option<Time>)
    ensures
        res == earliest(None, points@),
{
    let mut first: Option<Time> = None;
    let mut i: usize = 0;
    assert(points@.take(0) =~= Seq::empty());
    while i < points.len()
        invariant
            i <= points@.len(),
            first == earliest(None, points@.take(i as int)),
        decreases points@.len() - i,
    {
        proof {
            assert(points@.take(i + 1).drop_last() =~= points@.take(i as int));
        }
        let ts: Time = points[i];
        first = match first {
            Some(t) => Some(earlier(t, ts)),
            None => Some(ts),
        };
        i = i + 1;
    }
    assert(points@.take(i as int) =~= points@);
    first
}

/// Whether `times` lists `t`.
fn lists_time(times: &Vec<Time>, t: Time) -> (res: bool)
    ensures
        res == times@.contains(t),
{
    let mut i: usize = 0;
    while i < times.len()
        invariant
            i <= times@.len(),
            forall|j: int| 0 <= j < i ==> times@[j] != t,
        decreases times@.len() - i,
    {
        if times[i] == t {
            assert(times@[i as int] == t);
            return true;
        }
        i = i + 1;
    }
    false
}

/// How far an operand that had reported up to `t` has reported, and not past a gap.
fn frontier<Y>(t: Time, updates: &Vec<Step<Y>>, known: Option<Time>) -> (res: Time)
    ensures
        res == capped(reported(t, updates@), known),
{
    let len: usize = updates.len();
    let newest: Time = if len > 0 {
        later(t, updates[len - 1].timestamp)
    } else {
        t
    };
    // The bound can fall, so it is applied last.
    match known {
        Some(bound) => earlier(newest, bound),
        None => newest,
    }
}

impl<T, C, Y, const IS_EAGER: bool, const IS_ROSI: bool> Until<T, C, Y, IS_EAGER, IS_ROSI> where
    C: RingBufferTrait<Value = Y>,
    Y: RobustnessSemantics,
 {
    pub closed spec fn state(&self) -> UntilState<T, Y> {
        UntilState {
            operands: self.operands.state(),
            left_cache: self.left_cache.entries(),
            right_cache: self.right_cache.entries(),
            t_max: self.t_max,
            settled: self.settled,
            tasks: self.eval_buffer@,
            first_ts: self.first_ts,
            finalized_ts: self.finalized_ts,
            interval: self.interval,
            lookahead: self.max_lookahead,
            eager: IS_EAGER,
            rosi: IS_ROSI,
        }
    }

    /// Whether the left operand has the variables it needs for `step`.
    pub closed spec fn left_ready(&self, step: Step<T>) -> bool {
        self.operands.left_ready(step)
    }

    /// Whether the right operand has the variables it needs for `step`.
    pub closed spec fn right_ready(&self, step: Step<T>) -> bool {
        self.operands.right_ready(step)
    }

    /// A step can be evaluated just if the operands that it reaches can: those that read its
    /// signal, and both while it is not known what they read.
    pub proof fn readiness_is_that_of_the_operands_reached(&self, step: Step<T>)
        ensures
            ({
                let operands = self.state().operands;
                let left = operands.left_signals;
                let right = operands.right_signals;
                let empty = Set::<Seq<char>>::empty();
                self.ready(step) <==> (left.contains(step.signal@) || left == empty
                    ==> self.left_ready(step)) && (right.contains(step.signal@) || right == empty
                    ==> self.right_ready(step))
            }),
    {
        self.operands.readiness_is_that_of_the_operands_reached(step);
    }

    /// Whether `bytes` is an estimate of the memory the left operand uses.
    pub closed spec fn left_takes(&self, bytes: usize) -> bool {
        self.operands.left_takes(bytes)
    }

    /// Whether `bytes` is an estimate of the memory the right operand uses.
    pub closed spec fn right_takes(&self, bytes: usize) -> bool {
        self.operands.right_takes(bytes)
    }

    /// An estimate of the memory in use includes the operator itself, both operands and both
    /// caches.
    pub proof fn estimate_includes_operands(&self, bytes: usize)
        requires
            self.takes(bytes),
        ensures
            exists|left: usize, right: usize|
                #[trigger] self.left_takes(left) && #[trigger] self.right_takes(right) && bytes
                    >= countable(
                    vstd::layout::size_of::<Self>() + left + right + (self.state().left_cache.len()
                        + self.state().right_cache.len()) * vstd::layout::size_of::<Step<Y>>(),
                ),
    {
        let step = vstd::layout::size_of::<Step<Y>>();
        let time = vstd::layout::size_of::<Time>();
        let l = self.left_cache.entries().len();
        let r = self.right_cache.entries().len();
        let (operands, left, right, queue) = choose|
            operands: usize,
            left: usize,
            right: usize,
            queue: usize,
        |
            {
                &&& #[trigger] self.operands.takes(operands)
                &&& #[trigger] room_for(left, l, step)
                &&& #[trigger] room_for(right, r, step)
                &&& #[trigger] room_for(queue, self.eval_buffer@.len(), time)
                &&& bytes == countable(
                    vstd::layout::size_of::<Self>() + operands + left + right + queue,
                )
            };
        self.operands.lemma_takes(operands);
        lemma_room_for(left, l, step);
        lemma_room_for(right, r, step);
        assert((l + r) * step == l * step + r * step) by (nonlinear_arith);
        let (a, b) = choose|a: usize, b: usize|
            #[trigger] self.operands.left_takes(a) && #[trigger] self.operands.right_takes(b)
                && operands >= countable(a + b);
        assert(self.left_takes(a) && self.right_takes(b));
    }

    /// The operator takes its own size, what its operands take, and room for the verdicts it
    /// keeps, for the times it has queued, and for the names of the signals its operands
    /// read.
    pub proof fn memory_is_that_of_its_parts(&self, bytes: usize)
        requires
            self.wf(),
            self.takes(bytes),
        ensures
            exists|left: usize, right: usize, kept: (usize, usize), queue: usize|
                {
                    &&& #[trigger] self.left_takes(left)
                    &&& #[trigger] self.right_takes(right)
                    &&& #[trigger] room_for(
                        kept.0,
                        self.state().left_cache.len(),
                        vstd::layout::size_of::<Step<Y>>(),
                    )
                    &&& #[trigger] room_for(
                        kept.1,
                        self.state().right_cache.len(),
                        vstd::layout::size_of::<Step<Y>>(),
                    )
                    &&& #[trigger] room_for(
                        queue,
                        self.state().tasks.len(),
                        vstd::layout::size_of::<Time>(),
                    )
                    &&& bytes == countable(
                        vstd::layout::size_of::<Self>() + left + right + (
                        self.state().operands.left_signals.len() + self.state().operands.right_signals.len()) * (
                        vstd::layout::size_of::<&'static str>() + 1) + kept.0 + kept.1 + queue,
                    )
                },
    {
        let step = vstd::layout::size_of::<Step<Y>>();
        let time = vstd::layout::size_of::<Time>();
        let (operands, left, right, queue) = choose|
            operands: usize,
            left: usize,
            right: usize,
            queue: usize,
        |
            {
                &&& #[trigger] self.operands.takes(operands)
                &&& #[trigger] room_for(left, self.left_cache.entries().len(), step)
                &&& #[trigger] room_for(right, self.right_cache.entries().len(), step)
                &&& #[trigger] room_for(queue, self.eval_buffer@.len(), time)
                &&& bytes == countable(
                    vstd::layout::size_of::<Self>() + operands + left + right + queue,
                )
            };
        self.operands.memory_is_that_of_both_operands(operands);
        let names = (self.operands.state().left_signals.len()
            + self.operands.state().right_signals.len()) * (vstd::layout::size_of::<
            &'static str,
        >() + 1);
        let (a, b) = choose|a: usize, b: usize|
            #[trigger] self.operands.left_takes(a) && #[trigger] self.operands.right_takes(b)
                && operands == countable(a + b + names);
        let kept = (left, right);
        assert(self.left_takes(a) && self.right_takes(b));
        assert(room_for(kept.0, self.state().left_cache.len(), step));
        assert(room_for(kept.1, self.state().right_cache.len(), step));
        assert(room_for(queue, self.state().tasks.len(), time));
    }

    /// The mode is the one that the type says.
    pub proof fn lemma_mode(&self)
        requires
            self.wf(),
        ensures
            self.state().eager == IS_EAGER,
            self.state().rosi == IS_ROSI,
            self.state().wf(),
    {
    }

    /// Creates an until over two operands.
    ///
    /// It looks ahead to the end of the interval and as far on as an operand does.
    ///
    /// If caches are `None`, empty caches are created.
    pub fn new(
        interval: TimeInterval,
        left: Box<dyn StlOperatorAndSignalIdentifier<T, Y>>,
        right: Box<dyn StlOperatorAndSignalIdentifier<T, Y>>,
        left_cache: Option<C>,
        right_cache: Option<C>,
    ) -> (res: Self)
        requires
            left.wf(),
            right.wf(),
            is_usable(left_cache),
            is_usable(right_cache),
            interval.start <= MAX_TIME,
            interval.end + max_time(left.profile().lookahead, right.profile().lookahead)
                <= MAX_TIME,
        ensures
            res.wf(),
            res.state() == UntilState::<T, Y>::initial(
                interval,
                left.behavior(),
                right.behavior(),
                left.profile(),
                right.profile(),
                cached(left_cache),
                cached(right_cache),
                IS_EAGER,
                IS_ROSI,
            ),
            res.profile() == until_profile(left.profile(), right.profile(), interval),
            forall|s: Step<T>| res.ready(s) == (left.ready(s) && right.ready(s)),
            forall|s: Step<T>| #[trigger] res.left_ready(s) == left.ready(s),
            forall|s: Step<T>| #[trigger] res.right_ready(s) == right.ready(s),
            forall|b: usize| #[trigger] res.left_takes(b) == left.takes(b),
            forall|b: usize| #[trigger] res.right_takes(b) == right.takes(b),
    {
        let children = (left, right);
        let operands: Operands<T, Y> = Operands::new(children);
        let lookaheads: (Time, Time) = operands.lookaheads();
        let left_cache: C = match left_cache {
            Some(cache) => cache,
            None => C::new(),
        };
        let right_cache: C = match right_cache {
            Some(cache) => cache,
            None => C::new(),
        };
        Until {
            interval,
            operands,
            left_cache,
            right_cache,
            t_max: (0, 0),
            settled: (0, 0),
            eval_buffer: Vec::new(),
            max_lookahead: interval.end + later(lookaheads.0, lookaheads.1),
            first_ts: None,
            finalized_ts: None,
        }
    }

    /// Hands a sample to the operands and caches what they emit. Returns the timestamps of
    /// that, and those among them that came late.
    fn take_in(&mut self, step: &Step<T>) -> (res: (Vec<Time>, Vec<Time>))
        requires
            old(self).wf(),
            old(self).ready(*step),
            step.timestamp <= MAX_TIME,
        ensures
            final(self).wf(),
            final(self).state() == old(self).state().taken_in(*step),
            final(self).profile() == old(self).profile(),
            forall|s: Step<T>| final(self).ready(s) == old(self).ready(s),
            ({
                let before = old(self).state();
                let left = before.operands.left_emits(Event::Sample(*step));
                let right = before.operands.right_emits(Event::Sample(*step));
                &&& res.0@ == timestamps(right) + timestamps(left)
                &&& res.1@ == late_among(before.right_cache, right) + late_among(
                    before.left_cache,
                    left,
                )
            }),
            forall|i: int| 0 <= i < res.0@.len() ==> #[trigger] res.0@[i] <= MAX_TIME,
    {
        let ghost before = self.state();
        let (left_updates, right_updates) = self.operands.update(step);
        let (left_known, right_known) = self.operands.known_through();
        self.t_max = (
            frontier(self.t_max.0, &left_updates, left_known),
            frontier(self.t_max.1, &right_updates, right_known),
        );
        let mut late: Vec<Time> = Vec::new();
        let (left_settled, right_settled) = self.settled;
        let right_through: Time = cache_updates(
            &mut self.right_cache,
            &right_updates,
            right_settled,
            &mut late,
        );
        let left_through: Time = cache_updates(
            &mut self.left_cache,
            &left_updates,
            left_settled,
            &mut late,
        );
        self.settled = (left_through, right_through);
        let mut points: Vec<Time> = Vec::new();
        push_timestamps(&mut points, &right_updates);
        push_timestamps(&mut points, &left_updates);
        if self.first_ts.is_none() {
            self.first_ts = earliest_of(&points);
        }
        proof {
            lemma_with_all(before.left_cache, left_updates@);
            lemma_with_all(before.right_cache, right_updates@);
            assert(points@ =~= timestamps(right_updates@) + timestamps(left_updates@));
            assert(late@ =~= late_among(before.right_cache, right_updates@) + late_among(
                before.left_cache,
                left_updates@,
            ));
            assert(self.state() =~= before.taken_in(*step));
        }
        (points, late)
    }

    /// Queues `ts - shift`, if that is a time that a breakpoint at `ts` queues.
    fn enqueue_shifted(&mut self, ts: Time, late: &Vec<Time>, shift: Time)
        requires
            old(self).wf(),
            ts <= MAX_TIME,
        ensures
            final(self).wf(),
            final(self).state() == (UntilState {
                tasks: old(self).state().with_shifted(
                    old(self).state().tasks,
                    ts,
                    late@,
                    shift,
                ),
                ..old(self).state()
            }),
            final(self).profile() == old(self).profile(),
            forall|s: Step<T>| final(self).ready(s) == old(self).ready(s),
    {
        proof {
            lemma_with_shifted(self.state(), self.state().tasks, ts, late@, shift);
        }
        if ts >= shift {
            let t: Time = ts - shift;
            let in_reach: bool = match self.first_ts {
                Some(first) => t >= first,
                None => false,
            };
            let reopens: bool = lists_time(late, ts) && t + self.interval.end > earlier(self.t_max.0, self.t_max.1);
            let is_new: bool = match self.finalized_ts {
                Some(answered) => t > answered,
                None => true,
            };
            if in_reach && (reopens || is_new) {
                enqueue_eval(&mut self.eval_buffer, t);
            }
        }
    }

    /// Queues the times that the breakpoints at `points` make worth evaluating.
    fn enqueue(&mut self, points: &Vec<Time>, late: &Vec<Time>)
        requires
            old(self).wf(),
            forall|i: int| 0 <= i < points@.len() ==> #[trigger] points@[i] <= MAX_TIME,
        ensures
            final(self).wf(),
            final(self).state() == (UntilState {
                tasks: old(self).state().queued(points@, late@),
                ..old(self).state()
            }),
            final(self).profile() == old(self).profile(),
            forall|s: Step<T>| final(self).ready(s) == old(self).ready(s),
    {
        let ghost before = self.state();
        let mut i: usize = 0;
        assert(points@.take(0) =~= Seq::empty());
        while i < points.len()
            invariant
                i <= points@.len(),
                before == old(self).state(),
                self.wf(),
                self.state() == (UntilState {
                    tasks: before.queued(points@.take(i as int), late@),
                    ..before
                }),
                self.profile() == old(self).profile(),
                forall|s: Step<T>| self.ready(s) == old(self).ready(s),
                forall|k: int| 0 <= k < points@.len() ==> #[trigger] points@[k] <= MAX_TIME,
            decreases points@.len() - i,
        {
            let ts: Time = points[i];
            let ghost t0 = self.state();
            self.enqueue_shifted(ts, late, 0);
            let ghost t1 = self.state();
            let start: Time = self.interval.start;
            self.enqueue_shifted(ts, late, start);
            let ghost t2 = self.state();
            let end: Time = self.interval.end;
            self.enqueue_shifted(ts, late, end);
            proof {
                assert(points@.take(i + 1).drop_last() =~= points@.take(i as int));
                assert(points@.take(i + 1).last() == ts);
                lemma_queues_same(before, t0, ts, late@);
                lemma_queues_same(before, t1, ts, late@);
                lemma_queues_same(before, t2, ts, late@);
            }
            i = i + 1;
        }
        assert(points@.take(i as int) =~= points@);
    }
}

/// Whether a time is queued does not depend on what is queued already.
proof fn lemma_queues_same<T, Y: RobustnessSemantics>(
    a: UntilState<T, Y>,
    b: UntilState<T, Y>,
    ts: Time,
    late: Seq<Time>,
)
    requires
        b == (UntilState { tasks: b.tasks, ..a }),
    ensures
        forall|tasks: Seq<Time>, shift: Time|
            #![trigger a.with_shifted(tasks, ts, late, shift)]
            #![trigger b.with_shifted(tasks, ts, late, shift)]
            a.with_shifted(tasks, ts, late, shift) == b.with_shifted(tasks, ts, late, shift),
{
}

/// The first task that has to wait is found by trying one after the other.
proof fn lemma_evaluable<T, Y: RobustnessSemantics>(
    state: UntilState<T, Y>,
    tasks: Seq<Time>,
    now: Time,
    n: nat,
)
    requires
        n <= tasks.len(),
        forall|i: int|
            0 <= i < n ==> !(state.window(#[trigger] tasks[i], now).outcome() is Wait),
        n == tasks.len() || state.window(tasks[n as int], now).outcome() is Wait,
    ensures
        state.evaluable(tasks, now) == n,
    decreases n,
{
    if n > 0 {
        let rest = tasks.skip(1);
        assert forall|i: int| 0 <= i < n - 1 implies !(state.window(
            #[trigger] rest[i],
            now,
        ).outcome() is Wait) by {
            assert(rest[i] == tasks[i + 1]);
        }
        assert(n < tasks.len() ==> rest[n - 1] == tasks[n as int]);
        lemma_evaluable(state, rest, now, (n - 1) as nat);
    }
}

/// What is still open of a rising queue is rising and was queued.
proof fn lemma_still_open<T, Y: RobustnessSemantics>(
    state: UntilState<T, Y>,
    tasks: Seq<Time>,
    now: Time,
)
    requires
        rising(tasks),
    ensures
        rising(state.still_open(tasks, now)),
        forall|i: int|
            0 <= i < state.still_open(tasks, now).len() ==> tasks.contains(
                #[trigger] state.still_open(tasks, now)[i],
            ),
    decreases tasks.len(),
{
    if tasks.len() > 0 {
        let p = tasks.drop_last();
        assert(rising(p));
        lemma_still_open(state, p, now);
        let head = state.still_open(p, now);
        let all = state.still_open(tasks, now);
        assert forall|i: int| 0 <= i < head.len() implies #[trigger] head[i] < tasks.last()
            && tasks.contains(head[i]) by {
            let j = choose|j: int| 0 <= j < p.len() && p[j] == head[i];
            assert(tasks[j] == head[i]);
        }
        assert(tasks.contains(tasks.last())) by {
            assert(tasks[tasks.len() - 1] == tasks.last());
        }
        assert forall|i: int| 0 <= i < all.len() implies tasks.contains(#[trigger] all[i]) by {
            if i < head.len() {
                assert(all[i] == head[i]);
            }
        }
    }
}

/// Answering keeps the state in order.
pub proof fn lemma_answered<T, Y: RobustnessSemantics>(state: UntilState<T, Y>, now: Time)
    requires
        state.wf(),
    ensures
        state.answered(now).wf(),
        state.evaluable(state.tasks, now) <= state.tasks.len(),
        all_upto(state.available(now), MAX_TIME),
{
    lemma_evaluable_len(state, state.tasks, now);
    if state.left_cache.len() > 0 && state.right_cache.len() > 0 {
        let n = state.evaluable(state.tasks, now) as int;
        let done = state.tasks.take(n);
        let open = state.still_open(done, now);
        let rest = state.tasks.skip(n);
        let after = state.answered(now);
        assert(rising(done));
        lemma_still_open(state, done, now);
        assert forall|i: int| 0 <= i < open.len() implies exists|k: int|
            0 <= k < n && state.tasks[k] == #[trigger] open[i] by {
            let k = choose|k: int| 0 <= k < done.len() && done[k] == open[i];
            assert(state.tasks[k] == open[i]);
        }
        assert forall|i: int, j: int| 0 <= i < j < after.tasks.len() implies after.tasks[i]
            < after.tasks[j] by {
            if i < open.len() && j >= open.len() {
                let k = choose|k: int| 0 <= k < n && state.tasks[k] == open[i];
                assert(after.tasks[j] == state.tasks[n + j - open.len()]);
                assert(state.tasks[k] < state.tasks[n + j - open.len()]);
            } else if i >= open.len() {
                assert(after.tasks[i] == state.tasks[n + i - open.len()]);
                assert(after.tasks[j] == state.tasks[n + j - open.len()]);
            } else {
                assert(after.tasks[i] == open[i]);
                assert(after.tasks[j] == open[j]);
            }
        }
        assert forall|i: int| 0 <= i < after.tasks.len() implies #[trigger] after.tasks[i]
            <= MAX_TIME by {
            if i < open.len() {
                let k = choose|k: int| 0 <= k < n && state.tasks[k] == open[i];
                assert(after.tasks[i] == open[i]);
                assert(state.tasks[k] <= MAX_TIME);
            } else {
                assert(after.tasks[i] == state.tasks[n + i - open.len()]);
            }
        }
        let floor = match after.finalized_ts {
            Some(t) => t,
            None => 0,
        };
        let protected_ts = if state.tasks.len() > 0 {
            min_time(state.tasks[0], floor)
        } else {
            floor
        };
        lemma_pruned(state.left_cache, state.lookahead, protected_ts);
        lemma_pruned(state.right_cache, state.lookahead, protected_ts);
    }
}

proof fn lemma_evaluable_len<T, Y: RobustnessSemantics>(
    state: UntilState<T, Y>,
    tasks: Seq<Time>,
    now: Time,
)
    ensures
        state.evaluable(tasks, now) <= tasks.len(),
    decreases tasks.len(),
{
    if tasks.len() > 0 {
        lemma_evaluable_len(state, tasks.skip(1), now);
    }
}

impl<
    T,
    C,
    Y,
    const IS_EAGER: bool,
    const IS_ROSI: bool,
> StlOperatorAndSignalIdentifier<T, Y> for Until<T, C, Y, IS_EAGER, IS_ROSI> where
    C: RingBufferTrait<Value = Y>,
    Y: RobustnessSemantics,
 {
    closed spec fn wf(&self) -> bool {
        &&& self.operands.wf()
        &&& self.state().wf()
        &&& self.max_lookahead == self.interval.end + max_time(
            self.operands.left_profile().lookahead,
            self.operands.right_profile().lookahead,
        )
    }

    open spec fn behavior(&self) -> Behavior<T, Y> {
        behavior_of(self.state())
    }

    /// The operands stand in brackets with `U[start, end]` between them, in seconds.
    closed spec fn profile(&self) -> Profile {
        until_profile(
            self.operands.left_profile(),
            self.operands.right_profile(),
            self.interval,
        )
    }

    closed spec fn ready(&self, step: Step<T>) -> bool {
        self.operands.ready(step)
    }

    closed spec fn takes(&self, bytes: usize) -> bool {
        let step = vstd::layout::size_of::<Step<Y>>();
        let time = vstd::layout::size_of::<Time>();
        exists|operands: usize, left: usize, right: usize, queue: usize|
            {
                &&& #[trigger] self.operands.takes(operands)
                &&& #[trigger] room_for(left, self.left_cache.entries().len(), step)
                &&& #[trigger] room_for(right, self.right_cache.entries().len(), step)
                &&& #[trigger] room_for(queue, self.eval_buffer@.len(), time)
                &&& bytes == countable(
                    vstd::layout::size_of::<Self>() + operands + left + right + queue,
                )
            }
    }

    /// Hands a sample to the operands and gives the verdicts that it makes available.
    ///
    /// - delayed: final verdicts only,
    /// - eager: may decide a window early, on `true` or `false`,
    /// - refinable: verdicts over open windows, widened by what is unknown.
    fn update(&mut self, step: &Step<T>) -> (out: Vec<Step<Y>>) {
        let ghost before = self.state();
        proof {
            lemma_behavior_of_next(before, Event::Sample(*step));
        }
        let now: Time = step.timestamp;
        // 1. Cache what the operands emit, and queue the times it makes worth evaluating.
        let (points, late) = self.take_in(step);
        self.enqueue(&points, &late);
        let ghost taken = self.state();
        proof {
            assert(taken == before.taken_in(*step).with_tasks(before, *step));
            lemma_answered(taken, now);
        }
        let mut output: Vec<Step<Y>> = Vec::new();
        if self.left_cache.is_empty() || self.right_cache.is_empty() {
            assert(output@ =~= taken.available(now));
            return output;
        }
        // How far each operand's values are final. Outside refinable semantics that is the
        // frontier.
        let (left_settled, right_settled) = if IS_ROSI {
            (earlier(self.settled.0, self.t_max.0), earlier(self.settled.1, self.t_max.1))
        } else {
            (self.t_max.0, self.t_max.1)
        };
        // 2. Evaluate the queue in order, up to the first time that has to wait.
        let mut open: Vec<Time> = Vec::new();
        let mut newest_answered: Option<Time> = None;
        let mut i: usize = 0;
        let mut waiting: bool = false;
        let ghost tasks = self.eval_buffer@;
        assert(tasks.take(0) =~= Seq::empty());
        while i < self.eval_buffer.len() && !waiting
            invariant
                self.state() == taken,
                self.wf(),
                taken.wf(),
                taken.rosi == IS_ROSI,
                taken.eager == IS_EAGER,
                tasks == taken.tasks,
                tasks == self.eval_buffer@,
                i <= tasks.len(),
                left_settled == taken.window(0, now).left_settled,
                right_settled == taken.window(0, now).right_settled,
                output@.len() == i,
                forall|k: int| 0 <= k < i ==> #[trigger] output@[k] == taken.verdict(tasks[k], now),
                forall|k: int|
                    0 <= k < i ==> !(taken.window(#[trigger] tasks[k], now).outcome() is Wait),
                waiting ==> i < tasks.len() && taken.window(tasks[i as int], now).outcome() is Wait,
                open@ == taken.still_open(tasks.take(i as int), now),
                newest_answered == taken.newest_final(tasks.take(i as int), now),
            decreases tasks.len() - i + (if waiting { 0int } else { 1int }),
        {
            let t_eval: Time = self.eval_buffer[i];
            let window = Window {
                left: &self.left_cache,
                right: &self.right_cache,
                left_known: self.t_max.0,
                right_known: self.t_max.1,
                left_settled,
                right_settled,
                t: t_eval,
                interval: self.interval,
                now,
            };
            proof {
                assert(window.view_as(IS_EAGER, IS_ROSI) == taken.window(t_eval, now));
                assert(tasks.take(i + 1).drop_last() =~= tasks.take(i as int));
                assert(tasks.take(i + 1).last() == t_eval);
            }
            match window.evaluate::<IS_EAGER, IS_ROSI>() {
                Outcome::Wait => {
                    waiting = true;
                },
                Outcome::Final(value) => {
                    output.push(Step::new("output", value, t_eval));
                    newest_answered = Some(t_eval);
                    i = i + 1;
                },
                Outcome::Open(value) => {
                    output.push(Step::new("output", value, t_eval));
                    open.push(t_eval);
                    i = i + 1;
                },
            }
        }
        proof {
            lemma_evaluable(taken, tasks, now, i as nat);
            assert(output@ =~= taken.available(now));
        }
        if newest_answered.is_some() {
            self.finalized_ts = newest_answered;
        }
        // 3. Prune the caches and take what is done off the queue.
        //
        // Any time after `finalized_ts` can still become a task, so pruning keeps the values in
        // force from the older of that and the front of the queue.
        let floor: Time = match self.finalized_ts {
            Some(t) => t,
            None => 0,
        };
        let protected_ts: Time = if self.eval_buffer.len() > 0 {
            earlier(self.eval_buffer[0], floor)
        } else {
            floor
        };
        let lookahead: Time = self.max_lookahead;
        guarded_prune(&mut self.left_cache, lookahead, protected_ts);
        guarded_prune(&mut self.right_cache, lookahead, protected_ts);
        let ghost done = open@;
        while i < self.eval_buffer.len()
            invariant
                self.eval_buffer@ == tasks,
                i <= tasks.len(),
                taken.evaluable(tasks, now) <= i,
                open@ == done + tasks.subrange(taken.evaluable(tasks, now) as int, i as int),
            decreases tasks.len() - i,
        {
            open.push(self.eval_buffer[i]);
            i = i + 1;
        }
        self.eval_buffer = open;
        proof {
            let n = taken.evaluable(tasks, now) as int;
            assert(tasks.subrange(n, i as int) =~= tasks.skip(n));
            assert(self.state() =~= taken.answered(now));
        }
        output
    }

    fn get_max_lookahead(&self) -> (res: Time) {
        self.max_lookahead
    }

    fn known_through(&self) -> (res: Option<Time>) {
        proof {
            lemma_behavior_of_next(self.state(), Event::<T>::Reset);
        }
        if !IS_EAGER || IS_ROSI {
            return None;
        }
        let answered: Time = match self.finalized_ts {
            Some(t) => t,
            None => 0,
        };
        let (left, right) = self.operands.known_through();
        if left.is_none() && right.is_none() {
            return Some(answered);
        }
        let left_bound: Time = match left {
            Some(bound) => earlier(MAX_TIME, bound),
            None => MAX_TIME,
        };
        let bound: Time = match right {
            Some(bound) => earlier(left_bound, bound),
            None => left_bound,
        };
        Some(earlier(answered, saturating_minus(bound, self.interval.end)))
    }

    fn reset(&mut self) {
        proof {
            lemma_behavior_of_next(self.state(), Event::<T>::Reset);
        }
        self.left_cache.clear();
        self.right_cache.clear();
        self.eval_buffer = Vec::new();
        self.t_max = (0, 0);
        self.settled = (0, 0);
        self.first_ts = None;
        self.finalized_ts = None;
        self.operands.reset();
        assert(self.state() =~= old(self).state().next(Event::Reset));
    }

    fn get_signal_identifiers(&mut self) -> (res: Vec<&'static str>) {
        proof {
            lemma_behavior_of_next(self.state(), Event::<T>::Route);
        }
        let ids: Vec<&'static str> = self.operands.route();
        assert(self.state() =~= old(self).state().next(Event::Route));
        ids
    }

    fn bind(&mut self, vars: &Variables<T>) {
        proof {
            lemma_behavior_of_next(self.state(), Event::Bind(vars@));
        }
        self.operands.bind(vars);
        assert(self.state() =~= old(self).state().next(Event::Bind(vars@)));
    }

    fn missing_variable(&self, step: &Step<T>) -> (res: Option<&'static str>) {
        self.operands.missing_variable(step)
    }

    fn total_size(&self) -> (res: usize) {
        let caches: usize = sum_of(self.left_cache.heap_size(), self.right_cache.heap_size());
        let queue: usize = vec_heap_size(&self.eval_buffer);
        sum_of(
            sum_of(core::mem::size_of::<Self>(), self.operands.total_size()),
            sum_of(caches, queue),
        )
    }

    fn push_text(&self, text: &mut String) {
        let mut infix: String = String::new();
        infix.append(" U[");
        push_seconds(&mut infix, self.interval.start);
        infix.append(", ");
        push_seconds(&mut infix, self.interval.end);
        infix.append("] ");
        assert(infix@ =~= until_infix(self.interval));
        self.operands.push_text(text, infix.as_str());
    }
}

} // verus!
