//! Until over two predicates whose signals are held between their samples: what it remembers
//! of a whole trace.

use crate::atomic_operators::AtomicState;
use crate::atomic_trace::{first_sample, is_held, is_sampled_at, last_sample, rises_per_signal};
use crate::atomic_trace::{lemma_emits, lemma_rises_before, lemma_routed, lemma_samples};
use crate::atomic_trace::{lemma_unchanged, lemma_verdicts, lemma_verdicts_grow, routed};
use crate::atomic_trace::{samples, signal_of, verdicts_of};
use crate::binary_operators::{joint, reached, rising};
use crate::binary_stream_laws::{held_on, newest};
use crate::operands::OperandsState;
use crate::operator::{behavior_of, Event, Machine};
use crate::ring_buffer::{all_upto, count_upto, in_force, in_order, lemma_count_upto, Step};
use crate::semantics::{AtomicSemantics, RobustnessSemantics, SignalValue};
use crate::time::{Time, TimeInterval, FOREVER, MAX_TIME};
use crate::until_laws::{holds_throughout, lemma_best_some};
use crate::until_operator::{timestamps, UntilState};
use crate::until_stream_laws::{asks_for, history, is_asked_for, is_steady, lemma_prepared};
use crate::until_stream_laws::{kept, lemma_kept_wf, prepared};
use crate::until_stream_laws::{lemma_evaluable_prefix, queue_is_what_breakpoints_ask_for};
use vstd::prelude::*;

verus! {

/// Until over two predicates that are handed the samples they read, before the first sample.
pub open spec fn until_over<V: SignalValue, Y: AtomicSemantics<V>>(
    a: AtomicState<V>,
    b: AtomicState<V>,
    interval: TimeInterval,
    eager: bool,
    rosi: bool,
) -> UntilState<V, Y> {
    UntilState {
        operands: routed::<V, Y>(a, b),
        left_cache: Seq::empty(),
        right_cache: Seq::empty(),
        t_max: (0, 0),
        settled: (0, 0),
        tasks: Seq::empty(),
        first_ts: None,
        finalized_ts: None,
        interval,
        lookahead: interval.end,
        eager,
        rosi,
    }
}

/// `event` takes an until from one state to the other.
pub open spec fn is_next<V, Y: RobustnessSemantics>(
    before: UntilState<V, Y>,
    event: Event<V>,
    after: UntilState<V, Y>,
) -> bool {
    Machine::<V, Y>::next(before, event) == after
}

/// That is what a new until over two predicates is once the signals they read are collected.
pub proof fn collecting_signals_routes_samples<V: SignalValue, Y: AtomicSemantics<V>>(
    a: AtomicState<V>,
    b: AtomicState<V>,
    interval: TimeInterval,
    eager: bool,
    rosi: bool,
)
    ensures
        is_next(
            UntilState::initial(
                interval,
                behavior_of::<V, Y, AtomicState<V>>(a),
                behavior_of::<V, Y, AtomicState<V>>(b),
                a.profile(),
                b.profile(),
                Seq::empty(),
                Seq::empty(),
                eager,
                rosi,
            ),
            Event::Route,
            until_over::<V, Y>(a, b, interval, eager, rosi),
        ),
{
    lemma_routed::<V, Y>(a, b);
}

/// One of two signals is sampled at `ts`.
pub open spec fn is_breakpoint<V>(
    steps: Seq<Step<V>>,
    x: Seq<char>,
    y: Seq<char>,
    ts: Time,
) -> bool {
    is_sampled_at(steps, x, ts) || is_sampled_at(steps, y, ts)
}

/// A breakpoint at `ts` is one at `t`, or where the window of `t` begins or ends.
pub open spec fn touches(interval: TimeInterval, ts: Time, t: Time) -> bool {
    ts == t || ts == t + interval.start || ts == t + interval.end
}

/// A sample of either signal falls on `t`, or on an end of the window of `t`.
pub open spec fn is_asked<V>(
    steps: Seq<Step<V>>,
    x: Seq<char>,
    y: Seq<char>,
    interval: TimeInterval,
    t: Time,
) -> bool {
    exists|ts: Time| #[trigger] is_breakpoint(steps, x, y, ts) && touches(interval, ts, t)
}

/// Both signals have been sampled at `t` or later.
pub open spec fn is_covered<V>(
    steps: Seq<Step<V>>,
    x: Seq<char>,
    y: Seq<char>,
    t: Time,
) -> bool {
    reached(joint(last_sample(steps, x), last_sample(steps, y)), t)
}

/// The end of the window of `t`.
pub open spec fn window_end(interval: TimeInterval, t: Time) -> Time {
    (t + interval.end) as Time
}

/// The first samples of both signals, as far as there are any, are at `t0`.
pub open spec fn starts_at<V>(
    steps: Seq<Step<V>>,
    x: Seq<char>,
    y: Seq<char>,
    t0: Time,
) -> bool {
    &&& first_sample(steps, x) matches Some(t) ==> t == t0
    &&& first_sample(steps, y) matches Some(t) ==> t == t0
}

/// How far an operand has reported.
pub open spec fn reported_to<Y>(s: Seq<Step<Y>>) -> Time {
    match newest(s) {
        Some(t) => t,
        None => 0,
    }
}

/// Every verdict of a predicate is final.
pub open spec fn speaks_finally<V: SignalValue, Y: AtomicSemantics<V>>(
    atom: AtomicState<V>,
) -> bool {
    forall|value: V|
        Y::final_spec(#[trigger] atom.comparison.verdict::<Y>(atom.context, value))
}

/// The answered times end before `t`.
pub open spec fn is_past(finalized_ts: Option<Time>, t: Time) -> bool {
    finalized_ts matches Some(answered) ==> answered < t
}

/// The operands are two predicates that are handed the samples they read.
#[verifier::opaque]
pub open spec fn is_routed<V: SignalValue, Y: AtomicSemantics<V>>(
    operands: OperandsState<V, Y>,
    a: AtomicState<V>,
    b: AtomicState<V>,
) -> bool {
    operands == routed::<V, Y>(a, b)
}

/// What a verdict on `step` is, if it is of the signal that is compared.
pub open spec fn said_of<V: SignalValue, Y: AtomicSemantics<V>>(
    atom: AtomicState<V>,
    step: Step<V>,
) -> Seq<Step<Y>> {
    if step.signal@ == signal_of(atom) {
        seq![atom.answer::<Y>(step.value, step.timestamp)]
    } else {
        Seq::empty()
    }
}

proof fn lemma_routed_next<V: SignalValue, Y: AtomicSemantics<V>>(
    operands: OperandsState<V, Y>,
    a: AtomicState<V>,
    b: AtomicState<V>,
    step: Step<V>,
)
    requires
        is_held(a),
        is_held(b),
        is_routed(operands, a, b),
    ensures
        is_routed(operands.next(Event::Sample(step)), a, b),
        operands.left_emits(Event::Sample(step)) == said_of::<V, Y>(a, step),
        operands.right_emits(Event::Sample(step)) == said_of::<V, Y>(b, step),
        operands.next(Event::Sample(step)).left.known_now() is None,
        operands.next(Event::Sample(step)).right.known_now() is None,
{
    reveal(is_routed);
    lemma_emits::<V, Y>(a, b, step);
    lemma_unchanged::<V, Y>(a, b, step);
}

/// What is known of the operands of `h` after a trace.
pub open spec fn knows<V: SignalValue, Y: AtomicSemantics<V>>(
    h: UntilState<V, Y>,
    a: AtomicState<V>,
    b: AtomicState<V>,
    steps: Seq<Step<V>>,
    t0: Time,
) -> bool {
    let left = verdicts_of::<V, Y>(a, steps);
    let right = verdicts_of::<V, Y>(b, steps);
    &&& is_routed(h.operands, a, b)
    &&& h.left_cache == left
    &&& h.right_cache == right
    &&& h.t_max == (reported_to(left), reported_to(right))
    &&& h.settled == h.t_max
    &&& h.first_ts == (if left.len() == 0 && right.len() == 0 {
        None
    } else {
        Some(t0)
    })
    &&& h.interval.start <= h.interval.end <= MAX_TIME
    &&& h.wf()
}

/// What a trace leaves to be evaluated: every time that is asked for waits, unless it was
/// answered or is past; and no window that waits is covered.
pub open spec fn awaits<V: SignalValue, Y: AtomicSemantics<V>>(
    h: UntilState<V, Y>,
    a: AtomicState<V>,
    b: AtomicState<V>,
    steps: Seq<Step<V>>,
    t0: Time,
) -> bool {
    let x = signal_of(a);
    let y = signal_of(b);
    &&& forall|t: Time| #[trigger]
        h.tasks.contains(t) ==> {
            &&& t0 <= t
            &&& is_past(h.finalized_ts, t)
            &&& is_asked(steps, x, y, h.interval, t)
            &&& !is_covered(steps, x, y, window_end(h.interval, t))
        }
    &&& forall|t: Time|
        t0 <= t && is_past(h.finalized_ts, t) && #[trigger] is_asked(
            steps,
            x,
            y,
            h.interval,
            t,
        ) ==> h.tasks.contains(t)
    &&& h.finalized_ts is Some ==> h.left_cache.len() > 0 && h.right_cache.len() > 0
    &&& has_covered_answers(h, a, b, steps)
}

/// Unless answers come early, the window of the newest answer is covered.
pub open spec fn has_covered_answers<V: SignalValue, Y: AtomicSemantics<V>>(
    h: UntilState<V, Y>,
    a: AtomicState<V>,
    b: AtomicState<V>,
    steps: Seq<Step<V>>,
) -> bool {
    !h.eager ==> (h.finalized_ts matches Some(answered) ==> answered <= MAX_TIME && is_covered(
        steps,
        signal_of(a),
        signal_of(b),
        window_end(h.interval, answered),
    ))
}

/// What is known once the last step of a trace was taken in.
proof fn lemma_knows<V: SignalValue, Y: AtomicSemantics<V>>(
    h: UntilState<V, Y>,
    a: AtomicState<V>,
    b: AtomicState<V>,
    steps: Seq<Step<V>>,
    t0: Time,
)
    requires
        is_held(a),
        is_held(b),
        speaks_finally::<V, Y>(a),
        speaks_finally::<V, Y>(b),
        rises_per_signal(steps),
        steps.len() > 0,
        starts_at(steps, signal_of(a), signal_of(b), t0),
        knows(h, a, b, steps.drop_last(), t0),
    ensures
        is_steady(h, steps.last()),
        knows(prepared(h, steps.last()), a, b, steps, t0),
{
    let last = steps.last();
    let before = steps.drop_last();
    let ready = prepared(h, last);
    lemma_routed_next(h.operands, a, b, last);
    lemma_verdicts_grow::<V, Y>(a, steps);
    lemma_verdicts_grow::<V, Y>(b, steps);
    lemma_verdicts::<V, Y>(a, steps);
    lemma_verdicts::<V, Y>(b, steps);
    assert(last == steps[steps.len() - 1]);
    lemma_prepared(h, last);
    let left = h.operands.left_emits(Event::Sample(last));
    let right = h.operands.right_emits(Event::Sample(last));
    lemma_reported(h.left_cache, left);
    lemma_reported(h.right_cache, right);
    lemma_first(h, a, b, steps, t0);
}

/// How far an operand has reported after it has emitted at most one verdict more.
proof fn lemma_reported<Y: RobustnessSemantics>(cache: Seq<Step<Y>>, more: Seq<Step<Y>>)
    requires
        in_order(cache + more),
        more.len() <= 1,
        more.len() == 1 ==> Y::final_spec(more[0].value),
    ensures
        crate::until_operator::reported(reported_to(cache), more) == reported_to(cache + more),
        crate::until_operator::final_through(reported_to(cache), more) == reported_to(cache + more),
{
    let all = cache + more;
    reveal_with_fuel(crate::until_operator::final_through, 2);
    if more.len() == 0 {
        assert(all =~= cache);
    } else {
        assert(all.last() == more[0]);
        assert(more.drop_last() =~= Seq::empty());
        assert(more.last() == more[0]);
        if cache.len() > 0 {
            assert(all[cache.len() - 1] == cache.last());
            assert(all[cache.len() as int] == more[0]);
        }
    }
}

/// The first operand verdict is at `t0`.
proof fn lemma_first<V: SignalValue, Y: AtomicSemantics<V>>(
    h: UntilState<V, Y>,
    a: AtomicState<V>,
    b: AtomicState<V>,
    steps: Seq<Step<V>>,
    t0: Time,
)
    requires
        is_held(a),
        is_held(b),
        steps.len() > 0,
        starts_at(steps, signal_of(a), signal_of(b), t0),
        is_routed(h.operands, a, b),
        h.left_cache == verdicts_of::<V, Y>(a, steps.drop_last()),
        h.right_cache == verdicts_of::<V, Y>(b, steps.drop_last()),
        h.first_ts == (if h.left_cache.len() == 0 && h.right_cache.len() == 0 {
            None
        } else {
            Some(t0)
        }),
    ensures
        h.taken_in(steps.last()).first_ts == (if verdicts_of::<V, Y>(a, steps).len() == 0
            && verdicts_of::<V, Y>(b, steps).len() == 0 {
            None
        } else {
            Some(t0)
        }),
{
    let last = steps.last();
    lemma_routed_next(h.operands, a, b, last);
    lemma_verdicts_grow::<V, Y>(a, steps);
    lemma_verdicts_grow::<V, Y>(b, steps);
    let left = h.operands.left_emits(Event::Sample(last));
    let right = h.operands.right_emits(Event::Sample(last));
    let points = timestamps(right) + timestamps(left);
    reveal_with_fuel(crate::until_operator::earliest, 3);
    if h.first_ts is None {
        assert(samples(steps.drop_last(), signal_of(a)).len() == 0);
        assert(samples(steps.drop_last(), signal_of(b)).len() == 0);
        if last.signal@ == signal_of(a) || last.signal@ == signal_of(b) {
            assert(last.timestamp == t0) by {
                if last.signal@ == signal_of(a) {
                    assert(samples(steps, signal_of(a))[0] == last);
                } else {
                    assert(samples(steps, signal_of(b))[0] == last);
                }
            }
            if points.len() == 1 {
                assert(points.drop_last() =~= Seq::empty());
                assert(points.last() == points[0]);
                assert(points[0] == t0);
            } else {
                assert(points.len() == 2);
                assert(points[0] == t0 && points[1] == t0);
                assert(points.drop_last().drop_last() =~= Seq::empty());
                assert(points.drop_last().last() == t0);
                assert(points.last() == t0);
            }
        } else {
            assert(points =~= Seq::empty());
        }
    }
}

/// What the last step of a trace adds to what is asked for.
pub proof fn lemma_asked_grows<V>(
    steps: Seq<Step<V>>,
    x: Seq<char>,
    y: Seq<char>,
    interval: TimeInterval,
    t: Time,
)
    requires
        steps.len() > 0,
    ensures
        is_asked(steps, x, y, interval, t) <==> is_asked(steps.drop_last(), x, y, interval, t) || ((
        steps.last().signal@ == x || steps.last().signal@ == y) && touches(
            interval,
            steps.last().timestamp,
            t,
        )),
{
    let before = steps.drop_last();
    let last = steps.last();
    assert forall|ts: Time| #[trigger]
        is_breakpoint(steps, x, y, ts) == (is_breakpoint(before, x, y, ts) || ((last.signal@ == x
            || last.signal@ == y) && last.timestamp == ts)) by {
        lemma_sampled_grows(steps, x, ts);
        lemma_sampled_grows(steps, y, ts);
    }
    if is_asked(before, x, y, interval, t) {
        let ts = choose|ts: Time| #[trigger]
            is_breakpoint(before, x, y, ts) && touches(interval, ts, t);
        assert(is_breakpoint(steps, x, y, ts));
    }
    if (last.signal@ == x || last.signal@ == y) && touches(interval, last.timestamp, t) {
        assert(is_breakpoint(steps, x, y, last.timestamp));
    }
    if is_asked(steps, x, y, interval, t) {
        let ts = choose|ts: Time| #[trigger]
            is_breakpoint(steps, x, y, ts) && touches(interval, ts, t);
        assert(is_breakpoint(before, x, y, ts) || ts == last.timestamp);
    }
}

pub proof fn lemma_sampled_grows<V>(steps: Seq<Step<V>>, signal: Seq<char>, ts: Time)
    requires
        steps.len() > 0,
    ensures
        is_sampled_at(steps, signal, ts) == (is_sampled_at(steps.drop_last(), signal, ts) || (
        steps.last().signal@ == signal && steps.last().timestamp == ts)),
{
    let before = steps.drop_last();
    if is_sampled_at(before, signal, ts) {
        let i = choose|i: int|
            0 <= i < before.len() && (#[trigger] before[i]).signal@ == signal
                && before[i].timestamp == ts;
        assert(steps[i] == before[i]);
    }
    if is_sampled_at(steps, signal, ts) {
        let i = choose|i: int|
            0 <= i < steps.len() && (#[trigger] steps[i]).signal@ == signal && steps[i].timestamp
                == ts;
        if i < before.len() {
            assert(before[i] == steps[i]);
        }
    }
    if steps.last().signal@ == signal && steps.last().timestamp == ts {
        assert(steps[steps.len() - 1] == steps.last());
    }
}

/// More samples cover more.
pub proof fn lemma_covered_grows<V>(steps: Seq<Step<V>>, x: Seq<char>, y: Seq<char>, t: Time)
    requires
        rises_per_signal(steps),
        steps.len() > 0,
    ensures
        is_covered(steps.drop_last(), x, y, t) ==> is_covered(steps, x, y, t),
        is_covered(steps, x, y, t) && !is_covered(steps.drop_last(), x, y, t) ==> (
        steps.last().signal@ == x || steps.last().signal@ == y) && t <= steps.last().timestamp,
{
    lemma_last_grows(steps, x);
    lemma_last_grows(steps, y);
}

pub proof fn lemma_last_grows<V>(steps: Seq<Step<V>>, signal: Seq<char>)
    requires
        rises_per_signal(steps),
        steps.len() > 0,
    ensures
        steps.last().signal@ == signal ==> last_sample(steps, signal) == Some(
            steps.last().timestamp,
        ),
        steps.last().signal@ != signal ==> last_sample(steps, signal) == last_sample(
            steps.drop_last(),
            signal,
        ),
        last_sample(steps.drop_last(), signal) matches Some(t) ==> reached(
            last_sample(steps, signal),
            t,
        ),
{
    let s = samples(steps, signal);
    let p = samples(steps.drop_last(), signal);
    lemma_samples(steps, signal);
    if p.len() > 0 && steps.last().signal@ == signal {
        assert(s[p.len() - 1] == p.last());
        assert(s[p.len() as int] == steps.last());
    }
}

/// What waits once the last step of a trace was taken in.
proof fn lemma_ready_tasks<V: SignalValue, Y: AtomicSemantics<V>>(
    h: UntilState<V, Y>,
    a: AtomicState<V>,
    b: AtomicState<V>,
    steps: Seq<Step<V>>,
    t0: Time,
)
    requires
        is_held(a),
        is_held(b),
        rises_per_signal(steps),
        steps.len() > 0,
        knows(h, a, b, steps.drop_last(), t0),
        knows(prepared(h, steps.last()), a, b, steps, t0),
        is_steady(h, steps.last()),
        awaits(h, a, b, steps.drop_last(), t0),
    ensures
        forall|t: Time| #[trigger]
            prepared(h, steps.last()).tasks.contains(t) <==> t0 <= t && is_past(h.finalized_ts, t)
                && is_asked(steps, signal_of(a), signal_of(b), h.interval, t),
        prepared(h, steps.last()).finalized_ts == h.finalized_ts,
{
    let x = signal_of(a);
    let y = signal_of(b);
    let before = steps.drop_last();
    let last = steps.last();
    let ready = prepared(h, last);
    let taken = h.taken_in(last);
    lemma_prepared(h, last);
    lemma_routed_next(h.operands, a, b, last);
    let left = h.operands.left_emits(Event::Sample(last));
    let right = h.operands.right_emits(Event::Sample(last));
    let points = timestamps(right) + timestamps(left);
    queue_is_what_breakpoints_ask_for(taken, points, Seq::empty());
    let hit = last.signal@ == x || last.signal@ == y;
    assert forall|k: int| 0 <= k < points.len() implies (#[trigger] points[k]) == last.timestamp
        && hit by {
        if k < right.len() {
            assert(points[k] == right[k].timestamp);
        } else {
            assert(points[k] == left[k - right.len()].timestamp);
        }
    }
    assert(hit ==> points.len() > 0 && points[0] == last.timestamp);
    assert forall|t: Time| #[trigger] ready.tasks.contains(t) <==> t0 <= t && is_past(
        h.finalized_ts,
        t,
    ) && is_asked(steps, x, y, h.interval, t) by {
        lemma_asked_grows(steps, x, y, h.interval, t);
        assert(h.tasks.contains(t) == (t0 <= t && is_past(h.finalized_ts, t) && is_asked(
            before,
            x,
            y,
            h.interval,
            t,
        )));
        if is_asked_for(taken, points, Seq::empty(), t) {
            let k = choose|k: int|
                0 <= k < points.len() && asks_for(taken, #[trigger] points[k], t) && taken.queues(
                    points[k],
                    Seq::empty(),
                    t,
                );
            assert(points[k] == last.timestamp);
        }
        if hit && touches(h.interval, last.timestamp, t) && t0 <= t && is_past(h.finalized_ts, t) {
            assert(asks_for(taken, points[0], t));
            assert(taken.queues(points[0], Seq::empty(), t));
        }
    }
}

/// Evaluation stops only at a time that has to wait.
pub proof fn lemma_evaluable_stops<T, Y: RobustnessSemantics>(
    state: UntilState<T, Y>,
    tasks: Seq<Time>,
    now: Time,
)
    ensures
        state.evaluable(tasks, now) < tasks.len() ==> state.window(
            tasks[state.evaluable(tasks, now) as int],
            now,
        ).outcome() is Wait,
    decreases tasks.len(),
{
    if tasks.len() > 0 && !(state.window(tasks[0], now).outcome() is Wait) {
        lemma_evaluable_stops(state, tasks.skip(1), now);
    }
}

/// A covered window is covered by both operands, and has a verdict.
pub proof fn lemma_covered_window<V: SignalValue, Y: AtomicSemantics<V>>(
    ready: UntilState<V, Y>,
    a: AtomicState<V>,
    b: AtomicState<V>,
    steps: Seq<Step<V>>,
    t0: Time,
    t: Time,
    now: Time,
)
    requires
        rises_per_signal(steps),
        starts_at(steps, signal_of(a), signal_of(b), t0),
        knows(ready, a, b, steps, t0),
        ready.left_cache.len() > 0,
        ready.right_cache.len() > 0,
        t0 <= t <= MAX_TIME,
    ensures
        ({
            let w = ready.window(t, now);
            &&& w.wf()
            &&& w.left_settled == w.left_known
            &&& w.right_settled == w.right_known
            &&& w.end() == window_end(ready.interval, t)
            &&& w.covered() == is_covered(
                steps,
                signal_of(a),
                signal_of(b),
                window_end(ready.interval, t),
            )
            &&& holds_throughout(w.left, t, w.end())
            &&& holds_throughout(w.right, w.start(), w.end())
            &&& w.covered() && w.end() <= now ==> w.outcome() is Final
            &&& all_upto(w.left, w.left_known)
            &&& all_upto(w.right, w.right_known)
        }),
{
    let w = ready.window(t, now);
    lemma_verdicts::<V, Y>(a, steps);
    lemma_verdicts::<V, Y>(b, steps);
    lemma_held_from(w.left, t0);
    lemma_held_from(w.right, t0);
    assert(w.left[0].timestamp == t0) by {
        assert(samples(steps, signal_of(a))[0].timestamp == t0);
    }
    assert(w.right[0].timestamp == t0) by {
        assert(samples(steps, signal_of(b))[0].timestamp == t0);
    }
    if w.covered() && w.end() <= now {
        assert(in_force(w.left, t) is Some);
        assert(w.candidates().len() > 0);
        lemma_best_some(w, w.candidates());
    }
    lemma_all_reported(w.left);
    lemma_all_reported(w.right);
}

pub proof fn lemma_all_reported<Y>(s: Seq<Step<Y>>)
    requires
        in_order(s),
    ensures
        all_upto(s, reported_to(s)),
{
    assert forall|i: int| 0 <= i < s.len() implies (#[trigger] s[i]).timestamp <= reported_to(
        s,
    ) by {
        assert(i < s.len() - 1 ==> s[i].timestamp < s[s.len() - 1].timestamp);
    }
}

/// An operand that reports steadily holds a value from its first verdict on.
pub proof fn lemma_held_from<Y>(s: Seq<Step<Y>>, t0: Time)
    requires
        in_order(s),
        held_on(s),
    ensures
        forall|t: Time|
            s.len() > 0 && s[0].timestamp <= t < FOREVER ==> #[trigger] in_force(s, t) is Some,
{
    assert forall|t: Time| s.len() > 0 && s[0].timestamp <= t < FOREVER implies #[trigger] in_force(
        s,
        t,
    ) is Some by {
        lemma_count_upto(s, t);
        let n = count_upto(s, t);
        if n == 0 {
            assert(s[0].timestamp > t);
        }
        assert(s[n - 1].held_until == FOREVER);
    }
}

/// The times that wait after an evaluation are those that were not answered for good.
pub proof fn lemma_remaining<T, Y: RobustnessSemantics>(
    ready: UntilState<T, Y>,
    now: Time,
    t: Time,
)
    requires
        ready.left_cache.len() > 0,
        ready.right_cache.len() > 0,
        rising(ready.tasks),
    ensures
        ready.answered(now).tasks.contains(t) ==> ready.tasks.contains(t),
        ready.tasks.contains(t) && !ready.answered(now).tasks.contains(t) ==> is_answered_at(
            ready,
            now,
            t,
        ),
        is_answered_at(ready, now, t) ==> !ready.answered(now).tasks.contains(t)
            && ready.answered(now).finalized_ts is Some && t
            <= ready.answered(now).finalized_ts->0,
        ready.answered(now).finalized_ts matches Some(f) ==> ready.finalized_ts == Some(f)
            || is_answered_at(ready, now, f),
{
    let n = ready.evaluable(ready.tasks, now) as int;
    let done = ready.tasks.take(n);
    lemma_evaluable_prefix(ready, ready.tasks, now);
    lemma_open_tasks(ready, done, now, t);
    lemma_newest_final(ready, done, now, t);
    let open = ready.still_open(done, now);
    let rest = ready.tasks.skip(n);
    let after = ready.answered(now).tasks;
    assert(after == open + rest);
    if after.contains(t) {
        let k = choose|k: int| 0 <= k < after.len() && after[k] == t;
        if k < open.len() {
            assert(open[k] == t);
            let i = choose|i: int| 0 <= i < done.len() && done[i] == t;
            assert(ready.tasks[i] == t);
        } else {
            assert(rest[k - open.len()] == t);
            assert(ready.tasks[n + k - open.len()] == t);
        }
    }
    if ready.tasks.contains(t) {
        let i = choose|i: int| 0 <= i < ready.tasks.len() && ready.tasks[i] == t;
        if i < n {
            assert(done[i] == t);
            if !(ready.window(t, now).outcome() is Final) {
                let k = choose|k: int| 0 <= k < open.len() && open[k] == t;
                assert(after[k] == t);
            }
        } else {
            assert(rest[i - n] == t);
            assert(after[open.len() + i - n] == t);
        }
    }
    if is_answered_at(ready, now, t) {
        let i = choose|i: int| 0 <= i < n && ready.tasks[i] == t;
        assert(done[i] == t);
        if after.contains(t) {
            let k = choose|k: int| 0 <= k < after.len() && after[k] == t;
            if k < open.len() {
                assert(open[k] == t);
            } else {
                assert(after[k] == ready.tasks[n + k - open.len()]);
                assert(ready.tasks[i] < ready.tasks[n + k - open.len()]);
            }
        }
    }
}

/// `t` is evaluated, and for good.
pub open spec fn is_answered_at<T, Y: RobustnessSemantics>(
    ready: UntilState<T, Y>,
    now: Time,
    t: Time,
) -> bool {
    &&& ready.window(t, now).outcome() is Final
    &&& exists|i: int|
        0 <= i < ready.evaluable(ready.tasks, now) && #[trigger] ready.tasks[i] == t
}

proof fn lemma_open_tasks<T, Y: RobustnessSemantics>(
    ready: UntilState<T, Y>,
    tasks: Seq<Time>,
    now: Time,
    t: Time,
)
    ensures
        ready.still_open(tasks, now).contains(t) <==> tasks.contains(t) && !(ready.window(
            t,
            now,
        ).outcome() is Final),
    decreases tasks.len(),
{
    if tasks.len() > 0 {
        let p = tasks.drop_last();
        let head = ready.still_open(p, now);
        let all = ready.still_open(tasks, now);
        lemma_open_tasks(ready, p, now, t);
        if all.contains(t) {
            let k = choose|k: int| 0 <= k < all.len() && all[k] == t;
            if k < head.len() {
                assert(head[k] == t);
                let i = choose|i: int| 0 <= i < p.len() && p[i] == t;
                assert(tasks[i] == t);
            } else {
                assert(tasks[tasks.len() - 1] == t);
            }
        }
        if tasks.contains(t) && !(ready.window(t, now).outcome() is Final) {
            let i = choose|i: int| 0 <= i < tasks.len() && tasks[i] == t;
            if i < p.len() {
                assert(p[i] == t);
                let k = choose|k: int| 0 <= k < head.len() && head[k] == t;
                assert(all[k] == t);
            } else {
                assert(all[all.len() - 1] == t);
            }
        }
    }
}

proof fn lemma_newest_final<T, Y: RobustnessSemantics>(
    ready: UntilState<T, Y>,
    tasks: Seq<Time>,
    now: Time,
    t: Time,
)
    requires
        rising(tasks),
    ensures
        tasks.contains(t) && ready.window(t, now).outcome() is Final ==> ready.newest_final(
            tasks,
            now,
        ) is Some && t <= ready.newest_final(tasks, now)->0,
        ready.newest_final(tasks, now) matches Some(f) ==> tasks.contains(f) && ready.window(
            f,
            now,
        ).outcome() is Final,
    decreases tasks.len(),
{
    if tasks.len() > 0 {
        let p = tasks.drop_last();
        assert(rising(p));
        lemma_newest_final(ready, p, now, t);
        assert(tasks[tasks.len() - 1] == tasks.last());
        if tasks.contains(t) {
            let i = choose|i: int| 0 <= i < tasks.len() && tasks[i] == t;
            if i < p.len() {
                assert(p[i] == t);
                assert(tasks[i] < tasks[tasks.len() - 1]);
            }
        }
        if let Some(f) = ready.newest_final(p, now) {
            let i = choose|i: int| 0 <= i < p.len() && p[i] == f;
            assert(tasks[i] == f);
        }
    }
}

/// Every time that waits and whose window is covered is answered.
pub proof fn lemma_covered_is_answered<V: SignalValue, Y: AtomicSemantics<V>>(
    ready: UntilState<V, Y>,
    a: AtomicState<V>,
    b: AtomicState<V>,
    steps: Seq<Step<V>>,
    t0: Time,
    now: Time,
    t: Time,
)
    requires
        rises_per_signal(steps),
        starts_at(steps, signal_of(a), signal_of(b), t0),
        knows(ready, a, b, steps, t0),
        ready.left_cache.len() > 0,
        ready.right_cache.len() > 0,
        forall|u: Time| #[trigger]
            ready.tasks.contains(u) && is_covered(
                steps,
                signal_of(a),
                signal_of(b),
                window_end(ready.interval, u),
            ) ==> window_end(ready.interval, u) <= now,
        forall|u: Time| #[trigger] ready.tasks.contains(u) ==> t0 <= u,
        ready.tasks.contains(t),
        is_covered(steps, signal_of(a), signal_of(b), window_end(ready.interval, t)),
    ensures
        is_answered_at(ready, now, t),
{
    let n = ready.evaluable(ready.tasks, now) as int;
    let i = choose|i: int| 0 <= i < ready.tasks.len() && ready.tasks[i] == t;
    assert(t <= MAX_TIME);
    lemma_covered_window(ready, a, b, steps, t0, t, now);
    lemma_evaluable_stops(ready, ready.tasks, now);
    lemma_evaluable_prefix(ready, ready.tasks, now);
    if n <= i {
        let u = ready.tasks[n];
        assert(u <= t) by {
            assert(n < i ==> ready.tasks[n] < ready.tasks[i]);
        }
        assert(ready.tasks.contains(u));
        lemma_covered_window(ready, a, b, steps, t0, u, now);
        assert(is_covered(
            steps,
            signal_of(a),
            signal_of(b),
            window_end(ready.interval, u),
        ));
    }
}

/// A window that waits and is covered by the samples so far was covered by the newest one.
proof fn lemma_covered_by_now<V: SignalValue, Y: AtomicSemantics<V>>(
    h: UntilState<V, Y>,
    a: AtomicState<V>,
    b: AtomicState<V>,
    steps: Seq<Step<V>>,
    t0: Time,
    t: Time,
)
    requires
        is_held(a),
        is_held(b),
        rises_per_signal(steps),
        steps.len() > 0,
        awaits(h, a, b, steps.drop_last(), t0),
        h.interval.start <= h.interval.end,
        t0 <= t,
        is_past(h.finalized_ts, t),
        is_asked(steps, signal_of(a), signal_of(b), h.interval, t),
        is_covered(steps, signal_of(a), signal_of(b), window_end(h.interval, t)),
        t <= MAX_TIME,
        h.interval.end <= MAX_TIME,
    ensures
        window_end(h.interval, t) <= steps.last().timestamp,
        steps.last().signal@ == signal_of(a) || steps.last().signal@ == signal_of(b),
        !(is_asked(steps.drop_last(), signal_of(a), signal_of(b), h.interval, t) && is_covered(
            steps.drop_last(),
            signal_of(a),
            signal_of(b),
            window_end(h.interval, t),
        )),
{
    let x = signal_of(a);
    let y = signal_of(b);
    let before = steps.drop_last();
    let end = window_end(h.interval, t);
    lemma_covered_grows(steps, x, y, end);
    lemma_asked_grows(steps, x, y, h.interval, t);
    if is_asked(before, x, y, h.interval, t) {
        assert(h.tasks.contains(t));
    } else {
        lemma_last_grows(steps, x);
        lemma_last_grows(steps, y);
    }
}

/// What waits once the last step of a trace was taken in: every time that is asked for and
/// past what was answered; and the windows among them that are covered end by `now`.
pub open spec fn waits<V: SignalValue, Y: AtomicSemantics<V>>(
    ready: UntilState<V, Y>,
    a: AtomicState<V>,
    b: AtomicState<V>,
    steps: Seq<Step<V>>,
    t0: Time,
    now: Time,
) -> bool {
    let x = signal_of(a);
    let y = signal_of(b);
    &&& forall|t: Time| #[trigger]
        ready.tasks.contains(t) ==> t0 <= t && is_past(ready.finalized_ts, t) && is_asked(
            steps,
            x,
            y,
            ready.interval,
            t,
        )
    &&& forall|t: Time|
        t0 <= t && is_past(ready.finalized_ts, t) && #[trigger] is_asked(
            steps,
            x,
            y,
            ready.interval,
            t,
        ) ==> ready.tasks.contains(t)
    &&& forall|t: Time| #[trigger]
        ready.tasks.contains(t) && is_covered(steps, x, y, window_end(ready.interval, t))
            ==> window_end(ready.interval, t) <= now
    &&& has_covered_answers(ready, a, b, steps)
}

/// What waits once the last step of a trace was taken in.
pub proof fn lemma_waits<V: SignalValue, Y: AtomicSemantics<V>>(
    h: UntilState<V, Y>,
    a: AtomicState<V>,
    b: AtomicState<V>,
    steps: Seq<Step<V>>,
    t0: Time,
)
    requires
        is_held(a),
        is_held(b),
        speaks_finally::<V, Y>(a),
        speaks_finally::<V, Y>(b),
        rises_per_signal(steps),
        steps.len() > 0,
        starts_at(steps, signal_of(a), signal_of(b), t0),
        knows(h, a, b, steps.drop_last(), t0),
        awaits(h, a, b, steps.drop_last(), t0),
    ensures
        is_steady(h, steps.last()),
        knows(prepared(h, steps.last()), a, b, steps, t0),
        waits(prepared(h, steps.last()), a, b, steps, t0, steps.last().timestamp),
        prepared(h, steps.last()).finalized_ts == h.finalized_ts,
        prepared(h, steps.last()).interval == h.interval,
        prepared(h, steps.last()).eager == h.eager,
        prepared(h, steps.last()).rosi == h.rosi,
{
    let x = signal_of(a);
    let y = signal_of(b);
    let now = steps.last().timestamp;
    let ready = prepared(h, steps.last());
    lemma_knows(h, a, b, steps, t0);
    lemma_ready_tasks(h, a, b, steps, t0);
    assert(ready.interval == h.interval);
    assert forall|t: Time| #[trigger] ready.tasks.contains(t) && is_covered(
        steps,
        x,
        y,
        window_end(h.interval, t),
    ) implies window_end(h.interval, t) <= now by {
        let i = choose|i: int| 0 <= i < ready.tasks.len() && ready.tasks[i] == t;
        assert(ready.tasks[i] <= MAX_TIME);
        lemma_covered_by_now(h, a, b, steps, t0, t);
    }
    if let Some(answered) = h.finalized_ts {
        lemma_covered_grows(steps, x, y, window_end(h.interval, answered));
    }
}

/// What an evaluation leaves is past what it answered, and not covered.
pub proof fn lemma_left_waiting<V: SignalValue, Y: AtomicSemantics<V>>(
    ready: UntilState<V, Y>,
    a: AtomicState<V>,
    b: AtomicState<V>,
    steps: Seq<Step<V>>,
    t0: Time,
    now: Time,
    t: Time,
)
    requires
        rises_per_signal(steps),
        starts_at(steps, signal_of(a), signal_of(b), t0),
        knows(ready, a, b, steps, t0),
        waits(ready, a, b, steps, t0, now),
        ready.left_cache.len() > 0,
        ready.right_cache.len() > 0,
        !ready.eager || !ready.rosi,
        ready.answered(now).tasks.contains(t),
    ensures
        ready.tasks.contains(t),
        is_past(ready.answered(now).finalized_ts, t),
        !is_covered(steps, signal_of(a), signal_of(b), window_end(ready.interval, t)),
{
    lemma_remaining(ready, now, t);
    if is_covered(steps, signal_of(a), signal_of(b), window_end(ready.interval, t)) {
        lemma_covered_is_answered(ready, a, b, steps, t0, now, t);
    }
    if let Some(f) = ready.answered(now).finalized_ts {
        if ready.finalized_ts != Some(f) {
            let j = choose|j: int|
                0 <= j < ready.evaluable(ready.tasks, now) && #[trigger] ready.tasks[j] == f;
            lemma_evaluable_prefix(ready, ready.tasks, now);
            assert(ready.tasks.contains(f));
            lemma_after_answers(ready, a, b, steps, t0, now, f, t);
        }
    }
}

/// What is past an evaluation's answers is left waiting by it.
proof fn lemma_none_lost<V: SignalValue, Y: AtomicSemantics<V>>(
    ready: UntilState<V, Y>,
    a: AtomicState<V>,
    b: AtomicState<V>,
    steps: Seq<Step<V>>,
    t0: Time,
    now: Time,
    t: Time,
)
    requires
        ready.wf(),
        waits(ready, a, b, steps, t0, now),
        ready.left_cache.len() > 0,
        ready.right_cache.len() > 0,
        t0 <= t,
        is_past(ready.answered(now).finalized_ts, t),
        is_asked(steps, signal_of(a), signal_of(b), ready.interval, t),
    ensures
        ready.answered(now).tasks.contains(t),
{
    lemma_remaining(ready, now, t);
    assert(is_past(ready.finalized_ts, t)) by {
        if let Some(g) = ready.finalized_ts {
            if let Some(f) = ready.answered(now).finalized_ts {
                if f != g {
                    let j = choose|j: int|
                        0 <= j < ready.evaluable(ready.tasks, now) && #[trigger] ready.tasks[j]
                            == f;
                    lemma_evaluable_prefix(ready, ready.tasks, now);
                    assert(ready.tasks.contains(f));
                }
            }
        }
    }
    assert(ready.tasks.contains(t));
}

/// What waits after the last step of a trace.
pub proof fn lemma_awaits<V: SignalValue, Y: AtomicSemantics<V>>(
    ready: UntilState<V, Y>,
    after: UntilState<V, Y>,
    a: AtomicState<V>,
    b: AtomicState<V>,
    steps: Seq<Step<V>>,
    t0: Time,
    now: Time,
)
    requires
        rises_per_signal(steps),
        starts_at(steps, signal_of(a), signal_of(b), t0),
        knows(ready, a, b, steps, t0),
        waits(ready, a, b, steps, t0, now),
        !ready.eager || !ready.rosi,
        ready.finalized_ts is Some ==> ready.left_cache.len() > 0 && ready.right_cache.len() > 0,
        after.tasks == ready.answered(now).tasks,
        after.finalized_ts == ready.answered(now).finalized_ts,
        after.interval == ready.interval,
        after.eager == ready.eager,
        after.left_cache == ready.left_cache,
        after.right_cache == ready.right_cache,
    ensures
        awaits(after, a, b, steps, t0),
{
    let x = signal_of(a);
    let y = signal_of(b);
    if ready.left_cache.len() == 0 || ready.right_cache.len() == 0 {
        lemma_verdicts::<V, Y>(a, steps);
        lemma_verdicts::<V, Y>(b, steps);
        assert(joint(last_sample(steps, x), last_sample(steps, y)) is None);
    } else {
        assert forall|t: Time| #[trigger] after.tasks.contains(t) implies {
            &&& t0 <= t
            &&& is_past(after.finalized_ts, t)
            &&& is_asked(steps, x, y, after.interval, t)
            &&& !is_covered(steps, x, y, window_end(after.interval, t))
        } by {
            lemma_left_waiting(ready, a, b, steps, t0, now, t);
        }
        assert forall|t: Time|
            t0 <= t && is_past(after.finalized_ts, t) && #[trigger] is_asked(
                steps,
                x,
                y,
                after.interval,
                t,
            ) implies after.tasks.contains(t) by {
            lemma_none_lost(ready, a, b, steps, t0, now, t);
        }
        lemma_answer_covered(ready, a, b, steps, t0, now);
    }
}

/// Unless answers come early, a window is answered for good only when it is covered.
proof fn lemma_answer_covered<V: SignalValue, Y: AtomicSemantics<V>>(
    ready: UntilState<V, Y>,
    a: AtomicState<V>,
    b: AtomicState<V>,
    steps: Seq<Step<V>>,
    t0: Time,
    now: Time,
)
    requires
        rises_per_signal(steps),
        starts_at(steps, signal_of(a), signal_of(b), t0),
        knows(ready, a, b, steps, t0),
        waits(ready, a, b, steps, t0, now),
        ready.left_cache.len() > 0,
        ready.right_cache.len() > 0,
    ensures
        !ready.eager ==> (ready.answered(now).finalized_ts matches Some(f) ==> f <= MAX_TIME
            && is_covered(steps, signal_of(a), signal_of(b), window_end(ready.interval, f))),
{
    if let Some(f) = ready.answered(now).finalized_ts {
        if !ready.eager && ready.finalized_ts != Some(f) {
            lemma_remaining(ready, now, f);
            let j = choose|j: int|
                0 <= j < ready.evaluable(ready.tasks, now) && #[trigger] ready.tasks[j] == f;
            lemma_evaluable_prefix(ready, ready.tasks, now);
            assert(ready.tasks.contains(f));
            lemma_covered_window(ready, a, b, steps, t0, f, now);
        }
    }
}

/// What waits is later than what was answered for good.
proof fn lemma_after_answers<V: SignalValue, Y: AtomicSemantics<V>>(
    ready: UntilState<V, Y>,
    a: AtomicState<V>,
    b: AtomicState<V>,
    steps: Seq<Step<V>>,
    t0: Time,
    now: Time,
    f: Time,
    t: Time,
)
    requires
        rises_per_signal(steps),
        starts_at(steps, signal_of(a), signal_of(b), t0),
        knows(ready, a, b, steps, t0),
        ready.left_cache.len() > 0,
        ready.right_cache.len() > 0,
        !ready.eager || !ready.rosi,
        is_answered_at(ready, now, f),
        ready.answered(now).tasks.contains(t),
        ready.tasks.contains(t),
        t0 <= f,
        t0 <= t,
        !is_covered(steps, signal_of(a), signal_of(b), window_end(ready.interval, t)),
    ensures
        f < t,
{
    let n = ready.evaluable(ready.tasks, now) as int;
    let i = choose|i: int| 0 <= i < ready.tasks.len() && ready.tasks[i] == t;
    let j = choose|j: int| 0 <= j < n && #[trigger] ready.tasks[j] == f;
    lemma_evaluable_prefix(ready, ready.tasks, now);
    assert(ready.tasks[i] <= MAX_TIME && ready.tasks[j] <= MAX_TIME);
    if i < n {
        lemma_remaining(ready, now, t);
        assert(!(ready.window(t, now).outcome() is Wait));
        assert(!is_answered_at(ready, now, t));
        assert(ready.window(t, now).outcome() is Open);
        assert(ready.rosi);
        lemma_covered_window(ready, a, b, steps, t0, f, now);
        lemma_covered_window(ready, a, b, steps, t0, t, now);
        assert(ready.window(f, now).covered());
        if t <= f {
            assert(ready.window(t, now).covered());
        }
    } else {
        assert(ready.tasks[j] < ready.tasks[i]);
    }
}

/// What is known and what waits after the last step of a trace.
proof fn lemma_after_step<V: SignalValue, Y: AtomicSemantics<V>>(
    h: UntilState<V, Y>,
    a: AtomicState<V>,
    b: AtomicState<V>,
    steps: Seq<Step<V>>,
    t0: Time,
)
    requires
        is_held(a),
        is_held(b),
        speaks_finally::<V, Y>(a),
        speaks_finally::<V, Y>(b),
        rises_per_signal(steps),
        steps.len() > 0,
        starts_at(steps, signal_of(a), signal_of(b), t0),
        knows(h, a, b, steps.drop_last(), t0),
        awaits(h, a, b, steps.drop_last(), t0),
        !h.eager || !h.rosi,
    ensures
        is_steady(h, steps.last()),
        knows(kept(h, steps.last()), a, b, steps, t0),
        awaits(kept(h, steps.last()), a, b, steps, t0),
        kept(h, steps.last()).interval == h.interval,
        kept(h, steps.last()).eager == h.eager,
        kept(h, steps.last()).rosi == h.rosi,
{
    let last = steps.last();
    let ready = prepared(h, last);
    lemma_waits(h, a, b, steps, t0);
    lemma_kept_wf(h, last);
    lemma_verdicts_grow::<V, Y>(a, steps);
    lemma_verdicts_grow::<V, Y>(b, steps);
    lemma_awaits(ready, kept(h, last), a, b, steps, t0, last.timestamp);
}

/// What is known and what waits before the first sample.
proof fn lemma_before_any<V: SignalValue, Y: AtomicSemantics<V>>(
    a: AtomicState<V>,
    b: AtomicState<V>,
    interval: TimeInterval,
    eager: bool,
    rosi: bool,
    steps: Seq<Step<V>>,
    t0: Time,
)
    requires
        interval.start <= interval.end <= MAX_TIME,
        steps.len() == 0,
    ensures
        knows(until_over::<V, Y>(a, b, interval, eager, rosi), a, b, steps, t0),
        awaits(until_over::<V, Y>(a, b, interval, eager, rosi), a, b, steps, t0),
{
    let state = until_over::<V, Y>(a, b, interval, eager, rosi);
    assert(verdicts_of::<V, Y>(a, steps) =~= Seq::empty());
    assert(verdicts_of::<V, Y>(b, steps) =~= Seq::empty());
    assert(is_routed(state.operands, a, b)) by {
        reveal(is_routed);
    }
    assert forall|t: Time| !is_asked(steps, signal_of(a), signal_of(b), interval, t) by {}
}

/// `h` is what an until over two predicates comes to after a trace.
pub open spec fn is_after<V: SignalValue, Y: AtomicSemantics<V>>(
    h: UntilState<V, Y>,
    a: AtomicState<V>,
    b: AtomicState<V>,
    interval: TimeInterval,
    eager: bool,
    rosi: bool,
    steps: Seq<Step<V>>,
    t0: Time,
) -> bool {
    &&& knows(h, a, b, steps, t0)
    &&& awaits(h, a, b, steps, t0)
    &&& h.interval == interval
    &&& h.eager == eager
    &&& h.rosi == rosi
}

/// Two predicates whose signals are held and whose verdicts are final, a window, and samples
/// that rise on each signal and start together.
pub open spec fn is_trace<V: SignalValue, Y: AtomicSemantics<V>>(
    a: AtomicState<V>,
    b: AtomicState<V>,
    interval: TimeInterval,
    steps: Seq<Step<V>>,
    t0: Time,
) -> bool {
    &&& is_held(a)
    &&& is_held(b)
    &&& speaks_finally::<V, Y>(a)
    &&& speaks_finally::<V, Y>(b)
    &&& interval.start <= interval.end <= MAX_TIME
    &&& rises_per_signal(steps)
    &&& starts_at(steps, signal_of(a), signal_of(b), t0)
}

/// The beginning of a trace is a trace.
pub proof fn lemma_trace_before<V: SignalValue, Y: AtomicSemantics<V>>(
    a: AtomicState<V>,
    b: AtomicState<V>,
    interval: TimeInterval,
    steps: Seq<Step<V>>,
    t0: Time,
    k: int,
)
    requires
        is_trace::<V, Y>(a, b, interval, steps, t0),
        0 <= k <= steps.len(),
    ensures
        is_trace::<V, Y>(a, b, interval, steps.take(k), t0),
{
    lemma_rises_before(steps, k);
    lemma_starts_before(steps, signal_of(a), signal_of(b), t0, k);
}

/// Over two predicates an until knows and awaits what a trace gives.
pub proof fn lemma_trace<V: SignalValue, Y: AtomicSemantics<V>>(
    a: AtomicState<V>,
    b: AtomicState<V>,
    interval: TimeInterval,
    eager: bool,
    rosi: bool,
    steps: Seq<Step<V>>,
    t0: Time,
)
    requires
        is_trace::<V, Y>(a, b, interval, steps, t0),
        !eager || !rosi,
    ensures
        is_after(
            history(until_over::<V, Y>(a, b, interval, eager, rosi), steps),
            a,
            b,
            interval,
            eager,
            rosi,
            steps,
            t0,
        ),
    decreases steps.len(),
{
    let state = until_over::<V, Y>(a, b, interval, eager, rosi);
    if steps.len() == 0 {
        lemma_before_any::<V, Y>(a, b, interval, eager, rosi, steps, t0);
    } else {
        assert(steps.drop_last() =~= steps.take(steps.len() - 1));
        lemma_trace_before::<V, Y>(a, b, interval, steps, t0, steps.len() - 1);
        lemma_trace::<V, Y>(a, b, interval, eager, rosi, steps.drop_last(), t0);
        lemma_after_step(history(state, steps.drop_last()), a, b, steps, t0);
    }
}

/// The beginning of a trace starts where the trace does.
pub proof fn lemma_starts_before<V>(
    steps: Seq<Step<V>>,
    x: Seq<char>,
    y: Seq<char>,
    t0: Time,
    k: int,
)
    requires
        starts_at(steps, x, y, t0),
        0 <= k <= steps.len(),
    ensures
        starts_at(steps.take(k), x, y, t0),
{
    lemma_samples_prefix(steps, x, k);
    lemma_samples_prefix(steps, y, k);
}

/// The samples of the beginning of a trace are the first ones of the trace.
pub proof fn lemma_samples_prefix<V>(steps: Seq<Step<V>>, signal: Seq<char>, k: int)
    requires
        0 <= k <= steps.len(),
    ensures
        samples(steps.take(k), signal).len() <= samples(steps, signal).len(),
        samples(steps.take(k), signal) == samples(steps, signal).take(
            samples(steps.take(k), signal).len() as int,
        ),
    decreases steps.len(),
{
    let s = samples(steps, signal);
    if k == steps.len() {
        assert(steps.take(k) =~= steps);
        assert(s.take(s.len() as int) =~= s);
    } else {
        let before = steps.drop_last();
        assert(before.take(k) =~= steps.take(k));
        lemma_samples_prefix(before, signal, k);
        let p = samples(steps.take(k), signal);
        assert(p =~= s.take(p.len() as int));
    }
}

} // verus!
