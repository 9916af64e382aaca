//! Until over two predicates whose signals are held between their samples: what it answers over
//! a whole trace.

use crate::atomic_operators::AtomicState;
use crate::atomic_trace::{lemma_rises_before, lemma_samples, lemma_verdicts, rises_per_signal};
use crate::atomic_trace::{samples, signal_of, verdicts_of};
use crate::operator::{Event, Machine};
use crate::ring_buffer::{count_upto, has_entry_at, in_force, in_order, lemma_count_upto};
use crate::ring_buffer::{lemma_count_upto_unique, Step};
use crate::semantics::{at_most, is_bounded, is_lattice, AtomicSemantics, RobustnessSemantics};
use crate::semantics::SignalValue;
use crate::time::{Time, TimeInterval, MAX_TIME};
use crate::until_laws::{bounds_every_witness, covered_window_has_the_dense_verdict};
use crate::until_laws::{early_verdict_stands, is_known_by, is_until_value, is_worth, value_at};
use crate::until_operator::UntilState;
use crate::until_stream_laws::{history, is_steady, is_steady_throughout, prepared, run};
use crate::until_stream_laws::{lemma_evaluable_prefix, output_is_ordered};
use crate::until_stream_laws::pruning_changes_no_verdict;
use crate::until_trace::{is_after, is_answered_at, is_asked, is_covered, is_past, is_trace, knows};
use crate::until_trace::{lemma_asked_grows, lemma_covered_grows, lemma_covered_is_answered};
use crate::until_trace::{lemma_covered_window, lemma_remaining, lemma_trace};
use crate::until_trace::{is_breakpoint, lemma_samples_prefix, lemma_trace_before, lemma_waits};
use crate::until_trace::{touches, until_over, waits, window_end};
use vstd::prelude::*;

verus! {

/// What an until emits on one step of a trace.
pub open spec fn given<V: SignalValue, Y: AtomicSemantics<V>>(
    a: AtomicState<V>,
    b: AtomicState<V>,
    interval: TimeInterval,
    eager: bool,
    rosi: bool,
    steps: Seq<Step<V>>,
    k: int,
) -> Seq<Step<Y>> {
    run(until_over::<V, Y>(a, b, interval, eager, rosi), steps.take(k)).emit(
        Event::Sample(steps[k]),
    )
}

/// What an until that forgets nothing evaluates on one step of a trace.
pub open spec fn ready_for<V: SignalValue, Y: AtomicSemantics<V>>(
    a: AtomicState<V>,
    b: AtomicState<V>,
    interval: TimeInterval,
    eager: bool,
    rosi: bool,
    steps: Seq<Step<V>>,
    k: int,
) -> UntilState<V, Y> {
    prepared(history(until_over::<V, Y>(a, b, interval, eager, rosi), steps.take(k)), steps[k])
}

/// Both operands report steadily all along a trace.
pub proof fn lemma_steady<V: SignalValue, Y: AtomicSemantics<V>>(
    a: AtomicState<V>,
    b: AtomicState<V>,
    interval: TimeInterval,
    eager: bool,
    rosi: bool,
    steps: Seq<Step<V>>,
    t0: Time,
    k: int,
)
    requires
        is_trace::<V, Y>(a, b, interval, steps, t0),
        !eager || !rosi,
        0 <= k < steps.len(),
    ensures
        ({
            let state = until_over::<V, Y>(a, b, interval, eager, rosi);
            let h = history(state, steps.take(k));
            let ready = ready_for::<V, Y>(a, b, interval, eager, rosi, steps, k);
            &&& is_steady(h, steps[k])
            &&& is_after(h, a, b, interval, eager, rosi, steps.take(k), t0)
            &&& knows(ready, a, b, steps.take(k + 1), t0)
            &&& waits(ready, a, b, steps.take(k + 1), t0, steps[k].timestamp)
            &&& ready.finalized_ts == h.finalized_ts
            &&& ready.interval == interval
            &&& ready.eager == eager
            &&& ready.rosi == rosi
        }),
{
    let seen = steps.take(k + 1);
    let state = until_over::<V, Y>(a, b, interval, eager, rosi);
    assert(seen.drop_last() =~= steps.take(k));
    assert(seen.last() == steps[k]);
    lemma_trace_before::<V, Y>(a, b, interval, steps, t0, k);
    lemma_trace_before::<V, Y>(a, b, interval, steps, t0, k + 1);
    lemma_trace::<V, Y>(a, b, interval, eager, rosi, steps.take(k), t0);
    lemma_waits(history(state, steps.take(k)), a, b, seen, t0);
}

/// What is emitted is what is available to an until that forgets nothing.
pub proof fn lemma_given<V: SignalValue, Y: AtomicSemantics<V>>(
    a: AtomicState<V>,
    b: AtomicState<V>,
    interval: TimeInterval,
    eager: bool,
    rosi: bool,
    steps: Seq<Step<V>>,
    t0: Time,
    k: int,
)
    requires
        is_trace::<V, Y>(a, b, interval, steps, t0),
        !eager || !rosi,
        0 <= k < steps.len(),
    ensures
        given::<V, Y>(a, b, interval, eager, rosi, steps, k) == ready_for::<V, Y>(
            a,
            b,
            interval,
            eager,
            rosi,
            steps,
            k,
        ).available(steps[k].timestamp),
{
    let state = until_over::<V, Y>(a, b, interval, eager, rosi);
    assert(is_steady_throughout(state, steps)) by {
        assert forall|n: int| 0 <= n < steps.len() implies is_steady(
            history(state, #[trigger] steps.take(n)),
            steps[n],
        ) by {
            lemma_steady::<V, Y>(a, b, interval, eager, rosi, steps, t0, n);
        }
    }
    pruning_changes_no_verdict(state, steps, k);
}

/// What is available is a verdict on each time that is evaluated.
pub proof fn lemma_entries<V: SignalValue, Y: AtomicSemantics<V>>(
    ready: UntilState<V, Y>,
    now: Time,
    t: Time,
)
    ensures
        has_entry_at(ready.available(now), t) <==> ready.left_cache.len() > 0
            && ready.right_cache.len() > 0 && is_evaluated(ready, now, t),
        forall|i: int|
            0 <= i < ready.available(now).len() ==> {
                &&& #[trigger] ready.available(now)[i] == ready.verdict(ready.tasks[i], now)
                &&& ready.available(now)[i].timestamp == ready.tasks[i]
            },
{
    let out = ready.available(now);
    if has_entry_at(out, t) {
        let i = choose|i: int| 0 <= i < out.len() && (#[trigger] out[i]).timestamp == t;
        assert(ready.tasks[i] == t);
    }
    if ready.left_cache.len() > 0 && ready.right_cache.len() > 0 && is_evaluated(ready, now, t) {
        let i = choose|i: int|
            0 <= i < ready.evaluable(ready.tasks, now) && #[trigger] ready.tasks[i] == t;
        assert(out[i].timestamp == t);
    }
}

/// `t` is among the times that are evaluated.
pub open spec fn is_evaluated<V: SignalValue, Y: AtomicSemantics<V>>(
    ready: UntilState<V, Y>,
    now: Time,
    t: Time,
) -> bool {
    exists|i: int| 0 <= i < ready.evaluable(ready.tasks, now) && #[trigger] ready.tasks[i] == t
}

/// Until is due at `t`: `t` is no earlier than the first samples, a sample falls on `t` or on an
/// end of its window, and both signals were sampled at the end of that window or later.
pub open spec fn is_due<V>(
    steps: Seq<Step<V>>,
    x: Seq<char>,
    y: Seq<char>,
    interval: TimeInterval,
    t0: Time,
    t: Time,
) -> bool {
    &&& t0 <= t
    &&& is_asked(steps, x, y, interval, t)
    &&& is_covered(steps, x, y, window_end(interval, t))
}

/// What is asked for and what is covered stays so.
pub proof fn lemma_stays<V>(
    steps: Seq<Step<V>>,
    x: Seq<char>,
    y: Seq<char>,
    interval: TimeInterval,
    t: Time,
    i: int,
    j: int,
)
    requires
        rises_per_signal(steps),
        0 <= i <= j <= steps.len(),
    ensures
        is_asked(steps.take(i), x, y, interval, t) ==> is_asked(steps.take(j), x, y, interval, t),
        is_covered(steps.take(i), x, y, t) ==> is_covered(steps.take(j), x, y, t),
    decreases j,
{
    if i < j {
        lemma_stays(steps, x, y, interval, t, i, j - 1);
        assert(steps.take(j).drop_last() =~= steps.take(j - 1));
        lemma_rises_before(steps, j);
        lemma_asked_grows(steps.take(j), x, y, interval, t);
        lemma_covered_grows(steps.take(j), x, y, t);
    }
}

/// What is asked for lies within the range of time.
proof fn lemma_asked_bounded<V>(
    steps: Seq<Step<V>>,
    x: Seq<char>,
    y: Seq<char>,
    interval: TimeInterval,
    t: Time,
)
    requires
        rises_per_signal(steps),
        is_asked(steps, x, y, interval, t),
    ensures
        t <= MAX_TIME,
{
    let ts = choose|ts: Time| #[trigger]
        is_breakpoint(steps, x, y, ts) && touches(interval, ts, t);
    let i = choose|i: int|
        0 <= i < steps.len() && ((#[trigger] steps[i]).signal@ == x || steps[i].signal@ == y)
            && steps[i].timestamp == ts;
    assert(steps[i].timestamp <= MAX_TIME);
}

/// A time whose window is covered already is not asked for anew.
proof fn lemma_not_asked_anew<V>(
    steps: Seq<Step<V>>,
    x: Seq<char>,
    y: Seq<char>,
    interval: TimeInterval,
    t: Time,
)
    requires
        rises_per_signal(steps),
        steps.len() > 0,
        interval.start <= interval.end <= MAX_TIME,
        t <= MAX_TIME,
        is_covered(steps.drop_last(), x, y, window_end(interval, t)),
        is_asked(steps, x, y, interval, t),
    ensures
        is_asked(steps.drop_last(), x, y, interval, t),
{
    lemma_asked_grows(steps, x, y, interval, t);
    lemma_samples(steps, x);
    lemma_samples(steps, y);
    let last = steps.last();
    if last.signal@ == x {
        let p = samples(steps.drop_last(), x);
        assert(samples(steps, x)[p.len() - 1] == p.last());
        assert(samples(steps, x)[p.len() as int] == last);
    }
    if last.signal@ == y {
        let p = samples(steps.drop_last(), y);
        assert(samples(steps, y)[p.len() - 1] == p.last());
        assert(samples(steps, y)[p.len() as int] == last);
    }
}

/// What was due before a step does not wait in it.
pub proof fn lemma_not_after_due<V: SignalValue, Y: AtomicSemantics<V>>(
    a: AtomicState<V>,
    b: AtomicState<V>,
    interval: TimeInterval,
    eager: bool,
    rosi: bool,
    steps: Seq<Step<V>>,
    t0: Time,
    i: int,
    k: int,
    t: Time,
)
    requires
        is_trace::<V, Y>(a, b, interval, steps, t0),
        !eager || !rosi,
        0 <= i <= k < steps.len(),
        is_due(steps.take(i), signal_of(a), signal_of(b), interval, t0, t),
    ensures
        !ready_for::<V, Y>(a, b, interval, eager, rosi, steps, k).tasks.contains(t),
{
    let x = signal_of(a);
    let y = signal_of(b);
    let state = until_over::<V, Y>(a, b, interval, eager, rosi);
    let h = history(state, steps.take(k));
    let ready = ready_for::<V, Y>(a, b, interval, eager, rosi, steps, k);
    lemma_steady::<V, Y>(a, b, interval, eager, rosi, steps, t0, k);
    lemma_stays(steps, x, y, interval, t, i, k);
    lemma_stays(steps, x, y, interval, window_end(interval, t), i, k);
    if ready.tasks.contains(t) {
        assert(is_past(h.finalized_ts, t));
        assert(h.tasks.contains(t));
    }
}

/// Unless answers come early, a time is answered for good on the step that makes it due.
pub proof fn lemma_answered_when_due<V: SignalValue, Y: AtomicSemantics<V>>(
    a: AtomicState<V>,
    b: AtomicState<V>,
    interval: TimeInterval,
    rosi: bool,
    steps: Seq<Step<V>>,
    t0: Time,
    k: int,
    t: Time,
)
    requires
        is_trace::<V, Y>(a, b, interval, steps, t0),
        0 <= k < steps.len(),
    ensures
        ({
            let x = signal_of(a);
            let y = signal_of(b);
            let ready = ready_for::<V, Y>(a, b, interval, false, rosi, steps, k);
            (ready.left_cache.len() > 0 && ready.right_cache.len() > 0 && is_answered_at(
                ready,
                steps[k].timestamp,
                t,
            )) <==> is_due(steps.take(k + 1), x, y, interval, t0, t) && !is_due(
                steps.take(k),
                x,
                y,
                interval,
                t0,
                t,
            )
        }),
{
    let x = signal_of(a);
    let y = signal_of(b);
    let now = steps[k].timestamp;
    let seen = steps.take(k + 1);
    let state = until_over::<V, Y>(a, b, interval, false, rosi);
    let h = history(state, steps.take(k));
    let ready = ready_for::<V, Y>(a, b, interval, false, rosi, steps, k);
    lemma_steady::<V, Y>(a, b, interval, false, rosi, steps, t0, k);
    lemma_trace_before::<V, Y>(a, b, interval, steps, t0, k + 1);
    if ready.left_cache.len() > 0 && ready.right_cache.len() > 0 && is_answered_at(ready, now, t) {
        let i = choose|i: int|
            0 <= i < ready.evaluable(ready.tasks, now) && #[trigger] ready.tasks[i] == t;
        lemma_evaluable_prefix(ready, ready.tasks, now);
        assert(ready.tasks.contains(t));
        assert(t <= MAX_TIME);
        lemma_covered_window(ready, a, b, seen, t0, t, now);
        if is_due(steps.take(k), x, y, interval, t0, t) {
            lemma_not_after_due::<V, Y>(a, b, interval, false, rosi, steps, t0, k, k, t);
        }
    }
    if is_due(seen, x, y, interval, t0, t) && !is_due(steps.take(k), x, y, interval, t0, t) {
        lemma_asked_bounded(seen, x, y, interval, t);
        assert(is_past(h.finalized_ts, t)) by {
            if let Some(f) = h.finalized_ts {
                if t <= f {
                    assert(window_end(interval, t) <= window_end(interval, f));
                    assert(is_covered(steps.take(k), x, y, window_end(interval, t)));
                    assert(seen.drop_last() =~= steps.take(k));
                    lemma_not_asked_anew(seen, x, y, interval, t);
                }
            }
        }
        assert(ready.tasks.contains(t));
        lemma_verdicts::<V, Y>(a, seen);
        lemma_verdicts::<V, Y>(b, seen);
        assert(ready.left_cache.len() > 0 && ready.right_cache.len() > 0);
        lemma_covered_is_answered(ready, a, b, seen, t0, now, t);
    }
}

/// In delayed mode a time is answered on the step that makes it due, and on no other. So the
/// times answered over a trace are exactly the times, from the first samples on, of which a
/// sample of either signal falls on the time itself or on an end of its window, and whose window
/// has been sampled to its end on both; each is answered once, and as soon as that holds; and
/// those answered on one step come in time order.
pub proof fn delayed_verdicts_come_when_due<V: SignalValue, Y: AtomicSemantics<V>>(
    a: AtomicState<V>,
    b: AtomicState<V>,
    interval: TimeInterval,
    steps: Seq<Step<V>>,
    t0: Time,
    k: int,
)
    requires
        is_trace::<V, Y>(a, b, interval, steps, t0),
        0 <= k < steps.len(),
    ensures
        in_order(given::<V, Y>(a, b, interval, false, false, steps, k)),
        forall|t: Time|
            has_entry_at(given::<V, Y>(a, b, interval, false, false, steps, k), t)
                <==> #[trigger] is_due(
                steps.take(k + 1),
                signal_of(a),
                signal_of(b),
                interval,
                t0,
                t,
            ) && !is_due(steps.take(k), signal_of(a), signal_of(b), interval, t0, t),
{
    let x = signal_of(a);
    let y = signal_of(b);
    let now = steps[k].timestamp;
    let ready = ready_for::<V, Y>(a, b, interval, false, false, steps, k);
    lemma_steady::<V, Y>(a, b, interval, false, false, steps, t0, k);
    lemma_given::<V, Y>(a, b, interval, false, false, steps, t0, k);
    output_is_ordered(ready, now);
    assert forall|t: Time|
        has_entry_at(given::<V, Y>(a, b, interval, false, false, steps, k), t)
            <==> #[trigger] is_due(steps.take(k + 1), x, y, interval, t0, t) && !is_due(
            steps.take(k),
            x,
            y,
            interval,
            t0,
            t,
        ) by {
        lemma_entries(ready, now, t);
        lemma_answered_when_due::<V, Y>(a, b, interval, false, steps, t0, k, t);
        lemma_evaluable_prefix(ready, ready.tasks, now);
        if is_evaluated(ready, now, t) {
            let i = choose|i: int|
                0 <= i < ready.evaluable(ready.tasks, now) && #[trigger] ready.tasks[i] == t;
            assert(!(ready.window(ready.tasks[i], now).outcome() is Wait));
            assert(is_answered_at(ready, now, t));
        }
    }
}

/// What was answered for good stays answered.
proof fn lemma_finalized_grows<V: SignalValue, Y: AtomicSemantics<V>>(
    a: AtomicState<V>,
    b: AtomicState<V>,
    interval: TimeInterval,
    eager: bool,
    rosi: bool,
    steps: Seq<Step<V>>,
    t0: Time,
    i: int,
    k: int,
)
    requires
        is_trace::<V, Y>(a, b, interval, steps, t0),
        !eager || !rosi,
        0 <= i <= k <= steps.len(),
    ensures
        ({
            let state = until_over::<V, Y>(a, b, interval, eager, rosi);
            history(state, steps.take(i)).finalized_ts matches Some(f) ==> {
                &&& history(state, steps.take(k)).finalized_ts is Some
                &&& f <= history(state, steps.take(k)).finalized_ts->0
            }
        }),
    decreases k,
{
    let state = until_over::<V, Y>(a, b, interval, eager, rosi);
    if i < k {
        lemma_finalized_grows::<V, Y>(a, b, interval, eager, rosi, steps, t0, i, k - 1);
        lemma_steady::<V, Y>(a, b, interval, eager, rosi, steps, t0, k - 1);
        assert(steps.take(k).drop_last() =~= steps.take(k - 1));
        assert(steps.take(k).last() == steps[k - 1]);
        let ready = ready_for::<V, Y>(a, b, interval, eager, rosi, steps, k - 1);
        let now = steps[k - 1].timestamp;
        assert(history(state, steps.take(k)).finalized_ts == ready.answered(now).finalized_ts);
        if ready.left_cache.len() > 0 && ready.right_cache.len() > 0 {
            lemma_remaining(ready, now, 0);
            if let Some(f) = ready.answered(now).finalized_ts {
                if ready.finalized_ts != Some(f) {
                    let j = choose|j: int|
                        0 <= j < ready.evaluable(ready.tasks, now) && #[trigger] ready.tasks[j]
                            == f;
                    lemma_evaluable_prefix(ready, ready.tasks, now);
                    assert(ready.tasks.contains(f));
                }
            }
        }
    }
}

/// Unless verdicts are refinable, they come in time order over a whole trace: in time order on
/// each step, and later than everything answered on the steps before. So no time is answered
/// twice.
pub proof fn verdicts_rise_over_a_trace<V: SignalValue, Y: AtomicSemantics<V>>(
    a: AtomicState<V>,
    b: AtomicState<V>,
    interval: TimeInterval,
    eager: bool,
    steps: Seq<Step<V>>,
    t0: Time,
    i: int,
    k: int,
)
    requires
        is_trace::<V, Y>(a, b, interval, steps, t0),
        0 <= i <= k < steps.len(),
    ensures
        in_order(given::<V, Y>(a, b, interval, eager, false, steps, i)),
        forall|m: int, n: int|
            i < k && 0 <= m < given::<V, Y>(a, b, interval, eager, false, steps, i).len() && 0 <= n
                < given::<V, Y>(a, b, interval, eager, false, steps, k).len() ==> (
            #[trigger] given::<V, Y>(a, b, interval, eager, false, steps, i)[m]).timestamp < (
            #[trigger] given::<V, Y>(a, b, interval, eager, false, steps, k)[n]).timestamp,
{
    let before = given::<V, Y>(a, b, interval, eager, false, steps, i);
    let after = given::<V, Y>(a, b, interval, eager, false, steps, k);
    lemma_given_in_order::<V, Y>(a, b, interval, eager, steps, t0, i);
    assert forall|m: int, n: int| i < k && 0 <= m < before.len() && 0 <= n < after.len() implies (
    #[trigger] before[m]).timestamp < (#[trigger] after[n]).timestamp by {
        lemma_answered_by::<V, Y>(a, b, interval, eager, steps, t0, i, m);
        lemma_finalized_grows::<V, Y>(a, b, interval, eager, false, steps, t0, i + 1, k);
        lemma_past_answers::<V, Y>(a, b, interval, eager, steps, t0, k, n);
    }
}

proof fn lemma_given_in_order<V: SignalValue, Y: AtomicSemantics<V>>(
    a: AtomicState<V>,
    b: AtomicState<V>,
    interval: TimeInterval,
    eager: bool,
    steps: Seq<Step<V>>,
    t0: Time,
    k: int,
)
    requires
        is_trace::<V, Y>(a, b, interval, steps, t0),
        0 <= k < steps.len(),
    ensures
        in_order(given::<V, Y>(a, b, interval, eager, false, steps, k)),
{
    lemma_steady::<V, Y>(a, b, interval, eager, false, steps, t0, k);
    lemma_given::<V, Y>(a, b, interval, eager, false, steps, t0, k);
    output_is_ordered(
        ready_for::<V, Y>(a, b, interval, eager, false, steps, k),
        steps[k].timestamp,
    );
}

/// What is answered on a step is answered for good after it.
proof fn lemma_answered_by<V: SignalValue, Y: AtomicSemantics<V>>(
    a: AtomicState<V>,
    b: AtomicState<V>,
    interval: TimeInterval,
    eager: bool,
    steps: Seq<Step<V>>,
    t0: Time,
    k: int,
    n: int,
)
    requires
        is_trace::<V, Y>(a, b, interval, steps, t0),
        0 <= k < steps.len(),
        0 <= n < given::<V, Y>(a, b, interval, eager, false, steps, k).len(),
    ensures
        ({
            let h = history(
                until_over::<V, Y>(a, b, interval, eager, false),
                steps.take(k + 1),
            );
            h.finalized_ts is Some && given::<V, Y>(
                a,
                b,
                interval,
                eager,
                false,
                steps,
                k,
            )[n].timestamp <= h.finalized_ts->0
        }),
{
    let state = until_over::<V, Y>(a, b, interval, eager, false);
    let ready = ready_for::<V, Y>(a, b, interval, eager, false, steps, k);
    let now = steps[k].timestamp;
    let t = given::<V, Y>(a, b, interval, eager, false, steps, k)[n].timestamp;
    lemma_source::<V, Y>(a, b, interval, eager, false, steps, t0, k, n);
    lemma_steady::<V, Y>(a, b, interval, eager, false, steps, t0, k);
    assert(steps.take(k + 1).drop_last() =~= steps.take(k));
    assert(steps.take(k + 1).last() == steps[k]);
    assert(history(state, steps.take(k + 1)).finalized_ts == ready.answered(now).finalized_ts);
    assert(is_answered_at(ready, now, t));
    lemma_remaining(ready, now, t);
}

/// What is answered on a step is later than what was answered for good before it.
proof fn lemma_past_answers<V: SignalValue, Y: AtomicSemantics<V>>(
    a: AtomicState<V>,
    b: AtomicState<V>,
    interval: TimeInterval,
    eager: bool,
    steps: Seq<Step<V>>,
    t0: Time,
    k: int,
    n: int,
)
    requires
        is_trace::<V, Y>(a, b, interval, steps, t0),
        0 <= k < steps.len(),
        0 <= n < given::<V, Y>(a, b, interval, eager, false, steps, k).len(),
    ensures
        is_past(
            history(until_over::<V, Y>(a, b, interval, eager, false), steps.take(k)).finalized_ts,
            given::<V, Y>(a, b, interval, eager, false, steps, k)[n].timestamp,
        ),
{
    lemma_source::<V, Y>(a, b, interval, eager, false, steps, t0, k, n);
    lemma_steady::<V, Y>(a, b, interval, eager, false, steps, t0, k);
}

/// What two operands hold up to the end of a window decides what until is worth over it.
proof fn lemma_same_until_value<Y: RobustnessSemantics>(
    phi: Seq<Step<Y>>,
    psi: Seq<Step<Y>>,
    phi2: Seq<Step<Y>>,
    psi2: Seq<Step<Y>>,
    t: Time,
    from: Time,
    to: Time,
    v: Y,
)
    requires
        is_until_value(phi, psi, t, from, to, v),
        forall|s: Time| t <= s <= to ==> #[trigger] value_at(phi, s) == value_at(phi2, s),
        forall|s: Time| from <= s <= to ==> #[trigger] value_at(psi, s) == value_at(psi2, s),
    ensures
        is_until_value(phi2, psi2, t, from, to, v),
{
    assert forall|u: Time, c: Y| from <= u <= to implies is_worth(phi, psi, t, u, c)
        == #[trigger] is_worth(phi2, psi2, t, u, c) by {
        assert(value_at(psi, u) == value_at(psi2, u));
        if is_worth(phi, psi, t, u, c) {
            assert forall|s: Time| t <= s <= u implies at_most(c, #[trigger] value_at(phi2, s)) by {
                assert(value_at(phi, s) == value_at(phi2, s));
            }
        }
        if is_worth(phi2, psi2, t, u, c) {
            assert forall|s: Time| t <= s <= u implies at_most(c, #[trigger] value_at(phi, s)) by {
                assert(value_at(phi, s) == value_at(phi2, s));
            }
        }
    }
    assert forall|w: Y| #[trigger]
        bounds_every_witness(phi2, psi2, t, from, to, w) implies bounds_every_witness(
        phi,
        psi,
        t,
        from,
        to,
        w,
    ) by {
        assert forall|u: Time, c: Y|
            from <= u <= to && #[trigger] is_worth(phi, psi, t, u, c) implies at_most(c, w) by {
            assert(is_worth(phi2, psi2, t, u, c));
        }
    }
}

/// What a predicate is known to hold does not change as more samples come.
pub proof fn lemma_held_stays<V: SignalValue, Y: AtomicSemantics<V>>(
    atom: AtomicState<V>,
    steps: Seq<Step<V>>,
    k: int,
    s: Time,
)
    requires
        rises_per_signal(steps),
        0 <= k <= steps.len(),
        verdicts_of::<V, Y>(atom, steps.take(k)).len() > 0,
        s <= verdicts_of::<V, Y>(atom, steps.take(k)).last().timestamp,
    ensures
        in_force(verdicts_of::<V, Y>(atom, steps), s) == in_force(
            verdicts_of::<V, Y>(atom, steps.take(k)),
            s,
        ),
{
    let part = verdicts_of::<V, Y>(atom, steps.take(k));
    let all = verdicts_of::<V, Y>(atom, steps);
    lemma_rises_before(steps, k);
    lemma_verdicts::<V, Y>(atom, steps);
    lemma_verdicts::<V, Y>(atom, steps.take(k));
    lemma_samples_prefix(steps, signal_of(atom), k);
    assert(part =~= all.take(part.len() as int));
    lemma_count_upto(part, s);
    let n = count_upto(part, s);
    assert(n > 0 ==> all[n - 1] == part[n - 1]);
    if n < part.len() {
        assert(all[n as int] == part[n as int]);
    } else if n < all.len() {
        assert(all[n - 1].timestamp < all[n as int].timestamp);
    }
    lemma_count_upto_unique(all, s, n);
}

/// Where a verdict of a trace comes from.
pub proof fn lemma_source<V: SignalValue, Y: AtomicSemantics<V>>(
    a: AtomicState<V>,
    b: AtomicState<V>,
    interval: TimeInterval,
    eager: bool,
    rosi: bool,
    steps: Seq<Step<V>>,
    t0: Time,
    k: int,
    n: int,
)
    requires
        is_trace::<V, Y>(a, b, interval, steps, t0),
        !eager || !rosi,
        0 <= k < steps.len(),
        0 <= n < given::<V, Y>(a, b, interval, eager, rosi, steps, k).len(),
    ensures
        ({
            let out = given::<V, Y>(a, b, interval, eager, rosi, steps, k)[n];
            let ready = ready_for::<V, Y>(a, b, interval, eager, rosi, steps, k);
            let w = ready.window(out.timestamp, steps[k].timestamp);
            &&& ready.left_cache.len() > 0
            &&& ready.right_cache.len() > 0
            &&& ready.tasks.contains(out.timestamp)
            &&& is_evaluated(ready, steps[k].timestamp, out.timestamp)
            &&& t0 <= out.timestamp <= MAX_TIME
            &&& w.covered() ==> w.end() <= steps[k].timestamp
            &&& !(w.outcome() is Wait)
            &&& out == ready.verdict(out.timestamp, steps[k].timestamp)
        }),
{
    let now = steps[k].timestamp;
    let out = given::<V, Y>(a, b, interval, eager, rosi, steps, k)[n];
    let ready = ready_for::<V, Y>(a, b, interval, eager, rosi, steps, k);
    lemma_steady::<V, Y>(a, b, interval, eager, rosi, steps, t0, k);
    lemma_given::<V, Y>(a, b, interval, eager, rosi, steps, t0, k);
    lemma_trace_before::<V, Y>(a, b, interval, steps, t0, k + 1);
    lemma_entries(ready, now, out.timestamp);
    lemma_evaluable_prefix(ready, ready.tasks, now);
    assert(ready.tasks[n] == out.timestamp);
    assert(ready.tasks.contains(out.timestamp));
    lemma_covered_window(ready, a, b, steps.take(k + 1), t0, out.timestamp, now);
}

/// In delayed mode every verdict of a trace is what until is worth there in dense time, over
/// everything both predicates hold from the first sample of the trace to the last: what comes
/// after a verdict takes nothing back.
pub proof fn delayed_verdicts_are_dense_over_a_trace<V: SignalValue, Y: AtomicSemantics<V>>(
    a: AtomicState<V>,
    b: AtomicState<V>,
    interval: TimeInterval,
    steps: Seq<Step<V>>,
    t0: Time,
    k: int,
    n: int,
)
    requires
        is_lattice::<Y>(),
        is_bounded::<Y>(),
        is_trace::<V, Y>(a, b, interval, steps, t0),
        0 <= k < steps.len(),
        0 <= n < given::<V, Y>(a, b, interval, false, false, steps, k).len(),
    ensures
        ({
            let out = given::<V, Y>(a, b, interval, false, false, steps, k)[n];
            is_until_value(
                verdicts_of::<V, Y>(a, steps),
                verdicts_of::<V, Y>(b, steps),
                out.timestamp,
                (out.timestamp + interval.start) as Time,
                (out.timestamp + interval.end) as Time,
                out.value,
            )
        }),
{
    let now = steps[k].timestamp;
    let seen = steps.take(k + 1);
    let out = given::<V, Y>(a, b, interval, false, false, steps, k)[n];
    let t = out.timestamp;
    let ready = ready_for::<V, Y>(a, b, interval, false, false, steps, k);
    lemma_source::<V, Y>(a, b, interval, false, false, steps, t0, k, n);
    lemma_steady::<V, Y>(a, b, interval, false, false, steps, t0, k);
    lemma_trace_before::<V, Y>(a, b, interval, steps, t0, k + 1);
    lemma_covered_window(ready, a, b, seen, t0, t, now);
    let w = ready.window(t, now);
    covered_window_has_the_dense_verdict(w);
    assert(out.value == w.outcome()->Final_0);
    let left = verdicts_of::<V, Y>(a, steps);
    let right = verdicts_of::<V, Y>(b, steps);
    assert forall|s: Time| t <= s <= w.end() implies #[trigger] value_at(w.left, s) == value_at(
        left,
        s,
    ) by {
        lemma_held_stays::<V, Y>(a, steps, k + 1, s);
    }
    assert forall|s: Time| w.start() <= s <= w.end() implies #[trigger] value_at(w.right, s)
        == value_at(right, s) by {
        lemma_held_stays::<V, Y>(b, steps, k + 1, s);
    }
    lemma_same_until_value(w.left, w.right, left, right, t, w.start(), w.end(), out.value);
}

/// Eager mode answers no later than delayed mode, and answers the same: a time that both modes
/// answer over a trace is answered in eager mode on the same step or an earlier one, with the
/// same verdict.
pub proof fn eager_until_agrees_with_delayed<V: SignalValue>(
    a: AtomicState<V>,
    b: AtomicState<V>,
    interval: TimeInterval,
    steps: Seq<Step<V>>,
    t0: Time,
    i: int,
    m: int,
    k: int,
    n: int,
)
    requires
        is_trace::<V, bool>(a, b, interval, steps, t0),
        0 <= i < steps.len(),
        0 <= m < given::<V, bool>(a, b, interval, true, false, steps, i).len(),
        0 <= k < steps.len(),
        0 <= n < given::<V, bool>(a, b, interval, false, false, steps, k).len(),
        given::<V, bool>(a, b, interval, true, false, steps, i)[m].timestamp == given::<V, bool>(
            a,
            b,
            interval,
            false,
            false,
            steps,
            k,
        )[n].timestamp,
    ensures
        i <= k,
        given::<V, bool>(a, b, interval, true, false, steps, i)[m].value == given::<V, bool>(
            a,
            b,
            interval,
            false,
            false,
            steps,
            k,
        )[n].value,
{
    let t = given::<V, bool>(a, b, interval, false, false, steps, k)[n].timestamp;
    lemma_emitted_is_due::<V, bool>(a, b, interval, steps, t0, k, n);
    lemma_source::<V, bool>(a, b, interval, true, false, steps, t0, i, m);
    lemma_source::<V, bool>(a, b, interval, false, false, steps, t0, k, n);
    if i > k {
        lemma_not_after_due::<V, bool>(a, b, interval, true, false, steps, t0, k + 1, i, t);
    }
    lemma_early_outcome(a, b, interval, steps, t0, i, k, t);
}

/// What delayed mode answers is due.
pub proof fn lemma_emitted_is_due<V: SignalValue, Y: AtomicSemantics<V>>(
    a: AtomicState<V>,
    b: AtomicState<V>,
    interval: TimeInterval,
    steps: Seq<Step<V>>,
    t0: Time,
    k: int,
    n: int,
)
    requires
        is_trace::<V, Y>(a, b, interval, steps, t0),
        0 <= k < steps.len(),
        0 <= n < given::<V, Y>(a, b, interval, false, false, steps, k).len(),
    ensures
        ({
            let t = given::<V, Y>(a, b, interval, false, false, steps, k)[n].timestamp;
            &&& is_due(steps.take(k + 1), signal_of(a), signal_of(b), interval, t0, t)
            &&& !is_due(steps.take(k), signal_of(a), signal_of(b), interval, t0, t)
        }),
{
    delayed_verdicts_come_when_due::<V, Y>(a, b, interval, steps, t0, k);
    let out = given::<V, Y>(a, b, interval, false, false, steps, k);
    assert(has_entry_at(out, out[n].timestamp));
    assert(is_due(
        steps.take(k + 1),
        signal_of(a),
        signal_of(b),
        interval,
        t0,
        out[n].timestamp,
    ));
}

/// An answer given early is the one that is due.
proof fn lemma_early_outcome<V: SignalValue>(
    a: AtomicState<V>,
    b: AtomicState<V>,
    interval: TimeInterval,
    steps: Seq<Step<V>>,
    t0: Time,
    i: int,
    k: int,
    t: Time,
)
    requires
        is_trace::<V, bool>(a, b, interval, steps, t0),
        0 <= i <= k < steps.len(),
        t0 <= t <= MAX_TIME,
        ({
            let first = ready_for::<V, bool>(a, b, interval, true, false, steps, i);
            let second = ready_for::<V, bool>(a, b, interval, false, false, steps, k);
            let w = first.window(t, steps[i].timestamp);
            let later = second.window(t, steps[k].timestamp);
            &&& first.left_cache.len() > 0 && first.right_cache.len() > 0
            &&& second.left_cache.len() > 0 && second.right_cache.len() > 0
            &&& w.covered() ==> w.end() <= steps[i].timestamp
            &&& later.covered() ==> later.end() <= steps[k].timestamp
            &&& !(w.outcome() is Wait)
            &&& !(later.outcome() is Wait)
        }),
    ensures
        ready_for::<V, bool>(a, b, interval, true, false, steps, i).verdict(
            t,
            steps[i].timestamp,
        ).value == ready_for::<V, bool>(a, b, interval, false, false, steps, k).verdict(
            t,
            steps[k].timestamp,
        ).value,
{
    let first = ready_for::<V, bool>(a, b, interval, true, false, steps, i);
    let second = ready_for::<V, bool>(a, b, interval, false, false, steps, k);
    let w = first.window(t, steps[i].timestamp);
    let later = second.window(t, steps[k].timestamp);
    lemma_steady::<V, bool>(a, b, interval, true, false, steps, t0, i);
    lemma_steady::<V, bool>(a, b, interval, false, false, steps, t0, k);
    lemma_trace_before::<V, bool>(a, b, interval, steps, t0, i + 1);
    lemma_trace_before::<V, bool>(a, b, interval, steps, t0, k + 1);
    lemma_covered_window(first, a, b, steps.take(i + 1), t0, t, steps[i].timestamp);
    lemma_covered_window(second, a, b, steps.take(k + 1), t0, t, steps[k].timestamp);
    assert(is_known_by(w, later)) by {
        assert(steps.take(k + 1).take(i + 1) =~= steps.take(i + 1));
        assert forall|s: Time| w.t <= s <= w.left_known implies #[trigger] in_force(w.left, s)
            == in_force(later.left, s) by {
            lemma_held_stays::<V, bool>(a, steps.take(k + 1), i + 1, s);
        }
        assert forall|s: Time| w.t <= s <= w.right_known implies #[trigger] in_force(w.right, s)
            == in_force(later.right, s) by {
            lemma_held_stays::<V, bool>(b, steps.take(k + 1), i + 1, s);
        }
    }
    early_verdict_stands(w, later);
}

} // verus!
