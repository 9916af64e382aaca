//! Until over two predicates, whose signals are held or run straight between their samples, over
//! whole traces: that the answers are true of the signals.

use crate::atomic_operators::AtomicState;
use crate::atomic_trace::{lemma_rises_before, rises_per_signal, samples, signal_of};
use crate::binary_operators::reached;
use crate::binary_stream_laws::{held_on, newest};
use crate::operator::{Event, Machine};
use crate::ring_buffer::{all_upto, count_upto, in_force, in_order, lemma_count_upto, Step};
use crate::ring_buffer::lemma_count_upto_unique;
use crate::straight_laws::{after, is_exact_at, is_read, is_routed_after, lemma_report};
use crate::straight_laws::{lemma_routed_first, lemma_routed_on, lemma_said_stays, said, true_at};
use crate::time::{Time, TimeInterval, FOREVER, MAX_TIME};
use crate::until_laws::{covered_window_is_true_iff_there_is_a_witness, early_verdict_stands};
use crate::until_laws::{holds_throughout, is_known_by, is_witness, lemma_best_some, value_at};
use crate::until_operator::{timestamps, UntilState};
use crate::until_stream_laws::{history, is_steady, is_steady_throughout, kept};
use crate::until_stream_laws::lemma_answered_tasks;
use crate::until_stream_laws::{lemma_evaluable_prefix, lemma_kept_wf, lemma_prepared, prepared};
use crate::until_stream_laws::pruning_changes_no_verdict;
use crate::until_trace::{lemma_evaluable_stops, reported_to, until_over};
use crate::until_trace_laws::{given, ready_for};
use crate::until_window::{entries_within, Outcome, WindowView};
use vstd::prelude::*;

verus! {

/// What is known of the operands of `h` after a trace.
spec fn knows(
    h: UntilState<i64, bool>,
    a: AtomicState<i64>,
    b: AtomicState<i64>,
    interval: TimeInterval,
    eager: bool,
    steps: Seq<Step<i64>>,
) -> bool {
    let left = said::<i64, bool>(a, steps);
    let right = said::<i64, bool>(b, steps);
    &&& is_routed_after(h.operands, a, b, steps)
    &&& h.left_cache == left
    &&& h.right_cache == right
    &&& h.t_max == (reported_to(left), reported_to(right))
    &&& h.interval == interval
    &&& interval.start <= interval.end <= MAX_TIME
    &&& h.eager == eager
    &&& !h.rosi
    &&& h.wf()
}

/// The first time that waits has to: its window is not covered, or phi has no value there.
spec fn rests(h: UntilState<i64, bool>) -> bool {
    h.tasks.len() > 0 && h.left_cache.len() > 0 && h.right_cache.len() > 0 ==> {
        ||| !is_covered_by(h, h.tasks[0])
        ||| in_force(h.left_cache, h.tasks[0]) is None
    }
}

/// Both operands have reported through the end of the window of `t`.
spec fn is_covered_by(h: UntilState<i64, bool>, t: Time) -> bool {
    t + h.interval.end <= h.t_max.0 && t + h.interval.end <= h.t_max.1
}

/// How far an operand has reported, after it has said more.
proof fn lemma_reported<Y>(cache: Seq<Step<Y>>, more: Seq<Step<Y>>)
    requires
        in_order(cache + more),
    ensures
        crate::until_operator::reported(reported_to(cache), more) == reported_to(cache + more),
{
    let all = cache + more;
    if more.len() == 0 {
        assert(all =~= cache);
    } else {
        assert(all.last() == more.last());
        if cache.len() > 0 {
            assert(all[cache.len() - 1] == cache.last());
            assert(all[all.len() - 1] == more.last());
        }
    }
}

/// What is known once the last step of a trace was taken in.
proof fn lemma_knows(
    h: UntilState<i64, bool>,
    a: AtomicState<i64>,
    b: AtomicState<i64>,
    interval: TimeInterval,
    eager: bool,
    steps: Seq<Step<i64>>,
)
    requires
        is_read(a),
        is_read(b),
        rises_per_signal(steps),
        steps.len() > 0,
        knows(h, a, b, interval, eager, steps.drop_last()),
    ensures
        is_steady(h, steps.last()),
        knows(prepared(h, steps.last()), a, b, interval, eager, steps),
{
    let last = steps.last();
    let left = h.operands.left_emits(Event::Sample(last));
    let right = h.operands.right_emits(Event::Sample(last));
    let l = said::<i64, bool>(a, steps);
    let r = said::<i64, bool>(b, steps);
    lemma_routed_on(h.operands, a, b, steps);
    lemma_report(a, steps);
    lemma_report(b, steps);
    assert forall|i: int| 0 <= i < left.len() implies (#[trigger] left[i]).timestamp
        <= MAX_TIME by {
        assert(left[i] == l[h.left_cache.len() + i]);
    }
    assert forall|i: int| 0 <= i < right.len() implies (#[trigger] right[i]).timestamp
        <= MAX_TIME by {
        assert(right[i] == r[h.right_cache.len() + i]);
    }
    lemma_prepared(h, last);
    lemma_reported(h.left_cache, left);
    lemma_reported(h.right_cache, right);
}

/// A sample of a signal that is not read leaves everything as it is.
proof fn lemma_unconcerned(
    h: UntilState<i64, bool>,
    a: AtomicState<i64>,
    b: AtomicState<i64>,
    interval: TimeInterval,
    eager: bool,
    steps: Seq<Step<i64>>,
)
    requires
        is_read(a),
        is_read(b),
        rises_per_signal(steps),
        steps.len() > 0,
        steps.last().signal@ != signal_of(a),
        steps.last().signal@ != signal_of(b),
        knows(h, a, b, interval, eager, steps.drop_last()),
    ensures
        prepared(h, steps.last()).tasks == h.tasks,
        prepared(h, steps.last()).left_cache == h.left_cache,
        prepared(h, steps.last()).right_cache == h.right_cache,
        prepared(h, steps.last()).t_max == h.t_max,
{
    let last = steps.last();
    let before = steps.drop_last();
    let left = h.operands.left_emits(Event::Sample(last));
    let right = h.operands.right_emits(Event::Sample(last));
    assert(before =~= steps.take(steps.len() - 1));
    lemma_rises_before(steps, steps.len() - 1);
    lemma_report(a, before);
    lemma_report(b, before);
    lemma_routed_on(h.operands, a, b, steps);
    lemma_knows(h, a, b, interval, eager, steps);
    assert(after(a, before).answers::<bool>(last).len() == 0);
    assert(after(b, before).answers::<bool>(last).len() == 0);
    assert(said::<i64, bool>(a, steps).len() == h.left_cache.len() + left.len());
    assert(said::<i64, bool>(b, steps).len() == h.right_cache.len() + right.len());
    assert(left.len() == 0 && right.len() == 0);
    lemma_prepared(h, last);
    assert(h.left_cache + left =~= h.left_cache);
    assert(h.right_cache + right =~= h.right_cache);
    assert((timestamps(right) + timestamps(left)).len() == 0);
}

/// A window that is covered when a signal that is read is sampled ends by then.
proof fn lemma_covered_by_now(
    ready: UntilState<i64, bool>,
    a: AtomicState<i64>,
    b: AtomicState<i64>,
    interval: TimeInterval,
    eager: bool,
    steps: Seq<Step<i64>>,
    t: Time,
)
    requires
        is_read(a),
        is_read(b),
        rises_per_signal(steps),
        steps.len() > 0,
        steps.last().signal@ == signal_of(a) || steps.last().signal@ == signal_of(b),
        knows(ready, a, b, interval, eager, steps),
        ready.left_cache.len() > 0,
        ready.right_cache.len() > 0,
        is_covered_by(ready, t),
    ensures
        t + interval.end <= steps.last().timestamp,
{
    lemma_report(a, steps);
    lemma_report(b, steps);
    if steps.last().signal@ == signal_of(a) {
        assert(samples(steps, signal_of(a)).last() == steps.last());
    } else {
        assert(samples(steps, signal_of(b)).last() == steps.last());
    }
}

/// A covered window over a phi that has a value is answered.
proof fn lemma_covered_is_final(
    ready: UntilState<i64, bool>,
    a: AtomicState<i64>,
    b: AtomicState<i64>,
    interval: TimeInterval,
    eager: bool,
    steps: Seq<Step<i64>>,
    now: Time,
    t: Time,
)
    requires
        knows(ready, a, b, interval, eager, steps),
        t <= MAX_TIME,
        is_covered_by(ready, t),
        in_force(ready.left_cache, t) is Some,
        t + interval.end <= now,
    ensures
        ready.window(t, now).outcome() is Final,
{
    let w = ready.window(t, now);
    assert(w.candidates().len() > 0);
    lemma_best_some(w, w.candidates());
}

/// Nothing rests that could be answered.
proof fn lemma_rests(
    h: UntilState<i64, bool>,
    a: AtomicState<i64>,
    b: AtomicState<i64>,
    interval: TimeInterval,
    eager: bool,
    steps: Seq<Step<i64>>,
)
    requires
        is_read(a),
        is_read(b),
        rises_per_signal(steps),
        steps.len() > 0,
        knows(h, a, b, interval, eager, steps.drop_last()),
        rests(h),
    ensures
        rests(kept(h, steps.last())),
{
    let last = steps.last();
    let now = last.timestamp;
    let ready = prepared(h, last);
    let next = kept(h, last);
    lemma_knows(h, a, b, interval, eager, steps);
    if ready.left_cache.len() > 0 && ready.right_cache.len() > 0 {
        let n = ready.evaluable(ready.tasks, now) as int;
        let done = ready.tasks.take(n);
        lemma_evaluable_prefix(ready, ready.tasks, now);
        lemma_evaluable_stops(ready, ready.tasks, now);
        assert forall|k: int| 0 <= k < done.len() implies !(ready.window(
            #[trigger] done[k],
            now,
        ).outcome() is Wait) by {
            assert(done[k] == ready.tasks[k]);
        }
        lemma_answered_tasks(ready, done, now);
        assert(next.tasks =~= ready.tasks.skip(n));
        if next.tasks.len() > 0 {
            let t = ready.tasks[n];
            assert(next.tasks[0] == t);
            if is_covered_by(ready, t) && in_force(ready.left_cache, t) is Some {
                if last.signal@ == signal_of(a) || last.signal@ == signal_of(b) {
                    lemma_covered_by_now(ready, a, b, interval, eager, steps, t);
                    lemma_covered_is_final(ready, a, b, interval, eager, steps, now, t);
                } else {
                    lemma_unconcerned(h, a, b, interval, eager, steps);
                    lemma_resting(h, t, n);
                    if n > 0 {
                        assert(!(ready.window(ready.tasks[0], now).outcome() is Wait));
                    }
                }
            }
        }
    }
}

/// If a later time that waits is covered, with a phi that has a value there, then so is the
/// first one.
proof fn lemma_resting(h: UntilState<i64, bool>, t: Time, n: int)
    requires
        h.wf(),
        0 <= n < h.tasks.len(),
        h.tasks[n] == t,
        is_covered_by(h, t),
    ensures
        is_covered_by(h, h.tasks[0]),
{
    assert(n > 0 ==> h.tasks[0] < h.tasks[n]);
}

/// What an until over two predicates comes to after a trace.
proof fn lemma_history(
    a: AtomicState<i64>,
    b: AtomicState<i64>,
    interval: TimeInterval,
    eager: bool,
    steps: Seq<Step<i64>>,
)
    requires
        is_read(a),
        is_read(b),
        interval.start <= interval.end <= MAX_TIME,
        rises_per_signal(steps),
    ensures
        ({
            let h = history(until_over::<i64, bool>(a, b, interval, eager, false), steps);
            knows(h, a, b, interval, eager, steps) && rests(h)
        }),
    decreases steps.len(),
{
    let state = until_over::<i64, bool>(a, b, interval, eager, false);
    if steps.len() == 0 {
        lemma_routed_first(a, b, steps);
    } else {
        let before = steps.drop_last();
        assert(before =~= steps.take(steps.len() - 1));
        lemma_rises_before(steps, steps.len() - 1);
        lemma_history(a, b, interval, eager, before);
        let h = history(state, before);
        lemma_knows(h, a, b, interval, eager, steps);
        lemma_kept_wf(h, steps.last());
        lemma_rests(h, a, b, interval, eager, steps);
    }
}

/// What is emitted is what is available to an until that forgets nothing.
proof fn lemma_given(
    a: AtomicState<i64>,
    b: AtomicState<i64>,
    interval: TimeInterval,
    eager: bool,
    steps: Seq<Step<i64>>,
    k: int,
)
    requires
        is_read(a),
        is_read(b),
        interval.start <= interval.end <= MAX_TIME,
        rises_per_signal(steps),
        0 <= k < steps.len(),
    ensures
        given::<i64, bool>(a, b, interval, eager, false, steps, k) == ready_for::<i64, bool>(
            a,
            b,
            interval,
            eager,
            false,
            steps,
            k,
        ).available(steps[k].timestamp),
{
    let state = until_over::<i64, bool>(a, b, interval, eager, false);
    assert(is_steady_throughout(state, steps)) by {
        assert forall|n: int| 0 <= n < steps.len() implies is_steady(
            history(state, #[trigger] steps.take(n)),
            steps[n],
        ) by {
            lemma_ready(a, b, interval, eager, steps, n);
        }
    }
    pruning_changes_no_verdict(state, steps, k);
}

/// What is known when a step is evaluated.
proof fn lemma_ready(
    a: AtomicState<i64>,
    b: AtomicState<i64>,
    interval: TimeInterval,
    eager: bool,
    steps: Seq<Step<i64>>,
    k: int,
)
    requires
        is_read(a),
        is_read(b),
        interval.start <= interval.end <= MAX_TIME,
        rises_per_signal(steps),
        0 <= k < steps.len(),
    ensures
        ({
            let h = history(until_over::<i64, bool>(a, b, interval, eager, false), steps.take(k));
            let ready = ready_for::<i64, bool>(a, b, interval, eager, false, steps, k);
            &&& is_steady(h, steps[k])
            &&& knows(h, a, b, interval, eager, steps.take(k))
            &&& rests(h)
            &&& knows(ready, a, b, interval, eager, steps.take(k + 1))
        }),
{
    let seen = steps.take(k + 1);
    assert(seen.drop_last() =~= steps.take(k));
    assert(seen.last() == steps[k]);
    lemma_rises_before(steps, k);
    lemma_rises_before(steps, k + 1);
    lemma_history(a, b, interval, eager, steps.take(k));
    lemma_knows(
        history(until_over::<i64, bool>(a, b, interval, eager, false), steps.take(k)),
        a,
        b,
        interval,
        eager,
        seen,
    );
}

/// Where an answer comes from.
proof fn lemma_source(
    a: AtomicState<i64>,
    b: AtomicState<i64>,
    interval: TimeInterval,
    eager: bool,
    steps: Seq<Step<i64>>,
    k: int,
    n: int,
)
    requires
        is_read(a),
        is_read(b),
        interval.start <= interval.end <= MAX_TIME,
        rises_per_signal(steps),
        0 <= k < steps.len(),
        0 <= n < given::<i64, bool>(a, b, interval, eager, false, steps, k).len(),
    ensures
        ({
            let out = given::<i64, bool>(a, b, interval, eager, false, steps, k)[n];
            let ready = ready_for::<i64, bool>(a, b, interval, eager, false, steps, k);
            let w = ready.window(out.timestamp, steps[k].timestamp);
            &&& ready.left_cache.len() > 0
            &&& ready.right_cache.len() > 0
            &&& out.timestamp <= MAX_TIME
            &&& w.wf()
            &&& w.covered() ==> w.end() <= w.now
            &&& w.outcome() == Outcome::Final(out.value)
        }),
{
    let now = steps[k].timestamp;
    let seen = steps.take(k + 1);
    let h = history(until_over::<i64, bool>(a, b, interval, eager, false), steps.take(k));
    let ready = ready_for::<i64, bool>(a, b, interval, eager, false, steps, k);
    let out = given::<i64, bool>(a, b, interval, eager, false, steps, k)[n];
    let t = out.timestamp;
    lemma_given(a, b, interval, eager, steps, k);
    lemma_ready(a, b, interval, eager, steps, k);
    lemma_evaluable_prefix(ready, ready.tasks, now);
    assert(ready.tasks[n] == t);
    assert(!(ready.window(ready.tasks[n], now).outcome() is Wait));
    assert(!(ready.window(ready.tasks[0], now).outcome() is Wait));
    assert(seen.drop_last() =~= steps.take(k));
    assert(seen.last() == steps[k]);
    lemma_rises_before(steps, k + 1);
    let w = ready.window(t, now);
    if w.covered() {
        assert(is_covered_by(ready, t));
        if steps[k].signal@ == signal_of(a) || steps[k].signal@ == signal_of(b) {
            lemma_covered_by_now(ready, a, b, interval, eager, seen, t);
        } else {
            lemma_unconcerned(h, a, b, interval, eager, seen);
            lemma_resting(h, t, n);
        }
    }
}

/// An operand that starts late, with false before its first verdict.
spec fn primed(s: Seq<Step<bool>>) -> Seq<Step<bool>> {
    if s.len() > 0 && s[0].timestamp > 0 {
        seq![Step::spec_new("output", false, 0)] + s
    } else {
        s
    }
}

proof fn lemma_primed(s: Seq<Step<bool>>, t: Time)
    requires
        in_order(s),
        held_on(s),
        s.len() > 0,
    ensures
        in_order(primed(s)),
        s[0].timestamp > 0 ==> count_upto(primed(s), t) == count_upto(s, t) + 1,
        t < FOREVER ==> in_force(primed(s), t) is Some,
        t < FOREVER && s[0].timestamp <= t ==> in_force(s, t) is Some && in_force(primed(s), t)
            == in_force(s, t),
        t < FOREVER && t < s[0].timestamp ==> in_force(s, t) is None && !in_force(
            primed(s),
            t,
        )->0.value,
{
    let p = primed(s);
    lemma_count_upto(s, t);
    let n = count_upto(s, t);
    if s[0].timestamp <= t {
        assert(n > 0);
        assert(s[n - 1].held_until == FOREVER);
    }
    if s[0].timestamp > 0 {
        assert forall|i: int| 0 < i < p.len() implies #[trigger] p[i] == s[i - 1] by {}
        assert forall|i: int, j: int| 0 <= i < j < p.len() implies p[i].timestamp
            < p[j].timestamp by {
            assert(p[j] == s[j - 1]);
            if i > 0 {
                assert(p[i] == s[i - 1]);
            } else {
                assert(j > 1 ==> s[0].timestamp < s[j - 1].timestamp);
            }
        }
        assert(n > 0 ==> p[n as int] == s[n - 1]);
        assert(n < s.len() ==> p[n as int + 1] == s[n as int]);
        lemma_count_upto_unique(p, t, n + 1);
    }
}

/// A window with psi primed.
spec fn with_primed(w: WindowView<bool>) -> WindowView<bool> {
    WindowView { right: primed(w.right), ..w }
}

proof fn lemma_best_primed(w: WindowView<bool>, times: Seq<Time>)
    requires
        w.wf(),
        !w.rosi,
        w.right.len() > 0,
        held_on(w.right),
        forall|i: int| 0 <= i < times.len() ==> #[trigger] times[i] < FOREVER,
    ensures
        with_primed(w).best(times) == w.best(times),
    decreases times.len(),
{
    if times.len() > 0 {
        let head = times.drop_last();
        let c = times.last();
        let v = with_primed(w);
        assert(c == times[times.len() - 1]);
        assert forall|i: int| 0 <= i < head.len() implies #[trigger] head[i] < FOREVER by {
            assert(head[i] == times[i]);
        }
        lemma_best_primed(w, head);
        lemma_primed(w.right, c);
        assert(v.psi(c) == w.psi(c));
        lemma_phi_primed(w, count_upto(w.left, c));
    }
}

proof fn lemma_phi_primed(w: WindowView<bool>, n: nat)
    ensures
        with_primed(w).phi_held() == w.phi_held(),
        with_primed(w).phi_inf(n) == w.phi_inf(n),
        with_primed(w).phi_died(n) == w.phi_died(n),
    decreases n,
{
    if n > count_upto(w.left, w.t) {
        lemma_phi_primed(w, (n - 1) as nat);
    }
}

/// A window comes to the same with psi primed, since there is no witness where psi has no value.
proof fn lemma_outcome_primed(w: WindowView<bool>)
    requires
        w.wf(),
        !w.rosi,
        w.right.len() > 0,
        held_on(w.right),
        w.end() < FOREVER,
    ensures
        with_primed(w).wf(),
        with_primed(w).outcome() == w.outcome(),
{
    let v = with_primed(w);
    let from = w.start();
    let to = w.effective_end();
    lemma_primed(w.right, from);
    lemma_primed(w.right, to);
    lemma_phi_primed(w, 0);
    lemma_count_upto(w.right, from);
    lemma_count_upto(w.right, to);
    if from <= to {
        assert(entries_within(v.right, from, to) =~= entries_within(w.right, from, to)) by {
            crate::ring_buffer::lemma_count_upto_monotone(w.right, from, to);
        }
        crate::until_laws::lemma_candidates_within(w);
    }
    assert(v.candidates() == w.candidates());
    lemma_best_primed(w, w.candidates());
}

/// The window of `t` over everything both predicates say over a trace, with psi primed.
spec fn whole_window(
    a: AtomicState<i64>,
    b: AtomicState<i64>,
    interval: TimeInterval,
    steps: Seq<Step<i64>>,
    t: Time,
) -> WindowView<bool> {
    let left = said::<i64, bool>(a, steps);
    let right = said::<i64, bool>(b, steps);
    WindowView {
        left,
        right: primed(right),
        left_known: reported_to(left),
        right_known: reported_to(right),
        left_settled: reported_to(left),
        right_settled: reported_to(right),
        t,
        interval,
        now: (t + interval.end) as Time,
        eager: false,
        rosi: false,
    }
}

/// Psi is true at `t_prime`, in `[from, to]`, and phi from `t` to there: of signals that are held
/// or run straight.
pub open spec fn is_true_witness(
    a: AtomicState<i64>,
    b: AtomicState<i64>,
    steps: Seq<Step<i64>>,
    t: Time,
    from: Time,
    to: Time,
    t_prime: Time,
) -> bool {
    &&& from <= t_prime <= to
    &&& true_at(b, steps, t_prime) == Some(true)
    &&& forall|s: Time| t <= s <= t_prime ==> #[trigger] true_at(a, steps, s) == Some(true)
}

/// There is a witness in the signals.
pub open spec fn has_true_witness(
    a: AtomicState<i64>,
    b: AtomicState<i64>,
    steps: Seq<Step<i64>>,
    t: Time,
    from: Time,
    to: Time,
) -> bool {
    exists|t_prime: Time| #[trigger] is_true_witness(a, b, steps, t, from, to, t_prime)
}

/// A predicate has reported through `t`.
pub open spec fn has_reported(atom: AtomicState<i64>, steps: Seq<Step<i64>>, t: Time) -> bool {
    reached(newest(said::<i64, bool>(atom, steps)), t)
}

/// A predicate over a straight signal is exact all the way from `from` to `to`.
pub open spec fn is_exact_throughout(
    atom: AtomicState<i64>,
    steps: Seq<Step<i64>>,
    from: Time,
    to: Time,
) -> bool {
    forall|s: Time| from <= s <= to ==> #[trigger] is_exact_at(atom, steps, s)
}

/// Over the whole trace a predicate holds a value from any time at which it does.
proof fn lemma_holds_on(atom: AtomicState<i64>, steps: Seq<Step<i64>>, t: Time, to: Time)
    requires
        is_read(atom),
        rises_per_signal(steps),
        in_force(said::<i64, bool>(atom, steps), t) is Some,
        to < FOREVER,
    ensures
        holds_throughout(said::<i64, bool>(atom, steps), t, to),
{
    let w = said::<i64, bool>(atom, steps);
    lemma_report(atom, steps);
    assert forall|s: Time| t <= s <= to implies #[trigger] in_force(w, s) is Some by {
        crate::ring_buffer::lemma_count_upto_monotone(w, t, s);
        lemma_count_upto(w, s);
        let n = count_upto(w, s);
        assert(w[n - 1].held_until == FOREVER);
    }
}

/// Over a window that both predicates have reported through, and where they are exact, there is
/// a witness among what they say exactly if there is one in the signals.
proof fn lemma_witnesses(
    a: AtomicState<i64>,
    b: AtomicState<i64>,
    interval: TimeInterval,
    steps: Seq<Step<i64>>,
    t: Time,
    t_prime: Time,
)
    requires
        is_read(a),
        is_read(b),
        interval.start <= interval.end <= MAX_TIME,
        rises_per_signal(steps),
        t <= MAX_TIME,
        in_force(said::<i64, bool>(a, steps), t) is Some,
        has_reported(a, steps, (t + interval.end) as Time),
        has_reported(b, steps, (t + interval.end) as Time),
        is_exact_throughout(a, steps, t, (t + interval.end) as Time),
        is_exact_throughout(b, steps, t, (t + interval.end) as Time),
    ensures
        ({
            let w = whole_window(a, b, interval, steps, t);
            is_witness(w.left, w.right, t, w.start(), w.end(), t_prime) == is_true_witness(
                a,
                b,
                steps,
                t,
                w.start(),
                w.end(),
                t_prime,
            )
        }),
{
    let w = whole_window(a, b, interval, steps, t);
    let right = said::<i64, bool>(b, steps);
    lemma_report(a, steps);
    lemma_report(b, steps);
    assert(w.left[w.left.len() - 1].timestamp <= MAX_TIME);
    lemma_holds_on(a, steps, t, w.end());
    assert forall|s: Time| t <= s <= w.end() implies true_at(a, steps, s) == Some(
        #[trigger] value_at(w.left, s),
    ) by {
        assert(in_force(w.left, s) is Some);
        assert(is_exact_at(a, steps, s));
    }
    if w.start() <= t_prime <= w.end() {
        lemma_primed(right, t_prime);
        assert(is_exact_at(b, steps, t_prime));
        if t_prime < right[0].timestamp {
            lemma_unknown_before(b, steps, t_prime);
        } else {
            assert(in_force(right, t_prime) is Some);
        }
        if is_witness(w.left, w.right, t, w.start(), w.end(), t_prime) {
            assert forall|s: Time| t <= s <= t_prime implies #[trigger] true_at(a, steps, s)
                == Some(true) by {
                assert(value_at(w.left, s));
            }
        }
        if is_true_witness(a, b, steps, t, w.start(), w.end(), t_prime) {
            assert forall|s: Time| t <= s <= t_prime implies #[trigger] value_at(w.left, s) by {
                assert(true_at(a, steps, s) == Some(true));
            }
        }
    }
}

/// Before the first sample nothing is known of a predicate.
proof fn lemma_unknown_before(atom: AtomicState<i64>, steps: Seq<Step<i64>>, s: Time)
    requires
        is_read(atom),
        rises_per_signal(steps),
        said::<i64, bool>(atom, steps).len() > 0,
        s < said::<i64, bool>(atom, steps)[0].timestamp,
    ensures
        true_at(atom, steps, s) is None,
{
    let r = samples(steps, signal_of(atom));
    lemma_report(atom, steps);
    crate::atomic_trace::lemma_samples(steps, signal_of(atom));
    lemma_count_upto(r, s);
    if count_upto(r, s) > 0 {
        assert(r[0].timestamp <= s);
    }
}

/// What was answered on a step is what the whole trace gives.
proof fn lemma_answer_stands(
    a: AtomicState<i64>,
    b: AtomicState<i64>,
    interval: TimeInterval,
    eager: bool,
    steps: Seq<Step<i64>>,
    k: int,
    n: int,
)
    requires
        is_read(a),
        is_read(b),
        interval.start <= interval.end <= MAX_TIME,
        rises_per_signal(steps),
        0 <= k < steps.len(),
        0 <= n < given::<i64, bool>(a, b, interval, eager, false, steps, k).len(),
        ({
            let t = given::<i64, bool>(a, b, interval, eager, false, steps, k)[n].timestamp;
            &&& has_reported(a, steps, (t + interval.end) as Time)
            &&& has_reported(b, steps, (t + interval.end) as Time)
        }),
    ensures
        ({
            let out = given::<i64, bool>(a, b, interval, eager, false, steps, k)[n];
            let w = whole_window(a, b, interval, steps, out.timestamp);
            &&& in_force(said::<i64, bool>(a, steps), out.timestamp) is Some
            &&& out.value == exists|t_prime: Time| #[trigger]
                is_witness(w.left, w.right, out.timestamp, w.start(), w.end(), t_prime)
        }),
{
    let out = given::<i64, bool>(a, b, interval, eager, false, steps, k)[n];
    let t = out.timestamp;
    let seen = steps.take(k + 1);
    let ready = ready_for::<i64, bool>(a, b, interval, eager, false, steps, k);
    let narrow = ready.window(t, steps[k].timestamp);
    let w = with_primed(narrow);
    let later = whole_window(a, b, interval, steps, t);
    lemma_source(a, b, interval, eager, steps, k, n);
    lemma_ready(a, b, interval, eager, steps, k);
    lemma_rises_before(steps, k + 1);
    lemma_report(a, seen);
    lemma_report(b, seen);
    lemma_report(a, steps);
    lemma_report(b, steps);
    assert(later.left[later.left.len() - 1].timestamp <= MAX_TIME);
    lemma_outcome_primed(narrow);
    assert(in_force(narrow.left, t) is Some);
    lemma_said_stays(a, steps, k + 1, t);
    lemma_holds_on(a, steps, t, later.end());
    assert(holds_throughout(later.right, later.start(), later.end())) by {
        assert forall|s: Time| later.start() <= s <= later.end() implies #[trigger] in_force(
            later.right,
            s,
        ) is Some by {
            lemma_primed(said::<i64, bool>(b, steps), s);
        }
    }
    lemma_primed(said::<i64, bool>(b, steps), t);
    assert(is_known_by(w, later)) by {
        assert forall|s: Time| w.t <= s <= w.left_known implies #[trigger] in_force(w.left, s)
            == in_force(later.left, s) by {
            lemma_said_stays(a, steps, k + 1, s);
        }
        assert forall|s: Time| w.t <= s <= w.right_known implies #[trigger] in_force(w.right, s)
            == in_force(later.right, s) by {
            lemma_primed_stays(b, steps, k + 1, s);
        }
    }
    assert(all_upto(w.left, w.left_known)) by {
        crate::until_trace::lemma_all_reported(w.left);
    }
    early_verdict_stands(w, later);
    covered_window_is_true_iff_there_is_a_witness(later);
}

/// What psi is known to hold, primed or not, does not change as more samples come.
proof fn lemma_primed_stays(atom: AtomicState<i64>, steps: Seq<Step<i64>>, k: int, s: Time)
    requires
        is_read(atom),
        rises_per_signal(steps),
        0 <= k <= steps.len(),
        reached(newest(said::<i64, bool>(atom, steps.take(k))), s),
    ensures
        in_force(primed(said::<i64, bool>(atom, steps.take(k))), s) == in_force(
            primed(said::<i64, bool>(atom, steps)),
            s,
        ),
{
    let part = said::<i64, bool>(atom, steps.take(k));
    let all = said::<i64, bool>(atom, steps);
    lemma_rises_before(steps, k);
    lemma_report(atom, steps.take(k));
    lemma_report(atom, steps);
    lemma_said_stays(atom, steps, k, s);
    let more = crate::straight_laws::lemma_said_before::<i64, bool>(atom, steps, k);
    assert(all[0] == part[0]);
    assert(part[part.len() - 1].timestamp <= MAX_TIME);
    lemma_primed(part, s);
    lemma_primed(all, s);
    if s < part[0].timestamp {
        lemma_count_upto(part, s);
        lemma_count_upto(all, s);
        assert(count_upto(part, s) == 0 && count_upto(all, s) == 0);
    }
}

/// Every answer of an until over two predicates is true of the signals: it is true exactly if
/// there is a witness in the window, a time at which psi is true, with phi true all the way
/// from the time answered to there, of signals that are held or run straight. In delayed mode
/// this holds of every answer, and in eager mode of every one whose window both predicates come
/// to report through; unless a crossing blurs a time that the window looks at. A time before
/// the first sample of psi is no witness.
pub proof fn until_answers_are_true_of_the_signals(
    a: AtomicState<i64>,
    b: AtomicState<i64>,
    interval: TimeInterval,
    eager: bool,
    steps: Seq<Step<i64>>,
    k: int,
    n: int,
)
    requires
        is_read(a),
        is_read(b),
        interval.start <= interval.end <= MAX_TIME,
        rises_per_signal(steps),
        0 <= k < steps.len(),
        0 <= n < given::<i64, bool>(a, b, interval, eager, false, steps, k).len(),
    ensures
        ({
            let out = given::<i64, bool>(a, b, interval, eager, false, steps, k)[n];
            let t = out.timestamp;
            let from = (t + interval.start) as Time;
            let to = (t + interval.end) as Time;
            &&& !eager ==> has_reported(a, steps, to) && has_reported(b, steps, to)
            &&& has_reported(a, steps, to) && has_reported(b, steps, to) && is_exact_throughout(
                a,
                steps,
                t,
                to,
            ) && is_exact_throughout(b, steps, t, to) ==> out.value == has_true_witness(
                a,
                b,
                steps,
                t,
                from,
                to,
            )
        }),
{
    let out = given::<i64, bool>(a, b, interval, eager, false, steps, k)[n];
    let t = out.timestamp;
    let to = (t + interval.end) as Time;
    let w = whole_window(a, b, interval, steps, t);
    lemma_source(a, b, interval, eager, steps, k, n);
    lemma_ready(a, b, interval, eager, steps, k);
    if !eager {
        lemma_said_stays(a, steps, k + 1, to);
        lemma_said_stays(b, steps, k + 1, to);
    }
    if has_reported(a, steps, to) && has_reported(b, steps, to) && is_exact_throughout(
        a,
        steps,
        t,
        to,
    ) && is_exact_throughout(b, steps, t, to) {
        lemma_answer_stands(a, b, interval, eager, steps, k, n);
        assert forall|t_prime: Time|
            is_witness(w.left, w.right, t, w.start(), w.end(), t_prime)
                == #[trigger] is_true_witness(a, b, steps, t, w.start(), w.end(), t_prime) by {
            lemma_witnesses(a, b, interval, steps, t, t_prime);
        }
        if out.value {
            let t_prime = choose|t_prime: Time| #[trigger]
                is_witness(w.left, w.right, t, w.start(), w.end(), t_prime);
            assert(is_true_witness(a, b, steps, t, w.start(), w.end(), t_prime));
            assert(has_true_witness(a, b, steps, t, w.start(), w.end()));
        }
        if has_true_witness(a, b, steps, t, w.start(), w.end()) {
            let t_prime = choose|t_prime: Time| #[trigger]
                is_true_witness(a, b, steps, t, w.start(), w.end(), t_prime);
            assert(is_witness(w.left, w.right, t, w.start(), w.end(), t_prime));
        }
        assert(out.value == has_true_witness(a, b, steps, t, w.start(), w.end()));
    }
}

} // verus!
