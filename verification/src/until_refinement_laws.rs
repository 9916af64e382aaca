//! Until with refinable verdicts over two predicates whose signals are held between their
//! samples: the intervals given over a whole trace, against the robustness values they close in
//! on.

use crate::atomic_operators::AtomicState;
use crate::atomic_trace::{is_held, lemma_rises_before, lemma_verdicts, rises_per_signal, samples};
use crate::atomic_trace::{signal_of, verdicts_of};
use crate::ring_buffer::{count_upto, in_force, in_order, lemma_count_upto, Step};
use crate::ring_buffer::lemma_count_upto_unique;
use crate::semantics::{at_most, robustness_is_lattice, Robustness, RobustnessInterval};
use crate::semantics::RobustnessSemantics;
use crate::time::{Time, TimeInterval, MAX_TIME};
use crate::until_interval_laws::{brackets, interval_brackets_the_dense_verdict, is_true_value};
use crate::until_interval_laws::{open_interval_only_narrows, truly_bounds, truly_worth};
use crate::until_laws::{bounds_every_witness, is_until_value, is_worth, value_at, witness};
use crate::until_laws::lemma_candidates_within;
use crate::until_trace::{is_answered_at, is_covered, is_trace, lemma_covered_window};
use crate::until_trace::{lemma_held_from, lemma_last_grows, lemma_samples_prefix};
use crate::until_trace::lemma_trace_before;
use crate::until_trace_laws::{delayed_verdicts_are_dense_over_a_trace, given};
use crate::until_trace_laws::{lemma_emitted_is_due, lemma_held_stays, lemma_source, lemma_steady};
use crate::until_trace_laws::{is_evaluated, lemma_answered_when_due, lemma_entries, lemma_given};
use crate::until_trace_laws::{lemma_not_after_due, lemma_stays, ready_for};
use crate::until_window::{lemma_candidates, WindowView};
use vstd::prelude::*;

verus! {

/// The interval that leaves only `v` possible.
pub open spec fn point(v: Robustness) -> RobustnessInterval {
    RobustnessInterval(v, v)
}

/// A predicate leaves only its robustness possible.
pub proof fn lemma_point_verdict(atom: AtomicState<i64>, value: i64)
    requires
        is_held(atom),
    ensures
        atom.comparison.verdict::<RobustnessInterval>(atom.context, value) == point(
            atom.comparison.verdict::<Robustness>(atom.context, value),
        ),
{
}

/// Intervals of predicates are final from the start.
pub proof fn lemma_interval_trace(
    a: AtomicState<i64>,
    b: AtomicState<i64>,
    interval: TimeInterval,
    steps: Seq<Step<i64>>,
    t0: Time,
)
    requires
        is_trace::<i64, Robustness>(a, b, interval, steps, t0),
    ensures
        is_trace::<i64, RobustnessInterval>(a, b, interval, steps, t0),
{
    assert forall|value: i64|
        RobustnessInterval::final_spec(
            #[trigger] a.comparison.verdict::<RobustnessInterval>(a.context, value),
        ) by {
        lemma_point_verdict(a, value);
    }
    assert forall|value: i64|
        RobustnessInterval::final_spec(
            #[trigger] b.comparison.verdict::<RobustnessInterval>(b.context, value),
        ) by {
        lemma_point_verdict(b, value);
    }
}

/// What a predicate holds at `s` over a whole trace, and what is known of it on the way.
proof fn lemma_known_value(
    atom: AtomicState<i64>,
    steps: Seq<Step<i64>>,
    t0: Time,
    k: int,
    s: Time,
)
    requires
        is_held(atom),
        rises_per_signal(steps),
        0 <= k <= steps.len(),
        verdicts_of::<i64, RobustnessInterval>(atom, steps.take(k)).len() > 0,
        verdicts_of::<i64, RobustnessInterval>(atom, steps.take(k))[0].timestamp <= s
            <= verdicts_of::<i64, RobustnessInterval>(atom, steps.take(k)).last().timestamp,
    ensures
        in_force(verdicts_of::<i64, RobustnessInterval>(atom, steps.take(k)), s) is Some,
        in_force(verdicts_of::<i64, RobustnessInterval>(atom, steps.take(k)), s)->0.value == point(
            value_at(verdicts_of::<i64, Robustness>(atom, steps), s),
        ),
{
    let part = verdicts_of::<i64, RobustnessInterval>(atom, steps.take(k));
    lemma_rises_before(steps, k);
    lemma_verdicts::<i64, RobustnessInterval>(atom, steps.take(k));
    lemma_verdicts::<i64, RobustnessInterval>(atom, steps);
    lemma_verdicts::<i64, Robustness>(atom, steps);
    assert(part[part.len() - 1].timestamp <= MAX_TIME);
    lemma_held_from(part, s);
    lemma_held_stays::<i64, RobustnessInterval>(atom, steps, k, s);
    let held = crate::atomic_trace::held_at(steps, signal_of(atom), s);
    assert(held is Some);
    lemma_point_verdict(atom, held->0);
    assert(in_force(verdicts_of::<i64, Robustness>(atom, steps), s) is Some);
}

/// What a predicate holds at every time of a whole trace.
pub open spec fn course(atom: AtomicState<i64>, steps: Seq<Step<i64>>) -> spec_fn(
    Time,
) -> Robustness {
    |s: Time| value_at(verdicts_of::<i64, Robustness>(atom, steps), s)
}

/// The order of robustness values.
proof fn lemma_le(a: Robustness, b: Robustness)
    ensures
        at_most(a, b) == a.le(b),
{
}

/// What until is worth in dense time, said of what the operands hold at every time.
proof fn lemma_true_value(
    a: AtomicState<i64>,
    b: AtomicState<i64>,
    steps: Seq<Step<i64>>,
    t: Time,
    from: Time,
    to: Time,
    v: Robustness,
)
    requires
        is_until_value(
            verdicts_of::<i64, Robustness>(a, steps),
            verdicts_of::<i64, Robustness>(b, steps),
            t,
            from,
            to,
            v,
        ),
    ensures
        is_true_value(course(a, steps), course(b, steps), t, from, to, v),
{
    let left = verdicts_of::<i64, Robustness>(a, steps);
    let right = verdicts_of::<i64, Robustness>(b, steps);
    let phi = course(a, steps);
    let psi = course(b, steps);
    assert forall|u: Time, c: Robustness| #[trigger]
        truly_worth(phi, psi, t, u, c) == is_worth(left, right, t, u, c) by {
        lemma_le(c, psi(u));
        if truly_worth(phi, psi, t, u, c) {
            assert forall|s: Time| t <= s <= u implies at_most(
                c,
                #[trigger] value_at(left, s),
            ) by {
                lemma_le(c, phi(s));
            }
        }
        if is_worth(left, right, t, u, c) {
            assert forall|s: Time| t <= s <= u implies c.le(#[trigger] phi(s)) by {
                lemma_le(c, value_at(left, s));
            }
        }
    }
    assert forall|w: Robustness| #[trigger]
        truly_bounds(phi, psi, t, from, to, w) == bounds_every_witness(
            left,
            right,
            t,
            from,
            to,
            w,
        ) by {
        if truly_bounds(phi, psi, t, from, to, w) {
            assert forall|u: Time, c: Robustness|
                from <= u <= to && #[trigger] is_worth(left, right, t, u, c) implies at_most(
                c,
                w,
            ) by {
                assert(truly_worth(phi, psi, t, u, c));
                lemma_le(c, w);
            }
        }
        if bounds_every_witness(left, right, t, from, to, w) {
            assert forall|u: Time, c: Robustness|
                from <= u <= to && #[trigger] truly_worth(phi, psi, t, u, c) implies c.le(w) by {
                assert(is_worth(left, right, t, u, c));
                lemma_le(c, w);
            }
        }
    }
    assert(truly_bounds(phi, psi, t, from, to, v));
    assert forall|u: Robustness| #[trigger] truly_bounds(phi, psi, t, from, to, u) implies v.le(
        u,
    ) by {
        assert(bounds_every_witness(left, right, t, from, to, u));
        lemma_le(v, u);
    }
}

/// What is known of the operands on a step brackets what they hold.
proof fn lemma_brackets(
    a: AtomicState<i64>,
    b: AtomicState<i64>,
    interval: TimeInterval,
    steps: Seq<Step<i64>>,
    t0: Time,
    i: int,
    t: Time,
)
    requires
        is_trace::<i64, Robustness>(a, b, interval, steps, t0),
        0 <= i < steps.len(),
        t0 <= t <= MAX_TIME,
        ({
            let ready = ready_for::<i64, RobustnessInterval>(a, b, interval, false, true, steps, i);
            ready.left_cache.len() > 0 && ready.right_cache.len() > 0
        }),
    ensures
        brackets(
            ready_for::<i64, RobustnessInterval>(a, b, interval, false, true, steps, i).window(
                t,
                steps[i].timestamp,
            ),
            course(a, steps),
            course(b, steps),
        ),
{
    let ready = ready_for::<i64, RobustnessInterval>(a, b, interval, false, true, steps, i);
    let now = steps[i].timestamp;
    let seen = steps.take(i + 1);
    let w = ready.window(t, now);
    lemma_interval_trace(a, b, interval, steps, t0);
    lemma_steady::<i64, RobustnessInterval>(a, b, interval, false, true, steps, t0, i);
    lemma_trace_before::<i64, RobustnessInterval>(a, b, interval, steps, t0, i + 1);
    lemma_covered_window(ready, a, b, seen, t0, t, now);
    assert(w.left[0].timestamp == t0) by {
        assert(samples(seen, signal_of(a))[0].timestamp == t0);
    }
    assert(w.right[0].timestamp == t0) by {
        assert(samples(seen, signal_of(b))[0].timestamp == t0);
    }
    assert forall|s: Time| w.t <= s <= w.left_settled implies {
        &&& #[trigger] in_force(w.left, s) is Some
        &&& in_force(w.left, s)->0.value.contains(course(a, steps)(s))
    } by {
        lemma_known_value(a, steps, t0, i + 1, s);
    }
    assert forall|s: Time|
        #![trigger in_force(w.right, s)]
        w.start() <= s <= w.right_settled implies {
        &&& in_force(w.right, s) is Some
        &&& in_force(w.right, s)->0.value.contains(course(b, steps)(s))
    } by {
        lemma_known_value(b, steps, t0, i + 1, s);
    }
}

/// Every verdict known is a point.
spec fn are_points(s: Seq<Step<RobustnessInterval>>) -> bool {
    forall|i: int| 0 <= i < s.len() ==> RobustnessInterval::final_spec((#[trigger] s[i]).value)
}

/// The infimum of points is a point.
proof fn lemma_phi_point(w: WindowView<RobustnessInterval>, n: nat)
    requires
        w.wf(),
        are_points(w.left),
        w.phi_held() is Some,
        w.t <= w.left_settled,
        n <= w.left.len(),
    ensures
        RobustnessInterval::final_spec(w.phi_inf(n)),
    decreases n,
{
    lemma_count_upto(w.left, w.t);
    if n > count_upto(w.left, w.t) {
        lemma_phi_point(w, (n - 1) as nat);
    }
}

/// The best of witnesses that are points is a point.
proof fn lemma_best_point(w: WindowView<RobustnessInterval>, times: Seq<Time>)
    requires
        w.wf(),
        !w.eager,
        are_points(w.left),
        are_points(w.right),
        w.phi_held() is Some,
        w.right_settled == w.right_known,
        w.t <= w.left_settled,
        forall|i: int|
            0 <= i < times.len() ==> #[trigger] times[i] <= w.left_settled && times[i]
                <= w.right_settled && in_force(w.right, times[i]) is Some,
    ensures
        w.best(times).0 matches Some(v) ==> RobustnessInterval::final_spec(v),
    decreases times.len(),
{
    if times.len() > 0 {
        let head = times.drop_last();
        let c = times.last();
        assert(c == times[times.len() - 1]);
        assert forall|i: int| 0 <= i < head.len() implies #[trigger] head[i] <= w.left_settled
            && head[i] <= w.right_settled && in_force(w.right, head[i]) is Some by {
            assert(head[i] == times[i]);
        }
        lemma_best_point(w, head);
        lemma_count_upto(w.left, c);
        lemma_count_upto(w.right, c);
        lemma_phi_point(w, count_upto(w.left, c));
        assert(RobustnessInterval::final_spec(w.psi(c)));
        assert(RobustnessInterval::final_spec(w.phi(c)));
    }
}

/// Over a covered window only one value is left possible.
proof fn lemma_final_point(w: WindowView<RobustnessInterval>)
    requires
        w.wf(),
        !w.eager,
        are_points(w.left),
        are_points(w.right),
        w.right_settled == w.right_known,
        w.covered(),
        crate::until_laws::holds_throughout(w.right, w.start(), w.end()),
        w.outcome() is Final,
    ensures
        RobustnessInterval::final_spec(w.outcome()->Final_0),
{
    lemma_candidates(w);
    if w.candidates().len() > 0 {
        lemma_candidates_within(w);
        lemma_best_point(w, w.candidates());
    }
}

/// Every verdict of a predicate is a point.
proof fn lemma_points(atom: AtomicState<i64>, steps: Seq<Step<i64>>)
    requires
        is_held(atom),
    ensures
        are_points(verdicts_of::<i64, RobustnessInterval>(atom, steps)),
{
    let s = verdicts_of::<i64, RobustnessInterval>(atom, steps);
    assert forall|i: int| 0 <= i < s.len() implies RobustnessInterval::final_spec(
        (#[trigger] s[i]).value,
    ) by {
        lemma_point_verdict(atom, samples(steps, signal_of(atom))[i].value);
    }
}

/// What is given for a window contains what until is worth there over the whole trace, and is
/// just that once the window is covered.
proof fn lemma_given_contains(
    a: AtomicState<i64>,
    b: AtomicState<i64>,
    interval: TimeInterval,
    steps: Seq<Step<i64>>,
    t0: Time,
    i: int,
    m: int,
    v: Robustness,
)
    requires
        is_trace::<i64, Robustness>(a, b, interval, steps, t0),
        0 <= i < steps.len(),
        0 <= m < given::<i64, RobustnessInterval>(a, b, interval, false, true, steps, i).len(),
        ({
            let t = given::<i64, RobustnessInterval>(
                a,
                b,
                interval,
                false,
                true,
                steps,
                i,
            )[m].timestamp;
            is_until_value(
                verdicts_of::<i64, Robustness>(a, steps),
                verdicts_of::<i64, Robustness>(b, steps),
                t,
                (t + interval.start) as Time,
                (t + interval.end) as Time,
                v,
            )
        }),
    ensures
        ({
            let out = given::<i64, RobustnessInterval>(
                a,
                b,
                interval,
                false,
                true,
                steps,
                i,
            )[m];
            &&& out.value.contains(v)
            &&& is_covered(
                steps.take(i + 1),
                signal_of(a),
                signal_of(b),
                crate::until_trace::window_end(interval, out.timestamp),
            ) ==> out.value == point(v)
        }),
{
    let out = given::<i64, RobustnessInterval>(a, b, interval, false, true, steps, i)[m];
    let t = out.timestamp;
    let ready = ready_for::<i64, RobustnessInterval>(a, b, interval, false, true, steps, i);
    let now = steps[i].timestamp;
    let seen = steps.take(i + 1);
    let w = ready.window(t, now);
    lemma_interval_trace(a, b, interval, steps, t0);
    lemma_source::<i64, RobustnessInterval>(a, b, interval, false, true, steps, t0, i, m);
    lemma_steady::<i64, RobustnessInterval>(a, b, interval, false, true, steps, t0, i);
    lemma_trace_before::<i64, RobustnessInterval>(a, b, interval, steps, t0, i + 1);
    lemma_covered_window(ready, a, b, seen, t0, t, now);
    lemma_brackets(a, b, interval, steps, t0, i, t);
    lemma_true_value(a, b, steps, t, w.start(), w.end(), v);
    interval_brackets_the_dense_verdict(w, course(a, steps), course(b, steps), v);
    if w.covered() {
        lemma_points(a, seen);
        lemma_points(b, seen);
        lemma_final_point(w);
    }
}

/// Every interval given for a time contains the robustness value that delayed mode answers with
/// there, and none is given after that answer. The one given together with it, if any, leaves
/// nothing else possible.
pub proof fn intervals_contain_the_verdict(
    a: AtomicState<i64>,
    b: AtomicState<i64>,
    interval: TimeInterval,
    steps: Seq<Step<i64>>,
    t0: Time,
    i: int,
    m: int,
    k: int,
    n: int,
)
    requires
        is_trace::<i64, Robustness>(a, b, interval, steps, t0),
        0 <= i < steps.len(),
        0 <= m < given::<i64, RobustnessInterval>(a, b, interval, false, true, steps, i).len(),
        0 <= k < steps.len(),
        0 <= n < given::<i64, Robustness>(a, b, interval, false, false, steps, k).len(),
        given::<i64, RobustnessInterval>(a, b, interval, false, true, steps, i)[m].timestamp
            == given::<i64, Robustness>(a, b, interval, false, false, steps, k)[n].timestamp,
    ensures
        i <= k,
        ({
            let refined = given::<i64, RobustnessInterval>(
                a,
                b,
                interval,
                false,
                true,
                steps,
                i,
            )[m].value;
            let v = given::<i64, Robustness>(a, b, interval, false, false, steps, k)[n].value;
            &&& refined.contains(v)
            &&& i == k ==> refined == point(v)
        }),
{
    let out = given::<i64, Robustness>(a, b, interval, false, false, steps, k)[n];
    let t = out.timestamp;
    robustness_is_lattice();
    lemma_interval_trace(a, b, interval, steps, t0);
    lemma_emitted_is_due::<i64, Robustness>(a, b, interval, steps, t0, k, n);
    delayed_verdicts_are_dense_over_a_trace::<i64, Robustness>(a, b, interval, steps, t0, k, n);
    lemma_source::<i64, RobustnessInterval>(a, b, interval, false, true, steps, t0, i, m);
    if i > k {
        lemma_not_after_due::<i64, RobustnessInterval>(
            a,
            b,
            interval,
            false,
            true,
            steps,
            t0,
            k + 1,
            i,
            t,
        );
    }
    lemma_given_contains(a, b, interval, steps, t0, i, m, out.value);
}

/// When delayed mode answers with a robustness value, the interval of that value alone is given
/// on the same step. Since none is given later, it is the newest one at the end of the trace.
pub proof fn refinement_ends_at_the_verdict(
    a: AtomicState<i64>,
    b: AtomicState<i64>,
    interval: TimeInterval,
    steps: Seq<Step<i64>>,
    t0: Time,
    k: int,
    n: int,
)
    requires
        is_trace::<i64, Robustness>(a, b, interval, steps, t0),
        0 <= k < steps.len(),
        0 <= n < given::<i64, Robustness>(a, b, interval, false, false, steps, k).len(),
    ensures
        ({
            let out = given::<i64, Robustness>(a, b, interval, false, false, steps, k)[n];
            let refined = given::<i64, RobustnessInterval>(
                a,
                b,
                interval,
                false,
                true,
                steps,
                k,
            );
            exists|m: int|
                0 <= m < refined.len() && (#[trigger] refined[m]).timestamp == out.timestamp
                    && refined[m].value == point(out.value)
        }),
{
    let t = given::<i64, Robustness>(a, b, interval, false, false, steps, k)[n].timestamp;
    let refined = given::<i64, RobustnessInterval>(a, b, interval, false, true, steps, k);
    let ready = ready_for::<i64, RobustnessInterval>(a, b, interval, false, true, steps, k);
    lemma_interval_trace(a, b, interval, steps, t0);
    lemma_emitted_is_due::<i64, Robustness>(a, b, interval, steps, t0, k, n);
    lemma_answered_when_due::<i64, RobustnessInterval>(a, b, interval, true, steps, t0, k, t);
    lemma_given::<i64, RobustnessInterval>(a, b, interval, false, true, steps, t0, k);
    lemma_entries(ready, steps[k].timestamp, t);
    assert(is_evaluated(ready, steps[k].timestamp, t));
    let m = choose|m: int| 0 <= m < refined.len() && (#[trigger] refined[m]).timestamp == t;
    intervals_contain_the_verdict(a, b, interval, steps, t0, k, m, k, n);
}

/// No sample of a third signal is behind what both signals have been sampled to.
pub open spec fn keeps_up<V>(steps: Seq<Step<V>>, x: Seq<char>, y: Seq<char>) -> bool {
    forall|k: int, t: Time|
        0 <= k < steps.len() && steps[k].signal@ != x && steps[k].signal@ != y
            && #[trigger] is_covered(steps.take(k + 1), x, y, t) ==> t <= steps[k].timestamp
}

/// What both signals have been sampled to is looked at on every step.
proof fn lemma_keeps_up<V>(steps: Seq<Step<V>>, x: Seq<char>, y: Seq<char>, k: int, t: Time)
    requires
        rises_per_signal(steps),
        keeps_up(steps, x, y),
        0 <= k < steps.len(),
        is_covered(steps.take(k + 1), x, y, t),
    ensures
        t <= steps[k].timestamp,
{
    let seen = steps.take(k + 1);
    assert(seen.last() == steps[k]);
    lemma_rises_before(steps, k + 1);
    lemma_last_grows(seen, x);
    lemma_last_grows(seen, y);
}

/// The infimum of phi does not change as more is reported.
proof fn lemma_phi_stays(
    w: WindowView<RobustnessInterval>,
    later: WindowView<RobustnessInterval>,
    n: nat,
)
    requires
        w.t == later.t,
        w.phi_held() == later.phi_held(),
        count_upto(w.left, w.t) == count_upto(later.left, later.t),
        n <= w.left.len() <= later.left.len(),
        forall|i: int| 0 <= i < w.left.len() ==> #[trigger] w.left[i] == later.left[i],
    ensures
        w.phi_inf(n) == later.phi_inf(n),
    decreases n,
{
    if n > count_upto(w.left, w.t) {
        lemma_phi_stays(w, later, (n - 1) as nat);
    }
}

/// How many verdicts lie at or before a time they are reported to does not change.
proof fn lemma_count_stays(
    part: Seq<Step<RobustnessInterval>>,
    all: Seq<Step<RobustnessInterval>>,
    s: Time,
)
    requires
        in_order(all),
        0 < part.len() <= all.len(),
        part == all.take(part.len() as int),
        s <= part.last().timestamp,
    ensures
        count_upto(part, s) == count_upto(all, s),
        in_force(part, s) == in_force(all, s),
{
    assert(in_order(part));
    lemma_count_upto(part, s);
    let n = count_upto(part, s);
    assert(n > 0 ==> all[n - 1] == part[n - 1]);
    if n < part.len() {
        assert(all[n as int] == part[n as int]);
    } else if n < all.len() {
        assert(all[n - 1].timestamp < all[n as int].timestamp);
    }
    lemma_count_upto_unique(all, s, n);
}

/// What is read of the operands only gets better known from below.
proof fn lemma_read_stays(
    w: WindowView<RobustnessInterval>,
    later: WindowView<RobustnessInterval>,
    s: Time,
)
    requires
        w.wf(),
        later.wf(),
        w.rosi,
        later.rosi,
        w.t == later.t,
        w.t <= s,
        0 < w.left.len() <= later.left.len(),
        0 < w.right.len() <= later.right.len(),
        w.left == later.left.take(w.left.len() as int),
        w.right == later.right.take(w.right.len() as int),
        w.left_known == w.left.last().timestamp,
        w.right_known == w.right.last().timestamp,
        w.left_settled == w.left_known <= later.left_known,
        w.right_settled == w.right_known <= later.right_known,
        later.left_settled == later.left_known,
        later.right_settled == later.right_known,
        w.phi_held() is Some,
    ensures
        w.psi(s).0.le(later.psi(s).0),
        w.phi(s).0.le(later.phi(s).0),
{
    if s <= w.right_known {
        lemma_count_stays(w.right, later.right, s);
    }
    if s <= w.left_known {
        lemma_count_stays(w.left, later.left, s);
        lemma_count_stays(w.left, later.left, w.t);
        lemma_count_upto(w.left, s);
        lemma_phi_stays(w, later, count_upto(w.left, s));
    }
}

/// The verdicts known on a step are the first ones of those known later.
proof fn lemma_known_prefix(atom: AtomicState<i64>, steps: Seq<Step<i64>>, i: int, k: int)
    requires
        rises_per_signal(steps),
        0 <= i <= k <= steps.len(),
    ensures
        ({
            let part = verdicts_of::<i64, RobustnessInterval>(atom, steps.take(i));
            let all = verdicts_of::<i64, RobustnessInterval>(atom, steps.take(k));
            &&& part.len() <= all.len()
            &&& part == all.take(part.len() as int)
            &&& part.len() > 0 ==> part.last().timestamp <= all.last().timestamp
        }),
{
    let part = verdicts_of::<i64, RobustnessInterval>(atom, steps.take(i));
    let all = verdicts_of::<i64, RobustnessInterval>(atom, steps.take(k));
    assert(steps.take(k).take(i) =~= steps.take(i));
    lemma_rises_before(steps, k);
    lemma_verdicts::<i64, RobustnessInterval>(atom, steps.take(k));
    lemma_samples_prefix(steps.take(k), signal_of(atom), i);
    assert(part =~= all.take(part.len() as int));
    if part.len() > 0 {
        assert(part.last() == all[part.len() - 1]);
        assert(part.len() < all.len() ==> all[part.len() - 1].timestamp
            < all[all.len() - 1].timestamp);
    }
}

/// What is evaluated on a step is evaluated on better knowledge later.
proof fn lemma_windows_refine(
    a: AtomicState<i64>,
    b: AtomicState<i64>,
    interval: TimeInterval,
    steps: Seq<Step<i64>>,
    t0: Time,
    i: int,
    k: int,
    t: Time,
)
    requires
        is_trace::<i64, RobustnessInterval>(a, b, interval, steps, t0),
        keeps_up(steps, signal_of(a), signal_of(b)),
        0 <= i <= k < steps.len(),
        t0 <= t <= MAX_TIME,
        ({
            let first = ready_for::<i64, RobustnessInterval>(a, b, interval, false, true, steps, i);
            &&& first.left_cache.len() > 0
            &&& first.right_cache.len() > 0
            &&& first.window(t, steps[i].timestamp).phi_held() is Some
        }),
    ensures
        ({
            let first = ready_for::<i64, RobustnessInterval>(a, b, interval, false, true, steps, i);
            let second = ready_for::<i64, RobustnessInterval>(a, b, interval, false, true, steps, k);
            let w = first.window(t, steps[i].timestamp);
            let later = second.window(t, steps[k].timestamp);
            &&& w.wf()
            &&& later.wf()
            &&& forall|s: Time|
                w.start() <= s <= w.effective_end() ==> {
                    &&& (#[trigger] w.psi(s)).0.le(later.psi(s).0)
                    &&& w.phi(s).0.le(later.phi(s).0)
                    &&& s <= later.now || witness(w, s).0 == Robustness::NegInfinity
                }
        }),
{
    let x = signal_of(a);
    let y = signal_of(b);
    let first = ready_for::<i64, RobustnessInterval>(a, b, interval, false, true, steps, i);
    let second = ready_for::<i64, RobustnessInterval>(a, b, interval, false, true, steps, k);
    let w = first.window(t, steps[i].timestamp);
    let later = second.window(t, steps[k].timestamp);
    lemma_steady::<i64, RobustnessInterval>(a, b, interval, false, true, steps, t0, i);
    lemma_steady::<i64, RobustnessInterval>(a, b, interval, false, true, steps, t0, k);
    lemma_trace_before::<i64, RobustnessInterval>(a, b, interval, steps, t0, i + 1);
    lemma_trace_before::<i64, RobustnessInterval>(a, b, interval, steps, t0, k + 1);
    lemma_known_prefix(a, steps, i + 1, k + 1);
    lemma_known_prefix(b, steps, i + 1, k + 1);
    lemma_covered_window(first, a, b, steps.take(i + 1), t0, t, steps[i].timestamp);
    lemma_covered_window(second, a, b, steps.take(k + 1), t0, t, steps[k].timestamp);
    lemma_verdicts::<i64, RobustnessInterval>(a, steps.take(i + 1));
    lemma_verdicts::<i64, RobustnessInterval>(b, steps.take(i + 1));
    assert forall|s: Time| w.start() <= s <= w.effective_end() implies {
        &&& (#[trigger] w.psi(s)).0.le(later.psi(s).0)
        &&& w.phi(s).0.le(later.phi(s).0)
        &&& s <= later.now || witness(w, s).0 == Robustness::NegInfinity
    } by {
        lemma_read_stays(w, later, s);
        if witness(w, s).0 != Robustness::NegInfinity {
            assert(s <= w.left_settled);
            assert(s <= w.right_known);
            assert(is_covered(steps.take(i + 1), x, y, s));
            lemma_stays(steps, x, y, interval, s, i + 1, k + 1);
            lemma_keeps_up(steps, x, y, k, s);
        }
    }
}

/// Successive intervals given for one time only narrow: each lies within those given for the
/// time before, as long as no sample of a third signal comes that is behind what both signals
/// have been sampled to.
#[verifier::spinoff_prover]
#[verifier::rlimit(60)]
pub proof fn intervals_only_narrow(
    a: AtomicState<i64>,
    b: AtomicState<i64>,
    interval: TimeInterval,
    steps: Seq<Step<i64>>,
    t0: Time,
    i: int,
    m: int,
    k: int,
    n: int,
)
    requires
        is_trace::<i64, RobustnessInterval>(a, b, interval, steps, t0),
        keeps_up(steps, signal_of(a), signal_of(b)),
        0 <= i < k < steps.len(),
        0 <= m < given::<i64, RobustnessInterval>(a, b, interval, false, true, steps, i).len(),
        0 <= n < given::<i64, RobustnessInterval>(a, b, interval, false, true, steps, k).len(),
        given::<i64, RobustnessInterval>(a, b, interval, false, true, steps, i)[m].timestamp
            == given::<i64, RobustnessInterval>(a, b, interval, false, true, steps, k)[n].timestamp,
    ensures
        given::<i64, RobustnessInterval>(a, b, interval, false, true, steps, k)[n].value.within(
            given::<i64, RobustnessInterval>(a, b, interval, false, true, steps, i)[m].value,
        ),
{
    let t = given::<i64, RobustnessInterval>(a, b, interval, false, true, steps, i)[m].timestamp;
    let first = ready_for::<i64, RobustnessInterval>(a, b, interval, false, true, steps, i);
    let second = ready_for::<i64, RobustnessInterval>(a, b, interval, false, true, steps, k);
    let w = first.window(t, steps[i].timestamp);
    let later = second.window(t, steps[k].timestamp);
    lemma_source::<i64, RobustnessInterval>(a, b, interval, false, true, steps, t0, i, m);
    lemma_source::<i64, RobustnessInterval>(a, b, interval, false, true, steps, t0, k, n);
    lemma_answered_when_due::<i64, RobustnessInterval>(a, b, interval, true, steps, t0, i, t);
    if w.outcome() is Final {
        assert(is_answered_at(first, steps[i].timestamp, t));
        lemma_not_after_due::<i64, RobustnessInterval>(
            a,
            b,
            interval,
            false,
            true,
            steps,
            t0,
            i + 1,
            k,
            t,
        );
    }
    lemma_windows_refine(a, b, interval, steps, t0, i, k, t);
    lemma_steady::<i64, RobustnessInterval>(a, b, interval, false, true, steps, t0, i);
    lemma_steady::<i64, RobustnessInterval>(a, b, interval, false, true, steps, t0, k);
    let after = given::<i64, RobustnessInterval>(a, b, interval, false, true, steps, k)[n].value;
    open_interval_only_narrows(w, later, after);
}

} // verus!
