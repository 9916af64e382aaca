//! What a predicate over a signal that runs straight from each sample to the next says of a
//! whole trace, and when that is true of the signal.

use crate::atomic_laws::{is_above, is_below, lemma_nearest};
use crate::atomic_laws::{agreeing_ends_hide_no_crossing, lemma_signs};
use crate::atomic_laws::withheld_verdict_is_the_next_one;
use crate::atomic_operators::{crossing, AtomicState};
use crate::atomic_trace::{held_at, is_held, last_sample, lemma_rises_before, lemma_samples};
use crate::atomic_trace::{lemma_verdicts, lemma_verdicts_grow, rises_per_signal, routed, samples};
use crate::atomic_trace::{signal_of, verdicts_of};
use crate::binary_operators::reached;
use crate::binary_stream_laws::{held_on, lemma_append_in_force, newest};
use crate::operands::OperandsState;
use crate::operator::{lemma_behavior_of_next, Event};
use crate::ring_buffer::{all_upto, count_upto, has_entry_at, in_force, in_order, Step};
use crate::ring_buffer::{lemma_count_upto, lemma_count_upto_unique};
use crate::semantics::{distance, nearest, AtomicSemantics, SignalValue};
use crate::synchronizer::SignalInterpolation;
use crate::time::{Time, FOREVER, MAX_TIME};
use vstd::prelude::*;

verus! {

/// Whether `v` is on the side of `c` that is asked for.
pub open spec fn passes(greater: bool, c: i64, v: i64) -> bool {
    if greater {
        v > c
    } else {
        v < c
    }
}

/// Whether a signal that runs straight from `(t0, v0)` to `(t1, v1)` is from `s` on, at first, on
/// the side of `c` that is asked for: there already, or on `c` and going there.
pub open spec fn passes_from(
    greater: bool,
    c: i64,
    t0: Time,
    v0: i64,
    t1: Time,
    v1: i64,
    s: Time,
) -> bool {
    if greater {
        is_above(t0, v0, t1, v1, c, s) || (!is_below(t0, v0, t1, v1, c, s) && v1 > v0)
    } else {
        is_below(t0, v0, t1, v1, c, s) || (!is_above(t0, v0, t1, v1, c, s) && v1 < v0)
    }
}

/// The signal crosses `c` within the segment, a little later than the nanosecond the crossing is
/// rounded to; and that is `s`, or the first sample, with `s` after it.
pub open spec fn is_blurred(t0: Time, v0: i64, t1: Time, v1: i64, c: i64, s: Time) -> bool {
    let span = t1 - t0;
    let num = distance(v0, c) as int;
    let den = distance(v0, v1) as int;
    let offset = nearest(span * num, den);
    &&& v0 != c
    &&& v0 != v1
    &&& (v0 < v1) == (v0 < c)
    &&& num < den
    &&& offset * den < span * num
    &&& if offset == 0 {
        t0 < s
    } else {
        s == t0 + offset
    }
}

/// What is said of a time between two samples.
pub open spec fn said_between(
    greater: bool,
    c: i64,
    t0: Time,
    v0: i64,
    t1: Time,
    v1: i64,
    s: Time,
) -> bool {
    if v0 == c {
        passes(greater, c, v1)
    } else if passes(greater, c, v0) != passes(greater, c, v1) {
        match crossing(t0, v0, t1, v1, c) {
            Some(t_c) => if s < t_c {
                passes(greater, c, v0)
            } else {
                passes(greater, c, v1)
            },
            None => passes(greater, c, v0),
        }
    } else {
        passes(greater, c, v0)
    }
}

/// What is said of a time between two samples is true of the signal there, unless that time is
/// blurred.
pub proof fn what_is_said_between_samples_is_true(
    greater: bool,
    c: i64,
    t0: Time,
    v0: i64,
    t1: Time,
    v1: i64,
    s: Time,
)
    requires
        t0 <= s < t1,
        !is_blurred(t0, v0, t1, v1, c, s),
    ensures
        said_between(greater, c, t0, v0, t1, v1, s) == passes_from(
            greater,
            c,
            t0,
            v0,
            t1,
            v1,
            s,
        ),
{
    if s == t0 {
        lemma_at_first(greater, c, t0, v0, t1, v1);
    } else if v0 == c {
        withheld_verdict_is_the_next_one(t0, v0, t1, v1, s);
    } else if passes(greater, c, v0) == passes(greater, c, v1) {
        lemma_agreeing(greater, c, t0, v0, t1, v1, s);
    } else {
        lemma_crossed(greater, c, t0, v0, t1, v1, s);
    }
}

/// At the first sample of a segment.
proof fn lemma_at_first(greater: bool, c: i64, t0: Time, v0: i64, t1: Time, v1: i64)
    requires
        t0 < t1,
    ensures
        passes_from(greater, c, t0, v0, t1, v1, t0) == (if v0 == c {
            passes(greater, c, v1)
        } else {
            passes(greater, c, v0)
        }),
        crossing(t0, v0, t1, v1, c) matches Some(t_c) ==> t0 < t_c,
{
    let span = t1 - t0;
    let b = c - v0;
    assert((v1 - v0) * (t0 - t0) == 0) by (nonlinear_arith);
    assert((0 > b * span) == (b < 0)) by (nonlinear_arith)
        requires
            span > 0,
    ;
    assert((0 < b * span) == (b > 0)) by (nonlinear_arith)
        requires
            span > 0,
    ;
}

/// Between samples that agree.
proof fn lemma_agreeing(greater: bool, c: i64, t0: Time, v0: i64, t1: Time, v1: i64, s: Time)
    requires
        t0 < s < t1,
        v0 != c,
        passes(greater, c, v0) == passes(greater, c, v1),
    ensures
        passes_from(greater, c, t0, v0, t1, v1, s) == passes(greater, c, v0),
{
    let at = s - t0;
    let span = t1 - t0;
    let a = v1 - v0;
    let b = c - v0;
    agreeing_ends_hide_no_crossing(t0, v0, t1, v1, c, s);
    if v0 < c && v1 <= c {
        assert(a * at < b * span) by (nonlinear_arith)
            requires
                0 < at < span,
                b > 0,
                a <= b,
        ;
    }
    if v0 > c && v1 >= c {
        assert(a * at > b * span) by (nonlinear_arith)
            requires
                0 < at < span,
                b < 0,
                a >= b,
        ;
    }
}

/// Between samples that do not agree.
proof fn lemma_crossed(greater: bool, c: i64, t0: Time, v0: i64, t1: Time, v1: i64, s: Time)
    requires
        t0 < s < t1,
        v0 != c,
        passes(greater, c, v0) != passes(greater, c, v1),
        !is_blurred(t0, v0, t1, v1, c, s),
    ensures
        said_between(greater, c, t0, v0, t1, v1, s) == passes_from(
            greater,
            c,
            t0,
            v0,
            t1,
            v1,
            s,
        ),
{
    let at = s - t0;
    let span = t1 - t0;
    let num = distance(v0, c) as int;
    let den = distance(v0, v1) as int;
    assert(v0 != v1 && (v0 < v1) == (v0 < c) && num <= den && 0 < num);
    lemma_signs(t0, v0, t1, v1, c, s);
    // The signal has come to the threshold by `s`.
    let past = at * den >= span * num;
    assert(passes_from(greater, c, t0, v0, t1, v1, s) == (if past {
        passes(greater, c, v1)
    } else {
        passes(greater, c, v0)
    }));
    if num == den {
        assert(!past) by (nonlinear_arith)
            requires
                at < span,
                num == den,
                den > 0,
                past == (at * den >= span * num),
        ;
        assert(crossing(t0, v0, t1, v1, c) is None);
    } else {
        let offset = nearest(span * num, den);
        lemma_nearest(span, num, den);
        assert(at < offset ==> !past) by (nonlinear_arith)
            requires
                (2 * offset - 1) * den <= 2 * (span * num),
                den > 0,
                past == (at * den >= span * num),
        ;
        assert(at > offset ==> past) by (nonlinear_arith)
            requires
                2 * (span * num) <= (2 * offset + 1) * den,
                den > 0,
                past == (at * den >= span * num),
        ;
        assert(0 < span * num) by (nonlinear_arith)
            requires
                span > 0,
                num > 0,
        ;
        assert(offset == 0 ==> offset * den == 0) by (nonlinear_arith);
        assert(at == offset ==> at * den == offset * den);
        if 0 < offset < span {
            assert(crossing(t0, v0, t1, v1, c) == Some((t0 + offset) as Time));
        } else {
            assert(crossing(t0, v0, t1, v1, c) is None);
        }
    }
}

/// The predicate compares a signal that runs straight from each sample to the next, of which
/// nothing was seen yet.
pub open spec fn is_straight(atom: AtomicState<i64>) -> bool {
    &&& atom.interpolation == SignalInterpolation::Linear
    &&& atom.comparison.signal() is Some
    &&& atom.prev is None
    &&& !atom.deferred
}

/// What the signal is compared with.
pub open spec fn threshold_of(atom: AtomicState<i64>) -> i64 {
    atom.comparison.threshold(atom.context)->0
}

/// Whether the signal is to be above the threshold, or below it.
pub open spec fn is_greater(atom: AtomicState<i64>) -> bool {
    atom.comparison is Greater
}

/// A predicate after a trace.
pub open spec fn after<V: SignalValue>(atom: AtomicState<V>, steps: Seq<Step<V>>) -> AtomicState<V>
    decreases steps.len(),
{
    if steps.len() == 0 {
        atom
    } else {
        after(atom, steps.drop_last()).after_sample(steps.last())
    }
}

/// Everything a predicate says over a trace.
pub open spec fn said<V: SignalValue, Y: AtomicSemantics<V>>(
    atom: AtomicState<V>,
    steps: Seq<Step<V>>,
) -> Seq<Step<Y>>
    decreases steps.len(),
{
    if steps.len() == 0 {
        Seq::empty()
    } else {
        said::<V, Y>(atom, steps.drop_last()) + after(atom, steps.drop_last()).answers::<Y>(
            steps.last(),
        )
    }
}

/// Whether a predicate over a straight signal is true from `s` on, at first. Past the last sample
/// that is not known, and at the last sample only if it is not on the threshold.
pub open spec fn straight_at(atom: AtomicState<i64>, steps: Seq<Step<i64>>, s: Time) -> Option<
    bool,
> {
    let r = samples(steps, signal_of(atom));
    let n = count_upto(r, s);
    if n == 0 {
        None
    } else if n < r.len() {
        Some(
            passes_from(
                is_greater(atom),
                threshold_of(atom),
                r[n - 1].timestamp,
                r[n - 1].value,
                r[n as int].timestamp,
                r[n as int].value,
                s,
            ),
        )
    } else if s == r[n - 1].timestamp && r[n - 1].value != threshold_of(atom) {
        Some(passes(is_greater(atom), threshold_of(atom), r[n - 1].value))
    } else {
        None
    }
}

/// `s` is blurred by a crossing of the segment it lies in.
pub open spec fn is_blurred_at(atom: AtomicState<i64>, steps: Seq<Step<i64>>, s: Time) -> bool {
    let r = samples(steps, signal_of(atom));
    let n = count_upto(r, s);
    0 < n < r.len() && is_blurred(
        r[n - 1].timestamp,
        r[n - 1].value,
        r[n as int].timestamp,
        r[n as int].value,
        threshold_of(atom),
        s,
    )
}

/// What a predicate remembers of a trace.
spec fn remembers(atom: AtomicState<i64>, steps: Seq<Step<i64>>) -> bool {
    let r = samples(steps, signal_of(atom));
    let now = after(atom, steps);
    &&& now.comparison == atom.comparison
    &&& now.context == atom.context
    &&& now.interpolation == atom.interpolation
    &&& r.len() == 0 ==> now.prev is None && !now.deferred
    &&& r.len() > 0 ==> now.prev == Some((r.last().timestamp, r.last().value)) && now.deferred == (
    r.last().value == threshold_of(atom))
}

/// Where what a predicate has said begins and ends.
spec fn spans(atom: AtomicState<i64>, steps: Seq<Step<i64>>) -> bool {
    let r = samples(steps, signal_of(atom));
    let w = said::<i64, bool>(atom, steps);
    let now = after(atom, steps);
    &&& in_order(w)
    &&& all_upto(w, MAX_TIME)
    &&& held_on(w)
    &&& r.len() == 0 ==> w.len() == 0
    &&& w.len() > 0 ==> r.len() > 0 && w[0].timestamp == r[0].timestamp && w.last().timestamp
        <= r.last().timestamp
    &&& r.len() > 0 && now.deferred && w.len() > 0 ==> w.last().timestamp < r.last().timestamp
    &&& r.len() > 0 && !now.deferred ==> w.len() > 0 && w.last() == atom.answer::<bool>(
        r.last().value,
        r.last().timestamp,
    )
    &&& r.len() > 1 ==> w.len() > 0
}

/// What a predicate has said is true of the signal, where that is known and not blurred.
pub open spec fn is_true_to(atom: AtomicState<i64>, steps: Seq<Step<i64>>, s: Time) -> bool {
    let w = said::<i64, bool>(atom, steps);
    straight_at(atom, steps, s) matches Some(p) ==> {
        &&& in_force(w, s) is Some
        &&& !is_blurred_at(atom, steps, s) ==> in_force(w, s)->0.value == p
    }
}

/// A sample of another signal changes nothing.
proof fn lemma_other(atom: AtomicState<i64>, steps: Seq<Step<i64>>)
    requires
        is_straight(atom),
        steps.len() > 0,
        steps.last().signal@ != signal_of(atom),
        remembers(atom, steps.drop_last()),
    ensures
        after(atom, steps) == after(atom, steps.drop_last()),
        said::<i64, bool>(atom, steps) == said::<i64, bool>(atom, steps.drop_last()),
        samples(steps, signal_of(atom)) == samples(steps.drop_last(), signal_of(atom)),
{
    let w = said::<i64, bool>(atom, steps.drop_last());
    assert(w + Seq::<Step<bool>>::empty() =~= w);
}

/// What a sample adds to what a predicate has said.
proof fn lemma_more(atom: AtomicState<i64>, steps: Seq<Step<i64>>)
    requires
        is_straight(atom),
        rises_per_signal(steps),
        steps.len() > 0,
        steps.last().signal@ == signal_of(atom),
        remembers(atom, steps.drop_last()),
        spans(atom, steps.drop_last()),
    ensures
        remembers(atom, steps),
        spans(atom, steps),
        ({
            let more = after(atom, steps.drop_last()).answers::<bool>(steps.last());
            let r = samples(steps.drop_last(), signal_of(atom));
            more.len() > 0 && r.len() > 0 ==> r.last().timestamp <= more[0].timestamp && (
            !after(atom, steps.drop_last()).deferred ==> r.last().timestamp < more[0].timestamp)
        }),
{
    let before = steps.drop_last();
    let last = steps.last();
    let r = samples(before, signal_of(atom));
    let all = samples(steps, signal_of(atom));
    let w = said::<i64, bool>(atom, before);
    let now = after(atom, before);
    let more = now.answers::<bool>(last);
    let w2 = said::<i64, bool>(atom, steps);
    lemma_samples(steps, signal_of(atom));
    assert(all == r.push(last));
    assert(steps[steps.len() - 1] == last);
    if r.len() > 0 {
        assert(all[r.len() - 1] == r.last());
        assert(all[r.len() as int] == last);
        assert(r.last().timestamp < last.timestamp);
    }
    assert forall|i: int, j: int| 0 <= i < j < w2.len() implies w2[i].timestamp
        < w2[j].timestamp by {
        if j < w.len() {
            assert(w2[i] == w[i] && w2[j] == w[j]);
        } else if i >= w.len() {
            assert(w2[i] == more[i - w.len()] && w2[j] == more[j - w.len()]);
        } else {
            assert(w2[i] == w[i] && w2[j] == more[j - w.len()]);
            assert(i < w.len() - 1 ==> w[i].timestamp < w[w.len() - 1].timestamp);
        }
    }
    assert forall|i: int| 0 <= i < w2.len() implies (#[trigger] w2[i]).timestamp <= MAX_TIME
        && w2[i].held_until == FOREVER by {
        if i < w.len() {
            assert(w2[i] == w[i]);
        } else {
            assert(w2[i] == more[i - w.len()]);
        }
    }
}

/// How many samples lie at or before a time, once another one was added.
proof fn lemma_count_pushed(r: Seq<Step<i64>>, last: Step<i64>, s: Time)
    requires
        in_order(r.push(last)),
    ensures
        in_order(r),
        s < last.timestamp ==> count_upto(r.push(last), s) == count_upto(r, s),
        s >= last.timestamp ==> count_upto(r.push(last), s) == r.len() + 1,
        r.len() > 0 && r.last().timestamp <= s ==> count_upto(r, s) == r.len(),
        r.len() > 0 && s < r.last().timestamp ==> count_upto(r, s) < r.len(),
        r.len() > 0 ==> r.last().timestamp < last.timestamp,
{
    let all = r.push(last);
    assert(in_order(r)) by {
        assert forall|i: int, j: int| 0 <= i < j < r.len() implies r[i].timestamp
            < r[j].timestamp by {
            assert(r[i] == all[i] && r[j] == all[j]);
        }
    }
    lemma_count_upto(r, s);
    lemma_count_upto(all, s);
    let n = count_upto(r, s);
    assert(all[r.len() as int] == last);
    if r.len() > 0 {
        assert(all[r.len() - 1] == r.last());
        assert(all[r.len() - 1].timestamp < all[r.len() as int].timestamp);
    }
    if s < last.timestamp {
        assert(n > 0 ==> all[n - 1] == r[n - 1]);
        assert(n < r.len() ==> all[n as int] == r[n as int]);
        lemma_count_upto_unique(all, s, n);
    } else {
        lemma_count_upto_unique(all, s, all.len());
    }
    if r.len() > 0 && r.last().timestamp <= s {
        lemma_count_upto_unique(r, s, r.len());
    }
}

/// What is in force between the last two samples of a signal.
proof fn lemma_said_between(atom: AtomicState<i64>, steps: Seq<Step<i64>>, s: Time)
    requires
        is_straight(atom),
        rises_per_signal(steps),
        steps.len() > 0,
        steps.last().signal@ == signal_of(atom),
        remembers(atom, steps.drop_last()),
        spans(atom, steps.drop_last()),
        spans(atom, steps),
        samples(steps.drop_last(), signal_of(atom)).len() > 0,
        samples(steps.drop_last(), signal_of(atom)).last().timestamp <= s < steps.last().timestamp,
    ensures
        ({
            let r = samples(steps.drop_last(), signal_of(atom));
            let w = said::<i64, bool>(atom, steps);
            &&& in_force(w, s) is Some
            &&& in_force(w, s)->0.value == said_between(
                is_greater(atom),
                threshold_of(atom),
                r.last().timestamp,
                r.last().value,
                steps.last().timestamp,
                steps.last().value,
                s,
            )
        }),
{
    let before = steps.drop_last();
    let last = steps.last();
    let r = samples(before, signal_of(atom));
    let w = said::<i64, bool>(atom, before);
    let now = after(atom, before);
    let more = now.answers::<bool>(last);
    let all = said::<i64, bool>(atom, steps);
    let c = threshold_of(atom);
    let g = is_greater(atom);
    let t0 = r.last().timestamp;
    let v0 = r.last().value;
    assert(steps[steps.len() - 1] == last);
    assert(all == w + more);
    assert(forall|v: i64|
        #[trigger] atom.comparison.verdict::<bool>(atom.context, v) == passes(g, c, v));
    if now.deferred {
        assert(more[0] == atom.answer::<bool>(last.value, t0));
        assert(all[w.len() as int] == more[0]);
        if w.len() + 1 < all.len() {
            assert(all[w.len() as int + 1] == more[1]);
        }
        lemma_count_upto_unique(all, s, w.len() + 1);
    } else {
        assert(w.last() == atom.answer::<bool>(v0, t0));
        assert(all[w.len() - 1] == w.last());
        if passes(g, c, v0) != passes(g, c, last.value) && crossing(
            t0,
            v0,
            last.timestamp,
            last.value,
            c,
        ) is Some {
            let t_c = crossing(t0, v0, last.timestamp, last.value, c)->0;
            assert(more[0] == atom.answer::<bool>(last.value, t_c));
            assert(all[w.len() as int] == more[0]);
            if w.len() + 1 < all.len() {
                assert(all[w.len() as int + 1] == more[1]);
            }
            if s < t_c {
                lemma_count_upto_unique(all, s, w.len());
            } else {
                lemma_count_upto_unique(all, s, w.len() + 1);
            }
        } else {
            if w.len() < all.len() {
                assert(all[w.len() as int] == more[0]);
            }
            lemma_count_upto_unique(all, s, w.len());
        }
    }
}

/// What is said stays true to the signal as a sample comes.
proof fn lemma_true_grows(atom: AtomicState<i64>, steps: Seq<Step<i64>>, s: Time)
    requires
        is_straight(atom),
        rises_per_signal(steps),
        steps.len() > 0,
        steps.last().signal@ == signal_of(atom),
        remembers(atom, steps.drop_last()),
        spans(atom, steps.drop_last()),
        is_true_to(atom, steps.drop_last(), s),
    ensures
        is_true_to(atom, steps, s),
{
    let before = steps.drop_last();
    let last = steps.last();
    let r = samples(before, signal_of(atom));
    let all = samples(steps, signal_of(atom));
    let w = said::<i64, bool>(atom, before);
    let w2 = said::<i64, bool>(atom, steps);
    let more = after(atom, before).answers::<bool>(last);
    let c = threshold_of(atom);
    let g = is_greater(atom);
    lemma_samples(steps, signal_of(atom));
    assert(all == r.push(last));
    lemma_count_pushed(r, last, s);
    lemma_more(atom, steps);
    lemma_count_upto(r, s);
    let n = count_upto(r, s);
    if s > last.timestamp {
    } else if s == last.timestamp {
        assert(all[all.len() - 1] == last);
        if last.value != c {
            assert(w2.last() == atom.answer::<bool>(last.value, last.timestamp));
            lemma_count_upto_unique(w2, s, w2.len());
        }
    } else if n < r.len() {
        assert(n > 0 ==> all[n - 1] == r[n - 1]);
        assert(all[n as int] == r[n as int]);
        assert(s < r.last().timestamp);
        lemma_append_in_force(w, more, s);
    } else if n > 0 {
        assert(all[n - 1] == r.last());
        assert(all[n as int] == last);
        lemma_said_between(atom, steps, s);
        if !is_blurred_at(atom, steps, s) {
            what_is_said_between_samples_is_true(
                g,
                c,
                r.last().timestamp,
                r.last().value,
                last.timestamp,
                last.value,
                s,
            );
        }
    }
}

/// What a predicate over a straight signal says over a trace: in time order and held on, from
/// the first sample on; and true to the signal.
proof fn lemma_account(atom: AtomicState<i64>, steps: Seq<Step<i64>>)
    requires
        is_straight(atom),
        rises_per_signal(steps),
    ensures
        remembers(atom, steps),
        spans(atom, steps),
        forall|s: Time| #[trigger] is_true_to(atom, steps, s),
    decreases steps.len(),
{
    if steps.len() > 0 {
        let before = steps.drop_last();
        assert(before =~= steps.take(steps.len() - 1));
        lemma_rises_before(steps, steps.len() - 1);
        lemma_account(atom, before);
        if steps.last().signal@ == signal_of(atom) {
            lemma_more(atom, steps);
            assert forall|s: Time| #[trigger] is_true_to(atom, steps, s) by {
                assert(is_true_to(atom, before, s));
                lemma_true_grows(atom, steps, s);
            }
        } else {
            lemma_other(atom, steps);
            assert forall|s: Time| #[trigger] is_true_to(atom, steps, s) by {
                assert(is_true_to(atom, before, s));
            }
        }
    }
}

/// The predicate compares a signal that is held between its samples, or runs straight.
pub open spec fn is_read(atom: AtomicState<i64>) -> bool {
    is_held(atom) || is_straight(atom)
}

/// Whether a predicate is true from `s` on, at first, as far as the samples of a trace tell.
pub open spec fn true_at(atom: AtomicState<i64>, steps: Seq<Step<i64>>, s: Time) -> Option<bool> {
    if is_held(atom) {
        if reached(last_sample(steps, signal_of(atom)), s) {
            match held_at(steps, signal_of(atom), s) {
                Some(v) => Some(passes(is_greater(atom), threshold_of(atom), v)),
                None => None,
            }
        } else {
            None
        }
    } else {
        straight_at(atom, steps, s)
    }
}

/// No crossing blurs `s`.
pub open spec fn is_exact_at(atom: AtomicState<i64>, steps: Seq<Step<i64>>, s: Time) -> bool {
    is_held(atom) || !is_blurred_at(atom, steps, s)
}

/// A predicate over a held signal says over a trace what it says of each sample.
proof fn lemma_said_held(atom: AtomicState<i64>, steps: Seq<Step<i64>>)
    requires
        is_held(atom),
    ensures
        after(atom, steps) == atom,
        said::<i64, bool>(atom, steps) == verdicts_of::<i64, bool>(atom, steps),
    decreases steps.len(),
{
    if steps.len() == 0 {
        assert(verdicts_of::<i64, bool>(atom, steps) =~= Seq::empty());
    } else {
        lemma_said_held(atom, steps.drop_last());
        lemma_verdicts_grow::<i64, bool>(atom, steps);
        assert(atom.after_sample(steps.last()) =~= atom);
    }
}

/// What a predicate says over a trace comes in time order and is held on, begins at the first
/// sample and ends at the last one at the latest; and it is true where it is exact.
pub proof fn lemma_report(atom: AtomicState<i64>, steps: Seq<Step<i64>>)
    requires
        is_read(atom),
        rises_per_signal(steps),
    ensures
        ({
            let w = said::<i64, bool>(atom, steps);
            let r = samples(steps, signal_of(atom));
            &&& in_order(w)
            &&& all_upto(w, MAX_TIME)
            &&& held_on(w)
            &&& w.len() > 0 ==> r.len() > 0 && w[0].timestamp == r[0].timestamp
                && w.last().timestamp <= r.last().timestamp
            &&& forall|s: Time|
                #![trigger in_force(w, s)]
                reached(newest(w), s) && in_force(w, s) is Some ==> {
                    &&& true_at(atom, steps, s) is Some
                    &&& is_exact_at(atom, steps, s) ==> in_force(w, s)->0.value == true_at(
                        atom,
                        steps,
                        s,
                    )->0
                }
            &&& after(atom, steps).comparison == atom.comparison
            &&& after(atom, steps).context == atom.context
            &&& after(atom, steps).interpolation == atom.interpolation
        }),
{
    let w = said::<i64, bool>(atom, steps);
    let r = samples(steps, signal_of(atom));
    if is_held(atom) {
        lemma_said_held(atom, steps);
        lemma_verdicts::<i64, bool>(atom, steps);
        assert forall|s: Time|
            #![trigger in_force(w, s)]
            reached(newest(w), s) && in_force(w, s) is Some implies {
            &&& true_at(atom, steps, s) is Some
            &&& is_exact_at(atom, steps, s) ==> in_force(w, s)->0.value == true_at(
                atom,
                steps,
                s,
            )->0
        } by {
            assert(w[w.len() - 1].timestamp <= MAX_TIME);
        }
    } else {
        lemma_account(atom, steps);
        lemma_samples(steps, signal_of(atom));
        assert forall|s: Time|
            #![trigger in_force(w, s)]
            reached(newest(w), s) && in_force(w, s) is Some implies {
            &&& true_at(atom, steps, s) is Some
            &&& is_exact_at(atom, steps, s) ==> in_force(w, s)->0.value == true_at(
                atom,
                steps,
                s,
            )->0
        } by {
            lemma_count_upto(w, s);
            lemma_count_upto(r, s);
            assert(w[0].timestamp <= s);
            assert(count_upto(r, s) > 0);
            assert(is_true_to(atom, steps, s));
            let n = count_upto(r, s);
            if n == r.len() {
                assert(r[n - 1].timestamp <= s);
            }
        }
    }
}

/// What was said over the beginning of a trace is the beginning of what is said over it.
pub proof fn lemma_said_before<V: SignalValue, Y: AtomicSemantics<V>>(
    atom: AtomicState<V>,
    steps: Seq<Step<V>>,
    k: int,
) -> (more: Seq<Step<Y>>)
    requires
        0 <= k <= steps.len(),
    ensures
        said::<V, Y>(atom, steps) == said::<V, Y>(atom, steps.take(k)) + more,
    decreases steps.len(),
{
    let w = said::<V, Y>(atom, steps.take(k));
    if k == steps.len() {
        assert(steps.take(k) =~= steps);
        assert(w + Seq::<Step<Y>>::empty() =~= w);
        Seq::empty()
    } else {
        let before = steps.drop_last();
        assert(before.take(k) =~= steps.take(k));
        let more = lemma_said_before::<V, Y>(atom, before, k);
        let last = after(atom, before).answers::<Y>(steps.last());
        assert(w + more + last =~= w + (more + last));
        more + last
    }
}

/// What a predicate is known to say does not change as more samples come.
pub proof fn lemma_said_stays(atom: AtomicState<i64>, steps: Seq<Step<i64>>, k: int, s: Time)
    requires
        is_read(atom),
        rises_per_signal(steps),
        0 <= k <= steps.len(),
        reached(newest(said::<i64, bool>(atom, steps.take(k))), s),
    ensures
        in_force(said::<i64, bool>(atom, steps), s) == in_force(
            said::<i64, bool>(atom, steps.take(k)),
            s,
        ),
        reached(newest(said::<i64, bool>(atom, steps)), s),
{
    let part = said::<i64, bool>(atom, steps.take(k));
    let all = said::<i64, bool>(atom, steps);
    let more = lemma_said_before::<i64, bool>(atom, steps, k);
    lemma_report(atom, steps);
    if more.len() > 0 {
        assert(all[part.len() - 1] == part.last());
        assert(all[part.len() as int] == more[0]);
        assert(all[all.len() - 1] == all.last());
        assert(part.last().timestamp < all.last().timestamp);
    } else {
        assert(all =~= part);
    }
    lemma_append_in_force(part, more, s);
}

/// The operands are two predicates that are handed the samples they read, after a trace.
#[verifier::opaque]
pub open spec fn is_routed_after<V: SignalValue, Y: AtomicSemantics<V>>(
    operands: OperandsState<V, Y>,
    a: AtomicState<V>,
    b: AtomicState<V>,
    steps: Seq<Step<V>>,
) -> bool {
    operands == routed::<V, Y>(after(a, steps), after(b, steps))
}

/// Before the first sample.
pub proof fn lemma_routed_first(a: AtomicState<i64>, b: AtomicState<i64>, steps: Seq<Step<i64>>)
    requires
        steps.len() == 0,
    ensures
        is_routed_after::<i64, bool>(routed::<i64, bool>(a, b), a, b, steps),
{
    reveal(is_routed_after);
}

/// What two predicates do with a sample.
pub proof fn lemma_routed_on(
    operands: OperandsState<i64, bool>,
    a: AtomicState<i64>,
    b: AtomicState<i64>,
    steps: Seq<Step<i64>>,
)
    requires
        is_read(a),
        is_read(b),
        rises_per_signal(steps),
        steps.len() > 0,
        is_routed_after(operands, a, b, steps.drop_last()),
    ensures
        is_routed_after(operands.next(Event::Sample(steps.last())), a, b, steps),
        said::<i64, bool>(a, steps) == said::<i64, bool>(a, steps.drop_last())
            + operands.left_emits(Event::Sample(steps.last())),
        said::<i64, bool>(b, steps) == said::<i64, bool>(b, steps.drop_last())
            + operands.right_emits(Event::Sample(steps.last())),
        operands.next(Event::Sample(steps.last())).left.known_now() is None,
        operands.next(Event::Sample(steps.last())).right.known_now() is None,
{
    reveal(is_routed_after);
    let before = steps.drop_last();
    let event = Event::Sample(steps.last());
    assert(before =~= steps.take(steps.len() - 1));
    lemma_rises_before(steps, steps.len() - 1);
    lemma_report(a, before);
    lemma_report(b, before);
    let p = after(a, before);
    let q = after(b, before);
    lemma_behavior_of_next::<i64, bool, AtomicState<i64>>(p, event);
    lemma_behavior_of_next::<i64, bool, AtomicState<i64>>(q, event);
    lemma_behavior_of_next::<i64, bool, AtomicState<i64>>(p.after_sample(steps.last()), event);
    lemma_behavior_of_next::<i64, bool, AtomicState<i64>>(q.after_sample(steps.last()), event);
    assert(p.profile().identifiers =~= set![signal_of(a)]);
    assert(q.profile().identifiers =~= set![signal_of(b)]);
    assert(p.after_sample(steps.last()).profile().identifiers =~= set![signal_of(a)]);
    assert(q.after_sample(steps.last()).profile().identifiers =~= set![signal_of(b)]);
    assert(steps.last().signal@ != signal_of(a) ==> p.after_sample(steps.last()) == p);
    assert(steps.last().signal@ != signal_of(b) ==> q.after_sample(steps.last()) == q);
}

/// The signal crosses the threshold between two samples, at `t` to the nearest nanosecond.
pub open spec fn crosses_at(
    atom: AtomicState<i64>,
    first: Step<i64>,
    second: Step<i64>,
    t: Time,
) -> bool {
    let c = threshold_of(atom);
    let g = is_greater(atom);
    &&& first.value != c
    &&& passes(g, c, first.value) != passes(g, c, second.value)
    &&& crossing(first.timestamp, first.value, second.timestamp, second.value, c) == Some(t)
}

/// The sample at `i` is one whose verdict is known: not on the threshold, or not the last one.
pub open spec fn is_told(atom: AtomicState<i64>, r: Seq<Step<i64>>, i: int) -> bool {
    0 <= i < r.len() && (i + 1 < r.len() || r[i].value != threshold_of(atom))
}

/// A sample of the signal whose verdict is known is at `t`, or a crossing is.
pub open spec fn is_told_at(atom: AtomicState<i64>, r: Seq<Step<i64>>, t: Time) -> bool {
    ||| exists|i: int| #[trigger] is_told(atom, r, i) && r[i].timestamp == t
    ||| exists|i: int|
        0 <= i && i + 1 < r.len() && crosses_at(atom, #[trigger] r[i], r[i + 1], t)
}

/// What another sample adds to the times at which a predicate speaks.
proof fn lemma_told_grows(atom: AtomicState<i64>, r: Seq<Step<i64>>, last: Step<i64>, t: Time)
    ensures
        is_told_at(atom, r.push(last), t) <==> {
            ||| is_told_at(atom, r, t)
            ||| r.len() > 0 && r.last().value == threshold_of(atom) && r.last().timestamp == t
            ||| r.len() > 0 && crosses_at(atom, r.last(), last, t)
            ||| last.value != threshold_of(atom) && last.timestamp == t
        },
{
    let all = r.push(last);
    let c = threshold_of(atom);
    assert(all[r.len() as int] == last);
    assert forall|i: int| 0 <= i < r.len() implies #[trigger] all[i] == r[i] by {}
    if is_told_at(atom, r, t) {
        if exists|i: int| #[trigger] is_told(atom, r, i) && r[i].timestamp == t {
            let i = choose|i: int| #[trigger] is_told(atom, r, i) && r[i].timestamp == t;
            assert(is_told(atom, all, i) && all[i].timestamp == t);
        } else {
            let i = choose|i: int|
                0 <= i && i + 1 < r.len() && crosses_at(atom, #[trigger] r[i], r[i + 1], t);
            assert(crosses_at(atom, all[i], all[i + 1], t));
        }
    }
    if r.len() > 0 && r.last().value == c && r.last().timestamp == t {
        assert(is_told(atom, all, r.len() - 1) && all[r.len() - 1].timestamp == t);
    }
    if r.len() > 0 && crosses_at(atom, r.last(), last, t) {
        assert(crosses_at(atom, all[r.len() - 1], all[r.len() - 1 + 1], t));
    }
    if last.value != c && last.timestamp == t {
        assert(is_told(atom, all, r.len() as int) && all[r.len() as int].timestamp == t);
    }
    if is_told_at(atom, all, t) {
        if exists|i: int| #[trigger] is_told(atom, all, i) && all[i].timestamp == t {
            let i = choose|i: int| #[trigger] is_told(atom, all, i) && all[i].timestamp == t;
            if i + 1 < r.len() || (i < r.len() && r[i].value != c) {
                assert(is_told(atom, r, i) && r[i].timestamp == t);
            }
        } else {
            let i = choose|i: int|
                0 <= i && i + 1 < all.len() && crosses_at(atom, #[trigger] all[i], all[i + 1], t);
            if i + 1 < r.len() {
                assert(crosses_at(atom, r[i], r[i + 1], t));
            }
        }
    }
}

/// A predicate over a straight signal speaks at the samples of the signal and at its crossings of
/// the threshold between them, and at no other time. At a sample on the threshold it does so
/// only once the next one is there.
pub proof fn predicates_speak_at_samples_and_crossings(
    atom: AtomicState<i64>,
    steps: Seq<Step<i64>>,
    t: Time,
)
    requires
        is_straight(atom),
        rises_per_signal(steps),
    ensures
        has_entry_at(said::<i64, bool>(atom, steps), t) <==> is_told_at(
            atom,
            samples(steps, signal_of(atom)),
            t,
        ),
    decreases steps.len(),
{
    let w = said::<i64, bool>(atom, steps);
    if steps.len() > 0 {
        let before = steps.drop_last();
        let last = steps.last();
        assert(before =~= steps.take(steps.len() - 1));
        lemma_rises_before(steps, steps.len() - 1);
        predicates_speak_at_samples_and_crossings(atom, before, t);
        lemma_account(atom, before);
        if last.signal@ == signal_of(atom) {
            let r = samples(before, signal_of(atom));
            let old = said::<i64, bool>(atom, before);
            let more = after(atom, before).answers::<bool>(last);
            lemma_told_grows(atom, r, last, t);
            assert(w == old + more);
            lemma_entries_appended(old, more, t);
            if r.len() > 0 {
                lemma_more(atom, steps);
            }
            if has_entry_at(more, t) {
                let i = choose|i: int| 0 <= i < more.len() && (#[trigger] more[i]).timestamp == t;
                assert(i == 0 || i == 1);
            }
            if r.len() > 0 && r.last().value == threshold_of(atom) && r.last().timestamp == t {
                assert(more[0].timestamp == t);
            }
            if r.len() > 0 && crosses_at(atom, r.last(), last, t) {
                assert(more[0].timestamp == t);
            }
            if last.value != threshold_of(atom) && last.timestamp == t {
                assert(more[more.len() - 1].timestamp == t);
            }
        } else {
            lemma_other(atom, steps);
        }
    }
}

proof fn lemma_entries_appended<Y>(s: Seq<Step<Y>>, more: Seq<Step<Y>>, t: Time)
    ensures
        has_entry_at(s + more, t) <==> has_entry_at(s, t) || has_entry_at(more, t),
{
    let all = s + more;
    if has_entry_at(s, t) {
        let i = choose|i: int| 0 <= i < s.len() && (#[trigger] s[i]).timestamp == t;
        assert(all[i].timestamp == t);
    }
    if has_entry_at(more, t) {
        let i = choose|i: int| 0 <= i < more.len() && (#[trigger] more[i]).timestamp == t;
        assert(all[s.len() + i].timestamp == t);
    }
    if has_entry_at(all, t) {
        let i = choose|i: int| 0 <= i < all.len() && (#[trigger] all[i]).timestamp == t;
        if i < s.len() {
            assert(s[i].timestamp == t);
        } else {
            assert(more[i - s.len()].timestamp == t);
        }
    }
}

} // verus!
