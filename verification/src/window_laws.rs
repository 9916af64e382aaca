//! The evaluation of one window of an until, in every mode: what is read of the operands, which
//! witnesses are looked at, and what they come to.

use crate::binary_operators::merged_lists_every_timestamp;
use crate::cache_laws::a_cache_is_read_at_its_newest_sample;
use crate::ring_buffer::{count_upto, has_entry_at, in_force, in_order, lemma_count_upto, Step};
use crate::ring_buffer::{lemma_count_upto_monotone, RingBufferTrait};
use crate::semantics::RobustnessSemantics;
use crate::time::{Time, MAX_TIME};
use crate::until_window::{entries_within, held, Outcome, Window, WindowView};
use vstd::prelude::*;

verus! {

/// A window begins and ends where its interval says, counted from the time evaluated at. It is
/// looked at up to the newest sample, and covered once both operands are settled to its end.
pub proof fn windows_are_as_long_as_their_interval<Y: RobustnessSemantics>(w: WindowView<Y>)
    requires
        w.t <= MAX_TIME,
        w.interval.start <= MAX_TIME,
        w.interval.end <= MAX_TIME,
    ensures
        w.start() == w.t + w.interval.start,
        w.end() == w.t + w.interval.end,
        w.effective_end() <= w.now && w.effective_end() <= w.t + w.interval.end,
        w.effective_end() == w.now || w.effective_end() == w.t + w.interval.end,
        w.covered() <==> w.t + w.interval.end <= w.left_settled && w.t + w.interval.end
            <= w.right_settled,
{
}

/// A window is evaluated on what it was made of.
pub proof fn windows_are_what_they_are_made_of<'a, C, Y>(
    window: &Window<'a, C>,
    eager: bool,
    rosi: bool,
) where C: RingBufferTrait<Value = Y>, Y: RobustnessSemantics
    ensures
        ({
            let w = window.view_as(eager, rosi);
            &&& w.left == window.left.entries()
            &&& w.right == window.right.entries()
            &&& w.left_known == window.left_known
            &&& w.right_known == window.right_known
            &&& w.left_settled == window.left_settled
            &&& w.right_settled == window.right_settled
            &&& w.t == window.t
            &&& w.interval == window.interval
            &&& w.now == window.now
            &&& w.eager == eager
            &&& w.rosi == rosi
        }),
{
}

/// What a verdict is worth at a later time: itself, unless verdicts are refined and it is carried
/// past the time it is settled to.
pub proof fn verdicts_are_worth_what_they_say<Y: RobustnessSemantics>(
    entry: Step<Y>,
    t: Time,
    settled: Time,
    rosi: bool,
)
    ensures
        !rosi || t <= entry.timestamp || t <= settled ==> held(entry, t, settled, rosi)
            == entry.value,
        rosi && t > entry.timestamp && t > settled ==> held(entry, t, settled, rosi)
            == Y::unknown_spec(),
{
}

/// `v` is what an operand is known to hold at `t`: nothing past the time it has reported to; its
/// newest verdict by then, if that is still held; but unknown, where verdicts are refined, if
/// that verdict is carried past the time it is settled to.
pub open spec fn is_known_to_hold<Y: RobustnessSemantics>(
    s: Seq<Step<Y>>,
    known: Time,
    settled: Time,
    rosi: bool,
    t: Time,
    v: Y,
) -> bool {
    &&& t <= known
    &&& exists|i: int|
        {
            &&& 0 <= i < s.len()
            &&& (#[trigger] s[i]).timestamp <= t < s[i].held_until
            &&& i + 1 < s.len() ==> t < s[i + 1].timestamp
            &&& v == if rosi && s[i].timestamp < t && settled < t {
                Y::unknown_spec()
            } else {
                s[i].value
            }
        }
}

proof fn lemma_known_to_hold<Y: RobustnessSemantics>(
    s: Seq<Step<Y>>,
    known: Time,
    settled: Time,
    rosi: bool,
    t: Time,
)
    requires
        in_order(s),
    ensures
        forall|v: Y| #[trigger]
            is_known_to_hold(s, known, settled, rosi, t, v) <==> t <= known && in_force(s, t) is Some
                && v == (if rosi && in_force(s, t)->0.timestamp < t && settled < t {
                Y::unknown_spec()
            } else {
                in_force(s, t)->0.value
            }),
{
    let n = a_cache_is_read_at_its_newest_sample(s, t);
    assert forall|v: Y| #[trigger]
        is_known_to_hold(s, known, settled, rosi, t, v) <==> t <= known && in_force(s, t) is Some
            && v == (if rosi && in_force(s, t)->0.timestamp < t && settled < t {
            Y::unknown_spec()
        } else {
            in_force(s, t)->0.value
        }) by {
        if n > 0 {
            assert(s[n - 1].timestamp <= t);
            assert(n < s.len() ==> t < s[n].timestamp);
        }
        if is_known_to_hold(s, known, settled, rosi, t, v) {
            let i = choose|i: int|
                {
                    &&& 0 <= i < s.len()
                    &&& (#[trigger] s[i]).timestamp <= t < s[i].held_until
                    &&& i + 1 < s.len() ==> t < s[i + 1].timestamp
                    &&& v == if rosi && s[i].timestamp < t && settled < t {
                        Y::unknown_spec()
                    } else {
                        s[i].value
                    }
                };
            assert(i < n);
            assert(i + 1 < s.len() ==> !(i + 1 < n));
        }
    }
}

/// What psi counts for at the time of a witness is what it is known to hold there, and unknown if
/// that is nothing. What phi holds at the time evaluated at is read the same way.
pub proof fn windows_read_what_the_operands_hold<Y: RobustnessSemantics>(
    w: WindowView<Y>,
    t: Time,
    v: Y,
)
    requires
        in_order(w.left),
        in_order(w.right),
    ensures
        w.phi_held() == Some(v) <==> is_known_to_hold(
            w.left,
            w.left_known,
            w.left_settled,
            w.rosi,
            w.t,
            v,
        ),
        is_known_to_hold(w.right, w.right_known, w.right_settled, w.rosi, t, v) ==> w.psi(t) == v,
        (forall|u: Y|
            !(#[trigger] is_known_to_hold(
                w.right,
                w.right_known,
                w.right_settled,
                w.rosi,
                t,
                u,
            ))) ==> w.psi(t) == Y::unknown_spec(),
{
    lemma_known_to_hold::<Y>(w.left, w.left_known, w.left_settled, w.rosi, w.t);
    lemma_known_to_hold::<Y>(w.right, w.right_known, w.right_settled, w.rosi, t);
    if t <= w.right_known && in_force(w.right, t) is Some {
        assert(is_known_to_hold(
            w.right,
            w.right_known,
            w.right_settled,
            w.rosi,
            t,
            w.psi(t),
        ));
    }
}

/// The conjunction of `v` and the verdicts of `s`, one after the other.
pub open spec fn conjoined<Y: RobustnessSemantics>(v: Y, s: Seq<Step<Y>>) -> Y {
    s.fold_left(v, |acc: Y, e: Step<Y>| Y::and_spec(acc, e.value))
}

/// The disjunction of `vs`, one after the other.
pub open spec fn disjoined<Y: RobustnessSemantics>(vs: Seq<Y>) -> Y
    recommends
        vs.len() > 0,
{
    vs.skip(1).fold_left(vs[0], |acc: Y, v: Y| Y::or_spec(acc, v))
}

/// How many verdicts of an operand lie at or before `t`.
pub open spec fn is_count<Y>(s: Seq<Step<Y>>, t: Time, n: int) -> bool {
    &&& 0 <= n <= s.len()
    &&& forall|i: int| 0 <= i < s.len() ==> (i < n <==> (#[trigger] s[i]).timestamp <= t)
}

proof fn lemma_count<Y>(s: Seq<Step<Y>>, t: Time, n: int)
    requires
        in_order(s),
        is_count(s, t, n),
    ensures
        n == count_upto(s, t),
{
    lemma_count_upto(s, t);
    let c = count_upto(s, t) as int;
    if n < c {
        assert(s[n].timestamp <= t);
    }
    if c < n {
        assert(s[c].timestamp <= t);
    }
}

proof fn lemma_phi_inf<Y: RobustnessSemantics>(w: WindowView<Y>, c: int, n: int)
    requires
        c == count_upto(w.left, w.t),
        c <= n <= w.left.len(),
    ensures
        w.phi_inf(n as nat) == conjoined(w.phi_held()->0, w.left.subrange(c, n)),
    decreases n,
{
    let s = w.left.subrange(c, n);
    if n > c {
        lemma_phi_inf(w, c, n - 1);
        assert(s.drop_last() =~= w.left.subrange(c, n - 1));
        assert(s.last() == w.left[n - 1]);
    }
}

/// The obligation on phi for a witness at `t`: the conjunction of what it holds at the time
/// evaluated at and of all its verdicts since, those at the witness included. Past the time that
/// phi is settled to, that is unknown, or where verdicts are refined no better than unknown.
pub proof fn phi_must_hold_until_the_witness<Y: RobustnessSemantics>(
    w: WindowView<Y>,
    t: Time,
    c: int,
    n: int,
)
    requires
        in_order(w.left),
        w.t <= t,
        is_count(w.left, w.t, c),
        is_count(w.left, t, n),
    ensures
        ({
            let inf = conjoined(w.phi_held()->0, w.left.subrange(c, n));
            &&& t <= w.left_settled ==> w.phi(t) == inf
            &&& t > w.left_settled && w.rosi ==> w.phi(t) == Y::and_spec(inf, Y::unknown_spec())
            &&& t > w.left_settled && !w.rosi ==> w.phi(t) == Y::unknown_spec()
        }),
{
    lemma_count(w.left, w.t, c);
    lemma_count(w.left, t, n);
    lemma_count_upto_monotone(w.left, w.t, t);
    lemma_phi_inf(w, c, n);
}

/// Phi has died by the `n`-th of its verdicts, and did so at `d`: at the time evaluated at if it
/// is false there, and else at the first verdict that makes the conjunction since then false.
pub open spec fn has_died<Y: RobustnessSemantics>(
    w: WindowView<Y>,
    c: int,
    n: int,
    d: Time,
) -> bool {
    exists|m: int|
        {
            &&& c <= m <= n
            &&& Y::same_spec(
                #[trigger] conjoined(w.phi_held()->0, w.left.subrange(c, m)),
                Y::false_spec(),
            )
            &&& forall|k: int|
                c <= k < m ==> !Y::same_spec(
                    #[trigger] conjoined(w.phi_held()->0, w.left.subrange(c, k)),
                    Y::false_spec(),
                )
            &&& d == if m == c {
                w.t
            } else {
                w.left[m - 1].timestamp
            }
        }
}

proof fn lemma_died<Y: RobustnessSemantics>(w: WindowView<Y>, c: int, n: int)
    requires
        c == count_upto(w.left, w.t),
        0 <= c <= n <= w.left.len(),
    ensures
        forall|d: Time| #[trigger] has_died(w, c, n, d) <==> w.phi_died(n as nat) == Some(d),
        w.phi_died(n as nat) is None ==> forall|k: int|
            c <= k <= n ==> !Y::same_spec(
                #[trigger] conjoined(w.phi_held()->0, w.left.subrange(c, k)),
                Y::false_spec(),
            ),
    decreases n,
{
    let inf = |k: int| conjoined(w.phi_held()->0, w.left.subrange(c, k));
    lemma_phi_inf(w, c, n);
    if n == c {
        assert forall|d: Time| #[trigger]
            has_died(w, c, n, d) <==> w.phi_died(n as nat) == Some(d) by {
            if w.phi_died(n as nat) == Some(d) {
                assert(Y::same_spec(
                    conjoined(w.phi_held()->0, w.left.subrange(c, c)),
                    Y::false_spec(),
                ));
            }
        }
    } else {
        lemma_died(w, c, n - 1);
        assert forall|d: Time| #[trigger]
            has_died(w, c, n, d) <==> w.phi_died(n as nat) == Some(d) by {
            if has_died(w, c, n - 1, d) {
                let m = choose|m: int|
                    {
                        &&& c <= m <= n - 1
                        &&& Y::same_spec(
                            #[trigger] conjoined(w.phi_held()->0, w.left.subrange(c, m)),
                            Y::false_spec(),
                        )
                        &&& forall|k: int|
                            c <= k < m ==> !Y::same_spec(
                                #[trigger] conjoined(w.phi_held()->0, w.left.subrange(c, k)),
                                Y::false_spec(),
                            )
                        &&& d == if m == c {
                            w.t
                        } else {
                            w.left[m - 1].timestamp
                        }
                    };
                assert(c <= m <= n);
                assert(has_died(w, c, n, d));
            }
            if has_died(w, c, n, d) {
                let m = choose|m: int|
                    {
                        &&& c <= m <= n
                        &&& Y::same_spec(
                            #[trigger] conjoined(w.phi_held()->0, w.left.subrange(c, m)),
                            Y::false_spec(),
                        )
                        &&& forall|k: int|
                            c <= k < m ==> !Y::same_spec(
                                #[trigger] conjoined(w.phi_held()->0, w.left.subrange(c, k)),
                                Y::false_spec(),
                            )
                        &&& d == if m == c {
                            w.t
                        } else {
                            w.left[m - 1].timestamp
                        }
                    };
                if m < n {
                    assert(c <= m <= n - 1);
                    assert(has_died(w, c, n - 1, d));
                } else {
                    if w.phi_died((n - 1) as nat) is Some {
                        let e = w.phi_died((n - 1) as nat)->0;
                        assert(has_died(w, c, n - 1, e));
                        assert(false);
                    }
                }
            }
            if w.phi_died(n as nat) == Some(d) && !has_died(w, c, n - 1, d) {
                assert(w.phi_died((n - 1) as nat) is None);
                assert(Y::same_spec(
                    conjoined(w.phi_held()->0, w.left.subrange(c, n)),
                    Y::false_spec(),
                ));
                assert(has_died(w, c, n, d));
            }
        }
    }
}

/// No witness at `t` or later is possible any more in eager mode: phi has died by then, either
/// before the window begins or no later than psi is known to, and both operands are known at
/// the time evaluated at.
pub proof fn witnesses_are_ruled_out_once_phi_has_died<Y: RobustnessSemantics>(
    w: WindowView<Y>,
    t: Time,
    c: int,
    n: int,
)
    requires
        w.t <= MAX_TIME,
        w.interval.start <= MAX_TIME,
        in_order(w.left),
        w.t <= t,
        is_count(w.left, w.t, c),
        is_count(w.left, t, n),
    ensures
        w.ruled_out(t) <==> {
            &&& w.eager
            &&& w.t <= w.left_known
            &&& w.t <= w.right_known
            &&& exists|d: Time| #[trigger]
                has_died(w, c, n, d) && (d < w.t + w.interval.start || d <= w.right_known)
        },
{
    lemma_count(w.left, w.t, c);
    lemma_count(w.left, t, n);
    lemma_count_upto_monotone(w.left, w.t, t);
    lemma_died(w, c, n);
    if w.phi_died(n as nat) is Some {
        assert(has_died(w, c, n, w.phi_died(n as nat)->0));
    }
}

proof fn lemma_within<Y>(s: Seq<Step<Y>>, from: Time, to: Time, t: Time)
    requires
        in_order(s),
        from <= to,
    ensures
        in_order(entries_within(s, from, to)),
        has_entry_at(entries_within(s, from, to), t) <==> from < t <= to && has_entry_at(s, t),
{
    lemma_count_upto(s, from);
    lemma_count_upto(s, to);
    lemma_count_upto_monotone(s, from, to);
    let a = count_upto(s, from) as int;
    let b = count_upto(s, to) as int;
    let part = entries_within(s, from, to);
    if has_entry_at(part, t) {
        let i = choose|i: int| 0 <= i < part.len() && (#[trigger] part[i]).timestamp == t;
        assert(s[a + i].timestamp == t);
    }
    if from < t <= to && has_entry_at(s, t) {
        let i = choose|i: int| 0 <= i < s.len() && (#[trigger] s[i]).timestamp == t;
        assert(part[i - a].timestamp == t);
    }
}

/// Witnesses are looked at where the window begins and at every verdict of either operand in it,
/// up to the newest sample: at no other time, at each once, and in time order.
pub proof fn witnesses_are_looked_for_at_every_verdict<Y: RobustnessSemantics>(
    w: WindowView<Y>,
    t: Time,
)
    requires
        w.wf(),
    ensures
        w.candidates().contains(t) <==> t <= w.now && t <= w.t + w.interval.end && (t == w.t
            + w.interval.start || t > w.t + w.interval.start && ((exists|i: int|
            0 <= i < w.left.len() && (#[trigger] w.left[i]).timestamp == t) || (exists|i: int|
            0 <= i < w.right.len() && (#[trigger] w.right[i]).timestamp == t))),
        forall|i: int, j: int|
            0 <= i < j < w.candidates().len() ==> (#[trigger] w.candidates()[i]) < (
            #[trigger] w.candidates()[j]),
{
    let times = w.candidates();
    if w.start() <= w.effective_end() {
        let l = entries_within(w.left, w.start(), w.effective_end());
        let r = entries_within(w.right, w.start(), w.effective_end());
        let rest = crate::binary_operators::merged(l, r);
        lemma_within(w.left, w.start(), w.effective_end(), t);
        lemma_within(w.right, w.start(), w.effective_end(), t);
        merged_lists_every_timestamp(l, r);
        assert(times[0] == w.start());
        assert forall|i: int| 0 < i < times.len() implies #[trigger] times[i] > w.start() by {
            assert(rest.contains(rest[i - 1]));
            lemma_within(w.left, w.start(), w.effective_end(), times[i]);
            lemma_within(w.right, w.start(), w.effective_end(), times[i]);
        }
        assert(has_entry_at(w.left, t) <==> exists|i: int|
            0 <= i < w.left.len() && (#[trigger] w.left[i]).timestamp == t);
        assert(has_entry_at(w.right, t) <==> exists|i: int|
            0 <= i < w.right.len() && (#[trigger] w.right[i]).timestamp == t);
        if times.contains(t) {
            let k = choose|k: int| 0 <= k < times.len() && times[k] == t;
            if k > 0 {
                assert(rest[k - 1] == t);
                assert(rest.contains(t));
            }
        }
        if rest.contains(t) {
            let k = choose|k: int| 0 <= k < rest.len() && rest[k] == t;
            assert(times[k + 1] == t);
        }
        assert forall|i: int, j: int| 0 <= i < j < times.len() implies (#[trigger] times[i]) < (
        #[trigger] times[j]) by {
            if i > 0 {
                assert(rest[i - 1] < rest[j - 1]);
            }
        }
    }
}

/// What the witnesses at `times` are worth in turn, up to the first one that is ruled out, which
/// counts as false and ends the search. `m` is how many come before it.
pub open spec fn is_search<Y: RobustnessSemantics>(
    w: WindowView<Y>,
    times: Seq<Time>,
    m: int,
    vs: Seq<Y>,
) -> bool {
    &&& 0 <= m <= times.len()
    &&& forall|i: int| 0 <= i < m ==> !(w.ruled_out(#[trigger] times[i]))
    &&& m < times.len() ==> w.ruled_out(times[m])
    &&& vs.len() == (if m < times.len() {
        m + 1
    } else {
        m
    })
    &&& forall|i: int|
        0 <= i < m ==> #[trigger] vs[i] == Y::and_spec(w.psi(times[i]), w.phi(times[i]))
    &&& m < times.len() ==> vs[m] == Y::false_spec()
}

proof fn lemma_search<Y: RobustnessSemantics>(
    w: WindowView<Y>,
    times: Seq<Time>,
    m: int,
    vs: Seq<Y>,
)
    requires
        is_search(w, times, m, vs),
    ensures
        w.best(times).1 == (m < times.len()),
        times.len() == 0 ==> w.best(times).0 is None,
        times.len() > 0 ==> w.best(times).0 == Some(disjoined(vs)),
    decreases times.len(),
{
    if times.len() > 0 {
        let p = times.drop_last();
        let n = times.len() - 1;
        assert(times[n] == times.last());
        assert forall|i: int| 0 <= i < n implies #[trigger] p[i] == times[i] by {}
        if m < n {
            assert(is_search(w, p, m, vs));
            lemma_search(w, p, m, vs);
        } else {
            let before = vs.drop_last();
            assert(vs.len() == n + 1);
            assert(is_search(w, p, n, before)) by {
                assert forall|i: int| 0 <= i < n implies #[trigger] before[i] == Y::and_spec(
                    w.psi(p[i]),
                    w.phi(p[i]),
                ) by {
                    assert(vs[i] == before[i]);
                }
            }
            lemma_search(w, p, n, before);
            if n == 0 {
                assert(vs.skip(1) =~= Seq::empty());
                assert(vs[0] == disjoined(vs));
            } else {
                assert(vs.skip(1).drop_last() =~= before.skip(1));
                assert(vs.skip(1).last() == vs[n]);
                assert(vs[0] == before[0]);
                assert(disjoined(vs) == Y::or_spec(disjoined(before), vs[n]));
            }
            assert(m == n || m == n + 1);
            if m == n {
                assert(vs[n] == Y::false_spec());
            } else {
                assert(vs[n] == Y::and_spec(w.psi(times[n]), w.phi(times[n])));
            }
        }
    }
}

/// What becomes of a window. Its value is the disjunction of what its witnesses are worth. That is
/// final once both operands cover the window; in eager mode also when it is true already, or no
/// further witness is possible. Where verdicts are refined it is given before, as what may still
/// get better. Nothing is said without a witness to look at, or of what phi does not hold at the
/// time evaluated at, and in delayed mode nothing before the window is covered.
pub proof fn windows_come_to_the_best_witness<Y: RobustnessSemantics>(
    w: WindowView<Y>,
    m: int,
    vs: Seq<Y>,
)
    requires
        w.t <= MAX_TIME,
        w.interval.start <= MAX_TIME,
        w.interval.end <= MAX_TIME,
        is_search(w, w.candidates(), m, vs),
    ensures
        ({
            let covered = w.t + w.interval.end <= w.left_settled && w.t + w.interval.end
                <= w.right_settled;
            let readable = w.phi_held() is Some && w.candidates().len() > 0;
            let v = disjoined(vs);
            let decided = w.eager && (Y::same_spec(v, Y::true_spec()) || m < w.candidates().len());
            &&& readable && (covered || decided) ==> w.outcome() == Outcome::Final(v)
            &&& readable && !covered && !decided && w.rosi ==> w.outcome() == Outcome::Open(
                Y::or_spec(v, Y::unknown_spec()),
            )
            &&& !readable || !covered && !decided && !w.rosi ==> w.outcome() is Wait
        }),
{
    lemma_search(w, w.candidates(), m, vs);
}

} // verus!
