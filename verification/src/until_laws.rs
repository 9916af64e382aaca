//! What the verdict over a window means in dense time.
//!
//! A verdict of an operand holds from its timestamp up to the next one. Read that way, the
//! verdict of `phi U[a, b] psi` at `t` is the best over all times in `[t + a, t + b]`, not just
//! the breakpoints, of the worse of psi there and phi from `t` up to there.

use crate::binary_operators::{merged, merged_lists_every_timestamp};
use crate::ring_buffer::{count_upto, has_entry_at, in_force, lemma_count_upto};
use crate::ring_buffer::{lemma_count_upto_monotone, lemma_count_upto_unique, Step};
use crate::semantics::{at_most, bool_is_lattice, is_bounded, is_lattice, lattice_laws_at};
use crate::semantics::RobustnessSemantics;
use crate::time::Time;
use crate::until_window::{entries_within, lemma_candidates, lemma_entries_within};
use crate::until_window::{Outcome, WindowView};
use vstd::prelude::*;

verus! {

/// What an operand holds at `t`.
pub open spec fn value_at<Y>(s: Seq<Step<Y>>, t: Time) -> Y {
    in_force(s, t)->0.value
}

/// An operand holds a value all the way from `from` to `to`.
pub open spec fn holds_throughout<Y>(s: Seq<Step<Y>>, from: Time, to: Time) -> bool {
    forall|t: Time| from <= t <= to ==> #[trigger] in_force(s, t) is Some
}

/// A witness at `t_prime` is worth `b` or more: so is psi there, and phi from `t` to there.
pub open spec fn is_worth<Y: RobustnessSemantics>(
    phi: Seq<Step<Y>>,
    psi: Seq<Step<Y>>,
    t: Time,
    t_prime: Time,
    b: Y,
) -> bool {
    &&& at_most(b, value_at(psi, t_prime))
    &&& forall|s: Time| t <= s <= t_prime ==> at_most(b, #[trigger] value_at(phi, s))
}

/// No witness in `[from, to]` is worth more than `bound`.
pub open spec fn bounds_every_witness<Y: RobustnessSemantics>(
    phi: Seq<Step<Y>>,
    psi: Seq<Step<Y>>,
    t: Time,
    from: Time,
    to: Time,
    bound: Y,
) -> bool {
    forall|t_prime: Time, b: Y|
        from <= t_prime <= to && #[trigger] is_worth(phi, psi, t, t_prime, b) ==> at_most(b, bound)
}

/// `v` is what until is worth at `t` in dense time: the least bound on every witness.
pub open spec fn is_until_value<Y: RobustnessSemantics>(
    phi: Seq<Step<Y>>,
    psi: Seq<Step<Y>>,
    t: Time,
    from: Time,
    to: Time,
    v: Y,
) -> bool {
    &&& bounds_every_witness(phi, psi, t, from, to, v)
    &&& forall|u: Y| #[trigger] bounds_every_witness(phi, psi, t, from, to, u) ==> at_most(v, u)
}

/// The order of a lattice: disjunction is the least upper and conjunction the greatest lower
/// bound.
pub proof fn lattice_order<Y: RobustnessSemantics>(a: Y, b: Y, c: Y)
    requires
        is_lattice::<Y>(),
    ensures
        at_most(a, a),
        at_most(a, b) && at_most(b, c) ==> at_most(a, c),
        at_most(a, b) && at_most(b, a) ==> a == b,
        at_most(a, Y::or_spec(a, b)),
        at_most(b, Y::or_spec(a, b)),
        at_most(Y::or_spec(a, b), c) <==> at_most(a, c) && at_most(b, c),
        at_most(c, Y::and_spec(a, b)) <==> at_most(c, a) && at_most(c, b),
{
    let j = Y::or_spec(a, b);
    let m = Y::and_spec(a, b);
    lemma_idempotent(a);
    lemma_idempotent(b);
    assert(lattice_laws_at(a, b, c));
    assert(lattice_laws_at(b, a, c));
    assert(lattice_laws_at(a, a, b));
    assert(lattice_laws_at(b, b, a));
    assert(lattice_laws_at(a, j, c));
    assert(lattice_laws_at(b, j, c));
    lemma_at_most_by_and(c, a);
    lemma_at_most_by_and(c, b);
    lemma_at_most_by_and(c, m);
    assert(lattice_laws_at(c, a, b));
    assert(Y::and_spec(m, a) == m) by {
        assert(lattice_laws_at(m, a, a));
    }
    assert(Y::and_spec(m, b) == m) by {
        assert(lattice_laws_at(m, b, b));
    }
    assert(lattice_laws_at(c, m, a));
    assert(lattice_laws_at(c, m, b));
}

proof fn lemma_idempotent<Y: RobustnessSemantics>(a: Y)
    requires
        is_lattice::<Y>(),
    ensures
        Y::and_spec(a, a) == a,
        Y::or_spec(a, a) == a,
{
    assert(lattice_laws_at(a, a, a));
    assert(lattice_laws_at(a, Y::and_spec(a, a), a));
    assert(lattice_laws_at(a, Y::or_spec(a, a), a));
}

proof fn lemma_at_most_by_and<Y: RobustnessSemantics>(a: Y, b: Y)
    requires
        is_lattice::<Y>(),
    ensures
        at_most(a, b) <==> Y::and_spec(a, b) == a,
{
    assert(lattice_laws_at(a, b, a));
    assert(lattice_laws_at(b, a, a));
}

/// The infimum of phi is its greatest lower bound.
proof fn lemma_phi_inf<Y: RobustnessSemantics>(w: WindowView<Y>, n: nat, b: Y)
    requires
        is_lattice::<Y>(),
        count_upto(w.left, w.t) <= n,
    ensures
        at_most(b, w.phi_inf(n)) <==> at_most(b, w.phi_held()->0) && forall|i: int|
            count_upto(w.left, w.t) <= i < n ==> at_most(b, (#[trigger] w.left[i]).value),
    decreases n,
{
    let from = count_upto(w.left, w.t);
    if n > from {
        let p = (n - 1) as nat;
        lemma_phi_inf(w, p, b);
        lattice_order(w.phi_inf(p), w.left[n - 1].value, b);
        if at_most(b, w.phi_held()->0) && forall|i: int|
            from <= i < n ==> at_most(b, (#[trigger] w.left[i]).value) {
            assert(at_most(b, w.left[n - 1].value));
        }
        if at_most(b, w.phi_inf(n)) {
            assert forall|i: int| from <= i < n implies at_most(b, (#[trigger] w.left[i]).value) by {
                if i < p {
                }
            }
        }
    }
}

/// Phi is at least `b` all the way from `t` to `t_prime` exactly if it is at `t` and at each
/// breakpoint since.
proof fn lemma_phi_throughout<Y: RobustnessSemantics>(w: WindowView<Y>, t_prime: Time, b: Y)
    requires
        w.wf(),
        w.t <= t_prime,
        holds_throughout(w.left, w.t, t_prime),
    ensures
        (forall|s: Time| w.t <= s <= t_prime ==> at_most(b, #[trigger] value_at(w.left, s))) <==> (
        at_most(b, value_at(w.left, w.t)) && forall|i: int|
            count_upto(w.left, w.t) <= i < count_upto(w.left, t_prime) ==> at_most(
                b,
                (#[trigger] w.left[i]).value,
            )),
{
    let from = count_upto(w.left, w.t);
    let n = count_upto(w.left, t_prime);
    lemma_count_upto(w.left, w.t);
    lemma_count_upto(w.left, t_prime);
    if forall|s: Time| w.t <= s <= t_prime ==> at_most(b, #[trigger] value_at(w.left, s)) {
        assert(at_most(b, value_at(w.left, w.t)));
        assert forall|i: int| from <= i < n implies at_most(b, (#[trigger] w.left[i]).value) by {
            let s = w.left[i].timestamp;
            lemma_count_upto_unique(w.left, s, (i + 1) as nat);
            assert(in_force(w.left, s) is Some);
            assert(at_most(b, value_at(w.left, s)));
        }
    }
    if at_most(b, value_at(w.left, w.t)) && forall|i: int|
        from <= i < n ==> at_most(b, (#[trigger] w.left[i]).value) {
        assert forall|s: Time| w.t <= s <= t_prime implies at_most(
            b,
            #[trigger] value_at(w.left, s),
        ) by {
            let k = count_upto(w.left, s);
            lemma_count_upto(w.left, s);
            lemma_count_upto_monotone(w.left, w.t, s);
            lemma_count_upto_monotone(w.left, s, t_prime);
            assert(in_force(w.left, s) is Some);
            assert(in_force(w.left, w.t) is Some);
            if k > from {
                assert(at_most(b, w.left[k - 1].value));
            }
        }
    }
}

/// Nothing changes between one candidate and the next, so every time of the window has the
/// same operand values as some candidate before it.
pub proof fn lemma_candidate_for<Y: RobustnessSemantics>(w: WindowView<Y>, t_prime: Time) -> (k: int)
    requires
        w.wf(),
        w.start() <= t_prime <= w.effective_end(),
    ensures
        0 <= k < w.candidates().len(),
        w.start() <= w.candidates()[k] <= t_prime,
        count_upto(w.left, w.candidates()[k]) == count_upto(w.left, t_prime),
        count_upto(w.right, w.candidates()[k]) == count_upto(w.right, t_prime),
{
    let from = w.start();
    let to = w.effective_end();
    let l = entries_within(w.left, from, to);
    let r = entries_within(w.right, from, to);
    lemma_entries_within(w.left, from, to);
    lemma_entries_within(w.right, from, to);
    merged_lists_every_timestamp(l, r);
    let times = w.candidates();
    let n = count_upto(w.left, t_prime);
    let m = count_upto(w.right, t_prime);
    lemma_count_upto(w.left, t_prime);
    lemma_count_upto(w.right, t_prime);
    let a = if n > 0 && w.left[n - 1].timestamp > from {
        w.left[n - 1].timestamp
    } else {
        from
    };
    let b = if m > 0 && w.right[m - 1].timestamp > from {
        w.right[m - 1].timestamp
    } else {
        from
    };
    let c = if a <= b {
        b
    } else {
        a
    };
    lemma_count_upto_unique(w.left, c, n);
    lemma_count_upto_unique(w.right, c, m);
    if c == from {
        assert(times[0] == from);
        0
    } else {
        if c == a {
            assert(has_entry_at(w.left, c));
        } else {
            assert(has_entry_at(w.right, c));
        }
        assert(merged(l, r).contains(c));
        let i = choose|i: int| 0 <= i < merged(l, r).len() && merged(l, r)[i] == c;
        assert(times[i + 1] == c);
        i + 1
    }
}

/// The verdict of a witness at `t_prime` in a window.
pub open spec fn witness<Y: RobustnessSemantics>(w: WindowView<Y>, t_prime: Time) -> Y {
    Y::and_spec(w.psi(t_prime), w.phi(t_prime))
}

/// Once phi has died its infimum stays false.
proof fn lemma_died_stays<Y: RobustnessSemantics>(w: WindowView<Y>, n: nat, m: nat)
    requires
        is_bounded::<Y>(),
        n <= m,
        w.phi_died(n) is Some,
    ensures
        w.phi_died(m) == w.phi_died(n),
        w.phi_inf(m) == Y::false_spec(),
    decreases m,
{
    if m <= count_upto(w.left, w.t) {
        assert(n <= count_upto(w.left, w.t));
        assert(w.phi_inf(n) == w.phi_inf(m));
        assert(Y::same_spec(w.phi_inf(n), Y::false_spec()));
    } else if n < m {
        lemma_died_stays(w, n, (m - 1) as nat);
        assert(Y::and_spec(Y::false_spec(), w.left[m - 1].value) == Y::false_spec());
    } else {
        if w.phi_died((m - 1) as nat) is Some {
            lemma_died_stays(w, (m - 1) as nat, (m - 1) as nat);
            assert(Y::and_spec(Y::false_spec(), w.left[m - 1].value) == Y::false_spec());
        } else {
            assert(Y::same_spec(w.phi_inf(m), Y::false_spec()));
        }
    }
}

/// What is found is the least upper bound of the witnesses at the candidates.
proof fn lemma_best<Y: RobustnessSemantics>(w: WindowView<Y>, times: Seq<Time>)
    requires
        is_lattice::<Y>(),
        is_bounded::<Y>(),
        w.wf(),
        times.len() > 0,
        forall|i: int| 0 <= i < times.len() ==> (#[trigger] times[i]) <= w.left_settled,
        crate::binary_operators::rising(times),
    ensures
        w.best(times).0 is Some,
        forall|i: int|
            0 <= i < times.len() ==> at_most(
                witness(w, #[trigger] times[i]),
                w.best(times).0->0,
            ),
        forall|u: Y|
            (forall|i: int| 0 <= i < times.len() ==> at_most(witness(w, #[trigger] times[i]), u))
                ==> #[trigger] at_most(w.best(times).0->0, u),
        w.best(times).1 ==> w.ruled_out(times.last()),
    decreases times.len(),
{
    let head = times.drop_last();
    let last = times.last();
    let v = w.best(times).0->0;
    assert(last == times[times.len() - 1]);
    let found = w.best(head);
    let bottom = Y::false_spec();
    if head.len() > 0 {
        assert forall|i: int| 0 <= i < head.len() implies (#[trigger] head[i])
            <= w.left_settled by {
            assert(head[i] == times[i]);
        }
        lemma_best(w, head);
        lemma_count_upto_monotone(w.left, head.last(), last);
    }
    // A time that is ruled out adds nothing: phi is false there.
    let gone = found.1 || w.ruled_out(last);
    if gone {
        if found.1 {
            lemma_died_stays(
                w,
                count_upto(w.left, head.last()),
                count_upto(w.left, last),
            );
        } else {
            lemma_died_stays(w, count_upto(w.left, last), count_upto(w.left, last));
        }
        assert(w.phi(last) == bottom);
        assert(witness(w, last) == bottom) by {
            assert(Y::and_spec(bottom, w.psi(last)) == bottom);
            assert(lattice_laws_at(w.psi(last), bottom, bottom));
        }
    }
    let added = witness(w, last);
    assert forall|u: Y| #[trigger] at_most(bottom, u) by {
        lemma_at_most_by_and(bottom, u);
    }
    if head.len() > 0 && !found.1 {
        let f = found.0->0;
        assert(v == Y::or_spec(f, added));
        assert forall|i: int| 0 <= i < times.len() implies at_most(
            witness(w, #[trigger] times[i]),
            v,
        ) by {
            lattice_order(f, added, v);
            if i < head.len() {
                assert(head[i] == times[i]);
                lattice_order(witness(w, times[i]), f, v);
            }
        }
        assert forall|u: Y|
            (forall|i: int|
                0 <= i < times.len() ==> at_most(
                    witness(w, #[trigger] times[i]),
                    u,
                )) implies #[trigger] at_most(v, u) by {
            assert forall|i: int| 0 <= i < head.len() implies at_most(
                witness(w, #[trigger] head[i]),
                u,
            ) by {
                assert(head[i] == times[i]);
            }
            assert(at_most(f, u));
            assert(at_most(witness(w, times[times.len() - 1]), u));
            lattice_order(f, added, u);
        }
    } else if head.len() > 0 {
        assert(v == found.0->0);
        assert forall|i: int| 0 <= i < times.len() implies at_most(
            witness(w, #[trigger] times[i]),
            v,
        ) by {
            if i < head.len() {
                assert(head[i] == times[i]);
            }
        }
        assert forall|u: Y|
            (forall|i: int|
                0 <= i < times.len() ==> at_most(
                    witness(w, #[trigger] times[i]),
                    u,
                )) implies #[trigger] at_most(v, u) by {
            assert forall|i: int| 0 <= i < head.len() implies at_most(
                witness(w, #[trigger] head[i]),
                u,
            ) by {
                assert(head[i] == times[i]);
            }
        }
    } else {
        assert(v == added);
        lattice_order(added, added, added);
        assert forall|u: Y|
            (forall|i: int|
                0 <= i < times.len() ==> at_most(
                    witness(w, #[trigger] times[i]),
                    u,
                )) implies #[trigger] at_most(v, u) by {
            assert(at_most(witness(w, times[0]), u));
        }
    }
}

/// Over a window that both operands cover, the verdict is final and is what until is worth in
/// dense time.
pub proof fn covered_window_has_the_dense_verdict<Y: RobustnessSemantics>(w: WindowView<Y>)
    requires
        is_lattice::<Y>(),
        is_bounded::<Y>(),
        w.wf(),
        !w.rosi,
        w.left_settled == w.left_known,
        w.right_settled == w.right_known,
        w.covered(),
        w.interval.start <= w.interval.end,
        w.end() <= w.now,
        holds_throughout(w.left, w.t, w.end()),
        holds_throughout(w.right, w.start(), w.end()),
    ensures
        w.outcome() is Final,
        is_until_value(w.left, w.right, w.t, w.start(), w.end(), w.outcome()->Final_0),
{
    let times = w.candidates();
    lemma_candidates(w);
    lemma_candidates_within(w);
    assert(in_force(w.left, w.t) is Some);
    assert(times[0] == w.start());
    lemma_best(w, times);
    let v = w.best(times).0->0;
    assert(w.outcome() == Outcome::Final(v));
    // A witness anywhere is worth what the one at the candidate before it is.
    assert forall|t_prime: Time, b: Y|
        w.start() <= t_prime <= w.end() && #[trigger] is_worth(
            w.left,
            w.right,
            w.t,
            t_prime,
            b,
        ) implies at_most(b, v) by {
        let k = lemma_candidate_for(w, t_prime);
        lemma_witness_worth(w, t_prime, times[k], b);
        lattice_order(b, witness(w, times[k]), v);
    }
    assert forall|u: Y| #[trigger]
        bounds_every_witness(w.left, w.right, w.t, w.start(), w.end(), u) implies at_most(v, u) by {
        assert forall|i: int| 0 <= i < times.len() implies at_most(
            witness(w, #[trigger] times[i]),
            u,
        ) by {
            let b = witness(w, times[i]);
            lattice_order(b, b, b);
            lemma_witness_worth(w, times[i], times[i], b);
            assert(is_worth(w.left, w.right, w.t, times[i], b));
        }
    }
}

/// The candidates lie within the window.
pub proof fn lemma_candidates_within<Y: RobustnessSemantics>(w: WindowView<Y>)
    requires
        w.wf(),
        w.start() <= w.effective_end(),
    ensures
        forall|i: int|
            0 <= i < w.candidates().len() ==> w.start() <= #[trigger] w.candidates()[i]
                <= w.effective_end(),
{
    let from = w.start();
    let to = w.effective_end();
    let l = entries_within(w.left, from, to);
    let r = entries_within(w.right, from, to);
    lemma_entries_within(w.left, from, to);
    lemma_entries_within(w.right, from, to);
    merged_lists_every_timestamp(l, r);
    let times = w.candidates();
    assert forall|i: int| 0 <= i < times.len() implies from <= #[trigger] times[i] <= to by {
        if i > 0 {
            assert(times[i] == merged(l, r)[i - 1]);
            assert(merged(l, r).contains(times[i]));
        }
    }
}

/// The verdict of a witness says exactly what it is worth.
proof fn lemma_witness_worth<Y: RobustnessSemantics>(
    w: WindowView<Y>,
    t_prime: Time,
    candidate: Time,
    b: Y,
)
    requires
        is_lattice::<Y>(),
        w.wf(),
        !w.rosi,
        w.left_settled == w.left_known,
        w.right_settled == w.right_known,
        w.covered(),
        w.start() <= candidate <= t_prime <= w.end(),
        holds_throughout(w.left, w.t, w.end()),
        holds_throughout(w.right, w.start(), w.end()),
        count_upto(w.left, candidate) == count_upto(w.left, t_prime),
        count_upto(w.right, candidate) == count_upto(w.right, t_prime),
    ensures
        is_worth(w.left, w.right, w.t, t_prime, b) <==> at_most(b, witness(w, candidate)),
{
    let n = count_upto(w.left, candidate);
    assert(in_force(w.left, w.t) is Some);
    assert(in_force(w.right, candidate) is Some);
    assert(in_force(w.right, t_prime) is Some);
    lemma_count_upto_monotone(w.left, w.t, candidate);
    lemma_phi_inf(w, n, b);
    lemma_phi_throughout(w, t_prime, b);
    lattice_order(w.psi(candidate), w.phi(candidate), b);
    assert(w.psi(candidate) == value_at(w.right, t_prime));
    assert(w.phi(candidate) == w.phi_inf(n));
}

/// Over a window that both operands cover, until is true exactly if there is a witness: a time
/// in the window at which psi is true, with phi true from `t` up to and including it.
pub proof fn covered_window_is_true_iff_there_is_a_witness(w: WindowView<bool>)
    requires
        w.wf(),
        !w.rosi,
        w.left_settled == w.left_known,
        w.right_settled == w.right_known,
        w.covered(),
        w.interval.start <= w.interval.end,
        w.end() <= w.now,
        holds_throughout(w.left, w.t, w.end()),
        holds_throughout(w.right, w.start(), w.end()),
    ensures
        w.outcome() == Outcome::Final(
            exists|t_prime: Time| #[trigger]
                is_witness(w.left, w.right, w.t, w.start(), w.end(), t_prime),
        ),
{
    bool_is_lattice();
    covered_window_has_the_dense_verdict(w);
    let v = w.outcome()->Final_0;
    if exists|t_prime: Time| #[trigger]
        is_witness(w.left, w.right, w.t, w.start(), w.end(), t_prime) {
        let t_prime = choose|t_prime: Time| #[trigger]
            is_witness(w.left, w.right, w.t, w.start(), w.end(), t_prime);
        assert(is_worth(w.left, w.right, w.t, t_prime, true));
        assert(at_most(true, v));
    } else {
        assert(bounds_every_witness(w.left, w.right, w.t, w.start(), w.end(), false)) by {
            assert forall|t_prime: Time, b: bool|
                w.start() <= t_prime <= w.end() && #[trigger] is_worth(
                    w.left,
                    w.right,
                    w.t,
                    t_prime,
                    b,
                ) implies at_most(b, false) by {
                if b {
                    assert forall|s: Time| w.t <= s <= t_prime implies #[trigger] value_at(
                        w.left,
                        s,
                    ) by {
                        assert(at_most(b, value_at(w.left, s)));
                    }
                    assert(is_witness(w.left, w.right, w.t, w.start(), w.end(), t_prime));
                }
            }
        }
        assert(at_most(v, false));
    }
}

/// Psi is true at `t_prime`, in `[from, to]`, and phi from `t` to there.
pub open spec fn is_witness(
    phi: Seq<Step<bool>>,
    psi: Seq<Step<bool>>,
    t: Time,
    from: Time,
    to: Time,
    t_prime: Time,
) -> bool {
    &&& from <= t_prime <= to
    &&& value_at(psi, t_prime)
    &&& forall|s: Time| t <= s <= t_prime ==> #[trigger] value_at(phi, s)
}

/// In delayed mode nothing is said of a window before both operands cover it, and what is said
/// then is final.
pub proof fn delayed_verdict_waits_for_both_operands<Y: RobustnessSemantics>(w: WindowView<Y>)
    requires
        !w.eager,
        !w.rosi,
    ensures
        !w.covered() ==> w.outcome() is Wait,
        !(w.outcome() is Open),
{
}

/// `w` and `later` evaluate the same window, and `later` holds all along what `w` knows.
pub open spec fn is_known_by(w: WindowView<bool>, later: WindowView<bool>) -> bool {
    &&& w.t == later.t
    &&& w.interval == later.interval
    &&& forall|s: Time|
        w.t <= s <= w.left_known ==> #[trigger] in_force(w.left, s) == in_force(later.left, s)
    &&& forall|s: Time|
        w.t <= s <= w.right_known ==> #[trigger] in_force(w.right, s) == in_force(later.right, s)
}

/// Whether what was found is true, some witness is.
proof fn lemma_best_true(w: WindowView<bool>, times: Seq<Time>) -> (k: int)
    requires
        w.best(times).0 == Some(true),
    ensures
        0 <= k < times.len(),
        witness(w, times[k]),
    decreases times.len(),
{
    let head = times.drop_last();
    if w.best(head).0 == Some(true) {
        let k = lemma_best_true(w, head);
        assert(head[k] == times[k]);
        k
    } else {
        times.len() - 1
    }
}

/// If what was found is false, no witness is true before the search was given up.
proof fn lemma_best_false(w: WindowView<bool>, times: Seq<Time>, k: int)
    requires
        w.best(times).0 == Some(false),
        0 <= k < times.len(),
        !w.best(times.take(k + 1)).1,
    ensures
        !witness(w, times[k]),
    decreases times.len(),
{
    let head = times.drop_last();
    if k == times.len() - 1 {
        assert(times.take(k + 1) =~= times);
    } else {
        assert(head.take(k + 1) =~= times.take(k + 1));
        assert(head[k] == times[k]);
        assert(w.best(head).0 is Some) by {
            lemma_best_some(w, head);
        }
        lemma_best_false(w, head, k);
    }
}

pub proof fn lemma_best_some<Y: RobustnessSemantics>(w: WindowView<Y>, times: Seq<Time>)
    requires
        times.len() > 0,
    ensures
        w.best(times).0 is Some,
    decreases times.len(),
{
    if times.len() > 1 {
        lemma_best_some(w, times.drop_last());
    } else {
        assert(w.best(times.drop_last()) == (None::<Y>, false));
    }
}

/// Where the search was given up: phi was false by then, at the time it died.
proof fn lemma_given_up(w: WindowView<bool>, times: Seq<Time>) -> (k: int)
    requires
        w.best(times).1,
    ensures
        0 <= k < times.len(),
        w.ruled_out(times[k]),
        !w.best(times.take(k)).1,
    decreases times.len(),
{
    let head = times.drop_last();
    if w.best(head).1 {
        let k = lemma_given_up(w, head);
        assert(head[k] == times[k]);
        assert(head.take(k) =~= times.take(k));
        k
    } else {
        assert(times.take(times.len() - 1) =~= head);
        times.len() - 1
    }
}

/// Phi is false where it died.
proof fn lemma_died_false(w: WindowView<bool>, n: nat)
    requires
        w.wf(),
        !w.rosi,
        w.phi_held() is Some,
        w.phi_died(n) is Some,
        count_upto(w.left, w.t) <= n <= w.left.len(),
    ensures
        w.t <= w.phi_died(n)->0,
        w.phi_died(n)->0 == w.t ==> !value_at(w.left, w.t),
        w.phi_died(n)->0 != w.t ==> exists|i: int|
            count_upto(w.left, w.t) <= i < n && (#[trigger] w.left[i]).timestamp == w.phi_died(n)->0
                && !w.left[i].value,
    decreases n,
{
    let from = count_upto(w.left, w.t);
    lemma_count_upto(w.left, w.t);
    if n > from {
        let p = (n - 1) as nat;
        if w.phi_died(p) is Some {
            lemma_died_false(w, p);
        } else {
            lemma_alive(w, p);
            assert(w.left[n - 1].timestamp == w.phi_died(n)->0);
            assert(!w.left[n - 1].value);
        }
    }
}

/// As long as phi has not died its infimum is true.
proof fn lemma_alive(w: WindowView<bool>, n: nat)
    requires
        w.phi_died(n) is None,
    ensures
        w.phi_inf(n),
    decreases n,
{
    if n > count_upto(w.left, w.t) {
        lemma_alive(w, (n - 1) as nat);
    }
}

/// A true witness in a window is one in dense time.
proof fn lemma_true_witness(w: WindowView<bool>, later: WindowView<bool>, c: Time)
    requires
        w.wf(),
        !w.rosi,
        w.left_settled == w.left_known,
        w.phi_held() is Some,
        is_known_by(w, later),
        w.start() <= c <= w.end(),
        holds_throughout(later.left, w.t, w.end()),
        witness(w, c),
    ensures
        is_witness(later.left, later.right, w.t, w.start(), w.end(), c),
{
    assert(c <= w.left_known && c <= w.right_known);
    assert(in_force(w.right, c) == in_force(later.right, c));
    bool_is_lattice();
    let n = count_upto(w.left, c);
    lemma_count_upto_monotone(w.left, w.t, c);
    lemma_phi_inf(w, n, true);
    assert(holds_throughout(w.left, w.t, c)) by {
        assert forall|s: Time| w.t <= s <= c implies #[trigger] in_force(w.left, s) is Some by {
            assert(in_force(later.left, s) is Some);
        }
    }
    lemma_phi_throughout(w, c, true);
    assert forall|s: Time| w.t <= s <= c implies #[trigger] value_at(later.left, s) by {
        assert(in_force(w.left, s) == in_force(later.left, s));
        assert(at_most(true, value_at(w.left, s)));
    }
}

/// A verdict given early stands: whatever the operands go on to hold, the verdict over the
/// covered window is the same. This holds of operands that have no entry past the time they
/// are known to.
pub proof fn early_verdict_stands(w: WindowView<bool>, later: WindowView<bool>)
    requires
        w.wf(),
        later.wf(),
        !w.rosi,
        w.left_settled == w.left_known,
        w.right_settled == w.right_known,
        crate::ring_buffer::all_upto(w.left, w.left_known),
        w.covered() ==> w.end() <= w.now,
        is_known_by(w, later),
        !later.rosi,
        later.left_settled == later.left_known,
        later.right_settled == later.right_known,
        later.covered(),
        later.interval.start <= later.interval.end,
        later.end() <= later.now,
        holds_throughout(later.left, later.t, later.end()),
        holds_throughout(later.right, later.start(), later.end()),
        w.outcome() is Final,
    ensures
        later.outcome() == w.outcome(),
{
    covered_window_is_true_iff_there_is_a_witness(later);
    let times = w.candidates();
    let v = w.outcome()->Final_0;
    let dense = later.outcome()->Final_0;
    lemma_candidates_within(w);
    lemma_candidates(w);
    if v {
        let k = lemma_best_true(w, times);
        lemma_true_witness(w, later, times[k]);
        assert(is_witness(later.left, later.right, w.t, w.start(), w.end(), times[k]));
    } else if dense {
        let t_prime = choose|t_prime: Time| #[trigger]
            is_witness(later.left, later.right, later.t, later.start(), later.end(), t_prime);
        // How far witnesses are ruled out in `w`.
        if w.best(times).1 {
            let k = lemma_given_up(w, times);
            let n = count_upto(w.left, times[k]);
            lemma_count_upto(w.left, times[k]);
            lemma_count_upto_monotone(w.left, w.t, times[k]);
            lemma_died_false(w, n);
            let d = w.phi_died(n)->0;
            // Phi is false at `d`, so the witness lies before it.
            assert(d <= w.left_known && d <= times[k] && !value_at(w.left, d)) by {
                if d != w.t {
                    let i = choose|i: int|
                        count_upto(w.left, w.t) <= i < n && (#[trigger] w.left[i]).timestamp == d
                            && !w.left[i].value;
                    lemma_count_upto_unique(w.left, d, (i + 1) as nat);
                    assert(in_force(later.left, d) is Some);
                    assert(in_force(w.left, d) == in_force(later.left, d));
                }
            }
            assert(in_force(w.left, d) == in_force(later.left, d));
            if t_prime >= d {
                assert(value_at(later.left, d));
            }
            assert(t_prime < d);
            let c = lemma_candidate_for(w, t_prime);
            if c >= k {
                assert(times[k] <= times[c]);
            }
            assert(c < k);
            lemma_not_given_up(w, times, c + 1, k);
            lemma_best_false(w, times, c);
            lemma_witness_known(w, later, t_prime, times[c]);
        } else {
            let c = lemma_candidate_for(w, t_prime);
            assert(times.take(times.len() as int) =~= times);
            lemma_not_given_up(w, times, c + 1, times.len() as int);
            lemma_best_false(w, times, c);
            lemma_witness_known(w, later, t_prime, times[c]);
        }
    }
}

/// What has not been given up by `m` times was not by fewer.
proof fn lemma_not_given_up(w: WindowView<bool>, times: Seq<Time>, n: int, m: int)
    requires
        0 <= n <= m <= times.len(),
        !w.best(times.take(m)).1,
    ensures
        !w.best(times.take(n)).1,
    decreases m,
{
    if n < m {
        assert(times.take(m).drop_last() =~= times.take(m - 1));
        lemma_not_given_up(w, times, n, m - 1);
    }
}

/// A witness in dense time whose operands are known is a true one in the window.
proof fn lemma_witness_known(
    w: WindowView<bool>,
    later: WindowView<bool>,
    t_prime: Time,
    c: Time,
)
    requires
        w.wf(),
        !w.rosi,
        w.left_settled == w.left_known,
        w.phi_held() is Some,
        is_known_by(w, later),
        holds_throughout(later.left, w.t, w.end()),
        holds_throughout(later.right, w.start(), w.end()),
        is_witness(later.left, later.right, w.t, w.start(), w.end(), t_prime),
        t_prime <= w.left_known,
        t_prime <= w.right_known,
        w.start() <= c <= t_prime,
        count_upto(w.left, c) == count_upto(w.left, t_prime),
        count_upto(w.right, c) == count_upto(w.right, t_prime),
    ensures
        witness(w, c),
{
    bool_is_lattice();
    let n = count_upto(w.left, c);
    lemma_count_upto_monotone(w.left, w.t, c);
    lemma_phi_inf(w, n, true);
    assert(holds_throughout(w.left, w.t, t_prime)) by {
        assert forall|s: Time| w.t <= s <= t_prime implies #[trigger] in_force(
            w.left,
            s,
        ) is Some by {
            assert(in_force(later.left, s) is Some);
        }
    }
    lemma_phi_throughout(w, t_prime, true);
    assert forall|s: Time| w.t <= s <= t_prime implies at_most(
        true,
        #[trigger] value_at(w.left, s),
    ) by {
        assert(in_force(w.left, s) == in_force(later.left, s));
        assert(value_at(later.left, s));
    }
    assert(in_force(later.right, c) is Some);
    assert(in_force(w.right, c) == in_force(later.right, c));
    assert(in_force(w.right, t_prime) == in_force(later.right, t_prime));
    assert(in_force(later.right, t_prime) is Some);
}

} // verus!
