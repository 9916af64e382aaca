//! What an interval given for an open window says of the verdict to come.

use crate::ring_buffer::{count_upto, in_force, lemma_count_upto, lemma_count_upto_monotone};
use crate::ring_buffer::lemma_count_upto_unique;
use crate::semantics::{Robustness, RobustnessInterval, RobustnessSemantics};
use crate::time::Time;
use crate::until_laws::{lemma_candidate_for, lemma_candidates_within, witness};
use crate::until_window::{lemma_candidates, Outcome, WindowView};
use vstd::prelude::*;

verus! {

/// A witness at `t_prime` is worth `b` or more, for operands that are known at every time.
pub open spec fn truly_worth(
    phi: spec_fn(Time) -> Robustness,
    psi: spec_fn(Time) -> Robustness,
    t: Time,
    t_prime: Time,
    b: Robustness,
) -> bool {
    &&& b.le(psi(t_prime))
    &&& forall|s: Time| t <= s <= t_prime ==> b.le(#[trigger] phi(s))
}

/// No witness in `[from, to]` is worth more than `bound`.
pub open spec fn truly_bounds(
    phi: spec_fn(Time) -> Robustness,
    psi: spec_fn(Time) -> Robustness,
    t: Time,
    from: Time,
    to: Time,
    bound: Robustness,
) -> bool {
    forall|t_prime: Time, b: Robustness|
        from <= t_prime <= to && #[trigger] truly_worth(phi, psi, t, t_prime, b) ==> b.le(bound)
}

/// `v` is what until is worth at `t`: the least bound on every witness.
pub open spec fn is_true_value(
    phi: spec_fn(Time) -> Robustness,
    psi: spec_fn(Time) -> Robustness,
    t: Time,
    from: Time,
    to: Time,
    v: Robustness,
) -> bool {
    &&& truly_bounds(phi, psi, t, from, to, v)
    &&& forall|u: Robustness| #[trigger] truly_bounds(phi, psi, t, from, to, u) ==> v.le(u)
}

/// The intervals known of the operands contain what the operands come to hold: phi as far as
/// it is settled, and psi as far as it is settled and at its own breakpoints past that.
pub open spec fn brackets(
    w: WindowView<RobustnessInterval>,
    phi: spec_fn(Time) -> Robustness,
    psi: spec_fn(Time) -> Robustness,
) -> bool {
    &&& forall|s: Time|
        w.t <= s <= w.left_settled ==> {
            &&& #[trigger] in_force(w.left, s) is Some
            &&& in_force(w.left, s)->0.value.contains(phi(s))
        }
    &&& forall|s: Time|
        #![trigger in_force(w.right, s)]
        w.start() <= s <= w.right_settled ==> {
            &&& in_force(w.right, s) is Some
            &&& in_force(w.right, s)->0.value.contains(psi(s))
        }
    &&& forall|s: Time|
        #![trigger in_force(w.right, s)]
        w.start() <= s <= w.right_known && in_force(w.right, s) is Some && in_force(
            w.right,
            s,
        )->0.timestamp == s ==> in_force(w.right, s)->0.value.contains(psi(s))
}

/// The infimum of phi brackets every lower bound of phi, as far as phi is settled.
proof fn lemma_phi_inf_lower(
    w: WindowView<RobustnessInterval>,
    phi: spec_fn(Time) -> Robustness,
    psi: spec_fn(Time) -> Robustness,
    c: Time,
    s: Time,
)
    requires
        w.wf(),
        brackets(w, phi, psi),
        w.t <= s <= c <= w.left_settled,
        w.t <= w.left_known,
    ensures
        w.phi_inf(count_upto(w.left, c)).0.le(phi(s)),
{
    let n = count_upto(w.left, c);
    let k = count_upto(w.left, s);
    lemma_count_upto_monotone(w.left, w.t, s);
    lemma_count_upto_monotone(w.left, s, c);
    lemma_count_upto(w.left, c);
    assert(in_force(w.left, s) is Some);
    assert(in_force(w.left, w.t) is Some);
    lemma_phi_inf_below(w, n, k);
}

/// The infimum over more verdicts is no better than any of them.
proof fn lemma_phi_inf_below(w: WindowView<RobustnessInterval>, n: nat, k: nat)
    requires
        w.wf(),
        w.t <= w.left_settled,
        w.phi_held() is Some,
        count_upto(w.left, w.t) <= k <= n <= w.left.len(),
        k > 0,
        in_force(w.left, w.t) is Some,
    ensures
        w.phi_inf(n).0.le(w.left[k - 1].value.0),
        k == count_upto(w.left, w.t) ==> w.phi_held()->0 == w.left[k - 1].value,
    decreases n,
{
    if n > k {
        lemma_phi_inf_below(w, (n - 1) as nat, k);
    }
}

/// The infimum of phi is no worse than what bounds phi at every time from below.
proof fn lemma_phi_inf_upper(
    w: WindowView<RobustnessInterval>,
    phi: spec_fn(Time) -> Robustness,
    psi: spec_fn(Time) -> Robustness,
    c: Time,
    n: nat,
    b: Robustness,
)
    requires
        w.wf(),
        brackets(w, phi, psi),
        w.t <= c <= w.left_settled,
        w.t <= w.left_known,
        count_upto(w.left, w.t) <= n <= count_upto(w.left, c),
        forall|s: Time| w.t <= s <= c ==> b.le(#[trigger] phi(s)),
    ensures
        b.le(w.phi_inf(n).1),
    decreases n,
{
    let from = count_upto(w.left, w.t);
    lemma_count_upto(w.left, w.t);
    lemma_count_upto(w.left, c);
    if n > from {
        lemma_phi_inf_upper(w, phi, psi, c, (n - 1) as nat, b);
        let s = w.left[n - 1].timestamp;
        lemma_count_upto_unique(w.left, s, n);
        assert(in_force(w.left, s) is Some);
        assert(b.le(phi(s)));
    } else {
        assert(in_force(w.left, w.t) is Some);
        assert(b.le(phi(w.t)));
    }
}

/// The best witness among `times`.
pub open spec fn found_in(w: WindowView<RobustnessInterval>, times: Seq<Time>) -> RobustnessInterval {
    w.best(times).0->0
}

/// What is found is no worse below than any lower bound of the witnesses, and no better than
/// the best of them.
proof fn lemma_best_interval(w: WindowView<RobustnessInterval>, times: Seq<Time>)
    requires
        !w.eager,
        times.len() > 0,
    ensures
        w.best(times).0 is Some,
        forall|u: Robustness|
            (forall|i: int| 0 <= i < times.len() ==> witness(w, #[trigger] times[i]).0.le(u))
                ==> #[trigger] found_in(w, times).0.le(u),
        forall|i: int|
            0 <= i < times.len() ==> {
                &&& witness(w, #[trigger] times[i]).0.le(found_in(w, times).0)
                &&& witness(w, times[i]).1.le(found_in(w, times).1)
            },
        !w.best(times).1,
    decreases times.len(),
{
    let head = times.drop_last();
    assert(times.last() == times[times.len() - 1]);
    if head.len() > 0 {
        lemma_best_interval(w, head);
        assert forall|u: Robustness|
            (forall|i: int|
                0 <= i < times.len() ==> witness(
                    w,
                    #[trigger] times[i],
                ).0.le(u)) implies #[trigger] found_in(w, times).0.le(u) by {
            assert forall|i: int| 0 <= i < head.len() implies witness(
                w,
                #[trigger] head[i],
            ).0.le(u) by {
                assert(head[i] == times[i]);
            }
            assert(found_in(w, head).0.le(u));
            assert(witness(w, times[times.len() - 1]).0.le(u));
        }
        assert forall|i: int| 0 <= i < times.len() implies {
            &&& witness(w, #[trigger] times[i]).0.le(found_in(w, times).0)
            &&& witness(w, times[i]).1.le(found_in(w, times).1)
        } by {
            if i < head.len() {
                assert(head[i] == times[i]);
            }
        }
    } else {
        assert(w.best(head) == (None::<RobustnessInterval>, false));
        assert forall|u: Robustness|
            (forall|i: int|
                0 <= i < times.len() ==> witness(
                    w,
                    #[trigger] times[i],
                ).0.le(u)) implies #[trigger] found_in(w, times).0.le(u) by {
            assert(witness(w, times[0]).0.le(u));
        }
    }
}

/// An interval given for a window contains what until turns out to be worth there, whether the
/// window is still open or not.
pub proof fn interval_brackets_the_dense_verdict(
    w: WindowView<RobustnessInterval>,
    phi: spec_fn(Time) -> Robustness,
    psi: spec_fn(Time) -> Robustness,
    v: Robustness,
)
    requires
        w.wf(),
        w.rosi,
        !w.eager,
        w.left_settled <= w.left_known,
        w.right_settled <= w.right_known,
        w.covered() ==> w.end() <= w.now,
        brackets(w, phi, psi),
        is_true_value(phi, psi, w.t, w.start(), w.end(), v),
    ensures
        w.outcome() matches Outcome::Open(interval) ==> interval.contains(v),
        w.outcome() matches Outcome::Final(interval) ==> interval.contains(v),
{
    let times = w.candidates();
    if w.start() <= w.effective_end() && w.phi_held() is Some {
        lemma_candidates(w);
        lemma_candidates_within(w);
        assert(times[0] == w.start());
        lemma_best_interval(w, times);
        let found = found_in(w, times);
        // Below: what is found at a candidate is really worth that much.
        assert forall|i: int| 0 <= i < times.len() implies witness(w, #[trigger] times[i]).0.le(
            v,
        ) by {
            let c = times[i];
            let b = witness(w, c).0;
            if b != Robustness::NegInfinity {
                assert(c <= w.left_settled);
                assert(b.le(psi(c))) by {
                    lemma_count_upto(w.right, c);
                    assert(in_force(w.right, c) is Some);
                }
                assert forall|s: Time| w.t <= s <= c implies b.le(#[trigger] phi(s)) by {
                    lemma_phi_inf_lower(w, phi, psi, c, s);
                }
                assert(truly_worth(phi, psi, w.t, c, b));
            }
        }
        assert(found.0.le(v));
        // Above: once the window is covered, no witness can be better than what is found.
        if w.covered() {
            assert(truly_bounds(phi, psi, w.t, w.start(), w.end(), found.1)) by {
                assert forall|t_prime: Time, b: Robustness|
                    w.start() <= t_prime <= w.end() && #[trigger] truly_worth(
                        phi,
                        psi,
                        w.t,
                        t_prime,
                        b,
                    ) implies b.le(found.1) by {
                    let k = lemma_candidate_for(w, t_prime);
                    let c = times[k];
                    lemma_count_upto_monotone(w.left, w.t, c);
                    lemma_phi_inf_upper(w, phi, psi, c, count_upto(w.left, c), b);
                    assert(in_force(w.right, t_prime) is Some);
                    assert(in_force(w.right, c) is Some);
                    assert(b.le(witness(w, c).1));
                }
            }
        }
    }
}

/// An interval given for an open window only narrows: as long as what is read of the operands
/// only gets better known from below, and is looked at again, so does what is given; and from
/// above an open window is not bounded at all.
pub proof fn open_interval_only_narrows(
    w: WindowView<RobustnessInterval>,
    later: WindowView<RobustnessInterval>,
    after: RobustnessInterval,
)
    requires
        w.wf(),
        later.wf(),
        w.rosi,
        later.rosi,
        !w.eager,
        !later.eager,
        w.t == later.t,
        w.interval == later.interval,
        forall|s: Time|
            w.start() <= s <= w.effective_end() ==> {
                &&& (#[trigger] w.psi(s)).0.le(later.psi(s).0)
                &&& w.phi(s).0.le(later.phi(s).0)
                &&& s <= later.now || witness(w, s).0 == Robustness::NegInfinity
            },
        w.outcome() is Open,
        later.outcome() == Outcome::Open(after) || later.outcome() == Outcome::Final(after),
    ensures
        after.within(w.outcome()->Open_0),
{
    let times = w.candidates();
    let times2 = later.candidates();
    lemma_candidates(w);
    lemma_candidates_within(w);
    assert(times.len() > 0) by {
        if times.len() == 0 {
            assert(w.best(times).0 is None);
        }
    }
    assert(times2.len() > 0) by {
        if times2.len() == 0 {
            assert(later.best(times2).0 is None);
        }
    }
    lemma_best_interval(w, times);
    lemma_best_interval(later, times2);
    let bound = found_in(later, times2).0;
    assert forall|i: int| 0 <= i < times.len() implies witness(w, #[trigger] times[i]).0.le(
        bound,
    ) by {
        let c = times[i];
        assert(w.psi(c).0.le(later.psi(c).0));
        assert(w.phi(c).0.le(later.phi(c).0));
        if c <= later.now {
            let k = lemma_candidate_for(later, c);
            let c2 = times2[k];
            lemma_read_below(later, c2, c);
            assert(witness(later, c2).0.le(bound));
        }
    }
    assert(found_in(w, times).0.le(bound));
}

/// From below nothing is better known at a time than at the candidate before it.
proof fn lemma_read_below(w: WindowView<RobustnessInterval>, c: Time, t_prime: Time)
    requires
        w.wf(),
        w.rosi,
        w.start() <= c <= t_prime,
        count_upto(w.left, c) == count_upto(w.left, t_prime),
        count_upto(w.right, c) == count_upto(w.right, t_prime),
    ensures
        w.psi(t_prime).0.le(w.psi(c).0),
        w.phi(t_prime).0.le(w.phi(c).0),
{
    lemma_count_upto(w.right, c);
    lemma_count_upto(w.right, t_prime);
}

} // verus!
