//! The verdict of an until over one window, from what is known of its operands.

use crate::binary_operators::{merged, rising};
use crate::ring_buffer::{count_upto, in_force, in_order, lemma_count_upto};
use crate::ring_buffer::{RingBufferTrait, Step};
use crate::semantics::RobustnessSemantics;
use crate::time::{earlier, min_time, Time, TimeInterval, MAX_TIME};
use vstd::prelude::*;

verus! {

/// What an entry in force at `t` is worth there. Under refinable semantics a value carried
/// past `settled_through` is still being refined.
pub open spec fn held<Y: RobustnessSemantics>(
    entry: Step<Y>,
    t: Time,
    settled_through: Time,
    rosi: bool,
) -> Y {
    if rosi && entry.timestamp < t && t > settled_through {
        Y::unknown_spec()
    } else {
        entry.value
    }
}

/// The value an operand holds at `t`, read off the cache entry in force there.
///
/// Under refinable semantics, a value carried forward past `settled_through` is still being
/// refined, so it reads as unknown.
pub fn held_value<Y: RobustnessSemantics, const IS_ROSI: bool>(
    entry: &Step<Y>,
    t: Time,
    settled_through: Time,
) -> (res: Y)
    ensures
        res == held(*entry, t, settled_through, IS_ROSI),
{
    if IS_ROSI && entry.timestamp < t && t > settled_through {
        Y::unknown()
    } else {
        entry.value
    }
}

/// The entries of an ordered cache after `from` and up to `to`.
pub open spec fn entries_within<Y>(s: Seq<Step<Y>>, from: Time, to: Time) -> Seq<Step<Y>> {
    if from <= to {
        s.subrange(count_upto(s, from) as int, count_upto(s, to) as int)
    } else {
        Seq::empty()
    }
}

/// The better of what was found so far and `value`.
pub open spec fn or_into<Y: RobustnessSemantics>(found: Option<Y>, value: Y) -> Option<Y> {
    match found {
        Some(best) => Some(Y::or_spec(best, value)),
        None => Some(value),
    }
}

/// One evaluation of `phi U[a, b] psi`.
pub struct WindowView<Y> {
    /// The verdicts of phi.
    pub left: Seq<Step<Y>>,
    /// The verdicts of psi.
    pub right: Seq<Step<Y>>,
    /// How far phi has reported.
    pub left_known: Time,
    /// How far psi has reported.
    pub right_known: Time,
    /// How far the verdicts of phi are final.
    pub left_settled: Time,
    /// How far the verdicts of psi are final.
    pub right_settled: Time,
    /// The time evaluated at.
    pub t: Time,
    pub interval: TimeInterval,
    /// The time of the newest sample.
    pub now: Time,
    pub eager: bool,
    pub rosi: bool,
}

impl<Y: RobustnessSemantics> WindowView<Y> {
    pub open spec fn wf(self) -> bool {
        &&& in_order(self.left)
        &&& in_order(self.right)
        &&& self.t <= MAX_TIME
        &&& self.interval.start <= MAX_TIME
        &&& self.interval.end <= MAX_TIME
    }

    pub open spec fn start(self) -> Time {
        (self.t + self.interval.start) as Time
    }

    pub open spec fn end(self) -> Time {
        (self.t + self.interval.end) as Time
    }

    /// The part of the window looked at ends here.
    pub open spec fn effective_end(self) -> Time {
        min_time(self.now, self.end())
    }

    /// Both operands are final through the end of the window.
    pub open spec fn covered(self) -> bool {
        self.left_settled >= self.end() && self.right_settled >= self.end()
    }

    /// What phi holds at the time evaluated at, if that is known.
    pub open spec fn phi_held(self) -> Option<Y> {
        if self.t <= self.left_known {
            match in_force(self.left, self.t) {
                Some(entry) => Some(held(entry, self.t, self.left_settled, self.rosi)),
                None => None,
            }
        } else {
            None
        }
    }

    /// The infimum of phi from the time evaluated at through its first `n` verdicts.
    pub open spec fn phi_inf(self, n: nat) -> Y
        decreases n,
    {
        if n <= count_upto(self.left, self.t) {
            self.phi_held()->0
        } else {
            Y::and_spec(self.phi_inf((n - 1) as nat), self.left[n - 1].value)
        }
    }

    /// When that infimum first was false, if it ever was.
    pub open spec fn phi_died(self, n: nat) -> Option<Time>
        decreases n,
    {
        if n <= count_upto(self.left, self.t) {
            if Y::same_spec(self.phi_inf(n), Y::false_spec()) {
                Some(self.t)
            } else {
                None
            }
        } else {
            match self.phi_died((n - 1) as nat) {
                Some(died) => Some(died),
                None => if Y::same_spec(self.phi_inf(n), Y::false_spec()) {
                    Some(self.left[n - 1].timestamp)
                } else {
                    None
                },
            }
        }
    }

    /// The obligation on phi for a witness at `t_prime`: its infimum since the time evaluated
    /// at, the witness included, as far as it is known.
    pub open spec fn phi(self, t_prime: Time) -> Y {
        let known = self.phi_inf(count_upto(self.left, t_prime));
        if t_prime <= self.left_settled {
            known
        } else if self.rosi {
            Y::and_spec(known, Y::unknown_spec())
        } else {
            Y::unknown_spec()
        }
    }

    /// What psi holds at `t_prime`, as far as it is known.
    pub open spec fn psi(self, t_prime: Time) -> Y {
        if t_prime <= self.right_known {
            match in_force(self.right, t_prime) {
                Some(entry) => held(entry, t_prime, self.right_settled, self.rosi),
                None => Y::unknown_spec(),
            }
        } else {
            Y::unknown_spec()
        }
    }

    /// Once phi has died, no witness is possible from then on. None is possible at all if psi
    /// is known up to there, or the window starts only later.
    pub open spec fn ruled_out(self, t_prime: Time) -> bool {
        &&& self.eager
        &&& self.phi_died(count_upto(self.left, t_prime)) matches Some(died) && (died
            < self.start() || self.right_known >= died)
        &&& min_time(self.left_known, self.right_known) >= self.t
    }

    /// The times at which a witness can begin to count: the start of the window, and every
    /// breakpoint inside it. The verdict of a witness only changes there.
    pub open spec fn candidates(self) -> Seq<Time> {
        if self.start() <= self.effective_end() {
            seq![self.start()] + merged(
                entries_within(self.left, self.start(), self.effective_end()),
                entries_within(self.right, self.start(), self.effective_end()),
            )
        } else {
            Seq::empty()
        }
    }

    /// The best witness among `times` up to the first at which none is possible any more, and
    /// whether there was such a time.
    pub open spec fn best(self, times: Seq<Time>) -> (Option<Y>, bool)
        decreases times.len(),
    {
        if times.len() == 0 {
            (None, false)
        } else {
            let found = self.best(times.drop_last());
            if found.1 {
                found
            } else if self.ruled_out(times.last()) {
                (or_into(found.0, Y::false_spec()), true)
            } else {
                (
                    or_into(
                        found.0,
                        Y::and_spec(self.psi(times.last()), self.phi(times.last())),
                    ),
                    false,
                )
            }
        }
    }

    /// What becomes of the time evaluated at.
    pub open spec fn outcome(self) -> Outcome<Y> {
        let (found, falsified) = self.best(self.candidates());
        if !self.eager && !self.rosi && !self.covered() {
            Outcome::Wait
        } else if self.phi_held() is None || found is None {
            Outcome::Wait
        } else if self.covered() {
            Outcome::Final(found->0)
        } else if self.eager && (Y::same_spec(found->0, Y::true_spec()) || falsified) {
            Outcome::Final(found->0)
        } else if self.rosi {
            Outcome::Open(Y::or_spec(found->0, Y::unknown_spec()))
        } else {
            Outcome::Wait
        }
    }
}

/// What becomes of a time waiting to be evaluated.
#[derive(Debug)]
pub enum Outcome<Y> {
    /// Nothing can be said yet.
    Wait,
    /// The verdict is final.
    Final(Y),
    /// The verdict can still be refined.
    Open(Y),
}

/// One evaluation of `phi U[a, b] psi`.
pub struct Window<'a, C> {
    pub left: &'a C,
    pub right: &'a C,
    pub left_known: Time,
    pub right_known: Time,
    pub left_settled: Time,
    pub right_settled: Time,
    pub t: Time,
    pub interval: TimeInterval,
    pub now: Time,
}

/// A time at which no witness is possible any more ends the search.
proof fn lemma_best_ruled_out<Y: RobustnessSemantics>(w: WindowView<Y>, times: Seq<Time>, n: int)
    requires
        0 <= n <= times.len(),
        w.best(times.take(n)).1,
    ensures
        w.best(times) == w.best(times.take(n)),
    decreases times.len(),
{
    if n == times.len() {
        assert(times.take(n) =~= times);
    } else {
        assert(times.drop_last().take(n) =~= times.take(n));
        lemma_best_ruled_out(w, times.drop_last(), n);
    }
}

impl<'a, C, Y> Window<'a, C> where C: RingBufferTrait<Value = Y>, Y: RobustnessSemantics {
    pub open spec fn view_as(&self, eager: bool, rosi: bool) -> WindowView<Y> {
        WindowView {
            left: self.left.entries(),
            right: self.right.entries(),
            left_known: self.left_known,
            right_known: self.right_known,
            left_settled: self.left_settled,
            right_settled: self.right_settled,
            t: self.t,
            interval: self.interval,
            now: self.now,
            eager,
            rosi,
        }
    }

    /// The start of the window, and every breakpoint inside it.
    fn candidates<const IS_EAGER: bool, const IS_ROSI: bool>(&self) -> (res: Vec<Time>)
        requires
            self.view_as(IS_EAGER, IS_ROSI).wf(),
        ensures
            res@ == self.view_as(IS_EAGER, IS_ROSI).candidates(),
    {
        let mut times: Vec<Time> = Vec::new();
        let from: Time = self.t + self.interval.start;
        let to: Time = earlier(self.now, self.t + self.interval.end);
        if from > to {
            return times;
        }
        times.push(from);
        let ghost l = self.left.entries();
        let ghost r = self.right.entries();
        let mut i: usize = self.left.partition_point(from);
        let mut j: usize = self.right.partition_point(from);
        let n: usize = self.left.partition_point(to);
        let m: usize = self.right.partition_point(to);
        proof {
            crate::ring_buffer::lemma_count_upto_monotone(l, from, to);
            crate::ring_buffer::lemma_count_upto_monotone(r, from, to);
            assert(times@ =~= seq![from]);
        }
        let ghost all = self.view_as(IS_EAGER, IS_ROSI).candidates();
        while i < n || j < m
            invariant
                l == self.left.entries(),
                r == self.right.entries(),
                i <= n <= l.len(),
                j <= m <= r.len(),
                times@ + merged(l.subrange(i as int, n as int), r.subrange(j as int, m as int))
                    == all,
            decreases n - i + m - j,
        {
            let ghost lrest = l.subrange(i as int, n as int);
            let ghost rrest = r.subrange(j as int, m as int);
            let ghost before = times@;
            let take_left: bool = j == m || (i < n && self.left.get(i).timestamp
                <= self.right.get(j).timestamp);
            let take_right: bool = i == n || (j < m && self.right.get(j).timestamp
                <= self.left.get(i).timestamp);
            let ts: Time = if take_left {
                self.left.get(i).timestamp
            } else {
                self.right.get(j).timestamp
            };
            proof {
                assert(i < n ==> lrest.skip(1) =~= l.subrange(i + 1, n as int));
                assert(j < m ==> rrest.skip(1) =~= r.subrange(j + 1, m as int));
            }
            if take_left {
                i = i + 1;
            }
            if take_right {
                j = j + 1;
            }
            times.push(ts);
            proof {
                let rest = merged(l.subrange(i as int, n as int), r.subrange(j as int, m as int));
                assert(merged(lrest, rrest) =~= seq![ts] + rest);
                assert(before + (seq![ts] + rest) =~= times@ + rest);
            }
        }
        proof {
            assert(l.subrange(i as int, n as int) =~= Seq::empty());
            assert(r.subrange(j as int, m as int) =~= Seq::empty());
            assert(times@ + Seq::<Time>::empty() =~= times@);
        }
        times
    }

    /// The best witness in the window, if anything can be said of one, and whether none is
    /// possible any more.
    fn best<const IS_EAGER: bool, const IS_ROSI: bool>(&self, phi_held: Y) -> (res: (
        Option<Y>,
        bool,
    ))
        requires
            self.view_as(IS_EAGER, IS_ROSI).wf(),
            self.view_as(IS_EAGER, IS_ROSI).phi_held() == Some(phi_held),
        ensures
            res == self.view_as(IS_EAGER, IS_ROSI).best(
                self.view_as(IS_EAGER, IS_ROSI).candidates(),
            ),
    {
        let ghost w = self.view_as(IS_EAGER, IS_ROSI);
        let times: Vec<Time> = self.candidates::<IS_EAGER, IS_ROSI>();
        let start: Time = self.t + self.interval.start;
        let combined: Time = earlier(self.left_known, self.right_known);
        // Verdicts of phi after `t`, folded into the running infimum as `t_prime` reaches them.
        // The obligation is closed at `t_prime`: phi must also hold where psi does.
        let mut next: usize = self.left.partition_point(self.t);
        let mut inf: Y = phi_held;
        let bottom: Y = Y::atomic_false();
        let mut died: Option<Time> = if inf.same(&bottom) {
            Some(self.t)
        } else {
            None
        };
        let mut found: Option<Y> = None;
        let mut k: usize = 0;
        proof {
            assert(times@.take(0) =~= Seq::empty());
            lemma_candidates(w);
        }
        while k < times.len()
            invariant
                w == self.view_as(IS_EAGER, IS_ROSI),
                w.wf(),
                times@ == w.candidates(),
                rising(times@),
                forall|i: int| 0 <= i < times@.len() ==> w.t <= #[trigger] times@[i],
                start == w.start(),
                combined == min_time(w.left_known, w.right_known),
                bottom == Y::false_spec(),
                k <= times@.len(),
                w.phi_held() == Some(phi_held),
                count_upto(w.left, w.t) <= next <= w.left.len(),
                k == 0 ==> next == count_upto(w.left, w.t),
                k > 0 ==> next == count_upto(w.left, times@[k - 1]),
                inf == w.phi_inf(next as nat),
                died == w.phi_died(next as nat),
                (found, false) == w.best(times@.take(k as int)),
            decreases times@.len() - k,
        {
            let t_prime: Time = times[k];
            proof {
                lemma_count_upto(w.left, t_prime);
                crate::ring_buffer::lemma_count_upto_monotone(
                    w.left,
                    if k == 0 {
                        w.t
                    } else {
                        times@[k - 1]
                    },
                    t_prime,
                );
                assert(times@.take(k + 1).drop_last() =~= times@.take(k as int));
                assert(times@.take(k + 1).last() == t_prime);
            }
            // 1. Fold verdicts of phi up to `t_prime` into the infimum.
            while next < self.left.len() && self.left.get(next).timestamp <= t_prime
                invariant
                    w == self.view_as(IS_EAGER, IS_ROSI),
                    in_order(w.left),
                    bottom == Y::false_spec(),
                    count_upto(w.left, w.t) <= next <= count_upto(w.left, t_prime) <= w.left.len(),
                    forall|i: int|
                        count_upto(w.left, t_prime) <= i < w.left.len() ==> (
                        #[trigger] w.left[i]).timestamp > t_prime,
                    forall|i: int|
                        0 <= i < count_upto(w.left, t_prime) ==> (
                        #[trigger] w.left[i]).timestamp <= t_prime,
                    inf == w.phi_inf(next as nat),
                    died == w.phi_died(next as nat),
                decreases w.left.len() - next,
            {
                let entry: &Step<Y> = self.left.get(next);
                inf = Y::and(inf, entry.value);
                next = next + 1;
                if died.is_none() && inf.same(&bottom) {
                    died = Some(entry.timestamp);
                }
            }
            assert(next == count_upto(w.left, t_prime));
            // Past the mark phi is settled to, the obligation is unknown. Refinable semantics
            // keeps the upper bound from the verdicts seen so far.
            let phi: Y = if t_prime <= self.left_settled {
                inf
            } else if IS_ROSI {
                Y::and(inf, Y::unknown())
            } else {
                Y::unknown()
            };
            // 2. What psi holds at `t_prime`, or unknown past its frontier.
            let psi: Y = if t_prime <= self.right_known {
                match self.right.zoh_at(t_prime) {
                    Some(entry) => held_value::<Y, IS_ROSI>(entry, t_prime, self.right_settled),
                    None => Y::unknown(),
                }
            } else {
                Y::unknown()
            };
            // 3. Once phi has died, no witness at or after that is possible. The window is false
            // if psi is also known up to there, or the window starts later.
            let no_earlier_witness: bool = match died {
                Some(d) => d < start || self.right_known >= d,
                None => false,
            };
            if IS_EAGER && no_earlier_witness && combined >= self.t {
                let worst: Y = match found {
                    Some(best) => Y::or(best, bottom),
                    None => bottom,
                };
                proof {
                    assert(w.ruled_out(t_prime));
                    lemma_best_ruled_out(w, times@, k + 1);
                }
                return (Some(worst), true);
            }
            // 4. Combine: a witness is as good as the worse of psi there and phi until there.
            let witness: Y = Y::and(psi, phi);
            found = match found {
                Some(best) => Some(Y::or(best, witness)),
                None => Some(witness),
            };
            k = k + 1;
        }
        assert(times@.take(k as int) =~= times@);
        (found, false)
    }

    /// What becomes of the time evaluated at.
    pub fn evaluate<const IS_EAGER: bool, const IS_ROSI: bool>(&self) -> (res: Outcome<Y>)
        requires
            self.view_as(IS_EAGER, IS_ROSI).wf(),
        ensures
            res == self.view_as(IS_EAGER, IS_ROSI).outcome(),
    {
        let end: Time = self.t + self.interval.end;
        let covered: bool = self.left_settled >= end && self.right_settled >= end;
        // Delayed mode stops at the first window not covered, so it is not walked.
        if !IS_EAGER && !IS_ROSI && !covered {
            return Outcome::Wait;
        }
        if self.t > self.left_known {
            return Outcome::Wait;
        }
        // The running infimum of phi starts at the value phi holds at `t`.
        let phi_held: Y = match self.left.zoh_at(self.t) {
            Some(entry) => held_value::<Y, IS_ROSI>(entry, self.t, self.left_settled),
            None => {
                return Outcome::Wait;
            },
        };
        let (found, falsified) = self.best::<IS_EAGER, IS_ROSI>(phi_held);
        let best: Y = match found {
            Some(best) => best,
            None => {
                return Outcome::Wait;
            },
        };
        if covered {
            Outcome::Final(best)
        } else if IS_EAGER && (best.same(&Y::atomic_true()) || falsified) {
            Outcome::Final(best)
        } else if IS_ROSI {
            // The window is still open: what is to come can only be accounted for as unknown.
            Outcome::Open(Y::or(best, Y::unknown()))
        } else {
            Outcome::Wait
        }
    }
}

/// The entries between two times are ordered and lie between them.
pub proof fn lemma_entries_within<Y>(s: Seq<Step<Y>>, from: Time, to: Time)
    requires
        in_order(s),
    ensures
        in_order(entries_within(s, from, to)),
        forall|t: Time| #[trigger]
            crate::ring_buffer::has_entry_at(entries_within(s, from, to), t)
                <==> crate::ring_buffer::has_entry_at(s, t) && from < t <= to,
{
    let part = entries_within(s, from, to);
    if from <= to {
        crate::ring_buffer::lemma_count_upto_monotone(s, from, to);
        lemma_count_upto(s, from);
        lemma_count_upto(s, to);
        let n = count_upto(s, from) as int;
        assert forall|t: Time| #[trigger]
            crate::ring_buffer::has_entry_at(part, t) <==> crate::ring_buffer::has_entry_at(s, t)
                && from < t <= to by {
            if crate::ring_buffer::has_entry_at(part, t) {
                let i = choose|i: int| 0 <= i < part.len() && (#[trigger] part[i]).timestamp == t;
                assert(s[n + i].timestamp == t);
            }
            if crate::ring_buffer::has_entry_at(s, t) && from < t <= to {
                let i = choose|i: int| 0 <= i < s.len() && (#[trigger] s[i]).timestamp == t;
                assert(part[i - n].timestamp == t);
            }
        }
    }
}

/// The candidates rise from the start of the window.
pub proof fn lemma_candidates<Y: RobustnessSemantics>(w: WindowView<Y>)
    requires
        w.wf(),
    ensures
        rising(w.candidates()),
        forall|i: int| 0 <= i < w.candidates().len() ==> w.t <= #[trigger] w.candidates()[i],
{
    let from = w.start();
    let to = w.effective_end();
    let l = entries_within(w.left, from, to);
    let r = entries_within(w.right, from, to);
    lemma_entries_within(w.left, from, to);
    lemma_entries_within(w.right, from, to);
    crate::binary_operators::merged_lists_every_timestamp(l, r);
    let times = merged(l, r);
    assert forall|i: int| 0 <= i < times.len() implies from < #[trigger] times[i] by {
        assert(times.contains(times[i]));
    }
}

} // verus!
