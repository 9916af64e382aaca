//! Samples, and the time-ordered caches that operators keep them in.

use crate::memory::{deque_heap_size, room_for};
use crate::time::{min_time, minus, Time, FOREVER};
use crate::time::{earlier, saturating_minus};
use std::collections::VecDeque;
use vstd::prelude::*;

verus! {

/// One sample of a signal: its value from `timestamp` on, for as long as it is held.
#[derive(Debug, Clone, Copy, PartialEq)]
pub struct Step<Y> {
    pub signal: &'static str,
    pub value: Y,
    pub timestamp: Time,
    /// The value is not to be read at or after this time.
    pub held_until: Time,
}

impl<Y> Step<Y> {
    /// The sample `value` of `signal` at `timestamp`, held without end.
    pub open spec fn spec_new(signal: &'static str, value: Y, timestamp: Time) -> Step<Y> {
        Step { signal, value, timestamp, held_until: FOREVER }
    }

    /// Creates a sample that is held until a later one replaces it.
    pub fn new(signal: &'static str, value: Y, timestamp: Time) -> (res: Step<Y>)
        ensures
            res == Step::spec_new(signal, value, timestamp),
    {
        Step { signal, value, timestamp, held_until: FOREVER }
    }
}

/// Timestamps rise strictly from one entry to the next.
pub open spec fn in_order<Y>(s: Seq<Step<Y>>) -> bool {
    forall|i: int, j: int| 0 <= i < j < s.len() ==> s[i].timestamp < s[j].timestamp
}

/// No entry is later than `bound`.
pub open spec fn all_upto<Y>(s: Seq<Step<Y>>, bound: Time) -> bool {
    forall|i: int| 0 <= i < s.len() ==> (#[trigger] s[i]).timestamp <= bound
}

/// How many entries of an ordered cache lie at or before `t`.
pub open spec fn count_upto<Y>(s: Seq<Step<Y>>, t: Time) -> nat
    decreases s.len(),
{
    if s.len() == 0 {
        0
    } else if s.last().timestamp <= t {
        s.len()
    } else {
        count_upto(s.drop_last(), t)
    }
}

/// The entry whose value is in force at `t`: the newest one at or before it, if still held.
pub open spec fn in_force<Y>(s: Seq<Step<Y>>, t: Time) -> Option<Step<Y>> {
    let n = count_upto(s, t);
    if n > 0 && s[n - 1].held_until > t {
        Some(s[n - 1])
    } else {
        None
    }
}

/// `s` with `step` at its place in time order, in place of an entry of the same timestamp.
pub open spec fn put<Y>(s: Seq<Step<Y>>, step: Step<Y>) -> Seq<Step<Y>> {
    let n = count_upto(s, step.timestamp);
    if n > 0 && s[n - 1].timestamp == step.timestamp {
        s.update(n - 1, step)
    } else {
        s.insert(n as int, step)
    }
}

/// Whether an entry carries exactly the timestamp `t`.
pub open spec fn has_entry_at<Y>(s: Seq<Step<Y>>, t: Time) -> bool {
    exists|i: int| 0 <= i < s.len() && (#[trigger] s[i]).timestamp == t
}

/// `s` without the entries that were superseded by `cutoff`.
pub open spec fn drop_before<Y>(s: Seq<Step<Y>>, cutoff: Time) -> Seq<Step<Y>> {
    let n = count_upto(s, cutoff);
    if n > 0 {
        s.skip(n - 1)
    } else {
        s
    }
}

/// The time from which a cache is still needed: no earlier than `lookahead` before its newest
/// entry, and never past `protected_ts`.
pub open spec fn prune_cutoff<Y>(s: Seq<Step<Y>>, lookahead: Time, protected_ts: Time) -> Time {
    min_time(minus(s.last().timestamp, lookahead), protected_ts)
}

/// `s` with what is out of reach of every pending evaluation removed.
pub open spec fn pruned<Y>(s: Seq<Step<Y>>, lookahead: Time, protected_ts: Time) -> Seq<Step<Y>> {
    if s.len() == 0 {
        s
    } else {
        drop_before(s, prune_cutoff(s, lookahead, protected_ts))
    }
}

/// The count splits an ordered cache at `t`.
pub proof fn lemma_count_upto<Y>(s: Seq<Step<Y>>, t: Time)
    requires
        in_order(s),
    ensures
        count_upto(s, t) <= s.len(),
        forall|i: int| 0 <= i < count_upto(s, t) ==> (#[trigger] s[i]).timestamp <= t,
        forall|i: int| count_upto(s, t) <= i < s.len() ==> (#[trigger] s[i]).timestamp > t,
    decreases s.len(),
{
    if s.len() > 0 && s.last().timestamp > t {
        let p = s.drop_last();
        assert(in_order(p));
        lemma_count_upto(p, t);
        assert forall|i: int| count_upto(s, t) <= i < s.len() implies (#[trigger] s[i]).timestamp > t by {
            if i < p.len() {
                assert(p[i] == s[i]);
            }
        }
        assert forall|i: int| 0 <= i < count_upto(s, t) implies (#[trigger] s[i]).timestamp <= t by {
            assert(p[i] == s[i]);
        }
    }
}

/// Only one index splits an ordered cache at `t`.
pub proof fn lemma_count_upto_unique<Y>(s: Seq<Step<Y>>, t: Time, n: nat)
    requires
        in_order(s),
        n <= s.len(),
        n > 0 ==> s[n - 1].timestamp <= t,
        n < s.len() ==> s[n as int].timestamp > t,
    ensures
        count_upto(s, t) == n,
{
    lemma_count_upto(s, t);
}

/// The count never falls as time goes on.
pub proof fn lemma_count_upto_monotone<Y>(s: Seq<Step<Y>>, t: Time, u: Time)
    requires
        in_order(s),
        t <= u,
    ensures
        count_upto(s, t) <= count_upto(s, u),
{
    lemma_count_upto(s, t);
    lemma_count_upto(s, u);
    if count_upto(s, t) > count_upto(s, u) {
        assert(s[count_upto(s, t) - 1].timestamp <= t);
        assert(s[count_upto(s, t) - 1].timestamp > u);
    }
}

/// Adding a sample keeps a cache in time order.
pub proof fn lemma_put_in_order<Y>(s: Seq<Step<Y>>, step: Step<Y>)
    requires
        in_order(s),
    ensures
        in_order(put(s, step)),
        put(s, step).len() > 0,
        forall|bound: Time|
            all_upto(s, bound) && step.timestamp <= bound ==> #[trigger] all_upto(
                put(s, step),
                bound,
            ),
{
    lemma_count_upto(s, step.timestamp);
}

/// Reading a cache after a sample was added gives the sample from its timestamp up to the next
/// one, and what the cache gave before everywhere else.
pub proof fn added_sample_is_in_force<Y>(s: Seq<Step<Y>>, step: Step<Y>, t: Time)
    requires
        in_order(s),
    ensures
        in_force(put(s, step), t) == (if step.timestamp <= t && count_upto(s, t) == count_upto(
            s,
            step.timestamp,
        ) {
            if step.held_until > t {
                Some(step)
            } else {
                None
            }
        } else {
            in_force(s, t)
        }),
{
    let p = put(s, step);
    let n = count_upto(s, step.timestamp);
    let k = count_upto(s, t);
    lemma_put_in_order(s, step);
    lemma_count_upto(s, step.timestamp);
    lemma_count_upto(s, t);
    let replaced = n > 0 && s[n - 1].timestamp == step.timestamp;
    if replaced {
        lemma_count_upto_unique(p, t, k);
    } else if step.timestamp <= t {
        assert(p[k as int] == (if k == n { step } else { s[k - 1] }));
        assert(k + 1 < p.len() ==> p[k as int + 1] == s[k as int]);
        lemma_count_upto_unique(p, t, (k + 1) as nat);
    } else {
        assert(k <= n);
        assert(k > 0 ==> p[k - 1] == s[k - 1]);
        assert(k < p.len() ==> p[k as int] == (if k == n { step } else { s[k as int] }));
        lemma_count_upto_unique(p, t, k);
    }
}

/// Dropping what was superseded by `cutoff` changes no value in force at `cutoff` or later.
pub proof fn lemma_drop_before_in_force<Y>(s: Seq<Step<Y>>, cutoff: Time, t: Time)
    requires
        in_order(s),
        cutoff <= t,
    ensures
        in_order(drop_before(s, cutoff)),
        in_force(drop_before(s, cutoff), t) == in_force(s, t),
{
    let n = count_upto(s, cutoff);
    let k = count_upto(s, t);
    lemma_count_upto(s, cutoff);
    lemma_count_upto(s, t);
    lemma_count_upto_monotone(s, cutoff, t);
    if n > 0 {
        let d = s.skip(n - 1);
        assert(in_order(d));
        let m = (k - (n - 1)) as nat;
        assert(d[m - 1] == s[k - 1]);
        assert(m < d.len() ==> d[m as int] == s[k as int]);
        lemma_count_upto_unique(d, t, m);
    }
}

/// Pruning keeps a cache ordered and changes no value in force at `protected_ts` or later.
pub proof fn lemma_pruned<Y>(s: Seq<Step<Y>>, lookahead: Time, protected_ts: Time)
    requires
        in_order(s),
    ensures
        in_order(pruned(s, lookahead, protected_ts)),
        forall|t: Time|
            protected_ts <= t ==> #[trigger] in_force(pruned(s, lookahead, protected_ts), t)
                == in_force(s, t),
        forall|bound: Time|
            all_upto(s, bound) ==> #[trigger] all_upto(pruned(s, lookahead, protected_ts), bound),
{
    if s.len() > 0 {
        let cutoff = prune_cutoff(s, lookahead, protected_ts);
        lemma_count_upto(s, cutoff);
        lemma_drop_before_in_force(s, cutoff, cutoff);
        assert forall|t: Time| protected_ts <= t implies #[trigger] in_force(
            pruned(s, lookahead, protected_ts),
            t,
        ) == in_force(s, t) by {
            lemma_drop_before_in_force(s, cutoff, t);
        }
    }
}

/// A cache of samples in time order.
pub trait RingBufferTrait: Sized {
    type Value: Copy;

    /// The cached samples, oldest first.
    spec fn entries(&self) -> Seq<Step<Self::Value>>;

    fn new() -> (res: Self)
        ensures
            res.entries() == Seq::<Step<Self::Value>>::empty(),
    ;

    fn len(&self) -> (res: usize)
        ensures
            res == self.entries().len(),
    ;

    fn get(&self, i: usize) -> (res: &Step<Self::Value>)
        requires
            i < self.entries().len(),
        ensures
            *res == self.entries()[i as int],
    ;

    fn is_empty(&self) -> (res: bool)
        ensures
            res == (self.entries().len() == 0),
    ;

    fn get_back(&self) -> (res: Option<&Step<Self::Value>>)
        ensures
            match res {
                Some(back) => self.entries().len() > 0 && *back == self.entries().last(),
                None => self.entries().len() == 0,
            },
    ;

    /// How many entries lie at or before `t`.
    fn partition_point(&self, t: Time) -> (res: usize)
        requires
            in_order(self.entries()),
        ensures
            res == count_upto(self.entries(), t),
            res <= self.entries().len(),
    ;

    /// The entry whose value is in force at `t`.
    fn zoh_at(&self, t: Time) -> (res: Option<&Step<Self::Value>>)
        requires
            in_order(self.entries()),
        ensures
            match res {
                Some(entry) => in_force(self.entries(), t) == Some(*entry),
                None => in_force(self.entries(), t) is None,
            },
    ;

    /// Adds `step` in time order, in place of an entry of the same timestamp.
    fn insert_step(&mut self, step: Step<Self::Value>)
        requires
            in_order(old(self).entries()),
        ensures
            final(self).entries() == put(old(self).entries(), step),
    ;

    /// Replaces the entry of the same timestamp as `step`, if there is one.
    fn update_step(&mut self, step: Step<Self::Value>) -> (res: bool)
        requires
            in_order(old(self).entries()),
        ensures
            res == has_entry_at(old(self).entries(), step.timestamp),
            final(self).entries() == (if res {
                put(old(self).entries(), step)
            } else {
                old(self).entries()
            }),
    ;

    /// Removes the `n` oldest entries.
    fn drop_front(&mut self, n: usize)
        requires
            n <= old(self).entries().len(),
        ensures
            final(self).entries() == old(self).entries().skip(n as int),
    ;

    fn clear(&mut self)
        ensures
            final(self).entries() == Seq::<Step<Self::Value>>::empty(),
    ;

    /// Estimated heap memory in bytes.
    fn heap_size(&self) -> (res: usize)
        ensures
            room_for(
                res,
                self.entries().len(),
                vstd::layout::size_of::<Step<Self::Value>>(),
            ),
    ;
}

/// Removes the entries of `cache` that were superseded both more than `lookahead` before the
/// newest one and before `protected_ts`. The value in force at `protected_ts` stays.
pub fn guarded_prune<C: RingBufferTrait>(cache: &mut C, lookahead: Time, protected_ts: Time)
    requires
        in_order(old(cache).entries()),
    ensures
        final(cache).entries() == pruned(old(cache).entries(), lookahead, protected_ts),
        in_order(final(cache).entries()),
        forall|t: Time|
            protected_ts <= t ==> #[trigger] in_force(final(cache).entries(), t) == in_force(
                old(cache).entries(),
                t,
            ),
{
    proof {
        lemma_pruned(cache.entries(), lookahead, protected_ts);
    }
    let len: usize = cache.len();
    if len > 0 {
        let newest: Time = cache.get(len - 1).timestamp;
        let cutoff: Time = earlier(saturating_minus(newest, lookahead), protected_ts);
        let n: usize = cache.partition_point(cutoff);
        if n > 0 {
            cache.drop_front(n - 1);
        }
    }
}

/// The cache operators use unless they are given another one.
#[derive(Debug)]
pub struct RingBuffer<Y> {
    steps: VecDeque<Step<Y>>,
}

/// How many entries of an ordered deque lie at or before `t`.
fn deque_partition_point<Y>(steps: &VecDeque<Step<Y>>, t: Time) -> (res: usize)
    requires
        in_order(steps@),
    ensures
        res == count_upto(steps@, t),
        res <= steps@.len(),
{
    let mut lo: usize = 0;
    let mut hi: usize = steps.len();
    while lo < hi
        invariant
            in_order(steps@),
            lo <= hi <= steps@.len(),
            lo > 0 ==> steps@[lo - 1].timestamp <= t,
            hi < steps@.len() ==> steps@[hi as int].timestamp > t,
        decreases hi - lo,
    {
        let mid: usize = lo + (hi - lo) / 2;
        if steps[mid].timestamp <= t {
            lo = mid + 1;
        } else {
            hi = mid;
        }
    }
    proof {
        lemma_count_upto_unique(steps@, t, lo as nat);
    }
    lo
}

/// Adds `step` to an ordered deque, in place of an entry of the same timestamp.
fn deque_put<Y>(steps: &mut VecDeque<Step<Y>>, step: Step<Y>)
    requires
        in_order(old(steps)@),
    ensures
        final(steps)@ == put(old(steps)@, step),
{
    let n: usize = deque_partition_point(steps, step.timestamp);
    if n > 0 && steps[n - 1].timestamp == step.timestamp {
        let _ = steps.remove(n - 1);
        steps.insert(n - 1, step);
        proof {
            let s = old(steps)@;
            assert(s.remove(n - 1).insert(n - 1, step) =~= s.update(n - 1, step));
        }
    } else {
        steps.insert(n, step);
    }
}

impl<Y: Copy> RingBufferTrait for RingBuffer<Y> {
    type Value = Y;

    closed spec fn entries(&self) -> Seq<Step<Y>> {
        self.steps@
    }

    fn new() -> (res: Self) {
        RingBuffer { steps: VecDeque::new() }
    }

    fn len(&self) -> (res: usize) {
        self.steps.len()
    }

    fn get(&self, i: usize) -> (res: &Step<Y>) {
        &self.steps[i]
    }

    fn is_empty(&self) -> (res: bool) {
        self.steps.len() == 0
    }

    fn get_back(&self) -> (res: Option<&Step<Y>>) {
        let len: usize = self.steps.len();
        if len > 0 {
            Some(&self.steps[len - 1])
        } else {
            None
        }
    }

    fn partition_point(&self, t: Time) -> (res: usize) {
        deque_partition_point(&self.steps, t)
    }

    fn zoh_at(&self, t: Time) -> (res: Option<&Step<Y>>) {
        let n: usize = deque_partition_point(&self.steps, t);
        if n > 0 && self.steps[n - 1].held_until > t {
            Some(&self.steps[n - 1])
        } else {
            None
        }
    }

    fn insert_step(&mut self, step: Step<Y>) {
        deque_put(&mut self.steps, step);
    }

    fn update_step(&mut self, step: Step<Y>) -> (res: bool) {
        let n: usize = deque_partition_point(&self.steps, step.timestamp);
        let ghost s = self.steps@;
        proof {
            lemma_count_upto(s, step.timestamp);
        }
        if n > 0 && self.steps[n - 1].timestamp == step.timestamp {
            deque_put(&mut self.steps, step);
            assert(s[n - 1].timestamp == step.timestamp);
            true
        } else {
            assert forall|i: int| 0 <= i < s.len() implies (#[trigger] s[i]).timestamp
                != step.timestamp by {
                if i < n - 1 {
                    assert(s[i].timestamp < s[n - 1].timestamp);
                }
            }
            false
        }
    }

    fn drop_front(&mut self, n: usize) {
        let mut i: usize = 0;
        while i < n
            invariant
                i <= n <= old(self).steps@.len(),
                self.steps@ == old(self).steps@.skip(i as int),
            decreases n - i,
        {
            let _ = self.steps.pop_front();
            i = i + 1;
        }
    }

    fn clear(&mut self) {
        self.steps.clear();
    }

    fn heap_size(&self) -> (res: usize) {
        deque_heap_size(&self.steps)
    }
}

} // verus!
