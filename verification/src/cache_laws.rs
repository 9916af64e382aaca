//! Times, samples and caches in terms of plain numbers and positions.

use crate::ring_buffer::{all_upto, count_upto, has_entry_at, in_force, in_order, pruned, put, Step};
use crate::ring_buffer::{lemma_count_upto, lemma_pruned, lemma_put_in_order};
use crate::time::{max_time, min_time, minus, Time, FOREVER};
use vstd::prelude::*;

verus! {

/// The earlier of two times is one of them and no later than either, the later one no earlier,
/// and a difference of times is never below zero.
pub proof fn times_compare_as_numbers(a: Time, b: Time)
    ensures
        min_time(a, b) <= a && min_time(a, b) <= b,
        min_time(a, b) == a || min_time(a, b) == b,
        max_time(a, b) >= a && max_time(a, b) >= b,
        max_time(a, b) == a || max_time(a, b) == b,
        a >= b ==> minus(a, b) + b == a,
        a < b ==> minus(a, b) == 0,
{
}

/// A sample carries what it was made of, and is held without end.
pub proof fn a_sample_carries_what_it_was_made_of<Y>(signal: &'static str, value: Y, t: Time)
    ensures
        Step::spec_new(signal, value, t).signal == signal,
        Step::spec_new(signal, value, t).value == value,
        Step::spec_new(signal, value, t).timestamp == t,
        Step::spec_new(signal, value, t).held_until == FOREVER,
{
}

/// A list is in order if every sample is later than those before it, and within a bound if none is
/// later than that.
pub proof fn ordered_lists_rise<Y>(s: Seq<Step<Y>>, bound: Time)
    ensures
        in_order(s) <==> forall|i: int, j: int|
            0 <= i < j < s.len() ==> (#[trigger] s[i]).timestamp < (#[trigger] s[j]).timestamp,
        all_upto(s, bound) <==> forall|i: int|
            0 <= i < s.len() ==> (#[trigger] s[i]).timestamp <= bound,
{
}

/// A cache is read at a time as its newest sample by then, if that one is still held: `n` is the
/// number of samples by then.
pub proof fn a_cache_is_read_at_its_newest_sample<Y>(s: Seq<Step<Y>>, t: Time) -> (n: int)
    requires
        forall|i: int, j: int| 0 <= i < j < s.len() ==> s[i].timestamp < s[j].timestamp,
    ensures
        0 <= n <= s.len(),
        forall|i: int| 0 <= i < s.len() ==> (i < n <==> (#[trigger] s[i]).timestamp <= t),
        n == count_upto(s, t),
        in_force(s, t) == (if n > 0 && t < s[n - 1].held_until {
            Some(s[n - 1])
        } else {
            None
        }),
        has_entry_at(s, t) <==> n > 0 && s[n - 1].timestamp == t,
{
    lemma_count_upto(s, t);
    let n = count_upto(s, t) as int;
    if has_entry_at(s, t) {
        let i = choose|i: int| 0 <= i < s.len() && (#[trigger] s[i]).timestamp == t;
        assert(i < n);
        assert(i < n - 1 ==> s[i].timestamp < s[n - 1].timestamp);
    }
    n
}

/// A sample that is added is in the cache from then on, in place of one at the same time. Every
/// other sample stays, and they stay in time order.
pub proof fn adding_a_sample_keeps_the_others<Y>(s: Seq<Step<Y>>, step: Step<Y>, e: Step<Y>)
    requires
        in_order(s),
    ensures
        put(s, step).contains(e) <==> e == step || (s.contains(e) && e.timestamp
            != step.timestamp),
        forall|i: int, j: int|
            0 <= i < j < put(s, step).len() ==> (#[trigger] put(s, step)[i]).timestamp < (
            #[trigger] put(s, step)[j]).timestamp,
{
    lemma_put_in_order(s, step);
    lemma_count_upto(s, step.timestamp);
    let p = put(s, step);
    let n = count_upto(s, step.timestamp) as int;
    if n > 0 && s[n - 1].timestamp == step.timestamp {
        assert(p[n - 1] == step);
        if s.contains(e) && e.timestamp != step.timestamp {
            let i = choose|i: int| 0 <= i < s.len() && s[i] == e;
            assert(p[i] == e);
        }
        if p.contains(e) && e != step {
            let i = choose|i: int| 0 <= i < p.len() && p[i] == e;
            assert(s[i] == e);
            assert(i < n - 1 ==> s[i].timestamp < s[n - 1].timestamp);
        }
    } else {
        assert(p[n] == step);
        if s.contains(e) && e.timestamp != step.timestamp {
            let i = choose|i: int| 0 <= i < s.len() && s[i] == e;
            assert(i < n ==> p[i] == e);
            assert(i >= n ==> p[i + 1] == e);
        }
        if p.contains(e) && e != step {
            let i = choose|i: int| 0 <= i < p.len() && p[i] == e;
            assert(i < n ==> s[i] == e);
            assert(i > n ==> s[i - 1] == e);
            if i < n {
                assert(i < n - 1 ==> s[i].timestamp < s[n - 1].timestamp);
            }
        }
    }
}

/// Pruning removes samples from the front alone: just those whose successor is no later than
/// the time protected, and at least the lookahead before the newest sample. So the newest sample
/// always stays, and whatever is in force at the time protected.
pub proof fn pruning_removes_what_is_superseded<Y>(
    s: Seq<Step<Y>>,
    lookahead: Time,
    protected_ts: Time,
) -> (k: int)
    requires
        in_order(s),
    ensures
        0 <= k,
        s.len() > 0 ==> k < s.len(),
        s.len() == 0 ==> k == 0,
        pruned(s, lookahead, protected_ts) == s.skip(k),
        forall|j: int|
            0 < j < s.len() ==> (j <= k <==> (#[trigger] s[j]).timestamp <= protected_ts
                && s[j].timestamp + lookahead <= s.last().timestamp),
{
    lemma_pruned(s, lookahead, protected_ts);
    if s.len() == 0 {
        assert(s.skip(0) =~= s);
        0
    } else {
        let cutoff = min_time(minus(s.last().timestamp, lookahead), protected_ts);
        lemma_count_upto(s, cutoff);
        let n = count_upto(s, cutoff) as int;
        assert(s.skip(0) =~= s);
        let k = if n > 0 {
            n - 1
        } else {
            0
        };
        assert forall|j: int| 0 < j < s.len() implies (j <= k <==> (#[trigger] s[j]).timestamp
            <= protected_ts && s[j].timestamp + lookahead <= s.last().timestamp) by {
            assert(s[0].timestamp < s[j].timestamp);
            assert(j < n <==> s[j].timestamp <= cutoff);
        }
        k
    }
}

} // verus!
