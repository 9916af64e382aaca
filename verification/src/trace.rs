//! Traces taken in, and verdicts given out, as a whole.

use crate::ring_buffer::{in_order, Step};
use crate::synchronizer::Interpolatable;
use crate::text::same_text;
use crate::time::Time;
use vstd::prelude::*;

verus! {

/// The steps of a list at time `t`, in the order they are listed in.
pub open spec fn at<Y>(s: Seq<Step<Y>>, t: Time) -> Seq<Step<Y>>
    decreases s.len(),
{
    if s.len() == 0 {
        Seq::empty()
    } else if s.last().timestamp == t {
        at(s.drop_last(), t).push(s.last())
    } else {
        at(s.drop_last(), t)
    }
}

/// Timestamps never fall from one step to the next.
pub open spec fn chronological<Y>(s: Seq<Step<Y>>) -> bool {
    forall|i: int, j: int| 0 <= i < j < s.len() ==> s[i].timestamp <= s[j].timestamp
}

/// The last one of a list, if there is one.
pub open spec fn newest<Y>(s: Seq<Step<Y>>) -> Seq<Step<Y>> {
    if s.len() == 0 {
        s
    } else {
        seq![s.last()]
    }
}

/// Where nothing carries the timestamp `t`, nothing is there.
proof fn lemma_at_none<Y>(s: Seq<Step<Y>>, t: Time)
    requires
        forall|i: int| 0 <= i < s.len() ==> (#[trigger] s[i]).timestamp != t,
    ensures
        at(s, t) == Seq::<Step<Y>>::empty(),
    decreases s.len(),
{
    if s.len() > 0 {
        assert forall|i: int| 0 <= i < s.len() - 1 implies (#[trigger] s.drop_last()[i]).timestamp
            != t by {
            assert(s[i].timestamp != t);
        }
        assert(s[s.len() - 1].timestamp != t);
        lemma_at_none(s.drop_last(), t);
    }
}

/// A step that is inserted behind all steps of its time, and before all later ones, is the
/// last one of its time.
proof fn lemma_at_insert<Y>(s: Seq<Step<Y>>, p: int, step: Step<Y>, t: Time)
    requires
        0 <= p <= s.len(),
        forall|i: int| p <= i < s.len() ==> (#[trigger] s[i]).timestamp > step.timestamp,
    ensures
        at(s.insert(p, step), t) == (if step.timestamp == t {
            at(s, t).push(step)
        } else {
            at(s, t)
        }),
    decreases s.len(),
{
    let wider = s.insert(p, step);
    if p == s.len() {
        assert(wider.drop_last() =~= s);
    } else {
        assert(wider.drop_last() =~= s.drop_last().insert(p, step));
        assert(wider.last() == s.last());
        assert forall|i: int| p <= i < s.len() - 1 implies (#[trigger] s.drop_last()[i]).timestamp
            > step.timestamp by {
            assert(s[i].timestamp > step.timestamp);
        }
        assert(s[s.len() - 1].timestamp > step.timestamp);
        lemma_at_insert(s.drop_last(), p, step, t);
    }
}

/// Lists steps in time order; those of one timestamp keep their order.
pub fn in_time_order<Y: Copy>(steps: &Vec<Step<Y>>) -> (res: Vec<Step<Y>>)
    ensures
        chronological(res@),
        forall|t: Time| #[trigger] at(res@, t) == at(steps@, t),
{
    let mut res: Vec<Step<Y>> = Vec::new();
    let mut i: usize = 0;
    assert(steps@.take(0) =~= Seq::empty());
    while i < steps.len()
        invariant
            i <= steps@.len(),
            chronological(res@),
            forall|t: Time| #[trigger] at(res@, t) == at(steps@.take(i as int), t),
        decreases steps@.len() - i,
    {
        let step: Step<Y> = steps[i];
        let mut p: usize = res.len();
        while p > 0 && res[p - 1].timestamp > step.timestamp
            invariant
                p <= res@.len(),
                forall|k: int| p <= k < res@.len() ==> (#[trigger] res@[k]).timestamp > step.timestamp,
            decreases p,
        {
            p = p - 1;
        }
        let ghost before = res@;
        res.insert(p, step);
        proof {
            assert(steps@.take(i + 1).drop_last() =~= steps@.take(i as int));
            assert forall|t: Time| #[trigger] at(res@, t) == at(steps@.take(i + 1), t) by {
                lemma_at_insert(before, p as int, step, t);
            }
        }
        i = i + 1;
    }
    assert(steps@.take(i as int) =~= steps@);
    res
}

/// A chronological list is told by what it lists at each time.
proof fn lemma_told_by_times<Y>(a: Seq<Step<Y>>, b: Seq<Step<Y>>)
    requires
        chronological(a),
        chronological(b),
        forall|t: Time| #[trigger] at(a, t) == at(b, t),
    ensures
        a == b,
    decreases a.len() + b.len(),
{
    if a.len() == 0 {
        if b.len() > 0 {
            let t = b.last().timestamp;
            assert(at(a, t) == at(b, t));
        }
        assert(a =~= b);
    } else {
        let t = a.last().timestamp;
        assert(at(a, t) == at(b, t));
        if b.len() == 0 {
            assert(at(a, t).len() > 0);
        }
        let u = b.last().timestamp;
        assert(at(a, u) == at(b, u));
        if u < t {
            assert forall|i: int| 0 <= i < b.len() implies (#[trigger] b[i]).timestamp != t by {
                assert(i < b.len() - 1 ==> b[i].timestamp <= b[b.len() - 1].timestamp);
            }
            lemma_at_none(b, t);
        } else if t < u {
            assert forall|i: int| 0 <= i < a.len() implies (#[trigger] a[i]).timestamp != u by {
                assert(i < a.len() - 1 ==> a[i].timestamp <= a[a.len() - 1].timestamp);
            }
            lemma_at_none(a, u);
        }
        assert(at(a, t).last() == a.last() && at(b, t).last() == b.last());
        let (x, y) = (a.drop_last(), b.drop_last());
        assert forall|v: Time| #[trigger] at(x, v) == at(y, v) by {
            assert(at(a, v) == at(b, v));
            if v == t {
                assert(at(a, v).drop_last() =~= at(x, v));
                assert(at(b, v).drop_last() =~= at(y, v));
            }
        }
        lemma_told_by_times(x, y);
        assert(a =~= x.push(a.last()));
        assert(b =~= y.push(b.last()));
    }
}

/// A batch that is in time order already is taken in as it is written; and whatever order the
/// samples of different timestamps come in, a batch is taken in the same way.
pub proof fn batch_order_is_immaterial<Y>(
    batch: Seq<Step<Y>>,
    other: Seq<Step<Y>>,
    taken: Seq<Step<Y>>,
    other_taken: Seq<Step<Y>>,
)
    requires
        forall|t: Time| #[trigger] at(batch, t) == at(other, t),
        chronological(taken),
        forall|t: Time| #[trigger] at(taken, t) == at(batch, t),
        chronological(other_taken),
        forall|t: Time| #[trigger] at(other_taken, t) == at(other, t),
    ensures
        taken == other_taken,
        chronological(batch) ==> taken == batch,
{
    assert forall|t: Time| #[trigger] at(taken, t) == at(other_taken, t) by {
        assert(at(batch, t) == at(other, t));
    }
    lemma_told_by_times(taken, other_taken);
    if chronological(batch) {
        lemma_told_by_times(taken, batch);
    }
}

/// In a strictly ordered list an entry is alone at its time.
proof fn lemma_at_alone<Y>(s: Seq<Step<Y>>, k: int)
    requires
        in_order(s),
        0 <= k < s.len(),
    ensures
        at(s, s[k].timestamp) == seq![s[k]],
    decreases s.len(),
{
    let d = s.drop_last();
    let t = s[k].timestamp;
    assert(in_order(d));
    if k == s.len() - 1 {
        lemma_at_none(d, t);
        assert(at(s, t) =~= seq![s[k]]);
    } else {
        assert(s[s.len() - 1].timestamp != t);
        lemma_at_alone(d, k);
    }
}

/// Two strictly ordered lists agree on a time that no change between them touches.
proof fn lemma_at_agrees<Y>(a: Seq<Step<Y>>, b: Seq<Step<Y>>, t: Time)
    requires
        in_order(a),
        in_order(b),
        forall|i: int| 0 <= i < a.len() && (#[trigger] a[i]).timestamp == t ==> b.contains(a[i]),
        forall|i: int| 0 <= i < b.len() && (#[trigger] b[i]).timestamp == t ==> a.contains(b[i]),
    ensures
        at(a, t) == at(b, t),
{
    if exists|i: int| 0 <= i < a.len() && (#[trigger] a[i]).timestamp == t {
        let i = choose|i: int| 0 <= i < a.len() && (#[trigger] a[i]).timestamp == t;
        let j = choose|j: int| 0 <= j < b.len() && b[j] == a[i];
        assert(b.contains(a[i]));
        lemma_at_alone(a, i);
        lemma_at_alone(b, j);
    } else {
        lemma_at_none(a, t);
        assert forall|i: int| 0 <= i < b.len() implies (#[trigger] b[i]).timestamp != t by {
            if b[i].timestamp == t {
                let k = choose|k: int| 0 <= k < a.len() && a[k] == b[i];
                assert(a[k].timestamp == t);
            }
        }
        lemma_at_none(b, t);
    }
}

/// Gives one verdict per timestamp: the last one that was given for it. Refinements of one
/// timestamp are thereby collapsed into the final one.
pub fn verdicts<Y: Copy>(outputs: &Vec<Step<Y>>) -> (res: Vec<Step<Y>>)
    ensures
        in_order(res@),
        forall|t: Time| #[trigger] at(res@, t) == newest(at(outputs@, t)),
{
    let mut res: Vec<Step<Y>> = Vec::new();
    let mut i: usize = 0;
    assert(outputs@.take(0) =~= Seq::empty());
    while i < outputs.len()
        invariant
            i <= outputs@.len(),
            in_order(res@),
            forall|t: Time| #[trigger] at(res@, t) == newest(at(outputs@.take(i as int), t)),
        decreases outputs@.len() - i,
    {
        let step: Step<Y> = outputs[i];
        let mut p: usize = res.len();
        while p > 0 && res[p - 1].timestamp > step.timestamp
            invariant
                p <= res@.len(),
                forall|k: int| p <= k < res@.len() ==> (#[trigger] res@[k]).timestamp > step.timestamp,
            decreases p,
        {
            p = p - 1;
        }
        let ghost before = res@;
        if p > 0 && res[p - 1].timestamp == step.timestamp {
            p = p - 1;
            res.set(p, step);
        } else {
            res.insert(p, step);
        }
        proof {
            let all = outputs@.take(i + 1);
            assert(all.drop_last() =~= outputs@.take(i as int));
            assert(in_order(res@));
            assert(res@[p as int] == step);
            assert forall|t: Time| #[trigger] at(res@, t) == newest(at(all, t)) by {
                if t == step.timestamp {
                    lemma_at_alone(res@, p as int);
                    assert(newest(at(all, t)) =~= seq![step]);
                } else {
                    lemma_after_change(before, res@, p as int, step, t);
                    assert(at(before, t) == newest(at(all.drop_last(), t)));
                }
            }
        }
        i = i + 1;
    }
    assert(outputs@.take(i as int) =~= outputs@);
    res
}

/// Putting a step into a strictly ordered list leaves other times alone.
proof fn lemma_after_change<Y>(
    before: Seq<Step<Y>>,
    after: Seq<Step<Y>>,
    p: int,
    step: Step<Y>,
    t: Time,
)
    requires
        in_order(before),
        in_order(after),
        t != step.timestamp,
        (0 <= p <= before.len() && after == before.insert(p, step)) || (0 <= p < before.len()
            && before[p].timestamp == step.timestamp && after == before.update(p, step)),
    ensures
        at(after, t) == at(before, t),
{
    assert forall|i: int| 0 <= i < before.len() && (#[trigger] before[i]).timestamp
        == t implies after.contains(before[i]) by {
        if after.len() == before.len() {
            assert(after[i] == before[i]);
        } else if i < p {
            assert(after[i] == before[i]);
        } else {
            assert(after[i + 1] == before[i]);
        }
    }
    assert forall|i: int| 0 <= i < after.len() && (#[trigger] after[i]).timestamp
        == t implies before.contains(after[i]) by {
        if after.len() == before.len() {
            assert(before[i] == after[i]);
        } else if i < p {
            assert(before[i] == after[i]);
        } else {
            assert(before[i - 1] == after[i]);
        }
    }
    lemma_at_agrees(after, before, t);
}

/// The value a signal starts from: the last one given for it, or zero.
pub open spec fn initial_value<T: Interpolatable>(
    given: Seq<(&'static str, T)>,
    signal: Seq<char>,
) -> T
    decreases given.len(),
{
    if given.len() == 0 {
        T::zero_spec()
    } else if given.last().0@ == signal {
        given.last().1
    } else {
        initial_value(given.drop_last(), signal)
    }
}

/// The initial values of a formula that reads `signals`. With more than one signal each of
/// them is read from time zero on, from the value given for it or from zero; a formula over a
/// single signal is defined wherever its signal is and needs none.
pub fn initial_values<T: Interpolatable>(
    signals: &Vec<&'static str>,
    given: &Vec<(&'static str, T)>,
) -> (res: Vec<(&'static str, T)>)
    ensures
        signals@.len() <= 1 ==> res@.len() == 0,
        signals@.len() > 1 ==> res@.len() == signals@.len() && forall|i: int|
            0 <= i < res@.len() ==> (#[trigger] res@[i]) == (
                signals@[i],
                initial_value(given@, signals@[i]@),
            ),
{
    let mut res: Vec<(&'static str, T)> = Vec::new();
    if signals.len() <= 1 {
        return res;
    }
    let mut i: usize = 0;
    while i < signals.len()
        invariant
            i <= signals@.len(),
            res@.len() == i,
            forall|k: int|
                0 <= k < i ==> (#[trigger] res@[k]) == (
                    signals@[k],
                    initial_value(given@, signals@[k]@),
                ),
        decreases signals@.len() - i,
    {
        let signal: &'static str = signals[i];
        let mut value: T = T::zero();
        let mut j: usize = 0;
        assert(given@.take(0) =~= Seq::empty());
        while j < given.len()
            invariant
                j <= given@.len(),
                value == initial_value(given@.take(j as int), signal@),
            decreases given@.len() - j,
        {
            if same_text(given[j].0, signal) {
                value = given[j].1;
            }
            assert(given@.take(j + 1).drop_last() =~= given@.take(j as int));
            j = j + 1;
        }
        assert(given@.take(j as int) =~= given@);
        res.push((signal, value));
        i = i + 1;
    }
    res
}

} // verus!
