//! How two operands are combined: how far they are known, what each is worth at a time, which
//! times are answered and with what.

use crate::answer_laws::{is_worth, lemma_worth_of, Report};
use crate::binary_operators::{after_mark, clamped, farthest, joint, lemma_after_mark};
use crate::binary_operators::{merged_lists_every_timestamp, newest_reached, out_of_reach, reached};
use crate::binary_operators::{settled_ahead, settled_mark, times_after};
use crate::binary_operators::{Answer, Connective, OperandView, Pairing};
use crate::ring_buffer::{has_entry_at, in_order, Step};
use crate::semantics::RobustnessSemantics;
use crate::time::{Time, FOREVER};
use vstd::prelude::*;

verus! {

/// A conjunction combines by conjunction and is settled by false, a disjunction combines by
/// disjunction and is settled by true.
pub proof fn connectives_combine_as_they_are_called<Y: RobustnessSemantics>(l: Y, r: Y)
    ensures
        Connective::And.combined(l, r) == Y::and_spec(l, r),
        Connective::Or.combined(l, r) == Y::or_spec(l, r),
        Connective::And.settling::<Y>() == Y::false_spec(),
        Connective::Or.settling::<Y>() == Y::true_spec(),
{
}

/// How far two operands have come together, how far the farther one has, and how far one has
/// without gaps.
pub proof fn frontiers_are_times_reached(left: Option<Time>, right: Option<Time>, t: Time)
    ensures
        joint(left, right) is Some <==> left is Some && right is Some,
        reached(joint(left, right), t) <==> reached(left, t) && reached(right, t),
        joint(left, right) is Some ==> joint(left, right) == left || joint(left, right) == right,
        farthest(left, right) is Some <==> left is Some || right is Some,
        reached(farthest(left, right), t) <==> reached(left, t) || reached(right, t),
        farthest(left, right) is Some ==> farthest(left, right) == left || farthest(left, right)
            == right,
        right is None ==> clamped(left, right) == left,
        left is None ==> clamped(left, right) is None,
        left is Some && right is Some ==> clamped(left, right) == joint(left, right),
        reached(left, t) <==> left is Some && t <= left->0,
{
}

/// After a batch of eager output the mark is its last answer within the joint frontier, or else
/// where it was. Of the answers past that frontier, and of those noted before, the times past the
/// mark are noted.
pub proof fn eager_output_moves_the_mark<Y>(
    output: Seq<Step<Y>>,
    joint: Option<Time>,
    mark: Option<Time>,
    ahead: Seq<Time>,
    t: Time,
)
    ensures
        ({
            let after = settled_mark(output, joint, mark);
            let within = |u: Time| joint is Some && u <= joint->0;
            &&& (forall|k: int|
                0 <= k < output.len() ==> !within((#[trigger] output[k]).timestamp)) ==> after
                == mark
            &&& (exists|k: int| 0 <= k < output.len() && within((#[trigger] output[k]).timestamp))
                ==> exists|k: int|
                {
                    &&& 0 <= k < output.len()
                    &&& within((#[trigger] output[k]).timestamp)
                    &&& after == Some(output[k].timestamp)
                    &&& forall|j: int|
                        k < j < output.len() ==> !within((#[trigger] output[j]).timestamp)
                }
            &&& settled_ahead(output, joint, mark, ahead).contains(t) <==> (after is None || t
                > after->0) && (ahead.contains(t) || !within(t) && exists|k: int|
                0 <= k < output.len() && (#[trigger] output[k]).timestamp == t)
        }),
{
    let after = settled_mark(output, joint, mark);
    lemma_newest(output, joint);
    lemma_beyond(output, joint, t);
    let beyond = out_of_reach(output, joint);
    let sum = ahead + beyond;
    lemma_later(sum, after, t);
    if sum.contains(t) {
        let k = choose|k: int| 0 <= k < sum.len() && sum[k] == t;
        assert(k < ahead.len() ==> ahead[k] == t);
        assert(k >= ahead.len() ==> beyond[k - ahead.len()] == t);
    }
    if ahead.contains(t) {
        let k = choose|k: int| 0 <= k < ahead.len() && ahead[k] == t;
        assert(sum[k] == t);
    }
    if beyond.contains(t) {
        let k = choose|k: int| 0 <= k < beyond.len() && beyond[k] == t;
        assert(sum[ahead.len() + k] == t);
    }
    if newest_reached(output, joint) is Some {
        let k = choose|k: int|
            {
                &&& 0 <= k < output.len()
                &&& reached(joint, (#[trigger] output[k]).timestamp)
                &&& newest_reached(output, joint) == Some(output[k].timestamp)
                &&& forall|j: int|
                    k < j < output.len() ==> !reached(joint, (#[trigger] output[j]).timestamp)
            };
        assert(reached(joint, output[k].timestamp));
    }
}

proof fn lemma_newest<Y>(output: Seq<Step<Y>>, frontier: Option<Time>)
    ensures
        newest_reached(output, frontier) is None ==> forall|k: int|
            0 <= k < output.len() ==> !reached(frontier, (#[trigger] output[k]).timestamp),
        newest_reached(output, frontier) is Some ==> exists|k: int|
            {
                &&& 0 <= k < output.len()
                &&& reached(frontier, (#[trigger] output[k]).timestamp)
                &&& newest_reached(output, frontier) == Some(output[k].timestamp)
                &&& forall|j: int|
                    k < j < output.len() ==> !reached(frontier, (#[trigger] output[j]).timestamp)
            },
    decreases output.len(),
{
    if output.len() > 0 {
        let p = output.drop_last();
        let n = output.len() - 1;
        assert(output[n] == output.last());
        if !reached(frontier, output.last().timestamp) {
            lemma_newest(p, frontier);
            if newest_reached(p, frontier) is Some {
                let k = choose|k: int|
                    {
                        &&& 0 <= k < p.len()
                        &&& reached(frontier, (#[trigger] p[k]).timestamp)
                        &&& newest_reached(p, frontier) == Some(p[k].timestamp)
                        &&& forall|j: int|
                            k < j < p.len() ==> !reached(frontier, (#[trigger] p[j]).timestamp)
                    };
                assert(output[k] == p[k]);
                assert forall|j: int| k < j < output.len() implies !reached(
                    frontier,
                    (#[trigger] output[j]).timestamp,
                ) by {
                    if j < n {
                        assert(p[j] == output[j]);
                    }
                }
            } else {
                assert forall|k: int| 0 <= k < output.len() implies !reached(
                    frontier,
                    (#[trigger] output[k]).timestamp,
                ) by {
                    if k < n {
                        assert(p[k] == output[k]);
                    }
                }
            }
        } else {
            assert(reached(frontier, output[n].timestamp));
        }
    }
}

/// The times past a frontier are those of the output that it does not reach.
pub proof fn lemma_beyond<Y>(output: Seq<Step<Y>>, frontier: Option<Time>, t: Time)
    ensures
        out_of_reach(output, frontier).contains(t) <==> !reached(frontier, t) && exists|i: int|
            0 <= i < output.len() && (#[trigger] output[i]).timestamp == t,
    decreases output.len(),
{
    let all = out_of_reach(output, frontier);
    if output.len() > 0 {
        let p = output.drop_last();
        let head = out_of_reach(p, frontier);
        let n = output.len() - 1;
        lemma_beyond(p, frontier, t);
        assert(output[n] == output.last());
        if head.contains(t) {
            let k = choose|k: int| 0 <= k < head.len() && head[k] == t;
            assert(all[k] == t);
            let i = choose|i: int| 0 <= i < p.len() && (#[trigger] p[i]).timestamp == t;
            assert(output[i].timestamp == t);
        }
        if all.contains(t) && !head.contains(t) {
            let k = choose|k: int| 0 <= k < all.len() && all[k] == t;
            assert(k < head.len() ==> head[k] == t);
            assert(output[n].timestamp == t);
        }
        if !reached(frontier, t) && exists|i: int|
            0 <= i < output.len() && (#[trigger] output[i]).timestamp == t {
            let i = choose|i: int| 0 <= i < output.len() && (#[trigger] output[i]).timestamp == t;
            if i < n {
                assert(p[i].timestamp == t);
            } else {
                assert(all[all.len() - 1] == t);
            }
        }
    }
}

/// The times after a mark are those it does not reach.
pub proof fn lemma_later(times: Seq<Time>, mark: Option<Time>, t: Time)
    ensures
        times_after(times, mark).contains(t) <==> times.contains(t) && !reached(mark, t),
    decreases times.len(),
{
    let all = times_after(times, mark);
    if times.len() > 0 {
        let p = times.drop_last();
        let head = times_after(p, mark);
        let n = times.len() - 1;
        lemma_later(p, mark, t);
        if head.contains(t) {
            let k = choose|k: int| 0 <= k < head.len() && head[k] == t;
            assert(all[k] == t);
            let i = choose|i: int| 0 <= i < p.len() && p[i] == t;
            assert(times[i] == t);
        }
        if all.contains(t) && !head.contains(t) {
            let k = choose|k: int| 0 <= k < all.len() && all[k] == t;
            assert(k < head.len() ==> head[k] == t);
            assert(times[n] == t);
        }
        if times.contains(t) && !reached(mark, t) {
            let i = choose|i: int| 0 <= i < times.len() && times[i] == t;
            if i < n {
                assert(p[i] == t);
            } else {
                assert(all[all.len() - 1] == t);
            }
        }
    }
}

/// What is kept of an operand.
pub open spec fn report_of<Y>(view: OperandView<Y>) -> Report<Y> {
    Report { cache: view.cache, frontier: view.frontier, lookahead: view.lookahead }
}

/// An operand is read as it is worth: nothing past the time it has come to; unknown where
/// verdicts are refined and it may still change; and else its newest verdict by then.
pub proof fn operands_are_read_as_they_are_worth<Y: RobustnessSemantics>(
    view: OperandView<Y>,
    rosi: bool,
    t: Time,
    v: Y,
)
    requires
        in_order(view.cache),
    ensures
        view.read(rosi, t) == Some(v) <==> is_worth(report_of(view), rosi, t, v),
{
    lemma_worth_of(report_of(view), rosi, t);
    assert(is_worth(report_of(view), rosi, t, v) || !is_worth(report_of(view), rosi, t, v));
}

/// What becomes of a time, from what the operands are worth there. Both worth something, it is
/// answered with their combination. One of them alone answers it if it settles the matter past
/// the time both have come to; if it does not, the time waits. Up to that time, or if neither is
/// worth anything, it is passed over.
pub proof fn times_are_answered_by_what_the_operands_are_worth<Y: RobustnessSemantics>(
    p: Pairing<Y>,
    t: Time,
)
    ensures
        ({
            let l = p.left.read(p.rosi, t);
            let r = p.right.read(p.rosi, t);
            let both = p.left.frontier is Some && p.right.frontier is Some && t
                <= p.left.frontier->0 && t <= p.right.frontier->0;
            let settles = |v: Y|
                match p.connective {
                    Connective::And => Y::same_spec(Y::false_spec(), v),
                    Connective::Or => Y::same_spec(Y::true_spec(), v),
                };
            match (l, r) {
                (Some(a), Some(b)) => p.answer(t) == Answer::Emit(
                    match p.connective {
                        Connective::And => Y::and_spec(a, b),
                        Connective::Or => Y::or_spec(a, b),
                    },
                ),
                (None, None) => p.answer(t) is Skip,
                (Some(v), None) => if both {
                    p.answer(t) is Skip
                } else if settles(v) {
                    p.answer(t) == Answer::Emit(v)
                } else {
                    p.answer(t) is Stop
                },
                (None, Some(v)) => if both {
                    p.answer(t) is Skip
                } else if settles(v) {
                    p.answer(t) == Answer::Emit(v)
                } else {
                    p.answer(t) is Stop
                },
            }
        }),
        // Nothing is answered past the time one operand has come to in eager mode, and past the
        // time both have come to in every other mode.
        ({
            let left = p.left.frontier is Some && t <= p.left.frontier->0;
            let right = p.right.frontier is Some && t <= p.right.frontier->0;
            reached(p.horizon(), t) <==> if p.eager && !p.rosi {
                left || right
            } else {
                left && right
            }
        }),
{
}

/// The times asked for are the timestamps of either operand past the mark, each once and in
/// order.
pub proof fn breakpoints_are_the_timestamps_past_the_mark<Y: RobustnessSemantics>(
    p: Pairing<Y>,
    mark: Option<Time>,
    t: Time,
)
    requires
        in_order(p.left.cache),
        in_order(p.right.cache),
    ensures
        p.breakpoints(mark).contains(t) <==> (mark is None || t > mark->0) && ((exists|i: int|
            0 <= i < p.left.cache.len() && (#[trigger] p.left.cache[i]).timestamp == t) || (exists|
            i: int,
        |
            0 <= i < p.right.cache.len() && (#[trigger] p.right.cache[i]).timestamp == t)),
        forall|i: int, j: int|
            0 <= i < j < p.breakpoints(mark).len() ==> (#[trigger] p.breakpoints(mark)[i]) < (
            #[trigger] p.breakpoints(mark)[j]),
{
    lemma_after_mark(p.left.cache, mark);
    lemma_after_mark(p.right.cache, mark);
    merged_lists_every_timestamp(
        after_mark(p.left.cache, mark),
        after_mark(p.right.cache, mark),
    );
    assert(has_entry_at(p.left.cache, t) <==> exists|i: int|
        0 <= i < p.left.cache.len() && (#[trigger] p.left.cache[i]).timestamp == t);
    assert(has_entry_at(p.right.cache, t) <==> exists|i: int|
        0 <= i < p.right.cache.len() && (#[trigger] p.right.cache[i]).timestamp == t);
}

/// `step` is the answer at `t`.
pub open spec fn is_answered_by<Y: RobustnessSemantics>(
    p: Pairing<Y>,
    t: Time,
    step: Step<Y>,
) -> bool {
    step.timestamp == t && p.answer(t) == Answer::Emit(step.value)
}

/// Times are answered in the order they are asked for, up to the first that waits or lies past
/// the horizon: `res` gives the places of those answered, and how many times are looked at.
pub proof fn answers_are_given_up_to_a_time_that_waits<Y: RobustnessSemantics>(
    p: Pairing<Y>,
    times: Seq<Time>,
) -> (res: (Seq<int>, int))
    ensures
        0 <= res.1 <= times.len(),
        forall|i: int|
            0 <= i < res.1 ==> reached(p.horizon(), #[trigger] times[i]) && !(p.answer(
                times[i],
            ) is Stop),
        res.1 < times.len() ==> !reached(p.horizon(), times[res.1]) || p.answer(
            times[res.1],
        ) is Stop,
        res.0.len() == p.answers(times).len(),
        forall|k: int|
            0 <= k < res.0.len() ==> 0 <= #[trigger] res.0[k] < res.1 && is_answered_by(
                p,
                times[res.0[k]],
                p.answers(times)[k],
            ),
        forall|k: int|
            0 <= k < p.answers(times).len() ==> (#[trigger] p.answers(times)[k]).signal == "output"
                && p.answers(times)[k].held_until == FOREVER,
        forall|j: int, k: int|
            0 <= j < k < res.0.len() ==> (#[trigger] res.0[j]) < (#[trigger] res.0[k]),
        forall|i: int|
            0 <= i < res.1 && p.answer(#[trigger] times[i]) is Emit ==> res.0.contains(i),
    decreases times.len(),
{
    let out = p.answers(times);
    if times.len() == 0 || !reached(p.horizon(), times[0]) || p.answer(times[0]) is Stop {
        assert(out.len() == 0);
        (Seq::empty(), 0)
    } else {
        let tail = times.skip(1);
        let rest = p.answers(tail);
        let (at, n) = answers_are_given_up_to_a_time_that_waits(p, tail);
        assert forall|i: int| 0 <= i < tail.len() implies #[trigger] tail[i] == times[i + 1] by {}
        let shifted = Seq::new(at.len(), |k: int| at[k] + 1);
        let emits = p.answer(times[0]) is Emit;
        let all = if emits {
            seq![0int] + shifted
        } else {
            shifted
        };
        let first: int = if emits {
            1
        } else {
            0
        };
        assert forall|k: int| 0 <= k < all.len() implies 0 <= #[trigger] all[k] < n + 1
            && is_answered_by(p, times[all[k]], out[k]) by {
            if k >= first {
                assert(out[k] == rest[k - first]);
                assert(all[k] == at[k - first] + 1);
                assert(tail[at[k - first]] == times[all[k]]);
            }
        }
        assert forall|j: int, k: int| 0 <= j < k < all.len() implies (#[trigger] all[j]) < (
        #[trigger] all[k]) by {
            assert(all[k] == at[k - first] + 1);
            assert(0 <= at[k - first]);
            if j >= first {
                assert(all[j] == at[j - first] + 1);
                assert(at[j - first] < at[k - first]);
            }
        }
        assert forall|i: int| 0 <= i < n + 1 && p.answer(#[trigger] times[i]) is Emit implies all.contains(
            i,
        ) by {
            if i == 0 {
                assert(all[0] == 0);
            } else {
                assert(tail[i - 1] == times[i]);
                assert(at.contains(i - 1));
                let k = choose|k: int| 0 <= k < at.len() && at[k] == i - 1;
                assert(all[k + first] == i);
            }
        }
        assert forall|i: int| 0 <= i < n + 1 implies reached(
            p.horizon(),
            #[trigger] times[i],
        ) && !(p.answer(times[i]) is Stop) by {
            if i > 0 {
                assert(tail[i - 1] == times[i]);
            }
        }
        assert(n < tail.len() ==> tail[n] == times[n + 1]);
        assert(all.len() == out.len());
        (all, n + 1)
    }
}

} // verus!
