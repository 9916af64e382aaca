//! What two operands have said, and what is left of it once some was forgotten.

use crate::binary_node::{absorbed, advanced};
use crate::binary_operators::{clamped, reached};
use crate::binary_stream_laws::{lemma_absorbed_appends, lemma_append_in_force};
use crate::binary_stream_laws::{lemma_pruned_index, lemma_skip, newest};
use crate::ring_buffer::{all_upto, has_entry_at, in_force, in_order, lemma_count_upto, pruned};
use crate::ring_buffer::Step;
use crate::time::{minus, Time, MAX_TIME};
use vstd::prelude::*;

verus! {

/// More verdicts of an operand leave what it has said as it is.
pub open spec fn extends<Y>(before: Seq<Step<Y>>, after: Seq<Step<Y>>) -> bool {
    &&& forall|t: Time| reached(newest(before), t) ==> #[trigger] reached(newest(after), t)
    &&& forall|t: Time|
        reached(newest(before), t) ==> #[trigger] in_force(after, t) == in_force(before, t)
    &&& forall|t: Time|
        #![trigger has_entry_at(after, t)]
        reached(newest(before), t) ==> has_entry_at(after, t) == has_entry_at(before, t)
    &&& forall|t: Time| #[trigger] has_entry_at(before, t) ==> has_entry_at(after, t)
}

pub proof fn lemma_extends<Y>(before: Seq<Step<Y>>, more: Seq<Step<Y>>)
    requires
        in_order(before + more),
    ensures
        extends(before, before + more),
{
    let after = before + more;
    if before.len() > 0 && more.len() > 0 {
        assert(after[before.len() - 1] == before.last());
        assert(after[before.len() as int] == more[0]);
        assert(after[after.len() - 1] == after.last());
        assert(before.last().timestamp < more[0].timestamp);
        assert(more[0].timestamp <= after.last().timestamp);
    }
    if more.len() == 0 {
        assert(after =~= before);
    }
    assert forall|t: Time| reached(newest(before), t) implies #[trigger] in_force(after, t)
        == in_force(before, t) by {
        lemma_append_in_force(before, more, t);
    }
    assert forall|t: Time| #[trigger] has_entry_at(before, t) implies has_entry_at(after, t) by {
        let i = choose|i: int| 0 <= i < before.len() && (#[trigger] before[i]).timestamp == t;
        assert(after[i].timestamp == t);
    }
    assert forall|t: Time|
        #![trigger has_entry_at(after, t)]
        reached(newest(before), t) implies has_entry_at(after, t) == has_entry_at(before, t) by {
        if has_entry_at(before, t) {
            let i = choose|i: int| 0 <= i < before.len() && (#[trigger] before[i]).timestamp == t;
            assert(after[i].timestamp == t);
        }
        if has_entry_at(after, t) {
            let i = choose|i: int| 0 <= i < after.len() && (#[trigger] after[i]).timestamp == t;
            if i < before.len() {
                assert(before[i].timestamp == t);
            } else {
                assert(after[before.len() - 1].timestamp < after[i].timestamp);
            }
        }
    }
}

/// `cache` is `all` without its first `i` entries, which were superseded by `mark`.
pub open spec fn is_forgotten<Y>(
    cache: Seq<Step<Y>>,
    all: Seq<Step<Y>>,
    i: int,
    mark: Option<Time>,
) -> bool {
    &&& 0 <= i <= all.len()
    &&& cache == all.skip(i)
    &&& i > 0 ==> i < all.len() && reached(mark, all[i].timestamp)
}

/// Reading what is left of an operand where it is not forgotten gives what the operand says.
pub proof fn lemma_read_left<Y>(all: Seq<Step<Y>>, i: int, mark: Option<Time>, t: Time)
    requires
        in_order(all),
        is_forgotten(all.skip(i), all, i, mark),
    ensures
        in_order(all.skip(i)),
        in_force(all.skip(i), t) is Some || mark is None || !reached(mark, t) ==> in_force(
            all.skip(i),
            t,
        ) == in_force(all, t),
        !reached(mark, t) ==> has_entry_at(all.skip(i), t) == has_entry_at(all, t),
{
    if i > 0 {
        let p = all[i].timestamp;
        lemma_skip(all, i, p, t);
        if in_force(all.skip(i), t) is Some {
            lemma_count_upto(all.skip(i), t);
            assert(all.skip(i)[0] == all[i]);
        }
        if !reached(mark, t) && has_entry_at(all, t) {
            let n = choose|n: int| 0 <= n < all.len() && (#[trigger] all[n]).timestamp == t;
            assert(n > i);
            assert(all.skip(i)[n - i] == all[n]);
        }
    } else {
        assert(all.skip(0) =~= all);
    }
}

pub proof fn lemma_entry_kept<Y>(all: Seq<Step<Y>>, i: int, t: Time)
    requires
        0 <= i <= all.len(),
    ensures
        has_entry_at(all.skip(i), t) ==> has_entry_at(all, t),
{
    if has_entry_at(all.skip(i), t) {
        let k = choose|k: int|
            0 <= k < all.skip(i).len() && (#[trigger] all.skip(i)[k]).timestamp == t;
        assert(all[i + k].timestamp == t);
    }
}

pub proof fn lemma_skipped<Y>(all: Seq<Step<Y>>, i: int)
    requires
        in_order(all),
        all_upto(all, MAX_TIME),
        0 <= i <= all.len(),
    ensures
        in_order(all.skip(i)),
        all_upto(all.skip(i), MAX_TIME),
{
    assert forall|k: int| 0 <= k < all.skip(i).len() implies (#[trigger] all.skip(i)[k]).timestamp
        <= MAX_TIME by {
        assert(all.skip(i)[k] == all[i + k]);
    }
}

/// What an operand adds is appended to what is left of what it has said.
pub proof fn lemma_appended<Y>(
    all: Seq<Step<Y>>,
    more: Seq<Step<Y>>,
    i: int,
    joint: Option<Time>,
    rosi: bool,
    mark: Option<Time>,
)
    requires
        in_order(all + more),
        is_forgotten(all.skip(i), all, i, joint),
        forall|t: Time| #[trigger] reached(joint, t) ==> reached(newest(all), t),
        mark matches Some(m) ==> reached(joint, m),
    ensures
        absorbed(all.skip(i), more, rosi, mark) == (all + more).skip(i),
        is_forgotten((all + more).skip(i), all + more, i, joint),
        clamped(advanced(newest(all), more), None) == newest(all + more),
{
    let whole = all + more;
    assert(all.skip(i) + more =~= whole.skip(i));
    assert(in_order(whole.skip(i)));
    assert forall|k: int| 0 <= k < more.len() implies !reached(
        mark,
        (#[trigger] more[k]).timestamp,
    ) by {
        assert(whole[all.len() + k] == more[k]);
        if let Some(m) = mark {
            assert(reached(newest(all), m));
            assert(whole[all.len() - 1] == all.last());
            assert(whole[all.len() - 1].timestamp < whole[all.len() + k].timestamp);
        }
    }
    lemma_absorbed_appends(all.skip(i), more, rosi, mark);
    if i > 0 {
        assert(whole[i] == all[i]);
    }
    if more.len() > 0 {
        assert(whole.last() == more.last());
        if all.len() > 0 {
            assert(whole[all.len() - 1] == all.last());
            assert(whole[whole.len() - 1] == more.last());
            assert(whole[all.len() - 1].timestamp < whole[whole.len() - 1].timestamp);
        }
    } else {
        assert(whole =~= all);
    }
}

/// Pruning forgets only what was superseded by the joint frontier.
pub proof fn lemma_pruned_up_to_joint<Y>(
    all: Seq<Step<Y>>,
    i: int,
    lookahead: Time,
    joint: Option<Time>,
) -> (k: int)
    requires
        in_order(all),
        is_forgotten(all.skip(i), all, i, joint),
    ensures
        is_forgotten(
            pruned(
                all.skip(i),
                lookahead,
                minus(
                    match joint {
                        Some(t) => t,
                        None => 0,
                    },
                    lookahead,
                ),
            ),
            all,
            k,
            joint,
        ),
{
    let reached_to = match joint {
        Some(t) => t,
        None => 0,
    };
    lemma_pruned_index(all, i, lookahead, minus(reached_to, lookahead))
}

} // verus!
