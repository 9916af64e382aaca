//! Sets of signal names.

use crate::text::same_text;
use vstd::prelude::*;

verus! {

/// The names in a list.
pub open spec fn name_set(list: Seq<&'static str>) -> Set<Seq<char>> {
    Set::new(|n: Seq<char>| exists|i: int| 0 <= i < list.len() && (#[trigger] list[i])@ == n)
}

/// No name is listed twice.
pub open spec fn all_distinct(list: Seq<&'static str>) -> bool {
    forall|i: int, j: int| 0 <= i < j < list.len() ==> (#[trigger] list[i])@ != (#[trigger] list[j])@
}

/// Whether a sample of `signal` concerns an operand that reads `names`. While nothing is known
/// of what it reads, every sample does.
pub open spec fn concerns(names: Set<Seq<char>>, signal: Seq<char>) -> bool {
    names.contains(signal) || names =~= Set::empty()
}

/// A list that names nothing twice is as long as there are names in it.
pub proof fn lemma_distinct_names(list: Seq<&'static str>)
    requires
        all_distinct(list),
    ensures
        name_set(list).finite(),
        name_set(list).len() == list.len(),
    decreases list.len(),
{
    if list.len() == 0 {
        assert(name_set(list) =~= Set::empty());
    } else {
        let head = list.drop_last();
        let last = list.last()@;
        assert(all_distinct(head));
        lemma_distinct_names(head);
        assert(!name_set(head).contains(last)) by {
            if name_set(head).contains(last) {
                let i = choose|i: int| 0 <= i < head.len() && (#[trigger] head[i])@ == last;
                assert(list[i]@ != list[list.len() - 1]@);
            }
        }
        assert(name_set(list) =~= name_set(head).insert(last)) by {
            assert forall|n: Seq<char>| name_set(list).contains(n) implies name_set(head).insert(
                last,
            ).contains(n) by {
                let i = choose|i: int| 0 <= i < list.len() && (#[trigger] list[i])@ == n;
                if i < head.len() {
                    assert(head[i]@ == n);
                }
            }
            assert forall|n: Seq<char>| name_set(head).insert(last).contains(n) implies name_set(
                list,
            ).contains(n) by {
                if name_set(head).contains(n) {
                    let i = choose|i: int| 0 <= i < head.len() && (#[trigger] head[i])@ == n;
                    assert(list[i]@ == n);
                } else {
                    assert(list[list.len() - 1]@ == n);
                }
            }
        }
    }
}

pub fn contains_name(list: &Vec<&'static str>, name: &str) -> (res: bool)
    ensures
        res == name_set(list@).contains(name@),
{
    let mut i: usize = 0;
    while i < list.len()
        invariant
            i <= list@.len(),
            forall|j: int| 0 <= j < i ==> (#[trigger] list@[j])@ != name@,
        decreases list@.len() - i,
    {
        if same_text(list[i], name) {
            assert(list@[i as int]@ == name@);
            return true;
        }
        i = i + 1;
    }
    false
}

/// Whether a sample of `signal` is to be handed to an operand that reads `list`.
pub fn is_concerned(list: &Vec<&'static str>, signal: &str) -> (res: bool)
    ensures
        res == concerns(name_set(list@), signal@),
{
    if list.len() == 0 {
        assert(name_set(list@) =~= Set::empty());
        true
    } else {
        assert(name_set(list@).contains(list@[0]@));
        contains_name(list, signal)
    }
}

/// Adds the names of `more` that `list` lacks.
pub fn extend_names(list: &mut Vec<&'static str>, more: &Vec<&'static str>)
    requires
        all_distinct(old(list)@),
    ensures
        all_distinct(final(list)@),
        name_set(final(list)@) == name_set(old(list)@).union(name_set(more@)),
{
    let mut i: usize = 0;
    proof {
        assert(name_set(more@.take(0)) =~= Set::empty());
        assert(name_set(list@) =~= name_set(list@).union(name_set(more@.take(0))));
    }
    while i < more.len()
        invariant
            i <= more@.len(),
            all_distinct(list@),
            name_set(list@) == name_set(old(list)@).union(name_set(more@.take(i as int))),
        decreases more@.len() - i,
    {
        let ghost before = list@;
        let ghost head = more@.take(i as int);
        let ghost longer = more@.take(i + 1);
        let found: bool = contains_name(list, more[i]);
        proof {
            assert(longer =~= head.push(more@[i as int]));
            assert(name_set(longer) =~= name_set(head).insert(more@[i as int]@)) by {
                assert forall|n: Seq<char>| name_set(head).insert(more@[i as int]@).contains(n)
                    implies name_set(longer).contains(n) by {
                    if name_set(head).contains(n) {
                        let j = choose|j: int| 0 <= j < head.len() && (#[trigger] head[j])@ == n;
                        assert(longer[j]@ == n);
                    } else {
                        assert(longer[i as int]@ == n);
                    }
                }
            }
        }
        if !found {
            list.push(more[i]);
            proof {
                assert forall|j: int| 0 <= j < before.len() implies (#[trigger] before[j])@
                    != more@[i as int]@ by {
                    assert(name_set(before).contains(before[j]@));
                }
                assert(name_set(list@) =~= name_set(before).insert(more@[i as int]@)) by {
                    assert forall|n: Seq<char>| name_set(before).insert(more@[i as int]@).contains(
                        n,
                    ) implies name_set(list@).contains(n) by {
                        if name_set(before).contains(n) {
                            let j = choose|j: int|
                                0 <= j < before.len() && (#[trigger] before[j])@ == n;
                            assert(list@[j]@ == n);
                        } else {
                            assert(list@[before.len() as int]@ == n);
                        }
                    }
                }
            }
        }
        proof {
            assert(name_set(list@) =~= name_set(old(list)@).union(name_set(longer)));
        }
        i = i + 1;
    }
    assert(more@.take(i as int) =~= more@);
}

} // verus!
