//! Maps from names, kept in name order.

use crate::memory::{room_for, vec_heap_size};
use crate::text::{is_before, lemma_name_order, lemma_name_order_transitive, name_before, same_text};
use vstd::prelude::*;

verus! {

/// A map from names to values, listed in name order.
#[derive(Debug)]
pub struct NameMap<A> {
    items: Vec<(&'static str, A)>,
}

/// Names rise strictly from one item to the next.
pub open spec fn listed_in_order<A>(items: Seq<(&'static str, A)>) -> bool {
    forall|i: int, j: int|
        0 <= i < j < items.len() ==> name_before((#[trigger] items[i]).0@, (#[trigger] items[j]).0@)
}

pub open spec fn named_at<A>(items: Seq<(&'static str, A)>, name: Seq<char>, i: int) -> bool {
    0 <= i < items.len() && items[i].0@ == name
}

/// The map that a list of items stands for.
pub open spec fn map_of<A>(items: Seq<(&'static str, A)>) -> Map<Seq<char>, A> {
    Map::new(
        |n: Seq<char>| exists|i: int| named_at(items, n, i),
        |n: Seq<char>| items[choose|i: int| named_at(items, n, i)].1,
    )
}

/// An ordered list gives each of its names the value beside it.
pub proof fn lemma_map_of<A>(items: Seq<(&'static str, A)>, i: int)
    requires
        listed_in_order(items),
        0 <= i < items.len(),
    ensures
        map_of(items).contains_key(items[i].0@),
        map_of(items)[items[i].0@] == items[i].1,
{
    let n = items[i].0@;
    assert(named_at(items, n, i));
    let k = choose|k: int| named_at(items, n, k);
    lemma_name_order(n, n);
    if k < i {
        assert(name_before(items[k].0@, items[i].0@));
    } else if i < k {
        assert(name_before(items[i].0@, items[k].0@));
    }
}

/// An ordered list has as many names as items.
pub proof fn lemma_one_item_per_name<A>(items: Seq<(&'static str, A)>)
    requires
        listed_in_order(items),
    ensures
        map_of(items).dom().finite(),
        map_of(items).dom().len() == items.len(),
{
    let names = Seq::new(items.len(), |i: int| items[i].0@);
    assert forall|i: int, j: int| 0 <= i < j < names.len() implies names[i] != names[j] by {
        lemma_name_order(items[i].0@, items[j].0@);
        assert(name_before(items[i].0@, items[j].0@));
    }
    names.unique_seq_to_set();
    assert(map_of(items).dom() =~= names.to_set()) by {
        assert forall|n: Seq<char>| map_of(items).dom().contains(n) == names.to_set().contains(n) by {
            if map_of(items).dom().contains(n) {
                let i = choose|i: int| named_at(items, n, i);
                assert(names[i] == n);
            }
            if names.contains(n) {
                let i = choose|i: int| 0 <= i < names.len() && names[i] == n;
                assert(named_at(items, n, i));
            }
        }
    }
}

impl<A> NameMap<A> {
    pub closed spec fn items(&self) -> Seq<(&'static str, A)> {
        self.items@
    }

    pub open spec fn wf(&self) -> bool {
        listed_in_order(self.items())
    }

    pub open spec fn view(&self) -> Map<Seq<char>, A> {
        map_of(self.items())
    }

    pub fn new() -> (res: NameMap<A>)
        ensures
            res.wf(),
            res.items() == Seq::<(&'static str, A)>::empty(),
            res@ == Map::<Seq<char>, A>::empty(),
    {
        let res = NameMap { items: Vec::new() };
        assert(res@ =~= Map::empty());
        res
    }

    pub fn len(&self) -> (res: usize)
        ensures
            res == self.items().len(),
    {
        self.items.len()
    }

    pub fn at(&self, i: usize) -> (res: &(&'static str, A))
        requires
            i < self.items().len(),
        ensures
            *res == self.items()[i as int],
    {
        &self.items[i]
    }

    /// The heap memory held.
    pub fn heap_size(&self) -> (res: usize)
        ensures
            room_for(res, self.items().len(), vstd::layout::size_of::<(&'static str, A)>()),
    {
        vec_heap_size(&self.items)
    }

    /// How many names are listed before `name`.
    fn rank(&self, name: &str) -> (res: usize)
        requires
            self.wf(),
        ensures
            res <= self.items().len(),
            forall|i: int| 0 <= i < res ==> name_before((#[trigger] self.items()[i]).0@, name@),
            forall|i: int|
                res <= i < self.items().len() ==> !name_before((#[trigger] self.items()[i]).0@, name@),
    {
        let mut i: usize = 0;
        while i < self.items.len()
            invariant
                self.wf(),
                i <= self.items@.len(),
                forall|j: int| 0 <= j < i ==> name_before((#[trigger] self.items@[j]).0@, name@),
            decreases self.items@.len() - i,
        {
            if !is_before(self.items[i].0, name) {
                proof {
                    assert forall|j: int| i <= j < self.items@.len() implies !name_before(
                        (#[trigger] self.items@[j]).0@,
                        name@,
                    ) by {
                        if j > i && name_before(self.items@[j].0@, name@) {
                            lemma_name_order_transitive(
                                self.items@[i as int].0@,
                                self.items@[j].0@,
                                name@,
                            );
                        }
                    }
                }
                return i;
            }
            i = i + 1;
        }
        i
    }

    /// The value of `name`.
    pub fn get(&self, name: &str) -> (res: Option<A>)
        where A: Copy
        requires
            self.wf(),
        ensures
            res == (if self@.contains_key(name@) {
                Some(self@[name@])
            } else {
                None
            }),
    {
        let i: usize = self.rank(name);
        if i < self.items.len() && same_text(self.items[i].0, name) {
            proof {
                lemma_map_of(self.items@, i as int);
            }
            Some(self.items[i].1)
        } else {
            proof {
                assert forall|k: int| !named_at(self.items@, name@, k) by {
                    if named_at(self.items@, name@, k) {
                        lemma_name_order(name@, name@);
                        if i < k {
                            lemma_name_order(self.items@[i as int].0@, name@);
                            assert(name_before(self.items@[i as int].0@, self.items@[k].0@));
                        }
                    }
                }
            }
            None
        }
    }

    /// Gives `name` the value `value`, in place of the one it had.
    pub fn insert(&mut self, name: &'static str, value: A)
        requires
            old(self).wf(),
        ensures
            final(self).wf(),
            final(self)@ == old(self)@.insert(name@, value),
    {
        let ghost before = self.items@;
        let i: usize = self.rank(name);
        let found: bool = i < self.items.len() && same_text(self.items[i].0, name);
        if found {
            self.items.set(i, (name, value));
        } else {
            self.items.insert(i, (name, value));
        }
        proof {
            let after = self.items@;
            assert forall|j: int, k: int| 0 <= j < k < after.len() implies name_before(
                (#[trigger] after[j]).0@,
                (#[trigger] after[k]).0@,
            ) by {
                if !found {
                    let a = if j < i {
                        j
                    } else {
                        j - 1
                    };
                    let b = if k < i {
                        k
                    } else {
                        k - 1
                    };
                    if j != i && k != i {
                        assert(after[j] == before[a] && after[k] == before[b]);
                    } else if j == i {
                        assert(after[k] == before[b]);
                        lemma_name_order(before[b].0@, name@);
                        if before[b].0@ == name@ && b > i {
                            lemma_name_order(before[i as int].0@, name@);
                            assert(name_before(before[i as int].0@, before[b].0@));
                        }
                    } else {
                        assert(after[j] == before[a]);
                    }
                }
            }
            let target = map_of(before).insert(name@, value);
            assert forall|n: Seq<char>|
                #![trigger map_of(after).dom().contains(n)]
                #![trigger map_of(after)[n]]
                map_of(after).dom().contains(n) == target.dom().contains(n) && (map_of(
                    after,
                ).dom().contains(n) ==> map_of(after)[n] == target[n]) by {
                lemma_map_of(after, i as int);
                if map_of(after).dom().contains(n) && n != name@ {
                    let k = choose|k: int| named_at(after, n, k);
                    let a = if found || k < i {
                        k
                    } else {
                        k - 1
                    };
                    assert(after[k] == before[a]);
                    lemma_map_of(after, k);
                    lemma_map_of(before, a);
                }
                if map_of(before).dom().contains(n) && n != name@ {
                    let a = choose|a: int| named_at(before, n, a);
                    let k = if found || a < i {
                        a
                    } else {
                        a + 1
                    };
                    assert(after[k] == before[a]);
                    assert(named_at(after, n, k));
                }
            }
            assert(self@ =~= target);
        }
    }

    /// Removes `name`.
    pub fn remove(&mut self, name: &str)
        requires
            old(self).wf(),
        ensures
            final(self).wf(),
            final(self)@ == old(self)@.remove(name@),
    {
        let ghost before = self.items@;
        let i: usize = self.rank(name);
        if i < self.items.len() && same_text(self.items[i].0, name) {
            let _ = self.items.remove(i);
            proof {
                let after = self.items@;
                assert forall|j: int, k: int| 0 <= j < k < after.len() implies name_before(
                    (#[trigger] after[j]).0@,
                    (#[trigger] after[k]).0@,
                ) by {
                    let a = if j < i {
                        j
                    } else {
                        j + 1
                    };
                    let b = if k < i {
                        k
                    } else {
                        k + 1
                    };
                    assert(after[j] == before[a] && after[k] == before[b]);
                }
                let target = map_of(before).remove(name@);
                assert forall|n: Seq<char>|
                    #![trigger map_of(after).dom().contains(n)]
                    #![trigger map_of(after)[n]]
                    map_of(after).dom().contains(n) == target.dom().contains(n) && (map_of(
                        after,
                    ).dom().contains(n) ==> map_of(after)[n] == target[n]) by {
                    if map_of(after).dom().contains(n) {
                        let k = choose|k: int| named_at(after, n, k);
                        let a = if k < i {
                            k
                        } else {
                            k + 1
                        };
                        assert(after[k] == before[a]);
                        lemma_map_of(after, k);
                        lemma_map_of(before, a);
                        lemma_name_order(name@, name@);
                        if a < i {
                            assert(name_before(before[a].0@, before[i as int].0@));
                        } else {
                            assert(name_before(before[i as int].0@, before[a].0@));
                        }
                    }
                    if map_of(before).dom().contains(n) && n != name@ {
                        let a = choose|a: int| named_at(before, n, a);
                        let k = if a < i {
                            a
                        } else {
                            a - 1
                        };
                        assert(after[k] == before[a]);
                        assert(named_at(after, n, k));
                    }
                }
                assert(self@ =~= target);
            }
        } else {
            proof {
                assert forall|k: int| !named_at(before, name@, k) by {
                    if named_at(before, name@, k) {
                        lemma_name_order(name@, name@);
                        if i < k {
                            lemma_name_order(before[i as int].0@, name@);
                            assert(name_before(before[i as int].0@, before[k].0@));
                        }
                    }
                }
                assert(self@ =~= old(self)@.remove(name@));
            }
        }
    }

    pub fn clear(&mut self)
        ensures
            final(self).wf(),
            final(self).items() == Seq::<(&'static str, A)>::empty(),
            final(self)@ == Map::<Seq<char>, A>::empty(),
    {
        self.items.clear();
        assert(self@ =~= Map::empty());
    }

    /// A copy of the map.
    pub fn duplicate(&self) -> (res: NameMap<A>)
        where A: Copy
        requires
            self.wf(),
        ensures
            res.wf(),
            res.items() == self.items(),
            res@ == self@,
    {
        let mut items: Vec<(&'static str, A)> = Vec::new();
        let mut i: usize = 0;
        while i < self.items.len()
            invariant
                i <= self.items@.len(),
                items@ == self.items@.take(i as int),
            decreases self.items@.len() - i,
        {
            items.push(self.items[i]);
            i = i + 1;
            assert(items@ =~= self.items@.take(i as int));
        }
        assert(items@ =~= self.items@);
        NameMap { items }
    }
}

} // verus!
