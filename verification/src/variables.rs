//! The values that variable thresholds are read from.

use crate::semantics::SignalValue;
use crate::text::same_text;
use vstd::prelude::*;
use vstd::string::*;

verus! {

/// A context of named values.
#[derive(Debug)]
pub struct Variables<V> {
    bindings: Vec<(String, V)>,
}

spec fn bound_at<V>(list: Seq<(String, V)>, name: Seq<char>, i: int) -> bool {
    0 <= i < list.len() && list[i].0@ == name
}

spec fn as_map<V>(list: Seq<(String, V)>) -> Map<Seq<char>, V> {
    Map::new(
        |n: Seq<char>| exists|i: int| bound_at(list, n, i),
        |n: Seq<char>| list[choose|i: int| bound_at(list, n, i)].1,
    )
}

/// The names that are bound, in the order they are listed in.
spec fn listed<V>(list: Seq<(String, V)>) -> Seq<Seq<char>> {
    Seq::new(list.len(), |i: int| list[i].0@)
}

spec fn each_bound_once<V>(list: Seq<(String, V)>) -> bool {
    forall|i: int, j: int| 0 <= i < j < list.len() ==> (#[trigger] list[i]).0@ != (#[trigger] list[j]).0@
}

proof fn lemma_bound<V>(list: Seq<(String, V)>, i: int)
    requires
        each_bound_once(list),
        0 <= i < list.len(),
    ensures
        as_map(list).contains_key(list[i].0@),
        as_map(list)[list[i].0@] == list[i].1,
{
    let n = list[i].0@;
    assert(bound_at(list, n, i));
    let k = choose|k: int| bound_at(list, n, k);
    assert(bound_at(list, n, k));
    if k < i {
        assert(list[k].0@ != list[i].0@);
    } else if i < k {
        assert(list[i].0@ != list[k].0@);
    }
}

/// The text of bindings, separated by commas.
pub open spec fn bindings_text<V: SignalValue>(names: Seq<Seq<char>>, values: Map<Seq<char>, V>) -> Seq<char>
    decreases names.len(),
{
    if names.len() == 0 {
        Seq::empty()
    } else {
        let last = names.last() + ": "@ + V::text_spec(values[names.last()]);
        if names.len() == 1 {
            last
        } else {
            bindings_text(names.drop_last(), values) + ", "@ + last
        }
    }
}

impl<V> View for Variables<V> {
    type V = Map<Seq<char>, V>;

    closed spec fn view(&self) -> Map<Seq<char>, V> {
        as_map(self.bindings@)
    }
}

impl<V> Variables<V> {
    pub closed spec fn wf(&self) -> bool {
        each_bound_once(self.bindings@)
    }

    /// The names that are bound, in the order they are listed in.
    pub closed spec fn listing(&self) -> Seq<Seq<char>> {
        listed(self.bindings@)
    }

    /// Creates an empty context.
    pub fn new() -> (res: Variables<V>)
        ensures
            res.wf(),
            res@ == Map::<Seq<char>, V>::empty(),
            res.listing() == Seq::<Seq<char>>::empty(),
    {
        let res = Variables { bindings: Vec::new() };
        assert(res@ =~= Map::empty());
        assert(res.listing() =~= Seq::empty());
        res
    }

    /// The listing names every binding exactly once.
    pub proof fn listing_names_every_binding_once(&self)
        requires
            self.wf(),
        ensures
            self.listing().no_duplicates(),
            self.listing().to_set() == self@.dom(),
    {
        let list = self.bindings@;
        assert forall|n: Seq<char>| self.listing().to_set().contains(n) == self@.dom().contains(n) by {
            if self.listing().contains(n) {
                let i = choose|i: int| 0 <= i < self.listing().len() && self.listing()[i] == n;
                assert(bound_at(list, n, i));
            }
            if self@.dom().contains(n) {
                let i = choose|i: int| bound_at(list, n, i);
                assert(self.listing()[i] == n);
            }
        }
        assert(self.listing().to_set() =~= self@.dom());
    }

    fn position(&self, name: &str) -> (res: Option<usize>)
        requires
            self.wf(),
        ensures
            match res {
                Some(i) => bound_at(self.bindings@, name@, i as int),
                None => !self@.contains_key(name@),
            },
    {
        let mut i: usize = 0;
        while i < self.bindings.len()
            invariant
                i <= self.bindings@.len(),
                forall|j: int| 0 <= j < i ==> (#[trigger] self.bindings@[j]).0@ != name@,
            decreases self.bindings@.len() - i,
        {
            if same_text(self.bindings[i].0.as_str(), name) {
                return Some(i);
            }
            i = i + 1;
        }
        assert(forall|j: int| !bound_at(self.bindings@, name@, j));
        None
    }

    /// Binds `name` to `value`, in place of what it was bound to.
    pub fn set(&mut self, name: &str, value: V)
        requires
            old(self).wf(),
        ensures
            final(self).wf(),
            final(self)@ == old(self)@.insert(name@, value),
            final(self).listing() == (if old(self)@.contains_key(name@) {
                old(self).listing()
            } else {
                old(self).listing().push(name@)
            }),
    {
        let ghost before = self.bindings@;
        match self.position(name) {
            Some(i) => {
                proof {
                    lemma_bound(before, i as int);
                }
                self.bindings.set(i, (name.to_owned(), value));
            },
            None => {
                assert forall|j: int| 0 <= j < before.len() implies (#[trigger] before[j]).0@
                    != name@ by {
                    lemma_bound(before, j);
                }
                self.bindings.push((name.to_owned(), value));
            },
        }
        proof {
            let after = self.bindings@;
            assert(each_bound_once(after));
            let target = as_map(before).insert(name@, value);
            assert forall|n: Seq<char>|
                #![trigger as_map(after).dom().contains(n)]
                #![trigger as_map(after)[n]]
                as_map(after).dom().contains(n) == target.dom().contains(n) && (
                as_map(after).dom().contains(n) ==> as_map(after)[n] == target[n]) by {
                if as_map(after).contains_key(n) {
                    let i = choose|i: int| bound_at(after, n, i);
                    lemma_bound(after, i);
                    if n != name@ {
                        assert(bound_at(before, n, i));
                        lemma_bound(before, i);
                    }
                }
                if as_map(before).contains_key(n) {
                    let i = choose|i: int| bound_at(before, n, i);
                    assert(bound_at(after, n, i));
                    lemma_bound(after, i);
                }
                if n == name@ {
                    if before.len() < after.len() {
                        assert(bound_at(after, n, before.len() as int));
                        lemma_bound(after, before.len() as int);
                    }
                }
            }
            assert(self@ =~= old(self)@.insert(name@, value));
            if before.len() < after.len() {
                assert(listed(after) =~= listed(before).push(name@));
            } else {
                assert(listed(after) =~= listed(before));
            }
        }
    }

    /// The value `name` is bound to.
    pub fn get(&self, name: &str) -> (res: Option<V>)
        where V: Copy
        requires
            self.wf(),
        ensures
            res == (if self@.contains_key(name@) {
                Some(self@[name@])
            } else {
                None
            }),
    {
        match self.position(name) {
            Some(i) => {
                proof {
                    lemma_bound(self.bindings@, i as int);
                }
                Some(self.bindings[i].1)
            },
            None => None,
        }
    }

    pub fn contains(&self, name: &str) -> (res: bool)
        requires
            self.wf(),
        ensures
            res == self@.contains_key(name@),
    {
        match self.position(name) {
            Some(i) => {
                proof {
                    lemma_bound(self.bindings@, i as int);
                }
                true
            },
            None => false,
        }
    }

    /// The names that are bound.
    pub fn names(&self) -> (res: Vec<String>)
        ensures
            res@.len() == self.listing().len(),
            forall|i: int| 0 <= i < res@.len() ==> (#[trigger] res@[i])@ == self.listing()[i],
    {
        let mut res: Vec<String> = Vec::new();
        let mut i: usize = 0;
        while i < self.bindings.len()
            invariant
                i <= self.bindings@.len(),
                res@.len() == i,
                forall|j: int| 0 <= j < i ==> (#[trigger] res@[j])@ == self.bindings@[j].0@,
            decreases self.bindings@.len() - i,
        {
            res.push(self.bindings[i].0.clone());
            i = i + 1;
        }
        res
    }

    /// Unbinds `name` and returns what it was bound to.
    pub fn remove(&mut self, name: &str) -> (res: Option<V>)
        where V: Copy
        requires
            old(self).wf(),
        ensures
            final(self).wf(),
            final(self)@ == old(self)@.remove(name@),
            res == (if old(self)@.contains_key(name@) {
                Some(old(self)@[name@])
            } else {
                None
            }),
            old(self)@.contains_key(name@) ==> exists|i: int|
                0 <= i < old(self).listing().len() && #[trigger] old(self).listing()[i] == name@
                    && final(self).listing() == old(self).listing().remove(i),
            !old(self)@.contains_key(name@) ==> final(self).listing() == old(self).listing(),
    {
        let ghost before = self.bindings@;
        match self.position(name) {
            Some(i) => {
                proof {
                    lemma_bound(before, i as int);
                }
                let (_, value) = self.bindings.remove(i);
                proof {
                    let after = self.bindings@;
                    assert forall|j: int, k: int| 0 <= j < k < after.len() implies (#[trigger] after[j]).0@
                        != (#[trigger] after[k]).0@ by {
                        let a = if j < i { j } else { j + 1 };
                        let b = if k < i { k } else { k + 1 };
                        assert(after[j] == before[a] && after[k] == before[b]);
                    }
                    let target = as_map(before).remove(name@);
                    assert forall|n: Seq<char>|
                        #![trigger as_map(after).dom().contains(n)]
                        #![trigger as_map(after)[n]]
                        as_map(after).dom().contains(n) == target.dom().contains(n) && (
                        as_map(after).dom().contains(n) ==> as_map(after)[n] == target[n]) by {
                        if as_map(after).contains_key(n) {
                            let j = choose|j: int| bound_at(after, n, j);
                            let a = if j < i { j } else { j + 1 };
                            assert(after[j] == before[a]);
                            lemma_bound(after, j);
                            lemma_bound(before, a);
                            if n == name@ {
                                if a < i {
                                    assert(before[a].0@ != before[i as int].0@);
                                } else {
                                    assert(before[i as int].0@ != before[a].0@);
                                }
                            }
                        }
                        if as_map(before).contains_key(n) && n != name@ {
                            let a = choose|a: int| bound_at(before, n, a);
                            let j = if a < i { a } else { a - 1 };
                            assert(after[j] == before[a]);
                            assert(bound_at(after, n, j));
                        }
                    }
                    assert(self@ =~= old(self)@.remove(name@));
                    assert(old(self).listing()[i as int] == name@);
                    assert(self.listing() =~= old(self).listing().remove(i as int));
                }
                Some(value)
            },
            None => {
                assert(self@ =~= old(self)@.remove(name@));
                None
            },
        }
    }

    pub fn clear(&mut self)
        ensures
            final(self).wf(),
            final(self)@ == Map::<Seq<char>, V>::empty(),
            final(self).listing() == Seq::<Seq<char>>::empty(),
    {
        self.bindings.clear();
        assert(self@ =~= Map::empty());
        assert(self.listing() =~= Seq::empty());
    }

    /// A copy of the context.
    pub fn duplicate(&self) -> (res: Variables<V>)
        where V: Copy
        requires
            self.wf(),
        ensures
            res.wf(),
            res@ == self@,
            res.listing() == self.listing(),
    {
        let mut bindings: Vec<(String, V)> = Vec::new();
        let mut i: usize = 0;
        while i < self.bindings.len()
            invariant
                i <= self.bindings@.len(),
                bindings@.len() == i,
                forall|j: int| 0 <= j < i ==> (#[trigger] bindings@[j]) == self.bindings@[j],
            decreases self.bindings@.len() - i,
        {
            bindings.push((self.bindings[i].0.clone(), self.bindings[i].1));
            i = i + 1;
        }
        assert(bindings@ =~= self.bindings@);
        Variables { bindings }
    }

    /// The context as text, such as `Variables({a: 1, b: 2})`.
    pub fn describe(&self) -> (res: String)
        where V: SignalValue
        requires
            self.wf(),
        ensures
            res@ == "Variables({"@ + bindings_text(self.listing(), self@) + "})"@,
    {
        let mut text: String = String::new();
        text.append("Variables({");
        let mut i: usize = 0;
        let ghost names = self.listing();
        let ghost values = self@;
        assert(text@ =~= "Variables({"@ + bindings_text(names.take(0), values));
        while i < self.bindings.len()
            invariant
                self.wf(),
                names == self.listing(),
                values == self@,
                i <= self.bindings@.len(),
                text@ == "Variables({"@ + bindings_text(names.take(i as int), values),
            decreases self.bindings@.len() - i,
        {
            let ghost before = text@;
            let ghost head = names.take(i as int);
            let ghost longer = names.take(i + 1);
            let ghost last = names[i as int] + ": "@ + V::text_spec(values[names[i as int]]);
            if i > 0 {
                text.append(", ");
            }
            text.append(self.bindings[i].0.as_str());
            text.append(": ");
            self.bindings[i].1.push_text(&mut text);
            proof {
                lemma_bound(self.bindings@, i as int);
                assert(longer.drop_last() =~= head);
                assert(longer.last() == names[i as int]);
                if i > 0 {
                    assert(text@ =~= before + (", "@ + last));
                    assert(bindings_text(longer, values) == bindings_text(head, values) + ", "@ + last);
                } else {
                    assert(head =~= Seq::empty());
                    assert(text@ =~= "Variables({"@ + last);
                }
                assert(text@ =~= "Variables({"@ + bindings_text(longer, values));
            }
            i = i + 1;
        }
        assert(names.take(i as int) =~= names);
        text.append("})");
        text
    }
}

} // verus!
