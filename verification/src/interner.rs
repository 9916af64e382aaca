//! Interning of signal and variable names.
//!
//! Names appear in samples, in formulas, and as keys of the synchronizer and of operator
//! lookups. They are stored as `&'static str`, but names read at runtime are not `'static`.
//! [`intern`] bridges that gap: it hands out one `&'static str` per distinct name, and reuses
//! it for every later request.
//!
//! Interned names are never freed. A table is therefore bounded by the number of distinct
//! names a program ever uses.

use crate::text::same_text;
use vstd::prelude::*;

verus! {

/// Every name handed out so far.
#[derive(Debug)]
pub struct InternTable {
    names: Vec<&'static str>,
}

/// The text of each name of a list.
pub open spec fn texts(names: Seq<&'static str>) -> Seq<Seq<char>> {
    Seq::new(names.len(), |i: int| names[i]@)
}

impl View for InternTable {
    type V = Seq<Seq<char>>;

    open spec fn view(&self) -> Seq<Seq<char>> {
        texts(self.entries())
    }
}

impl InternTable {
    /// The names handed out, oldest first.
    pub closed spec fn entries(&self) -> Seq<&'static str> {
        self.names@
    }

    /// No name was handed out in two forms.
    pub open spec fn wf(&self) -> bool {
        self@.no_duplicates()
    }

    pub fn new() -> (res: InternTable)
        ensures
            res.wf(),
            res@ == Seq::<Seq<char>>::empty(),
    {
        let res = InternTable { names: Vec::new() };
        assert(res@ =~= Seq::empty());
        res
    }

    /// The form in which `name` was handed out, if it was.
    pub fn find(&self, name: &str) -> (res: Option<&'static str>)
        ensures
            match res {
                Some(existing) => existing@ == name@ && self.entries().contains(existing)
                    && self@.contains(name@),
                None => !self@.contains(name@),
            },
    {
        let mut i: usize = 0;
        while i < self.names.len()
            invariant
                i <= self.names@.len(),
                forall|j: int| 0 <= j < i ==> (#[trigger] self.names@[j])@ != name@,
            decreases self.names@.len() - i,
        {
            if same_text(self.names[i], name) {
                assert(self@[i as int] == name@);
                assert(self.entries()[i as int] == self.names@[i as int]);
                return Some(self.names[i]);
            }
            i = i + 1;
        }
        assert forall|j: int| 0 <= j < self@.len() implies self@[j] != name@ by {
            assert(self.names@[j]@ != name@);
        }
        None
    }

    /// Records a name that is not in the table yet.
    pub fn remember(&mut self, name: &'static str)
        requires
            old(self).wf(),
            !old(self)@.contains(name@),
        ensures
            final(self).wf(),
            final(self).entries() == old(self).entries().push(name),
            final(self)@ == old(self)@.push(name@),
    {
        self.names.push(name);
        assert(self@ =~= old(self)@.push(name@));
        assert forall|i: int, j: int| 0 <= i < j < self@.len() implies self@[i] != self@[j] by {
            if j == old(self)@.len() {
                assert(old(self)@[i] == self@[i]);
                assert(old(self)@.contains(self@[i]));
            } else {
                assert(old(self)@[i] == self@[i] && old(self)@[j] == self@[j]);
            }
        }
    }
}

/// `String::leak`: gives up ownership of the text, which stays as it is from then on.
#[verifier::external_body]
fn leak(name: String) -> (res: &'static str)
    ensures
        res@ == name@,
{
    name.leak()
}

/// Returns a `&'static str` with the same contents as `name`.
///
/// Calling this twice on one table with equal contents returns the very same reference, so
/// the name is allocated at most once per table.
pub fn intern(table: &mut InternTable, name: &str) -> (res: &'static str)
    requires
        old(table).wf(),
    ensures
        final(table).wf(),
        res@ == name@,
        final(table).entries().contains(res),
        final(table).entries() == (if old(table)@.contains(name@) {
            old(table).entries()
        } else {
            old(table).entries().push(res)
        }),
        final(table)@ == (if old(table)@.contains(name@) {
            old(table)@
        } else {
            old(table)@.push(name@)
        }),
{
    match table.find(name) {
        Some(existing) => existing,
        None => {
            let interned: &'static str = leak(name.to_owned());
            table.remember(interned);
            assert(table.entries().last() == interned);
            interned
        },
    }
}

/// Every name `cache` hands out is one that `table` hands out.
pub open spec fn is_backed(cache: InternTable, table: InternTable) -> bool {
    forall|i: int|
        0 <= i < cache.entries().len() ==> table.entries().contains(#[trigger] cache.entries()[i])
}

/// Returns the interned form of `name`, asking `table` for it only if `cache` does not hold it.
///
/// A cache in front of a shared table is asked for once per sample; the table is reached only
/// for names the cache sees for the first time.
pub fn intern_cached(cache: &mut InternTable, table: &mut InternTable, name: &str) -> (res:
    &'static str)
    requires
        old(cache).wf(),
        old(table).wf(),
    ensures
        final(cache).wf(),
        final(table).wf(),
        res@ == name@,
        final(cache).entries().contains(res),
        final(cache).entries() == (if old(cache)@.contains(name@) {
            old(cache).entries()
        } else {
            old(cache).entries().push(res)
        }),
        final(cache)@ == (if old(cache)@.contains(name@) {
            old(cache)@
        } else {
            old(cache)@.push(name@)
        }),
        !old(cache)@.contains(name@) ==> final(table).entries().contains(res),
        final(table).entries() == (if old(cache)@.contains(name@) || old(table)@.contains(name@) {
            old(table).entries()
        } else {
            old(table).entries().push(res)
        }),
        final(table)@ == (if old(cache)@.contains(name@) || old(table)@.contains(name@) {
            old(table)@
        } else {
            old(table)@.push(name@)
        }),
        is_backed(*old(cache), *old(table)) ==> is_backed(*final(cache), *final(table)),
        is_backed(*old(cache), *old(table)) ==> final(table).entries().contains(res),
{
    match cache.find(name) {
        Some(existing) => existing,
        None => {
            let interned: &'static str = intern(table, name);
            cache.remember(interned);
            assert(cache.entries().last() == interned);
            proof {
                if is_backed(*old(cache), *old(table)) {
                    assert forall|i: int| 0 <= i < cache.entries().len() implies table.entries().contains(
                        #[trigger] cache.entries()[i],
                    ) by {
                        if i < old(cache).entries().len() {
                            let e = old(cache).entries()[i];
                            let k = choose|k: int|
                                0 <= k < old(table).entries().len() && old(table).entries()[k] == e;
                            assert(table.entries()[k] == e);
                        }
                    }
                }
            }
            interned
        },
    }
}

/// Returns the number of distinct names interned so far.
///
/// Intended for diagnostics; the count never decreases.
pub fn interned_count(table: &InternTable) -> (res: usize)
    ensures
        res == table@.len(),
{
    table.names.len()
}

/// What a table holds once every name of `requests` was interned, in order.
pub open spec fn interned(start: Seq<Seq<char>>, requests: Seq<Seq<char>>) -> Seq<Seq<char>>
    decreases requests.len(),
{
    if requests.len() == 0 {
        start
    } else {
        let before = interned(start, requests.drop_last());
        if before.contains(requests.last()) {
            before
        } else {
            before.push(requests.last())
        }
    }
}

/// However often names are requested, the table holds each distinct one exactly once, next to
/// what it held before, and nothing else.
pub proof fn interning_keeps_distinct_names(start: Seq<Seq<char>>, requests: Seq<Seq<char>>)
    requires
        start.no_duplicates(),
    ensures
        interned(start, requests).no_duplicates(),
        start.len() <= interned(start, requests).len(),
        interned(start, requests).take(start.len() as int) == start,
        forall|n: Seq<char>| #[trigger]
            interned(start, requests).contains(n) <==> start.contains(n) || requests.contains(n),
    decreases requests.len(),
{
    let all = interned(start, requests);
    if requests.len() == 0 {
        assert(start.take(start.len() as int) =~= start);
    } else {
        let head = requests.drop_last();
        let before = interned(start, head);
        let name = requests.last();
        interning_keeps_distinct_names(start, head);
        assert(all.take(start.len() as int) =~= start) by {
            assert(before.take(start.len() as int) =~= start);
            assert forall|i: int| 0 <= i < start.len() implies all[i] == start[i] by {
                assert(before.take(start.len() as int)[i] == before[i]);
            }
        }
        assert forall|n: Seq<char>| #[trigger]
            all.contains(n) == (start.contains(n) || requests.contains(n)) by {
            assert(requests =~= head.push(name));
            if all.contains(n) {
                let i = choose|i: int| 0 <= i < all.len() && all[i] == n;
                if i < before.len() {
                    assert(before.contains(before[i]));
                    if head.contains(n) {
                        let k = choose|k: int| 0 <= k < head.len() && head[k] == n;
                        assert(requests[k] == n);
                    }
                } else {
                    assert(requests[requests.len() - 1] == n);
                }
            }
            if start.contains(n) || head.contains(n) {
                assert(before.contains(n));
                let i = choose|i: int| 0 <= i < before.len() && before[i] == n;
                assert(all[i] == n);
            } else if requests.contains(n) {
                let k = choose|k: int| 0 <= k < requests.len() && requests[k] == n;
                if k < head.len() {
                    assert(head[k] == n);
                }
                assert(n == name);
                if !before.contains(name) {
                    assert(all[before.len() as int] == name);
                }
            }
        }
        if !before.contains(name) {
            assert forall|i: int, j: int| 0 <= i < j < all.len() implies all[i] != all[j] by {
                if j == before.len() {
                    assert(before.contains(before[i]));
                }
            }
        }
    }
}

} // verus!
