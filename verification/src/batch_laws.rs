//! How batches and traces are read: item by item, in order, up to the first that is refused.

use crate::batch::{flat_items, gives, grouped_items, named, named_by, numbers, pair_item};
use crate::batch::{reached, readings, remembered, sampled, track_items, triple_items, unseen};
use crate::batch::{Batch, BatchError, Entry, Field, Item, Reading, Samples};
use crate::interner::{interned, is_backed, texts, InternTable};
use crate::ring_buffer::Step;
use crate::synchronizer::Interpolatable;
use crate::time::{Time, FOREVER};
use crate::trace::{at, chronological, initial_value, newest};
use vstd::prelude::*;

verus! {

/// A value and a timestamp are read as they are given. The value is looked at first; text and
/// anything else that is no number is refused, and so is a number that stands for no time.
pub proof fn two_numbers_make_a_sample<T>(signal: Seq<char>, value: Field<T>, timestamp: Field<T>)
    ensures
        match (value, timestamp) {
            (Field::Number(v, _), Field::Number(_, Some(t))) => numbers(value, timestamp) == Ok::<
                (T, Time),
                BatchError,
            >((v, t)),
            _ => numbers(value, timestamp) is Err,
        },
        numbers(value, timestamp) == Err::<(T, Time), BatchError>(BatchError::NotANumber) <==> value
            is Text || (value is Number && timestamp is Text),
        forall|k: usize| #[trigger]
            numbers(value, timestamp) == Err::<(T, Time), BatchError>(BatchError::Unreadable(k))
                <==> (value matches Field::Other(n) && n == k) || (value is Number && (timestamp
                matches Field::Other(n) && n == k)),
        numbers(value, timestamp) == Err::<(T, Time), BatchError>(BatchError::NotATime) <==> value
            is Number && (timestamp matches Field::Number(_, t) && t is None),
        match numbers(value, timestamp) {
            Ok((v, t)) => sampled(signal, value, timestamp) == Item::Sample((signal, v, t)),
            Err(error) => sampled(signal, value, timestamp) == Item::<T>::Refused(error),
        },
{
}

/// An entry listed for a signal is read if it has two fields, and an entry of a flat list if it
/// has three, the first of which names the signal. Anything else is refused for what it is.
pub proof fn entries_are_read_by_their_fields<T>(signal: Seq<char>, entry: Entry<T>)
    ensures
        match entry {
            Entry::Tuple(fields) => {
                &&& fields@.len() == 2 ==> pair_item(signal, entry) == sampled(
                    signal,
                    fields@[0],
                    fields@[1],
                )
                &&& fields@.len() != 2 ==> pair_item(signal, entry) == Item::<T>::Refused(
                    BatchError::NotAPair,
                )
                &&& fields@.len() != 3 ==> triple_items(entry) == seq![
                    Item::<T>::Refused(BatchError::NotATriple),
                ]
                &&& fields@.len() == 3 ==> match fields@[0] {
                    Field::Text(name) => triple_items(entry) == seq![
                        Item::Signal(name@),
                        sampled(name@, fields@[1], fields@[2]),
                    ],
                    Field::Number(_, _) => triple_items(entry) == seq![
                        Item::<T>::Refused(BatchError::NotText),
                    ],
                    Field::Other(k) => triple_items(entry) == seq![
                        Item::<T>::Refused(BatchError::Unreadable(k)),
                    ],
                }
            },
            Entry::Other => pair_item(signal, entry) == Item::<T>::Refused(BatchError::NotAPair)
                && triple_items(entry) == seq![Item::<T>::Refused(BatchError::NotATriple)],
            Entry::Unreadable(k) => pair_item(signal, entry) == Item::<T>::Refused(
                BatchError::Unreadable(k),
            ) && triple_items(entry) == seq![Item::<T>::Refused(BatchError::Unreadable(k))],
        },
{
}

/// A track names its signal, if that is text, and lists its entries in order.
pub proof fn tracks_are_read_in_order<T>(track: (Field<T>, Samples<T>))
    ensures
        !(track.0 is Text) ==> track_items(track) == seq![
            Item::<T>::Refused(BatchError::SignalName),
        ],
        track.0 matches Field::Text(signal) ==> {
            let items = track_items(track);
            &&& items.len() > 0 && items[0] == Item::<T>::Signal(signal@)
            &&& match track.1 {
                Samples::Listed(entries) => items.len() == entries@.len() + 1 && forall|i: int|
                    0 <= i < entries@.len() ==> items[i + 1] == pair_item(
                        signal@,
                        #[trigger] entries@[i],
                    ),
                Samples::Unreadable(k) => items.len() == 2 && items[1] == Item::<T>::Refused(
                    BatchError::Unreadable(k),
                ),
            }
        },
{
    if let Field::Text(signal) = track.0 {
        if let Samples::Listed(entries) = track.1 {
            assert forall|i: int| 0 <= i < entries@.len() implies track_items(track)[i + 1]
                == pair_item(signal@, #[trigger] entries@[i]) by {}
        }
    }
}

/// What is read of a batch is what is read of its parts, one after the other.
pub proof fn batches_are_read_part_by_part<T>(
    entries: (Seq<Entry<T>>, Seq<Entry<T>>),
    tracks: (Seq<(Field<T>, Samples<T>)>, Seq<(Field<T>, Samples<T>)>),
    entry: Entry<T>,
    track: (Field<T>, Samples<T>),
)
    ensures
        flat_items(entries.0 + entries.1) == flat_items(entries.0) + flat_items(entries.1),
        flat_items(seq![entry]) == triple_items(entry),
        grouped_items(tracks.0 + tracks.1) == grouped_items(tracks.0) + grouped_items(tracks.1),
        grouped_items(seq![track]) == track_items(track),
    decreases entries.1.len() + tracks.1.len(),
{
    reveal_with_fuel(flat_items, 2);
    reveal_with_fuel(grouped_items, 2);
    assert(seq![entry].drop_last() =~= Seq::empty());
    assert(seq![track].drop_last() =~= Seq::empty());
    assert(Seq::<Item<T>>::empty() + triple_items(entry) =~= triple_items(entry));
    assert(Seq::<Item<T>>::empty() + track_items(track) =~= track_items(track));
    lemma_flat(entries.0, entries.1);
    lemma_grouped(tracks.0, tracks.1);
}

proof fn lemma_flat<T>(a: Seq<Entry<T>>, b: Seq<Entry<T>>)
    ensures
        flat_items(a + b) == flat_items(a) + flat_items(b),
    decreases b.len(),
{
    if b.len() == 0 {
        assert(a + b =~= a);
        assert(flat_items(a) + flat_items(b) =~= flat_items(a));
    } else {
        assert((a + b).drop_last() =~= a + b.drop_last());
        lemma_flat(a, b.drop_last());
        assert(flat_items(a + b) =~= flat_items(a) + flat_items(b));
    }
}

proof fn lemma_grouped<T>(
    a: Seq<(Field<T>, Samples<T>)>,
    b: Seq<(Field<T>, Samples<T>)>,
)
    ensures
        grouped_items(a + b) == grouped_items(a) + grouped_items(b),
    decreases b.len(),
{
    if b.len() == 0 {
        assert(a + b =~= a);
        assert(grouped_items(a) + grouped_items(b) =~= grouped_items(a));
    } else {
        assert((a + b).drop_last() =~= a + b.drop_last());
        lemma_grouped(a, b.drop_last());
        assert(grouped_items(a + b) =~= grouped_items(a) + grouped_items(b));
    }
}

/// A batch is a list of tracks or of entries; anything else is refused as a whole.
pub proof fn batches_are_lists<T>(batch: Batch<T>)
    ensures
        match batch {
            Batch::BySignal(tracks) => batch.items() == grouped_items(tracks@),
            Batch::Flat(entries) => batch.items() == flat_items(entries@),
            Batch::Other => batch.items() == seq![Item::<T>::Refused(BatchError::NotABatch)],
        },
{
}

/// Items are read in order up to the first one that is refused, which decides the error. `n` is
/// how many are read.
pub proof fn reading_ends_at_the_first_refusal<T>(items: Seq<Item<T>>) -> (n: int)
    ensures
        0 <= n <= items.len(),
        forall|i: int| 0 <= i < n ==> !((#[trigger] items[i]) is Refused),
        reached(items).0 == items.take(n),
        n == items.len() ==> reached(items).1 is None,
        n < items.len() ==> (items[n] matches Item::Refused(error) && reached(items).1 == Some(
            error,
        )),
    decreases items.len(),
{
    if items.len() == 0 {
        assert(items.take(0) =~= Seq::empty());
        0
    } else {
        let p = items.drop_last();
        let n = reading_ends_at_the_first_refusal(p);
        assert forall|i: int| 0 <= i < n implies !((#[trigger] items[i]) is Refused) by {
            assert(p[i] == items[i]);
        }
        assert(items[items.len() - 1] == items.last());
        if n < p.len() {
            assert(items.take(n) =~= p.take(n));
            assert(p[n] == items[n]);
            n
        } else if items.last() is Refused {
            assert(items.take(n) =~= p.take(n));
            n
        } else {
            assert(items.take(items.len() as int) =~= p.take(n).push(items.last()));
            items.len() as int
        }
    }
}

/// The signals and the samples among items, and the names that are new, are those of their parts
/// in order.
pub proof fn items_are_told_apart<T>(
    a: Seq<Item<T>>,
    b: Seq<Item<T>>,
    item: Item<T>,
)
    ensures
        readings(a + b) == readings(a) + readings(b),
        named(a + b) == named(a) + named(b),
        match item {
            Item::Signal(signal) => named(seq![item]) == seq![signal] && readings(seq![item]).len()
                == 0,
            Item::Sample(reading) => readings(seq![item]) == seq![reading] && named(
                seq![item],
            ).len() == 0,
            Item::Refused(_) => readings(seq![item]).len() == 0 && named(seq![item]).len() == 0,
        },
    decreases b.len(),
{
    reveal_with_fuel(readings, 2);
    reveal_with_fuel(named, 2);
    assert(seq![item].drop_last() =~= Seq::empty());
    match item {
        Item::Signal(signal) => {
            assert(Seq::<Seq<char>>::empty().push(signal) =~= seq![signal]);
        },
        Item::Sample(reading) => {
            assert(Seq::<Reading<T>>::empty().push(reading) =~= seq![reading]);
        },
        Item::Refused(_) => {},
    }
    if b.len() == 0 {
        assert(a + b =~= a);
        assert(readings(a) + readings(b) =~= readings(a));
        assert(named(a) + named(b) =~= named(a));
    } else {
        items_are_told_apart(a, b.drop_last(), item);
        assert((a + b).drop_last() =~= a + b.drop_last());
        assert(readings(a + b) =~= readings(a) + readings(b));
        assert(named(a + b) =~= named(a) + named(b));
    }
}

/// The names that a cache does not hold are asked for in order, however often they come.
pub proof fn unseen_names_are_those_not_held(
    cache: Seq<Seq<char>>,
    a: Seq<Seq<char>>,
    b: Seq<Seq<char>>,
    name: Seq<char>,
)
    ensures
        unseen(cache, a + b) == unseen(cache, a) + unseen(cache, b),
        cache.contains(name) ==> unseen(cache, seq![name]).len() == 0,
        !cache.contains(name) ==> unseen(cache, seq![name]) == seq![name],
    decreases b.len(),
{
    reveal_with_fuel(unseen, 2);
    assert(seq![name].drop_last() =~= Seq::empty());
    assert(Seq::<Seq<char>>::empty().push(name) =~= seq![name]);
    if b.len() == 0 {
        assert(a + b =~= a);
        assert(unseen(cache, a) + unseen(cache, b) =~= unseen(cache, a));
    } else {
        unseen_names_are_those_not_held(cache, a, b.drop_last(), name);
        assert((a + b).drop_last() =~= a + b.drop_last());
        assert(unseen(cache, a + b) =~= unseen(cache, a) + unseen(cache, b));
    }
}

/// Names are interned one after the other: one that the table holds leaves it as it is, and a new
/// one comes last.
pub proof fn names_are_interned_in_order(
    start: Seq<Seq<char>>,
    a: Seq<Seq<char>>,
    b: Seq<Seq<char>>,
    name: Seq<char>,
)
    ensures
        interned(start, a + b) == interned(interned(start, a), b),
        start.contains(name) ==> interned(start, seq![name]) == start,
        !start.contains(name) ==> interned(start, seq![name]) == start.push(name),
        interned(start, Seq::empty()) == start,
    decreases b.len(),
{
    reveal_with_fuel(interned, 2);
    assert(seq![name].drop_last() =~= Seq::empty());
    if b.len() == 0 {
        assert(a + b =~= a);
    } else {
        names_are_interned_in_order(start, a, b.drop_last(), name);
        assert((a + b).drop_last() =~= a + b.drop_last());
    }
}

/// The steps a batch gives are the samples read: of that signal, with that value and at that
/// time, held until a later one replaces them.
pub proof fn steps_are_the_samples_read<T>(
    steps: Seq<Step<T>>,
    readings: Seq<Reading<T>>,
    table: InternTable,
    cache: InternTable,
)
    ensures
        gives(steps, readings) <==> steps.len() == readings.len() && forall|i: int|
            0 <= i < steps.len() ==> (#[trigger] steps[i]).signal@ == readings[i].0
                && steps[i].value == readings[i].1 && steps[i].timestamp == readings[i].2
                && steps[i].held_until == FOREVER,
        named_by(steps, table) <==> forall|i: int|
            0 <= i < steps.len() ==> table.entries().contains((#[trigger] steps[i]).signal),
        is_backed(cache, table) <==> forall|i: int|
            0 <= i < cache.entries().len() ==> table.entries().contains(
                #[trigger] cache.entries()[i],
            ),
        table@.len() == table.entries().len(),
        forall|i: int|
            0 <= i < table.entries().len() ==> table@[i] == (#[trigger] table.entries()[i])@,
{
    assert(table@ == texts(table.entries()));
}

/// The tables remember every signal named before the first refusal: the cache what it did not
/// hold, and the table behind it what the cache did not.
pub proof fn named_signals_are_remembered<T>(
    items: Seq<Item<T>>,
    n: int,
    before: (Seq<Seq<char>>, Seq<Seq<char>>),
    after: (Seq<Seq<char>>, Seq<Seq<char>>),
)
    requires
        0 <= n <= items.len(),
        forall|i: int| 0 <= i < n ==> !((#[trigger] items[i]) is Refused),
        n < items.len() ==> items[n] is Refused,
        remembered(items, before, after),
    ensures
        after.0 == interned(before.0, named(items.take(n))),
        after.1 == interned(before.1, unseen(before.0, named(items.take(n)))),
{
    let m = reading_ends_at_the_first_refusal(items);
    assert(m == n) by {
        if m < n {
            assert(items[m] is Refused);
        }
        if n < m {
            assert(!(items[n] is Refused));
        }
    }
}

/// The steps of a list at one time are those of its parts in order, and no others.
pub proof fn steps_at_a_time_keep_their_order<Y>(
    a: Seq<Step<Y>>,
    b: Seq<Step<Y>>,
    step: Step<Y>,
    t: Time,
)
    ensures
        at(a + b, t) == at(a, t) + at(b, t),
        step.timestamp == t ==> at(seq![step], t) == seq![step],
        step.timestamp != t ==> at(seq![step], t).len() == 0,
    decreases b.len(),
{
    reveal_with_fuel(at, 2);
    assert(seq![step].drop_last() =~= Seq::empty());
    assert(Seq::<Step<Y>>::empty().push(step) =~= seq![step]);
    if b.len() == 0 {
        assert(a + b =~= a);
        assert(at(a, t) + at(b, t) =~= at(a, t));
    } else {
        steps_at_a_time_keep_their_order(a, b.drop_last(), step, t);
        assert((a + b).drop_last() =~= a + b.drop_last());
        assert(at(a + b, t) =~= at(a, t) + at(b, t));
    }
}

/// A list is chronological if no step is later than one after it. The newest of a list is its
/// last one, if it has one.
pub proof fn chronological_lists_never_go_back<Y>(s: Seq<Step<Y>>)
    ensures
        chronological(s) <==> forall|i: int, j: int|
            0 <= i <= j < s.len() ==> (#[trigger] s[i]).timestamp <= (#[trigger] s[j]).timestamp,
        s.len() == 0 ==> newest(s).len() == 0,
        s.len() > 0 ==> newest(s) == seq![s[s.len() - 1]],
{
}

/// A signal starts from the last value given for it, and from zero without one.
pub proof fn signals_start_from_the_last_value_given<T: Interpolatable>(
    given: Seq<(&'static str, T)>,
    signal: Seq<char>,
    i: int,
)
    requires
        -1 <= i < given.len(),
        i >= 0 ==> given[i].0@ == signal,
        forall|j: int| i < j < given.len() ==> (#[trigger] given[j]).0@ != signal,
    ensures
        i >= 0 ==> initial_value(given, signal) == given[i].1,
        i < 0 ==> initial_value(given, signal) == T::zero_spec(),
        i64::zero_spec() == 0,
    decreases given.len(),
{
    if given.len() > 0 && i < given.len() - 1 {
        let head = given.drop_last();
        assert(given[given.len() - 1] == given.last());
        assert forall|j: int| i < j < head.len() implies (#[trigger] head[j]).0@ != signal by {
            assert(given[j] == head[j]);
        }
        signals_start_from_the_last_value_given(head, signal, i);
    }
}

/// Each refusal is reported with what was expected.
pub proof fn refusals_are_reported_with_what_was_expected(k: usize)
    ensures
        BatchError::NotABatch.message_spec()
            == "Batch must be a dict of {signal: [(value, timestamp), ..]} or an iterable of (signal, value, timestamp) tuples"@,
        BatchError::SignalName.message_spec() == "Signal names must be strings"@,
        BatchError::NotAPair.message_spec() == "Each step must be a (value, timestamp)"@,
        BatchError::NotATriple.message_spec()
            == "Each step must be a tuple of (signal, value, timestamp)"@,
        BatchError::NotText.message_spec() == "must be str, not a number"@,
        BatchError::NotANumber.message_spec() == "must be a number, not str"@,
        BatchError::NotATime.message_spec() == "timestamp cannot be represented"@,
        BatchError::Unreadable(k).message_spec() == "unreadable"@,
{
}

} // verus!
