//! Batches of samples as a caller hands them in: grouped by signal, or in one flat list.

use crate::interner::{intern_cached, interned, interning_keeps_distinct_names};
use crate::interner::{is_backed, InternTable};
use crate::ring_buffer::Step;
use crate::time::Time;
use vstd::prelude::*;
use vstd::string::*;

verus! {

/// A field of an entry.
#[derive(Debug)]
pub enum Field<T> {
    Text(String),
    /// A number, and the time it stands for when it is read as seconds, if it stands for one.
    Number(T, Option<Time>),
    /// Anything else. Whoever read it knows it by this number.
    Other(usize),
}

/// An entry of a list.
#[derive(Debug)]
pub enum Entry<T> {
    Tuple(Vec<Field<T>>),
    /// Anything but a tuple.
    Other,
    /// The list could not be read on. Whoever read it knows why by this number.
    Unreadable(usize),
}

/// What is listed for a signal.
#[derive(Debug)]
pub enum Samples<T> {
    Listed(Vec<Entry<T>>),
    /// Not a list. Whoever read it knows it by this number.
    Unreadable(usize),
}

/// A batch.
#[derive(Debug)]
pub enum Batch<T> {
    /// `{signal: [(value, timestamp), ..], ..}`
    BySignal(Vec<(Field<T>, Samples<T>)>),
    /// `[(signal, value, timestamp), ..]`
    Flat(Vec<Entry<T>>),
    /// Neither a mapping nor a list.
    Other,
}

/// Why a batch is refused.
#[derive(Debug, Clone, Copy, PartialEq, Eq, Structural)]
pub enum BatchError {
    NotABatch,
    SignalName,
    /// An entry listed for a signal is not a pair.
    NotAPair,
    /// An entry of a flat list is not a triple.
    NotATriple,
    /// A signal name is expected and a number is given.
    NotText,
    /// A number is expected and a text is given.
    NotANumber,
    /// A number is given that is no time.
    NotATime,
    /// Something that whoever read the batch knows by this number.
    Unreadable(usize),
}

impl BatchError {
    pub open spec fn message_spec(self) -> Seq<char> {
        match self {
            BatchError::NotABatch => "Batch must be a dict of {signal: [(value, timestamp), ..]} or an iterable of (signal, value, timestamp) tuples"@,
            BatchError::SignalName => "Signal names must be strings"@,
            BatchError::NotAPair => "Each step must be a (value, timestamp)"@,
            BatchError::NotATriple => "Each step must be a tuple of (signal, value, timestamp)"@,
            BatchError::NotText => "must be str, not a number"@,
            BatchError::NotANumber => "must be a number, not str"@,
            BatchError::NotATime => "timestamp cannot be represented"@,
            BatchError::Unreadable(_) => "unreadable"@,
        }
    }

    pub fn message(self) -> (res: &'static str)
        ensures
            res@ == self.message_spec(),
    {
        match self {
            BatchError::NotABatch => "Batch must be a dict of {signal: [(value, timestamp), ..]} or an iterable of (signal, value, timestamp) tuples",
            BatchError::SignalName => "Signal names must be strings",
            BatchError::NotAPair => "Each step must be a (value, timestamp)",
            BatchError::NotATriple => "Each step must be a tuple of (signal, value, timestamp)",
            BatchError::NotText => "must be str, not a number",
            BatchError::NotANumber => "must be a number, not str",
            BatchError::NotATime => "timestamp cannot be represented",
            BatchError::Unreadable(_) => "unreadable",
        }
    }
}

/// A sample: the name of its signal, its value, its timestamp.
pub type Reading<T> = (Seq<char>, T, Time);

/// What reading on by one item of a batch comes to.
pub enum Item<T> {
    /// A signal is named.
    Signal(Seq<char>),
    Sample(Reading<T>),
    /// The batch is refused.
    Refused(BatchError),
}

/// The value and the timestamp of two fields.
pub open spec fn numbers<T>(value: Field<T>, timestamp: Field<T>) -> Result<(T, Time), BatchError> {
    match (value, timestamp) {
        (Field::Text(_), _) => Err(BatchError::NotANumber),
        (Field::Other(k), _) => Err(BatchError::Unreadable(k)),
        (_, Field::Text(_)) => Err(BatchError::NotANumber),
        (_, Field::Other(k)) => Err(BatchError::Unreadable(k)),
        (_, Field::Number(_, None)) => Err(BatchError::NotATime),
        (Field::Number(v, _), Field::Number(_, Some(t))) => Ok((v, t)),
    }
}

/// The sample that two fields give of `signal`.
pub open spec fn sampled<T>(signal: Seq<char>, value: Field<T>, timestamp: Field<T>) -> Item<T> {
    match numbers(value, timestamp) {
        Ok((v, t)) => Item::Sample((signal, v, t)),
        Err(error) => Item::Refused(error),
    }
}

/// What an entry listed for `signal` comes to.
pub open spec fn pair_item<T>(signal: Seq<char>, entry: Entry<T>) -> Item<T> {
    match entry {
        Entry::Unreadable(k) => Item::Refused(BatchError::Unreadable(k)),
        Entry::Tuple(fields) if fields@.len() == 2 => sampled(signal, fields@[0], fields@[1]),
        _ => Item::Refused(BatchError::NotAPair),
    }
}

/// What an entry of a flat list comes to.
pub open spec fn triple_items<T>(entry: Entry<T>) -> Seq<Item<T>> {
    match entry {
        Entry::Unreadable(k) => seq![Item::Refused(BatchError::Unreadable(k))],
        Entry::Tuple(fields) if fields@.len() == 3 => match fields@[0] {
            Field::Text(signal) => seq![
                Item::Signal(signal@),
                sampled(signal@, fields@[1], fields@[2]),
            ],
            Field::Number(_, _) => seq![Item::Refused(BatchError::NotText)],
            Field::Other(k) => seq![Item::Refused(BatchError::Unreadable(k))],
        },
        _ => seq![Item::Refused(BatchError::NotATriple)],
    }
}

/// What a signal and its samples come to.
pub open spec fn track_items<T>(track: (Field<T>, Samples<T>)) -> Seq<Item<T>> {
    match track {
        (Field::Text(signal), Samples::Listed(entries)) => seq![Item::Signal(signal@)] + Seq::new(
            entries@.len(),
            |i: int| pair_item(signal@, entries@[i]),
        ),
        (Field::Text(signal), Samples::Unreadable(k)) => seq![
            Item::Signal(signal@),
            Item::Refused(BatchError::Unreadable(k)),
        ],
        _ => seq![Item::Refused(BatchError::SignalName)],
    }
}

pub open spec fn flat_items<T>(entries: Seq<Entry<T>>) -> Seq<Item<T>>
    decreases entries.len(),
{
    if entries.len() == 0 {
        Seq::empty()
    } else {
        flat_items(entries.drop_last()) + triple_items(entries.last())
    }
}

pub open spec fn grouped_items<T>(tracks: Seq<(Field<T>, Samples<T>)>) -> Seq<Item<T>>
    decreases tracks.len(),
{
    if tracks.len() == 0 {
        Seq::empty()
    } else {
        grouped_items(tracks.drop_last()) + track_items(tracks.last())
    }
}

impl<T> Batch<T> {
    /// The items of the batch, in the order they are read in.
    pub open spec fn items(self) -> Seq<Item<T>> {
        match self {
            Batch::BySignal(tracks) => grouped_items(tracks@),
            Batch::Flat(entries) => flat_items(entries@),
            Batch::Other => seq![Item::Refused(BatchError::NotABatch)],
        }
    }
}

/// What comes of reading items in order: those before the first one that is refused, and why
/// that one is.
pub open spec fn reached<T>(items: Seq<Item<T>>) -> (Seq<Item<T>>, Option<BatchError>)
    decreases items.len(),
{
    if items.len() == 0 {
        (Seq::empty(), None)
    } else {
        let (before, refused) = reached(items.drop_last());
        match (refused, items.last()) {
            (Some(error), _) => (before, Some(error)),
            (None, Item::Refused(error)) => (before, Some(error)),
            (None, item) => (before.push(item), None),
        }
    }
}

/// The signals that are named, in order.
pub open spec fn named<T>(items: Seq<Item<T>>) -> Seq<Seq<char>>
    decreases items.len(),
{
    if items.len() == 0 {
        Seq::empty()
    } else {
        match items.last() {
            Item::Signal(signal) => named(items.drop_last()).push(signal),
            _ => named(items.drop_last()),
        }
    }
}

/// The samples that are given, in order.
pub open spec fn readings<T>(items: Seq<Item<T>>) -> Seq<Reading<T>>
    decreases items.len(),
{
    if items.len() == 0 {
        Seq::empty()
    } else {
        match items.last() {
            Item::Sample(reading) => readings(items.drop_last()).push(reading),
            _ => readings(items.drop_last()),
        }
    }
}

/// Those of `names` that `cache` does not hold.
pub open spec fn unseen(cache: Seq<Seq<char>>, names: Seq<Seq<char>>) -> Seq<Seq<char>>
    decreases names.len(),
{
    if names.len() == 0 {
        Seq::empty()
    } else if cache.contains(names.last()) {
        unseen(cache, names.drop_last())
    } else {
        unseen(cache, names.drop_last()).push(names.last())
    }
}

/// `steps` are the samples read, each held until a later one replaces it.
pub open spec fn gives<T>(steps: Seq<Step<T>>, readings: Seq<Reading<T>>) -> bool {
    &&& steps.len() == readings.len()
    &&& forall|i: int|
        0 <= i < steps.len() ==> {
            let step = #[trigger] steps[i];
            &&& step.signal@ == readings[i].0
            &&& step == Step::spec_new(step.signal, readings[i].1, readings[i].2)
        }
}

/// Each signal of `steps` is named by the very entry that `table` hands out.
pub open spec fn named_by<T>(steps: Seq<Step<T>>, table: InternTable) -> bool {
    forall|i: int| 0 <= i < steps.len() ==> table.entries().contains((#[trigger] steps[i]).signal)
}

/// What a backed cache names, its table names.
proof fn lemma_backed<T>(
    res: Result<Vec<Step<T>>, BatchError>,
    cache: InternTable,
    table: InternTable,
)
    ensures
        res is Ok && named_by(res->Ok_0@, cache) && is_backed(cache, table) ==> named_by(
            res->Ok_0@,
            table,
        ),
{
    if res is Ok && named_by(res->Ok_0@, cache) && is_backed(cache, table) {
        let steps = res->Ok_0@;
        assert forall|i: int| 0 <= i < steps.len() implies table.entries().contains(
            (#[trigger] steps[i]).signal,
        ) by {
            let k = choose|k: int|
                0 <= k < cache.entries().len() && cache.entries()[k] == steps[i].signal;
            assert(cache.entries().contains(steps[i].signal));
            assert(table.entries().contains(cache.entries()[k]));
        }
    }
}

proof fn lemma_pushed(entries: Seq<&'static str>, name: &'static str)
    ensures
        forall|n: &'static str| #[trigger]
            entries.contains(n) ==> entries.push(name).contains(n),
{
    assert forall|n: &'static str| #[trigger] entries.contains(n) implies entries.push(
        name,
    ).contains(n) by {
        let k = choose|k: int| 0 <= k < entries.len() && entries[k] == n;
        assert(entries.push(name)[k] == n);
    }
}

/// The tables hold what they held before, and the signals of `items` that were named.
pub open spec fn remembered<T>(
    items: Seq<Item<T>>,
    before: (Seq<Seq<char>>, Seq<Seq<char>>),
    after: (Seq<Seq<char>>, Seq<Seq<char>>),
) -> bool {
    let names = named(reached(items).0);
    &&& after.0 == interned(before.0, names)
    &&& after.1 == interned(before.1, unseen(before.0, names))
}

/// Once a batch is refused, what follows is not read.
proof fn lemma_refused<T>(items: Seq<Item<T>>, more: Seq<Item<T>>)
    requires
        reached(items).1 is Some,
    ensures
        reached(items + more) == reached(items),
    decreases more.len(),
{
    if more.len() == 0 {
        assert(items + more =~= items);
    } else {
        lemma_refused(items, more.drop_last());
        assert((items + more).drop_last() =~= items + more.drop_last());
    }
}

proof fn lemma_flat_refused<T>(entries: Seq<Entry<T>>, n: int)
    requires
        0 <= n <= entries.len(),
        reached(flat_items(entries.take(n))).1 is Some,
    ensures
        reached(flat_items(entries)) == reached(flat_items(entries.take(n))),
    decreases entries.len(),
{
    if n == entries.len() {
        assert(entries.take(n) =~= entries);
    } else {
        assert(entries.drop_last().take(n) =~= entries.take(n));
        lemma_flat_refused(entries.drop_last(), n);
        lemma_refused(flat_items(entries.drop_last()), triple_items(entries.last()));
    }
}

proof fn lemma_grouped_refused<T>(tracks: Seq<(Field<T>, Samples<T>)>, n: int)
    requires
        0 <= n <= tracks.len(),
        reached(grouped_items(tracks.take(n))).1 is Some,
    ensures
        reached(grouped_items(tracks)) == reached(grouped_items(tracks.take(n))),
    decreases tracks.len(),
{
    if n == tracks.len() {
        assert(tracks.take(n) =~= tracks);
    } else {
        assert(tracks.drop_last().take(n) =~= tracks.take(n));
        lemma_grouped_refused(tracks.drop_last(), n);
        lemma_refused(grouped_items(tracks.drop_last()), track_items(tracks.last()));
    }
}

proof fn lemma_unseen(cache: Seq<Seq<char>>, names: Seq<Seq<char>>, name: Seq<char>)
    requires
        !cache.contains(name),
        names.contains(name),
    ensures
        unseen(cache, names).contains(name),
    decreases names.len(),
{
    let head = names.drop_last();
    let found = unseen(cache, names);
    if names.last() == name {
        assert(found[found.len() - 1] == name);
    } else {
        let k = choose|k: int| 0 <= k < names.len() && names[k] == name;
        assert(head[k] == name);
        lemma_unseen(cache, head, name);
        let i = choose|i: int|
            0 <= i < unseen(cache, head).len() && unseen(cache, head)[i] == name;
        assert(found[i] == name);
    }
}

/// Interning a signal that is named is what the tables are due for it.
proof fn lemma_named<T>(
    items: Seq<Item<T>>,
    signal: Seq<char>,
    start: (Seq<Seq<char>>, Seq<Seq<char>>),
    before: (Seq<Seq<char>>, Seq<Seq<char>>),
    after: (Seq<Seq<char>>, Seq<Seq<char>>),
)
    requires
        start.0.no_duplicates(),
        start.1.no_duplicates(),
        reached(items).1 is None,
        remembered(items, start, before),
        after.0 == (if before.0.contains(signal) {
            before.0
        } else {
            before.0.push(signal)
        }),
        after.1 == (if before.0.contains(signal) || before.1.contains(signal) {
            before.1
        } else {
            before.1.push(signal)
        }),
    ensures
        remembered(items.push(Item::Signal(signal)), start, after),
        reached(items.push(Item::Signal(signal))).1 is None,
        readings(reached(items.push(Item::Signal(signal))).0) == readings(reached(items).0),
{
    let wider = items.push(Item::Signal(signal));
    let names = named(reached(items).0);
    let all = names.push(signal);
    assert(wider.drop_last() =~= items);
    assert(reached(wider).0.drop_last() =~= reached(items).0);
    assert(named(reached(wider).0) == all);
    assert(all.drop_last() =~= names);
    interning_keeps_distinct_names(start.0, names);
    interning_keeps_distinct_names(start.1, unseen(start.0, names));
    if start.0.contains(signal) {
        assert(before.0.contains(signal));
    } else {
        let fresh = unseen(start.0, names);
        assert(unseen(start.0, all) == fresh.push(signal));
        assert(fresh.push(signal).drop_last() =~= fresh);
        if before.0.contains(signal) {
            lemma_unseen(start.0, names, signal);
            assert(before.1.contains(signal));
        }
    }
}

/// A sample leaves the tables alone and is given out.
proof fn lemma_sampled<T>(
    items: Seq<Item<T>>,
    reading: Reading<T>,
    start: (Seq<Seq<char>>, Seq<Seq<char>>),
    tables: (Seq<Seq<char>>, Seq<Seq<char>>),
)
    requires
        reached(items).1 is None,
        remembered(items, start, tables),
    ensures
        remembered(items.push(Item::Sample(reading)), start, tables),
        reached(items.push(Item::Sample(reading))).1 is None,
        readings(reached(items.push(Item::Sample(reading))).0) == readings(reached(items).0).push(
            reading,
        ),
{
    let wider = items.push(Item::Sample(reading));
    assert(wider.drop_last() =~= items);
    assert(reached(wider).0.drop_last() =~= reached(items).0);
}

/// A refused item is where reading ends.
proof fn lemma_refused_at<T>(
    items: Seq<Item<T>>,
    error: BatchError,
    start: (Seq<Seq<char>>, Seq<Seq<char>>),
    tables: (Seq<Seq<char>>, Seq<Seq<char>>),
)
    requires
        reached(items).1 is None,
        remembered(items, start, tables),
    ensures
        remembered(items.push(Item::Refused(error)), start, tables),
        reached(items.push(Item::Refused(error))).1 == Some(error),
{
    assert(items.push(Item::<T>::Refused(error)).drop_last() =~= items);
}

/// Reads a value and a timestamp.
fn read_numbers<T: Copy>(value: &Field<T>, timestamp: &Field<T>) -> (res: Result<
    (T, Time),
    BatchError,
>)
    ensures
        res == numbers(*value, *timestamp),
{
    let v: T = match value {
        Field::Number(v, _) => *v,
        Field::Text(_) => {
            return Err(BatchError::NotANumber);
        },
        Field::Other(k) => {
            return Err(BatchError::Unreadable(*k));
        },
    };
    match timestamp {
        Field::Number(_, Some(t)) => Ok((v, *t)),
        Field::Number(_, None) => Err(BatchError::NotATime),
        Field::Text(_) => Err(BatchError::NotANumber),
        Field::Other(k) => Err(BatchError::Unreadable(*k)),
    }
}

/// Reads an entry listed for a signal.
fn read_pair<T: Copy>(entry: &Entry<T>) -> (res: Result<(T, Time), BatchError>)
    ensures
        forall|signal: Seq<char>| #[trigger]
            pair_item(signal, *entry) == (match res {
                Ok((v, t)) => Item::Sample((signal, v, t)),
                Err(error) => Item::Refused(error),
            }),
{
    match entry {
        Entry::Unreadable(k) => Err(BatchError::Unreadable(*k)),
        Entry::Other => Err(BatchError::NotAPair),
        Entry::Tuple(fields) => if fields.len() == 2 {
            read_numbers(&fields[0], &fields[1])
        } else {
            Err(BatchError::NotAPair)
        },
    }
}

/// Reads a flat list.
fn collect_flat<T: Copy>(
    entries: &Vec<Entry<T>>,
    cache: &mut InternTable,
    table: &mut InternTable,
) -> (res: Result<Vec<Step<T>>, BatchError>)
    requires
        old(cache).wf(),
        old(table).wf(),
    ensures
        final(cache).wf(),
        final(table).wf(),
        remembered(
            flat_items(entries@),
            (old(cache)@, old(table)@),
            (final(cache)@, final(table)@),
        ),
        is_backed(*old(cache), *old(table)) ==> is_backed(*final(cache), *final(table)),
        match res {
            Ok(steps) => reached(flat_items(entries@)).1 is None && gives(
                steps@,
                readings(reached(flat_items(entries@)).0),
            ) && named_by(steps@, *final(cache)),
            Err(error) => reached(flat_items(entries@)).1 == Some(error),
        },
{
    let ghost start = (cache@, table@);
    let mut steps: Vec<Step<T>> = Vec::new();
    let mut i: usize = 0;
    assert(entries@.take(0) =~= Seq::empty());
    while i < entries.len()
        invariant
            i <= entries@.len(),
            start == (old(cache)@, old(table)@),
            start.0.no_duplicates(),
            start.1.no_duplicates(),
            cache.wf(),
            table.wf(),
            reached(flat_items(entries@.take(i as int))).1 is None,
            remembered(flat_items(entries@.take(i as int)), start, (cache@, table@)),
            gives(steps@, readings(reached(flat_items(entries@.take(i as int))).0)),
            named_by(steps@, *cache),
            is_backed(*old(cache), *old(table)) ==> is_backed(*cache, *table),
        decreases entries@.len() - i,
    {
        let entry: &Entry<T> = &entries[i];
        let ghost items = flat_items(entries@.take(i as int));
        let ghost more = triple_items(*entry);
        proof {
            assert(entries@.take(i + 1).drop_last() =~= entries@.take(i as int));
            assert(flat_items(entries@.take(i + 1)) == items + more);
        }
        let refused: Option<BatchError> = match entry {
            Entry::Unreadable(k) => Some(BatchError::Unreadable(*k)),
            Entry::Other => Some(BatchError::NotATriple),
            Entry::Tuple(fields) => if fields.len() != 3 {
                Some(BatchError::NotATriple)
            } else {
                match &fields[0] {
                    Field::Text(_) => None,
                    Field::Number(_, _) => Some(BatchError::NotText),
                    Field::Other(k) => Some(BatchError::Unreadable(*k)),
                }
            },
        };
        if let Some(error) = refused {
            proof {
                lemma_refused_at(items, error, start, (cache@, table@));
                assert(items + more =~= items.push(Item::Refused(error)));
                lemma_flat_refused(entries@, i + 1);
            }
            return Err(error);
        }
        if let Entry::Tuple(fields) = entry {
            if let Field::Text(name) = &fields[0] {
                let ghost before = (cache@, table@);
                let ghost entries_before = cache.entries();
                let signal: &'static str = intern_cached(cache, table, name.as_str());
                proof {
                    lemma_pushed(entries_before, signal);
                    assert(named_by(steps@, *cache));
                }
                let ghost named_items = items.push(Item::Signal(signal@));
                proof {
                    lemma_named(items, signal@, start, before, (cache@, table@));
                }
                match read_numbers(&fields[1], &fields[2]) {
                    Ok((value, timestamp)) => {
                        steps.push(Step::new(signal, value, timestamp));
                        proof {
                            let reading = (signal@, value, timestamp);
                            lemma_sampled(named_items, reading, start, (cache@, table@));
                            assert(items + more =~= named_items.push(Item::Sample(reading)));
                        }
                    },
                    Err(error) => {
                        proof {
                            lemma_refused_at(named_items, error, start, (cache@, table@));
                            assert(items + more =~= named_items.push(Item::Refused(error)));
                            lemma_flat_refused(entries@, i + 1);
                        }
                        return Err(error);
                    },
                }
            }
        }
        i = i + 1;
    }
    assert(entries@.take(i as int) =~= entries@);
    Ok(steps)
}

/// Reads a mapping from signals to lists.
fn collect_grouped<T: Copy>(
    tracks: &Vec<(Field<T>, Samples<T>)>,
    cache: &mut InternTable,
    table: &mut InternTable,
) -> (res: Result<Vec<Step<T>>, BatchError>)
    requires
        old(cache).wf(),
        old(table).wf(),
    ensures
        final(cache).wf(),
        final(table).wf(),
        remembered(
            grouped_items(tracks@),
            (old(cache)@, old(table)@),
            (final(cache)@, final(table)@),
        ),
        is_backed(*old(cache), *old(table)) ==> is_backed(*final(cache), *final(table)),
        match res {
            Ok(steps) => reached(grouped_items(tracks@)).1 is None && gives(
                steps@,
                readings(reached(grouped_items(tracks@)).0),
            ) && named_by(steps@, *final(cache)),
            Err(error) => reached(grouped_items(tracks@)).1 == Some(error),
        },
{
    let ghost start = (cache@, table@);
    let mut steps: Vec<Step<T>> = Vec::new();
    let mut i: usize = 0;
    assert(tracks@.take(0) =~= Seq::empty());
    while i < tracks.len()
        invariant
            i <= tracks@.len(),
            start == (old(cache)@, old(table)@),
            start.0.no_duplicates(),
            start.1.no_duplicates(),
            cache.wf(),
            table.wf(),
            reached(grouped_items(tracks@.take(i as int))).1 is None,
            remembered(grouped_items(tracks@.take(i as int)), start, (cache@, table@)),
            gives(steps@, readings(reached(grouped_items(tracks@.take(i as int))).0)),
            named_by(steps@, *cache),
            is_backed(*old(cache), *old(table)) ==> is_backed(*cache, *table),
        decreases tracks@.len() - i,
    {
        let track: &(Field<T>, Samples<T>) = &tracks[i];
        let ghost items = grouped_items(tracks@.take(i as int));
        let ghost more = track_items(*track);
        proof {
            assert(tracks@.take(i + 1).drop_last() =~= tracks@.take(i as int));
            assert(grouped_items(tracks@.take(i + 1)) == items + more);
        }
        let name: &String = match &track.0 {
            Field::Text(name) => name,
            _ => {
                proof {
                    lemma_refused_at(items, BatchError::SignalName, start, (cache@, table@));
                    assert(items + more =~= items.push(Item::Refused(BatchError::SignalName)));
                    lemma_grouped_refused(tracks@, i + 1);
                }
                return Err(BatchError::SignalName);
            },
        };
        let ghost before = (cache@, table@);
        let ghost entries_before = cache.entries();
        let signal: &'static str = intern_cached(cache, table, name.as_str());
        proof {
            lemma_pushed(entries_before, signal);
            assert(named_by(steps@, *cache));
        }
        let ghost head = items.push(Item::Signal(signal@));
        proof {
            lemma_named(items, signal@, start, before, (cache@, table@));
        }
        match &track.1 {
            Samples::Unreadable(k) => {
                let error: BatchError = BatchError::Unreadable(*k);
                proof {
                    lemma_refused_at(head, error, start, (cache@, table@));
                    assert(items + more =~= head.push(Item::Refused(error)));
                    lemma_grouped_refused(tracks@, i + 1);
                }
                return Err(error);
            },
            Samples::Listed(entries) => {
                let ghost listed = Seq::new(
                    entries@.len(),
                    |j: int| pair_item(signal@, entries@[j]),
                );
                let mut j: usize = 0;
                assert(more =~= seq![Item::Signal(signal@)] + listed);
                assert(head + listed.take(0) =~= head);
                while j < entries.len()
                    invariant
                        j <= entries@.len(),
                        i < tracks@.len(),
                        listed.len() == entries@.len(),
                        forall|n: int|
                            0 <= n < listed.len() ==> (#[trigger] listed[n]) == pair_item(
                                signal@,
                                entries@[n],
                            ),
                        head == items.push(Item::Signal(signal@)),
                        more == seq![Item::Signal(signal@)] + listed,
                        grouped_items(tracks@.take(i + 1)) == items + more,
                        cache.wf(),
                        table.wf(),
                        reached(head + listed.take(j as int)).1 is None,
                        remembered(head + listed.take(j as int), start, (cache@, table@)),
                        gives(steps@, readings(reached(head + listed.take(j as int)).0)),
                        named_by(steps@, *cache),
                        cache.entries().contains(signal),
                        is_backed(*old(cache), *old(table)) ==> is_backed(*cache, *table),
                        start == (old(cache)@, old(table)@),
                    decreases entries@.len() - j,
                {
                    let ghost so_far = head + listed.take(j as int);
                    assert(head + listed.take(j + 1) =~= so_far.push(listed[j as int]));
                    match read_pair(&entries[j]) {
                        Ok((value, timestamp)) => {
                            steps.push(Step::new(signal, value, timestamp));
                            proof {
                                let reading = (signal@, value, timestamp);
                                lemma_sampled(so_far, reading, start, (cache@, table@));
                                assert(listed[j as int] == Item::Sample(reading));
                            }
                        },
                        Err(error) => {
                            proof {
                                lemma_refused_at(so_far, error, start, (cache@, table@));
                                assert(listed[j as int] == Item::<T>::Refused(error));
                                lemma_refused(
                                    head + listed.take(j + 1),
                                    listed.skip(j + 1),
                                );
                                assert(items + more =~= head + listed.take(j + 1) + listed.skip(
                                    j + 1,
                                ));
                                lemma_grouped_refused(tracks@, i + 1);
                            }
                            return Err(error);
                        },
                    }
                    j = j + 1;
                }
                assert(items + more =~= head + listed.take(j as int));
            },
        }
        i = i + 1;
    }
    assert(tracks@.take(i as int) =~= tracks@);
    Ok(steps)
}

/// Converts either accepted batch form into a flat list of steps.
///
/// The batch is read in order, up to the first item it is refused for. Signals named before
/// that are interned, through a cache in front of the shared table; see [`intern_cached`].
pub fn collect_batch_steps<T: Copy>(
    batch: &Batch<T>,
    cache: &mut InternTable,
    table: &mut InternTable,
) -> (res: Result<Vec<Step<T>>, BatchError>)
    requires
        old(cache).wf(),
        old(table).wf(),
    ensures
        final(cache).wf(),
        final(table).wf(),
        remembered(batch.items(), (old(cache)@, old(table)@), (final(cache)@, final(table)@)),
        is_backed(*old(cache), *old(table)) ==> is_backed(*final(cache), *final(table)),
        match res {
            Ok(steps) => {
                &&& reached(batch.items()).1 is None
                &&& gives(steps@, readings(reached(batch.items()).0))
                &&& named_by(steps@, *final(cache))
                &&& is_backed(*old(cache), *old(table)) ==> named_by(steps@, *final(table))
            },
            Err(error) => reached(batch.items()).1 == Some(error),
        },
{
    match batch {
        Batch::BySignal(tracks) => {
            let res: Result<Vec<Step<T>>, BatchError> = collect_grouped(tracks, cache, table);
            proof {
                lemma_backed(res, *cache, *table);
            }
            res
        },
        Batch::Flat(entries) => {
            let res: Result<Vec<Step<T>>, BatchError> = collect_flat(entries, cache, table);
            proof {
                lemma_backed(res, *cache, *table);
            }
            res
        },
        Batch::Other => {
            proof {
                lemma_refused_at(
                    Seq::<Item<T>>::empty(),
                    BatchError::NotABatch,
                    (cache@, table@),
                    (cache@, table@),
                );
                assert(batch.items() =~= Seq::<Item<T>>::empty().push(
                    Item::Refused(BatchError::NotABatch),
                ));
            }
            Err(BatchError::NotABatch)
        },
    }
}

/// A batch that is accepted is read as a whole: every sample it lists is given, in order.
pub proof fn accepted_batches_are_read_whole<T>(batch: Batch<T>)
    requires
        reached(batch.items()).1 is None,
    ensures
        reached(batch.items()).0 == batch.items(),
        forall|i: int|
            0 <= i < batch.items().len() ==> !((#[trigger] batch.items()[i]) is Refused),
{
    lemma_read_whole(batch.items());
}

proof fn lemma_read_whole<T>(items: Seq<Item<T>>)
    requires
        reached(items).1 is None,
    ensures
        reached(items).0 == items,
        forall|i: int| 0 <= i < items.len() ==> !((#[trigger] items[i]) is Refused),
    decreases items.len(),
{
    if items.len() > 0 {
        lemma_read_whole(items.drop_last());
        assert(reached(items).0 =~= items);
        assert forall|i: int| 0 <= i < items.len() implies !((#[trigger] items[i]) is Refused) by {
            if i < items.len() - 1 {
                assert(items.drop_last()[i] == items[i]);
            }
        }
    }
}

} // verus!
