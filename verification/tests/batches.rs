use mstlo::batch::{collect_batch_steps, Batch, BatchError, Entry, Field, Samples};
use mstlo::interner::{interned_count, InternTable};
use mstlo::ring_buffer::Step;
use mstlo::time::Time;
use mstlo::trace::{in_time_order, initial_values, verdicts};

fn text(s: &str) -> Field<i64> {
    Field::Text(String::from(s))
}

fn number(v: i64) -> Field<i64> {
    let time = if v >= 0 { Some(v as Time * 1_000_000_000) } else { None };
    Field::Number(v, time)
}

fn pair(v: i64, t: i64) -> Entry<i64> {
    Entry::Tuple(vec![number(v), number(t)])
}

fn triple(s: &str, v: i64, t: i64) -> Entry<i64> {
    Entry::Tuple(vec![text(s), number(v), number(t)])
}

fn seconds(t: Time) -> Time {
    t * 1_000_000_000
}

/// What a batch comes to, and how many names it left in the cache and in the table.
fn collect(batch: Batch<i64>) -> (Result<Vec<(&'static str, i64, Time)>, BatchError>, usize, usize) {
    let mut cache = InternTable::new();
    let mut table = InternTable::new();
    let steps = collect_batch_steps(&batch, &mut cache, &mut table).map(|steps| {
        steps
            .iter()
            .map(|step| (step.signal, step.value, step.timestamp))
            .collect()
    });
    (steps, interned_count(&cache), interned_count(&table))
}

#[test]
fn both_forms_are_accepted() {
    let grouped = Batch::BySignal(vec![
        (text("x"), Samples::Listed(vec![pair(5, 0), pair(-7, 1)])),
        (text("y"), Samples::Listed(vec![pair(3, 0)])),
        (text("z"), Samples::Listed(vec![])),
    ]);
    let expected = vec![("x", 5, 0), ("x", -7, seconds(1)), ("y", 3, 0)];
    assert_eq!(collect(grouped), (Ok(expected.clone()), 3, 3));
    let flat = Batch::Flat(vec![triple("x", 5, 0), triple("x", -7, 1), triple("y", 3, 0)]);
    assert_eq!(collect(flat), (Ok(expected), 2, 2));
    assert_eq!(collect(Batch::Flat(vec![])), (Ok(vec![]), 0, 0));
}

#[test]
fn names_are_taken_from_the_cache_first() {
    let mut cache = InternTable::new();
    let mut table = InternTable::new();
    let batch = Batch::Flat(vec![triple("x", 1, 0)]);
    let first = collect_batch_steps(&batch, &mut cache, &mut table).unwrap()[0].signal;
    let mut empty = InternTable::new();
    let second = collect_batch_steps(&batch, &mut cache, &mut empty).unwrap()[0].signal;
    assert!(std::ptr::eq(first, second));
    assert_eq!(interned_count(&empty), 0);
}

/// A batch is refused for the first thing that is wrong with it, and names before that stay
/// interned.
#[test]
fn refused_batches() {
    let flat = |entry: Entry<i64>| collect(Batch::Flat(vec![triple("x", 1, 0), entry]));
    assert_eq!(flat(Entry::Other), (Err(BatchError::NotATriple), 1, 1));
    assert_eq!(flat(pair(1, 2)), (Err(BatchError::NotATriple), 1, 1));
    assert_eq!(flat(Entry::Unreadable(4)), (Err(BatchError::Unreadable(4)), 1, 1));
    assert_eq!(flat(triple("y", 1, -1)), (Err(BatchError::NotATime), 2, 2));
    let entry = Entry::Tuple(vec![number(1), number(1), number(1)]);
    assert_eq!(flat(entry), (Err(BatchError::NotText), 1, 1));
    let entry = Entry::Tuple(vec![Field::Other(9), number(1), number(1)]);
    assert_eq!(flat(entry), (Err(BatchError::Unreadable(9)), 1, 1));
    let entry = Entry::Tuple(vec![text("y"), text("1"), Field::Other(2)]);
    assert_eq!(flat(entry), (Err(BatchError::NotANumber), 2, 2));
    let entry = Entry::Tuple(vec![text("y"), number(1), Field::Other(2)]);
    assert_eq!(flat(entry), (Err(BatchError::Unreadable(2)), 2, 2));

    let grouped = |name: Field<i64>, samples: Samples<i64>| {
        collect(Batch::BySignal(vec![(name, samples)]))
    };
    let listed = |entry: Entry<i64>| Samples::Listed(vec![pair(1, 0), entry]);
    assert_eq!(
        grouped(number(1), listed(Entry::Other)),
        (Err(BatchError::SignalName), 0, 0)
    );
    assert_eq!(
        grouped(text("x"), Samples::Unreadable(3)),
        (Err(BatchError::Unreadable(3)), 1, 1)
    );
    assert_eq!(
        grouped(text("x"), listed(triple("x", 1, 0))),
        (Err(BatchError::NotAPair), 1, 1)
    );
    assert_eq!(
        grouped(text("x"), listed(Entry::Tuple(vec![Field::Other(8), number(1)]))),
        (Err(BatchError::Unreadable(8)), 1, 1)
    );
    assert_eq!(
        grouped(text("x"), listed(Entry::Tuple(vec![number(8), text("1")]))),
        (Err(BatchError::NotANumber), 1, 1)
    );
    assert_eq!(collect(Batch::Other), (Err(BatchError::NotABatch), 0, 0));
    assert_eq!(
        BatchError::NotATriple.message(),
        "Each step must be a tuple of (signal, value, timestamp)"
    );
}

fn listed(steps: &[Step<i64>]) -> Vec<(&'static str, i64, Time)> {
    steps
        .iter()
        .map(|step| (step.signal, step.value, step.timestamp))
        .collect()
}

#[test]
fn a_batch_is_taken_in_chronologically() {
    let steps = vec![
        Step::new("x", 1, 30),
        Step::new("y", 2, 10),
        Step::new("x", 3, 10),
        Step::new("y", 4, 30),
        Step::new("x", 5, 20),
    ];
    let sorted = in_time_order(&steps);
    assert_eq!(
        listed(&sorted),
        vec![("y", 2, 10), ("x", 3, 10), ("x", 5, 20), ("x", 1, 30), ("y", 4, 30)]
    );
    assert_eq!(in_time_order(&sorted), sorted);
    assert_eq!(in_time_order(&Vec::<Step<i64>>::new()), vec![]);
}

#[test]
fn refinements_are_collapsed_into_the_last_one() {
    let outputs = vec![
        Step::new("output", 1, 10),
        Step::new("output", 2, 0),
        Step::new("output", 3, 10),
        Step::new("output", 4, 5),
        Step::new("output", 5, 0),
    ];
    assert_eq!(
        listed(&verdicts(&outputs)),
        vec![("output", 5, 0), ("output", 4, 5), ("output", 3, 10)]
    );
}

#[test]
fn initial_values_default_to_zero() {
    let given = vec![("y", 3), ("x", 1), ("y", 4), ("w", 9)];
    assert_eq!(
        initial_values(&vec!["x", "y", "z"], &given),
        vec![("x", 1), ("y", 4), ("z", 0)]
    );
    assert_eq!(initial_values(&vec!["x"], &given), vec![]);
}
