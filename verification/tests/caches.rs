use mstlo::memory::{bytes_of, sum_of};
use mstlo::name_map::NameMap;
use mstlo::names::{contains_name, extend_names, is_concerned};
use mstlo::ring_buffer::{guarded_prune, RingBuffer, RingBufferTrait, Step};
use mstlo::time::{Time, FOREVER, MAX_TIME};

fn cache(entries: &[(i64, Time)]) -> RingBuffer<i64> {
    let mut cache: RingBuffer<i64> = RingBufferTrait::new();
    for &(value, t) in entries {
        cache.insert_step(Step::new("x", value, t));
    }
    cache
}

fn listed(cache: &RingBuffer<i64>) -> Vec<(i64, Time)> {
    (0..cache.len())
        .map(|i| (cache.get(i).value, cache.get(i).timestamp))
        .collect()
}

#[test]
fn steps_are_held_on_unless_said_otherwise() {
    let step = Step::new("x", 1, 5);
    assert_eq!(step.held_until, FOREVER);
    assert_eq!(std::time::Duration::MAX.as_nanos(), MAX_TIME);
}

#[test]
fn samples_are_kept_in_time_order() {
    let cache = cache(&[(3, 30), (1, 10), (2, 20), (9, 10)]);
    assert_eq!(listed(&cache), vec![(9, 10), (2, 20), (3, 30)]);
    assert_eq!(cache.get_back().map(|step| step.value), Some(3));
    assert!(!cache.is_empty());
}

#[test]
fn only_existing_timestamps_are_updated() {
    let mut cache = cache(&[(1, 10), (2, 20)]);
    assert!(cache.update_step(Step::new("x", 5, 20)));
    assert!(!cache.update_step(Step::new("x", 5, 15)));
    assert_eq!(listed(&cache), vec![(1, 10), (5, 20)]);
}

#[test]
fn values_are_held_until_the_next_one() {
    let cache = cache(&[(1, 10), (2, 20)]);
    let read = |t: Time| cache.zoh_at(t).map(|step| step.value);
    assert_eq!(read(9), None);
    assert_eq!(read(10), Some(1));
    assert_eq!(read(19), Some(1));
    assert_eq!(read(20), Some(2));
    assert_eq!(read(MAX_TIME), Some(2));
    assert_eq!(cache.partition_point(9), 0);
    assert_eq!(cache.partition_point(10), 1);
    assert_eq!(cache.partition_point(25), 2);
}

#[test]
fn a_value_is_not_read_past_the_time_it_is_held_to() {
    let mut cache: RingBuffer<i64> = RingBufferTrait::new();
    cache.insert_step(Step {
        signal: "x",
        value: 7,
        timestamp: 10,
        held_until: 15,
    });
    assert_eq!(cache.zoh_at(14).map(|step| step.value), Some(7));
    assert!(cache.zoh_at(15).is_none());
}

/// The entry in force at the cutoff stays, so that every value from there on is still read.
#[test]
fn pruning_keeps_what_is_in_force() {
    let entries = [(1, 10), (2, 20), (3, 30), (4, 40)];
    let mut pruned = cache(&entries);
    guarded_prune(&mut pruned, 5, 25);
    assert_eq!(listed(&pruned), vec![(2, 20), (3, 30), (4, 40)]);
    assert_eq!(pruned.zoh_at(25).map(|step| step.value), Some(2));

    // The lookahead reaches further back than the protected time.
    let mut pruned = cache(&entries);
    guarded_prune(&mut pruned, 28, 35);
    assert_eq!(listed(&pruned), vec![(1, 10), (2, 20), (3, 30), (4, 40)]);

    let mut pruned = cache(&entries);
    guarded_prune(&mut pruned, 0, 100);
    assert_eq!(listed(&pruned), vec![(4, 40)]);

    let mut empty: RingBuffer<i64> = RingBufferTrait::new();
    guarded_prune(&mut empty, 0, 100);
    assert!(empty.is_empty());
}

#[test]
fn the_oldest_entries_are_dropped_first() {
    let mut cache = cache(&[(1, 10), (2, 20), (3, 30)]);
    cache.drop_front(2);
    assert_eq!(listed(&cache), vec![(3, 30)]);
    cache.clear();
    assert_eq!(cache.len(), 0);
}

#[test]
fn memory_grows_with_the_entries() {
    let empty: RingBuffer<i64> = RingBufferTrait::new();
    let full = cache(&[(1, 10), (2, 20), (3, 30)]);
    assert!(full.heap_size() >= empty.heap_size() + 3 * std::mem::size_of::<Step<i64>>());
    assert_eq!(bytes_of(3, 4), 12);
    assert_eq!(bytes_of(usize::MAX, 2), usize::MAX);
    assert_eq!(sum_of(3, 4), 7);
    assert_eq!(sum_of(usize::MAX, 1), usize::MAX);
}

#[test]
fn name_maps_are_ordered_by_name() {
    let mut map: NameMap<i64> = NameMap::new();
    map.insert("b", 1);
    map.insert("a", 2);
    map.insert("ab", 3);
    map.insert("b", 4);
    let items: Vec<(&str, i64)> = (0..map.len()).map(|i| *map.at(i)).collect();
    assert_eq!(items, vec![("a", 2), ("ab", 3), ("b", 4)]);
    assert_eq!(map.get("ab"), Some(3));
    map.remove("ab");
    assert_eq!(map.get("ab"), None);
    let copy = map.duplicate();
    map.clear();
    assert_eq!((map.len(), copy.len()), (0, 2));
}

/// While nothing is known of what an operand reads, every sample concerns it.
#[test]
fn samples_are_routed_by_name() {
    let mut names: Vec<&'static str> = Vec::new();
    assert!(is_concerned(&names, "x"));
    extend_names(&mut names, &vec!["x", "y", "x"]);
    assert_eq!(names, vec!["x", "y"]);
    assert!(is_concerned(&names, "y"));
    assert!(!is_concerned(&names, "z"));
    assert!(contains_name(&names, "x") && !contains_name(&names, ""));
}
