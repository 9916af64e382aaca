use mstlo::interner::{intern, intern_cached, interned_count, InternTable};

#[test]
fn interning_equal_names_yields_the_same_reference() {
    let mut table = InternTable::new();
    let a = intern(&mut table, "interner_test_signal");
    let b = intern(&mut table, &String::from("interner_test_signal"));

    assert_eq!(a, "interner_test_signal");
    assert!(std::ptr::eq(a, b));
}

#[test]
fn interning_distinct_names_yields_distinct_references() {
    let mut table = InternTable::new();
    let a = intern(&mut table, "interner_test_left");
    let b = intern(&mut table, "interner_test_right");

    assert!(!std::ptr::eq(a, b));
    assert_eq!((a, b), ("interner_test_left", "interner_test_right"));
}

#[test]
fn repeated_interning_allocates_once() {
    let mut table = InternTable::new();
    let first = intern(&mut table, "interner_test_repeat");

    for _ in 0..1_000 {
        assert!(std::ptr::eq(intern(&mut table, "interner_test_repeat"), first));
    }
    assert_eq!(interned_count(&table), 1);
}

#[test]
fn interning_a_new_name_grows_the_table() {
    let mut table = InternTable::new();
    let before = interned_count(&table);
    intern(&mut table, "interner_test_new_name");

    assert!(interned_count(&table) > before);
}

#[test]
fn names_are_kept_in_the_order_of_first_use() {
    let mut table = InternTable::new();
    for name in ["b", "a", "b", "c", "a"] {
        intern(&mut table, name);
    }
    assert_eq!(interned_count(&table), 3);
    assert_eq!(table.find("a"), Some("a"));
    assert_eq!(table.find("d"), None);
}

#[test]
fn a_remembered_name_is_found_again() {
    let mut table = InternTable::new();
    assert_eq!(table.find("x"), None);
    table.remember("x");
    assert!(std::ptr::eq(table.find("x").unwrap(), intern(&mut table, "x")));
}

/// A cache hands out what the table holds, and asks it for a name only once.
#[test]
fn a_cache_keeps_requests_off_the_table() {
    let mut table = InternTable::new();
    let mut cache = InternTable::new();
    let shared = intern(&mut table, "temperature");
    assert!(std::ptr::eq(
        intern_cached(&mut cache, &mut table, "temperature"),
        shared
    ));
    let pressure = intern_cached(&mut cache, &mut table, "pressure");
    assert!(std::ptr::eq(intern(&mut table, "pressure"), pressure));
    let mut other = InternTable::new();
    assert!(std::ptr::eq(
        intern_cached(&mut cache, &mut other, "pressure"),
        pressure
    ));
    assert_eq!(interned_count(&table), 2);
    assert_eq!(interned_count(&cache), 2);
    assert_eq!(interned_count(&other), 0);
}
