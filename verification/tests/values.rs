use mstlo::atomic_operators::{crossing_time, Predicate};
use mstlo::semantics::{
    AtomicSemantics, Robustness, RobustnessInterval, RobustnessSemantics, SignalValue,
};
use mstlo::text::{is_before, push_decimal, push_seconds, same_text};
use mstlo::time::{earlier, later, saturating_minus, Time};
use mstlo::variables::Variables;

fn finite(v: i128) -> Robustness {
    Robustness::Finite(v)
}

#[test]
fn truth_values() {
    assert!(bool::and(true, true) && !bool::and(true, false));
    assert!(bool::or(false, true) && !bool::or(false, false));
    assert!(bool::atomic_true() && !bool::atomic_false() && !bool::unknown());
    assert!(true.is_final() && false.same(&false) && !true.same(&false));
    assert!(<bool as AtomicSemantics<i64>>::atomic_greater_than(5, 4));
    assert!(!<bool as AtomicSemantics<i64>>::atomic_less_than(4, 4));
}

#[test]
fn robustness_values() {
    let low = Robustness::NegInfinity;
    let high = Robustness::Infinity;
    assert_eq!(Robustness::and(finite(3), finite(-2)), finite(-2));
    assert_eq!(Robustness::or(finite(3), finite(-2)), finite(3));
    assert_eq!(Robustness::and(high, finite(7)), finite(7));
    assert_eq!(Robustness::or(low, finite(7)), finite(7));
    assert_eq!(Robustness::atomic_true(), high);
    assert_eq!(Robustness::atomic_false(), low);
    assert_eq!(
        <Robustness as AtomicSemantics<i64>>::atomic_greater_than(i64::MAX, i64::MIN),
        finite(i128::from(u64::MAX))
    );
    assert_eq!(
        <Robustness as AtomicSemantics<i64>>::atomic_less_than(15, 10),
        finite(-5)
    );
}

#[test]
fn robustness_intervals() {
    let a = RobustnessInterval(finite(-1), finite(4));
    let b = RobustnessInterval(finite(0), finite(2));
    assert_eq!(
        RobustnessInterval::and(a, b),
        RobustnessInterval(finite(-1), finite(2))
    );
    assert_eq!(
        RobustnessInterval::or(a, b),
        RobustnessInterval(finite(0), finite(4))
    );
    assert!(!a.is_final() && RobustnessInterval::atomic_true().is_final());
    assert_eq!(
        RobustnessInterval::unknown(),
        RobustnessInterval(Robustness::NegInfinity, Robustness::Infinity)
    );
    let exact = <RobustnessInterval as AtomicSemantics<i64>>::atomic_greater_than(7, 3);
    assert_eq!(exact, RobustnessInterval(finite(4), finite(4)));
}

/// Combining an interval with an unknown one leaves the bound that is certain.
#[test]
fn unknown_widens_one_side() {
    let v = RobustnessInterval(finite(1), finite(2));
    let unknown = RobustnessInterval::unknown();
    assert_eq!(
        RobustnessInterval::or(v, unknown),
        RobustnessInterval(finite(1), Robustness::Infinity)
    );
    assert_eq!(
        RobustnessInterval::and(v, unknown),
        RobustnessInterval(Robustness::NegInfinity, finite(2))
    );
}

#[test]
fn crossings_are_exact_to_the_nanosecond() {
    assert_eq!(crossing_time(0, 6i64, 4, 2, 4), Some(2));
    assert_eq!(crossing_time(10, 0i64, 20, 3, 1), Some(13));
    // Outside the segment, at its ends, and on a flat or reversed one.
    assert_eq!(crossing_time(0, 6i64, 4, 2, 7), None);
    assert_eq!(crossing_time(0, 6i64, 4, 2, 6), None);
    assert_eq!(crossing_time(0, 6i64, 4, 2, 2), None);
    assert_eq!(crossing_time(0, 6i64, 4, 6, 6), None);
    assert_eq!(crossing_time(4, 6i64, 0, 2, 4), None);
    // To the nearest nanosecond, halfway to the even one.
    assert_eq!(crossing_time(0, 0i64, 5, 4, 1), Some(1));
    assert_eq!(crossing_time(0, 0i64, 5, 4, 3), Some(4));
    assert_eq!(crossing_time(0, 0i64, 5, 2, 1), Some(2));
    assert_eq!(crossing_time(0, 0i64, 7, 2, 1), Some(4));
    assert_eq!(crossing_time(0, 0i64, 1_953_125, 2, 1), Some(976_562));
    // Too close to a sample to be told from it.
    assert_eq!(crossing_time(0, 0i64, 2, 5, 4), None);
    assert_eq!(crossing_time(0, 1000i64, 10, -1_000_000, 0), None);
    let span: Time = 18_446_744_073_709_551_615_999_999_999;
    assert_eq!(
        i64::crossing_offset(span, i64::MIN, i64::MAX, 0),
        Some(9_223_372_036_854_775_808_500_000_000)
    );
}

#[test]
fn predicates_read_thresholds_from_their_context() {
    let mut vars: Variables<i64> = Variables::new();
    let mut predicate = Predicate::LessThanVar("x", "A", vars.duplicate());
    assert_eq!(predicate.missing_variable(), Some("A"));
    vars.set("A", 10);
    predicate.bind(&vars);
    assert_eq!(predicate.missing_variable(), None);
    assert_eq!(predicate.threshold(), Some(10));
    assert_eq!(predicate.signal(), Some("x"));
    assert!(predicate.holds(9) && !predicate.holds(10));
    vars.set("A", 5);
    assert!(predicate.holds(9), "a copy of the context is kept");
    predicate.bind(&vars);
    assert!(!predicate.holds(9));

    let constant: Predicate<i64> = Predicate::True;
    assert_eq!(constant.signal(), None);
    assert_eq!(constant.threshold(), None);
    assert!(constant.holds(0));
    assert!(!Predicate::<i64>::False.holds(0));
}

#[test]
fn variables_are_bound_and_released() {
    let mut vars: Variables<i64> = Variables::new();
    assert_eq!(vars.describe(), "Variables({})");
    vars.set("A", 10);
    vars.set("B", -3);
    vars.set("A", 7);
    assert_eq!(vars.get("A"), Some(7));
    assert_eq!(vars.get("C"), None);
    assert!(vars.contains("B"));
    let mut names = vars.names();
    names.sort();
    assert_eq!(names, vec!["A", "B"]);
    assert_eq!(vars.describe(), "Variables({A: 7, B: -3})");
    assert_eq!(vars.remove("B"), Some(-3));
    assert_eq!(vars.remove("B"), None);
    assert_eq!(vars.describe(), "Variables({A: 7})");
    vars.clear();
    assert!(!vars.contains("A"));
}

#[test]
fn numbers_as_text() {
    let decimal = |n: u128| {
        let mut text = String::new();
        push_decimal(&mut text, n);
        text
    };
    assert_eq!(decimal(0), "0");
    assert_eq!(decimal(1_203), "1203");
    assert_eq!(decimal(u128::MAX), u128::MAX.to_string());
    let seconds = |t: Time| {
        let mut text = String::new();
        push_seconds(&mut text, t);
        text
    };
    assert_eq!(seconds(5_000_000_000), "5");
    assert_eq!(seconds(400_000_000), "0.4");
    assert_eq!(seconds(1_000_000_001), "1.000000001");
    let mut text = String::from("x > ");
    (-12i64).push_text(&mut text);
    assert_eq!(text, "x > -12");
    let mut text = String::new();
    i64::MIN.push_text(&mut text);
    assert_eq!(text, "-9223372036854775808");
}

#[test]
fn names_compare_as_strings_do() {
    let names = ["", "a", "ab", "b", "z", "é", "日本"];
    for a in names {
        for b in names {
            assert_eq!(is_before(a, b), a < b, "{a} {b}");
            assert_eq!(same_text(a, b), a == b);
        }
    }
}

#[test]
fn times_are_compared_and_subtracted() {
    assert_eq!((earlier(3, 5), later(3, 5)), (3, 5));
    assert_eq!((saturating_minus(5, 3), saturating_minus(3, 5)), (2, 0));
}
