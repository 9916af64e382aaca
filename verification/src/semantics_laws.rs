//! What the domains of verdicts come to, in plain numbers and truth values.

use crate::atomic_laws::lemma_nearest;
use crate::atomic_operators::{crossing, Bound, Comparison};
use crate::semantics::{AtomicSemantics, Robustness, RobustnessInterval, RobustnessSemantics};
use crate::semantics::{distance, nearest, SignalValue};
use crate::time::Time;
use vstd::prelude::*;

verus! {

/// The robustness of `value > c` is how far `value` is above `c`, and that of `value < c` how far
/// it is below, whatever the numbers: positive where the predicate is true, negative where the
/// opposite is, zero on the threshold.
pub proof fn robustness_is_the_distance_to_the_threshold(value: i64, c: i64)
    ensures
        <Robustness as AtomicSemantics<i64>>::greater_than_spec(value, c) matches Robustness::Finite(
            d,
        ) && d + c == value && (d > 0) == (value > c) && (d < 0) == (value < c),
        <Robustness as AtomicSemantics<i64>>::less_than_spec(value, c) matches Robustness::Finite(
            d,
        ) && value + d == c && (d > 0) == (value < c) && (d < 0) == (value > c),
        <RobustnessInterval as AtomicSemantics<i64>>::greater_than_spec(value, c)
            matches RobustnessInterval(Robustness::Finite(lo), Robustness::Finite(hi)) && lo + c
            == value && hi + c == value,
        <RobustnessInterval as AtomicSemantics<i64>>::less_than_spec(value, c)
            matches RobustnessInterval(Robustness::Finite(lo), Robustness::Finite(hi)) && value
            + lo == c && value + hi == c,
        <bool as AtomicSemantics<i64>>::greater_than_spec(value, c) == (value > c),
        <bool as AtomicSemantics<i64>>::less_than_spec(value, c) == (value < c),
{
}

/// Robustness rises with the signal by as much as the signal does, and the two comparisons are
/// each other's negation.
pub proof fn robustness_moves_with_the_signal(v: i64, w: i64, c: i64)
    ensures
        ({
            let a = <Robustness as AtomicSemantics<i64>>::greater_than_spec(v, c);
            let b = <Robustness as AtomicSemantics<i64>>::greater_than_spec(w, c);
            let n = <Robustness as AtomicSemantics<i64>>::less_than_spec(v, c);
            &&& a matches Robustness::Finite(x) && b matches Robustness::Finite(y) && x - y == v - w
            &&& a matches Robustness::Finite(x) && n matches Robustness::Finite(y) && x + y == 0
        }),
{
}

/// The robustness of a conjunction is the lesser and that of a disjunction the greater of the
/// two, with the infinities below and above every number.
pub proof fn robustness_combines_by_least_and_greatest(l: Robustness, r: Robustness)
    ensures
        l matches Robustness::Finite(a) ==> (r matches Robustness::Finite(b) ==> {
            &&& Robustness::and_spec(l, r) matches Robustness::Finite(m) && m <= a && m <= b && (m
                == a || m == b)
            &&& Robustness::or_spec(l, r) matches Robustness::Finite(m) && m >= a && m >= b && (m
                == a || m == b)
        }),
        l is NegInfinity || r is NegInfinity ==> Robustness::and_spec(l, r) is NegInfinity,
        l is Infinity ==> Robustness::and_spec(l, r) == r,
        r is Infinity ==> Robustness::and_spec(l, r) == l,
        l is Infinity || r is Infinity ==> Robustness::or_spec(l, r) is Infinity,
        l is NegInfinity ==> Robustness::or_spec(l, r) == r,
        r is NegInfinity ==> Robustness::or_spec(l, r) == l,
{
}

/// Intervals combine bound by bound.
pub proof fn intervals_combine_bound_by_bound(l: RobustnessInterval, r: RobustnessInterval)
    ensures
        RobustnessInterval::and_spec(l, r).0 == Robustness::and_spec(l.0, r.0),
        RobustnessInterval::and_spec(l, r).1 == Robustness::and_spec(l.1, r.1),
        RobustnessInterval::or_spec(l, r).0 == Robustness::or_spec(l.0, r.0),
        RobustnessInterval::or_spec(l, r).1 == Robustness::or_spec(l.1, r.1),
{
}

/// Truth values combine as conjunction and disjunction do.
pub proof fn truth_values_combine(l: bool, r: bool)
    ensures
        bool::and_spec(l, r) == (l && r),
        bool::or_spec(l, r) == (l || r),
{
}

/// What true, false and unknown are in each domain: the best and the worst verdict, and for
/// intervals the one that leaves everything possible. Where a verdict is not an interval it is
/// final, and what is not known counts as the worst.
pub proof fn constants_are_the_extremes(b: bool, r: Robustness, i: RobustnessInterval)
    ensures
        bool::true_spec(),
        !bool::false_spec(),
        !bool::unknown_spec(),
        bool::final_spec(b),
        Robustness::true_spec() is Infinity,
        Robustness::false_spec() is NegInfinity,
        Robustness::unknown_spec() is NegInfinity,
        Robustness::final_spec(r),
        RobustnessInterval::true_spec() matches RobustnessInterval(lo, hi) && lo is Infinity
            && hi is Infinity,
        RobustnessInterval::false_spec() matches RobustnessInterval(lo, hi) && lo is NegInfinity
            && hi is NegInfinity,
        RobustnessInterval::unknown_spec() matches RobustnessInterval(lo, hi) && lo is NegInfinity
            && hi is Infinity,
        RobustnessInterval::final_spec(i) == (i.0 == i.1),
{
}

/// Verdicts are the same exactly if they are equal.
pub proof fn same_is_equal(
    b: bool,
    c: bool,
    r: Robustness,
    s: Robustness,
    i: RobustnessInterval,
    j: RobustnessInterval,
)
    ensures
        bool::same_spec(b, c) == (b == c),
        Robustness::same_spec(r, s) == (r == s),
        RobustnessInterval::same_spec(i, j) == (i == j),
{
}

/// The order of robustness values is that of the numbers, with the infinities at its ends; an
/// interval contains what lies between its bounds, and lies within another one if its bounds do.
pub proof fn order_is_that_of_the_numbers(
    r: Robustness,
    s: Robustness,
    i: RobustnessInterval,
    j: RobustnessInterval,
)
    ensures
        r.le(s) == match r {
            Robustness::NegInfinity => true,
            Robustness::Infinity => s is Infinity,
            Robustness::Finite(a) => match s {
                Robustness::NegInfinity => false,
                Robustness::Infinity => true,
                Robustness::Finite(b) => a <= b,
            },
        },
        i.contains(r) == (i.0.le(r) && r.le(i.1)),
        i.within(j) == (j.0.le(i.0) && i.1.le(j.1)),
{
}

/// Whole-number samples compare as numbers.
pub proof fn samples_compare_as_numbers(a: i64, b: i64)
    ensures
        i64::greater_spec(a, b) == (a > b),
        i64::equal_spec(a, b) == (a == b),
{
}

/// What a comparison says of a whole-number sample: the truth of `value < c` or `value > c`, and
/// by how much, for a threshold that is given or bound to a variable. The constants say what
/// they are of every sample.
pub proof fn comparisons_compare_with_their_threshold(
    signal: Seq<char>,
    name: Seq<char>,
    c: i64,
    vars: Map<Seq<char>, i64>,
    value: i64,
)
    ensures
        ({
            let less = Comparison::Less(signal, Bound::Constant(c));
            let greater = Comparison::Greater(signal, Bound::Constant(c));
            &&& less.holds(vars, value) == (value < c)
            &&& greater.holds(vars, value) == (value > c)
            &&& less.verdict::<bool>(vars, value) == (value < c)
            &&& greater.verdict::<bool>(vars, value) == (value > c)
            &&& less.verdict::<Robustness>(vars, value) matches Robustness::Finite(d) && value + d
                == c
            &&& greater.verdict::<Robustness>(vars, value) matches Robustness::Finite(d) && c + d
                == value
            &&& less.verdict::<RobustnessInterval>(vars, value) matches RobustnessInterval(
                Robustness::Finite(lo),
                Robustness::Finite(hi),
            ) && value + lo == c && lo == hi
            &&& greater.verdict::<RobustnessInterval>(vars, value) matches RobustnessInterval(
                Robustness::Finite(lo),
                Robustness::Finite(hi),
            ) && c + lo == value && lo == hi
        }),
        ({
            let less = Comparison::<i64>::Less(signal, Bound::Variable(name));
            let greater = Comparison::<i64>::Greater(signal, Bound::Variable(name));
            &&& less.holds(vars, value) == (value < vars[name])
            &&& greater.holds(vars, value) == (value > vars[name])
            &&& less.verdict::<bool>(vars, value) == (value < vars[name])
            &&& greater.verdict::<bool>(vars, value) == (value > vars[name])
            &&& less.verdict::<Robustness>(vars, value) matches Robustness::Finite(d) && value + d
                == vars[name]
            &&& greater.verdict::<Robustness>(vars, value) matches Robustness::Finite(d)
                && vars[name] + d == value
            &&& less.verdict::<RobustnessInterval>(vars, value) matches RobustnessInterval(
                Robustness::Finite(lo),
                Robustness::Finite(hi),
            ) && value + lo == vars[name] && lo == hi
            &&& greater.verdict::<RobustnessInterval>(vars, value) matches RobustnessInterval(
                Robustness::Finite(lo),
                Robustness::Finite(hi),
            ) && vars[name] + lo == value && lo == hi
        }),
        Comparison::<i64>::True.holds(vars, value),
        !Comparison::<i64>::False.holds(vars, value),
        Comparison::<i64>::True.verdict::<bool>(vars, value),
        !Comparison::<i64>::False.verdict::<bool>(vars, value),
        Comparison::<i64>::True.verdict::<Robustness>(vars, value) is Infinity,
        Comparison::<i64>::False.verdict::<Robustness>(vars, value) is NegInfinity,
{
}

/// What a comparison reads: its signal and, if its threshold is one, its variable. It takes
/// samples of that signal and no other; the constants take any, and have no threshold.
pub proof fn comparisons_read_what_they_name<V: SignalValue>(
    signal: Seq<char>,
    other: Seq<char>,
    name: Seq<char>,
    c: V,
    vars: Map<Seq<char>, V>,
)
    ensures
        forall|comparison: Comparison<V>| #[trigger]
            comparison.accepts(other) == match comparison {
                Comparison::Less(own, _) => own == other,
                Comparison::Greater(own, _) => own == other,
                _ => true,
            },
        Comparison::Less(signal, Bound::Constant(c)).threshold(vars) == Some(c),
        Comparison::Greater(signal, Bound::Constant(c)).threshold(vars) == Some(c),
        Comparison::<V>::Less(signal, Bound::Variable(name)).threshold(vars) == Some(vars[name]),
        Comparison::<V>::Greater(signal, Bound::Variable(name)).threshold(vars) == Some(vars[name]),
        Comparison::<V>::True.threshold(vars) is None,
        Comparison::<V>::False.threshold(vars) is None,
        Comparison::Less(signal, Bound::Constant(c)).variables() == Set::<Seq<char>>::empty(),
        Comparison::Greater(signal, Bound::Constant(c)).variables() == Set::<Seq<char>>::empty(),
        forall|n: Seq<char>| #[trigger]
            Comparison::<V>::Less(signal, Bound::Variable(name)).variables().contains(n) == (n
                == name),
        forall|n: Seq<char>| #[trigger]
            Comparison::<V>::Greater(signal, Bound::Variable(name)).variables().contains(n) == (n
                == name),
        Comparison::<V>::True.variables() == Set::<Seq<char>>::empty(),
        Comparison::<V>::False.variables() == Set::<Seq<char>>::empty(),
{
}

/// A whole number less than half away from a quotient is the one it is rounded to; so is the
/// even one of two that are half away.
proof fn lemma_nearest_is(num: int, den: int, n: int)
    requires
        den > 0,
        -den < 2 * (n * den - num) < den || ((2 * (n * den - num) == den || 2 * (n * den - num)
            == -den) && n % 2 == 0),
    ensures
        nearest(num, den) == n,
{
    let whole = num / den;
    let rest = num % den;
    vstd::arithmetic::div_mod::lemma_fundamental_div_mod(num, den);
    assert(0 <= rest < den) by (nonlinear_arith)
        requires
            rest == num % den,
            den > 0,
    ;
    let gap = n - whole;
    assert(n * den - num == gap * den - rest) by (nonlinear_arith)
        requires
            num == den * whole + rest,
            gap == n - whole,
    ;
    assert(gap == 0 || gap == 1) by (nonlinear_arith)
        requires
            -den <= 2 * (gap * den - rest) <= den,
            0 <= rest < den,
            den > 0,
    ;
    assert(gap == 0 ==> gap * den == 0) by (nonlinear_arith);
    assert(gap == 1 ==> gap * den == den) by (nonlinear_arith);
}

/// Where a crossing is reported, in plain numbers. It lies strictly inside the segment, of a
/// threshold strictly between its ends, and the signal is on the threshold within half a
/// nanosecond of it. Such a nanosecond inside the segment is reported if there is one: of two
/// that are half away, the one an even number of nanoseconds into the segment.
pub proof fn crossings_are_the_nearest_nanoseconds(
    t0: Time,
    v0: i64,
    t1: Time,
    v1: i64,
    c: i64,
    t: Time,
)
    requires
        t0 < t1,
    ensures
        ({
            // Twice what the signal would still have to climb at `t`, and what it climbs in all.
            let miss = 2 * ((t - t0) * (v1 - v0) - (t1 - t0) * (c - v0));
            let rise = if v0 < v1 {
                v1 - v0
            } else {
                v0 - v1
            };
            let inside = v0 < c < v1 || v1 < c < v0;
            &&& crossing(t0, v0, t1, v1, c) == Some(t) ==> t0 < t < t1 && inside && -rise <= miss
                <= rise
            &&& t0 < t < t1 && inside && -rise < miss < rise ==> crossing(t0, v0, t1, v1, c)
                == Some(t)
            &&& t0 < t < t1 && inside && (miss == rise || miss == -rise) && (t - t0) % 2 == 0
                ==> crossing(t0, v0, t1, v1, c) == Some(t)
            &&& !inside ==> crossing(t0, v0, t1, v1, c) is None
        }),
{
    let at = t - t0;
    let span = t1 - t0;
    let up = v0 < v1;
    let num = if up { c - v0 } else { v0 - c };
    let den = if up { v1 - v0 } else { v0 - v1 };
    let miss = 2 * (at * (v1 - v0) - span * (c - v0));
    let inside = v0 < c < v1 || v1 < c < v0;
    if inside {
        assert(distance(v0, c) == num && distance(v0, v1) == den);
        assert(up ==> miss == 2 * (at * den - span * num)) by (nonlinear_arith)
            requires
                up ==> num == c - v0 && den == v1 - v0,
                miss == 2 * (at * (v1 - v0) - span * (c - v0)),
        ;
        assert(!up ==> miss == -(2 * (at * den - span * num))) by (nonlinear_arith)
            requires
                !up ==> num == v0 - c && den == v0 - v1,
                miss == 2 * (at * (v1 - v0) - span * (c - v0)),
        ;
        lemma_nearest(span, num, den);
        let n = nearest(span * num, den);
        if crossing(t0, v0, t1, v1, c) == Some(t) {
            assert(n == at);
            assert(-den <= 2 * (at * den - span * num) <= den) by (nonlinear_arith)
                requires
                    (2 * at - 1) * den <= 2 * (span * num),
                    2 * (span * num) <= (2 * at + 1) * den,
            ;
        }
        if t0 < t < t1 && (-den < miss < den || ((miss == den || miss == -den) && at % 2 == 0)) {
            lemma_nearest_is(span * num, den, at);
        }
    } else if v1 < v0 && c == v0 {
        assert(span * distance(v0, c) == 0) by (nonlinear_arith)
            requires
                distance(v0, c) == 0,
        ;
        lemma_nearest_is(0, den, 0);
    }
}

/// How far into a segment a threshold is met, in plain numbers: nowhere on a level one; at its
/// start if the signal runs away from the threshold or starts on it going down; at its end if it
/// comes no farther than the threshold; and else at the nearest whole nanosecond.
pub proof fn offsets_are_the_nearest_nanoseconds(span: Time, v0: i64, v1: i64, c: i64, n: int)
    requires
        0 <= n <= span,
    ensures
        v0 == v1 ==> i64::offset_spec(span, v0, v1, c) is None,
        v0 < v1 && c <= v0 ==> i64::offset_spec(span, v0, v1, c) == Some(0 as Time),
        v1 < v0 && v0 < c ==> i64::offset_spec(span, v0, v1, c) == Some(0 as Time),
        v0 < v1 && v1 <= c ==> i64::offset_spec(span, v0, v1, c) == Some(span),
        v1 < v0 && c <= v1 ==> i64::offset_spec(span, v0, v1, c) == Some(span),
        ({
            let miss = 2 * (n * (v1 - v0) - span * (c - v0));
            let rise = if v0 < v1 {
                v1 - v0
            } else {
                v0 - v1
            };
            (v0 < c < v1 || v1 < c <= v0) && (-rise < miss < rise || ((miss == rise || miss
                == -rise) && n % 2 == 0)) ==> i64::offset_spec(span, v0, v1, c) == Some(n as Time)
        }),
{
    let up = v0 < v1;
    let num = if up { c - v0 } else { v0 - c };
    let den = if up { v1 - v0 } else { v0 - v1 };
    let miss = 2 * (n * (v1 - v0) - span * (c - v0));
    if v0 < c < v1 || v1 < c <= v0 {
        assert(distance(v0, c) == num && distance(v0, v1) == den);
        assert(up ==> miss == 2 * (n * den - span * num)) by (nonlinear_arith)
            requires
                up ==> num == c - v0 && den == v1 - v0,
                miss == 2 * (n * (v1 - v0) - span * (c - v0)),
        ;
        assert(!up ==> miss == -(2 * (n * den - span * num))) by (nonlinear_arith)
            requires
                !up ==> num == v0 - c && den == v0 - v1,
                miss == 2 * (n * (v1 - v0) - span * (c - v0)),
        ;
        if -den < miss < den || ((miss == den || miss == -den) && n % 2 == 0) {
            lemma_nearest_is(span * num, den, n);
        }
    }
}

/// No crossing is reported between samples that are not in time order, and of two nanoseconds half
/// away from it not the one an odd number of nanoseconds into the segment.
pub proof fn no_crossing_is_reported_out_of_order(
    t0: Time,
    v0: i64,
    t1: Time,
    v1: i64,
    c: i64,
    t: Time,
)
    ensures
        t1 <= t0 ==> crossing(t0, v0, t1, v1, c) is None,
        ({
            let miss = 2 * ((t - t0) * (v1 - v0) - (t1 - t0) * (c - v0));
            t0 < t < t1 && (miss == v1 - v0 || miss == v0 - v1) && (t - t0) % 2 != 0 && v0 != v1
                ==> crossing(t0, v0, t1, v1, c) != Some(t)
        }),
{
    let at = t - t0;
    let span = t1 - t0;
    let up = v0 < v1;
    let num = if up { c - v0 } else { v0 - c };
    let den = if up { v1 - v0 } else { v0 - v1 };
    let miss = 2 * (at * (v1 - v0) - span * (c - v0));
    if t0 < t < t1 && v0 != v1 && (miss == den || miss == -den) && at % 2 != 0 {
        let off = 2 * (at * den - span * num);
        assert(up ==> miss == off) by (nonlinear_arith)
            requires
                up ==> num == c - v0 && den == v1 - v0,
                miss == 2 * (at * (v1 - v0) - span * (c - v0)),
                off == 2 * (at * den - span * num),
        ;
        assert(!up ==> miss == -off) by (nonlinear_arith)
            requires
                !up ==> num == v0 - c && den == v0 - v1,
                miss == 2 * (at * (v1 - v0) - span * (c - v0)),
                off == 2 * (at * den - span * num),
        ;
        let n = if off == den { at - 1 } else { at + 1 };
        assert(2 * (n * den - span * num) == -den || 2 * (n * den - span * num) == den) by (
        nonlinear_arith)
            requires
                off == 2 * (at * den - span * num),
                off == den || off == -den,
                n == if off == den { at - 1 } else { at + 1 },
        ;
        assert(n % 2 == 0);
        if v0 < c < v1 || v1 < c < v0 {
            assert(distance(v0, c) == num && distance(v0, v1) == den);
            lemma_nearest_is(span * num, den, n);
            assert(i64::offset_spec((t1 - t0) as Time, v0, v1, c) == Some(n as Time));
            assert(0 <= n <= span);
        } else {
            crossings_are_the_nearest_nanoseconds(t0, v0, t1, v1, c, t);
        }
    }
}

} // verus!
