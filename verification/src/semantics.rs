//! The domains a formula can be evaluated in, and the values signals can take.

use crate::text::{decimal_text, push_decimal, Text};
use crate::time::{Time, MAX_TIME};
use vstd::prelude::*;
use vstd::string::*;

verus! {

/// A domain of verdicts.
pub trait RobustnessSemantics: Copy {
    spec fn and_spec(l: Self, r: Self) -> Self;

    spec fn or_spec(l: Self, r: Self) -> Self;

    spec fn true_spec() -> Self;

    spec fn false_spec() -> Self;

    spec fn unknown_spec() -> Self;

    spec fn final_spec(v: Self) -> bool;

    spec fn same_spec(a: Self, b: Self) -> bool;

    /// Conjunction.
    fn and(l: Self, r: Self) -> (res: Self)
        ensures
            res == Self::and_spec(l, r),
    ;

    /// Disjunction.
    fn or(l: Self, r: Self) -> (res: Self)
        ensures
            res == Self::or_spec(l, r),
    ;

    /// The verdict that nothing can improve.
    fn atomic_true() -> (res: Self)
        ensures
            res == Self::true_spec(),
    ;

    /// The verdict that nothing can make worse.
    fn atomic_false() -> (res: Self)
        ensures
            res == Self::false_spec(),
    ;

    /// The verdict where nothing is known yet.
    fn unknown() -> (res: Self)
        ensures
            res == Self::unknown_spec(),
    ;

    /// Whether later samples leave this verdict as it is.
    fn is_final(&self) -> (res: bool)
        ensures
            res == Self::final_spec(*self),
    ;

    /// Equality of verdicts.
    fn same(&self, other: &Self) -> (res: bool)
        ensures
            res == Self::same_spec(*self, *other),
    ;
}

/// A kind of sample that thresholds can be put on.
pub trait SignalValue: Copy {
    spec fn greater_spec(a: Self, b: Self) -> bool;

    spec fn equal_spec(a: Self, b: Self) -> bool;

    spec fn offset_spec(span: Time, v0: Self, v1: Self, c: Self) -> Option<Time>;

    spec fn text_spec(v: Self) -> Text;

    fn greater(a: Self, b: Self) -> (res: bool)
        ensures
            res == Self::greater_spec(a, b),
    ;

    fn equal(a: Self, b: Self) -> (res: bool)
        ensures
            res == Self::equal_spec(a, b),
    ;

    /// How far into a straight segment of length `span` from `v0` to `v1` the value `c` is
    /// met, if the segment is not flat.
    fn crossing_offset(span: Time, v0: Self, v1: Self, c: Self) -> (res: Option<Time>)
        requires
            span <= MAX_TIME,
        ensures
            res == Self::offset_spec(span, v0, v1, c),
            res matches Some(offset) ==> offset <= MAX_TIME,
    ;

    /// Appends the value in the notation of formulas.
    fn push_text(&self, text: &mut String)
        ensures
            final(text)@ == old(text)@ + Self::text_spec(*self),
    ;
}

/// A domain that predicates over values `V` can be evaluated in.
pub trait AtomicSemantics<V: SignalValue>: RobustnessSemantics {
    spec fn greater_than_spec(value: V, c: V) -> Self;

    spec fn less_than_spec(value: V, c: V) -> Self;

    /// The verdict of `value > c`.
    fn atomic_greater_than(value: V, c: V) -> (res: Self)
        ensures
            res == Self::greater_than_spec(value, c),
    ;

    /// The verdict of `value < c`.
    fn atomic_less_than(value: V, c: V) -> (res: Self)
        ensures
            res == Self::less_than_spec(value, c),
    ;
}

/// What holds of three elements of a lattice: conjunction and disjunction are commutative and
/// associative, and each absorbs the other.
pub open spec fn lattice_laws_at<Y: RobustnessSemantics>(a: Y, b: Y, c: Y) -> bool {
    &&& Y::and_spec(a, b) == Y::and_spec(b, a)
    &&& Y::or_spec(a, b) == Y::or_spec(b, a)
    &&& Y::and_spec(a, Y::and_spec(b, c)) == Y::and_spec(Y::and_spec(a, b), c)
    &&& Y::or_spec(a, Y::or_spec(b, c)) == Y::or_spec(Y::or_spec(a, b), c)
    &&& Y::and_spec(a, Y::or_spec(a, b)) == a
    &&& Y::or_spec(a, Y::and_spec(a, b)) == a
}

/// Conjunction and disjunction form a lattice.
pub open spec fn is_lattice<Y: RobustnessSemantics>() -> bool {
    forall|a: Y, b: Y, c: Y| #[trigger] lattice_laws_at(a, b, c)
}

/// `a` is no better than `b`.
pub open spec fn at_most<Y: RobustnessSemantics>(a: Y, b: Y) -> bool {
    Y::or_spec(a, b) == b
}

/// False is the worst verdict and true the best one, and verdicts that count as the same are.
pub open spec fn is_bounded<Y: RobustnessSemantics>() -> bool {
    &&& forall|a: Y| #[trigger] Y::and_spec(Y::false_spec(), a) == Y::false_spec()
    &&& forall|a: Y| #[trigger] Y::or_spec(Y::true_spec(), a) == Y::true_spec()
    &&& forall|a: Y, b: Y| #[trigger] Y::same_spec(a, b) <==> a == b
}

impl RobustnessSemantics for bool {
    open spec fn and_spec(l: bool, r: bool) -> bool {
        l && r
    }

    open spec fn or_spec(l: bool, r: bool) -> bool {
        l || r
    }

    open spec fn true_spec() -> bool {
        true
    }

    open spec fn false_spec() -> bool {
        false
    }

    open spec fn unknown_spec() -> bool {
        false
    }

    open spec fn final_spec(v: bool) -> bool {
        true
    }

    open spec fn same_spec(a: bool, b: bool) -> bool {
        a == b
    }

    fn and(l: bool, r: bool) -> (res: bool) {
        l && r
    }

    fn or(l: bool, r: bool) -> (res: bool) {
        l || r
    }

    fn atomic_true() -> (res: bool) {
        true
    }

    fn atomic_false() -> (res: bool) {
        false
    }

    fn unknown() -> (res: bool) {
        false
    }

    fn is_final(&self) -> (res: bool) {
        true
    }

    fn same(&self, other: &bool) -> (res: bool) {
        *self == *other
    }
}

impl<V: SignalValue> AtomicSemantics<V> for bool {
    open spec fn greater_than_spec(value: V, c: V) -> bool {
        V::greater_spec(value, c)
    }

    open spec fn less_than_spec(value: V, c: V) -> bool {
        V::greater_spec(c, value)
    }

    fn atomic_greater_than(value: V, c: V) -> (res: bool) {
        V::greater(value, c)
    }

    fn atomic_less_than(value: V, c: V) -> (res: bool) {
        V::greater(c, value)
    }
}

/// How far a whole-number signal is above a threshold; negative where it is below.
#[derive(Debug, Clone, Copy, PartialEq, Eq, Structural)]
pub enum Robustness {
    NegInfinity,
    Finite(i128),
    Infinity,
}

impl Robustness {
    pub open spec fn le(self, other: Robustness) -> bool {
        match (self, other) {
            (Robustness::NegInfinity, _) => true,
            (_, Robustness::Infinity) => true,
            (Robustness::Finite(a), Robustness::Finite(b)) => a <= b,
            _ => false,
        }
    }

    pub open spec fn spec_min(self, other: Robustness) -> Robustness {
        if self.le(other) {
            self
        } else {
            other
        }
    }

    pub open spec fn spec_max(self, other: Robustness) -> Robustness {
        if self.le(other) {
            other
        } else {
            self
        }
    }

    /// Whether this verdict is no better than `other`.
    pub fn at_most(self, other: Robustness) -> (res: bool)
        ensures
            res == self.le(other),
    {
        match (self, other) {
            (Robustness::NegInfinity, _) => true,
            (_, Robustness::Infinity) => true,
            (Robustness::Finite(a), Robustness::Finite(b)) => a <= b,
            _ => false,
        }
    }

    pub fn min(self, other: Robustness) -> (res: Robustness)
        ensures
            res == self.spec_min(other),
    {
        if self.at_most(other) {
            self
        } else {
            other
        }
    }

    pub fn max(self, other: Robustness) -> (res: Robustness)
        ensures
            res == self.spec_max(other),
    {
        if self.at_most(other) {
            other
        } else {
            self
        }
    }
}

impl RobustnessSemantics for Robustness {
    open spec fn and_spec(l: Robustness, r: Robustness) -> Robustness {
        l.spec_min(r)
    }

    open spec fn or_spec(l: Robustness, r: Robustness) -> Robustness {
        l.spec_max(r)
    }

    open spec fn true_spec() -> Robustness {
        Robustness::Infinity
    }

    open spec fn false_spec() -> Robustness {
        Robustness::NegInfinity
    }

    open spec fn unknown_spec() -> Robustness {
        Robustness::NegInfinity
    }

    open spec fn final_spec(v: Robustness) -> bool {
        true
    }

    open spec fn same_spec(a: Robustness, b: Robustness) -> bool {
        a == b
    }

    fn and(l: Robustness, r: Robustness) -> (res: Robustness) {
        l.min(r)
    }

    fn or(l: Robustness, r: Robustness) -> (res: Robustness) {
        l.max(r)
    }

    fn atomic_true() -> (res: Robustness) {
        Robustness::Infinity
    }

    fn atomic_false() -> (res: Robustness) {
        Robustness::NegInfinity
    }

    fn unknown() -> (res: Robustness) {
        Robustness::NegInfinity
    }

    fn is_final(&self) -> (res: bool) {
        true
    }

    fn same(&self, other: &Robustness) -> (res: bool) {
        *self == *other
    }
}

impl AtomicSemantics<i64> for Robustness {
    open spec fn greater_than_spec(value: i64, c: i64) -> Robustness {
        Robustness::Finite((value - c) as i128)
    }

    open spec fn less_than_spec(value: i64, c: i64) -> Robustness {
        Robustness::Finite((c - value) as i128)
    }

    fn atomic_greater_than(value: i64, c: i64) -> (res: Robustness)
        ensures
            res matches Robustness::Finite(d) && d == value - c,
    {
        Robustness::Finite(value as i128 - c as i128)
    }

    fn atomic_less_than(value: i64, c: i64) -> (res: Robustness)
        ensures
            res matches Robustness::Finite(d) && d == c - value,
    {
        Robustness::Finite(c as i128 - value as i128)
    }
}

/// The verdicts still possible, from the lowest to the highest.
#[derive(Debug, Clone, Copy, PartialEq, Eq, Structural)]
pub struct RobustnessInterval(pub Robustness, pub Robustness);

impl RobustnessInterval {
    /// Whether `v` is still possible.
    pub open spec fn contains(self, v: Robustness) -> bool {
        self.0.le(v) && v.le(self.1)
    }

    /// Whether everything possible here is possible in `other` too.
    pub open spec fn within(self, other: RobustnessInterval) -> bool {
        other.0.le(self.0) && self.1.le(other.1)
    }
}

impl RobustnessSemantics for RobustnessInterval {
    open spec fn and_spec(l: RobustnessInterval, r: RobustnessInterval) -> RobustnessInterval {
        RobustnessInterval(l.0.spec_min(r.0), l.1.spec_min(r.1))
    }

    open spec fn or_spec(l: RobustnessInterval, r: RobustnessInterval) -> RobustnessInterval {
        RobustnessInterval(l.0.spec_max(r.0), l.1.spec_max(r.1))
    }

    open spec fn true_spec() -> RobustnessInterval {
        RobustnessInterval(Robustness::Infinity, Robustness::Infinity)
    }

    open spec fn false_spec() -> RobustnessInterval {
        RobustnessInterval(Robustness::NegInfinity, Robustness::NegInfinity)
    }

    open spec fn unknown_spec() -> RobustnessInterval {
        RobustnessInterval(Robustness::NegInfinity, Robustness::Infinity)
    }

    open spec fn final_spec(v: RobustnessInterval) -> bool {
        v.0 == v.1
    }

    open spec fn same_spec(a: RobustnessInterval, b: RobustnessInterval) -> bool {
        a == b
    }

    fn and(l: RobustnessInterval, r: RobustnessInterval) -> (res: RobustnessInterval) {
        RobustnessInterval(l.0.min(r.0), l.1.min(r.1))
    }

    fn or(l: RobustnessInterval, r: RobustnessInterval) -> (res: RobustnessInterval) {
        RobustnessInterval(l.0.max(r.0), l.1.max(r.1))
    }

    fn atomic_true() -> (res: RobustnessInterval) {
        RobustnessInterval(Robustness::Infinity, Robustness::Infinity)
    }

    fn atomic_false() -> (res: RobustnessInterval) {
        RobustnessInterval(Robustness::NegInfinity, Robustness::NegInfinity)
    }

    fn unknown() -> (res: RobustnessInterval) {
        RobustnessInterval(Robustness::NegInfinity, Robustness::Infinity)
    }

    fn is_final(&self) -> (res: bool) {
        self.0 == self.1
    }

    fn same(&self, other: &RobustnessInterval) -> (res: bool) {
        *self == *other
    }
}

impl AtomicSemantics<i64> for RobustnessInterval {
    open spec fn greater_than_spec(value: i64, c: i64) -> RobustnessInterval {
        let v = <Robustness as AtomicSemantics<i64>>::greater_than_spec(value, c);
        RobustnessInterval(v, v)
    }

    open spec fn less_than_spec(value: i64, c: i64) -> RobustnessInterval {
        let v = <Robustness as AtomicSemantics<i64>>::less_than_spec(value, c);
        RobustnessInterval(v, v)
    }

    fn atomic_greater_than(value: i64, c: i64) -> (res: RobustnessInterval)
        ensures
            res.0 matches Robustness::Finite(d) && d == value - c,
            res.1 == res.0,
    {
        let v: Robustness = <Robustness as AtomicSemantics<i64>>::atomic_greater_than(value, c);
        RobustnessInterval(v, v)
    }

    fn atomic_less_than(value: i64, c: i64) -> (res: RobustnessInterval)
        ensures
            res.0 matches Robustness::Finite(d) && d == c - value,
            res.1 == res.0,
    {
        let v: Robustness = <Robustness as AtomicSemantics<i64>>::atomic_less_than(value, c);
        RobustnessInterval(v, v)
    }
}

/// Truth values form a bounded lattice.
pub proof fn bool_is_lattice()
    ensures
        is_lattice::<bool>(),
        is_bounded::<bool>(),
{
}

/// Robustness values form a bounded lattice.
pub proof fn robustness_is_lattice()
    ensures
        is_lattice::<Robustness>(),
        is_bounded::<Robustness>(),
{
}

/// Robustness intervals form a bounded lattice.
pub proof fn interval_is_lattice()
    ensures
        is_lattice::<RobustnessInterval>(),
        is_bounded::<RobustnessInterval>(),
{
}

/// Combining intervals that bracket two verdicts brackets the combined verdict.
pub proof fn interval_brackets_combination(
    l: RobustnessInterval,
    r: RobustnessInterval,
    a: Robustness,
    b: Robustness,
)
    requires
        l.contains(a),
        r.contains(b),
    ensures
        RobustnessInterval::and_spec(l, r).contains(Robustness::and_spec(a, b)),
        RobustnessInterval::or_spec(l, r).contains(Robustness::or_spec(a, b)),
        RobustnessInterval::unknown_spec().contains(a),
        RobustnessInterval::true_spec().contains(Robustness::true_spec()),
        RobustnessInterval::false_spec().contains(Robustness::false_spec()),
{
}

/// Narrowing the operands can only narrow the combination.
pub proof fn interval_refinement_is_monotone(
    l: RobustnessInterval,
    r: RobustnessInterval,
    l2: RobustnessInterval,
    r2: RobustnessInterval,
)
    requires
        l2.within(l),
        r2.within(r),
    ensures
        RobustnessInterval::and_spec(l2, r2).within(RobustnessInterval::and_spec(l, r)),
        RobustnessInterval::or_spec(l2, r2).within(RobustnessInterval::or_spec(l, r)),
        l.within(RobustnessInterval::unknown_spec()),
{
}

/// The distance between two samples.
pub open spec fn distance(a: i64, b: i64) -> nat {
    if a <= b {
        (b - a) as nat
    } else {
        (a - b) as nat
    }
}

/// `num / den` rounded to the nearest whole number, halfway to the even one.
pub open spec fn nearest(num: int, den: int) -> int {
    let whole = num / den;
    let rest = num % den;
    if 2 * rest < den || (2 * rest == den && whole % 2 == 0) {
        whole
    } else {
        whole + 1
    }
}

impl SignalValue for i64 {
    open spec fn greater_spec(a: i64, b: i64) -> bool {
        a > b
    }

    open spec fn equal_spec(a: i64, b: i64) -> bool {
        a == b
    }

    /// The exact crossing rounded to the nearest nanosecond, clamped to the segment.
    open spec fn offset_spec(span: Time, v0: i64, v1: i64, c: i64) -> Option<Time> {
        if v0 == v1 {
            None
        } else if (v0 < v1) != (v0 < c) {
            Some(0)
        } else if distance(v0, c) >= distance(v0, v1) {
            Some(span)
        } else {
            Some(nearest(span * distance(v0, c), distance(v0, v1) as int) as Time)
        }
    }

    open spec fn text_spec(v: i64) -> Seq<char> {
        if v < 0 {
            "-"@ + decimal_text((-(v as int)) as nat)
        } else {
            decimal_text(v as nat)
        }
    }

    fn greater(a: i64, b: i64) -> (res: bool) {
        a > b
    }

    fn equal(a: i64, b: i64) -> (res: bool) {
        a == b
    }

    fn crossing_offset(span: Time, v0: i64, v1: i64, c: i64) -> (res: Option<Time>) {
        if v0 == v1 {
            return None;
        }
        if (v0 < v1) != (v0 < c) {
            return Some(0);
        }
        let num: u128 = if v0 <= c {
            (c as i128 - v0 as i128) as u128
        } else {
            (v0 as i128 - c as i128) as u128
        };
        let den: u128 = if v0 <= v1 {
            (v1 as i128 - v0 as i128) as u128
        } else {
            (v0 as i128 - v1 as i128) as u128
        };
        if num >= den {
            return Some(span);
        }
        let q: u128 = span / den;
        let r: u128 = span % den;
        proof {
            lemma_scaled_division(span as int, num as int, den as int);
        }
        let whole: u128 = q * num + (r * num) / den;
        let rest: u128 = (r * num) % den;
        if 2 * rest < den || (2 * rest == den && whole % 2 == 0) {
            Some(whole)
        } else {
            Some(whole + 1)
        }
    }

    fn push_text(&self, text: &mut String) {
        let v: i64 = *self;
        if v < 0 {
            text.append("-");
            push_decimal(text, (-(v as i128)) as u128);
            assert(old(text)@ + "-"@ + decimal_text((-(v as int)) as nat) =~= old(text)@ + (
            "-"@ + decimal_text((-(v as int)) as nat)));
        } else {
            push_decimal(text, v as u128);
        }
    }
}

/// `span * num / den` without the large product.
proof fn lemma_scaled_division(span: int, num: int, den: int)
    requires
        0 <= span,
        0 <= num < den,
        den <= 0xffff_ffff_ffff_ffff,
    ensures
        (span / den) * num + ((span % den) * num) / den == span * num / den,
        ((span % den) * num) % den == (span * num) % den,
        0 <= (span * num) % den < den,
        0 <= (span / den) * num <= span,
        0 <= (span % den) * num <= 0xffff_ffff_ffff_ffff * 0xffff_ffff_ffff_ffff,
        0 <= span * num / den <= span,
        (span * num) % den != 0 ==> span * num / den < span,
{
    let q = span / den;
    let r = span % den;
    vstd::arithmetic::div_mod::lemma_fundamental_div_mod(span, den);
    assert(span * num == (q * num) * den + r * num) by (nonlinear_arith)
        requires
            span == den * q + r,
    ;
    assert(0 <= r < den && q >= 0) by (nonlinear_arith)
        requires
            r == span % den,
            q == span / den,
            span >= 0,
            den > 0,
    ;
    assert(0 <= r * num <= 0xffff_ffff_ffff_ffff * 0xffff_ffff_ffff_ffff) by (nonlinear_arith)
        requires
            0 <= r < den,
            0 <= num < den,
            den <= 0xffff_ffff_ffff_ffff,
    ;
    vstd::arithmetic::div_mod::lemma_hoist_over_denominator(r * num, q * num, den as nat);
    vstd::arithmetic::div_mod::lemma_mod_multiples_vanish(q * num, r * num, den);
    assert(den * (q * num) + r * num == span * num) by (nonlinear_arith)
        requires
            span * num == (q * num) * den + r * num,
    ;
    let whole = span * num / den;
    let rest = (span * num) % den;
    vstd::arithmetic::div_mod::lemma_fundamental_div_mod(span * num, den);
    assert(rest != 0 ==> whole < span) by (nonlinear_arith)
        requires
            span * num == den * whole + rest,
            0 <= rest < den,
            0 <= num < den,
            span >= 0,
    ;
    assert(0 <= q * num <= span && 0 <= span * num / den <= span) by (nonlinear_arith)
        requires
            span == den * q + r,
            q >= 0,
            0 <= r,
            0 <= num < den,
            span >= 0,
    ;
}

} // verus!
