//! How names are ordered and numbers written, how lists of names are read, and how memory is
//! counted.

use crate::memory::{countable, room_for};
use crate::names::{all_distinct, concerns, name_set};
use crate::semantics::SignalValue;
use crate::synchronizer::defines_from_zero;
use crate::ring_buffer::Step;
use crate::text::{bytes_before, decimal_text, digit_text, fraction_text, name_before};
use crate::text::seconds_text;
use crate::time::{Time, FOREVER};
use crate::variables::bindings_text;
use vstd::arithmetic::power::{lemma_pow0, lemma_pow_adds, lemma_pow1, lemma_pow_positive, pow};
use vstd::prelude::*;
use vstd::utf8::encode_utf8;

verus! {

/// Names are ordered as their bytes are: by the first in which they differ, and the shorter one
/// first if it is the beginning of the other. `k` is how many bytes they have in common.
pub proof fn bytes_are_ordered_by_the_first_difference(a: Seq<u8>, b: Seq<u8>) -> (k: int)
    ensures
        0 <= k <= a.len() && k <= b.len(),
        forall|i: int| 0 <= i < k ==> a[i] == b[i],
        k < a.len() && k < b.len() ==> a[k] != b[k],
        bytes_before(a, b) <==> k < b.len() && (k == a.len() || a[k] < b[k]),
    decreases a.len(),
{
    if a.len() == 0 || b.len() == 0 || a[0] != b[0] {
        0
    } else {
        let n = bytes_are_ordered_by_the_first_difference(a.skip(1), b.skip(1));
        assert forall|i: int| 0 <= i < n + 1 implies a[i] == b[i] by {
            if i > 0 {
                assert(a.skip(1)[i - 1] == a[i]);
                assert(b.skip(1)[i - 1] == b[i]);
            }
        }
        n + 1
    }
}

/// Initial values are given in the order of their names, each at time zero and held until a
/// later value replaces it: those that are owed, and no others.
pub proof fn initial_values_come_in_name_order<T>(
    steps: Seq<Step<T>>,
    owed: Map<Seq<char>, T>,
    i: int,
    j: int,
)
    requires
        defines_from_zero(steps, owed),
        0 <= i < j < steps.len(),
    ensures
        ({
            let a = encode_utf8(steps[i].signal@);
            let b = encode_utf8(steps[j].signal@);
            exists|k: int|
                {
                    &&& 0 <= k <= a.len() && k < b.len()
                    &&& #[trigger] a.take(k) == b.take(k)
                    &&& k == a.len() || a[k] < b[k]
                }
        }),
        forall|m: int|
            0 <= m < steps.len() ==> {
                let step = #[trigger] steps[m];
                &&& owed.contains_key(step.signal@)
                &&& step.value == owed[step.signal@]
                &&& step.timestamp == 0
                &&& step.held_until == FOREVER
            },
{
    let a = encode_utf8(steps[i].signal@);
    let b = encode_utf8(steps[j].signal@);
    assert(name_before(steps[i].signal@, steps[j].signal@));
    let k = bytes_are_ordered_by_the_first_difference(a, b);
    assert(a.take(k) =~= b.take(k));
}

/// What a decimal digit counts.
pub open spec fn digit_value(c: char) -> int {
    (c as int) - ('0' as int)
}

/// What a string of decimal digits counts.
pub open spec fn value_of(text: Seq<char>) -> int
    decreases text.len(),
{
    if text.len() == 0 {
        0
    } else {
        10 * value_of(text.drop_last()) + digit_value(text.last())
    }
}

/// Nothing but decimal digits.
pub open spec fn is_digits(text: Seq<char>) -> bool {
    forall|i: int| 0 <= i < text.len() ==> '0' <= #[trigger] text[i] <= '9'
}

/// A digit is written as the character that counts it.
pub proof fn digits_count_themselves(d: nat)
    requires
        d < 10,
    ensures
        digit_text(d).len() == 1,
        digit_value(digit_text(d)[0]) == d,
        is_digits(digit_text(d)),
{
    reveal_strlit("0");
    reveal_strlit("1");
    reveal_strlit("2");
    reveal_strlit("3");
    reveal_strlit("4");
    reveal_strlit("5");
    reveal_strlit("6");
    reveal_strlit("7");
    reveal_strlit("8");
    reveal_strlit("9");
}

/// A number is written in decimal digits that count it, without leading zeros.
pub proof fn decimals_count_their_number(n: nat)
    ensures
        decimal_text(n).len() > 0,
        is_digits(decimal_text(n)),
        value_of(decimal_text(n)) == n,
        decimal_text(n).len() > 1 ==> decimal_text(n)[0] != '0',
        n > 0 ==> decimal_text(n)[0] != '0',
    decreases n,
{
    reveal_with_fuel(value_of, 2);
    if n < 10 {
        digits_count_themselves(n);
        assert(digit_text(n).drop_last() =~= Seq::empty());
    } else {
        decimals_count_their_number(n / 10);
        digits_count_themselves(n % 10);
        let head = decimal_text(n / 10);
        let last = digit_text(n % 10);
        assert((head + last).drop_last() =~= head);
        assert((head + last).last() == last[0]);
    }
}

/// A whole number is written with its digits, and a sign if it is negative.
pub proof fn whole_numbers_are_written_with_their_sign(v: i64)
    ensures
        ({
            let text = i64::text_spec(v);
            &&& v >= 0 ==> is_digits(text) && value_of(text) == v && (v > 0 ==> text[0] != '0')
            &&& v < 0 ==> text[0] == '-' && is_digits(text.skip(1)) && value_of(text.skip(1))
                == -v && text[1] != '0'
            &&& v == 0 ==> text.len() == 1
        }),
{
    reveal_strlit("-");
    if v >= 0 {
        decimals_count_their_number(v as nat);
        if v == 0 {
            digits_count_themselves(0);
        }
    } else {
        decimals_count_their_number((-(v as int)) as nat);
        assert(i64::text_spec(v).skip(1) =~= decimal_text((-(v as int)) as nat));
    }
}

proof fn lemma_value_cons(c: char, rest: Seq<char>)
    ensures
        value_of(seq![c] + rest) == digit_value(c) * pow(10, rest.len()) + value_of(rest),
    decreases rest.len(),
{
    let all = seq![c] + rest;
    if rest.len() == 0 {
        reveal_with_fuel(value_of, 2);
        lemma_pow0(10);
        assert(all.drop_last() =~= Seq::empty());
        assert(all.last() == c);
    } else {
        let p = rest.drop_last();
        lemma_value_cons(c, p);
        assert(all.drop_last() =~= seq![c] + p);
        assert(all.last() == rest.last());
        lemma_pow1(10);
        lemma_pow_adds(10, p.len(), 1);
        let d = digit_value(c);
        let a = pow(10, p.len());
        assert(10 * (d * a) == d * (a * 10)) by (nonlinear_arith);
    }
}

proof fn lemma_fraction(f: nat, k: nat)
    requires
        f < pow(10, k + 1),
        f > 0,
    ensures
        ({
            let text = fraction_text(f, pow(10, k) as nat);
            &&& 0 < text.len() <= k + 1
            &&& is_digits(text)
            &&& text.last() != '0'
            &&& value_of(text) * pow(10, (k + 1 - text.len()) as nat) == f
        }),
    decreases k,
{
    lemma_pow_positive(10, k);
    lemma_pow1(10);
    lemma_pow0(10);
    lemma_pow_adds(10, k, 1);
    let unit = pow(10, k) as nat;
    let d = f / unit;
    let r = f % unit;
    assert(pow(10, k + 1) == unit * 10);
    vstd::arithmetic::div_mod::lemma_fundamental_div_mod(f as int, unit as int);
    assert(d < 10 && r < unit) by (nonlinear_arith)
        requires
            f < unit * 10,
            unit > 0,
            d == f / unit,
            r == f % unit,
    ;
    digits_count_themselves(d);
    let head = digit_text(d);
    let rest = fraction_text(r, unit / 10);
    let text = fraction_text(f, unit);
    assert(text == head + rest);
    assert(head =~= seq![head[0]]);
    lemma_value_cons(head[0], rest);
    if r == 0 {
        assert(rest =~= Seq::empty());
        assert(text =~= head);
        assert(value_of(rest) == 0);
        assert(unit * d == f);
        assert(value_of(text) == d);
        assert(d * pow(10, k) == f) by (nonlinear_arith)
            requires
                unit * d == f,
                unit == pow(10, k),
        ;
        assert(d > 0) by (nonlinear_arith)
            requires
                unit * d == f,
                f > 0,
                d >= 0,
        ;
        assert(text.last() == head[0]);
        assert((k + 1 - text.len()) as nat == k);
    } else {
        assert(k > 0) by {
            if k == 0 {
                assert(unit == 1);
                assert(r == 0);
            }
        }
        let j = (k - 1) as nat;
        lemma_pow_adds(10, j, 1);
        assert(unit == pow(10, j) * 10);
        assert(unit / 10 == pow(10, j));
        lemma_fraction(r, j);
        let n = rest.len();
        let m = (k - n) as nat;
        assert((j + 1 - n) as nat == m);
        lemma_pow_adds(10, n, m);
        assert(n + m == k);
        let v = value_of(rest);
        let a = pow(10, n);
        let b = pow(10, m);
        assert((d * a + v) * b == d * (a * b) + v * b) by (nonlinear_arith);
        assert(d * unit == unit * d) by (nonlinear_arith);
        assert((k + 1 - text.len()) as nat == m);
        assert(text.last() == rest.last());
        assert forall|i: int| 0 <= i < text.len() implies '0' <= #[trigger] text[i] <= '9' by {
            if i > 0 {
                assert(text[i] == rest[i - 1]);
            }
        }
    }
}

/// A time is written in seconds: the whole ones in decimal, and if there is more, a point and as
/// many digits as that takes and no more, nine at most. Here `n` is how many.
pub proof fn times_are_written_in_seconds(t: Time) -> (n: int)
    ensures
        ({
            let text = seconds_text(t);
            let whole = decimal_text((t / 1_000_000_000) as nat);
            let nanos = t % 1_000_000_000;
            &&& 0 <= n <= 9
            &&& n == 0 <==> nanos == 0
            &&& n == 0 ==> text == whole
            &&& n > 0 ==> {
                let fraction = text.skip(whole.len() as int + 1);
                &&& text.len() == whole.len() + 1 + n
                &&& text.take(whole.len() as int) == whole
                &&& text[whole.len() as int] == '.'
                &&& is_digits(fraction)
                &&& fraction.last() != '0'
                &&& value_of(fraction) * pow(10, (9 - n) as nat) == nanos
            }
        }),
{
    let text = seconds_text(t);
    let whole = decimal_text((t / 1_000_000_000) as nat);
    let nanos = t % 1_000_000_000;
    if nanos == 0 {
        0
    } else {
        reveal_strlit(".");
        lemma_ten_to_the_eighth();
        lemma_fraction(nanos as nat, 8);
        let fraction = fraction_text(nanos as nat, 100_000_000);
        assert(text.skip(whole.len() as int + 1) =~= fraction);
        assert(text.take(whole.len() as int) =~= whole);
        fraction.len() as int
    }
}

proof fn lemma_ten_to_the_eighth()
    ensures
        pow(10, 8) == 100_000_000,
        pow(10, 9) == 1_000_000_000,
{
    lemma_pow1(10);
    lemma_pow_adds(10, 1, 1);
    assert(pow(10, 2) == 100);
    lemma_pow_adds(10, 2, 2);
    assert(pow(10, 4) == 100 * 100);
    lemma_pow_adds(10, 4, 4);
    assert(pow(10, 8) == 10_000 * 10_000);
    lemma_pow_adds(10, 8, 1);
}

/// A list names what stands in it, and a sample concerns an operand that reads its signal, or of
/// which it is not known what it reads.
pub proof fn lists_name_what_stands_in_them(
    list: Seq<&'static str>,
    name: Seq<char>,
    names: Set<Seq<char>>,
)
    ensures
        name_set(list).contains(name) <==> exists|i: int|
            0 <= i < list.len() && (#[trigger] list[i])@ == name,
        all_distinct(list) <==> forall|i: int, j: int|
            0 <= i < list.len() && 0 <= j < list.len() && (#[trigger] list[i])@ == (
            #[trigger] list[j])@ ==> i == j,
        concerns(names, name) <==> names.contains(name) || forall|n: Seq<char>|
            !(#[trigger] names.contains(n)),
{
    if forall|n: Seq<char>| !(#[trigger] names.contains(n)) {
        assert(names =~= Set::empty());
    }
}

/// Bindings are written one after the other, each with its name and its value.
pub proof fn bindings_are_written_in_order<V: SignalValue>(
    names: Seq<Seq<char>>,
    values: Map<Seq<char>, V>,
    name: Seq<char>,
)
    ensures
        bindings_text(Seq::empty(), values).len() == 0,
        bindings_text(names.push(name), values) == (if names.len() == 0 {
            name + seq![':', ' '] + V::text_spec(values[name])
        } else {
            bindings_text(names, values) + seq![',', ' '] + (name + seq![':', ' '] + V::text_spec(
                values[name],
            ))
        }),
{
    reveal_strlit(": ");
    reveal_strlit(", ");
    assert(": "@ =~= seq![':', ' ']);
    assert(", "@ =~= seq![',', ' ']);
    assert(names.push(name).drop_last() =~= names);
}

/// Memory is counted exactly as far as a counter goes, and no further. What is reserved for a list
/// has room for it.
pub proof fn memory_is_counted_as_far_as_it_goes(n: int, bytes: usize, len: nat, size: nat)
    ensures
        0 <= n <= usize::MAX ==> countable(n) == n,
        n > usize::MAX ==> countable(n) == usize::MAX,
        room_for(bytes, len, size) ==> len * size <= bytes <= isize::MAX && (size > 0 ==> bytes % (size as usize)
            == 0 || size > usize::MAX),
{
    if room_for(bytes, len, size) {
        let capacity = choose|capacity: usize|
            capacity >= len && #[trigger] (capacity * size) <= isize::MAX && bytes == capacity
                * size;
        assert(capacity * size >= len * size) by (nonlinear_arith)
            requires
                capacity >= len,
        ;
        if 0 < size <= usize::MAX {
            vstd::arithmetic::div_mod::lemma_mod_multiples_basic(capacity as int, size as int);
        }
    }
}

} // verus!
