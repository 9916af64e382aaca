//! Names and the text form of numbers.

use crate::time::Time;
use vstd::prelude::*;
use vstd::string::*;
use vstd::utf8::*;

verus! {

/// The characters of a text, as contracts speak of them.
pub type Text = Seq<char>;

/// Byte-wise lexicographic order, which is how `str` is ordered.
pub open spec fn bytes_before(a: Seq<u8>, b: Seq<u8>) -> bool
    decreases a.len(),
{
    if b.len() == 0 {
        false
    } else if a.len() == 0 {
        true
    } else if a[0] != b[0] {
        a[0] < b[0]
    } else {
        bytes_before(a.skip(1), b.skip(1))
    }
}

/// The order in which names are listed.
pub open spec fn name_before(a: Seq<char>, b: Seq<char>) -> bool {
    bytes_before(encode_utf8(a), encode_utf8(b))
}

/// Texts with the same bytes are the same.
pub proof fn lemma_encoding_injective(a: Seq<char>, b: Seq<char>)
    requires
        encode_utf8(a) == encode_utf8(b),
    ensures
        a == b,
{
    encode_utf8_decode_utf8(a);
    encode_utf8_decode_utf8(b);
}

pub proof fn lemma_bytes_before_total(a: Seq<u8>, b: Seq<u8>)
    ensures
        bytes_before(a, b) || bytes_before(b, a) || a == b,
        !(bytes_before(a, b) && bytes_before(b, a)),
        !bytes_before(a, a),
    decreases a.len(),
{
    if a.len() > 0 {
        lemma_bytes_before_total(a.skip(1), a.skip(1));
        if b.len() > 0 {
            lemma_bytes_before_total(a.skip(1), b.skip(1));
            if a[0] == b[0] && a.skip(1) == b.skip(1) {
                assert(a =~= seq![a[0]] + a.skip(1));
                assert(b =~= seq![b[0]] + b.skip(1));
            }
        }
    } else if b.len() == 0 {
        assert(a =~= b);
    }
}

pub proof fn lemma_bytes_before_transitive(a: Seq<u8>, b: Seq<u8>, c: Seq<u8>)
    requires
        bytes_before(a, b),
        bytes_before(b, c),
    ensures
        bytes_before(a, c),
    decreases a.len(),
{
    if a.len() > 0 && a[0] == b[0] && b[0] == c[0] {
        lemma_bytes_before_transitive(a.skip(1), b.skip(1), c.skip(1));
    }
}

/// Names are totally ordered.
pub proof fn lemma_name_order(a: Seq<char>, b: Seq<char>)
    ensures
        name_before(a, b) || name_before(b, a) || a == b,
        !(name_before(a, b) && name_before(b, a)),
        !name_before(a, a),
{
    lemma_bytes_before_total(encode_utf8(a), encode_utf8(b));
    lemma_bytes_before_total(encode_utf8(a), encode_utf8(a));
    if encode_utf8(a) == encode_utf8(b) {
        lemma_encoding_injective(a, b);
    }
}

pub proof fn lemma_name_order_transitive(a: Seq<char>, b: Seq<char>, c: Seq<char>)
    requires
        name_before(a, b),
        name_before(b, c),
    ensures
        name_before(a, c),
{
    lemma_bytes_before_transitive(encode_utf8(a), encode_utf8(b), encode_utf8(c));
}

/// Whether two texts are the same.
pub fn same_text(a: &str, b: &str) -> (res: bool)
    ensures
        res == (a@ == b@),
{
    let x: &[u8] = a.as_bytes();
    let y: &[u8] = b.as_bytes();
    if x.len() != y.len() {
        return false;
    }
    let mut i: usize = 0;
    while i < x.len()
        invariant
            x@ == encode_utf8(a@),
            y@ == encode_utf8(b@),
            x@.len() == y@.len(),
            i <= x@.len(),
            forall|j: int| 0 <= j < i ==> x@[j] == y@[j],
        decreases x@.len() - i,
    {
        if x[i] != y[i] {
            return false;
        }
        i = i + 1;
    }
    proof {
        assert(x@ =~= y@);
        lemma_encoding_injective(a@, b@);
    }
    true
}

/// Whether the name `a` is listed before the name `b`.
pub fn is_before(a: &str, b: &str) -> (res: bool)
    ensures
        res == name_before(a@, b@),
{
    let x: &[u8] = a.as_bytes();
    let y: &[u8] = b.as_bytes();
    let mut i: usize = 0;
    proof {
        assert(x@.skip(0) =~= x@);
        assert(y@.skip(0) =~= y@);
    }
    while i < x.len() && i < y.len()
        invariant
            x@ == encode_utf8(a@),
            y@ == encode_utf8(b@),
            i <= x@.len(),
            i <= y@.len(),
            name_before(a@, b@) == bytes_before(x@.skip(i as int), y@.skip(i as int)),
        decreases x@.len() - i,
    {
        if x[i] != y[i] {
            return x[i] < y[i];
        }
        proof {
            assert(x@.skip(i as int).skip(1) =~= x@.skip(i + 1));
            assert(y@.skip(i as int).skip(1) =~= y@.skip(i + 1));
        }
        i = i + 1;
    }
    i < y.len()
}

/// The decimal digit `d`.
pub open spec fn digit_text(d: nat) -> Seq<char> {
    if d == 0 {
        "0"@
    } else if d == 1 {
        "1"@
    } else if d == 2 {
        "2"@
    } else if d == 3 {
        "3"@
    } else if d == 4 {
        "4"@
    } else if d == 5 {
        "5"@
    } else if d == 6 {
        "6"@
    } else if d == 7 {
        "7"@
    } else if d == 8 {
        "8"@
    } else {
        "9"@
    }
}

/// `n` in decimal, without leading zeros.
pub open spec fn decimal_text(n: nat) -> Seq<char>
    decreases n,
{
    if n < 10 {
        digit_text(n)
    } else {
        decimal_text(n / 10) + digit_text(n % 10)
    }
}

/// The digits of `f`, the first of which counts `unit`s, up to the last nonzero one.
pub open spec fn fraction_text(f: nat, unit: nat) -> Seq<char>
    decreases unit,
{
    if f == 0 || unit == 0 {
        Seq::empty()
    } else {
        digit_text(f / unit) + fraction_text(f % unit, unit / 10)
    }
}

/// `t` in seconds, in decimal and exactly.
pub open spec fn seconds_text(t: Time) -> Seq<char> {
    let whole = decimal_text((t / 1_000_000_000) as nat);
    let fraction = (t % 1_000_000_000) as nat;
    if fraction == 0 {
        whole
    } else {
        whole + "."@ + fraction_text(fraction, 100_000_000)
    }
}

fn push_digit(text: &mut String, d: u128)
    requires
        d < 10,
    ensures
        final(text)@ == old(text)@ + digit_text(d as nat),
{
    let digit: &str = match d {
        0 => "0",
        1 => "1",
        2 => "2",
        3 => "3",
        4 => "4",
        5 => "5",
        6 => "6",
        7 => "7",
        8 => "8",
        _ => "9",
    };
    text.append(digit);
}

/// Appends `n` in decimal.
pub fn push_decimal(text: &mut String, n: u128)
    ensures
        final(text)@ == old(text)@ + decimal_text(n as nat),
    decreases n,
{
    if n < 10 {
        push_digit(text, n);
    } else {
        push_decimal(text, n / 10);
        push_digit(text, n % 10);
        proof {
            assert(old(text)@ + decimal_text((n / 10) as nat) + digit_text((n % 10) as nat)
                =~= old(text)@ + decimal_text(n as nat));
        }
    }
}

spec fn is_power_of_ten(unit: nat) -> bool
    decreases unit,
{
    unit == 1 || (unit > 1 && unit % 10 == 0 && is_power_of_ten(unit / 10))
}

fn push_fraction(text: &mut String, f: u128, unit: u128)
    requires
        f < 10 * unit,
        unit <= 100_000_000,
        is_power_of_ten(unit as nat),
    ensures
        final(text)@ == old(text)@ + fraction_text(f as nat, unit as nat),
    decreases unit,
{
    if f == 0 {
        assert(old(text)@ + Seq::<char>::empty() =~= old(text)@);
        return;
    }
    proof {
        assert(f / unit < 10 && f % unit < unit) by (nonlinear_arith)
            requires
                f < 10 * unit,
                unit > 0,
        ;
    }
    push_digit(text, f / unit);
    if unit == 1 {
        assert(fraction_text(0, 0) =~= Seq::empty());
        assert(digit_text((f / unit) as nat) + fraction_text(0, 0) =~= digit_text(
            (f / unit) as nat,
        ));
    } else {
        push_fraction(text, f % unit, unit / 10);
        assert(old(text)@ + digit_text((f / unit) as nat) + fraction_text(
            (f % unit) as nat,
            (unit / 10) as nat,
        ) =~= old(text)@ + fraction_text(f as nat, unit as nat));
    }
}

/// Appends `t` in seconds.
pub fn push_seconds(text: &mut String, t: Time)
    ensures
        final(text)@ == old(text)@ + seconds_text(t),
{
    push_decimal(text, t / 1_000_000_000);
    let fraction: u128 = t % 1_000_000_000;
    if fraction != 0 {
        text.append(".");
        proof {
            reveal_with_fuel(is_power_of_ten, 10);
        }
        push_fraction(text, fraction, 100_000_000);
        assert(old(text)@ + decimal_text((t / 1_000_000_000) as nat) + "."@ + fraction_text(
            fraction as nat,
            100_000_000,
        ) =~= old(text)@ + seconds_text(t));
    }
}

} // verus!
