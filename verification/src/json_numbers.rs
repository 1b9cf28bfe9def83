//! The texts of numbers stand for the numbers: how a reader of JSON takes them, and that it finds
//! what was written.
use vstd::prelude::*;
use crate::json_text::{decimal_text, digits, magnitude, number_text, pointed, pow10, zeros};

verus! {

// ---------------------------------------------------------------- how numbers are read

pub open spec fn all_digits(text: Seq<u8>) -> bool {
    forall|i: int| 0 <= i < text.len() ==> 48 <= #[trigger] text[i] <= 57
}

/// The number that digits stand for.
pub open spec fn digits_value(text: Seq<u8>) -> nat
    decreases text.len(),
{
    if text.len() == 0 {
        0
    } else {
        (10 * digits_value(text.drop_last()) + (text.last() - 48)) as nat
    }
}

/// The digits in front of a point: at least one, and no zero before another one.
pub open spec fn is_whole(text: Seq<u8>) -> bool {
    text.len() > 0 && all_digits(text) && (text.len() > 1 ==> text[0] != 48)
}

/// A minus stands at the front.
pub open spec fn is_negative(text: Seq<u8>) -> bool {
    text.len() > 0 && text[0] == 45
}

pub open spec fn without_minus(text: Seq<u8>) -> Seq<u8> {
    if is_negative(text) {
        text.skip(1)
    } else {
        text
    }
}

pub open spec fn with_sign(negative: bool, value: nat) -> int {
    if negative {
        -(value as int)
    } else {
        value as int
    }
}

/// The integer that a text stands for; nothing where it is none.
pub open spec fn read_integer(text: Seq<u8>) -> Option<int> {
    let all = without_minus(text);
    if is_whole(all) {
        Some(with_sign(is_negative(text), digits_value(all)))
    } else {
        None
    }
}

/// Where a byte stands first; the length where it does not stand.
pub open spec fn place_of_byte(text: Seq<u8>, byte: u8) -> int
    decreases text.len(),
{
    if text.len() == 0 || text[0] == byte {
        0
    } else {
        1 + place_of_byte(text.skip(1), byte)
    }
}

/// The part in front of the first such byte.
pub open spec fn before_byte(text: Seq<u8>, byte: u8) -> Seq<u8> {
    text.take(place_of_byte(text, byte))
}

/// The part behind the first such byte; nothing where it does not stand.
pub open spec fn behind_byte(text: Seq<u8>, byte: u8) -> Option<Seq<u8>> {
    let at = place_of_byte(text, byte);
    if at < text.len() {
        Some(text.skip(at + 1))
    } else {
        None
    }
}

/// The number that a text with a decimal point stands for: a number, and how many of its digits are
/// behind the point.
pub open spec fn read_decimal(text: Seq<u8>) -> Option<(int, nat)> {
    let all = without_minus(text);
    let whole = before_byte(all, 46);
    match behind_byte(all, 46) {
        None => if is_whole(whole) {
            Some((with_sign(is_negative(text), digits_value(whole)), 0))
        } else {
            None
        },
        Some(fraction) => if is_whole(whole) && fraction.len() > 0 && all_digits(fraction) {
            Some((with_sign(is_negative(text), digits_value(whole + fraction)), fraction.len()))
        } else {
            None
        },
    }
}

// ---------------------------------------------------------------- lemmas

pub proof fn lemma_place_of_byte(text: Seq<u8>, byte: u8, at: int)
    requires
        0 <= at <= text.len(),
        forall|i: int| 0 <= i < at ==> #[trigger] text[i] != byte,
        at < text.len() ==> text[at] == byte,
    ensures
        place_of_byte(text, byte) == at,
    decreases text.len(),
{
    if at > 0 {
        assert(text[0] != byte);
        let rest = text.skip(1);
        assert forall|i: int| 0 <= i < at - 1 implies #[trigger] rest[i] != byte by {
            assert(text[i + 1] != byte);
        }
        lemma_place_of_byte(rest, byte, at - 1);
    }
}

pub proof fn lemma_digits(v: nat)
    ensures
        is_whole(digits(v)),
        digits_value(digits(v)) == v,
        v > 0 ==> digits(v)[0] != 48,
    decreases v,
{
    let text = digits(v);
    if v < 10 {
        assert(text.drop_last() =~= Seq::<u8>::empty());
        assert(digits_value(text.drop_last()) == 0);
    } else {
        lemma_digits(v / 10);
        let front = digits(v / 10);
        assert(text.drop_last() =~= front);
        assert forall|i: int| 0 <= i < text.len() implies 48 <= #[trigger] text[i] <= 57 by {
            if i < front.len() {
                assert(48 <= front[i] <= 57);
            }
        }
    }
}

/// Digits behind digits.
pub proof fn lemma_digits_value_add(a: Seq<u8>, b: Seq<u8>)
    requires
        all_digits(b),
    ensures
        digits_value(a + b) == digits_value(a) * pow10(b.len()) + digits_value(b),
    decreases b.len(),
{
    if b.len() == 0 {
        assert(a + b =~= a);
        assert(digits_value(a) * 1 == digits_value(a)) by (nonlinear_arith);
    } else {
        let front = b.drop_last();
        assert((a + b).drop_last() =~= a + front);
        assert(48 <= b[b.len() - 1] <= 57);
        assert forall|i: int| 0 <= i < front.len() implies 48 <= #[trigger] front[i] <= 57 by {
            assert(48 <= b[i] <= 57);
        }
        lemma_digits_value_add(a, front);
        let (x, p) = (digits_value(a) as int, pow10(front.len()) as int);
        assert(10 * (x * p) == x * (10 * p)) by (nonlinear_arith);
    }
}

pub proof fn lemma_zeros_value(n: nat)
    ensures
        digits_value(zeros(n)) == 0,
        all_digits(zeros(n)),
    decreases n,
{
    if n > 0 {
        assert(zeros(n).drop_last() =~= zeros((n - 1) as nat));
        lemma_zeros_value((n - 1) as nat);
    }
}

pub proof fn lemma_joined_digits(a: Seq<u8>, b: Seq<u8>)
    requires
        all_digits(a),
        all_digits(b),
    ensures
        all_digits(a + b),
{
    assert forall|i: int| 0 <= i < (a + b).len() implies 48 <= #[trigger] (a + b)[i] <= 57 by {
        if i < a.len() {
            assert(48 <= a[i] <= 57);
        } else {
            assert(48 <= b[i - a.len()] <= 57);
        }
    }
}

/// A text of digits holds no other byte.
pub proof fn lemma_no_such_byte(text: Seq<u8>, byte: u8)
    requires
        all_digits(text),
        !(48 <= byte <= 57),
    ensures
        place_of_byte(text, byte) == text.len(),
{
    assert forall|i: int| 0 <= i < text.len() implies #[trigger] text[i] != byte by {
        assert(48 <= text[i] <= 57);
    }
    lemma_place_of_byte(text, byte, text.len() as int);
}

// ---------------------------------------------------------------- integers

/// The text of an integer is read as the integer.
pub proof fn integers_read_back(v: int)
    ensures
        read_integer(number_text(v)) == Some(v),
{
    let text = number_text(v);
    lemma_digits(magnitude(v));
    let all = digits(magnitude(v));
    if v < 0 {
        assert(text.skip(1) =~= all);
    } else {
        assert(48 <= all[0] <= 57);
    }
}

/// Different integers have different texts.
pub proof fn integers_are_told_apart(a: int, b: int)
    requires
        a != b,
    ensures
        number_text(a) != number_text(b),
{
    integers_read_back(a);
    integers_read_back(b);
}

// ---------------------------------------------------------------- decimals

pub proof fn lemma_pointed(all: Seq<u8>, whole: Seq<u8>, fraction: Seq<u8>)
    requires
        all == whole + seq![46u8] + fraction,
        all_digits(whole),
    ensures
        before_byte(all, 46) == whole,
        behind_byte(all, 46) == Some(fraction),
{
    let at = whole.len() as int;
    assert forall|i: int| 0 <= i < at implies #[trigger] all[i] != 46 by {
        assert(all[i] == whole[i]);
        assert(48 <= whole[i] <= 57);
    }
    assert(all[at] == 46);
    lemma_place_of_byte(all, 46, at);
    assert(all.take(at) =~= whole);
    assert(all.skip(at + 1) =~= fraction);
}

/// What is read of digits with a point.
proof fn lemma_pointed_value(v: nat, scale: int)
    requires
        scale >= 0 || v > 0,
    ensures
        ({
            let text = pointed(digits(v), scale);
            let value = if scale >= 0 {
                v
            } else {
                v * pow10((-scale) as nat)
            };
            let places = if scale >= 0 {
                scale as nat
            } else {
                0
            };
            read_decimal(text) == Some((value as int, places)) && text.len() > 0 && text[0] != 45
        }),
{
    let all = digits(v);
    let text = pointed(all, scale);
    lemma_digits(v);
    if scale == 0 {
        lemma_no_such_byte(all, 46);
        assert(all.take(all.len() as int) =~= all);
        assert(48 <= all[0] <= 57);
    } else if scale < 0 {
        let n = (-scale) as nat;
        lemma_zeros_value(n);
        lemma_digits_value_add(all, zeros(n));
        lemma_joined_digits(all, zeros(n));
        lemma_no_such_byte(text, 46);
        assert(text.take(text.len() as int) =~= text);
        assert(text[0] == all[0]);
        assert(48 <= all[0] <= 57);
    } else if all.len() > scale {
        let at = all.len() - scale;
        let whole = all.take(at);
        let fraction = all.skip(at);
        assert forall|i: int| 0 <= i < whole.len() implies 48 <= #[trigger] whole[i] <= 57 by {
            assert(48 <= all[i] <= 57);
        }
        assert forall|i: int| 0 <= i < fraction.len() implies 48 <= #[trigger] fraction[i] <= 57 by {
            assert(48 <= all[at + i] <= 57);
        }
        lemma_pointed(text, whole, fraction);
        assert(whole + fraction =~= all);
        assert(text[0] == all[0]);
        assert(whole[0] == all[0]);
        assert(48 <= all[0] <= 57);
    } else {
        let n = (scale - all.len()) as nat;
        let whole = seq![48u8];
        let fraction = zeros(n) + all;
        lemma_zeros_value(n);
        lemma_joined_digits(zeros(n), all);
        assert(text =~= whole + seq![46u8] + fraction);
        lemma_pointed(text, whole, fraction);
        lemma_digits_value_add(zeros(n), all);
        lemma_joined_digits(whole, zeros(n));
        lemma_digits_value_add(whole, fraction);
        assert(whole.drop_last() =~= Seq::<u8>::empty());
        assert(digits_value(whole.drop_last()) == 0);
        assert(digits_value(whole) == 0);
        assert(0 * pow10(all.len()) == 0) by (nonlinear_arith);
        assert(0 * pow10(fraction.len()) == 0) by (nonlinear_arith);
    }
}

/// The text of a decimal is read as the decimal: its digits, with the point so many places from
/// their end as its scale says. A scale below zero tells of powers of ten, and there is no point.
pub proof fn decimals_read_back(value: int, scale: int)
    ensures
        scale >= 0 ==> read_decimal(decimal_text(value, scale)) == Some((value, scale as nat)),
        scale < 0 ==> read_decimal(decimal_text(value, scale)) == Some((value * pow10((-scale) as nat), 0nat)),
{
    let m = magnitude(value);
    let places = if value == 0 && scale < 0 {
        0
    } else {
        scale
    };
    let all = pointed(digits(m), places);
    let text = decimal_text(value, scale);
    lemma_pointed_value(m, places);
    if value < 0 {
        assert(text.skip(1) =~= all);
        if scale < 0 {
            let p = pow10((-scale) as nat) as int;
            assert(-(m * p) == value * p) by (nonlinear_arith)
                requires
                    m == -value,
            ;
        }
    } else if value == 0 && scale < 0 {
        assert(0 * pow10((-scale) as nat) == 0) by (nonlinear_arith);
    }
}

/// Decimals of one scale that are different have different texts.
pub proof fn decimals_are_told_apart(a: int, b: int, scale: int)
    requires
        a != b,
    ensures
        decimal_text(a, scale) != decimal_text(b, scale),
{
    decimals_read_back(a, scale);
    decimals_read_back(b, scale);
    if scale < 0 {
        lemma_pow10_positive((-scale) as nat);
        let p = pow10((-scale) as nat) as int;
        assert(a * p != b * p) by (nonlinear_arith)
            requires
                a != b,
                p > 0,
        ;
    }
}

pub proof fn lemma_pow10_positive(n: nat)
    ensures
        pow10(n) > 0,
    decreases n,
{
    if n > 0 {
        lemma_pow10_positive((n - 1) as nat);
    }
}

} // verus!
