//! The text of a floating-point number in the form of Java stands for the number that its shortest
//! text stands for.
use vstd::prelude::*;
use vstd::arithmetic::power2::{lemma2_to64, lemma_pow2_adds, lemma_pow2_pos, lemma_pow2_unfold, pow2};
use vstd::utf8::encode_utf8;
use crate::error::Error;
use crate::json_doubles::{double_text, is_exact, is_finite, magnitude_bits, zero_text, PlanView, SIGN_BIT};
use crate::json_numbers::{
    all_digits, before_byte, behind_byte, digits_value, is_negative, is_whole, lemma_digits, lemma_digits_value_add,
    lemma_joined_digits, lemma_place_of_byte, lemma_pointed, lemma_zeros_value, place_of_byte, read_decimal, with_sign, without_minus,
};
use crate::json_text::{
    digits, exponent_digits, exponent_value, first_of, java_digits, java_text, leading_zeros, magnitude, number_text, pow10, trimmed,
    without_dots, zeros,
};

verus! {

// ---------------------------------------------------------------- how numbers are read

/// The number behind the sign of an exponent.
pub open spec fn read_exponent(text: Seq<u8>) -> Option<int> {
    let all = if text.len() > 0 && (text[0] == 45 || text[0] == 43) {
        text.skip(1)
    } else {
        text
    };
    if all.len() > 0 && all_digits(all) {
        Some(with_sign(is_negative(text), digits_value(all)))
    } else {
        None
    }
}

/// Where the exponent of a number starts; the length where it has none.
pub open spec fn exponent_place(text: Seq<u8>) -> int {
    let small = place_of_byte(text, 101);
    let large = place_of_byte(text, 69);
    if small < large {
        small
    } else {
        large
    }
}

/// The number that a text stands for: a number, and the power of ten that it is multiplied with.
pub open spec fn read_number(text: Seq<u8>) -> Option<(int, int)> {
    let at = exponent_place(text);
    match read_decimal(text.take(at)) {
        None => None,
        Some((coefficient, places)) => if at < text.len() {
            match read_exponent(text.skip(at + 1)) {
                None => None,
                Some(exponent) => Some((coefficient, exponent - places)),
            }
        } else {
            Some((coefficient, -(places as int)))
        },
    }
}

/// Two numbers with powers of ten are the same number.
pub open spec fn is_same_number(a: (int, int), b: (int, int)) -> bool {
    if a.1 >= b.1 {
        a.0 * pow10((a.1 - b.1) as nat) == b.0
    } else {
        a.0 == b.0 * pow10((b.1 - a.1) as nat)
    }
}

// ---------------------------------------------------------------- powers of ten

proof fn lemma_pow10_add(a: nat, b: nat)
    ensures
        pow10(a + b) == pow10(a) * pow10(b),
    decreases a,
{
    if a == 0 {
        assert(1 * pow10(b) == pow10(b)) by (nonlinear_arith);
    } else {
        lemma_pow10_add((a - 1) as nat, b);
        let (x, y) = (pow10((a - 1) as nat) as int, pow10(b) as int);
        assert(10 * (x * y) == (10 * x) * y) by (nonlinear_arith);
        assert(pow10(a + b) == 10 * pow10((a - 1 + b) as nat));
    }
}

/// A number keeps its value when zeros are put behind it and the power of ten is made as much smaller.
proof fn lemma_same_number(v: int, power: int, t: nat, u: nat)
    ensures
        is_same_number((v * pow10(t), power - t), (v * pow10(u), power - u)),
{
    let (x, y) = (pow10(t) as int, pow10(u) as int);
    if t <= u {
        let d = (u - t) as nat;
        let z = pow10(d) as int;
        lemma_pow10_add(t, d);
        assert((v * x) * z == v * (x * z)) by (nonlinear_arith);
    } else {
        let d = (t - u) as nat;
        let z = pow10(d) as int;
        lemma_pow10_add(u, d);
        assert((v * y) * z == v * (y * z)) by (nonlinear_arith);
    }
}

// ---------------------------------------------------------------- parts of a text

proof fn lemma_first_of_bounds(text: Seq<u8>, a: u8, b: u8)
    ensures
        0 <= first_of(text, a, b) <= text.len(),
        0 <= place_of_byte(text, a) <= text.len(),
        0 <= place_of_byte(text, b) <= text.len(),
        first_of(text, a, b) == (if place_of_byte(text, a) < place_of_byte(text, b) {
            place_of_byte(text, a)
        } else {
            place_of_byte(text, b)
        }),
        forall|i: int| 0 <= i < place_of_byte(text, a) ==> #[trigger] text[i] != a,
        place_of_byte(text, a) < text.len() ==> text[place_of_byte(text, a)] == a,
    decreases text.len(),
{
    if text.len() > 0 {
        let rest = text.skip(1);
        lemma_first_of_bounds(rest, a, b);
        if text[0] != a {
            assert forall|i: int| 0 <= i < place_of_byte(text, a) implies #[trigger] text[i] != a by {
                if i > 0 {
                    assert(rest[i - 1] != a);
                }
            }
        }
    }
}

/// The exponent starts behind the minus where it starts in the rest.
proof fn lemma_exponent_place(text: Seq<u8>)
    ensures
        exponent_place(text) == first_of(without_minus(text), 101, 69) + (if is_negative(text) {
            1int
        } else {
            0int
        }),
        0 <= exponent_place(text) <= text.len(),
{
    lemma_first_of_bounds(without_minus(text), 101, 69);
    lemma_first_of_bounds(text, 101, 69);
}

proof fn lemma_dots_of_digits(text: Seq<u8>)
    requires
        all_digits(text),
    ensures
        without_dots(text) == text,
    decreases text.len(),
{
    if text.len() > 0 {
        let front = text.drop_last();
        assert forall|i: int| 0 <= i < front.len() implies 48 <= #[trigger] front[i] <= 57 by {
            assert(48 <= text[i] <= 57);
        }
        lemma_dots_of_digits(front);
        assert(48 <= text[text.len() - 1] <= 57);
        assert(front.push(text.last()) =~= text);
    } else {
        assert(text =~= Seq::<u8>::empty());
    }
}

proof fn lemma_dots_between(whole: Seq<u8>, fraction: Seq<u8>)
    requires
        all_digits(whole),
        all_digits(fraction),
    ensures
        without_dots(whole + seq![46u8] + fraction) == whole + fraction,
    decreases fraction.len(),
{
    let text = whole + seq![46u8] + fraction;
    if fraction.len() == 0 {
        assert(text.drop_last() =~= whole);
        lemma_dots_of_digits(whole);
        assert(whole + fraction =~= whole);
    } else {
        let front = fraction.drop_last();
        assert forall|i: int| 0 <= i < front.len() implies 48 <= #[trigger] front[i] <= 57 by {
            assert(48 <= fraction[i] <= 57);
        }
        assert(text.drop_last() =~= whole + seq![46u8] + front);
        assert(text.last() == fraction.last());
        assert(48 <= fraction[fraction.len() - 1] <= 57);
        lemma_dots_between(whole, front);
        assert((whole + front).push(fraction.last()) =~= whole + fraction);
    }
}

/// The exponent that is taken is the one that is read.
proof fn lemma_exponent_digits(text: Seq<u8>)
    requires
        exponent_digits(text) is Ok,
    ensures
        all_digits(text),
        digits_value(text) == exponent_digits(text)->Ok_0,
    decreases text.len(),
{
    if text.len() > 0 {
        let front = text.drop_last();
        lemma_exponent_digits(front);
        assert forall|i: int| 0 <= i < text.len() implies 48 <= #[trigger] text[i] <= 57 by {
            if i < front.len() {
                assert(48 <= front[i] <= 57);
            }
        }
    }
}

/// An exponent that is taken is the number that its text stands for.
pub proof fn exponents_are_what_they_stand_for(text: Seq<u8>)
    requires
        exponent_value(text) is Ok,
    ensures
        read_exponent(text) == Some(exponent_value(text)->Ok_0),
{
    let rest = if text.len() > 0 && (text[0] == 45 || text[0] == 43) {
        text.skip(1)
    } else {
        text
    };
    lemma_exponent_digits(rest);
}

/// Zeros at the front tell nothing.
proof fn lemma_leading(text: Seq<u8>)
    requires
        all_digits(text),
    ensures
        leading_zeros(text) <= text.len(),
        all_digits(text.skip(leading_zeros(text) as int)),
        digits_value(text.skip(leading_zeros(text) as int)) == digits_value(text),
        leading_zeros(text) < text.len() ==> text[leading_zeros(text) as int] != 48,
    decreases text.len(),
{
    if text.len() > 0 && text[0] == 48 {
        let rest = text.skip(1);
        assert forall|i: int| 0 <= i < rest.len() implies 48 <= #[trigger] rest[i] <= 57 by {
            assert(48 <= text[i + 1] <= 57);
        }
        lemma_leading(rest);
        let n = leading_zeros(rest) as int;
        assert(rest.skip(n) =~= text.skip(n + 1));
        lemma_digits_value_add(seq![48u8], rest);
        assert(seq![48u8] + rest =~= text);
        assert(seq![48u8].drop_last() =~= Seq::<u8>::empty());
        assert(digits_value(seq![48u8].drop_last()) == 0);
        assert(digits_value(seq![48u8]) == 0);
        assert(0 * pow10(rest.len()) == 0) by (nonlinear_arith);
        if n < rest.len() {
            assert(rest[n] == text[n + 1]);
        }
    } else {
        assert(text.skip(0) =~= text);
    }
}

/// Zeros at the end are powers of ten.
proof fn lemma_trimmed(text: Seq<u8>)
    requires
        all_digits(text),
    ensures
        trimmed(text).len() <= text.len(),
        all_digits(trimmed(text)),
        text.len() > 0 ==> trimmed(text).len() > 0 && trimmed(text)[0] == text[0],
        digits_value(text) == digits_value(trimmed(text)) * pow10((text.len() - trimmed(text).len()) as nat),
    decreases text.len(),
{
    if text.len() > 1 && text.last() == 48 {
        let front = text.drop_last();
        assert forall|i: int| 0 <= i < front.len() implies 48 <= #[trigger] front[i] <= 57 by {
            assert(48 <= text[i] <= 57);
        }
        lemma_trimmed(front);
        let n = (front.len() - trimmed(front).len()) as nat;
        let (v, p) = (digits_value(trimmed(front)) as int, pow10(n) as int);
        assert(10 * (v * p) == v * (10 * p)) by (nonlinear_arith);
        assert(pow10(n + 1) == 10 * pow10(n));
    } else {
        assert(digits_value(text) * 1 == digits_value(text)) by (nonlinear_arith);
    }
}

// ---------------------------------------------------------------- the form of Java

/// What is read of digits around a point, with an exponent behind them or without one.
proof fn lemma_read_pointed(whole: Seq<u8>, fraction: Seq<u8>, exponent: int)
    requires
        is_whole(whole),
        fraction.len() > 0,
        all_digits(fraction),
    ensures
        ({
            let text = whole + seq![46u8] + fraction;
            let value = digits_value(whole + fraction) as int;
            let places = fraction.len();
            &&& read_number(text) == Some((value, -(places as int)))
            &&& read_number(text + seq![69u8] + number_text(exponent)) == Some((value, exponent - places))
            &&& exponent_place(text) == text.len()
            &&& exponent_place(text + seq![69u8] + number_text(exponent)) == text.len()
            &&& before_byte(text, 46) == whole
            &&& behind_byte(text, 46) == Some(fraction)
            &&& !is_negative(text)
        }),
{
    let text = whole + seq![46u8] + fraction;
    let all = text + seq![69u8] + number_text(exponent);
    lemma_pointed(text, whole, fraction);
    assert(48 <= whole[0] <= 57);
    assert(text[0] == whole[0]);
    assert forall|i: int| 0 <= i < text.len() implies #[trigger] text[i] != 69 && text[i] != 101 by {
        if i < whole.len() {
            assert(48 <= whole[i] <= 57);
        } else if i > whole.len() {
            assert(48 <= fraction[i - whole.len() - 1] <= 57);
        }
    }
    lemma_place_of_byte(text, 69, text.len() as int);
    lemma_place_of_byte(text, 101, text.len() as int);
    assert(text.take(text.len() as int) =~= text);
    assert forall|i: int| 0 <= i < text.len() implies #[trigger] all[i] != 69 by {
        assert(all[i] == text[i]);
    }
    assert(all[text.len() as int] == 69);
    lemma_place_of_byte(all, 69, text.len() as int);
    lemma_not_before(all, 101, text.len() as int + 1);
    assert(all.take(text.len() as int) =~= text);
    assert(all.skip(text.len() as int + 1) =~= number_text(exponent));
    lemma_exponent_text(exponent);
}

proof fn lemma_not_before(text: Seq<u8>, byte: u8, n: int)
    requires
        0 <= n <= text.len(),
        forall|i: int| 0 <= i < n ==> #[trigger] text[i] != byte,
    ensures
        place_of_byte(text, byte) >= n,
    decreases text.len(),
{
    if n > 0 {
        assert(text[0] != byte);
        let rest = text.skip(1);
        assert forall|i: int| 0 <= i < n - 1 implies #[trigger] rest[i] != byte by {
            assert(text[i + 1] != byte);
        }
        lemma_not_before(rest, byte, n - 1);
    } else {
        lemma_first_of_bounds(text, byte, byte);
    }
}

proof fn lemma_exponent_text(exponent: int)
    ensures
        read_exponent(number_text(exponent)) == Some(exponent),
{
    let text = number_text(exponent);
    let all = digits(magnitude(exponent));
    lemma_digits(magnitude(exponent));
    if exponent < 0 {
        assert(text.skip(1) =~= all);
    } else {
        assert(48 <= all[0] <= 57);
    }
}

/// How many zeros are put behind the digits of a number in the form of Java.
spec fn zeros_behind(all: Seq<u8>, position: int) -> nat {
    if 0 < position <= 7 && all.len() <= position {
        (position - all.len() + 1) as nat
    } else if (position > 7 || position <= -3) && all.len() == 1 {
        1
    } else {
        0
    }
}

/// The text is in the form of Java, and stands for the number that the digits stand for.
spec fn is_java_text(text: Seq<u8>, all: Seq<u8>, position: int) -> bool {
    let u = zeros_behind(all, position);
    &&& read_number(text) == Some(((digits_value(all) * pow10(u)) as int, position - all.len() - u))
    &&& text.len() > 0
    &&& !is_negative(text)
    &&& is_java_form(text)
}

/// Digits around a point are in the form of Java where the number is neither small nor large.
proof fn lemma_plain_form(whole: Seq<u8>, fraction: Seq<u8>)
    requires
        is_whole(whole),
        fraction.len() > 0,
        all_digits(fraction),
        whole.len() <= 7,
        whole == seq![48u8] ==> exists|i: int| 0 <= i < 3 && i < fraction.len() && #[trigger] fraction[i] != 48,
    ensures
        is_java_form(whole + seq![46u8] + fraction),
{
    let text = whole + seq![46u8] + fraction;
    lemma_read_pointed(whole, fraction, 0);
    assert(text.take(text.len() as int) =~= text);
}

/// Digits around a point with an exponent behind them are in the form of Java where the number is
/// small or large.
proof fn lemma_exponent_form(whole: Seq<u8>, fraction: Seq<u8>, exponent: int)
    requires
        is_whole(whole),
        fraction.len() > 0,
        all_digits(fraction),
        whole.len() == 1,
        whole[0] != 48,
        exponent >= 7 || exponent < -3,
    ensures
        is_java_form(whole + seq![46u8] + fraction + seq![69u8] + number_text(exponent)),
        !is_negative(whole + seq![46u8] + fraction + seq![69u8] + number_text(exponent)),
{
    let head = whole + seq![46u8] + fraction;
    let text = head + seq![69u8] + number_text(exponent);
    lemma_read_pointed(whole, fraction, exponent);
    assert(text.take(head.len() as int) =~= head);
    assert(text.skip(head.len() as int + 1) =~= number_text(exponent));
    lemma_exponent_text(exponent);
    assert(text[0] == whole[0]);
    assert(48 <= whole[0] <= 57);
}

/// The value of digits with zeros behind them.
proof fn lemma_zeros_added(all: Seq<u8>, n: nat)
    ensures
        digits_value(all + zeros(n)) == digits_value(all) * pow10(n),
{
    lemma_zeros_value(n);
    lemma_digits_value_add(all, zeros(n));
}

/// The value of digits with zeros in front of them.
proof fn lemma_zeros_in_front(all: Seq<u8>, n: nat)
    requires
        all_digits(all),
    ensures
        digits_value(zeros(n) + all) == digits_value(all),
{
    lemma_zeros_value(n);
    lemma_digits_value_add(zeros(n), all);
    assert(0 * pow10(all.len()) == 0) by (nonlinear_arith);
}

proof fn lemma_nothing_added(v: nat)
    ensures
        v * pow10(0) == v,
{
    assert(v * 1 == v) by (nonlinear_arith);
}

proof fn lemma_java_integer(all: Seq<u8>, position: int)
    requires
        all.len() > 0,
        all_digits(all),
        all[0] != 48,
        all.len() <= position <= 7,
    ensures
        is_java_text(java_digits(all, position), all, position),
{
    let text = java_digits(all, position);
    let n = (position - all.len()) as nat;
    let whole = all + zeros(n);
    let fraction = seq![48u8];
    lemma_zeros_value(n);
    lemma_joined_digits(all, zeros(n));
    assert(whole[0] == all[0]);
    assert(text =~= whole + seq![46u8] + fraction);
    lemma_read_pointed(whole, fraction, 0);
    lemma_plain_form(whole, fraction);
    assert(whole + fraction =~= all + zeros(n + 1));
    lemma_zeros_added(all, n + 1);
}

proof fn lemma_java_middle(all: Seq<u8>, position: int)
    requires
        all.len() > 0,
        all_digits(all),
        all[0] != 48,
        0 < position <= 7,
        position < all.len(),
    ensures
        is_java_text(java_digits(all, position), all, position),
{
    let text = java_digits(all, position);
    let whole = all.take(position);
    let fraction = all.skip(position);
    lemma_digits_parts(all, position);
    assert(whole[0] == all[0]);
    assert(text =~= whole + seq![46u8] + fraction);
    lemma_read_pointed(whole, fraction, 0);
    lemma_plain_form(whole, fraction);
    assert(whole + fraction =~= all);
    lemma_nothing_added(digits_value(all));
}

proof fn lemma_java_fraction(all: Seq<u8>, position: int)
    requires
        all.len() > 0,
        all_digits(all),
        all[0] != 48,
        -3 < position <= 0,
    ensures
        is_java_text(java_digits(all, position), all, position),
{
    let text = java_digits(all, position);
    let n = (-position) as nat;
    let whole = seq![48u8];
    let fraction = zeros(n) + all;
    lemma_zeros_value(n);
    lemma_joined_digits(zeros(n), all);
    assert(text =~= whole + seq![46u8] + fraction);
    lemma_read_pointed(whole, fraction, 0);
    assert(fraction[n as int] == all[0]);
    lemma_plain_form(whole, fraction);
    assert(whole + fraction =~= zeros(n + 1) + all);
    lemma_zeros_in_front(all, n + 1);
    lemma_nothing_added(digits_value(all));
}

proof fn lemma_java_exponent(all: Seq<u8>, position: int)
    requires
        all.len() > 0,
        all_digits(all),
        all[0] != 48,
        position > 7 || position <= -3,
    ensures
        is_java_text(java_digits(all, position), all, position),
{
    let text = java_digits(all, position);
    let whole = all.take(1);
    lemma_digits_parts(all, 1);
    assert(whole[0] == all[0]);
    let fraction = if all.len() == 1 {
        seq![48u8]
    } else {
        all.skip(1)
    };
    assert(text =~= whole + seq![46u8] + fraction + seq![69u8] + number_text(position - 1));
    lemma_read_pointed(whole, fraction, position - 1);
    lemma_exponent_form(whole, fraction, position - 1);
    if all.len() == 1 {
        assert(whole + fraction =~= all + zeros(1));
        lemma_zeros_added(all, 1);
    } else {
        assert(whole + fraction =~= all);
        lemma_nothing_added(digits_value(all));
    }
}

/// Digits in the form of Java stand for the number that they stand for in front of their point.
proof fn lemma_java_digits(all: Seq<u8>, position: int)
    requires
        all.len() > 0,
        all_digits(all),
        all[0] != 48,
    ensures
        is_java_text(java_digits(all, position), all, position),
{
    if 0 < position <= 7 {
        if all.len() <= position {
            lemma_java_integer(all, position);
        } else {
            lemma_java_middle(all, position);
        }
    } else if -3 < position <= 0 {
        lemma_java_fraction(all, position);
    } else {
        lemma_java_exponent(all, position);
    }
}

proof fn lemma_digits_parts(all: Seq<u8>, n: int)
    requires
        all_digits(all),
        0 <= n <= all.len(),
    ensures
        all_digits(all.take(n)),
        all_digits(all.skip(n)),
{
    assert forall|i: int| 0 <= i < n implies 48 <= #[trigger] all.take(n)[i] <= 57 by {
        assert(48 <= all[i] <= 57);
    }
    assert forall|i: int| 0 <= i < all.len() - n implies 48 <= #[trigger] all.skip(n)[i] <= 57 by {
        assert(48 <= all[n + i] <= 57);
    }
}

/// The form in which Java writes a number without its sign. From a thousandth up to ten million there
/// is no exponent; every other number has one digit in front of its point, which is no zero.
pub open spec fn is_java_form(text: Seq<u8>) -> bool {
    let at = exponent_place(text);
    let front = text.take(at);
    let whole = before_byte(front, 46);
    behind_byte(front, 46) matches Some(fraction) && fraction.len() > 0 && if at < text.len() {
        &&& whole.len() == 1 && whole[0] != 48
        &&& text[at] == 69
        &&& read_exponent(text.skip(at + 1)) matches Some(exponent) && (exponent >= 7 || exponent < -3)
    } else {
        &&& whole.len() <= 7
        &&& whole == seq![48u8] ==> exists|i: int| 0 <= i < 3 && i < fraction.len() && #[trigger] fraction[i] != 48
    }
}

// ---------------------------------------------------------------- numbers

proof fn lemma_exponent_taken(text: Seq<u8>)
    requires
        all_digits(text),
        digits_value(text) <= i32::MAX,
    ensures
        exponent_digits(text) == Ok::<nat, Error>(digits_value(text)),
    decreases text.len(),
{
    if text.len() > 0 {
        let front = text.drop_last();
        assert forall|i: int| 0 <= i < front.len() implies 48 <= #[trigger] front[i] <= 57 by {
            assert(48 <= text[i] <= 57);
        }
        assert(48 <= text[text.len() - 1] <= 57);
        lemma_exponent_taken(front);
    }
}

/// The digits of a number that is read, without the zeros around them.
proof fn lemma_significant(mantissa: Seq<u8>, number: int, places: nat) -> (parts: (Seq<u8>, nat))
    requires
        read_decimal(mantissa) == Some((number, places)),
        !is_negative(mantissa),
        number != 0,
    ensures
        ({
            let all = without_dots(mantissa);
            let front = leading_zeros(all) as int;
            let (significant, t) = parts;
            &&& significant == trimmed(all.skip(front))
            &&& significant.len() > 0
            &&& all_digits(significant)
            &&& significant[0] != 48
            &&& number == digits_value(significant) * pow10(t)
            &&& significant.len() + t + front == first_of(mantissa, 46, 46) + places
        }),
{
    let all = without_dots(mantissa);
    let whole = before_byte(mantissa, 46);
    lemma_first_of_bounds(mantissa, 46, 46);
    let at = place_of_byte(mantissa, 46);
    match behind_byte(mantissa, 46) {
        None => {
            assert(mantissa.take(mantissa.len() as int) =~= mantissa);
            assert(whole == mantissa);
            lemma_dots_of_digits(mantissa);
        },
        Some(fraction) => {
            assert(mantissa =~= whole + seq![46u8] + fraction);
            lemma_dots_between(whole, fraction);
            lemma_joined_digits(whole, fraction);
        },
    }
    assert(all_digits(all) && digits_value(all) == number);
    assert(all.len() == at + places);
    lemma_leading(all);
    let rest = all.skip(leading_zeros(all) as int);
    if rest.len() == 0 {
        assert(digits_value(rest) == 0);
    }
    assert(rest[0] == all[leading_zeros(all) as int]);
    lemma_trimmed(rest);
    (trimmed(rest), (rest.len() - trimmed(rest).len()) as nat)
}

/// The sign, the digits and the exponent of a number that is read.
proof fn lemma_number_parts(bytes: Seq<u8>, coefficient: int, power: int)
    requires
        read_number(bytes) == Some((coefficient, power)),
    ensures
        ({
            let unsigned = without_minus(bytes);
            let end = first_of(unsigned, 101, 69);
            let exponent = if end < unsigned.len() {
                read_exponent(unsigned.skip(end + 1))
            } else {
                Some(0int)
            };
            let number = if is_negative(bytes) {
                -coefficient
            } else {
                coefficient
            };
            &&& 0 <= end <= unsigned.len()
            &&& exponent is Some
            &&& !is_negative(unsigned.take(end))
            &&& read_decimal(unsigned.take(end)) == Some((number, (exponent->0 - power) as nat))
            &&& exponent->0 >= power
        }),
{
    let unsigned = without_minus(bytes);
    let end = first_of(unsigned, 101, 69);
    let at = exponent_place(bytes);
    lemma_exponent_place(bytes);
    lemma_first_of_bounds(unsigned, 101, 69);
    let front = bytes.take(at);
    let mantissa = unsigned.take(end);
    if is_negative(bytes) {
        assert(front.skip(1) =~= mantissa);
        assert(is_negative(front));
        assert(without_minus(front) == mantissa);
        if end < unsigned.len() {
            assert(bytes.skip(at + 1) =~= unsigned.skip(end + 1));
        }
    } else {
        assert(front == mantissa);
        assert(!is_negative(front)) by {
            if front.len() > 0 {
                assert(front[0] == bytes[0]);
            }
        }
    }
    let whole = before_byte(mantissa, 46);
    lemma_first_of_bounds(mantissa, 46, 46);
    assert(is_whole(whole));
    assert(whole[0] == mantissa[0]);
    assert(48 <= whole[0] <= 57);
}

/// A number other than zero has a text in the form of Java as soon as its shortest text can be read,
/// and both texts stand for the same number.
pub proof fn doubles_keep_their_value(raw: String, coefficient: int, power: int)
    requires
        read_number(encode_utf8(raw@)) == Some((coefficient, power)),
        coefficient != 0,
        ({
            let bytes = encode_utf8(raw@);
            let at = exponent_place(bytes);
            at < bytes.len() ==> (read_exponent(bytes.skip(at + 1)) matches Some(exponent) && -i32::MAX <= exponent <= i32::MAX)
        }),
    ensures
        java_text(raw) matches Ok(text) && is_java_form(without_minus(text)) && is_negative(text) == (coefficient < 0) && (read_number(
            text,
        ) matches Some(number) && is_same_number(number, (coefficient, power))),
{
    let bytes = encode_utf8(raw@);
    let negative = is_negative(bytes);
    let unsigned = without_minus(bytes);
    let end = first_of(unsigned, 101, 69);
    let mantissa = unsigned.take(end);
    let number = if negative {
        -coefficient
    } else {
        coefficient
    };
    lemma_number_parts(bytes, coefficient, power);
    lemma_exponent_place(bytes);
    let exponent = if end < unsigned.len() {
        read_exponent(unsigned.skip(end + 1))->0
    } else {
        0
    };
    let places = (exponent - power) as nat;
    if end < unsigned.len() {
        let told = unsigned.skip(end + 1);
        assert(bytes.skip(exponent_place(bytes) + 1) =~= told);
        let rest = if told.len() > 0 && (told[0] == 45 || told[0] == 43) {
            told.skip(1)
        } else {
            told
        };
        lemma_exponent_taken(rest);
        assert(exponent_value(told) == Ok::<int, Error>(exponent));
    }
    let (significant, t) = lemma_significant(mantissa, number, places);
    let all = without_dots(mantissa);
    let position = first_of(mantissa, 46, 46) + exponent - leading_zeros(all) as int;
    lemma_java_digits(significant, position);
    let plain = java_digits(significant, position);
    let text = java_text(raw)->Ok_0;
    let u = zeros_behind(significant, position);
    let v = digits_value(significant) as int;
    let p = position - significant.len();
    assert(power == p - t);
    if negative {
        assert(text == seq![45u8] + plain);
        lemma_negated(plain, v * pow10(u), p - u);
        assert(text.skip(1) =~= plain);
        assert(-(v * pow10(u)) == (-v) * pow10(u)) by (nonlinear_arith);
        assert(-(v * pow10(t)) == (-v) * pow10(t)) by (nonlinear_arith);
        lemma_same_number(-v, p, u, t);
    } else {
        lemma_same_number(v, p, u, t);
    }
    assert(number >= 0) by {
        assert(v * pow10(t) >= 0) by (nonlinear_arith)
            requires
                v >= 0,
                pow10(t) >= 0,
        ;
    }
}

/// A minus in front of a number makes it negative.
proof fn lemma_negated(plain: Seq<u8>, coefficient: int, power: int)
    requires
        read_number(plain) == Some((coefficient, power)),
        plain.len() > 0,
        !is_negative(plain),
    ensures
        read_number(seq![45u8] + plain) == Some((-coefficient, power)),
{
    let text = seq![45u8] + plain;
    assert(text.skip(1) =~= plain);
    lemma_exponent_place(text);
    lemma_exponent_place(plain);
    let at = exponent_place(plain);
    assert(exponent_place(text) == at + 1);
    let front = text.take(at + 1);
    assert(front.skip(1) =~= plain.take(at));
    assert(is_negative(front));
    assert(without_minus(front) == plain.take(at));
    assert(!is_negative(plain.take(at))) by {
        if plain.take(at).len() > 0 {
            assert(plain.take(at)[0] == plain[0]);
        }
    }
    if at < plain.len() {
        assert(text.skip(at + 2) =~= plain.skip(at + 1));
    }
}

/// Zero is told with its sign, and is read as zero.
pub proof fn zeros_keep_their_sign(plan: PlanView)
    ensures
        double_text(0, plan) matches Ok(text) && !is_negative(text) && read_number(text) == Some((0int, -1int)),
        double_text(SIGN_BIT, plan) matches Ok(text) && is_negative(text) && read_number(text) == Some((0int, -1int)),
{
    let plain = zero_text();
    assert(plain =~= seq![48u8] + seq![46u8] + seq![48u8]);
    lemma_read_pointed(seq![48u8], seq![48u8], 0);
    let both = seq![48u8] + seq![48u8];
    assert(both =~= zeros(2));
    lemma_zeros_value(2);
    lemma_negated(plain, 0, -1);
}

// ---------------------------------------------------------------- how large numbers are

/// The numbers that differ by their fractions alone.
pub const FRACTIONS: u64 = 0x10_0000_0000_0000;

/// How large a number is, counted in the smallest number above zero, which is 2 to the power of -1074.
pub open spec fn double_units(magnitude: nat) -> nat {
    let exponent = magnitude / FRACTIONS as nat;
    let fraction = magnitude % FRACTIONS as nat;
    if exponent == 0 {
        fraction
    } else {
        (fraction + FRACTIONS as nat) * pow2((exponent - 1) as nat)
    }
}

/// The next magnitude is the next larger number.
proof fn lemma_next_double(magnitude: nat)
    ensures
        double_units(magnitude) < double_units(magnitude + 1),
{
    let exponent = magnitude / FRACTIONS as nat;
    let fraction = magnitude % FRACTIONS as nat;
    let next = magnitude + 1;
    if exponent > 0 {
        lemma_pow2_pos((exponent - 1) as nat);
    }
    if fraction + 1 < FRACTIONS {
        assert(next / FRACTIONS as nat == exponent && next % FRACTIONS as nat == fraction + 1);
        if exponent > 0 {
            let p = pow2((exponent - 1) as nat);
            let m = fraction + FRACTIONS as nat;
            assert(m * p < (m + 1) * p) by (nonlinear_arith)
                requires
                    p > 0,
            ;
        }
    } else {
        assert(next / FRACTIONS as nat == exponent + 1 && next % FRACTIONS as nat == 0);
        if exponent == 0 {
            lemma2_to64();
            assert((0 + FRACTIONS as nat) * 1 == FRACTIONS) by (nonlinear_arith);
        } else {
            let p = pow2((exponent - 1) as nat);
            lemma_pow2_unfold(exponent);
            assert(pow2(exponent) == 2 * p);
            let n = FRACTIONS as nat;
            assert((n - 1 + n) * p < (0 + n) * (2 * p)) by (nonlinear_arith)
                requires
                    p > 0,
            ;
        }
    }
}

proof fn lemma_larger_double(a: nat, b: nat)
    requires
        a <= b,
    ensures
        double_units(a) <= double_units(b),
    decreases b - a,
{
    if a < b {
        lemma_larger_double(a, (b - 1) as nat);
        lemma_next_double((b - 1) as nat);
    }
}

/// The numbers whose texts are not asked for are zero and those from a millionth, as nearly as a number
/// can be to it, up to a thousand millions.
pub proof fn exact_doubles_are_neither_small_nor_large(bits: u64)
    requires
        is_finite(bits),
    ensures
        is_exact(bits) <==> {
            let units = double_units(magnitude_bits(bits) as nat);
            units == 0 || (1_000_000 * (units + pow2(1002)) > pow2(1074) && units <= 1_000_000_000 * pow2(1074))
        },
{
    let magnitude = magnitude_bits(bits) as nat;
    let units = double_units(magnitude);
    let p = pow2(1002);
    let one = pow2(1074);
    lemma_pow2_pos(1002);
    lemma2_to64();
    lemma_pow2_adds(64, 8);
    lemma_pow2_adds(72, 1002);
    assert(one == 4_722_366_482_869_645_213_696 * p);
    let smallest: nat = 0x3eb0_c6f7_a0b5_ed8d;
    let largest: nat = 0x41cd_cd65_0000_0000;
    assert(smallest / FRACTIONS as nat == 1003 && smallest % FRACTIONS as nat == 0xc6f7_a0b5_ed8d);
    assert(double_units(smallest) == 4_722_366_482_869_645 * p);
    let below: nat = 0x3eb0_c6f7_a0b5_ed8c;
    assert(below / FRACTIONS as nat == 1003 && below % FRACTIONS as nat == 0xc6f7_a0b5_ed8c);
    assert(double_units(below) == 4_722_366_482_869_644 * p);
    assert(largest / FRACTIONS as nat == 1052 && largest % FRACTIONS as nat == 0xd_cd65_0000_0000);
    lemma_pow2_adds(23, 1051);
    let q = pow2(1051);
    assert(pow2(23) == 8_388_608);
    assert(pow2(23) * q == 8_388_608 * q);
    assert(one == 8_388_608 * q);
    assert(double_units(largest) == 8_388_608_000_000_000 * q);
    assert(double_units(largest) == 1_000_000_000 * one);
    if magnitude > 0 {
        lemma_larger_double(1, magnitude);
        assert(double_units(1) == 1);
    }
    if magnitude <= below {
        lemma_larger_double(magnitude, below);
    } else {
        lemma_larger_double(smallest, magnitude);
    }
    if magnitude <= largest {
        lemma_larger_double(magnitude, largest);
    } else {
        lemma_next_double(largest);
        lemma_larger_double(largest + 1, magnitude);
    }
}

} // verus!
