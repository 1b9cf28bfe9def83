//! The text of single values in columnar JSON.
use vstd::prelude::*;
use vstd::slice::slice_subrange;
use vstd::utf8::encode_utf8;
use crate::decimal::{sign_extended, signed_value};
use crate::error::Error;
use crate::json_numbers::{decimals_read_back, integers_read_back, read_decimal, read_integer};
use crate::output::{writes_within, OutputFile};

verus! {

/// No more than this is written or kept at once.
pub const REPEATED_VALUE_BUFFER_BYTES: usize = 65_536;

/// What a write of `bytes` leaves behind: it appends them, or it fails with an output error where
/// the output may fail.
pub open spec fn appends<W: OutputFile>(before: W, after: W, result: Result<(), Error>, bytes: Seq<u8>) -> bool {
    &&& result is Ok ==> after.written() == before.written() + bytes
    &&& result matches Err(e) ==> e is Io && !before.never_fails()
    &&& after.never_fails() == before.never_fails()
}

// ---------------------------------------------------------------- escapes

/// A digit of a number to the base of 16.
pub open spec fn hex_digit(v: int) -> u8 {
    if v < 10 {
        (48 + v) as u8
    } else {
        (87 + v) as u8
    }
}

/// A byte inside a quoted text.
pub open spec fn escape_byte(b: u8) -> Seq<u8> {
    if b == 0x22 {
        seq![0x5cu8, 0x22u8]
    } else if b == 0x5c {
        seq![0x5cu8, 0x5cu8]
    } else if b == 0x08 {
        seq![0x5cu8, 0x62u8]
    } else if b == 0x0c {
        seq![0x5cu8, 0x66u8]
    } else if b == 0x0a {
        seq![0x5cu8, 0x6eu8]
    } else if b == 0x0d {
        seq![0x5cu8, 0x72u8]
    } else if b == 0x09 {
        seq![0x5cu8, 0x74u8]
    } else if b < 0x20 {
        seq![0x5cu8, 0x75u8, 0x30u8, 0x30u8, hex_digit(b as int / 16), hex_digit(b as int % 16)]
    } else {
        seq![b]
    }
}

/// Text inside quotes.
pub open spec fn escaped(text: Seq<u8>) -> Seq<u8>
    decreases text.len(),
{
    if text.len() == 0 {
        Seq::empty()
    } else {
        escaped(text.drop_last()) + escape_byte(text.last())
    }
}

/// The byte stands for itself inside quotes.
pub open spec fn is_plain(b: u8) -> bool {
    b >= 0x20 && b != 0x22 && b != 0x5c
}

pub proof fn lemma_escaped_add(a: Seq<u8>, b: Seq<u8>)
    ensures
        escaped(a + b) == escaped(a) + escaped(b),
    decreases b.len(),
{
    if b.len() == 0 {
        assert(a + b =~= a);
        assert(escaped(a) + escaped(b) =~= escaped(a));
    } else {
        lemma_escaped_add(a, b.drop_last());
        assert((a + b).drop_last() =~= a + b.drop_last());
        assert((a + b).last() == b.last());
        assert(escaped(a + b) =~= escaped(a) + escaped(b));
    }
}

pub proof fn lemma_escaped_plain(text: Seq<u8>)
    requires
        forall|i: int| 0 <= i < text.len() ==> is_plain(#[trigger] text[i]),
    ensures
        escaped(text) == text,
    decreases text.len(),
{
    if text.len() > 0 {
        let front = text.drop_last();
        assert forall|i: int| 0 <= i < front.len() implies is_plain(#[trigger] front[i]) by {
            assert(is_plain(text[i]));
        }
        lemma_escaped_plain(front);
        assert(is_plain(text[text.len() - 1]));
        assert(escaped(text) =~= text);
    } else {
        assert(escaped(text) =~= text);
    }
}

fn hex_of(v: u8) -> (digit: u8)
    requires
        v < 16,
    ensures
        digit == hex_digit(v as int),
{
    if v < 10 {
        48 + v
    } else {
        87 + v
    }
}

/// The escape of a byte that does not stand for itself.
fn escape_of(b: u8) -> (bytes: Vec<u8>)
    requires
        !is_plain(b),
    ensures
        bytes@ == escape_byte(b),
{
    let mut bytes: Vec<u8> = Vec::new();
    bytes.push(0x5c);
    if b == 0x22 {
        bytes.push(0x22);
    } else if b == 0x5c {
        bytes.push(0x5c);
    } else if b == 0x08 {
        bytes.push(0x62);
    } else if b == 0x0c {
        bytes.push(0x66);
    } else if b == 0x0a {
        bytes.push(0x6e);
    } else if b == 0x0d {
        bytes.push(0x72);
    } else if b == 0x09 {
        bytes.push(0x74);
    } else {
        bytes.push(0x75);
        bytes.push(0x30);
        bytes.push(0x30);
        bytes.push(hex_of(b / 16));
        bytes.push(hex_of(b % 16));
    }
    assert(bytes@ =~= escape_byte(b));
    bytes
}

/// The most bytes that text inside quotes needs at once: those of a run, or of an escape.
pub open spec fn longest_part(text: Seq<u8>) -> nat {
    if text.len() < 6 {
        6
    } else {
        text.len()
    }
}

/// Writes text inside quotes; runs of bytes that stand for themselves are written at once.
pub fn write_escaped_utf8<W: OutputFile>(output: &mut W, value: &[u8]) -> (result: Result<(), Error>)
    ensures
        appends(*old(output), *final(output), result, escaped(value@)),
        writes_within(*old(output), *final(output), longest_part(value@)),
{
    let ghost start = output.written();
    let mut safe_start: usize = 0;
    let mut index: usize = 0;
    assert(value@.take(0) =~= Seq::<u8>::empty());
    assert(output.written() =~= start + escaped(value@.take(0)));
    while index < value.len()
        invariant
            output.never_fails() == old(output).never_fails(),
            writes_within(*old(output), *output, longest_part(value@)),
            safe_start <= index <= value@.len(),
            forall|i: int| safe_start <= i < index ==> is_plain(#[trigger] value@[i]),
            output.written() == start + escaped(value@.take(safe_start as int)),
            start == old(output).written(),
        decreases value@.len() - index,
    {
        let current: u8 = value[index];
        if !(current >= 0x20 && current != 0x22 && current != 0x5c) {
            proof {
                lemma_escaped_run(value@, safe_start as int, index as int);
                assert(value@.take(index + 1).drop_last() =~= value@.take(index as int));
            }
            if safe_start < index {
                match output.write(slice_subrange(value, safe_start, index)) {
                    Ok(_) => {},
                    Err(e) => {
                        return Err(e);
                    },
                }
            }
            assert(output.written() =~= start + escaped(value@.take(index as int)));
            let bytes: Vec<u8> = escape_of(current);
            match output.write(bytes.as_slice()) {
                Ok(_) => {},
                Err(e) => {
                    return Err(e);
                },
            }
            safe_start = index + 1;
            assert(output.written() =~= start + escaped(value@.take(safe_start as int)));
        }
        index += 1;
    }
    proof {
        lemma_escaped_run(value@, safe_start as int, index as int);
        assert(value@.take(index as int) =~= value@);
    }
    if safe_start < value.len() {
        match output.write(slice_subrange(value, safe_start, value.len())) {
            Ok(_) => {},
            Err(e) => {
                return Err(e);
            },
        }
    }
    assert(output.written() =~= start + escaped(value@));
    Ok(())
}

proof fn lemma_escaped_run(text: Seq<u8>, from: int, to: int)
    requires
        0 <= from <= to <= text.len(),
        forall|i: int| from <= i < to ==> is_plain(#[trigger] text[i]),
    ensures
        escaped(text.take(to)) == escaped(text.take(from)) + text.subrange(from, to),
        from == to ==> escaped(text.take(to)) == escaped(text.take(from)),
{
    let run = text.subrange(from, to);
    assert forall|i: int| 0 <= i < run.len() implies is_plain(#[trigger] run[i]) by {
        assert(is_plain(text[from + i]));
    }
    lemma_escaped_plain(run);
    assert(text.take(from) + run =~= text.take(to));
    lemma_escaped_add(text.take(from), run);
}

/// How many bytes text takes inside quotes, unless they are too many to count.
pub fn escaped_utf8_len(value: &[u8]) -> (result: Result<usize, Error>)
    ensures
        escaped(value@).len() <= usize::MAX ==> result == Ok::<usize, Error>(escaped(value@).len() as usize),
        escaped(value@).len() > usize::MAX ==> result == Err::<usize, Error>(Error::OutputBudgetExceeded),
{
    let mut length: usize = 0;
    let mut i: usize = 0;
    assert(value@.take(0) =~= Seq::<u8>::empty());
    while i < value.len()
        invariant
            i <= value@.len(),
            length == escaped(value@.take(i as int)).len(),
        decreases value@.len() - i,
    {
        let b: u8 = value[i];
        let bytes: usize = if b == 0x22 || b == 0x5c || b == 0x08 || b == 0x0c || b == 0x0a || b == 0x0d || b == 0x09 {
            2
        } else if b < 0x20 {
            6
        } else {
            1
        };
        proof {
            assert(value@.take(i + 1).drop_last() =~= value@.take(i as int));
            assert(value@.take(i + 1) + value@.skip(i + 1) =~= value@);
            lemma_escaped_add(value@.take(i + 1), value@.skip(i + 1));
        }
        match length.checked_add(bytes) {
            Some(next) => {
                length = next;
            },
            None => {
                return Err(Error::OutputBudgetExceeded);
            },
        }
        i += 1;
    }
    assert(value@.take(i as int) =~= value@);
    Ok(length)
}

/// Writes text inside quotes, a part of bounded size at a time.
pub fn write_escaped_utf8_chunked<W: OutputFile>(output: &mut W, value: &[u8]) -> (result: Result<(), Error>)
    ensures
        appends(*old(output), *final(output), result, escaped(value@)),
        writes_within(*old(output), *final(output), REPEATED_VALUE_BUFFER_BYTES as nat),
{
    let ghost start = output.written();
    let mut at: usize = 0;
    assert(value@.take(0) =~= Seq::<u8>::empty());
    assert(output.written() =~= start + escaped(value@.take(0)));
    while at < value.len()
        invariant
            output.never_fails() == old(output).never_fails(),
            writes_within(*old(output), *output, REPEATED_VALUE_BUFFER_BYTES as nat),
            at <= value@.len(),
            start == old(output).written(),
            output.written() == start + escaped(value@.take(at as int)),
        decreases value@.len() - at,
    {
        let end: usize = if value.len() - at > REPEATED_VALUE_BUFFER_BYTES {
            at + REPEATED_VALUE_BUFFER_BYTES
        } else {
            value.len()
        };
        let part: &[u8] = slice_subrange(value, at, end);
        proof {
            assert(value@.take(at as int) + part@ =~= value@.take(end as int));
            lemma_escaped_add(value@.take(at as int), part@);
        }
        match write_escaped_utf8(output, part) {
            Ok(_) => {},
            Err(e) => {
                return Err(e);
            },
        }
        assert(output.written() =~= start + escaped(value@.take(end as int)));
        at = end;
    }
    assert(value@.take(at as int) =~= value@);
    Ok(())
}

/// The escaped text takes no more than this many bytes: it is written as a whole only below it.
pub fn is_oversized_escaped_utf8(value: &[u8]) -> (result: Result<bool, Error>)
    ensures
        escaped(value@).len() <= usize::MAX ==> result == Ok::<bool, Error>(escaped(value@).len() >= REPEATED_VALUE_BUFFER_BYTES),
        escaped(value@).len() > usize::MAX ==> result == Err::<bool, Error>(Error::OutputBudgetExceeded),
{
    match escaped_utf8_len(value) {
        Ok(length) => Ok(length >= REPEATED_VALUE_BUFFER_BYTES),
        Err(e) => Err(e),
    }
}

// ---------------------------------------------------------------- numbers

/// The digits of a number.
pub open spec fn digits(v: nat) -> Seq<u8>
    decreases v,
{
    if v < 10 {
        seq![(48 + v) as u8]
    } else {
        digits(v / 10).push((48 + v % 10) as u8)
    }
}

pub open spec fn magnitude(v: int) -> nat {
    if v < 0 {
        (-v) as nat
    } else {
        v as nat
    }
}

/// A number as text.
pub open spec fn number_text(v: int) -> Seq<u8> {
    if v < 0 {
        seq![45u8] + digits(magnitude(v))
    } else {
        digits(magnitude(v))
    }
}

/// A comma, if there is something before.
pub open spec fn separated(separator: bool, text: Seq<u8>) -> Seq<u8> {
    if separator {
        seq![44u8] + text
    } else {
        text
    }
}

/// The digits of a number.
fn digits_of(v: u128) -> (text: Vec<u8>)
    ensures
        text@ == digits(v as nat),
    decreases v,
{
    if v < 10 {
        let mut text: Vec<u8> = Vec::new();
        text.push(48 + v as u8);
        assert(text@ =~= digits(v as nat));
        text
    } else {
        let mut text: Vec<u8> = digits_of(v / 10);
        text.push(48 + (v % 10) as u8);
        text
    }
}

fn unsigned_abs(value: i128) -> (m: u128)
    ensures
        m == magnitude(value as int),
{
    if value >= 0 {
        value as u128
    } else if value == i128::MIN {
        0x8000_0000_0000_0000_0000_0000_0000_0000u128
    } else {
        (-value) as u128
    }
}

/// What was written, apart from the comma in front of it.
pub open spec fn appended<W: OutputFile>(before: W, after: W, separator: bool) -> Seq<u8> {
    after.written().skip(
        (before.written().len() + if separator {
            1int
        } else {
            0int
        }) as int,
    )
}

proof fn lemma_appended(before: Seq<u8>, separator: bool, text: Seq<u8>)
    ensures
        (before + separated(separator, text)).skip(
            (before.len() + if separator {
                1int
            } else {
                0int
            }) as int,
        ) == text,
{
    assert((before + separated(separator, text)).skip(
        (before.len() + if separator {
            1int
        } else {
            0int
        }) as int,
    ) =~= text);
}

/// Writes a number, behind a comma if there is something before it.
pub fn write_i64_value<W: OutputFile>(output: &mut W, value: i64, separator: bool) -> (result: Result<(), Error>)
    ensures
        appends(*old(output), *final(output), result, separated(separator, number_text(value as int))),
        result is Ok ==> read_integer(appended(*old(output), *final(output), separator)) == Some(value as int),
{
    proof {
        integers_read_back(value as int);
        lemma_appended(output.written(), separator, number_text(value as int));
    }
    let mut text: Vec<u8> = Vec::new();
    if separator {
        text.push(44);
    }
    if value < 0 {
        text.push(45);
    }
    let mut all: Vec<u8> = digits_of(unsigned_abs(value as i128));
    text.append(&mut all);
    assert(text@ =~= separated(separator, number_text(value as int)));
    output.write(text.as_slice())
}

pub fn write_i64<W: OutputFile>(output: &mut W, value: i64) -> (result: Result<(), Error>)
    ensures
        appends(*old(output), *final(output), result, number_text(value as int)),
{
    write_i64_value(output, value, false)
}

/// How many digits a number has.
pub fn decimal_digits(value: i128) -> (count: usize)
    ensures
        count == digits(magnitude(value as int)).len(),
        1 <= count <= 39,
{
    let mut rest: u128 = unsigned_abs(value);
    let ghost all = rest as nat;
    let mut count: usize = 1;
    proof {
        lemma_digit_count(all, 39);
    }
    while rest >= 10
        invariant
            1 <= count,
            count - 1 + digits(rest as nat).len() == digits(all).len(),
            digits(all).len() <= 39,
        decreases rest,
    {
        proof {
            lemma_digits_nonempty((rest / 10) as nat);
        }
        rest = rest / 10;
        count += 1;
    }
    count
}

pub open spec fn pow10(n: nat) -> nat
    decreases n,
{
    if n == 0 {
        1
    } else {
        10 * pow10((n - 1) as nat)
    }
}

proof fn lemma_digits_nonempty(v: nat)
    ensures
        digits(v).len() >= 1,
    decreases v,
{
    if v >= 10 {
        lemma_digits_nonempty(v / 10);
    }
}

/// A number below a power of ten has no more digits than the power has zeros.
pub proof fn lemma_digit_bound(v: nat, n: nat)
    requires
        n >= 1,
        v < pow10(n),
    ensures
        1 <= digits(v).len() <= n,
    decreases n,
{
    lemma_digits_nonempty(v);
    if v >= 10 {
        assert(n > 1) by {
            reveal_with_fuel(pow10, 2);
        }
        lemma_digit_bound(v / 10, (n - 1) as nat);
    }
}

/// Every number of 128 bits has at most 39 digits.
proof fn lemma_digit_count(v: nat, n: nat)
    requires
        v <= u128::MAX,
        n == 39,
    ensures
        1 <= digits(v).len() <= 39,
{
    assert(pow10(39) > u128::MAX) by {
        reveal_with_fuel(pow10, 40);
    }
    lemma_digit_bound(v, 39);
}

/// Reads a number with its sign.
pub fn decode_signed_i128(bytes: &[u8]) -> (result: Result<i128, Error>)
    ensures
        1 <= bytes@.len() <= 16 ==> (result matches Ok(v) && v == signed_value(bytes@)),
        !(1 <= bytes@.len() <= 16) ==> result == Err::<i128, Error>(Error::InvalidDecimalWidth { width: bytes@.len() as usize }),
{
    if bytes.len() == 0 || bytes.len() > 16 {
        return Err(Error::InvalidDecimalWidth { width: bytes.len() });
    }
    Ok(sign_extended(bytes))
}

// ---------------------------------------------------------------- decimals

/// Zeros.
pub open spec fn zeros(n: nat) -> Seq<u8> {
    Seq::new(n, |i: int| 48u8)
}

/// Digits with a decimal point so many places from the end.
pub open spec fn pointed(all: Seq<u8>, scale: int) -> Seq<u8> {
    if scale == 0 {
        all
    } else if scale < 0 {
        all + zeros((-scale) as nat)
    } else if all.len() > scale {
        all.take(all.len() - scale) + seq![46u8] + all.skip(all.len() - scale)
    } else {
        seq![48u8, 46u8] + zeros((scale - all.len()) as nat) + all
    }
}

/// A number with a decimal point, without an exponent. Zero has no zeros behind it.
pub open spec fn decimal_text(value: int, scale: int) -> Seq<u8> {
    let all = pointed(
        digits(magnitude(value)),
        if value == 0 && scale < 0 {
            0
        } else {
            scale
        },
    );
    if value < 0 {
        seq![45u8] + all
    } else {
        all
    }
}

fn zeros_of(count: usize) -> (bytes: Vec<u8>)
    ensures
        bytes@ == zeros(count as nat),
{
    let bytes: Vec<u8> = vec![48u8; count];
    assert(bytes@ =~= zeros(count as nat));
    bytes
}

/// Writes zeros, a few at a time.
pub fn write_zeroes<W: OutputFile>(output: &mut W, count: usize) -> (result: Result<(), Error>)
    ensures
        appends(*old(output), *final(output), result, zeros(count as nat)),
{
    let ghost start = output.written();
    let mut done: usize = 0;
    assert(output.written() =~= start + zeros(0));
    while done < count
        invariant
            output.never_fails() == old(output).never_fails(),
            done <= count,
            start == old(output).written(),
            output.written() == start + zeros(done as nat),
        decreases count - done,
    {
        let part: usize = if count - done > 32 {
            32
        } else {
            count - done
        };
        let bytes: Vec<u8> = zeros_of(part);
        match output.write(bytes.as_slice()) {
            Ok(_) => {},
            Err(e) => {
                return Err(e);
            },
        }
        assert(output.written() =~= start + zeros((done + part) as nat));
        done += part;
    }
    Ok(())
}

fn point(all: Vec<u8>, scale: i8) -> (text: Vec<u8>)
    ensures
        text@ == pointed(all@, scale as int),
{
    let ghost number = all@;
    let mut rest: Vec<u8> = all;
    if scale == 0 {
        return rest;
    }
    if scale < 0 {
        let mut end: Vec<u8> = zeros_of((-(scale as i16)) as usize);
        rest.append(&mut end);
        assert(rest@ =~= number + zeros((-scale) as nat));
        return rest;
    }
    let places: usize = scale as usize;
    if rest.len() > places {
        let at: usize = rest.len() - places;
        let mut fraction: Vec<u8> = rest.split_off(at);
        rest.push(46);
        rest.append(&mut fraction);
        assert(rest@ =~= number.take(at as int) + seq![46u8] + number.skip(at as int));
        return rest;
    }
    let mut text: Vec<u8> = Vec::new();
    let mut fill: Vec<u8> = zeros_of(places - rest.len());
    text.push(48);
    text.push(46);
    text.append(&mut fill);
    text.append(&mut rest);
    assert(text@ =~= seq![48u8, 46u8] + zeros((places - number.len()) as nat) + number);
    text
}

/// Writes a number with a decimal point.
pub fn write_decimal<W: OutputFile>(output: &mut W, value: i128, scale: i8, separator: bool) -> (result: Result<(), Error>)
    ensures
        appends(*old(output), *final(output), result, separated(separator, decimal_text(value as int, scale as int))),
        result is Ok && scale >= 0 ==> read_decimal(appended(*old(output), *final(output), separator)) == Some(
            (value as int, scale as nat),
        ),
        result is Ok && scale < 0 ==> read_decimal(appended(*old(output), *final(output), separator)) == Some(
            (value * pow10((-scale) as nat), 0nat),
        ),
{
    proof {
        decimals_read_back(value as int, scale as int);
        lemma_appended(output.written(), separator, decimal_text(value as int, scale as int));
    }
    let mut text: Vec<u8> = Vec::new();
    if separator {
        text.push(44);
    }
    if value < 0 {
        text.push(45);
    }
    let places: i8 = if value == 0 && scale < 0 {
        0
    } else {
        scale
    };
    let mut all: Vec<u8> = point(digits_of(unsigned_abs(value)), places);
    text.append(&mut all);
    assert(text@ =~= separated(separator, decimal_text(value as int, scale as int)));
    output.write(text.as_slice())
}

// ---------------------------------------------------------------- doubles

/// The exponent that text tells.
pub open spec fn exponent_value(text: Seq<u8>) -> Result<int, Error> {
    let negative = text.len() > 0 && text[0] == 45;
    let rest = if text.len() > 0 && (text[0] == 45 || text[0] == 43) {
        text.skip(1)
    } else {
        text
    };
    if rest.len() == 0 {
        Err(Error::MissingExponent)
    } else {
        match exponent_digits(rest) {
            Err(e) => Err(e),
            Ok(v) => Ok(
                if negative {
                    -(v as int)
                } else {
                    v as int
                },
            ),
        }
    }
}

/// The number that digits stand for; it has to fit 31 bits.
pub open spec fn exponent_digits(text: Seq<u8>) -> Result<nat, Error>
    decreases text.len(),
{
    if text.len() == 0 {
        Ok(0)
    } else {
        match exponent_digits(text.drop_last()) {
            Err(e) => Err(e),
            Ok(v) => if !(48 <= text.last() <= 57) {
                Err(Error::InvalidExponent)
            } else if 10 * v + (text.last() - 48) > i32::MAX {
                Err(Error::ExponentOverflow)
            } else {
                Ok((10 * v + (text.last() - 48)) as nat)
            },
        }
    }
}

proof fn lemma_exponent_error(text: Seq<u8>, i: int)
    requires
        0 <= i <= text.len(),
        exponent_digits(text.take(i)) is Err,
    ensures
        exponent_digits(text) == exponent_digits(text.take(i)),
    decreases text.len(),
{
    if i == text.len() {
        assert(text.take(i) =~= text);
    } else {
        assert(text.drop_last().take(i) =~= text.take(i));
        lemma_exponent_error(text.drop_last(), i);
    }
}

pub fn parse_exponent(value: &[u8]) -> (result: Result<i32, Error>)
    ensures
        match exponent_value(value@) {
            Ok(v) => result matches Ok(x) && x == v,
            Err(e) => result matches Err(x) && x == e,
        },
{
    let negative: bool = value.len() > 0 && value[0] == 45;
    let start: usize = if value.len() > 0 && (value[0] == 45 || value[0] == 43) {
        1
    } else {
        0
    };
    let ghost rest = value@.skip(start as int);
    assert(start == 0 ==> rest =~= value@);
    if start == value.len() {
        return Err(Error::MissingExponent);
    }
    let mut exponent: i32 = 0;
    let mut i: usize = start;
    assert(rest.take(0) =~= Seq::<u8>::empty());
    while i < value.len()
        invariant
            start <= i <= value@.len(),
            rest == value@.skip(start as int),
            rest.len() > 0,
            negative == (value@.len() > 0 && value@[0] == 45),
            start == (if value@.len() > 0 && (value@[0] == 45 || value@[0] == 43) {
                1int
            } else {
                0int
            }),
            start == 0 ==> rest == value@,
            exponent >= 0,
            exponent_digits(rest.take(i - start)) == Ok::<nat, Error>(exponent as nat),
        decreases value@.len() - i,
    {
        let digit: u8 = value[i];
        proof {
            assert(rest.take(i - start + 1).drop_last() =~= rest.take(i - start));
            if exponent_digits(rest.take(i - start + 1)) is Err {
                lemma_exponent_error(rest, i - start + 1);
            }
        }
        if !(48 <= digit && digit <= 57) {
            return Err(Error::InvalidExponent);
        }
        let next: i64 = 10 * (exponent as i64) + (digit - 48) as i64;
        if next > i32::MAX as i64 {
            return Err(Error::ExponentOverflow);
        }
        exponent = next as i32;
        i += 1;
    }
    assert(rest.take(i - start) =~= rest);
    if negative {
        Ok(-exponent)
    } else {
        Ok(exponent)
    }
}

/// The place of the first byte that is one of the two; the length if there is none.
pub open spec fn first_of(text: Seq<u8>, a: u8, b: u8) -> int
    decreases text.len(),
{
    if text.len() == 0 || text[0] == a || text[0] == b {
        0
    } else {
        1 + first_of(text.skip(1), a, b)
    }
}

proof fn lemma_first_of(text: Seq<u8>, a: u8, b: u8, i: int)
    requires
        0 <= i <= text.len(),
        forall|j: int| 0 <= j < i ==> #[trigger] text[j] != a && text[j] != b,
        i < text.len() ==> text[i] == a || text[i] == b,
    ensures
        first_of(text, a, b) == i,
    decreases text.len(),
{
    if i > 0 {
        assert(text[0] != a && text[0] != b);
        let rest = text.skip(1);
        assert forall|j: int| 0 <= j < i - 1 implies #[trigger] rest[j] != a && rest[j] != b by {
            assert(text[j + 1] != a);
        }
        lemma_first_of(rest, a, b, i - 1);
    }
}

fn find_first(text: &[u8], from: usize, to: usize, a: u8, b: u8) -> (at: usize)
    requires
        from <= to <= text@.len(),
    ensures
        from <= at <= to,
        at - from == first_of(text@.subrange(from as int, to as int), a, b),
{
    let ghost part = text@.subrange(from as int, to as int);
    let mut i: usize = from;
    while i < to && text[i] != a && text[i] != b
        invariant
            from <= i <= to <= text@.len(),
            part == text@.subrange(from as int, to as int),
            forall|j: int| 0 <= j < i - from ==> #[trigger] part[j] != a && part[j] != b,
        decreases to - i,
    {
        i += 1;
    }
    proof {
        lemma_first_of(part, a, b, i - from);
    }
    i
}

/// The bytes that are no dots.
pub open spec fn without_dots(text: Seq<u8>) -> Seq<u8>
    decreases text.len(),
{
    if text.len() == 0 {
        Seq::empty()
    } else if text.last() == 46 {
        without_dots(text.drop_last())
    } else {
        without_dots(text.drop_last()).push(text.last())
    }
}

/// How many zeros stand at the front.
pub open spec fn leading_zeros(text: Seq<u8>) -> nat
    decreases text.len(),
{
    if text.len() > 0 && text[0] == 48 {
        1 + leading_zeros(text.skip(1))
    } else {
        0
    }
}

/// The text without zeros at its end; one byte stays.
pub open spec fn trimmed(text: Seq<u8>) -> Seq<u8>
    decreases text.len(),
{
    if text.len() > 1 && text.last() == 48 {
        trimmed(text.drop_last())
    } else {
        text
    }
}

proof fn lemma_leading_zeros(text: Seq<u8>, n: int)
    requires
        0 <= n <= text.len(),
        forall|i: int| 0 <= i < n ==> #[trigger] text[i] == 48,
        n < text.len() ==> text[n] != 48,
    ensures
        leading_zeros(text) == n,
    decreases text.len(),
{
    if n > 0 {
        assert(text[0] == 48);
        let rest = text.skip(1);
        assert forall|i: int| 0 <= i < n - 1 implies #[trigger] rest[i] == 48 by {
            assert(text[i + 1] == 48);
        }
        lemma_leading_zeros(rest, n - 1);
    }
}

/// Digits with the point `position` places from their front, as they are written in Java.
pub open spec fn java_digits(all: Seq<u8>, position: int) -> Seq<u8> {
    if 0 < position <= 7 {
        if all.len() <= position {
            all + zeros((position - all.len()) as nat) + seq![46u8, 48u8]
        } else {
            all.take(position) + seq![46u8] + all.skip(position)
        }
    } else if -3 < position <= 0 {
        seq![48u8, 46u8] + zeros((-position) as nat) + all
    } else {
        all.take(1) + seq![46u8] + (if all.len() == 1 {
            seq![48u8]
        } else {
            all.skip(1)
        }) + seq![69u8] + number_text(position - 1)
    }
}

/// What the text of a number that is not infinite is written as in Java.
pub open spec fn java_text(raw: String) -> Result<Seq<u8>, Error> {
    let bytes = encode_utf8(raw@);
    let negative = bytes.len() > 0 && bytes[0] == 45;
    let unsigned = if negative {
        bytes.skip(1)
    } else {
        bytes
    };
    let end = first_of(unsigned, 101, 69);
    let mantissa = unsigned.take(end);
    match if end < unsigned.len() {
        exponent_value(unsigned.skip(end + 1))
    } else {
        Ok(0)
    } {
        Err(e) => Err(e),
        Ok(exponent) => {
            let all = without_dots(mantissa);
            let front = leading_zeros(all) as int;
            let significant = trimmed(all.skip(front));
            if significant.len() == 0 {
                Err(Error::InvalidDoubleText { rendering: raw })
            } else {
                let text = java_digits(significant, first_of(mantissa, 46, 46) + exponent - front);
                Ok(
                    if negative {
                        seq![45u8] + text
                    } else {
                        text
                    },
                )
            }
        },
    }
}

fn drop_dots(text: &[u8], from: usize, to: usize) -> (rest: Vec<u8>)
    requires
        from <= to <= text@.len(),
    ensures
        rest@ == without_dots(text@.subrange(from as int, to as int)),
        rest@.len() <= to - from,
{
    let ghost part = text@.subrange(from as int, to as int);
    let mut rest: Vec<u8> = Vec::new();
    let mut i: usize = from;
    assert(part.take(0) =~= Seq::<u8>::empty());
    while i < to
        invariant
            from <= i <= to <= text@.len(),
            part == text@.subrange(from as int, to as int),
            rest@ == without_dots(part.take(i - from)),
            rest@.len() <= i - from,
        decreases to - i,
    {
        assert(part.take(i - from + 1).drop_last() =~= part.take(i - from));
        if text[i] != 46 {
            rest.push(text[i]);
        }
        i += 1;
    }
    assert(part.take(i - from) =~= part);
    rest
}

/// Takes the zeros away that stand at the front, and those at the end.
fn significant_of(all: Vec<u8>) -> (found: (Vec<u8>, usize))
    ensures
        found.1 == leading_zeros(all@),
        found.0@ == trimmed(all@.skip(leading_zeros(all@) as int)),
        found.1 <= all@.len(),
{
    let mut rest: Vec<u8> = all;
    let mut front: usize = 0;
    while front < rest.len() && rest[front] == 48
        invariant
            front <= rest@.len(),
            forall|i: int| 0 <= i < front ==> #[trigger] rest@[i] == 48,
        decreases rest@.len() - front,
    {
        front += 1;
    }
    proof {
        lemma_leading_zeros(rest@, front as int);
    }
    let mut digits: Vec<u8> = rest.split_off(front);
    let ghost whole = digits@;
    assert(whole =~= all@.skip(front as int));
    while digits.len() > 1 && digits[digits.len() - 1] == 48
        invariant
            trimmed(digits@) == trimmed(whole),
        decreases digits@.len(),
    {
        let ghost before = digits@;
        digits.pop();
        assert(digits@ =~= before.drop_last());
    }
    (digits, front)
}

fn write_digits_in_java_style(all: &Vec<u8>, position: i128) -> (text: Vec<u8>)
    requires
        all@.len() > 0,
        -0x1_0000_0000_0000_0000_0000 < position < 0x1_0000_0000_0000_0000_0000,
    ensures
        text@ == java_digits(all@, position as int),
{
    let mut text: Vec<u8> = Vec::new();
    if 0 < position && position <= 7 {
        let places: usize = position as usize;
        if all.len() <= places {
            text.extend_from_slice(all.as_slice());
            let mut fill: Vec<u8> = zeros_of(places - all.len());
            text.append(&mut fill);
            text.push(46);
            text.push(48);
            assert(text@ =~= all@ + zeros((places - all@.len()) as nat) + seq![46u8, 48u8]);
        } else {
            text.extend_from_slice(slice_subrange(all.as_slice(), 0, places));
            text.push(46);
            text.extend_from_slice(slice_subrange(all.as_slice(), places, all.len()));
            assert(text@ =~= all@.take(places as int) + seq![46u8] + all@.skip(places as int));
        }
    } else if -3 < position && position <= 0 {
        text.push(48);
        text.push(46);
        let mut fill: Vec<u8> = zeros_of((-position) as usize);
        text.append(&mut fill);
        text.extend_from_slice(all.as_slice());
        assert(text@ =~= seq![48u8, 46u8] + zeros((-position) as nat) + all@);
    } else {
        text.push(all[0]);
        text.push(46);
        if all.len() == 1 {
            text.push(48);
        } else {
            text.extend_from_slice(slice_subrange(all.as_slice(), 1, all.len()));
        }
        text.push(69);
        let ghost head = all@.take(1) + seq![46u8] + (if all@.len() == 1 {
            seq![48u8]
        } else {
            all@.skip(1)
        }) + seq![69u8];
        assert(text@ =~= head);
        let exponent: i128 = position - 1;
        if exponent < 0 {
            text.push(45);
        }
        let mut number: Vec<u8> = digits_of(unsigned_abs(exponent));
        text.append(&mut number);
        assert(text@ =~= head + number_text(position - 1));
    }
    text
}

/// Writes the text of a number that is not infinite the way Java does.
pub fn write_java_style_double<W: OutputFile>(output: &mut W, raw: &String) -> (result: Result<(), Error>)
    ensures
        match java_text(*raw) {
            Ok(text) => appends(*old(output), *final(output), result, text),
            Err(e) => result == Err::<(), Error>(e) && final(output).written() == old(output).written(),
        },
{
    let bytes: &[u8] = raw.as_str().as_bytes();
    let total: usize = bytes.len();
    let negative: bool = total > 0 && bytes[0] == 45;
    let start: usize = if negative {
        1
    } else {
        0
    };
    let end: usize = find_first(bytes, start, total, 101, 69);
    let ghost unsigned = bytes@.skip(start as int);
    assert(bytes@.subrange(start as int, total as int) =~= unsigned);
    assert(start == 0 ==> unsigned =~= bytes@);
    let mut exponent: i32 = 0;
    if end < total {
        assert(bytes@.subrange(end + 1, total as int) =~= unsigned.skip(end - start + 1));
        match parse_exponent(slice_subrange(bytes, end + 1, total)) {
            Ok(v) => {
                exponent = v;
            },
            Err(e) => {
                return Err(e);
            },
        }
    }
    assert(bytes@.subrange(start as int, end as int) =~= unsigned.take(end - start));
    let dot: usize = find_first(bytes, start, end, 46, 46);
    let (digits, front) = significant_of(drop_dots(bytes, start, end));
    if digits.len() == 0 {
        return Err(Error::InvalidDoubleText { rendering: raw.clone() });
    }
    let position: i128 = (dot - start) as i128 + exponent as i128 - front as i128;
    let mut text: Vec<u8> = Vec::new();
    if negative {
        text.push(45);
    }
    let mut tail: Vec<u8> = write_digits_in_java_style(&digits, position);
    let ghost plain = tail@;
    text.append(&mut tail);
    assert(text@ =~= (if negative {
        seq![45u8] + plain
    } else {
        plain
    }));
    output.write(text.as_slice())
}

} // verus!
