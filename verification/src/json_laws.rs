//! What the checks of a row group promise of its columnar JSON.
use vstd::prelude::*;
use vstd::utf8::valid_utf8;
use crate::columnar_json::{all_supported, can_be_written, check_of, column_check, group_doubles, group_error, is_left_out,
    is_supported, structure_bytes, structure_cost, structure_error, values_cost, values_error, written_column, written_name,
    written_type, MAX_UNCOMPRESSED_JSON_BYTES};
use crate::const_fill::{lemma_rank_bound, lemma_rank_step, rank_of};
use crate::decimal::signed_value;
use crate::encoded_column::EncodedColumnView;
use crate::error::Error;
use crate::format::{ENCODING_ALL_NULL, ENCODING_CONST};
use crate::json_columns::{
    column_cost, decimal_value, is_known_encoding, number_cost, row_result, rows_cost, rows_doubles, rows_error, text_cost,
    value_error, Check, MAX_DOUBLE_VALUE_BYTES,
};
use crate::json_doubles::{double_text, is_exact, is_finite, PlanView, SIGN_BIT};
use crate::json_text::{digits, java_text, lemma_digit_bound, magnitude, number_text, pow10};
use crate::json_writer::{
    column_json, is_uncountable, lemma_null_rows_json, member, members, object_json, rows_json, value_text,
};
use crate::reader::{encoding_of_code, Encoding};
use crate::row_group_reader::RowGroupReader;
use crate::types::DataType;
use crate::values::ValueView;

verus! {

/// The plan has a text for each of the numbers, and none is too long.
pub open spec fn plan_covers(plan: PlanView, all: Set<u64>) -> bool {
    forall|bits: u64| #[trigger]
        all.contains(bits) ==> (double_text(bits, plan) matches Ok(text) && text.len() <= MAX_DOUBLE_VALUE_BYTES)
}

proof fn lemma_number_len(x: int, n: nat)
    requires
        magnitude(x) < pow10(n),
        n > 0,
    ensures
        number_text(x).len() <= n + 1,
{
    lemma_digit_bound(magnitude(x), n);
}

proof fn lemma_powers()
    ensures
        pow10(3) == 1000,
        pow10(5) == 100_000,
        pow10(10) == 10_000_000_000,
        pow10(19) == 10_000_000_000_000_000_000,
{
    reveal_with_fuel(pow10, 20);
}

/// A value that passes the check has a text, and the text is as short as was estimated.
proof fn lemma_value_text(check: Check, dt: DataType, v: ValueView, plan: PlanView)
    requires
        check_of(dt) == Some(check),
        value_error(check, dt, v) is None,
        check is Double ==> (double_text(v->Double_0, plan) matches Ok(text) && text.len() <= MAX_DOUBLE_VALUE_BYTES),
    ensures
        value_text(dt, v, plan) matches Ok(text) && text.len() <= (if check is Text {
            text_cost(v)
        } else {
            number_cost(dt)
        }),
{
    lemma_powers();
    match dt {
        DataType::Int8 => {
            let x = v->TinyInt_0;
            lemma_number_len(x as int, 3);
        },
        DataType::Int16 => {
            let x = v->SmallInt_0;
            lemma_number_len(x as int, 5);
        },
        DataType::Int32 => {
            let x = v->Integer_0;
            lemma_number_len(x as int, 10);
        },
        DataType::Int64 => {
            let x = v->BigInt_0;
            lemma_number_len(x as int, 19);
        },
        _ => {},
    }
}

/// Rows that pass the check have a text, and the text is as short as was estimated.
proof fn lemma_rows_json(check: Check, c: EncodedColumnView, plan: PlanView, n: nat)
    requires
        check_of(c.dt) == Some(check),
        n <= c.rows,
        rows_error(check, c, n) is None,
        check is Double ==> plan_covers(plan, rows_doubles(c, n)),
    ensures
        rows_json(c.dt, c, plan, n) matches Ok(text) && text.len() <= (if check is Text {
            rows_cost(c, n) as int
        } else {
            rank_of(c.nulls(), n as int) * number_cost(c.dt)
        }) + (if n > 0 {
            n - 1
        } else {
            0
        }),
        rank_of(c.nulls(), n as int) >= 0,
    decreases n,
{
    lemma_rank_bound(c.nulls(), n as int);
    let unit = number_cost(c.dt);
    if n == 0 {
        assert(0 * unit == 0);
    } else {
        let r = n - 1;
        if check is Double {
            assert forall|bits: u64| #[trigger] rows_doubles(c, r as nat).contains(bits) implies (double_text(bits, plan) matches Ok(
                text,
            ) && text.len() <= MAX_DOUBLE_VALUE_BYTES) by {
                assert(rows_doubles(c, n).contains(bits));
            }
        }
        lemma_rows_json(check, c, plan, r as nat);
        lemma_rank_step(c.nulls(), r);
        let before = rank_of(c.nulls(), r);
        assert((before + 1) * unit == before * unit + unit) by (nonlinear_arith);
        assert(row_result(check, c, r) is Ok);
        let v = c.value_at(r)->Ok_0;
        if v is Null {
            assert(before * unit <= (before + 1) * unit);
        } else {
            if let ValueView::Double(bits) = v {
                if check is Double {
                    assert(rows_doubles(c, n).contains(bits));
                }
            }
            lemma_value_text(check, c.dt, v, plan);
            assert(!c.nulls()[r]);
        }
    }
}

/// The text of a column that passes the checks, together with what stands around it.
proof fn lemma_column_json(dt: DataType, c: EncodedColumnView, plan: PlanView)
    requires
        is_supported(dt, encoding_of_code(c.encoding)),
        column_check(dt, c) is Some ==> c.dt == dt && rows_error(check_of(dt)->0, c, c.rows) is None && column_cost(
            check_of(dt)->0,
            dt,
            c,
        ) <= MAX_UNCOMPRESSED_JSON_BYTES,
        column_check(dt, c) == Some(Check::Double) ==> plan_covers(plan, rows_doubles(c, c.rows)),
    ensures
        column_json(dt, c, plan) matches Ok(text) && text.len() <= (match column_check(dt, c) {
            None => 0,
            Some(check) => column_cost(check, dt, c),
        }) + (if c.rows > 0 {
            c.rows - 1
        } else {
            0
        }),
{
    lemma_rank_bound(c.nulls(), c.rows as int);
    assert(is_known_encoding(c.encoding));
    match column_check(dt, c) {
        None => {
            assert(c.encoding == ENCODING_ALL_NULL);
            lemma_null_rows_json(dt, c, plan, c.rows);
        },
        Some(check) => {
            lemma_rows_json(check, c, plan, c.rows);
            if is_uncountable(dt, c) {
                crate::json_columns::lemma_const_cost(c);
            }
        },
    }
}

proof fn lemma_members(reader: RowGroupReader, plan: PlanView, n: nat)
    requires
        reader.wf(),
        reader.nested_error() is None,
        n <= reader.visited().len(),
        structure_error(reader, n) is None,
        values_error(reader, n) is None,
        all_supported(reader, n),
        values_cost(reader, n) <= MAX_UNCOMPRESSED_JSON_BYTES,
        plan_covers(plan, group_doubles(reader, n)),
    ensures
        members(reader, plan, n) matches Ok(text) && text.len() <= structure_cost(reader, n) + values_cost(reader, n),
    decreases n,
{
    if n > 0 {
        let k = n - 1;
        assert forall|bits: u64| #[trigger] group_doubles(reader, k as nat).contains(bits) implies (double_text(bits, plan) matches Ok(
            text,
        ) && text.len() <= MAX_DOUBLE_VALUE_BYTES) by {
            assert(group_doubles(reader, n).contains(bits));
        }
        lemma_members(reader, plan, k as nat);
        let g = reader.visited()[k] as int;
        reader.visited_columns(reader.order().len());
        assert(reader.visited()[k] < reader.schema_of().columns@.len());
        reader.stored_type(g);
        let c = written_column(reader, k)->Ok_0;
        let dt = written_type(reader, k);
        assert(c.dt == dt);
        if column_check(dt, c) == Some(Check::Double) {
            assert forall|bits: u64| #[trigger] rows_doubles(c, c.rows).contains(bits) implies (double_text(bits, plan) matches Ok(
                text,
            ) && text.len() <= MAX_DOUBLE_VALUE_BYTES) by {
                assert(group_doubles(reader, n).contains(bits));
            }
        }
        lemma_column_json(dt, c, plan);
        let text = column_json(dt, c, plan)->Ok_0;
        assert(member(written_name(reader, k), text, n == 1).len() <= structure_bytes(written_name(reader, k), k as nat, reader.rows()) + (
        match column_check(dt, c) {
            None => 0,
            Some(check) => column_cost(check, dt, c),
        }));
    }
}

/// A row group that passes the checks can be written: whatever its values are, they have a text, and
/// the object is no larger than the limit, as long as the plan has a text of bounded length for each
/// of the floating-point numbers.
pub proof fn checked_groups_can_be_written(reader: RowGroupReader, plan: PlanView)
    requires
        reader.wf(),
        !is_left_out(reader),
        group_error(reader) is None,
        can_be_written(reader),
        plan_covers(plan, group_doubles(reader, reader.visited().len())),
    ensures
        object_json(reader, plan) matches Ok(text) && text.len() <= MAX_UNCOMPRESSED_JSON_BYTES,
{
    lemma_members(reader, plan, reader.visited().len());
}

/// The plan has a text for each number that was asked for, and for each number whose shortest text
/// was needed; it then has one for every number that passes the checks.
pub proof fn texts_asked_for_are_enough(plan: PlanView, all: Set<u64>)
    requires
        crate::json_columns::all_finite(all),
        forall|bits: u64| #[trigger] crate::json_columns::java_doubles(all).contains(bits) ==> plan.java.dom().contains(bits),
        forall|bits: u64| #[trigger]
            crate::json_columns::exact_doubles(all).contains(bits) && bits != 0 && bits != SIGN_BIT ==> plan.shortest.dom().contains(
                bits,
            ) && java_text(plan.shortest[bits]) is Ok,
    ensures
        forall|bits: u64| #[trigger] all.contains(bits) ==> double_text(bits, plan) is Ok,
{
    assert forall|bits: u64| #[trigger] all.contains(bits) implies double_text(bits, plan) is Ok by {
        assert(crate::json_columns::java_doubles(all).contains(bits) == (is_finite(bits) && !is_exact(bits)));
        assert(crate::json_columns::exact_doubles(all).contains(bits) == is_exact(bits));
    }
}

// ---------------------------------------------------------------- estimates

/// The estimate of what stands around a column is exact: with the text of the column, apart from the
/// commas in it, it makes up what is written.
pub proof fn structure_is_counted_exactly(name: Seq<char>, text: Seq<u8>, column_index: nat, rows: nat)
    ensures
        member(name, text, column_index == 0).len() + (if rows > 0 {
            rows - 1
        } else {
            0
        }) == structure_bytes(name, column_index, rows) + text.len(),
{
}

/// The estimate of a column of texts is exact.
pub proof fn texts_are_counted_exactly(c: EncodedColumnView, plan: PlanView, n: nat)
    requires
        c.dt is Utf8,
        rows_json(c.dt, c, plan, n) is Ok,
        rows_error(Check::Text, c, n) is None,
    ensures
        rows_json(c.dt, c, plan, n)->Ok_0.len() == rows_cost(c, n) + (if n > 0 {
            n - 1
        } else {
            0
        }),
    decreases n,
{
    if n > 0 {
        texts_are_counted_exactly(c, plan, (n - 1) as nat);
    }
}

/// The estimate of an integer is the least that is enough: no integer of the width has a longer text,
/// and one has a text as long.
pub proof fn integers_are_counted_closely(v: ValueView, plan: PlanView)
    ensures
        v is TinyInt ==> (value_text(DataType::Int8, v, plan) matches Ok(text) && text.len() <= number_cost(DataType::Int8)),
        v is SmallInt ==> (value_text(DataType::Int16, v, plan) matches Ok(text) && text.len() <= number_cost(DataType::Int16)),
        v is Integer ==> (value_text(DataType::Int32, v, plan) matches Ok(text) && text.len() <= number_cost(DataType::Int32)),
        v is BigInt ==> (value_text(DataType::Int64, v, plan) matches Ok(text) && text.len() <= number_cost(DataType::Int64)),
        number_text(i8::MIN as int).len() == number_cost(DataType::Int8),
        number_text(i16::MIN as int).len() == number_cost(DataType::Int16),
        number_text(i32::MIN as int).len() == number_cost(DataType::Int32),
        number_text(i64::MIN as int).len() == number_cost(DataType::Int64),
{
    match v {
        ValueView::TinyInt(_) => lemma_value_text(Check::Integer, DataType::Int8, v, plan),
        ValueView::SmallInt(_) => lemma_value_text(Check::Integer, DataType::Int16, v, plan),
        ValueView::Integer(_) => lemma_value_text(Check::Integer, DataType::Int32, v, plan),
        ValueView::BigInt(_) => lemma_value_text(Check::Integer, DataType::Int64, v, plan),
        _ => {},
    }
    reveal_with_fuel(digits, 20);
}

// ---------------------------------------------------------------- types

/// The types whose columns can be written are those whose values have a text: the integers, doubles,
/// decimals and texts.
pub proof fn supported_types_are_those_with_texts(dt: DataType, v: ValueView, plan: PlanView)
    ensures
        !(v is Null) && value_text(dt, v, plan) is Ok ==> check_of(dt) is Some && is_supported(dt, Encoding::Const) && is_supported(
            dt,
            Encoding::Dict,
        ) && is_supported(dt, Encoding::Plain),
        check_of(dt) is Some && (dt matches DataType::Decimal128(precision, _) ==> precision > 0) ==> has_text(dt, plan),
        is_supported(dt, Encoding::AllNull),
        is_supported(dt, Encoding::Const) <==> dt is Int8 || dt is Int16 || dt is Int32 || dt is Int64 || dt is Float64 || dt is Decimal128
            || dt is Utf8,
        is_supported(dt, Encoding::Dict) == is_supported(dt, Encoding::Const),
        is_supported(dt, Encoding::Plain) == is_supported(dt, Encoding::Const),
        forall|code: u8| !#[trigger] is_supported(dt, Encoding::Other(code)),
{
    let witness = match dt {
        DataType::Int8 => ValueView::TinyInt(0),
        DataType::Int16 => ValueView::SmallInt(0),
        DataType::Int32 => ValueView::Integer(0),
        DataType::Int64 => ValueView::BigInt(0),
        DataType::Float64 => ValueView::Double(0),
        DataType::Decimal128(precision, _) => if precision <= 18 {
            ValueView::DecimalCompact(0)
        } else {
            ValueView::DecimalLarge(seq![0u8])
        },
        _ => ValueView::String(Seq::empty()),
    };
    if let DataType::Decimal128(precision, _) = dt {
        assert(seq![0u8].drop_last() =~= Seq::<u8>::empty());
        reveal_with_fuel(crate::codec::be_value, 2);
        assert(signed_value(seq![0u8]) == 0);
        assert(digits(magnitude(0)).len() == 1);
    }
    if check_of(dt) is Some && (dt matches DataType::Decimal128(precision, _) ==> precision > 0) {
        assert(value_text(dt, witness, plan) is Ok);
    }
}

/// Some value of the type has a text.
pub open spec fn has_text(dt: DataType, plan: PlanView) -> bool {
    exists|v: ValueView| !(v is Null) && #[trigger] value_text(dt, v, plan) is Ok
}

/// The numbers of a column that need a text are the floating-point numbers in its rows.
pub proof fn doubles_are_those_of_the_rows(c: EncodedColumnView, n: nat, bits: u64)
    ensures
        rows_doubles(c, n).contains(bits) <==> exists|r: int|
            0 <= r < n && #[trigger] c.value_at(r) == Ok::<ValueView, Error>(ValueView::Double(bits)),
    decreases n,
{
    if n > 0 {
        doubles_are_those_of_the_rows(c, (n - 1) as nat, bits);
        let told = Ok::<ValueView, Error>(ValueView::Double(bits));
        if rows_doubles(c, (n - 1) as nat).contains(bits) {
            let r = choose|r: int| 0 <= r < n - 1 && #[trigger] c.value_at(r) == told;
            assert(c.value_at(r) == told);
        }
        if exists|r: int| 0 <= r < n && #[trigger] c.value_at(r) == told {
            let r = choose|r: int| 0 <= r < n && #[trigger] c.value_at(r) == told;
            if r < n - 1 {
                assert(c.value_at(r) == told);
            }
        }
        if c.value_at(n - 1) == told {
            assert(row_result(Check::Double, c, n - 1) == told);
        }
    }
}

/// The numbers of a row group that need a text are those in the rows of its columns of doubles.
pub proof fn group_doubles_are_those_of_the_columns(reader: RowGroupReader, n: nat, bits: u64)
    requires
        forall|k: int| 0 <= k < n ==> (#[trigger] written_column(reader, k)) is Ok,
    ensures
        group_doubles(reader, n).contains(bits) <==> exists|k: int|
            0 <= k < n && written_type(reader, k) is Float64 && has_double(#[trigger] written_column(reader, k)->Ok_0, bits),
    decreases n,
{
    if n > 0 {
        let k = n - 1;
        group_doubles_are_those_of_the_columns(reader, k as nat, bits);
        let c = written_column(reader, k)->Ok_0;
        doubles_are_those_of_the_rows(c, c.rows, bits);
        if group_doubles(reader, k as nat).contains(bits) {
            let j = choose|j: int|
                0 <= j < k && written_type(reader, j) is Float64 && has_double(#[trigger] written_column(reader, j)->Ok_0, bits);
            assert(has_double(written_column(reader, j)->Ok_0, bits));
        }
        if exists|j: int| 0 <= j < n && written_type(reader, j) is Float64 && has_double(#[trigger] written_column(reader, j)->Ok_0, bits) {
            let j = choose|j: int|
                0 <= j < n && written_type(reader, j) is Float64 && has_double(#[trigger] written_column(reader, j)->Ok_0, bits);
            if j < k {
                assert(has_double(written_column(reader, j)->Ok_0, bits));
            }
        }
        if column_check(written_type(reader, k), c) == Some(Check::Double) {
            assert(written_type(reader, k) is Float64);
        }
        if written_type(reader, k) is Float64 && has_double(c, bits) {
            let r = choose|r: int| 0 <= r < c.rows && #[trigger] c.value_at(r) == Ok::<ValueView, Error>(ValueView::Double(bits));
            assert(c.encoding != ENCODING_ALL_NULL) by {
                if c.encoding == ENCODING_ALL_NULL {
                    assert(c.nulls()[r]);
                }
            }
            assert(is_known_encoding(c.encoding));
        }
    }
}

/// The number stands in a row of the column.
pub open spec fn has_double(c: EncodedColumnView, bits: u64) -> bool {
    exists|r: int| 0 <= r < c.rows && #[trigger] c.value_at(r) == Ok::<ValueView, Error>(ValueView::Double(bits))
}

/// Digits are as many as the power of ten above the number has zeros.
proof fn lemma_digit_count(v: nat, n: nat)
    requires
        n >= 1,
    ensures
        digits(v).len() <= n <==> v < pow10(n),
    decreases n,
{
    crate::json_numbers::lemma_digits(v);
    reveal_with_fuel(pow10, 2);
    if v >= 10 {
        crate::json_numbers::lemma_digits(v / 10);
        if n > 1 {
            lemma_digit_count(v / 10, (n - 1) as nat);
            assert(v / 10 < pow10((n - 1) as nat) <==> v < 10 * pow10((n - 1) as nat));
        }
    } else if n > 1 {
        lemma_digit_count(v, (n - 1) as nat);
        crate::json_numbers::lemma_pow10_positive((n - 1) as nat);
    }
}

/// A decimal is taken where its digits are no more than its precision, and only there; it is then the
/// number that is stored.
pub proof fn decimals_are_taken_within_their_precision(precision: u8, scale: i8, v: ValueView)
    requires
        precision > 0,
    ensures
        ({
            let dt = DataType::Decimal128(precision, scale);
            let limit = pow10(precision as nat);
            &&& v matches ValueView::DecimalCompact(x) ==> precision <= 18 ==> match decimal_value(dt, v) {
                Ok(found) => found == x && -limit < x < limit,
                Err(e) => e == (Error::DecimalOverPrecision { precision, scale }) && !(-limit < x < limit),
            }
            &&& v matches ValueView::DecimalLarge(bytes) ==> precision > 18 && 1 <= bytes.len() <= 16 ==> match decimal_value(dt, v) {
                Ok(found) => found == signed_value(bytes) && -limit < found < limit,
                Err(e) => e == (Error::DecimalOverPrecision { precision, scale }) && !(-limit < signed_value(bytes) < limit),
            }
            &&& !(v is DecimalCompact) && !(v is DecimalLarge) ==> decimal_value(dt, v) == Err::<int, Error>(
                Error::EncodedTypeMismatch { data_type: dt },
            )
        }),
{
    match v {
        ValueView::DecimalCompact(x) => lemma_digit_count(magnitude(x as int), precision as nat),
        ValueView::DecimalLarge(bytes) => lemma_digit_count(magnitude(signed_value(bytes)), precision as nat),
        _ => {},
    }
}

/// A column passes the check of its values where each value does, and only there: integers are of the
/// width of the column, doubles are doubles, decimals stay within their precision, and texts are valid.
pub proof fn columns_pass_where_their_values_do(check: Check, c: EncodedColumnView, n: nat)
    ensures
        rows_error(check, c, n) is None <==> forall|r: int| 0 <= r < n ==> #[trigger] passes(check, c, r),
    decreases n,
{
    if n > 0 {
        columns_pass_where_their_values_do(check, c, (n - 1) as nat);
        assert(passes(check, c, n - 1) == (row_result(check, c, n - 1) is Ok));
    }
}

/// Row `r` of a column can be read, and is null or has a value that can be written.
pub open spec fn passes(check: Check, c: EncodedColumnView, r: int) -> bool {
    match c.value_at(r) {
        Err(_) => false,
        Ok(v) => (v is Null && (c.nulls()[r] || c.encoding != ENCODING_CONST)) || match check {
            Check::Integer => match c.dt {
                DataType::Int8 => v is TinyInt,
                DataType::Int16 => v is SmallInt,
                DataType::Int32 => v is Integer,
                DataType::Int64 => v is BigInt,
                _ => false,
            },
            Check::Double => v is Double,
            Check::Decimal => decimal_value(c.dt, v) is Ok,
            Check::Text => v matches ValueView::String(s) && valid_utf8(s),
        },
    }
}

} // verus!
