//! The checks and the text of the columns of columnar JSON.
use std::collections::BTreeSet;
use vstd::prelude::*;
use vstd::utf8::valid_utf8;
use crate::const_fill::{count_valid, lemma_rank_bound, lemma_rank_step, rank_of};
use crate::decimal::signed_value;
use crate::encoded_column::{EncodedColumn, EncodedColumnValues, EncodedColumnView};
use crate::error::Error;
use crate::format::{ENCODING_ALL_NULL, ENCODING_CONST, ENCODING_DICT, ENCODING_PLAIN};
use crate::json_doubles::{is_exact, is_finite, prepare_double_value, utf8_fault, utf8_text, MAX_DISTINCT_JAVA_DOUBLE_VALUES};
use crate::json_text::{decimal_digits, decode_signed_i128, digits, escaped, escaped_utf8_len, magnitude};
use crate::reader::Encoding;
use crate::types::DataType;
use crate::values::{checked_value, EncodedValueRef, ValueView};

verus! {

/// No column is estimated to take more bytes for a floating-point number.
pub const MAX_DOUBLE_VALUE_BYTES: usize = 32;

// ---------------------------------------------------------------- values

pub open spec fn integer_matches(dt: DataType, v: ValueView) -> bool {
    match dt {
        DataType::Int8 => v is TinyInt,
        DataType::Int16 => v is SmallInt,
        DataType::Int32 => v is Integer,
        DataType::Int64 => v is BigInt,
        _ => false,
    }
}

pub fn integer_value_matches(data_type: &DataType, value: EncodedValueRef<'_>) -> (matches: bool)
    ensures
        matches == integer_matches(*data_type, value@),
{
    match (data_type, value) {
        (DataType::Int8, EncodedValueRef::Int8(_)) => true,
        (DataType::Int16, EncodedValueRef::Int16(_)) => true,
        (DataType::Int32, EncodedValueRef::Int32(_)) => true,
        (DataType::Int64, EncodedValueRef::Int64(_)) => true,
        _ => false,
    }
}

pub fn encoded_type_mismatch(data_type: &DataType) -> (error: Error)
    ensures
        error == (Error::EncodedTypeMismatch { data_type: *data_type }),
{
    Error::EncodedTypeMismatch { data_type: data_type.clone() }
}

pub fn invalid_utf8(fault: (usize, Option<usize>)) -> (error: Error)
    ensures
        error == (Error::InvalidUtf8Value { valid_up_to: fault.0, error_len: fault.1 }),
{
    Error::InvalidUtf8Value { valid_up_to: fault.0, error_len: fault.1 }
}

/// The number that a decimal value stands for without its scale.
pub open spec fn decimal_value(dt: DataType, v: ValueView) -> Result<int, Error> {
    match dt {
        DataType::Decimal128(precision, scale) => {
            let unscaled = match v {
                ValueView::DecimalCompact(x) => if precision <= 18 {
                    Ok(x as int)
                } else {
                    Err(Error::EncodedTypeMismatch { data_type: dt })
                },
                ValueView::DecimalLarge(bytes) => if precision <= 18 {
                    Err(Error::EncodedTypeMismatch { data_type: dt })
                } else if 1 <= bytes.len() <= 16 {
                    Ok(signed_value(bytes))
                } else {
                    Err(Error::InvalidDecimalWidth { width: bytes.len() as usize })
                },
                _ => Err(Error::EncodedTypeMismatch { data_type: dt }),
            };
            match unscaled {
                Err(e) => Err(e),
                Ok(x) => if digits(magnitude(x)).len() > precision {
                    Err(Error::DecimalOverPrecision { precision, scale })
                } else {
                    Ok(x)
                },
            }
        },
        _ => Err(Error::EncodedTypeMismatch { data_type: dt }),
    }
}

pub fn decode_decimal_value(data_type: &DataType, value: EncodedValueRef<'_>) -> (result: Result<i128, Error>)
    ensures
        match decimal_value(*data_type, value@) {
            Ok(x) => result matches Ok(v) && v == x,
            Err(e) => result == Err::<i128, Error>(e),
        },
{
    let found: (u8, i8, i128) = match (data_type, value) {
        (DataType::Decimal128(precision, scale), EncodedValueRef::DecimalCompact(x)) => {
            if *precision > 18 {
                return Err(encoded_type_mismatch(data_type));
            }
            (*precision, *scale, x as i128)
        },
        (DataType::Decimal128(precision, scale), EncodedValueRef::DecimalLarge(bytes)) => {
            if *precision <= 18 {
                return Err(encoded_type_mismatch(data_type));
            }
            match decode_signed_i128(bytes) {
                Ok(x) => (*precision, *scale, x),
                Err(e) => {
                    return Err(e);
                },
            }
        },
        _ => {
            return Err(encoded_type_mismatch(data_type));
        },
    };
    if decimal_digits(found.2) > found.0 as usize {
        return Err(Error::DecimalOverPrecision { precision: found.0, scale: found.1 });
    }
    Ok(found.2)
}

/// The most bytes that the text of a decimal takes.
pub open spec fn decimal_cost(precision: u8, scale: i8) -> nat {
    (precision + (if scale < 0 {
        -scale
    } else {
        scale as int
    }) + 3) as nat
}

pub fn max_decimal_value_bytes(precision: u8, scale: i8) -> (bytes: usize)
    ensures
        bytes == decimal_cost(precision, scale),
{
    let places: usize = if scale < 0 {
        (-(scale as i32)) as usize
    } else {
        scale as usize
    };
    precision as usize + places + 3
}

/// What the values of a column are checked for.
#[derive(Clone, Copy, PartialEq, Eq, Structural)]
pub enum Check {
    Integer,
    Double,
    Decimal,
    Text,
}

/// What is wrong with a value of a column of type `dt`.
pub open spec fn value_error(check: Check, dt: DataType, v: ValueView) -> Option<Error> {
    match check {
        Check::Integer => if integer_matches(dt, v) {
            None
        } else {
            Some(Error::EncodedTypeMismatch { data_type: dt })
        },
        Check::Double => if v is Double {
            None
        } else {
            Some(Error::EncodedTypeMismatch { data_type: dt })
        },
        Check::Decimal => match decimal_value(dt, v) {
            Ok(_) => None,
            Err(e) => Some(e),
        },
        Check::Text => match v {
            ValueView::String(s) => if valid_utf8(s) {
                None
            } else {
                Some(Error::InvalidUtf8Value { valid_up_to: utf8_fault(s).0, error_len: utf8_fault(s).1 })
            },
            _ => Some(Error::EncodedTypeMismatch { data_type: dt }),
        },
    }
}

/// The most bytes that the text of a number takes in a column of type `dt`.
pub open spec fn number_cost(dt: DataType) -> nat {
    match dt {
        DataType::Int8 => 4,
        DataType::Int16 => 6,
        DataType::Int32 => 11,
        DataType::Int64 => 20,
        DataType::Float64 => MAX_DOUBLE_VALUE_BYTES as nat,
        DataType::Decimal128(precision, scale) => decimal_cost(precision, scale),
        _ => 0,
    }
}

/// The bytes that a text takes.
pub open spec fn text_cost(v: ValueView) -> nat {
    match v {
        ValueView::String(s) => escaped(s).len(),
        _ => 0,
    }
}

// ---------------------------------------------------------------- rows

/// The value in row `r`, or what is wrong with it.
pub open spec fn row_result(check: Check, c: EncodedColumnView, r: int) -> Result<ValueView, Error> {
    match c.value_at(r) {
        Err(e) => Err(e),
        Ok(v) => if v is Null && (c.nulls()[r] || c.encoding != ENCODING_CONST) {
            Ok(ValueView::Null)
        } else {
            match value_error(check, c.dt, v) {
                Some(e) => Err(e),
                None => Ok(v),
            }
        },
    }
}

/// What is wrong with the first `n` rows: the first that is wrong tells.
pub open spec fn rows_error(check: Check, c: EncodedColumnView, n: nat) -> Option<Error>
    decreases n,
{
    if n == 0 {
        None
    } else {
        match rows_error(check, c, (n - 1) as nat) {
            Some(e) => Some(e),
            None => match row_result(check, c, n - 1) {
                Err(e) => Some(e),
                Ok(_) => None,
            },
        }
    }
}

/// The bytes that the texts of the first `n` rows take.
pub open spec fn rows_cost(c: EncodedColumnView, n: nat) -> nat
    decreases n,
{
    if n == 0 {
        0
    } else {
        rows_cost(c, (n - 1) as nat) + (match row_result(Check::Text, c, n - 1) {
            Ok(v) => text_cost(v),
            Err(_) => 0,
        })
    }
}

/// The most bytes that the texts of a column of type `dt` take.
pub open spec fn column_cost(check: Check, dt: DataType, c: EncodedColumnView) -> nat {
    if check is Text {
        rows_cost(c, c.rows)
    } else {
        count_valid(c.nulls()) * number_cost(dt)
    }
}

/// The floating-point numbers in the first `n` rows.
pub open spec fn rows_doubles(c: EncodedColumnView, n: nat) -> Set<u64>
    decreases n,
{
    if n == 0 {
        Set::empty()
    } else {
        let before = rows_doubles(c, (n - 1) as nat);
        match row_result(Check::Double, c, n - 1) {
            Ok(ValueView::Double(bits)) => before.insert(bits),
            _ => before,
        }
    }
}

/// Those whose text has to be asked for.
pub open spec fn java_doubles(all: Set<u64>) -> Set<u64> {
    all.filter(|bits: u64| is_finite(bits) && !is_exact(bits))
}

/// Those whose shortest text is needed.
pub open spec fn exact_doubles(all: Set<u64>) -> Set<u64> {
    all.filter(|bits: u64| is_exact(bits))
}

pub open spec fn all_finite(all: Set<u64>) -> bool {
    forall|bits: u64| #[trigger] all.contains(bits) ==> is_finite(bits)
}

pub proof fn lemma_rows_error(check: Check, c: EncodedColumnView, n: nat, m: nat)
    requires
        n <= m,
        rows_error(check, c, n) is Some,
    ensures
        rows_error(check, c, m) == rows_error(check, c, n),
    decreases m,
{
    if n < m {
        lemma_rows_error(check, c, n, (m - 1) as nat);
    }
}

/// What is said of each row of a constant column that is not null.
pub open spec fn const_result(check: Check, c: EncodedColumnView) -> Result<ValueView, Error> {
    match checked_value(c.dt, c.const_value) {
        Err(e) => Err(e),
        Ok(v) => match value_error(check, c.dt, v) {
            Some(e) => Err(e),
            None => Ok(v),
        },
    }
}

/// The rows of a constant column.
proof fn lemma_const_rows(check: Check, c: EncodedColumnView, n: nat)
    requires
        c.encoding == ENCODING_CONST,
        n <= c.rows,
    ensures
        ({
            let rank = rank_of(c.nulls(), n as int);
            &&& 0 <= rank
            &&& rank == 0 ==> rows_error(check, c, n) is None && rows_cost(c, n) == 0 && rows_doubles(c, n)
                == Set::<u64>::empty()
            &&& rank > 0 ==> rows_error(check, c, n) == (match const_result(check, c) {
                Err(e) => Some(e),
                Ok(_) => None,
            })
            &&& const_result(Check::Text, c) matches Ok(v) ==> rows_cost(c, n) == rank * text_cost(v)
            &&& rank > 0 ==> rows_doubles(c, n) == (match const_result(Check::Double, c) {
                Ok(ValueView::Double(bits)) => Set::<u64>::empty().insert(bits),
                _ => Set::<u64>::empty(),
            })
        }),
    decreases n,
{
    lemma_rank_bound(c.nulls(), n as int);
    let unit = match const_result(Check::Text, c) {
        Ok(v) => text_cost(v),
        Err(_) => 0,
    };
    if n == 0 {
        assert(rank_of(c.nulls(), 0) * unit == 0) by (nonlinear_arith)
            requires
                rank_of(c.nulls(), 0) == 0,
        ;
    } else {
        lemma_const_rows(check, c, (n - 1) as nat);
        lemma_rank_step(c.nulls(), n - 1);
        lemma_rank_bound(c.nulls(), n - 1);
        let before = rank_of(c.nulls(), n - 1);
        assert((before + 1) * unit == before * unit + unit) by (nonlinear_arith);
        assert(Set::<u64>::empty().insert(0u64).insert(0u64) =~= Set::<u64>::empty().insert(0u64));
        if !c.nulls()[n - 1] {
            assert(c.value_at(n - 1) == checked_value(c.dt, c.const_value));
            match const_result(Check::Double, c) {
                Ok(ValueView::Double(bits)) => {
                    assert(Set::<u64>::empty().insert(bits).insert(bits) =~= Set::<u64>::empty().insert(bits));
                },
                _ => {},
            }
        }
    }
}

/// A constant text is counted in each row that is not null.
pub proof fn lemma_const_cost(c: EncodedColumnView)
    requires
        c.encoding == ENCODING_CONST,
        rows_error(Check::Text, c, c.rows) is None,
        count_valid(c.nulls()) > 0,
    ensures
        checked_value(c.dt, c.const_value) matches Ok(v) && text_cost(v) <= rows_cost(c, c.rows),
{
    lemma_const_rows(Check::Text, c, c.rows);
    lemma_rank_bound(c.nulls(), c.rows as int);
    let v = const_result(Check::Text, c)->Ok_0;
    let count = count_valid(c.nulls());
    let unit = text_cost(v);
    assert(count * unit >= unit) by (nonlinear_arith)
        requires
            count > 0,
            unit >= 0,
    ;
}

/// The rows of a column without values.
proof fn lemma_null_column(check: Check, c: EncodedColumnView, n: nat)
    requires
        c.encoding == ENCODING_ALL_NULL,
        n <= c.rows,
    ensures
        rows_error(check, c, n) is None,
        rows_cost(c, n) == 0,
        rows_doubles(c, n) == Set::<u64>::empty(),
    decreases n,
{
    if n > 0 {
        lemma_null_column(check, c, (n - 1) as nat);
        assert(c.nulls()[n - 1]);
    }
}

/// How many rows are not null.
pub fn non_null_count(column: &EncodedColumn<'_>) -> (count: usize)
    requires
        column@.wf(),
    ensures
        count == count_valid(column@.nulls()),
{
    let ghost nulls = column@.nulls();
    let rows: usize = column.num_rows();
    let mut count: usize = 0;
    let mut row: usize = 0;
    proof {
        lemma_rank_bound(nulls, 0);
    }
    while row < rows
        invariant
            row <= rows,
            rows == column@.rows,
            column@.wf(),
            nulls == column@.nulls(),
            count == rank_of(nulls, row as int),
            count <= row,
        decreases rows - row,
    {
        proof {
            lemma_rank_step(nulls, row as int);
        }
        if !column.is_null(row) {
            count += 1;
        }
        row += 1;
    }
    proof {
        lemma_rank_bound(nulls, rows as int);
    }
    count
}

pub fn has_non_null(column: &EncodedColumn<'_>) -> (some: bool)
    requires
        column@.wf(),
    ensures
        some == (count_valid(column@.nulls()) > 0),
{
    non_null_count(column) > 0
}

// ---------------------------------------------------------------- checks of columns

/// The encoding is one that the columns of row groups have.
pub open spec fn is_known_encoding(code: u8) -> bool {
    code == ENCODING_PLAIN || code == ENCODING_CONST || code == ENCODING_DICT || code == ENCODING_ALL_NULL
}

/// The answer of a check: whether the column can be written, if nothing is wrong with it.
pub open spec fn check_answer(check: Check, c: EncodedColumnView) -> Result<bool, Error> {
    if !is_known_encoding(c.encoding) {
        Ok(false)
    } else {
        match rows_error(check, c, c.rows) {
            Some(e) => Err(e),
            None => Ok(true),
        }
    }
}

/// Checks one value.
fn check_value(check: Check, data_type: &DataType, value: EncodedValueRef<'_>) -> (result: Result<(), Error>)
    requires
        check is Integer || check is Decimal,
    ensures
        match value_error(check, *data_type, value@) {
            None => result is Ok,
            Some(e) => result == Err::<(), Error>(e),
        },
{
    match check {
        Check::Decimal => match decode_decimal_value(data_type, value) {
            Ok(_) => Ok(()),
            Err(e) => Err(e),
        },
        _ => if integer_value_matches(data_type, value) {
            Ok(())
        } else {
            Err(encoded_type_mismatch(data_type))
        },
    }
}

fn is_null_value(value: &EncodedValueRef<'_>) -> (null: bool)
    ensures
        null == (value@ is Null),
{
    match value {
        EncodedValueRef::Null => true,
        _ => false,
    }
}

/// Checks the values of a column one by one; of a constant column only the constant.
fn validate_values(column: EncodedColumn<'_>, check: Check) -> (result: Result<bool, Error>)
    requires
        column@.wf(),
        check is Integer || check is Decimal,
    ensures
        result == check_answer(check, column@),
{
    let ghost c = column@;
    match column.encoding() {
        Encoding::AllNull => {
            proof {
                lemma_null_column(check, c, c.rows);
            }
            Ok(true)
        },
        Encoding::Const => {
            proof {
                lemma_const_rows(check, c, c.rows);
                lemma_rank_bound(c.nulls(), c.rows as int);
            }
            if !has_non_null(&column) {
                return Ok(true);
            }
            match column.constant() {
                Err(e) => Err(e),
                Ok(None) => Err(encoded_type_mismatch(column.data_type())),
                Ok(Some(value)) => match check_value(check, column.data_type(), value) {
                    Ok(_) => Ok(true),
                    Err(e) => Err(e),
                },
            }
        },
        Encoding::Dict | Encoding::Plain => {
            let mut values: EncodedColumnValues<'_> = column.values();
            let rows: usize = column.num_rows();
            let mut row: usize = 0;
            while row < rows
                invariant
                    row <= rows,
                    rows == c.rows,
                    c == column@,
                    values.wf(),
                    values.column() == c,
                    values.row() == row,
                    !values.failed(),
                    c.encoding == ENCODING_DICT || c.encoding == ENCODING_PLAIN,
                    check is Integer || check is Decimal,
                    rows_error(check, c, row as nat) is None,
                decreases rows - row,
            {
                let next: Option<Result<EncodedValueRef<'_>, Error>> = values.next();
                let ghost bad = rows_error(check, c, (row + 1) as nat);
                proof {
                    if bad is Some {
                        lemma_rows_error(check, c, (row + 1) as nat, c.rows);
                    }
                }
                match next {
                    None => {},
                    Some(Err(e)) => {
                        return Err(e);
                    },
                    Some(Ok(value)) => {
                        if !is_null_value(&value) {
                            match check_value(check, column.data_type(), value) {
                                Ok(_) => {},
                                Err(e) => {
                                    return Err(e);
                                },
                            }
                        }
                    },
                }
                row += 1;
            }
            Ok(true)
        },
        _ => Ok(false),
    }
}

pub fn validate_integer_column(column: EncodedColumn<'_>) -> (result: Result<bool, Error>)
    requires
        column@.wf(),
    ensures
        result == check_answer(Check::Integer, column@),
{
    validate_values(column, Check::Integer)
}

pub fn validate_decimal_column(column: EncodedColumn<'_>) -> (result: Result<bool, Error>)
    requires
        column@.wf(),
    ensures
        result == check_answer(Check::Decimal, column@),
{
    validate_values(column, Check::Decimal)
}

// ---------------------------------------------------------------- floating-point columns

/// The numbers noted so far together with those of a column.
pub open spec fn noted(before: Set<u64>, all: Set<u64>) -> Set<u64> {
    before.union(java_doubles(all))
}

proof fn lemma_doubles_grow(before: Set<u64>, c: EncodedColumnView, n: nat, m: nat)
    requires
        n <= m,
        before.finite(),
    ensures
        rows_doubles(c, m).finite(),
        rows_doubles(c, n).subset_of(rows_doubles(c, m)),
        noted(before, rows_doubles(c, m)).finite(),
        noted(before, rows_doubles(c, n)).len() <= noted(before, rows_doubles(c, m)).len(),
    decreases m,
{
    if n < m {
        lemma_doubles_grow(before, c, n, (m - 1) as nat);
    } else if m > 0 {
        lemma_doubles_grow(before, c, (m - 1) as nat, (m - 1) as nat);
    }
    let all = rows_doubles(c, m);
    all.lemma_len_filter(|bits: u64| is_finite(bits) && !is_exact(bits));
    assert(noted(before, rows_doubles(c, n)).subset_of(noted(before, all)));
    vstd::set_lib::lemma_len_subset(noted(before, rows_doubles(c, n)), noted(before, all));
}

pub proof fn lemma_doubles_finite(c: EncodedColumnView, n: nat)
    ensures
        rows_doubles(c, n).finite(),
{
    lemma_doubles_grow(Set::empty(), c, n, n);
}

/// What is noted of one more number.
proof fn lemma_one_double(all: Set<u64>, bits: u64)
    ensures
        java_doubles(all.insert(bits)) == (if is_finite(bits) && !is_exact(bits) {
            java_doubles(all).insert(bits)
        } else {
            java_doubles(all)
        }),
        exact_doubles(all.insert(bits)) == (if is_exact(bits) {
            exact_doubles(all).insert(bits)
        } else {
            exact_doubles(all)
        }),
        all_finite(all.insert(bits)) == (all_finite(all) && is_finite(bits)),
{
    let more = all.insert(bits);
    if is_finite(bits) && !is_exact(bits) {
        assert(java_doubles(more) =~= java_doubles(all).insert(bits));
    } else {
        assert(java_doubles(more) =~= java_doubles(all));
    }
    if is_exact(bits) {
        assert(exact_doubles(more) =~= exact_doubles(all).insert(bits));
    } else {
        assert(exact_doubles(more) =~= exact_doubles(all));
    }
    assert(more.contains(bits));
    assert forall|b: u64| #[trigger] all.contains(b) implies more.contains(b) by {}
    assert forall|b: u64| #[trigger] more.contains(b) implies b == bits || all.contains(b) by {}
    if all_finite(more) {
        assert forall|b: u64| #[trigger] all.contains(b) implies is_finite(b) by {
            assert(more.contains(b));
        }
    }
}

/// Notes one number.
fn note_double(bits: u64, java_double_bits: &mut BTreeSet<u64>, exact_double_bits: &mut BTreeSet<u64>) -> (result: Result<bool, Error>)
    requires
        old(java_double_bits)@.finite(),
        old(java_double_bits)@.len() <= MAX_DISTINCT_JAVA_DOUBLE_VALUES,
    ensures
        final(java_double_bits)@.finite(),
        final(java_double_bits)@.len() <= MAX_DISTINCT_JAVA_DOUBLE_VALUES,
        !is_finite(bits) ==> result == Ok::<bool, Error>(false),
        is_finite(bits) && !is_exact(bits) && old(java_double_bits)@.insert(bits).len() > MAX_DISTINCT_JAVA_DOUBLE_VALUES ==> result == Err::<
            bool,
            Error,
        >(Error::TooManyJavaDoubles),
        is_finite(bits) && !is_exact(bits) && old(java_double_bits)@.insert(bits).len() <= MAX_DISTINCT_JAVA_DOUBLE_VALUES ==> result
            == Ok::<bool, Error>(true) && final(java_double_bits)@ == old(java_double_bits)@.insert(bits),
        is_exact(bits) ==> result == Ok::<bool, Error>(true) && final(java_double_bits)@ == old(java_double_bits)@
            && final(exact_double_bits)@ == old(exact_double_bits)@.insert(bits),
        !is_exact(bits) ==> final(exact_double_bits)@ == old(exact_double_bits)@,
{
    let result: Result<bool, Error> = prepare_double_value(bits, java_double_bits);
    if crate::json_doubles::can_format_double_in_rust(bits) {
        crate::json_doubles::insert_bits(exact_double_bits, bits);
    }
    result
}

/// The answer of the check of a floating-point column where nothing is wrong with its values.
pub open spec fn doubles_fit(before: Set<u64>, all: Set<u64>) -> bool {
    all_finite(all) && noted(before, all).len() <= MAX_DISTINCT_JAVA_DOUBLE_VALUES
}

/// Checks the numbers of a column and notes those whose texts are needed.
pub fn validate_float64_column(
    column: EncodedColumn<'_>,
    java_double_bits: &mut BTreeSet<u64>,
    exact_double_bits: &mut BTreeSet<u64>,
) -> (result: Result<bool, Error>)
    requires
        column@.wf(),
        old(java_double_bits)@.finite(),
        old(java_double_bits)@.len() <= MAX_DISTINCT_JAVA_DOUBLE_VALUES,
    ensures
        final(java_double_bits)@.finite(),
        final(java_double_bits)@.len() <= MAX_DISTINCT_JAVA_DOUBLE_VALUES,
        check_answer(Check::Double, column@) != Ok::<bool, Error>(true) ==> result == check_answer(Check::Double, column@),
        check_answer(Check::Double, column@) == Ok::<bool, Error>(true) ==> ({
            let all = rows_doubles(column@, column@.rows);
            if doubles_fit(old(java_double_bits)@, all) {
                result == Ok::<bool, Error>(true) && final(java_double_bits)@ == noted(old(java_double_bits)@, all)
                    && final(exact_double_bits)@ == old(exact_double_bits)@.union(exact_doubles(all))
            } else if column@.encoding == ENCODING_CONST && all_finite(all) {
                result == Err::<bool, Error>(Error::TooManyJavaDoubles)
            } else {
                result == Ok::<bool, Error>(false)
            }
        }),
{
    let ghost c = column@;
    let ghost java = java_double_bits@;
    let ghost exact = exact_double_bits@;
    match column.encoding() {
        Encoding::AllNull => {
            proof {
                lemma_null_column(Check::Double, c, c.rows);
                assert(noted(java, Set::empty()) =~= java);
                assert(exact.union(exact_doubles(Set::empty())) =~= exact);
            }
            Ok(true)
        },
        Encoding::Const => {
            proof {
                lemma_const_rows(Check::Double, c, c.rows);
                lemma_rank_bound(c.nulls(), c.rows as int);
                assert(noted(java, Set::empty()) =~= java);
                assert(exact.union(exact_doubles(Set::empty())) =~= exact);
                assert(java_doubles(Set::empty()) =~= Set::empty());
                assert(exact_doubles(Set::empty()) =~= Set::empty());
            }
            if !has_non_null(&column) {
                return Ok(true);
            }
            match column.constant() {
                Err(e) => Err(e),
                Ok(Some(EncodedValueRef::Float64(bits))) => {
                    proof {
                        lemma_one_double(Set::empty(), bits);
                        assert(java.union(Set::empty().insert(bits)) =~= java.insert(bits));
                        assert(exact.union(Set::empty().insert(bits)) =~= exact.insert(bits));
                        assert(java.union(Set::empty()) =~= java);
                        assert(exact.union(Set::empty()) =~= exact);
                    }
                    note_double(bits, java_double_bits, exact_double_bits)
                },
                Ok(_) => Err(encoded_type_mismatch(column.data_type())),
            }
        },
        Encoding::Dict | Encoding::Plain => {
            let mut values: EncodedColumnValues<'_> = column.values();
            let rows: usize = column.num_rows();
            let mut supported: bool = true;
            let mut row: usize = 0;
            proof {
                assert(noted(java, Set::empty()) =~= java);
                assert(exact.union(exact_doubles(Set::empty())) =~= exact);
            }
            while row < rows
                invariant
                    row <= rows,
                    rows == c.rows,
                    c == column@,
                    java == old(java_double_bits)@,
                    exact == old(exact_double_bits)@,
                    java.finite(),
                    java_double_bits@.finite(),
                    java_double_bits@.len() <= MAX_DISTINCT_JAVA_DOUBLE_VALUES,
                    values.wf(),
                    values.column() == c,
                    values.row() == row,
                    !values.failed(),
                    c.encoding == ENCODING_DICT || c.encoding == ENCODING_PLAIN,
                    rows_error(Check::Double, c, row as nat) is None,
                    supported == doubles_fit(java, rows_doubles(c, row as nat)),
                    supported ==> java_double_bits@ == noted(java, rows_doubles(c, row as nat)) && exact_double_bits@ == exact.union(
                        exact_doubles(rows_doubles(c, row as nat)),
                    ),
                decreases rows - row,
            {
                let ghost all = rows_doubles(c, row as nat);
                let ghost more = rows_doubles(c, (row + 1) as nat);
                let next: Option<Result<EncodedValueRef<'_>, Error>> = values.next();
                proof {
                    if rows_error(Check::Double, c, (row + 1) as nat) is Some {
                        lemma_rows_error(Check::Double, c, (row + 1) as nat, c.rows);
                    }
                    lemma_doubles_grow(java, c, row as nat, (row + 1) as nat);
                }
                match next {
                    None => {},
                    Some(Err(e)) => {
                        return Err(e);
                    },
                    Some(Ok(value)) => match value {
                        EncodedValueRef::Null => {},
                        EncodedValueRef::Float64(bits) => {
                            proof {
                                lemma_one_double(all, bits);
                                assert(more == all.insert(bits));
                                assert(java.union(java_doubles(all).insert(bits)) =~= noted(java, all).insert(bits));
                                assert(exact.union(exact_doubles(all).insert(bits)) =~= exact.union(exact_doubles(all)).insert(
                                    bits,
                                ));
                            }
                            match note_double(bits, java_double_bits, exact_double_bits) {
                                Ok(value_supported) => {
                                    supported = supported && value_supported;
                                },
                                Err(_) => {
                                    supported = false;
                                },
                            }
                        },
                        _ => {
                            return Err(encoded_type_mismatch(column.data_type()));
                        },
                    },
                }
                row += 1;
            }
            Ok(supported)
        },
        _ => Ok(false),
    }
}

// ---------------------------------------------------------------- text columns

/// Whether a column can be written, and how many bytes its texts take.
pub struct ColumnValidation {
    pub supported: bool,
    pub estimated_value_bytes: usize,
}

/// Checks the texts of a column and counts their bytes, up to a limit.
pub fn validate_utf8_column(column: EncodedColumn<'_>, limit: usize) -> (result: Result<ColumnValidation, Error>)
    requires
        column@.wf(),
    ensures
        match check_answer(Check::Text, column@) {
            Err(e) => result == Err::<ColumnValidation, Error>(e),
            Ok(known) => result matches Ok(found) && found.supported == (known && rows_cost(column@, column@.rows) <= limit) && (found.supported ==> found.estimated_value_bytes == rows_cost(column@, column@.rows)),
        },
{
    let ghost c = column@;
    match column.encoding() {
        Encoding::AllNull => {
            proof {
                lemma_null_column(Check::Text, c, c.rows);
            }
            Ok(ColumnValidation { supported: true, estimated_value_bytes: 0 })
        },
        Encoding::Const => {
            proof {
                lemma_const_rows(Check::Text, c, c.rows);
                lemma_rank_bound(c.nulls(), c.rows as int);
            }
            let count: usize = non_null_count(&column);
            if count == 0 {
                return Ok(ColumnValidation { supported: true, estimated_value_bytes: 0 });
            }
            match column.constant() {
                Err(e) => Err(e),
                Ok(Some(EncodedValueRef::Utf8(value))) => {
                    if let Err(fault) = utf8_text(value) {
                        return Err(invalid_utf8(fault));
                    }
                    let ghost length = escaped(value@).len();
                    assert(count * length >= length) by (nonlinear_arith)
                        requires
                            count >= 1,
                            length >= 0,
                    ;
                    let estimated: Result<usize, Error> = match escaped_utf8_len(value) {
                        Ok(bytes) => checked_estimated_bytes(count, bytes, limit),
                        Err(e) => Err(e),
                    };
                    match estimated {
                        Ok(estimated_value_bytes) => Ok(ColumnValidation { supported: true, estimated_value_bytes }),
                        Err(_) => Ok(ColumnValidation { supported: false, estimated_value_bytes: 0 }),
                    }
                },
                Ok(_) => Err(encoded_type_mismatch(column.data_type())),
            }
        },
        Encoding::Dict | Encoding::Plain => {
            let mut values: EncodedColumnValues<'_> = column.values();
            let rows: usize = column.num_rows();
            let mut supported: bool = true;
            let mut estimated_value_bytes: usize = 0;
            let mut row: usize = 0;
            while row < rows
                invariant
                    row <= rows,
                    rows == c.rows,
                    c == column@,
                    values.wf(),
                    values.column() == c,
                    values.row() == row,
                    !values.failed(),
                    c.encoding == ENCODING_DICT || c.encoding == ENCODING_PLAIN,
                    rows_error(Check::Text, c, row as nat) is None,
                    supported == (rows_cost(c, row as nat) <= limit),
                    supported ==> estimated_value_bytes == rows_cost(c, row as nat),
                decreases rows - row,
            {
                let next: Option<Result<EncodedValueRef<'_>, Error>> = values.next();
                proof {
                    if rows_error(Check::Text, c, (row + 1) as nat) is Some {
                        lemma_rows_error(Check::Text, c, (row + 1) as nat, c.rows);
                    }
                }
                match next {
                    None => {},
                    Some(Err(e)) => {
                        return Err(e);
                    },
                    Some(Ok(value)) => match value {
                        EncodedValueRef::Null => {},
                        EncodedValueRef::Utf8(text) => {
                            if let Err(fault) = utf8_text(text) {
                                return Err(invalid_utf8(fault));
                            }
                            if supported {
                                let next_bytes: Option<usize> = match escaped_utf8_len(text) {
                                    Ok(bytes) => estimated_value_bytes.checked_add(bytes),
                                    Err(_) => None,
                                };
                                match next_bytes {
                                    Some(total) => {
                                        if total <= limit {
                                            estimated_value_bytes = total;
                                        } else {
                                            supported = false;
                                        }
                                    },
                                    None => {
                                        supported = false;
                                    },
                                }
                            }
                        },
                        _ => {
                            return Err(encoded_type_mismatch(column.data_type()));
                        },
                    },
                }
                row += 1;
            }
            Ok(ColumnValidation { supported, estimated_value_bytes })
        },
        _ => Ok(ColumnValidation { supported: false, estimated_value_bytes: 0 }),
    }
}

// ---------------------------------------------------------------- estimates

pub fn output_budget_exceeded() -> (error: Error)
    ensures
        error == Error::OutputBudgetExceeded,
{
    Error::OutputBudgetExceeded
}

/// The bytes of so many values, unless they are over the limit.
pub fn checked_estimated_bytes(count: usize, bytes_per_value: usize, limit: usize) -> (result: Result<usize, Error>)
    ensures
        count * bytes_per_value <= limit ==> (result matches Ok(bytes) && bytes == count * bytes_per_value),
        count * bytes_per_value > limit ==> result == Err::<usize, Error>(Error::OutputBudgetExceeded),
{
    match count.checked_mul(bytes_per_value) {
        Some(estimated) => if estimated > limit {
            Err(output_budget_exceeded())
        } else {
            Ok(estimated)
        },
        None => Err(output_budget_exceeded()),
    }
}

pub fn estimate_fixed_value_bytes(column: EncodedColumn<'_>, max_value_bytes: usize, limit: usize) -> (result: Result<usize, Error>)
    requires
        column@.wf(),
    ensures
        count_valid(column@.nulls()) * max_value_bytes <= limit ==> (result matches Ok(bytes) && bytes == count_valid(column@.nulls())
            * max_value_bytes),
        count_valid(column@.nulls()) * max_value_bytes > limit ==> result == Err::<usize, Error>(Error::OutputBudgetExceeded),
{
    checked_estimated_bytes(non_null_count(&column), max_value_bytes, limit)
}

/// The bytes of a column of numbers, unless they are over the limit.
pub fn estimate_integer_value_bytes(data_type: &DataType, column: EncodedColumn<'_>, limit: usize) -> (result: Result<usize, Error>)
    requires
        column@.wf(),
    ensures
        !(data_type is Int8 || data_type is Int16 || data_type is Int32 || data_type is Int64) ==> result == Err::<usize, Error>(
            Error::EncodedTypeMismatch { data_type: *data_type },
        ),
        data_type is Int8 || data_type is Int16 || data_type is Int32 || data_type is Int64 ==> ({
            let estimate = count_valid(column@.nulls()) * number_cost(*data_type);
            if estimate <= limit {
                result matches Ok(bytes) && bytes == estimate
            } else {
                result == Err::<usize, Error>(Error::OutputBudgetExceeded)
            }
        }),
{
    let max_value_bytes: usize = match data_type {
        DataType::Int8 => 4,
        DataType::Int16 => 6,
        DataType::Int32 => 11,
        DataType::Int64 => 20,
        _ => {
            return Err(encoded_type_mismatch(data_type));
        },
    };
    estimate_fixed_value_bytes(column, max_value_bytes, limit)
}

} // verus!
