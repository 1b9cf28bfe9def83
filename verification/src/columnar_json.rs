//! Row groups as columnar JSON: what is checked before anything is written, and how large the
//! output can become.
use std::collections::BTreeSet;
use vstd::prelude::*;
use vstd::utf8::encode_utf8;
use crate::encoded_column::{EncodedColumn, EncodedColumnView};
use crate::error::{Error, ErrorKind};
use crate::format::ENCODING_ALL_NULL;
use crate::json_columns::{
    all_finite, column_cost, doubles_fit, estimate_fixed_value_bytes, estimate_integer_value_bytes, exact_doubles,
    is_known_encoding, java_doubles, max_decimal_value_bytes, noted, output_budget_exceeded, row_result, rows_doubles,
    rows_error, validate_decimal_column, validate_float64_column, validate_integer_column, validate_utf8_column,
    Check, MAX_DOUBLE_VALUE_BYTES,
};
use crate::json_doubles::{sorted_bits, EncodedJsonPreflight, MAX_DISTINCT_JAVA_DOUBLE_VALUES};
use crate::json_text::{escaped, escaped_utf8_len};
use crate::reader::{encoding_of_code, Encoding};
use crate::row_group_reader::RowGroupReader;
use crate::types::DataType;

verus! {

pub const MAX_COLUMNAR_JSON_ROWS: usize = 1_000_000;

pub const MAX_UNCOMPRESSED_JSON_BYTES: usize = 536_870_912;

// ---------------------------------------------------------------- budget

/// How many bytes the output can take.
pub struct OutputBudget {
    pub estimated_bytes: usize,
}

/// The bytes around the values of a column: the comma before it, its name, the quotes and the colon,
/// and the commas between the rows.
pub open spec fn structure_bytes(name: Seq<char>, column_index: nat, rows: nat) -> nat {
    (if column_index > 0 {
        1nat
    } else {
        0nat
    }) + escaped(encode_utf8(name)).len() + 5 + (if rows > 0 {
        (rows - 1) as nat
    } else {
        0nat
    })
}

impl OutputBudget {
    pub open spec fn wf(&self) -> bool {
        self.estimated_bytes <= MAX_UNCOMPRESSED_JSON_BYTES
    }

    /// The two braces are always written.
    pub fn new() -> (budget: Self)
        ensures
            budget.wf(),
            budget.estimated_bytes == 2,
    {
        OutputBudget { estimated_bytes: 2 }
    }

    /// Adds bytes, if they fit.
    pub fn add(&mut self, bytes: usize) -> (result: Result<(), Error>)
        requires
            old(self).wf(),
        ensures
            final(self).wf(),
            old(self).estimated_bytes + bytes <= MAX_UNCOMPRESSED_JSON_BYTES ==> result is Ok && final(self).estimated_bytes
                == old(self).estimated_bytes + bytes,
            old(self).estimated_bytes + bytes > MAX_UNCOMPRESSED_JSON_BYTES ==> result == Err::<(), Error>(
                Error::OutputBudgetExceeded,
            ) && *final(self) == *old(self),
    {
        let next: usize = match self.estimated_bytes.checked_add(bytes) {
            Some(next) => next,
            None => {
                return Err(output_budget_exceeded());
            },
        };
        if next > MAX_UNCOMPRESSED_JSON_BYTES {
            return Err(output_budget_exceeded());
        }
        self.estimated_bytes = next;
        Ok(())
    }

    pub fn remaining(&self) -> (bytes: usize)
        requires
            self.wf(),
        ensures
            bytes == MAX_UNCOMPRESSED_JSON_BYTES - self.estimated_bytes,
    {
        MAX_UNCOMPRESSED_JSON_BYTES - self.estimated_bytes
    }

    /// Adds what stands around the values of a column, as far as it fits.
    pub fn add_column_structure(&mut self, name: &str, column_index: usize, row_count: usize) -> (result: Result<(), Error>)
        requires
            old(self).wf(),
        ensures
            final(self).wf(),
            old(self).estimated_bytes + structure_bytes(name@, column_index as nat, row_count as nat) <= MAX_UNCOMPRESSED_JSON_BYTES
                ==> result is Ok && final(self).estimated_bytes == old(self).estimated_bytes + structure_bytes(
                name@,
                column_index as nat,
                row_count as nat,
            ),
            old(self).estimated_bytes + structure_bytes(name@, column_index as nat, row_count as nat) > MAX_UNCOMPRESSED_JSON_BYTES
                ==> result == Err::<(), Error>(Error::OutputBudgetExceeded),
    {
        let comma: usize = if column_index > 0 {
            1
        } else {
            0
        };
        match self.add(comma) {
            Ok(_) => {},
            Err(e) => {
                return Err(e);
            },
        }
        let name_bytes: usize = match escaped_utf8_len(name.as_bytes()) {
            Ok(bytes) => bytes,
            Err(e) => {
                return Err(e);
            },
        };
        match self.add(name_bytes) {
            Ok(_) => {},
            Err(e) => {
                return Err(e);
            },
        }
        // Quotes around the name and around the values, and the colon.
        match self.add(5) {
            Ok(_) => {},
            Err(e) => {
                return Err(e);
            },
        }
        let commas: usize = if row_count > 0 {
            row_count - 1
        } else {
            0
        };
        self.add(commas)
    }
}

pub fn check_row_count(row_count: usize) -> (result: Result<(), Error>)
    ensures
        row_count <= MAX_COLUMNAR_JSON_ROWS ==> result is Ok,
        row_count > MAX_COLUMNAR_JSON_ROWS ==> result == Err::<(), Error>(Error::RowBudgetExceeded { rows: row_count }),
{
    if row_count > MAX_COLUMNAR_JSON_ROWS {
        return Err(Error::RowBudgetExceeded { rows: row_count });
    }
    Ok(())
}

// ---------------------------------------------------------------- which columns can be written

/// What the values of a column of type `dt` are checked for.
pub open spec fn check_of(dt: DataType) -> Option<Check> {
    match dt {
        DataType::Int8 => Some(Check::Integer),
        DataType::Int16 => Some(Check::Integer),
        DataType::Int32 => Some(Check::Integer),
        DataType::Int64 => Some(Check::Integer),
        DataType::Float64 => Some(Check::Double),
        DataType::Decimal128(_, _) => Some(Check::Decimal),
        DataType::Utf8 => Some(Check::Text),
        _ => None,
    }
}

pub open spec fn is_supported(dt: DataType, encoding: Encoding) -> bool {
    encoding is AllNull || (check_of(dt) is Some && (encoding is Const || encoding is Dict || encoding is Plain))
}

/// A column of this type and encoding can be written, as far as can be told without its values.
pub fn has_supported_structure(data_type: &DataType, encoding: Encoding) -> (supported: bool)
    ensures
        supported == is_supported(*data_type, encoding),
{
    let of_type: bool = match data_type {
        DataType::Int8 => true,
        DataType::Int16 => true,
        DataType::Int32 => true,
        DataType::Int64 => true,
        DataType::Float64 => true,
        DataType::Decimal128(_, _) => true,
        DataType::Utf8 => true,
        _ => false,
    };
    match encoding {
        Encoding::AllNull => true,
        Encoding::Const => of_type,
        Encoding::Dict => of_type,
        Encoding::Plain => of_type,
        Encoding::Other(_) => false,
    }
}

/// What the values of a column are checked for, if at all.
pub open spec fn column_check(dt: DataType, c: EncodedColumnView) -> Option<Check> {
    if c.encoding == ENCODING_ALL_NULL || !is_supported(dt, encoding_of_code(c.encoding)) {
        None
    } else {
        check_of(dt)
    }
}

// ---------------------------------------------------------------- model of the checks

/// Column `k` of those that are written.
pub open spec fn written_type(reader: RowGroupReader, k: int) -> DataType {
    reader.schema_of().columns@[reader.visited()[k] as int].data_type
}

pub open spec fn written_name(reader: RowGroupReader, k: int) -> Seq<char> {
    reader.schema_of().columns@[reader.visited()[k] as int].name@
}

pub open spec fn written_column(reader: RowGroupReader, k: int) -> Result<EncodedColumnView, Error> {
    reader.stored_column(reader.visited()[k] as int)
}

/// What is wrong with the first `n` columns, apart from their values.
pub open spec fn structure_error(reader: RowGroupReader, n: nat) -> Option<Error>
    decreases n,
{
    if n == 0 {
        None
    } else {
        match structure_error(reader, (n - 1) as nat) {
            Some(e) => Some(e),
            None => match written_column(reader, n - 1) {
                Err(e) => Some(e),
                Ok(c) => if c.rows != reader.rows() {
                    Some(Error::ColumnRowCountMismatch { rows: c.rows as usize, expected: reader.rows() as usize })
                } else {
                    None
                },
            },
        }
    }
}

/// Each of the first `n` columns can be written, as far as can be told without its values.
pub open spec fn all_supported(reader: RowGroupReader, n: nat) -> bool
    decreases n,
{
    n == 0 || (all_supported(reader, (n - 1) as nat) && (written_column(reader, n - 1) matches Ok(c) && is_supported(
        written_type(reader, n - 1),
        encoding_of_code(c.encoding),
    )))
}

/// The bytes around the values of the first `n` columns.
pub open spec fn structure_cost(reader: RowGroupReader, n: nat) -> nat
    decreases n,
{
    if n == 0 {
        0
    } else {
        structure_cost(reader, (n - 1) as nat) + structure_bytes(written_name(reader, n - 1), (n - 1) as nat, reader.rows())
    }
}

/// What is wrong with the values of the first `n` columns.
pub open spec fn values_error(reader: RowGroupReader, n: nat) -> Option<Error>
    decreases n,
{
    if n == 0 {
        None
    } else {
        match values_error(reader, (n - 1) as nat) {
            Some(e) => Some(e),
            None => match written_column(reader, n - 1) {
                Err(e) => Some(e),
                Ok(c) => match column_check(written_type(reader, n - 1), c) {
                    None => None,
                    Some(check) => rows_error(check, c, c.rows),
                },
            },
        }
    }
}

/// The most bytes that the values of the first `n` columns take.
pub open spec fn values_cost(reader: RowGroupReader, n: nat) -> nat
    decreases n,
{
    if n == 0 {
        0
    } else {
        values_cost(reader, (n - 1) as nat) + (match written_column(reader, n - 1) {
            Err(_) => 0,
            Ok(c) => match column_check(written_type(reader, n - 1), c) {
                None => 0,
                Some(check) => column_cost(check, written_type(reader, n - 1), c),
            },
        })
    }
}

/// The floating-point numbers in the first `n` columns.
pub open spec fn group_doubles(reader: RowGroupReader, n: nat) -> Set<u64>
    decreases n,
{
    if n == 0 {
        Set::empty()
    } else {
        group_doubles(reader, (n - 1) as nat).union(
            match written_column(reader, n - 1) {
                Err(_) => Set::empty(),
                Ok(c) => match column_check(written_type(reader, n - 1), c) {
                    Some(Check::Double) => rows_doubles(c, c.rows),
                    _ => Set::empty(),
                },
            },
        )
    }
}

/// The row group can be written as columnar JSON: its columns can, the output is not too large, and
/// neither are the texts of numbers that have to be asked for.
pub open spec fn can_be_written(reader: RowGroupReader) -> bool {
    let n = reader.visited().len();
    &&& all_supported(reader, n)
    &&& 2 + structure_cost(reader, n) + values_cost(reader, n) <= MAX_UNCOMPRESSED_JSON_BYTES
    &&& all_finite(group_doubles(reader, n))
    &&& java_doubles(group_doubles(reader, n)).len() <= MAX_DISTINCT_JAVA_DOUBLE_VALUES
}

/// Columnar JSON is not tried: there are too many rows, nested columns or no columns at all.
pub open spec fn is_left_out(reader: RowGroupReader) -> bool {
    reader.rows() > MAX_COLUMNAR_JSON_ROWS || reader.nested_error() is Some
}

/// What is wrong with a row group.
pub open spec fn group_error(reader: RowGroupReader) -> Option<Error> {
    if is_left_out(reader) {
        None
    } else {
        match structure_error(reader, reader.visited().len()) {
            Some(e) => Some(e),
            None => values_error(reader, reader.visited().len()),
        }
    }
}

// ---------------------------------------------------------------- lemmas

/// Values that cannot be read are invalid data.
proof fn lemma_value_error_kind(check: Check, c: EncodedColumnView, r: int)
    ensures
        row_result(check, c, r) matches Err(e) ==> e.spec_kind() == ErrorKind::InvalidData,
{
}

proof fn lemma_rows_error_kind(check: Check, c: EncodedColumnView, n: nat)
    ensures
        rows_error(check, c, n) matches Some(e) ==> e.spec_kind() == ErrorKind::InvalidData,
    decreases n,
{
    if n > 0 {
        lemma_rows_error_kind(check, c, (n - 1) as nat);
        lemma_value_error_kind(check, c, n - 1);
    }
}

proof fn lemma_structure_error(reader: RowGroupReader, n: nat, m: nat)
    requires
        n <= m,
    ensures
        structure_error(reader, n) is Some ==> structure_error(reader, m) == structure_error(reader, n),
        all_supported(reader, m) ==> all_supported(reader, n),
        structure_cost(reader, n) <= structure_cost(reader, m),
        values_error(reader, n) is Some ==> values_error(reader, m) == values_error(reader, n),
        values_cost(reader, n) <= values_cost(reader, m),
    decreases m,
{
    if n < m {
        lemma_structure_error(reader, n, (m - 1) as nat);
    }
}

/// The numbers of one more column.
proof fn lemma_more_doubles(before: Set<u64>, all: Set<u64>)
    requires
        before.finite(),
        all.finite(),
    ensures
        java_doubles(before.union(all)) == noted(java_doubles(before), all),
        exact_doubles(before.union(all)) == exact_doubles(before).union(exact_doubles(all)),
        all_finite(before.union(all)) == (all_finite(before) && all_finite(all)),
        java_doubles(before.union(all)).finite(),
        java_doubles(before).finite(),
        java_doubles(before).len() <= java_doubles(before.union(all)).len(),
{
    let more = before.union(all);
    assert(java_doubles(more) =~= noted(java_doubles(before), all));
    assert(exact_doubles(more) =~= exact_doubles(before).union(exact_doubles(all)));
    more.lemma_len_filter(|bits: u64| crate::json_doubles::is_finite(bits) && !crate::json_doubles::is_exact(bits));
    before.lemma_len_filter(|bits: u64| crate::json_doubles::is_finite(bits) && !crate::json_doubles::is_exact(bits));
    assert(java_doubles(before).subset_of(java_doubles(more)));
    vstd::set_lib::lemma_len_subset(java_doubles(before), java_doubles(more));
    if all_finite(more) {
        assert forall|b: u64| #[trigger] before.contains(b) implies crate::json_doubles::is_finite(b) by {
            assert(more.contains(b));
        }
        assert forall|b: u64| #[trigger] all.contains(b) implies crate::json_doubles::is_finite(b) by {
            assert(more.contains(b));
        }
    }
}

proof fn lemma_group_doubles_finite(reader: RowGroupReader, n: nat)
    ensures
        group_doubles(reader, n).finite(),
    decreases n,
{
    if n > 0 {
        lemma_group_doubles_finite(reader, (n - 1) as nat);
        match written_column(reader, n - 1) {
            Err(_) => {},
            Ok(c) => {
                crate::json_columns::lemma_doubles_finite(c, c.rows);
            },
        }
    }
}

// ---------------------------------------------------------------- checking

/// What is known of the columns before their values are looked at.
struct StructurePreflight {
    columns: Vec<usize>,
    supported_columns: Vec<bool>,
    output_budget: OutputBudget,
    fallback_required: bool,
}

/// The columns can be written, and what stands around their values fits.
pub open spec fn structure_fits(reader: RowGroupReader, n: nat) -> bool {
    all_supported(reader, n) && 2 + structure_cost(reader, n) <= MAX_UNCOMPRESSED_JSON_BYTES
}

/// Column `k` is one whose structure is supported.
pub open spec fn supported_at(reader: RowGroupReader, k: int) -> bool {
    written_column(reader, k) matches Ok(c) && is_supported(written_type(reader, k), encoding_of_code(c.encoding))
}

fn prepare_structure(row_group: &RowGroupReader) -> (result: Result<StructurePreflight, Error>)
    requires
        row_group.wf(),
    ensures
        row_group.nested_error() matches Some(e) ==> result == Err::<StructurePreflight, Error>(e),
        row_group.nested_error() is None ==> match structure_error(*row_group, row_group.visited().len()) {
            Some(e) => result == Err::<StructurePreflight, Error>(e),
            None => result matches Ok(found) && found.columns@ == row_group.visited() && (forall|k: int|
                0 <= k < found.columns@.len() ==> (#[trigger] found.columns@[k]) < row_group.schema_of().columns@.len())
                && found.supported_columns@.len() == found.columns@.len() && (forall|k: int|
                0 <= k < found.columns@.len() ==> #[trigger] found.supported_columns@[k] == supported_at(*row_group, k))
                && found.output_budget.wf() && found.fallback_required == !structure_fits(*row_group, row_group.visited().len())
                && (!found.fallback_required ==> found.output_budget.estimated_bytes == 2 + structure_cost(
                *row_group,
                row_group.visited().len(),
            )),
        },
{
    let columns: Vec<usize> = match row_group.encoded_columns() {
        Ok(columns) => columns,
        Err(e) => {
            return Err(e);
        },
    };
    let ghost reader = *row_group;
    let ghost n = columns@.len();
    let mut supported_columns: Vec<bool> = Vec::new();
    let mut output_budget: OutputBudget = OutputBudget::new();
    let mut fallback_required: bool = false;
    let rows: usize = row_group.num_rows();
    let mut k: usize = 0;
    while k < columns.len()
        invariant
            k <= columns@.len(),
            reader == *row_group,
            reader.wf(),
            reader.nested_error() is None,
            n == columns@.len(),
            columns@ == reader.visited(),
            forall|k: int| 0 <= k < columns@.len() ==> (#[trigger] columns@[k]) < reader.schema_of().columns@.len(),
            rows == reader.rows(),
            structure_error(reader, k as nat) is None,
            supported_columns@.len() == k,
            forall|j: int| 0 <= j < k ==> #[trigger] supported_columns@[j] == supported_at(reader, j),
            output_budget.wf(),
            fallback_required == !structure_fits(reader, k as nat),
            !fallback_required ==> output_budget.estimated_bytes == 2 + structure_cost(reader, k as nat),
        decreases columns@.len() - k,
    {
        proof {
            lemma_structure_error(reader, (k + 1) as nat, n);
            assert(columns@[k as int] < reader.schema_of().columns@.len());
        }
        let column: EncodedColumn<'_> = match row_group.encoded_column(columns[k]) {
            Ok(column) => column,
            Err(e) => {
                return Err(e);
            },
        };
        if column.num_rows() != rows {
            return Err(Error::ColumnRowCountMismatch { rows: column.num_rows(), expected: rows });
        }
        let meta: &crate::schema::ColumnMeta = &row_group.schema().columns[columns[k]];
        let supported: bool = has_supported_structure(&meta.data_type, column.encoding());
        supported_columns.push(supported);
        if !supported {
            fallback_required = true;
        } else if !fallback_required {
            match output_budget.add_column_structure(meta.name.as_str(), k, rows) {
                Ok(_) => {},
                Err(_) => {
                    fallback_required = true;
                },
            }
        }
        k += 1;
    }
    Ok(StructurePreflight { columns, supported_columns, output_budget, fallback_required })
}

/// Checks the values of a column, and adds what they can take to the budget unless the row group
/// cannot be written anyway.
fn check_column(
    data_type: &DataType,
    column: EncodedColumn<'_>,
    fallback_required: bool,
    output_budget: &mut OutputBudget,
    java_double_bits: &mut BTreeSet<u64>,
    exact_double_bits: &mut BTreeSet<u64>,
) -> (result: Result<bool, Error>)
    requires
        column@.wf(),
        is_supported(*data_type, encoding_of_code(column@.encoding)),
        old(output_budget).wf(),
        old(java_double_bits)@.finite(),
        old(java_double_bits)@.len() <= MAX_DISTINCT_JAVA_DOUBLE_VALUES,
    ensures
        final(output_budget).wf(),
        final(java_double_bits)@.finite(),
        final(java_double_bits)@.len() <= MAX_DISTINCT_JAVA_DOUBLE_VALUES,
        column_check(*data_type, column@) is None ==> result == Ok::<bool, Error>(true) && *final(output_budget) == *old(output_budget)
            && final(java_double_bits)@ == old(java_double_bits)@ && final(exact_double_bits)@ == old(exact_double_bits)@,
        column_check(*data_type, column@) matches Some(check) ==> ({
            let cost = column_cost(check, *data_type, column@);
            let all = rows_doubles(column@, column@.rows);
            match rows_error(check, column@, column@.rows) {
                Some(e) => result == Err::<bool, Error>(e),
                None => result matches Ok(supported) && (!fallback_required ==> supported == ((check is Double ==> doubles_fit(
                    old(java_double_bits)@,
                    all,
                )) && old(output_budget).estimated_bytes + cost <= MAX_UNCOMPRESSED_JSON_BYTES) && (supported ==> final(
                    output_budget).estimated_bytes == old(output_budget).estimated_bytes + cost && (if check is Double {
                    final(java_double_bits)@ == noted(old(java_double_bits)@, all) && final(exact_double_bits)@
                        == old(exact_double_bits)@.union(exact_doubles(all))
                } else {
                    final(java_double_bits)@ == old(java_double_bits)@ && final(exact_double_bits)@ == old(exact_double_bits)@
                }))),
            }
        }),
{
    let ghost c = column@;
    proof {
        lemma_rows_error_kind(Check::Integer, c, c.rows);
        lemma_rows_error_kind(Check::Double, c, c.rows);
        lemma_rows_error_kind(Check::Decimal, c, c.rows);
        lemma_rows_error_kind(Check::Text, c, c.rows);
    }
    match column.encoding() {
        Encoding::AllNull => {
            return Ok(true);
        },
        _ => {},
    }
    assert(is_known_encoding(c.encoding));
    let estimate: Result<usize, Error> = match data_type {
        DataType::Int8 | DataType::Int16 | DataType::Int32 | DataType::Int64 => match validate_integer_column(column) {
            Ok(_) => estimate_integer_value_bytes(data_type, column, output_budget.remaining()),
            Err(e) => Err(e),
        },
        DataType::Float64 => match validate_float64_column(column, java_double_bits, exact_double_bits) {
            Ok(true) => estimate_fixed_value_bytes(column, MAX_DOUBLE_VALUE_BYTES, output_budget.remaining()),
            Ok(false) => {
                return Ok(false);
            },
            Err(e) => Err(e),
        },
        DataType::Decimal128(precision, scale) => match validate_decimal_column(column) {
            Ok(_) => estimate_fixed_value_bytes(
                column,
                max_decimal_value_bytes(*precision, *scale),
                output_budget.remaining(),
            ),
            Err(e) => Err(e),
        },
        DataType::Utf8 => {
            let remaining: usize = if fallback_required {
                usize::MAX
            } else {
                output_budget.remaining()
            };
            match validate_utf8_column(column, remaining) {
                Ok(found) => if found.supported {
                    Ok(found.estimated_value_bytes)
                } else {
                    return Ok(false);
                },
                Err(e) => Err(e),
            }
        },
        _ => {
            return Ok(false);
        },
    };
    let added: Result<(), Error> = match estimate {
        Ok(bytes) => if fallback_required {
            Ok(())
        } else {
            output_budget.add(bytes)
        },
        Err(e) => Err(e),
    };
    match added {
        Ok(_) => Ok(true),
        Err(e) => if e.kind() == ErrorKind::Unsupported {
            Ok(false)
        } else {
            Err(e)
        },
    }
}

/// The values of the first `n` columns fit as well.
spec fn values_fit(reader: RowGroupReader, total: nat, n: nat) -> bool {
    &&& structure_fits(reader, total)
    &&& 2 + structure_cost(reader, total) + values_cost(reader, n) <= MAX_UNCOMPRESSED_JSON_BYTES
    &&& all_finite(group_doubles(reader, n))
    &&& java_doubles(group_doubles(reader, n)).len() <= MAX_DISTINCT_JAVA_DOUBLE_VALUES
}

/// One more column: whether its values fit too.
proof fn lemma_one_more_column(reader: RowGroupReader, total: nat, k: nat)
    requires
        written_column(reader, k as int) is Ok,
    ensures
        ({
            let c = written_column(reader, k as int)->Ok_0;
            let dt = written_type(reader, k as int);
            let all = rows_doubles(c, c.rows);
            let before = group_doubles(reader, k);
            &&& before.finite()
            &&& java_doubles(before).finite()
            &&& column_check(dt, c) is None ==> values_fit(reader, total, k + 1) == values_fit(reader, total, k) && values_cost(
                reader,
                k + 1,
            ) == values_cost(reader, k) && group_doubles(reader, k + 1) == before
            &&& column_check(dt, c) matches Some(check) ==> (values_fit(reader, total, k + 1) == (values_fit(reader, total, k) && 2
                + structure_cost(reader, total) + values_cost(reader, k) + column_cost(check, dt, c) <= MAX_UNCOMPRESSED_JSON_BYTES && (
            check is Double ==> doubles_fit(java_doubles(before), all)))) && values_cost(reader, k + 1) == values_cost(reader, k)
                + column_cost(check, dt, c) && (if check is Double {
                java_doubles(group_doubles(reader, k + 1)) == noted(java_doubles(before), all) && exact_doubles(
                    group_doubles(reader, k + 1),
                ) == exact_doubles(before).union(exact_doubles(all))
            } else {
                group_doubles(reader, k + 1) == before
            })
        }),
{
    let c = written_column(reader, k as int)->Ok_0;
    let dt = written_type(reader, k as int);
    let before = group_doubles(reader, k);
    lemma_group_doubles_finite(reader, k);
    crate::json_columns::lemma_doubles_finite(c, c.rows);
    lemma_more_doubles(before, rows_doubles(c, c.rows));
    assert(before.union(Set::empty()) =~= before);
}

/// Checks a row group before anything of it is written. Gives the numbers whose texts are needed,
/// or nothing if the row group cannot be written as columnar JSON.
pub fn prepare_encoded(row_group: &RowGroupReader) -> (result: Result<Option<EncodedJsonPreflight>, Error>)
    requires
        row_group.wf(),
    ensures
        match group_error(*row_group) {
            Some(e) => result == Err::<Option<EncodedJsonPreflight>, Error>(e),
            None => result matches Ok(found) && found is Some == (!is_left_out(*row_group) && row_group.visited().len() > 0
                && can_be_written(*row_group)) && (found matches Some(preflight) ==> preflight.wf()
                && preflight.java_bits().to_set() == java_doubles(group_doubles(*row_group, row_group.visited().len()))
                && preflight.exact_bits().to_set() == exact_doubles(group_doubles(*row_group, row_group.visited().len()))),
        },
{
    match check_row_count(row_group.num_rows()) {
        Ok(_) => {},
        Err(_) => {
            return Ok(None);
        },
    }
    let ghost reader = *row_group;
    let found: StructurePreflight = match prepare_structure(row_group) {
        Ok(found) => found,
        Err(e) => {
            proof {
                if reader.nested_error() is None {
                    lemma_structure_error_kind(reader, reader.visited().len());
                }
            }
            return if e.kind() == ErrorKind::Unsupported {
                Ok(None)
            } else {
                Err(e)
            };
        },
    };
    let columns: Vec<usize> = found.columns;
    let supported_columns: Vec<bool> = found.supported_columns;
    let mut output_budget: OutputBudget = found.output_budget;
    let mut fallback_required: bool = found.fallback_required;
    if columns.len() == 0 {
        return Ok(None);
    }
    let ghost n = columns@.len();
    let mut java_double_bits: BTreeSet<u64> = BTreeSet::new();
    let mut exact_double_bits: BTreeSet<u64> = BTreeSet::new();
    let mut k: usize = 0;
    proof {
        assert(java_doubles(Set::empty()) =~= Set::empty());
        assert(exact_doubles(Set::empty()) =~= Set::empty());
    }
    while k < columns.len()
        invariant
            k <= columns@.len(),
            reader == *row_group,
            reader.wf(),
            !is_left_out(reader),
            n == columns@.len(),
            columns@ == reader.visited(),
            forall|k: int| 0 <= k < columns@.len() ==> (#[trigger] columns@[k]) < reader.schema_of().columns@.len(),
            structure_error(reader, n) is None,
            supported_columns@.len() == n,
            forall|k: int| 0 <= k < columns@.len() ==> #[trigger] supported_columns@[k] == supported_at(reader, k),
            output_budget.wf(),
            java_double_bits@.finite(),
            java_double_bits@.len() <= MAX_DISTINCT_JAVA_DOUBLE_VALUES,
            values_error(reader, k as nat) is None,
            fallback_required == !values_fit(reader, n, k as nat),
            !fallback_required ==> output_budget.estimated_bytes == 2 + structure_cost(reader, n) + values_cost(reader, k as nat)
                && java_double_bits@ == java_doubles(group_doubles(reader, k as nat)) && exact_double_bits@ == exact_doubles(
                group_doubles(reader, k as nat),
            ),
        decreases columns@.len() - k,
    {
        proof {
            lemma_structure_error(reader, (k + 1) as nat, n);
            assert(columns@[k as int] < reader.schema_of().columns@.len());
            assert(supported_columns@[k as int] == supported_at(reader, k as int));
            assert(structure_error(reader, (k + 1) as nat) is None);
            lemma_one_more_column(reader, n, k as nat);
        }
        if supported_columns[k] {
            let column: EncodedColumn<'_> = match row_group.encoded_column(columns[k]) {
                Ok(column) => column,
                Err(e) => {
                    return Err(e);
                },
            };
            let meta: &crate::schema::ColumnMeta = &row_group.schema().columns[columns[k]];
            match check_column(
                &meta.data_type,
                column,
                fallback_required,
                &mut output_budget,
                &mut java_double_bits,
                &mut exact_double_bits,
            ) {
                Ok(supported) => {
                    if !supported {
                        fallback_required = true;
                    }
                },
                Err(e) => {
                    return Err(e);
                },
            }
        }
        k += 1;
    }
    if fallback_required {
        return Ok(None);
    }
    Ok(Some(EncodedJsonPreflight::new(sorted_bits(&java_double_bits), sorted_bits(&exact_double_bits))))
}

proof fn lemma_structure_error_kind(reader: RowGroupReader, n: nat)
    ensures
        structure_error(reader, n) matches Some(e) ==> e.spec_kind() == ErrorKind::InvalidData,
    decreases n,
{
    if n > 0 {
        lemma_structure_error_kind(reader, (n - 1) as nat);
    }
}

} // verus!
