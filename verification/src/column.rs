//! Columns of rows as they are handed over and given back.
use vstd::prelude::*;
use crate::codec::put_be;
use crate::bucket_writer::ChildColumnRole;
use crate::column_writer::Cells;
use crate::decimal::{i128_to_biginteger_bytes, lemma_signed_len, signed_bytes, signed_len, signed_value, twos_complement};
use crate::error::Error;
use crate::types::{ns_to_millis_nanos, pair_nanos, physical_type, width_of, DataType, TimeUnit, NANOS_PER_MILLI};
use crate::types::millis_nanos_to_ns;
use crate::values::{decode_undoes_encode, encoded_value, is_value, value_fits, ValueView};
use crate::varint;
use crate::varint::varint_bytes;

verus! {

/// The values of a column; the value of a row that is null does not matter. Floating point numbers
/// are held by their bits. The rows of a list or map are parts of the columns below it: row `i` is
/// the part from `offsets[i]` to `offsets[i + 1]`.
#[derive(Debug, PartialEq, Eq)]
pub enum ColumnValues {
    Boolean(Vec<bool>),
    Int8(Vec<i8>),
    Int16(Vec<i16>),
    Int32(Vec<i32>),
    Int64(Vec<i64>),
    Float32(Vec<u32>),
    Float64(Vec<u64>),
    Date32(Vec<i32>),
    Time32(Vec<i32>),
    Utf8(Vec<Vec<u8>>),
    Binary(Vec<Vec<u8>>),
    Decimal128(Vec<i128>),
    TimestampMillis(Vec<i64>),
    TimestampMicros(Vec<i64>),
    TimestampNanos(Vec<i64>),
    LegacyTimestampNanos { millis: Vec<i64>, nanos: Vec<i32>, child_nulls: Vec<bool> },
    ListOf { offsets: Vec<usize>, values: Box<Column> },
    MapOf { offsets: Vec<usize>, keys: Box<Column>, values: Box<Column> },
}

/// A column of rows.
#[derive(Debug, PartialEq, Eq)]
pub struct Column {
    pub values: ColumnValues,
    pub nulls: Vec<bool>,
}

/// What a row holds.
pub enum Row {
    Null,
    Leaf(ValueView),
    ListOf(Seq<Row>),
    MapOf(Seq<(Row, Row)>),
}

// ---------------------------------------------------------------- model

/// The offsets cut `children` rows into `rows` parts that a length of 32 bits can tell.
pub open spec fn offsets_ok(offsets: Seq<usize>, rows: nat, children: nat) -> bool {
    &&& offsets.len() == rows + 1
    &&& offsets[rows as int] <= children
    &&& forall|i: int, j: int| 0 <= i <= j < offsets.len() ==> offsets[i] <= offsets[j]
    &&& forall|i: int| 0 <= i < rows ==> (#[trigger] offsets[i + 1]) - offsets[i] <= i32::MAX
}

pub open spec fn short_bytes(values: Seq<Vec<u8>>) -> bool {
    forall|i: int| 0 <= i < values.len() ==> (#[trigger] values[i])@.len() <= u32::MAX
}

/// The parts of a column fit together.
pub open spec fn consistent(col: Column) -> bool
    decreases col,
{
    let n = col.nulls@.len();
    match col.values {
        ColumnValues::Boolean(v) => v@.len() == n,
        ColumnValues::Int8(v) => v@.len() == n,
        ColumnValues::Int16(v) => v@.len() == n,
        ColumnValues::Int32(v) => v@.len() == n,
        ColumnValues::Int64(v) => v@.len() == n,
        ColumnValues::Float32(v) => v@.len() == n,
        ColumnValues::Float64(v) => v@.len() == n,
        ColumnValues::Date32(v) => v@.len() == n,
        ColumnValues::Time32(v) => v@.len() == n,
        ColumnValues::Utf8(v) => v@.len() == n && short_bytes(v@),
        ColumnValues::Binary(v) => v@.len() == n && short_bytes(v@),
        ColumnValues::Decimal128(v) => v@.len() == n,
        ColumnValues::TimestampMillis(v) => v@.len() == n,
        ColumnValues::TimestampMicros(v) => v@.len() == n,
        ColumnValues::TimestampNanos(v) => v@.len() == n,
        ColumnValues::LegacyTimestampNanos { millis, nanos, child_nulls } => millis@.len() == n && nanos@.len() == n
            && child_nulls@.len() == n,
        ColumnValues::ListOf { offsets, values } => offsets_ok(offsets@, n, values.nulls@.len()) && consistent(*values),
        ColumnValues::MapOf { offsets, keys, values } => offsets_ok(offsets@, n, values.nulls@.len()) && keys.nulls@.len()
            == values.nulls@.len() && consistent(*keys) && consistent(*values),
    }
}

/// The rows from `from` up to `to`.
pub open spec fn row_range(from: int, to: int) -> Seq<usize> {
    Seq::new((to - from) as nat, |i: int| (from + i) as usize)
}

/// The items of the rows `kept` that are not null, one row after another.
pub open spec fn kept_items(offsets: Seq<usize>, nulls: Seq<bool>, kept: Seq<usize>) -> Seq<usize>
    decreases kept.len(),
{
    if kept.len() == 0 {
        Seq::empty()
    } else {
        let row = kept.last() as int;
        kept_items(offsets, nulls, kept.drop_last()) + (if nulls[row] {
            Seq::empty()
        } else {
            row_range(offsets[row] as int, offsets[row + 1] as int)
        })
    }
}

pub open spec fn rows_below(kept: Seq<usize>, n: nat) -> bool {
    forall|i: int| 0 <= i < kept.len() ==> #[trigger] kept[i] < n
}

/// What is wrong with row `i` of a column of split timestamps.
pub open spec fn legacy_row_error(millis: Seq<i64>, nanos: Seq<i32>, child_nulls: Seq<bool>, nulls: Seq<bool>, i: int) -> Option<Error> {
    if nulls[i] {
        None
    } else if child_nulls[i] {
        Some(Error::LegacyNullChild)
    } else {
        match pair_nanos(millis[i], nanos[i]) {
            Ok(_) => None,
            Err(Error::NanosOutOfRange { nanos }) => Some(Error::InvalidLegacyNanos { nanos }),
            Err(_) => Some(Error::LegacyTimestampOverflow),
        }
    }
}

/// What is wrong with the rows `kept` of a column of split timestamps: the first bad one.
pub open spec fn legacy_error(
    millis: Seq<i64>,
    nanos: Seq<i32>,
    child_nulls: Seq<bool>,
    nulls: Seq<bool>,
    kept: Seq<usize>,
) -> Option<Error>
    decreases kept.len(),
{
    if kept.len() == 0 {
        None
    } else {
        match legacy_error(millis, nanos, child_nulls, nulls, kept.drop_last()) {
            Some(e) => Some(e),
            None => legacy_row_error(millis, nanos, child_nulls, nulls, kept.last() as int),
        }
    }
}

pub proof fn lemma_legacy_row(millis: Seq<i64>, nanos: Seq<i32>, child_nulls: Seq<bool>, nulls: Seq<bool>, kept: Seq<usize>, k: int)
    requires
        legacy_error(millis, nanos, child_nulls, nulls, kept) is None,
        0 <= k < kept.len(),
    ensures
        legacy_row_error(millis, nanos, child_nulls, nulls, kept[k] as int) is None,
    decreases kept.len(),
{
    if k < kept.len() - 1 {
        lemma_legacy_row(millis, nanos, child_nulls, nulls, kept.drop_last(), k);
    }
}

/// What keeps the rows `kept` of a column from being ones of type `dt`, which is no list or map.
pub open spec fn leaf_error(dt: DataType, col: Column, kept: Seq<usize>) -> Option<Error> {
    if !leaf_matches(dt, col.values) {
        Some(Error::ArrayTypeMismatch { data_type: dt })
    } else {
        match col.values {
            ColumnValues::LegacyTimestampNanos { millis, nanos, child_nulls } => legacy_error(
                millis@,
                nanos@,
                child_nulls@,
                col.nulls@,
                kept,
            ),
            _ => None,
        }
    }
}

/// A column that is looked for below physical column `length` of logical column `parent`.
pub open spec fn missing_child(parent: int, length: int, role: ChildColumnRole) -> Error {
    Error::MissingChildColumn { parent: parent as usize, length: length as usize, role }
}

/// What keeps the rows `kept` of a column below a list or map from being ones of type `dt`. The
/// column is physical column `at`, and it stands below logical column `parent`.
pub open spec fn element_error(dt: DataType, col: Column, kept: Seq<usize>, parent: int, at: int) -> Option<Error>
    decreases dt,
{
    if kept.len() == 0 {
        None
    } else {
        match col.values {
            ColumnValues::ListOf { offsets, values } => match dt {
                DataType::ListOf(element, _) => element_error(
                    *element,
                    *values,
                    kept_items(offsets@, col.nulls@, kept),
                    parent,
                    at + 1,
                ),
                _ => Some(missing_child(parent, at, ChildColumnRole::ListElement)),
            },
            ColumnValues::MapOf { offsets, keys, values } => match dt {
                DataType::MapOf(key, value, _) => {
                    let items = kept_items(offsets@, col.nulls@, kept);
                    match element_error(*value, *values, items, parent, at + 1 + element_types(*key).len()) {
                        Some(e) => Some(e),
                        None => element_error(*key, *keys, items, parent, at + 1),
                    }
                },
                _ => Some(missing_child(parent, at, ChildColumnRole::MapKey)),
            },
            _ => leaf_error(dt, col, kept),
        }
    }
}

/// The rows `kept` of a column below a list or map are ones of type `dt`.
pub open spec fn element_ok(dt: DataType, col: Column, kept: Seq<usize>) -> bool
    decreases dt,
{
    kept.len() == 0 || match col.values {
        ColumnValues::ListOf { offsets, values } => match dt {
            DataType::ListOf(element, _) => element_ok(*element, *values, kept_items(offsets@, col.nulls@, kept)),
            _ => false,
        },
        ColumnValues::MapOf { offsets, keys, values } => match dt {
            DataType::MapOf(key, value, _) => {
                let items = kept_items(offsets@, col.nulls@, kept);
                element_ok(*value, *values, items) && element_ok(*key, *keys, items)
            },
            _ => false,
        },
        _ => leaf_error(dt, col, kept) is None,
    }
}

pub proof fn lemma_element_ok(dt: DataType, col: Column, kept: Seq<usize>, parent: int, at: int)
    ensures
        element_ok(dt, col, kept) == (element_error(dt, col, kept, parent, at) is None),
    decreases dt,
{
    match (dt, col.values) {
        (DataType::ListOf(element, _), ColumnValues::ListOf { offsets, values }) => {
            lemma_element_ok(*element, *values, kept_items(offsets@, col.nulls@, kept), parent, at + 1);
        },
        (DataType::MapOf(key, value, _), ColumnValues::MapOf { offsets, keys, values }) => {
            let items = kept_items(offsets@, col.nulls@, kept);
            lemma_element_ok(*value, *values, items, parent, at + 1 + element_types(*key).len());
            lemma_element_ok(*key, *keys, items, parent, at + 1);
        },
        _ => {},
    }
}

pub open spec fn leaf_matches(dt: DataType, values: ColumnValues) -> bool {
    match dt {
        DataType::Boolean => values is Boolean,
        DataType::Int8 => values is Int8,
        DataType::Int16 => values is Int16,
        DataType::Int32 => values is Int32,
        DataType::Int64 => values is Int64,
        DataType::Float32 => values is Float32,
        DataType::Float64 => values is Float64,
        DataType::Date32 => values is Date32,
        DataType::Time32 => values is Time32,
        DataType::Utf8 => values is Utf8,
        DataType::Binary => values is Binary,
        DataType::Decimal128(_, _) => values is Decimal128,
        DataType::Timestamp(TimeUnit::Millisecond, _) => values is TimestampMillis,
        DataType::Timestamp(TimeUnit::Microsecond, _) => values is TimestampMicros,
        DataType::Timestamp(TimeUnit::Nanosecond, _) => values is TimestampNanos,
        DataType::LegacyTimestampNanos(_, _) => values is LegacyTimestampNanos,
        _ => false,
    }
}

/// The value of row `i` of a column of type `dt` without lists and maps; there is none where a part of
/// it is missing.
pub open spec fn leaf_value(dt: DataType, values: ColumnValues, i: int) -> ValueView {
    match values {
        ColumnValues::Boolean(v) => ValueView::Boolean(v@[i]),
        ColumnValues::Int8(v) => ValueView::TinyInt(v@[i]),
        ColumnValues::Int16(v) => ValueView::SmallInt(v@[i]),
        ColumnValues::Int32(v) => ValueView::Integer(v@[i]),
        ColumnValues::Int64(v) => ValueView::BigInt(v@[i]),
        ColumnValues::Float32(v) => ValueView::Float(v@[i]),
        ColumnValues::Float64(v) => ValueView::Double(v@[i]),
        ColumnValues::Date32(v) => ValueView::Date(v@[i]),
        ColumnValues::Time32(v) => ValueView::Time(v@[i]),
        ColumnValues::Utf8(v) => ValueView::String(v@[i]@),
        ColumnValues::Binary(v) => ValueView::Bytes(v@[i]@),
        ColumnValues::Decimal128(v) => if width_of(dt) > 0 {
            ValueView::DecimalCompact(v@[i] as i64)
        } else {
            ValueView::DecimalLarge(signed_bytes(v@[i]))
        },
        ColumnValues::TimestampMillis(v) => ValueView::TimestampMillis(v@[i]),
        ColumnValues::TimestampMicros(v) => ValueView::TimestampMicros(v@[i]),
        ColumnValues::TimestampNanos(v) => ValueView::TimestampNanos {
            millis: (v@[i] as int / NANOS_PER_MILLI as int) as i64,
            nanos_of_milli: (v@[i] as int % NANOS_PER_MILLI as int) as i32,
        },
        ColumnValues::LegacyTimestampNanos { millis, nanos, child_nulls } => if child_nulls@[i] {
            ValueView::Null
        } else {
            ValueView::TimestampNanos { millis: millis@[i], nanos_of_milli: nanos@[i] }
        },
        _ => ValueView::Null,
    }
}

/// The rows of a column of type `dt`.
pub open spec fn rows_of(dt: DataType, col: Column) -> Seq<Row>
    decreases dt,
{
    let n = col.nulls@.len();
    match dt {
        DataType::ListOf(element, _) => match col.values {
            ColumnValues::ListOf { offsets, values } => {
                let items = rows_of(*element, *values);
                Seq::new(
                    n,
                    |i: int|
                        if col.nulls@[i] {
                            Row::Null
                        } else {
                            Row::ListOf(items.subrange(offsets@[i] as int, offsets@[i + 1] as int))
                        },
                )
            },
            _ => Seq::new(n, |i: int| Row::Null),
        },
        DataType::MapOf(key, value, _) => match col.values {
            ColumnValues::MapOf { offsets, keys, values } => {
                let ks = rows_of(*key, *keys);
                let vs = rows_of(*value, *values);
                Seq::new(
                    n,
                    |i: int|
                        if col.nulls@[i] {
                            Row::Null
                        } else {
                            Row::MapOf(
                                Seq::new(
                                    (offsets@[i + 1] - offsets@[i]) as nat,
                                    |j: int| (ks[offsets@[i] + j], vs[offsets@[i] + j]),
                                ),
                            )
                        },
                )
            },
            _ => Seq::new(n, |i: int| Row::Null),
        },
        _ => Seq::new(
            n,
            |i: int|
                if col.nulls@[i] {
                    Row::Null
                } else {
                    Row::Leaf(leaf_value(dt, col.values, i))
                },
        ),
    }
}

/// What the physical column of a row holds: the value of a leaf, the length of a list or map.
pub open spec fn own_cell(row: Row) -> Option<Seq<u8>> {
    match row {
        Row::Null => None,
        Row::Leaf(v) => Some(encoded_value(v)),
        Row::ListOf(items) => Some(encoded_value(ValueView::Integer(items.len() as i32))),
        Row::MapOf(entries) => Some(encoded_value(ValueView::Integer(entries.len() as i32))),
    }
}

pub open spec fn own_cells(rows: Seq<Row>) -> Cells {
    Seq::new(rows.len(), |i: int| own_cell(rows[i]))
}

/// The items of all lists, one after another.
pub open spec fn list_items(rows: Seq<Row>) -> Seq<Row>
    decreases rows.len(),
{
    if rows.len() == 0 {
        Seq::empty()
    } else {
        list_items(rows.drop_last()) + match rows.last() {
            Row::ListOf(items) => items,
            _ => Seq::empty(),
        }
    }
}

pub open spec fn keys_in(entries: Seq<(Row, Row)>) -> Seq<Row> {
    Seq::new(entries.len(), |j: int| entries[j].0)
}

pub open spec fn values_in(entries: Seq<(Row, Row)>) -> Seq<Row> {
    Seq::new(entries.len(), |j: int| entries[j].1)
}

/// The keys of all maps, one after another.
pub open spec fn map_keys(rows: Seq<Row>) -> Seq<Row>
    decreases rows.len(),
{
    if rows.len() == 0 {
        Seq::empty()
    } else {
        map_keys(rows.drop_last()) + match rows.last() {
            Row::MapOf(entries) => keys_in(entries),
            _ => Seq::empty(),
        }
    }
}

/// The values of all maps, one after another.
pub open spec fn map_values(rows: Seq<Row>) -> Seq<Row>
    decreases rows.len(),
{
    if rows.len() == 0 {
        Seq::empty()
    } else {
        map_values(rows.drop_last()) + match rows.last() {
            Row::MapOf(entries) => values_in(entries),
            _ => Seq::empty(),
        }
    }
}

/// The physical columns below the rows of a column of type `dt`.
pub open spec fn child_columns(dt: DataType, rows: Seq<Row>) -> Seq<Cells>
    decreases dt, 0nat,
{
    match dt {
        DataType::ListOf(element, _) => element_columns(*element, list_items(rows)),
        DataType::MapOf(key, value, _) => element_columns(*key, map_keys(rows)) + element_columns(*value, map_values(rows)),
        _ => Seq::empty(),
    }
}

/// The physical columns of the rows of a column of type `dt` that stands below another one.
pub open spec fn element_columns(dt: DataType, rows: Seq<Row>) -> Seq<Cells>
    decreases dt, 1nat,
{
    seq![own_cells(rows)] + child_columns(dt, rows)
}

/// The types of the physical columns below a column of type `dt`.
pub open spec fn child_types(dt: DataType) -> Seq<DataType>
    decreases dt, 0nat,
{
    match dt {
        DataType::ListOf(element, _) => element_types(*element),
        DataType::MapOf(key, value, _) => element_types(*key) + element_types(*value),
        _ => Seq::empty(),
    }
}

pub open spec fn element_types(dt: DataType) -> Seq<DataType>
    decreases dt, 1nat,
{
    seq![physical_type(dt)] + child_types(dt)
}

/// The rows at the places `indices`.
pub open spec fn picked(rows: Seq<Row>, indices: Seq<usize>) -> Seq<Row> {
    Seq::new(indices.len(), |i: int| rows[indices[i] as int])
}

// ---------------------------------------------------------------- lemmas

pub proof fn lemma_kept_items_push(offsets: Seq<usize>, nulls: Seq<bool>, kept: Seq<usize>, row: usize)
    ensures
        kept_items(offsets, nulls, kept.push(row)) == kept_items(offsets, nulls, kept) + (if nulls[row as int] {
            Seq::empty()
        } else {
            row_range(offsets[row as int] as int, offsets[row + 1] as int)
        }),
{
    assert(kept.push(row).drop_last() =~= kept);
}

pub proof fn lemma_kept_below(offsets: Seq<usize>, nulls: Seq<bool>, kept: Seq<usize>, children: nat)
    requires
        offsets_ok(offsets, nulls.len(), children),
        rows_below(kept, nulls.len()),
    ensures
        rows_below(kept_items(offsets, nulls, kept), children),
    decreases kept.len(),
{
    if kept.len() > 0 {
        let row = kept.last() as int;
        assert(kept[kept.len() - 1] < nulls.len());
        assert(rows_below(kept.drop_last(), nulls.len())) by {
            assert forall|i: int| 0 <= i < kept.drop_last().len() implies #[trigger] kept.drop_last()[i] < nulls.len() by {
                assert(kept[i] < nulls.len());
            }
        }
        lemma_kept_below(offsets, nulls, kept.drop_last(), children);
        let head = kept_items(offsets, nulls, kept.drop_last());
        assert forall|i: int| 0 <= i < kept_items(offsets, nulls, kept).len() implies #[trigger] kept_items(
            offsets,
            nulls,
            kept,
        )[i] < children by {
            if i < head.len() {
                assert(head[i] < children);
            } else {
                assert(offsets[row + 1] <= offsets[nulls.len() as int]);
            }
        }
    }
}

pub proof fn lemma_rows_len(dt: DataType, col: Column)
    ensures
        rows_of(dt, col).len() == col.nulls@.len(),
{
}

/// The items of the kept lists are the kept items.
pub proof fn lemma_list_items_kept(element: DataType, dt: DataType, col: Column, kept: Seq<usize>)
    requires
        consistent(col),
        dt matches DataType::ListOf(e, _) && *e == element,
        col.values is ListOf,
        rows_below(kept, col.nulls@.len()),
    ensures
        col.values matches ColumnValues::ListOf { offsets, values } ==> list_items(picked(rows_of(dt, col), kept)) == picked(
            rows_of(element, *values),
            kept_items(offsets@, col.nulls@, kept),
        ),
    decreases kept.len(),
{
    if let ColumnValues::ListOf { offsets, values } = col.values {
        let rows = rows_of(dt, col);
        let items = rows_of(element, *values);
        lemma_rows_len(element, *values);
        if kept.len() == 0 {
            assert(picked(rows, kept) =~= Seq::empty());
            assert(list_items(picked(rows, kept)) =~= picked(items, kept_items(offsets@, col.nulls@, kept)));
        } else {
            let rest = kept.drop_last();
            let row = kept.last() as int;
            assert(kept[kept.len() - 1] < col.nulls@.len());
            assert(rows_below(rest, col.nulls@.len())) by {
                assert forall|i: int| 0 <= i < rest.len() implies #[trigger] rest[i] < col.nulls@.len() by {
                    assert(kept[i] < col.nulls@.len());
                }
            }
            lemma_list_items_kept(element, dt, col, rest);
            assert(picked(rows, kept).drop_last() =~= picked(rows, rest));
            assert(picked(rows, kept).last() == rows[row]);
            assert(offsets@[row] <= offsets@[row + 1]);
            assert(offsets@[row + 1] <= offsets@[col.nulls@.len() as int]);
            assert(list_items(picked(rows, kept)) =~= picked(items, kept_items(offsets@, col.nulls@, kept)));
        }
    }
}

/// The entries of the kept maps are the kept entries.
pub proof fn lemma_map_entries_kept(key: DataType, value: DataType, dt: DataType, col: Column, kept: Seq<usize>)
    requires
        consistent(col),
        dt matches DataType::MapOf(k, v, _) && *k == key && *v == value,
        col.values is MapOf,
        rows_below(kept, col.nulls@.len()),
    ensures
        col.values matches ColumnValues::MapOf { offsets, keys, values } ==> map_keys(picked(rows_of(dt, col), kept)) == picked(
            rows_of(key, *keys),
            kept_items(offsets@, col.nulls@, kept),
        ) && map_values(picked(rows_of(dt, col), kept)) == picked(
            rows_of(value, *values),
            kept_items(offsets@, col.nulls@, kept),
        ),
    decreases kept.len(),
{
    if let ColumnValues::MapOf { offsets, keys, values } = col.values {
        let rows = rows_of(dt, col);
        let ks = rows_of(key, *keys);
        let vs = rows_of(value, *values);
        lemma_rows_len(key, *keys);
        lemma_rows_len(value, *values);
        if kept.len() == 0 {
            assert(picked(rows, kept) =~= Seq::empty());
            assert(map_keys(picked(rows, kept)) =~= picked(ks, kept_items(offsets@, col.nulls@, kept)));
            assert(map_values(picked(rows, kept)) =~= picked(vs, kept_items(offsets@, col.nulls@, kept)));
        } else {
            let rest = kept.drop_last();
            let row = kept.last() as int;
            assert(kept[kept.len() - 1] < col.nulls@.len());
            assert(rows_below(rest, col.nulls@.len())) by {
                assert forall|i: int| 0 <= i < rest.len() implies #[trigger] rest[i] < col.nulls@.len() by {
                    assert(kept[i] < col.nulls@.len());
                }
            }
            lemma_map_entries_kept(key, value, dt, col, rest);
            assert(picked(rows, kept).drop_last() =~= picked(rows, rest));
            assert(picked(rows, kept).last() == rows[row]);
            assert(offsets@[row] <= offsets@[row + 1]);
            assert(offsets@[row + 1] <= offsets@[col.nulls@.len() as int]);
            assert(map_keys(picked(rows, kept)) =~= picked(ks, kept_items(offsets@, col.nulls@, kept)));
            assert(map_values(picked(rows, kept)) =~= picked(vs, kept_items(offsets@, col.nulls@, kept)));
        }
    }
}

/// No rows give empty columns.
pub proof fn lemma_no_rows(dt: DataType)
    ensures
        child_columns(dt, Seq::empty()).len() == child_types(dt).len(),
        element_columns(dt, Seq::empty()).len() == element_types(dt).len(),
        forall|j: int|
            0 <= j < child_columns(dt, Seq::empty()).len() ==> #[trigger] child_columns(dt, Seq::empty())[j] == Cells::empty(),
        forall|j: int|
            0 <= j < element_columns(dt, Seq::empty()).len() ==> #[trigger] element_columns(dt, Seq::empty())[j] == Cells::empty(),
    decreases dt,
{
    let none = Seq::<Row>::empty();
    assert(own_cells(none) =~= Cells::empty());
    match dt {
        DataType::ListOf(element, _) => {
            lemma_no_rows(*element);
            assert(list_items(none) =~= none);
        },
        DataType::MapOf(key, value, _) => {
            lemma_no_rows(*key);
            lemma_no_rows(*value);
            assert(map_keys(none) =~= none);
            assert(map_values(none) =~= none);
        },
        _ => {},
    }
}

pub proof fn lemma_columns_len(dt: DataType, rows: Seq<Row>)
    ensures
        child_columns(dt, rows).len() == child_types(dt).len(),
        element_columns(dt, rows).len() == element_types(dt).len(),
    decreases dt,
{
    match dt {
        DataType::ListOf(element, _) => {
            lemma_columns_len(*element, list_items(rows));
        },
        DataType::MapOf(key, value, _) => {
            lemma_columns_len(*key, map_keys(rows));
            lemma_columns_len(*value, map_values(rows));
        },
        _ => {},
    }
}

proof fn lemma_first_legacy_error(
    millis: Seq<i64>,
    nanos: Seq<i32>,
    child_nulls: Seq<bool>,
    nulls: Seq<bool>,
    kept: Seq<usize>,
    n: int,
)
    requires
        0 <= n <= kept.len(),
        legacy_error(millis, nanos, child_nulls, nulls, kept.take(n)) is Some,
    ensures
        legacy_error(millis, nanos, child_nulls, nulls, kept) == legacy_error(millis, nanos, child_nulls, nulls, kept.take(n)),
    decreases kept.len(),
{
    if n < kept.len() {
        assert(kept.drop_last().take(n) =~= kept.take(n));
        lemma_first_legacy_error(millis, nanos, child_nulls, nulls, kept.drop_last(), n);
    } else {
        assert(kept.take(n) =~= kept);
    }
}

// ---------------------------------------------------------------- checking

/// All rows of a column of `n` rows.
pub fn all_rows(n: usize) -> (rows: Vec<usize>)
    ensures
        rows@ == row_range(0, n as int),
{
    let mut rows: Vec<usize> = Vec::new();
    let mut i: usize = 0;
    while i < n
        invariant
            i <= n,
            rows@ == row_range(0, i as int),
        decreases n - i,
    {
        rows.push(i);
        i += 1;
        assert(rows@ =~= row_range(0, i as int));
    }
    rows
}

/// The items of the rows that are kept and not null.
pub fn flatten_rows(offsets: &Vec<usize>, nulls: &Vec<bool>, kept: &Vec<usize>, Ghost(children): Ghost<nat>) -> (items: Vec<usize>)
    requires
        offsets_ok(offsets@, nulls@.len(), children),
        rows_below(kept@, nulls@.len()),
    ensures
        items@ == kept_items(offsets@, nulls@, kept@),
        rows_below(items@, children),
{
    let mut items: Vec<usize> = Vec::new();
    let mut k: usize = 0;
    while k < kept.len()
        invariant
            k <= kept.len(),
            offsets_ok(offsets@, nulls@.len(), children),
            rows_below(kept@, nulls@.len()),
            items@ == kept_items(offsets@, nulls@, kept@.take(k as int)),
        decreases kept.len() - k,
    {
        let row: usize = kept[k];
        assert(kept@[k as int] < nulls@.len());
        proof {
            assert(kept@.take(k as int + 1) =~= kept@.take(k as int).push(row));
            lemma_kept_items_push(offsets@, nulls@, kept@.take(k as int), row);
        }
        let ghost head = items@;
        if !nulls[row] {
            assert(row + 1 < offsets.len());
            let end: usize = offsets[row + 1];
            let mut i: usize = offsets[row];
            while i < end
                invariant
                    row + 1 < offsets@.len(),
                    end == offsets@[row as int + 1],
                    offsets@[row as int] <= i,
                    offsets@[row as int] <= end ==> i <= end,
                    items@ == head + row_range(offsets@[row as int] as int, i as int),
                decreases end - i,
            {
                items.push(i);
                i += 1;
                assert(items@ =~= head + row_range(offsets@[row as int] as int, i as int));
            }
            assert(offsets@[row as int] <= offsets@[row as int + 1]);
            assert(i == end);
        } else {
            assert(head =~= head + Seq::<usize>::empty());
        }
        k += 1;
    }
    proof {
        assert(kept@.take(kept@.len() as int) =~= kept@);
        lemma_kept_below(offsets@, nulls@, kept@, children);
    }
    items
}

/// Checks the rows of split timestamps.
fn validate_legacy_timestamp_nanos(
    millis: &Vec<i64>,
    nanos: &Vec<i32>,
    child_nulls: &Vec<bool>,
    nulls: &Vec<bool>,
    kept: &Vec<usize>,
) -> (result: Result<(), Error>)
    requires
        millis.len() == nulls.len(),
        nanos.len() == nulls.len(),
        child_nulls.len() == nulls.len(),
        rows_below(kept@, nulls@.len()),
    ensures
        result matches Ok(_) ==> legacy_error(millis@, nanos@, child_nulls@, nulls@, kept@) is None,
        result matches Err(e) ==> legacy_error(millis@, nanos@, child_nulls@, nulls@, kept@) == Some(e),
{
    let mut k: usize = 0;
    while k < kept.len()
        invariant
            k <= kept.len(),
            millis.len() == nulls.len(),
            nanos.len() == nulls.len(),
            child_nulls.len() == nulls.len(),
            rows_below(kept@, nulls@.len()),
            legacy_error(millis@, nanos@, child_nulls@, nulls@, kept@.take(k as int)) is None,
        decreases kept.len() - k,
    {
        let i: usize = kept[k];
        assert(kept@[k as int] < nulls@.len());
        assert(kept@.take(k as int + 1).drop_last() =~= kept@.take(k as int));
        let failure: Option<Error> = if nulls[i] {
            None
        } else if child_nulls[i] {
            Some(Error::LegacyNullChild)
        } else {
            match millis_nanos_to_ns(millis[i], nanos[i]) {
                Ok(_) => None,
                Err(Error::NanosOutOfRange { nanos }) => Some(Error::InvalidLegacyNanos { nanos }),
                Err(_) => Some(Error::LegacyTimestampOverflow),
            }
        };
        assert(failure == legacy_row_error(millis@, nanos@, child_nulls@, nulls@, i as int));
        match failure {
            Some(e) => {
                proof {
                    lemma_first_legacy_error(millis@, nanos@, child_nulls@, nulls@, kept@, k as int + 1);
                }
                return Err(e);
            },
            None => {},
        }
        k += 1;
    }
    assert(kept@.take(kept@.len() as int) =~= kept@);
    Ok(())
}

/// Checks that the rows `kept` of a column are ones of type `dt`, which is no list or map.
pub fn downcast_column(dt: &DataType, col: &Column, kept: &Vec<usize>) -> (result: Result<(), Error>)
    requires
        consistent(*col),
        rows_below(kept@, col.nulls@.len()),
    ensures
        result matches Ok(_) ==> leaf_error(*dt, *col, kept@) is None,
        result matches Err(e) ==> leaf_error(*dt, *col, kept@) == Some(e),
{
    if !downcast_matches(dt, &col.values) {
        return Err(Error::ArrayTypeMismatch { data_type: dt.clone() });
    }
    match &col.values {
        ColumnValues::LegacyTimestampNanos { millis, nanos, child_nulls } => validate_legacy_timestamp_nanos(
            millis,
            nanos,
            child_nulls,
            &col.nulls,
            kept,
        ),
        _ => Ok(()),
    }
}

/// How many physical columns a column of type `dt` takes below a list or map.
pub fn count_columns(dt: &DataType) -> (count: usize)
    requires
        element_types(*dt).len() <= usize::MAX,
    ensures
        count == element_types(*dt).len(),
    decreases dt,
{
    match dt {
        DataType::ListOf(element, _) => count_columns(element) + 1,
        DataType::MapOf(key, value, _) => count_columns(key) + count_columns(value) + 1,
        _ => 1,
    }
}

/// Checks that the rows `kept` of a column below a list or map are ones of type `dt`. The column is
/// physical column `at`, and it stands below logical column `parent`.
pub fn check_element(dt: &DataType, col: &Column, kept: &Vec<usize>, parent: usize, at: usize) -> (result: Result<(), Error>)
    requires
        consistent(*col),
        rows_below(kept@, col.nulls@.len()),
        at + element_types(*dt).len() <= usize::MAX,
    ensures
        result matches Ok(_) ==> element_error(*dt, *col, kept@, parent as int, at as int) is None,
        result matches Err(e) ==> element_error(*dt, *col, kept@, parent as int, at as int) == Some(e),
    decreases dt,
{
    if kept.len() == 0 {
        return Ok(());
    }
    match &col.values {
        ColumnValues::ListOf { offsets, values } => match dt {
            DataType::ListOf(element, _) => {
                let items: Vec<usize> = flatten_rows(offsets, &col.nulls, kept, Ghost(values.nulls@.len()));
                check_element(element, values, &items, parent, at + 1)
            },
            _ => Err(Error::MissingChildColumn { parent, length: at, role: ChildColumnRole::ListElement }),
        },
        ColumnValues::MapOf { offsets, keys, values } => match dt {
            DataType::MapOf(key, value, _) => {
                let items: Vec<usize> = flatten_rows(offsets, &col.nulls, kept, Ghost(values.nulls@.len()));
                match check_element(value, values, &items, parent, at + 1 + count_columns(key)) {
                    Ok(_) => check_element(key, keys, &items, parent, at + 1),
                    Err(e) => Err(e),
                }
            },
            _ => Err(Error::MissingChildColumn { parent, length: at, role: ChildColumnRole::MapKey }),
        },
        _ => downcast_column(dt, col, kept),
    }
}

/// The values are those of a column of type `dt` without lists and maps.
fn downcast_matches(dt: &DataType, values: &ColumnValues) -> (result: bool)
    ensures
        result == leaf_matches(*dt, *values),
{
    match (dt, values) {
        (DataType::Boolean, ColumnValues::Boolean(_)) => true,
        (DataType::Int8, ColumnValues::Int8(_)) => true,
        (DataType::Int16, ColumnValues::Int16(_)) => true,
        (DataType::Int32, ColumnValues::Int32(_)) => true,
        (DataType::Int64, ColumnValues::Int64(_)) => true,
        (DataType::Float32, ColumnValues::Float32(_)) => true,
        (DataType::Float64, ColumnValues::Float64(_)) => true,
        (DataType::Date32, ColumnValues::Date32(_)) => true,
        (DataType::Time32, ColumnValues::Time32(_)) => true,
        (DataType::Utf8, ColumnValues::Utf8(_)) => true,
        (DataType::Binary, ColumnValues::Binary(_)) => true,
        (DataType::Decimal128(_, _), ColumnValues::Decimal128(_)) => true,
        (DataType::Timestamp(TimeUnit::Millisecond, _), ColumnValues::TimestampMillis(_)) => true,
        (DataType::Timestamp(TimeUnit::Microsecond, _), ColumnValues::TimestampMicros(_)) => true,
        (DataType::Timestamp(TimeUnit::Nanosecond, _), ColumnValues::TimestampNanos(_)) => true,
        (DataType::LegacyTimestampNanos(_, _), ColumnValues::LegacyTimestampNanos { .. }) => true,
        _ => false,
    }
}

// ---------------------------------------------------------------- values to bytes

/// Appends the bytes of the value of a row that is not null.
pub fn write_typed_value(buf: &mut Vec<u8>, dt: &DataType, values: &ColumnValues, row: usize)
    requires
        leaf_matches(*dt, *values),
        values_len_at_least(*values, row as int),
    ensures
        final(buf)@ == old(buf)@ + encoded_value(leaf_value(*dt, *values, row as int)),
{
    let ghost start = buf@;
    match values {
        ColumnValues::Boolean(v) => {
            buf.push(
                if v[row] {
                    1u8
                } else {
                    0u8
                },
            );
            assert(buf@ =~= start + encoded_value(leaf_value(*dt, *values, row as int)));
        },
        ColumnValues::Int8(v) => {
            buf.push(v[row] as u8);
            assert(buf@ =~= start + encoded_value(leaf_value(*dt, *values, row as int)));
        },
        ColumnValues::Int16(v) => put_be(buf, (v[row] as u16) as u64, 2),
        ColumnValues::Int32(v) => put_be(buf, (v[row] as u32) as u64, 4),
        ColumnValues::Int64(v) => put_be(buf, v[row] as u64, 8),
        ColumnValues::Float32(v) => put_be(buf, v[row] as u64, 4),
        ColumnValues::Float64(v) => put_be(buf, v[row], 8),
        ColumnValues::Date32(v) => put_be(buf, (v[row] as u32) as u64, 4),
        ColumnValues::Time32(v) => put_be(buf, (v[row] as u32) as u64, 4),
        ColumnValues::Utf8(v) => put_bytes(buf, &v[row]),
        ColumnValues::Binary(v) => put_bytes(buf, &v[row]),
        ColumnValues::Decimal128(v) => {
            if crate::types::fixed_width(dt) > 0 {
                put_be(buf, (v[row] as i64) as u64, 8);
            } else {
                let bytes: Vec<u8> = i128_to_biginteger_bytes(v[row]);
                put_bytes(buf, &bytes);
            }
        },
        ColumnValues::TimestampMillis(v) => put_be(buf, v[row] as u64, 8),
        ColumnValues::TimestampMicros(v) => put_be(buf, v[row] as u64, 8),
        ColumnValues::TimestampNanos(v) => {
            let (millis, nanos) = ns_to_millis_nanos(v[row]);
            write_timestamp_pair(buf, millis, nanos);
        },
        ColumnValues::LegacyTimestampNanos { millis, nanos, .. } => write_timestamp_pair(buf, millis[row], nanos[row]),
        _ => {},
    }
}

/// Appends the bytes behind their length.
fn put_bytes(buf: &mut Vec<u8>, bytes: &Vec<u8>)
    requires
        bytes.len() <= u32::MAX,
    ensures
        final(buf)@ == old(buf)@ + (varint_bytes(bytes@.len()) + bytes@),
{
    let ghost start = buf@;
    varint::encode(buf, bytes.len() as u32);
    buf.extend_from_slice(bytes.as_slice());
    assert(buf@ =~= start + (varint_bytes(bytes@.len()) + bytes@));
}

fn write_timestamp_pair(buf: &mut Vec<u8>, millis: i64, nanos: i32)
    ensures
        final(buf)@ == old(buf)@ + encoded_value((ValueView::TimestampNanos { millis, nanos_of_milli: nanos })),
{
    let ghost start = buf@;
    put_be(buf, millis as u64, 8);
    put_be(buf, (nanos as u32) as u64, 4);
    assert(buf@ =~= start + encoded_value((ValueView::TimestampNanos { millis, nanos_of_milli: nanos })));
}

pub open spec fn values_len_at_least(values: ColumnValues, row: int) -> bool {
    match values {
        ColumnValues::Boolean(v) => row < v@.len(),
        ColumnValues::Int8(v) => row < v@.len(),
        ColumnValues::Int16(v) => row < v@.len(),
        ColumnValues::Int32(v) => row < v@.len(),
        ColumnValues::Int64(v) => row < v@.len(),
        ColumnValues::Float32(v) => row < v@.len(),
        ColumnValues::Float64(v) => row < v@.len(),
        ColumnValues::Date32(v) => row < v@.len(),
        ColumnValues::Time32(v) => row < v@.len(),
        ColumnValues::Utf8(v) => row < v@.len() && v@[row]@.len() <= u32::MAX,
        ColumnValues::Binary(v) => row < v@.len() && v@[row]@.len() <= u32::MAX,
        ColumnValues::Decimal128(v) => row < v@.len(),
        ColumnValues::TimestampMillis(v) => row < v@.len(),
        ColumnValues::TimestampMicros(v) => row < v@.len(),
        ColumnValues::TimestampNanos(v) => row < v@.len(),
        ColumnValues::LegacyTimestampNanos { millis, nanos, child_nulls } => row < millis@.len() && row < nanos@.len() && row
            < child_nulls@.len() && !child_nulls@[row],
        _ => false,
    }
}

/// The value of a row fits the column's type.
pub proof fn lemma_leaf_fits(dt: DataType, values: ColumnValues, row: int)
    requires
        leaf_matches(dt, values),
        0 <= row,
        values_len_at_least(values, row),
    ensures
        value_fits(dt, leaf_value(dt, values, row)),
        is_value(dt, encoded_value(leaf_value(dt, values, row))),
{
    if let ColumnValues::Decimal128(v) = values {
        lemma_signed_len(v@[row], 1);
        crate::codec::lemma_be_bytes_len(twos_complement(v@[row]), signed_len(v@[row], 1));
    }
    decode_undoes_encode(dt, leaf_value(dt, values, row));
}

// ---------------------------------------------------------------- what rows hold

/// A row without lists and maps holds what the column has in it: nothing where it is null, and else its
/// value. A decimal and a timestamp in nanoseconds stand for the number in the column.
pub proof fn rows_hold_the_values_of_their_column(dt: DataType, col: Column, i: int)
    requires
        consistent(col),
        leaf_matches(dt, col.values),
        0 <= i < col.nulls@.len(),
    ensures
        rows_of(dt, col).len() == col.nulls@.len(),
        col.nulls@[i] ==> rows_of(dt, col)[i] is Null,
        !col.nulls@[i] ==> (rows_of(dt, col)[i] matches Row::Leaf(v) && match col.values {
            ColumnValues::Boolean(x) => v == ValueView::Boolean(x@[i]),
            ColumnValues::Int8(x) => v == ValueView::TinyInt(x@[i]),
            ColumnValues::Int16(x) => v == ValueView::SmallInt(x@[i]),
            ColumnValues::Int32(x) => v == ValueView::Integer(x@[i]),
            ColumnValues::Int64(x) => v == ValueView::BigInt(x@[i]),
            ColumnValues::Float32(x) => v == ValueView::Float(x@[i]),
            ColumnValues::Float64(x) => v == ValueView::Double(x@[i]),
            ColumnValues::Date32(x) => v == ValueView::Date(x@[i]),
            ColumnValues::Time32(x) => v == ValueView::Time(x@[i]),
            ColumnValues::Utf8(x) => v == ValueView::String(x@[i]@),
            ColumnValues::Binary(x) => v == ValueView::Bytes(x@[i]@),
            ColumnValues::Decimal128(x) => match v {
                ValueView::DecimalCompact(found) => i64::MIN <= x@[i] <= i64::MAX ==> found == x@[i],
                ValueView::DecimalLarge(bytes) => signed_value(bytes) == x@[i],
                _ => false,
            },
            ColumnValues::TimestampMillis(x) => v == ValueView::TimestampMillis(x@[i]),
            ColumnValues::TimestampMicros(x) => v == ValueView::TimestampMicros(x@[i]),
            ColumnValues::TimestampNanos(x) => v matches ValueView::TimestampNanos { millis, nanos_of_milli } && 0 <= nanos_of_milli
                < 1_000_000 && millis * 1_000_000 + nanos_of_milli == x@[i],
            ColumnValues::LegacyTimestampNanos { millis, nanos, child_nulls } => !child_nulls@[i] ==> v == (ValueView::TimestampNanos {
                millis: millis@[i],
                nanos_of_milli: nanos@[i],
            }),
            _ => false,
        }),
        dt matches DataType::Decimal128(precision, _) ==> !col.nulls@[i] ==> (rows_of(dt, col)[i]->Leaf_0 is DecimalCompact <==> precision <= 18),
{
    if let ColumnValues::Decimal128(x) = col.values {
        crate::decimal::signed_value_of_signed_bytes(x@[i]);
    }
}

/// A row of a list holds the items between its offsets, and a row of a map the entries between them.
pub proof fn rows_hold_the_items_of_their_column(dt: DataType, col: Column, i: int, j: int)
    requires
        consistent(col),
        0 <= i < col.nulls@.len(),
        !col.nulls@[i],
    ensures
        dt matches DataType::ListOf(element, _) ==> (col.values matches ColumnValues::ListOf { offsets, values } ==> (rows_of(dt, col)[i] matches Row::ListOf(
            items,
        ) && items.len() == offsets@[i + 1] - offsets@[i] && (0 <= j < items.len() ==> items[j] == rows_of(*element, *values)[offsets@[i] + j]))),
        dt matches DataType::MapOf(key, value, _) ==> (col.values matches ColumnValues::MapOf { offsets, keys, values } ==> (rows_of(dt, col)[i] matches Row::MapOf(
            entries,
        ) && entries.len() == offsets@[i + 1] - offsets@[i] && (0 <= j < entries.len() ==> entries[j] == (
            rows_of(*key, *keys)[offsets@[i] + j],
            rows_of(*value, *values)[offsets@[i] + j],
        )))),
{
    match col.values {
        ColumnValues::ListOf { offsets, values } => {
            if let DataType::ListOf(element, _) = dt {
                lemma_rows_len(*element, *values);
                assert(offsets@[i] <= offsets@[i + 1] && offsets@[i + 1] <= offsets@[col.nulls@.len() as int]);
            }
        },
        ColumnValues::MapOf { offsets, keys, values } => {
            assert(offsets@[i] <= offsets@[i + 1]);
        },
        _ => {},
    }
}

} // verus!
