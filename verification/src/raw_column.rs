//! The values of a column as they are read, before each stands in its row.
use vstd::prelude::*;
use crate::bits::{bytes_for, get_bit, read_bit_packed, set_bit, stream_bit, unpacked};
use crate::column::{consistent, leaf_matches, leaf_value, Column, ColumnValues};
use crate::const_fill::{const_fill_strategy, count_non_null, count_valid, fill_strategy, fills_all, lemma_rank_bound,
    lemma_rank_step, materialize_boolean_const, materialize_fixed_const, null_rows, rank_of, ConstFillStrategy,
    ConstMaterializeValue, ConstOutputLayout, OutputPages};
use crate::decimal::{sign_extended, signed_bytes, signed_value};
use crate::dictionary::lemma_zero_bytes;
use crate::error::Error;
use crate::types::{is_container_type, millis_nanos_to_ns, pair_nanos, DataType, TimeUnit, NANOS_PER_MILLI};
use crate::values::{decoded_value, is_value, read_value, value_size, Value, ValueView};

verus! {

// ---------------------------------------------------------------- model

/// How values are held before they stand in rows.
#[derive(Clone, Copy, Debug, PartialEq, Eq, Structural)]
pub enum DataVariant {
    Boolean,
    Int8,
    Int16,
    Int32,
    Int64,
    Float32,
    Float64,
    Binary,
    TimestampNanos,
}

/// Values one after another. Truth values are bits, one for each row; byte strings stand one behind
/// another, item `k` from `offsets[k]` up to `offsets[k + 1]`.
#[derive(Debug, PartialEq, Eq)]
pub enum RawColumnData {
    Boolean(Vec<u8>),
    Int8(Vec<i8>),
    Int16(Vec<i16>),
    Int32(Vec<i32>),
    Int64(Vec<i64>),
    Float32(Vec<u32>),
    Float64(Vec<u64>),
    Binary { offsets: Vec<usize>, data: Vec<u8> },
    TimestampNanos { millis: Vec<i64>, nanos_of_milli: Vec<i32> },
}

pub open spec fn variant_of(dt: DataType) -> DataVariant {
    match dt {
        DataType::Boolean => DataVariant::Boolean,
        DataType::Int8 => DataVariant::Int8,
        DataType::Int16 => DataVariant::Int16,
        DataType::Int32 => DataVariant::Int32,
        DataType::Date32 => DataVariant::Int32,
        DataType::Time32 => DataVariant::Int32,
        DataType::Float32 => DataVariant::Float32,
        DataType::Int64 => DataVariant::Int64,
        DataType::Float64 => DataVariant::Float64,
        DataType::Decimal128(precision, _) => if precision <= 18 {
            DataVariant::Int64
        } else {
            DataVariant::Binary
        },
        DataType::Timestamp(TimeUnit::Nanosecond, _) => DataVariant::TimestampNanos,
        DataType::LegacyTimestampNanos(_, _) => DataVariant::TimestampNanos,
        DataType::Timestamp(_, _) => DataVariant::Int64,
        _ => DataVariant::Binary,
    }
}

pub fn data_variant_for_type(dt: &DataType) -> (variant: DataVariant)
    ensures
        variant == variant_of(*dt),
{
    match dt {
        DataType::Boolean => DataVariant::Boolean,
        DataType::Int8 => DataVariant::Int8,
        DataType::Int16 => DataVariant::Int16,
        DataType::Int32 => DataVariant::Int32,
        DataType::Date32 => DataVariant::Int32,
        DataType::Time32 => DataVariant::Int32,
        DataType::Float32 => DataVariant::Float32,
        DataType::Int64 => DataVariant::Int64,
        DataType::Float64 => DataVariant::Float64,
        DataType::Decimal128(precision, _) => if *precision <= 18 {
            DataVariant::Int64
        } else {
            DataVariant::Binary
        },
        DataType::Timestamp(TimeUnit::Nanosecond, _) => DataVariant::TimestampNanos,
        DataType::LegacyTimestampNanos(_, _) => DataVariant::TimestampNanos,
        DataType::Timestamp(_, _) => DataVariant::Int64,
        _ => DataVariant::Binary,
    }
}

/// A constant of this kind is laid out with one item for each row, null or not.
pub fn const_values_are_row_aligned(variant: DataVariant) -> (aligned: bool)
    ensures
        aligned == !(variant is Binary),
{
    match variant {
        DataVariant::Binary => false,
        _ => true,
    }
}

pub open spec fn bool_of(v: ValueView) -> bool {
    v matches ValueView::Boolean(x) && x
}

pub open spec fn i8_of(v: ValueView) -> i8 {
    match v {
        ValueView::TinyInt(x) => x,
        _ => 0,
    }
}

pub open spec fn i16_of(v: ValueView) -> i16 {
    match v {
        ValueView::SmallInt(x) => x,
        _ => 0,
    }
}

pub open spec fn i32_of(v: ValueView) -> i32 {
    match v {
        ValueView::Integer(x) => x,
        ValueView::Date(x) => x,
        ValueView::Time(x) => x,
        _ => 0,
    }
}

pub open spec fn i64_of(v: ValueView) -> i64 {
    match v {
        ValueView::BigInt(x) => x,
        ValueView::DecimalCompact(x) => x,
        ValueView::TimestampMillis(x) => x,
        ValueView::TimestampMicros(x) => x,
        _ => 0,
    }
}

pub open spec fn f32_of(v: ValueView) -> u32 {
    match v {
        ValueView::Float(x) => x,
        _ => 0,
    }
}

pub open spec fn f64_of(v: ValueView) -> u64 {
    match v {
        ValueView::Double(x) => x,
        _ => 0,
    }
}

pub open spec fn bytes_of(v: ValueView) -> Seq<u8> {
    match v {
        ValueView::String(x) => x,
        ValueView::Bytes(x) => x,
        ValueView::DecimalLarge(x) => x,
        _ => Seq::empty(),
    }
}

pub open spec fn millis_of(v: ValueView) -> i64 {
    match v {
        ValueView::TimestampNanos { millis, nanos_of_milli } => millis,
        _ => 0,
    }
}

pub open spec fn nanos_of(v: ValueView) -> i32 {
    match v {
        ValueView::TimestampNanos { millis, nanos_of_milli } => nanos_of_milli,
        _ => 0,
    }
}

/// What is held of a value; zero for a value of another kind.
pub open spec fn as_raw(variant: DataVariant, v: ValueView) -> ValueView {
    match variant {
        DataVariant::Boolean => ValueView::Boolean(bool_of(v)),
        DataVariant::Int8 => ValueView::TinyInt(i8_of(v)),
        DataVariant::Int16 => ValueView::SmallInt(i16_of(v)),
        DataVariant::Int32 => ValueView::Integer(i32_of(v)),
        DataVariant::Int64 => ValueView::BigInt(i64_of(v)),
        DataVariant::Float32 => ValueView::Float(f32_of(v)),
        DataVariant::Float64 => ValueView::Double(f64_of(v)),
        DataVariant::Binary => ValueView::Bytes(bytes_of(v)),
        DataVariant::TimestampNanos => ValueView::TimestampNanos { millis: millis_of(v), nanos_of_milli: nanos_of(v) },
    }
}

/// The bytes of a value, if it has any, are told by a length of 32 bits.
pub open spec fn is_short(v: ValueView) -> bool {
    bytes_of(v).len() <= u32::MAX
}

/// What stands in a row of a column of type `dt`, or what is wrong with it.
pub open spec fn from_raw(dt: DataType, v: ValueView) -> Result<ValueView, Error> {
    match dt {
        DataType::Date32 => Ok(ValueView::Date(i32_of(v))),
        DataType::Time32 => Ok(ValueView::Time(i32_of(v))),
        DataType::Decimal128(precision, _) => if precision <= 18 {
            Ok(ValueView::DecimalCompact(i64_of(v)))
        } else if bytes_of(v).len() > 16 {
            Err(Error::DecimalTooLong)
        } else {
            Ok(ValueView::DecimalLarge(signed_bytes(signed_value(bytes_of(v)) as i128)))
        },
        DataType::Timestamp(TimeUnit::Millisecond, _) => Ok(ValueView::TimestampMillis(i64_of(v))),
        DataType::Timestamp(TimeUnit::Microsecond, _) => Ok(ValueView::TimestampMicros(i64_of(v))),
        DataType::Timestamp(TimeUnit::Nanosecond, _) => match pair_nanos(millis_of(v), nanos_of(v)) {
            Ok(_) => Ok(v),
            Err(e) => Err(e),
        },
        DataType::Utf8 => Ok(ValueView::String(bytes_of(v))),
        _ => Ok(v),
    }
}

/// What a column of type `dt` makes of a stored value.
pub open spec fn coerced(dt: DataType, v: ValueView) -> Result<ValueView, Error> {
    from_raw(dt, as_raw(variant_of(dt), v))
}

impl RawColumnData {
    pub open spec fn variant(self) -> DataVariant {
        match self {
            RawColumnData::Boolean(_) => DataVariant::Boolean,
            RawColumnData::Int8(_) => DataVariant::Int8,
            RawColumnData::Int16(_) => DataVariant::Int16,
            RawColumnData::Int32(_) => DataVariant::Int32,
            RawColumnData::Int64(_) => DataVariant::Int64,
            RawColumnData::Float32(_) => DataVariant::Float32,
            RawColumnData::Float64(_) => DataVariant::Float64,
            RawColumnData::Binary { .. } => DataVariant::Binary,
            RawColumnData::TimestampNanos { .. } => DataVariant::TimestampNanos,
        }
    }

    /// The number of items; bits for truth values.
    pub open spec fn count(self) -> int {
        match self {
            RawColumnData::Boolean(v) => (8 * v@.len()) as int,
            RawColumnData::Int8(v) => v@.len() as int,
            RawColumnData::Int16(v) => v@.len() as int,
            RawColumnData::Int32(v) => v@.len() as int,
            RawColumnData::Int64(v) => v@.len() as int,
            RawColumnData::Float32(v) => v@.len() as int,
            RawColumnData::Float64(v) => v@.len() as int,
            RawColumnData::Binary { offsets, data } => offsets@.len() - 1,
            RawColumnData::TimestampNanos { millis, nanos_of_milli } => millis@.len() as int,
        }
    }

    pub open spec fn wf(self) -> bool {
        match self {
            RawColumnData::Binary { offsets, data } => {
                &&& offsets@.len() > 0
                &&& forall|i: int, j: int| 0 <= i <= j < offsets@.len() ==> #[trigger] offsets@[i] <= #[trigger] offsets@[j] && offsets@[j] <= data@.len()
                &&& forall|i: int| 0 <= i < offsets@.len() - 1 ==> (#[trigger] offsets@[i + 1]) - offsets@[i] <= u32::MAX
            },
            RawColumnData::TimestampNanos { millis, nanos_of_milli } => millis@.len() == nanos_of_milli@.len(),
            _ => true,
        }
    }

    /// Item `k`.
    pub open spec fn item(self, k: int) -> ValueView {
        match self {
            RawColumnData::Boolean(v) => ValueView::Boolean(stream_bit(v@, k)),
            RawColumnData::Int8(v) => ValueView::TinyInt(v@[k]),
            RawColumnData::Int16(v) => ValueView::SmallInt(v@[k]),
            RawColumnData::Int32(v) => ValueView::Integer(v@[k]),
            RawColumnData::Int64(v) => ValueView::BigInt(v@[k]),
            RawColumnData::Float32(v) => ValueView::Float(v@[k]),
            RawColumnData::Float64(v) => ValueView::Double(v@[k]),
            RawColumnData::Binary { offsets, data } => ValueView::Bytes(
                data@.subrange(offsets@[k] as int, offsets@[k + 1] as int),
            ),
            RawColumnData::TimestampNanos { millis, nanos_of_milli } => ValueView::TimestampNanos {
                millis: millis@[k],
                nanos_of_milli: nanos_of_milli@[k],
            },
        }
    }

    /// No items of the given kind; for truth values, all of `num_rows` rows false.
    pub fn empty(variant: DataVariant, num_rows: usize) -> (raw: Self)
        ensures
            raw.variant() == variant,
            raw.wf(),
            variant is Boolean ==> raw.count() == 8 * bytes_for(num_rows as int),
            variant is Boolean ==> forall|r: int| 0 <= r < raw.count() ==> #[trigger] raw.item(r) == ValueView::Boolean(false),
            !(variant is Boolean) ==> raw.count() == 0,
    {
        match variant {
            DataVariant::Boolean => {
                let bits: Vec<u8> = vec![0u8; crate::bits::byte_count(num_rows)];
                proof {
                    lemma_zero_bytes(bits@);
                }
                let raw = RawColumnData::Boolean(bits);
                assert forall|r: int| 0 <= r < raw.count() implies #[trigger] raw.item(r) == ValueView::Boolean(false) by {
                    assert(!stream_bit(bits@, r));
                }
                raw
            },
            DataVariant::Int8 => RawColumnData::Int8(Vec::new()),
            DataVariant::Int16 => RawColumnData::Int16(Vec::new()),
            DataVariant::Int32 => RawColumnData::Int32(Vec::new()),
            DataVariant::Int64 => RawColumnData::Int64(Vec::new()),
            DataVariant::Float32 => RawColumnData::Float32(Vec::new()),
            DataVariant::Float64 => RawColumnData::Float64(Vec::new()),
            DataVariant::Binary => {
                let mut offsets: Vec<usize> = Vec::new();
                offsets.push(0);
                RawColumnData::Binary { offsets, data: Vec::new() }
            },
            DataVariant::TimestampNanos => RawColumnData::TimestampNanos { millis: Vec::new(), nanos_of_milli: Vec::new() },
        }
    }

    /// Appends what is held of a value; of a truth value, sets the bit of row `row`.
    pub fn push(&mut self, value: &Value, row: usize)
        requires
            old(self).wf(),
            is_short(value@),
            old(self).variant() is Boolean ==> row < old(self).count(),
        ensures
            final(self).wf(),
            final(self).variant() == old(self).variant(),
            old(self).variant() is Boolean ==> final(self).count() == old(self).count() && forall|k: int|
                0 <= k < old(self).count() ==> #[trigger] final(self).item(k) == (if k == row && bool_of(value@) {
                    ValueView::Boolean(true)
                } else {
                    old(self).item(k)
                }),
            !(old(self).variant() is Boolean) ==> final(self).count() == old(self).count() + 1 && final(self).item(old(self).count())
                == as_raw(old(self).variant(), value@) && forall|k: int|
                0 <= k < old(self).count() ==> #[trigger] final(self).item(k) == old(self).item(k),
    {
        let ghost before = *self;
        match self {
            RawColumnData::Boolean(bits) => {
                if let Value::Boolean(true) = value {
                    set_bit(bits, row);
                }
                proof {
                    assert forall|k: int| 0 <= k < before.count() implies #[trigger] self.item(k) == (if k == row && bool_of(
                        value@,
                    ) {
                        ValueView::Boolean(true)
                    } else {
                        before.item(k)
                    }) by {
                        assert(stream_bit(self->Boolean_0@, k) == (k == row && bool_of(value@) || stream_bit(before->Boolean_0@, k)));
                    }
                }
            },
            RawColumnData::Int8(v) => {
                let x: i8 = match value {
                    Value::TinyInt(x) => *x,
                    _ => 0,
                };
                v.push(x);
            },
            RawColumnData::Int16(v) => {
                let x: i16 = match value {
                    Value::SmallInt(x) => *x,
                    _ => 0,
                };
                v.push(x);
            },
            RawColumnData::Int32(v) => {
                let x: i32 = match value {
                    Value::Integer(x) => *x,
                    Value::Date(x) => *x,
                    Value::Time(x) => *x,
                    _ => 0,
                };
                v.push(x);
            },
            RawColumnData::Int64(v) => {
                let x: i64 = match value {
                    Value::BigInt(x) => *x,
                    Value::DecimalCompact(x) => *x,
                    Value::TimestampMillis(x) => *x,
                    Value::TimestampMicros(x) => *x,
                    _ => 0,
                };
                v.push(x);
            },
            RawColumnData::Float32(v) => {
                let x: u32 = match value {
                    Value::Float(x) => *x,
                    _ => 0,
                };
                v.push(x);
            },
            RawColumnData::Float64(v) => {
                let x: u64 = match value {
                    Value::Double(x) => *x,
                    _ => 0,
                };
                v.push(x);
            },
            RawColumnData::Binary { offsets, data } => {
                let ghost start = data@;
                let ghost offsets0 = offsets@;
                let last: usize = offsets[offsets.len() - 1];
                data.truncate(last);
                match value {
                    Value::String(x) => data.extend_from_slice(x.as_slice()),
                    Value::Bytes(x) => data.extend_from_slice(x.as_slice()),
                    Value::DecimalLarge(x) => data.extend_from_slice(x.as_slice()),
                    _ => {},
                }
                offsets.push(data.len());
                proof {
                    assert(data@ =~= start.take(last as int) + bytes_of(value@));
                    assert forall|i: int, j: int| 0 <= i <= j < offsets@.len() implies #[trigger] offsets@[i] <= #[trigger] offsets@[j] && offsets@[j] <= data@.len() by {
                        if j < offsets0.len() {
                            assert(offsets0[i] <= offsets0[j] <= start.len());
                            assert(offsets0[j] <= offsets0[offsets0.len() - 1]);
                        } else if i < offsets0.len() {
                            assert(offsets0[i] <= offsets0[offsets0.len() - 1]);
                        }
                    }
                    assert forall|i: int| 0 <= i < offsets@.len() - 1 implies (#[trigger] offsets@[i + 1]) - offsets@[i] <= u32::MAX by {
                        if i + 1 < offsets0.len() {
                            assert(offsets0[i + 1] - offsets0[i] <= u32::MAX);
                        }
                    }
                    assert(self.item(before.count()) == as_raw(DataVariant::Binary, value@)) by {
                        assert(data@.subrange(last as int, data@.len() as int) =~= bytes_of(value@));
                    }
                    assert forall|k: int| 0 <= k < before.count() implies #[trigger] self.item(k) == before.item(k) by {
                        assert(offsets0[k] <= offsets0[k + 1]);
                        assert(offsets0[k + 1] <= offsets0[offsets0.len() - 1]);
                        assert(data@.subrange(offsets0[k] as int, offsets0[k + 1] as int) =~= start.subrange(
                            offsets0[k] as int,
                            offsets0[k + 1] as int,
                        ));
                    }
                }
            },
            RawColumnData::TimestampNanos { millis, nanos_of_milli } => {
                match value {
                    Value::TimestampNanos { millis: m, nanos_of_milli: n } => {
                        millis.push(*m);
                        nanos_of_milli.push(*n);
                    },
                    _ => {
                        millis.push(0);
                        nanos_of_milli.push(0);
                    },
                }
            },
        }
    }
}

/// Where the value of row `r` stands among the items.
pub open spec fn slot_of(variant: DataVariant, aligned: bool, nulls: Seq<bool>, r: int) -> int {
    if aligned || variant is Boolean {
        r
    } else {
        rank_of(nulls, r)
    }
}

/// There is an item for each row, or for each row that is not null.
pub open spec fn count_ok(raw: RawColumnData, aligned: bool, nulls: Seq<bool>) -> bool {
    if raw.variant() is Boolean {
        raw.count() == 8 * bytes_for(nulls.len() as int)
    } else if aligned {
        raw.count() == nulls.len()
    } else {
        raw.count() == count_valid(nulls)
    }
}

// ---------------------------------------------------------------- constants

pub open spec fn item_width(variant: DataVariant) -> int {
    match variant {
        DataVariant::Int8 => 1,
        DataVariant::Int16 => 2,
        DataVariant::Int32 => 4,
        DataVariant::Float32 => 4,
        _ => 8,
    }
}

/// The items of a constant column are written to null rows too.
pub open spec fn const_fills(has_nulls: bool, bitmap: Seq<u8>, num_rows: nat, pages: Option<OutputPages>, width: int) -> bool {
    fills_all(
        fill_strategy(has_nulls, count_valid(null_rows(has_nulls, bitmap, num_rows)) as int, num_rows as int),
        bitmap,
        num_rows as int,
        pages,
        num_rows * width,
        (ConstOutputLayout::FixedWidth { bytes_per_row: width as usize }),
    )
}

/// The bits of a constant column are written to null rows too.
pub open spec fn const_fills_bits(has_nulls: bool, bitmap: Seq<u8>, num_rows: nat, pages: Option<OutputPages>) -> bool {
    fills_all(
        fill_strategy(has_nulls, count_valid(null_rows(has_nulls, bitmap, num_rows)) as int, num_rows as int),
        bitmap,
        num_rows as int,
        pages,
        bytes_for(num_rows as int),
        ConstOutputLayout::BitPackedBoolean,
    )
}

/// The item of a constant column in a row.
pub open spec fn const_item(
    v: ValueView,
    has_nulls: bool,
    bitmap: Seq<u8>,
    num_rows: nat,
    variant: DataVariant,
    pages: Option<OutputPages>,
    r: int,
) -> ValueView {
    let keep = !null_rows(has_nulls, bitmap, num_rows)[r];
    match variant {
        DataVariant::Boolean => ValueView::Boolean(
            bool_of(v) && (keep || const_fills_bits(has_nulls, bitmap, num_rows, pages)),
        ),
        DataVariant::TimestampNanos => ValueView::TimestampNanos {
            millis: if keep || const_fills(has_nulls, bitmap, num_rows, pages, 8) {
                millis_of(v)
            } else {
                0
            },
            nanos_of_milli: if keep || const_fills(has_nulls, bitmap, num_rows, pages, 4) {
                nanos_of(v)
            } else {
                0
            },
        },
        _ => if keep || const_fills(has_nulls, bitmap, num_rows, pages, item_width(variant)) {
            as_raw(variant, v)
        } else {
            as_raw(variant, ValueView::Null)
        },
    }
}

/// The items of a column that has the same value in all rows that are not null. `pages` tells where
/// the buffer will stand, if that is known.
pub fn read_all_const(
    const_value: &Value,
    num_rows: usize,
    has_nulls: bool,
    null_bitmap: &[u8],
    variant: DataVariant,
    pages: Option<OutputPages>,
) -> (result: Result<RawColumnData, Error>)
    requires
        has_nulls ==> num_rows <= 8 * null_bitmap.len(),
        num_rows * 8 <= usize::MAX,
        is_short(const_value@),
    ensures
        result is Ok,
        result matches Ok(raw) ==> {
            let nulls = null_rows(has_nulls, null_bitmap@, num_rows as nat);
            &&& raw.variant() == variant
            &&& raw.wf()
            &&& count_ok(raw, !(variant is Binary), nulls)
            &&& !(variant is Binary) ==> forall|r: int|
                0 <= r < num_rows ==> #[trigger] raw.item(r) == const_item(
                    const_value@,
                    has_nulls,
                    null_bitmap@,
                    num_rows as nat,
                    variant,
                    pages,
                    r,
                )
            &&& variant is Binary ==> forall|k: int|
                0 <= k < raw.count() ==> #[trigger] raw.item(k) == as_raw(variant, const_value@)
        },
{
    let ghost nulls = null_rows(has_nulls, null_bitmap@, num_rows as nat);
    let non_null_count: usize = if has_nulls {
        count_non_null(null_bitmap, num_rows)
    } else {
        proof {
            lemma_all_valid(nulls);
        }
        num_rows
    };
    let strategy: ConstFillStrategy = const_fill_strategy(has_nulls, non_null_count, num_rows);
    proof {
        if has_nulls && non_null_count == num_rows {
            lemma_none_null(nulls);
        }
    }
    match variant {
        DataVariant::Boolean => {
            let b: bool = match const_value {
                Value::Boolean(x) => *x,
                _ => false,
            };
            let bits: Vec<u8> = materialize_boolean_const(b, num_rows, strategy, null_bitmap, pages);
            let raw = RawColumnData::Boolean(bits);
            proof {
                assert forall|r: int| 0 <= r < num_rows implies #[trigger] raw.item(r) == const_item(
                    const_value@,
                    has_nulls,
                    null_bitmap@,
                    num_rows as nat,
                    variant,
                    pages,
                    r,
                ) by {
                    assert(stream_bit(bits@, r) == (r < num_rows && b && (const_fills_bits(
                        has_nulls,
                        null_bitmap@,
                        num_rows as nat,
                        pages,
                    ) || !stream_bit(null_bitmap@, r))));
                }
            }
            Ok(raw)
        },
        DataVariant::Int8 => {
            let x: i8 = match const_value {
                Value::TinyInt(x) => *x,
                _ => 0,
            };
            Ok(RawColumnData::Int8(materialize_fixed_const(x, num_rows, strategy, null_bitmap, pages)))
        },
        DataVariant::Int16 => {
            let x: i16 = match const_value {
                Value::SmallInt(x) => *x,
                _ => 0,
            };
            Ok(RawColumnData::Int16(materialize_fixed_const(x, num_rows, strategy, null_bitmap, pages)))
        },
        DataVariant::Int32 => {
            let x: i32 = match const_value {
                Value::Integer(x) => *x,
                Value::Date(x) => *x,
                Value::Time(x) => *x,
                _ => 0,
            };
            Ok(RawColumnData::Int32(materialize_fixed_const(x, num_rows, strategy, null_bitmap, pages)))
        },
        DataVariant::Int64 => {
            let x: i64 = match const_value {
                Value::BigInt(x) => *x,
                Value::DecimalCompact(x) => *x,
                Value::TimestampMillis(x) => *x,
                Value::TimestampMicros(x) => *x,
                _ => 0,
            };
            Ok(RawColumnData::Int64(materialize_fixed_const(x, num_rows, strategy, null_bitmap, pages)))
        },
        DataVariant::Float32 => {
            let x: u32 = match const_value {
                Value::Float(x) => *x,
                _ => 0,
            };
            Ok(RawColumnData::Float32(materialize_fixed_const(x, num_rows, strategy, null_bitmap, pages)))
        },
        DataVariant::Float64 => {
            let x: u64 = match const_value {
                Value::Double(x) => *x,
                _ => 0,
            };
            Ok(RawColumnData::Float64(materialize_fixed_const(x, num_rows, strategy, null_bitmap, pages)))
        },
        DataVariant::Binary => {
            let mut raw: RawColumnData = RawColumnData::empty(variant, num_rows);
            let mut i: usize = 0;
            while i < non_null_count
                invariant
                    i <= non_null_count,
                    variant is Binary,
                    is_short(const_value@),
                    raw.wf(),
                    raw.variant() == variant,
                    raw.count() == i,
                    forall|k: int| 0 <= k < raw.count() ==> #[trigger] raw.item(k) == as_raw(variant, const_value@),
                decreases non_null_count - i,
            {
                raw.push(const_value, 0);
                i += 1;
            }
            Ok(raw)
        },
        DataVariant::TimestampNanos => {
            let (m, n) = match const_value {
                Value::TimestampNanos { millis, nanos_of_milli } => (*millis, *nanos_of_milli),
                _ => (0i64, 0i32),
            };
            Ok(
                RawColumnData::TimestampNanos {
                    millis: materialize_fixed_const(m, num_rows, strategy, null_bitmap, pages),
                    nanos_of_milli: materialize_fixed_const(n, num_rows, strategy, null_bitmap, pages),
                },
            )
        },
    }
}

pub proof fn lemma_all_valid(nulls: Seq<bool>)
    requires
        forall|r: int| 0 <= r < nulls.len() ==> !#[trigger] nulls[r],
    ensures
        count_valid(nulls) == nulls.len(),
    decreases nulls.len(),
{
    if nulls.len() > 0 {
        assert forall|r: int| 0 <= r < nulls.drop_last().len() implies !#[trigger] nulls.drop_last()[r] by {
            assert(!nulls[r]);
        }
        lemma_all_valid(nulls.drop_last());
    }
}

proof fn lemma_none_null(nulls: Seq<bool>)
    requires
        count_valid(nulls) == nulls.len(),
    ensures
        forall|r: int| 0 <= r < nulls.len() ==> !#[trigger] nulls[r],
    decreases nulls.len(),
{
    if nulls.len() > 0 {
        lemma_rank_bound(nulls.drop_last(), nulls.len() - 1);
        lemma_none_null(nulls.drop_last());
        assert forall|r: int| 0 <= r < nulls.len() implies !#[trigger] nulls[r] by {
            if r < nulls.len() - 1 {
                assert(!nulls.drop_last()[r]);
            }
        }
    }
}

// ---------------------------------------------------------------- dictionaries

/// The index of item `k` of a column with a dictionary.
pub open spec fn dict_index(data: Seq<u8>, cursor: int, width: nat, k: int) -> nat {
    unpacked(data, 8 * cursor + k * width, width)
}

/// All indexes of `count` items tell an entry.
pub open spec fn indexes_ok(data: Seq<u8>, cursor: int, width: nat, count: int, entries: nat) -> bool {
    forall|k: int| 0 <= k < count ==> #[trigger] dict_index(data, cursor, width, k) < entries
}

pub open spec fn short_values(values: Seq<Value>) -> bool {
    forall|i: int| 0 <= i < values.len() ==> is_short((#[trigger] values[i])@)
}

/// The items of a column with a dictionary.
pub fn read_all_dict(
    data: &[u8],
    data_cursor: usize,
    dict_values: &[Value],
    dict_bit_width: usize,
    num_rows: usize,
    has_nulls: bool,
    null_bitmap: &[u8],
    variant: DataVariant,
) -> (result: Result<RawColumnData, Error>)
    requires
        dict_bit_width <= 32,
        has_nulls ==> num_rows <= 8 * null_bitmap.len(),
        count_valid(null_rows(has_nulls, null_bitmap@, num_rows as nat)) * dict_bit_width <= usize::MAX,
        data_cursor + bytes_for(count_valid(null_rows(has_nulls, null_bitmap@, num_rows as nat)) * dict_bit_width) <= data.len(),
        short_values(dict_values@),
    ensures
        ({
            let nulls = null_rows(has_nulls, null_bitmap@, num_rows as nat);
            let fine = indexes_ok(
                data@,
                data_cursor as int,
                dict_bit_width as nat,
                count_valid(nulls) as int,
                dict_values@.len(),
            );
            &&& !fine ==> result == Err::<RawColumnData, Error>(Error::CorruptDictIndex)
            &&& fine ==> result is Ok
            &&& result matches Ok(raw) ==> raw.variant() == variant && raw.wf() && count_ok(raw, false, nulls) && forall|r: int|
                0 <= r < num_rows && !nulls[r] ==> raw.item(#[trigger] slot_of(variant, false, nulls, r)) == as_raw(
                    variant,
                    dict_values@[dict_index(data@, data_cursor as int, dict_bit_width as nat, rank_of(nulls, r)) as int]@,
                )
        }),
{
    let ghost nulls = null_rows(has_nulls, null_bitmap@, num_rows as nat);
    let ghost count = count_valid(nulls) as int;
    let ghost width = dict_bit_width as nat;
    let mut indices: Vec<usize> = Vec::new();
    let mut bit_offset: usize = 0;
    let mut row: usize = 0;
    assert(rank_of(nulls, 0) == 0) by {
        lemma_rank_bound(nulls, 0);
    }
    assert(0 * width == 0) by (nonlinear_arith);
    while row < num_rows
        invariant
            row <= num_rows,
            dict_bit_width <= 32,
            width == dict_bit_width,
            has_nulls ==> num_rows <= 8 * null_bitmap.len(),
            nulls == null_rows(has_nulls, null_bitmap@, num_rows as nat),
            count == count_valid(nulls),
            count * width <= usize::MAX,
            data_cursor + bytes_for(count * width) <= data.len(),
            indices@.len() == rank_of(nulls, row as int),
            bit_offset == indices@.len() * width,
            forall|k: int|
                0 <= k < indices@.len() ==> #[trigger] indices@[k] == dict_index(data@, data_cursor as int, width, k) && indices@[k]
                    < dict_values@.len(),
        decreases num_rows - row,
    {
        proof {
            lemma_rank_step(nulls, row as int);
            lemma_rank_bound(nulls, row as int);
        }
        if !(has_nulls && get_bit(null_bitmap, row)) {
            let ghost k = indices@.len() as int;
            assert(!nulls[row as int]);
            assert((k + 1) * width <= count * width) by (nonlinear_arith)
                requires
                    k + 1 <= count,
                    width >= 0,
            ;
            assert((k + 1) * width == k * width + width) by (nonlinear_arith);
            let index: usize = read_bit_packed(data, data_cursor, bit_offset, dict_bit_width);
            assert(index == dict_index(data@, data_cursor as int, width, k));
            bit_offset = bit_offset + dict_bit_width;
            if index >= dict_values.len() {
                assert(!indexes_ok(data@, data_cursor as int, width, count, dict_values@.len()));
                return Err(Error::CorruptDictIndex);
            }
            indices.push(index);
        }
        row += 1;
    }
    proof {
        lemma_rank_bound(nulls, num_rows as int);
        assert forall|k: int| 0 <= k < count implies #[trigger] dict_index(data@, data_cursor as int, width, k) < dict_values@.len() by {
            assert(indices@[k] < dict_values@.len());
        }
    }
    let mut raw: RawColumnData = RawColumnData::empty(variant, num_rows);
    let mut position: usize = 0;
    row = 0;
    while row < num_rows
        invariant
            row <= num_rows,
            width == dict_bit_width,
            has_nulls ==> num_rows <= 8 * null_bitmap.len(),
            nulls == null_rows(has_nulls, null_bitmap@, num_rows as nat),
            count == count_valid(nulls),
            short_values(dict_values@),
            indices@.len() == count,
            forall|k: int|
                0 <= k < indices@.len() ==> #[trigger] indices@[k] == dict_index(data@, data_cursor as int, width, k) && indices@[k]
                    < dict_values@.len(),
            position == rank_of(nulls, row as int),
            raw.variant() == variant,
            raw.wf(),
            variant is Boolean ==> raw.count() == 8 * bytes_for(num_rows as int),
            variant is Boolean ==> forall|r: int| row <= r < raw.count() ==> #[trigger] raw.item(r) == ValueView::Boolean(false),
            !(variant is Boolean) ==> raw.count() == position,
            forall|r: int|
                0 <= r < row && !nulls[r] ==> raw.item(#[trigger] slot_of(variant, false, nulls, r)) == as_raw(
                    variant,
                    dict_values@[dict_index(data@, data_cursor as int, width, rank_of(nulls, r)) as int]@,
                ),
        decreases num_rows - row,
    {
        let ghost before = raw;
        proof {
            lemma_rank_step(nulls, row as int);
            lemma_rank_bound(nulls, row as int);
        }
        if !(has_nulls && get_bit(null_bitmap, row)) {
            assert(!nulls[row as int]);
            let index: usize = indices[position];
            assert(is_short(dict_values@[index as int]@));
            raw.push(&dict_values[index], row);
            position += 1;
        }
        proof {
            assert forall|r: int| 0 <= r < row + 1 && !nulls[r] implies raw.item(#[trigger] slot_of(variant, false, nulls, r)) == as_raw(
                variant,
                dict_values@[dict_index(data@, data_cursor as int, width, rank_of(nulls, r)) as int]@,
            ) by {
                lemma_rank_bound(nulls, r);
                if r < row {
                    lemma_rank_below(nulls, r, row as int);
                    assert(before.item(slot_of(variant, false, nulls, r)) == as_raw(
                        variant,
                        dict_values@[dict_index(data@, data_cursor as int, width, rank_of(nulls, r)) as int]@,
                    ));
                }
            }
        }
        row += 1;
    }
    proof {
        lemma_rank_bound(nulls, num_rows as int);
    }
    Ok(raw)
}

/// A row that is not null comes before the rank of later rows.
pub proof fn lemma_rank_below(nulls: Seq<bool>, r: int, later: int)
    requires
        0 <= r < later <= nulls.len(),
    ensures
        rank_of(nulls, r) <= rank_of(nulls, later),
        !nulls[r] ==> rank_of(nulls, r) < rank_of(nulls, later),
    decreases later - r,
{
    lemma_rank_step(nulls, r);
    if r + 1 < later {
        lemma_rank_below(nulls, r + 1, later);
    }
}

// ---------------------------------------------------------------- plain values

/// Where item `k` of a column of plain values begins.
pub open spec fn plain_pos(dt: DataType, data: Seq<u8>, start: int, k: nat) -> int
    decreases k,
{
    if k == 0 {
        start
    } else {
        let p = plain_pos(dt, data, start, (k - 1) as nat);
        match value_size(dt, data, p, Error::TruncatedColumnData) {
            Ok(size) => p + size,
            Err(_) => p,
        }
    }
}

/// The data hold `count` plain values.
pub open spec fn plain_ok(dt: DataType, data: Seq<u8>, start: int, count: int) -> bool {
    forall|k: int|
        0 <= k < count ==> value_size(dt, data, #[trigger] plain_pos(dt, data, start, k as nat), Error::TruncatedColumnData) is Ok
}

/// Item `k` of a column of plain values.
pub open spec fn plain_item(dt: DataType, data: Seq<u8>, start: int, k: int) -> ValueView {
    decoded_value(dt, data.subrange(plain_pos(dt, data, start, k as nat), plain_pos(dt, data, start, (k + 1) as nat)))
}

pub proof fn lemma_decoded_short(dt: DataType, b: Seq<u8>)
    requires
        is_value(dt, b),
    ensures
        is_short(decoded_value(dt, b)),
{
    crate::varint::lemma_varint_bounds(b, 0);
    if let Ok((n, p)) = crate::varint::varint_at(b, 0) {
        if p + n <= b.len() {
            assert(b.subrange(p, p + n).len() == n);
        }
    }
}

/// The items of a column of plain values.
pub fn read_all_plain(
    data: &[u8],
    data_cursor: usize,
    col_type: &DataType,
    num_rows: usize,
    has_nulls: bool,
    null_bitmap: &[u8],
    variant: DataVariant,
) -> (result: Result<RawColumnData, Error>)
    requires
        has_nulls ==> num_rows <= 8 * null_bitmap.len(),
        data_cursor <= data.len(),
        plain_ok(
            *col_type,
            data@,
            data_cursor as int,
            count_valid(null_rows(has_nulls, null_bitmap@, num_rows as nat)) as int,
        ),
    ensures
        result is Ok,
        result matches Ok(raw) ==> {
            let nulls = null_rows(has_nulls, null_bitmap@, num_rows as nat);
            &&& raw.variant() == variant
            &&& raw.wf()
            &&& count_ok(raw, false, nulls)
            &&& forall|r: int|
                0 <= r < num_rows && !nulls[r] ==> raw.item(#[trigger] slot_of(variant, false, nulls, r)) == as_raw(
                    variant,
                    plain_item(*col_type, data@, data_cursor as int, rank_of(nulls, r)),
                )
        },
{
    let ghost nulls = null_rows(has_nulls, null_bitmap@, num_rows as nat);
    let ghost count = count_valid(nulls) as int;
    let mut raw: RawColumnData = RawColumnData::empty(variant, num_rows);
    let mut cursor: usize = data_cursor;
    let ghost mut position: int = 0;
    let mut row: usize = 0;
    proof {
        lemma_rank_bound(nulls, 0);
    }
    while row < num_rows
        invariant
            row <= num_rows,
            has_nulls ==> num_rows <= 8 * null_bitmap.len(),
            nulls == null_rows(has_nulls, null_bitmap@, num_rows as nat),
            count == count_valid(nulls),
            plain_ok(*col_type, data@, data_cursor as int, count),
            position == rank_of(nulls, row as int),
            position >= 0,
            cursor == plain_pos(*col_type, data@, data_cursor as int, position as nat),
            cursor <= data.len(),
            raw.variant() == variant,
            raw.wf(),
            variant is Boolean ==> raw.count() == 8 * bytes_for(num_rows as int),
            variant is Boolean ==> forall|r: int| row <= r < raw.count() ==> #[trigger] raw.item(r) == ValueView::Boolean(false),
            !(variant is Boolean) ==> raw.count() == position,
            forall|r: int|
                0 <= r < row && !nulls[r] ==> raw.item(#[trigger] slot_of(variant, false, nulls, r)) == as_raw(
                    variant,
                    plain_item(*col_type, data@, data_cursor as int, rank_of(nulls, r)),
                ),
        decreases num_rows - row,
    {
        let ghost before = raw;
        proof {
            lemma_rank_step(nulls, row as int);
            lemma_rank_bound(nulls, row as int);
        }
        if !(has_nulls && get_bit(null_bitmap, row)) {
            assert(!nulls[row as int]);
            assert(value_size(
                *col_type,
                data@,
                plain_pos(*col_type, data@, data_cursor as int, position as nat),
                Error::TruncatedColumnData,
            ) is Ok);
            match read_value(col_type, data, cursor, Error::TruncatedColumnData) {
                Ok((value, size)) => {
                    proof {
                        crate::values::lemma_value_size(*col_type, data@, cursor as int, Error::TruncatedColumnData);
                        lemma_decoded_short(*col_type, data@.subrange(cursor as int, cursor + size));
                        assert(plain_pos(*col_type, data@, data_cursor as int, (position + 1) as nat) == cursor + size);
                    }
                    raw.push(&value, row);
                    cursor = cursor + size;
                    proof {
                        position = position + 1;
                    }
                },
                Err(e) => {
                    return Err(e);
                },
            }
        }
        proof {
            assert forall|r: int| 0 <= r < row + 1 && !nulls[r] implies raw.item(#[trigger] slot_of(variant, false, nulls, r)) == as_raw(
                variant,
                plain_item(*col_type, data@, data_cursor as int, rank_of(nulls, r)),
            ) by {
                lemma_rank_bound(nulls, r);
                if r < row {
                    lemma_rank_below(nulls, r, row as int);
                    assert(before.item(slot_of(variant, false, nulls, r)) == as_raw(
                        variant,
                        plain_item(*col_type, data@, data_cursor as int, rank_of(nulls, r)),
                    ));
                }
            }
        }
        row += 1;
    }
    proof {
        lemma_rank_bound(nulls, num_rows as int);
    }
    Ok(raw)
}

// ---------------------------------------------------------------- rows

/// Which rows are null; a set bit in the bitmap tells that one is not.
pub open spec fn invalid_rows(validity: Option<Vec<u8>>, num_rows: nat) -> Seq<bool> {
    Seq::new(
        num_rows,
        |r: int|
            match validity {
                Some(bits) => !stream_bit(bits@, r),
                None => false,
            },
    )
}

pub open spec fn covers(validity: Option<Vec<u8>>, num_rows: nat) -> bool {
    validity matches Some(bits) ==> num_rows <= 8 * bits@.len()
}

/// Turns each bit around.
pub fn invert_bitmap(bitmap: &[u8]) -> (inverted: Vec<u8>)
    ensures
        inverted@.len() == bitmap@.len(),
        forall|q: int| 0 <= q < 8 * bitmap@.len() ==> #[trigger] stream_bit(inverted@, q) == !stream_bit(bitmap@, q),
{
    let mut inverted: Vec<u8> = Vec::new();
    let mut i: usize = 0;
    while i < bitmap.len()
        invariant
            i <= bitmap.len(),
            inverted@.len() == i,
            forall|k: int| 0 <= k < i ==> #[trigger] inverted@[k] == !bitmap@[k],
        decreases bitmap.len() - i,
    {
        inverted.push(!bitmap[i]);
        i += 1;
    }
    proof {
        assert forall|q: int| 0 <= q < 8 * bitmap@.len() implies #[trigger] stream_bit(inverted@, q) == !stream_bit(bitmap@, q) by {
            let k: u8 = (q % 8) as u8;
            let byte: u8 = bitmap@[q / 8];
            assert(inverted@[q / 8] == !byte);
            crate::bits::lemma_u8_bit(byte, k);
            crate::bits::lemma_u8_bit(!byte, k);
            assert((((!byte) >> k) & 1 == 1) == !((byte >> k) & 1 == 1)) by (bit_vector)
                requires
                    k < 8,
            ;
        }
    }
    inverted
}

/// Puts items in the rows that are not null; the other rows get zero. Without a bitmap the items
/// are the rows.
pub fn scatter_fixed<T: ConstMaterializeValue>(values: Vec<T>, bitmap: &Option<Vec<u8>>, num_rows: usize) -> (out: Vec<T>)
    requires
        covers(*bitmap, num_rows as nat),
        bitmap is Some ==> values@.len() == count_valid(invalid_rows(*bitmap, num_rows as nat)),
    ensures
        bitmap is None ==> out@ == values@,
        bitmap is Some ==> out@.len() == num_rows && forall|r: int|
            0 <= r < num_rows ==> #[trigger] out@[r] == (if invalid_rows(*bitmap, num_rows as nat)[r] {
                T::zero()
            } else {
                values@[rank_of(invalid_rows(*bitmap, num_rows as nat), r)]
            }),
{
    let bits: &Vec<u8> = match bitmap {
        None => {
            return values;
        },
        Some(bits) => bits,
    };
    let ghost nulls = invalid_rows(*bitmap, num_rows as nat);
    let mut out: Vec<T> = Vec::new();
    let mut source: usize = 0;
    let mut r: usize = 0;
    proof {
        lemma_rank_bound(nulls, 0);
    }
    while r < num_rows
        invariant
            r <= num_rows,
            bitmap is Some,
            *bits == bitmap->0,
            num_rows <= 8 * bits@.len(),
            nulls == invalid_rows(*bitmap, num_rows as nat),
            values@.len() == count_valid(nulls),
            source == rank_of(nulls, r as int),
            out@.len() == r,
            forall|k: int|
                0 <= k < r ==> #[trigger] out@[k] == (if nulls[k] {
                    T::zero()
                } else {
                    values@[rank_of(nulls, k)]
                }),
        decreases num_rows - r,
    {
        proof {
            lemma_rank_step(nulls, r as int);
            lemma_rank_bound(nulls, r as int);
        }
        if get_bit(bits.as_slice(), r) {
            out.push(values[source]);
            source += 1;
        } else {
            out.push(T::default_value());
        }
        r += 1;
    }
    out
}

/// Byte strings one behind another.
pub open spec fn cut_ok(offsets: Seq<usize>, data: Seq<u8>) -> bool {
    &&& offsets.len() > 0
    &&& forall|i: int, j: int|
        0 <= i <= j < offsets.len() ==> #[trigger] offsets[i] <= #[trigger] offsets[j] && offsets[j] <= data.len()
}

pub open spec fn cut_item(offsets: Seq<usize>, data: Seq<u8>, k: int) -> Seq<u8> {
    data.subrange(offsets[k] as int, offsets[k + 1] as int)
}

/// Puts byte strings in the rows that are not null; the other rows get empty ones. Without a bitmap
/// the strings are the rows.
pub fn scatter_binary_offsets(offsets: Vec<usize>, data: Vec<u8>, bitmap: &Option<Vec<u8>>, num_rows: usize) -> (out: (
    Vec<usize>,
    Vec<u8>,
))
    requires
        cut_ok(offsets@, data@),
        covers(*bitmap, num_rows as nat),
        bitmap is Some ==> offsets@.len() == count_valid(invalid_rows(*bitmap, num_rows as nat)) + 1,
    ensures
        bitmap is None ==> out.0@ == offsets@ && out.1@ == data@,
        bitmap is Some ==> cut_ok(out.0@, out.1@) && out.0@.len() == num_rows + 1 && forall|r: int|
            0 <= r < num_rows ==> #[trigger] cut_item(out.0@, out.1@, r) == (if invalid_rows(*bitmap, num_rows as nat)[r] {
                Seq::empty()
            } else {
                cut_item(offsets@, data@, rank_of(invalid_rows(*bitmap, num_rows as nat), r))
            }),
{
    let bits: &Vec<u8> = match bitmap {
        None => {
            return (offsets, data);
        },
        Some(bits) => bits,
    };
    let ghost nulls = invalid_rows(*bitmap, num_rows as nat);
    let mut out_offsets: Vec<usize> = Vec::new();
    let mut out_data: Vec<u8> = Vec::new();
    out_offsets.push(0);
    let mut source: usize = 0;
    let mut r: usize = 0;
    proof {
        lemma_rank_bound(nulls, 0);
    }
    while r < num_rows
        invariant
            r <= num_rows,
            bitmap is Some,
            *bits == bitmap->0,
            num_rows <= 8 * bits@.len(),
            cut_ok(offsets@, data@),
            nulls == invalid_rows(*bitmap, num_rows as nat),
            offsets@.len() == count_valid(nulls) + 1,
            source == rank_of(nulls, r as int),
            cut_ok(out_offsets@, out_data@),
            out_offsets@.len() == r + 1,
            out_offsets@[r as int] == out_data@.len(),
            forall|k: int|
                0 <= k < r ==> #[trigger] cut_item(out_offsets@, out_data@, k) == (if nulls[k] {
                    Seq::empty()
                } else {
                    cut_item(offsets@, data@, rank_of(nulls, k))
                }),
        decreases num_rows - r,
    {
        let ghost before = out_data@;
        let ghost offsets0 = out_offsets@;
        proof {
            lemma_rank_step(nulls, r as int);
            lemma_rank_bound(nulls, r as int);
        }
        if get_bit(bits.as_slice(), r) {
            let start: usize = offsets[source];
            let end: usize = offsets[source + 1];
            assert(offsets@[source as int] <= offsets@[source + 1]);
            out_data.extend_from_slice(vstd::slice::slice_subrange(data.as_slice(), start, end));
            source += 1;
        }
        out_offsets.push(out_data.len());
        proof {
            assert forall|i: int, j: int| 0 <= i <= j < out_offsets@.len() implies #[trigger] out_offsets@[i]
                <= #[trigger] out_offsets@[j] && out_offsets@[j] <= out_data@.len() by {
                if j < offsets0.len() {
                    assert(offsets0[i] <= offsets0[j] && offsets0[j] <= before.len());
                } else if i < offsets0.len() {
                    assert(offsets0[i] <= offsets0[r as int]);
                }
            }
            assert forall|k: int| 0 <= k < r + 1 implies #[trigger] cut_item(out_offsets@, out_data@, k) == (if nulls[k] {
                Seq::empty()
            } else {
                cut_item(offsets@, data@, rank_of(nulls, k))
            }) by {
                if k < r {
                    assert(cut_item(offsets0, before, k) =~= cut_item(out_offsets@, out_data@, k)) by {
                        assert(offsets0[k] <= offsets0[k + 1] && offsets0[k + 1] <= before.len());
                    }
                } else if nulls[k] {
                    assert(cut_item(out_offsets@, out_data@, k) =~= Seq::empty());
                } else {
                    assert(cut_item(out_offsets@, out_data@, k) =~= cut_item(offsets@, data@, rank_of(nulls, k)));
                }
            }
        }
        r += 1;
    }
    (out_offsets, out_data)
}

/// The byte strings one by one.
fn cut_strings(offsets: &Vec<usize>, data: &Vec<u8>) -> (strings: Vec<Vec<u8>>)
    requires
        cut_ok(offsets@, data@),
    ensures
        strings@.len() == offsets@.len() - 1,
        forall|k: int| 0 <= k < strings@.len() ==> (#[trigger] strings@[k])@ == cut_item(offsets@, data@, k),
{
    let mut strings: Vec<Vec<u8>> = Vec::new();
    let mut k: usize = 0;
    while k < offsets.len() - 1
        invariant
            k <= offsets.len() - 1,
            cut_ok(offsets@, data@),
            strings@.len() == k,
            forall|i: int| 0 <= i < k ==> (#[trigger] strings@[i])@ == cut_item(offsets@, data@, i),
        decreases offsets.len() - k,
    {
        assert(offsets@[k as int] <= offsets@[k + 1]);
        strings.push(
            vstd::slice::slice_to_vec(vstd::slice::slice_subrange(data.as_slice(), offsets[k], offsets[k + 1])),
        );
        k += 1;
    }
    strings
}

/// One truth value for each bit.
fn bits_to_flags(bits: &Vec<u8>, num_rows: usize) -> (flags: Vec<bool>)
    requires
        num_rows <= 8 * bits.len(),
    ensures
        flags@.len() == num_rows,
        forall|r: int| 0 <= r < num_rows ==> #[trigger] flags@[r] == stream_bit(bits@, r),
{
    let mut flags: Vec<bool> = Vec::new();
    let mut r: usize = 0;
    while r < num_rows
        invariant
            r <= num_rows,
            num_rows <= 8 * bits.len(),
            flags@.len() == r,
            forall|k: int| 0 <= k < r ==> #[trigger] flags@[k] == stream_bit(bits@, k),
        decreases num_rows - r,
    {
        flags.push(get_bit(bits.as_slice(), r));
        r += 1;
    }
    flags
}

/// The rows that are null.
fn make_null_flags(validity: &Option<Vec<u8>>, num_rows: usize) -> (nulls: Vec<bool>)
    requires
        covers(*validity, num_rows as nat),
    ensures
        nulls@ == invalid_rows(*validity, num_rows as nat),
{
    let mut nulls: Vec<bool> = Vec::new();
    let mut r: usize = 0;
    while r < num_rows
        invariant
            r <= num_rows,
            covers(*validity, num_rows as nat),
            nulls@.len() == r,
            forall|k: int| 0 <= k < r ==> #[trigger] nulls@[k] == invalid_rows(*validity, num_rows as nat)[k],
        decreases num_rows - r,
    {
        match validity {
            Some(bits) => nulls.push(!get_bit(bits.as_slice(), r)),
            None => nulls.push(false),
        }
        r += 1;
    }
    assert(nulls@ =~= invalid_rows(*validity, num_rows as nat));
    nulls
}

proof fn lemma_rank_without_nulls(nulls: Seq<bool>, r: int)
    requires
        forall|q: int| 0 <= q < nulls.len() ==> !#[trigger] nulls[q],
        0 <= r <= nulls.len(),
    ensures
        rank_of(nulls, r) == r,
    decreases r,
{
    if r > 0 {
        lemma_rank_without_nulls(nulls, r - 1);
        lemma_rank_step(nulls, r - 1);
    } else {
        lemma_rank_bound(nulls, 0);
    }
}

/// Puts items in their rows, unless they stand there already.
fn place<T: ConstMaterializeValue>(values: Vec<T>, bitmap: &Option<Vec<u8>>, num_rows: usize, aligned: bool) -> (out: Vec<T>)
    requires
        covers(*bitmap, num_rows as nat),
        values@.len() == (if aligned {
            num_rows as nat
        } else {
            count_valid(invalid_rows(*bitmap, num_rows as nat))
        }),
    ensures
        out@.len() == num_rows,
        forall|r: int|
            0 <= r < num_rows && !invalid_rows(*bitmap, num_rows as nat)[r] ==> #[trigger] out@[r] == values@[if aligned {
                r
            } else {
                rank_of(invalid_rows(*bitmap, num_rows as nat), r)
            }],
{
    let ghost nulls = invalid_rows(*bitmap, num_rows as nat);
    let no_scatter: Option<Vec<u8>> = None;
    if aligned {
        scatter_fixed(values, &no_scatter, num_rows)
    } else {
        proof {
            if bitmap is None {
                lemma_all_valid(nulls);
                assert forall|r: int| 0 <= r < num_rows implies #[trigger] rank_of(nulls, r) == r by {
                    lemma_rank_without_nulls(nulls, r);
                }
            }
        }
        scatter_fixed(values, bitmap, num_rows)
    }
}

/// What is wrong with the first `n` rows: the first bad one that is not null.
pub open spec fn build_error(dt: DataType, raw: RawColumnData, aligned: bool, nulls: Seq<bool>, n: nat) -> Option<Error>
    decreases n,
{
    if n == 0 {
        None
    } else {
        match build_error(dt, raw, aligned, nulls, (n - 1) as nat) {
            Some(e) => Some(e),
            None => if nulls[n - 1] {
                None
            } else {
                match from_raw(dt, raw.item(slot_of(raw.variant(), aligned, nulls, n - 1))) {
                    Ok(_) => None,
                    Err(e) => Some(e),
                }
            },
        }
    }
}

proof fn lemma_build_error(dt: DataType, raw: RawColumnData, aligned: bool, nulls: Seq<bool>, n: nat, m: nat)
    requires
        n <= m,
        build_error(dt, raw, aligned, nulls, n) is Some,
    ensures
        build_error(dt, raw, aligned, nulls, m) == build_error(dt, raw, aligned, nulls, n),
    decreases m,
{
    if n < m {
        lemma_build_error(dt, raw, aligned, nulls, n, (m - 1) as nat);
    }
}

proof fn lemma_no_build_error(dt: DataType, raw: RawColumnData, aligned: bool, nulls: Seq<bool>, n: nat)
    requires
        forall|r: int|
            0 <= r < n && !nulls[r] ==> from_raw(dt, raw.item(#[trigger] slot_of(raw.variant(), aligned, nulls, r))) is Ok,
    ensures
        build_error(dt, raw, aligned, nulls, n) is None,
    decreases n,
{
    if n > 0 {
        lemma_no_build_error(dt, raw, aligned, nulls, (n - 1) as nat);
        let k = slot_of(raw.variant(), aligned, nulls, n - 1);
    }
}

/// The numbers of a column of decimals in their rows.
fn read_decimals(strings: &Vec<Vec<u8>>, nulls: &Vec<bool>) -> (result: Result<Vec<i128>, usize>)
    requires
        strings@.len() == nulls@.len(),
    ensures
        result matches Ok(out) ==> out@.len() == strings@.len() && forall|r: int|
            0 <= r < out@.len() && !nulls@[r] ==> (#[trigger] strings@[r])@.len() <= 16 && out@[r] == signed_value(strings@[r]@),
        result matches Err(at) ==> at < strings@.len() && !nulls@[at as int] && strings@[at as int]@.len() > 16 && forall|r: int|
            0 <= r < at && !nulls@[r] ==> (#[trigger] strings@[r])@.len() <= 16,
{
    let mut out: Vec<i128> = Vec::new();
    let mut r: usize = 0;
    while r < strings.len()
        invariant
            r <= strings.len(),
            strings@.len() == nulls@.len(),
            out@.len() == r,
            forall|k: int|
                0 <= k < r && !nulls@[k] ==> (#[trigger] strings@[k])@.len() <= 16 && out@[k] == signed_value(strings@[k]@),
        decreases strings.len() - r,
    {
        if nulls[r] {
            out.push(0);
        } else {
            if strings[r].len() > 16 {
                return Err(r);
            }
            out.push(sign_extended(strings[r].as_slice()));
        }
        r += 1;
    }
    Ok(out)
}

/// The timestamps of a column in their rows.
fn join_nanos(millis: &Vec<i64>, nanos: &Vec<i32>, nulls: &Vec<bool>) -> (result: Result<Vec<i64>, (usize, Error)>)
    requires
        millis@.len() == nulls@.len(),
        nanos@.len() == nulls@.len(),
    ensures
        result matches Ok(out) ==> out@.len() == nulls@.len() && forall|r: int|
            0 <= r < out@.len() && !nulls@[r] ==> pair_nanos(millis@[r], nanos@[r]) == Ok::<i64, Error>(#[trigger] out@[r]),
        result matches Err((at, e)) ==> at < nulls@.len() && !nulls@[at as int] && pair_nanos(millis@[at as int], nanos@[at as int])
            == Err::<i64, Error>(e) && forall|r: int|
            0 <= r < at && !nulls@[r] ==> pair_nanos(#[trigger] millis@[r], nanos@[r]) is Ok,
{
    let mut out: Vec<i64> = Vec::new();
    let mut r: usize = 0;
    while r < nulls.len()
        invariant
            r <= nulls.len(),
            millis@.len() == nulls@.len(),
            nanos@.len() == nulls@.len(),
            out@.len() == r,
            forall|k: int|
                0 <= k < r && !nulls@[k] ==> pair_nanos(millis@[k], nanos@[k]) == Ok::<i64, Error>(#[trigger] out@[k]),
        decreases nulls.len() - r,
    {
        if nulls[r] {
            out.push(0);
        } else {
            match millis_nanos_to_ns(millis[r], nanos[r]) {
                Ok(ns) => out.push(ns),
                Err(e) => {
                    proof {
                        assert forall|k: int| 0 <= k < r && !nulls@[k] implies pair_nanos(#[trigger] millis@[k], nanos@[k]) is Ok by {
                            assert(pair_nanos(millis@[k], nanos@[k]) == Ok::<i64, Error>(out@[k]));
                        }
                    }
                    return Err((r, e));
                },
            }
        }
        r += 1;
    }
    Ok(out)
}

fn widen(values: &Vec<i64>) -> (out: Vec<i128>)
    ensures
        out@.len() == values@.len(),
        forall|k: int| 0 <= k < out@.len() ==> #[trigger] out@[k] == values@[k],
{
    let mut out: Vec<i128> = Vec::new();
    let mut k: usize = 0;
    while k < values.len()
        invariant
            k <= values.len(),
            out@.len() == k,
            forall|i: int| 0 <= i < k ==> #[trigger] out@[i] == values@[i],
        decreases values.len() - k,
    {
        out.push(values[k] as i128);
        k += 1;
    }
    out
}

fn no_flags(n: usize) -> (flags: Vec<bool>)
    ensures
        flags@.len() == n,
        forall|k: int| 0 <= k < n ==> !#[trigger] flags@[k],
{
    let mut flags: Vec<bool> = Vec::new();
    let mut k: usize = 0;
    while k < n
        invariant
            k <= n,
            flags@.len() == k,
            forall|i: int| 0 <= i < k ==> !#[trigger] flags@[i],
        decreases n - k,
    {
        flags.push(false);
        k += 1;
    }
    flags
}

/// Makes a column of type `dt` of items. A set bit in `null_bitmap` tells that a row is not null.
pub fn build_array(
    data: RawColumnData,
    dt: &DataType,
    null_bitmap: Option<Vec<u8>>,
    num_rows: usize,
    values_are_row_aligned: bool,
) -> (result: Result<Column, Error>)
    requires
        data.wf(),
        data.variant() == variant_of(*dt),
        !is_container_type(*dt),
        covers(null_bitmap, num_rows as nat),
        count_ok(data, values_are_row_aligned, invalid_rows(null_bitmap, num_rows as nat)),
        values_are_row_aligned ==> !(data.variant() is Binary),
    ensures
        ({
            let nulls = invalid_rows(null_bitmap, num_rows as nat);
            match result {
                Ok(col) => {
                    &&& build_error(*dt, data, values_are_row_aligned, nulls, num_rows as nat) is None
                    &&& consistent(col)
                    &&& col.nulls@ == nulls
                    &&& leaf_matches(*dt, col.values)
                    &&& col.values matches ColumnValues::LegacyTimestampNanos { child_nulls, .. } ==> forall|r: int|
                        0 <= r < num_rows ==> !#[trigger] child_nulls@[r]
                    &&& forall|r: int|
                        0 <= r < num_rows && !nulls[r] ==> from_raw(
                            *dt,
                            data.item(#[trigger] slot_of(data.variant(), values_are_row_aligned, nulls, r)),
                        ) == Ok::<ValueView, Error>(leaf_value(*dt, col.values, r))
                },
                Err(e) => build_error(*dt, data, values_are_row_aligned, nulls, num_rows as nat) == Some(e),
            }
        }),
{
    let ghost nulls0 = invalid_rows(null_bitmap, num_rows as nat);
    let ghost raw = data;
    let aligned: bool = values_are_row_aligned;
    let nulls: Vec<bool> = make_null_flags(&null_bitmap, num_rows);
    let values = match data {
        RawColumnData::Boolean(bits) => ColumnValues::Boolean(bits_to_flags(&bits, num_rows)),
        RawColumnData::Int8(v) => ColumnValues::Int8(place(v, &null_bitmap, num_rows, aligned)),
        RawColumnData::Int16(v) => ColumnValues::Int16(place(v, &null_bitmap, num_rows, aligned)),
        RawColumnData::Int32(v) => {
            let placed: Vec<i32> = place(v, &null_bitmap, num_rows, aligned);
            match dt {
                DataType::Date32 => ColumnValues::Date32(placed),
                DataType::Time32 => ColumnValues::Time32(placed),
                _ => ColumnValues::Int32(placed),
            }
        },
        RawColumnData::Int64(v) => {
            let placed: Vec<i64> = place(v, &null_bitmap, num_rows, aligned);
            match dt {
                DataType::Decimal128(_, _) => ColumnValues::Decimal128(widen(&placed)),
                DataType::Timestamp(TimeUnit::Millisecond, _) => ColumnValues::TimestampMillis(placed),
                DataType::Timestamp(TimeUnit::Microsecond, _) => ColumnValues::TimestampMicros(placed),
                _ => ColumnValues::Int64(placed),
            }
        },
        RawColumnData::Float32(v) => ColumnValues::Float32(place(v, &null_bitmap, num_rows, aligned)),
        RawColumnData::Float64(v) => ColumnValues::Float64(place(v, &null_bitmap, num_rows, aligned)),
        RawColumnData::Binary { offsets, data } => {
            proof {
                if null_bitmap is None {
                    lemma_all_valid(nulls0);
                    assert forall|r: int| 0 <= r < num_rows implies #[trigger] rank_of(nulls0, r) == r by {
                        lemma_rank_without_nulls(nulls0, r);
                    }
                }
            }
            let (row_offsets, row_data) = scatter_binary_offsets(offsets, data, &null_bitmap, num_rows);
            let strings: Vec<Vec<u8>> = cut_strings(&row_offsets, &row_data);
            proof {
                assert forall|r: int| 0 <= r < num_rows && !nulls0[r] implies raw.item(
                    #[trigger] slot_of(raw.variant(), aligned, nulls0, r),
                ) == ValueView::Bytes(strings@[r]@) by {
                    assert(strings@[r]@ == cut_item(row_offsets@, row_data@, r));
                    lemma_rank_bound(nulls0, r);
                }
                assert forall|r: int| 0 <= r < num_rows implies (#[trigger] strings@[r])@.len() <= u32::MAX by {
                    assert(strings@[r]@ == cut_item(row_offsets@, row_data@, r));
                    lemma_rank_bound(nulls0, r);
                    let k = rank_of(nulls0, r);
                    if !nulls0[r] {
                        assert(offsets@[k + 1] - offsets@[k] <= u32::MAX);
                        assert(offsets@[k] <= offsets@[k + 1] && offsets@[k + 1] <= data@.len());
                    }
                }
            }
            match dt {
                DataType::Utf8 => ColumnValues::Utf8(strings),
                DataType::Decimal128(_, _) => match read_decimals(&strings, &nulls) {
                    Ok(numbers) => ColumnValues::Decimal128(numbers),
                    Err(at) => {
                        proof {
                            assert forall|r: int| 0 <= r < at && !nulls0[r] implies from_raw(
                                *dt,
                                raw.item(#[trigger] slot_of(raw.variant(), aligned, nulls0, r)),
                            ) is Ok by {
                                assert(strings@[r]@.len() <= 16);
                            }
                            lemma_no_build_error(*dt, raw, aligned, nulls0, at as nat);
                            let k = slot_of(raw.variant(), aligned, nulls0, at as int);
                            lemma_build_error(*dt, raw, aligned, nulls0, (at + 1) as nat, num_rows as nat);
                        }
                        return Err(Error::DecimalTooLong);
                    },
                },
                _ => ColumnValues::Binary(strings),
            }
        },
        RawColumnData::TimestampNanos { millis, nanos_of_milli } => {
            let m: Vec<i64> = place(millis, &null_bitmap, num_rows, aligned);
            let n: Vec<i32> = place(nanos_of_milli, &null_bitmap, num_rows, aligned);
            proof {
                assert forall|r: int| 0 <= r < num_rows && !nulls0[r] implies raw.item(
                    #[trigger] slot_of(raw.variant(), aligned, nulls0, r),
                ) == (ValueView::TimestampNanos { millis: m@[r], nanos_of_milli: n@[r] }) by {}
            }
            match dt {
                DataType::Timestamp(_, _) => match join_nanos(&m, &n, &nulls) {
                    Ok(joined) => {
                        proof {
                            assert forall|r: int| 0 <= r < num_rows && !nulls0[r] implies from_raw(
                                *dt,
                                raw.item(#[trigger] slot_of(raw.variant(), aligned, nulls0, r)),
                            ) == Ok::<ValueView, Error>(leaf_value(*dt, ColumnValues::TimestampNanos(joined), r)) by {
                                assert(pair_nanos(m@[r], n@[r]) == Ok::<i64, Error>(joined@[r]));
                                lemma_split_of_pair(m@[r], n@[r]);
                            }
                        }
                        ColumnValues::TimestampNanos(joined)
                    },
                    Err((at, e)) => {
                        proof {
                            assert forall|r: int| 0 <= r < at && !nulls0[r] implies from_raw(
                                *dt,
                                raw.item(#[trigger] slot_of(raw.variant(), aligned, nulls0, r)),
                            ) is Ok by {
                                assert(pair_nanos(m@[r], n@[r]) is Ok);
                            }
                            lemma_no_build_error(*dt, raw, aligned, nulls0, at as nat);
                            let k = slot_of(raw.variant(), aligned, nulls0, at as int);
                            lemma_build_error(*dt, raw, aligned, nulls0, (at + 1) as nat, num_rows as nat);
                        }
                        return Err(e);
                    },
                },
                _ => ColumnValues::LegacyTimestampNanos { millis: m, nanos: n, child_nulls: no_flags(num_rows) },
            }
        },
    };
    proof {
        assert forall|r: int| 0 <= r < num_rows && !nulls0[r] implies from_raw(
            *dt,
            raw.item(#[trigger] slot_of(raw.variant(), aligned, nulls0, r)),
        ) == Ok::<ValueView, Error>(leaf_value(*dt, values, r)) by {}
        lemma_no_build_error(*dt, raw, aligned, nulls0, num_rows as nat);
    }
    Ok(Column { values, nulls })
}

/// Joining milliseconds and nanoseconds and splitting them again changes nothing.
proof fn lemma_split_of_pair(millis: i64, nanos: i32)
    requires
        pair_nanos(millis, nanos) is Ok,
    ensures
        pair_nanos(millis, nanos)->Ok_0 as int / NANOS_PER_MILLI as int == millis,
        pair_nanos(millis, nanos)->Ok_0 as int % NANOS_PER_MILLI as int == nanos,
{
    let total = millis * NANOS_PER_MILLI + nanos;
    vstd::arithmetic::div_mod::lemma_fundamental_div_mod_converse(total, 1_000_000, millis as int, nanos as int);
}

} // verus!
