//! Reading the columns of a bucket.
use vstd::prelude::*;
use vstd::arithmetic::power2::pow2;
use vstd::slice::{slice_subrange, slice_to_vec};
use crate::bits::{bit_width, byte_count, bytes_for, index_width, lemma_index_width_bound, read_bit_packed, stream_bit, unpacked};
use crate::bucket_image::{byte_views, counts_of};
use crate::bucket_writer::{all_child_types, expand_col_types, physical_types, plain_types, shape_error};
use crate::column::{child_types, consistent, element_types, leaf_matches, rows_of, Column, ColumnValues, Row};
use crate::const_fill::{count_non_null, count_valid, lemma_rank_bound, null_rows, rank_of};
use crate::encoded_column::{value_views, EncodedColumn, EncodedColumnView};
use crate::error::{Error, PagePart};
use crate::format::{ENCODING_ALL_NULL, ENCODING_CONST, ENCODING_DICT, ENCODING_PLAIN};
use crate::raw_column::{
    as_raw, build_array, build_error, coerced, const_values_are_row_aligned, data_variant_for_type, dict_index,
    indexes_ok, invalid_rows, invert_bitmap, is_short, lemma_decoded_short, plain_item, plain_ok, plain_pos,
    read_all_const, read_all_dict, read_all_plain, short_values, slot_of, variant_of, DataVariant, RawColumnData,
};
use crate::reassemble::{all_assembled, physical_rows, reassemble_list_columns_pub};
use crate::types::{fixed_width, is_container_type, width_of, DataType, TimeUnit};
use crate::values::{decoded_value, lemma_value_size, read_value, value_size, Value, ValueView};
use crate::varint;
use crate::varint::{lemma_varint_bounds, varint_at};

verus! {

// ---------------------------------------------------------------- one column

impl EncodedColumnView {
    /// The values that the column needs are there.
    pub open spec fn readable(self) -> bool {
        let count = count_valid(self.nulls()) as int;
        &&& self.wf()
        &&& !is_container_type(self.dt)
        &&& self.cursor <= self.data.len()
        &&& self.encoding == ENCODING_PLAIN || self.encoding == ENCODING_CONST || self.encoding == ENCODING_DICT
            || self.encoding == ENCODING_ALL_NULL
        &&& self.encoding == ENCODING_PLAIN ==> plain_ok(self.dt, self.data, self.cursor, count)
        &&& self.encoding == ENCODING_DICT ==> count * self.bit_width <= usize::MAX && self.cursor + bytes_for(
            count * self.bit_width,
        ) <= self.data.len()
        &&& is_short(self.const_value)
        &&& forall|i: int| 0 <= i < self.dict.len() ==> is_short(#[trigger] self.dict[i])
    }

    /// Item `k` as it is stored.
    pub open spec fn stored(self, k: int) -> ValueView {
        if self.encoding == ENCODING_CONST {
            self.const_value
        } else if self.encoding == ENCODING_DICT {
            self.dict[dict_index(self.data, self.cursor, self.bit_width, k) as int]
        } else {
            plain_item(self.dt, self.data, self.cursor, k)
        }
    }

    /// What is wrong with the first `n` rows: the first bad one that is not null.
    pub open spec fn rows_error(self, n: nat) -> Option<Error>
        decreases n,
    {
        if n == 0 {
            None
        } else {
            match self.rows_error((n - 1) as nat) {
                Some(e) => Some(e),
                None => if self.nulls()[n - 1] {
                    None
                } else {
                    match coerced(self.dt, self.stored(rank_of(self.nulls(), n - 1))) {
                        Ok(_) => None,
                        Err(e) => Some(e),
                    }
                },
            }
        }
    }

    /// The rows of the column, or what is wrong with them.
    pub open spec fn rows_result(self) -> Result<Seq<Row>, Error> {
        if self.encoding != ENCODING_ALL_NULL && self.rows * 8 > usize::MAX {
            Err(Error::TooManyRows)
        } else if self.encoding == ENCODING_DICT && !indexes_ok(
            self.data,
            self.cursor,
            self.bit_width,
            count_valid(self.nulls()) as int,
            self.dict.len(),
        ) {
            Err(Error::CorruptDictIndex)
        } else {
            match self.rows_error(self.rows) {
                Some(e) => Err(e),
                None => Ok(
                    Seq::new(
                        self.rows,
                        |r: int|
                            if self.nulls()[r] {
                                Row::Null
                            } else {
                                Row::Leaf(coerced(self.dt, self.stored(rank_of(self.nulls(), r)))->Ok_0)
                            },
                    ),
                ),
            }
        }
    }

    proof fn lemma_all_null(self, n: nat)
        requires
            self.encoding == ENCODING_ALL_NULL,
            n <= self.rows,
        ensures
            self.rows_error(n) is None,
        decreases n,
    {
        if n > 0 {
            self.lemma_all_null((n - 1) as nat);
        }
    }

    /// The rows of items that stand for the stored values are the rows of the column.
    proof fn lemma_rows_error(self, raw: RawColumnData, aligned: bool, n: nat)
        requires
            n <= self.rows,
            raw.variant() == variant_of(self.dt),
            forall|r: int|
                0 <= r < self.rows && !self.nulls()[r] ==> raw.item(#[trigger] slot_of(raw.variant(), aligned, self.nulls(), r))
                    == as_raw(raw.variant(), self.stored(rank_of(self.nulls(), r))),
        ensures
            build_error(self.dt, raw, aligned, self.nulls(), n) == self.rows_error(n),
        decreases n,
    {
        if n > 0 {
            self.lemma_rows_error(raw, aligned, (n - 1) as nat);
            let k = slot_of(raw.variant(), aligned, self.nulls(), n - 1);
        }
    }
}

fn true_flags(n: usize) -> (flags: Vec<bool>)
    ensures
        flags@ == Seq::new(n as nat, |i: int| true),
{
    let mut flags: Vec<bool> = Vec::new();
    let mut i: usize = 0;
    while i < n
        invariant
            i <= n,
            flags@ == Seq::new(i as nat, |k: int| true),
        decreases n - i,
    {
        flags.push(true);
        i += 1;
        assert(flags@ =~= Seq::new(i as nat, |k: int| true));
    }
    flags
}

fn filled<T: Copy>(value: T, n: usize) -> (values: Vec<T>)
    ensures
        values@.len() == n,
{
    let mut values: Vec<T> = Vec::new();
    let mut i: usize = 0;
    while i < n
        invariant
            i <= n,
            values@.len() == i,
        decreases n - i,
    {
        values.push(value);
        i += 1;
    }
    values
}

fn empty_strings(n: usize) -> (values: Vec<Vec<u8>>)
    ensures
        values@.len() == n,
        forall|i: int| 0 <= i < n ==> (#[trigger] values@[i])@.len() == 0,
{
    let mut values: Vec<Vec<u8>> = Vec::new();
    let mut i: usize = 0;
    while i < n
        invariant
            i <= n,
            values@.len() == i,
            forall|k: int| 0 <= k < i ==> (#[trigger] values@[k])@.len() == 0,
        decreases n - i,
    {
        values.push(Vec::new());
        i += 1;
    }
    values
}

fn zero_offsets(n: usize) -> (offsets: Vec<usize>)
    ensures
        offsets@.len() == n + 1,
        forall|i: int| 0 <= i < offsets@.len() ==> #[trigger] offsets@[i] == 0,
{
    let mut offsets: Vec<usize> = Vec::new();
    offsets.push(0);
    let mut i: usize = 0;
    while i < n
        invariant
            i <= n,
            offsets@.len() == i + 1,
            forall|k: int| 0 <= k < offsets@.len() ==> #[trigger] offsets@[k] == 0,
        decreases n - i,
    {
        offsets.push(0);
        i += 1;
    }
    offsets
}

/// A column of type `dt` that is null in every row.
pub fn build_all_null_array(dt: &DataType, num_rows: usize) -> (col: Column)
    ensures
        consistent(col),
        crate::bucket_writer::shape_error(*dt, col) is None,
        !is_container_type(*dt) ==> leaf_matches(*dt, col.values),
        col.nulls@ == Seq::new(num_rows as nat, |i: int| true),
        rows_of(*dt, col) == Seq::new(num_rows as nat, |i: int| Row::Null),
    decreases dt,
{
    let nulls: Vec<bool> = true_flags(num_rows);
    let values = match dt {
        DataType::Boolean => ColumnValues::Boolean(filled(false, num_rows)),
        DataType::Int8 => ColumnValues::Int8(filled(0i8, num_rows)),
        DataType::Int16 => ColumnValues::Int16(filled(0i16, num_rows)),
        DataType::Int32 => ColumnValues::Int32(filled(0i32, num_rows)),
        DataType::Int64 => ColumnValues::Int64(filled(0i64, num_rows)),
        DataType::Float32 => ColumnValues::Float32(filled(0u32, num_rows)),
        DataType::Float64 => ColumnValues::Float64(filled(0u64, num_rows)),
        DataType::Date32 => ColumnValues::Date32(filled(0i32, num_rows)),
        DataType::Time32 => ColumnValues::Time32(filled(0i32, num_rows)),
        DataType::Utf8 => ColumnValues::Utf8(empty_strings(num_rows)),
        DataType::Binary => ColumnValues::Binary(empty_strings(num_rows)),
        DataType::Decimal128(_, _) => ColumnValues::Decimal128(filled(0i128, num_rows)),
        DataType::Timestamp(TimeUnit::Millisecond, _) => ColumnValues::TimestampMillis(filled(0i64, num_rows)),
        DataType::Timestamp(TimeUnit::Microsecond, _) => ColumnValues::TimestampMicros(filled(0i64, num_rows)),
        DataType::Timestamp(TimeUnit::Nanosecond, _) => ColumnValues::TimestampNanos(filled(0i64, num_rows)),
        DataType::LegacyTimestampNanos(_, _) => ColumnValues::LegacyTimestampNanos {
            millis: filled(0i64, num_rows),
            nanos: filled(0i32, num_rows),
            child_nulls: true_flags(num_rows),
        },
        DataType::ListOf(element, _) => ColumnValues::ListOf {
            offsets: zero_offsets(num_rows),
            values: Box::new(build_all_null_array(element, 0)),
        },
        DataType::MapOf(key, value, _) => ColumnValues::MapOf {
            offsets: zero_offsets(num_rows),
            keys: Box::new(build_all_null_array(key, 0)),
            values: Box::new(build_all_null_array(value, 0)),
        },
    };
    let col = Column { values, nulls };
    assert(rows_of(*dt, col) =~= Seq::new(num_rows as nat, |i: int| Row::Null));
    col
}

/// Reads all rows of a stored column.
fn read_stored_column(
    col_type: &DataType,
    encoding: u8,
    has_nulls: bool,
    null_bitmap: &[u8],
    const_value: &Value,
    dict_values: &[Value],
    dict_bit_width: usize,
    data: &[u8],
    data_cursor: usize,
    num_rows: usize,
    Ghost(view): Ghost<EncodedColumnView>,
) -> (result: Result<Column, Error>)
    requires
        view == (EncodedColumnView {
            dt: *col_type,
            encoding,
            has_nulls,
            null_bitmap: null_bitmap@,
            const_value: const_value@,
            dict: value_views(dict_values@),
            bit_width: dict_bit_width as nat,
            data: data@,
            cursor: data_cursor as int,
            rows: num_rows as nat,
        }),
        view.readable(),
    ensures
        match view.rows_result() {
            Ok(rows) => result matches Ok(col) && consistent(col) && leaf_matches(*col_type, col.values) && rows_of(*col_type, col)
                == rows,
            Err(e) => result == Err::<Column, Error>(e),
        },
{
    let ghost nulls = view.nulls();
    if encoding == ENCODING_ALL_NULL {
        let col: Column = build_all_null_array(col_type, num_rows);
        proof {
            view.lemma_all_null(num_rows as nat);
            assert(rows_of(*col_type, col) =~= view.rows_result()->Ok_0);
        }
        return Ok(col);
    }
    if num_rows > usize::MAX / 8 {
        return Err(Error::TooManyRows);
    }
    proof {
        assert(nulls =~= null_rows(has_nulls, null_bitmap@, num_rows as nat));
        assert forall|i: int| 0 <= i < dict_values@.len() implies is_short((#[trigger] dict_values@[i])@) by {
            assert(is_short(view.dict[i]));
        }
    }
    let variant: DataVariant = data_variant_for_type(col_type);
    let aligned: bool = encoding == ENCODING_CONST && const_values_are_row_aligned(variant);
    let validity: Option<Vec<u8>> = if has_nulls {
        Some(invert_bitmap(null_bitmap))
    } else {
        None
    };
    proof {
        assert(invalid_rows(validity, num_rows as nat) =~= nulls) by {
            assert forall|r: int| 0 <= r < num_rows implies #[trigger] invalid_rows(validity, num_rows as nat)[r] == nulls[r] by {
                if has_nulls {
                    assert(stream_bit(validity->0@, r) == !stream_bit(null_bitmap@, r));
                }
            }
        }
    }
    let raw_result: Result<RawColumnData, Error> = if encoding == ENCODING_CONST {
        read_all_const(const_value, num_rows, has_nulls, null_bitmap, variant, None)
    } else if encoding == ENCODING_DICT {
        read_all_dict(data, data_cursor, dict_values, dict_bit_width, num_rows, has_nulls, null_bitmap, variant)
    } else {
        read_all_plain(data, data_cursor, col_type, num_rows, has_nulls, null_bitmap, variant)
    };
    let raw: RawColumnData = match raw_result {
        Ok(raw) => raw,
        Err(e) => {
            return Err(e);
        },
    };
    proof {
        assert forall|r: int| 0 <= r < view.rows && !nulls[r] implies raw.item(#[trigger] slot_of(raw.variant(), aligned, nulls, r))
            == as_raw(raw.variant(), view.stored(rank_of(nulls, r))) by {
            lemma_rank_bound(nulls, r);
            assert(slot_of(variant, false, nulls, r) == slot_of(variant, false, nulls, r));
            if encoding == ENCODING_CONST {
                if variant is Binary {
                    assert(raw.item(rank_of(nulls, r)) == as_raw(variant, const_value@));
                } else {
                    assert(raw.item(r) == crate::raw_column::const_item(
                        const_value@,
                        has_nulls,
                        null_bitmap@,
                        num_rows as nat,
                        variant,
                        None,
                        r,
                    ));
                }
            }
        }
        view.lemma_rows_error(raw, aligned, num_rows as nat);
    }
    match build_array(raw, col_type, validity, num_rows, aligned) {
        Err(e) => Err(e),
        Ok(col) => {
            proof {
                let rows = view.rows_result()->Ok_0;
                assert forall|r: int| 0 <= r < num_rows implies #[trigger] rows_of(*col_type, col)[r] == rows[r] by {
                    if !nulls[r] {
                        let k = slot_of(raw.variant(), aligned, nulls, r);
                    }
                }
                assert(rows_of(*col_type, col) =~= rows);
            }
            Ok(col)
        },
    }
}

// ---------------------------------------------------------------- parts

/// Where a column is stored: with others in a bucket, or in a page of its own.
#[derive(Clone, Copy, Debug, PartialEq, Eq, Structural)]
pub enum Source {
    Bucket,
    Page,
}

impl Source {
    /// How it is told that the data end too early.
    pub open spec fn spec_truncated(self, part: PagePart) -> Error {
        match self {
            Source::Bucket => Error::BucketTruncated,
            Source::Page => Error::PageTruncated { part },
        }
    }

    fn truncated(self, part: PagePart) -> (error: Error)
        ensures
            error == self.spec_truncated(part),
    {
        match self {
            Source::Bucket => Error::BucketTruncated,
            Source::Page => Error::PageTruncated { part },
        }
    }
}

/// The `n` values from `pos` on, and the position behind them.
pub open spec fn entries_at(dt: DataType, data: Seq<u8>, pos: int, n: nat, source: Source) -> Result<(Seq<ValueView>, int), Error>
    decreases n,
{
    if n == 0 {
        Ok((Seq::empty(), pos))
    } else {
        match entries_at(dt, data, pos, (n - 1) as nat, source) {
            Err(e) => Err(e),
            Ok((values, p)) => match value_size(dt, data, p, source.spec_truncated(PagePart::Value)) {
                Err(e) => Err(e),
                Ok(size) => Ok((values.push(decoded_value(dt, data.subrange(p, p + size))), p + size)),
            },
        }
    }
}

/// A dictionary from `pos` on, and the position behind it.
pub open spec fn dict_at(dt: DataType, data: Seq<u8>, pos: int, source: Source) -> Result<(Seq<ValueView>, int), Error> {
    match varint_at(data, pos) {
        Err(e) => Err(e),
        Ok((n, p)) => entries_at(dt, data, p, n, source),
    }
}

/// The null bitmap of `rows` rows from `pos` on.
pub open spec fn bitmap_at(data: Seq<u8>, pos: int, rows: nat, source: Source) -> Result<Seq<u8>, Error> {
    if pos + bytes_for(rows as int) > data.len() {
        Err(source.spec_truncated(PagePart::NullBitmap))
    } else {
        Ok(data.subrange(pos, pos + bytes_for(rows as int)))
    }
}

/// The position behind `n` values of variable length.
pub open spec fn scan_at(data: Seq<u8>, pos: int, n: nat, source: Source) -> Result<int, Error>
    decreases n,
{
    if n == 0 {
        Ok(pos)
    } else {
        match scan_at(data, pos, (n - 1) as nat, source) {
            Err(e) => Err(e),
            Ok(p) => match varint_at(data, p) {
                Err(e) => Err(e),
                Ok((len, q)) => if q + len > data.len() {
                    Err(source.spec_truncated(PagePart::VariableValues))
                } else {
                    Ok(q + len)
                },
            },
        }
    }
}

impl EncodedColumnView {
    /// The position behind the values of the column.
    pub open spec fn data_end(self, source: Source) -> Result<int, Error> {
        let count = count_valid(self.nulls()) as int;
        if self.encoding == ENCODING_PLAIN {
            if width_of(self.dt) > 0 {
                if self.cursor + count * width_of(self.dt) > self.data.len() {
                    Err(source.spec_truncated(PagePart::FixedValues))
                } else {
                    Ok(self.cursor + count * width_of(self.dt))
                }
            } else {
                scan_at(self.data, self.cursor, count as nat, source)
            }
        } else if self.encoding == ENCODING_DICT {
            if count * self.bit_width > usize::MAX || self.cursor + bytes_for(count * self.bit_width) > self.data.len() {
                Err(source.spec_truncated(PagePart::DictIndexes))
            } else {
                Ok(self.cursor + bytes_for(count * self.bit_width))
            }
        } else {
            Ok(self.cursor)
        }
    }

    /// Where the values of a column end within the data, they can be read.
    proof fn lemma_data_end(self, source: Source)
        requires
            self.wf(),
            self.cursor <= self.data.len(),
            self.data_end(source) is Ok,
            self.data.len() <= usize::MAX,
        ensures
            self.encoding == ENCODING_PLAIN ==> plain_ok(self.dt, self.data, self.cursor, count_valid(self.nulls()) as int),
            self.cursor <= self.data_end(source)->Ok_0 <= self.data.len(),
    {
        let count = count_valid(self.nulls()) as int;
        if self.encoding == ENCODING_PLAIN {
            if width_of(self.dt) > 0 {
                let w = width_of(self.dt);
                assert(count * w >= 0) by (nonlinear_arith)
                    requires
                        count >= 0,
                        w > 0,
                ;
                assert forall|k: int| 0 <= k < count implies value_size(
                    self.dt,
                    self.data,
                    #[trigger] plain_pos(self.dt, self.data, self.cursor, k as nat),
                    Error::TruncatedColumnData,
                ) is Ok by {
                    lemma_fixed_pos(self.dt, self.data, self.cursor, count as nat, k as nat);
                    assert((k + 1) * w <= count * w) by (nonlinear_arith)
                        requires
                            k + 1 <= count,
                            w > 0,
                    ;
                    assert((k + 1) * w == k * w + w) by (nonlinear_arith);
                }
            } else {
                lemma_scan(self.dt, self.data, self.cursor, count as nat, source);
                assert forall|k: int| 0 <= k < count implies value_size(
                    self.dt,
                    self.data,
                    #[trigger] plain_pos(self.dt, self.data, self.cursor, k as nat),
                    Error::TruncatedColumnData,
                ) is Ok by {
                    lemma_scan_prefix(self.data, self.cursor, k as nat, count as nat, source);
                    lemma_scan_prefix(self.data, self.cursor, (k + 1) as nat, count as nat, source);
                    lemma_scan(self.dt, self.data, self.cursor, k as nat, source);
                }
            }
        } else if self.encoding == ENCODING_DICT {
            let w = self.bit_width as int;
            assert(count * w >= 0) by (nonlinear_arith)
                requires
                    count >= 0,
                    w >= 0,
            ;
        }
    }
}

/// Values of a fixed length stand at multiples of it.
pub proof fn lemma_fixed_pos(dt: DataType, data: Seq<u8>, start: int, count: nat, k: nat)
    requires
        width_of(dt) > 0,
        0 <= start,
        start + count * width_of(dt) <= data.len(),
        k <= count,
    ensures
        plain_pos(dt, data, start, k) == start + k * width_of(dt),
    decreases k,
{
    let w = width_of(dt);
    if k > 0 {
        lemma_fixed_pos(dt, data, start, count, (k - 1) as nat);
        assert(k * w <= count * w) by (nonlinear_arith)
            requires
                k <= count,
                w > 0,
        ;
        assert(k * w == (k - 1) * w + w) by (nonlinear_arith);
    } else {
        assert(0 * w == 0) by (nonlinear_arith);
    }
}

proof fn lemma_scan_prefix(data: Seq<u8>, pos: int, n: nat, m: nat, source: Source)
    requires
        n <= m,
        scan_at(data, pos, m, source) is Ok,
    ensures
        scan_at(data, pos, n, source) is Ok,
    decreases m,
{
    if n < m {
        lemma_scan_prefix(data, pos, n, (m - 1) as nat, source);
    }
}

proof fn lemma_scan(dt: DataType, data: Seq<u8>, pos: int, n: nat, source: Source)
    requires
        width_of(dt) <= 0,
        0 <= pos <= data.len(),
        scan_at(data, pos, n, source) is Ok,
    ensures
        plain_pos(dt, data, pos, n) == scan_at(data, pos, n, source)->Ok_0,
        pos <= scan_at(data, pos, n, source)->Ok_0 <= data.len(),
    decreases n,
{
    if n > 0 {
        lemma_scan(dt, data, pos, (n - 1) as nat, source);
        let p = scan_at(data, pos, (n - 1) as nat, source)->Ok_0;
        lemma_varint_bounds(data, p);
    }
}

proof fn lemma_entries(dt: DataType, data: Seq<u8>, pos: int, n: nat, source: Source)
    requires
        0 <= pos <= data.len(),
        entries_at(dt, data, pos, n, source) is Ok,
    ensures
        ({
            let (values, p) = entries_at(dt, data, pos, n, source)->Ok_0;
            &&& values.len() == n
            &&& pos <= p <= data.len()
            &&& forall|i: int| 0 <= i < n ==> is_short(#[trigger] values[i])
        }),
    decreases n,
{
    if n > 0 {
        lemma_entries(dt, data, pos, (n - 1) as nat, source);
        let (values, p) = entries_at(dt, data, pos, (n - 1) as nat, source)->Ok_0;
        let short = source.spec_truncated(PagePart::Value);
        lemma_value_size(dt, data, p, short);
        let size = value_size(dt, data, p, short)->Ok_0;
        lemma_decoded_short(dt, data.subrange(p, p + size));
    }
}

proof fn lemma_entries_error(dt: DataType, data: Seq<u8>, pos: int, n: nat, m: nat, source: Source)
    requires
        n <= m,
        entries_at(dt, data, pos, n, source) is Err,
    ensures
        entries_at(dt, data, pos, m, source) == entries_at(dt, data, pos, n, source),
    decreases m,
{
    if n < m {
        lemma_entries_error(dt, data, pos, n, (m - 1) as nat, source);
    }
}

proof fn lemma_scan_error(data: Seq<u8>, pos: int, n: nat, m: nat, source: Source)
    requires
        n <= m,
        scan_at(data, pos, n, source) is Err,
    ensures
        scan_at(data, pos, m, source) == scan_at(data, pos, n, source),
    decreases m,
{
    if n < m {
        lemma_scan_error(data, pos, n, (m - 1) as nat, source);
    }
}

/// Reads a dictionary.
fn read_dict(dt: &DataType, data: &[u8], pos: usize, source: Source) -> (result: Result<(Vec<Value>, usize), Error>)
    requires
        pos <= data.len(),
    ensures
        match dict_at(*dt, data@, pos as int, source) {
            Ok((values, end)) => result matches Ok((out, p)) && value_views(out@) == values && p == end && pos <= end <= data.len()
                && out@.len() <= u32::MAX && short_values(out@),
            Err(e) => result matches Err(x) && x == e,
        },
{
    let mut p: usize = pos;
    let count: u32 = match varint::decode(data, &mut p) {
        Ok(n) => n,
        Err(e) => {
            return Err(e);
        },
    };
    let ghost start = p as int;
    proof {
        lemma_varint_bounds(data@, pos as int);
    }
    let mut values: Vec<Value> = Vec::new();
    let mut i: u32 = 0;
    assert(value_views(values@) =~= Seq::empty());
    while i < count
        invariant
            i <= count,
            pos <= start <= p <= data.len(),
            values@.len() == i,
            dict_at(*dt, data@, pos as int, source) == entries_at(*dt, data@, start, count as nat, source),
            entries_at(*dt, data@, start, i as nat, source) == Ok::<(Seq<ValueView>, int), Error>((value_views(values@), p as int)),
        decreases count - i,
    {
        match read_value(dt, data, p, source.truncated(PagePart::Value)) {
            Err(e) => {
                proof {
                    lemma_entries_error(*dt, data@, start, (i + 1) as nat, count as nat, source);
                }
                return Err(e);
            },
            Ok((value, size)) => {
                let ghost before = value_views(values@);
                proof {
                    lemma_value_size(*dt, data@, p as int, source.spec_truncated(PagePart::Value));
                }
                values.push(value);
                p = p + size;
                assert(value_views(values@) =~= before.push(value@));
            },
        }
        i += 1;
    }
    proof {
        lemma_entries(*dt, data@, start, count as nat, source);
        assert forall|k: int| 0 <= k < values@.len() implies is_short((#[trigger] values@[k])@) by {
            assert(is_short(value_views(values@)[k]));
        }
    }
    Ok((values, p))
}

/// Reads a null bitmap.
fn read_bitmap(data: &[u8], pos: usize, rows: usize, source: Source) -> (result: Result<Vec<u8>, Error>)
    requires
        pos <= data.len(),
    ensures
        match bitmap_at(data@, pos as int, rows as nat, source) {
            Ok(bytes) => result matches Ok(out) && out@ == bytes && out@.len() == bytes_for(rows as int) && pos + out@.len()
                <= data.len(),
            Err(e) => result matches Err(x) && x == e,
        },
{
    let len: usize = byte_count(rows);
    if len > data.len() - pos {
        return Err(source.truncated(PagePart::NullBitmap));
    }
    Ok(slice_to_vec(slice_subrange(data, pos, pos + len)))
}

/// The number of rows that are not null.
fn valid_count(encoding: u8, has_nulls: bool, bitmap: &[u8], rows: usize, Ghost(view): Ghost<EncodedColumnView>) -> (count: usize)
    requires
        view.encoding == encoding,
        encoding != ENCODING_ALL_NULL,
        view.has_nulls == has_nulls,
        view.null_bitmap == bitmap@,
        view.rows == rows,
        view.wf(),
    ensures
        count == count_valid(view.nulls()),
        count <= rows,
{
    proof {
        assert(view.nulls() =~= null_rows(has_nulls, bitmap@, rows as nat));
    }
    if has_nulls {
        count_non_null(bitmap, rows)
    } else {
        proof {
            crate::raw_column::lemma_all_valid(view.nulls());
        }
        rows
    }
}

/// Finds where the values of a column end.
fn find_data_end(
    dt: &DataType,
    encoding: u8,
    bit_width: usize,
    count: usize,
    data: &[u8],
    cursor: usize,
    source: Source,
    Ghost(view): Ghost<EncodedColumnView>,
) -> (result: Result<usize, Error>)
    requires
        view.dt == *dt,
        view.encoding == encoding,
        view.bit_width == bit_width,
        encoding == ENCODING_PLAIN || encoding == ENCODING_DICT ==> count == count_valid(view.nulls()),
        view.data == data@,
        view.cursor == cursor,
        view.wf(),
        cursor <= data.len(),
    ensures
        match view.data_end(source) {
            Ok(end) => result matches Ok(p) && p == end && cursor <= p <= data.len() && (encoding == ENCODING_PLAIN ==> plain_ok(
                view.dt,
                view.data,
                view.cursor,
                count as int,
            )) && (encoding == ENCODING_DICT ==> count * bit_width <= usize::MAX),
            Err(e) => result matches Err(x) && x == e,
        },
{
    let ghost total = count as int;
    if encoding == ENCODING_PLAIN {
        let width: i32 = fixed_width(dt);
        if width > 0 {
            proof {
                assert(total * width >= 0) by (nonlinear_arith)
                    requires
                        total >= 0,
                        width > 0,
                ;
            }
            match count.checked_mul(width as usize) {
                Some(size) => {
                    if size > data.len() - cursor {
                        return Err(source.truncated(PagePart::FixedValues));
                    }
                    proof {
                        view.lemma_data_end(source);
                    }
                    Ok(cursor + size)
                },
                None => Err(source.truncated(PagePart::FixedValues)),
            }
        } else {
            let mut p: usize = cursor;
            let mut i: usize = 0;
            while i < count
                invariant
                    i <= count,
                    cursor <= p <= data.len(),
                    view.data == data@,
                    view.cursor == cursor,
                    scan_at(data@, cursor as int, i as nat, source) == Ok::<int, Error>(p as int),
                    view.data_end(source) == scan_at(data@, cursor as int, count as nat, source),
                decreases count - i,
            {
                let ghost before = p as int;
                proof {
                    lemma_varint_bounds(data@, p as int);
                }
                match varint::decode(data, &mut p) {
                    Err(e) => {
                        proof {
                            lemma_scan_error(data@, cursor as int, (i + 1) as nat, count as nat, source);
                        }
                        return Err(e);
                    },
                    Ok(len) => {
                        if len as usize > data.len() - p {
                            proof {
                                lemma_scan_error(data@, cursor as int, (i + 1) as nat, count as nat, source);
                            }
                            return Err(source.truncated(PagePart::VariableValues));
                        }
                        p = p + len as usize;
                    },
                }
                i += 1;
            }
            proof {
                view.lemma_data_end(source);
            }
            Ok(p)
        }
    } else if encoding == ENCODING_DICT {
        proof {
            assert(total * bit_width >= 0) by (nonlinear_arith)
                requires
                    total >= 0,
                    bit_width >= 0,
            ;
        }
        match count.checked_mul(bit_width) {
            Some(bits) => {
                let size: usize = byte_count(bits);
                if size > data.len() - cursor {
                    return Err(source.truncated(PagePart::DictIndexes));
                }
                Ok(cursor + size)
            },
            None => Err(source.truncated(PagePart::DictIndexes)),
        }
    } else {
        Ok(cursor)
    }
}

// ---------------------------------------------------------------- stored columns

/// A stored column, without the data that hold its values.
pub struct StoredColumn {
    data_type: DataType,
    encoding: u8,
    has_nulls: bool,
    null_bitmap: Vec<u8>,
    const_value: Value,
    dict_values: Vec<Value>,
    dict_bit_width: usize,
    data_cursor: usize,
    num_rows: usize,
}

impl StoredColumn {
    /// The column with the data that hold its values.
    pub closed spec fn view_in(self, data: Seq<u8>) -> EncodedColumnView {
        EncodedColumnView {
            dt: self.data_type,
            encoding: self.encoding,
            has_nulls: self.has_nulls,
            null_bitmap: self.null_bitmap@,
            const_value: self.const_value@,
            dict: value_views(self.dict_values@),
            bit_width: self.dict_bit_width as nat,
            data,
            cursor: self.data_cursor as int,
            rows: self.num_rows as nat,
        }
    }

    fn encoded<'a>(&'a self, data: &'a [u8]) -> (column: EncodedColumn<'a>)
        requires
            self.view_in(data@).wf(),
        ensures
            column@ == self.view_in(data@),
    {
        EncodedColumn::new(
            &self.data_type,
            self.encoding,
            self.has_nulls,
            self.null_bitmap.as_slice(),
            &self.const_value,
            self.dict_values.as_slice(),
            self.dict_bit_width,
            data,
            self.data_cursor,
            self.num_rows,
        )
    }

    fn read_all(&self, data: &[u8]) -> (result: Result<Column, Error>)
        requires
            self.view_in(data@).readable(),
        ensures
            match self.view_in(data@).rows_result() {
                Ok(rows) => result matches Ok(col) && consistent(col) && leaf_matches(self.view_in(data@).dt, col.values) && rows_of(
                    self.view_in(data@).dt,
                    col,
                ) == rows,
                Err(e) => result == Err::<Column, Error>(e),
            },
    {
        read_stored_column(
            &self.data_type,
            self.encoding,
            self.has_nulls,
            self.null_bitmap.as_slice(),
            &self.const_value,
            self.dict_values.as_slice(),
            self.dict_bit_width,
            data,
            self.data_cursor,
            self.num_rows,
            Ghost(self.view_in(data@)),
        )
    }
}

// ---------------------------------------------------------------- pages

/// A column in a page of its own; the dictionary, if there is one, the null bitmap, if there are
/// nulls, and the values stand in the data from `start` on.
pub open spec fn page_column(
    dt: DataType,
    encoding: u8,
    has_nulls: bool,
    const_value: ValueView,
    data: Seq<u8>,
    start: int,
    rows: nat,
) -> Result<EncodedColumnView, Error> {
    if encoding != ENCODING_PLAIN && encoding != ENCODING_CONST && encoding != ENCODING_DICT && encoding != ENCODING_ALL_NULL {
        Err(Error::UnsupportedPageEncoding { code: encoding })
    } else if start > data.len() {
        Err(Error::PageStartOutOfBounds)
    } else {
        match if encoding == ENCODING_DICT {
            dict_at(dt, data, start, Source::Page)
        } else {
            Ok((Seq::empty(), start))
        } {
            Err(e) => Err(e),
            Ok((dict, pos)) => match if has_nulls && encoding != ENCODING_ALL_NULL {
                bitmap_at(data, pos, rows, Source::Page)
            } else {
                Ok(Seq::empty())
            } {
                Err(e) => Err(e),
                Ok(null_bitmap) => {
                    let column = EncodedColumnView {
                        dt,
                        encoding,
                        has_nulls,
                        null_bitmap,
                        const_value,
                        dict,
                        bit_width: index_width(dict.len()),
                        data,
                        cursor: if encoding == ENCODING_PLAIN || encoding == ENCODING_DICT {
                            pos + null_bitmap.len()
                        } else {
                            start
                        },
                        rows,
                    };
                    match column.data_end(Source::Page) {
                        Err(e) => Err(e),
                        Ok(_) => Ok(column),
                    }
                },
            },
        }
    }
}

/// A column in a page of its own.
pub struct ColumnPageReader {
    column: StoredColumn,
    data: Vec<u8>,
}

impl View for ColumnPageReader {
    type V = EncodedColumnView;

    closed spec fn view(&self) -> EncodedColumnView {
        self.column.view_in(self.data@)
    }
}

impl ColumnPageReader {
    pub fn new(col_type: DataType, encoding: u8, has_nulls: bool, const_value: Value, page_data: Vec<u8>, num_rows: usize) -> (result:
        Result<Self, Error>)
        requires
            !is_container_type(col_type),
            is_short(const_value@),
        ensures
            match page_column(col_type, encoding, has_nulls, const_value@, page_data@, 0, num_rows as nat) {
                Ok(column) => result matches Ok(reader) && reader@ == column && column.readable(),
                Err(e) => result matches Err(x) && x == e,
            },
    {
        Self::new_with_page_data_start(col_type, encoding, has_nulls, const_value, page_data, 0, num_rows)
    }

    pub fn new_with_page_data_start(
        col_type: DataType,
        encoding: u8,
        has_nulls: bool,
        const_value: Value,
        data: Vec<u8>,
        page_data_start: usize,
        num_rows: usize,
    ) -> (result: Result<Self, Error>)
        requires
            !is_container_type(col_type),
            is_short(const_value@),
        ensures
            match page_column(col_type, encoding, has_nulls, const_value@, data@, page_data_start as int, num_rows as nat) {
                Ok(column) => result matches Ok(reader) && reader@ == column && column.readable(),
                Err(e) => result matches Err(x) && x == e,
            },
    {
        if encoding != ENCODING_PLAIN && encoding != ENCODING_CONST && encoding != ENCODING_DICT && encoding != ENCODING_ALL_NULL {
            return Err(Error::UnsupportedPageEncoding { code: encoding });
        }
        if page_data_start > data.len() {
            return Err(Error::PageStartOutOfBounds);
        }
        let mut pos: usize = page_data_start;
        let mut dict_values: Vec<Value> = Vec::new();
        assert(value_views(dict_values@) =~= Seq::empty());
        if encoding == ENCODING_DICT {
            match read_dict(&col_type, data.as_slice(), pos, Source::Page) {
                Err(e) => {
                    return Err(e);
                },
                Ok((values, end)) => {
                    dict_values = values;
                    pos = end;
                },
            }
        }
        let mut null_bitmap: Vec<u8> = Vec::new();
        if has_nulls && encoding != ENCODING_ALL_NULL {
            match read_bitmap(data.as_slice(), pos, num_rows, Source::Page) {
                Err(e) => {
                    return Err(e);
                },
                Ok(bitmap) => {
                    null_bitmap = bitmap;
                },
            }
        }
        assert(null_bitmap@ =~= if has_nulls && encoding != ENCODING_ALL_NULL {
            data@.subrange(pos as int, pos + bytes_for(num_rows as int))
        } else {
            Seq::empty()
        });
        let dict_bit_width: usize = bit_width(dict_values.len());
        let data_cursor: usize = if encoding == ENCODING_PLAIN || encoding == ENCODING_DICT {
            pos + null_bitmap.len()
        } else {
            page_data_start
        };
        let column = StoredColumn {
            data_type: col_type,
            encoding,
            has_nulls,
            null_bitmap,
            const_value,
            dict_values,
            dict_bit_width,
            data_cursor,
            num_rows,
        };
        let ghost view = column.view_in(data@);
        proof {
            vstd::arithmetic::power2::lemma2_to64();
            lemma_index_width_bound(dict_values@.len(), 32);
        }
        let count: usize = if encoding == ENCODING_ALL_NULL {
            0
        } else {
            valid_count(encoding, has_nulls, column.null_bitmap.as_slice(), num_rows, Ghost(view))
        };
        match find_data_end(
            &column.data_type,
            encoding,
            dict_bit_width,
            count,
            data.as_slice(),
            data_cursor,
            Source::Page,
            Ghost(view),
        ) {
            Err(e) => Err(e),
            Ok(_) => {
                proof {
                    assert forall|i: int| 0 <= i < view.dict.len() implies is_short(#[trigger] view.dict[i]) by {
                        assert(is_short(dict_values@[i]@));
                    }
                }
                Ok(ColumnPageReader { column, data })
            },
        }
    }

    /// The column as it is stored.
    pub fn encoded_column(&self) -> (column: EncodedColumn<'_>)
        requires
            self@.wf(),
        ensures
            column@ == self@,
    {
        self.column.encoded(self.data.as_slice())
    }

    /// The code of the encoding.
    pub fn encoding(&self) -> (code: u8)
        ensures
            code == self@.encoding,
    {
        self.column.encoding
    }

    /// The entries of the dictionary; none for other encodings.
    pub fn dict_values(&self) -> (values: &[Value])
        ensures
            value_views(values@) == self@.dict,
    {
        self.column.dict_values.as_slice()
    }

    /// All rows of the column.
    pub fn read_all(&self) -> (result: Result<Column, Error>)
        requires
            self@.readable(),
        ensures
            match self@.rows_result() {
                Ok(rows) => result matches Ok(col) && consistent(col) && leaf_matches(self@.dt, col.values) && rows_of(self@.dt, col)
                    == rows,
                Err(e) => result == Err::<Column, Error>(e),
            },
    {
        self.column.read_all(self.data.as_slice())
    }
}

// ---------------------------------------------------------------- buckets

/// The `n` numbers from `pos` on, and the position behind them.
pub open spec fn counts_at(data: Seq<u8>, pos: int, n: nat) -> Result<(Seq<nat>, int), Error>
    decreases n,
{
    if n == 0 {
        Ok((Seq::empty(), pos))
    } else {
        match counts_at(data, pos, (n - 1) as nat) {
            Err(e) => Err(e),
            Ok((counts, p)) => match varint_at(data, p) {
                Err(e) => Err(e),
                Ok((count, q)) => Ok((counts.push(count), q)),
            },
        }
    }
}

/// The numbers of cells of the child columns, if there are child columns.
pub open spec fn header_at(data: Seq<u8>, has_children: bool) -> Result<(Seq<nat>, int), Error> {
    if !has_children {
        Ok((Seq::empty(), 0))
    } else {
        match varint_at(data, 0) {
            Err(e) => Err(e),
            Ok((_, p)) => match varint_at(data, p) {
                Err(e) => Err(e),
                Ok((n, q)) => counts_at(data, q, n),
            },
        }
    }
}

/// The number of rows of physical column `j`.
pub open spec fn rows_in(j: int, num_primary: int, num_rows: nat, counts: Seq<nat>) -> nat {
    if j < num_primary {
        num_rows
    } else if j - num_primary < counts.len() {
        counts[j - num_primary]
    } else {
        0
    }
}

/// The code of the encoding of physical column `j`.
pub open spec fn encoding_at(data: Seq<u8>, pos: int, j: int) -> u8 {
    unpacked(data, 8 * pos + 2 * j, 2) as u8
}

/// The codes of the encodings of `n` physical columns.
pub open spec fn codes_at(data: Seq<u8>, pos: int, n: nat) -> Seq<u8> {
    Seq::new(n, |j: int| encoding_at(data, pos, j))
}

/// The flags of `n` physical columns that tell which have nulls.
pub open spec fn flags_at(data: Seq<u8>, pos: int, n: nat) -> Seq<bool> {
    Seq::new(n, |j: int| stream_bit(data, 8 * pos + j))
}

/// The numbers of rows of `n` physical columns.
pub open spec fn all_rows_in(n: nat, num_primary: int, num_rows: nat, counts: Seq<nat>) -> Seq<nat> {
    Seq::new(n, |j: int| rows_in(j, num_primary, num_rows, counts))
}

/// The constants of the first `n` columns, and the position behind them.
pub open spec fn consts_at(types: Seq<DataType>, codes: Seq<u8>, data: Seq<u8>, pos: int, n: nat) -> Result<
    (Seq<ValueView>, int),
    Error,
>
    decreases n,
{
    if n == 0 {
        Ok((Seq::empty(), pos))
    } else {
        match consts_at(types, codes, data, pos, (n - 1) as nat) {
            Err(e) => Err(e),
            Ok((values, p)) => if codes[n - 1] == ENCODING_CONST {
                match value_size(types[n - 1], data, p, Error::BucketTruncated) {
                    Err(e) => Err(e),
                    Ok(size) => Ok((values.push(decoded_value(types[n - 1], data.subrange(p, p + size))), p + size)),
                }
            } else {
                Ok((values.push(ValueView::Null), p))
            },
        }
    }
}

/// The dictionaries of the first `n` columns, and the position behind them.
pub open spec fn dicts_at(types: Seq<DataType>, codes: Seq<u8>, data: Seq<u8>, pos: int, n: nat) -> Result<
    (Seq<Seq<ValueView>>, int),
    Error,
>
    decreases n,
{
    if n == 0 {
        Ok((Seq::empty(), pos))
    } else {
        match dicts_at(types, codes, data, pos, (n - 1) as nat) {
            Err(e) => Err(e),
            Ok((dicts, p)) => if codes[n - 1] == ENCODING_DICT {
                match dict_at(types[n - 1], data, p, Source::Bucket) {
                    Err(e) => Err(e),
                    Ok((dict, q)) => Ok((dicts.push(dict), q)),
                }
            } else {
                Ok((dicts.push(Seq::empty()), p))
            },
        }
    }
}

/// The null bitmaps of the first `n` columns, and the position behind them.
pub open spec fn bitmaps_at(codes: Seq<u8>, nulls: Seq<bool>, rows: Seq<nat>, data: Seq<u8>, pos: int, n: nat) -> Result<
    (Seq<Seq<u8>>, int),
    Error,
>
    decreases n,
{
    if n == 0 {
        Ok((Seq::empty(), pos))
    } else {
        match bitmaps_at(codes, nulls, rows, data, pos, (n - 1) as nat) {
            Err(e) => Err(e),
            Ok((bitmaps, p)) => if nulls[n - 1] && codes[n - 1] != ENCODING_ALL_NULL {
                match bitmap_at(data, p, rows[n - 1], Source::Bucket) {
                    Err(e) => Err(e),
                    Ok(bitmap) => Ok((bitmaps.push(bitmap), p + bitmap.len())),
                }
            } else {
                Ok((bitmaps.push(Seq::empty()), p))
            },
        }
    }
}

/// The first `n` columns with the places of their values, which stand one after another, and the
/// position behind them.
pub open spec fn placed_at(columns: Seq<EncodedColumnView>, pos: int, n: nat) -> Result<(Seq<EncodedColumnView>, int), Error>
    decreases n,
{
    if n == 0 {
        Ok((Seq::empty(), pos))
    } else {
        match placed_at(columns, pos, (n - 1) as nat) {
            Err(e) => Err(e),
            Ok((placed, p)) => {
                let column = EncodedColumnView { cursor: p, ..columns[n - 1] };
                match column.data_end(Source::Bucket) {
                    Err(e) => Err(e),
                    Ok(q) => Ok((placed.push(column), q)),
                }
            },
        }
    }
}

/// Physical column `j` before the place of its values is known.
pub open spec fn unplaced(
    types: Seq<DataType>,
    codes: Seq<u8>,
    nulls: Seq<bool>,
    rows: Seq<nat>,
    consts: Seq<ValueView>,
    dicts: Seq<Seq<ValueView>>,
    bitmaps: Seq<Seq<u8>>,
    data: Seq<u8>,
    j: int,
) -> EncodedColumnView {
    EncodedColumnView {
        dt: types[j],
        encoding: codes[j],
        has_nulls: nulls[j],
        null_bitmap: bitmaps[j],
        const_value: consts[j],
        dict: dicts[j],
        bit_width: index_width(dicts[j].len()),
        data,
        cursor: 0,
        rows: rows[j],
    }
}

pub open spec fn all_unplaced(
    types: Seq<DataType>,
    codes: Seq<u8>,
    nulls: Seq<bool>,
    rows: Seq<nat>,
    consts: Seq<ValueView>,
    dicts: Seq<Seq<ValueView>>,
    bitmaps: Seq<Seq<u8>>,
    data: Seq<u8>,
) -> Seq<EncodedColumnView> {
    Seq::new(types.len(), |j: int| unplaced(types, codes, nulls, rows, consts, dicts, bitmaps, data, j))
}

/// A bucket without rows or data: every column is plain and empty.
pub open spec fn blank_column(types: Seq<DataType>, num_primary: int, data: Seq<u8>, num_rows: nat, j: int) -> EncodedColumnView {
    EncodedColumnView {
        dt: types[j],
        encoding: ENCODING_PLAIN,
        has_nulls: false,
        null_bitmap: Seq::empty(),
        const_value: ValueView::Null,
        dict: Seq::empty(),
        bit_width: 0,
        data,
        cursor: 0,
        rows: rows_in(j, num_primary, num_rows, Seq::empty()),
    }
}

/// The physical columns of a bucket; `types` are theirs, and the first `num_primary` are those of
/// the logical columns.
pub open spec fn bucket_columns(types: Seq<DataType>, num_primary: int, data: Seq<u8>, num_rows: nat) -> Result<
    Seq<EncodedColumnView>,
    Error,
> {
    let total = types.len();
    if num_rows == 0 || data.len() == 0 {
        Ok(Seq::new(total, |j: int| blank_column(types, num_primary, data, num_rows, j)))
    } else {
        match header_at(data, total > num_primary) {
            Err(e) => Err(e),
            Ok((counts, p0)) => {
                let p1 = p0 + bytes_for((2 * total) as int);
                let p2 = p1 + bytes_for(total as int);
                let codes = codes_at(data, p0, total);
                let nulls = flags_at(data, p1, total);
                let rows = all_rows_in(total, num_primary, num_rows, counts);
                if p2 > data.len() {
                    Err(Error::BucketTruncated)
                } else {
                    match consts_at(types, codes, data, p2, total) {
                        Err(e) => Err(e),
                        Ok((consts, p3)) => match dicts_at(types, codes, data, p3, total) {
                            Err(e) => Err(e),
                            Ok((dicts, p4)) => match bitmaps_at(codes, nulls, rows, data, p4, total) {
                                Err(e) => Err(e),
                                Ok((bitmaps, p5)) => match placed_at(
                                    all_unplaced(types, codes, nulls, rows, consts, dicts, bitmaps, data),
                                    p5,
                                    total,
                                ) {
                                    Err(e) => Err(e),
                                    Ok((columns, _)) => Ok(columns),
                                },
                            },
                        },
                    }
                }
            },
        }
    }
}

proof fn lemma_counts_error(data: Seq<u8>, pos: int, n: nat, m: nat)
    requires
        n <= m,
        counts_at(data, pos, n) is Err,
    ensures
        counts_at(data, pos, m) == counts_at(data, pos, n),
    decreases m,
{
    if n < m {
        lemma_counts_error(data, pos, n, (m - 1) as nat);
    }
}

proof fn lemma_consts_error(types: Seq<DataType>, codes: Seq<u8>, data: Seq<u8>, pos: int, n: nat, m: nat)
    requires
        n <= m,
        consts_at(types, codes, data, pos, n) is Err,
    ensures
        consts_at(types, codes, data, pos, m) == consts_at(types, codes, data, pos, n),
    decreases m,
{
    if n < m {
        lemma_consts_error(types, codes, data, pos, n, (m - 1) as nat);
    }
}

proof fn lemma_dicts_error(types: Seq<DataType>, codes: Seq<u8>, data: Seq<u8>, pos: int, n: nat, m: nat)
    requires
        n <= m,
        dicts_at(types, codes, data, pos, n) is Err,
    ensures
        dicts_at(types, codes, data, pos, m) == dicts_at(types, codes, data, pos, n),
    decreases m,
{
    if n < m {
        lemma_dicts_error(types, codes, data, pos, n, (m - 1) as nat);
    }
}

proof fn lemma_bitmaps_error(codes: Seq<u8>, nulls: Seq<bool>, rows: Seq<nat>, data: Seq<u8>, pos: int, n: nat, m: nat)
    requires
        n <= m,
        bitmaps_at(codes, nulls, rows, data, pos, n) is Err,
    ensures
        bitmaps_at(codes, nulls, rows, data, pos, m) == bitmaps_at(codes, nulls, rows, data, pos, n),
    decreases m,
{
    if n < m {
        lemma_bitmaps_error(codes, nulls, rows, data, pos, n, (m - 1) as nat);
    }
}

proof fn lemma_placed_error(columns: Seq<EncodedColumnView>, pos: int, n: nat, m: nat)
    requires
        n <= m,
        placed_at(columns, pos, n) is Err,
    ensures
        placed_at(columns, pos, m) == placed_at(columns, pos, n),
    decreases m,
{
    if n < m {
        lemma_placed_error(columns, pos, n, (m - 1) as nat);
    }
}

/// Reads the numbers of cells of the child columns.
fn read_header(data: &[u8], has_children: bool) -> (result: Result<(Vec<usize>, usize), Error>)
    ensures
        match header_at(data@, has_children) {
            Ok((counts, p)) => result matches Ok((out, q)) && counts_of(out@) == counts && p == q && q <= data.len(),
            Err(e) => result matches Err(x) && x == e,
        },
{
    let mut counts: Vec<usize> = Vec::new();
    let mut p: usize = 0;
    assert(counts_of(counts@) =~= Seq::empty());
    if !has_children {
        return Ok((counts, p));
    }
    proof {
        lemma_varint_bounds(data@, 0);
    }
    match varint::decode(data, &mut p) {
        Ok(_) => {},
        Err(e) => {
            return Err(e);
        },
    }
    proof {
        lemma_varint_bounds(data@, p as int);
    }
    let num_children: u32 = match varint::decode(data, &mut p) {
        Ok(n) => n,
        Err(e) => {
            return Err(e);
        },
    };
    let ghost start = p as int;
    let mut i: u32 = 0;
    while i < num_children
        invariant
            i <= num_children,
            p <= data.len(),
            header_at(data@, has_children) == counts_at(data@, start, num_children as nat),
            counts_at(data@, start, i as nat) == Ok::<(Seq<nat>, int), Error>((counts_of(counts@), p as int)),
        decreases num_children - i,
    {
        proof {
            lemma_varint_bounds(data@, p as int);
        }
        match varint::decode(data, &mut p) {
            Err(e) => {
                proof {
                    lemma_counts_error(data@, start, (i + 1) as nat, num_children as nat);
                }
                return Err(e);
            },
            Ok(count) => {
                let ghost before = counts_of(counts@);
                counts.push(count as usize);
                assert(counts_of(counts@) =~= before.push(count as nat));
            },
        }
        i += 1;
    }
    Ok((counts, p))
}

/// Reads the constants.
fn read_consts(types: &Vec<DataType>, codes: &Vec<u8>, data: &[u8], pos: usize) -> (result: Result<(Vec<Value>, usize), Error>)
    requires
        codes@.len() == types@.len(),
        pos <= data.len(),
    ensures
        match consts_at(types@, codes@, data@, pos as int, types@.len()) {
            Ok((values, p)) => result matches Ok((out, q)) && value_views(out@) == values && p == q && pos <= q <= data.len()
                && out@.len() == types@.len() && short_values(out@),
            Err(e) => result matches Err(x) && x == e,
        },
{
    let mut values: Vec<Value> = Vec::new();
    let mut p: usize = pos;
    let mut i: usize = 0;
    assert(value_views(values@) =~= Seq::empty());
    while i < types.len()
        invariant
            i <= types.len(),
            codes@.len() == types@.len(),
            pos <= p <= data.len(),
            values@.len() == i,
            short_values(values@),
            consts_at(types@, codes@, data@, pos as int, i as nat) == Ok::<(Seq<ValueView>, int), Error>(
                (value_views(values@), p as int),
            ),
        decreases types.len() - i,
    {
        let ghost before = value_views(values@);
        if codes[i] == ENCODING_CONST {
            match read_value(&types[i], data, p, Error::BucketTruncated) {
                Err(e) => {
                    proof {
                        lemma_consts_error(types@, codes@, data@, pos as int, (i + 1) as nat, types@.len());
                    }
                    return Err(e);
                },
                Ok((value, size)) => {
                    proof {
                        lemma_value_size(types@[i as int], data@, p as int, Error::BucketTruncated);
                        lemma_decoded_short(types@[i as int], data@.subrange(p as int, p + size));
                    }
                    values.push(value);
                    p = p + size;
                    assert(value_views(values@) =~= before.push(value@));
                },
            }
        } else {
            values.push(Value::Null);
            assert(value_views(values@) =~= before.push(ValueView::Null));
        }
        i += 1;
    }
    Ok((values, p))
}

pub open spec fn dict_views(dicts: Seq<Vec<Value>>) -> Seq<Seq<ValueView>> {
    Seq::new(dicts.len(), |i: int| value_views(dicts[i]@))
}

/// Reads the dictionaries.
fn read_dicts(types: &Vec<DataType>, codes: &Vec<u8>, data: &[u8], pos: usize) -> (result: Result<(Vec<Vec<Value>>, usize), Error>)
    requires
        codes@.len() == types@.len(),
        pos <= data.len(),
    ensures
        match dicts_at(types@, codes@, data@, pos as int, types@.len()) {
            Ok((dicts, p)) => result matches Ok((out, q)) && dict_views(out@) == dicts && p == q && pos <= q <= data.len()
                && out@.len() == types@.len() && forall|i: int|
                0 <= i < out@.len() ==> (#[trigger] out@[i])@.len() <= u32::MAX && short_values(out@[i]@),
            Err(e) => result matches Err(x) && x == e,
        },
{
    let mut dicts: Vec<Vec<Value>> = Vec::new();
    let mut p: usize = pos;
    let mut i: usize = 0;
    assert(dict_views(dicts@) =~= Seq::empty());
    while i < types.len()
        invariant
            i <= types.len(),
            codes@.len() == types@.len(),
            pos <= p <= data.len(),
            dicts@.len() == i,
            forall|k: int| 0 <= k < dicts@.len() ==> (#[trigger] dicts@[k])@.len() <= u32::MAX && short_values(dicts@[k]@),
            dicts_at(types@, codes@, data@, pos as int, i as nat) == Ok::<(Seq<Seq<ValueView>>, int), Error>(
                (dict_views(dicts@), p as int),
            ),
        decreases types.len() - i,
    {
        let ghost before = dict_views(dicts@);
        if codes[i] == ENCODING_DICT {
            match read_dict(&types[i], data, p, Source::Bucket) {
                Err(e) => {
                    proof {
                        lemma_dicts_error(types@, codes@, data@, pos as int, (i + 1) as nat, types@.len());
                    }
                    return Err(e);
                },
                Ok((values, end)) => {
                    let ghost added = value_views(values@);
                    dicts.push(values);
                    p = end;
                    assert(dict_views(dicts@) =~= before.push(added));
                },
            }
        } else {
            let none: Vec<Value> = Vec::new();
            assert(value_views(none@) =~= Seq::empty());
            dicts.push(none);
            assert(dict_views(dicts@) =~= before.push(Seq::empty()));
        }
        i += 1;
    }
    Ok((dicts, p))
}

/// Reads the null bitmaps.
fn read_bitmaps(codes: &Vec<u8>, nulls: &Vec<bool>, rows: &Vec<usize>, data: &[u8], pos: usize) -> (result: Result<
    (Vec<Vec<u8>>, usize),
    Error,
>)
    requires
        codes@.len() == nulls@.len(),
        rows@.len() == nulls@.len(),
        pos <= data.len(),
    ensures
        match bitmaps_at(codes@, nulls@, counts_of(rows@), data@, pos as int, codes@.len()) {
            Ok((bitmaps, p)) => result matches Ok((out, q)) && byte_views(out@) == bitmaps && p == q && pos <= q <= data.len()
                && out@.len() == codes@.len() && forall|i: int|
                0 <= i < out@.len() && nulls@[i] && codes@[i] != ENCODING_ALL_NULL ==> rows@[i] <= 8 * (#[trigger] out@[i])@.len(),
            Err(e) => result matches Err(x) && x == e,
        },
{
    let mut bitmaps: Vec<Vec<u8>> = Vec::new();
    let mut p: usize = pos;
    let mut i: usize = 0;
    assert(byte_views(bitmaps@) =~= Seq::empty());
    while i < codes.len()
        invariant
            i <= codes.len(),
            codes@.len() == nulls@.len(),
            rows@.len() == nulls@.len(),
            pos <= p <= data.len(),
            bitmaps@.len() == i,
            forall|k: int|
                0 <= k < bitmaps@.len() && nulls@[k] && codes@[k] != ENCODING_ALL_NULL ==> rows@[k] <= 8
                    * (#[trigger] bitmaps@[k])@.len(),
            bitmaps_at(codes@, nulls@, counts_of(rows@), data@, pos as int, i as nat) == Ok::<(Seq<Seq<u8>>, int), Error>(
                (byte_views(bitmaps@), p as int),
            ),
        decreases codes.len() - i,
    {
        let ghost before = byte_views(bitmaps@);
        if nulls[i] && codes[i] != ENCODING_ALL_NULL {
            match read_bitmap(data, p, rows[i], Source::Bucket) {
                Err(e) => {
                    proof {
                        lemma_bitmaps_error(
                            codes@,
                            nulls@,
                            counts_of(rows@),
                            data@,
                            pos as int,
                            (i + 1) as nat,
                            codes@.len(),
                        );
                    }
                    return Err(e);
                },
                Ok(bitmap) => {
                    p = p + bitmap.len();
                    let ghost added = bitmap@;
                    bitmaps.push(bitmap);
                    assert(byte_views(bitmaps@) =~= before.push(added));
                },
            }
        } else {
            bitmaps.push(Vec::new());
            assert(byte_views(bitmaps@) =~= before.push(Seq::empty()));
        }
        i += 1;
    }
    Ok((bitmaps, p))
}

/// The columns with the data that hold their values.
pub open spec fn stored_views(columns: Seq<StoredColumn>, data: Seq<u8>) -> Seq<EncodedColumnView> {
    Seq::new(columns.len(), |j: int| columns[j].view_in(data))
}

/// Finds the places of the values, and makes the columns.
fn place_columns(
    types: Vec<DataType>,
    codes: Vec<u8>,
    nulls: Vec<bool>,
    rows: Vec<usize>,
    consts: Vec<Value>,
    dicts: Vec<Vec<Value>>,
    bitmaps: Vec<Vec<u8>>,
    data: &[u8],
    pos: usize,
) -> (result: Result<Vec<StoredColumn>, Error>)
    requires
        pos <= data.len(),
        codes@.len() == types@.len(),
        nulls@.len() == types@.len(),
        rows@.len() == types@.len(),
        consts@.len() == types@.len(),
        dicts@.len() == types@.len(),
        bitmaps@.len() == types@.len(),
        short_values(consts@),
        forall|i: int| 0 <= i < codes@.len() ==> #[trigger] codes@[i] <= 3,
        forall|i: int| 0 <= i < types@.len() ==> !is_container_type(#[trigger] types@[i]),
        forall|i: int| 0 <= i < dicts@.len() ==> (#[trigger] dicts@[i])@.len() <= u32::MAX && short_values(dicts@[i]@),
        forall|i: int|
            0 <= i < bitmaps@.len() && nulls@[i] && codes@[i] != ENCODING_ALL_NULL ==> rows@[i] <= 8 * (#[trigger] bitmaps@[i])@.len(),
    ensures
        ({
            let unplaced_columns = all_unplaced(
                types@,
                codes@,
                nulls@,
                counts_of(rows@),
                value_views(consts@),
                dict_views(dicts@),
                byte_views(bitmaps@),
                data@,
            );
            match placed_at(unplaced_columns, pos as int, types@.len()) {
                Ok((columns, _)) => result matches Ok(out) && stored_views(out@, data@) == columns && out@.len() == types@.len()
                    && forall|j: int| 0 <= j < out@.len() ==> (#[trigger] out@[j]).view_in(data@).readable(),
                Err(e) => result matches Err(x) && x == e,
            }
        }),
{
    let ghost unplaced_columns = all_unplaced(
                types@,
                codes@,
                nulls@,
                counts_of(rows@),
                value_views(consts@),
                dict_views(dicts@),
                byte_views(bitmaps@),
                data@,
            );
    let ghost types0 = types@;
    let ghost codes0 = codes@;
    let ghost consts0 = consts@;
    let ghost dicts0 = dicts@;
    let ghost bitmaps0 = bitmaps@;
    let total: usize = types.len();
    let mut types_left: Vec<DataType> = types;
    let mut consts_left: Vec<Value> = consts;
    let mut dicts_left: Vec<Vec<Value>> = dicts;
    let mut bitmaps_left: Vec<Vec<u8>> = bitmaps;
    reverse(&mut types_left);
    reverse(&mut consts_left);
    reverse(&mut dicts_left);
    reverse(&mut bitmaps_left);
    let mut out: Vec<StoredColumn> = Vec::new();
    let mut p: usize = pos;
    let mut i: usize = 0;
    proof {
        vstd::arithmetic::power2::lemma2_to64();
        assert(stored_views(out@, data@) =~= Seq::empty());
    }
    while i < total
        invariant
            i <= total,
            total == types0.len(),
            types0 == types@,
            consts0 == consts@,
            dicts0 == dicts@,
            bitmaps0 == bitmaps@,
            codes@.len() == total,
            codes@ == codes0,
            nulls@.len() == total,
            rows@.len() == total,
            consts0.len() == total,
            dicts0.len() == total,
            bitmaps0.len() == total,
            types_left@ == types0.reverse().take(total - i),
            consts_left@ == consts0.reverse().take(total - i),
            dicts_left@ == dicts0.reverse().take(total - i),
            bitmaps_left@ == bitmaps0.reverse().take(total - i),
            short_values(consts0),
            pow2(32) == 0x1_0000_0000,
            forall|k: int| 0 <= k < codes@.len() ==> #[trigger] codes@[k] <= 3,
            forall|k: int| 0 <= k < types0.len() ==> !is_container_type(#[trigger] types0[k]),
            forall|k: int| 0 <= k < dicts0.len() ==> (#[trigger] dicts0[k])@.len() <= u32::MAX && short_values(dicts0[k]@),
            forall|k: int|
                0 <= k < bitmaps0.len() && nulls@[k] && codes@[k] != ENCODING_ALL_NULL ==> rows@[k] <= 8
                    * (#[trigger] bitmaps0[k])@.len(),
            unplaced_columns.len() == total,
            forall|j: int|
                0 <= j < total ==> #[trigger] unplaced_columns[j] == unplaced(
                    types0,
                    codes0,
                    nulls@,
                    counts_of(rows@),
                    value_views(consts0),
                    dict_views(dicts0),
                    byte_views(bitmaps0),
                    data@,
                    j,
                ),
            pos <= p <= data.len(),
            out@.len() == i,
            placed_at(unplaced_columns, pos as int, i as nat) == Ok::<(Seq<EncodedColumnView>, int), Error>(
                (stored_views(out@, data@), p as int),
            ),
            forall|j: int| 0 <= j < out@.len() ==> (#[trigger] out@[j]).view_in(data@).readable(),
        decreases total - i,
    {
        let data_type: DataType = take_last(&mut types_left);
        let const_value: Value = take_last(&mut consts_left);
        let dict_values: Vec<Value> = take_last(&mut dicts_left);
        let null_bitmap: Vec<u8> = take_last(&mut bitmaps_left);
        proof {
            assert(data_type == types0[i as int]);
            assert(const_value == consts0[i as int]);
            assert(dict_values == dicts0[i as int]);
            assert(null_bitmap == bitmaps0[i as int]);
            lemma_index_width_bound(dict_values@.len(), 32);
        }
        let dict_bit_width: usize = bit_width(dict_values.len());
        let column = StoredColumn {
            data_type,
            encoding: codes[i],
            has_nulls: nulls[i],
            null_bitmap,
            const_value,
            dict_values,
            dict_bit_width,
            data_cursor: p,
            num_rows: rows[i],
        };
        let ghost view = column.view_in(data@);
        proof {
            assert(unplaced_columns[i as int] == unplaced(
                types0,
                codes0,
                nulls@,
                counts_of(rows@),
                value_views(consts0),
                dict_views(dicts0),
                byte_views(bitmaps0),
                data@,
                i as int,
            ));
            assert(view == EncodedColumnView { cursor: p as int, ..unplaced_columns[i as int] });
        }
        let count: usize = if codes[i] == ENCODING_ALL_NULL {
            0
        } else {
            valid_count(codes[i], nulls[i], column.null_bitmap.as_slice(), rows[i], Ghost(view))
        };
        match find_data_end(
            &column.data_type,
            codes[i],
            dict_bit_width,
            count,
            data,
            p,
            Source::Bucket,
            Ghost(view),
        ) {
            Err(e) => {
                proof {
                    lemma_placed_error(unplaced_columns, pos as int, (i + 1) as nat, total as nat);
                    assert(unplaced_columns =~= all_unplaced(
                types@,
                codes@,
                nulls@,
                counts_of(rows@),
                value_views(consts@),
                dict_views(dicts@),
                byte_views(bitmaps@),
                data@,
            ));
                }
                return Err(e);
            },
            Ok(end) => {
                p = end;
            },
        }
        proof {
            assert(is_short(consts0[i as int]@));
            assert forall|k: int| 0 <= k < view.dict.len() implies is_short(#[trigger] view.dict[k]) by {
                assert(is_short(dicts0[i as int]@[k]@));
            }
            assert(codes@[i as int] <= 3);
            assert(view.readable());
        }
        let ghost before = stored_views(out@, data@);
        out.push(column);
        assert(stored_views(out@, data@) =~= before.push(view));
        i += 1;
    }
    Ok(out)
}

/// Turns a list around.
fn reverse<T>(items: &mut Vec<T>)
    ensures
        final(items)@ == old(items)@.reverse(),
{
    let ghost before = items@;
    let mut turned: Vec<T> = Vec::new();
    while items.len() > 0
        invariant
            items@ == before.take(items@.len() as int),
            items@.len() + turned@.len() == before.len(),
            forall|k: int| 0 <= k < turned@.len() ==> #[trigger] turned@[k] == before[before.len() - 1 - k],
        decreases items@.len(),
    {
        match items.pop() {
            Some(item) => turned.push(item),
            None => {},
        }
    }
    std::mem::swap(items, &mut turned);
    assert(items@ =~= before.reverse());
}

fn take_last<T>(items: &mut Vec<T>) -> (item: T)
    requires
        old(items)@.len() > 0,
    ensures
        item == old(items)@.last(),
        final(items)@ == old(items)@.drop_last(),
{
    items.pop().unwrap()
}

/// The rows of the first `n` columns.
pub open spec fn read_rows(columns: Seq<EncodedColumnView>, n: nat) -> Result<Seq<Seq<Row>>, Error>
    decreases n,
{
    if n == 0 {
        Ok(Seq::empty())
    } else {
        match read_rows(columns, (n - 1) as nat) {
            Err(e) => Err(e),
            Ok(done) => match columns[n - 1].rows_result() {
                Err(e) => Err(e),
                Ok(rows) => Ok(done.push(rows)),
            },
        }
    }
}

proof fn lemma_read_error(columns: Seq<EncodedColumnView>, n: nat, m: nat)
    requires
        n <= m,
        read_rows(columns, n) is Err,
    ensures
        read_rows(columns, m) == read_rows(columns, n),
    decreases m,
{
    if n < m {
        lemma_read_error(columns, n, (m - 1) as nat);
    }
}

/// The rows of the logical columns out of the physical ones.
pub open spec fn logical_rows(types: Seq<DataType>, columns: Seq<EncodedColumnView>) -> Result<Seq<Seq<Row>>, Error> {
    match read_rows(columns, columns.len()) {
        Err(e) => Err(e),
        Ok(physical) => all_assembled(types, physical, types.len()),
    }
}

/// The rows of a bucket.
pub open spec fn bucket_rows(types: Seq<DataType>, data: Seq<u8>, num_rows: nat) -> Result<Seq<Seq<Row>>, Error> {
    match bucket_columns(physical_types(types), types.len() as int, data, num_rows) {
        Err(e) => Err(e),
        Ok(columns) => if data.len() == 0 && num_rows > 0 && columns.len() > 0 {
            Err(Error::BucketTruncated)
        } else {
            logical_rows(types, columns)
        },
    }
}

fn borrowed(types: &Vec<DataType>) -> (refs: Vec<&DataType>)
    ensures
        plain_types(refs@) == types@,
{
    let mut refs: Vec<&DataType> = Vec::new();
    let mut i: usize = 0;
    while i < types.len()
        invariant
            i <= types.len(),
            refs@.len() == i,
            forall|k: int| 0 <= k < i ==> *(#[trigger] refs@[k]) == types@[k],
        decreases types.len() - i,
    {
        refs.push(&types[i]);
        i += 1;
    }
    assert(plain_types(refs@) =~= types@);
    refs
}

pub proof fn lemma_physical_leaves(types: Seq<DataType>)
    ensures
        forall|j: int| 0 <= j < physical_types(types).len() ==> !is_container_type(#[trigger] physical_types(types)[j]),
{
    lemma_child_leaves_all(types);
    assert forall|j: int| 0 <= j < physical_types(types).len() implies !is_container_type(#[trigger] physical_types(types)[j]) by {
        if j >= types.len() {
            assert(!is_container_type(all_child_types(types)[j - types.len()]));
        }
    }
}

proof fn lemma_child_leaves_all(types: Seq<DataType>)
    ensures
        forall|j: int| 0 <= j < all_child_types(types).len() ==> !is_container_type(#[trigger] all_child_types(types)[j]),
    decreases types.len(),
{
    if types.len() > 0 {
        lemma_child_leaves_all(types.drop_last());
        lemma_child_leaves(types.last());
        let head = all_child_types(types.drop_last());
        assert forall|j: int| 0 <= j < all_child_types(types).len() implies !is_container_type(#[trigger] all_child_types(types)[j]) by {
            if j < head.len() {
                assert(!is_container_type(head[j]));
            } else {
                assert(!is_container_type(child_types(types.last())[j - head.len()]));
            }
        }
    }
}

proof fn lemma_child_leaves(dt: DataType)
    ensures
        forall|j: int| 0 <= j < child_types(dt).len() ==> !is_container_type(#[trigger] child_types(dt)[j]),
    decreases dt,
{
    match dt {
        DataType::ListOf(element, _) => {
            lemma_child_leaves(*element);
            assert forall|j: int| 0 <= j < child_types(dt).len() implies !is_container_type(#[trigger] child_types(dt)[j]) by {
                if j > 0 {
                    assert(!is_container_type(child_types(*element)[j - 1]));
                }
            }
        },
        DataType::MapOf(key, value, _) => {
            lemma_child_leaves(*key);
            lemma_child_leaves(*value);
            let split = element_types(*key).len() as int;
            assert forall|j: int| 0 <= j < child_types(dt).len() implies !is_container_type(#[trigger] child_types(dt)[j]) by {
                if 0 < j < split {
                    assert(!is_container_type(child_types(*key)[j - 1]));
                } else if j > split {
                    assert(!is_container_type(child_types(*value)[j - split - 1]));
                }
            }
        },
        _ => {},
    }
}

/// A bucket in one piece.
pub struct BucketReader {
    data: Vec<u8>,
    num_rows: usize,
    columns: Vec<StoredColumn>,
    logical_types: Vec<DataType>,
}

impl BucketReader {
    /// The types of the logical columns.
    pub closed spec fn types(self) -> Seq<DataType> {
        self.logical_types@
    }

    /// The physical columns.
    pub closed spec fn columns(self) -> Seq<EncodedColumnView> {
        stored_views(self.columns@, self.data@)
    }

    pub closed spec fn rows(self) -> nat {
        self.num_rows as nat
    }

    /// There are columns and rows, but no data.
    pub closed spec fn lacks_data(self) -> bool {
        self.data@.len() == 0 && self.num_rows > 0 && self.columns@.len() > 0
    }

    pub open spec fn wf(self) -> bool {
        &&& self.columns().len() == physical_types(self.types()).len()
        &&& forall|j: int|
            0 <= j < self.columns().len() ==> (#[trigger] self.columns()[j]).wf() && self.columns()[j].dt == physical_types(
                self.types(),
            )[j] && (!self.lacks_data() ==> self.columns()[j].readable())
    }

    pub fn new(col_types: Vec<DataType>, data: Vec<u8>, num_rows: usize) -> (result: Result<Self, Error>)
        requires
            2 * physical_types(col_types@).len() <= usize::MAX,
        ensures
            match bucket_columns(physical_types(col_types@), col_types@.len() as int, data@, num_rows as nat) {
                Ok(columns) => result matches Ok(reader) && reader.wf() && reader.types() == col_types@ && reader.rows() == num_rows && reader.columns() == columns
                    && reader.lacks_data() == (data@.len() == 0 && num_rows > 0 && columns.len() > 0),
                Err(e) => result matches Err(x) && x == e,
            },
    {
        let ghost types = col_types@;
        let ghost phys = physical_types(types);
        let num_primary: usize = col_types.len();
        let (physical, children) = expand_col_types(borrowed(&col_types).as_slice());
        let total: usize = physical.len();
        proof {
            lemma_physical_leaves(types);
        }
        if num_rows == 0 || data.len() == 0 {
            let mut columns: Vec<StoredColumn> = Vec::new();
            let mut j: usize = 0;
            while j < total
                invariant
                    j <= total,
                    total == physical@.len(),
                    num_rows == 0 || data@.len() == 0,
                    physical@ == phys,
                    forall|k: int| 0 <= k < phys.len() ==> !is_container_type(#[trigger] phys[k]),
                    columns@.len() == j,
                    forall|k: int|
                        0 <= k < j ==> (#[trigger] columns@[k]).view_in(data@) == blank_column(
                            phys,
                            num_primary as int,
                            data@,
                            num_rows as nat,
                            k,
                        ) && columns@[k].view_in(data@).wf() && (num_rows == 0 ==> columns@[k].view_in(data@).readable()),
                decreases total - j,
            {
                let none: Vec<Value> = Vec::new();
                assert(value_views(none@) =~= Seq::empty());
                let column = StoredColumn {
                    data_type: physical[j].duplicate(),
                    encoding: ENCODING_PLAIN,
                    has_nulls: false,
                    null_bitmap: Vec::new(),
                    const_value: Value::Null,
                    dict_values: none,
                    dict_bit_width: 0,
                    data_cursor: 0,
                    num_rows: if j < num_primary {
                        num_rows
                    } else {
                        0
                    },
                };
                proof {
                    let view = column.view_in(data@);
                    assert(view.null_bitmap =~= Seq::empty());
                    assert(view == blank_column(phys, num_primary as int, data@, num_rows as nat, j as int));
                    if num_rows == 0 {
                        assert(view.nulls() =~= Seq::empty());
                    }
                }
                columns.push(column);
                j += 1;
            }
            let reader = BucketReader { data, num_rows, columns, logical_types: col_types };
            proof {
                assert(reader.columns() =~= Seq::new(
                    phys.len(),
                    |k: int| blank_column(phys, num_primary as int, data@, num_rows as nat, k),
                ));
                assert forall|k: int| 0 <= k < reader.columns().len() implies (#[trigger] reader.columns()[k]).wf()
                    && reader.columns()[k].dt == physical_types(reader.types())[k] && (!reader.lacks_data()
                    ==> reader.columns()[k].readable()) by {
                    assert(columns@[k].view_in(data@).wf());
                }
            }
            return Ok(reader);
        }
        let (counts, p0) = match read_header(data.as_slice(), total > num_primary) {
            Ok(header) => header,
            Err(e) => {
                return Err(e);
            },
        };
        let flag_bytes: usize = byte_count(total * 2);
        let null_bytes: usize = byte_count(total);
        if flag_bytes > data.len() - p0 || null_bytes > data.len() - p0 - flag_bytes {
            return Err(Error::BucketTruncated);
        }
        let p1: usize = p0 + flag_bytes;
        let p2: usize = p1 + null_bytes;
        let mut codes: Vec<u8> = Vec::new();
        let mut nulls: Vec<bool> = Vec::new();
        let mut rows: Vec<usize> = Vec::new();
        let mut j: usize = 0;
        proof {
            vstd::arithmetic::power2::lemma2_to64();
        }
        while j < total
            invariant
                j <= total,
                2 * total <= usize::MAX,
                pow2(2) == 4,
                p1 == p0 + bytes_for(2 * total),
                p2 == p1 + bytes_for(total as int),
                p2 <= data.len(),
                codes@.len() == j,
                nulls@.len() == j,
                rows@.len() == j,
                forall|k: int| 0 <= k < j ==> #[trigger] codes@[k] == encoding_at(data@, p0 as int, k) && codes@[k] <= 3,
                forall|k: int| 0 <= k < j ==> #[trigger] nulls@[k] == stream_bit(data@, 8 * p1 + k),
                forall|k: int|
                    0 <= k < j ==> #[trigger] rows@[k] == rows_in(k, num_primary as int, num_rows as nat, counts_of(counts@)),
            decreases total - j,
        {
            let code: usize = read_bit_packed(data.as_slice(), p0, j * 2, 2);
            codes.push(code as u8);
            nulls.push(read_flag(data.as_slice(), p1, j));
            rows.push(
                if j < num_primary {
                    num_rows
                } else if j - num_primary < counts.len() {
                    counts[j - num_primary]
                } else {
                    0
                },
            );
            j += 1;
        }
        let ghost spec_counts = counts_of(counts@);
        proof {
            assert(codes@ =~= codes_at(data@, p0 as int, phys.len()));
            assert(nulls@ =~= flags_at(data@, p1 as int, phys.len()));
            assert(counts_of(rows@) =~= all_rows_in(phys.len(), num_primary as int, num_rows as nat, spec_counts));
        }
        let (consts, p3) = match read_consts(&physical, &codes, data.as_slice(), p2) {
            Ok(part) => part,
            Err(e) => {
                return Err(e);
            },
        };
        let (dicts, p4) = match read_dicts(&physical, &codes, data.as_slice(), p3) {
            Ok(part) => part,
            Err(e) => {
                return Err(e);
            },
        };
        let (bitmaps, p5) = match read_bitmaps(&codes, &nulls, &rows, data.as_slice(), p4) {
            Ok(part) => part,
            Err(e) => {
                return Err(e);
            },
        };
        let ghost unplaced_columns = all_unplaced(
            phys,
            codes@,
            nulls@,
            counts_of(rows@),
            value_views(consts@),
            dict_views(dicts@),
            byte_views(bitmaps@),
            data@,
        );
        match place_columns(physical, codes, nulls, rows, consts, dicts, bitmaps, data.as_slice(), p5) {
            Err(e) => Err(e),
            Ok(columns) => {
                let reader = BucketReader { data, num_rows, columns, logical_types: col_types };
                proof {
                    lemma_placed(unplaced_columns, p5 as int, phys.len());
                    assert forall|k: int| 0 <= k < reader.columns().len() implies (#[trigger] reader.columns()[k]).wf()
                        && reader.columns()[k].dt == physical_types(reader.types())[k] && (!reader.lacks_data()
                        ==> reader.columns()[k].readable()) by {
                        assert(columns@[k].view_in(data@).readable());
                        assert(reader.columns()[k].dt == unplaced_columns[k].dt);
                    }
                }
                Ok(reader)
            },
        }
    }

    pub fn num_rows(&self) -> (rows: usize)
        ensures
            rows == self.rows(),
    {
        self.num_rows
    }

    /// A physical column as it is stored.
    pub fn encoded_column(&self, column: usize) -> (result: Result<EncodedColumn<'_>, Error>)
        requires
            self.wf(),
        ensures
            column >= self.columns().len() ==> (result matches Err(e) && e == (Error::ColumnOutOfRange {
                column,
                num_columns: self.columns().len() as usize,
            })),
            column < self.columns().len() ==> (result matches Ok(encoded) && encoded@ == self.columns()[column as int]),
    {
        if column >= self.columns.len() {
            return Err(Error::ColumnOutOfRange { column, num_columns: self.columns.len() });
        }
        assert(self.columns()[column as int].wf());
        Ok(self.columns[column].encoded(self.data.as_slice()))
    }

    /// The codes of the encodings of the physical columns.
    pub fn encodings(&self) -> (codes: Vec<u8>)
        ensures
            codes@ == Seq::new(self.columns().len(), |j: int| self.columns()[j].encoding),
    {
        let mut codes: Vec<u8> = Vec::new();
        let mut j: usize = 0;
        while j < self.columns.len()
            invariant
                j <= self.columns.len(),
                codes@.len() == j,
                forall|k: int| 0 <= k < j ==> #[trigger] codes@[k] == self.columns()[k].encoding,
            decreases self.columns.len() - j,
        {
            codes.push(self.columns[j].encoding);
            j += 1;
        }
        assert(codes@ =~= Seq::new(self.columns().len(), |j: int| self.columns()[j].encoding));
        codes
    }

    /// The entries of the dictionary of a physical column; none for other encodings.
    pub fn dict_values(&self, col: usize) -> (values: &[Value])
        requires
            col < self.columns().len(),
        ensures
            value_views(values@) == self.columns()[col as int].dict,
    {
        self.columns[col].dict_values.as_slice()
    }

    /// All rows of the logical columns.
    pub fn read_all_columns(&self) -> (result: Result<Vec<Column>, Error>)
        requires
            self.wf(),
        ensures
            ({
                let types = self.types();
                if self.lacks_data() {
                    result == Err::<Vec<Column>, Error>(Error::BucketTruncated)
                } else {
                    match logical_rows(types, self.columns()) {
                        Ok(rows) => result matches Ok(out) && out@.len() == types.len() && rows.len() == types.len() && forall|i: int|
                            0 <= i < out@.len() ==> consistent(#[trigger] out@[i]) && shape_error(types[i], out@[i]) is None && (
                            !is_container_type(types[i]) ==> leaf_matches(types[i], out@[i].values)) && rows_of(types[i], out@[i])
                                == rows[i],
                        Err(e) => result == Err::<Vec<Column>, Error>(e),
                    }
                }
            }),
    {
        if self.data.len() == 0 && self.num_rows > 0 && self.columns.len() > 0 {
            return Err(Error::BucketTruncated);
        }
        let ghost phys = physical_types(self.types());
        let mut columns: Vec<Column> = Vec::new();
        let mut j: usize = 0;
        assert(physical_rows(phys, columns@) =~= Seq::empty());
        while j < self.columns.len()
            invariant
                j <= self.columns.len(),
                self.wf(),
                !self.lacks_data(),
                phys == physical_types(self.types()),
                phys.len() == self.columns@.len(),
                columns@.len() == j,
                forall|k: int|
                    0 <= k < columns@.len() ==> consistent(#[trigger] columns@[k]) && leaf_matches(phys[k], columns@[k].values),
                read_rows(self.columns(), j as nat) == Ok::<Seq<Seq<Row>>, Error>(physical_rows(phys, columns@)),
            decreases self.columns.len() - j,
        {
            assert(self.columns()[j as int].readable());
            let ghost before = physical_rows(phys, columns@);
            match self.columns[j].read_all(self.data.as_slice()) {
                Err(e) => {
                    proof {
                        lemma_read_error(self.columns(), (j + 1) as nat, self.columns().len());
                    }
                    return Err(e);
                },
                Ok(col) => {
                    columns.push(col);
                    assert(physical_rows(phys, columns@) =~= before.push(rows_of(phys[j as int], col)));
                },
            }
            j += 1;
        }
        let refs: Vec<&DataType> = borrowed(&self.logical_types);
        reassemble_list_columns_pub(columns, refs.as_slice())
    }
}

/// Bit `q` behind byte `byte_base`.
fn read_flag(data: &[u8], byte_base: usize, q: usize) -> (set: bool)
    requires
        byte_base + q / 8 < data.len(),
    ensures
        set == stream_bit(data@, 8 * byte_base + q),
{
    let byte: u8 = data[byte_base + q / 8];
    let k: u8 = (q % 8) as u8;
    proof {
        crate::bits::lemma_u8_bit(byte, k);
        assert((8 * byte_base + q) / 8 == byte_base + q / 8);
        assert((8 * byte_base + q) % 8 == q % 8);
    }
    (byte >> k) & 1 == 1
}

/// Placing columns changes nothing but the places of their values.
pub proof fn lemma_placed(columns: Seq<EncodedColumnView>, pos: int, n: nat)
    requires
        placed_at(columns, pos, n) is Ok,
    ensures
        ({
            let placed = placed_at(columns, pos, n)->Ok_0.0;
            &&& placed.len() == n
            &&& forall|j: int|
                0 <= j < n ==> #[trigger] placed[j] == (EncodedColumnView { cursor: placed[j].cursor, ..columns[j] })
        }),
    decreases n,
{
    if n > 0 {
        lemma_placed(columns, pos, (n - 1) as nat);
    }
}

} // verus!
