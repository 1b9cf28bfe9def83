//! What is written is read back.
use vstd::prelude::*;
use crate::bits::{
    bit_value, bytes_for, flag_values, index_width, lemma_packed_stream, nat_bit, packed, packed_flags, stream_bit,
    unpack_undoes_pack,
};
use crate::bucket_reader::{scan_at, Source};
use crate::bucket_writer::max_rows;
use crate::column::Row;
use crate::column_writer::{
    column_image, distinct, joined, lemma_dict_width, lemma_distinct, lemma_part_of_joined, lemma_present_len,
    lemma_rank, lemma_ranks_below, null_flags, present, rank, ranks, Cells, DictLimits,
};
use crate::const_fill::{count_valid, rank_of};
use crate::encoded_column::EncodedColumnView;
use crate::error::Error;
use crate::format::{ENCODING_ALL_NULL, ENCODING_CONST, ENCODING_DICT, ENCODING_PLAIN};
use crate::raw_column::{coerced, dict_index, plain_item, plain_pos};
use crate::types::{is_container_type, pair_nanos, width_of, DataType};
use crate::values::{decoded_value, encoded_value_at, is_value, lemma_value_in_data, value_size, ValueView};

verus! {

// ---------------------------------------------------------------- parts of data

/// The bytes `x` stand in the data from `p` on.
pub open spec fn stands_at(data: Seq<u8>, p: int, x: Seq<u8>) -> bool {
    &&& 0 <= p
    &&& p + x.len() <= data.len()
    &&& data.subrange(p, p + x.len()) == x
}

pub proof fn lemma_stands(data: Seq<u8>, p: int, x: Seq<u8>, y: Seq<u8>)
    requires
        stands_at(data, p, x + y),
    ensures
        stands_at(data, p, x),
        stands_at(data, p + x.len(), y),
{
    let both = data.subrange(p, p + x.len() + y.len());
    assert(data.subrange(p, p + x.len()) =~= both.subrange(0, x.len() as int));
    assert((x + y).subrange(0, x.len() as int) =~= x);
    assert(data.subrange(p + x.len(), p + x.len() + y.len()) =~= both.subrange(x.len() as int, (x.len() + y.len()) as int));
    assert((x + y).subrange(x.len() as int, (x.len() + y.len()) as int) =~= y);
}

pub proof fn lemma_stands_part(data: Seq<u8>, p: int, parts: Seq<Seq<u8>>, k: int)
    requires
        stands_at(data, p, joined(parts)),
        0 <= k < parts.len(),
    ensures
        stands_at(data, p + joined(parts.take(k)).len(), parts[k]),
        joined(parts.take(k + 1)).len() == joined(parts.take(k)).len() + parts[k].len(),
        joined(parts.take(k + 1)).len() <= joined(parts).len(),
{
    lemma_part_of_joined(parts, k);
    let n = joined(parts.take(k)).len() as int;
    assert(data.subrange(p + n, p + n + parts[k].len()) =~= data.subrange(p, p + joined(parts).len()).subrange(
        n,
        n + parts[k].len(),
    ));
}

// ---------------------------------------------------------------- cells and their values

proof fn lemma_flags_drop(cells: Cells)
    requires
        cells.len() > 0,
    ensures
        null_flags(cells).drop_last() == null_flags(cells.drop_last()),
{
    assert(null_flags(cells).drop_last() =~= null_flags(cells.drop_last()));
}

/// There is a value for each row that is not null.
pub proof fn lemma_present_count(cells: Cells)
    ensures
        count_valid(null_flags(cells)) == present(cells).len(),
    decreases cells.len(),
{
    if cells.len() > 0 {
        lemma_present_count(cells.drop_last());
        lemma_flags_drop(cells);
    }
}

proof fn lemma_present_prefix(cells: Cells, n: int)
    requires
        0 <= n <= cells.len(),
    ensures
        present(cells.take(n)).len() <= present(cells).len(),
        present(cells.take(n)) == present(cells).take(present(cells.take(n)).len() as int),
    decreases cells.len(),
{
    if n == cells.len() {
        assert(cells.take(n) =~= cells);
        assert(present(cells).take(present(cells).len() as int) =~= present(cells));
    } else {
        assert(cells.drop_last().take(n) =~= cells.take(n));
        lemma_present_prefix(cells.drop_last(), n);
        let front = present(cells.drop_last());
        let m = present(cells.take(n)).len() as int;
        assert(present(cells).take(m) =~= front.take(m));
    }
}

/// The value of a row comes behind those of the rows before it.
pub proof fn lemma_present_rank(cells: Cells, r: int)
    requires
        0 <= r < cells.len(),
        cells[r] is Some,
    ensures
        0 <= rank_of(null_flags(cells), r) < present(cells).len(),
        present(cells)[rank_of(null_flags(cells), r)] == cells[r]->0,
{
    let k = rank_of(null_flags(cells), r);
    assert(null_flags(cells).take(r) =~= null_flags(cells.take(r)));
    lemma_present_count(cells.take(r));
    lemma_present_prefix(cells, r + 1);
    assert(cells.take(r + 1).drop_last() =~= cells.take(r));
    assert(present(cells.take(r + 1)) == present(cells.take(r)).push(cells[r]->0));
    assert(present(cells.take(r + 1))[k] == cells[r]->0);
}

proof fn lemma_no_nulls(cells: Cells)
    requires
        present(cells).len() == cells.len(),
    ensures
        forall|r: int| 0 <= r < cells.len() ==> (#[trigger] cells[r]) is Some,
    decreases cells.len(),
{
    if cells.len() > 0 {
        lemma_present_len(cells.drop_last());
        lemma_no_nulls(cells.drop_last());
        assert forall|r: int| 0 <= r < cells.len() implies (#[trigger] cells[r]) is Some by {
            if r < cells.len() - 1 {
                assert(cells.drop_last()[r] is Some);
            }
        }
    }
}

proof fn lemma_all_nulls(cells: Cells)
    requires
        present(cells).len() == 0,
    ensures
        forall|r: int| 0 <= r < cells.len() ==> (#[trigger] cells[r]) is None,
    decreases cells.len(),
{
    if cells.len() > 0 {
        lemma_all_nulls(cells.drop_last());
        assert forall|r: int| 0 <= r < cells.len() implies (#[trigger] cells[r]) is None by {
            if r < cells.len() - 1 {
                assert(cells.drop_last()[r] is None);
            }
        }
    }
}

/// The bits of flags are the flags.
pub proof fn lemma_flag_bits(flags: Seq<bool>, r: int)
    requires
        0 <= r < flags.len(),
    ensures
        stream_bit(packed_flags(flags), r) == flags[r],
        packed_flags(flags).len() == bytes_for(flags.len() as int),
{
    let values = flag_values(flags);
    assert(values.len() * 1 == values.len()) by (nonlinear_arith);
    lemma_packed_stream(values, 1, r);
    vstd::arithmetic::power2::lemma2_to64();
    assert(r / 1 == r && r % 1 == 0);
    assert(values[r] == bit_value(flags[r]));
    assert(nat_bit(values[r], 0) == flags[r]) by {
        assert(values[r] / 1 == values[r]);
    }
}

/// The rows that cells stand for in a column of type `dt`.
pub open spec fn decoded_rows(dt: DataType, cells: Cells) -> Seq<Row> {
    Seq::new(
        cells.len(),
        |r: int|
            match cells[r] {
                None => Row::Null,
                Some(b) => Row::Leaf(coerced(dt, decoded_value(dt, b))->Ok_0),
            },
    )
}

/// The values are ones that a column of type `dt` takes as they are.
pub open spec fn all_taken(dt: DataType, values: Seq<Seq<u8>>) -> bool {
    forall|k: int|
        0 <= k < values.len() ==> is_value(dt, #[trigger] values[k]) && coerced(dt, decoded_value(dt, values[k])) is Ok
}

pub open spec fn decoded_all(dt: DataType, values: Seq<Seq<u8>>) -> Seq<ValueView> {
    Seq::new(values.len(), |k: int| decoded_value(dt, values[k]))
}

/// A column as it is read where it was written.
pub open spec fn written_column(dt: DataType, cells: Cells, limits: DictLimits, data: Seq<u8>, cursor: int) -> EncodedColumnView {
    let image = column_image(cells, width_of(dt), limits);
    let dict = if image.encoding == ENCODING_DICT {
        decoded_all(dt, distinct(present(cells)))
    } else {
        Seq::empty()
    };
    EncodedColumnView {
        dt,
        encoding: image.encoding,
        has_nulls: image.has_nulls,
        null_bitmap: image.null_bytes,
        const_value: if image.encoding == ENCODING_CONST {
            decoded_value(dt, image.const_value)
        } else {
            ValueView::Null
        },
        dict,
        bit_width: index_width(dict.len()),
        data,
        cursor,
        rows: cells.len(),
    }
}

/// What holds of the dictionary of a column that is written with one.
pub proof fn lemma_written_dict(dt: DataType, cells: Cells, limits: DictLimits)
    requires
        limits.wf(),
        all_taken(dt, present(cells)),
    ensures
        ({
            let values = present(cells);
            let d = distinct(values);
            &&& column_image(cells, width_of(dt), limits).encoding == ENCODING_DICT ==> d.len() <= u32::MAX && index_width(d.len())
                <= 32
            &&& all_taken(dt, d)
        }),
{
    let values = present(cells);
    let d = distinct(values);
    lemma_distinct(values);
    if column_image(cells, width_of(dt), limits).encoding == ENCODING_DICT {
        lemma_dict_width(d.len());
    }
    assert forall|k: int| 0 <= k < d.len() implies is_value(dt, #[trigger] d[k]) && coerced(dt, decoded_value(dt, d[k])) is Ok by {
        assert(values.contains(d[k]));
        let i = choose|i: int| 0 <= i < values.len() && values[i] == d[k];
        assert(is_value(dt, values[i]));
    }
}

pub proof fn lemma_written_nulls(dt: DataType, cells: Cells, limits: DictLimits, data: Seq<u8>, cursor: int)
    ensures
        written_column(dt, cells, limits, data, cursor).nulls() == null_flags(cells),
{
    let column = written_column(dt, cells, limits, data, cursor);
    let image = column_image(cells, width_of(dt), limits);
    let values = present(cells);
    lemma_present_len(cells);
    assert forall|r: int| 0 <= r < cells.len() implies #[trigger] column.nulls()[r] == null_flags(cells)[r] by {
        if image.encoding == ENCODING_ALL_NULL {
            lemma_all_nulls(cells);
            assert(cells[r] is None);
        } else if image.has_nulls {
            lemma_flag_bits(null_flags(cells), r);
        } else {
            lemma_no_nulls(cells);
            assert(cells[r] is Some);
        }
    }
    assert(column.nulls() =~= null_flags(cells));
}

/// Plain values stand where they were written.
pub proof fn lemma_plain_values(dt: DataType, values: Seq<Seq<u8>>, data: Seq<u8>, p: int, k: nat)
    requires
        all_taken(dt, values),
        stands_at(data, p, joined(values)),
        k <= values.len(),
    ensures
        plain_pos(dt, data, p, k) == p + joined(values.take(k as int)).len(),
        joined(values.take(k as int)).len() <= joined(values).len(),
        k < values.len() ==> value_size(dt, data, plain_pos(dt, data, p, k), Error::TruncatedColumnData) == Ok::<int, Error>(
            values[k as int].len() as int,
        ),
        k < values.len() ==> plain_item(dt, data, p, k as int) == decoded_value(dt, values[k as int]),
    decreases k,
{
    if k == 0 {
        assert(values.take(0) =~= Seq::empty());
    } else {
        lemma_plain_values(dt, values, data, p, (k - 1) as nat);
        lemma_stands_part(data, p, values, k - 1);
    }
    if k < values.len() {
        lemma_stands_part(data, p, values, k as int);
        assert(is_value(dt, values[k as int]));
        lemma_value_in_data(dt, data, plain_pos(dt, data, p, k), values[k as int], Error::TruncatedColumnData);
    }
}

/// Values of variable length are passed over one by one.
proof fn lemma_scan_values(dt: DataType, values: Seq<Seq<u8>>, data: Seq<u8>, p: int, k: nat, source: Source)
    requires
        width_of(dt) <= 0,
        all_taken(dt, values),
        stands_at(data, p, joined(values)),
        k <= values.len(),
    ensures
        scan_at(data, p, k, source) == Ok::<int, Error>(p + joined(values.take(k as int)).len()),
    decreases k,
{
    if k == 0 {
        assert(values.take(0) =~= Seq::empty());
    } else {
        lemma_scan_values(dt, values, data, p, (k - 1) as nat, source);
        lemma_stands_part(data, p, values, k - 1);
        assert(is_value(dt, values[k - 1]));
        let q = p + joined(values.take(k - 1)).len();
        lemma_value_in_data(dt, data, q, values[k - 1], Error::TruncatedColumnData);
    }
}

/// The indexes stand where they were written.
proof fn lemma_written_indexes(values: Seq<Seq<u8>>, data: Seq<u8>, p: int, k: int)
    requires
        stands_at(data, p, packed(ranks(values), index_width(distinct(values).len()))),
        0 <= k < values.len(),
    ensures
        dict_index(data, p, index_width(distinct(values).len()), k) == rank(distinct(values), values[k]),
        rank(distinct(values), values[k]) < distinct(values).len(),
        distinct(values)[rank(distinct(values), values[k])] == values[k],
{
    let width = index_width(distinct(values).len());
    let x = packed(ranks(values), width);
    let before = data.take(p);
    let after = data.skip(p + x.len());
    assert(data =~= before + x + after) by {
        assert(x =~= data.subrange(p, p + x.len()));
    }
    lemma_ranks_below(values);
    unpack_undoes_pack(ranks(values), width, k, before, after);
    lemma_distinct(values);
    assert(distinct(values).contains(values[k]));
    lemma_rank(values, values[k]);
}

/// The indexes of a column that was written by a dictionary are indexes into it.
proof fn lemma_column_indexes(dt: DataType, cells: Cells, limits: DictLimits, data: Seq<u8>, p: int)
    requires
        limits.wf(),
        cells.len() <= max_rows(),
        all_taken(dt, present(cells)),
        stands_at(data, p, column_image(cells, width_of(dt), limits).data),
        column_image(cells, width_of(dt), limits).encoding == ENCODING_DICT,
    ensures
        ({
            let values = present(cells);
            let width = index_width(distinct(values).len());
            &&& 0 <= values.len() * width <= usize::MAX
            &&& stands_at(data, p, packed(ranks(values), width))
            &&& packed(ranks(values), width).len() == bytes_for((values.len() * width) as int)
            &&& forall|k: int| 0 <= k < values.len() ==> #[trigger] dict_index(data, p, width, k) < distinct(values).len()
        }),
{
    let values = present(cells);
    let d = distinct(values);
    let width = index_width(d.len());
    lemma_present_len(cells);
    lemma_written_dict(dt, cells, limits);
    assert(0 <= values.len() * width <= usize::MAX) by (nonlinear_arith)
        requires
            values.len() <= max_rows(),
            max_rows() * 32 <= usize::MAX,
            width <= 32,
    ;
    assert(ranks(values).len() == values.len());
    assert forall|k: int| 0 <= k < values.len() implies #[trigger] dict_index(data, p, width, k) < d.len() by {
        lemma_written_indexes(values, data, p, k);
    }
}

/// Plain values end where they were written to.
proof fn lemma_plain_ends(dt: DataType, values: Seq<Seq<u8>>, data: Seq<u8>, p: int, source: Source)
    requires
        all_taken(dt, values),
        stands_at(data, p, joined(values)),
    ensures
        width_of(dt) > 0 ==> joined(values).len() == values.len() * width_of(dt),
        width_of(dt) <= 0 ==> scan_at(data, p, values.len(), source) == Ok::<int, Error>(p + joined(values).len()),
{
    if width_of(dt) > 0 {
        assert forall|i: int| 0 <= i < values.len() implies (#[trigger] values[i]).len() == width_of(dt) by {
            assert(is_value(dt, values[i]));
        }
        crate::column_writer::lemma_joined_fixed(values, width_of(dt) as nat);
    } else {
        lemma_scan_values(dt, values, data, p, values.len(), source);
        assert(values.take(values.len() as int) =~= values);
    }
}

/// A column that stands in the data where it was written ends where its values end.
#[verifier::spinoff_prover]
proof fn lemma_column_ends(dt: DataType, cells: Cells, limits: DictLimits, data: Seq<u8>, p: int, source: Source)
    requires
        limits.wf(),
        cells.len() <= max_rows(),
        all_taken(dt, present(cells)),
        stands_at(data, p, column_image(cells, width_of(dt), limits).data),
    ensures
        written_column(dt, cells, limits, data, p).data_end(source) == Ok::<int, Error>(
            p + column_image(cells, width_of(dt), limits).data.len(),
        ),
{
    let column = written_column(dt, cells, limits, data, p);
    let image = column_image(cells, width_of(dt), limits);
    let values = present(cells);
    lemma_present_count(cells);
    lemma_written_nulls(dt, cells, limits, data, p);
    assert(count_valid(column.nulls()) == values.len());
    if image.encoding == ENCODING_PLAIN {
        assert(image.data == joined(values));
        lemma_plain_ends(dt, values, data, p, source);
    } else if image.encoding == ENCODING_DICT {
        lemma_column_indexes(dt, cells, limits, data, p);
        assert(image.data == packed(ranks(values), column.bit_width));
        assert(column.dict.len() == distinct(values).len());
    }
}

/// The value of a row stands where the column keeps it.
#[verifier::spinoff_prover]
proof fn lemma_column_value(dt: DataType, cells: Cells, limits: DictLimits, data: Seq<u8>, p: int, r: int)
    requires
        limits.wf(),
        cells.len() <= max_rows(),
        all_taken(dt, present(cells)),
        stands_at(data, p, column_image(cells, width_of(dt), limits).data),
        0 <= r < cells.len(),
        cells[r] is Some,
    ensures
        written_column(dt, cells, limits, data, p).stored(rank_of(null_flags(cells), r)) == decoded_value(dt, cells[r]->0),
        coerced(dt, decoded_value(dt, cells[r]->0)) is Ok,
{
    let image = column_image(cells, width_of(dt), limits);
    let values = present(cells);
    lemma_present_rank(cells, r);
    let k = rank_of(null_flags(cells), r);
    assert(is_value(dt, values[k]));
    if image.encoding == ENCODING_CONST {
        assert(values[k] == values[0]);
    } else if image.encoding == ENCODING_DICT {
        lemma_column_indexes(dt, cells, limits, data, p);
        lemma_written_indexes(values, data, p, k);
    } else if image.encoding == ENCODING_PLAIN {
        lemma_plain_values(dt, values, data, p, k as nat);
    }
}

/// A column that stands in the data where it was written ends where its values end, and is read back.
#[verifier::spinoff_prover]
pub proof fn lemma_column_reads(dt: DataType, cells: Cells, limits: DictLimits, data: Seq<u8>, p: int, source: Source)
    requires
        limits.wf(),
        cells.len() <= max_rows(),
        all_taken(dt, present(cells)),
        stands_at(data, p, column_image(cells, width_of(dt), limits).data),
    ensures
        written_column(dt, cells, limits, data, p).data_end(source) == Ok::<int, Error>(
            p + column_image(cells, width_of(dt), limits).data.len(),
        ),
        written_column(dt, cells, limits, data, p).rows_result() == Ok::<Seq<Row>, Error>(decoded_rows(dt, cells)),
{
    let column = written_column(dt, cells, limits, data, p);
    let nulls = null_flags(cells);
    lemma_column_ends(dt, cells, limits, data, p, source);
    lemma_present_count(cells);
    lemma_written_nulls(dt, cells, limits, data, p);
    if column_image(cells, width_of(dt), limits).encoding == ENCODING_DICT {
        lemma_column_indexes(dt, cells, limits, data, p);
    }
    assert forall|r: int| 0 <= r < cells.len() && !nulls[r] implies column.stored(#[trigger] rank_of(nulls, r)) == decoded_value(
        dt,
        cells[r]->0,
    ) && coerced(dt, decoded_value(dt, cells[r]->0)) is Ok by {
        lemma_column_value(dt, cells, limits, data, p, r);
    }
    lemma_rows_fine(column, cells, cells.len());
    assert(column.rows_result()->Ok_0 =~= decoded_rows(dt, cells));
}

proof fn lemma_rows_fine(column: EncodedColumnView, cells: Cells, n: nat)
    requires
        n <= cells.len(),
        column.rows == cells.len(),
        column.nulls() == null_flags(cells),
        forall|r: int|
            0 <= r < cells.len() && !null_flags(cells)[r] ==> column.stored(#[trigger] rank_of(null_flags(cells), r))
                == decoded_value(column.dt, cells[r]->0) && coerced(column.dt, decoded_value(column.dt, cells[r]->0)) is Ok,
    ensures
        column.rows_error(n) is None,
    decreases n,
{
    if n > 0 {
        lemma_rows_fine(column, cells, (n - 1) as nat);
        let k = rank_of(null_flags(cells), n - 1);
    }
}

// ---------------------------------------------------------------- values one by one

/// The column is the one that was written of the cells, and its data stand where it looks for them.
pub open spec fn is_written(column: EncodedColumnView, dt: DataType, cells: Cells, limits: DictLimits) -> bool {
    &&& column == written_column(dt, cells, limits, column.data, column.cursor)
    &&& stands_at(column.data, column.cursor, column_image(cells, width_of(dt), limits).data)
}

/// The index of a value can be read where it was written.
proof fn lemma_index_read(dt: DataType, cells: Cells, limits: DictLimits, data: Seq<u8>, p: int, k: int)
    requires
        limits.wf(),
        cells.len() <= max_rows(),
        all_taken(dt, present(cells)),
        stands_at(data, p, column_image(cells, width_of(dt), limits).data),
        column_image(cells, width_of(dt), limits).encoding == ENCODING_DICT,
        0 <= k < present(cells).len(),
    ensures
        written_column(dt, cells, limits, data, p).index_at(k) matches Ok(index) && index < distinct(present(cells)).len()
            && distinct(present(cells))[index as int] == present(cells)[k],
{
    let values = present(cells);
    let width = index_width(distinct(values).len());
    lemma_column_indexes(dt, cells, limits, data, p);
    lemma_written_indexes(values, data, p, k);
    let end = (k + 1) * width;
    assert(0 <= end <= values.len() * width) by (nonlinear_arith)
        requires
            0 <= k < values.len(),
            end == (k + 1) * width,
    ;
    assert(bytes_for(end) <= bytes_for((values.len() * width) as int));
}

/// A column that was written of some cells gives their values one by one: nothing for a cell without
/// a value, and else the value that was written to it. Only a timestamp that 64 bits of nanoseconds
/// do not hold is refused.
#[verifier::spinoff_prover]
pub proof fn values_read_back(column: EncodedColumnView, dt: DataType, cells: Cells, limits: DictLimits, r: int)
    requires
        limits.wf(),
        cells.len() <= max_rows(),
        all_taken(dt, present(cells)),
        is_written(column, dt, cells, limits),
        !is_container_type(dt),
        0 <= r < cells.len(),
    ensures
        column.rows == cells.len(),
        cells[r] is None ==> column.value_at(r) == Ok::<ValueView, Error>(ValueView::Null),
        cells[r] matches Some(b) ==> match column.value_at(r) {
            Ok(v) => v == decoded_value(dt, b),
            Err(e) => decoded_value(dt, b) matches ValueView::TimestampNanos { millis, nanos_of_milli } && pair_nanos(
                millis,
                nanos_of_milli,
            ) == Err::<i64, Error>(e),
        },
{
    let data = column.data;
    let p = column.cursor;
    lemma_written_nulls(dt, cells, limits, data, p);
    assert(column.nulls()[r] == null_flags(cells)[r]);
    if cells[r] is Some {
        let values = present(cells);
        let k = rank_of(null_flags(cells), r);
        lemma_present_rank(cells, r);
        lemma_column_value(dt, cells, limits, data, p, r);
        if column.encoding == ENCODING_DICT {
            lemma_index_read(dt, cells, limits, data, p, k);
        } else if column.encoding == ENCODING_PLAIN {
            lemma_plain_values(dt, values, data, p, k as nat);
            let q = plain_pos(dt, data, p, k as nat);
            lemma_stands_part(data, p, values, k);
            assert(data.subrange(q, q + values[k].len()) == values[k]);
        }
    }
}

/// The values that a column gives one by one are those of its rows when it is read at once: nothing
/// for a row that is null, and else the value that the row holds.
pub proof fn values_are_those_of_the_rows(column: EncodedColumnView, rows: Seq<Row>, r: int)
    requires
        column.wf(),
        column.rows_result() == Ok::<Seq<Row>, Error>(rows),
        0 <= r < column.rows,
        column.value_at(r) is Ok,
    ensures
        rows.len() == column.rows,
        rows[r] is Null || rows[r] is Leaf,
        rows[r] is Null ==> column.value_at(r) == Ok::<ValueView, Error>(ValueView::Null),
        rows[r] matches Row::Leaf(v) ==> coerced(column.dt, column.value_at(r)->Ok_0) == Ok::<ValueView, Error>(v),
{
    lemma_rows_fine_at(column, column.rows, r);
    let k = rank_of(column.nulls(), r);
    if !column.nulls()[r] {
        if column.encoding == ENCODING_PLAIN {
            crate::const_fill::lemma_rank_bound(column.nulls(), r);
            let p = plain_pos(column.dt, column.data, column.cursor, k as nat);
            assert(encoded_value_at(column.dt, column.data, p) is Ok);
            assert(plain_pos(column.dt, column.data, column.cursor, (k + 1) as nat) == p + value_size(
                column.dt,
                column.data,
                p,
                Error::TruncatedColumnData,
            )->Ok_0);
        }
    }
}

proof fn lemma_rows_fine_at(column: EncodedColumnView, n: nat, r: int)
    requires
        column.rows_error(n) is None,
        0 <= r < n,
    ensures
        !column.nulls()[r] ==> coerced(column.dt, column.stored(rank_of(column.nulls(), r))) is Ok,
    decreases n,
{
    if r < n - 1 {
        lemma_rows_fine_at(column, (n - 1) as nat, r);
    }
}

proof fn lemma_index_errors(dt: DataType, cells: Cells, limits: DictLimits, data: Seq<u8>, p: int, n: nat)
    requires
        limits.wf(),
        cells.len() <= max_rows(),
        all_taken(dt, present(cells)),
        stands_at(data, p, column_image(cells, width_of(dt), limits).data),
        column_image(cells, width_of(dt), limits).encoding == ENCODING_DICT,
        n <= present(cells).len(),
    ensures
        written_column(dt, cells, limits, data, p).index_error(n) is None,
    decreases n,
{
    if n > 0 {
        lemma_index_errors(dt, cells, limits, data, p, (n - 1) as nat);
        lemma_index_read(dt, cells, limits, data, p, n - 1);
    }
}

/// Each row of a column that was written by a dictionary has the index of an entry, and a column that
/// was written with nulls tells of each row whether it is one of them.
pub proof fn indexes_and_nulls_read_back(column: EncodedColumnView, dt: DataType, cells: Cells, limits: DictLimits)
    requires
        limits.wf(),
        cells.len() <= max_rows(),
        all_taken(dt, present(cells)),
        is_written(column, dt, cells, limits),
    ensures
        column.encoding == ENCODING_DICT ==> column.index_error(count_valid(column.nulls())) is None,
        column.has_nulls <==> (exists|r: int| 0 <= r < cells.len() && (#[trigger] cells[r]) is None) && (exists|r: int|
            0 <= r < cells.len() && (#[trigger] cells[r]) is Some),
        column.has_nulls ==> forall|r: int| 0 <= r < cells.len() ==> stream_bit(column.null_bitmap, r) == (#[trigger] cells[r] is None),
{
    let data = column.data;
    let p = column.cursor;
    lemma_written_nulls(dt, cells, limits, data, p);
    lemma_present_count(cells);
    lemma_present_len(cells);
    if column.encoding == ENCODING_DICT {
        lemma_index_errors(dt, cells, limits, data, p, present(cells).len());
    }
    if present(cells).len() == 0 {
        lemma_all_nulls(cells);
    } else if present(cells).len() == cells.len() {
        lemma_no_nulls(cells);
    } else {
        lemma_some_of_both(cells);
    }
    if column.has_nulls {
        assert forall|r: int| 0 <= r < cells.len() implies stream_bit(column.null_bitmap, r) == (#[trigger] cells[r] is None) by {
            lemma_flag_bits(null_flags(cells), r);
        }
    }
}

proof fn lemma_some_of_both(cells: Cells)
    ensures
        present(cells).len() < cells.len() ==> exists|r: int| 0 <= r < cells.len() && (#[trigger] cells[r]) is None,
        present(cells).len() > 0 ==> exists|r: int| 0 <= r < cells.len() && (#[trigger] cells[r]) is Some,
    decreases cells.len(),
{
    if cells.len() > 0 {
        let front = cells.drop_last();
        let last = cells[cells.len() - 1];
        lemma_some_of_both(front);
        if present(front).len() < front.len() {
            let r = choose|r: int| 0 <= r < front.len() && (#[trigger] front[r]) is None;
            assert(cells[r] is None);
        }
        if present(front).len() > 0 {
            let r = choose|r: int| 0 <= r < front.len() && (#[trigger] front[r]) is Some;
            assert(cells[r] is Some);
        }
    }
}

} // verus!
