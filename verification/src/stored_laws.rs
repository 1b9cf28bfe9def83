//! What a column of a file is as it is stored: its values one by one, its dictionary and its encoding.
use vstd::prelude::*;
use crate::batch::members_rows;
use crate::bits::stream_bit;
use crate::bucket_laws::{bucket_columns_read_back, lemma_cells_taken, lemma_own_cells, row_fits, rows_fit};
use crate::bucket_output::{is_paged, BucketFormat};
use crate::bucket_writer::{max_rows, physical_columns, physical_types};
use crate::column::{own_cells, Row};
use crate::column_writer::{all_same, distinct, lemma_distinct, present, DictLimits};
use crate::const_fill::count_valid;
use crate::encoded_column::{value_views, EncodedColumnView};
use crate::error::Error;
use crate::file_laws::{
    asks_for, children_can_be_told, group_reads_back, lemma_asked_bucket, lemma_asks, lemma_column_read,
    lemma_member_rows_fit, lemma_monolithic_read, reads_file,
};
use crate::format::{ENCODING_ALL_NULL, ENCODING_CONST, ENCODING_DICT};
use crate::input::InputFile;
use crate::read_back::{
    all_taken, decoded_all, indexes_and_nulls_read_back, is_written, lemma_present_rank, lemma_written_nulls, values_read_back,
};
use crate::reader::{dictionary_of, MosaicReader};
use crate::row_group::{projection_error, GroupRequest};
use crate::row_group_reader::{is_place, place_of, RowGroupReader};
use crate::schema::MosaicSchema;
use crate::types::{is_container_type, pair_nanos, physical_type, DataType};
use crate::values::{decode_undoes_encode, decoded_value, encoded_value, Value, ValueView};
use crate::writer::{is_file, GroupLog};

verus! {

/// The group is one of the columns that a request is for.
pub open spec fn answers(group: RowGroupReader, req: GroupRequest, schema: MosaicSchema, log: GroupLog) -> bool {
    &&& group.wf()
    &&& group.states() == req.states()
    &&& group.schema_of() == schema
    &&& group.rows() == log.num_rows
    &&& group.projected() == req.projected
}

/// A column that is asked for is stored as it was written of its rows.
pub proof fn lemma_stored(group: RowGroupReader, req: GroupRequest, format: BucketFormat, schema: MosaicSchema, log: GroupLog, g: int)
    requires
        asks_for(req, format, schema, log),
        answers(group, req, schema, log),
        0 <= g < schema.columns@.len(),
        req.projected[g],
    ensures
        ({
            let b = schema.columns@[g].bucket_id as int;
            let dt = physical_type(schema.columns@[g].data_type);
            let cells = own_cells(log.rows[g]);
            let limits = log.buckets[b].dict_limits();
            &&& 0 <= b < log.buckets.len()
            &&& limits.wf()
            &&& cells.len() == log.num_rows
            &&& cells.len() <= max_rows()
            &&& rows_fit(schema.columns@[g].data_type, log.rows[g])
            &&& all_taken(dt, present(cells))
            &&& group.stored_column(g) matches Ok(column) && is_written(column, dt, cells, limits)
        }),
{
    assert(schema.column_placed(g));
    assert(schema.columns.len() == schema.columns@.len());
    let b = schema.columns@[g].bucket_id as int;
    let members = schema.bucket_to_global@[b]@;
    let k = choose|k: int| 0 <= k < members.len() && members[k] == g as usize;
    assert(is_place(schema, g, k));
    let place = place_of(schema, g);
    assert(is_place(schema, g, place));
    assert(req.members[b] == members);
    assert(req.projected[req.members[b][place] as int]);
    assert(req.needed(b));
    assert(schema.bucket_ok(b));
    lemma_asked_bucket(req, format, schema, log, b);
    lemma_member_rows_fit(schema, log, b);
    group_reads_back(req, format, schema, log);
    assert(req.states()[b] == req.state(b));
    let w = log.buckets[b];
    let types = schema.bucket_types(b);
    let rows = members_rows(schema, log.rows, b);
    w.lemma_wf();
    assert(rows[place] == log.rows[g]);
    assert(types[place] == schema.columns@[g].data_type);
    assert(physical_columns(types, rows)[place] == own_cells(rows[place]));
    assert(w.cells()[place] == own_cells(log.rows[g]));
    lemma_cells_taken(types, rows);
    lemma_own_cells(types[place], rows[place]);
    assert(physical_types(types)[place] == physical_type(types[place]));
    if is_paged(format, w) {
        lemma_column_read(req, format, schema, log, b, place);
    } else {
        bucket_columns_read_back(types, rows, w.dict_limits(), log.num_rows);
        lemma_monolithic_read(req, format, schema, log, b);
    }
}

/// The group holds some columns of a row group of a file that was written whole.
pub open spec fn is_read<I: InputFile>(
    reader: MosaicReader<I>,
    file: Seq<u8>,
    start: int,
    format: BucketFormat,
    schema: MosaicSchema,
    raw: Seq<u8>,
    logs: Seq<GroupLog>,
    stats: Seq<Vec<u8>>,
    rg_index: int,
    columns: Seq<usize>,
    group: RowGroupReader,
) -> bool {
    &&& is_file(file, start, format, schema, raw, logs, stats)
    &&& reads_file(reader, file, format, schema, logs)
    &&& 0 <= rg_index < logs.len()
    &&& forall|b: int| 0 <= b < logs[rg_index].buckets.len() ==> children_can_be_told(format, #[trigger] logs[rg_index].buckets[b])
    &&& projection_error(columns, schema.columns@.len() as int, columns.len()) is None
    &&& reader.is_group(rg_index, columns, group)
}

proof fn lemma_read_column<I: InputFile>(
    reader: MosaicReader<I>,
    file: Seq<u8>,
    start: int,
    format: BucketFormat,
    schema: MosaicSchema,
    raw: Seq<u8>,
    logs: Seq<GroupLog>,
    stats: Seq<Vec<u8>>,
    rg_index: int,
    columns: Seq<usize>,
    group: RowGroupReader,
    g: int,
)
    requires
        is_read(reader, file, start, format, schema, raw, logs, stats, rg_index, columns, group),
        0 <= g < schema.columns@.len(),
        columns.contains(g as usize),
    ensures
        ({
            let log = logs[rg_index];
            let b = schema.columns@[g].bucket_id as int;
            let dt = physical_type(schema.columns@[g].data_type);
            let cells = own_cells(log.rows[g]);
            let limits = log.buckets[b].dict_limits();
            &&& 0 <= b < log.buckets.len()
            &&& limits.wf()
            &&& cells.len() == log.num_rows
            &&& cells.len() <= max_rows()
            &&& rows_fit(schema.columns@[g].data_type, log.rows[g])
            &&& all_taken(dt, present(cells))
            &&& group.stored_column(g) matches Ok(column) && is_written(column, dt, cells, limits)
        }),
{
    lemma_asks(reader, file, start, format, schema, raw, logs, stats, rg_index, columns);
    let req = reader.request(rg_index, columns);
    assert(req.projected[g]);
    lemma_stored(group, req, format, schema, logs[rg_index], g);
}

/// A column of a file has as many rows as were written to its row group.
pub proof fn stored_rows_are_counted<I: InputFile>(
    reader: MosaicReader<I>,
    file: Seq<u8>,
    start: int,
    format: BucketFormat,
    schema: MosaicSchema,
    raw: Seq<u8>,
    logs: Seq<GroupLog>,
    stats: Seq<Vec<u8>>,
    rg_index: int,
    columns: Seq<usize>,
    group: RowGroupReader,
    g: int,
)
    requires
        is_read(reader, file, start, format, schema, raw, logs, stats, rg_index, columns, group),
        0 <= g < schema.columns@.len(),
        columns.contains(g as usize),
    ensures
        group.stored_column(g) matches Ok(column) && column.rows == logs[rg_index].num_rows,
        logs[rg_index].rows[g].len() == logs[rg_index].num_rows,
{
    lemma_read_column(reader, file, start, format, schema, raw, logs, stats, rg_index, columns, group, g);
}

/// The values that were written to a column of a file are those that it gives one by one: nothing
/// for a row that was null, and else the value that was written to the row. Only a timestamp that 64
/// bits of nanoseconds do not hold is refused.
pub proof fn stored_values_read_back<I: InputFile>(
    reader: MosaicReader<I>,
    file: Seq<u8>,
    start: int,
    format: BucketFormat,
    schema: MosaicSchema,
    raw: Seq<u8>,
    logs: Seq<GroupLog>,
    stats: Seq<Vec<u8>>,
    rg_index: int,
    columns: Seq<usize>,
    group: RowGroupReader,
    g: int,
    r: int,
)
    requires
        is_read(reader, file, start, format, schema, raw, logs, stats, rg_index, columns, group),
        0 <= g < schema.columns@.len(),
        columns.contains(g as usize),
        !is_container_type(schema.columns@[g].data_type),
        0 <= r < logs[rg_index].num_rows,
    ensures
        group.stored_column(g) matches Ok(column) && column.dt == schema.columns@[g].data_type && column.rows == logs[rg_index].num_rows
            && column.nulls()[r] == (logs[rg_index].rows[g][r] is Null) && match logs[rg_index].rows[g][r] {
            Row::Null => column.value_at(r) == Ok::<ValueView, Error>(ValueView::Null),
            Row::Leaf(v) => match column.value_at(r) {
                Ok(found) => found == v,
                Err(e) => v matches ValueView::TimestampNanos { millis, nanos_of_milli } && pair_nanos(millis, nanos_of_milli) == Err::<
                    i64,
                    Error,
                >(e),
            },
            _ => false,
        },
{
    lemma_read_column(reader, file, start, format, schema, raw, logs, stats, rg_index, columns, group, g);
    let dt = schema.columns@[g].data_type;
    let rows = logs[rg_index].rows[g];
    let limits = logs[rg_index].buckets[schema.columns@[g].bucket_id as int].dict_limits();
    let cells = own_cells(rows);
    let column = group.stored_column(g)->Ok_0;
    assert(physical_type(dt) == dt);
    assert(row_fits(dt, rows[r]));
    values_read_back(column, dt, cells, limits, r);
    lemma_written_nulls(dt, cells, limits, column.data, column.cursor);
    if let Row::Leaf(v) = rows[r] {
        decode_undoes_encode(dt, v);
    }
}

/// A row that holds a value is one of those that the cells keep, and each that they keep is one.
proof fn lemma_kept(rows: Seq<Row>, k: int) -> (r: int)
    requires
        0 <= k < present(own_cells(rows)).len(),
    ensures
        0 <= r < rows.len(),
        own_cells(rows)[r] == Some(present(own_cells(rows))[k]),
    decreases rows.len(),
{
    let cells = own_cells(rows);
    let front = rows.drop_last();
    assert(rows.len() > 0) by {
        if rows.len() == 0 {
            assert(cells.len() == 0);
        }
    }
    assert(cells.drop_last() =~= own_cells(front));
    if k < present(own_cells(front)).len() {
        lemma_kept(front, k)
    } else {
        rows.len() - 1
    }
}

/// What the cells of rows keep: the values of the rows that are not null.
proof fn lemma_kept_values(dt: DataType, rows: Seq<Row>)
    requires
        rows_fit(dt, rows),
        !is_container_type(dt),
    ensures
        forall|r: int| 0 <= r < rows.len() ==> (#[trigger] rows[r]) is Null || rows[r] is Leaf,
        forall|r: int|
            0 <= r < rows.len() && (#[trigger] rows[r]) is Leaf ==> decoded_value(dt, encoded_value(rows[r]->Leaf_0)) == rows[r]->Leaf_0
                && present(own_cells(rows)).contains(encoded_value(rows[r]->Leaf_0)),
{
    let cells = own_cells(rows);
    assert forall|r: int| 0 <= r < rows.len() implies (#[trigger] rows[r]) is Null || rows[r] is Leaf by {
        assert(row_fits(dt, rows[r]));
    }
    assert forall|r: int| 0 <= r < rows.len() && (#[trigger] rows[r]) is Leaf implies decoded_value(dt, encoded_value(rows[r]->Leaf_0))
        == rows[r]->Leaf_0 && present(cells).contains(encoded_value(rows[r]->Leaf_0)) by {
        assert(row_fits(dt, rows[r]));
        decode_undoes_encode(dt, rows[r]->Leaf_0);
        lemma_present_rank(cells, r);
    }
}

/// Each value that stands in a row is row `r`'s.
pub open spec fn is_only_value(rows: Seq<Row>, r: int) -> bool {
    &&& rows[r] is Leaf
    &&& forall|s: int| 0 <= s < rows.len() ==> (#[trigger] rows[s]) is Null || rows[s] == rows[r]
}

proof fn lemma_one_value(dt: DataType, rows: Seq<Row>)
    requires
        rows_fit(dt, rows),
        !is_container_type(dt),
        present(own_cells(rows)).len() > 0,
    ensures
        all_same(present(own_cells(rows))) <==> exists|r: int| 0 <= r < rows.len() && #[trigger] is_only_value(rows, r),
        all_same(present(own_cells(rows))) ==> forall|r: int|
            0 <= r < rows.len() && (#[trigger] rows[r]) is Leaf ==> rows[r]->Leaf_0 == decoded_value(dt, present(own_cells(rows))[0]),
{
    let values = present(own_cells(rows));
    lemma_kept_values(dt, rows);
    let first = lemma_kept(rows, 0);
    assert(rows[first] is Leaf);
    assert(values[0] == encoded_value(rows[first]->Leaf_0));
    if all_same(values) {
        assert forall|s: int| 0 <= s < rows.len() implies (#[trigger] rows[s]) is Null || rows[s] == rows[first] by {
            if rows[s] is Leaf {
                let i = choose|i: int| 0 <= i < values.len() && values[i] == encoded_value(rows[s]->Leaf_0);
                assert(values[i] == values[0]);
            }
        }
        assert(is_only_value(rows, first));
    }
    if exists|r: int| 0 <= r < rows.len() && #[trigger] is_only_value(rows, r) {
        let r = choose|r: int| 0 <= r < rows.len() && #[trigger] is_only_value(rows, r);
        assert forall|i: int| 0 <= i < values.len() implies #[trigger] values[i] == values[0] by {
            let s = lemma_kept(rows, i);
            assert(rows[s] is Null || rows[s] == rows[r]);
            assert(rows[first] is Null || rows[first] == rows[r]);
        }
    }
}

proof fn lemma_each_value(dt: DataType, rows: Seq<Row>)
    requires
        rows_fit(dt, rows),
        !is_container_type(dt),
    ensures
        ({
            let d = distinct(present(own_cells(rows)));
            let dict = decoded_all(dt, d);
            &&& forall|r: int| 0 <= r < rows.len() && (#[trigger] rows[r]) is Leaf ==> dict.contains(rows[r]->Leaf_0)
            &&& forall|j: int| 0 <= j < dict.len() ==> rows.contains(Row::Leaf(#[trigger] dict[j]))
            &&& dict.no_duplicates()
        }),
{
    let values = present(own_cells(rows));
    let d = distinct(values);
    let dict = decoded_all(dt, d);
    lemma_kept_values(dt, rows);
    lemma_distinct(values);
    assert forall|r: int| 0 <= r < rows.len() && (#[trigger] rows[r]) is Leaf implies dict.contains(rows[r]->Leaf_0) by {
        let b = encoded_value(rows[r]->Leaf_0);
        let i = choose|i: int| 0 <= i < values.len() && values[i] == b;
        assert(d.contains(values[i]));
        let j = choose|j: int| 0 <= j < d.len() && d[j] == b;
        assert(dict[j] == decoded_value(dt, d[j]));
    }
    assert forall|j: int| 0 <= j < dict.len() implies rows.contains(Row::Leaf(#[trigger] dict[j])) && encoded_value(dict[j]) == d[j] by {
        assert(values.contains(d[j]));
        let i = choose|i: int| 0 <= i < values.len() && values[i] == d[j];
        let r = lemma_kept(rows, i);
        assert(rows[r] is Leaf);
        assert(rows[r] == Row::Leaf(dict[j]));
    }
}

/// The encoding of a column tells of its rows. All of them are null where it has no values, and only
/// there. It has one value throughout where it is constant, and only there. A dictionary has each
/// value that stands in a row, no other, and none twice.
pub proof fn encodings_tell_of_the_rows(column: EncodedColumnView, dt: DataType, rows: Seq<Row>, limits: DictLimits)
    requires
        rows_fit(dt, rows),
        !is_container_type(dt),
        is_written(column, dt, own_cells(rows), limits),
    ensures
        column.encoding == ENCODING_ALL_NULL <==> forall|r: int| 0 <= r < rows.len() ==> (#[trigger] rows[r]) is Null,
        column.encoding == ENCODING_CONST <==> exists|r: int| 0 <= r < rows.len() && #[trigger] is_only_value(rows, r),
        column.encoding == ENCODING_CONST ==> forall|r: int|
            0 <= r < rows.len() && (#[trigger] rows[r]) is Leaf ==> rows[r] == Row::Leaf(column.const_value),
        column.encoding != ENCODING_DICT ==> column.dict.len() == 0,
        column.entries().len() == column.dict.len(),
        forall|j: int|
            0 <= j < column.dict.len() ==> match #[trigger] column.entries()[j] {
                Ok(v) => v == column.dict[j],
                Err(e) => column.dict[j] matches ValueView::TimestampNanos { millis, nanos_of_milli } && pair_nanos(millis, nanos_of_milli)
                    == Err::<i64, Error>(e),
            },
        column.encoding == ENCODING_DICT ==> {
            &&& forall|r: int| 0 <= r < rows.len() && (#[trigger] rows[r]) is Leaf ==> column.dict.contains(rows[r]->Leaf_0)
            &&& forall|j: int| 0 <= j < column.dict.len() ==> rows.contains(Row::Leaf(#[trigger] column.dict[j]))
            &&& column.dict.no_duplicates()
        },
{
    let values = present(own_cells(rows));
    lemma_kept_values(dt, rows);
    lemma_each_value(dt, rows);
    if values.len() > 0 {
        lemma_one_value(dt, rows);
        let first = lemma_kept(rows, 0);
        assert(!(rows[first] is Null));
    } else {
        assert forall|r: int| 0 <= r < rows.len() implies (#[trigger] rows[r]) is Null by {}
        assert forall|r: int| 0 <= r < rows.len() implies !#[trigger] is_only_value(rows, r) by {
            assert(rows[r] is Null);
        }
    }
}

/// The encoding, the constant and the dictionary of a column of a file tell of the rows that were
/// written to it.
pub proof fn stored_encodings_tell_of_the_rows<I: InputFile>(
    reader: MosaicReader<I>,
    file: Seq<u8>,
    start: int,
    format: BucketFormat,
    schema: MosaicSchema,
    raw: Seq<u8>,
    logs: Seq<GroupLog>,
    stats: Seq<Vec<u8>>,
    rg_index: int,
    columns: Seq<usize>,
    group: RowGroupReader,
    g: int,
)
    requires
        is_read(reader, file, start, format, schema, raw, logs, stats, rg_index, columns, group),
        0 <= g < schema.columns@.len(),
        columns.contains(g as usize),
        !is_container_type(schema.columns@[g].data_type),
    ensures
        group.stored_column(g) matches Ok(column) && ({
            let rows = logs[rg_index].rows[g];
            &&& column.encoding == ENCODING_ALL_NULL <==> forall|r: int| 0 <= r < rows.len() ==> (#[trigger] rows[r]) is Null
            &&& column.encoding == ENCODING_CONST <==> exists|r: int| 0 <= r < rows.len() && #[trigger] is_only_value(rows, r)
            &&& column.encoding == ENCODING_CONST ==> forall|r: int|
                0 <= r < rows.len() && (#[trigger] rows[r]) is Leaf ==> rows[r] == Row::Leaf(column.const_value)
            &&& column.encoding != ENCODING_DICT ==> column.dict.len() == 0
            &&& column.entries().len() == column.dict.len()
            &&& forall|j: int|
                0 <= j < column.dict.len() ==> match #[trigger] column.entries()[j] {
                    Ok(v) => v == column.dict[j],
                    Err(e) => column.dict[j] matches ValueView::TimestampNanos { millis, nanos_of_milli } && pair_nanos(
                        millis,
                        nanos_of_milli,
                    ) == Err::<i64, Error>(e),
                }
            &&& column.encoding == ENCODING_DICT ==> column.index_error(count_valid(column.nulls())) is None
            &&& column.has_nulls <==> (exists|r: int| 0 <= r < rows.len() && (#[trigger] rows[r]) is Null) && (exists|r: int|
                0 <= r < rows.len() && (#[trigger] rows[r]) is Leaf)
            &&& column.has_nulls ==> forall|r: int|
                0 <= r < rows.len() ==> stream_bit(column.null_bitmap, r) == (#[trigger] rows[r] is Null)
            &&& column.encoding == ENCODING_DICT ==> {
                &&& forall|r: int| 0 <= r < rows.len() && (#[trigger] rows[r]) is Leaf ==> column.dict.contains(rows[r]->Leaf_0)
                &&& forall|j: int| 0 <= j < column.dict.len() ==> rows.contains(Row::Leaf(#[trigger] column.dict[j]))
                &&& column.dict.no_duplicates()
            }
        }),
{
    lemma_read_column(reader, file, start, format, schema, raw, logs, stats, rg_index, columns, group, g);
    let dt = schema.columns@[g].data_type;
    let limits = logs[rg_index].buckets[schema.columns@[g].bucket_id as int].dict_limits();
    let column = group.stored_column(g)->Ok_0;
    let rows = logs[rg_index].rows[g];
    let cells = own_cells(rows);
    encodings_tell_of_the_rows(column, dt, rows, limits);
    indexes_and_nulls_read_back(column, dt, cells, limits);
    lemma_kept_values(dt, rows);
    assert forall|r: int| 0 <= r < rows.len() implies (#[trigger] rows[r] is Null) == (cells[r] is None) by {}
    if column.has_nulls {
        let n = choose|r: int| 0 <= r < cells.len() && (#[trigger] cells[r]) is None;
        let s = choose|r: int| 0 <= r < cells.len() && (#[trigger] cells[r]) is Some;
        assert(rows[n] is Null && rows[s] is Leaf);
        assert forall|r: int| 0 <= r < rows.len() implies stream_bit(column.null_bitmap, r) == (#[trigger] rows[r] is Null) by {
            assert(stream_bit(column.null_bitmap, r) == (cells[r] is None));
        }
    } else if (exists|r: int| 0 <= r < rows.len() && (#[trigger] rows[r]) is Null) && (exists|r: int|
        0 <= r < rows.len() && (#[trigger] rows[r]) is Leaf) {
        let n = choose|r: int| 0 <= r < rows.len() && (#[trigger] rows[r]) is Null;
        let s = choose|r: int| 0 <= r < rows.len() && (#[trigger] rows[r]) is Leaf;
        assert(cells[n] is None && cells[s] is Some);
    }
}

/// The dictionary of a column of a file is handed out where it has one, and only there: each value that
/// was written to the column once, and no other.
pub proof fn dictionaries_hold_the_values<I: InputFile>(
    reader: MosaicReader<I>,
    file: Seq<u8>,
    start: int,
    format: BucketFormat,
    schema: MosaicSchema,
    raw: Seq<u8>,
    logs: Seq<GroupLog>,
    stats: Seq<Vec<u8>>,
    rg_index: int,
    columns: Seq<usize>,
    group: RowGroupReader,
    g: int,
    found: Option<Vec<Value>>,
)
    requires
        is_read(reader, file, start, format, schema, raw, logs, stats, rg_index, columns, group),
        0 <= g < schema.columns@.len(),
        columns.contains(g as usize),
        !is_container_type(schema.columns@[g].data_type),
        dictionary_of(group, g, found),
    ensures
        found is Some <==> (group.stored_column(g) matches Ok(column) && column.encoding == ENCODING_DICT),
        found matches Some(values) ==> {
            let rows = logs[rg_index].rows[g];
            &&& forall|r: int| 0 <= r < rows.len() && (#[trigger] rows[r]) is Leaf ==> value_views(values@).contains(rows[r]->Leaf_0)
            &&& forall|j: int| 0 <= j < values@.len() ==> rows.contains(Row::Leaf((#[trigger] values@[j])@))
            &&& value_views(values@).no_duplicates()
        },
{
    lemma_read_column(reader, file, start, format, schema, raw, logs, stats, rg_index, columns, group, g);
    let dt = schema.columns@[g].data_type;
    let rows = logs[rg_index].rows[g];
    let limits = logs[rg_index].buckets[schema.columns@[g].bucket_id as int].dict_limits();
    let column = group.stored_column(g)->Ok_0;
    encodings_tell_of_the_rows(column, dt, rows, limits);
    if column.encoding == ENCODING_DICT {
        lemma_distinct(present(own_cells(rows)));
        assert(column.dict.len() > 0);
        let values = found->0;
        assert forall|j: int| 0 <= j < values@.len() implies rows.contains(Row::Leaf((#[trigger] values@[j])@)) by {
            assert(value_views(values@)[j] == values@[j]@);
            assert(rows.contains(Row::Leaf(column.dict[j])));
        }
    }
}

} // verus!
