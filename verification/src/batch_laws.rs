//! A batch that is read from a file holds what was written to it.
use vstd::prelude::*;
use crate::bucket_output::BucketFormat;
use crate::column::{consistent, rows_of, Row};
use crate::encoded_column::EncodedColumnView;
use crate::error::Error;
use crate::file_laws::{files_read_back, group_reads_back, lemma_asks};
use crate::input::InputFile;
use crate::reader::MosaicReader;
use crate::row_group::projection_error;
use crate::row_group_reader::{columns_are_listed_once, listed, ColumnBatch, RowGroupReader};
use crate::schema::{column_of, FieldSpec, MosaicSchema};
use crate::stored_laws::is_read;
use crate::types::{is_container_type, DataType};
use crate::visitor::{is_visit, VisitedColumn};
use crate::writer::{logged_rows, GroupLog};

verus! {

/// Column `j` of a batch is the column of a file with the given rows.
pub open spec fn is_column(batch: ColumnBatch, j: int, schema: MosaicSchema, log: GroupLog, g: int) -> bool {
    &&& 0 <= j < batch.columns@.len()
    &&& batch.fields@[j].name@ == schema.columns@[g].name@
    &&& batch.fields@[j].data_type == schema.columns@[g].data_type
    &&& batch.fields@[j].nullable == schema.columns@[g].nullable
    &&& consistent(batch.columns@[j])
    &&& rows_of(schema.columns@[g].data_type, batch.columns@[j]) == log.rows[g]
}

/// A batch has the given column of a file.
pub open spec fn has_column(batch: ColumnBatch, schema: MosaicSchema, log: GroupLog, g: int) -> bool {
    exists|j: int| #[trigger] is_column(batch, j, schema, log, g)
}

pub proof fn lemma_in_range(columns: Seq<usize>, num_columns: int, n: nat, i: int)
    requires
        projection_error(columns, num_columns, n) is None,
        0 <= i < n <= columns.len(),
    ensures
        columns[i] < num_columns,
    decreases n,
{
    if i < n - 1 {
        lemma_in_range(columns, num_columns, (n - 1) as nat, i);
    }
}

/// Each column that is asked for is there, with the rows that were written.
proof fn lemma_all_available<I: InputFile>(
    reader: MosaicReader<I>,
    file: Seq<u8>,
    start: int,
    format: BucketFormat,
    schema: MosaicSchema,
    raw: Seq<u8>,
    logs: Seq<GroupLog>,
    stats: Seq<Vec<u8>>,
    rg_index: int,
    columns: Seq<usize>,
    group: RowGroupReader,
)
    requires
        is_read(reader, file, start, format, schema, raw, logs, stats, rg_index, columns, group),
    ensures
        group.read_error(schema.num_buckets as nat) is None,
        group.rows() == logs[rg_index].num_rows,
        group.schema_of() == schema,
        group.order() == columns,
        forall|i: int|
            0 <= i < columns.len() ==> columns[i] < schema.columns@.len() && group.available()[#[trigger] columns[i] as int]
                && group.column_rows(columns[i] as int) == logs[rg_index].rows[columns[i] as int],
{
    let n = schema.columns@.len();
    let log = logs[rg_index];
    files_read_back(reader, file, start, format, schema, raw, logs, stats, rg_index, columns, group);
    lemma_asks(reader, file, start, format, schema, raw, logs, stats, rg_index, columns);
    let req = reader.request(rg_index, columns);
    group_reads_back(req, format, schema, log);
    assert forall|i: int| 0 <= i < columns.len() implies columns[i] < n && group.available()[#[trigger] columns[i] as int]
        && group.column_rows(columns[i] as int) == log.rows[columns[i] as int] by {
        lemma_in_range(columns, n as int, columns.len(), i);
        let g = columns[i] as int;
        assert(columns.contains(columns[i]));
        assert(schema.column_placed(g));
        let b = schema.columns@[g].bucket_id as int;
        let members = schema.bucket_to_global@[b]@;
        let k = choose|k: int| 0 <= k < members.len() && members[k] == g as usize;
        assert(req.members[b] == members);
        assert(req.projected[req.members[b][k] as int]);
        assert(req.needed(b));
        assert(req.states()[b] is Some);
        assert(group.projected()[g]);
    }
}

/// The columns that are listed of an order of which all are wanted.
pub proof fn lemma_all_listed(order: Seq<usize>, wanted: Seq<bool>)
    requires
        forall|i: int| 0 <= i < order.len() ==> wanted[#[trigger] order[i] as int],
    ensures
        ({
            let picked = listed(order, wanted, order.len());
            &&& picked.no_duplicates()
            &&& picked.len() == order.to_set().len()
            &&& forall|i: int| 0 <= i < order.len() ==> picked.contains(#[trigger] order[i])
            &&& forall|j: int|
                0 <= j < picked.len() ==> exists|p: int|
                    0 <= p < order.len() && #[trigger] order[p] == #[trigger] picked[j] && forall|q: int|
                        0 <= q < p ==> picked.take(j).contains(#[trigger] order[q])
        }),
{
    let picked = listed(order, wanted, order.len());
    columns_are_listed_once(order, wanted, order.len());
    assert forall|j: int| 0 <= j < picked.len() implies exists|p: int|
        0 <= p < order.len() && #[trigger] order[p] == #[trigger] picked[j] && forall|q: int|
            0 <= q < p ==> picked.take(j).contains(#[trigger] order[q]) by {
        let p = choose|p: int|
            0 <= p < order.len() && #[trigger] order[p] == picked[j] && forall|q: int|
                0 <= q < p && wanted[#[trigger] order[q] as int] ==> picked.take(j).contains(order[q]);
        assert(order[p] == picked[j]);
    }
    picked.unique_seq_to_set();
    assert(picked.to_set() =~= order.to_set()) by {
        assert forall|g: usize| picked.to_set().contains(g) == order.to_set().contains(g) by {
            if picked.contains(g) {
                let j = choose|j: int| 0 <= j < picked.len() && picked[j] == g;
                let p = choose|p: int| 0 <= p < order.len() && #[trigger] order[p] == picked[j];
                assert(order[p] == g);
            }
            if order.contains(g) {
                let i = choose|i: int| 0 <= i < order.len() && order[i] == g;
                assert(picked.contains(order[i]));
            }
        }
    }
}

/// The columns of a batch are the picked ones, each once, in the order in which they are first asked
/// for: what is asked for before a column stands before it.
pub open spec fn are_columns(batch: ColumnBatch, schema: MosaicSchema, log: GroupLog, columns: Seq<usize>, picked: Seq<usize>) -> bool {
    &&& picked.len() == batch.columns@.len()
    &&& picked.no_duplicates()
    &&& forall|j: int| 0 <= j < picked.len() ==> is_column(batch, j, schema, log, #[trigger] picked[j] as int)
    &&& forall|j: int|
        0 <= j < picked.len() ==> exists|p: int|
            0 <= p < columns.len() && #[trigger] columns[p] == #[trigger] picked[j] && forall|q: int|
                0 <= q < p ==> picked.take(j).contains(#[trigger] columns[q])
}

proof fn lemma_batch(schema: MosaicSchema, log: GroupLog, columns: Seq<usize>, group: RowGroupReader, batch: ColumnBatch)
    requires
        group.is_batch(batch),
        group.schema_of() == schema,
        group.order() == columns,
        forall|i: int|
            0 <= i < columns.len() ==> columns[i] < schema.columns@.len() && group.available()[#[trigger] columns[i] as int]
                && group.column_rows(columns[i] as int) == log.rows[columns[i] as int],
    ensures
        batch.columns@.len() == columns.to_set().len(),
        batch.fields@.len() == batch.columns@.len(),
        forall|i: int|
            0 <= i < columns.len() ==> has_column(batch, schema, log, #[trigger] columns[i] as int),
        are_columns(batch, schema, log, columns, group.batch_columns()),
{
    let picked = group.batch_columns();
    lemma_all_listed(columns, group.available());
    assert forall|j: int| 0 <= j < picked.len() implies is_column(batch, j, schema, log, #[trigger] picked[j] as int) by {
        let p = choose|p: int| 0 <= p < columns.len() && #[trigger] columns[p] == picked[j];
        assert(columns[p] == picked[j]);
        assert(group.holds(picked[j] as int, batch.columns@[j]));
    }
    assert forall|i: int| 0 <= i < columns.len() implies has_column(batch, schema, log, #[trigger] columns[i] as int) by {
        let j = choose|j: int| 0 <= j < picked.len() && picked[j] == columns[i];
        assert(is_column(batch, j, schema, log, picked[j] as int));
    }
}

/// A batch that is read from a file has each column that is asked for, and no other, each once, with
/// its name, its type and the rows that were written to it. The columns come in the order in which
/// they are first asked for: what is asked for before a column stands before it.
pub proof fn batches_hold_the_columns_asked_for<I: InputFile>(
    reader: MosaicReader<I>,
    file: Seq<u8>,
    start: int,
    format: BucketFormat,
    schema: MosaicSchema,
    raw: Seq<u8>,
    logs: Seq<GroupLog>,
    stats: Seq<Vec<u8>>,
    rg_index: int,
    columns: Seq<usize>,
    group: RowGroupReader,
    batch: ColumnBatch,
)
    requires
        is_read(reader, file, start, format, schema, raw, logs, stats, rg_index, columns, group),
        group.is_batch(batch),
    ensures
        group.read_error(schema.num_buckets as nat) is None,
        batch.num_rows == logs[rg_index].num_rows,
        batch.columns@.len() == columns.to_set().len(),
        batch.fields@.len() == batch.columns@.len(),
        forall|i: int|
            0 <= i < columns.len() ==> has_column(batch, schema, logs[rg_index], #[trigger] columns[i] as int),
        exists|picked: Seq<usize>| #[trigger] are_columns(batch, schema, logs[rg_index], columns, picked),
{
    lemma_all_available(reader, file, start, format, schema, raw, logs, stats, rg_index, columns, group);
    lemma_batch(schema, logs[rg_index], columns, group, batch);
}

/// Columns that are asked for once each are picked as they are asked for.
proof fn lemma_picked_in_order(batch: ColumnBatch, schema: MosaicSchema, log: GroupLog, columns: Seq<usize>, picked: Seq<usize>, j: int)
    requires
        are_columns(batch, schema, log, columns, picked),
        columns.no_duplicates(),
        picked.len() == columns.len(),
        0 <= j < picked.len(),
    ensures
        picked[j] == columns[j],
    decreases j,
{
    assert forall|i: int| 0 <= i < j implies picked[i] == columns[i] by {
        lemma_picked_in_order(batch, schema, log, columns, picked, i);
    }
    let p = choose|p: int|
        0 <= p < columns.len() && #[trigger] columns[p] == picked[j] && forall|q: int|
            0 <= q < p ==> picked.take(j).contains(#[trigger] columns[q]);
    assert(columns[p] == picked[j]);
    if p < j {
        assert(picked[p] == columns[p]);
    } else if j < p {
        assert(picked.take(j).contains(columns[j]));
        let i = choose|i: int| 0 <= i < j && picked.take(j)[i] == columns[j];
        assert(picked[i] == columns[i]);
    }
}

/// A batch that is read without a projection has the fields that the file was made for, in their order,
/// each with the rows that were written to it.
pub proof fn batches_have_the_fields_of_the_file<I: InputFile>(
    reader: MosaicReader<I>,
    file: Seq<u8>,
    start: int,
    format: BucketFormat,
    schema: MosaicSchema,
    raw: Seq<u8>,
    logs: Seq<GroupLog>,
    stats: Seq<Vec<u8>>,
    rg_index: int,
    group: RowGroupReader,
    batch: ColumnBatch,
    map: Seq<usize>,
    fields: Seq<FieldSpec>,
    num_buckets: int,
)
    requires
        reader.projection() is None,
        is_read(reader, file, start, format, schema, raw, logs, stats, rg_index, reader.asked_for(), group),
        group.is_batch(batch),
        schema.lays_out(map, fields, num_buckets),
    ensures
        batch.num_rows == logs[rg_index].num_rows,
        batch.columns@.len() == fields.len(),
        batch.fields@.len() == fields.len(),
        forall|i: int|
            0 <= i < fields.len() ==> {
                let field = #[trigger] batch.fields@[i];
                &&& field.name@ == fields[i].name@
                &&& field.data_type == fields[i].data_type
                &&& field.nullable == fields[i].nullable
                &&& rows_of(fields[i].data_type, batch.columns@[i]) == logs[rg_index].rows[schema.original_order@[i] as int]
            },
{
    let columns = schema.original_order@;
    let log = logs[rg_index];
    lemma_all_available(reader, file, start, format, schema, raw, logs, stats, rg_index, columns, group);
    lemma_batch(schema, log, columns, group, batch);
    let picked = group.batch_columns();
    assert(columns.no_duplicates()) by {
        assert forall|i: int, j: int| 0 <= i < columns.len() && 0 <= j < columns.len() && i != j implies columns[i] != columns[j] by {
            assert(map[columns[i] as int] == i && map[columns[j] as int] == j);
        }
    }
    columns.unique_seq_to_set();
    assert forall|i: int| 0 <= i < fields.len() implies ({
        let field = #[trigger] batch.fields@[i];
        &&& field.name@ == fields[i].name@
        &&& field.data_type == fields[i].data_type
        &&& field.nullable == fields[i].nullable
        &&& rows_of(fields[i].data_type, batch.columns@[i]) == log.rows[columns[i] as int]
    }) by {
        lemma_picked_in_order(batch, schema, log, columns, picked, i);
        assert(is_column(batch, i, schema, log, picked[i] as int));
        let s = columns[i] as int;
        assert(columns[i] < schema.columns@.len());
        assert(map[columns[i] as int] == i);
        assert(column_of(schema.columns@[s], fields[map[s] as int]));
    }
}

/// The rows of field `i` in the first `n` batches, one behind the other.
pub open spec fn field_rows(batches: Seq<ColumnBatch>, dt: DataType, i: int, n: nat) -> Seq<Row>
    decreases n,
{
    if n == 0 {
        Seq::empty()
    } else {
        field_rows(batches, dt, i, (n - 1) as nat) + rows_of(dt, batches[n - 1].columns@[i])
    }
}

/// All rows that were written to a field stand in the batches of the row groups, in the order in which
/// they were written.
pub proof fn batches_hold_all_rows<I: InputFile>(
    reader: MosaicReader<I>,
    file: Seq<u8>,
    start: int,
    format: BucketFormat,
    schema: MosaicSchema,
    raw: Seq<u8>,
    logs: Seq<GroupLog>,
    stats: Seq<Vec<u8>>,
    groups: Seq<RowGroupReader>,
    batches: Seq<ColumnBatch>,
    map: Seq<usize>,
    fields: Seq<FieldSpec>,
    num_buckets: int,
    i: int,
    n: nat,
)
    requires
        groups.len() == logs.len(),
        batches.len() == logs.len(),
        forall|k: int|
            0 <= k < logs.len() ==> is_read(
                reader,
                file,
                start,
                format,
                schema,
                raw,
                logs,
                stats,
                k,
                reader.asked_for(),
                #[trigger] groups[k],
            ),
        reader.projection() is None,
        forall|k: int| 0 <= k < logs.len() ==> groups[k].is_batch(#[trigger] batches[k]),
        schema.lays_out(map, fields, num_buckets),
        0 <= i < fields.len(),
        n <= logs.len(),
    ensures
        field_rows(batches, fields[i].data_type, i, n) == logged_rows(logs, schema.original_order@[i] as int, n),
    decreases n,
{
    if n > 0 {
        batches_hold_all_rows(reader, file, start, format, schema, raw, logs, stats, groups, batches, map, fields, num_buckets, i, (n - 1) as nat);
        let k = n - 1;
        assert(groups[k].is_batch(batches[k]));
        batches_have_the_fields_of_the_file(
            reader,
            file,
            start,
            format,
            schema,
            raw,
            logs,
            stats,
            k,
            groups[k],
            batches[k],
            map,
            fields,
            num_buckets,
        );
        assert(batches[k].fields@[i].name@ == fields[i].name@);
    }
}

/// A batch of columns that are asked for by name has a column for each name, and none of another name.
/// The columns come in the order in which their names are first asked for.
pub proof fn batches_have_the_names_asked_for<I: InputFile>(
    reader: MosaicReader<I>,
    file: Seq<u8>,
    start: int,
    format: BucketFormat,
    schema: MosaicSchema,
    raw: Seq<u8>,
    logs: Seq<GroupLog>,
    stats: Seq<Vec<u8>>,
    rg_index: int,
    names: Seq<&str>,
    columns: Seq<usize>,
    group: RowGroupReader,
    batch: ColumnBatch,
)
    requires
        schema.names_found(names, columns),
        is_read(reader, file, start, format, schema, raw, logs, stats, rg_index, columns, group),
        group.is_batch(batch),
    ensures
        forall|i: int| 0 <= i < names.len() ==> has_field(batch, #[trigger] names[i]@),
        forall|j: int|
            0 <= j < batch.fields@.len() ==> exists|p: int|
                0 <= p < names.len() && #[trigger] names[p]@ == (#[trigger] batch.fields@[j]).name@ && forall|q: int|
                    0 <= q < p ==> is_named_before(batch, j, #[trigger] names[q]@),
{
    let log = logs[rg_index];
    lemma_all_available(reader, file, start, format, schema, raw, logs, stats, rg_index, columns, group);
    lemma_batch(schema, log, columns, group, batch);
    let picked = group.batch_columns();
    assert forall|i: int| 0 <= i < names.len() implies has_field(batch, #[trigger] names[i]@) by {
        assert(has_column(batch, schema, log, columns[i] as int));
        let j = choose|j: int| #[trigger] is_column(batch, j, schema, log, columns[i] as int);
        assert(batch.fields@[j].name@ == names[i]@);
    }
    assert forall|j: int| 0 <= j < batch.fields@.len() implies exists|p: int|
        0 <= p < names.len() && #[trigger] names[p]@ == (#[trigger] batch.fields@[j]).name@ && forall|q: int|
            0 <= q < p ==> is_named_before(batch, j, #[trigger] names[q]@) by {
        assert(is_column(batch, j, schema, log, picked[j] as int));
        let p = choose|p: int|
            0 <= p < columns.len() && #[trigger] columns[p] == picked[j] && forall|q: int|
                0 <= q < p ==> picked.take(j).contains(#[trigger] columns[q]);
        assert(columns[p] == picked[j]);
        assert(names[p]@ == batch.fields@[j].name@);
        assert forall|q: int| 0 <= q < p implies is_named_before(batch, j, #[trigger] names[q]@) by {
            assert(picked.take(j).contains(columns[q]));
            let i = choose|i: int| 0 <= i < j && picked.take(j)[i] == columns[q];
            assert(is_column(batch, i, schema, log, picked[i] as int));
            assert(batch.fields@[i].name@ == names[q]@);
        }
    }
}

/// A field of the batch has the given name.
pub open spec fn has_field(batch: ColumnBatch, name: Seq<char>) -> bool {
    exists|j: int| 0 <= j < batch.fields@.len() && (#[trigger] batch.fields@[j]).name@ == name
}

/// A field before field `j` of the batch has the given name.
pub open spec fn is_named_before(batch: ColumnBatch, j: int, name: Seq<char>) -> bool {
    exists|i: int| 0 <= i < j && (#[trigger] batch.fields@[i]).name@ == name
}

// ---------------------------------------------------------------- visits

/// What is handed over for column `g` of a group: its name, its type, and the column as it is stored.
pub open spec fn is_handed(handed: VisitedColumn, schema: MosaicSchema, group: RowGroupReader, g: int) -> bool {
    &&& handed.name == schema.columns@[g].name@
    &&& handed.data_type == schema.columns@[g].data_type
    &&& handed.nullable == schema.columns@[g].nullable
    &&& group.stored_column(g) == Ok::<EncodedColumnView, Error>(handed.column)
}

/// The picked columns are handed over, each once, in the order in which they are first asked for.
pub open spec fn are_handed(
    calls: Seq<(VisitedColumn, Result<(), Error>)>,
    schema: MosaicSchema,
    group: RowGroupReader,
    columns: Seq<usize>,
    picked: Seq<usize>,
) -> bool {
    &&& picked.len() == calls.len()
    &&& picked.no_duplicates()
    &&& forall|i: int| 0 <= i < columns.len() ==> picked.contains(#[trigger] columns[i])
    &&& forall|j: int| 0 <= j < picked.len() ==> is_handed(calls[j].0, schema, group, #[trigger] picked[j] as int) && calls[j].1 is Ok
    &&& forall|j: int|
        0 <= j < picked.len() ==> exists|p: int|
            0 <= p < columns.len() && #[trigger] columns[p] == #[trigger] picked[j] && forall|q: int|
                0 <= q < p ==> picked.take(j).contains(#[trigger] columns[q])
}

/// A visit of a group of a file is refused where a list or a map is asked for, and only there. One that
/// ends well has handed over each column that is asked for, and no other, each once.
pub proof fn visits_hand_over_the_columns_asked_for<I: InputFile>(
    reader: MosaicReader<I>,
    file: Seq<u8>,
    start: int,
    format: BucketFormat,
    schema: MosaicSchema,
    raw: Seq<u8>,
    logs: Seq<GroupLog>,
    stats: Seq<Vec<u8>>,
    rg_index: int,
    columns: Seq<usize>,
    group: RowGroupReader,
    calls: Seq<(VisitedColumn, Result<(), Error>)>,
)
    requires
        is_read(reader, file, start, format, schema, raw, logs, stats, rg_index, columns, group),
    ensures
        group.nested_error() is Some <==> exists|i: int|
            0 <= i < columns.len() && is_container_type(schema.columns@[#[trigger] columns[i] as int].data_type),
        is_visit(group.handed_columns(), calls, Ok::<(), Error>(()), Ok::<(), Error>(())) ==> calls.len() == columns.to_set().len()
            && exists|picked: Seq<usize>| #[trigger] are_handed(calls, schema, group, columns, picked),
{
    let picked = group.visited();
    let wanted = group.projected();
    assert forall|i: int| 0 <= i < columns.len() implies wanted[#[trigger] columns[i] as int] by {
        lemma_in_range(columns, schema.columns@.len() as int, columns.len(), i);
        assert(columns.contains(columns[i]));
    }
    lemma_all_listed(columns, wanted);
    assert forall|i: int| 0 <= i < columns.len() implies group.nested_at(i) == is_container_type(
        schema.columns@[#[trigger] columns[i] as int].data_type,
    ) by {}
    if exists|i: int| 0 <= i < columns.len() && is_container_type(schema.columns@[#[trigger] columns[i] as int].data_type) {
        let i = choose|i: int| 0 <= i < columns.len() && is_container_type(schema.columns@[#[trigger] columns[i] as int].data_type);
        group.lemma_nested(i);
    }
    if group.nested_error() is Some {
        let i = choose|i: int| #[trigger] group.first_nested(i);
        assert(is_container_type(schema.columns@[columns[i] as int].data_type));
    }
    if is_visit(group.handed_columns(), calls, Ok::<(), Error>(()), Ok::<(), Error>(())) {
        let things = group.handed_columns();
        assert forall|j: int| 0 <= j < picked.len() implies is_handed(calls[j].0, schema, group, #[trigger] picked[j] as int)
            && calls[j].1 is Ok by {
            let call = calls[j];
            assert(things[j] == group.visited_column(picked[j] as int));
        }
        assert(are_handed(calls, schema, group, columns, picked));
    }
}

} // verus!
