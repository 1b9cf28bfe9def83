//! The object of a row group of a file is read as what was written to the file.
use vstd::prelude::*;
use vstd::utf8::encode_utf8;
use crate::batch_laws::{lemma_all_listed, lemma_in_range};
use crate::bucket_output::BucketFormat;
use crate::column::Row;
use crate::input::InputFile;
use crate::json_doubles::PlanView;
use crate::json_reads_back::{
    cut_at_commas, has_simple_doubles, joined_by_commas, objects_read_back, tells, tells_column, tells_rows,
};
use crate::json_strings::read_object;
use crate::json_writer::object_json;
use crate::reader::MosaicReader;
use crate::row_group_reader::RowGroupReader;
use crate::schema::MosaicSchema;
use crate::stored_laws::{is_read, stored_values_read_back};
use crate::types::{is_container_type, DataType};
use crate::writer::GroupLog;

verus! {

/// The texts are read as the rows: nothing for a row that is null, and else the value of the row. They
/// stand in the text with commas between them; where the values are no texts, there is one part for
/// each row between the commas.
pub open spec fn tells_written(dt: DataType, rows: Seq<Row>, plan: PlanView, texts: Seq<Seq<u8>>, text: Seq<u8>) -> bool {
    &&& texts.len() == rows.len()
    &&& text == joined_by_commas(texts)
    &&& !(dt is Utf8) && rows.len() > 0 ==> cut_at_commas(text) == texts
    &&& forall|r: int|
        0 <= r < rows.len() ==> match #[trigger] rows[r] {
            Row::Null => texts[r].len() == 0,
            Row::Leaf(v) => tells(dt, v, plan, texts[r]),
            _ => false,
        }
}

/// The member of an object is the column `g` of a file.
pub open spec fn is_member(part: (Seq<u8>, Seq<u8>), schema: MosaicSchema, log: GroupLog, plan: PlanView, g: int) -> bool {
    &&& part.0 == encode_utf8(schema.columns@[g].name@)
    &&& exists|texts: Seq<Seq<u8>>| #[trigger] tells_written(schema.columns@[g].data_type, log.rows[g], plan, texts, part.1)
}

/// The members of an object are the picked columns, each once, in the order in which they are first
/// asked for: what is asked for before a column stands before it.
pub open spec fn are_members(
    parts: Seq<(Seq<u8>, Seq<u8>)>,
    schema: MosaicSchema,
    log: GroupLog,
    plan: PlanView,
    columns: Seq<usize>,
    picked: Seq<usize>,
) -> bool {
    &&& picked.len() == parts.len()
    &&& picked.no_duplicates()
    &&& forall|i: int| 0 <= i < columns.len() ==> picked.contains(#[trigger] columns[i])
    &&& forall|j: int| 0 <= j < picked.len() ==> is_member(parts[j], schema, log, plan, #[trigger] picked[j] as int)
    &&& forall|j: int|
        0 <= j < picked.len() ==> exists|p: int|
            0 <= p < columns.len() && #[trigger] columns[p] == #[trigger] picked[j] && forall|q: int|
                0 <= q < p ==> picked.take(j).contains(#[trigger] columns[q])
}

proof fn lemma_member<I: InputFile>(
    reader: MosaicReader<I>,
    file: Seq<u8>,
    start: int,
    format: BucketFormat,
    schema: MosaicSchema,
    raw: Seq<u8>,
    logs: Seq<GroupLog>,
    stats: Seq<Vec<u8>>,
    rg_index: int,
    columns: Seq<usize>,
    group: RowGroupReader,
    plan: PlanView,
    g: int,
    part: (Seq<u8>, Seq<u8>),
)
    requires
        is_read(reader, file, start, format, schema, raw, logs, stats, rg_index, columns, group),
        0 <= g < schema.columns@.len(),
        columns.contains(g as usize),
        !is_container_type(schema.columns@[g].data_type),
        part.0 == encode_utf8(schema.columns@[g].name@),
        group.stored_column(g) matches Ok(c) && tells_rows(schema.columns@[g].data_type, c, plan, part.1),
        logs[rg_index].rows[g].len() == logs[rg_index].num_rows,
    ensures
        is_member(part, schema, logs[rg_index], plan, g),
{
    let dt = schema.columns@[g].data_type;
    let rows = logs[rg_index].rows[g];
    let c = group.stored_column(g)->Ok_0;
    let texts = choose|texts: Seq<Seq<u8>>| #[trigger] tells_column(dt, c, plan, texts, part.1);
    if rows.len() > 0 {
        stored_values_read_back(reader, file, start, format, schema, raw, logs, stats, rg_index, columns, group, g, 0);
    } else {
        crate::stored_laws::stored_rows_are_counted(reader, file, start, format, schema, raw, logs, stats, rg_index, columns, group, g);
    }
    assert forall|r: int| 0 <= r < rows.len() implies match #[trigger] rows[r] {
        Row::Null => texts[r].len() == 0,
        Row::Leaf(v) => tells(dt, v, plan, texts[r]),
        _ => false,
    } by {
        stored_values_read_back(reader, file, start, format, schema, raw, logs, stats, rg_index, columns, group, g, r);
        assert(c.value_at(r) is Ok);
    }
    assert(tells_written(dt, rows, plan, texts, part.1));
}

/// The object that is written of some columns of a file is read as these columns: each once, in the
/// order in which they are first asked for, with its name and the values that were written to it.
pub proof fn objects_hold_the_columns_asked_for<I: InputFile>(
    reader: MosaicReader<I>,
    file: Seq<u8>,
    start: int,
    format: BucketFormat,
    schema: MosaicSchema,
    raw: Seq<u8>,
    logs: Seq<GroupLog>,
    stats: Seq<Vec<u8>>,
    rg_index: int,
    columns: Seq<usize>,
    group: RowGroupReader,
    plan: PlanView,
)
    requires
        is_read(reader, file, start, format, schema, raw, logs, stats, rg_index, columns, group),
        object_json(group, plan) is Ok,
        has_simple_doubles(plan),
    ensures
        read_object(object_json(group, plan)->Ok_0) matches Some(parts) && parts.len() == columns.to_set().len() && exists|picked: Seq<
            usize,
        >| #[trigger] are_members(parts, schema, logs[rg_index], plan, columns, picked),
{
    let picked = group.visited();
    let wanted = group.projected();
    objects_read_back(group, plan);
    let parts = read_object(object_json(group, plan)->Ok_0)->0;
    assert forall|i: int| 0 <= i < columns.len() implies wanted[#[trigger] columns[i] as int] by {
        lemma_in_range(columns, schema.columns@.len() as int, columns.len(), i);
        assert(columns.contains(columns[i]));
    }
    lemma_all_listed(columns, wanted);
    group.visited_columns(columns.len());
    assert forall|j: int| 0 <= j < picked.len() implies is_member(parts[j], schema, logs[rg_index], plan, #[trigger] picked[j] as int) by {
        let g = picked[j] as int;
        let p = choose|p: int| 0 <= p < columns.len() && #[trigger] columns[p] == picked[j];
        assert(columns[p] == picked[j]);
        assert(columns.contains(g as usize));
        assert(picked[j] < schema.columns@.len());
        crate::stored_laws::stored_rows_are_counted(reader, file, start, format, schema, raw, logs, stats, rg_index, columns, group, g);
        let part = parts[j];
        lemma_member(reader, file, start, format, schema, raw, logs, stats, rg_index, columns, group, plan, g, part);
    }
    assert(are_members(parts, schema, logs[rg_index], plan, columns, picked));
}

} // verus!
