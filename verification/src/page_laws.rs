//! What is told of the pages of a file is what was written to it.
use vstd::prelude::*;
use crate::bucket_image::clamped;
use crate::bucket_output::{is_paged, joined_slots, slot_sizes, slots_of, BucketFormat};
use crate::bucket_writer::{all_child_metas, child_counts, lemma_all_metas_len, physical_types};
use crate::column::child_types;
use crate::error::Error;
use crate::file_laws::{
    asks_for, children_at, lemma_asked_bucket, lemma_asks, lemma_column_read, lemma_directory_read, lemma_monolithic_read,
    lemma_owner, lemma_slot_size,
};
use crate::format::{ENCODING_ALL_NULL, ENCODING_CONST, ENCODING_DICT, ENCODING_PLAIN};
use crate::input::{range_bytes, InputFile};
use crate::page_info::{
    are_pages, bucket_error, buckets_error, child_bytes, child_header, is_page, is_told, logical_slot_size, slot_encoding,
    slots_error, slots_in, PageInfo,
};
use crate::paged::{empty_slot_column, sum, words_at};
use crate::reader::{encoding_of_code, Encoding, MosaicReader};
use crate::row_group::{dir_size_of, GroupRequest};
use crate::row_group_reader::{is_place, lemma_place, place_of, RowGroupReader};
use crate::schema::MosaicSchema;
use crate::stored_laws::{answers, is_read, lemma_stored};
use crate::types::{physical_type, DataType};
use crate::writer::GroupLog;

verus! {

/// The slots of a bucket by pages that was written.
pub open spec fn written_slots(format: BucketFormat, log: GroupLog, b: int) -> Seq<Seq<u8>> {
    let w = log.buckets[b];
    slots_of(w.images(), format.zstd_level as int, w.images().len())->Ok_0
}

/// The sizes of the slots of a bucket are told as they were written.
proof fn lemma_sizes_told(req: GroupRequest, format: BucketFormat, schema: MosaicSchema, log: GroupLog, b: int)
    requires
        asks_for(req, format, schema, log),
        0 <= b < schema.num_buckets,
        req.needed(b),
        is_paged(format, log.buckets[b]),
    ensures
        slots_in(req, b) == Ok::<Seq<nat>, Error>(slot_sizes(written_slots(format, log, b))),
{
    lemma_asked_bucket(req, format, schema, log, b);
    lemma_directory_read(req, format, schema, log, b);
    let types = schema.bucket_types(b);
    let w = log.buckets[b];
    let counts = child_counts(w.types(), w.cells());
    let sizes = slot_sizes(written_slots(format, log, b));
    let n = physical_types(types).len();
    let first = req.first_bytes(b);
    let offset = req.meta.bucket_offsets[b];
    let dir_size = dir_size_of(types);
    let dir = range_bytes(req.contents, (offset, dir_size as usize));
    assert(dir_size <= req.total_size(b));
    assert(words_at(first, child_header(types), n) == sizes);
    assert forall|i: int| 0 <= i < n implies words_at(dir, child_header(types), n)[i] == #[trigger] words_at(first, child_header(types), n)[i] by {
        let at = child_header(types) + 4 * i;
        assert(dir.subrange(at, at + 4) =~= first.subrange(at, at + 4));
    }
    assert(words_at(dir, child_header(types), n) =~= sizes);
}

proof fn lemma_empty_slot(dt: DataType, rows: nat)
    ensures
        empty_slot_column(dt, rows) matches Ok(column) ==> column.encoding == ENCODING_ALL_NULL,
{
}

/// A slot is looked for where it stands.
proof fn lemma_slot_found(req: GroupRequest, format: BucketFormat, schema: MosaicSchema, log: GroupLog, b: int, k: int)
    requires
        asks_for(req, format, schema, log),
        0 <= b < schema.num_buckets,
        req.needed(b),
        is_paged(format, log.buckets[b]),
        0 <= k < schema.bucket_to_global@[b]@.len(),
    ensures
        ({
            let sizes = slot_sizes(written_slots(format, log, b));
            let start = req.meta.bucket_offsets[b] + dir_size_of(req.types[b]) + sum(sizes.take(k));
            &&& k < sizes.len()
            &&& sizes[k] <= u32::MAX
            &&& req.types[b] == schema.bucket_types(b)
            &&& req.types[b].len() == schema.bucket_to_global@[b]@.len()
            &&& req.directory(b) matches Ok(dir) && dir.sizes == sizes
            &&& req.slot_bytes(b, k) == range_bytes(req.contents, (start as u64, sizes[k] as usize))
        }),
{
    lemma_asked_bucket(req, format, schema, log, b);
    lemma_directory_read(req, format, schema, log, b);
    let slots = written_slots(format, log, b);
    lemma_slot_size(slots, slots.len(), k);
    assert(schema.bucket_types(b).len() == schema.bucket_to_global@[b]@.len());
}

/// What is told of the encoding of a column of a bucket by pages is the encoding that it is read with.
proof fn lemma_encoding_told(req: GroupRequest, format: BucketFormat, schema: MosaicSchema, log: GroupLog, b: int, k: int)
    requires
        asks_for(req, format, schema, log),
        0 <= b < schema.num_buckets,
        req.needed(b),
        is_paged(format, log.buckets[b]),
        0 <= k < schema.bucket_to_global@[b]@.len(),
    ensures
        req.column(b, k) matches Ok(column) && slot_encoding(req, b, slot_sizes(written_slots(format, log, b)), k) == Ok::<
            Encoding,
            Error,
        >(encoding_of_code(column.encoding)),
{
    let types = schema.bucket_types(b);
    lemma_slot_found(req, format, schema, log, b, k);
    assert(physical_types(types)[k] == physical_type(types[k]));
    lemma_column_read(req, format, schema, log, b, k);
    lemma_empty_slot(physical_types(types)[k], req.meta.num_rows);
}

/// The columns below a column are told to be below it, and no others are.
proof fn lemma_child_bytes(types: Seq<DataType>, sizes: Seq<nat>, local: int, n: nat)
    requires
        0 <= local < types.len(),
        types.len() <= usize::MAX,
        n <= all_child_metas(types, types.len()).len(),
        sizes.len() == types.len() + all_child_metas(types, types.len()).len(),
    ensures
        ({
            let from = children_at(types, local);
            let to = from + child_types(types[local]).len();
            let end = types.len() + n;
            child_bytes(all_child_metas(types, types.len()), sizes, types.len() as int, local, n) == (if end <= from {
                0
            } else if end <= to {
                sum(sizes.subrange(from, end as int))
            } else {
                sum(sizes.subrange(from, to))
            })
        }),
    decreases n,
{
    let from = children_at(types, local);
    let to = from + child_types(types[local]).len();
    let metas = all_child_metas(types, types.len());
    lemma_children_in_order(types, local, types.len() as int);
    assert(types.take(types.len() as int) =~= types);
    lemma_all_metas_len(types, types.len());
    assert(to <= sizes.len());
    if n == 0 {
        if from == types.len() {
            assert(sizes.subrange(from, from) =~= Seq::<nat>::empty());
        }
    } else {
        let i = types.len() + n - 1;
        lemma_child_bytes(types, sizes, local, (n - 1) as nat);
        let p = lemma_owner(types, i as int, types.len());
        if p < local {
            lemma_children_in_order(types, p, local);
        } else if local < p {
            lemma_children_in_order(types, local, p);
        }
        assert((p == local) == (from <= i < to));
        assert((metas[n - 1].parent_logical_col == local) == (p == local));
        if from <= i < to {
            assert(sizes.subrange(from, i + 1).drop_last() =~= sizes.subrange(from, i as int));
            assert(sizes.subrange(from, from) =~= Seq::<nat>::empty());
        } else if i < from {
            assert(sizes.subrange(from, from) =~= Seq::<nat>::empty());
        }
    }
}

/// The columns below a column come before those below a later one.
proof fn lemma_children_in_order(types: Seq<DataType>, p: int, q: int)
    requires
        0 <= p < q <= types.len(),
    ensures
        types.len() <= children_at(types, p),
        children_at(types, p) + child_types(types[p]).len() <= children_at(types, q),
    decreases q - p,
{
    crate::bucket_writer::lemma_all_child_types_push(types, p);
    if p + 1 < q {
        lemma_children_in_order(types, p + 1, q);
    }
}

/// The bytes of the slots of column `k` of a bucket and of the columns below it.
pub open spec fn slots_size(types: Seq<DataType>, slots: Seq<Seq<u8>>, k: int) -> nat {
    slots[k].len() + joined_slots(slots.subrange(children_at(types, k), children_at(types, k) + child_types(types[k]).len())).len()
}

proof fn lemma_joined_size(slots: Seq<Seq<u8>>)
    ensures
        joined_slots(slots).len() == sum(slot_sizes(slots)),
    decreases slots.len(),
{
    if slots.len() > 0 {
        lemma_joined_size(slots.drop_last());
        assert(slot_sizes(slots).drop_last() =~= slot_sizes(slots.drop_last()));
    }
}

/// The size that is told of a column is that of its slots and of those of the columns below it.
proof fn lemma_size_told(types: Seq<DataType>, slots: Seq<Seq<u8>>, k: int)
    requires
        0 <= k < types.len(),
        types.len() <= usize::MAX,
        slots.len() == physical_types(types).len(),
    ensures
        logical_slot_size(types, slot_sizes(slots), k) == clamped(slots_size(types, slots, k)),
{
    let sizes = slot_sizes(slots);
    let metas = all_child_metas(types, types.len());
    lemma_all_metas_len(types, types.len());
    assert(types.take(types.len() as int) =~= types);
    lemma_child_bytes(types, sizes, k, metas.len());
    lemma_children_in_order(types, k, types.len() as int);
    let from = children_at(types, k);
    let to = from + child_types(types[k]).len();
    let own = slots.subrange(from, to);
    lemma_joined_size(own);
    assert(slot_sizes(own) =~= sizes.subrange(from, to));
    if types.len() + metas.len() <= from {
        assert(sizes.subrange(from, to) =~= Seq::<nat>::empty());
    }
}

/// Nothing is wrong with what is told of a bucket that stands in the file.
proof fn lemma_bucket_told(req: GroupRequest, format: BucketFormat, schema: MosaicSchema, log: GroupLog, b: int, n: nat)
    requires
        asks_for(req, format, schema, log),
        0 <= b < schema.num_buckets,
        req.needed(b),
        is_paged(format, log.buckets[b]),
        n <= schema.bucket_to_global@[b]@.len(),
    ensures
        slots_error(req, b, slot_sizes(written_slots(format, log, b)), n) is None,
    decreases n,
{
    if n > 0 {
        lemma_bucket_told(req, format, schema, log, b, (n - 1) as nat);
        lemma_encoding_told(req, format, schema, log, b, n - 1);
    }
}

proof fn lemma_buckets_told(req: GroupRequest, format: BucketFormat, schema: MosaicSchema, log: GroupLog, n: nat)
    requires
        asks_for(req, format, schema, log),
        n <= schema.num_buckets,
    ensures
        buckets_error(req, n) is None,
    decreases n,
{
    if n > 0 {
        let b = n - 1;
        lemma_buckets_told(req, format, schema, log, (n - 1) as nat);
        if req.needed(b) {
            lemma_asked_bucket(req, format, schema, log, b);
            if is_paged(format, log.buckets[b]) {
                lemma_sizes_told(req, format, schema, log, b);
                lemma_bucket_told(req, format, schema, log, b, schema.bucket_to_global@[b]@.len());
            } else {
                lemma_monolithic_read(req, format, schema, log, b);
            }
        }
        assert(bucket_error(req, b) is None);
    }
}

/// What is told of a column is what it is read with.
proof fn lemma_told(
    group: RowGroupReader,
    req: GroupRequest,
    format: BucketFormat,
    schema: MosaicSchema,
    log: GroupLog,
    b: int,
    k: int,
    told: (Encoding, usize),
)
    requires
        asks_for(req, format, schema, log),
        answers(group, req, schema, log),
        0 <= b < schema.num_buckets,
        0 <= k < schema.bucket_to_global@[b]@.len(),
        req.projected[schema.bucket_to_global@[b]@[k] as int],
        is_told(req, b, k, told),
    ensures
        ({
            let g = schema.bucket_to_global@[b]@[k] as int;
            let w = log.buckets[b];
            &&& g < schema.columns@.len()
            &&& schema.columns@[g].bucket_id == b
            &&& place_of(schema, g) == k
            &&& group.stored_column(g) matches Ok(column) && told.0 == encoding_of_code(column.encoding)
            &&& told.1 == (if is_paged(format, w) {
                clamped(slots_size(schema.bucket_types(b), written_slots(format, log, b), k))
            } else {
                0
            })
        }),
{
    let g = schema.bucket_to_global@[b]@[k] as int;
    assert(schema.bucket_ok(b));
    assert(req.members[b] == schema.bucket_to_global@[b]@);
    assert(req.projected[req.members[b][k] as int]);
    assert(req.needed(b));
    assert(is_place(schema, g, k));
    lemma_place(schema, g, k);
    lemma_asked_bucket(req, format, schema, log, b);
    lemma_stored(group, req, format, schema, log, g);
    crate::file_laws::group_reads_back(req, format, schema, log);
    assert(req.states()[b] == req.state(b));
    if is_paged(format, log.buckets[b]) {
        lemma_sizes_told(req, format, schema, log, b);
        lemma_encoding_told(req, format, schema, log, b, k);
        lemma_slot_found(req, format, schema, log, b, k);
        lemma_directory_read(req, format, schema, log, b);
        assert(schema.bucket_to_global@[b].len() == schema.bucket_to_global@[b]@.len());
        lemma_size_told(schema.bucket_types(b), written_slots(format, log, b), k);
    } else {
        lemma_monolithic_read(req, format, schema, log, b);
    }
}

/// The pages of some columns of a file can be told, and each column that is asked for is among them
/// once, with its bucket, the encoding that it is read with, and the bytes that its slots take in the
/// file; outside of buckets by pages these are none.
pub proof fn pages_tell_of_the_columns<I: InputFile>(
    reader: MosaicReader<I>,
    file: Seq<u8>,
    start: int,
    format: BucketFormat,
    schema: MosaicSchema,
    raw: Seq<u8>,
    logs: Seq<GroupLog>,
    stats: Seq<Vec<u8>>,
    rg_index: int,
    columns: Seq<usize>,
    group: RowGroupReader,
    infos: Seq<PageInfo>,
)
    requires
        is_read(reader, file, start, format, schema, raw, logs, stats, rg_index, columns, group),
        are_pages(reader.request(rg_index, columns), infos),
    ensures
        reader.pages_error(rg_index, columns) is None,
        forall|g: int|
            0 <= g < schema.columns@.len() && #[trigger] columns.contains(g as usize) ==> exists|i: int|
                0 <= i < infos.len() && (#[trigger] infos[i]).column_index == g,
        forall|i: int, j: int| 0 <= i < j < infos.len() ==> (#[trigger] infos[i]).column_index < (#[trigger] infos[j]).column_index,
        forall|i: int|
            0 <= i < infos.len() ==> {
                let g = (#[trigger] infos[i]).column_index as int;
                let w = logs[rg_index].buckets[schema.columns@[g].bucket_id as int];
                &&& g < schema.columns@.len()
                &&& columns.contains(g as usize)
                &&& infos[i].bucket == schema.columns@[g].bucket_id
                &&& group.stored_column(g) matches Ok(column) && {
                    &&& column.encoding == ENCODING_PLAIN <==> infos[i].encoding is Plain
                    &&& column.encoding == ENCODING_CONST <==> infos[i].encoding is Const
                    &&& column.encoding == ENCODING_DICT <==> infos[i].encoding is Dict
                    &&& column.encoding == ENCODING_ALL_NULL <==> infos[i].encoding is AllNull
                }
                &&& !is_paged(format, w) ==> infos[i].slot_size == 0
                &&& is_paged(format, w) ==> infos[i].slot_size == clamped(
                    slots_size(
                        w.types(),
                        written_slots(format, logs[rg_index], infos[i].bucket as int),
                        place_of(schema, g),
                    ),
                )
            },
{
    let log = logs[rg_index];
    let req = reader.request(rg_index, columns);
    lemma_asks(reader, file, start, format, schema, raw, logs, stats, rg_index, columns);
    lemma_buckets_told(req, format, schema, log, schema.num_buckets as nat);
    assert forall|g: int| 0 <= g < schema.columns@.len() && #[trigger] columns.contains(g as usize) implies exists|i: int|
        0 <= i < infos.len() && (#[trigger] infos[i]).column_index == g by {
        assert(req.projected[g]);
    }
    assert(req.members.len() == schema.num_buckets);
    assert forall|i: int| 0 <= i < infos.len() implies ({
        let g = (#[trigger] infos[i]).column_index as int;
        let w = log.buckets[schema.columns@[g].bucket_id as int];
        &&& g < schema.columns@.len()
        &&& columns.contains(g as usize)
        &&& infos[i].bucket == schema.columns@[g].bucket_id
        &&& group.stored_column(g) matches Ok(column) && infos[i].encoding == encoding_of_code(column.encoding)
        &&& !is_paged(format, w) ==> infos[i].slot_size == 0
        &&& is_paged(format, w) ==> infos[i].slot_size == clamped(
            slots_size(w.types(), written_slots(format, log, infos[i].bucket as int), place_of(schema, g)),
        )
    }) by {
        let info = infos[i];
        let b = info.bucket as int;
        let local = choose|local: int| is_page(req, b, local, info);
        assert(is_page(req, b, local, info));
        assert(req.members[b] == schema.bucket_to_global@[b]@);
        lemma_told(group, req, format, schema, log, b, local, (info.encoding, info.slot_size));
        assert(req.needed(b));
        lemma_asked_bucket(req, format, schema, log, b);
    }
}

} // verus!
