//! What is read from a file is what was written to it.
use vstd::prelude::*;
use crate::batch::members_rows;
use crate::bucket_laws::{bucket_reads_back, lemma_all_assembled, lemma_cells_taken, page_or_empty, page_reads_back, physical_read,
    row_fits, rows_fit};
use crate::bucket_output::{
    bucket_bytes, bucket_layout, is_paged, joined_slots, slot_restorable, slot_size_error, slot_sizes, slots_of,
    BucketFormat,
};
use crate::bucket_reader::rows_in;
use crate::bucket_writer::{
    all_child_metas, all_child_types, child_counts, container_metas, element_metas, lemma_all_child_len,
    lemma_all_child_types_push, lemma_all_metas_len, lemma_batch_len, lemma_child_place, lemma_metas_len, max_rows,
    physical_columns, physical_types, BucketWriter, ChildColumnRole,
};
use crate::column::{child_columns, child_types, element_types, lemma_no_rows, own_cells, Row};
use crate::column_writer::{column_image, present, Cells, ColumnImage, DictLimits};
use crate::compression::sha256;
use crate::error::Error;
use crate::format::{ENCODING_ALL_NULL, FOOTER_SIZE};
use crate::input::InputFile;
use crate::paged::{directory_bytes, directory_reads_back, lemma_words_len, slot_content, slot_of, slot_reads_back, sum};
use crate::read_back::{all_taken, decoded_rows, is_written, stands_at};
use crate::row_group::{dir_size_of, projection_error, request_of, slot_or_empty, GroupRequest};
use crate::row_group_reader::{bucket_result, is_place, null_rows_of, place_of, slot_rows, unread_rows, RowGroupReader};
use crate::codec::{be_bytes, lemma_be_bytes_len, lemma_be_value_of_bytes, lemma_pow256};
use crate::footer::{file_meta, footer_bytes, footer_reads_back, offsets_in_order, schema_of_block, Footer};
use crate::reader::{group_views, index_groups, row_groups_at, MosaicReader};
use crate::row_index::{
    bucket_size, can_be_told, row_group_at, row_group_bytes, row_group_error, row_group_reads_back, RowGroupView,
};
use crate::schema::MosaicSchema;
use crate::types::{width_of, DataType};
use crate::varint::varint_bytes;
use crate::writer::{
    all_logged, bucket_start, buckets_bytes, group_of, groups_of, holds_rows, index_bytes, is_file, is_logged,
    is_restorable, logged_rows, rows_ok, schema_body, schema_restorable, stats_at, GroupLog,
};

verus! {

// ---------------------------------------------------------------- where buckets stand

proof fn lemma_prefix(format: BucketFormat, ws: Seq<BucketWriter>, b: int, n: nat)
    requires
        0 <= b < n,
        buckets_bytes(format, ws, n) is Ok,
        ws[b].rows() > 0,
    ensures
        buckets_bytes(format, ws, b as nat) is Ok,
        bucket_bytes(format, ws[b]) is Ok,
        buckets_bytes(format, ws, b as nat)->Ok_0.len() + bucket_bytes(format, ws[b])->Ok_0.len() <= buckets_bytes(format, ws, n)->Ok_0.len(),
        buckets_bytes(format, ws, n)->Ok_0.subrange(
            buckets_bytes(format, ws, b as nat)->Ok_0.len() as int,
            (buckets_bytes(format, ws, b as nat)->Ok_0.len() + bucket_bytes(format, ws[b])->Ok_0.len()) as int,
        ) == bucket_bytes(format, ws[b])->Ok_0,
    decreases n,
{
    let all = buckets_bytes(format, ws, n)->Ok_0;
    if b == n - 1 {
        let before = buckets_bytes(format, ws, b as nat)->Ok_0;
        let own = bucket_bytes(format, ws[b])->Ok_0;
        assert(all == before + own);
        assert(all.subrange(before.len() as int, all.len() as int) =~= own);
    } else {
        lemma_prefix(format, ws, b, (n - 1) as nat);
        let before = buckets_bytes(format, ws, b as nat)->Ok_0;
        let own = bucket_bytes(format, ws[b])->Ok_0;
        let most = buckets_bytes(format, ws, (n - 1) as nat)->Ok_0;
        assert(all.subrange(before.len() as int, (before.len() + own.len()) as int) =~= most.subrange(
            before.len() as int,
            (before.len() + own.len()) as int,
        ));
    }
}

/// A bucket stands in the file where the index tells.
proof fn lemma_bucket_stands(format: BucketFormat, schema: MosaicSchema, log: GroupLog, file: Seq<u8>, b: int)
    requires
        is_logged(format, schema, log, file),
        0 <= b < log.buckets.len(),
        log.buckets[b].rows() > 0,
    ensures
        bucket_bytes(format, log.buckets[b]) matches Ok(bytes) && stands_at(
            file,
            (log.start + bucket_start(format, log.buckets, b)) as int,
            bytes,
        ),
{
    let ws = log.buckets;
    lemma_prefix(format, ws, b, ws.len());
    let all = buckets_bytes(format, ws, ws.len())->Ok_0;
    let own = bucket_bytes(format, ws[b])->Ok_0;
    let at = bucket_start(format, ws, b) as int;
    assert(file.subrange(log.start + at, log.start + at + own.len()) =~= file.subrange(
        log.start as int,
        (log.start + all.len()) as int,
    ).subrange(at, at + own.len()));
}

// ---------------------------------------------------------------- children and their columns

proof fn lemma_parents(parent: int, length: int, role: ChildColumnRole, dt: DataType, next: int)
    ensures
        forall|i: int|
            0 <= i < container_metas(parent, length, dt, next).len() ==> (#[trigger] container_metas(parent, length, dt, next)[i]).parent_logical_col
                == parent as usize,
        forall|i: int|
            0 <= i < element_metas(parent, length, role, dt, next).len() ==> (#[trigger] element_metas(
                parent,
                length,
                role,
                dt,
                next,
            )[i]).parent_logical_col == parent as usize,
    decreases dt,
{
    match dt {
        DataType::ListOf(element, _) => {
            lemma_parents(parent, length, ChildColumnRole::ListElement, *element, next);
            lemma_parents(parent, next, ChildColumnRole::ListElement, *element, next + 1);
        },
        DataType::MapOf(key, value, _) => {
            lemma_parents(parent, length, ChildColumnRole::MapKey, *key, next);
            lemma_parents(parent, length, ChildColumnRole::MapValue, *value, next + element_types(*key).len());
            lemma_parents(parent, next, ChildColumnRole::MapKey, *key, next + 1);
            lemma_parents(parent, next, ChildColumnRole::MapValue, *value, next + 1 + element_types(*key).len());
        },
        _ => {},
    }
}

/// Where the columns below column `p` start among the physical columns.
pub open spec fn children_at(types: Seq<DataType>, p: int) -> int {
    (types.len() + all_child_types(types.take(p)).len()) as int
}

/// The column that a child column is below.
pub proof fn lemma_owner(types: Seq<DataType>, i: int, n: nat) -> (p: int)
    requires
        n <= types.len(),
        types.len() <= i < children_at(types, n as int),
    ensures
        0 <= p < n,
        children_at(types, p) <= i < children_at(types, p) + child_types(types[p]).len(),
        i - types.len() < all_child_metas(types, n).len(),
        all_child_metas(types, n)[i - types.len()].parent_logical_col == p as usize,
    decreases n,
{
    if n == 0 {
        assert(types.take(0) =~= Seq::<DataType>::empty());
        0
    } else {
        lemma_all_metas_len(types, n);
        lemma_all_metas_len(types, (n - 1) as nat);
        lemma_all_child_types_push(types, n - 1);
        let next = children_at(types, n - 1);
        lemma_metas_len(n - 1, n - 1, ChildColumnRole::ListElement, types[n - 1], next);
        if i < next {
            let p = lemma_owner(types, i, (n - 1) as nat);
            assert(all_child_metas(types, n)[i - types.len()] == all_child_metas(types, (n - 1) as nat)[i - types.len()]);
            p
        } else {
            lemma_parents(n - 1, n - 1, ChildColumnRole::ListElement, types[n - 1], next);
            let own = container_metas(n - 1, n - 1, types[n - 1], next);
            assert(all_child_metas(types, n)[i - types.len()] == own[i - next]);
            n - 1
        }
    }
}

// ---------------------------------------------------------------- slots

pub proof fn lemma_slots_len(images: Seq<ColumnImage>, level: int, n: nat)
    requires
        slots_of(images, level, n) is Ok,
    ensures
        slots_of(images, level, n)->Ok_0.len() == n,
    decreases n,
{
    if n > 0 {
        lemma_slots_len(images, level, (n - 1) as nat);
    }
}

proof fn lemma_slots_at(images: Seq<ColumnImage>, level: int, n: nat, i: int)
    requires
        slots_of(images, level, n) is Ok,
        0 <= i < n,
    ensures
        slot_of(images[i], level) == Ok::<Seq<u8>, Error>(slots_of(images, level, n)->Ok_0[i]),
    decreases n,
{
    lemma_slots_len(images, level, (n - 1) as nat);
    if i < n - 1 {
        lemma_slots_at(images, level, (n - 1) as nat, i);
    }
}

pub proof fn lemma_slot_size(slots: Seq<Seq<u8>>, n: nat, i: int)
    requires
        slot_size_error(slots, n) is None,
        0 <= i < n,
    ensures
        slots[i].len() <= u32::MAX,
    decreases n,
{
    if i < n - 1 {
        lemma_slot_size(slots, (n - 1) as nat, i);
    }
}

pub proof fn lemma_joined_slots(slots: Seq<Seq<u8>>, i: int)
    requires
        0 <= i < slots.len(),
    ensures
        joined_slots(slots).len() == sum(slot_sizes(slots)),
        sum(slot_sizes(slots).take(i)) + slots[i].len() <= joined_slots(slots).len(),
        joined_slots(slots).subrange(
            sum(slot_sizes(slots).take(i)) as int,
            (sum(slot_sizes(slots).take(i)) + slots[i].len()) as int,
        ) == slots[i],
    decreases slots.len(),
{
    let front = slots.drop_last();
    let sizes = slot_sizes(slots);
    assert(sizes.drop_last() =~= slot_sizes(front));
    if front.len() > 0 {
        if i < front.len() {
            lemma_joined_slots(front, i);
            assert(slot_sizes(front).take(i) =~= sizes.take(i));
            let at = sum(sizes.take(i)) as int;
            assert(joined_slots(slots).subrange(at, at + slots[i].len()) =~= joined_slots(front).subrange(at, at + slots[i].len()));
        } else {
            lemma_joined_slots(front, 0);
            assert(sizes.take(i) =~= slot_sizes(front));
            assert(joined_slots(slots).subrange(joined_slots(front).len() as int, joined_slots(slots).len() as int) =~= slots[i]);
        }
    } else {
        assert(sizes.take(0) =~= Seq::<nat>::empty());
        assert(joined_slots(front) =~= Seq::<u8>::empty());
        assert(joined_slots(slots) =~= slots[0]);
        assert(joined_slots(slots).subrange(0, slots[0].len() as int) =~= slots[0]);
    }
}

/// The cells of a column are read back from its slot.
proof fn lemma_slot_reads(dt: DataType, cells: Cells, limits: DictLimits, level: int, slot: Seq<u8>)
    requires
        limits.wf(),
        cells.len() <= max_rows(),
        all_taken(dt, present(cells)),
        slot_of(column_image(cells, width_of(dt), limits), level) == Ok::<Seq<u8>, Error>(slot),
        slot_restorable(column_image(cells, width_of(dt), limits), slot),
    ensures
        slot_or_empty(slot.len(), slot, dt, cells.len()) matches Ok(column) && column.rows_result() == Ok::<Seq<Row>, Error>(
            decoded_rows(dt, cells),
        ) && is_written(column, dt, cells, limits),
{
    let image = column_image(cells, width_of(dt), limits);
    if image.encoding == ENCODING_ALL_NULL {
        let nothing = Seq::<u8>::empty();
        assert(page_or_empty(image) =~= nothing);
        assert(nothing.subrange(0, 0) =~= nothing);
        page_reads_back(dt, cells, limits, nothing, 0);
    } else {
        let content = slot_content(image);
        let head = varint_bytes(content.len());
        let block = slot.skip(head.len() as int);
        assert(slot =~= head + block);
        assert(head.len() > 0);
        slot_reads_back(dt, cells, limits, block);
    }
}

// ---------------------------------------------------------------- buckets

/// The directory of a bucket can tell its child columns: their number has 16 bits there.
pub open spec fn children_can_be_told(format: BucketFormat, w: BucketWriter) -> bool {
    w.rows() > 0 && is_paged(format, w) ==> child_counts(w.types(), w.cells()).len() <= u16::MAX
}

/// Some columns of a row group that stands in the file are asked for.
pub open spec fn asks_for(req: GroupRequest, format: BucketFormat, schema: MosaicSchema, log: GroupLog) -> bool {
    &&& schema.wf()
    &&& req == request_of(schema, group_of(format, log), format.compression, req.contents, req.projected)
    &&& req.projected.len() == schema.columns@.len()
    &&& req.contents.len() <= u64::MAX
    &&& is_logged(format, schema, log, req.contents)
    &&& forall|b: int| 0 <= b < log.buckets.len() ==> children_can_be_told(format, #[trigger] log.buckets[b])
}

/// The rows of the columns of bucket `b` that are asked for; others are null.
pub open spec fn seen_rows(req: GroupRequest, schema: MosaicSchema, log: GroupLog, b: int) -> Seq<Seq<Row>> {
    Seq::new(
        schema.bucket_to_global@[b]@.len(),
        |k: int|
            if req.projected[schema.bucket_to_global@[b]@[k] as int] {
                log.rows[schema.bucket_to_global@[b]@[k] as int]
            } else {
                null_rows_of(log.num_rows)
            },
    )
}

/// Where a bucket that is asked for stands, and what the request says of it.
pub proof fn lemma_asked_bucket(req: GroupRequest, format: BucketFormat, schema: MosaicSchema, log: GroupLog, b: int)
    requires
        asks_for(req, format, schema, log),
        0 <= b < schema.num_buckets,
        req.needed(b),
    ensures
        ({
            let w = log.buckets[b];
            &&& log.buckets.len() == schema.num_buckets
            &&& req.members.len() == schema.num_buckets
            &&& req.members[b] == schema.bucket_to_global@[b]@
            &&& req.types[b] == schema.bucket_types(b)
            &&& holds_rows(schema, w, log.rows, log.num_rows, b)
            &&& w.rows() == log.num_rows
            &&& w.rows() > 0
            &&& is_restorable(format, w)
            &&& req.layout(b) == bucket_layout(format, w, bucket_bytes(format, w)->Ok_0)
            &&& req.total_size(b) == bucket_bytes(format, w)->Ok_0.len()
            &&& stands_at(req.contents, req.meta.bucket_offsets[b] as int, bucket_bytes(format, w)->Ok_0)
            &&& w.dict_limits().wf()
        }),
{
    let w = log.buckets[b];
    let k = choose|k: int| 0 <= k < req.members[b].len() && req.projected[#[trigger] req.members[b][k] as int];
    assert(req.members[b].len() > 0);
    assert(holds_rows(schema, log.buckets[b], log.rows, log.num_rows, b));
    assert(is_restorable(format, log.buckets[b]));
    lemma_bucket_stands(format, schema, log, req.contents, b);
    w.lemma_wf();
}

/// The rows of the columns of a bucket fit.
pub proof fn lemma_member_rows_fit(schema: MosaicSchema, log: GroupLog, b: int)
    requires
        schema.wf(),
        0 <= b < schema.num_buckets,
        rows_ok(schema, log.rows, log.num_rows),
    ensures
        schema.bucket_types(b).len() == members_rows(schema, log.rows, b).len(),
        forall|k: int|
            0 <= k < schema.bucket_types(b).len() ==> rows_fit(
                schema.bucket_types(b)[k],
                #[trigger] members_rows(schema, log.rows, b)[k],
            ) && members_rows(schema, log.rows, b)[k].len() == log.num_rows,
{
    assert(schema.bucket_ok(b));
    assert forall|k: int| 0 <= k < schema.bucket_types(b).len() implies rows_fit(
        schema.bucket_types(b)[k],
        #[trigger] members_rows(schema, log.rows, b)[k],
    ) && members_rows(schema, log.rows, b)[k].len() == log.num_rows by {
        assert(schema.bucket_to_global@[b]@[k] < schema.columns@.len());
        assert(log.rows[schema.bucket_to_global@[b]@[k] as int].len() == log.num_rows);
    }
}

/// A bucket in one piece is read back.
pub proof fn lemma_monolithic_read(req: GroupRequest, format: BucketFormat, schema: MosaicSchema, log: GroupLog, b: int)
    requires
        asks_for(req, format, schema, log),
        0 <= b < schema.num_buckets,
        req.needed(b),
        !is_paged(format, log.buckets[b]),
    ensures
        req.monolithic_data(b) == Ok::<Seq<u8>, Error>(log.buckets[b].image()),
        req.plan_error(b) is None,
        req.first_round_error(b) is None,
        req.second_round_error(b) is None,
        req.state(b) matches Some(state) && bucket_result(schema.bucket_types(b), state, log.num_rows) == Ok::<Seq<Seq<Row>>, Error>(
            members_rows(schema, log.rows, b),
        ),
{
    lemma_asked_bucket(req, format, schema, log, b);
    lemma_member_rows_fit(schema, log, b);
    let w = log.buckets[b];
    let types = schema.bucket_types(b);
    let rows = members_rows(schema, log.rows, b);
    let bytes = bucket_bytes(format, w)->Ok_0;
    assert(schema.bucket_ok(b));
    w.lemma_wf();
    assert(children_can_be_told(format, log.buckets[b]));
    bucket_reads_back(types, rows, w.dict_limits(), log.num_rows);
    assert(req.first_bytes(b) =~= bytes);
    assert(req.monolithic_data(b) == Ok::<Seq<u8>, Error>(w.image()));
}

// ---------------------------------------------------------------- buckets by pages

/// The directory of a bucket by pages is read back.
pub proof fn lemma_directory_read(req: GroupRequest, format: BucketFormat, schema: MosaicSchema, log: GroupLog, b: int)
    requires
        asks_for(req, format, schema, log),
        0 <= b < schema.num_buckets,
        req.needed(b),
        is_paged(format, log.buckets[b]),
    ensures
        ({
            let w = log.buckets[b];
            let slots = slots_of(w.images(), format.zstd_level as int, w.images().len())->Ok_0;
            let counts = child_counts(w.types(), w.cells());
            let sizes = slot_sizes(slots);
            &&& slots_of(w.images(), format.zstd_level as int, w.images().len()) is Ok
            &&& w.images().len() == physical_types(w.types()).len()
            &&& slots.len() == w.images().len()
            &&& dir_size_of(schema.bucket_types(b)) == directory_bytes(counts, sizes).len()
            &&& req.plan_error(b) is None
            &&& req.directory(b) matches Ok(dir) && dir.counts == counts && dir.sizes == sizes && dir.dir_size == directory_bytes(
                counts,
                sizes,
            ).len()
            &&& bucket_bytes(format, w) == Ok::<Seq<u8>, Error>(directory_bytes(counts, sizes) + joined_slots(slots))
        }),
{
    lemma_asked_bucket(req, format, schema, log, b);
    let w = log.buckets[b];
    let types = schema.bucket_types(b);
    let level = format.zstd_level as int;
    let slots = slots_of(w.images(), level, w.images().len())->Ok_0;
    let counts = child_counts(w.types(), w.cells());
    let sizes = slot_sizes(slots);
    let bytes = bucket_bytes(format, w)->Ok_0;
    let dir = directory_bytes(counts, sizes);
    w.lemma_wf();
    assert(children_can_be_told(format, log.buckets[b]));
    lemma_slots_len(w.images(), level, w.images().len());
    assert forall|i: int| 0 <= i < sizes.len() implies (#[trigger] sizes[i]) <= u32::MAX by {
        lemma_slot_size(slots, slots.len(), i);
    }
    assert(bytes == dir + joined_slots(slots));
    lemma_words_len(counts);
    lemma_words_len(sizes);
    lemma_all_metas_len(types, types.len());
    assert(types.take(types.len() as int) =~= types);
    assert(counts.len() == all_child_types(types).len());
    crate::paged::lemma_le_bytes_len(counts.len(), 2);
    assert(dir_size_of(types) == dir.len());
    let first = req.first_bytes(b);
    let offset = req.meta.bucket_offsets[b] as int;
    assert(first.len() >= dir.len());
    assert(first.subrange(0, dir.len() as int) =~= bytes.subrange(0, dir.len() as int)) by {
        assert(bytes == req.contents.subrange(offset, offset + bytes.len()));
    }
    assert(bytes.subrange(0, dir.len() as int) =~= dir);
    directory_reads_back(counts, sizes, first);
    if slots.len() > 0 {
        lemma_joined_slots(slots, 0);
    } else {
        assert(joined_slots(slots) =~= Seq::<u8>::empty());
    }
}

/// A slot stands in the file behind the directory and the slots before it.
pub proof fn lemma_slot_stands(contents: Seq<u8>, offset: int, dir: Seq<u8>, slots: Seq<Seq<u8>>, i: int)
    requires
        stands_at(contents, offset, dir + joined_slots(slots)),
        0 <= i < slots.len(),
    ensures
        ({
            let at = (dir.len() + sum(slot_sizes(slots).take(i))) as int;
            contents.subrange(offset + at, offset + at + slots[i].len()) == slots[i] && offset + at + slots[i].len() <= contents.len()
        }),
{
    let bytes = dir + joined_slots(slots);
    let joined = joined_slots(slots);
    let from = sum(slot_sizes(slots).take(i)) as int;
    let at = dir.len() + from;
    lemma_joined_slots(slots, i);
    assert(bytes == contents.subrange(offset, offset + bytes.len()));
    assert(bytes.subrange(at, at + slots[i].len()) =~= joined.subrange(from, from + slots[i].len()));
    assert(contents.subrange(offset + at, offset + at + slots[i].len()) =~= bytes.subrange(at, at + slots[i].len()));
}

/// The cells of a physical column are read back from its slot.
pub proof fn lemma_bucket_slot_reads(format: BucketFormat, schema: MosaicSchema, log: GroupLog, b: int, i: int)
    requires
        schema.wf(),
        0 <= b < schema.num_buckets,
        rows_ok(schema, log.rows, log.num_rows),
        holds_rows(schema, log.buckets[b], log.rows, log.num_rows, b),
        log.buckets[b].rows() > 0,
        is_restorable(format, log.buckets[b]),
        children_can_be_told(format, log.buckets[b]),
        is_paged(format, log.buckets[b]),
        0 <= i < physical_types(schema.bucket_types(b)).len(),
    ensures
        ({
            let w = log.buckets[b];
            let slots = slots_of(w.images(), format.zstd_level as int, w.images().len())->Ok_0;
            let dt = physical_types(schema.bucket_types(b))[i];
            &&& i < slots.len()
            &&& slot_or_empty(slots[i].len(), slots[i], dt, w.cells()[i].len()) matches Ok(column) && column.rows_result() == Ok::<
                Seq<Row>,
                Error,
            >(decoded_rows(dt, w.cells()[i])) && is_written(column, dt, w.cells()[i], w.dict_limits())
        }),
{
    let w = log.buckets[b];
    let types = schema.bucket_types(b);
    let rows = members_rows(schema, log.rows, b);
    let level = format.zstd_level as int;
    let slots = slots_of(w.images(), level, w.images().len())->Ok_0;
    w.lemma_wf();
    lemma_member_rows_fit(schema, log, b);
    lemma_slots_len(w.images(), level, w.images().len());
    lemma_slots_at(w.images(), level, w.images().len(), i);
    lemma_cells_taken(types, rows);
    assert(all_taken(physical_types(types)[i], present(w.cells()[i])));
    assert(w.images()[i] == column_image(w.cells()[i], width_of(physical_types(types)[i]), w.dict_limits()));
    assert(slot_restorable(w.images()[i], slots[i]));
    assert(w.cells()[i].len() <= max_rows());
    lemma_slot_reads(physical_types(types)[i], w.cells()[i], w.dict_limits(), level, slots[i]);
}

/// A physical column that is asked for is read back.
pub proof fn lemma_column_read(req: GroupRequest, format: BucketFormat, schema: MosaicSchema, log: GroupLog, b: int, i: int)
    requires
        asks_for(req, format, schema, log),
        0 <= b < schema.num_buckets,
        req.needed(b),
        is_paged(format, log.buckets[b]),
        0 <= i < physical_types(schema.bucket_types(b)).len(),
    ensures
        req.column(b, i) matches Ok(column) && column.rows_result() == Ok::<Seq<Row>, Error>(
            decoded_rows(physical_types(schema.bucket_types(b))[i], log.buckets[b].cells()[i]),
        ) && is_written(
            column,
            physical_types(schema.bucket_types(b))[i],
            log.buckets[b].cells()[i],
            log.buckets[b].dict_limits(),
        ),
{
    lemma_asked_bucket(req, format, schema, log, b);
    lemma_directory_read(req, format, schema, log, b);
    let w = log.buckets[b];
    let types = schema.bucket_types(b);
    let slots = slots_of(w.images(), format.zstd_level as int, w.images().len())->Ok_0;
    let counts = child_counts(w.types(), w.cells());
    let sizes = slot_sizes(slots);
    let dir = directory_bytes(counts, sizes);
    let offset = req.meta.bucket_offsets[b] as int;
    assert(children_can_be_told(format, log.buckets[b]));
    lemma_bucket_slot_reads(format, schema, log, b, i);
    lemma_slot_stands(req.contents, offset, dir, slots, i);
    assert(req.slot_start(b, i) == dir.len() + sum(sizes.take(i)));
    assert(slots[i].len() <= u32::MAX) by {
        lemma_slot_size(slots, slots.len(), i);
    }
    assert(req.slot_bytes(b, i) == slots[i]);
    assert(rows_in(i, types.len() as int, log.num_rows, counts) == w.cells()[i].len()) by {
        w.lemma_wf();
        if i < types.len() {
            assert(w.cells()[i].len() == w.rows());
        } else {
            assert(counts[i - types.len()] == w.cells()[i].len());
        }
    }
}

/// The rows of a physical column: those that were written if it is asked for, else nulls.
proof fn lemma_seen_column(req: GroupRequest, format: BucketFormat, schema: MosaicSchema, log: GroupLog, b: int, i: int)
    requires
        asks_for(req, format, schema, log),
        0 <= b < schema.num_buckets,
        req.needed(b),
        0 <= i < physical_types(schema.bucket_types(b)).len(),
    ensures
        ({
            let types = schema.bucket_types(b);
            let seen = physical_read(types, seen_rows(req, schema, log, b));
            if req.wants(b, i) {
                seen[i] == decoded_rows(physical_types(types)[i], log.buckets[b].cells()[i])
            } else {
                seen[i] == null_rows_of(unread_rows(i, types.len() as int, log.num_rows))
            }
        }),
{
    lemma_asked_bucket(req, format, schema, log, b);
    let types = schema.bucket_types(b);
    let members = schema.bucket_to_global@[b]@;
    let rows = members_rows(schema, log.rows, b);
    let seen = seen_rows(req, schema, log, b);
    let physical = physical_types(types);
    lemma_batch_len(types, rows);
    lemma_batch_len(types, seen);
    if i < types.len() {
        assert(physical_columns(types, seen)[i] == own_cells(seen[i]));
        assert(physical_columns(types, rows)[i] == own_cells(rows[i]));
        if !req.wants(b, i) {
            assert(decoded_rows(physical[i], own_cells(seen[i])) =~= null_rows_of(log.num_rows));
        }
    } else {
        assert(types.take(types.len() as int) =~= types);
        let p = lemma_owner(types, i, types.len());
        lemma_child_place(types, rows, p);
        lemma_child_place(types, seen, p);
        lemma_all_child_len(types.take(p), rows);
        lemma_all_child_len(types.take(p), seen);
        let k = i - children_at(types, p);
        assert(physical_columns(types, rows)[children_at(types, p) + k] == child_columns(types[p], rows[p])[k]);
        assert(physical_columns(types, seen)[children_at(types, p) + k] == child_columns(types[p], seen[p])[k]);
        assert(types.len() == members.len());
        assert(members.len() <= usize::MAX) by {
            assert(schema.bucket_to_global@[b].len() == members.len());
        }
        if !req.wants(b, i) {
            lemma_null_children(types[p], seen[p], k);
            assert(decoded_rows(physical[i], Cells::empty()) =~= null_rows_of(0));
        }
    }
}

/// Rows that are null have nothing below them.
proof fn lemma_null_children(dt: DataType, rows: Seq<Row>, k: int)
    requires
        forall|r: int| 0 <= r < rows.len() ==> #[trigger] rows[r] is Null,
        0 <= k < child_columns(dt, rows).len(),
    ensures
        child_columns(dt, rows)[k] == Cells::empty(),
{
    lemma_no_items(rows);
    let none = Seq::<Row>::empty();
    assert(crate::column::list_items(none) =~= none);
    assert(crate::column::map_keys(none) =~= none);
    assert(crate::column::map_values(none) =~= none);
    lemma_no_rows(dt);
    assert(child_columns(dt, rows) == child_columns(dt, none));
}

proof fn lemma_no_items(rows: Seq<Row>)
    requires
        forall|r: int| 0 <= r < rows.len() ==> #[trigger] rows[r] is Null,
    ensures
        crate::column::list_items(rows) == Seq::<Row>::empty(),
        crate::column::map_keys(rows) == Seq::<Row>::empty(),
        crate::column::map_values(rows) == Seq::<Row>::empty(),
    decreases rows.len(),
{
    if rows.len() > 0 {
        assert(rows.last() is Null);
        lemma_no_items(rows.drop_last());
    }
    assert(crate::column::list_items(rows) =~= Seq::<Row>::empty());
    assert(crate::column::map_keys(rows) =~= Seq::<Row>::empty());
    assert(crate::column::map_values(rows) =~= Seq::<Row>::empty());
}

proof fn lemma_slot_rows(req: GroupRequest, format: BucketFormat, schema: MosaicSchema, log: GroupLog, b: int, n: nat)
    requires
        asks_for(req, format, schema, log),
        0 <= b < schema.num_buckets,
        req.needed(b),
        is_paged(format, log.buckets[b]),
        n <= physical_types(schema.bucket_types(b)).len(),
    ensures
        ({
            let types = schema.bucket_types(b);
            let slots = req.paged_state(b)->slots;
            &&& req.columns_error(b, n) is None
            &&& slot_rows(slots, types.len() as int, log.num_rows, n) == Ok::<Seq<Seq<Row>>, Error>(
                physical_read(types, seen_rows(req, schema, log, b)).take(n as int),
            )
        }),
    decreases n,
{
    let types = schema.bucket_types(b);
    let seen = physical_read(types, seen_rows(req, schema, log, b));
    lemma_asked_bucket(req, format, schema, log, b);
    if n == 0 {
        assert(seen.take(0) =~= Seq::empty());
    } else {
        lemma_slot_rows(req, format, schema, log, b, (n - 1) as nat);
        lemma_column_read(req, format, schema, log, b, n - 1);
        lemma_seen_column(req, format, schema, log, b, n - 1);
        assert(seen.take(n as int) =~= seen.take(n - 1).push(seen[n - 1]));
    }
}

/// A bucket by pages is read back, as far as it is asked for.
proof fn lemma_paged_read(req: GroupRequest, format: BucketFormat, schema: MosaicSchema, log: GroupLog, b: int)
    requires
        asks_for(req, format, schema, log),
        0 <= b < schema.num_buckets,
        req.needed(b),
        is_paged(format, log.buckets[b]),
    ensures
        req.plan_error(b) is None,
        req.first_round_error(b) is None,
        req.second_round_error(b) is None,
        req.state(b) matches Some(state) && bucket_result(schema.bucket_types(b), state, log.num_rows) == Ok::<Seq<Seq<Row>>, Error>(
            seen_rows(req, schema, log, b),
        ),
{
    lemma_asked_bucket(req, format, schema, log, b);
    lemma_directory_read(req, format, schema, log, b);
    let types = schema.bucket_types(b);
    let seen = seen_rows(req, schema, log, b);
    let all = physical_types(types).len();
    lemma_slot_rows(req, format, schema, log, b, all);
    lemma_member_rows_fit(schema, log, b);
    let physical = physical_read(types, seen);
    assert(physical.take(all as int) =~= physical);
    assert forall|k: int| 0 <= k < types.len() implies rows_fit(types[k], #[trigger] seen[k]) by {
        assert(rows_fit(types[k], members_rows(schema, log.rows, b)[k]));
        if !req.projected[schema.bucket_to_global@[b]@[k] as int] {
            assert forall|r: int| 0 <= r < seen[k].len() implies row_fits(types[k], #[trigger] seen[k][r]) by {}
        }
    }
    lemma_all_assembled(types, seen, types.len());
    assert(seen.take(types.len() as int) =~= seen);
}

// ---------------------------------------------------------------- row groups

/// Nothing is wrong with the first `n` buckets.
proof fn lemma_no_errors(req: GroupRequest, format: BucketFormat, schema: MosaicSchema, log: GroupLog, n: nat)
    requires
        asks_for(req, format, schema, log),
        n <= schema.num_buckets,
    ensures
        req.plan_errors(n) is None,
        req.first_round_errors(n) is None,
        req.second_round_errors(n) is None,
    decreases n,
{
    if n > 0 {
        let b = n - 1;
        lemma_no_errors(req, format, schema, log, (n - 1) as nat);
        if req.needed(b) {
            if is_paged(format, log.buckets[b]) {
                lemma_paged_read(req, format, schema, log, b);
            } else {
                lemma_monolithic_read(req, format, schema, log, b);
            }
        }
    }
}

/// A row group that stands in a file can be read, and each column that is asked for has the rows
/// that were written.
pub proof fn group_reads_back(req: GroupRequest, format: BucketFormat, schema: MosaicSchema, log: GroupLog)
    requires
        asks_for(req, format, schema, log),
    ensures
        req.error() is None,
        forall|b: int|
            0 <= b < schema.num_buckets ==> (req.needed(b) ==> (#[trigger] req.states()[b] matches Some(state) && bucket_result(
                schema.bucket_types(b),
                state,
                log.num_rows,
            ) matches Ok(found) && forall|k: int|
                0 <= k < schema.bucket_to_global@[b]@.len() && req.projected[#[trigger] schema.bucket_to_global@[b]@[k] as int]
                    ==> found[k] == log.rows[schema.bucket_to_global@[b]@[k] as int])),
        forall|b: int| 0 <= b < schema.num_buckets ==> (!req.needed(b) ==> #[trigger] req.states()[b] is None),
{
    lemma_no_errors(req, format, schema, log, schema.num_buckets as nat);
    assert(req.members.len() == schema.num_buckets);
    assert forall|b: int| 0 <= b < schema.num_buckets && req.needed(b) implies (#[trigger] req.states()[b] matches Some(state)
        && bucket_result(schema.bucket_types(b), state, log.num_rows) matches Ok(found) && forall|k: int|
        0 <= k < schema.bucket_to_global@[b]@.len() && req.projected[#[trigger] schema.bucket_to_global@[b]@[k] as int] ==> found[k]
            == log.rows[schema.bucket_to_global@[b]@[k] as int]) by {
        if is_paged(format, log.buckets[b]) {
            lemma_paged_read(req, format, schema, log, b);
        } else {
            lemma_monolithic_read(req, format, schema, log, b);
        }
        assert(req.states()[b] == req.state(b));
    }
}

// ---------------------------------------------------------------- indexes

/// A row group that stands in the file before `limit` can be told.
proof fn lemma_can_be_told(format: BucketFormat, schema: MosaicSchema, log: GroupLog, file: Seq<u8>)
    requires
        schema.wf(),
        file.len() <= u64::MAX,
        is_logged(format, schema, log, file),
        row_group_error(group_of(format, log)) is None,
    ensures
        can_be_told(group_of(format, log), file.len() as int),
{
    let group = group_of(format, log);
    let n = log.buckets.len();
    assert forall|b: int| 0 <= b < n implies (#[trigger] group.bucket_layouts[b]).valid() && group.bucket_offsets[b] + bucket_size(
        group.bucket_layouts[b],
    ) <= file.len() by {
        let w = log.buckets[b];
        assert(holds_rows(schema, log.buckets[b], log.rows, log.num_rows, b));
        assert(is_restorable(format, log.buckets[b]));
        if w.rows() > 0 {
            lemma_bucket_stands(format, schema, log, file, b);
            lemma_nonempty(format, schema, log, b);
        }
    }
}

/// A bucket with rows has bytes, before and after they are compressed.
proof fn lemma_nonempty(format: BucketFormat, schema: MosaicSchema, log: GroupLog, b: int)
    requires
        schema.wf(),
        0 <= b < schema.num_buckets,
        rows_ok(schema, log.rows, log.num_rows),
        holds_rows(schema, log.buckets[b], log.rows, log.num_rows, b),
        log.buckets[b].rows() > 0,
        is_restorable(format, log.buckets[b]),
    ensures
        bucket_bytes(format, log.buckets[b])->Ok_0.len() > 0,
        log.buckets[b].image().len() > 0,
{
    let w = log.buckets[b];
    let types = schema.bucket_types(b);
    let rows = members_rows(schema, log.rows, b);
    assert(schema.bucket_ok(b));
    lemma_member_rows_fit(schema, log, b);
    w.lemma_wf();
    bucket_reads_back(types, rows, w.dict_limits(), log.num_rows);
    if is_paged(format, w) {
        let slots = slots_of(w.images(), format.zstd_level as int, w.images().len())->Ok_0;
        lemma_slots_len(w.images(), format.zstd_level as int, w.images().len());
        lemma_words_len(slot_sizes(slots));
    }
}

/// Where row group `i` stands in the index.
pub open spec fn index_place(groups: Seq<RowGroupView>, stats: Seq<Vec<u8>>, i: int) -> int {
    index_bytes(groups, stats, i as nat)->Ok_0.len() as int
}

/// The row groups can be told in an index.
pub open spec fn all_can_be_told(groups: Seq<RowGroupView>, num_buckets: nat, limit: int) -> bool {
    forall|i: int|
        0 <= i < groups.len() ==> (#[trigger] groups[i]).bucket_layouts.len() == num_buckets && (row_group_error(groups[i]) is None
            ==> can_be_told(groups[i], limit))
}

/// The index tells every row group that was written to it: each stands behind the statistics of the
/// one before it, and its own statistics stand behind it.
pub proof fn index_reads_back(
    groups: Seq<RowGroupView>,
    stats: Seq<Vec<u8>>,
    data: Seq<u8>,
    num_buckets: nat,
    limit: int,
    i: int,
)
    requires
        0 <= i < groups.len(),
        index_bytes(groups, stats, groups.len()) == Ok::<Seq<u8>, Error>(data),
        all_can_be_told(groups, num_buckets, limit),
    ensures
        index_place(groups, stats, 0) == 0,
        index_place(groups, stats, groups.len() as int) == data.len(),
        index_place(groups, stats, i + 1) <= data.len(),
        row_group_at(data, index_place(groups, stats, i), num_buckets, limit) matches Ok((group, end)) && group == groups[i]
            && data.subrange(end, index_place(groups, stats, i + 1)) == stats_at(stats, i) && index_place(groups, stats, i) <= end
            <= index_place(groups, stats, i + 1),
{
    lemma_index_prefix(groups, stats, i as nat, groups.len());
    lemma_index_prefix(groups, stats, (i + 1) as nat, groups.len());
    let front = index_bytes(groups, stats, (i + 1) as nat)->Ok_0;
    let before = index_bytes(groups, stats, i as nat)->Ok_0;
    let own = row_group_bytes(groups[i]);
    let end = before.len() + own.len();
    assert(front == before + own + stats_at(stats, i));
    assert(data.take(front.len() as int) =~= front);
    assert(data.subrange(before.len() as int, end as int) =~= front.subrange(before.len() as int, end as int));
    assert(front.subrange(before.len() as int, end as int) =~= own);
    assert(data.subrange(end as int, front.len() as int) =~= front.subrange(end as int, front.len() as int));
    assert(front.subrange(end as int, front.len() as int) =~= stats_at(stats, i));
    assert(groups[i].bucket_layouts.len() == num_buckets);
    row_group_reads_back(groups[i], data, before.len() as int, limit);
}

proof fn lemma_index_read(groups: Seq<RowGroupView>, data: Seq<u8>, num_buckets: nat, limit: int, n: nat)
    requires
        n <= groups.len(),
        index_bytes(groups, Seq::empty(), groups.len()) == Ok::<Seq<u8>, Error>(data),
        all_can_be_told(groups, num_buckets, limit),
    ensures
        row_groups_at(data, n, num_buckets, limit) == Ok::<(Seq<RowGroupView>, int), Error>(
            (groups.take(n as int), index_place(groups, Seq::empty(), n as int)),
        ),
    decreases n,
{
    let none = Seq::<Vec<u8>>::empty();
    if n == 0 {
        assert(groups.take(0) =~= Seq::empty());
    } else {
        lemma_index_read(groups, data, num_buckets, limit, (n - 1) as nat);
        index_reads_back(groups, none, data, num_buckets, limit, n - 1);
        let end = row_group_at(data, index_place(groups, none, n - 1), num_buckets, limit)->Ok_0.1;
        assert(data.subrange(end, index_place(groups, none, n - 1 + 1)).len() == 0);
        assert(end == index_place(groups, none, n as int));
        assert(groups.take(n as int) =~= groups.take(n - 1).push(groups[n - 1]));
    }
}

proof fn lemma_index_prefix(groups: Seq<RowGroupView>, stats: Seq<Vec<u8>>, n: nat, m: nat)
    requires
        n <= m,
        index_bytes(groups, stats, m) is Ok,
    ensures
        index_bytes(groups, stats, n) is Ok,
        index_bytes(groups, stats, n)->Ok_0.len() <= index_bytes(groups, stats, m)->Ok_0.len(),
        index_bytes(groups, stats, m)->Ok_0.take(index_bytes(groups, stats, n)->Ok_0.len() as int) == index_bytes(groups, stats, n)->Ok_0,
    decreases m,
{
    if n < m {
        lemma_index_prefix(groups, stats, n, (m - 1) as nat);
        let front = index_bytes(groups, stats, n)->Ok_0;
        let most = index_bytes(groups, stats, (m - 1) as nat)->Ok_0;
        assert(index_bytes(groups, stats, m)->Ok_0.take(front.len() as int) =~= most.take(front.len() as int));
    } else {
        let all = index_bytes(groups, stats, m)->Ok_0;
        assert(all.take(all.len() as int) =~= all);
    }
}

// ---------------------------------------------------------------- files

/// The metadata fit in memory.
pub open spec fn meta_fits(file: Seq<u8>, start: int) -> bool {
    file.len() - FOOTER_SIZE - start <= usize::MAX
}

/// Where the parts of the end of a file stand.
proof fn lemma_tail_parts(file: Seq<u8>, start: int, head: Seq<u8>, body: Seq<u8>, index: Seq<u8>, footer: Seq<u8>)
    requires
        0 <= start <= file.len(),
        file.skip(start) == head + body + index + footer,
    ensures
        ({
            let len = file.len() as int;
            let end = len - footer.len();
            let at = (head.len() + body.len()) as int;
            &&& len == start + head.len() + body.len() + index.len() + footer.len()
            &&& file.subrange(end, len) == footer
            &&& file.subrange(start, end).subrange(0, head.len() as int) == head
            &&& file.subrange(start, end).subrange(head.len() as int, at) == body
            &&& file.subrange(start, end).skip(at) == index
        }),
{
    let tail = file.skip(start);
    let len = file.len() as int;
    let end = len - footer.len();
    let at = (head.len() + body.len()) as int;
    assert(file.subrange(end, len) =~= tail.subrange(end - start, tail.len() as int));
    assert(tail.subrange(end - start, tail.len() as int) =~= footer);
    let meta = file.subrange(start, end);
    assert(meta =~= tail.subrange(0, end - start));
    assert(meta =~= head + body + index);
    assert(meta.subrange(0, head.len() as int) =~= head);
    assert(meta.subrange(head.len() as int, at) =~= body);
    assert(meta.skip(at) =~= index);
}

/// The row groups of a file can be told in its index.
proof fn lemma_file_groups(file: Seq<u8>, format: BucketFormat, schema: MosaicSchema, logs: Seq<GroupLog>)
    requires
        file.len() <= u64::MAX,
        schema.wf(),
        all_logged(format, schema, logs, file),
    ensures
        all_can_be_told(groups_of(format, logs), schema.num_buckets as nat, file.len() as int),
{
    let groups = groups_of(format, logs);
    assert forall|i: int| 0 <= i < groups.len() implies (#[trigger] groups[i]).bucket_layouts.len() == schema.num_buckets && (
    row_group_error(groups[i]) is None ==> can_be_told(groups[i], file.len() as int)) by {
        assert(is_logged(format, schema, logs[i], file));
        if row_group_error(groups[i]) is None {
            lemma_can_be_told(format, schema, logs[i], file);
        }
    }
}

/// The metadata of a file are read as they were written: its schema and its row groups.
pub proof fn file_meta_reads_back(
    file: Seq<u8>,
    start: int,
    format: BucketFormat,
    schema: MosaicSchema,
    raw: Seq<u8>,
    logs: Seq<GroupLog>,
    stats: Seq<Vec<u8>>,
)
    requires
        is_file(file, start, format, schema, raw, logs, stats),
        meta_fits(file, start),
    ensures
        file_meta(file, file.len() as int) matches Ok(meta) && meta.schema_raw == raw && meta.footer.num_buckets == schema.num_buckets
            && meta.footer.num_row_groups == logs.len() && meta.footer.compression == format.compression && meta.footer.schema_block_offset
            == start && index_bytes(groups_of(format, logs), stats, logs.len()) == Ok::<Seq<u8>, Error>(meta.index) && (stats.len() == 0
            ==> index_groups(meta.index, logs.len(), schema.num_buckets as nat, start) == Ok::<Seq<RowGroupView>, Error>(
            groups_of(format, logs),
        )),
        all_can_be_told(groups_of(format, logs), schema.num_buckets as nat, start),
{
    let (head, body, index, footer) = lemma_file_parts(file, start, format, schema, raw, logs, stats);
    lemma_tail_parts(file, start, head, body, index, footer_bytes(footer));
    lemma_be_bytes_len(raw.len(), 4);
    lemma_pow256();
    lemma_be_value_of_bytes(raw.len(), 4);
    footer_reads_back(footer, file.len() as int);
    assert(schema_of_block(footer.compression, body, raw.len()) == Ok::<Seq<u8>, Error>(raw));
    if stats.len() == 0 {
        let groups = groups_of(format, logs);
        assert(stats =~= Seq::empty());
        lemma_index_read(groups, index, schema.num_buckets as nat, start, groups.len());
        assert(groups.take(groups.len() as int) =~= groups);
    }
}

/// The parts of the end of a file.
proof fn lemma_file_parts(
    file: Seq<u8>,
    start: int,
    format: BucketFormat,
    schema: MosaicSchema,
    raw: Seq<u8>,
    logs: Seq<GroupLog>,
    stats: Seq<Vec<u8>>,
) -> (parts: (Seq<u8>, Seq<u8>, Seq<u8>, Footer))
    requires
        is_file(file, start, format, schema, raw, logs, stats),
        meta_fits(file, start),
    ensures
        0 <= start <= file.len() <= u64::MAX,
        raw.len() <= u32::MAX,
        parts.0 == be_bytes(raw.len(), 4),
        schema_body(format, raw) == Ok::<Seq<u8>, Error>(parts.1),
        schema_restorable(format, raw),
        file.skip(start) == parts.0 + parts.1 + parts.2 + footer_bytes(parts.3),
        footer_bytes(parts.3).len() == FOOTER_SIZE,
        parts.3.index_offset == start + 4 + parts.1.len(),
        parts.3.schema_block_offset == start,
        parts.3.num_buckets == schema.num_buckets,
        parts.3.num_row_groups == logs.len(),
        parts.3.compression == format.compression,
        offsets_in_order(parts.3, file.len() as int),
        index_bytes(groups_of(format, logs), stats, logs.len()) == Ok::<Seq<u8>, Error>(parts.2),
        all_can_be_told(groups_of(format, logs), schema.num_buckets as nat, start),
{
    reveal(is_file);
    let groups = groups_of(format, logs);
    let head = be_bytes(raw.len(), 4);
    let body = schema_body(format, raw)->Ok_0;
    let index = index_bytes(groups, stats, groups.len())->Ok_0;
    let footer = Footer {
        index_offset: (start + (head + body).len()) as u64,
        schema_block_offset: start as u64,
        num_buckets: schema.num_buckets as u32,
        num_row_groups: groups.len() as u32,
        compression: format.compression,
    };
    lemma_be_bytes_len(raw.len(), 4);
    lemma_be_bytes_len(footer.index_offset as nat, 8);
    lemma_be_bytes_len(footer.schema_block_offset as nat, 8);
    lemma_be_bytes_len(footer.num_buckets as nat, 4);
    lemma_be_bytes_len(footer.num_row_groups as nat, 4);
    assert(file.skip(start).len() == file.len() - start);
    lemma_file_groups(file.take(start), format, schema, logs);
    (head, body, index, footer)
}

/// A file that was written whole can be opened.
pub proof fn files_can_be_opened<I: InputFile>(
    file: Seq<u8>,
    start: int,
    format: BucketFormat,
    schema: MosaicSchema,
    raw: Seq<u8>,
    logs: Seq<GroupLog>,
)
    requires
        is_file(file, start, format, schema, raw, logs, Seq::empty()),
        meta_fits(file, start),
        schema.num_buckets > 0,
    ensures
        MosaicReader::<I>::open_error(file, file.len() as int, schema) is None,
{
    file_meta_reads_back(file, start, format, schema, raw, logs, Seq::empty());
}

/// The reader is one of the given file, as it is opened.
pub open spec fn reads_file<I: InputFile>(
    reader: MosaicReader<I>,
    file: Seq<u8>,
    format: BucketFormat,
    schema: MosaicSchema,
    logs: Seq<GroupLog>,
) -> bool {
    &&& reader.wf()
    &&& reader.file() == file
    &&& reader.schema_of() == schema
    &&& group_views(reader.groups()) == groups_of(format, logs)
    &&& reader.compression_code() == format.compression
}

/// A file that was written whole is opened as it was written: with its row groups, its compression
/// and the digest of its schema.
pub proof fn files_are_opened_as_written<I: InputFile>(
    reader: MosaicReader<I>,
    file: Seq<u8>,
    start: int,
    format: BucketFormat,
    schema: MosaicSchema,
    raw: Seq<u8>,
    logs: Seq<GroupLog>,
)
    requires
        is_file(file, start, format, schema, raw, logs, Seq::empty()),
        meta_fits(file, start),
        reader.is_opened(file, file.len() as int, schema),
    ensures
        reads_file(reader, file, format, schema, logs),
        reader.fingerprint() == sha256(raw),
{
    file_meta_reads_back(file, start, format, schema, raw, logs, Seq::empty());
}

/// The rows that were written to a file are read from it: a row group of which some columns are
/// asked for can be read, and each of these columns has the rows that were written to it, in the
/// order in which they were written.
pub proof fn files_read_back<I: InputFile>(
    reader: MosaicReader<I>,
    file: Seq<u8>,
    start: int,
    format: BucketFormat,
    schema: MosaicSchema,
    raw: Seq<u8>,
    logs: Seq<GroupLog>,
    stats: Seq<Vec<u8>>,
    rg_index: int,
    columns: Seq<usize>,
    group: RowGroupReader,
)
    requires
        is_file(file, start, format, schema, raw, logs, stats),
        reads_file(reader, file, format, schema, logs),
        0 <= rg_index < logs.len(),
        forall|b: int| 0 <= b < logs[rg_index].buckets.len() ==> children_can_be_told(format, #[trigger] logs[rg_index].buckets[b]),
        projection_error(columns, schema.columns@.len() as int, columns.len()) is None,
    ensures
        reader.group_error(rg_index, columns) is None,
        reader.is_group(rg_index, columns, group) ==> group.rows() == logs[rg_index].num_rows && group.read_error(
            schema.num_buckets as nat,
        ) is None && forall|g: int|
            0 <= g < schema.columns@.len() && #[trigger] group.projected()[g] ==> group.column_rows(g) == logs[rg_index].rows[g],
{
    lemma_asks(reader, file, start, format, schema, raw, logs, stats, rg_index, columns);
    lemma_no_group_error(reader.request(rg_index, columns), format, schema, logs[rg_index]);
    if reader.is_group(rg_index, columns, group) {
        lemma_group_rows(group, reader.request(rg_index, columns), format, schema, logs[rg_index]);
    }
}

/// The rows of column `g` in the first `n` row groups, one behind the other.
pub open spec fn rows_read(groups: Seq<RowGroupReader>, g: int, n: nat) -> Seq<Row>
    decreases n,
{
    if n == 0 {
        Seq::empty()
    } else {
        rows_read(groups, g, (n - 1) as nat) + groups[n - 1].column_rows(g)
    }
}

/// A column that is read from all row groups of a file has all the rows that were written to it.
pub proof fn all_rows_read_back<I: InputFile>(
    reader: MosaicReader<I>,
    file: Seq<u8>,
    start: int,
    format: BucketFormat,
    schema: MosaicSchema,
    raw: Seq<u8>,
    logs: Seq<GroupLog>,
    stats: Seq<Vec<u8>>,
    columns: Seq<usize>,
    groups: Seq<RowGroupReader>,
    g: int,
    n: nat,
)
    requires
        is_file(file, start, format, schema, raw, logs, stats),
        reads_file(reader, file, format, schema, logs),
        forall|i: int, b: int|
            0 <= i < logs.len() && 0 <= b < logs[i].buckets.len() ==> children_can_be_told(format, #[trigger] logs[i].buckets[b]),
        projection_error(columns, schema.columns@.len() as int, columns.len()) is None,
        groups.len() == logs.len(),
        forall|i: int| 0 <= i < groups.len() ==> reader.is_group(i, columns, #[trigger] groups[i]),
        0 <= g < schema.columns@.len(),
        columns.contains(g as usize),
        n <= logs.len(),
    ensures
        rows_read(groups, g, n) == logged_rows(logs, g, n),
    decreases n,
{
    if n > 0 {
        all_rows_read_back(reader, file, start, format, schema, raw, logs, stats, columns, groups, g, (n - 1) as nat);
        let group = groups[n - 1];
        assert(reader.is_group(n - 1, columns, group));
        files_read_back(reader, file, start, format, schema, raw, logs, stats, n - 1, columns, group);
        assert(group.projected()[g]);
    }
}

pub proof fn lemma_asks<I: InputFile>(
    reader: MosaicReader<I>,
    file: Seq<u8>,
    start: int,
    format: BucketFormat,
    schema: MosaicSchema,
    raw: Seq<u8>,
    logs: Seq<GroupLog>,
    stats: Seq<Vec<u8>>,
    rg_index: int,
    columns: Seq<usize>,
)
    requires
        is_file(file, start, format, schema, raw, logs, stats),
        reads_file(reader, file, format, schema, logs),
        0 <= rg_index < logs.len(),
        forall|b: int| 0 <= b < logs[rg_index].buckets.len() ==> children_can_be_told(format, #[trigger] logs[rg_index].buckets[b]),
    ensures
        asks_for(reader.request(rg_index, columns), format, schema, logs[rg_index]),
        reader.groups().len() == logs.len(),
        reader.groups()[rg_index].num_rows == logs[rg_index].num_rows,
{
    lemma_file_group(file, start, format, schema, raw, logs, stats, rg_index);
    assert(group_views(reader.groups()).len() == reader.groups().len());
    assert(group_views(reader.groups())[rg_index] == reader.groups()[rg_index]@);
    assert(groups_of(format, logs)[rg_index] == group_of(format, logs[rg_index]));
}

proof fn lemma_group_rows(group: RowGroupReader, req: GroupRequest, format: BucketFormat, schema: MosaicSchema, log: GroupLog)
    requires
        asks_for(req, format, schema, log),
        group.states() == req.states(),
        group.schema_of() == schema,
        group.rows() == log.num_rows,
        group.projected() == req.projected,
    ensures
        group.read_error(schema.num_buckets as nat) is None,
        forall|g: int| 0 <= g < schema.columns@.len() && #[trigger] group.projected()[g] ==> group.column_rows(g) == log.rows[g],
{
    lemma_no_read_error(group, req, format, schema, log, schema.num_buckets as nat);
    assert forall|g: int| 0 <= g < schema.columns@.len() && #[trigger] group.projected()[g] implies group.column_rows(g)
        == log.rows[g] by {
        lemma_column_rows(group, req, format, schema, log, g);
    }
}

/// A row group stands in its file.
pub proof fn lemma_file_group(
    file: Seq<u8>,
    start: int,
    format: BucketFormat,
    schema: MosaicSchema,
    raw: Seq<u8>,
    logs: Seq<GroupLog>,
    stats: Seq<Vec<u8>>,
    i: int,
)
    requires
        is_file(file, start, format, schema, raw, logs, stats),
        0 <= i < logs.len(),
    ensures
        schema.wf(),
        file.len() <= u64::MAX,
        is_logged(format, schema, logs[i], file),
{
    reveal(is_file);
    let log = logs[i];
    assert(is_logged(format, schema, logs[i], file.take(start)));
    let bytes = buckets_bytes(format, log.buckets, log.buckets.len())->Ok_0;
    assert(file.subrange(log.start as int, (log.start + bytes.len()) as int) =~= file.take(start).subrange(
        log.start as int,
        (log.start + bytes.len()) as int,
    ));
}

proof fn lemma_no_group_error(req: GroupRequest, format: BucketFormat, schema: MosaicSchema, log: GroupLog)
    requires
        asks_for(req, format, schema, log),
    ensures
        req.error() is None,
{
    group_reads_back(req, format, schema, log);
}

/// A column that is asked for has the rows that were written.
proof fn lemma_column_rows(group: RowGroupReader, req: GroupRequest, format: BucketFormat, schema: MosaicSchema, log: GroupLog, g: int)
    requires
        asks_for(req, format, schema, log),
        group.states() == req.states(),
        group.schema_of() == schema,
        group.rows() == log.num_rows,
        group.projected() == req.projected,
        0 <= g < schema.columns@.len(),
        group.projected()[g],
    ensures
        group.column_rows(g) == log.rows[g],
{
    assert(schema.column_placed(g));
    assert(schema.columns.len() == schema.columns@.len());
    let b = schema.columns@[g].bucket_id as int;
    let members = schema.bucket_to_global@[b]@;
    let k = choose|k: int| 0 <= k < members.len() && members[k] == g as usize;
    assert(is_place(schema, g, k));
    let place = place_of(schema, g);
    assert(is_place(schema, g, place));
    assert(req.members[b] == members);
    assert(req.projected[req.members[b][place] as int]);
    assert(req.needed(b));
    group_reads_back(req, format, schema, log);
    assert(req.states()[b] is Some);
    assert(req.projected[schema.bucket_to_global@[b]@[place] as int]);
}

proof fn lemma_no_read_error(group: RowGroupReader, req: GroupRequest, format: BucketFormat, schema: MosaicSchema, log: GroupLog, n: nat)
    requires
        asks_for(req, format, schema, log),
        group.states() == req.states(),
        group.schema_of() == schema,
        group.rows() == log.num_rows,
        n <= schema.num_buckets,
    ensures
        group.read_error(n) is None,
    decreases n,
{
    if n > 0 {
        lemma_no_read_error(group, req, format, schema, log, (n - 1) as nat);
        group_reads_back(req, format, schema, log);
        let state = req.states()[n - 1];
    }
}

} // verus!
