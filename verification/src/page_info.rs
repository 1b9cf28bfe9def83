//! How the columns of a row group are stored.
use vstd::prelude::*;
use crate::bucket_image::clamped;
use crate::bucket_reader::BucketReader;
use crate::bucket_writer::{all_child_metas, expand_col_types, lemma_all_metas_len, physical_types, ChildColumnMeta};
use crate::error::Error;
use crate::format::BucketLayout;
use crate::input::{range_bytes, read_range, InputFile};
use crate::paged::{get_le_u32, parse_column_slot, slot_column, sum, usize_nats, words_at};
use crate::reader::{encoding_of_code, Encoding, MosaicReader};
use crate::row_group::{
    bucket_need, dir_size_of, directory_size, lemma_request_wf, mark_projected, monolithic_bytes, projection_error,
    request_of, BucketStateView, GroupRequest,
};
use crate::row_index::{first_error, RowGroupMeta};
use crate::schema::MosaicSchema;
use crate::types::{is_container, physical_type, DataType};

verus! {

/// How one column of a row group is stored.
#[derive(Clone, Copy, Debug)]
#[non_exhaustive]
pub struct PageInfo {
    pub column_index: usize,
    pub bucket: usize,
    pub encoding: Encoding,
    /// The bytes of the slots of the column and of those below it; 0 outside of buckets by pages.
    pub slot_size: usize,
}

// ---------------------------------------------------------------- model

/// The bytes in front of the sizes in a directory.
pub open spec fn child_header(types: Seq<DataType>) -> int {
    dir_size_of(types) - 4 * physical_types(types).len()
}

/// The sizes of the slots of a bucket by pages.
pub open spec fn told_slots(contents: Seq<u8>, types: Seq<DataType>, bucket: usize, offset: u64, total_size: usize) -> Result<
    Seq<nat>,
    Error,
> {
    let dir_size = dir_size_of(types);
    if dir_size > total_size {
        Err(Error::DirectoryTooLarge { bucket, dir_size: dir_size as usize, total_size })
    } else {
        let sizes = words_at(range_bytes(contents, (offset, dir_size as usize)), child_header(types), physical_types(types).len());
        if dir_size + sum(sizes) != total_size {
            Err(Error::SlotSumMismatch { bucket, total: total_size })
        } else {
            Ok(sizes)
        }
    }
}

/// The bytes of the slots of the first `n` child columns that are below column `local`.
pub open spec fn child_bytes(metas: Seq<ChildColumnMeta>, sizes: Seq<nat>, primary: int, local: int, n: nat) -> nat
    decreases n,
{
    if n == 0 {
        0
    } else {
        child_bytes(metas, sizes, primary, local, (n - 1) as nat) + (if metas[n - 1].parent_logical_col == local {
            sizes[primary + n - 1]
        } else {
            0
        })
    }
}

/// The bytes of the slots of column `local` and of the columns below it, as far as they can be told.
pub open spec fn logical_slot_size(types: Seq<DataType>, sizes: Seq<nat>, local: int) -> usize {
    let metas = all_child_metas(types, types.len());
    clamped(sizes[local] + child_bytes(metas, sizes, types.len() as int, local, metas.len()))
}

/// How column `local` of a bucket by pages is encoded.
pub open spec fn slot_encoding(req: GroupRequest, b: int, sizes: Seq<nat>, local: int) -> Result<Encoding, Error> {
    if sizes[local] == 0 {
        Ok(Encoding::AllNull)
    } else {
        let start = req.meta.bucket_offsets[b] + dir_size_of(req.types[b]) + sum(sizes.take(local));
        match slot_column(
            range_bytes(req.contents, (start as u64, sizes[local] as usize)),
            physical_type(req.types[b][local]),
            req.meta.num_rows,
        ) {
            Err(e) => Err(e),
            Ok(column) => Ok(encoding_of_code(column.encoding)),
        }
    }
}

pub open spec fn slots_in(req: GroupRequest, b: int) -> Result<Seq<nat>, Error> {
    told_slots(req.contents, req.types[b], b as usize, req.meta.bucket_offsets[b], req.meta.bucket_layouts[b].sizes().0)
}

/// What is wrong with the first `n` columns of a bucket by pages that are asked for.
pub open spec fn slots_error(req: GroupRequest, b: int, sizes: Seq<nat>, n: nat) -> Option<Error>
    decreases n,
{
    if n == 0 {
        None
    } else {
        first_error(
            slots_error(req, b, sizes, (n - 1) as nat),
            if req.projected[req.members[b][n - 1] as int] {
                match slot_encoding(req, b, sizes, n - 1) {
                    Err(e) => Some(e),
                    Ok(_) => None,
                }
            } else {
                None
            },
        )
    }
}

/// A bucket of which columns are asked for is read from: it has bytes, and its directory, if it has
/// one, is not larger than itself.
pub open spec fn reads_from(req: GroupRequest, b: int) -> bool {
    req.needed(b) && match req.meta.bucket_layouts[b] {
        BucketLayout::Empty => false,
        BucketLayout::Monolithic { .. } => true,
        BucketLayout::Paged { total_size } => dir_size_of(req.types[b]) <= total_size,
    }
}

/// A read comes before anything that is wrong with the buckets is found.
pub open spec fn reads_pages(req: GroupRequest) -> bool {
    exists|b: int| 0 <= b < req.members.len() && #[trigger] reads_from(req, b) && buckets_error(req, b as nat) is None
}

/// The directory of a bucket is read.
pub open spec fn reads_directory(req: GroupRequest, b: int) -> bool {
    req.meta.bucket_layouts[b] matches BucketLayout::Paged { total_size } && dir_size_of(req.types[b]) <= total_size
}

/// A directory is read before anything that is wrong with the directories is found.
pub open spec fn reads_directories(req: GroupRequest) -> bool {
    exists|b: int| 0 <= b < req.members.len() && #[trigger] reads_directory(req, b) && directories_error(req, b as nat) is None
}

/// What is wrong with a bucket of which columns are asked for.
pub open spec fn bucket_error(req: GroupRequest, b: int) -> Option<Error> {
    if !req.needed(b) {
        None
    } else {
        match req.meta.bucket_layouts[b] {
            BucketLayout::Empty => None,
            BucketLayout::Monolithic { .. } => match req.monolithic_state(b) {
                Err(e) => Some(e),
                Ok(_) => None,
            },
            BucketLayout::Paged { .. } => match slots_in(req, b) {
                Err(e) => Some(e),
                Ok(sizes) => slots_error(req, b, sizes, req.members[b].len()),
            },
        }
    }
}

pub open spec fn buckets_error(req: GroupRequest, n: nat) -> Option<Error>
    decreases n,
{
    if n == 0 {
        None
    } else {
        first_error(buckets_error(req, (n - 1) as nat), bucket_error(req, n - 1))
    }
}

/// How column `local` of bucket `b` is encoded, and the bytes of its slots.
pub open spec fn is_told(req: GroupRequest, b: int, local: int, told: (Encoding, usize)) -> bool {
    match req.meta.bucket_layouts[b] {
        BucketLayout::Empty => told.0 is AllNull && told.1 == 0,
        BucketLayout::Monolithic { .. } => told.1 == 0 && (req.monolithic_state(b) matches Ok(
            BucketStateView::Monolithic { columns, .. },
        ) && told.0 == encoding_of_code(columns[local].encoding)),
        BucketLayout::Paged { .. } => slots_in(req, b) matches Ok(sizes) && slot_encoding(req, b, sizes, local) == Ok::<
            Encoding,
            Error,
        >(told.0) && told.1 == logical_slot_size(req.types[b], sizes, local),
    }
}

/// The columns of a bucket that are asked for are told of, and no others.
pub open spec fn all_told(req: GroupRequest, b: int, told: Seq<Option<(Encoding, usize)>>) -> bool {
    &&& told.len() == req.members[b].len()
    &&& forall|k: int|
        0 <= k < told.len() ==> if req.projected[req.members[b][k] as int] {
            #[trigger] told[k] matches Some(found) && is_told(req, b, k, found)
        } else {
            told[k] is None
        }
}

/// What is told of column `local` of bucket `b`.
pub open spec fn is_page(req: GroupRequest, b: int, local: int, info: PageInfo) -> bool {
    &&& 0 <= b < req.members.len()
    &&& 0 <= local < req.members[b].len()
    &&& info.column_index == req.members[b][local]
    &&& info.bucket == b
    &&& is_told(req, b, local, (info.encoding, info.slot_size))
}

/// The columns that are asked for are told of in their order, each once.
pub open spec fn are_pages(req: GroupRequest, infos: Seq<PageInfo>) -> bool {
    &&& forall|i: int, j: int| 0 <= i < j < infos.len() ==> (#[trigger] infos[i]).column_index < (#[trigger] infos[j]).column_index
    &&& forall|i: int|
        0 <= i < infos.len() ==> (#[trigger] infos[i]).column_index < req.projected.len() && req.projected[infos[i].column_index as int]
            && exists|local: int| is_page(req, infos[i].bucket as int, local, infos[i])
    &&& forall|g: int|
        0 <= g < req.projected.len() && #[trigger] req.projected[g] ==> exists|i: int|
            0 <= i < infos.len() && (#[trigger] infos[i]).column_index == g
}

// ---------------------------------------------------------------- directories

/// What the directory of a bucket tells.
struct SlotTable {
    sizes: Vec<usize>,
    children: Vec<ChildColumnMeta>,
    dir_size: usize,
}

/// The sizes of slots in a directory.
pub fn paged_slot_sizes(dir: &[u8], start: usize, ncols: usize) -> (sizes: Vec<usize>)
    requires
        start + 4 * ncols <= dir@.len(),
    ensures
        usize_nats(sizes@) == words_at(dir@, start as int, ncols as nat),
        forall|i: int| 0 <= i < sizes@.len() ==> (#[trigger] sizes@[i]) <= u32::MAX,
{
    let mut sizes: Vec<usize> = Vec::new();
    let mut i: usize = 0;
    let total: usize = dir.len();
    while i < ncols
        invariant
            i <= ncols,
            total == dir@.len(),
            start + 4 * ncols <= total,
            sizes@.len() == i,
            forall|k: int| 0 <= k < i ==> (#[trigger] sizes@[k]) <= u32::MAX && sizes@[k] == words_at(dir@, start as int, ncols as nat)[k],
        decreases ncols - i,
    {
        sizes.push(get_le_u32(dir, start + 4 * i) as usize);
        i += 1;
    }
    assert(usize_nats(sizes@) =~= words_at(dir@, start as int, ncols as nat));
    sizes
}

proof fn lemma_sum_take(values: Seq<nat>, n: int)
    requires
        0 <= n < values.len(),
    ensures
        sum(values.take(n + 1)) == sum(values.take(n)) + values[n],
{
    assert(values.take(n + 1).drop_last() =~= values.take(n));
}

proof fn lemma_sum_part(values: Seq<nat>, n: int)
    requires
        0 <= n <= values.len(),
    ensures
        sum(values.take(n)) <= sum(values),
    decreases values.len() - n,
{
    if n < values.len() {
        lemma_sum_part(values, n + 1);
        lemma_sum_take(values, n);
    } else {
        assert(values.take(n) =~= values);
    }
}

/// The slots account for all the bytes of a bucket behind its directory.
pub fn validate_paged_total(bucket: usize, dir_size: usize, sizes: &Vec<usize>, total: usize) -> (result: Result<(), Error>)
    ensures
        dir_size + sum(usize_nats(sizes@)) == total ==> result is Ok,
        dir_size + sum(usize_nats(sizes@)) != total ==> result == Err::<(), Error>(Error::SlotSumMismatch { bucket, total }),
{
    let ghost all = usize_nats(sizes@);
    let mut at: usize = dir_size;
    let mut i: usize = 0;
    assert(all.take(0) =~= Seq::<nat>::empty());
    while i < sizes.len()
        invariant
            i <= sizes@.len(),
            all == usize_nats(sizes@),
            at == dir_size + sum(all.take(i as int)),
        decreases sizes@.len() - i,
    {
        proof {
            lemma_sum_take(all, i as int);
            lemma_sum_part(all, i + 1);
        }
        match at.checked_add(sizes[i]) {
            Some(next) => {
                at = next;
            },
            None => {
                return Err(Error::SlotSumMismatch { bucket, total });
            },
        }
        i += 1;
    }
    assert(all.take(i as int) =~= all);
    if at != total {
        return Err(Error::SlotSumMismatch { bucket, total });
    }
    Ok(())
}

/// Where each slot starts.
pub fn paged_slot_offsets(start: u64, sizes: &Vec<usize>) -> (offsets: Vec<u64>)
    requires
        start + sum(usize_nats(sizes@)) <= u64::MAX,
    ensures
        offsets@.len() == sizes@.len(),
        forall|i: int| 0 <= i < offsets@.len() ==> #[trigger] offsets@[i] == start + sum(usize_nats(sizes@).take(i)),
{
    let ghost all = usize_nats(sizes@);
    let mut offsets: Vec<u64> = Vec::new();
    let mut at: u64 = start;
    let mut i: usize = 0;
    assert(all.take(0) =~= Seq::<nat>::empty());
    while i < sizes.len()
        invariant
            i <= sizes@.len(),
            all == usize_nats(sizes@),
            start + sum(all) <= u64::MAX,
            at == start + sum(all.take(i as int)),
            offsets@.len() == i,
            forall|k: int| 0 <= k < i ==> #[trigger] offsets@[k] == start + sum(all.take(k)),
        decreases sizes@.len() - i,
    {
        proof {
            lemma_sum_take(all, i as int);
            lemma_sum_part(all, i + 1);
        }
        offsets.push(at);
        at = at + sizes[i] as u64;
        i += 1;
    }
    offsets
}

/// The bytes of the slots of a column and of the columns below it.
fn logical_paged_slot_size(local: usize, table: &SlotTable, primary: usize, Ghost(types): Ghost<Seq<DataType>>) -> (size: usize)
    requires
        types.len() == primary,
        local < primary,
        table.sizes@.len() == primary + table.children@.len(),
        table.children@ == all_child_metas(types, types.len()),
    ensures
        size == logical_slot_size(types, usize_nats(table.sizes@), local as int),
{
    let ghost sizes = usize_nats(table.sizes@);
    let ghost metas = table.children@;
    let mut total: usize = table.sizes[local];
    let mut j: usize = 0;
    let n: usize = table.children.len();
    let all: usize = table.sizes.len();
    while j < n
        invariant
            j <= n,
            n == table.children@.len(),
            all == table.sizes@.len(),
            all == primary + n,
            sizes == usize_nats(table.sizes@),
            metas == table.children@,
            local < primary,
            total == clamped(sizes[local as int] + child_bytes(metas, sizes, primary as int, local as int, j as nat)),
        decreases n - j,
    {
        if table.children[j].parent_logical_col == local {
            total = total.saturating_add(table.sizes[primary + j]);
        }
        j += 1;
    }
    total
}

/// Reads and checks the directory of a bucket by pages.
fn paged_dir<I: InputFile>(input: &I, schema: &MosaicSchema, b: usize, offset: u64, total_size: usize) -> (result: Result<SlotTable, Error>)
    requires
        schema.wf(),
        b < schema.num_buckets,
    ensures
        match told_slots(input.contents(), schema.bucket_types(b as int), b, offset, total_size) {
            Ok(sizes) => match result {
                Ok(table) => usize_nats(table.sizes@) == sizes && table.children@ == all_child_metas(
                    schema.bucket_types(b as int),
                    schema.bucket_types(b as int).len(),
                ) && table.sizes@.len() == schema.bucket_types(b as int).len() + table.children@.len() && table.dir_size == dir_size_of(
                    schema.bucket_types(b as int),
                ) && table.dir_size + sum(sizes) == total_size,
                Err(e) => e is Io && !(input.never_fails() && offset + total_size <= input.contents().len()),
            },
            Err(e) => result matches Err(x) && (x == e || (x is Io && dir_size_of(schema.bucket_types(b as int)) <= total_size && !(
            input.never_fails() && offset + total_size <= input.contents().len()))),
        },
{
    let ghost types = schema.bucket_types(b as int);
    proof {
        assert(schema.bucket_ok(b as int));
        lemma_all_metas_len(types, types.len());
        assert(types.take(types.len() as int) =~= types);
    }
    let dir_size: usize = directory_size(schema, b);
    let refs: Vec<&DataType> = schema.bucket_type_refs(b);
    let (physical, children) = expand_col_types(refs.as_slice());
    if dir_size > total_size {
        return Err(Error::DirectoryTooLarge { bucket: b, dir_size, total_size });
    }
    let dir: Vec<u8> = match read_range(input, offset, dir_size) {
        Ok(dir) => dir,
        Err(e) => {
            return Err(e);
        },
    };
    let header: usize = dir_size - 4 * physical.len();
    let sizes: Vec<usize> = paged_slot_sizes(dir.as_slice(), header, physical.len());
    match validate_paged_total(b, dir_size, &sizes, total_size) {
        Ok(_) => {},
        Err(e) => {
            return Err(e);
        },
    }
    assert(usize_nats(sizes@).len() == physical@.len());
    Ok(SlotTable { sizes, children, dir_size })
}

proof fn lemma_slots_error(req: GroupRequest, b: int, sizes: Seq<nat>, n: nat, m: nat)
    requires
        n <= m,
        slots_error(req, b, sizes, n) is Some,
    ensures
        slots_error(req, b, sizes, m) == slots_error(req, b, sizes, n),
    decreases m - n,
{
    if n < m {
        lemma_slots_error(req, b, sizes, n, (m - 1) as nat);
    }
}

proof fn lemma_buckets_error(req: GroupRequest, n: nat, m: nat)
    requires
        n <= m,
        buckets_error(req, n) is Some,
    ensures
        buckets_error(req, m) == buckets_error(req, n),
    decreases m - n,
{
    if n < m {
        lemma_buckets_error(req, n, (m - 1) as nat);
    }
}

proof fn lemma_slot_failed(req: GroupRequest, b: int, sizes: Seq<nat>, k: int, e: Error)
    requires
        0 <= k < req.members[b].len(),
        req.needed(b),
        req.meta.bucket_layouts[b] is Paged,
        slots_in(req, b) == Ok::<Seq<nat>, Error>(sizes),
        slots_error(req, b, sizes, k as nat) is None,
        req.projected[req.members[b][k] as int],
        slot_encoding(req, b, sizes, k) == Err::<Encoding, Error>(e),
    ensures
        bucket_error(req, b) == Some(e),
{
    assert(slots_error(req, b, sizes, (k + 1) as nat) == Some(e));
    lemma_slots_error(req, b, sizes, (k + 1) as nat, req.members[b].len());
}

/// The slots of a bucket inside the file lie inside the file.
proof fn lemma_slot_end(req: GroupRequest, b: int, sizes: Seq<nat>, k: int)
    requires
        req.is_inside(),
        0 <= b < req.members.len(),
        req.meta.bucket_layouts[b] is Paged,
        slots_in(req, b) == Ok::<Seq<nat>, Error>(sizes),
        0 <= k < sizes.len(),
    ensures
        req.meta.bucket_offsets[b] + dir_size_of(req.types[b]) + sum(sizes.take(k)) + sizes[k] <= req.contents.len(),
{
    lemma_sum_take(sizes, k);
    lemma_sum_part(sizes, k + 1);
    assert(req.meta.bucket_offsets[b] + crate::row_index::bucket_size(req.meta.bucket_layouts[b]) <= req.contents.len());
}

proof fn lemma_bucket_failed(req: GroupRequest, b: int, n: nat, e: Error)
    requires
        0 <= b < n,
        buckets_error(req, b as nat) is None,
        bucket_error(req, b) == Some(e),
    ensures
        buckets_error(req, n) == Some(e),
{
    assert(buckets_error(req, (b + 1) as nat) == Some(e));
    lemma_buckets_error(req, (b + 1) as nat, n);
}

/// Reads how one column of a bucket by pages is encoded.
fn paged_encoding<I: InputFile>(
    input: &I,
    dt: &DataType,
    offset: u64,
    size: usize,
    num_rows: usize,
) -> (result: Result<Encoding, Error>)
    ensures
        (result matches Err(e) && e is Io && !(input.never_fails() && offset + size <= input.contents().len())) || result == (if size == 0 {
            Ok(Encoding::AllNull)
        } else {
            match slot_column(range_bytes(input.contents(), (offset, size)), physical_type(*dt), num_rows as nat) {
                Err(e) => Err(e),
                Ok(column) => Ok(encoding_of_code(column.encoding)),
            }
        }),
{
    if size == 0 {
        return Ok(Encoding::AllNull);
    }
    let slot: Vec<u8> = match read_range(input, offset, size) {
        Ok(slot) => slot,
        Err(e) => {
            return Err(e);
        },
    };
    let lengths: DataType = DataType::Int32;
    let parsed = if is_container(dt) {
        parse_column_slot(slot.as_slice(), &lengths, num_rows)
    } else {
        parse_column_slot(slot.as_slice(), dt, num_rows)
    };
    match parsed {
        Ok(page) => Ok(Encoding::from_code(page.encoding())),
        Err(e) => Err(e),
    }
}

/// What the directory of a bucket by pages tells, and where its slots start.
#[verifier::opaque]
spec fn table_ok(req: GroupRequest, b: int, table: SlotTable, offsets: Seq<u64>) -> bool {
    let sizes = usize_nats(table.sizes@);
    let types = req.types[b];
    &&& 0 <= b < req.members.len()
    &&& req.members[b].len() == types.len()
    &&& req.meta.bucket_layouts[b] is Paged
    &&& req.needed(b)
    &&& slots_in(req, b) == Ok::<Seq<nat>, Error>(sizes)
    &&& table.children@ == all_child_metas(types, types.len())
    &&& table.sizes@.len() == types.len() + table.children@.len()
    &&& offsets.len() == sizes.len()
    &&& forall|i: int|
        0 <= i < offsets.len() ==> #[trigger] offsets[i] == req.meta.bucket_offsets[b] + dir_size_of(types) + sum(sizes.take(i))
}

/// Tells of one column of a bucket by pages.
fn paged_column_told<I: InputFile>(
    input: &I,
    dt: &DataType,
    num_rows: usize,
    k: usize,
    primary: usize,
    table: &SlotTable,
    offsets: &Vec<u64>,
    Ghost(req): Ghost<GroupRequest>,
    Ghost(b): Ghost<int>,
) -> (result: Result<(Encoding, usize), Error>)
    requires
        table_ok(req, b, *table, offsets@),
        k < primary,
        primary == req.members[b].len(),
        *dt == req.types[b][k as int],
        req.contents == input.contents(),
        req.meta.num_rows == num_rows,
        req.projected[req.members[b][k as int] as int],
        slots_error(req, b, usize_nats(table.sizes@), k as nat) is None,
    ensures
        match result {
            Ok(told) => is_told(req, b, k as int, told) && slots_error(req, b, usize_nats(table.sizes@), (k + 1) as nat) is None,
            Err(e) => (e is Io && !(input.never_fails() && req.is_inside())) || bucket_error(req, b) == Some(e),
        },
{
    reveal(table_ok);
    let ghost sizes = usize_nats(table.sizes@);
    match paged_encoding(input, dt, offsets[k], table.sizes[k], num_rows) {
        Ok(encoding) => {
            assert(slot_encoding(req, b, sizes, k as int) == Ok::<Encoding, Error>(encoding));
            let size: usize = logical_paged_slot_size(k, table, primary, Ghost(req.types[b]));
            Ok((encoding, size))
        },
        Err(e) => {
            proof {
                if slot_encoding(req, b, sizes, k as int) == Err::<Encoding, Error>(e) {
                    lemma_slot_failed(req, b, sizes, k as int, e);
                } else if req.is_inside() {
                    lemma_slot_end(req, b, sizes, k as int);
                }
            }
            Err(e)
        },
    }
}

/// Tells of the columns of a bucket by pages.
fn paged_told<I: InputFile>(
    input: &I,
    schema: &MosaicSchema,
    meta: &RowGroupMeta,
    b: usize,
    total_size: usize,
    projected: &Vec<bool>,
    Ghost(req): Ghost<GroupRequest>,
) -> (result: Result<Vec<Option<(Encoding, usize)>>, Error>)
    requires
        schema.wf(),
        b < schema.num_buckets,
        meta@.wf(schema.num_buckets as int, u64::MAX as int),
        meta.bucket_layouts@[b as int] == (BucketLayout::Paged { total_size }),
        projected@.len() == schema.columns@.len(),
        req == request_of(*schema, meta@, req.compression, input.contents(), projected@),
        req.needed(b as int),
    ensures
        match result {
            Ok(told) => bucket_error(req, b as int) is None && all_told(req, b as int, told@),
            Err(e) => (e is Io && !(input.never_fails() && req.is_inside()) && reads_from(req, b as int)) || bucket_error(req, b as int) == Some(e),
        },
{
    let ghost types = schema.bucket_types(b as int);
    let ghost members = schema.bucket_to_global@[b as int]@;
    proof {
        assert(schema.bucket_ok(b as int));
        assert(req.types[b as int] == types);
        assert(req.members[b as int] == members);
        assert(meta@.bucket_layouts[b as int].valid());
    }
    let offset: u64 = meta.bucket_offsets[b];
    let table: SlotTable = match paged_dir(input, schema, b, offset, total_size) {
        Ok(table) => table,
        Err(e) => {
            proof {
                if req.is_inside() {
                    assert(req.meta.bucket_offsets[b as int] + crate::row_index::bucket_size(req.meta.bucket_layouts[b as int])
                        <= req.contents.len());
                }
            }
            return Err(e);
        },
    };
    let ghost sizes = usize_nats(table.sizes@);
    assert(slots_in(req, b as int) == Ok::<Seq<nat>, Error>(sizes));
    let offsets: Vec<u64> = paged_slot_offsets(offset + table.dir_size as u64, &table.sizes);
    assert(table_ok(req, b as int, table, offsets@)) by {
        reveal(table_ok);
    }
    let primary: usize = schema.bucket_to_global[b].len();
    let mut told: Vec<Option<(Encoding, usize)>> = Vec::new();
    let mut k: usize = 0;
    while k < primary
        invariant
            k <= primary,
            b < schema.bucket_to_global@.len(),
            members == schema.bucket_to_global@[b as int]@,
            primary == members.len(),
            types == schema.bucket_types(b as int),
            types.len() == primary,
            req.types[b as int] == types,
            req.members[b as int] == members,
            reads_from(req, b as int),
            req.contents == input.contents(),
            req.meta.num_rows == meta.num_rows,
            req.projected == projected@,
            forall|j: int| 0 <= j < members.len() ==> (#[trigger] members[j]) < projected@.len(),
            projected@.len() == schema.columns@.len(),
            table_ok(req, b as int, table, offsets@),
            sizes == usize_nats(table.sizes@),
            slots_error(req, b as int, sizes, k as nat) is None,
            told@.len() == k,
            forall|j: int|
                0 <= j < k ==> if req.projected[req.members[b as int][j] as int] {
                    #[trigger] told@[j] matches Some(found) && is_told(req, b as int, j, found)
                } else {
                    told@[j] is None
                },
        decreases primary - k,
    {
        assert(members[k as int] < projected@.len());
        let gi: usize = schema.bucket_to_global[b][k];
        assert(types[k as int] == schema.columns@[gi as int].data_type);
        if projected[gi] {
            match paged_column_told(
                input,
                &schema.columns[gi].data_type,
                meta.num_rows,
                k,
                primary,
                &table,
                &offsets,
                Ghost(req),
                Ghost(b as int),
            ) {
                Ok(found) => {
                    told.push(Some(found));
                },
                Err(e) => {
                    return Err(e);
                },
            }
        } else {
            told.push(None);
        }
        k += 1;
    }
    Ok(told)
}

/// Tells the same of all columns that are asked for.
fn same_told(members: &Vec<usize>, projected: &Vec<bool>, encodings: &Vec<Encoding>) -> (told: Vec<Option<(Encoding, usize)>>)
    requires
        encodings@.len() >= members@.len(),
        forall|j: int| 0 <= j < members@.len() ==> (#[trigger] members@[j]) < projected@.len(),
    ensures
        told@.len() == members@.len(),
        forall|k: int|
            0 <= k < told@.len() ==> #[trigger] told@[k] == (if projected@[members@[k] as int] {
                Some((encodings@[k], 0usize))
            } else {
                None
            }),
{
    let mut told: Vec<Option<(Encoding, usize)>> = Vec::new();
    let mut k: usize = 0;
    while k < members.len()
        invariant
            k <= members@.len(),
            encodings@.len() >= members@.len(),
            forall|j: int| 0 <= j < members@.len() ==> (#[trigger] members@[j]) < projected@.len(),
            told@.len() == k,
            forall|j: int|
                0 <= j < k ==> #[trigger] told@[j] == (if projected@[members@[j] as int] {
                    Some((encodings@[j], 0usize))
                } else {
                    None
                }),
        decreases members@.len() - k,
    {
        assert(members@[k as int] < projected@.len());
        if projected[members[k]] {
            told.push(Some((encodings[k], 0)));
        } else {
            told.push(None);
        }
        k += 1;
    }
    told
}

/// Tells of the columns of a bucket in one piece.
fn monolithic_told<I: InputFile>(
    input: &I,
    schema: &MosaicSchema,
    meta: &RowGroupMeta,
    compression: u8,
    b: usize,
    projected: &Vec<bool>,
    Ghost(req): Ghost<GroupRequest>,
) -> (result: Result<Vec<Option<(Encoding, usize)>>, Error>)
    requires
        schema.wf(),
        b < schema.num_buckets,
        meta@.wf(schema.num_buckets as int, u64::MAX as int),
        meta.bucket_layouts@[b as int] is Monolithic,
        projected@.len() == schema.columns@.len(),
        req == request_of(*schema, meta@, compression, input.contents(), projected@),
        req.needed(b as int),
    ensures
        match result {
            Ok(told) => bucket_error(req, b as int) is None && all_told(req, b as int, told@),
            Err(e) => (e is Io && !(input.never_fails() && req.is_inside()) && reads_from(req, b as int)) || bucket_error(req, b as int) == Some(e),
        },
{
    let ghost types = schema.bucket_types(b as int);
    let ghost members = schema.bucket_to_global@[b as int]@;
    proof {
        assert(schema.bucket_ok(b as int));
        assert(req.types[b as int] == types);
        assert(req.members[b as int] == members);
    }
    let (compressed_size, uncompressed_size) = meta.bucket_layouts[b].encode();
    let buf: Vec<u8> = match read_range(input, meta.bucket_offsets[b], compressed_size) {
        Ok(buf) => buf,
        Err(e) => {
            return Err(e);
        },
    };
    let data: Vec<u8> = match monolithic_bytes(compression, buf.as_slice(), uncompressed_size) {
        Ok(data) => data,
        Err(e) => {
            return Err(e);
        },
    };
    let types_of: Vec<DataType> = schema.bucket_type_copies(b);
    let reader: BucketReader = match BucketReader::new(types_of, data, meta.num_rows) {
        Ok(reader) => reader,
        Err(e) => {
            return Err(e);
        },
    };
    let codes: Vec<u8> = reader.encodings();
    let mut encodings: Vec<Encoding> = Vec::new();
    let mut j: usize = 0;
    while j < codes.len()
        invariant
            j <= codes@.len(),
            encodings@.len() == j,
            forall|k: int| 0 <= k < j ==> #[trigger] encodings@[k] == encoding_of_code(codes@[k]),
        decreases codes@.len() - j,
    {
        encodings.push(Encoding::from_code(codes[j]));
        j += 1;
    }
    assert(reader.columns().len() >= types.len());
    let told = same_told(&schema.bucket_to_global[b], projected, &encodings);
    Ok(told)
}

/// The columns of the first `n` buckets that are asked for are told of, each at its own place, and
/// no others.
#[verifier::opaque]
spec fn found_so_far(req: GroupRequest, found: Seq<Option<PageInfo>>, n: nat) -> bool {
    &&& found.len() == req.projected.len()
    &&& forall|c: int, k: int|
        #![trigger req.members[c][k]]
        0 <= c < n && 0 <= k < req.members[c].len() && req.projected[req.members[c][k] as int] ==> (found[req.members[c][k] as int] matches Some(
            info,
        ) && is_page(req, c, k, info))
    &&& forall|g: int|
        0 <= g < found.len() && (#[trigger] found[g]) is Some ==> exists|c: int, k: int|
            #![trigger req.members[c][k]]
            0 <= c < n && 0 <= k < req.members[c].len() && req.members[c][k] == g && req.projected[g]
}

/// The buckets share no columns.
spec fn are_apart(req: GroupRequest) -> bool {
    forall|b: int, c: int, j: int, k: int|
        #![trigger req.members[b][j], req.members[c][k]]
        0 <= b < req.members.len() && 0 <= c < req.members.len() && 0 <= j < req.members[b].len() && 0 <= k < req.members[c].len()
            && req.members[b][j] == req.members[c][k] ==> b == c && j == k
}

proof fn lemma_apart(schema: MosaicSchema, req: GroupRequest)
    requires
        schema.wf(),
        req.members == request_of(schema, req.meta, req.compression, req.contents, req.projected).members,
    ensures
        are_apart(req),
{
    assert forall|b: int, c: int, j: int, k: int|
        #![trigger req.members[b][j], req.members[c][k]]
        0 <= b < req.members.len() && 0 <= c < req.members.len() && 0 <= j < req.members[b].len() && 0 <= k < req.members[c].len()
            && req.members[b][j] == req.members[c][k] implies b == c && j == k by {
        assert(schema.bucket_ok(b));
        assert(schema.bucket_ok(c));
        assert(schema.bucket_to_global@[b]@[j] == req.members[b][j]);
        assert(schema.bucket_to_global@[c]@[k] == req.members[c][k]);
    }
}

/// Puts what is told of the columns of one bucket at their places.
fn place_told(members: &Vec<usize>, b: usize, told: &Vec<Option<(Encoding, usize)>>, found: &mut Vec<Option<PageInfo>>, Ghost(req): Ghost<GroupRequest>)
    requires
        found_so_far(req, old(found)@, b as nat),
        b < req.members.len(),
        members@ == req.members[b as int],
        req.wf(),
        are_apart(req),
        all_told(req, b as int, told@),
    ensures
        found_so_far(req, final(found)@, (b + 1) as nat),
{
    reveal(found_so_far);
    let mut k: usize = 0;
    let ghost start = found@;
    while k < members.len()
        invariant
            k <= members@.len(),
            b < req.members.len(),
            members@ == req.members[b as int],
            req.wf(),
            are_apart(req),
            all_told(req, b as int, told@),
            found@.len() == start.len(),
            start.len() == req.projected.len(),
            forall|j: int|
                0 <= j < k && req.projected[#[trigger] req.members[b as int][j] as int] ==> (found@[req.members[b as int][j] as int] matches Some(
                    info,
                ) && is_page(req, b as int, j, info)),
            forall|g: int|
                #![trigger found@[g]]
                0 <= g < found@.len() ==> found@[g] == start[g] || exists|j: int|
                    0 <= j < k && #[trigger] req.members[b as int][j] == g && req.projected[g],
        decreases members@.len() - k,
    {
        let ghost before = found@;
        let gi: usize = members[k];
        assert(req.members[b as int][k as int] < req.projected.len());
        match told[k] {
            Some((encoding, slot_size)) => {
                let info: PageInfo = PageInfo { column_index: gi, bucket: b, encoding, slot_size };
                assert(is_page(req, b as int, k as int, info));
                found.set(gi, Some(info));
                assert(found@ == before.update(gi as int, Some(info)));
            },
            None => {},
        }
        k += 1;
        proof {
            assert forall|j: int| 0 <= j < k && req.projected[#[trigger] req.members[b as int][j] as int] implies (
            found@[req.members[b as int][j] as int] matches Some(info) && is_page(req, b as int, j, info)) by {
                if j < k - 1 {
                    assert(req.members[b as int][j] != req.members[b as int][k - 1]);
                }
            }
            assert forall|g: int| #![trigger found@[g]] 0 <= g < found@.len() implies found@[g] == start[g] || exists|j: int|
                0 <= j < k && #[trigger] req.members[b as int][j] == g && req.projected[g] by {
                if g == gi && told@[k - 1] is Some {
                    assert(req.members[b as int][k - 1] == g);
                } else {
                    assert(found@[g] == before[g]);
                    if before[g] != start[g] {
                        let j = choose|j: int| 0 <= j < k - 1 && #[trigger] req.members[b as int][j] == g && req.projected[g];
                        assert(req.members[b as int][j] == g);
                    }
                }
            }
        }
    }
    proof {
        assert forall|c: int, k: int|
            #![trigger req.members[c][k]]
            0 <= c < b + 1 && 0 <= k < req.members[c].len() && req.projected[req.members[c][k] as int] implies (
        found@[req.members[c][k] as int] matches Some(info) && is_page(req, c, k, info)) by {
            if c < b {
                let g = req.members[c][k] as int;
                assert(g < found@.len());
                assert(found@[g] == start[g]) by {
                    if found@[g] != start[g] {
                        let j = choose|j: int|
                            0 <= j < members@.len() && #[trigger] req.members[b as int][j] == g && req.projected[g];
                        assert(req.members[b as int][j] == req.members[c][k]);
                    }
                }
            }
        }
        assert forall|g: int| 0 <= g < found@.len() && (#[trigger] found@[g]) is Some implies exists|c: int, k: int|
            #![trigger req.members[c][k]]
            0 <= c < b + 1 && 0 <= k < req.members[c].len() && req.members[c][k] == g && req.projected[g] by {
            if found@[g] == start[g] {
                let (c, k) = choose|c: int, k: int|
                    #![trigger req.members[c][k]]
                    0 <= c < b && 0 <= k < req.members[c].len() && req.members[c][k] == g && req.projected[g];
                assert(req.members[c][k] == g);
            } else {
                let j = choose|j: int| 0 <= j < members@.len() && #[trigger] req.members[b as int][j] == g && req.projected[g];
                assert(req.members[b as int][j] == g);
            }
        }
    }
}

/// The places that are filled, in their order.
fn filled_places(found: &Vec<Option<PageInfo>>, schema: &MosaicSchema, Ghost(req): Ghost<GroupRequest>) -> (infos: Vec<PageInfo>)
    requires
        found_so_far(req, found@, req.members.len()),
        schema.wf(),
        req.projected.len() == schema.columns@.len(),
        req.members == request_of(*schema, req.meta, req.compression, req.contents, req.projected).members,
    ensures
        are_pages(req, infos@),
{
    reveal(found_so_far);
    let mut infos: Vec<PageInfo> = Vec::new();
    let mut g: usize = 0;
    while g < found.len()
        invariant
            g <= found@.len(),
            found_so_far(req, found@, req.members.len()),
            schema.wf(),
            req.projected.len() == schema.columns@.len(),
            found@.len() == req.projected.len(),
            req.members == request_of(*schema, req.meta, req.compression, req.contents, req.projected).members,
            forall|i: int, j: int| 0 <= i < j < infos@.len() ==> (#[trigger] infos@[i]).column_index < (#[trigger] infos@[j]).column_index,
            forall|i: int|
                0 <= i < infos@.len() ==> (#[trigger] infos@[i]).column_index < g && req.projected[infos@[i].column_index as int]
                    && exists|local: int| is_page(req, infos@[i].bucket as int, local, infos@[i]),
            forall|h: int|
                0 <= h < g && #[trigger] req.projected[h] ==> exists|i: int| 0 <= i < infos@.len() && (#[trigger] infos@[i]).column_index == h,
        decreases found@.len() - g,
    {
        let ghost before = infos@;
        proof {
            reveal(found_so_far);
            assert(schema.column_placed(g as int));
            let b = schema.columns@[g as int].bucket_id as int;
            let k = choose|k: int| 0 <= k < schema.bucket_to_global@[b]@.len() && schema.bucket_to_global@[b]@[k] == g as usize;
            assert(req.members[b][k] == g);
        }
        if let Some(info) = found[g] {
            proof {
                let (c, k) = choose|c: int, k: int|
                    #![trigger req.members[c][k]]
                    0 <= c < req.members.len() && 0 <= k < req.members[c].len() && req.members[c][k] == g && req.projected[g as int];
                assert(is_page(req, c, k, info));
            }
            infos.push(info);
            assert(infos@[before.len() as int] == info);
        }
        proof {
            assert forall|h: int| 0 <= h < g + 1 && #[trigger] req.projected[h] implies exists|i: int|
                0 <= i < infos@.len() && (#[trigger] infos@[i]).column_index == h by {
                if h < g {
                    let i = choose|i: int| 0 <= i < before.len() && (#[trigger] before[i]).column_index == h;
                    assert(infos@[i] == before[i]);
                } else {
                    assert(infos@[before.len() as int].column_index == g);
                }
            }
        }
        g += 1;
    }
    infos
}

impl<I: InputFile> MosaicReader<I> {
    /// What keeps the columns of a row group from being told of, reads that fail aside.
    pub open spec fn pages_error(&self, rg_index: int, columns: Seq<usize>) -> Option<Error> {
        if rg_index >= self.groups().len() {
            Some(Error::RowGroupOutOfRange)
        } else {
            match projection_error(columns, self.schema_of().columns@.len() as int, columns.len()) {
                Some(e) => Some(e),
                None => buckets_error(self.request(rg_index, columns), self.schema_of().num_buckets as nat),
            }
        }
    }

    /// Reading what is told of some columns may fail.
    pub open spec fn pages_may_fail(&self, rg_index: int, columns: Seq<usize>) -> bool {
        self.may_fail(rg_index, columns) && reads_pages(self.request(rg_index, columns))
    }

    /// Tells how some columns of a row group are stored. Of a bucket by pages only the directory
    /// and the slots of these columns are read.
    pub fn page_infos_projected(&self, rg_index: usize, columns: &[usize]) -> (result: Result<Vec<PageInfo>, Error>)
        requires
            self.wf(),
        ensures
            match result {
                Ok(infos) => self.pages_error(rg_index as int, columns@) is None && are_pages(
                    self.request(rg_index as int, columns@),
                    infos@,
                ),
                Err(e) => (e is Io && self.pages_may_fail(rg_index as int, columns@)) || self.pages_error(rg_index as int, columns@) == Some(e),
            },
    {
        if rg_index >= self.num_row_groups() {
            return Err(Error::RowGroupOutOfRange);
        }
        let schema: &MosaicSchema = self.schema();
        let projected: Vec<bool> = match mark_projected(columns, schema.columns.len()) {
            Ok(projected) => projected,
            Err(e) => {
                return Err(e);
            },
        };
        let meta: &RowGroupMeta = self.row_group_meta(rg_index);
        let ghost req = self.request(rg_index as int, columns@);
        let mut found: Vec<Option<PageInfo>> = Vec::new();
        let mut g: usize = 0;
        while g < schema.columns.len()
            invariant
                g <= schema.columns@.len(),
                found@.len() == g,
                forall|h: int| 0 <= h < g ==> (#[trigger] found@[h]) is None,
            decreases schema.columns@.len() - g,
        {
            found.push(None);
            g += 1;
        }
        proof {
            assert(meta@.wf(schema.num_buckets as int, u64::MAX as int));
            lemma_request_wf(*schema, meta@, self.compression_code(), self.file(), projected@);
            lemma_apart(*schema, req);
            assert(found_so_far(req, found@, 0)) by {
                reveal(found_so_far);
            }
        }
        let mut b: usize = 0;
        while b < schema.num_buckets
            invariant
                b <= schema.num_buckets,
                self.wf(),
                *schema == self.schema_of(),
                schema.wf(),
                rg_index < self.groups().len(),
                *meta == self.groups()[rg_index as int],
                meta@.wf(schema.num_buckets as int, u64::MAX as int),
                req == self.request(rg_index as int, columns@),
                req.wf(),
                are_apart(req),
                projected@ == req.projected,
                projected@.len() == schema.columns@.len(),
                req.members.len() == schema.num_buckets,
                self.is_whole(rg_index as int) ==> req.is_inside(),
                projection_error(columns@, schema.columns@.len() as int, columns@.len()) is None,
                buckets_error(req, b as nat) is None,
                found_so_far(req, found@, b as nat),
            decreases schema.num_buckets - b,
        {
            match self.bucket_told(meta, b, &projected, Ghost(req)) {
                Ok(told) => {
                    place_told(&schema.bucket_to_global[b], b, &told, &mut found, Ghost(req));
                },
                Err(e) => {
                    proof {
                        if bucket_error(req, b as int) == Some(e) {
                            lemma_bucket_failed(req, b as int, schema.num_buckets as nat, e);
                        }
                    }
                    return Err(e);
                },
            }
            b += 1;
        }
        Ok(filled_places(&found, schema, Ghost(req)))
    }

    /// Tells of the columns of one bucket.
    fn bucket_told(&self, meta: &RowGroupMeta, b: usize, projected: &Vec<bool>, Ghost(req): Ghost<GroupRequest>) -> (result: Result<
        Vec<Option<(Encoding, usize)>>,
        Error,
    >)
        requires
            self.wf(),
            b < self.schema_of().num_buckets,
            meta@.wf(self.schema_of().num_buckets as int, u64::MAX as int),
            projected@.len() == self.schema_of().columns@.len(),
            req == request_of(self.schema_of(), meta@, self.compression_code(), self.file(), projected@),
        ensures
            match result {
                Ok(told) => bucket_error(req, b as int) is None && all_told(req, b as int, told@),
                Err(e) => (e is Io && !(self.never_fails() && req.is_inside()) && reads_from(req, b as int)) || bucket_error(req, b as int) == Some(e),
            },
    {
        let schema: &MosaicSchema = self.schema();
        assert(schema.bucket_ok(b as int));
        let (any, _all) = bucket_need(schema, b, projected, Ghost(req));
        let mut none: Vec<Encoding> = Vec::new();
        let mut k: usize = 0;
        while k < schema.bucket_to_global[b].len()
            invariant
                b < schema.bucket_to_global@.len(),
                k <= schema.bucket_to_global@[b as int]@.len(),
                none@.len() == k,
                forall|j: int| 0 <= j < k ==> #[trigger] none@[j] is AllNull,
            decreases schema.bucket_to_global@[b as int]@.len() - k,
        {
            none.push(Encoding::AllNull);
            k += 1;
        }
        if !any {
            let told = same_told(&schema.bucket_to_global[b], projected, &none);
            proof {
                assert forall|k: int| 0 <= k < told@.len() implies !req.projected[req.members[b as int][k] as int] by {
                    assert(req.members[b as int][k] == schema.bucket_to_global@[b as int]@[k]);
                }
            }
            return Ok(told);
        }
        match meta.bucket_layouts[b] {
            BucketLayout::Empty => Ok(same_told(&schema.bucket_to_global[b], projected, &none)),
            BucketLayout::Monolithic { .. } => monolithic_told(self.input(), schema, meta, self.compression(), b, projected, Ghost(req)),
            BucketLayout::Paged { total_size } => paged_told(self.input(), schema, meta, b, total_size, projected, Ghost(req)),
        }
    }
}

/// The indices of all columns.
pub open spec fn all_columns(n: nat) -> Seq<usize> {
    Seq::new(n, |g: int| g as usize)
}

/// What is wrong with the directory of a bucket by pages.
pub open spec fn directory_error(req: GroupRequest, b: int) -> Option<Error> {
    if req.meta.bucket_layouts[b] is Paged {
        match slots_in(req, b) {
            Err(e) => Some(e),
            Ok(_) => None,
        }
    } else {
        None
    }
}

pub open spec fn directories_error(req: GroupRequest, n: nat) -> Option<Error>
    decreases n,
{
    if n == 0 {
        None
    } else {
        first_error(directories_error(req, (n - 1) as nat), directory_error(req, n - 1))
    }
}

proof fn lemma_directories_error(req: GroupRequest, n: nat, m: nat)
    requires
        n <= m,
        directories_error(req, n) is Some,
    ensures
        directories_error(req, m) == directories_error(req, n),
    decreases m - n,
{
    if n < m {
        lemma_directories_error(req, n, (m - 1) as nat);
    }
}

/// The bytes of the slots of column `local` of bucket `b`; 0 outside of buckets by pages.
pub open spec fn slot_bytes_of(req: GroupRequest, b: int, local: int) -> usize {
    if req.meta.bucket_layouts[b] is Paged {
        match slots_in(req, b) {
            Ok(sizes) => logical_slot_size(req.types[b], sizes, local),
            Err(_) => 0,
        }
    } else {
        0
    }
}

/// The sizes of the columns of the first `n` buckets, each at its own place.
spec fn sized_so_far(req: GroupRequest, sizes: Seq<usize>, n: nat) -> bool {
    &&& forall|c: int, k: int|
        #![trigger req.members[c][k]]
        0 <= c < n && 0 <= k < req.members[c].len() ==> sizes[req.members[c][k] as int] == slot_bytes_of(req, c, k)
    &&& forall|c: int, k: int|
        #![trigger req.members[c][k]]
        n <= c < req.members.len() && 0 <= k < req.members[c].len() ==> sizes[req.members[c][k] as int] == 0
}

/// Puts the sizes of the columns of one bucket at their places.
fn place_sizes(members: &Vec<usize>, b: usize, table: &SlotTable, out: &mut Vec<usize>, Ghost(req): Ghost<GroupRequest>)
    requires
        sized_so_far(req, old(out)@, b as nat),
        old(out)@.len() == req.projected.len(),
        b < req.members.len(),
        members@ == req.members[b as int],
        req.wf(),
        are_apart(req),
        req.meta.bucket_layouts[b as int] is Paged,
        slots_in(req, b as int) == Ok::<Seq<nat>, Error>(usize_nats(table.sizes@)),
        table.children@ == all_child_metas(req.types[b as int], req.types[b as int].len()),
        table.sizes@.len() == members@.len() + table.children@.len(),
    ensures
        final(out)@.len() == old(out)@.len(),
        sized_so_far(req, final(out)@, (b + 1) as nat),
{
    let ghost start = out@;
    let primary: usize = members.len();
    let mut k: usize = 0;
    while k < primary
        invariant
            k <= primary,
            primary == members@.len(),
            b < req.members.len(),
            members@ == req.members[b as int],
            req.wf(),
            are_apart(req),
            req.meta.bucket_layouts[b as int] is Paged,
            slots_in(req, b as int) == Ok::<Seq<nat>, Error>(usize_nats(table.sizes@)),
            table.children@ == all_child_metas(req.types[b as int], req.types[b as int].len()),
            table.sizes@.len() == members@.len() + table.children@.len(),
            out@.len() == start.len(),
            start.len() == req.projected.len(),
            forall|j: int| 0 <= j < k ==> out@[(#[trigger] req.members[b as int][j]) as int] == slot_bytes_of(req, b as int, j),
            forall|c: int, j: int|
                #![trigger req.members[c][j]]
                0 <= c < req.members.len() && 0 <= j < req.members[c].len() && (c != b || j >= k) ==> out@[req.members[c][j] as int]
                    == start[req.members[c][j] as int],
        decreases primary - k,
    {
        let ghost before = out@;
        let gi: usize = members[k];
        assert(req.members[b as int][k as int] < req.projected.len());
        let size: usize = logical_paged_slot_size(k, table, primary, Ghost(req.types[b as int]));
        out.set(gi, size);
        proof {
            assert forall|c: int, j: int|
                #![trigger req.members[c][j]]
                0 <= c < req.members.len() && 0 <= j < req.members[c].len() && !(c == b && j == k) implies out@[req.members[c][j] as int]
                == before[req.members[c][j] as int] by {
                assert(req.members[c][j] < req.projected.len());
                assert(req.members[c][j] != req.members[b as int][k as int]);
            }
        }
        k += 1;
    }
}

impl<I: InputFile> MosaicReader<I> {
    /// Tells how the columns of a row group are stored, in the order of the schema.
    pub fn page_infos(&self, rg_index: usize) -> (result: Result<Vec<PageInfo>, Error>)
        requires
            self.wf(),
        ensures
            match result {
                Ok(infos) => self.pages_error(rg_index as int, all_columns(self.schema_of().columns@.len())) is None && are_pages(
                    self.request(rg_index as int, all_columns(self.schema_of().columns@.len())),
                    infos@,
                ),
                Err(e) => (e is Io && self.pages_may_fail(rg_index as int, all_columns(self.schema_of().columns@.len()))) || self.pages_error(
                    rg_index as int,
                    all_columns(self.schema_of().columns@.len()),
                ) == Some(e),
            },
    {
        let mut columns: Vec<usize> = Vec::new();
        let mut g: usize = 0;
        let n: usize = self.schema().columns.len();
        while g < n
            invariant
                g <= n,
                columns@.len() == g,
                forall|h: int| 0 <= h < g ==> #[trigger] columns@[h] == h,
            decreases n - g,
        {
            columns.push(g);
            g += 1;
        }
        assert(columns@ =~= all_columns(self.schema_of().columns@.len()));
        self.page_infos_projected(rg_index, columns.as_slice())
    }

    /// Tells how the columns of the given names of a row group are stored.
    pub fn page_infos_by_names(&self, rg_index: usize, column_names: &[&str]) -> (result: Result<Vec<PageInfo>, Error>)
        requires
            self.wf(),
        ensures
            result matches Ok(infos) ==> exists|columns: Seq<usize>|
                #[trigger] self.schema_of().names_found(column_names@, columns) && self.pages_error(rg_index as int, columns) is None
                    && are_pages(self.request(rg_index as int, columns), infos@),
            result matches Err(e) ==> (exists|i: int| #[trigger] self.schema_of().not_found(column_names@, i, e)) || (
            exists|columns: Seq<usize>| #[trigger]
                self.schema_of().names_found(column_names@, columns) && ((e is Io && self.pages_may_fail(rg_index as int, columns))
                    || self.pages_error(rg_index as int, columns) == Some(e))),
    {
        match self.schema().find_columns(column_names) {
            Ok(indices) => {
                assert(self.schema_of().names_found(column_names@, indices@));
                self.page_infos_projected(rg_index, indices.as_slice())
            },
            Err(e) => Err(e),
        }
    }

    /// What keeps the sizes of the slots of a row group from being told, reads that fail aside.
    pub open spec fn sizes_error(&self, rg_index: int) -> Option<Error> {
        if rg_index >= self.groups().len() {
            Some(Error::RowGroupOutOfRange)
        } else {
            directories_error(self.request(rg_index, Seq::empty()), self.schema_of().num_buckets as nat)
        }
    }

    /// Reading the directories of a row group may fail.
    pub open spec fn sizes_may_fail(&self, rg_index: int) -> bool {
        self.may_fail(rg_index, Seq::empty()) && reads_directories(self.request(rg_index, Seq::empty()))
    }

    /// The bytes of the slots of each column, from the directories alone.
    pub fn slot_sizes(&self, rg_index: usize) -> (result: Result<Vec<usize>, Error>)
        requires
            self.wf(),
        ensures
            match result {
                Ok(sizes) => self.sizes_error(rg_index as int) is None && sizes@.len() == self.schema_of().columns@.len() && forall|
                    c: int,
                    k: int,
                |
                    #![trigger self.schema_of().bucket_to_global@[c]@[k]]
                    0 <= c < self.schema_of().num_buckets && 0 <= k < self.schema_of().bucket_to_global@[c]@.len()
                        ==> sizes@[self.schema_of().bucket_to_global@[c]@[k] as int] == slot_bytes_of(
                        self.request(rg_index as int, Seq::empty()),
                        c,
                        k,
                    ),
                Err(e) => (e is Io && self.sizes_may_fail(rg_index as int)) || self.sizes_error(rg_index as int) == Some(e),
            },
    {
        if rg_index >= self.num_row_groups() {
            return Err(Error::RowGroupOutOfRange);
        }
        let schema: &MosaicSchema = self.schema();
        let meta: &RowGroupMeta = self.row_group_meta(rg_index);
        let ghost req = self.request(rg_index as int, Seq::empty());
        let mut out: Vec<usize> = Vec::new();
        let mut g: usize = 0;
        while g < schema.columns.len()
            invariant
                g <= schema.columns@.len(),
                out@.len() == g,
                forall|h: int| 0 <= h < g ==> #[trigger] out@[h] == 0,
            decreases schema.columns@.len() - g,
        {
            out.push(0);
            g += 1;
        }
        proof {
            assert(meta@.wf(schema.num_buckets as int, u64::MAX as int));
            lemma_request_wf(*schema, meta@, self.compression_code(), self.file(), req.projected);
            lemma_apart(*schema, req);
        }
        let mut b: usize = 0;
        while b < schema.num_buckets
            invariant
                b <= schema.num_buckets,
                self.wf(),
                *schema == self.schema_of(),
                schema.wf(),
                rg_index < self.groups().len(),
                *meta == self.groups()[rg_index as int],
                meta@.wf(schema.num_buckets as int, u64::MAX as int),
                req == self.request(rg_index as int, Seq::empty()),
                req.wf(),
                are_apart(req),
                req.members.len() == schema.num_buckets,
                out@.len() == req.projected.len(),
                directories_error(req, b as nat) is None,
                sized_so_far(req, out@, b as nat),
            decreases schema.num_buckets - b,
        {
            assert(schema.bucket_ok(b as int));
            assert(req.members[b as int] == schema.bucket_to_global@[b as int]@);
            assert(req.types[b as int] == schema.bucket_types(b as int));
            if let BucketLayout::Paged { total_size } = meta.bucket_layouts[b] {
                match paged_dir(self.input(), schema, b, meta.bucket_offsets[b], total_size) {
                    Ok(table) => {
                        place_sizes(&schema.bucket_to_global[b], b, &table, &mut out, Ghost(req));
                    },
                    Err(e) => {
                        proof {
                            if e is Io {
                                assert(dir_size_of(req.types[b as int]) <= total_size ==> reads_directory(req, b as int));
                            }
                            if directory_error(req, b as int) == Some(e) {
                                assert(directories_error(req, (b + 1) as nat) == Some(e));
                                lemma_directories_error(req, (b + 1) as nat, schema.num_buckets as nat);
                            }
                        }
                        return Err(e);
                    },
                }
            }
            b += 1;
        }
        proof {
            assert forall|c: int, k: int|
                #![trigger self.schema_of().bucket_to_global@[c]@[k]]
                0 <= c < self.schema_of().num_buckets && 0 <= k < self.schema_of().bucket_to_global@[c]@.len() implies out@[self.schema_of().bucket_to_global@[c]@[k] as int]
                == slot_bytes_of(req, c, k) by {
                assert(req.members[c][k] == self.schema_of().bucket_to_global@[c]@[k]);
            }
        }
        Ok(out)
    }
}

/// The sizes that are told of slots alone are those that are told of pages.
pub proof fn slot_sizes_are_those_of_pages<I: InputFile>(
    reader: MosaicReader<I>,
    rg_index: int,
    columns: Seq<usize>,
    b: int,
    local: int,
    info: PageInfo,
)
    requires
        is_page(reader.request(rg_index, columns), b, local, info),
    ensures
        info.slot_size == slot_bytes_of(reader.request(rg_index, Seq::empty()), b, local),
{
}

/// Outside of buckets by pages no slots are told of.
pub proof fn slots_are_told_of_pages_alone(req: GroupRequest, b: int, local: int, info: PageInfo)
    requires
        is_page(req, b, local, info),
        !(req.meta.bucket_layouts[b] is Paged),
    ensures
        info.slot_size == 0,
{
}

proof fn lemma_all_projected<I: InputFile>(reader: MosaicReader<I>, rg_index: int)
    requires
        reader.wf(),
    ensures
        ({
            let req = reader.request(rg_index, all_columns(reader.schema_of().columns@.len()));
            forall|g: int| 0 <= g < req.projected.len() ==> #[trigger] req.projected[g]
        }),
{
    let n = reader.schema_of().columns@.len();
    let req = reader.request(rg_index, all_columns(n));
    assert forall|g: int| 0 <= g < req.projected.len() implies #[trigger] req.projected[g] by {
        assert(all_columns(n)[g] == g as usize);
    }
}

/// A bucket that is needed for some columns is needed for all of them, and its bytes in one piece
/// are the same.
proof fn lemma_needed_for_all<I: InputFile>(reader: MosaicReader<I>, rg_index: int, columns: Seq<usize>, b: int)
    requires
        reader.wf(),
        0 <= rg_index < reader.groups().len(),
        0 <= b < reader.schema_of().num_buckets,
        reader.request(rg_index, columns).needed(b),
    ensures
        ({
            let all = reader.request(rg_index, all_columns(reader.schema_of().columns@.len()));
            let some = reader.request(rg_index, columns);
            all.needed(b) && (all.meta.bucket_layouts[b] is Monolithic ==> all.monolithic_state(b) == some.monolithic_state(b))
        }),
{
    let all = reader.request(rg_index, all_columns(reader.schema_of().columns@.len()));
    let some = reader.request(rg_index, columns);
    lemma_all_projected(reader, rg_index);
    assert(reader.schema_of().bucket_ok(b));
    let k = choose|k: int| 0 <= k < some.members[b].len() && some.projected[#[trigger] some.members[b][k] as int];
    assert(all.members[b][k] == reader.schema_of().bucket_to_global@[b]@[k]);
    assert(all.projected[all.members[b][k] as int]);
    assert(all.needed(b));
}

/// What is told of some columns of a row group is what is told of all of them: one page for each
/// column asked for, in the order of the schema, and each the same as among the pages of all.
pub proof fn projected_pages_are_those_of_all<I: InputFile>(
    reader: MosaicReader<I>,
    rg_index: int,
    columns: Seq<usize>,
    all: Seq<PageInfo>,
    some: Seq<PageInfo>,
)
    requires
        reader.wf(),
        0 <= rg_index < reader.groups().len(),
        are_pages(reader.request(rg_index, all_columns(reader.schema_of().columns@.len())), all),
        are_pages(reader.request(rg_index, columns), some),
    ensures
        forall|i: int, j: int| 0 <= i < j < some.len() ==> (#[trigger] some[i]).column_index < (#[trigger] some[j]).column_index,
        forall|g: int|
            0 <= g < reader.schema_of().columns@.len() ==> (#[trigger] columns.contains(g as usize) <==> exists|i: int|
                0 <= i < some.len() && (#[trigger] some[i]).column_index == g),
        forall|i: int| 0 <= i < some.len() ==> all.contains(#[trigger] some[i]),
{
    let n = reader.schema_of().columns@.len();
    let a = reader.request(rg_index, all_columns(n));
    let p = reader.request(rg_index, columns);
    lemma_all_projected(reader, rg_index);
    lemma_apart(reader.schema_of(), a);
    assert(a.members =~= p.members);
    assert forall|g: int| 0 <= g < n implies (#[trigger] columns.contains(g as usize) <==> exists|i: int|
        0 <= i < some.len() && (#[trigger] some[i]).column_index == g) by {
        assert(p.projected[g] == columns.contains(g as usize));
    }
    assert forall|i: int| 0 <= i < some.len() implies all.contains(#[trigger] some[i]) by {
        let info = some[i];
        let local = choose|local: int| is_page(p, info.bucket as int, local, info);
        let b = info.bucket as int;
        assert(p.projected[p.members[b][local] as int]);
        assert(p.needed(b));
        lemma_needed_for_all(reader, rg_index, columns, b);
        let g = info.column_index as int;
        assert(a.projected[g]);
        let j = choose|j: int| 0 <= j < all.len() && (#[trigger] all[j]).column_index == g;
        let other = choose|other: int| is_page(a, all[j].bucket as int, other, all[j]);
        assert(a.members[all[j].bucket as int][other] == a.members[b][local]);
        assert(all[j] == info);
    }
}

proof fn lemma_slots_told(all: GroupRequest, some: GroupRequest, b: int, sizes: Seq<nat>, n: nat)
    requires
        all.types == some.types,
        all.members == some.members,
        all.meta == some.meta,
        all.contents == some.contents,
        n <= all.members[b].len(),
        forall|k: int| 0 <= k < all.members[b].len() ==> all.projected[#[trigger] all.members[b][k] as int],
        slots_error(all, b, sizes, n) is None,
    ensures
        slots_error(some, b, sizes, n) is None,
    decreases n,
{
    if n > 0 {
        lemma_slots_told(all, some, b, sizes, (n - 1) as nat);
        assert(all.projected[all.members[b][n - 1] as int]);
    }
}

proof fn lemma_some_told<I: InputFile>(reader: MosaicReader<I>, rg_index: int, columns: Seq<usize>, n: nat)
    requires
        reader.wf(),
        0 <= rg_index < reader.groups().len(),
        n <= reader.schema_of().num_buckets,
        buckets_error(reader.request(rg_index, all_columns(reader.schema_of().columns@.len())), n) is None,
    ensures
        buckets_error(reader.request(rg_index, columns), n) is None,
    decreases n,
{
    let all = reader.request(rg_index, all_columns(reader.schema_of().columns@.len()));
    let some = reader.request(rg_index, columns);
    if n > 0 {
        lemma_some_told(reader, rg_index, columns, (n - 1) as nat);
        let b = n - 1;
        if some.needed(b) {
            lemma_needed_for_all(reader, rg_index, columns, b);
            if all.meta.bucket_layouts[b] is Paged {
                lemma_all_projected(reader, rg_index);
                assert(reader.schema_of().bucket_ok(b));
                assert forall|k: int| 0 <= k < all.members[b].len() implies all.projected[#[trigger] all.members[b][k] as int] by {
                    assert(all.members[b][k] == reader.schema_of().bucket_to_global@[b]@[k]);
                }
                lemma_slots_told(all, some, b, slots_in(all, b)->Ok_0, all.members[b].len());
            }
        }
    }
}

/// Where all columns of a row group can be told of, so can any of them.
pub proof fn pages_are_told_of_some_where_of_all<I: InputFile>(reader: MosaicReader<I>, rg_index: int, columns: Seq<usize>)
    requires
        reader.wf(),
        0 <= rg_index,
        reader.pages_error(rg_index, all_columns(reader.schema_of().columns@.len())) is None,
        projection_error(columns, reader.schema_of().columns@.len() as int, columns.len()) is None,
    ensures
        reader.pages_error(rg_index, columns) is None,
{
    lemma_some_told(reader, rg_index, columns, reader.schema_of().num_buckets as nat);
}

proof fn lemma_directories_told<I: InputFile>(reader: MosaicReader<I>, rg_index: int, n: nat)
    requires
        reader.wf(),
        0 <= rg_index < reader.groups().len(),
        n <= reader.schema_of().num_buckets,
        buckets_error(reader.request(rg_index, all_columns(reader.schema_of().columns@.len())), n) is None,
        forall|b: int|
            0 <= b < n && (#[trigger] reader.schema_of().bucket_to_global@[b])@.len() == 0 ==> directory_error(
                reader.request(rg_index, Seq::empty()),
                b,
            ) is None,
    ensures
        directories_error(reader.request(rg_index, Seq::empty()), n) is None,
    decreases n,
{
    let all = reader.request(rg_index, all_columns(reader.schema_of().columns@.len()));
    let none = reader.request(rg_index, Seq::empty());
    if n > 0 {
        lemma_directories_told(reader, rg_index, (n - 1) as nat);
        let b = n - 1;
        if all.meta.bucket_layouts[b] is Paged {
            lemma_all_projected(reader, rg_index);
            assert(reader.schema_of().bucket_ok(b));
            assert(all.members[b] == reader.schema_of().bucket_to_global@[b]@);
            if all.members[b].len() > 0 {
                assert(all.projected[all.members[b][0] as int]);
                assert(all.needed(b));
                assert(bucket_error(all, b) is None);
                assert(slots_in(all, b) == slots_in(none, b));
            }
        }
    }
}

/// Where all columns of a row group can be told of, so can the sizes of the slots alone. A bucket
/// without columns whose directory is faulty is left out: it is read for the sizes, and for nothing
/// else.
pub proof fn slot_sizes_are_told_where_pages_are<I: InputFile>(reader: MosaicReader<I>, rg_index: int)
    requires
        reader.wf(),
        0 <= rg_index,
        reader.pages_error(rg_index, all_columns(reader.schema_of().columns@.len())) is None,
        forall|b: int|
            0 <= b < reader.schema_of().num_buckets && (#[trigger] reader.schema_of().bucket_to_global@[b])@.len() == 0
                ==> directory_error(reader.request(rg_index, Seq::empty()), b) is None,
    ensures
        reader.sizes_error(rg_index) is None,
{
    lemma_directories_told(reader, rg_index, reader.schema_of().num_buckets as nat);
}

} // verus!
