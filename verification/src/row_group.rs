//! The columns of one row group.
use vstd::prelude::*;
use vstd::slice::slice_subrange;
use crate::bucket_reader::{bucket_columns, lemma_physical_leaves, rows_in, BucketReader, ColumnPageReader};
use crate::bucket_writer::{all_child_metas, expand_col_types, lemma_all_metas_len, physical_types, plain_types, ChildColumnMeta};
use crate::compression::{decompress_zstd, decompressed};
use crate::encoded_column::EncodedColumnView;
use crate::error::Error;
use crate::format::{BucketLayout, COMPRESSION_NONE, COMPRESSION_ZSTD, ENCODING_ALL_NULL};
use crate::input::{buffer_views, range_bytes, range_end, range_inside, ranges_below, ranges_ok, ranges_read, InputFile, ReadRangeBuffer};
use crate::paged::{checked_directory, empty_slot_column, parse_column_slot, reads_column, slot_column, sum, usize_nats, Directory,
    DirectoryView};
use crate::row_index::{bucket_size, first_error, RowGroupMeta, RowGroupView};
use crate::schema::{bucket_fits, MosaicSchema};
use crate::types::DataType;
use crate::values::Value;

verus! {

// ---------------------------------------------------------------- model

/// What is known of a bucket once its bytes are read.
pub enum BucketStateView {
    Monolithic { columns: Seq<EncodedColumnView>, lacks_data: bool },
    Paged { slots: Seq<Option<EncodedColumnView>> },
}

/// A row group of which some columns are asked for: the types and the columns of each bucket, where
/// the buckets stand, the bytes of the file, and which columns are asked for.
pub struct GroupRequest {
    pub types: Seq<Seq<DataType>>,
    pub members: Seq<Seq<usize>>,
    pub meta: RowGroupView,
    pub compression: u8,
    pub contents: Seq<u8>,
    pub projected: Seq<bool>,
}

/// How many bytes the directory of a bucket takes.
pub open spec fn dir_size_of(types: Seq<DataType>) -> int {
    let children = all_child_metas(types, types.len()).len() as int;
    (if children == 0 {
        0int
    } else {
        2 + 4 * children
    }) + 4 * physical_types(types).len()
}

/// The column of a slot; one without bytes has no values.
pub open spec fn slot_or_empty(size: nat, slot: Seq<u8>, dt: DataType, rows: nat) -> Result<EncodedColumnView, Error> {
    if size == 0 {
        empty_slot_column(dt, rows)
    } else {
        slot_column(slot, dt, rows)
    }
}

impl GroupRequest {
    pub open spec fn needed(self, b: int) -> bool {
        exists|k: int| 0 <= k < self.members[b].len() && self.projected[#[trigger] self.members[b][k] as int]
    }

    /// All columns of the bucket are asked for.
    pub open spec fn complete(self, b: int) -> bool {
        self.needed(b) && forall|k: int| 0 <= k < self.members[b].len() ==> self.projected[#[trigger] self.members[b][k] as int]
    }

    pub open spec fn layout(self, b: int) -> BucketLayout {
        if self.needed(b) {
            self.meta.bucket_layouts[b]
        } else {
            BucketLayout::Empty
        }
    }

    pub open spec fn total_size(self, b: int) -> usize {
        self.layout(b).sizes().0
    }

    /// What keeps a bucket from being read at all.
    pub open spec fn plan_error(self, b: int) -> Option<Error> {
        if self.layout(b) is Paged {
            if self.compression != COMPRESSION_ZSTD {
                Some(Error::PagedBucketNotZstd)
            } else if dir_size_of(self.types[b]) > self.total_size(b) {
                Some(
                    Error::DirectoryTooLarge {
                        bucket: b as usize,
                        dir_size: dir_size_of(self.types[b]) as usize,
                        total_size: self.total_size(b),
                    },
                )
            } else {
                None
            }
        } else {
            None
        }
    }

    /// What is read of a bucket first: all of it, or only its directory.
    pub open spec fn first_range(self, b: int) -> (u64, usize) {
        (
            self.meta.bucket_offsets[b],
            if self.layout(b) is Paged && !self.complete(b) {
                dir_size_of(self.types[b]) as usize
            } else {
                self.total_size(b)
            },
        )
    }

    pub open spec fn first_bytes(self, b: int) -> Seq<u8> {
        range_bytes(self.contents, self.first_range(b))
    }

    /// The bytes of a bucket in one piece.
    pub open spec fn monolithic_data(self, b: int) -> Result<Seq<u8>, Error> {
        if self.compression == COMPRESSION_NONE {
            Ok(self.first_bytes(b))
        } else if self.compression == COMPRESSION_ZSTD {
            decompressed(self.first_bytes(b), self.layout(b).sizes().1 as nat)
        } else {
            Err(Error::UnsupportedBucketCompression)
        }
    }

    /// The columns of a bucket in one piece.
    pub open spec fn monolithic_state(self, b: int) -> Result<BucketStateView, Error> {
        match self.monolithic_data(b) {
            Err(e) => Err(e),
            Ok(data) => match bucket_columns(
                physical_types(self.types[b]),
                self.types[b].len() as int,
                data,
                self.meta.num_rows,
            ) {
                Err(e) => Err(e),
                Ok(columns) => Ok(
                    BucketStateView::Monolithic { columns, lacks_data: data.len() == 0 && self.meta.num_rows > 0 },
                ),
            },
        }
    }

    pub open spec fn directory(self, b: int) -> Result<DirectoryView, Error> {
        checked_directory(
            self.first_bytes(b),
            all_child_metas(self.types[b], self.types[b].len()).len() > 0,
            physical_types(self.types[b]).len(),
            b as usize,
            self.total_size(b),
        )
    }

    /// Physical column `i` of bucket `b` is asked for, or the column that it is below.
    pub open spec fn wants(self, b: int, i: int) -> bool {
        let primary = self.types[b].len() as int;
        if i < primary {
            self.projected[self.members[b][i] as int]
        } else {
            let parent = all_child_metas(self.types[b], self.types[b].len())[i - primary].parent_logical_col;
            parent < primary && self.projected[self.members[b][parent as int] as int]
        }
    }

    /// Where the slot of physical column `i` starts in its bucket.
    pub open spec fn slot_start(self, b: int, i: int) -> int {
        let dir = self.directory(b)->Ok_0;
        dir.dir_size + sum(dir.sizes.take(i))
    }

    /// Where the slot of physical column `i` stands in the file.
    pub open spec fn slot_range(self, b: int, i: int) -> (u64, usize) {
        (
            (self.meta.bucket_offsets[b] + self.slot_start(b, i)) as u64,
            self.directory(b)->Ok_0.sizes[i] as usize,
        )
    }

    pub open spec fn slot_bytes(self, b: int, i: int) -> Seq<u8> {
        range_bytes(self.contents, self.slot_range(b, i))
    }

    pub open spec fn column(self, b: int, i: int) -> Result<EncodedColumnView, Error> {
        let types = self.types[b];
        slot_or_empty(
            self.directory(b)->Ok_0.sizes[i],
            self.slot_bytes(b, i),
            physical_types(types)[i],
            rows_in(i, types.len() as int, self.meta.num_rows, self.directory(b)->Ok_0.counts),
        )
    }

    /// What is wrong with the first `n` physical columns that are asked for.
    pub open spec fn columns_error(self, b: int, n: nat) -> Option<Error>
        decreases n,
    {
        if n == 0 {
            None
        } else {
            first_error(
                self.columns_error(b, (n - 1) as nat),
                if self.wants(b, n - 1) {
                    match self.column(b, n - 1) {
                        Err(e) => Some(e),
                        Ok(_) => None,
                    }
                } else {
                    None
                },
            )
        }
    }

    pub open spec fn paged_state(self, b: int) -> BucketStateView {
        BucketStateView::Paged {
            slots: Seq::new(
                physical_types(self.types[b]).len(),
                |i: int|
                    if self.wants(b, i) {
                        Some(self.column(b, i)->Ok_0)
                    } else {
                        None
                    },
            ),
        }
    }

    /// What is wrong with what is read of a bucket first.
    pub open spec fn first_round_error(self, b: int) -> Option<Error> {
        match self.layout(b) {
            BucketLayout::Empty => None,
            BucketLayout::Monolithic { .. } => match self.monolithic_state(b) {
                Err(e) => Some(e),
                Ok(_) => None,
            },
            BucketLayout::Paged { .. } => match self.directory(b) {
                Err(e) => Some(e),
                Ok(_) => if self.complete(b) {
                    self.columns_error(b, physical_types(self.types[b]).len())
                } else {
                    None
                },
            },
        }
    }

    /// What is wrong with the slots of a bucket that only a part is read of.
    pub open spec fn second_round_error(self, b: int) -> Option<Error> {
        if self.layout(b) is Paged && !self.complete(b) {
            self.columns_error(b, physical_types(self.types[b]).len())
        } else {
            None
        }
    }

    pub open spec fn state(self, b: int) -> Option<BucketStateView> {
        match self.layout(b) {
            BucketLayout::Empty => None,
            BucketLayout::Monolithic { .. } => Some(self.monolithic_state(b)->Ok_0),
            BucketLayout::Paged { .. } => Some(self.paged_state(b)),
        }
    }

    pub open spec fn plan_errors(self, n: nat) -> Option<Error>
        decreases n,
    {
        if n == 0 {
            None
        } else {
            first_error(self.plan_errors((n - 1) as nat), self.plan_error(n - 1))
        }
    }

    pub open spec fn first_round_errors(self, n: nat) -> Option<Error>
        decreases n,
    {
        if n == 0 {
            None
        } else {
            first_error(self.first_round_errors((n - 1) as nat), self.first_round_error(n - 1))
        }
    }

    pub open spec fn second_round_errors(self, n: nat) -> Option<Error>
        decreases n,
    {
        if n == 0 {
            None
        } else {
            first_error(self.second_round_errors((n - 1) as nat), self.second_round_error(n - 1))
        }
    }

    /// What keeps the row group from being read, reads that fail aside.
    pub open spec fn error(self) -> Option<Error> {
        let n = self.members.len();
        first_error(self.plan_errors(n), first_error(self.first_round_errors(n), self.second_round_errors(n)))
    }

    pub open spec fn states(self) -> Seq<Option<BucketStateView>> {
        Seq::new(self.members.len(), |b: int| self.state(b))
    }

    /// The parts fit together.
    pub open spec fn wf(self) -> bool {
        &&& self.types.len() == self.members.len()
        &&& self.meta.wf(self.members.len() as int, u64::MAX as int)
        &&& forall|b: int|
            0 <= b < self.members.len() ==> (#[trigger] self.members[b]).len() == self.types[b].len() && bucket_fits(self.types[b])
        &&& forall|b: int, k: int|
            0 <= b < self.members.len() && 0 <= k < self.members[b].len() ==> (#[trigger] self.members[b][k]) < self.projected.len()
    }
}

proof fn lemma_plan_errors(req: GroupRequest, n: nat, m: nat)
    requires
        n <= m,
        req.plan_errors(n) is Some,
    ensures
        req.plan_errors(m) == req.plan_errors(n),
    decreases m,
{
    if n < m {
        lemma_plan_errors(req, n, (m - 1) as nat);
    }
}

proof fn lemma_no_plan_error(req: GroupRequest, n: nat, b: int)
    requires
        req.plan_errors(n) is None,
        0 <= b < n,
    ensures
        req.plan_error(b) is None,
    decreases n,
{
    if b < n - 1 {
        lemma_no_plan_error(req, (n - 1) as nat, b);
    }
}

proof fn lemma_first_round_errors(req: GroupRequest, n: nat, m: nat)
    requires
        n <= m,
        req.first_round_errors(n) is Some,
    ensures
        req.first_round_errors(m) == req.first_round_errors(n),
    decreases m,
{
    if n < m {
        lemma_first_round_errors(req, n, (m - 1) as nat);
    }
}

proof fn lemma_second_round_errors(req: GroupRequest, n: nat, m: nat)
    requires
        n <= m,
        req.second_round_errors(n) is Some,
    ensures
        req.second_round_errors(m) == req.second_round_errors(n),
    decreases m,
{
    if n < m {
        lemma_second_round_errors(req, n, (m - 1) as nat);
    }
}

proof fn lemma_columns_error(req: GroupRequest, b: int, n: nat, m: nat)
    requires
        n <= m,
        req.columns_error(b, n) is Some,
    ensures
        req.columns_error(b, m) == req.columns_error(b, n),
    decreases m,
{
    if n < m {
        lemma_columns_error(req, b, n, (m - 1) as nat);
    }
}

// ---------------------------------------------------------------- requests

/// The request for some columns of a row group.
pub open spec fn request_of(schema: MosaicSchema, meta: RowGroupView, compression: u8, contents: Seq<u8>, projected: Seq<bool>) -> GroupRequest {
    GroupRequest {
        types: Seq::new(schema.bucket_to_global@.len(), |b: int| schema.bucket_types(b)),
        members: Seq::new(schema.bucket_to_global@.len(), |b: int| schema.bucket_to_global@[b]@),
        meta,
        compression,
        contents,
        projected,
    }
}

pub proof fn lemma_request_wf(schema: MosaicSchema, meta: RowGroupView, compression: u8, contents: Seq<u8>, projected: Seq<bool>)
    requires
        schema.wf(),
        meta.wf(schema.num_buckets as int, u64::MAX as int),
        projected.len() == schema.columns@.len(),
    ensures
        request_of(schema, meta, compression, contents, projected).wf(),
{
    let req = request_of(schema, meta, compression, contents, projected);
    assert forall|b: int| 0 <= b < req.members.len() implies (#[trigger] req.members[b]).len() == req.types[b].len() && bucket_fits(
        req.types[b],
    ) by {
        assert(schema.bucket_ok(b));
    }
    assert forall|b: int, k: int| 0 <= b < req.members.len() && 0 <= k < req.members[b].len() implies (#[trigger] req.members[b][k])
        < req.projected.len() by {
        assert(schema.bucket_ok(b));
    }
}

/// The first column that there is none of.
pub open spec fn projection_error(columns: Seq<usize>, num_columns: int, n: nat) -> Option<Error>
    decreases n,
{
    if n == 0 {
        None
    } else {
        first_error(
            projection_error(columns, num_columns, (n - 1) as nat),
            if columns[n - 1] >= num_columns {
                Some(Error::ProjectedColumnOutOfRange { column: columns[n - 1], num_columns: num_columns as usize })
            } else {
                None
            },
        )
    }
}

/// Which columns are asked for.
pub open spec fn projection_of(columns: Seq<usize>, num_columns: nat) -> Seq<bool> {
    Seq::new(num_columns, |g: int| columns.contains(g as usize))
}

proof fn lemma_projection_error(columns: Seq<usize>, num_columns: int, n: nat, m: nat)
    requires
        n <= m,
        projection_error(columns, num_columns, n) is Some,
    ensures
        projection_error(columns, num_columns, m) == projection_error(columns, num_columns, n),
    decreases m,
{
    if n < m {
        lemma_projection_error(columns, num_columns, n, (m - 1) as nat);
    }
}

pub proof fn lemma_projection_inside(columns: Seq<usize>, num_columns: int, n: nat, k: int)
    requires
        projection_error(columns, num_columns, n) is None,
        0 <= k < n,
    ensures
        columns[k] < num_columns,
    decreases n,
{
    if k < n - 1 {
        lemma_projection_inside(columns, num_columns, (n - 1) as nat, k);
    }
}

/// Marks the columns that are asked for.
pub fn mark_projected(columns: &[usize], num_columns: usize) -> (result: Result<Vec<bool>, Error>)
    ensures
        result matches Ok(projected) ==> projection_error(columns@, num_columns as int, columns@.len()) is None && projected@
            == projection_of(columns@, num_columns as nat),
        result matches Err(e) ==> projection_error(columns@, num_columns as int, columns@.len()) == Some(e),
{
    let mut projected: Vec<bool> = vec![false; num_columns];
    let mut k: usize = 0;
    while k < columns.len()
        invariant
            k <= columns@.len(),
            projected@.len() == num_columns,
            projection_error(columns@, num_columns as int, k as nat) is None,
            forall|g: int| 0 <= g < num_columns ==> #[trigger] projected@[g] == columns@.take(k as int).contains(g as usize),
        decreases columns@.len() - k,
    {
        let column: usize = columns[k];
        if column >= num_columns {
            proof {
                lemma_projection_error(columns@, num_columns as int, (k + 1) as nat, columns@.len());
            }
            return Err(Error::ProjectedColumnOutOfRange { column, num_columns });
        }
        let ghost before = projected@;
        projected.set(column, true);
        proof {
            let old_part = columns@.take(k as int);
            let part = columns@.take(k + 1);
            assert forall|g: int| 0 <= g < num_columns implies #[trigger] projected@[g] == part.contains(g as usize) by {
                if g == column {
                    assert(part[k as int] == g as usize);
                } else if before[g] {
                    let j = choose|j: int| 0 <= j < old_part.len() && old_part[j] == g as usize;
                    assert(part[j] == g as usize);
                } else if part.contains(g as usize) {
                    let j = choose|j: int| 0 <= j < part.len() && part[j] == g as usize;
                    assert(old_part[j] == g as usize);
                }
            }
        }
        k += 1;
    }
    assert(columns@.take(k as int) =~= columns@);
    assert(projected@ =~= projection_of(columns@, num_columns as nat));
    Ok(projected)
}

// ---------------------------------------------------------------- what is read

impl GroupRequest {
    /// What is read of the first `n` buckets first.
    pub open spec fn first_ranges(self, n: nat) -> Seq<(u64, usize)>
        decreases n,
    {
        if n == 0 {
            Seq::empty()
        } else if self.layout(n - 1) is Empty {
            self.first_ranges((n - 1) as nat)
        } else {
            self.first_ranges((n - 1) as nat).push(self.first_range(n - 1))
        }
    }

    /// Physical column `i` has a slot that is read on its own.
    pub open spec fn reads_slot(self, b: int, i: int) -> bool {
        self.wants(b, i) && self.directory(b)->Ok_0.sizes[i] > 0
    }

    /// The slots that are read of the first `n` physical columns of a bucket.
    pub open spec fn bucket_slots(self, b: int, n: nat) -> Seq<(u64, usize)>
        decreases n,
    {
        if n == 0 {
            Seq::empty()
        } else if self.reads_slot(b, n - 1) {
            self.bucket_slots(b, (n - 1) as nat).push(self.slot_range(b, n - 1))
        } else {
            self.bucket_slots(b, (n - 1) as nat)
        }
    }

    pub open spec fn partial(self, b: int) -> bool {
        self.layout(b) is Paged && !self.complete(b)
    }

    /// The slots that are read of the first `n` buckets.
    pub open spec fn second_slots(self, n: nat) -> Seq<(u64, usize)>
        decreases n,
    {
        if n == 0 {
            Seq::empty()
        } else if self.partial(n - 1) {
            self.second_slots((n - 1) as nat) + self.bucket_slots(n - 1, physical_types(self.types[n - 1]).len())
        } else {
            self.second_slots((n - 1) as nat)
        }
    }
}

proof fn lemma_first_ranges(req: GroupRequest, b: int, n: nat)
    requires
        0 <= b < n,
        !(req.layout(b) is Empty),
    ensures
        req.first_ranges(b as nat).len() < req.first_ranges(n).len(),
        req.first_ranges(n)[req.first_ranges(b as nat).len() as int] == req.first_range(b),
    decreases n,
{
    if b < n - 1 {
        lemma_first_ranges(req, b, (n - 1) as nat);
    }
}

proof fn lemma_bucket_slots(req: GroupRequest, b: int, i: int, n: nat)
    requires
        0 <= i < n,
        req.reads_slot(b, i),
    ensures
        req.bucket_slots(b, i as nat).len() < req.bucket_slots(b, n).len(),
        req.bucket_slots(b, n)[req.bucket_slots(b, i as nat).len() as int] == req.slot_range(b, i),
    decreases n,
{
    if i < n - 1 {
        lemma_bucket_slots(req, b, i, (n - 1) as nat);
    }
}

proof fn lemma_second_slots(req: GroupRequest, b: int, n: nat, k: int)
    requires
        0 <= b < n,
        req.partial(b),
        0 <= k < req.bucket_slots(b, physical_types(req.types[b]).len()).len(),
    ensures
        req.second_slots(b as nat).len() + k < req.second_slots(n).len(),
        req.second_slots(n)[req.second_slots(b as nat).len() + k] == req.bucket_slots(b, physical_types(req.types[b]).len())[k],
    decreases n,
{
    if b < n - 1 {
        lemma_second_slots(req, b, (n - 1) as nat, k);
    }
}

proof fn lemma_sum_part(values: Seq<nat>, i: int, j: int)
    requires
        0 <= i <= j <= values.len(),
    ensures
        sum(values.take(i)) <= sum(values.take(j)),
        i < values.len() ==> sum(values.take(i + 1)) == sum(values.take(i)) + values[i],
        sum(values.take(values.len() as int)) == sum(values),
    decreases j - i,
{
    assert(values.take(values.len() as int) =~= values);
    if i < values.len() {
        assert(values.take(i + 1).drop_last() =~= values.take(i));
    }
    if i < j {
        lemma_sum_part(values, i + 1, j);
        assert(values.take(i + 1).drop_last() =~= values.take(i));
    }
}

/// The slots of a bucket lie inside it.
proof fn lemma_slot_inside(req: GroupRequest, b: int, i: int)
    requires
        req.wf(),
        0 <= b < req.members.len(),
        req.layout(b) is Paged,
        req.directory(b) is Ok,
        0 <= i < physical_types(req.types[b]).len(),
    ensures
        ({
            let dir = req.directory(b)->Ok_0;
            &&& dir.sizes.len() == physical_types(req.types[b]).len()
            &&& 0 <= dir.dir_size <= req.slot_start(b, i)
            &&& req.slot_start(b, i) + dir.sizes[i] <= req.total_size(b)
            &&& req.meta.bucket_offsets[b] + req.total_size(b) <= u64::MAX
            &&& req.slot_start(b, i) + dir.sizes[i] == dir.dir_size + sum(dir.sizes.take(i + 1))
        }),
{
    let dir = req.directory(b)->Ok_0;
    let n = dir.sizes.len() as int;
    lemma_sum_part(dir.sizes, i, n);
    lemma_sum_part(dir.sizes, i + 1, n);
    lemma_sum_part(dir.sizes, 0, n);
    assert(req.meta.bucket_layouts[b].valid());
    assert(req.layout(b) == req.meta.bucket_layouts[b]);
}

impl GroupRequest {
    /// The buckets lie inside the file.
    pub open spec fn is_inside(self) -> bool {
        forall|b: int|
            0 <= b < self.members.len() ==> self.meta.bucket_offsets[b] + crate::row_index::bucket_size(
                #[trigger] self.meta.bucket_layouts[b],
            ) <= self.contents.len()
    }
}

/// What is read first lies inside the file.
proof fn lemma_first_inside(req: GroupRequest, n: nat)
    requires
        req.wf(),
        req.is_inside(),
        n <= req.members.len(),
        req.plan_errors(n) is None,
    ensures
        ranges_below(req.first_ranges(n), req.contents.len() as int),
    decreases n,
{
    if n > 0 {
        lemma_first_inside(req, (n - 1) as nat);
        let b = n - 1;
        if !(req.layout(b) is Empty) {
            assert(req.layout(b) == req.meta.bucket_layouts[b]);
            assert(req.plan_error(b) is None);
            assert(range_end(req.first_range(b)) <= req.contents.len());
        }
    }
}

/// The slots of a bucket lie inside the file.
proof fn lemma_bucket_slots_inside(req: GroupRequest, b: int, n: nat)
    requires
        req.wf(),
        req.is_inside(),
        0 <= b < req.members.len(),
        req.layout(b) is Paged,
        req.directory(b) is Ok,
        n <= physical_types(req.types[b]).len(),
    ensures
        ranges_below(req.bucket_slots(b, n), req.contents.len() as int),
    decreases n,
{
    if n > 0 {
        lemma_bucket_slots_inside(req, b, (n - 1) as nat);
        if req.reads_slot(b, n - 1) {
            lemma_slot_inside(req, b, n - 1);
            assert(req.layout(b) == req.meta.bucket_layouts[b]);
            assert(range_end(req.slot_range(b, n - 1)) <= req.contents.len());
        }
    }
}

/// What is read afterwards lies inside the file.
proof fn lemma_second_inside(req: GroupRequest, n: nat)
    requires
        req.wf(),
        req.is_inside(),
        n <= req.members.len(),
        req.first_round_errors(n) is None,
    ensures
        ranges_below(req.second_slots(n), req.contents.len() as int),
    decreases n,
{
    if n > 0 {
        lemma_second_inside(req, (n - 1) as nat);
        if req.partial(n - 1) {
            assert(req.first_round_error(n - 1) is None);
            lemma_bucket_slots_inside(req, n - 1, physical_types(req.types[n - 1]).len());
        }
    }
}

/// The request that the parts of a row group make up.
spec fn is_request(req: GroupRequest, schema: MosaicSchema, meta: RowGroupMeta, compression: u8, projected: Seq<bool>) -> bool {
    &&& req == request_of(schema, meta@, compression, req.contents, projected)
    &&& schema.wf()
    &&& req.wf()
    &&& projected.len() == schema.columns@.len()
}

/// Whether any and whether all columns of a bucket are asked for.
pub(crate) fn bucket_need(schema: &MosaicSchema, b: usize, projected: &Vec<bool>, Ghost(req): Ghost<GroupRequest>) -> (need: (bool, bool))
    requires
        b < schema.num_buckets,
        schema.wf(),
        req.projected == projected@,
        projected@.len() == schema.columns@.len(),
        req.members[b as int] == schema.bucket_to_global@[b as int]@,
    ensures
        need.0 == req.needed(b as int),
        need.1 == req.complete(b as int),
{
    let mut any: bool = false;
    let mut all: bool = true;
    let mut k: usize = 0;
    assert(schema.bucket_ok(b as int));
    let ghost members = schema.bucket_to_global@[b as int]@;
    while k < schema.bucket_to_global[b].len()
        invariant
            b < schema.bucket_to_global@.len(),
            members == schema.bucket_to_global@[b as int]@,
            members == req.members[b as int],
            req.projected == projected@,
            k <= members.len(),
            forall|j: int| 0 <= j < members.len() ==> (#[trigger] members[j]) < projected@.len(),
            any == exists|j: int| 0 <= j < k && projected@[#[trigger] members[j] as int],
            all == forall|j: int| 0 <= j < k ==> projected@[#[trigger] members[j] as int],
        decreases members.len() - k,
    {
        assert(members[k as int] < projected@.len());
        if projected[schema.bucket_to_global[b][k]] {
            any = true;
            assert(projected@[members[k as int] as int]);
        } else {
            all = false;
            assert(!projected@[members[k as int] as int]);
        }
        k += 1;
    }
    (any, any && all)
}

/// The size of the directory of a bucket.
pub(crate) fn directory_size(schema: &MosaicSchema, b: usize) -> (size: usize)
    requires
        b < schema.num_buckets,
        schema.wf(),
    ensures
        size == dir_size_of(schema.bucket_types(b as int)),
{
    assert(schema.bucket_ok(b as int));
    let refs: Vec<&DataType> = schema.bucket_type_refs(b);
    let (physical, children) = expand_col_types(refs.as_slice());
    proof {
        lemma_all_metas_len(schema.bucket_types(b as int), schema.bucket_types(b as int).len());
        assert(schema.bucket_types(b as int).take(schema.bucket_types(b as int).len() as int) =~= schema.bucket_types(b as int));
    }
    let head: usize = if children.len() == 0 {
        0
    } else {
        2 + 4 * children.len()
    };
    head + 4 * physical.len()
}

/// Plans what is read first.
fn plan_first_round(
    schema: &MosaicSchema,
    meta: &RowGroupMeta,
    compression: u8,
    projected: &Vec<bool>,
    Ghost(req): Ghost<GroupRequest>,
) -> (result: Result<Vec<(u64, usize)>, Error>)
    requires
        is_request(req, *schema, *meta, compression, projected@),
    ensures
        result matches Ok(ranges) ==> req.plan_errors(req.members.len()) is None && ranges@ == req.first_ranges(req.members.len())
            && ranges_ok(ranges@),
        result matches Err(e) ==> req.plan_errors(req.members.len()) == Some(e),
{
    let mut ranges: Vec<(u64, usize)> = Vec::new();
    let mut b: usize = 0;
    while b < schema.num_buckets
        invariant
            b <= schema.num_buckets,
            is_request(req, *schema, *meta, compression, projected@),
            req.plan_errors(b as nat) is None,
            ranges@ == req.first_ranges(b as nat),
            ranges_ok(ranges@),
        decreases schema.num_buckets - b,
    {
        let (any, all) = bucket_need(schema, b, projected, Ghost(req));
        assert(req.meta.bucket_layouts[b as int].valid());
        assert(req.types[b as int] == schema.bucket_types(b as int));
        let ghost before = ranges@;
        proof {
            if req.plan_errors((b + 1) as nat) is Some {
                lemma_plan_errors(req, (b + 1) as nat, req.members.len());
            }
        }
        let layout: BucketLayout = if any {
            meta.bucket_layouts[b]
        } else {
            BucketLayout::Empty
        };
        match layout {
            BucketLayout::Empty => {},
            BucketLayout::Monolithic { compressed_size, uncompressed_size } => {
                ranges.push((meta.bucket_offsets[b], compressed_size));
            },
            BucketLayout::Paged { total_size } => {
                if compression != COMPRESSION_ZSTD {
                    return Err(Error::PagedBucketNotZstd);
                }
                let dir_size: usize = directory_size(schema, b);
                if dir_size > total_size {
                    return Err(Error::DirectoryTooLarge { bucket: b, dir_size, total_size });
                }
                if all {
                    ranges.push((meta.bucket_offsets[b], total_size));
                } else {
                    ranges.push((meta.bucket_offsets[b], dir_size));
                }
            },
        }
        assert(ranges@ =~= req.first_ranges((b + 1) as nat));
        assert forall|i: int| 0 <= i < ranges@.len() implies range_end(#[trigger] ranges@[i]) <= u64::MAX by {
            if i < before.len() {
                assert(ranges@[i] == before[i]);
            }
        }
        b += 1;
    }
    Ok(ranges)
}

// ---------------------------------------------------------------- states

/// A bucket whose bytes are read.
pub enum BucketState {
    Monolithic { reader: BucketReader },
    Paged { column_readers: Vec<Option<ColumnPageReader>> },
}

pub open spec fn page_views(readers: Seq<Option<ColumnPageReader>>) -> Seq<Option<EncodedColumnView>> {
    Seq::new(
        readers.len(),
        |i: int|
            match readers[i] {
                Some(reader) => Some(reader@),
                None => None,
            },
    )
}

impl View for BucketState {
    type V = BucketStateView;

    open spec fn view(&self) -> BucketStateView {
        match self {
            BucketState::Monolithic { reader } => BucketStateView::Monolithic {
                columns: reader.columns(),
                lacks_data: reader.lacks_data(),
            },
            BucketState::Paged { column_readers } => BucketStateView::Paged { slots: page_views(column_readers@) },
        }
    }
}

/// The columns are those of a bucket with columns of the given types.
pub open spec fn slots_ok(readers: Seq<Option<ColumnPageReader>>, physical: Seq<DataType>) -> bool {
    forall|i: int|
        #![trigger readers[i]]
        0 <= i < readers.len() ==> (readers[i] matches Some(reader) ==> reader@.readable() && reader@.dt == physical[i])
}

impl BucketState {
    pub open spec fn wf(&self, types: Seq<DataType>) -> bool {
        match self {
            BucketState::Monolithic { reader } => reader.wf() && reader.types() == types,
            BucketState::Paged { column_readers } => column_readers@.len() == physical_types(types).len() && slots_ok(
                column_readers@,
                physical_types(types),
            ),
        }
    }
}

/// Reads the column of a slot; one without bytes has no values.
fn read_slot(slot: &[u8], dt: &DataType, rows: usize) -> (result: Result<ColumnPageReader, Error>)
    requires
        !crate::types::is_container_type(*dt),
    ensures
        reads_column(result, slot_or_empty(slot@.len(), slot@, *dt, rows as nat)),
        result matches Ok(reader) ==> reader@.dt == *dt,
{
    if slot.len() == 0 {
        let none: Vec<u8> = Vec::new();
        assert(none@ =~= Seq::empty());
        ColumnPageReader::new(dt.duplicate(), ENCODING_ALL_NULL, false, Value::Null, none, rows)
    } else {
        parse_column_slot(slot, dt, rows)
    }
}

/// The number of rows of a physical column.
fn column_rows(i: usize, num_primary: usize, num_rows: usize, counts: &Vec<usize>) -> (rows: usize)
    ensures
        rows == rows_in(i as int, num_primary as int, num_rows as nat, usize_nats(counts@)),
{
    if i < num_primary {
        num_rows
    } else if i - num_primary < counts.len() {
        counts[i - num_primary]
    } else {
        0
    }
}

/// The columns below lists and maps belong to columns of the bucket.
fn slot_wanted(
    i: usize,
    members: &Vec<usize>,
    children: &Vec<ChildColumnMeta>,
    projected: &Vec<bool>,
    Ghost(req): Ghost<GroupRequest>,
    Ghost(b): Ghost<int>,
) -> (wanted: bool)
    requires
        0 <= b < req.members.len(),
        req.wf(),
        req.projected == projected@,
        req.members[b] == members@,
        children@ == all_child_metas(req.types[b], req.types[b].len()),
        i < members@.len() + children@.len(),
    ensures
        wanted == req.wants(b, i as int),
{
    assert(req.members[b].len() == req.types[b].len());
    if i < members.len() {
        assert(req.members[b][i as int] < req.projected.len());
        projected[members[i]]
    } else {
        let parent: usize = children[i - members.len()].parent_logical_col;
        if parent < members.len() {
            assert(req.members[b][parent as int] < req.projected.len());
            projected[members[parent]]
        } else {
            false
        }
    }
}

/// What is known of a bucket while its slots are read.
spec fn slots_read(req: GroupRequest, b: int, readers: Seq<Option<ColumnPageReader>>, n: nat) -> bool {
    &&& readers.len() == n
    &&& req.columns_error(b, n) is None
    &&& slots_ok(readers, physical_types(req.types[b]))
    &&& forall|i: int|
        #![trigger readers[i]]
        0 <= i < n ==> (match readers[i] {
            Some(reader) => req.wants(b, i) && req.column(b, i) == Ok::<EncodedColumnView, Error>(reader@),
            None => !req.wants(b, i),
        })
}

proof fn lemma_slots_read(req: GroupRequest, b: int, readers: Seq<Option<ColumnPageReader>>)
    requires
        slots_read(req, b, readers, physical_types(req.types[b]).len()),
    ensures
        (BucketStateView::Paged { slots: page_views(readers) }) == req.paged_state(b),
{
    let n = physical_types(req.types[b]).len();
    let slots = req.paged_state(b)->slots;
    assert(page_views(readers) =~= slots) by {
        assert forall|i: int| 0 <= i < n implies #[trigger] page_views(readers)[i] == slots[i] by {
            let reader = readers[i];
        }
    }
}

/// The parts of bucket `b`.
spec fn bucket_parts(
    req: GroupRequest,
    b: int,
    physical: Seq<DataType>,
    children: Seq<ChildColumnMeta>,
    members: Seq<usize>,
    projected: Seq<bool>,
    num_rows: nat,
) -> bool {
    &&& 0 <= b < req.members.len()
    &&& req.wf()
    &&& req.projected == projected
    &&& req.members[b] == members
    &&& physical == physical_types(req.types[b])
    &&& children == all_child_metas(req.types[b], req.types[b].len())
    &&& members.len() + children.len() == physical.len()
    &&& num_rows == req.meta.num_rows
}

/// What is read of physical column `i`.
spec fn slot_read(req: GroupRequest, b: int, i: int, reader: Option<ColumnPageReader>) -> bool {
    match reader {
        Some(reader) => req.wants(b, i) && req.column(b, i) == Ok::<EncodedColumnView, Error>(reader@) && reader@.readable()
            && reader@.dt == physical_types(req.types[b])[i],
        None => !req.wants(b, i),
    }
}

proof fn lemma_slot_pushed(req: GroupRequest, b: int, readers: Seq<Option<ColumnPageReader>>, n: nat, reader: Option<ColumnPageReader>)
    requires
        slots_read(req, b, readers, n),
        slot_read(req, b, n as int, reader),
    ensures
        slots_read(req, b, readers.push(reader), n + 1),
{
    let after = readers.push(reader);
    assert forall|i: int|
        #![trigger after[i]]
        0 <= i < n + 1 implies (match after[i] {
        Some(reader) => req.wants(b, i) && req.column(b, i) == Ok::<EncodedColumnView, Error>(reader@),
        None => !req.wants(b, i),
    }) by {
        if i < n {
            assert(after[i] == readers[i]);
        }
    }
    assert forall|i: int|
        #![trigger after[i]]
        0 <= i < after.len() implies (after[i] matches Some(reader) ==> reader@.readable() && reader@.dt == physical_types(
        req.types[b],
    )[i]) by {
        if i < n {
            assert(after[i] == readers[i]);
        }
    }
}

proof fn lemma_slot_error(req: GroupRequest, b: int, n: nat, total: nat, e: Error)
    requires
        n < total,
        req.columns_error(b, n) is None,
        req.wants(b, n as int),
        req.column(b, n as int) == Err::<EncodedColumnView, Error>(e),
    ensures
        req.columns_error(b, total) == Some(e),
{
    lemma_columns_error(req, b, n + 1, total);
}

/// Reads physical column `i` of a bucket out of its slot, if it is asked for.
fn read_wanted_slot(
    i: usize,
    slot: &[u8],
    physical: &Vec<DataType>,
    members: &Vec<usize>,
    children: &Vec<ChildColumnMeta>,
    projected: &Vec<bool>,
    num_rows: usize,
    counts: &Vec<usize>,
    Ghost(req): Ghost<GroupRequest>,
    Ghost(b): Ghost<int>,
) -> (result: Result<Option<ColumnPageReader>, Error>)
    requires
        bucket_parts(req, b, physical@, children@, members@, projected@, num_rows as nat),
        i < physical@.len(),
        usize_nats(counts@) == req.directory(b)->Ok_0.counts,
        slot@.len() == req.directory(b)->Ok_0.sizes[i as int],
        slot@.len() > 0 ==> slot@ == req.slot_bytes(b, i as int),
    ensures
        result matches Ok(reader) ==> slot_read(req, b, i as int, reader),
        result matches Err(e) ==> req.wants(b, i as int) && req.column(b, i as int) == Err::<EncodedColumnView, Error>(e),
{
    if !slot_wanted(i, members, children, projected, Ghost(req), Ghost(b)) {
        return Ok(None);
    }
    assert(req.members[b].len() == req.types[b].len());
    proof {
        lemma_physical_leaves(req.types[b]);
        assert(!crate::types::is_container_type(physical_types(req.types[b])[i as int]));
    }
    let rows: usize = column_rows(i, members.len(), num_rows, counts);
    match read_slot(slot, &physical[i], rows) {
        Ok(reader) => Ok(Some(reader)),
        Err(e) => Err(e),
    }
}

/// The slots of a bucket that was read as a whole.
proof fn lemma_complete_slot(req: GroupRequest, b: int, i: int, buf: Seq<u8>)
    requires
        req.wf(),
        0 <= b < req.members.len(),
        req.layout(b) is Paged,
        req.complete(b),
        buf == req.first_bytes(b),
        range_inside(req.contents, req.first_range(b)),
        req.directory(b) is Ok,
        0 <= i < physical_types(req.types[b]).len(),
    ensures
        ({
            let start = req.slot_start(b, i);
            let end = start + req.directory(b)->Ok_0.sizes[i];
            &&& req.directory(b)->Ok_0.sizes.len() == physical_types(req.types[b]).len()
            &&& 0 <= start <= end <= buf.len()
            &&& buf.subrange(start, end) == req.slot_bytes(b, i)
            &&& i + 1 < physical_types(req.types[b]).len() ==> end == req.slot_start(b, i + 1)
        }),
{
    lemma_slot_inside(req, b, i);
    let start = req.slot_start(b, i);
    let end = start + req.directory(b)->Ok_0.sizes[i];
    assert(buf.subrange(start, end) =~= req.slot_bytes(b, i));
}

/// The directory tells the slots from its end on.
proof fn lemma_first_slot(req: GroupRequest, b: int)
    ensures
        req.slot_start(b, 0) == req.directory(b)->Ok_0.dir_size,
{
    assert(req.directory(b)->Ok_0.sizes.take(0) =~= Seq::<nat>::empty());
}

/// Reads the slots of a bucket that was read as a whole.
fn read_complete_bucket(
    physical: &Vec<DataType>,
    children: &Vec<ChildColumnMeta>,
    members: &Vec<usize>,
    projected: &Vec<bool>,
    num_rows: usize,
    buf: &[u8],
    dir: &Directory,
    Ghost(req): Ghost<GroupRequest>,
    Ghost(b): Ghost<int>,
) -> (result: Result<Vec<Option<ColumnPageReader>>, Error>)
    requires
        bucket_parts(req, b, physical@, children@, members@, projected@, num_rows as nat),
        req.layout(b) is Paged,
        req.complete(b),
        buf@ == req.first_bytes(b),
        range_inside(req.contents, req.first_range(b)),
        req.directory(b) == Ok::<DirectoryView, Error>(dir@),
    ensures
        result matches Ok(readers) ==> slots_read(req, b, readers@, physical_types(req.types[b]).len()),
        result matches Err(e) ==> req.columns_error(b, physical_types(req.types[b]).len()) == Some(e),
{
    let total: usize = physical.len();
    let ghost sizes = dir@.sizes;
    let mut readers: Vec<Option<ColumnPageReader>> = Vec::new();
    let mut at: usize = dir.dir_size;
    let mut i: usize = 0;
    proof {
        lemma_first_slot(req, b);
    }
    while i < total
        invariant
            i <= total,
            total == physical@.len(),
            bucket_parts(req, b, physical@, children@, members@, projected@, num_rows as nat),
            req.layout(b) is Paged,
            req.complete(b),
            buf@ == req.first_bytes(b),
            range_inside(req.contents, req.first_range(b)),
            req.directory(b) == Ok::<DirectoryView, Error>(dir@),
            slots_read(req, b, readers@, i as nat),
            i < total ==> at == req.slot_start(b, i as int),
        decreases total - i,
    {
        proof {
            lemma_complete_slot(req, b, i as int, buf@);
        }
        assert(dir.sizes@[i as int] == dir@.sizes[i as int]);
        let end: usize = at + dir.sizes[i];
        match read_wanted_slot(
            i,
            slice_subrange(buf, at, end),
            physical,
            members,
            children,
            projected,
            num_rows,
            &dir.counts,
            Ghost(req),
            Ghost(b),
        ) {
            Ok(reader) => {
                proof {
                    lemma_slot_pushed(req, b, readers@, i as nat, reader);
                }
                readers.push(reader);
            },
            Err(e) => {
                proof {
                    lemma_slot_error(req, b, i as nat, total as nat, e);
                }
                return Err(e);
            },
        }
        at = end;
        i += 1;
    }
    Ok(readers)
}

/// What is known after the first round of reads: the buckets that are read, and the directories of
/// those that only a part is read of.
struct FirstRound {
    states: Vec<Option<BucketState>>,
    directories: Vec<Option<Directory>>,
}

/// The first `n` buckets are as the first round leaves them.
#[verifier::opaque]
spec fn first_round_done(req: GroupRequest, states: Seq<Option<BucketState>>, directories: Seq<Option<Directory>>, n: nat) -> bool {
    &&& states.len() == n
    &&& directories.len() == n
    &&& req.first_round_errors(n) is None
    &&& forall|b: int|
        #![trigger states[b]]
        #![trigger directories[b]]
        0 <= b < n ==> bucket_done(req, b, states[b], directories[b])
}

/// What the first round makes of bucket `b`.
spec fn bucket_done(req: GroupRequest, b: int, state: Option<BucketState>, directory: Option<Directory>) -> bool {
    if req.partial(b) {
        directory matches Some(dir) && req.directory(b) == Ok::<DirectoryView, Error>(dir@)
    } else {
        directory is None && state_done(req, b, state)
    }
}

/// Bucket `b` is read.
spec fn state_done(req: GroupRequest, b: int, state: Option<BucketState>) -> bool {
    match state {
        Some(state) => state.wf(req.types[b]) && req.state(b) == Some(state@),
        None => req.state(b) is None,
    }
}

/// Bucket `b` came through the first round.
#[verifier::opaque]
spec fn step_done(req: GroupRequest, b: int, state: Option<BucketState>, directory: Option<Directory>) -> bool {
    req.first_round_error(b) is None && bucket_done(req, b, state, directory)
}

#[verifier::opaque]
spec fn step_failed(req: GroupRequest, b: int, e: Error) -> bool {
    req.first_round_error(b) == Some(e)
}

proof fn lemma_bucket_pushed(
    req: GroupRequest,
    states: Seq<Option<BucketState>>,
    directories: Seq<Option<Directory>>,
    n: nat,
    state: Option<BucketState>,
    directory: Option<Directory>,
)
    requires
        first_round_done(req, states, directories, n),
        step_done(req, n as int, state, directory),
    ensures
        first_round_done(req, states.push(state), directories.push(directory), n + 1),
{
    reveal(first_round_done);
    reveal(step_done);
    let s = states.push(state);
    let d = directories.push(directory);
    assert forall|b: int|
        #![trigger s[b]]
        #![trigger d[b]]
        0 <= b < n + 1 implies bucket_done(req, b, s[b], d[b]) by {
        if b < n {
            assert(s[b] == states[b] && d[b] == directories[b]);
        }
    }
}

proof fn lemma_bucket_error(
    req: GroupRequest,
    states: Seq<Option<BucketState>>,
    directories: Seq<Option<Directory>>,
    n: nat,
    total: nat,
    e: Error,
)
    requires
        n < total,
        first_round_done(req, states, directories, n),
        step_failed(req, n as int, e),
    ensures
        req.first_round_errors(total) == Some(e),
{
    reveal(first_round_done);
    reveal(step_failed);
    lemma_first_round_errors(req, n + 1, total);
}

/// The bytes of a bucket in one piece.
pub(crate) fn monolithic_bytes(compression: u8, buf: &[u8], uncompressed_size: usize) -> (result: Result<Vec<u8>, Error>)
    ensures
        crate::compression::bytes_view(result) == (if compression == COMPRESSION_NONE {
            Ok(buf@)
        } else if compression == COMPRESSION_ZSTD {
            decompressed(buf@, uncompressed_size as nat)
        } else {
            Err(Error::UnsupportedBucketCompression)
        }),
{
    if compression == COMPRESSION_NONE {
        Ok(vstd::slice::slice_to_vec(buf))
    } else if compression == COMPRESSION_ZSTD {
        decompress_zstd(buf, uncompressed_size)
    } else {
        Err(Error::UnsupportedBucketCompression)
    }
}

/// Reads what was read of one bucket first.
fn read_first(
    schema: &MosaicSchema,
    meta: &RowGroupMeta,
    compression: u8,
    projected: &Vec<bool>,
    b: usize,
    layout: BucketLayout,
    all: bool,
    buf: &[u8],
    Ghost(req): Ghost<GroupRequest>,
) -> (result: Result<(Option<BucketState>, Option<Directory>), Error>)
    requires
        is_request(req, *schema, *meta, compression, projected@),
        b < schema.num_buckets,
        layout == req.layout(b as int),
        all == req.complete(b as int),
        !(layout is Empty),
        req.plan_error(b as int) is None,
        buf@ == req.first_bytes(b as int),
        range_inside(req.contents, req.first_range(b as int)),
    ensures
        result matches Ok((state, directory)) ==> req.first_round_error(b as int) is None && bucket_done(
            req,
            b as int,
            state,
            directory,
        ),
        result matches Err(e) ==> req.first_round_error(b as int) == Some(e),
{
    let ghost bucket = b as int;
    assert(schema.bucket_ok(bucket));
    assert(req.types[bucket] == schema.bucket_types(bucket));
    assert(req.members[bucket] == schema.bucket_to_global@[bucket]@);
    match layout {
        BucketLayout::Empty => Ok((None, None)),
        BucketLayout::Monolithic { compressed_size, uncompressed_size } => {
            match monolithic_bytes(compression, buf, uncompressed_size) {
                Err(e) => Err(e),
                Ok(data) => {
                    let types: Vec<DataType> = schema.bucket_type_copies(b);
                    match BucketReader::new(types, data, meta.num_rows) {
                        Err(e) => Err(e),
                        Ok(reader) => Ok((Some(BucketState::Monolithic { reader }), None)),
                    }
                },
            }
        },
        BucketLayout::Paged { total_size } => {
            let refs: Vec<&DataType> = schema.bucket_type_refs(b);
            let (physical, children) = expand_col_types(refs.as_slice());
            let ghost types = req.types[bucket];
            proof {
                lemma_all_metas_len(types, types.len());
                assert(types.take(types.len() as int) =~= types);
            }
            assert(plain_types(refs@).len() == types.len());
            match Directory::decode_checked(buf, children.len() > 0, physical.len(), b, total_size) {
                Err(e) => Err(e),
                Ok(dir) => {
                    if !all {
                        return Ok((None, Some(dir)));
                    }
                    match read_complete_bucket(
                        &physical,
                        &children,
                        &schema.bucket_to_global[b],
                        projected,
                        meta.num_rows,
                        buf,
                        &dir,
                        Ghost(req),
                        Ghost(bucket),
                    ) {
                        Err(e) => Err(e),
                        Ok(column_readers) => {
                            proof {
                                lemma_slots_read(req, bucket, column_readers@);
                            }
                            Ok((Some(BucketState::Paged { column_readers }), None))
                        },
                    }
                },
            }
        },
    }
}

/// What was read first of a row group that is asked for.
#[verifier::opaque]
spec fn first_reads(
    req: GroupRequest,
    schema: MosaicSchema,
    meta: RowGroupMeta,
    compression: u8,
    projected: Seq<bool>,
    buffers: Seq<ReadRangeBuffer>,
) -> bool {
    &&& is_request(req, schema, meta, compression, projected)
    &&& req.plan_errors(req.members.len()) is None
    &&& ranges_read(req.contents, req.first_ranges(req.members.len()), buffer_views(buffers))
    &&& forall|i: int| 0 <= i < buffers.len() ==> (#[trigger] buffers[i]).wf()
}

/// What the first round makes of one bucket, and whether anything was read of it.
fn first_step(
    schema: &MosaicSchema,
    meta: &RowGroupMeta,
    compression: u8,
    projected: &Vec<bool>,
    b: usize,
    buffers: &Vec<ReadRangeBuffer>,
    next: usize,
    Ghost(req): Ghost<GroupRequest>,
) -> (result: Result<(Option<BucketState>, Option<Directory>, bool), Error>)
    requires
        first_reads(req, *schema, *meta, compression, projected@, buffers@),
        b < schema.num_buckets,
        next == req.first_ranges(b as nat).len(),
    ensures
        result matches Ok((state, directory, read)) ==> step_done(req, b as int, state, directory) && next + (if read {
            1int
        } else {
            0int
        }) == req.first_ranges((b + 1) as nat).len() && (read ==> next < buffers@.len()),
        result matches Err(e) ==> step_failed(req, b as int, e),
{
    reveal(step_done);
    reveal(step_failed);
    reveal(first_reads);
    let (any, all) = bucket_need(schema, b, projected, Ghost(req));
    let layout: BucketLayout = if any {
        meta.bucket_layouts[b]
    } else {
        BucketLayout::Empty
    };
    assert(layout == req.layout(b as int));
    let empty: bool = match layout {
        BucketLayout::Empty => true,
        _ => false,
    };
    if empty {
        return Ok((None, None, false));
    }
    let ghost ranges = req.first_ranges(req.members.len());
    proof {
        lemma_first_ranges(req, b as int, req.members.len());
        lemma_no_plan_error(req, req.members.len(), b as int);
        assert(ranges[next as int] == req.first_range(b as int));
        assert(buffer_views(buffers@)[next as int] == buffers@[next as int]@);
    }
    match read_first(schema, meta, compression, projected, b, layout, all, buffers[next].as_slice(), Ghost(req)) {
        Ok((state, directory)) => Ok((state, directory, true)),
        Err(e) => Err(e),
    }
}

/// Takes what was read first apart.
fn process_first_round(
    schema: &MosaicSchema,
    meta: &RowGroupMeta,
    compression: u8,
    projected: &Vec<bool>,
    buffers: &Vec<ReadRangeBuffer>,
    Ghost(req): Ghost<GroupRequest>,
) -> (result: Result<FirstRound, Error>)
    requires
        first_reads(req, *schema, *meta, compression, projected@, buffers@),
        schema.num_buckets == req.members.len(),
    ensures
        result matches Ok(round) ==> first_round_done(req, round.states@, round.directories@, req.members.len()),
        result matches Err(e) ==> req.first_round_errors(req.members.len()) == Some(e),
{
    let mut states: Vec<Option<BucketState>> = Vec::new();
    let mut directories: Vec<Option<Directory>> = Vec::new();
    let mut next: usize = 0;
    let mut b: usize = 0;
    let num_buckets: usize = schema.num_buckets;
    let count: usize = buffers.len();
    assert(first_round_done(req, states@, directories@, 0)) by {
        reveal(first_round_done);
    }
    while b < num_buckets
        invariant
            b <= num_buckets == schema.num_buckets,
            num_buckets == req.members.len(),
            first_reads(req, *schema, *meta, compression, projected@, buffers@),
            count == buffers@.len(),
            next == req.first_ranges(b as nat).len(),
            first_round_done(req, states@, directories@, b as nat),
        decreases num_buckets - b,
    {
        match first_step(schema, meta, compression, projected, b, buffers, next, Ghost(req)) {
            Ok((state, directory, read)) => {
                proof {
                    lemma_bucket_pushed(req, states@, directories@, b as nat, state, directory);
                }
                states.push(state);
                directories.push(directory);
                if read {
                    next += 1;
                }
            },
            Err(e) => {
                proof {
                    lemma_bucket_error(req, states@, directories@, b as nat, req.members.len(), e);
                }
                return Err(e);
            },
        }
        b += 1;
    }
    Ok(FirstRound { states, directories })
}

// ---------------------------------------------------------------- the second round

/// Joins ranges that stand directly behind each other. Gives the joined ranges, and for each range
/// the number of the joined one and where it starts in it.
fn join_adjacent(slots: &Vec<(u64, usize)>) -> (joined: (Vec<(u64, usize)>, Vec<(usize, usize)>))
    requires
        ranges_ok(slots@),
    ensures
        ranges_ok(joined.0@),
        forall|limit: int| ranges_below(slots@, limit) ==> #[trigger] ranges_below(joined.0@, limit),
        joined.1@.len() == slots@.len(),
        forall|k: int| 0 <= k < slots@.len() ==> #[trigger] lies_in(slots@[k], joined.1@[k], joined.0@),
        slots@.len() == 0 ==> joined.0@.len() == 0,
{
    let mut ranges: Vec<(u64, usize)> = Vec::new();
    let mut places: Vec<(usize, usize)> = Vec::new();
    let mut k: usize = 0;
    while k < slots.len()
        invariant
            k <= slots@.len(),
            ranges_ok(slots@),
            ranges_ok(ranges@),
            forall|limit: int| ranges_below(slots@, limit) ==> #[trigger] ranges_below(ranges@, limit),
            places@.len() == k,
            forall|j: int| 0 <= j < k ==> #[trigger] lies_in(slots@[j], places@[j], ranges@),
            k == 0 ==> ranges@.len() == 0,
        decreases slots@.len() - k,
    {
        let slot: (u64, usize) = slots[k];
        assert(range_end(slots@[k as int]) <= u64::MAX);
        let ghost before = ranges@;
        let mut fits: bool = false;
        if ranges.len() > 0 {
            let last: usize = ranges.len() - 1;
            let range: (u64, usize) = ranges[last];
            assert(range_end(ranges@[last as int]) <= u64::MAX);
            let end: u64 = range.0 + range.1 as u64;
            match range.1.checked_add(slot.1) {
                Some(len) => if slot.0 == end {
                    fits = true;
                    ranges.set(last, (range.0, len));
                    places.push((last, range.1));
                },
                None => {},
            }
        }
        if !fits {
            ranges.push(slot);
            places.push((ranges.len() - 1, 0));
        }
        proof {
            assert forall|i: int| 0 <= i < ranges@.len() implies range_end(#[trigger] ranges@[i]) <= u64::MAX by {
                if i < before.len() {
                    assert(range_end(before[i]) <= u64::MAX);
                }
            }
            assert forall|limit: int| ranges_below(slots@, limit) implies #[trigger] ranges_below(ranges@, limit) by {
                assert(ranges_below(before, limit));
                assert(range_end(slots@[k as int]) <= limit);
                assert forall|i: int| 0 <= i < ranges@.len() implies range_end(#[trigger] ranges@[i]) <= limit by {
                    if i < before.len() {
                        assert(range_end(before[i]) <= limit);
                    }
                }
            }
            assert forall|j: int| 0 <= j < k + 1 implies #[trigger] lies_in(slots@[j], places@[j], ranges@) by {
                if j < k {
                    assert(lies_in(slots@[j], places@[j], before));
                }
            }
        }
        k += 1;
    }
    (ranges, places)
}

/// A range is the part of a joined one that starts at the given place.
pub open spec fn lies_in(slot: (u64, usize), place: (usize, usize), ranges: Seq<(u64, usize)>) -> bool {
    &&& place.0 < ranges.len()
    &&& ranges[place.0 as int].0 + place.1 == slot.0
    &&& place.1 + slot.1 <= ranges[place.0 as int].1
}

/// Lists the slots that are read on their own of one bucket.
fn list_bucket_slots(
    slots: &mut Vec<(u64, usize)>,
    physical: &Vec<DataType>,
    children: &Vec<ChildColumnMeta>,
    members: &Vec<usize>,
    projected: &Vec<bool>,
    offset: u64,
    dir: &Directory,
    Ghost(req): Ghost<GroupRequest>,
    Ghost(b): Ghost<int>,
)
    requires
        bucket_parts(req, b, physical@, children@, members@, projected@, req.meta.num_rows),
        req.layout(b) is Paged,
        offset == req.meta.bucket_offsets[b],
        req.directory(b) == Ok::<DirectoryView, Error>(dir@),
        ranges_ok(old(slots)@),
    ensures
        final(slots)@ == old(slots)@ + req.bucket_slots(b, physical@.len()),
        ranges_ok(final(slots)@),
{
    let total: usize = physical.len();
    let mut at: u64 = 0;
    let mut i: usize = 0;
    proof {
        lemma_first_slot(req, b);
        if total > 0 {
            lemma_slot_inside(req, b, 0);
        }
    }
    if total > 0 {
        at = offset + dir.dir_size as u64;
    }
    assert(slots@ =~= old(slots)@ + req.bucket_slots(b, 0));
    while i < total
        invariant
            i <= total,
            total == physical@.len(),
            bucket_parts(req, b, physical@, children@, members@, projected@, req.meta.num_rows),
            req.layout(b) is Paged,
            offset == req.meta.bucket_offsets[b],
            req.directory(b) == Ok::<DirectoryView, Error>(dir@),
            slots@ == old(slots)@ + req.bucket_slots(b, i as nat),
            ranges_ok(slots@),
            i < total ==> at == offset + req.slot_start(b, i as int),
        decreases total - i,
    {
        let ghost before = slots@;
        proof {
            lemma_slot_inside(req, b, i as int);
        }
        assert(dir.sizes@[i as int] == dir@.sizes[i as int]);
        let size: usize = dir.sizes[i];
        assert(req.slot_range(b, i as int) == (at, size));
        let end: u64 = at + size as u64;
        if slot_wanted(i, members, children, projected, Ghost(req), Ghost(b)) && size > 0 {
            slots.push((at, size));
        }
        assert(slots@ =~= old(slots)@ + req.bucket_slots(b, (i + 1) as nat));
        assert forall|k: int| 0 <= k < slots@.len() implies range_end(#[trigger] slots@[k]) <= u64::MAX by {
            if k < before.len() {
                assert(slots@[k] == before[k]);
            }
        }
        at = end;
        i += 1;
    }
}

/// Reads the slots of a bucket that only a part is read of.
fn read_partial_bucket(
    physical: &Vec<DataType>,
    children: &Vec<ChildColumnMeta>,
    members: &Vec<usize>,
    projected: &Vec<bool>,
    num_rows: usize,
    dir: &Directory,
    first_slot: usize,
    places: &Vec<(usize, usize)>,
    buffers: &Vec<ReadRangeBuffer>,
    Ghost(slots): Ghost<Seq<(u64, usize)>>,
    Ghost(ranges): Ghost<Seq<(u64, usize)>>,
    Ghost(req): Ghost<GroupRequest>,
    Ghost(b): Ghost<int>,
) -> (result: Result<(Vec<Option<ColumnPageReader>>, usize), Error>)
    requires
        bucket_parts(req, b, physical@, children@, members@, projected@, num_rows as nat),
        req.layout(b) is Paged,
        req.directory(b) == Ok::<DirectoryView, Error>(dir@),
        slots_at_hand(req.contents, slots, ranges, places@, buffers@),
        first_slot + req.bucket_slots(b, physical@.len()).len() <= slots.len(),
        forall|k: int|
            0 <= k < req.bucket_slots(b, physical@.len()).len() ==> slots[first_slot + k] == #[trigger] req.bucket_slots(
                b,
                physical@.len(),
            )[k],
    ensures
        result matches Ok((readers, next)) ==> slots_read(req, b, readers@, physical@.len()) && next == first_slot
            + req.bucket_slots(b, physical@.len()).len(),
        result matches Err(e) ==> req.columns_error(b, physical@.len()) == Some(e),
{
    let total: usize = physical.len();
    let mut readers: Vec<Option<ColumnPageReader>> = Vec::new();
    let mut next: usize = first_slot;
    let count: usize = places.len();
    assert(places@.len() == slots.len()) by {
        reveal(slots_at_hand);
    }
    let none: Vec<u8> = Vec::new();
    let mut i: usize = 0;
    while i < total
        invariant
            i <= total,
            total == physical@.len(),
            count == places@.len() == slots.len(),
            none@.len() == 0,
            bucket_parts(req, b, physical@, children@, members@, projected@, num_rows as nat),
            req.layout(b) is Paged,
            req.directory(b) == Ok::<DirectoryView, Error>(dir@),
            slots_at_hand(req.contents, slots, ranges, places@, buffers@),
            first_slot + req.bucket_slots(b, physical@.len()).len() <= slots.len(),
            forall|k: int|
                0 <= k < req.bucket_slots(b, physical@.len()).len() ==> slots[first_slot + k] == #[trigger] req.bucket_slots(
                    b,
                    physical@.len(),
                )[k],
            next == first_slot + req.bucket_slots(b, i as nat).len(),
            slots_read(req, b, readers@, i as nat),
        decreases total - i,
    {
        proof {
            lemma_slot_inside(req, b, i as int);
        }
        assert(dir.sizes@[i as int] == dir@.sizes[i as int]);
        let size: usize = dir.sizes[i];
        let wanted: bool = slot_wanted(i, members, children, projected, Ghost(req), Ghost(b));
        let mut reader: Option<ColumnPageReader> = None;
        if wanted {
            let slot: &[u8] = if size > 0 {
                proof {
                    lemma_bucket_slots(req, b, i as int, total as nat);
                    let k = req.bucket_slots(b, i as nat).len() as int;
                    assert(slots[first_slot + k] == req.bucket_slots(b, total as nat)[k]);
                    assert(slots[next as int] == req.slot_range(b, i as int));
                }
                let slot: &[u8] = slot_at_hand(next, size, places, buffers, Ghost(slots), Ghost(ranges), Ghost(req.contents));
                next += 1;
                slot
            } else {
                none.as_slice()
            };
            match read_wanted_slot(
                i,
                slot,
                physical,
                members,
                children,
                projected,
                num_rows,
                &dir.counts,
                Ghost(req),
                Ghost(b),
            ) {
                Ok(read) => {
                    reader = read;
                },
                Err(e) => {
                    proof {
                        lemma_slot_error(req, b, i as nat, total as nat, e);
                    }
                    return Err(e);
                },
            }
        }
        proof {
            lemma_slot_pushed(req, b, readers@, i as nat, reader);
        }
        readers.push(reader);
        i += 1;
    }
    Ok((readers, next))
}

/// The bytes of the slots were read as parts of joined ranges.
#[verifier::opaque]
spec fn slots_at_hand(
    contents: Seq<u8>,
    slots: Seq<(u64, usize)>,
    ranges: Seq<(u64, usize)>,
    places: Seq<(usize, usize)>,
    buffers: Seq<ReadRangeBuffer>,
) -> bool {
    &&& places.len() == slots.len()
    &&& forall|k: int| 0 <= k < slots.len() ==> #[trigger] lies_in(slots[k], places[k], ranges)
    &&& ranges_read(contents, ranges, buffer_views(buffers))
    &&& forall|i: int| 0 <= i < buffers.len() ==> (#[trigger] buffers[i]).wf()
}

/// The bytes of slot `k`.
fn slot_at_hand<'a>(
    k: usize,
    size: usize,
    places: &Vec<(usize, usize)>,
    buffers: &'a Vec<ReadRangeBuffer>,
    Ghost(slots): Ghost<Seq<(u64, usize)>>,
    Ghost(ranges): Ghost<Seq<(u64, usize)>>,
    Ghost(contents): Ghost<Seq<u8>>,
) -> (slot: &'a [u8])
    requires
        slots_at_hand(contents, slots, ranges, places@, buffers@),
        k < slots.len(),
        size == slots[k as int].1,
    ensures
        slot@ == range_bytes(contents, slots[k as int]),
        slot@.len() == size,
{
    reveal(slots_at_hand);
    let (group, start) = places[k];
    assert(lies_in(slots[k as int], places@[k as int], ranges));
    assert(ranges[group as int].1 >= 0);
    assert(buffer_views(buffers@)[group as int] == buffers@[group as int]@);
    let bytes: &[u8] = buffers[group].as_slice();
    let len: usize = bytes.len();
    assert(len == ranges[group as int].1);
    let slot: &[u8] = slice_subrange(bytes, start, start + size);
    assert(slot@ =~= range_bytes(contents, slots[k as int]));
    slot
}

proof fn lemma_done_at(req: GroupRequest, states: Seq<Option<BucketState>>, directories: Seq<Option<Directory>>, n: nat, b: int)
    requires
        first_round_done(req, states, directories, n),
        0 <= b < n,
    ensures
        states.len() == n,
        directories.len() == n,
        bucket_done(req, b, states[b], directories[b]),
{
    reveal(first_round_done);
    let state = states[b];
}

/// Takes bucket `b` of a request apart.
proof fn lemma_bucket_parts(req: GroupRequest, schema: MosaicSchema, meta: RowGroupMeta, compression: u8, projected: Seq<bool>, b: int)
    requires
        is_request(req, schema, meta, compression, projected),
        0 <= b < schema.num_buckets,
    ensures
        req.members.len() == schema.num_buckets,
        schema.bucket_ok(b),
        req.types[b] == schema.bucket_types(b),
        bucket_parts(
            req,
            b,
            physical_types(schema.bucket_types(b)),
            all_child_metas(schema.bucket_types(b), schema.bucket_types(b).len()),
            schema.bucket_to_global@[b]@,
            projected,
            meta.num_rows as nat,
        ),
{
    let types = schema.bucket_types(b);
    lemma_all_metas_len(types, types.len());
    assert(types.take(types.len() as int) =~= types);
    assert(schema.bucket_ok(b));
}

/// Lists the slots that are read on their own.
fn list_slots(
    schema: &MosaicSchema,
    meta: &RowGroupMeta,
    compression: u8,
    projected: &Vec<bool>,
    round: &FirstRound,
    Ghost(req): Ghost<GroupRequest>,
) -> (slots: Vec<(u64, usize)>)
    requires
        is_request(req, *schema, *meta, compression, projected@),
        first_round_done(req, round.states@, round.directories@, req.members.len()),
    ensures
        slots@ == req.second_slots(req.members.len()),
        ranges_ok(slots@),
{
    let mut slots: Vec<(u64, usize)> = Vec::new();
    let mut b: usize = 0;
    while b < schema.num_buckets
        invariant
            b <= schema.num_buckets,
            is_request(req, *schema, *meta, compression, projected@),
            first_round_done(req, round.states@, round.directories@, req.members.len()),
            slots@ == req.second_slots(b as nat),
            ranges_ok(slots@),
        decreases schema.num_buckets - b,
    {
        proof {
            lemma_bucket_parts(req, *schema, *meta, compression, projected@, b as int);
            lemma_done_at(req, round.states@, round.directories@, req.members.len(), b as int);
        }
        if let Some(dir) = &round.directories[b] {
            list_slots_of(&mut slots, schema, meta, compression, projected, b, dir, Ghost(req));
        }
        b += 1;
    }
    slots
}

fn list_slots_of(
    slots: &mut Vec<(u64, usize)>,
    schema: &MosaicSchema,
    meta: &RowGroupMeta,
    compression: u8,
    projected: &Vec<bool>,
    b: usize,
    dir: &Directory,
    Ghost(req): Ghost<GroupRequest>,
)
    requires
        is_request(req, *schema, *meta, compression, projected@),
        b < schema.num_buckets,
        req.layout(b as int) is Paged,
        req.directory(b as int) == Ok::<DirectoryView, Error>(dir@),
        ranges_ok(old(slots)@),
    ensures
        final(slots)@ == old(slots)@ + req.bucket_slots(b as int, physical_types(req.types[b as int]).len()),
        ranges_ok(final(slots)@),
{
    proof {
        lemma_bucket_parts(req, *schema, *meta, compression, projected@, b as int);
    }
    let refs: Vec<&DataType> = schema.bucket_type_refs(b);
    let (physical, children) = expand_col_types(refs.as_slice());
    assert(plain_types(refs@).len() == refs@.len());
    list_bucket_slots(
        slots,
        &physical,
        &children,
        &schema.bucket_to_global[b],
        projected,
        meta.bucket_offsets[b],
        dir,
        Ghost(req),
        Ghost(b as int),
    );
}

/// The first `n` buckets are read, and the others are as the first round left them.
#[verifier::opaque]
spec fn second_round_done(
    req: GroupRequest,
    states: Seq<Option<BucketState>>,
    directories: Seq<Option<Directory>>,
    n: nat,
    total: nat,
) -> bool {
    &&& states.len() == total
    &&& directories.len() == total
    &&& n <= total
    &&& req.second_round_errors(n) is None
    &&& forall|b: int| #![trigger states[b]] 0 <= b < n ==> state_done(req, b, states[b])
    &&& forall|b: int|
        #![trigger states[b]]
        #![trigger directories[b]]
        n <= b < total ==> bucket_done(req, b, states[b], directories[b])
}

proof fn lemma_second_start(req: GroupRequest, states: Seq<Option<BucketState>>, directories: Seq<Option<Directory>>, total: nat)
    requires
        first_round_done(req, states, directories, total),
    ensures
        second_round_done(req, states, directories, 0, total),
        states.len() == total,
        directories.len() == total,
{
    reveal(first_round_done);
    reveal(second_round_done);
}

proof fn lemma_second_at(
    req: GroupRequest,
    states: Seq<Option<BucketState>>,
    directories: Seq<Option<Directory>>,
    n: nat,
    total: nat,
)
    requires
        second_round_done(req, states, directories, n, total),
        n < total,
    ensures
        states.len() == total,
        directories.len() == total,
        bucket_done(req, n as int, states[n as int], directories[n as int]),
        !req.partial(n as int) ==> second_round_done(req, states, directories, n + 1, total),
{
    reveal(second_round_done);
    let state = states[n as int];
}

proof fn lemma_second_step(
    req: GroupRequest,
    states: Seq<Option<BucketState>>,
    directories: Seq<Option<Directory>>,
    n: nat,
    total: nat,
    readers: Vec<Option<ColumnPageReader>>,
)
    requires
        second_round_done(req, states, directories, n, total),
        n < total,
        req.partial(n as int),
        slots_read(req, n as int, readers@, physical_types(req.types[n as int]).len()),
    ensures
        second_round_done(
            req,
            states.update(n as int, Some(BucketState::Paged { column_readers: readers })),
            directories,
            n + 1,
            total,
        ),
{
    reveal(second_round_done);
    lemma_slots_read(req, n as int, readers@);
    let state = BucketState::Paged { column_readers: readers };
    let after = states.update(n as int, Some(state));
    assert(state_done(req, n as int, Some(state)));
    assert forall|b: int| #![trigger after[b]] 0 <= b < n + 1 implies state_done(req, b, after[b]) by {
        if b < n {
            assert(after[b] == states[b]);
        }
    }
    assert forall|b: int|
        #![trigger after[b]]
        #![trigger directories[b]]
        n + 1 <= b < total implies bucket_done(req, b, after[b], directories[b]) by {
        assert(after[b] == states[b]);
    }
}

proof fn lemma_second_error(
    req: GroupRequest,
    states: Seq<Option<BucketState>>,
    directories: Seq<Option<Directory>>,
    n: nat,
    total: nat,
    e: Error,
)
    requires
        second_round_done(req, states, directories, n, total),
        n < total,
        req.partial(n as int),
        req.columns_error(n as int, physical_types(req.types[n as int]).len()) == Some(e),
    ensures
        req.second_round_errors(total) == Some(e),
{
    reveal(second_round_done);
    lemma_second_round_errors(req, n + 1, total);
}

/// Reads a bucket that only a part is read of.
fn second_step(
    schema: &MosaicSchema,
    meta: &RowGroupMeta,
    compression: u8,
    projected: &Vec<bool>,
    b: usize,
    dir: &Directory,
    first_slot: usize,
    places: &Vec<(usize, usize)>,
    buffers: &Vec<ReadRangeBuffer>,
    Ghost(slots): Ghost<Seq<(u64, usize)>>,
    Ghost(ranges): Ghost<Seq<(u64, usize)>>,
    Ghost(req): Ghost<GroupRequest>,
) -> (result: Result<(Vec<Option<ColumnPageReader>>, usize), Error>)
    requires
        is_request(req, *schema, *meta, compression, projected@),
        b < schema.num_buckets,
        req.partial(b as int),
        req.directory(b as int) == Ok::<DirectoryView, Error>(dir@),
        slots_at_hand(req.contents, slots, ranges, places@, buffers@),
        slots == req.second_slots(req.members.len()),
        first_slot == req.second_slots(b as nat).len(),
    ensures
        result matches Ok((readers, next)) ==> slots_read(req, b as int, readers@, physical_types(req.types[b as int]).len()) && next
            == req.second_slots((b + 1) as nat).len(),
        result matches Err(e) ==> req.columns_error(b as int, physical_types(req.types[b as int]).len()) == Some(e),
{
    proof {
        lemma_bucket_parts(req, *schema, *meta, compression, projected@, b as int);
    }
    let refs: Vec<&DataType> = schema.bucket_type_refs(b);
    let (physical, children) = expand_col_types(refs.as_slice());
    assert(plain_types(refs@).len() == refs@.len());
    let ghost own = req.bucket_slots(b as int, physical@.len());
    proof {
        assert forall|k: int| 0 <= k < own.len() implies slots[first_slot + k] == #[trigger] own[k] by {
            lemma_second_slots(req, b as int, req.members.len(), k);
        }
        if own.len() > 0 {
            lemma_second_slots(req, b as int, req.members.len(), own.len() - 1);
        } else {
            lemma_second_len(req, b as nat, req.members.len());
        }
    }
    read_partial_bucket(
        &physical,
        &children,
        &schema.bucket_to_global[b],
        projected,
        meta.num_rows,
        dir,
        first_slot,
        places,
        buffers,
        Ghost(slots),
        Ghost(ranges),
        Ghost(req),
        Ghost(b as int),
    )
}

proof fn lemma_second_len(req: GroupRequest, b: nat, n: nat)
    requires
        b <= n,
    ensures
        req.second_slots(b).len() <= req.second_slots(n).len(),
    decreases n,
{
    if b < n {
        lemma_second_len(req, b, (n - 1) as nat);
    }
}

/// Reads the buckets that only a part is read of.
fn process_second_round(
    schema: &MosaicSchema,
    meta: &RowGroupMeta,
    compression: u8,
    projected: &Vec<bool>,
    round: FirstRound,
    places: &Vec<(usize, usize)>,
    buffers: &Vec<ReadRangeBuffer>,
    Ghost(slots): Ghost<Seq<(u64, usize)>>,
    Ghost(ranges): Ghost<Seq<(u64, usize)>>,
    Ghost(req): Ghost<GroupRequest>,
) -> (result: Result<Vec<Option<BucketState>>, Error>)
    requires
        is_request(req, *schema, *meta, compression, projected@),
        first_round_done(req, round.states@, round.directories@, req.members.len()),
        slots_at_hand(req.contents, slots, ranges, places@, buffers@),
        slots == req.second_slots(req.members.len()),
    ensures
        result matches Ok(states) ==> second_round_done(
            req,
            states@,
            round.directories@,
            req.members.len(),
            req.members.len(),
        ),
        result matches Err(e) ==> req.second_round_errors(req.members.len()) == Some(e),
{
    let directories: Vec<Option<Directory>> = round.directories;
    let mut states: Vec<Option<BucketState>> = round.states;
    let num_buckets: usize = schema.num_buckets;
    let ghost total = req.members.len();
    proof {
        lemma_second_start(req, states@, directories@, total);
    }
    let mut next: usize = 0;
    let mut b: usize = 0;
    while b < num_buckets
        invariant
            b <= num_buckets == schema.num_buckets,
            total == num_buckets,
            total == req.members.len(),
            is_request(req, *schema, *meta, compression, projected@),
            slots_at_hand(req.contents, slots, ranges, places@, buffers@),
            slots == req.second_slots(req.members.len()),
            next == req.second_slots(b as nat).len(),
            second_round_done(req, states@, directories@, b as nat, total),
        decreases num_buckets - b,
    {
        proof {
            lemma_second_at(req, states@, directories@, b as nat, total);
        }
        match &directories[b] {
            None => {},
            Some(dir) => {
                match second_step(
                    schema,
                    meta,
                    compression,
                    projected,
                    b,
                    dir,
                    next,
                    places,
                    buffers,
                    Ghost(slots),
                    Ghost(ranges),
                    Ghost(req),
                ) {
                    Ok((column_readers, after)) => {
                        proof {
                            lemma_second_step(req, states@, directories@, b as nat, total, column_readers);
                        }
                        states.set(b, Some(BucketState::Paged { column_readers }));
                        next = after;
                    },
                    Err(e) => {
                        proof {
                            lemma_second_error(req, states@, directories@, b as nat, total, e);
                        }
                        return Err(e);
                    },
                }
            },
        }
        b += 1;
    }
    Ok(states)
}

pub open spec fn state_views(states: Seq<Option<BucketState>>) -> Seq<Option<BucketStateView>> {
    Seq::new(
        states.len(),
        |b: int|
            match states[b] {
                Some(state) => Some(state@),
                None => None,
            },
    )
}

/// The states fit the types of the buckets.
pub open spec fn states_ok(states: Seq<Option<BucketState>>, types: Seq<Seq<DataType>>) -> bool {
    &&& states.len() == types.len()
    &&& forall|b: int| #![trigger states[b]] 0 <= b < states.len() ==> (states[b] matches Some(state) ==> state.wf(types[b]))
}

proof fn lemma_all_done(req: GroupRequest, states: Seq<Option<BucketState>>, directories: Seq<Option<Directory>>)
    requires
        second_round_done(req, states, directories, req.members.len(), req.members.len()),
        req.types.len() == req.members.len(),
    ensures
        req.second_round_errors(req.members.len()) is None,
        state_views(states) == req.states(),
        states_ok(states, req.types),
{
    reveal(second_round_done);
    assert(state_views(states) =~= req.states()) by {
        assert forall|b: int| 0 <= b < states.len() implies #[trigger] state_views(states)[b] == req.states()[b] by {
            let state = states[b];
            assert(state_done(req, b, states[b]));
        }
    }
}

proof fn lemma_no_first_errors(req: GroupRequest, states: Seq<Option<BucketState>>, directories: Seq<Option<Directory>>, n: nat)
    requires
        first_round_done(req, states, directories, n),
    ensures
        req.first_round_errors(n) is None,
{
    reveal(first_round_done);
}

/// Reads the columns that are asked for: first the buckets that are needed as a whole and the
/// directories of the others, and then the slots that those tell of.
pub fn load_row_group<I: InputFile>(
    input: &I,
    schema: &MosaicSchema,
    meta: &RowGroupMeta,
    compression: u8,
    projected: &Vec<bool>,
) -> (result: Result<Vec<Option<BucketState>>, Error>)
    requires
        schema.wf(),
        meta@.wf(schema.num_buckets as int, u64::MAX as int),
        projected@.len() == schema.columns@.len(),
    ensures
        ({
            let req = request_of(*schema, meta@, compression, input.contents(), projected@);
            &&& result matches Ok(states) ==> req.error() is None && state_views(states@) == req.states() && states_ok(
                states@,
                req.types,
            )
            &&& result matches Err(e) ==> (e is Io && !(input.never_fails() && req.is_inside()) && req.plan_errors(req.members.len()) is None)
                || req.error() == Some(e)
        }),
{
    let ghost req = request_of(*schema, meta@, compression, input.contents(), projected@);
    proof {
        lemma_request_wf(*schema, meta@, compression, input.contents(), projected@);
    }
    let ranges: Vec<(u64, usize)> = match plan_first_round(schema, meta, compression, projected, Ghost(req)) {
        Ok(ranges) => ranges,
        Err(e) => {
            return Err(e);
        },
    };
    let buffers: Vec<ReadRangeBuffer> = match input.read_ranges_shared(ranges.as_slice()) {
        Ok(buffers) => buffers,
        Err(e) => {
            proof {
                if req.is_inside() {
                    lemma_first_inside(req, req.members.len());
                }
            }
            return Err(e);
        },
    };
    assert(first_reads(req, *schema, *meta, compression, projected@, buffers@)) by {
        reveal(first_reads);
    }
    let round: FirstRound = match process_first_round(schema, meta, compression, projected, &buffers, Ghost(req)) {
        Ok(round) => round,
        Err(e) => {
            return Err(e);
        },
    };
    proof {
        lemma_no_first_errors(req, round.states@, round.directories@, req.members.len());
    }
    let slots: Vec<(u64, usize)> = list_slots(schema, meta, compression, projected, &round, Ghost(req));
    let (joined, places) = join_adjacent(&slots);
    let parts: Vec<ReadRangeBuffer> = if joined.len() == 0 {
        Vec::new()
    } else {
        match input.read_ranges_shared(joined.as_slice()) {
            Ok(parts) => parts,
            Err(e) => {
                proof {
                    if req.is_inside() {
                        lemma_second_inside(req, req.members.len());
                        assert(ranges_below(slots@, req.contents.len() as int));
                    }
                }
                return Err(e);
            },
        }
    };
    assert(slots_at_hand(req.contents, slots@, joined@, places@, parts@)) by {
        reveal(slots_at_hand);
    }
    let ghost directories = round.directories@;
    match process_second_round(
        schema,
        meta,
        compression,
        projected,
        round,
        &places,
        &parts,
        Ghost(slots@),
        Ghost(joined@),
        Ghost(req),
    ) {
        Ok(states) => {
            proof {
                lemma_all_done(req, states@, directories);
            }
            Ok(states)
        },
        Err(e) => Err(e),
    }
}

} // verus!
