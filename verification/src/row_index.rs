//! The index of the row groups of a file: where the buckets of each stand.
use vstd::prelude::*;
use crate::codec::{be_bytes, be_value, get_be, lemma_be_value_of_bytes, lemma_pow256, put_be};
use crate::compression::to_u32;
use crate::const_fill::count_valid;
use crate::error::{Error, SizeField};
use crate::format::BucketLayout;
use crate::read_back::{lemma_stands, stands_at};
use crate::values::Value;
use crate::varint;
use crate::varint::{lemma_varint_bounds, varint_at, varint_bytes};

verus! {

/// What is known of the values of a column in a row group.
pub struct ColumnStats {
    pub column_index: usize,
    pub null_count: usize,
    pub min: Option<Value>,
    pub max: Option<Value>,
}

/// A row group: its rows, and where its buckets stand and how they are laid out.
pub struct RowGroupMeta {
    pub num_rows: usize,
    pub bucket_offsets: Vec<u64>,
    pub bucket_layouts: Vec<BucketLayout>,
    pub stats: Vec<ColumnStats>,
}

pub struct RowGroupView {
    pub num_rows: nat,
    pub bucket_offsets: Seq<u64>,
    pub bucket_layouts: Seq<BucketLayout>,
}

impl View for RowGroupMeta {
    type V = RowGroupView;

    open spec fn view(&self) -> RowGroupView {
        RowGroupView {
            num_rows: self.num_rows as nat,
            bucket_offsets: self.bucket_offsets@,
            bucket_layouts: self.bucket_layouts@,
        }
    }
}

/// The bytes of a bucket on disk.
pub open spec fn bucket_size(layout: BucketLayout) -> int {
    layout.sizes().0 as int
}

impl RowGroupView {
    /// There is a place for each of the buckets, and it lies before `limit`.
    pub open spec fn wf(self, num_buckets: int, limit: int) -> bool {
        &&& self.bucket_offsets.len() == num_buckets
        &&& self.bucket_layouts.len() == num_buckets
        &&& forall|b: int|
            0 <= b < num_buckets ==> (#[trigger] self.bucket_layouts[b]).valid() && self.bucket_offsets[b] + bucket_size(
                self.bucket_layouts[b],
            ) <= limit
    }
}

/// The layout that two sizes in the index stand for.
pub open spec fn layout_of(compressed_size: nat, bulk_decompress_size: nat) -> BucketLayout {
    if compressed_size == 0 {
        BucketLayout::Empty
    } else if bulk_decompress_size == 0 {
        BucketLayout::Paged { total_size: compressed_size as usize }
    } else {
        BucketLayout::Monolithic {
            compressed_size: compressed_size as usize,
            uncompressed_size: bulk_decompress_size as usize,
        }
    }
}

/// One bucket in the index.
pub struct BucketEntry {
    pub bucket: nat,
    pub offset: u64,
    pub layout: BucketLayout,
}

/// The bucket that stands at `pos`, and the position behind it.
pub open spec fn bucket_entry_at(data: Seq<u8>, pos: int, seen: Seq<bool>, limit: int) -> Result<(BucketEntry, int), Error> {
    match varint_at(data, pos) {
        Err(e) => Err(e),
        Ok((bucket, at)) => if bucket >= seen.len() || at + 8 > data.len() {
            Err(Error::CorruptRowGroupIndex)
        } else if seen[bucket as int] {
            Err(Error::DuplicateBucket)
        } else {
            let offset = be_value(data.subrange(at, at + 8));
            match varint_at(data, at + 8) {
                Err(e) => Err(e),
                Ok((compressed_size, next)) => match varint_at(data, next) {
                    Err(e) => Err(e),
                    Ok((bulk_decompress_size, end)) => if compressed_size == 0 && bulk_decompress_size != 0 {
                        Err(Error::InvalidBucketLayout)
                    } else if offset + compressed_size > u64::MAX {
                        Err(Error::BucketOffsetOverflow)
                    } else if offset + compressed_size > limit {
                        Err(Error::BucketPastSchema)
                    } else {
                        Ok(
                            (
                                BucketEntry {
                                    bucket,
                                    offset: offset as u64,
                                    layout: layout_of(compressed_size, bulk_decompress_size),
                                },
                                end,
                            ),
                        )
                    },
                },
            }
        },
    }
}

/// The buckets of a row group as far as they are known.
pub struct Places {
    pub offsets: Seq<u64>,
    pub layouts: Seq<BucketLayout>,
    pub seen: Seq<bool>,
}

impl Places {
    pub open spec fn with(self, entry: BucketEntry) -> Places {
        let b = entry.bucket as int;
        Places {
            offsets: self.offsets.update(b, entry.offset),
            layouts: self.layouts.update(b, entry.layout),
            seen: self.seen.update(b, true),
        }
    }

    pub open spec fn none(num_buckets: nat) -> Places {
        Places {
            offsets: Seq::new(num_buckets, |b: int| 0u64),
            layouts: Seq::new(num_buckets, |b: int| BucketLayout::Empty),
            seen: Seq::new(num_buckets, |b: int| false),
        }
    }

    pub open spec fn ok(self, num_buckets: nat, limit: int) -> bool {
        &&& self.offsets.len() == num_buckets
        &&& self.layouts.len() == num_buckets
        &&& self.seen.len() == num_buckets
        &&& forall|b: int|
            0 <= b < num_buckets ==> (#[trigger] self.layouts[b]).valid() && self.offsets[b] + bucket_size(self.layouts[b])
                <= limit
    }
}

/// The next `n` buckets from `pos` on, and the position behind them.
pub open spec fn bucket_entries_at(data: Seq<u8>, pos: int, n: nat, places: Places, limit: int) -> Result<(Places, int), Error>
    decreases n,
{
    if n == 0 {
        Ok((places, pos))
    } else {
        match bucket_entry_at(data, pos, places.seen, limit) {
            Err(e) => Err(e),
            Ok((entry, next)) => bucket_entries_at(data, next, (n - 1) as nat, places.with(entry), limit),
        }
    }
}

/// The row group that stands at `pos`, and the position behind it.
pub open spec fn row_group_at(data: Seq<u8>, pos: int, num_buckets: nat, limit: int) -> Result<(RowGroupView, int), Error> {
    match varint_at(data, pos) {
        Err(e) => Err(e),
        Ok((num_rows, at)) => match varint_at(data, at) {
            Err(e) => Err(e),
            Ok((non_empty, start)) => if non_empty > num_buckets {
                Err(Error::NonEmptyCountTooLarge)
            } else {
                match bucket_entries_at(data, start, non_empty, Places::none(num_buckets), limit) {
                    Err(e) => Err(e),
                    Ok((places, end)) => Ok(
                        (RowGroupView { num_rows, bucket_offsets: places.offsets, bucket_layouts: places.layouts }, end),
                    ),
                }
            },
        },
    }
}

fn read_bucket_entry(data: &[u8], pos: &mut usize, seen: &Vec<bool>, limit: u64) -> (result: Result<(usize, u64, BucketLayout), Error>)
    requires
        *old(pos) <= data@.len(),
    ensures
        result matches Ok((bucket, offset, layout)) ==> bucket < seen@.len() && *final(pos) <= data@.len() && layout.valid() && offset
            + bucket_size(layout) <= limit && bucket_entry_at(data@, *old(pos) as int, seen@, limit as int) == Ok::<
            (BucketEntry, int),
            Error,
        >((BucketEntry { bucket: bucket as nat, offset, layout }, *final(pos) as int)),
        result matches Err(e) ==> bucket_entry_at(data@, *old(pos) as int, seen@, limit as int) == Err::<(BucketEntry, int), Error>(e),
{
    let bucket: usize = match varint::decode(data, pos) {
        Ok(v) => v as usize,
        Err(e) => {
            return Err(e);
        },
    };
    if bucket >= seen.len() || data.len() - *pos < 8 {
        return Err(Error::CorruptRowGroupIndex);
    }
    if seen[bucket] {
        return Err(Error::DuplicateBucket);
    }
    let offset: u64 = get_be(data, *pos, 8);
    *pos = *pos + 8;
    let compressed_size: usize = match varint::decode(data, pos) {
        Ok(v) => v as usize,
        Err(e) => {
            return Err(e);
        },
    };
    let bulk_decompress_size: usize = match varint::decode(data, pos) {
        Ok(v) => v as usize,
        Err(e) => {
            return Err(e);
        },
    };
    let layout: BucketLayout = match BucketLayout::decode(compressed_size, bulk_decompress_size) {
        Ok(layout) => layout,
        Err(_) => {
            return Err(Error::InvalidBucketLayout);
        },
    };
    match offset.checked_add(compressed_size as u64) {
        None => Err(Error::BucketOffsetOverflow),
        Some(end) => if end > limit {
            Err(Error::BucketPastSchema)
        } else {
            Ok((bucket, offset, layout))
        },
    }
}

/// Reads the row group at `pos` and moves `pos` behind it. Buckets lie before `limit`.
pub fn read_row_group(data: &[u8], pos: &mut usize, num_buckets: usize, limit: u64) -> (result: Result<RowGroupMeta, Error>)
    requires
        *old(pos) <= data@.len(),
    ensures
        result matches Ok(meta) ==> *final(pos) <= data@.len() && meta.stats@.len() == 0 && meta@.wf(
            num_buckets as int,
            limit as int,
        ) && row_group_at(data@, *old(pos) as int, num_buckets as nat, limit as int) == Ok::<(RowGroupView, int), Error>(
            (meta@, *final(pos) as int),
        ),
        result matches Err(e) ==> row_group_at(data@, *old(pos) as int, num_buckets as nat, limit as int) == Err::<
            (RowGroupView, int),
            Error,
        >(e),
{
    let num_rows: usize = match varint::decode(data, pos) {
        Ok(v) => v as usize,
        Err(e) => {
            return Err(e);
        },
    };
    let non_empty: usize = match varint::decode(data, pos) {
        Ok(v) => v as usize,
        Err(e) => {
            return Err(e);
        },
    };
    if non_empty > num_buckets {
        return Err(Error::NonEmptyCountTooLarge);
    }
    let ghost start = *pos as int;
    let mut bucket_offsets: Vec<u64> = vec![0u64; num_buckets];
    let mut bucket_layouts: Vec<BucketLayout> = empty_layouts(num_buckets);
    let mut seen: Vec<bool> = vec![false; num_buckets];
    let ghost mut places = Places { offsets: bucket_offsets@, layouts: bucket_layouts@, seen: seen@ };
    assert(places.offsets =~= Places::none(num_buckets as nat).offsets);
    assert(places.layouts =~= Places::none(num_buckets as nat).layouts);
    assert(places.seen =~= Places::none(num_buckets as nat).seen);
    let mut i: usize = 0;
    while i < non_empty
        invariant
            i <= non_empty,
            *pos <= data@.len(),
            places == (Places { offsets: bucket_offsets@, layouts: bucket_layouts@, seen: seen@ }),
            places.ok(num_buckets as nat, limit as int),
            row_group_at(data@, *old(pos) as int, num_buckets as nat, limit as int) == row_group_of(
                num_rows as nat,
                bucket_entries_at(data@, *pos as int, (non_empty - i) as nat, places, limit as int),
            ),
        decreases non_empty - i,
    {
        match read_bucket_entry(data, pos, &seen, limit) {
            Err(e) => {
                return Err(e);
            },
            Ok((bucket, offset, layout)) => {
                let ghost entry = BucketEntry { bucket: bucket as nat, offset, layout };
                bucket_offsets.set(bucket, offset);
                bucket_layouts.set(bucket, layout);
                seen.set(bucket, true);
                proof {
                    places = places.with(entry);
                }
            },
        }
        i += 1;
    }
    Ok(RowGroupMeta { num_rows, bucket_offsets, bucket_layouts, stats: Vec::new() })
}

/// The row group of what its buckets are read as.
spec fn row_group_of(num_rows: nat, entries: Result<(Places, int), Error>) -> Result<(RowGroupView, int), Error> {
    match entries {
        Err(e) => Err(e),
        Ok((places, end)) => Ok(
            (RowGroupView { num_rows, bucket_offsets: places.offsets, bucket_layouts: places.layouts }, end),
        ),
    }
}

fn empty_layouts(n: usize) -> (layouts: Vec<BucketLayout>)
    ensures
        layouts@ == Seq::new(n as nat, |b: int| BucketLayout::Empty),
{
    let mut layouts: Vec<BucketLayout> = Vec::new();
    let mut i: usize = 0;
    while i < n
        invariant
            i <= n,
            layouts@.len() == i,
            forall|b: int| 0 <= b < i ==> #[trigger] layouts@[b] == BucketLayout::Empty,
        decreases n - i,
    {
        layouts.push(BucketLayout::Empty);
        i += 1;
    }
    assert(layouts@ =~= Seq::new(n as nat, |b: int| BucketLayout::Empty));
    layouts
}

// ---------------------------------------------------------------- writing

/// The bytes of one bucket in the index; none for a bucket without data.
pub open spec fn bucket_entry_bytes(b: nat, offset: u64, layout: BucketLayout) -> Seq<u8> {
    if layout.sizes().0 == 0 {
        Seq::empty()
    } else {
        varint_bytes(b) + be_bytes(offset as nat, 8) + varint_bytes(layout.sizes().0 as nat) + varint_bytes(layout.sizes().1 as nat)
    }
}

/// The bytes of the first `n` buckets.
pub open spec fn bucket_entries_bytes(group: RowGroupView, n: nat) -> Seq<u8>
    decreases n,
{
    if n == 0 {
        Seq::empty()
    } else {
        bucket_entries_bytes(group, (n - 1) as nat) + bucket_entry_bytes(
            (n - 1) as nat,
            group.bucket_offsets[n - 1],
            group.bucket_layouts[n - 1],
        )
    }
}

/// How many of the first `n` buckets have data.
pub open spec fn non_empty_count(layouts: Seq<BucketLayout>, n: nat) -> nat
    decreases n,
{
    if n == 0 {
        0
    } else {
        non_empty_count(layouts, (n - 1) as nat) + (if layouts[n - 1] is Empty {
            0nat
        } else {
            1nat
        })
    }
}

/// The bytes of a row group in the index.
pub open spec fn row_group_bytes(group: RowGroupView) -> Seq<u8> {
    let n = group.bucket_layouts.len();
    varint_bytes(group.num_rows) + varint_bytes(non_empty_count(group.bucket_layouts, n)) + bucket_entries_bytes(group, n)
}

pub open spec fn over_u32(field: SizeField, size: int) -> Option<Error> {
    if size > u32::MAX {
        Some(Error::SizeOverU32 { field, size: size as usize })
    } else {
        None
    }
}

/// The first of the two that is an error.
pub open spec fn first_error(a: Option<Error>, b: Option<Error>) -> Option<Error> {
    match a {
        Some(e) => Some(e),
        None => b,
    }
}

/// What keeps bucket `b` from being told in the index.
pub open spec fn bucket_entry_error(b: int, layout: BucketLayout) -> Option<Error> {
    if layout.sizes().0 == 0 {
        None
    } else {
        first_error(
            over_u32(SizeField::BucketIndex, b),
            first_error(
                over_u32(SizeField::BucketCompressedSize, layout.sizes().0 as int),
                over_u32(SizeField::BucketBulkDecompressSize, layout.sizes().1 as int),
            ),
        )
    }
}

pub open spec fn bucket_entries_error(layouts: Seq<BucketLayout>, n: nat) -> Option<Error>
    decreases n,
{
    if n == 0 {
        None
    } else {
        first_error(bucket_entries_error(layouts, (n - 1) as nat), bucket_entry_error(n - 1, layouts[n - 1]))
    }
}

/// What keeps a row group from being told in the index.
pub open spec fn row_group_error(group: RowGroupView) -> Option<Error> {
    let n = group.bucket_layouts.len();
    first_error(
        over_u32(SizeField::RowGroupRows, group.num_rows as int),
        first_error(
            over_u32(SizeField::NonEmptyBuckets, non_empty_count(group.bucket_layouts, n) as int),
            bucket_entries_error(group.bucket_layouts, n),
        ),
    )
}

fn count_non_empty(layouts: &Vec<BucketLayout>) -> (count: usize)
    ensures
        count == non_empty_count(layouts@, layouts@.len()),
{
    let mut count: usize = 0;
    let mut i: usize = 0;
    while i < layouts.len()
        invariant
            i <= layouts.len(),
            count <= i,
            count == non_empty_count(layouts@, i as nat),
        decreases layouts.len() - i,
    {
        match layouts[i] {
            BucketLayout::Empty => {},
            _ => {
                count += 1;
            },
        }
        i += 1;
    }
    count
}

proof fn lemma_entries_error(layouts: Seq<BucketLayout>, n: nat, m: nat)
    requires
        n <= m,
        bucket_entries_error(layouts, n) is Some,
    ensures
        bucket_entries_error(layouts, m) == bucket_entries_error(layouts, n),
    decreases m,
{
    if n < m {
        lemma_entries_error(layouts, n, (m - 1) as nat);
    }
}

/// Appends a row group to the index.
pub fn write_row_group(out: &mut Vec<u8>, num_rows: usize, bucket_offsets: &Vec<u64>, bucket_layouts: &Vec<BucketLayout>) -> (result:
    Result<(), Error>)
    requires
        bucket_offsets@.len() == bucket_layouts@.len(),
    ensures
        ({
            let group = RowGroupView {
                num_rows: num_rows as nat,
                bucket_offsets: bucket_offsets@,
                bucket_layouts: bucket_layouts@,
            };
            &&& result is Ok ==> row_group_error(group) is None && final(out)@ == old(out)@ + row_group_bytes(group)
            &&& result matches Err(e) ==> row_group_error(group) == Some(e)
        }),
{
    let ghost group = RowGroupView { num_rows: num_rows as nat, bucket_offsets: bucket_offsets@, bucket_layouts: bucket_layouts@ };
    match to_u32(num_rows, SizeField::RowGroupRows) {
        Ok(v) => {
            varint::encode(out, v);
        },
        Err(e) => {
            return Err(e);
        },
    }
    let non_empty: usize = count_non_empty(bucket_layouts);
    match to_u32(non_empty, SizeField::NonEmptyBuckets) {
        Ok(v) => {
            varint::encode(out, v);
        },
        Err(e) => {
            return Err(e);
        },
    }
    let ghost head = varint_bytes(group.num_rows) + varint_bytes(non_empty as nat);
    assert(out@ =~= old(out)@ + head);
    assert(out@ =~= old(out)@ + head + bucket_entries_bytes(group, 0));
    let mut b: usize = 0;
    while b < bucket_layouts.len()
        invariant
            b <= bucket_layouts@.len(),
            bucket_offsets@.len() == bucket_layouts@.len(),
            group == (RowGroupView { num_rows: num_rows as nat, bucket_offsets: bucket_offsets@, bucket_layouts: bucket_layouts@ }),
            num_rows <= u32::MAX,
            non_empty <= u32::MAX,
            non_empty == non_empty_count(bucket_layouts@, bucket_layouts@.len()),
            bucket_entries_error(bucket_layouts@, b as nat) is None,
            out@ == old(out)@ + head + bucket_entries_bytes(group, b as nat),
        decreases bucket_layouts.len() - b,
    {
        let (compressed_size, bulk_decompress_size) = bucket_layouts[b].encode();
        let ghost before = out@;
        proof {
            if bucket_entries_error(bucket_layouts@, (b + 1) as nat) is Some {
                lemma_entries_error(bucket_layouts@, (b + 1) as nat, bucket_layouts@.len());
            }
        }
        if compressed_size > 0 {
            let index: u32 = match to_u32(b, SizeField::BucketIndex) {
                Ok(v) => v,
                Err(e) => {
                    return Err(e);
                },
            };
            let compressed: u32 = match to_u32(compressed_size, SizeField::BucketCompressedSize) {
                Ok(v) => v,
                Err(e) => {
                    return Err(e);
                },
            };
            let bulk: u32 = match to_u32(bulk_decompress_size, SizeField::BucketBulkDecompressSize) {
                Ok(v) => v,
                Err(e) => {
                    return Err(e);
                },
            };
            varint::encode(out, index);
            put_be(out, bucket_offsets[b], 8);
            varint::encode(out, compressed);
            varint::encode(out, bulk);
        }
        let ghost entry = bucket_entry_bytes(b as nat, bucket_offsets@[b as int], bucket_layouts@[b as int]);
        assert(out@ =~= before + entry);
        assert(out@ =~= old(out)@ + head + bucket_entries_bytes(group, (b + 1) as nat));
        b += 1;
    }
    assert(out@ =~= old(out)@ + row_group_bytes(group));
    Ok(())
}

// ---------------------------------------------------------------- reading back

/// The bytes of the buckets from `k` on.
spec fn entries_from(group: RowGroupView, k: int) -> Seq<u8>
    decreases group.bucket_layouts.len() - k,
{
    if k >= group.bucket_layouts.len() || k < 0 {
        Seq::empty()
    } else {
        bucket_entry_bytes(k as nat, group.bucket_offsets[k], group.bucket_layouts[k]) + entries_from(group, k + 1)
    }
}

/// What is known of the buckets once those before `k` are read.
spec fn places_before(group: RowGroupView, k: int) -> Places {
    let n = group.bucket_layouts.len();
    Places {
        offsets: Seq::new(
            n,
            |b: int|
                if b < k {
                    group.bucket_offsets[b]
                } else {
                    0u64
                },
        ),
        layouts: Seq::new(
            n,
            |b: int|
                if b < k {
                    group.bucket_layouts[b]
                } else {
                    BucketLayout::Empty
                },
        ),
        seen: Seq::new(n, |b: int| b < k && !(group.bucket_layouts[b] is Empty)),
    }
}

proof fn lemma_entries_split(group: RowGroupView, k: nat)
    requires
        k <= group.bucket_layouts.len(),
    ensures
        bucket_entries_bytes(group, group.bucket_layouts.len()) == bucket_entries_bytes(group, k) + entries_from(group, k as int),
    decreases group.bucket_layouts.len() - k,
{
    let n = group.bucket_layouts.len();
    if k < n {
        lemma_entries_split(group, k + 1);
        let entry = bucket_entry_bytes(k, group.bucket_offsets[k as int], group.bucket_layouts[k as int]);
        assert(bucket_entries_bytes(group, k + 1) =~= bucket_entries_bytes(group, k) + entry);
        assert(bucket_entries_bytes(group, n) =~= bucket_entries_bytes(group, k) + entries_from(group, k as int));
    } else {
        assert(bucket_entries_bytes(group, n) =~= bucket_entries_bytes(group, k) + entries_from(group, k as int));
    }
}

proof fn lemma_count_bound(layouts: Seq<BucketLayout>, n: nat)
    ensures
        non_empty_count(layouts, n) <= n,
    decreases n,
{
    if n > 0 {
        lemma_count_bound(layouts, (n - 1) as nat);
    }
}

proof fn lemma_count_grows(layouts: Seq<BucketLayout>, k: nat, n: nat)
    requires
        k <= n,
    ensures
        non_empty_count(layouts, k) <= non_empty_count(layouts, n),
    decreases n,
{
    if k < n {
        lemma_count_grows(layouts, k, (n - 1) as nat);
    }
}

proof fn lemma_entry_sizes(layouts: Seq<BucketLayout>, n: nat, b: int)
    requires
        bucket_entries_error(layouts, n) is None,
        0 <= b < n,
    ensures
        bucket_entry_error(b, layouts[b]) is None,
    decreases n,
{
    if b < n - 1 {
        lemma_entry_sizes(layouts, (n - 1) as nat, b);
    }
}

/// A row group whose sizes fit can be told.
pub open spec fn can_be_told(group: RowGroupView, limit: int) -> bool {
    &&& limit <= u64::MAX
    &&& group.wf(group.bucket_layouts.len() as int, limit)
    &&& row_group_error(group) is None
    &&& forall|b: int|
        0 <= b < group.bucket_layouts.len() && group.bucket_layouts[b] is Empty ==> #[trigger] group.bucket_offsets[b] == 0
}

proof fn lemma_entries_read(group: RowGroupView, data: Seq<u8>, pos: int, limit: int, k: int)
    requires
        can_be_told(group, limit),
        0 <= k <= group.bucket_layouts.len(),
        stands_at(data, pos, entries_from(group, k)),
    ensures
        ({
            let n = group.bucket_layouts.len();
            let left = non_empty_count(group.bucket_layouts, n) - non_empty_count(group.bucket_layouts, k as nat);
            bucket_entries_at(data, pos, left as nat, places_before(group, k), limit) == Ok::<(Places, int), Error>(
                (places_before(group, n as int), pos + entries_from(group, k).len()),
            )
        }),
    decreases group.bucket_layouts.len() - k,
{
    let n = group.bucket_layouts.len();
    if k < n {
        let layout = group.bucket_layouts[k];
        let offset = group.bucket_offsets[k];
        let entry = bucket_entry_bytes(k as nat, offset, layout);
        let before = places_before(group, k);
        let after = places_before(group, k + 1);
        lemma_stands(data, pos, entry, entries_from(group, k + 1));
        lemma_entries_read(group, data, pos + entry.len(), limit, k + 1);
        lemma_count_grows(group.bucket_layouts, (k + 1) as nat, n);
        assert(layout.valid());
        if layout is Empty {
            assert(group.bucket_offsets[k] == 0);
            assert(before.offsets =~= after.offsets);
            assert(before.layouts =~= after.layouts);
            assert(before.seen =~= after.seen);
        } else {
            lemma_entry_sizes(group.bucket_layouts, n, k);
            let id = varint_bytes(k as nat);
            let place = be_bytes(offset as nat, 8);
            let compressed = varint_bytes(layout.sizes().0 as nat);
            let bulk = varint_bytes(layout.sizes().1 as nat);
            assert(entry == id + place + compressed + bulk);
            lemma_stands(data, pos, id + place + compressed, bulk);
            lemma_stands(data, pos, id + place, compressed);
            lemma_stands(data, pos, id, place);
            lemma_pow256();
            lemma_be_value_of_bytes(offset as nat, 8);
            varint::decode_undoes_encode(data, pos, k as nat);
            varint::decode_undoes_encode(data, pos + id.len() + 8, layout.sizes().0 as nat);
            varint::decode_undoes_encode(data, pos + id.len() + 8 + compressed.len(), layout.sizes().1 as nat);
            let read = BucketEntry { bucket: k as nat, offset, layout };
            assert(bucket_entry_at(data, pos, before.seen, limit) == Ok::<(BucketEntry, int), Error>((read, pos + entry.len())));
            assert(before.with(read).offsets =~= after.offsets);
            assert(before.with(read).layouts =~= after.layouts);
            assert(before.with(read).seen =~= after.seen);
        }
    }
}

/// A row group is read from the index as it was written.
pub proof fn row_group_reads_back(group: RowGroupView, data: Seq<u8>, pos: int, limit: int)
    requires
        can_be_told(group, limit),
        stands_at(data, pos, row_group_bytes(group)),
    ensures
        row_group_at(data, pos, group.bucket_layouts.len(), limit) == Ok::<(RowGroupView, int), Error>(
            (group, pos + row_group_bytes(group).len()),
        ),
{
    let n = group.bucket_layouts.len();
    let rows = varint_bytes(group.num_rows);
    let count = non_empty_count(group.bucket_layouts, n);
    lemma_count_bound(group.bucket_layouts, n);
    lemma_stands(data, pos, rows + varint_bytes(count), bucket_entries_bytes(group, n));
    lemma_stands(data, pos, rows, varint_bytes(count));
    varint::decode_undoes_encode(data, pos, group.num_rows);
    varint::decode_undoes_encode(data, pos + rows.len(), count);
    lemma_entries_split(group, 0);
    assert(bucket_entries_bytes(group, 0) + entries_from(group, 0) =~= entries_from(group, 0));
    lemma_entries_read(group, data, pos + rows.len() + varint_bytes(count).len(), limit, 0);
    let none = Places::none(n);
    let before = places_before(group, 0);
    assert(none.offsets =~= before.offsets);
    assert(none.layouts =~= before.layouts);
    assert(none.seen =~= before.seen);
    let all = places_before(group, n as int);
    assert(all.offsets =~= group.bucket_offsets);
    assert(all.layouts =~= group.bucket_layouts);
}

proof fn lemma_one_more_seen(seen: Seq<bool>, b: int)
    requires
        0 <= b < seen.len(),
        !seen[b],
    ensures
        count_valid(seen.update(b, true)) + 1 == count_valid(seen),
    decreases seen.len(),
{
    let after = seen.update(b, true);
    if b == seen.len() - 1 {
        assert(after.drop_last() =~= seen.drop_last());
    } else {
        lemma_one_more_seen(seen.drop_last(), b);
        assert(after.drop_last() =~= seen.drop_last().update(b, true));
    }
}

proof fn lemma_entry_is_valid(data: Seq<u8>, pos: int, seen: Seq<bool>, limit: int)
    requires
        0 <= pos,
    ensures
        bucket_entry_at(data, pos, seen, limit) matches Ok((entry, next)) ==> {
            &&& entry.bucket < seen.len()
            &&& !seen[entry.bucket as int]
            &&& entry.layout.valid()
            &&& entry.offset + bucket_size(entry.layout) <= limit
            &&& pos <= next
        },
{
    lemma_varint_bounds(data, pos);
    if let Ok((bucket, at)) = varint_at(data, pos) {
        lemma_varint_bounds(data, at + 8);
        if let Ok((compressed_size, next)) = varint_at(data, at + 8) {
            lemma_varint_bounds(data, next);
        }
    }
    lemma_pow256();
}

/// Each entry of a row group that is taken names a bucket that none before it names, and the buckets that
/// no entry names keep their places.
pub proof fn each_entry_names_another_bucket(data: Seq<u8>, pos: int, n: nat, places: Places, limit: int)
    requires
        0 <= pos,
        places.ok(places.seen.len(), limit),
    ensures
        bucket_entries_at(data, pos, n, places, limit) matches Ok((after, end)) ==> {
            &&& after.ok(places.seen.len(), limit)
            &&& count_valid(after.seen) + n == count_valid(places.seen)
            &&& forall|b: int| 0 <= b < places.seen.len() && #[trigger] places.seen[b] ==> after.seen[b] && after.offsets[b] == places.offsets[b]
                && after.layouts[b] == places.layouts[b]
            &&& forall|b: int| 0 <= b < places.seen.len() && !#[trigger] after.seen[b] ==> after.offsets[b] == places.offsets[b]
                && after.layouts[b] == places.layouts[b]
        },
    decreases n,
{
    if n > 0 {
        if let Ok((entry, next)) = bucket_entry_at(data, pos, places.seen, limit) {
            let b = entry.bucket as int;
            lemma_one_more_seen(places.seen, b);
            let one = places.with(entry);
            lemma_entry_is_valid(data, pos, places.seen, limit);
            assert(one.ok(one.seen.len(), limit));
            each_entry_names_another_bucket(data, next, (n - 1) as nat, one, limit);
            if let Ok((after, end)) = bucket_entries_at(data, next, (n - 1) as nat, one, limit) {
                assert forall|k: int| 0 <= k < places.seen.len() && #[trigger] places.seen[k] implies after.seen[k] && after.offsets[k]
                    == places.offsets[k] && after.layouts[k] == places.layouts[k] by {
                    assert(one.seen[k]);
                }
                assert(one.seen[b]);
            }
        }
    }
}

} // verus!
