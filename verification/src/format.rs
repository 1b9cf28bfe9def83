//! Constants of the file format and the layout of one bucket in the row group index.
use vstd::prelude::*;

verus! {

pub const MAGIC: [u8; 4] = [77u8, 79u8, 83u8, 65u8];
pub const VERSION: u8 = 1;
pub const FOOTER_SIZE: usize = 32;

pub const COMPRESSION_NONE: u8 = 0;
pub const COMPRESSION_ZSTD: u8 = 1;

pub const ENCODING_PLAIN: u8 = 0;
pub const ENCODING_CONST: u8 = 1;
pub const ENCODING_DICT: u8 = 2;
pub const ENCODING_ALL_NULL: u8 = 3;

pub const DEFAULT_NUM_BUCKETS: usize = 100;
pub const DEFAULT_ROW_GROUP_MAX_SIZE: u64 = 268_435_456;
pub const DEFAULT_ZSTD_LEVEL: i32 = 1;
pub const DEFAULT_DICT_MAX_TOTAL_BYTES: usize = 32_768;
pub const DEFAULT_DICT_MAX_ENTRIES: usize = 255;
pub const DEFAULT_PAGE_SIZE_THRESHOLD: usize = 32_768;

/// How the bytes of one bucket are laid out on disk.
#[derive(Debug, Clone, Copy, PartialEq, Eq, Structural)]
pub enum BucketLayout {
    /// No data on disk.
    Empty,
    /// One compressed block.
    Monolithic { compressed_size: usize, uncompressed_size: usize },
    /// A directory of slot sizes followed by one compressed slot per column.
    Paged { total_size: usize },
}

impl BucketLayout {
    /// A layout that the index can represent: its sizes are those of a non-empty block.
    pub open spec fn valid(self) -> bool {
        match self {
            BucketLayout::Empty => true,
            BucketLayout::Monolithic { compressed_size, uncompressed_size } => compressed_size > 0
                && uncompressed_size > 0,
            BucketLayout::Paged { total_size } => total_size > 0,
        }
    }

    /// The two sizes that stand for this layout in the index.
    pub open spec fn sizes(self) -> (usize, usize) {
        match self {
            BucketLayout::Empty => (0, 0),
            BucketLayout::Monolithic { compressed_size, uncompressed_size } => (
                compressed_size,
                uncompressed_size,
            ),
            BucketLayout::Paged { total_size } => (total_size, 0),
        }
    }

    pub fn decode(compressed_size: usize, bulk_decompress_size: usize) -> (result: Result<
        Self,
        &'static str,
    >)
        ensures
            result is Err <==> compressed_size == 0 && bulk_decompress_size != 0,
            result matches Err(message) ==> message@
                == "invalid bucket layout: compressed_size == 0 but bulk_decompress_size != 0"@,
            result matches Ok(layout) ==> layout.valid() && layout.sizes() == (
                compressed_size,
                bulk_decompress_size,
            ),
    {
        if compressed_size == 0 {
            if bulk_decompress_size == 0 {
                Ok(BucketLayout::Empty)
            } else {
                Err("invalid bucket layout: compressed_size == 0 but bulk_decompress_size != 0")
            }
        } else if bulk_decompress_size == 0 {
            Ok(BucketLayout::Paged { total_size: compressed_size })
        } else {
            Ok(
                BucketLayout::Monolithic {
                    compressed_size,
                    uncompressed_size: bulk_decompress_size,
                },
            )
        }
    }

    pub fn encode(&self) -> (sizes: (usize, usize))
        ensures
            sizes == self.sizes(),
    {
        match *self {
            BucketLayout::Empty => (0, 0),
            BucketLayout::Monolithic { compressed_size, uncompressed_size } => (
                compressed_size,
                uncompressed_size,
            ),
            BucketLayout::Paged { total_size } => (total_size, 0),
        }
    }
}

/// Two valid layouts with the same pair of sizes are the same layout, so what `decode` returns
/// for the sizes that `encode` gave is the layout that was encoded.
pub proof fn layout_sizes_are_unambiguous(a: BucketLayout, b: BucketLayout)
    requires
        a.valid(),
        b.valid(),
        a.sizes() == b.sizes(),
    ensures
        a == b,
{
}

/// The bucket of the column at `sorted_position` among `num_columns` columns.
pub fn assign_bucket(sorted_position: usize, num_columns: usize, num_buckets: usize) -> (bucket:
    usize)
    requires
        num_columns > 0,
        sorted_position * num_buckets <= usize::MAX,
    ensures
        bucket as int == (sorted_position as int * num_buckets as int) / num_columns as int,
{
    sorted_position * num_buckets / num_columns
}

/// Every column of the schema gets one of the buckets.
pub proof fn assigned_bucket_is_in_range(sorted_position: int, num_columns: int, num_buckets: int)
    requires
        0 <= sorted_position < num_columns,
        0 < num_buckets,
    ensures
        0 <= (sorted_position * num_buckets) / num_columns < num_buckets,
{
    assert(0 <= sorted_position * num_buckets < num_columns * num_buckets) by (nonlinear_arith)
        requires
            0 <= sorted_position < num_columns,
            0 < num_buckets,
    ;
    vstd::arithmetic::div_mod::lemma_multiply_divide_lt(
        sorted_position * num_buckets,
        num_columns,
        num_buckets,
    );
    vstd::arithmetic::div_mod::lemma_div_pos_is_pos(sorted_position * num_buckets, num_columns);
}

/// Columns that stand next to each other in sorted order get buckets in the same order.
pub proof fn assigned_buckets_keep_the_order(first: int, second: int, num_columns: int, num_buckets: int)
    requires
        0 <= first <= second,
        0 < num_columns,
        0 < num_buckets,
    ensures
        (first * num_buckets) / num_columns <= (second * num_buckets) / num_columns,
{
    assert(first * num_buckets <= second * num_buckets) by (nonlinear_arith)
        requires
            first <= second,
            0 < num_buckets,
    ;
    vstd::arithmetic::div_mod::lemma_div_is_ordered(
        first * num_buckets,
        second * num_buckets,
        num_columns,
    );
}

/// How many of the first `positions` columns get the bucket.
pub open spec fn columns_in_bucket(bucket: int, num_columns: int, num_buckets: int, positions: nat) -> nat
    decreases positions,
{
    if positions == 0 {
        0
    } else {
        columns_in_bucket(bucket, num_columns, num_buckets, (positions - 1) as nat) + if ((positions - 1) * num_buckets) / num_columns
            == bucket {
            1nat
        } else {
            0
        }
    }
}

/// The first position that gets the bucket or a later one.
spec fn bucket_start(bucket: int, num_columns: int, num_buckets: int) -> int {
    (bucket * num_columns + num_buckets - 1) / num_buckets
}

proof fn lemma_bucket_start(bucket: int, num_columns: int, num_buckets: int)
    requires
        0 <= bucket,
        0 < num_columns,
        0 < num_buckets,
    ensures
        0 <= bucket_start(bucket, num_columns, num_buckets),
        bucket * num_columns <= bucket_start(bucket, num_columns, num_buckets) * num_buckets < bucket * num_columns + num_buckets,
{
    let x = bucket * num_columns + num_buckets - 1;
    assert(0 <= bucket * num_columns) by (nonlinear_arith)
        requires
            0 <= bucket,
            0 < num_columns,
    ;
    vstd::arithmetic::div_mod::lemma_fundamental_div_mod(x, num_buckets);
    vstd::arithmetic::div_mod::lemma_div_pos_is_pos(x, num_buckets);
    assert((x / num_buckets) * num_buckets == num_buckets * (x / num_buckets)) by (nonlinear_arith);
}

/// A position gets the bucket when it stands between the start of that bucket and of the next.
proof fn lemma_bucket_span(position: int, bucket: int, num_columns: int, num_buckets: int)
    requires
        0 <= position,
        0 <= bucket,
        0 < num_columns,
        0 < num_buckets,
    ensures
        (position * num_buckets) / num_columns == bucket <==> bucket_start(bucket, num_columns, num_buckets) <= position
            < bucket_start(bucket + 1, num_columns, num_buckets),
{
    lemma_bucket_start(bucket, num_columns, num_buckets);
    lemma_bucket_start(bucket + 1, num_columns, num_buckets);
    let x = position * num_buckets;
    let q = x / num_columns;
    vstd::arithmetic::div_mod::lemma_fundamental_div_mod(x, num_columns);
    assert(q == bucket <==> bucket * num_columns <= x < (bucket + 1) * num_columns) by (nonlinear_arith)
        requires
            x == num_columns * q + x % num_columns,
            0 <= x % num_columns < num_columns,
            0 < num_columns,
    ;
    let low = bucket_start(bucket, num_columns, num_buckets);
    let high = bucket_start(bucket + 1, num_columns, num_buckets);
    assert(bucket * num_columns <= x <==> low <= position) by (nonlinear_arith)
        requires
            x == position * num_buckets,
            0 < num_buckets,
            bucket * num_columns <= low * num_buckets < bucket * num_columns + num_buckets,
    ;
    assert((bucket + 1) * num_columns <= x <==> high <= position) by (nonlinear_arith)
        requires
            x == position * num_buckets,
            0 < num_buckets,
            (bucket + 1) * num_columns <= high * num_buckets < (bucket + 1) * num_columns + num_buckets,
    ;
}

proof fn lemma_columns_in_bucket(bucket: int, num_columns: int, num_buckets: int, positions: nat)
    requires
        0 <= bucket,
        0 < num_columns,
        0 < num_buckets,
        bucket_start(bucket, num_columns, num_buckets) <= bucket_start(bucket + 1, num_columns, num_buckets),
    ensures
        ({
            let low = bucket_start(bucket, num_columns, num_buckets);
            let high = bucket_start(bucket + 1, num_columns, num_buckets);
            columns_in_bucket(bucket, num_columns, num_buckets, positions) == (if positions <= low {
                0
            } else if positions <= high {
                positions - low
            } else {
                high - low
            })
        }),
    decreases positions,
{
    lemma_bucket_start(bucket, num_columns, num_buckets);
    if positions > 0 {
        lemma_columns_in_bucket(bucket, num_columns, num_buckets, (positions - 1) as nat);
        lemma_bucket_span(positions - 1, bucket, num_columns, num_buckets);
    }
}

/// With no more buckets than columns, no bucket stays empty, and each gets the number of columns
/// divided by the number of buckets, rounded down or up.
pub proof fn buckets_are_balanced(bucket: int, num_columns: int, num_buckets: int)
    requires
        0 < num_buckets <= num_columns,
        0 <= bucket < num_buckets,
    ensures
        0 < num_columns / num_buckets <= columns_in_bucket(bucket, num_columns, num_buckets, num_columns as nat) <= (num_columns
            + num_buckets - 1) / num_buckets <= num_columns / num_buckets + 1,
{
    let low = bucket_start(bucket, num_columns, num_buckets);
    let high = bucket_start(bucket + 1, num_columns, num_buckets);
    lemma_bucket_start(bucket, num_columns, num_buckets);
    lemma_bucket_start(bucket + 1, num_columns, num_buckets);
    assert((bucket + 1) * num_columns == bucket * num_columns + num_columns) by (nonlinear_arith);
    assert(high <= num_columns) by (nonlinear_arith)
        requires
            high * num_buckets < (bucket + 1) * num_columns + num_buckets,
            bucket + 1 <= num_buckets,
            0 < num_buckets <= num_columns,
    ;
    let size = high - low;
    let down = num_columns / num_buckets;
    let up = (num_columns + num_buckets - 1) / num_buckets;
    vstd::arithmetic::div_mod::lemma_fundamental_div_mod(num_columns, num_buckets);
    vstd::arithmetic::div_mod::lemma_fundamental_div_mod(num_columns + num_buckets - 1, num_buckets);
    assert(0 < down <= size && size <= up <= down + 1) by (nonlinear_arith)
        requires
            num_columns == num_buckets * down + num_columns % num_buckets,
            0 <= num_columns % num_buckets < num_buckets,
            num_columns + num_buckets - 1 == num_buckets * up + (num_columns + num_buckets - 1) % num_buckets,
            0 <= (num_columns + num_buckets - 1) % num_buckets < num_buckets,
            0 < num_buckets <= num_columns,
            size == high - low,
            high * num_buckets - low * num_buckets < num_columns + num_buckets,
            high * num_buckets - low * num_buckets > num_columns - num_buckets,
    ;
    lemma_columns_in_bucket(bucket, num_columns, num_buckets, num_columns as nat);
}

/// With no more buckets than columns, the sizes of any two buckets differ by at most one.
pub proof fn bucket_sizes_differ_by_at_most_one(first: int, second: int, num_columns: int, num_buckets: int)
    requires
        0 < num_buckets <= num_columns,
        0 <= first < num_buckets,
        0 <= second < num_buckets,
    ensures
        columns_in_bucket(first, num_columns, num_buckets, num_columns as nat) <= columns_in_bucket(
            second,
            num_columns,
            num_buckets,
            num_columns as nat,
        ) + 1,
{
    buckets_are_balanced(first, num_columns, num_buckets);
    buckets_are_balanced(second, num_columns, num_buckets);
}

/// With as many buckets as columns, each column gets the bucket of its own position.
pub proof fn one_bucket_for_each_column(sorted_position: int, num_columns: int)
    requires
        0 <= sorted_position < num_columns,
    ensures
        (sorted_position * num_columns) / num_columns == sorted_position,
{
    vstd::arithmetic::div_mod::lemma_div_by_multiple(sorted_position, num_columns);
}

} // verus!
