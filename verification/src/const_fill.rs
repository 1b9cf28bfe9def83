//! Rows that are null, and buffers filled with one value for the rows that are not.
use vstd::prelude::*;
use crate::bits::{bytes_for, get_bit, set_bit, stream_bit};
use crate::dictionary::lemma_zero_bytes;

verus! {

// ---------------------------------------------------------------- null bitmaps

/// Which rows are null; a set bit in the bitmap tells so.
pub open spec fn null_rows(has_nulls: bool, bitmap: Seq<u8>, num_rows: nat) -> Seq<bool> {
    Seq::new(num_rows, |r: int| has_nulls && stream_bit(bitmap, r))
}

/// How many rows are not null.
pub open spec fn count_valid(nulls: Seq<bool>) -> nat
    decreases nulls.len(),
{
    if nulls.len() == 0 {
        0
    } else {
        count_valid(nulls.drop_last()) + (if nulls.last() {
            0nat
        } else {
            1nat
        })
    }
}

/// How many rows before row `r` are not null.
pub open spec fn rank_of(nulls: Seq<bool>, r: int) -> int {
    count_valid(nulls.take(r)) as int
}

pub proof fn lemma_rank_step(nulls: Seq<bool>, r: int)
    requires
        0 <= r < nulls.len(),
    ensures
        rank_of(nulls, r + 1) == rank_of(nulls, r) + (if nulls[r] {
            0int
        } else {
            1int
        }),
{
    assert(nulls.take(r + 1).drop_last() =~= nulls.take(r));
}

pub proof fn lemma_rank_bound(nulls: Seq<bool>, r: int)
    requires
        0 <= r <= nulls.len(),
    ensures
        0 <= rank_of(nulls, r) <= r,
        rank_of(nulls, r) <= count_valid(nulls),
        rank_of(nulls, nulls.len() as int) == count_valid(nulls),
        r < nulls.len() && !nulls[r] ==> rank_of(nulls, r) < count_valid(nulls),
    decreases nulls.len(),
{
    assert(nulls.take(nulls.len() as int) =~= nulls);
    if nulls.len() > 0 {
        if r < nulls.len() {
            assert(nulls.drop_last().take(r) =~= nulls.take(r));
            lemma_rank_bound(nulls.drop_last(), r);
        } else {
            lemma_rank_bound(nulls.drop_last(), r - 1);
            lemma_rank_step(nulls, r - 1);
            assert(nulls.drop_last().take(r - 1) =~= nulls.take(r - 1));
        }
    }
}

/// How many of the rows are not null.
pub fn count_non_null(null_bitmap: &[u8], num_rows: usize) -> (count: usize)
    requires
        num_rows <= 8 * null_bitmap.len(),
    ensures
        count == count_valid(null_rows(true, null_bitmap@, num_rows as nat)),
        count <= num_rows,
{
    let ghost nulls = null_rows(true, null_bitmap@, num_rows as nat);
    let mut count: usize = 0;
    let mut r: usize = 0;
    while r < num_rows
        invariant
            r <= num_rows,
            num_rows <= 8 * null_bitmap.len(),
            nulls == null_rows(true, null_bitmap@, num_rows as nat),
            count == rank_of(nulls, r as int),
            count <= r,
        decreases num_rows - r,
    {
        proof {
            lemma_rank_step(nulls, r as int);
        }
        if !get_bit(null_bitmap, r) {
            count += 1;
        }
        r += 1;
    }
    proof {
        lemma_rank_bound(nulls, num_rows as int);
    }
    count
}

/// Some row of a range is not null.
pub open spec fn some_valid(bitmap: Seq<u8>, start: int, end: int) -> bool {
    exists|r: int| start <= r < end && !#[trigger] stream_bit(bitmap, r)
}

pub fn row_range_has_non_null(null_bitmap: &[u8], start_row: usize, end_row: usize) -> (found: bool)
    requires
        end_row <= 8 * null_bitmap.len(),
    ensures
        found == some_valid(null_bitmap@, start_row as int, end_row as int),
{
    let mut r: usize = start_row;
    while r < end_row
        invariant
            start_row <= r,
            start_row <= end_row ==> r <= end_row,
            end_row <= 8 * null_bitmap.len(),
            forall|q: int| start_row <= q < r ==> #[trigger] stream_bit(null_bitmap@, q),
        decreases end_row - r,
    {
        if r % 8 == 0 && end_row - r >= 8 && null_bitmap[r / 8] == 255 {
            proof {
                assert forall|q: int| start_row <= q < r + 8 implies #[trigger] stream_bit(null_bitmap@, q) by {
                    if q >= r {
                        let k: u8 = (q - r) as u8;
                        assert(q / 8 == r / 8 && q % 8 == k) by (nonlinear_arith)
                            requires
                                r % 8 == 0,
                                r <= q < r + 8,
                                k == q - r,
                        ;
                        crate::bits::lemma_u8_bit(255u8, k);
                        assert((255u8 >> k) & 1 == 1) by (bit_vector)
                            requires
                                k < 8,
                        ;
                    }
                }
            }
            r += 8;
        } else {
            if !get_bit(null_bitmap, r) {
                return true;
            }
            r += 1;
        }
    }
    false
}

// ---------------------------------------------------------------- filling

/// A constant is written to every row once at least one row in this many has it.
pub const CONST_FILL_ALL_MIN_NON_NULL_DENOMINATOR: usize = 8;

/// How a buffer is filled with a constant.
#[derive(Clone, Copy, Debug, PartialEq, Eq, Structural)]
pub enum ConstFillStrategy {
    All,
    NonNullOnly,
    BulkFillIfAllPagesTouched,
}

/// How the rows of a buffer are laid out.
#[derive(Clone, Copy, Debug, PartialEq, Eq, Structural)]
pub enum ConstOutputLayout {
    FixedWidth { bytes_per_row: usize },
    BitPackedBoolean,
}

/// Where a buffer stands in memory that is divided into pages.
#[derive(Clone, Copy, Debug, PartialEq, Eq, Structural)]
pub struct OutputPages {
    pub address: usize,
    pub page_size: usize,
}

pub open spec fn min_of(a: int, b: int) -> int {
    if a < b {
        a
    } else {
        b
    }
}

pub open spec fn max_of(a: int, b: int) -> int {
    if a < b {
        b
    } else {
        a
    }
}

/// `a / b`, rounded up.
pub open spec fn ceil_div(a: int, b: int) -> int {
    (a + b - 1) / b
}

impl ConstOutputLayout {
    /// The first row that the bytes from `start` up to `end` hold a part of.
    pub open spec fn first_row(self, start: int, num_rows: int) -> int {
        match self {
            ConstOutputLayout::FixedWidth { bytes_per_row } => start / (bytes_per_row as int),
            ConstOutputLayout::BitPackedBoolean => min_of(8 * start, num_rows),
        }
    }

    /// The row behind the last one that the bytes up to `end` hold a part of.
    pub open spec fn end_row(self, end: int, num_rows: int) -> int {
        match self {
            ConstOutputLayout::FixedWidth { bytes_per_row } => min_of(ceil_div(end, bytes_per_row as int), num_rows),
            ConstOutputLayout::BitPackedBoolean => min_of(8 * end, num_rows),
        }
    }

    pub open spec fn wf(self) -> bool {
        self matches ConstOutputLayout::FixedWidth { bytes_per_row } ==> bytes_per_row > 0
    }

    /// The rows that the bytes from `start_byte` up to `end_byte` hold a part of.
    pub fn row_range_for_bytes(self, start_byte: usize, end_byte: usize, num_rows: usize) -> (range: (usize, usize))
        requires
            self.wf(),
            start_byte < end_byte,
        ensures
            range.0 == self.first_row(start_byte as int, num_rows as int),
            range.1 == self.end_row(end_byte as int, num_rows as int),
    {
        match self {
            ConstOutputLayout::FixedWidth { bytes_per_row } => {
                let whole: usize = end_byte / bytes_per_row;
                let rest: usize = end_byte % bytes_per_row;
                proof {
                    let (a, b) = (end_byte as int, bytes_per_row as int);
                    vstd::arithmetic::div_mod::lemma_fundamental_div_mod(a, b);
                    if rest == 0 {
                        vstd::arithmetic::div_mod::lemma_fundamental_div_mod_converse(
                            a + b - 1,
                            b,
                            whole as int,
                            b - 1,
                        );
                    } else {
                        assert(b * (whole + 1) == b * whole + b) by (nonlinear_arith);
                        vstd::arithmetic::div_mod::lemma_fundamental_div_mod_converse(
                            a + b - 1,
                            b,
                            whole + 1,
                            rest - 1,
                        );
                    }
                    assert(whole <= a) by (nonlinear_arith)
                        requires
                            a == b * whole + rest,
                            b > 0,
                            rest >= 0,
                            whole >= 0,
                    ;
                    if rest != 0 {
                        assert(whole < a) by (nonlinear_arith)
                            requires
                                a == b * whole + rest,
                                b > 0,
                                rest > 0,
                                whole >= 0,
                        ;
                    }
                }
                let end_row: usize = if rest == 0 {
                    whole
                } else {
                    whole + 1
                };
                (
                    start_byte / bytes_per_row,
                    if end_row < num_rows {
                        end_row
                    } else {
                        num_rows
                    },
                )
            },
            ConstOutputLayout::BitPackedBoolean => (first_bit(start_byte, num_rows), first_bit(end_byte, num_rows)),
        }
    }
}

/// The first bit of byte `b`, as far as there are bits.
fn first_bit(b: usize, num_bits: usize) -> (bit: usize)
    ensures
        bit == min_of(8 * b, num_bits as int),
{
    if b > num_bits / 8 {
        num_bits
    } else if b * 8 < num_bits {
        b * 8
    } else {
        num_bits
    }
}

/// The rows of which page `p` holds a part have one that is not null.
pub open spec fn page_touched(bitmap: Seq<u8>, num_rows: int, address: int, len: int, page_size: int, layout: ConstOutputLayout, p: int) -> bool {
    some_valid(
        bitmap,
        layout.first_row(max_of(p * page_size, address) - address, num_rows),
        layout.end_row(min_of((p + 1) * page_size, address + len) - address, num_rows),
    )
}

/// Each page that a buffer of `len` bytes at `address` has a part in holds a part of a row that is
/// not null. Says no of an empty buffer, and of one up to the end of memory.
pub open spec fn pages_touched(bitmap: Seq<u8>, num_rows: int, address: int, len: int, page_size: int, layout: ConstOutputLayout) -> bool {
    &&& len > 0
    &&& page_size > 0
    &&& address + len <= usize::MAX
    &&& page_size * ceil_div(address + len, page_size) <= usize::MAX
    &&& forall|p: int|
        address / page_size <= p < ceil_div(address + len, page_size) ==> #[trigger] page_touched(
            bitmap,
            num_rows,
            address,
            len,
            page_size,
            layout,
            p,
        )
}

proof fn lemma_ceil_above(end: int, size: int, p: int)
    requires
        size > 0,
        p >= 0,
    ensures
        p * size >= end ==> ceil_div(end, size) <= p,
        p * size < end ==> ceil_div(end, size) > p,
{
    let c = ceil_div(end, size);
    vstd::arithmetic::div_mod::lemma_fundamental_div_mod(end + size - 1, size);
    let r = (end + size - 1) % size;
    assert(end + size - 1 == size * c + r && 0 <= r < size);
    if p * size >= end {
        assert(c <= p) by (nonlinear_arith)
            requires
                end + size - 1 == size * c + r,
                0 <= r < size,
                p * size >= end,
                size > 0,
        ;
    } else {
        assert(c > p) by (nonlinear_arith)
            requires
                end + size - 1 == size * c + r,
                0 <= r < size,
                p * size < end,
                size > 0,
        ;
    }
}

pub fn all_output_pages_touched(
    null_bitmap: &[u8],
    num_rows: usize,
    output_addr: usize,
    output_len_bytes: usize,
    page_size: usize,
    layout: ConstOutputLayout,
) -> (touched: bool)
    requires
        num_rows <= 8 * null_bitmap.len(),
        layout.wf(),
    ensures
        touched == pages_touched(
            null_bitmap@,
            num_rows as int,
            output_addr as int,
            output_len_bytes as int,
            page_size as int,
            layout,
        ),
{
    if output_len_bytes == 0 || page_size == 0 {
        return false;
    }
    let output_end: usize = match output_addr.checked_add(output_len_bytes) {
        Some(end) => end,
        None => {
            return false;
        },
    };
    let ghost first = output_addr as int / page_size as int;
    let ghost mut p: int = first;
    proof {
        vstd::arithmetic::div_mod::lemma_fundamental_div_mod(output_addr as int, page_size as int);
        vstd::arithmetic::div_mod::lemma_mod_pos_bound(output_addr as int, page_size as int);
        vstd::arithmetic::div_mod::lemma_div_pos_is_pos(output_addr as int, page_size as int);
        assert(page_size * first == first * page_size) by (nonlinear_arith);
        assert((first + 1) * page_size == first * page_size + page_size) by (nonlinear_arith);
        assert(first * page_size >= 0) by (nonlinear_arith)
            requires
                first >= 0,
                page_size > 0,
        ;
    }
    let mut page_start: usize = output_addr - output_addr % page_size;
    loop
        invariant
            output_len_bytes > 0,
            page_size > 0,
            num_rows <= 8 * null_bitmap.len(),
            layout.wf(),
            output_end == output_addr + output_len_bytes,
            first == output_addr as int / page_size as int,
            0 <= first <= p,
            page_start == p * page_size,
            first * page_size <= output_addr < (first + 1) * page_size,
            page_start < output_end,
            page_start <= output_addr || p > first,
            forall|k: int|
                first <= k < p ==> #[trigger] page_touched(
                    null_bitmap@,
                    num_rows as int,
                    output_addr as int,
                    output_len_bytes as int,
                    page_size as int,
                    layout,
                    k,
                ),
        decreases output_end - page_start,
    {
        proof {
            lemma_ceil_above(output_end as int, page_size as int, p);
            assert((p + 1) * page_size == p * page_size + page_size) by (nonlinear_arith);
            let c = ceil_div(output_end as int, page_size as int);
            assert(page_size * c >= (p + 1) * page_size) by (nonlinear_arith)
                requires
                    c >= p + 1,
                    page_size > 0,
            ;
        }
        let next_page: usize = match page_start.checked_add(page_size) {
            Some(next) => next,
            None => {
                return false;
            },
        };
        proof {
            if p > first {
                assert(p * page_size >= (first + 1) * page_size) by (nonlinear_arith)
                    requires
                        p >= first + 1,
                        page_size > 0,
                ;
            }
        }
        let start_byte: usize = if page_start > output_addr {
            page_start - output_addr
        } else {
            0
        };
        let end_byte: usize = if next_page < output_end {
            next_page - output_addr
        } else {
            output_end - output_addr
        };
        let (start_row, end_row) = layout.row_range_for_bytes(start_byte, end_byte, num_rows);
        assert(start_byte == max_of(p * page_size, output_addr as int) - output_addr);
        assert(end_byte == min_of((p + 1) * page_size, output_addr + output_len_bytes) - output_addr);
        if !row_range_has_non_null(null_bitmap, start_row, end_row) {
            assert(!page_touched(
                null_bitmap@,
                num_rows as int,
                output_addr as int,
                output_len_bytes as int,
                page_size as int,
                layout,
                p,
            ));
            return false;
        }
        assert(page_touched(
            null_bitmap@,
            num_rows as int,
            output_addr as int,
            output_len_bytes as int,
            page_size as int,
            layout,
            p,
        ));
        if next_page >= output_end {
            proof {
                lemma_ceil_above(output_end as int, page_size as int, p + 1);
                let c = ceil_div(output_end as int, page_size as int);
                assert(c == p + 1);
                assert(page_size * c == (p + 1) * page_size) by (nonlinear_arith)
                    requires
                        c == p + 1,
                ;
            }
            return true;
        }
        page_start = next_page;
        proof {
            p = p + 1;
        }
    }
}

pub open spec fn fill_strategy(has_nulls: bool, non_null_count: int, num_rows: int) -> ConstFillStrategy {
    if !has_nulls || non_null_count == num_rows {
        ConstFillStrategy::All
    } else if non_null_count < ceil_div(num_rows, CONST_FILL_ALL_MIN_NON_NULL_DENOMINATOR as int) {
        ConstFillStrategy::NonNullOnly
    } else {
        ConstFillStrategy::BulkFillIfAllPagesTouched
    }
}

pub fn const_fill_strategy(has_nulls: bool, non_null_count: usize, num_rows: usize) -> (strategy: ConstFillStrategy)
    ensures
        strategy == fill_strategy(has_nulls, non_null_count as int, num_rows as int),
{
    let cutoff: usize = if num_rows % 8 == 0 {
        num_rows / 8
    } else {
        num_rows / 8 + 1
    };
    if !has_nulls || non_null_count == num_rows {
        ConstFillStrategy::All
    } else if non_null_count < cutoff {
        ConstFillStrategy::NonNullOnly
    } else {
        ConstFillStrategy::BulkFillIfAllPagesTouched
    }
}

/// Every row is filled, null or not.
pub open spec fn fills_all(strategy: ConstFillStrategy, bitmap: Seq<u8>, num_rows: int, pages: Option<OutputPages>, len: int, layout: ConstOutputLayout) -> bool {
    match strategy {
        ConstFillStrategy::All => true,
        ConstFillStrategy::NonNullOnly => false,
        ConstFillStrategy::BulkFillIfAllPagesTouched => match pages {
            Some(p) => pages_touched(bitmap, num_rows, p.address as int, len, p.page_size as int, layout),
            None => false,
        },
    }
}

/// What buffers of numbers are made of.
pub trait ConstMaterializeValue: Copy {
    spec fn zero() -> Self;

    spec fn width() -> int;

    fn default_value() -> (value: Self)
        ensures
            value == Self::zero(),
    ;

    fn byte_width() -> (width: usize)
        ensures
            width == Self::width(),
            0 < width <= 8,
    ;

    /// All bits are zero.
    fn has_default_bit_pattern(self) -> (zero: bool)
        ensures
            zero == (self == Self::zero()),
    ;
}

impl ConstMaterializeValue for i8 {
    open spec fn zero() -> Self {
        0
    }

    open spec fn width() -> int {
        1
    }

    fn default_value() -> (value: Self) {
        0
    }

    fn byte_width() -> (width: usize) {
        1
    }

    fn has_default_bit_pattern(self) -> (zero: bool) {
        self == 0
    }
}

impl ConstMaterializeValue for i16 {
    open spec fn zero() -> Self {
        0
    }

    open spec fn width() -> int {
        2
    }

    fn default_value() -> (value: Self) {
        0
    }

    fn byte_width() -> (width: usize) {
        2
    }

    fn has_default_bit_pattern(self) -> (zero: bool) {
        self == 0
    }
}

impl ConstMaterializeValue for i32 {
    open spec fn zero() -> Self {
        0
    }

    open spec fn width() -> int {
        4
    }

    fn default_value() -> (value: Self) {
        0
    }

    fn byte_width() -> (width: usize) {
        4
    }

    fn has_default_bit_pattern(self) -> (zero: bool) {
        self == 0
    }
}

impl ConstMaterializeValue for i64 {
    open spec fn zero() -> Self {
        0
    }

    open spec fn width() -> int {
        8
    }

    fn default_value() -> (value: Self) {
        0
    }

    fn byte_width() -> (width: usize) {
        8
    }

    fn has_default_bit_pattern(self) -> (zero: bool) {
        self == 0
    }
}

impl ConstMaterializeValue for u32 {
    open spec fn zero() -> Self {
        0
    }

    open spec fn width() -> int {
        4
    }

    fn default_value() -> (value: Self) {
        0
    }

    fn byte_width() -> (width: usize) {
        4
    }

    fn has_default_bit_pattern(self) -> (zero: bool) {
        self == 0
    }
}

impl ConstMaterializeValue for u64 {
    open spec fn zero() -> Self {
        0
    }

    open spec fn width() -> int {
        8
    }

    fn default_value() -> (value: Self) {
        0
    }

    fn byte_width() -> (width: usize) {
        8
    }

    fn has_default_bit_pattern(self) -> (zero: bool) {
        self == 0
    }
}

/// A buffer with `value` in the rows that are not null. The other rows hold zero, unless it is
/// cheaper to fill them too.
pub fn materialize_fixed_const<T: ConstMaterializeValue>(
    value: T,
    num_rows: usize,
    strategy: ConstFillStrategy,
    null_bitmap: &[u8],
    pages: Option<OutputPages>,
) -> (out: Vec<T>)
    requires
        !(strategy is All) ==> num_rows <= 8 * null_bitmap.len(),
        num_rows * 8 <= usize::MAX,
    ensures
        out@.len() == num_rows,
        forall|r: int|
            0 <= r < num_rows ==> #[trigger] out@[r] == (if fills_all(
                strategy,
                null_bitmap@,
                num_rows as int,
                pages,
                num_rows * T::width(),
                (ConstOutputLayout::FixedWidth { bytes_per_row: T::width() as usize }),
            ) || !stream_bit(null_bitmap@, r) {
                value
            } else {
                T::zero()
            }),
{
    let mut fill: bool = match strategy {
        ConstFillStrategy::All => true,
        _ => false,
    };
    if let ConstFillStrategy::BulkFillIfAllPagesTouched = strategy {
        if let Some(placement) = pages {
            let width: usize = T::byte_width();
            proof {
                vstd::arithmetic::mul::lemma_mul_inequality(width as int, 8, num_rows as int);
                vstd::arithmetic::mul::lemma_mul_is_commutative(width as int, num_rows as int);
                vstd::arithmetic::mul::lemma_mul_nonnegative(width as int, num_rows as int);
            }
            fill = all_output_pages_touched(
                null_bitmap,
                num_rows,
                placement.address,
                num_rows * width,
                placement.page_size,
                ConstOutputLayout::FixedWidth { bytes_per_row: width },
            );
        }
    }
    let zero: T = T::default_value();
    let skip: bool = !fill && value.has_default_bit_pattern();
    let mut out: Vec<T> = Vec::new();
    let mut r: usize = 0;
    while r < num_rows
        invariant
            r <= num_rows,
            !fill ==> num_rows <= 8 * null_bitmap.len(),
            zero == T::zero(),
            skip ==> value == T::zero(),
            out@.len() == r,
            forall|k: int|
                0 <= k < r ==> #[trigger] out@[k] == (if fill || !stream_bit(null_bitmap@, k) {
                    value
                } else {
                    T::zero()
                }),
        decreases num_rows - r,
    {
        if fill {
            out.push(value);
        } else if skip {
            out.push(zero);
        } else if get_bit(null_bitmap, r) {
            out.push(zero);
        } else {
            out.push(value);
        }
        r += 1;
    }
    out
}

/// Bits with `value` in the rows that are not null; the other rows hold zero, unless it is cheaper
/// to fill them too.
pub fn materialize_boolean_const(
    value: bool,
    num_rows: usize,
    strategy: ConstFillStrategy,
    null_bitmap: &[u8],
    pages: Option<OutputPages>,
) -> (out: Vec<u8>)
    requires
        !(strategy is All) ==> num_rows <= 8 * null_bitmap.len(),
    ensures
        out@.len() == bytes_for(num_rows as int),
        forall|r: int|
            0 <= r < 8 * out@.len() ==> #[trigger] stream_bit(out@, r) == (r < num_rows && value && (fills_all(
                strategy,
                null_bitmap@,
                num_rows as int,
                pages,
                bytes_for(num_rows as int),
                ConstOutputLayout::BitPackedBoolean,
            ) || !stream_bit(null_bitmap@, r))),
{
    let len: usize = crate::bits::byte_count(num_rows);
    let mut out: Vec<u8> = vec![0u8; len];
    proof {
        lemma_zero_bytes(out@);
    }
    if !value {
        return out;
    }
    let mut fill: bool = match strategy {
        ConstFillStrategy::All => true,
        _ => false,
    };
    if let ConstFillStrategy::BulkFillIfAllPagesTouched = strategy {
        if let Some(placement) = pages {
            fill = all_output_pages_touched(
                null_bitmap,
                num_rows,
                placement.address,
                len,
                placement.page_size,
                ConstOutputLayout::BitPackedBoolean,
            );
        }
    }
    let mut r: usize = 0;
    while r < num_rows
        invariant
            r <= num_rows,
            !fill ==> num_rows <= 8 * null_bitmap.len(),
            out@.len() == bytes_for(num_rows as int),
            forall|k: int|
                0 <= k < 8 * out@.len() ==> #[trigger] stream_bit(out@, k) == (k < r && (fill || !stream_bit(null_bitmap@, k))),
        decreases num_rows - r,
    {
        if fill || !get_bit(null_bitmap, r) {
            set_bit(&mut out, r);
        }
        r += 1;
    }
    out
}

// ---------------------------------------------------------------- what is filled

/// Row `r` has a part in the bytes from `start` up to `end`.
pub open spec fn row_overlaps(layout: ConstOutputLayout, r: int, start: int, end: int) -> bool {
    match layout {
        ConstOutputLayout::FixedWidth { bytes_per_row } => r * bytes_per_row < end && start < (r + 1) * bytes_per_row,
        ConstOutputLayout::BitPackedBoolean => start <= r / 8 < end,
    }
}

proof fn lemma_ceil(a: int, b: int, r: int)
    by (nonlinear_arith)
    requires
        b > 0,
    ensures
        r < ceil_div(a, b) <==> r * b < a,
        a / b <= r <==> a < (r + 1) * b,
{
    assert(a == b * (a / b) + a % b);
    let c = a + b - 1;
    assert(c == b * (c / b) + c % b);
    if r < c / b {
        assert(b * (r + 1) <= b * (c / b));
    } else {
        assert(b * r >= b * (c / b));
    }
    if a / b <= r {
        assert(b * (a / b) <= b * r);
    } else {
        assert(b * (r + 1) <= b * (a / b));
    }
}

/// The rows that some bytes hold a part of are those from the first up to the last.
pub proof fn rows_of_bytes_are_those_that_overlap(layout: ConstOutputLayout, start: int, end: int, num_rows: int, r: int)
    requires
        layout.wf(),
        0 <= start < end,
        0 <= r < num_rows,
    ensures
        layout.first_row(start, num_rows) <= r < layout.end_row(end, num_rows) <==> row_overlaps(layout, r, start, end),
{
    match layout {
        ConstOutputLayout::FixedWidth { bytes_per_row } => {
            lemma_ceil(start, bytes_per_row as int, r);
            lemma_ceil(end, bytes_per_row as int, r);
        },
        ConstOutputLayout::BitPackedBoolean => {},
    }
}

/// Without null rows the constant is written to all rows; where less than a fixed part of the rows are
/// not null it is written to these alone.
pub proof fn sparse_rows_are_filled_alone(has_nulls: bool, non_null_count: int, num_rows: int)
    requires
        0 <= non_null_count <= num_rows,
    ensures
        fill_strategy(has_nulls, non_null_count, num_rows) is All <==> !has_nulls || non_null_count == num_rows,
        fill_strategy(has_nulls, non_null_count, num_rows) is NonNullOnly <==> has_nulls && non_null_count != num_rows
            && non_null_count * CONST_FILL_ALL_MIN_NON_NULL_DENOMINATOR < num_rows,
{
    lemma_ceil(num_rows, CONST_FILL_ALL_MIN_NON_NULL_DENOMINATOR as int, non_null_count);
}

} // verus!
