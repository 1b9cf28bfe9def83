//! The text of columns that repeat one value.
use vstd::prelude::*;
use vstd::slice::slice_subrange;
use crate::bits::{byte_count, bytes_for, get_bit, lemma_u8_bit, nat_bit, stream_bit};
use crate::error::Error;
use crate::json_text::{appends, escaped, is_oversized_escaped_utf8, write_escaped_utf8, write_escaped_utf8_chunked,
    REPEATED_VALUE_BUFFER_BYTES};
use crate::output::{writes_within, OutputFile};

verus! {

/// There is a block for each set of nulls among eight rows.
pub const NULLABLE_CONST_PATTERN_COUNT: usize = 256;

/// No more than this is kept of blocks.
pub const NULLABLE_CONST_CACHE_BYTES: usize = 65_536;

// ---------------------------------------------------------------- model

/// What stands in row `row`: a comma if there is a row before, and the text unless it is null.
pub open spec fn row_text(text: Seq<u8>, null: bool, first: bool) -> Seq<u8> {
    (if first {
        Seq::empty()
    } else {
        seq![44u8]
    }) + (if null {
        Seq::empty()
    } else {
        text
    })
}

/// The first `n` rows of a column that holds the same text wherever it is not null.
pub open spec fn rows_text(text: Seq<u8>, nulls: Seq<bool>, n: nat) -> Seq<u8>
    decreases n,
{
    if n == 0 {
        Seq::empty()
    } else {
        rows_text(text, nulls, (n - 1) as nat) + row_text(text, nulls[n - 1], n == 1)
    }
}

/// The rows that a bitmap marks as null; none without one.
pub open spec fn bitmap_nulls(bitmap: Option<Seq<u8>>, rows: nat) -> Seq<bool> {
    Seq::new(rows, |r: int| bitmap matches Some(bits) && stream_bit(bits, r))
}

pub open spec fn no_nulls(rows: nat) -> Seq<bool> {
    Seq::new(rows, |r: int| false)
}

/// The text several times.
pub open spec fn times(text: Seq<u8>, n: nat) -> Seq<u8>
    decreases n,
{
    if n == 0 {
        Seq::empty()
    } else {
        times(text, (n - 1) as nat) + text
    }
}

/// The rows of one byte of a bitmap of the rows that are not null.
pub open spec fn block_text(value: Seq<u8>, validity: u8, n: nat, first_block: bool) -> Seq<u8>
    decreases n,
{
    if n == 0 {
        Seq::empty()
    } else {
        block_text(value, validity, (n - 1) as nat, first_block) + row_text(
            value,
            !nat_bit(validity as nat, (n - 1) as nat),
            first_block && n == 1,
        )
    }
}

// ---------------------------------------------------------------- commas and parts

/// Commas.
pub open spec fn commas(n: nat) -> Seq<u8> {
    Seq::new(n, |i: int| 44u8)
}

/// The text of a column without values.
pub open spec fn empty_rows(rows: nat) -> Seq<u8> {
    commas(
        if rows == 0 {
            0
        } else {
            (rows - 1) as nat
        },
    )
}

/// Writes a column without values.
pub fn write_empty_array<W: OutputFile>(output: &mut W, row_count: usize) -> (result: Result<(), Error>)
    ensures
        appends(*old(output), *final(output), result, empty_rows(row_count as nat)),
        writes_within(*old(output), *final(output), REPEATED_VALUE_BUFFER_BYTES as nat),
{
    let total: usize = if row_count == 0 {
        0
    } else {
        row_count - 1
    };
    let block: Vec<u8> = vec![44u8; 64];
    let ghost start = output.written();
    let mut done: usize = 0;
    assert(output.written() =~= start + commas(0));
    while done < total
        invariant
            output.never_fails() == old(output).never_fails(),
            writes_within(*old(output), *output, REPEATED_VALUE_BUFFER_BYTES as nat),
            done <= total,
            block@.len() == 64,
            forall|i: int| 0 <= i < 64 ==> #[trigger] block@[i] == 44,
            start == old(output).written(),
            output.written() == start + commas(done as nat),
        decreases total - done,
    {
        let part: usize = if total - done > 64 {
            64
        } else {
            total - done
        };
        match output.write(slice_subrange(block.as_slice(), 0, part)) {
            Ok(_) => {},
            Err(e) => {
                return Err(e);
            },
        }
        assert(output.written() =~= start + commas((done + part) as nat));
        done += part;
    }
    Ok(())
}

/// Writes bytes, a part of bounded size at a time.
pub fn write_bytes_chunked<W: OutputFile>(output: &mut W, value: &[u8]) -> (result: Result<(), Error>)
    ensures
        appends(*old(output), *final(output), result, value@),
        writes_within(*old(output), *final(output), REPEATED_VALUE_BUFFER_BYTES as nat),
{
    let ghost start = output.written();
    let mut at: usize = 0;
    assert(output.written() =~= start + value@.take(0));
    while at < value.len()
        invariant
            output.never_fails() == old(output).never_fails(),
            writes_within(*old(output), *output, REPEATED_VALUE_BUFFER_BYTES as nat),
            at <= value@.len(),
            start == old(output).written(),
            output.written() == start + value@.take(at as int),
        decreases value@.len() - at,
    {
        let end: usize = if value.len() - at > REPEATED_VALUE_BUFFER_BYTES {
            at + REPEATED_VALUE_BUFFER_BYTES
        } else {
            value.len()
        };
        match output.write(slice_subrange(value, at, end)) {
            Ok(_) => {},
            Err(e) => {
                return Err(e);
            },
        }
        assert(output.written() =~= start + value@.take(end as int));
        at = end;
    }
    assert(value@.take(at as int) =~= value@);
    Ok(())
}

// ---------------------------------------------------------------- repeated values

proof fn lemma_times_add(text: Seq<u8>, a: nat, b: nat)
    ensures
        times(text, a + b) == times(text, a) + times(text, b),
        times(text, a).len() == a * text.len(),
    decreases b, a,
{
    if b == 0 {
        assert(times(text, a) + times(text, 0) =~= times(text, a));
        if a > 0 {
            lemma_times_add(text, (a - 1) as nat, 0);
            assert(a * text.len() == (a - 1) * text.len() + text.len()) by (nonlinear_arith)
                requires
                    a > 0,
            ;
        } else {
            assert(0 * text.len() == 0);
        }
    } else {
        lemma_times_add(text, a, (b - 1) as nat);
        assert(times(text, a + b) =~= times(text, a) + times(text, b));
    }
}

/// Rows that are not null repeat the text behind a comma.
proof fn lemma_repeated(text: Seq<u8>, n: nat, total: nat)
    requires
        1 <= n <= total,
    ensures
        rows_text(text, no_nulls(total), n) == text + times(seq![44u8] + text, (n - 1) as nat),
    decreases n,
{
    let pattern = seq![44u8] + text;
    if n == 1 {
        assert(rows_text(text, no_nulls(total), 0) =~= Seq::empty());
        assert(rows_text(text, no_nulls(total), 1) =~= text + times(pattern, 0));
    } else {
        lemma_repeated(text, (n - 1) as nat, total);
        assert(rows_text(text, no_nulls(total), n) =~= text + times(pattern, (n - 1) as nat));
    }
}

fn fill_pattern(buffer: &mut Vec<u8>, value: &[u8], repeats: usize)
    requires
        repeats * (value@.len() + 1) <= REPEATED_VALUE_BUFFER_BYTES,
    ensures
        final(buffer)@ == times(seq![44u8] + value@, repeats as nat),
        final(buffer)@.len() <= REPEATED_VALUE_BUFFER_BYTES,
{
    let ghost pattern = seq![44u8] + value@;
    buffer.clear();
    let mut i: usize = 0;
    assert(buffer@ =~= times(pattern, 0));
    while i < repeats
        invariant
            i <= repeats,
            pattern == seq![44u8] + value@,
            buffer@ == times(pattern, i as nat),
        decreases repeats - i,
    {
        let ghost before = buffer@;
        buffer.push(44);
        buffer.extend_from_slice(value);
        assert(buffer@ =~= before + pattern);
        i += 1;
    }
    proof {
        lemma_times_add(pattern, repeats as nat, 0);
    }
}

/// Writes the same value in every row; small values are gathered in the buffer.
pub fn write_repeated_value<W: OutputFile>(output: &mut W, value: &[u8], row_count: usize, repeated_buffer: &mut Vec<u8>) -> (result:
    Result<(), Error>)
    ensures
        appends(*old(output), *final(output), result, rows_text(value@, no_nulls(row_count as nat), row_count as nat)),
        final(repeated_buffer)@.len() <= REPEATED_VALUE_BUFFER_BYTES || final(repeated_buffer)@ == old(repeated_buffer)@,
        writes_within(*old(output), *final(output), REPEATED_VALUE_BUFFER_BYTES as nat),
{
    if row_count == 0 {
        assert(output.written() =~= old(output).written() + rows_text(value@, no_nulls(0), 0));
        return Ok(());
    }
    let ghost start = output.written();
    let ghost pattern = seq![44u8] + value@;
    let ghost nulls = no_nulls(row_count as nat);
    if value.len() >= REPEATED_VALUE_BUFFER_BYTES {
        repeated_buffer.clear();
        match write_bytes_chunked(output, value) {
            Ok(_) => {},
            Err(e) => {
                return Err(e);
            },
        }
        let mut row: usize = 1;
        proof {
            lemma_repeated(value@, 1, row_count as nat);
            assert(value@ + times(pattern, 0) =~= value@);
        }
        let comma: Vec<u8> = vec![44u8; 1];
        assert(comma@ =~= seq![44u8]);
        while row < row_count
            invariant
                output.never_fails() == old(output).never_fails(),
                writes_within(*old(output), *output, REPEATED_VALUE_BUFFER_BYTES as nat),
                1 <= row <= row_count,
                comma@ == seq![44u8],
                nulls == no_nulls(row_count as nat),
                start == old(output).written(),
                output.written() == start + rows_text(value@, nulls, row as nat),
                repeated_buffer@.len() == 0,
            decreases row_count - row,
        {
            let ghost before = output.written();
            match output.write(comma.as_slice()) {
                Ok(_) => {},
                Err(e) => {
                    return Err(e);
                },
            }
            match write_bytes_chunked(output, value) {
                Ok(_) => {},
                Err(e) => {
                    return Err(e);
                },
            }
            assert(output.written() =~= before + row_text(value@, false, false));
            assert(output.written() =~= start + rows_text(value@, nulls, (row + 1) as nat));
            row += 1;
        }
        return Ok(());
    }
    match output.write(value) {
        Ok(_) => {},
        Err(e) => {
            return Err(e);
        },
    }
    let total: usize = row_count - 1;
    proof {
        lemma_repeated(value@, row_count as nat, row_count as nat);
        assert(value@ + times(pattern, 0) =~= value@);
    }
    if total == 0 {
        return Ok(());
    }
    let pattern_size: usize = value.len() + 1;
    let fitting: usize = REPEATED_VALUE_BUFFER_BYTES / pattern_size;
    let repeats: usize = if fitting < total {
        fitting
    } else {
        total
    };
    proof {
        assert(1 <= fitting && fitting * pattern_size <= REPEATED_VALUE_BUFFER_BYTES) by (nonlinear_arith)
            requires
                fitting == 65536usize / pattern_size,
                1 <= pattern_size <= 65536,
                REPEATED_VALUE_BUFFER_BYTES == 65536,
        ;
        assert(repeats * pattern_size <= fitting * pattern_size) by (nonlinear_arith)
            requires
                repeats <= fitting,
                1 <= pattern_size,
        ;
    }
    fill_pattern(repeated_buffer, value, repeats);
    let mut done: usize = 0;
    assert(output.written() =~= start + (value@ + times(pattern, 0)));
    while total - done >= repeats
        invariant
            output.never_fails() == old(output).never_fails(),
            writes_within(*old(output), *output, REPEATED_VALUE_BUFFER_BYTES as nat),
            done <= total,
            1 <= repeats,
            start == old(output).written(),
            repeated_buffer@ == times(pattern, repeats as nat),
            repeated_buffer@.len() <= REPEATED_VALUE_BUFFER_BYTES,
            output.written() == start + (value@ + times(pattern, done as nat)),
        decreases total - done,
    {
        match output.write(repeated_buffer.as_slice()) {
            Ok(_) => {},
            Err(e) => {
                return Err(e);
            },
        }
        proof {
            lemma_times_add(pattern, done as nat, repeats as nat);
        }
        assert(output.written() =~= start + (value@ + times(pattern, (done + repeats) as nat)));
        done += repeats;
    }
    let left: usize = total - done;
    if left > 0 {
        proof {
            lemma_times_add(pattern, left as nat, (repeats - left) as nat);
            lemma_times_add(pattern, done as nat, left as nat);
            lemma_times_add(pattern, repeats as nat, 0);
            assert(left * pattern_size <= repeats * pattern_size) by (nonlinear_arith)
                requires
                    left <= repeats,
                    1 <= pattern_size,
            ;
            assert(pattern.len() == pattern_size);
            assert(repeated_buffer@.take((left * pattern_size) as int) =~= times(pattern, left as nat));
        }
        match output.write(slice_subrange(repeated_buffer.as_slice(), 0, left * pattern_size)) {
            Ok(_) => {},
            Err(e) => {
                return Err(e);
            },
        }
        assert(output.written() =~= start + (value@ + times(pattern, total as nat)));
    }
    Ok(())
}

// ---------------------------------------------------------------- values with nulls between them

pub fn validate_null_bitmap(row_count: usize, null_bitmap: &[u8]) -> (result: Result<(), Error>)
    ensures
        null_bitmap@.len() >= bytes_for(row_count as int) ==> result == Ok::<(), Error>(()),
        null_bitmap@.len() < bytes_for(row_count as int) ==> result == Err::<(), Error>(Error::NullBitmapTruncated),
{
    if null_bitmap.len() < byte_count(row_count) {
        return Err(Error::NullBitmapTruncated);
    }
    Ok(())
}

/// Appends the rows of one byte of a bitmap of the rows that are not null.
pub fn append_nullable_const_block(output: &mut Vec<u8>, value: &[u8], validity: u8, rows: usize, first_block: bool)
    requires
        rows <= 8,
    ensures
        final(output)@ == old(output)@ + block_text(value@, validity, rows as nat, first_block),
{
    let ghost start = output@;
    let mut row: usize = 0;
    assert(output@ =~= start + block_text(value@, validity, 0, first_block));
    while row < rows
        invariant
            row <= rows <= 8,
            output@ == start + block_text(value@, validity, row as nat, first_block),
        decreases rows - row,
    {
        let ghost before = output@;
        let k: u8 = row as u8;
        proof {
            lemma_u8_bit(validity, k);
        }
        if !first_block || row > 0 {
            output.push(44);
        }
        if (validity >> k) & 1 == 1 {
            output.extend_from_slice(value);
        }
        assert(output@ =~= before + row_text(value@, !nat_bit(validity as nat, row as nat), first_block && row == 0));
        assert(output@ =~= start + block_text(value@, validity, (row + 1) as nat, first_block));
        row += 1;
    }
}

proof fn lemma_inverted_bit(b: u8, k: u8)
    requires
        k < 8,
    ensures
        nat_bit((!b) as nat, k as nat) == !nat_bit(b as nat, k as nat),
{
    let c: u8 = !b;
    lemma_u8_bit(b, k);
    lemma_u8_bit(c, k);
    assert(((!b) >> k) & 1 == 1 <==> !((b >> k) & 1 == 1)) by (bit_vector)
        requires
            k < 8,
    ;
}

/// The rows of a byte of the bitmap follow the rows before them.
proof fn lemma_block(value: Seq<u8>, bitmap: Seq<u8>, row: nat, n: nat, total: nat)
    requires
        row % 8 == 0,
        n <= 8,
        row + n <= total,
    ensures
        ({
            let nulls = bitmap_nulls(Some(bitmap), total);
            rows_text(value, nulls, row + n) == rows_text(value, nulls, row) + block_text(
                value,
                !bitmap[row as int / 8],
                n,
                row == 0,
            )
        }),
    decreases n,
{
    let nulls = bitmap_nulls(Some(bitmap), total);
    let validity = !bitmap[row as int / 8];
    if n == 0 {
        assert(rows_text(value, nulls, row) + block_text(value, validity, 0, row == 0) =~= rows_text(value, nulls, row));
    } else {
        lemma_block(value, bitmap, row, (n - 1) as nat, total);
        lemma_inverted_bit(bitmap[row as int / 8], (n - 1) as u8);
        let r = row + n - 1;
        assert(r as int / 8 == row as int / 8 && r as int % 8 == n - 1);
        assert(nulls[r as int] == !nat_bit(validity as nat, (n - 1) as nat));
        assert(rows_text(value, nulls, row + n) =~= rows_text(value, nulls, row) + block_text(value, validity, n, row == 0));
    }
}

/// The text of a bitmap's column.
pub open spec fn nullable_text(value: Seq<u8>, bitmap: Seq<u8>, rows: nat) -> Seq<u8> {
    rows_text(value, bitmap_nulls(Some(bitmap), rows), rows)
}

/// Writes rows with nulls between them, gathered in the scratch buffer as far as they fit.
pub fn write_nullable_rows_bounded<W: OutputFile>(
    output: &mut W,
    value: &[u8],
    row_count: usize,
    null_bitmap: &[u8],
    scratch: &mut Vec<u8>,
) -> (result: Result<(), Error>)
    requires
        null_bitmap@.len() >= bytes_for(row_count as int),
    ensures
        appends(*old(output), *final(output), result, nullable_text(value@, null_bitmap@, row_count as nat)),
        final(scratch)@.len() <= REPEATED_VALUE_BUFFER_BYTES,
        writes_within(*old(output), *final(output), REPEATED_VALUE_BUFFER_BYTES as nat),
{
    let ghost start = output.written();
    let ghost nulls = bitmap_nulls(Some(null_bitmap@), row_count as nat);
    let comma: Vec<u8> = vec![44u8; 1];
    assert(comma@ =~= seq![44u8]);
    scratch.clear();
    let mut row: usize = 0;
    assert(output.written() + scratch@ =~= start + rows_text(value@, nulls, 0));
    while row < row_count
        invariant
            output.never_fails() == old(output).never_fails(),
            writes_within(*old(output), *output, REPEATED_VALUE_BUFFER_BYTES as nat),
            row <= row_count,
            comma@ == seq![44u8],
            null_bitmap@.len() >= bytes_for(row_count as int),
            nulls == bitmap_nulls(Some(null_bitmap@), row_count as nat),
            start == old(output).written(),
            scratch@.len() <= REPEATED_VALUE_BUFFER_BYTES,
            output.written() + scratch@ == start + rows_text(value@, nulls, row as nat),
        decreases row_count - row,
    {
        let ghost before = output.written() + scratch@;
        let is_null: bool = get_bit(null_bitmap, row);
        assert(nulls[row as int] == is_null);
        let own: usize = if is_null {
            0
        } else {
            value.len()
        };
        let separator: usize = if row > 0 {
            1
        } else {
            0
        };
        let row_size: usize = own.saturating_add(separator);
        if scratch.len() > 0 && (row_size > REPEATED_VALUE_BUFFER_BYTES || scratch.len() + row_size
            > REPEATED_VALUE_BUFFER_BYTES) {
            match output.write(scratch.as_slice()) {
                Ok(_) => {},
                Err(e) => {
                    return Err(e);
                },
            }
            scratch.clear();
            assert(output.written() + scratch@ =~= before);
        }
        if row_size > REPEATED_VALUE_BUFFER_BYTES {
            assert(scratch@.len() == 0);
            if row > 0 {
                match output.write(comma.as_slice()) {
                    Ok(_) => {},
                    Err(e) => {
                        return Err(e);
                    },
                }
            }
            if !is_null {
                match write_bytes_chunked(output, value) {
                    Ok(_) => {},
                    Err(e) => {
                        return Err(e);
                    },
                }
            }
        } else {
            if row > 0 {
                scratch.push(44);
            }
            if !is_null {
                scratch.extend_from_slice(value);
            }
        }
        assert(output.written() + scratch@ =~= before + row_text(value@, is_null, row == 0));
        assert(output.written() + scratch@ =~= start + rows_text(value@, nulls, (row + 1) as nat));
        row += 1;
    }
    if scratch.len() > 0 {
        match output.write(scratch.as_slice()) {
            Ok(_) => {},
            Err(e) => {
                return Err(e);
            },
        }
    }
    assert(output.written() =~= start + rows_text(value@, nulls, row_count as nat));
    Ok(())
}

/// The bytes of the first `n` blocks that are kept.
pub open spec fn kept_bytes(cache: Seq<Option<Vec<u8>>>, n: nat) -> nat
    decreases n,
{
    if n == 0 {
        0
    } else {
        kept_bytes(cache, (n - 1) as nat) + (match cache[n - 1] {
            Some(block) => block@.len(),
            None => 0,
        })
    }
}

/// The blocks that are kept are those of the value, and the count of their bytes is right.
pub open spec fn cache_ok(cache: Seq<Option<Vec<u8>>>, bytes: nat, value: Seq<u8>) -> bool {
    &&& kept_bytes(cache, cache.len()) == bytes
    &&& forall|v: int|
        #![trigger cache[v]]
        0 <= v < cache.len() && v < 256 ==> (cache[v] matches Some(block) ==> block@ == block_text(value, v as u8, 8, false))
}

proof fn lemma_kept_one_more(cache: Seq<Option<Vec<u8>>>, after: Seq<Option<Vec<u8>>>, v: int, block: Vec<u8>, n: nat)
    requires
        0 <= v < cache.len(),
        cache[v] is None,
        after == cache.update(v, Some(block)),
        n <= cache.len(),
    ensures
        kept_bytes(after, n) == kept_bytes(cache, n) + (if v < n {
            block@.len()
        } else {
            0
        }),
    decreases n,
{
    if n > 0 {
        lemma_kept_one_more(cache, after, v, block, (n - 1) as nat);
    }
}

fn copy_of(bytes: &Vec<u8>) -> (copy: Vec<u8>)
    ensures
        copy@ == bytes@,
{
    vstd::slice::slice_to_vec(bytes.as_slice())
}

/// Writes one full block that is not the first.
fn write_block<W: OutputFile>(
    output: &mut W,
    value: &[u8],
    validity: u8,
    block_cache: &mut Vec<Option<Vec<u8>>>,
    cache_bytes: &mut usize,
    scratch: &mut Vec<u8>,
) -> (result: Result<(), Error>)
    requires
        old(block_cache)@.len() == NULLABLE_CONST_PATTERN_COUNT,
        cache_ok(old(block_cache)@, *old(cache_bytes) as nat, value@),
        8 * (value@.len() + 1) <= REPEATED_VALUE_BUFFER_BYTES,
        old(scratch)@.len() <= REPEATED_VALUE_BUFFER_BYTES,
    ensures
        appends(*old(output), *final(output), result, block_text(value@, validity, 8, false)),
        final(block_cache)@.len() == NULLABLE_CONST_PATTERN_COUNT,
        cache_ok(final(block_cache)@, *final(cache_bytes) as nat, value@),
        *final(cache_bytes) <= NULLABLE_CONST_CACHE_BYTES || *final(cache_bytes) == *old(cache_bytes),
        final(scratch)@.len() <= REPEATED_VALUE_BUFFER_BYTES,
        writes_within(*old(output), *final(output), REPEATED_VALUE_BUFFER_BYTES as nat),
{
    let index: usize = validity as usize;
    match &block_cache[index] {
        Some(block) => {
            proof {
                lemma_block_len(value@, validity, 8, false);
            }
            return output.write(block.as_slice());
        },
        None => {},
    }
    scratch.clear();
    append_nullable_const_block(scratch, value, validity, 8, false);
    proof {
        lemma_block_len(value@, validity, 8, false);
        assert(scratch@ =~= block_text(value@, validity, 8, false));
    }
    let len: usize = scratch.len();
    if *cache_bytes <= NULLABLE_CONST_CACHE_BYTES && len <= NULLABLE_CONST_CACHE_BYTES - *cache_bytes {
        let ghost before = block_cache@;
        let block: Vec<u8> = copy_of(scratch);
        *cache_bytes = *cache_bytes + len;
        block_cache.set(index, Some(block));
        proof {
            lemma_kept_one_more(before, block_cache@, index as int, block, before.len());
            assert forall|v: int|
                #![trigger block_cache@[v]]
                0 <= v < block_cache@.len() && v < 256 implies (block_cache@[v] matches Some(b) ==> b@ == block_text(
                value@,
                v as u8,
                8,
                false,
            )) by {
                if v != index {
                    assert(block_cache@[v] == before[v]);
                }
            }
        }
    }
    output.write(scratch.as_slice())
}

proof fn lemma_block_len(value: Seq<u8>, validity: u8, n: nat, first_block: bool)
    ensures
        block_text(value, validity, n, first_block).len() <= n * (value.len() + 1),
    decreases n,
{
    if n > 0 {
        lemma_block_len(value, validity, (n - 1) as nat, first_block);
        assert(n * (value.len() + 1) == (n - 1) * (value.len() + 1) + (value.len() + 1)) by (nonlinear_arith)
            requires
                n > 0,
        ;
    } else {
        assert(0 * (value.len() + 1) == 0);
    }
}

/// Writes the same value in every row that is not null, eight rows at a time; blocks of eight rows
/// are kept and used again.
pub fn write_nullable_repeated_rows<W: OutputFile>(
    output: &mut W,
    value: &[u8],
    row_count: usize,
    null_bitmap: &[u8],
    block_cache: &mut Vec<Option<Vec<u8>>>,
    cache_bytes: &mut usize,
    scratch: &mut Vec<u8>,
) -> (result: Result<(), Error>)
    requires
        old(block_cache)@.len() == NULLABLE_CONST_PATTERN_COUNT ==> cache_ok(
            old(block_cache)@,
            *old(cache_bytes) as nat,
            value@,
        ),
    ensures
        old(block_cache)@.len() != NULLABLE_CONST_PATTERN_COUNT ==> result == Err::<(), Error>(Error::BlockCacheSize),
        old(block_cache)@.len() == NULLABLE_CONST_PATTERN_COUNT && null_bitmap@.len() < bytes_for(row_count as int) ==> result == Err::<
            (),
            Error,
        >(Error::NullBitmapTruncated),
        old(block_cache)@.len() == NULLABLE_CONST_PATTERN_COUNT && null_bitmap@.len() >= bytes_for(row_count as int) ==> appends(
            *old(output),
            *final(output),
            result,
            nullable_text(value@, null_bitmap@, row_count as nat),
        ) && cache_ok(
            final(block_cache)@,
            *final(cache_bytes) as nat,
            value@,
        ) && final(block_cache)@.len() == NULLABLE_CONST_PATTERN_COUNT && (*final(cache_bytes) <= NULLABLE_CONST_CACHE_BYTES
            || *final(cache_bytes) == *old(cache_bytes)) && final(scratch)@.len() <= REPEATED_VALUE_BUFFER_BYTES,
        writes_within(*old(output), *final(output), REPEATED_VALUE_BUFFER_BYTES as nat),
{
    if block_cache.len() != NULLABLE_CONST_PATTERN_COUNT {
        return Err(Error::BlockCacheSize);
    }
    match validate_null_bitmap(row_count, null_bitmap) {
        Ok(_) => {},
        Err(e) => {
            return Err(e);
        },
    }
    if value.len() >= REPEATED_VALUE_BUFFER_BYTES / 8 {
        return write_nullable_rows_bounded(output, value, row_count, null_bitmap, scratch);
    }
    let ghost start = output.written();
    let ghost nulls = bitmap_nulls(Some(null_bitmap@), row_count as nat);
    scratch.clear();
    let mut row: usize = 0;
    assert(output.written() =~= start + rows_text(value@, nulls, 0));
    if row_count >= 8 {
        append_nullable_const_block(scratch, value, !null_bitmap[0], 8, true);
        proof {
            lemma_block(value@, null_bitmap@, 0, 8, row_count as nat);
            lemma_block_len(value@, !null_bitmap@[0], 8, true);
            assert(rows_text(value@, nulls, 0) =~= Seq::empty());
            assert(scratch@ =~= block_text(value@, !null_bitmap@[0], 8, true));
            assert(rows_text(value@, nulls, 8) =~= scratch@);
        }
        match output.write(scratch.as_slice()) {
            Ok(_) => {},
            Err(e) => {
                return Err(e);
            },
        }
        row = 8;
    }
    while row_count - row >= 8
        invariant
            output.never_fails() == old(output).never_fails(),
            writes_within(*old(output), *output, REPEATED_VALUE_BUFFER_BYTES as nat),
            row <= row_count,
            row % 8 == 0,
            row == 0 ==> row_count < 8,
            value@.len() < REPEATED_VALUE_BUFFER_BYTES / 8,
            null_bitmap@.len() >= bytes_for(row_count as int),
            nulls == bitmap_nulls(Some(null_bitmap@), row_count as nat),
            start == old(output).written(),
            output.written() == start + rows_text(value@, nulls, row as nat),
            block_cache@.len() == NULLABLE_CONST_PATTERN_COUNT,
            cache_ok(block_cache@, *cache_bytes as nat, value@),
            *cache_bytes <= NULLABLE_CONST_CACHE_BYTES || *cache_bytes == *old(cache_bytes),
            scratch@.len() <= REPEATED_VALUE_BUFFER_BYTES,
            old(block_cache)@.len() == NULLABLE_CONST_PATTERN_COUNT,
        decreases row_count - row,
    {
        proof {
            lemma_block(value@, null_bitmap@, row as nat, 8, row_count as nat);
        }
        let validity: u8 = !null_bitmap[row / 8];
        match write_block(output, value, validity, block_cache, cache_bytes, scratch) {
            Ok(_) => {},
            Err(e) => {
                return Err(e);
            },
        }
        assert(output.written() =~= start + rows_text(value@, nulls, (row + 8) as nat));
        row += 8;
    }
    if row < row_count {
        scratch.clear();
        let left: usize = row_count - row;
        let validity: u8 = !null_bitmap[row / 8];
        append_nullable_const_block(scratch, value, validity, left, row == 0);
        proof {
            lemma_block(value@, null_bitmap@, row as nat, left as nat, row_count as nat);
            lemma_block_len(value@, validity, left as nat, row == 0);
            assert(scratch@ =~= block_text(value@, validity, left as nat, row == 0));
            assert(left * (value@.len() + 1) <= 8 * (value@.len() + 1)) by (nonlinear_arith)
                requires
                    left <= 8,
            ;
        }
        match output.write(scratch.as_slice()) {
            Ok(_) => {},
            Err(e) => {
                return Err(e);
            },
        }
        assert(output.written() =~= start + rows_text(value@, nulls, row_count as nat));
    }
    Ok(())
}

// ---------------------------------------------------------------- texts

/// Writes a text in every row that is not null, without keeping it anywhere.
pub fn write_utf8_rows_streamed<W: OutputFile>(output: &mut W, value: &[u8], row_count: usize, null_bitmap: Option<&[u8]>) -> (result:
    Result<(), Error>)
    requires
        null_bitmap matches Some(bitmap) ==> bitmap@.len() >= bytes_for(row_count as int),
    ensures
        appends(
            *old(output),
            *final(output),
            result,
            rows_text(escaped(value@), bitmap_nulls(bitmap_view(null_bitmap), row_count as nat), row_count as nat),
        ),
        writes_within(*old(output), *final(output), REPEATED_VALUE_BUFFER_BYTES as nat),
{
    let ghost text = escaped(value@);
    let ghost nulls = bitmap_nulls(bitmap_view(null_bitmap), row_count as nat);
    let ghost start = output.written();
    let comma: Vec<u8> = vec![44u8; 1];
    assert(comma@ =~= seq![44u8]);
    let mut row: usize = 0;
    assert(output.written() =~= start + rows_text(text, nulls, 0));
    while row < row_count
        invariant
            output.never_fails() == old(output).never_fails(),
            writes_within(*old(output), *output, REPEATED_VALUE_BUFFER_BYTES as nat),
            row <= row_count,
            comma@ == seq![44u8],
            null_bitmap matches Some(bitmap) ==> bitmap@.len() >= bytes_for(row_count as int),
            text == escaped(value@),
            nulls == bitmap_nulls(bitmap_view(null_bitmap), row_count as nat),
            start == old(output).written(),
            output.written() == start + rows_text(text, nulls, row as nat),
        decreases row_count - row,
    {
        let ghost before = output.written();
        if row > 0 {
            match output.write(comma.as_slice()) {
                Ok(_) => {},
                Err(e) => {
                    return Err(e);
                },
            }
        }
        let is_null: bool = match null_bitmap {
            Some(bitmap) => get_bit(bitmap, row),
            None => false,
        };
        assert(nulls[row as int] == is_null);
        if !is_null {
            match write_escaped_utf8_chunked(output, value) {
                Ok(_) => {},
                Err(e) => {
                    return Err(e);
                },
            }
        }
        assert(output.written() =~= before + row_text(text, is_null, row == 0));
        assert(output.written() =~= start + rows_text(text, nulls, (row + 1) as nat));
        row += 1;
    }
    Ok(())
}

pub open spec fn bitmap_view(bitmap: Option<&[u8]>) -> Option<Seq<u8>> {
    match bitmap {
        Some(b) => Some(b@),
        None => None,
    }
}

/// Writes a text in every row that is not null. Texts that are too large for the buffers leave them
/// as they are.
pub fn write_utf8_constant<W: OutputFile>(
    output: &mut W,
    value: &[u8],
    row_count: usize,
    null_bitmap: Option<&[u8]>,
    value_buffer: &mut Vec<u8>,
    repeated_buffer: &mut Vec<u8>,
    block_cache: &mut Vec<Option<Vec<u8>>>,
    cache_bytes: &mut usize,
) -> (result: Result<(), Error>)
    requires
        old(block_cache)@.len() == NULLABLE_CONST_PATTERN_COUNT,
        null_bitmap is Some ==> cache_ok(old(block_cache)@, *old(cache_bytes) as nat, escaped(value@)),
    ensures
        final(block_cache)@.len() == NULLABLE_CONST_PATTERN_COUNT,
        null_bitmap matches Some(bitmap) && bitmap@.len() < bytes_for(row_count as int) ==> result == Err::<(), Error>(
            Error::NullBitmapTruncated,
        ),
        (null_bitmap matches Some(bitmap) ==> bitmap@.len() >= bytes_for(row_count as int)) && escaped(value@).len() <= usize::MAX
            ==> appends(
            *old(output),
            *final(output),
            result,
            rows_text(escaped(value@), bitmap_nulls(bitmap_view(null_bitmap), row_count as nat), row_count as nat),
        ),
        (null_bitmap matches Some(bitmap) ==> bitmap@.len() >= bytes_for(row_count as int)) && escaped(value@).len() > usize::MAX
            ==> result == Err::<(), Error>(Error::OutputBudgetExceeded),
        escaped(value@).len() >= REPEATED_VALUE_BUFFER_BYTES ==> final(value_buffer)@ == old(value_buffer)@
            && final(repeated_buffer)@ == old(repeated_buffer)@,
        writes_within(*old(output), *final(output), REPEATED_VALUE_BUFFER_BYTES as nat),
{
    match null_bitmap {
        Some(bitmap) => match validate_null_bitmap(row_count, bitmap) {
            Ok(_) => {},
            Err(e) => {
                return Err(e);
            },
        },
        None => {},
    }
    let oversized: bool = match is_oversized_escaped_utf8(value) {
        Ok(oversized) => oversized,
        Err(e) => {
            return Err(e);
        },
    };
    if oversized {
        return write_utf8_rows_streamed(output, value, row_count, null_bitmap);
    }
    value_buffer.clear();
    match write_escaped_utf8(value_buffer, value) {
        Ok(_) => {},
        Err(e) => {
            return Err(e);
        },
    }
    assert(value_buffer@ =~= escaped(value@));
    match null_bitmap {
        Some(bitmap) => write_nullable_repeated_rows(
            output,
            value_buffer.as_slice(),
            row_count,
            bitmap,
            block_cache,
            cache_bytes,
            repeated_buffer,
        ),
        None => {
            assert(bitmap_nulls(None, row_count as nat) =~= no_nulls(row_count as nat));
            write_repeated_value(output, value_buffer.as_slice(), row_count, repeated_buffer)
        },
    }
}

} // verus!
