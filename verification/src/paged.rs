//! Buckets whose columns stand in slots of their own behind a directory.
use vstd::prelude::*;
use vstd::slice::slice_subrange;
use crate::bucket_laws::{page_or_empty, page_reads_back};
use crate::bucket_reader::{page_column, ColumnPageReader};
use crate::bucket_writer::max_rows;
use crate::codec::{lemma_pow256, pow256};
use crate::column::Row;
use crate::column_writer::{column_image, present, Cells, ColumnImage, DictLimits};
use crate::compression::{bytes_view, compress_zstd, compressed, decompress_zstd, decompressed};
use crate::encoded_column::EncodedColumnView;
use crate::error::{Error, SizeField};
use crate::format::{ENCODING_ALL_NULL, ENCODING_CONST};
use crate::raw_column::lemma_decoded_short;
use crate::read_back::{all_taken, decoded_rows, is_written, lemma_stands, stands_at};
use crate::types::{is_container_type, width_of, DataType};
use crate::values::{decoded_value, lemma_value_in_data, lemma_value_size, read_value, value_size, Value, ValueView};
use crate::varint;
use crate::varint::{varint_at, varint_bytes};

verus! {

// ---------------------------------------------------------------- numbers, least significant byte first

/// The last `n` bytes of `v`, least significant first.
pub open spec fn le_bytes(v: nat, n: nat) -> Seq<u8>
    decreases n,
{
    if n == 0 {
        Seq::empty()
    } else {
        seq![(v % 256) as u8] + le_bytes(v / 256, (n - 1) as nat)
    }
}

/// The number that the bytes stand for, least significant first.
pub open spec fn le_value(s: Seq<u8>) -> nat
    decreases s.len(),
{
    if s.len() == 0 {
        0
    } else {
        s[0] as nat + 256 * le_value(s.skip(1))
    }
}

pub proof fn lemma_le_value_of_bytes(v: nat, n: nat)
    requires
        v < pow256(n),
    ensures
        le_value(le_bytes(v, n)) == v,
        le_bytes(v, n).len() == n,
    decreases n,
{
    lemma_le_bytes_len(v, n);
    if n > 0 {
        lemma_le_value_of_bytes(v / 256, (n - 1) as nat);
        assert(le_bytes(v, n).skip(1) =~= le_bytes(v / 256, (n - 1) as nat));
    }
}

pub proof fn lemma_le_bytes_len(v: nat, n: nat)
    ensures
        le_bytes(v, n).len() == n,
    decreases n,
{
    if n > 0 {
        lemma_le_bytes_len(v / 256, (n - 1) as nat);
    }
}

/// Appends the last `n` bytes of `v`.
pub fn put_le(out: &mut Vec<u8>, v: u64, n: usize)
    ensures
        final(out)@ == old(out)@ + le_bytes(v as nat, n as nat),
    decreases n,
{
    if n > 0 {
        let ghost start = out@;
        out.push((v % 256) as u8);
        put_le(out, v / 256, n - 1);
        assert(out@ =~= start + le_bytes(v as nat, n as nat));
    } else {
        assert(out@ =~= old(out)@ + le_bytes(v as nat, 0));
    }
}

/// The two bytes at `pos` as a number.
pub fn get_le_u16(buf: &[u8], pos: usize) -> (v: u16)
    requires
        pos + 2 <= buf@.len(),
    ensures
        v == le_value(buf@.subrange(pos as int, pos + 2)),
{
    let ghost s = buf@.subrange(pos as int, pos + 2);
    proof {
        reveal_with_fuel(le_value, 3);
        assert(s.skip(1)[0] == s[1]);
        assert(s.skip(1).skip(1) =~= Seq::empty());
    }
    buf[pos] as u16 + 256 * (buf[pos + 1] as u16)
}

/// The four bytes at `pos` as a number.
pub fn get_le_u32(buf: &[u8], pos: usize) -> (v: u32)
    requires
        pos + 4 <= buf@.len(),
    ensures
        v == le_value(buf@.subrange(pos as int, pos + 4)),
{
    let ghost s = buf@.subrange(pos as int, pos + 4);
    proof {
        reveal_with_fuel(le_value, 5);
        assert(s.skip(1)[0] == s[1]);
        assert(s.skip(1).skip(1)[0] == s[2]);
        assert(s.skip(1).skip(1).skip(1)[0] == s[3]);
        assert(s.skip(1).skip(1).skip(1).skip(1) =~= Seq::empty());
    }
    let low: u32 = buf[pos] as u32 + 256 * (buf[pos + 1] as u32);
    let high: u32 = buf[pos + 2] as u32 + 256 * (buf[pos + 3] as u32);
    low + 65536 * high
}

/// The `n` numbers of four bytes from `pos` on.
pub open spec fn words_at(data: Seq<u8>, pos: int, n: nat) -> Seq<nat> {
    Seq::new(n, |i: int| le_value(data.subrange(pos + 4 * i, pos + 4 * i + 4)))
}

pub open spec fn usize_nats(values: Seq<usize>) -> Seq<nat> {
    Seq::new(values.len(), |i: int| values[i] as nat)
}

fn read_words(data: &[u8], pos: usize, n: usize) -> (words: Vec<usize>)
    requires
        pos + 4 * n <= data@.len(),
    ensures
        usize_nats(words@) == words_at(data@, pos as int, n as nat),
        forall|i: int| 0 <= i < words@.len() ==> (#[trigger] words@[i]) <= u32::MAX,
{
    let total: usize = data.len();
    let mut words: Vec<usize> = Vec::new();
    let mut i: usize = 0;
    while i < n
        invariant
            i <= n,
            total == data@.len(),
            pos + 4 * n <= total,
            words@.len() == i,
            forall|k: int|
                0 <= k < i ==> #[trigger] words@[k] == words_at(data@, pos as int, n as nat)[k] && words@[k] <= u32::MAX,
        decreases n - i,
    {
        words.push(get_le_u32(data, pos + 4 * i) as usize);
        i += 1;
    }
    assert(usize_nats(words@) =~= words_at(data@, pos as int, n as nat));
    words
}

// ---------------------------------------------------------------- directories

/// The head of a bucket: how many rows the columns below lists and maps have, and how many bytes
/// each column takes.
pub struct DirectoryView {
    pub counts: Seq<nat>,
    pub sizes: Seq<nat>,
    pub dir_size: int,
}

pub struct Directory {
    pub counts: Vec<usize>,
    pub sizes: Vec<usize>,
    pub dir_size: usize,
}

impl View for Directory {
    type V = DirectoryView;

    open spec fn view(&self) -> DirectoryView {
        DirectoryView { counts: usize_nats(self.counts@), sizes: usize_nats(self.sizes@), dir_size: self.dir_size as int }
    }
}

/// The sum of numbers.
pub open spec fn sum(values: Seq<nat>) -> nat
    decreases values.len(),
{
    if values.len() == 0 {
        0
    } else {
        sum(values.drop_last()) + values.last()
    }
}

/// The directory at the front of a bucket. Only a bucket with lists or maps tells counts.
pub open spec fn directory_at(buf: Seq<u8>, has_children: bool, num_columns: nat) -> Result<DirectoryView, Error> {
    let children = le_value(buf.subrange(0, 2));
    let head = if has_children {
        2 + 4 * children
    } else {
        0
    };
    if has_children && buf.len() < 2 {
        Err(Error::ChildHeaderTooShort)
    } else if has_children && buf.len() < head {
        Err(Error::ChildHeaderTruncated)
    } else if buf.len() < head + 4 * num_columns {
        Err(Error::DirectoryTruncated)
    } else {
        Ok(
            DirectoryView {
                counts: if has_children {
                    words_at(buf, 2, children)
                } else {
                    Seq::empty()
                },
                sizes: words_at(buf, head as int, num_columns),
                dir_size: (head + 4 * num_columns) as int,
            },
        )
    }
}

/// A directory that accounts for all the bytes of its bucket.
pub open spec fn checked_directory(buf: Seq<u8>, has_children: bool, num_columns: nat, bucket: usize, total_size: usize) -> Result<
    DirectoryView,
    Error,
> {
    match directory_at(buf, has_children, num_columns) {
        Err(e) => Err(e),
        Ok(dir) => if dir.dir_size + sum(dir.sizes) != total_size {
            Err(
                Error::DirectoryMismatch {
                    bucket,
                    dir_size: dir.dir_size as usize,
                    slot_total: sum(dir.sizes) as u64,
                    total_size,
                },
            )
        } else {
            Ok(dir)
        },
    }
}

pub open spec fn directory_view(result: Result<Directory, Error>) -> Result<DirectoryView, Error> {
    match result {
        Ok(dir) => Ok(dir@),
        Err(e) => Err(e),
    }
}

fn sum_sizes(sizes: &Vec<usize>) -> (total: u64)
    requires
        sizes@.len() <= u32::MAX,
        forall|i: int| 0 <= i < sizes@.len() ==> (#[trigger] sizes@[i]) <= u32::MAX,
    ensures
        total == sum(usize_nats(sizes@)),
{
    let mut total: u64 = 0;
    let mut i: usize = 0;
    let ghost all = usize_nats(sizes@);
    assert(all.take(0) =~= Seq::<nat>::empty());
    while i < sizes.len()
        invariant
            i <= sizes@.len() <= u32::MAX,
            forall|i: int| 0 <= i < sizes@.len() ==> (#[trigger] sizes@[i]) <= u32::MAX,
            all == usize_nats(sizes@),
            total == sum(all.take(i as int)),
            total <= i * u32::MAX,
        decreases sizes@.len() - i,
    {
        assert(all.take(i + 1).drop_last() =~= all.take(i as int));
        assert(i * u32::MAX <= u32::MAX * u32::MAX) by (nonlinear_arith)
            requires
                i <= u32::MAX,
        ;
        assert((i + 1) * u32::MAX == i * u32::MAX + u32::MAX) by (nonlinear_arith);
        assert(sizes@[i as int] <= u32::MAX);
        total = total + sizes[i] as u64;
        i += 1;
    }
    assert(all.take(i as int) =~= all);
    total
}

impl Directory {
    pub fn decode(buf: &[u8], has_children: bool, num_columns: usize) -> (result: Result<Self, Error>)
        requires
            num_columns <= u32::MAX,
        ensures
            directory_view(result) == directory_at(buf@, has_children, num_columns as nat),
            result matches Ok(dir) ==> forall|i: int| 0 <= i < dir.sizes@.len() ==> (#[trigger] dir.sizes@[i]) <= u32::MAX,
    {
        let len: usize = buf.len();
        let mut head: usize = 0;
        let mut counts: Vec<usize> = Vec::new();
        assert(usize_nats(counts@) =~= Seq::empty());
        if has_children {
            if len < 2 {
                return Err(Error::ChildHeaderTooShort);
            }
            let children: usize = get_le_u16(buf, 0) as usize;
            head = 2 + 4 * children;
            if len < head {
                return Err(Error::ChildHeaderTruncated);
            }
            counts = read_words(buf, 2, children);
        }
        if num_columns > (len - head) / 4 {
            return Err(Error::DirectoryTruncated);
        }
        let sizes: Vec<usize> = read_words(buf, head, num_columns);
        Ok(Directory { counts, sizes, dir_size: head + 4 * num_columns })
    }

    /// Reads a directory and holds it against the size of its bucket.
    pub fn decode_checked(buf: &[u8], has_children: bool, num_columns: usize, bucket: usize, total_size: usize) -> (result: Result<
        Self,
        Error,
    >)
        requires
            num_columns <= u32::MAX,
        ensures
            directory_view(result) == checked_directory(buf@, has_children, num_columns as nat, bucket, total_size),
    {
        match Directory::decode(buf, has_children, num_columns) {
            Err(e) => Err(e),
            Ok(dir) => {
                assert(usize_nats(dir.sizes@).len() == num_columns);
                let slot_total: u64 = sum_sizes(&dir.sizes);
                if dir.dir_size > total_size || slot_total != (total_size - dir.dir_size) as u64 {
                    return Err(Error::DirectoryMismatch { bucket, dir_size: dir.dir_size, slot_total, total_size });
                }
                Ok(dir)
            },
        }
    }
}

// ---------------------------------------------------------------- slots

/// The column that the content of a slot holds.
pub open spec fn content_column(content: Seq<u8>, dt: DataType, rows: nat) -> Result<EncodedColumnView, Error> {
    if content.len() < 2 {
        Err(Error::PageContentTooShort)
    } else {
        let has_nulls = content[1] % 2 == 1;
        if content[0] == ENCODING_CONST {
            match value_size(dt, content, 2, Error::ConstValueTruncated) {
                Err(e) => Err(e),
                Ok(size) => page_column(
                    dt,
                    content[0],
                    has_nulls,
                    decoded_value(dt, content.subrange(2, 2 + size)),
                    content,
                    2 + size,
                    rows,
                ),
            }
        } else {
            page_column(dt, content[0], has_nulls, ValueView::Null, content, 2, rows)
        }
    }
}

/// The column that a slot holds.
pub open spec fn slot_column(slot: Seq<u8>, dt: DataType, rows: nat) -> Result<EncodedColumnView, Error> {
    match varint_at(slot, 0) {
        Err(e) => Err(e),
        Ok((size, pos)) => match decompressed(slot.skip(pos), size) {
            Err(e) => Err(e),
            Ok(content) => content_column(content, dt, rows),
        },
    }
}

/// A column without values.
pub open spec fn empty_slot_column(dt: DataType, rows: nat) -> Result<EncodedColumnView, Error> {
    page_column(dt, ENCODING_ALL_NULL, false, ValueView::Null, Seq::empty(), 0, rows)
}

/// The result is the given column, or the given error.
pub open spec fn reads_column(result: Result<ColumnPageReader, Error>, column: Result<EncodedColumnView, Error>) -> bool {
    match column {
        Ok(view) => result matches Ok(reader) && reader@ == view && view.readable(),
        Err(e) => result matches Err(x) && x == e,
    }
}

pub fn parse_simple_column_slot(page_content: Vec<u8>, col_type: &DataType, num_rows: usize) -> (result: Result<
    ColumnPageReader,
    Error,
>)
    requires
        !is_container_type(*col_type),
    ensures
        reads_column(result, content_column(page_content@, *col_type, num_rows as nat)),
{
    if page_content.len() < 2 {
        return Err(Error::PageContentTooShort);
    }
    let encoding: u8 = page_content[0];
    let has_nulls: bool = page_content[1] % 2 == 1;
    let mut start: usize = 2;
    let mut const_value: Value = Value::Null;
    if encoding == ENCODING_CONST {
        match read_value(col_type, page_content.as_slice(), 2, Error::ConstValueTruncated) {
            Ok((value, size)) => {
                proof {
                    lemma_value_size(*col_type, page_content@, 2, Error::ConstValueTruncated);
                    lemma_decoded_short(*col_type, page_content@.subrange(2, 2 + size));
                }
                const_value = value;
                start = 2 + size;
            },
            Err(e) => {
                return Err(e);
            },
        }
    }
    ColumnPageReader::new_with_page_data_start(
        col_type.duplicate(),
        encoding,
        has_nulls,
        const_value,
        page_content,
        start,
        num_rows,
    )
}

pub fn parse_column_slot(slot_data: &[u8], col_type: &DataType, num_rows: usize) -> (result: Result<ColumnPageReader, Error>)
    requires
        !is_container_type(*col_type),
    ensures
        reads_column(result, slot_column(slot_data@, *col_type, num_rows as nat)),
{
    let mut pos: usize = 0;
    let size: u32 = match varint::decode(slot_data, &mut pos) {
        Ok(v) => v,
        Err(e) => {
            return Err(e);
        },
    };
    let block: &[u8] = slice_subrange(slot_data, pos, slot_data.len());
    assert(block@ =~= slot_data@.skip(pos as int));
    match decompress_zstd(block, size as usize) {
        Ok(content) => parse_simple_column_slot(content, col_type, num_rows),
        Err(e) => Err(e),
    }
}

// ---------------------------------------------------------------- writing

/// The content of the slot of a column.
pub open spec fn slot_content(image: ColumnImage) -> Seq<u8> {
    seq![
        image.encoding,
        if image.has_nulls {
            1u8
        } else {
            0u8
        },
    ] + image.const_value + page_or_empty(image)
}

/// The slot of a column; empty for one without values.
pub open spec fn slot_of(image: ColumnImage, level: int) -> Result<Seq<u8>, Error> {
    if image.encoding == ENCODING_ALL_NULL {
        Ok(Seq::empty())
    } else {
        match compressed(slot_content(image), level, SizeField::PageUncompressedSize) {
            Err(e) => Err(e),
            Ok(block) => Ok(varint_bytes(slot_content(image).len()) + block),
        }
    }
}

/// Builds the slot of a column out of its parts.
pub(crate) fn build_slot(encoding: u8, has_nulls: bool, const_data: &Vec<u8>, page: &Option<Vec<u8>>, level: i32, Ghost(image): Ghost<
    ColumnImage,
>) -> (result: Result<Vec<u8>, Error>)
    requires
        encoding == image.encoding,
        has_nulls == image.has_nulls,
        const_data@ == image.const_value,
        encoding != ENCODING_CONST ==> const_data@.len() == 0,
        page is None ==> page_or_empty(image).len() == 0,
        page matches Some(bytes) ==> bytes@ == page_or_empty(image),
    ensures
        bytes_view(result) == slot_of(image, level as int),
        result matches Ok(slot) ==> encoding == ENCODING_ALL_NULL || decompressed(
            slot@.skip(varint_bytes(slot_content(image).len()).len() as int),
            slot_content(image).len(),
        ) == Ok::<Seq<u8>, Error>(slot_content(image)),
{
    let mut slot: Vec<u8> = Vec::new();
    if encoding == ENCODING_ALL_NULL {
        assert(slot@ =~= Seq::empty());
        return Ok(slot);
    }
    let mut content: Vec<u8> = Vec::new();
    content.push(encoding);
    content.push(
        if has_nulls {
            1u8
        } else {
            0u8
        },
    );
    if encoding == ENCODING_CONST {
        content.extend_from_slice(const_data.as_slice());
    }
    if let Some(bytes) = page {
        content.extend_from_slice(bytes.as_slice());
    }
    assert(content@ =~= slot_content(image));
    let block: Vec<u8> = match compress_zstd(content.as_slice(), level, SizeField::PageUncompressedSize) {
        Ok(block) => block,
        Err(e) => {
            return Err(e);
        },
    };
    varint::encode(&mut slot, content.len() as u32);
    let ghost head = slot@;
    slot.extend_from_slice(block.as_slice());
    assert(head =~= varint_bytes(content@.len()));
    assert(slot@ =~= head + block@);
    assert(slot@.skip(head.len() as int) =~= block@);
    Ok(slot)
}

/// The bytes of a directory.
pub open spec fn directory_bytes(counts: Seq<nat>, sizes: Seq<nat>) -> Seq<u8> {
    if counts.len() == 0 {
        words_bytes(sizes)
    } else {
        le_bytes(counts.len(), 2) + words_bytes(counts) + words_bytes(sizes)
    }
}

/// Numbers of four bytes.
pub open spec fn words_bytes(values: Seq<nat>) -> Seq<u8>
    decreases values.len(),
{
    if values.len() == 0 {
        Seq::empty()
    } else {
        words_bytes(values.drop_last()) + le_bytes(values.last(), 4)
    }
}

pub fn put_words(out: &mut Vec<u8>, values: &Vec<usize>)
    ensures
        final(out)@ == old(out)@ + words_bytes(usize_nats(values@)),
{
    let ghost all = usize_nats(values@);
    let ghost start = out@;
    let mut i: usize = 0;
    assert(all.take(0) =~= Seq::<nat>::empty());
    assert(out@ =~= start + words_bytes(all.take(0)));
    while i < values.len()
        invariant
            i <= values@.len(),
            all == usize_nats(values@),
            out@ == start + words_bytes(all.take(i as int)),
        decreases values@.len() - i,
    {
        let ghost before = out@;
        put_le(out, values[i] as u64, 4);
        assert(all.take(i + 1).drop_last() =~= all.take(i as int));
        assert(out@ =~= start + words_bytes(all.take(i + 1)));
        i += 1;
    }
    assert(all.take(i as int) =~= all);
}

/// Builds a directory.
pub fn build_directory(counts: &Vec<usize>, sizes: &Vec<usize>) -> (bytes: Vec<u8>)
    ensures
        bytes@ == directory_bytes(usize_nats(counts@), usize_nats(sizes@)),
{
    let mut bytes: Vec<u8> = Vec::new();
    if counts.len() > 0 {
        put_le(&mut bytes, counts.len() as u64, 2);
        put_words(&mut bytes, counts);
    }
    let ghost head = bytes@;
    put_words(&mut bytes, sizes);
    assert(bytes@ =~= directory_bytes(usize_nats(counts@), usize_nats(sizes@)));
    bytes
}

// ---------------------------------------------------------------- reading back

pub proof fn lemma_words_len(values: Seq<nat>)
    ensures
        words_bytes(values).len() == 4 * values.len(),
    decreases values.len(),
{
    if values.len() > 0 {
        lemma_words_len(values.drop_last());
        lemma_le_bytes_len(values.last(), 4);
    }
}

proof fn lemma_words_read(values: Seq<nat>, data: Seq<u8>, pos: int)
    requires
        forall|i: int| 0 <= i < values.len() ==> (#[trigger] values[i]) <= u32::MAX,
        stands_at(data, pos, words_bytes(values)),
    ensures
        words_at(data, pos, values.len()) == values,
    decreases values.len(),
{
    lemma_words_len(values);
    if values.len() > 0 {
        let front = values.drop_last();
        lemma_words_len(front);
        lemma_stands(data, pos, words_bytes(front), le_bytes(values.last(), 4));
        lemma_words_read(front, data, pos);
        lemma_pow256();
        lemma_le_value_of_bytes(values.last(), 4);
        assert forall|i: int| 0 <= i < values.len() implies #[trigger] words_at(data, pos, values.len())[i] == values[i] by {
            if i < front.len() {
                assert(words_at(data, pos, front.len())[i] == front[i]);
            }
        }
    }
    assert(words_at(data, pos, values.len()) =~= values);
}

/// A directory stands at the front of its bucket as it was written.
pub proof fn directory_reads_back(counts: Seq<nat>, sizes: Seq<nat>, data: Seq<u8>)
    requires
        counts.len() <= u16::MAX,
        forall|i: int| 0 <= i < counts.len() ==> (#[trigger] counts[i]) <= u32::MAX,
        forall|i: int| 0 <= i < sizes.len() ==> (#[trigger] sizes[i]) <= u32::MAX,
        stands_at(data, 0, directory_bytes(counts, sizes)),
    ensures
        directory_at(data, counts.len() > 0, sizes.len()) == Ok::<DirectoryView, Error>(
            DirectoryView { counts, sizes, dir_size: directory_bytes(counts, sizes).len() as int },
        ),
{
    lemma_words_len(counts);
    lemma_words_len(sizes);
    lemma_pow256();
    if counts.len() > 0 {
        lemma_le_value_of_bytes(counts.len(), 2);
        lemma_stands(data, 0, le_bytes(counts.len(), 2) + words_bytes(counts), words_bytes(sizes));
        lemma_stands(data, 0, le_bytes(counts.len(), 2), words_bytes(counts));
        lemma_words_read(counts, data, 2);
        lemma_words_read(sizes, data, (2 + 4 * counts.len()) as int);
    } else {
        lemma_words_read(sizes, data, 0);
        assert(counts =~= Seq::empty());
    }
}

/// The content of a slot holds the column that was written, and its cells are read back.
#[verifier::rlimit(60)]
#[verifier::spinoff_prover]
pub proof fn content_reads_back(dt: DataType, cells: Cells, limits: DictLimits)
    requires
        limits.wf(),
        cells.len() <= max_rows(),
        all_taken(dt, present(cells)),
    ensures
        content_column(slot_content(column_image(cells, width_of(dt), limits)), dt, cells.len()) matches Ok(column)
            && column.rows_result() == Ok::<Seq<Row>, Error>(decoded_rows(dt, cells)) && is_written(column, dt, cells, limits),
{
    let image = column_image(cells, width_of(dt), limits);
    let content = slot_content(image);
    let page = page_or_empty(image);
    let start = (2 + image.const_value.len()) as int;
    assert(content.subrange(start, start + page.len()) =~= page);
    page_reads_back(dt, cells, limits, content, start);
    if image.encoding == ENCODING_CONST {
        assert(content.subrange(2, start) =~= image.const_value);
        assert(image.const_value == present(cells)[0]);
        lemma_value_in_data(dt, content, 2, image.const_value, Error::ConstValueTruncated);
    }
}

/// A slot whose block decompresses to its content holds the column that was written, and its cells are
/// read back.
pub proof fn slot_reads_back(dt: DataType, cells: Cells, limits: DictLimits, block: Seq<u8>)
    requires
        limits.wf(),
        cells.len() <= max_rows(),
        all_taken(dt, present(cells)),
        ({
            let content = slot_content(column_image(cells, width_of(dt), limits));
            &&& decompressed(block, content.len()) == Ok::<Seq<u8>, Error>(content)
            &&& content.len() <= u32::MAX
        }),
    ensures
        slot_column(
            varint_bytes(slot_content(column_image(cells, width_of(dt), limits)).len()) + block,
            dt,
            cells.len(),
        ) matches Ok(column) && column.rows_result() == Ok::<Seq<Row>, Error>(decoded_rows(dt, cells)) && is_written(
            column,
            dt,
            cells,
            limits,
        ),
{
    let content = slot_content(column_image(cells, width_of(dt), limits));
    let head = varint_bytes(content.len());
    let slot = head + block;
    assert(slot.subrange(0, head.len() as int) =~= head);
    varint::decode_undoes_encode(slot, 0, content.len());
    assert(slot.skip(head.len() as int) =~= block);
    content_reads_back(dt, cells, limits);
}

/// The least significant byte comes first.
pub proof fn least_significant_bytes_come_first(v: nat, n: nat, i: int)
    requires
        0 <= i < n,
    ensures
        le_bytes(v, n).len() == n,
        le_bytes(v, n)[i] == (v / pow256(i as nat)) % 256,
    decreases n,
{
    lemma_le_bytes_len(v, n);
    lemma_le_bytes_len(v / 256, (n - 1) as nat);
    if i == 0 {
        assert(v / 1 == v);
    } else {
        least_significant_bytes_come_first(v / 256, (n - 1) as nat, i - 1);
        let k = (i - 1) as nat;
        crate::codec::lemma_pow256_positive(k);
        vstd::arithmetic::div_mod::lemma_div_denominator(v as int, 256, pow256(k) as int);
        assert(pow256(k + 1) == 256 * pow256(k));
    }
}

proof fn lemma_le_bytes_of_value(s: Seq<u8>)
    ensures
        le_bytes(le_value(s), s.len()) == s,
    decreases s.len(),
{
    if s.len() > 0 {
        let rest = s.skip(1);
        lemma_le_bytes_of_value(rest);
        let v = le_value(s);
        assert(v % 256 == s[0] as nat && v / 256 == le_value(rest));
        assert(seq![s[0]] + rest =~= s);
    }
}

proof fn lemma_words_stand(data: Seq<u8>, pos: int, n: nat)
    requires
        0 <= pos,
        pos + 4 * n <= data.len(),
    ensures
        words_bytes(words_at(data, pos, n)) == data.subrange(pos, pos + 4 * n),
    decreases n,
{
    let words = words_at(data, pos, n);
    if n == 0 {
        assert(words_bytes(words) =~= data.subrange(pos, pos));
    } else {
        let at = pos + 4 * (n - 1);
        let last = data.subrange(at, at + 4);
        lemma_words_stand(data, pos, (n - 1) as nat);
        lemma_le_bytes_of_value(last);
        assert(words.drop_last() =~= words_at(data, pos, (n - 1) as nat));
        assert(words.last() == le_value(last));
        assert(data.subrange(pos, at) + last =~= data.subrange(pos, pos + 4 * n));
    }
}

/// A directory that is taken is written as it was read, and with its slots it fills the bucket.
pub proof fn directories_are_taken_as_they_stand(buf: Seq<u8>, has_children: bool, num_columns: nat, bucket: usize, total_size: usize)
    ensures
        checked_directory(buf, has_children, num_columns, bucket, total_size) matches Ok(dir) ==> {
            let told = if has_children {
                le_bytes(dir.counts.len(), 2) + words_bytes(dir.counts)
            } else {
                Seq::<u8>::empty()
            };
            &&& dir.sizes.len() == num_columns
            &&& !has_children ==> dir.counts.len() == 0
            &&& told + words_bytes(dir.sizes) == buf.take(dir.dir_size)
            &&& dir.dir_size <= buf.len()
            &&& dir.dir_size + sum(dir.sizes) == total_size
        },
{
    if let Ok(dir) = checked_directory(buf, has_children, num_columns, bucket, total_size) {
        if has_children {
            let head: int = (2 + 4 * dir.counts.len()) as int;
            lemma_le_bytes_of_value(buf.subrange(0, 2));
            lemma_words_stand(buf, 2, dir.counts.len());
            lemma_words_stand(buf, head, num_columns);
            assert(buf.subrange(0, 2) + buf.subrange(2, head) + buf.subrange(head, head + 4 * num_columns) =~= buf.take(dir.dir_size));
        } else {
            lemma_words_stand(buf, 0, num_columns);
            assert(Seq::<u8>::empty() + buf.subrange(0, (4 * num_columns) as int) =~= buf.take(dir.dir_size));
        }
    }
}

} // verus!
