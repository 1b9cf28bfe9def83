//! Writing a file: batches are gathered in buckets until a row group is large enough.
use vstd::prelude::*;
use crate::batch::{batch_error, bucket_column_refs, bucket_columns_of, lemma_members_rows, members_rows, rows_of_batch, validate_batch};
use crate::bits::bytes_for;
use crate::bucket_image::clamped;
use crate::bucket_laws::{accepted_rows_fit, batches_join, joined_rows, row_fits, rows_fit};
use crate::bucket_output::{
    bucket_bytes, bucket_layout, bucket_restorable, is_paged, raw_size, write_bucket, BucketFormat,
};
use crate::bucket_writer::{
    all_child_columns, batch_rows, cells_fit, columns_error, lemma_batch_len, max_entries, physical_columns, physical_types,
    value_bytes, BucketWriter,
};
use crate::codec::{be_bytes, put_be};
use crate::column::{child_columns, consistent, lemma_no_rows, lemma_rows_len, own_cells, Column, Row};
use crate::column_writer::Cells;
use crate::compression::{compress_zstd, compressed, decompressed, to_u32};
use crate::error::{Error, SizeField};
use crate::footer::{footer_bytes, Footer};
use crate::format::{
    BucketLayout, COMPRESSION_NONE, COMPRESSION_ZSTD, DEFAULT_DICT_MAX_ENTRIES, DEFAULT_DICT_MAX_TOTAL_BYTES,
    DEFAULT_NUM_BUCKETS, DEFAULT_PAGE_SIZE_THRESHOLD, DEFAULT_ROW_GROUP_MAX_SIZE, DEFAULT_ZSTD_LEVEL,
};
use crate::output::OutputFile;
use crate::read_back::stands_at;
use crate::row_group_reader::ColumnBatch;
use crate::row_index::{
    first_error, over_u32, row_group_bytes, row_group_error, write_row_group, RowGroupMeta, RowGroupView,
};
use crate::schema::{capped_buckets, FieldSpec, MosaicSchema};
use crate::types::{same_type, DataType};

verus! {

// ---------------------------------------------------------------- options

pub struct WriterOptions {
    pub compression: u8,
    pub zstd_level: i32,
    pub num_buckets: usize,
    pub row_group_max_size: u64,
    pub max_dict_total_bytes: usize,
    pub max_dict_entries: usize,
    pub page_size_threshold: usize,
}

impl Default for WriterOptions {
    fn default() -> (options: Self)
        ensures
            options.compression == COMPRESSION_ZSTD,
            options.zstd_level == DEFAULT_ZSTD_LEVEL,
            options.num_buckets == DEFAULT_NUM_BUCKETS,
            options.row_group_max_size == DEFAULT_ROW_GROUP_MAX_SIZE,
            options.max_dict_total_bytes == DEFAULT_DICT_MAX_TOTAL_BYTES,
            options.max_dict_entries == DEFAULT_DICT_MAX_ENTRIES,
            options.page_size_threshold == DEFAULT_PAGE_SIZE_THRESHOLD,
    {
        WriterOptions {
            compression: COMPRESSION_ZSTD,
            zstd_level: DEFAULT_ZSTD_LEVEL,
            num_buckets: DEFAULT_NUM_BUCKETS,
            row_group_max_size: DEFAULT_ROW_GROUP_MAX_SIZE,
            max_dict_total_bytes: DEFAULT_DICT_MAX_TOTAL_BYTES,
            max_dict_entries: DEFAULT_DICT_MAX_ENTRIES,
            page_size_threshold: DEFAULT_PAGE_SIZE_THRESHOLD,
        }
    }
}

impl WriterOptions {
    /// Options that are given as signed numbers. Without a positive number of buckets there are as
    /// many as by default; the other numbers are taken by their bits.
    pub fn from_numbers(
        num_buckets: i32,
        compression: i32,
        zstd_level: i32,
        row_group_max_size: i64,
        max_dict_total_bytes: i32,
        max_dict_entries: i32,
        page_size_threshold: i32,
    ) -> (options: Self)
        ensures
            options.num_buckets == (if num_buckets <= 0 {
                DEFAULT_NUM_BUCKETS
            } else {
                num_buckets as usize
            }),
            options.compression == compression as u8,
            options.zstd_level == zstd_level,
            options.row_group_max_size == row_group_max_size as u64,
            options.max_dict_total_bytes == max_dict_total_bytes as usize,
            options.max_dict_entries == max_dict_entries as usize,
            options.page_size_threshold == page_size_threshold as usize,
    {
        WriterOptions {
            compression: compression as u8,
            zstd_level,
            num_buckets: if num_buckets <= 0 {
                DEFAULT_NUM_BUCKETS
            } else {
                num_buckets as usize
            },
            row_group_max_size: row_group_max_size as u64,
            max_dict_total_bytes: max_dict_total_bytes as usize,
            max_dict_entries: max_dict_entries as usize,
            page_size_threshold: page_size_threshold as usize,
        }
    }
}

// ---------------------------------------------------------------- row groups

/// The bytes of the first `n` buckets; one without rows has none.
pub open spec fn buckets_bytes(format: BucketFormat, ws: Seq<BucketWriter>, n: nat) -> Result<Seq<u8>, Error>
    decreases n,
{
    if n == 0 {
        Ok(Seq::empty())
    } else {
        match buckets_bytes(format, ws, (n - 1) as nat) {
            Err(e) => Err(e),
            Ok(before) => if ws[n - 1].rows() == 0 {
                Ok(before)
            } else {
                match bucket_bytes(format, ws[n - 1]) {
                    Err(e) => Err(e),
                    Ok(bytes) => Ok(before + bytes),
                }
            },
        }
    }
}

/// Where bucket `b` starts behind the start of its row group.
pub open spec fn bucket_start(format: BucketFormat, ws: Seq<BucketWriter>, b: int) -> nat {
    buckets_bytes(format, ws, b as nat)->Ok_0.len()
}

pub open spec fn layout_in(format: BucketFormat, w: BucketWriter) -> BucketLayout {
    if w.rows() == 0 {
        BucketLayout::Empty
    } else {
        bucket_layout(format, w, bucket_bytes(format, w)->Ok_0)
    }
}

pub open spec fn offset_in(format: BucketFormat, ws: Seq<BucketWriter>, start: nat, b: int) -> u64 {
    if ws[b].rows() == 0 {
        0
    } else {
        (start + bucket_start(format, ws, b)) as u64
    }
}

/// What the index tells of a row group that starts at `start`.
pub open spec fn group_view(format: BucketFormat, ws: Seq<BucketWriter>, start: nat, num_rows: nat) -> RowGroupView {
    RowGroupView {
        num_rows,
        bucket_offsets: Seq::new(ws.len(), |b: int| offset_in(format, ws, start, b)),
        bucket_layouts: Seq::new(ws.len(), |b: int| layout_in(format, ws[b])),
    }
}

/// The rows of the columns of a schema.
pub open spec fn rows_ok(schema: MosaicSchema, rows: Seq<Seq<Row>>, num_rows: nat) -> bool {
    &&& rows.len() == schema.columns@.len()
    &&& forall|g: int|
        0 <= g < rows.len() ==> (#[trigger] rows[g]).len() == num_rows && rows_fit(schema.columns@[g].data_type, rows[g])
}

/// The bucket holds the rows of its columns.
pub open spec fn holds_rows(schema: MosaicSchema, w: BucketWriter, rows: Seq<Seq<Row>>, num_rows: nat, b: int) -> bool {
    &&& w.wf()
    &&& w.types() == schema.bucket_types(b)
    &&& w.rows() == (if schema.bucket_to_global@[b]@.len() == 0 {
        0
    } else {
        num_rows
    })
    &&& w.cells() == physical_columns(schema.bucket_types(b), members_rows(schema, rows, b))
}

pub open spec fn all_hold(schema: MosaicSchema, ws: Seq<BucketWriter>, rows: Seq<Seq<Row>>, num_rows: nat) -> bool {
    &&& ws.len() == schema.num_buckets
    &&& forall|b: int| 0 <= b < ws.len() ==> holds_rows(schema, #[trigger] ws[b], rows, num_rows, b)
}

/// The buckets keep dictionaries of up to so many bytes and entries.
pub open spec fn all_limited(ws: Seq<BucketWriter>, limits: (usize, usize)) -> bool {
    forall|b: int|
        0 <= b < ws.len() ==> (#[trigger] ws[b]).dict_limits().max_total_bytes == limits.0 && ws[b].dict_limits().max_entries
            == max_entries(limits.1 as int)
}

/// What was written of a row group: its rows, where it starts, and the buckets as they were.
pub struct GroupLog {
    pub start: nat,
    pub num_rows: nat,
    pub rows: Seq<Seq<Row>>,
    pub buckets: Seq<BucketWriter>,
}

/// The rows of column `g` in the first `n` row groups.
pub open spec fn logged_rows(logs: Seq<GroupLog>, g: int, n: nat) -> Seq<Row>
    decreases n,
{
    if n == 0 {
        Seq::empty()
    } else {
        logged_rows(logs, g, (n - 1) as nat) + logs[n - 1].rows[g]
    }
}

proof fn lemma_logged_prefix(a: Seq<GroupLog>, b: Seq<GroupLog>, g: int, n: nat)
    requires
        n <= a.len(),
        n <= b.len(),
        forall|i: int| 0 <= i < n ==> a[i] == #[trigger] b[i],
    ensures
        logged_rows(a, g, n) == logged_rows(b, g, n),
    decreases n,
{
    if n > 0 {
        lemma_logged_prefix(a, b, g, (n - 1) as nat);
        assert(a[n - 1] == b[n - 1]);
    }
}

/// A bucket can be restored from its bytes.
pub open spec fn is_restorable(format: BucketFormat, w: BucketWriter) -> bool {
    w.rows() > 0 ==> (bucket_bytes(format, w) matches Ok(bytes) && bytes.len() <= usize::MAX && bucket_restorable(format, w, bytes) && (
    !is_paged(format, w) ==> w.image().len() <= usize::MAX))
}

/// The row group stands in the file.
pub open spec fn is_logged(format: BucketFormat, schema: MosaicSchema, log: GroupLog, file: Seq<u8>) -> bool {
    &&& log.num_rows > 0
    &&& rows_ok(schema, log.rows, log.num_rows)
    &&& all_hold(schema, log.buckets, log.rows, log.num_rows)
    &&& forall|b: int| 0 <= b < log.buckets.len() ==> is_restorable(format, #[trigger] log.buckets[b])
    &&& buckets_bytes(format, log.buckets, log.buckets.len()) matches Ok(bytes) && stands_at(file, log.start as int, bytes)
}

pub open spec fn group_of(format: BucketFormat, log: GroupLog) -> RowGroupView {
    group_view(format, log.buckets, log.start, log.num_rows)
}

proof fn lemma_buckets_error(format: BucketFormat, ws: Seq<BucketWriter>, n: nat, m: nat)
    requires
        n <= m,
        buckets_bytes(format, ws, n) is Err,
    ensures
        buckets_bytes(format, ws, m) == buckets_bytes(format, ws, n),
    decreases m,
{
    if n < m {
        lemma_buckets_error(format, ws, n, (m - 1) as nat);
    }
}

/// The buckets of a row group as they were written.
struct WrittenBuckets {
    offsets: Vec<u64>,
    layouts: Vec<BucketLayout>,
    raw_bytes: u64,
    stored_bytes: u64,
}

/// A sum as far as it can be told.
pub open spec fn sum_of(a: int, b: int) -> u64 {
    if a + b > u64::MAX {
        u64::MAX
    } else {
        (a + b) as u64
    }
}

/// The bytes of the first `n` buckets before they are compressed, as far as they can be told.
pub open spec fn raw_total(format: BucketFormat, ws: Seq<BucketWriter>, n: nat) -> u64
    decreases n,
{
    if n == 0 {
        0
    } else if ws[n - 1].rows() == 0 {
        raw_total(format, ws, (n - 1) as nat)
    } else {
        sum_of(raw_total(format, ws, (n - 1) as nat) as int, raw_size(format, ws[n - 1]) as int)
    }
}

/// The bytes of the first `n` buckets in the file, as far as they can be told.
pub open spec fn stored_total(format: BucketFormat, ws: Seq<BucketWriter>, n: nat) -> u64
    decreases n,
{
    if n == 0 {
        0
    } else if ws[n - 1].rows() == 0 {
        stored_total(format, ws, (n - 1) as nat)
    } else {
        sum_of(stored_total(format, ws, (n - 1) as nat) as int, bucket_bytes(format, ws[n - 1])->Ok_0.len() as int)
    }
}

/// Writes the buckets of a row group.
fn write_buckets<S: OutputFile>(out: &mut S, ws: &Vec<BucketWriter>, format: BucketFormat) -> (result: Result<WrittenBuckets, Error>)
    requires
        forall|b: int| 0 <= b < ws@.len() ==> (#[trigger] ws@[b]).wf(),
    ensures
        final(out).never_fails() == old(out).never_fails(),
        match buckets_bytes(format, ws@, ws@.len()) {
            Ok(bytes) => match result {
                Ok(written) => final(out).written() == old(out).written() + bytes && written.offsets@ == group_view(
                    format,
                    ws@,
                    old(out).written().len(),
                    0,
                ).bucket_offsets && written.layouts@ == group_view(format, ws@, old(out).written().len(), 0).bucket_layouts && (forall|
                    b: int,
                |
                    0 <= b < ws@.len() ==> is_restorable(format, #[trigger] ws@[b])) && written.raw_bytes == raw_total(
                    format,
                    ws@,
                    ws@.len(),
                ) && written.stored_bytes == stored_total(format, ws@, ws@.len()),
                Err(e) => e is Io && !old(out).never_fails(),
            },
            Err(e) => result matches Err(x) && (x == e || (x is Io && !old(out).never_fails())),
        },
{
    let ghost start = out.written();
    let n: usize = ws.len();
    let mut offsets: Vec<u64> = Vec::new();
    let mut layouts: Vec<BucketLayout> = Vec::new();
    let mut raw_bytes: u64 = 0;
    let mut stored_bytes: u64 = 0;
    let mut b: usize = 0;
    assert(out.written() =~= start + Seq::<u8>::empty());
    while b < n
        invariant
            out.never_fails() == old(out).never_fails(),
            b <= n,
            n == ws@.len(),
            start == old(out).written(),
            forall|b: int| 0 <= b < ws@.len() ==> (#[trigger] ws@[b]).wf(),
            buckets_bytes(format, ws@, b as nat) matches Ok(bytes) && out.written() == start + bytes,
            offsets@.len() == b,
            layouts@.len() == b,
            forall|i: int| 0 <= i < b ==> #[trigger] offsets@[i] == offset_in(format, ws@, start.len(), i),
            forall|i: int| 0 <= i < b ==> #[trigger] layouts@[i] == layout_in(format, ws@[i]),
            forall|i: int| 0 <= i < b ==> is_restorable(format, #[trigger] ws@[i]),
            raw_bytes == raw_total(format, ws@, b as nat),
            stored_bytes == stored_total(format, ws@, b as nat),
        decreases n - b,
    {
        let ghost before = buckets_bytes(format, ws@, b as nat)->Ok_0;
        assert(ws@[b as int].wf());
        proof {
            if buckets_bytes(format, ws@, (b + 1) as nat) is Err {
                lemma_buckets_error(format, ws@, (b + 1) as nat, n as nat);
            }
        }
        if ws[b].is_empty() {
            offsets.push(0);
            layouts.push(BucketLayout::Empty);
        } else {
            let offset: u64 = out.pos();
            match write_bucket(out, &ws[b], format) {
                Ok(written) => {
                    offsets.push(offset);
                    layouts.push(written.layout);
                    raw_bytes = raw_bytes.saturating_add(written.raw_size as u64);
                    stored_bytes = stored_bytes.saturating_add(written.size as u64);
                    assert(out.written() =~= start + (before + bucket_bytes(format, ws@[b as int])->Ok_0));
                },
                Err(e) => {
                    return Err(e);
                },
            }
        }
        b += 1;
    }
    assert(offsets@ =~= group_view(format, ws@, start.len(), 0).bucket_offsets);
    assert(layouts@ =~= group_view(format, ws@, start.len(), 0).bucket_layouts);
    Ok(WrittenBuckets { offsets, layouts, raw_bytes, stored_bytes })
}

// ---------------------------------------------------------------- columns without rows

pub open spec fn no_rows(n: nat) -> Seq<Seq<Row>> {
    Seq::new(n, |g: int| Seq::<Row>::empty())
}

proof fn lemma_no_child_cells(types: Seq<DataType>, rows: Seq<Seq<Row>>)
    requires
        types.len() <= rows.len(),
        forall|i: int| 0 <= i < rows.len() ==> (#[trigger] rows[i]).len() == 0,
    ensures
        forall|j: int|
            0 <= j < all_child_columns(types, rows).len() ==> #[trigger] all_child_columns(types, rows)[j] == Cells::empty(),
    decreases types.len(),
{
    if types.len() > 0 {
        let last = types.len() - 1;
        lemma_no_child_cells(types.drop_last(), rows);
        assert(rows[last].len() == 0);
        assert(rows[last] =~= Seq::<Row>::empty());
        lemma_no_rows(types.last());
        let front = all_child_columns(types.drop_last(), rows);
        let back = child_columns(types.last(), rows[last]);
        let all = all_child_columns(types, rows);
        assert(all == front + back);
        assert forall|j: int| 0 <= j < all.len() implies #[trigger] all[j] == Cells::empty() by {
            if j < front.len() {
                assert(all[j] == front[j]);
            } else {
                assert(all[j] == back[j - front.len()]);
            }
        }
    }
}

proof fn lemma_no_cells(types: Seq<DataType>, rows: Seq<Seq<Row>>)
    requires
        types.len() == rows.len(),
        forall|i: int| 0 <= i < rows.len() ==> (#[trigger] rows[i]).len() == 0,
    ensures
        physical_columns(types, rows) == Seq::new(physical_types(types).len(), |j: int| Cells::empty()),
{
    lemma_no_child_cells(types, rows);
    lemma_batch_len(types, rows);
    let all = physical_columns(types, rows);
    assert forall|j: int| 0 <= j < all.len() implies #[trigger] all[j] == Cells::empty() by {
        if j < types.len() {
            assert(rows[j].len() == 0);
            assert(own_cells(rows[j]) =~= Cells::empty());
        } else {
            assert(all[j] == all_child_columns(types, rows)[j - types.len()]);
        }
    }
    assert(all =~= Seq::new(physical_types(types).len(), |j: int| Cells::empty()));
}

proof fn lemma_no_rows_held(schema: MosaicSchema, w: BucketWriter, b: int)
    requires
        schema.wf(),
        0 <= b < schema.num_buckets,
        w.wf(),
        w.types() == schema.bucket_types(b),
        w.rows() == 0,
        w.cells() == Seq::new(physical_types(schema.bucket_types(b)).len(), |j: int| Cells::empty()),
    ensures
        holds_rows(schema, w, no_rows(schema.columns@.len()), 0, b),
{
    assert(schema.bucket_ok(b));
    let rows = members_rows(schema, no_rows(schema.columns@.len()), b);
    assert forall|k: int| 0 <= k < rows.len() implies (#[trigger] rows[k]).len() == 0 by {
        assert(schema.bucket_to_global@[b]@[k] < schema.columns@.len());
    }
    lemma_no_cells(schema.bucket_types(b), rows);
}

// ---------------------------------------------------------------- writers

#[derive(Clone, Copy, Debug, PartialEq, Eq, Structural)]
pub enum WriterState {
    Open,
    Aborted,
    Closed,
}

pub struct MosaicWriter<S: OutputFile> {
    out: S,
    schema: MosaicSchema,
    schema_raw: Vec<u8>,
    bucket_writers: Vec<BucketWriter>,
    format: BucketFormat,
    row_group_max_size: u64,
    batch_col_map: Vec<usize>,
    row_group_metas: Vec<RowGroupMeta>,
    current_row_group_rows: usize,
    current_buffered_size: u64,
    total_uncompressed: u64,
    total_compressed: u64,
    state: WriterState,
    rows: Ghost<Seq<Seq<Row>>>,
    logs: Ghost<Seq<GroupLog>>,
    limits: Ghost<(usize, usize)>,
}

/// The metadata of row groups are those of the logs.
pub open spec fn metas_are(format: BucketFormat, metas: Seq<RowGroupMeta>, logs: Seq<GroupLog>) -> bool {
    &&& metas.len() == logs.len()
    &&& forall|i: int|
        0 <= i < metas.len() ==> (#[trigger] metas[i])@ == group_of(format, logs[i]) && metas[i].stats@.len() == 0
}

/// The row groups stand in the file.
pub open spec fn all_logged(format: BucketFormat, schema: MosaicSchema, logs: Seq<GroupLog>, file: Seq<u8>) -> bool {
    forall|i: int| 0 <= i < logs.len() ==> is_logged(format, schema, #[trigger] logs[i], file)
}

impl<S: OutputFile> MosaicWriter<S> {
    pub closed spec fn state_of(&self) -> WriterState {
        self.state
    }

    pub closed spec fn schema_of(&self) -> MosaicSchema {
        self.schema
    }

    /// The bytes of the schema.
    pub closed spec fn schema_bytes(&self) -> Seq<u8> {
        self.schema_raw@
    }

    /// The bytes in the file.
    pub closed spec fn written(&self) -> Seq<u8> {
        self.out.written()
    }

    /// Bytes can always be appended to the file.
    pub closed spec fn never_fails(&self) -> bool {
        self.out.never_fails()
    }

    pub closed spec fn format_of(&self) -> BucketFormat {
        self.format
    }

    pub closed spec fn max_size(&self) -> u64 {
        self.row_group_max_size
    }

    /// The place of each column in a batch.
    pub closed spec fn column_map(&self) -> Seq<usize> {
        self.batch_col_map@
    }

    /// The buckets of the row group that is not written yet.
    pub closed spec fn buckets(&self) -> Seq<BucketWriter> {
        self.bucket_writers@
    }

    /// The rows of each column that are not written yet.
    pub closed spec fn buffered(&self) -> Seq<Seq<Row>> {
        self.rows@
    }

    /// The number of rows that are not written yet.
    pub closed spec fn buffered_rows(&self) -> nat {
        self.current_row_group_rows as nat
    }

    pub closed spec fn buffered_bytes(&self) -> u64 {
        self.current_buffered_size
    }

    /// The row groups that are written.
    pub closed spec fn groups(&self) -> Seq<GroupLog> {
        self.logs@
    }

    /// The bytes of the row groups before and after they were compressed.
    pub closed spec fn totals(&self) -> (u64, u64) {
        (self.total_uncompressed, self.total_compressed)
    }

    /// How many bytes and entries a dictionary is asked to stay within.
    pub closed spec fn dict_options(&self) -> (usize, usize) {
        self.limits@
    }

    /// What holds of every writer.
    closed spec fn base(&self) -> bool {
        &&& self.schema.wf()
        &&& self.batch_col_map@.len() == self.schema.columns@.len()
        &&& forall|i: int| 0 <= i < self.batch_col_map@.len() ==> (#[trigger] self.batch_col_map@[i]) < self.schema.columns@.len()
        &&& self.bucket_writers@.len() == self.schema.num_buckets
        &&& metas_are(self.format, self.row_group_metas@, self.logs@)
        &&& forall|i: int| 0 <= i < self.logs@.len() ==> all_limited((#[trigger] self.logs@[i]).buckets, self.limits@)
    }

    /// What holds of a writer that has not failed.
    closed spec fn ready(&self) -> bool {
        &&& rows_ok(self.schema, self.rows@, self.current_row_group_rows as nat)
        &&& all_hold(self.schema, self.bucket_writers@, self.rows@, self.current_row_group_rows as nat)
        &&& all_limited(self.bucket_writers@, self.limits@)
        &&& all_logged(self.format, self.schema, self.logs@, self.out.written())
    }

    pub closed spec fn wf(&self) -> bool {
        &&& self.base()
        &&& self.state is Open ==> self.ready()
    }

    /// Nothing but the state, what is gathered and what is written has changed.
    pub open spec fn same_writer(&self, other: &Self) -> bool {
        &&& self.schema_of() == other.schema_of()
        &&& self.schema_bytes() == other.schema_bytes()
        &&& self.format_of() == other.format_of()
        &&& self.max_size() == other.max_size()
        &&& self.column_map() == other.column_map()
        &&& self.dict_options() == other.dict_options()
        &&& self.never_fails() == other.never_fails()
    }

    /// A writer of the given columns. The bytes of the schema are written as they are.
    fn with_map(out: S, schema: MosaicSchema, schema_raw: Vec<u8>, options: WriterOptions, batch_col_map: Vec<usize>) -> (writer: Self)
        requires
            schema.wf(),
            batch_col_map@.len() == schema.columns@.len(),
            forall|i: int| 0 <= i < batch_col_map@.len() ==> (#[trigger] batch_col_map@[i]) < schema.columns@.len(),
        ensures
            writer.wf(),
            writer.state_of() is Open,
            writer.schema_of() == schema,
            writer.schema_bytes() == schema_raw@,
            writer.written() == out.written(),
            writer.never_fails() == out.never_fails(),
            writer.format_of() == (BucketFormat {
                compression: options.compression,
                zstd_level: options.zstd_level,
                page_size_threshold: options.page_size_threshold,
            }),
            writer.max_size() == options.row_group_max_size,
            writer.dict_options() == (options.max_dict_total_bytes, options.max_dict_entries),
            all_limited(writer.buckets(), writer.dict_options()),
            writer.column_map() == batch_col_map@,
            writer.buffered() == no_rows(schema.columns@.len()),
            writer.buffered_rows() == 0,
            writer.buffered_bytes() == 0,
            writer.groups() == Seq::<GroupLog>::empty(),
            writer.totals() == (0u64, 0u64),
    {
        let n: usize = schema.num_buckets;
        let mut bucket_writers: Vec<BucketWriter> = Vec::new();
        let ghost rows = no_rows(schema.columns@.len());
        let mut b: usize = 0;
        while b < n
            invariant
                b <= n,
                n == schema.num_buckets,
                schema.wf(),
                bucket_writers@.len() == b,
                rows == no_rows(schema.columns@.len()),
                forall|i: int| 0 <= i < b ==> holds_rows(schema, #[trigger] bucket_writers@[i], rows, 0, i),
                all_limited(bucket_writers@, (options.max_dict_total_bytes, options.max_dict_entries)),
            decreases n - b,
        {
            assert(schema.bucket_ok(b as int));
            let types: Vec<&DataType> = schema.bucket_type_refs(b);
            let w: BucketWriter = BucketWriter::new(types.as_slice(), options.max_dict_total_bytes, options.max_dict_entries);
            proof {
                lemma_no_rows_held(schema, w, b as int);
            }
            bucket_writers.push(w);
            b += 1;
        }
        MosaicWriter {
            out,
            schema,
            schema_raw,
            bucket_writers,
            format: BucketFormat {
                compression: options.compression,
                zstd_level: options.zstd_level,
                page_size_threshold: options.page_size_threshold,
            },
            row_group_max_size: options.row_group_max_size,
            batch_col_map,
            row_group_metas: Vec::new(),
            current_row_group_rows: 0,
            current_buffered_size: 0,
            total_uncompressed: 0,
            total_compressed: 0,
            state: WriterState::Open,
            rows: Ghost(rows),
            logs: Ghost(Seq::empty()),
            limits: Ghost((options.max_dict_total_bytes, options.max_dict_entries)),
        }
    }
}

// ---------------------------------------------------------------- row groups are written

proof fn lemma_stands_longer(file: Seq<u8>, more: Seq<u8>, p: int, x: Seq<u8>)
    requires
        stands_at(file, p, x),
    ensures
        stands_at(file + more, p, x),
{
    assert((file + more).subrange(p, p + x.len()) =~= file.subrange(p, p + x.len()));
}

proof fn lemma_logged_longer(format: BucketFormat, schema: MosaicSchema, logs: Seq<GroupLog>, file: Seq<u8>, more: Seq<u8>)
    requires
        all_logged(format, schema, logs, file),
    ensures
        all_logged(format, schema, logs, file + more),
{
    assert forall|i: int| 0 <= i < logs.len() implies is_logged(format, schema, #[trigger] logs[i], file + more) by {
        let log = logs[i];
        let bytes = buckets_bytes(format, log.buckets, log.buckets.len())->Ok_0;
        lemma_stands_longer(file, more, log.start as int, bytes);
    }
}

/// What is known of the row group that a writer gathers.
pub open spec fn log_of<S: OutputFile>(writer: MosaicWriter<S>) -> GroupLog {
    GroupLog {
        start: writer.written().len(),
        num_rows: writer.buffered_rows(),
        rows: writer.buffered(),
        buckets: writer.buckets(),
    }
}

impl<S: OutputFile> MosaicWriter<S> {
    /// What a writer is once its row group is written: the bytes of its buckets stand at the end of
    /// the file, and nothing is gathered.
    pub open spec fn is_flushed(&self, before: &Self, bytes: Seq<u8>) -> bool {
        &&& self.written() == before.written() + bytes
        &&& self.groups() == before.groups().push(log_of(*before))
        &&& self.buffered() == no_rows(self.schema_of().columns@.len())
        &&& self.buffered_rows() == 0
        &&& self.buffered_bytes() == 0
        &&& self.totals() == (
            sum_of(before.totals().0 as int, raw_total(before.format_of(), before.buckets(), before.buckets().len()) as int),
            sum_of(before.totals().1 as int, stored_total(before.format_of(), before.buckets(), before.buckets().len()) as int),
        )
    }

    /// Empties the buckets.
    fn reset_buckets(&mut self)
        requires
            old(self).base(),
            old(self).ready(),
        ensures
            final(self).base(),
            *final(self) == (MosaicWriter { bucket_writers: final(self).bucket_writers, ..*old(self) }),
            all_hold(final(self).schema, final(self).bucket_writers@, no_rows(final(self).schema.columns@.len()), 0),
            all_limited(final(self).bucket_writers@, final(self).limits@),
    {
        let n: usize = self.bucket_writers.len();
        let ghost schema = self.schema;
        let ghost rows = no_rows(schema.columns@.len());
        let mut b: usize = 0;
        while b < n
            invariant
                b <= n,
                n == self.bucket_writers@.len(),
                schema == self.schema,
                schema.wf(),
                n == schema.num_buckets,
                rows == no_rows(schema.columns@.len()),
                *self == (MosaicWriter { bucket_writers: self.bucket_writers, ..*old(self) }),
                all_hold(schema, old(self).bucket_writers@, old(self).rows@, old(self).current_row_group_rows as nat),
                forall|i: int| 0 <= i < b ==> holds_rows(schema, #[trigger] self.bucket_writers@[i], rows, 0, i),
                forall|i: int| b <= i < n ==> #[trigger] self.bucket_writers@[i] == old(self).bucket_writers@[i],
                all_limited(self.bucket_writers@, self.limits@),
            decreases n - b,
        {
            proof {
                assert(self.bucket_writers@[b as int] == old(self).bucket_writers@[b as int]);
                assert(holds_rows(
                    schema,
                    old(self).bucket_writers@[b as int],
                    old(self).rows@,
                    old(self).current_row_group_rows as nat,
                    b as int,
                ));
                self.bucket_writers@[b as int].lemma_wf();
            }
            self.bucket_writers[b].reset();
            proof {
                lemma_no_rows_held(schema, self.bucket_writers@[b as int], b as int);
            }
            b += 1;
        }
    }

    /// Writes the row group that is gathered, if there is one.
    fn flush_row_group(&mut self) -> (result: Result<(), Error>)
        requires
            old(self).base(),
            old(self).ready(),
        ensures
            final(self).base(),
            final(self).same_writer(old(self)),
            final(self).state_of() == old(self).state_of(),
            old(self).buffered_rows() == 0 ==> result is Ok && *final(self) == *old(self),
            old(self).buffered_rows() > 0 ==> match buckets_bytes(
                old(self).format_of(),
                old(self).buckets(),
                old(self).buckets().len(),
            ) {
                Ok(bytes) => match result {
                    Ok(_) => final(self).ready() && final(self).is_flushed(old(self), bytes),
                    Err(e) => e is Io && !old(self).never_fails(),
                },
                Err(e) => result matches Err(x) && (x == e || (x is Io && !old(self).never_fails())),
            },
            result is Err ==> final(self).groups() == old(self).groups() && final(self).totals() == old(self).totals(),
    {
        if self.current_row_group_rows == 0 {
            return Ok(());
        }
        let ghost log = log_of(*self);
        let ghost before = *self;
        proof {
            assert forall|b: int| 0 <= b < self.bucket_writers@.len() implies (#[trigger] self.bucket_writers@[b]).wf() by {
                assert(holds_rows(self.schema, self.bucket_writers@[b], self.rows@, self.current_row_group_rows as nat, b));
            }
        }
        let written: WrittenBuckets = match write_buckets(&mut self.out, &self.bucket_writers, self.format) {
            Ok(written) => written,
            Err(e) => {
                return Err(e);
            },
        };
        let ghost bytes = buckets_bytes(self.format, self.bucket_writers@, self.bucket_writers@.len())->Ok_0;
        proof {
            lemma_logged_longer(self.format, self.schema, before.logs@, before.out.written(), bytes);
        }
        self.total_uncompressed = self.total_uncompressed.saturating_add(written.raw_bytes);
        self.total_compressed = self.total_compressed.saturating_add(written.stored_bytes);
        self.reset_buckets();
        let meta = RowGroupMeta {
            num_rows: self.current_row_group_rows,
            bucket_offsets: written.offsets,
            bucket_layouts: written.layouts,
            stats: Vec::new(),
        };
        proof {
            assert(stands_at(self.out.written(), log.start as int, bytes)) by {
                assert(self.out.written().subrange(log.start as int, (log.start + bytes.len()) as int) =~= bytes);
            }
            assert(meta@.bucket_offsets =~= group_of(self.format, log).bucket_offsets);
            assert(meta@.bucket_layouts =~= group_of(self.format, log).bucket_layouts);
            assert(is_logged(self.format, self.schema, log, self.out.written()));
        }
        self.row_group_metas.push(meta);
        self.logs = Ghost(self.logs@.push(log));
        self.rows = Ghost(no_rows(self.schema.columns@.len()));
        self.current_row_group_rows = 0;
        self.current_buffered_size = 0;
        Ok(())
    }
}

// ---------------------------------------------------------------- batches

/// What keeps the columns of a batch from being taken into a bucket.
pub open spec fn bucket_append_error(w: BucketWriter, cols: Seq<&Column>, num_rows: nat) -> Option<Error> {
    if num_rows == 0 || cols.len() == 0 {
        None
    } else {
        match columns_error(w.types(), cols) {
            Some(e) => Some(e),
            None => if cells_fit(w.cells(), physical_columns(w.types(), batch_rows(w.types(), cols))) {
                None
            } else {
                Some(Error::TooManyRows)
            },
        }
    }
}

/// How many bytes the columns of a batch count for in a bucket.
pub open spec fn bucket_append_size(w: BucketWriter, cols: Seq<&Column>, num_rows: nat) -> usize {
    if num_rows == 0 || cols.len() == 0 {
        0
    } else {
        clamped(
            (value_bytes(physical_columns(w.types(), batch_rows(w.types(), cols))) + num_rows * bytes_for(cols.len() as int)) as nat,
        )
    }
}

/// A batch of columns, the place of each column in it, and the buckets that it goes to.
pub struct Append<'a> {
    pub schema: MosaicSchema,
    pub map: Seq<usize>,
    pub batch: &'a ColumnBatch,
    pub buckets: Seq<BucketWriter>,
}

impl<'a> Append<'a> {
    pub open spec fn columns(self, b: int) -> Seq<&'a Column> {
        bucket_columns_of(self.schema, self.map, self.batch, b)
    }

    /// The first of the first `n` buckets that cannot take the batch.
    pub open spec fn error(self, n: nat) -> Option<Error>
        decreases n,
    {
        if n == 0 {
            None
        } else {
            first_error(
                self.error((n - 1) as nat),
                bucket_append_error(self.buckets[n - 1], self.columns(n - 1), self.batch.num_rows as nat),
            )
        }
    }

    /// How many bytes the batch counts for in the first `n` buckets, as far as they can be told.
    pub open spec fn size(self, n: nat) -> u64
        decreases n,
    {
        if n == 0 {
            0
        } else {
            sum_of(
                self.size((n - 1) as nat) as int,
                bucket_append_size(self.buckets[n - 1], self.columns(n - 1), self.batch.num_rows as nat) as int,
            )
        }
    }

    proof fn lemma_error(self, n: nat, m: nat)
        requires
            n <= m,
            self.error(n) is Some,
        ensures
            self.error(m) == self.error(n),
        decreases m,
    {
        if n < m {
            self.lemma_error(n, (m - 1) as nat);
        }
    }

    proof fn lemma_no_error(self, n: nat, b: int)
        requires
            self.error(n) is None,
            0 <= b < n,
        ensures
            bucket_append_error(self.buckets[b], self.columns(b), self.batch.num_rows as nat) is None,
        decreases n,
    {
        if b < n - 1 {
            self.lemma_no_error((n - 1) as nat, b);
        }
    }
}

/// The rows of all columns together with those of a batch.
proof fn lemma_members_joined(schema: MosaicSchema, rows: Seq<Seq<Row>>, more: Seq<Seq<Row>>, b: int)
    requires
        schema.wf(),
        0 <= b < schema.num_buckets,
        rows.len() == schema.columns@.len(),
    ensures
        members_rows(schema, joined_rows(rows, more), b) == joined_rows(members_rows(schema, rows, b), members_rows(schema, more, b)),
{
    assert(schema.bucket_ok(b));
    assert(members_rows(schema, joined_rows(rows, more), b) =~= joined_rows(
        members_rows(schema, rows, b),
        members_rows(schema, more, b),
    ));
}

/// Takes the columns of a batch into a bucket.
fn append_bucket(
    w: &mut BucketWriter,
    schema: &MosaicSchema,
    batch_col_map: &Vec<usize>,
    batch: &ColumnBatch,
    b: usize,
    Ghost(rows): Ghost<Seq<Seq<Row>>>,
    Ghost(num_rows): Ghost<nat>,
) -> (result: Result<usize, Error>)
    requires
        schema.wf(),
        b < schema.num_buckets,
        batch.wf(),
        batch.columns@.len() == schema.columns@.len(),
        batch_col_map@.len() == schema.columns@.len(),
        forall|i: int| 0 <= i < batch_col_map@.len() ==> (#[trigger] batch_col_map@[i]) < schema.columns@.len(),
        rows.len() == schema.columns@.len(),
        holds_rows(*schema, *old(w), rows, num_rows, b as int),
    ensures
        ({
            let cols = bucket_columns_of(*schema, batch_col_map@, batch, b as int);
            match bucket_append_error(*old(w), cols, batch.num_rows as nat) {
                Some(e) => result == Err::<usize, Error>(e),
                None => result == Ok::<usize, Error>(bucket_append_size(*old(w), cols, batch.num_rows as nat)) && holds_rows(
                    *schema,
                    *final(w),
                    joined_rows(rows, rows_of_batch(*schema, batch_col_map@, *batch)),
                    num_rows + batch.num_rows as nat,
                    b as int,
                ) && final(w).dict_limits() == old(w).dict_limits(),
            }
        }),
{
    let cols: Vec<&Column> = bucket_column_refs(schema, batch_col_map, batch, b);
    let ghost types = schema.bucket_types(b as int);
    let ghost more = rows_of_batch(*schema, batch_col_map@, *batch);
    let ghost own = members_rows(*schema, rows, b as int);
    let ghost own_more = members_rows(*schema, more, b as int);
    proof {
        assert(schema.bucket_ok(b as int));
        lemma_members_rows(*schema, batch_col_map@, batch, b as int);
        lemma_members_joined(*schema, rows, more, b as int);
        batches_join(types, own, own_more);
        assert forall|i: int| 0 <= i < cols@.len() implies consistent(*#[trigger] cols@[i]) && cols@[i].nulls@.len() == batch.num_rows by {
            let g = schema.bucket_to_global@[b as int]@[i];
            assert(g < schema.columns@.len());
            assert(batch_col_map@[g as int] < schema.columns@.len());
            assert(consistent(batch.columns@[batch_col_map@[g as int] as int]));
        }
        if cols@.len() == 0 || batch.num_rows == 0 {
            assert forall|k: int| 0 <= k < own.len() implies #[trigger] joined_rows(own, own_more)[k] == own[k] by {
                let g = schema.bucket_to_global@[b as int]@[k];
                assert(g < schema.columns@.len());
                lemma_rows_len(schema.columns@[g as int].data_type, batch.columns@[batch_col_map@[g as int] as int]);
                assert(batch_col_map@[g as int] < schema.columns@.len());
                assert(consistent(batch.columns@[batch_col_map@[g as int] as int]));
                assert(own_more[k].len() == 0);
                assert(own[k] + own_more[k] =~= own[k]);
            }
            assert(joined_rows(own, own_more) =~= own);
        }
    }
    if cols.len() == 0 {
        return Ok(0);
    }
    let data_types: Vec<&DataType> = schema.bucket_type_refs(b);
    assert(cols@[0].nulls@.len() == batch.num_rows);
    w.write_columns(cols.as_slice(), data_types.as_slice())
}

/// The rows of a batch that passes the checks fit the columns.
proof fn lemma_batch_rows_ok(schema: MosaicSchema, map: Seq<usize>, batch: &ColumnBatch, buckets: Seq<BucketWriter>)
    requires
        schema.wf(),
        batch.wf(),
        batch.columns@.len() == schema.columns@.len(),
        map.len() == schema.columns@.len(),
        forall|i: int| 0 <= i < map.len() ==> (#[trigger] map[i]) < schema.columns@.len(),
        buckets.len() == schema.num_buckets,
        forall|b: int| 0 <= b < buckets.len() ==> (#[trigger] buckets[b]).types() == schema.bucket_types(b),
        (Append { schema, map, batch, buckets }).error(buckets.len()) is None,
    ensures
        rows_ok(schema, rows_of_batch(schema, map, *batch), batch.num_rows as nat),
{
    let rows = rows_of_batch(schema, map, *batch);
    let app = Append { schema, map, batch, buckets };
    assert forall|g: int| 0 <= g < rows.len() implies (#[trigger] rows[g]).len() == batch.num_rows && rows_fit(
        schema.columns@[g].data_type,
        rows[g],
    ) by {
        let dt = schema.columns@[g].data_type;
        assert(map[g] < schema.columns@.len());
        assert(consistent(batch.columns@[map[g] as int]));
        lemma_rows_len(dt, batch.columns@[map[g] as int]);
        if batch.num_rows > 0 {
            assert(schema.column_placed(g));
            assert(schema.columns.len() == schema.columns@.len());
            let b = schema.columns@[g].bucket_id as int;
            assert(schema.bucket_ok(b));
            let members = schema.bucket_to_global@[b]@;
            let k = choose|k: int| 0 <= k < members.len() && members[k] == g as usize;
            app.lemma_no_error(buckets.len(), b);
            let cols = app.columns(b);
            assert forall|i: int| 0 <= i < cols.len() implies consistent(*#[trigger] cols[i]) && cols[i].nulls@.len() == batch.num_rows by {
                assert(members[i] < schema.columns@.len());
                assert(map[members[i] as int] < schema.columns@.len());
                assert(consistent(batch.columns@[map[members[i] as int] as int]));
            }
            assert(buckets[b].types() == schema.bucket_types(b));
            accepted_rows_fit(schema.bucket_types(b), cols, batch.num_rows as nat);
            assert(batch_rows(schema.bucket_types(b), cols)[k] == rows[g]);
            assert(schema.bucket_types(b)[k] == dt);
        }
    }
}

impl<S: OutputFile> MosaicWriter<S> {
    /// The batch on its way to the buckets.
    pub open spec fn append_of<'a>(&self, batch: &'a ColumnBatch) -> Append<'a> {
        Append { schema: self.schema_of(), map: self.column_map(), batch, buckets: self.buckets() }
    }

    /// What keeps a batch of the right columns from being taken.
    pub open spec fn append_error(&self, batch: &ColumnBatch) -> Option<Error> {
        match self.append_of(batch).error(self.buckets().len()) {
            Some(e) => Some(e),
            None => if self.buffered_rows() + batch.num_rows > usize::MAX {
                Some(Error::TooManyRows)
            } else {
                None
            },
        }
    }

    /// The rows that are gathered once a batch is taken.
    pub open spec fn joined_with(&self, batch: &ColumnBatch) -> Seq<Seq<Row>> {
        joined_rows(self.buffered(), rows_of_batch(self.schema_of(), self.column_map(), *batch))
    }

    /// The bytes that are gathered once a batch is taken.
    pub open spec fn bytes_with(&self, batch: &ColumnBatch) -> u64 {
        sum_of(self.buffered_bytes() as int, self.append_of(batch).size(self.buckets().len()) as int)
    }

    /// Takes a batch of the right columns into the buckets.
    fn append_batch(&mut self, batch: &ColumnBatch) -> (result: Result<(), Error>)
        requires
            old(self).base(),
            old(self).ready(),
            batch.wf(),
            batch_error(old(self).schema, old(self).batch_col_map@, *batch) is None,
        ensures
            final(self).base(),
            final(self).same_writer(old(self)),
            final(self).state_of() == old(self).state_of(),
            match old(self).append_error(batch) {
                Some(e) => result == Err::<(), Error>(e) && final(self).written() == old(self).written() && final(self).groups()
                    == old(self).groups() && final(self).totals() == old(self).totals(),
                None => result is Ok && final(self).ready() && final(self).written() == old(self).written() && final(self).groups()
                    == old(self).groups() && final(self).totals() == old(self).totals() && final(self).buffered()
                    == old(self).joined_with(batch) && final(self).buffered_rows() == old(self).buffered_rows() + batch.num_rows
                    && final(self).buffered_bytes() == old(self).bytes_with(batch),
            },
    {
        let n: usize = self.bucket_writers.len();
        let ghost schema = self.schema;
        let ghost map = self.batch_col_map@;
        let ghost app = self.append_of(batch);
        let ghost rows = self.rows@;
        let ghost count = self.current_row_group_rows as nat;
        let ghost joined = self.joined_with(batch);
        let mut size: u64 = 0;
        let mut b: usize = 0;
        while b < n
            invariant
                b <= n,
                n == self.bucket_writers@.len(),
                n == schema.num_buckets,
                schema == self.schema,
                schema.wf(),
                map == self.batch_col_map@,
                batch.wf(),
                batch.columns@.len() == schema.columns@.len(),
                map.len() == schema.columns@.len(),
                forall|i: int| 0 <= i < map.len() ==> (#[trigger] map[i]) < schema.columns@.len(),
                *self == (MosaicWriter { bucket_writers: self.bucket_writers, ..*old(self) }),
                old(self).base(),
                app == old(self).append_of(batch),
                app.buckets.len() == n,
                rows == old(self).rows@,
                rows.len() == schema.columns@.len(),
                count == old(self).current_row_group_rows,
                joined == old(self).joined_with(batch),
                all_hold(schema, app.buckets, rows, count),
                app.error(b as nat) is None,
                size == app.size(b as nat),
                forall|i: int|
                    0 <= i < b ==> holds_rows(schema, #[trigger] self.bucket_writers@[i], joined, count + batch.num_rows as nat, i),
                forall|i: int| b <= i < n ==> #[trigger] self.bucket_writers@[i] == app.buckets[i],
                all_limited(self.bucket_writers@, self.limits@),
            decreases n - b,
        {
            proof {
                assert(self.bucket_writers@[b as int] == app.buckets[b as int]);
                assert(holds_rows(schema, app.buckets[b as int], rows, count, b as int));
                if app.error((b + 1) as nat) is Some {
                    app.lemma_error((b + 1) as nat, n as nat);
                }
            }
            let ghost others = self.bucket_writers@;
            match append_bucket(
                &mut self.bucket_writers[b],
                &self.schema,
                &self.batch_col_map,
                batch,
                b,
                Ghost(rows),
                Ghost(count),
            ) {
                Ok(added) => {
                    size = size.saturating_add(added as u64);
                },
                Err(e) => {
                    return Err(e);
                },
            }
            b += 1;
        }
        let total: usize = match self.current_row_group_rows.checked_add(batch.num_rows) {
            Some(total) => total,
            None => {
                return Err(Error::TooManyRows);
            },
        };
        proof {
            let more = rows_of_batch(schema, map, *batch);
            lemma_batch_rows_ok(schema, map, batch, app.buckets);
            assert forall|g: int| 0 <= g < joined.len() implies (#[trigger] joined[g]).len() == count + batch.num_rows && rows_fit(
                schema.columns@[g].data_type,
                joined[g],
            ) by {
                assert(joined[g] == rows[g] + more[g]);
                assert(rows[g].len() == count && more[g].len() == batch.num_rows);
                let dt = schema.columns@[g].data_type;
                assert forall|i: int| 0 <= i < joined[g].len() implies row_fits(dt, #[trigger] joined[g][i]) by {
                    if i < count {
                        assert(row_fits(dt, rows[g][i]));
                    } else {
                        assert(row_fits(dt, more[g][i - count]));
                    }
                }
            }
        }
        self.rows = Ghost(joined);
        self.current_row_group_rows = total;
        self.current_buffered_size = self.current_buffered_size.saturating_add(size);
        Ok(())
    }
}

// ---------------------------------------------------------------- the end of a file

/// The bytes of a schema as they stand in the file.
pub open spec fn schema_body(format: BucketFormat, raw: Seq<u8>) -> Result<Seq<u8>, Error> {
    if format.compression == COMPRESSION_NONE {
        Ok(raw)
    } else if format.compression == COMPRESSION_ZSTD {
        compressed(raw, format.zstd_level as int, SizeField::SchemaUncompressedSize)
    } else {
        Err(Error::UnsupportedOutputCompression { code: format.compression })
    }
}

/// The schema block: the length of the schema, and its bytes.
pub open spec fn schema_block(format: BucketFormat, raw: Seq<u8>) -> Result<Seq<u8>, Error> {
    if raw.len() > u32::MAX {
        Err(Error::SizeOverU32 { field: SizeField::SchemaUncompressedSize, size: raw.len() as usize })
    } else {
        match schema_body(format, raw) {
            Err(e) => Err(e),
            Ok(body) => Ok(be_bytes(raw.len(), 4) + body),
        }
    }
}

/// The bytes of the schema can be restored from those in the file.
pub open spec fn schema_restorable(format: BucketFormat, raw: Seq<u8>) -> bool {
    schema_body(format, raw) matches Ok(body) && (format.compression == COMPRESSION_ZSTD ==> decompressed(body, raw.len()) == Ok::<
        Seq<u8>,
        Error,
    >(raw))
}

/// The bytes of the statistics of row group `i`; there are none where none are given.
pub open spec fn stats_at(stats: Seq<Vec<u8>>, i: int) -> Seq<u8> {
    if i < stats.len() {
        stats[i]@
    } else {
        Seq::empty()
    }
}

/// The index of the first `n` row groups, each with the bytes of its statistics behind it.
pub open spec fn index_bytes(groups: Seq<RowGroupView>, stats: Seq<Vec<u8>>, n: nat) -> Result<Seq<u8>, Error>
    decreases n,
{
    if n == 0 {
        Ok(Seq::empty())
    } else {
        match index_bytes(groups, stats, (n - 1) as nat) {
            Err(e) => Err(e),
            Ok(before) => match row_group_error(groups[n - 1]) {
                Some(e) => Err(e),
                None => Ok(before + row_group_bytes(groups[n - 1]) + stats_at(stats, n - 1)),
            },
        }
    }
}

/// What stands behind the row groups of a file: the schema block, the index and the footer.
pub open spec fn file_tail(
    format: BucketFormat,
    raw: Seq<u8>,
    groups: Seq<RowGroupView>,
    stats: Seq<Vec<u8>>,
    num_buckets: int,
    start: nat,
) -> Result<Seq<u8>, Error> {
    match schema_block(format, raw) {
        Err(e) => Err(e),
        Ok(block) => match index_bytes(groups, stats, groups.len()) {
            Err(e) => Err(e),
            Ok(index) => match first_error(
                over_u32(SizeField::NumBuckets, num_buckets),
                over_u32(SizeField::NumRowGroups, groups.len() as int),
            ) {
                Some(e) => Err(e),
                None => Ok(
                    block + index + footer_bytes(
                        Footer {
                            index_offset: (start + block.len()) as u64,
                            schema_block_offset: start as u64,
                            num_buckets: num_buckets as u32,
                            num_row_groups: groups.len() as u32,
                            compression: format.compression,
                        },
                    ),
                ),
            },
        },
    }
}

pub open spec fn groups_of(format: BucketFormat, logs: Seq<GroupLog>) -> Seq<RowGroupView> {
    Seq::new(logs.len(), |i: int| group_of(format, logs[i]))
}

/// A whole file: row groups up to `start`, and what stands behind them.
#[verifier::opaque]
pub open spec fn is_file(
    file: Seq<u8>,
    start: int,
    format: BucketFormat,
    schema: MosaicSchema,
    raw: Seq<u8>,
    logs: Seq<GroupLog>,
    stats: Seq<Vec<u8>>,
) -> bool {
    &&& 0 <= start <= file.len() <= u64::MAX
    &&& schema.wf()
    &&& all_logged(format, schema, logs, file.take(start))
    &&& file_tail(format, raw, groups_of(format, logs), stats, schema.num_buckets as int, start as nat) == Ok::<Seq<u8>, Error>(
        file.skip(start),
    )
    &&& schema_restorable(format, raw)
}

proof fn lemma_is_file(
    body: Seq<u8>,
    file: Seq<u8>,
    format: BucketFormat,
    schema: MosaicSchema,
    raw: Seq<u8>,
    logs: Seq<GroupLog>,
    stats: Seq<Vec<u8>>,
)
    requires
        file.len() <= u64::MAX,
        schema.wf(),
        all_logged(format, schema, logs, body),
        file_tail(format, raw, groups_of(format, logs), stats, schema.num_buckets as int, body.len()) matches Ok(tail) && file == body
            + tail,
        schema_restorable(format, raw),
    ensures
        is_file(file, body.len() as int, format, schema, raw, logs, stats),
{
    reveal(is_file);
    assert(file.take(body.len() as int) =~= body);
    assert(file.skip(body.len() as int) =~= file_tail(
        format,
        raw,
        groups_of(format, logs),
        stats,
        schema.num_buckets as int,
        body.len(),
    )->Ok_0);
}

proof fn lemma_index_error(groups: Seq<RowGroupView>, stats: Seq<Vec<u8>>, n: nat, m: nat)
    requires
        n <= m,
        index_bytes(groups, stats, n) is Err,
    ensures
        index_bytes(groups, stats, m) == index_bytes(groups, stats, n),
    decreases m,
{
    if n < m {
        lemma_index_error(groups, stats, n, (m - 1) as nat);
    }
}

/// Writes the schema block.
fn write_schema<S: OutputFile>(out: &mut S, raw: &Vec<u8>, format: BucketFormat) -> (result: Result<(), Error>)
    ensures
        final(out).never_fails() == old(out).never_fails(),
        match schema_block(format, raw@) {
            Ok(bytes) => match result {
                Ok(_) => final(out).written() == old(out).written() + bytes && schema_restorable(format, raw@),
                Err(e) => e is Io && !old(out).never_fails(),
            },
            Err(e) => result matches Err(x) && (x == e || (x is Io && !old(out).never_fails())),
        },
{
    let ghost start = out.written();
    let size: u32 = match to_u32(raw.len(), SizeField::SchemaUncompressedSize) {
        Ok(size) => size,
        Err(e) => {
            return Err(e);
        },
    };
    let mut head: Vec<u8> = Vec::new();
    put_be(&mut head, size as u64, 4);
    assert(head@ =~= be_bytes(raw@.len(), 4));
    match out.write(head.as_slice()) {
        Ok(_) => {},
        Err(e) => {
            return Err(e);
        },
    }
    if format.compression == COMPRESSION_NONE {
        match out.write(raw.as_slice()) {
            Ok(_) => {},
            Err(e) => {
                return Err(e);
            },
        }
        assert(out.written() =~= start + (head@ + raw@));
        return Ok(());
    }
    if format.compression != COMPRESSION_ZSTD {
        return Err(Error::UnsupportedOutputCompression { code: format.compression });
    }
    let body: Vec<u8> = match compress_zstd(raw.as_slice(), format.zstd_level, SizeField::SchemaUncompressedSize) {
        Ok(body) => body,
        Err(e) => {
            return Err(e);
        },
    };
    match out.write(body.as_slice()) {
        Ok(_) => {},
        Err(e) => {
            return Err(e);
        },
    }
    assert(out.written() =~= start + (head@ + body@));
    Ok(())
}

/// The metadata tell of the given row groups.
spec fn views_are(metas: Seq<RowGroupMeta>, groups: Seq<RowGroupView>) -> bool {
    &&& metas.len() == groups.len()
    &&& forall|i: int| #![trigger metas[i]] 0 <= i < metas.len() ==> is_view(metas[i], groups[i])
}

spec fn is_view(meta: RowGroupMeta, group: RowGroupView) -> bool {
    meta@ == group && group.bucket_offsets.len() == group.bucket_layouts.len()
}

/// The index of row groups.
fn build_index(metas: &Vec<RowGroupMeta>, stats: &Vec<Vec<u8>>, Ghost(groups): Ghost<Seq<RowGroupView>>) -> (result: Result<Vec<u8>, Error>)
    requires
        views_are(metas@, groups),
    ensures
        match index_bytes(groups, stats@, groups.len()) {
            Ok(bytes) => result matches Ok(found) && found@ == bytes,
            Err(e) => result == Err::<Vec<u8>, Error>(e),
        },
{
    let n: usize = metas.len();
    let mut index: Vec<u8> = Vec::new();
    let mut i: usize = 0;
    assert(index@ =~= Seq::<u8>::empty());
    while i < n
        invariant
            i <= n,
            n == metas@.len(),
            views_are(metas@, groups),
            index_bytes(groups, stats@, i as nat) == Ok::<Seq<u8>, Error>(index@),
        decreases n - i,
    {
        let meta: &RowGroupMeta = &metas[i];
        proof {
            assert(is_view(metas@[i as int], groups[i as int]));
            if index_bytes(groups, stats@, (i + 1) as nat) is Err {
                lemma_index_error(groups, stats@, (i + 1) as nat, n as nat);
            }
        }
        match write_row_group(&mut index, meta.num_rows, &meta.bucket_offsets, &meta.bucket_layouts) {
            Ok(_) => {},
            Err(e) => {
                return Err(e);
            },
        }
        let ghost front = index@;
        if i < stats.len() {
            index.extend_from_slice(stats[i].as_slice());
        }
        assert(index@ =~= front + stats_at(stats@, i as int));
        i += 1;
    }
    Ok(index)
}

/// Writes what stands behind the row groups.
fn write_tail<S: OutputFile>(
    out: &mut S,
    raw: &Vec<u8>,
    metas: &Vec<RowGroupMeta>,
    stats: &Vec<Vec<u8>>,
    num_buckets: usize,
    format: BucketFormat,
    Ghost(groups): Ghost<Seq<RowGroupView>>,
) -> (result: Result<(), Error>)
    requires
        views_are(metas@, groups),
    ensures
        final(out).never_fails() == old(out).never_fails(),
        match file_tail(format, raw@, groups, stats@, num_buckets as int, old(out).written().len()) {
            Ok(bytes) => match result {
                Ok(_) => final(out).written() == old(out).written() + bytes && schema_restorable(format, raw@)
                    && final(out).written().len() <= u64::MAX,
                Err(e) => e is Io && !old(out).never_fails(),
            },
            Err(e) => result matches Err(x) && (x == e || (x is Io && !old(out).never_fails())),
        },
{
    let ghost start = out.written();
    let schema_block_offset: u64 = out.pos();
    match write_schema(out, raw, format) {
        Ok(_) => {},
        Err(e) => {
            return Err(e);
        },
    }
    let ghost block = schema_block(format, raw@)->Ok_0;
    let index_offset: u64 = out.pos();
    let index: Vec<u8> = match build_index(metas, stats, Ghost(groups)) {
        Ok(index) => index,
        Err(e) => {
            return Err(e);
        },
    };
    match out.write(index.as_slice()) {
        Ok(_) => {},
        Err(e) => {
            return Err(e);
        },
    }
    let bucket_count: u32 = match to_u32(num_buckets, SizeField::NumBuckets) {
        Ok(count) => count,
        Err(e) => {
            return Err(e);
        },
    };
    let group_count: u32 = match to_u32(metas.len(), SizeField::NumRowGroups) {
        Ok(count) => count,
        Err(e) => {
            return Err(e);
        },
    };
    let footer = Footer {
        index_offset,
        schema_block_offset,
        num_buckets: bucket_count,
        num_row_groups: group_count,
        compression: format.compression,
    };
    let footer_data: Vec<u8> = footer.encode();
    match out.write(footer_data.as_slice()) {
        Ok(_) => {},
        Err(e) => {
            return Err(e);
        },
    }
    assert(out.written() =~= start + (block + index@ + footer_bytes(footer)));
    match out.flush() {
        Ok(_) => {},
        Err(e) => {
            return Err(e);
        },
    }
    let _end: u64 = out.pos();
    Ok(())
}

// ---------------------------------------------------------------- files

/// The sizes that the size of a file is estimated by.
#[derive(Clone, Copy, Debug, PartialEq, Eq, Structural)]
pub struct FileSizes {
    /// The bytes in the file.
    pub written: u64,
    /// The bytes that are gathered.
    pub buffered: u64,
    /// The bytes of the row groups before and after they were compressed.
    pub total_uncompressed: u64,
    pub total_compressed: u64,
}

/// An error that writing some row group of the given rows ends with, with dictionaries within the
/// given limits and to an output that may fail or not.
pub open spec fn is_group_error(
    format: BucketFormat,
    schema: MosaicSchema,
    rows: Seq<Seq<Row>>,
    num_rows: nat,
    limits: (usize, usize),
    may_fail: bool,
    e: Error,
) -> bool {
    (e is Io && may_fail) || exists|ws: Seq<BucketWriter>| #[trigger]
        all_hold(schema, ws, rows, num_rows) && all_limited(ws, limits) && buckets_bytes(format, ws, ws.len()) == Err::<Seq<u8>, Error>(e)
}

impl<S: OutputFile> MosaicWriter<S> {
    /// A writer of the given columns, in the order in which batches have them. The bytes of the
    /// schema are written as they are.
    pub fn new(out: S, fields: &Vec<FieldSpec>, schema_raw: Vec<u8>, options: WriterOptions) -> (result: Result<Self, Error>)
        ensures
            options.num_buckets == 0 ==> result == Err::<Self, Error>(Error::NoBuckets),
            result matches Err(e) ==> options.num_buckets == 0 || (e == Error::TooManyColumns && (fields@.len() * capped_buckets(
                options.num_buckets as int,
                fields@.len() as int,
            ) > usize::MAX || exists|schema: MosaicSchema, map: Seq<usize>|
                #[trigger] schema.lays_out(map, fields@, options.num_buckets as int) && schema.is_crowded())),
            result matches Ok(writer) ==> writer.wf() && writer.state_of() is Open && writer.written() == out.written()
                && writer.never_fails() == out.never_fails() && writer.schema_bytes() == schema_raw@ && writer.schema_of().lays_out(
                writer.column_map(),
                fields@,
                options.num_buckets as int,
            ) && writer.format_of() == (BucketFormat {
                compression: options.compression,
                zstd_level: options.zstd_level,
                page_size_threshold: options.page_size_threshold,
            }) && writer.max_size() == options.row_group_max_size && writer.dict_options() == (
                options.max_dict_total_bytes,
                options.max_dict_entries,
            ) && all_limited(writer.buckets(), writer.dict_options()) && writer.buffered() == no_rows(fields@.len())
                && writer.buffered_rows() == 0 && writer.buffered_bytes() == 0 && writer.groups() == Seq::<GroupLog>::empty()
                && writer.totals() == (0u64, 0u64),
    {
        match MosaicSchema::from_fields(fields, options.num_buckets) {
            Ok((schema, map)) => Ok(Self::with_map(out, schema, schema_raw, options, map)),
            Err(e) => Err(e),
        }
    }

    /// A writer of the columns of a schema, in the order of the schema.
    pub fn from_mosaic_schema(out: S, schema: MosaicSchema, schema_raw: Vec<u8>, options: WriterOptions) -> (writer: Self)
        requires
            schema.wf(),
        ensures
            writer.wf(),
            writer.state_of() is Open,
            writer.schema_of() == schema,
            writer.schema_bytes() == schema_raw@,
            writer.written() == out.written(),
            writer.never_fails() == out.never_fails(),
            writer.format_of() == (BucketFormat {
                compression: options.compression,
                zstd_level: options.zstd_level,
                page_size_threshold: options.page_size_threshold,
            }),
            writer.max_size() == options.row_group_max_size,
            writer.dict_options() == (options.max_dict_total_bytes, options.max_dict_entries),
            all_limited(writer.buckets(), writer.dict_options()),
            writer.column_map().len() == schema.columns@.len(),
            forall|g: int| 0 <= g < schema.columns@.len() ==> #[trigger] writer.column_map()[g] == g,
            writer.buffered() == no_rows(schema.columns@.len()),
            writer.buffered_rows() == 0,
            writer.buffered_bytes() == 0,
            writer.groups() == Seq::<GroupLog>::empty(),
            writer.totals() == (0u64, 0u64),
    {
        let mut map: Vec<usize> = Vec::new();
        let mut g: usize = 0;
        while g < schema.columns.len()
            invariant
                g <= schema.columns@.len(),
                map@.len() == g,
                forall|i: int| 0 <= i < g ==> #[trigger] map@[i] == i,
            decreases schema.columns@.len() - g,
        {
            map.push(g);
            g += 1;
        }
        Self::with_map(out, schema, schema_raw, options, map)
    }

    /// The place of each column in the batches.
    pub(crate) fn batch_columns(&self) -> (map: &Vec<usize>)
        requires
            self.wf(),
        ensures
            map@ == self.column_map(),
            map@.len() == self.schema_of().columns@.len(),
    {
        &self.batch_col_map
    }

    pub fn schema(&self) -> (schema: &MosaicSchema)
        ensures
            *schema == self.schema_of(),
    {
        &self.schema
    }

    pub fn output(&self) -> (out: &S)
        ensures
            out.written() == self.written(),
    {
        &self.out
    }

    /// The output for whoever owns the writer. It may be put to any use that leaves what is written
    /// as it is.
    pub fn output_mut(&mut self) -> (out: &mut S)
        requires
            old(self).wf(),
        ensures
            out.written() == old(self).written(),
            out.never_fails() == old(self).never_fails(),
            final(self).written() == final(out).written(),
            final(self).never_fails() == final(out).never_fails(),
            final(self).schema_of() == old(self).schema_of(),
            final(self).schema_bytes() == old(self).schema_bytes(),
            final(self).format_of() == old(self).format_of(),
            final(self).max_size() == old(self).max_size(),
            final(self).column_map() == old(self).column_map(),
            final(self).dict_options() == old(self).dict_options(),
            final(self).state_of() == old(self).state_of(),
            final(self).groups() == old(self).groups(),
            final(self).buffered() == old(self).buffered(),
            final(self).buffered_rows() == old(self).buffered_rows(),
            final(self).buffered_bytes() == old(self).buffered_bytes(),
            final(self).buckets() == old(self).buckets(),
            final(self).totals() == old(self).totals(),
            final(out).written() == old(self).written() ==> final(self).wf(),
    {
        &mut self.out
    }

    pub fn state(&self) -> (state: WriterState)
        ensures
            state == self.state_of(),
    {
        self.state
    }

    /// The number of row groups that are written.
    pub fn num_row_groups(&self) -> (count: usize)
        requires
            self.wf(),
        ensures
            count == self.groups().len(),
    {
        self.row_group_metas.len()
    }

    /// What the size of the file is estimated by.
    pub fn file_sizes(&self) -> (sizes: FileSizes)
        ensures
            sizes.written == self.written().len(),
            sizes.buffered == self.buffered_bytes(),
            (sizes.total_uncompressed, sizes.total_compressed) == self.totals(),
    {
        FileSizes {
            written: self.out.pos(),
            buffered: self.current_buffered_size,
            total_uncompressed: self.total_uncompressed,
            total_compressed: self.total_compressed,
        }
    }

    /// The rows of a batch are gathered, and nothing is written.
    pub open spec fn is_joined(&self, before: &Self, batch: &ColumnBatch) -> bool {
        &&& self.written() == before.written()
        &&& self.groups() == before.groups()
        &&& self.totals() == before.totals()
        &&& all_limited(self.buckets(), before.dict_options())
        &&& self.buffered() == before.joined_with(batch)
        &&& self.buffered_rows() == before.buffered_rows() + batch.num_rows
        &&& self.buffered_bytes() == before.bytes_with(batch)
    }

    /// The totals have grown by the bytes of the buckets of a row group.
    pub open spec fn has_grown_by(&self, before: &Self, log: GroupLog) -> bool {
        self.totals() == (
            sum_of(before.totals().0 as int, raw_total(before.format_of(), log.buckets, log.buckets.len()) as int),
            sum_of(before.totals().1 as int, stored_total(before.format_of(), log.buckets, log.buckets.len()) as int),
        )
    }

    /// The given rows are written as a row group, and nothing is gathered.
    pub open spec fn is_group_written(&self, before: &Self, rows: Seq<Seq<Row>>, num_rows: nat) -> bool {
        let log = self.groups().last();
        &&& self.groups() == before.groups().push(log)
        &&& log.start == before.written().len()
        &&& log.num_rows == num_rows
        &&& log.rows == rows
        &&& all_hold(self.schema_of(), log.buckets, rows, num_rows)
        &&& all_limited(log.buckets, before.dict_options())
        &&& all_limited(self.buckets(), before.dict_options())
        &&& self.has_grown_by(before, log)
        &&& buckets_bytes(self.format_of(), log.buckets, log.buckets.len()) matches Ok(bytes) && self.written() == before.written()
            + bytes
        &&& self.buffered() == no_rows(self.schema_of().columns@.len())
        &&& self.buffered_rows() == 0
        &&& self.buffered_bytes() == 0
    }

    /// The rows of column `g` that were taken so far, whether they are written or gathered.
    pub open spec fn taken_rows(&self, g: int) -> Seq<Row> {
        logged_rows(self.groups(), g, self.groups().len()) + self.buffered()[g]
    }

    /// The rows of a batch are taken behind those that were taken before.
    pub open spec fn has_taken(&self, before: &Self, batch: &ColumnBatch) -> bool {
        forall|g: int|
            0 <= g < before.schema_of().columns@.len() ==> #[trigger] self.taken_rows(g) == before.taken_rows(g) + rows_of_batch(
                before.schema_of(),
                before.column_map(),
                *batch,
            )[g]
    }

    /// All rows that were taken before stand in row groups.
    pub open spec fn has_written_all(&self, before: &Self) -> bool {
        forall|g: int|
            0 <= g < before.schema_of().columns@.len() ==> #[trigger] logged_rows(self.groups(), g, self.groups().len())
                == before.taken_rows(g)
    }

    /// Takes a batch, and writes a row group if it is large enough. A batch of other columns is
    /// refused; any other failure ends the writer.
    pub fn write_batch(&mut self, batch: &ColumnBatch) -> (result: Result<(), Error>)
        requires
            old(self).wf(),
            batch.wf(),
        ensures
            final(self).wf(),
            final(self).same_writer(old(self)),
            old(self).state_of() is Aborted ==> result == Err::<(), Error>(Error::WriterAborted) && *final(self) == *old(self),
            old(self).state_of() is Closed ==> result == Err::<(), Error>(Error::WriterClosed) && *final(self) == *old(self),
            result is Ok ==> final(self).has_taken(old(self), batch),
            result is Ok && final(self).buffered_rows() > 0 ==> final(self).buffered_bytes() < old(self).max_size(),
            result is Ok && final(self).groups().len() > old(self).groups().len() ==> final(self).buffered_rows() == 0 && old(self).bytes_with(
                batch,
            ) >= old(self).max_size(),
            result is Ok ==> batch.columns@.len() == old(self).schema_of().columns@.len(),
            result is Ok ==> forall|g: int|
                0 <= g < old(self).schema_of().columns@.len() ==> {
                    let column = #[trigger] old(self).schema_of().columns@[g];
                    let at = old(self).column_map()[g] as int;
                    &&& batch.fields@[at].name@ == column.name@
                    &&& same_type(batch.fields@[at].data_type, column.data_type)
                    &&& !column.nullable ==> forall|r: int| 0 <= r < batch.num_rows ==> !#[trigger] batch.columns@[at].nulls@[r]
                },
            old(self).state_of() is Open ==> match batch_error(old(self).schema_of(), old(self).column_map(), *batch) {
                Some(e) => result == Err::<(), Error>(e) && *final(self) == *old(self),
                None => match old(self).append_error(batch) {
                    Some(e) => result == Err::<(), Error>(e) && final(self).state_of() is Aborted && final(self).written()
                        == old(self).written() && final(self).groups() == old(self).groups() && final(self).totals() == old(self).totals(),
                    None => {
                        let num_rows = (old(self).buffered_rows() + batch.num_rows) as nat;
                        if old(self).bytes_with(batch) < old(self).max_size() || num_rows == 0 {
                            result is Ok && final(self).state_of() is Open && final(self).is_joined(old(self), batch)
                        } else {
                            match result {
                                Ok(_) => final(self).state_of() is Open && final(self).is_group_written(
                                    old(self),
                                    old(self).joined_with(batch),
                                    num_rows,
                                ),
                                Err(e) => final(self).state_of() is Aborted && final(self).groups() == old(self).groups()
                                    && final(self).totals() == old(self).totals() && is_group_error(
                                    old(self).format_of(),
                                    old(self).schema_of(),
                                    old(self).joined_with(batch),
                                    num_rows,
                                    old(self).dict_options(),
                                    !old(self).never_fails(),
                                    e,
                                ),
                            }
                        }
                    },
                },
            },
    {
        match self.state {
            WriterState::Open => {},
            WriterState::Aborted => {
                return Err(Error::WriterAborted);
            },
            WriterState::Closed => {
                return Err(Error::WriterClosed);
            },
        }
        match validate_batch(&self.schema, &self.batch_col_map, batch) {
            Ok(_) => {},
            Err(e) => {
                return Err(e);
            },
        }
        // A failure from here on leaves buckets or the output half changed: the writer stays
        // aborted until all is done.
        self.state = WriterState::Aborted;
        match self.append_batch(batch) {
            Ok(_) => {},
            Err(e) => {
                return Err(e);
            },
        }
        let ghost gathered = *self;
        if self.current_buffered_size >= self.row_group_max_size {
            match self.flush_row_group() {
                Ok(_) => {},
                Err(e) => {
                    proof {
                        assert(all_hold(gathered.schema, gathered.bucket_writers@, gathered.rows@, gathered.buffered_rows()));
                    }
                    return Err(e);
                },
            }
        }
        self.state = WriterState::Open;
        proof {
            assert(self.has_taken(old(self), batch)) by {
                let num_rows = (old(self).buffered_rows() + batch.num_rows) as nat;
                if old(self).bytes_with(batch) < old(self).max_size() || num_rows == 0 {
                    assert(self.is_joined(old(self), batch));
                } else {
                    assert(self.is_group_written(old(self), old(self).joined_with(batch), num_rows));
                }
                lemma_taken(old(self), self, batch);
            }
        }
        Ok(())
    }

    /// The file is whole, with the given statistics.
    pub open spec fn is_complete(&self, stats: Seq<Vec<u8>>) -> bool {
        exists|start: int| #[trigger]
            is_file(self.written(), start, self.format_of(), self.schema_of(), self.schema_bytes(), self.groups(), stats)
    }

    /// The rows that were gathered are written as the last row group, if there were any.
    pub open spec fn is_all_written(&self, before: &Self) -> bool {
        if before.buffered_rows() == 0 {
            self.groups() == before.groups() && self.totals() == before.totals()
        } else {
            let log = self.groups().last();
            &&& self.groups() == before.groups().push(log)
            &&& log.rows == before.buffered()
            &&& log.num_rows == before.buffered_rows()
            &&& log.start == before.written().len()
            &&& all_hold(before.schema_of(), log.buckets, log.rows, log.num_rows)
            &&& all_limited(log.buckets, before.dict_options())
            &&& self.has_grown_by(before, log)
        }
    }

    /// Writes what stands behind the row groups.
    fn finish(&mut self, stats: &Vec<Vec<u8>>) -> (result: Result<(), Error>)
        requires
            old(self).base(),
            old(self).ready(),
        ensures
            final(self).base(),
            final(self).same_writer(old(self)),
            final(self).state_of() == old(self).state_of(),
            final(self).groups() == old(self).groups(),
            final(self).totals() == old(self).totals(),
            result is Ok ==> final(self).is_complete(stats@),
            result matches Err(e) ==> (e is Io && !old(self).never_fails()) || file_tail(
                old(self).format_of(),
                old(self).schema_bytes(),
                groups_of(old(self).format_of(), old(self).groups()),
                stats@,
                old(self).schema_of().num_buckets as int,
                old(self).written().len(),
            ) == Err::<Seq<u8>, Error>(e),
    {
        let ghost groups = groups_of(self.format, self.logs@);
        let ghost body = self.out.written();
        proof {
            assert forall|i: int| #![trigger self.row_group_metas@[i]] 0 <= i < self.row_group_metas@.len() implies is_view(
                self.row_group_metas@[i],
                groups[i],
            ) by {}
        }
        match write_tail(
            &mut self.out,
            &self.schema_raw,
            &self.row_group_metas,
            stats,
            self.schema.num_buckets,
            self.format,
            Ghost(groups),
        ) {
            Ok(_) => {},
            Err(e) => {
                return Err(e);
            },
        }
        proof {
            lemma_is_file(body, self.out.written(), self.format, self.schema, self.schema_raw@, self.logs@, stats@);
            assert(is_file(
                self.written(),
                body.len() as int,
                self.format_of(),
                self.schema_of(),
                self.schema_bytes(),
                self.groups(),
                stats@,
            ));
        }
        Ok(())
    }

    /// No row group has been added.
    pub open spec fn is_untouched(&self, before: &Self) -> bool {
        self.groups() == before.groups() && self.totals() == before.totals()
    }

    fn close_inner(&mut self, stats: &Vec<Vec<u8>>) -> (result: Result<(), Error>)
        requires
            old(self).base(),
            old(self).ready(),
        ensures
            final(self).base(),
            final(self).same_writer(old(self)),
            final(self).state_of() == old(self).state_of(),
            result is Ok ==> final(self).is_complete(stats@) && final(self).is_all_written(old(self)),
            result is Err ==> final(self).is_untouched(old(self)) || final(self).is_all_written(old(self)),
            result matches Err(e) ==> is_close_error(
                old(self).format_of(),
                old(self).schema_of(),
                old(self).buffered(),
                old(self).buffered_rows(),
                old(self).dict_options(),
                final(self).schema_bytes(),
                final(self).groups(),
                stats@,
                !old(self).never_fails(),
                e,
            ),
    {
        let ghost before = *self;
        match self.flush_row_group() {
            Ok(_) => {},
            Err(e) => {
                proof {
                    assert(all_hold(before.schema, before.bucket_writers@, before.rows@, before.buffered_rows()));
                }
                return Err(e);
            },
        }
        self.finish(stats)
    }

    /// What closing a writer leaves behind.
    pub open spec fn is_closed_by(&self, before: &Self, stats: Seq<Vec<u8>>, result: Result<(), Error>) -> bool {
        match before.state_of() {
            WriterState::Closed => result is Ok && *self == *before,
            WriterState::Aborted => result == Err::<(), Error>(Error::WriterAborted) && *self == *before,
            WriterState::Open => match result {
                Ok(_) => self.state_of() is Closed && self.is_complete(stats) && self.is_all_written(before) && self.has_written_all(before),
                Err(e) => self.state_of() is Aborted && (self.is_untouched(before) || self.is_all_written(before)) && is_close_error(
                    before.format_of(),
                    before.schema_of(),
                    before.buffered(),
                    before.buffered_rows(),
                    before.dict_options(),
                    self.schema_bytes(),
                    self.groups(),
                    stats,
                    !before.never_fails(),
                    e,
                ),
            },
        }
    }

    /// Writes what is gathered and the end of the file. A writer that has failed cannot be closed;
    /// one that is closed stays so.
    pub fn close(&mut self) -> (result: Result<(), Error>)
        requires
            old(self).wf(),
        ensures
            final(self).wf(),
            final(self).same_writer(old(self)),
            final(self).is_closed_by(old(self), Seq::empty(), result),
    {
        let stats: Vec<Vec<u8>> = Vec::new();
        assert(stats@ =~= Seq::<Vec<u8>>::empty());
        self.close_with_stats(&stats)
    }

    /// Closes the file with statistics: the bytes that stand behind each row group in the index. A
    /// row group for which none are given has none.
    pub fn close_with_stats(&mut self, stats: &Vec<Vec<u8>>) -> (result: Result<(), Error>)
        requires
            old(self).wf(),
        ensures
            final(self).wf(),
            final(self).same_writer(old(self)),
            final(self).is_closed_by(old(self), stats@, result),
    {
        match self.state {
            WriterState::Closed => {
                return Ok(());
            },
            WriterState::Aborted => {
                return Err(Error::WriterAborted);
            },
            WriterState::Open => {},
        }
        self.state = WriterState::Aborted;
        match self.close_inner(stats) {
            Ok(_) => {},
            Err(e) => {
                return Err(e);
            },
        }
        let ghost done = *self;
        self.state = WriterState::Closed;
        proof {
            let start = choose|start: int| #[trigger]
                is_file(done.written(), start, done.format_of(), done.schema_of(), done.schema_bytes(), done.groups(), stats@);
            assert(is_file(self.written(), start, self.format_of(), self.schema_of(), self.schema_bytes(), self.groups(), stats@));
            lemma_all_taken(old(self), self);
        }
        Ok(())
    }
}

proof fn lemma_taken<S: OutputFile>(before: &MosaicWriter<S>, after: &MosaicWriter<S>, batch: &ColumnBatch)
    requires
        rows_ok(before.schema_of(), before.buffered(), before.buffered_rows()),
        ({
            ||| after.is_joined(before, batch)
            ||| after.schema_of() == before.schema_of() && exists|n: nat| #[trigger]
                after.is_group_written(before, before.joined_with(batch), n)
        }),
    ensures
        after.has_taken(before, batch),
{
    let rows = rows_of_batch(before.schema_of(), before.column_map(), *batch);
    assert forall|g: int| 0 <= g < before.schema_of().columns@.len() implies #[trigger] after.taken_rows(g) == before.taken_rows(g)
        + rows[g] by {
        let logs = before.groups();
        assert(before.joined_with(batch)[g] == before.buffered()[g] + rows[g]);
        if after.is_joined(before, batch) {
            assert(after.taken_rows(g) =~= before.taken_rows(g) + rows[g]);
        } else {
            lemma_logged_prefix(after.groups(), logs, g, logs.len());
            assert(after.buffered()[g] =~= Seq::<Row>::empty());
            assert(after.taken_rows(g) =~= before.taken_rows(g) + rows[g]);
        }
    }
}

proof fn lemma_all_taken<S: OutputFile>(before: &MosaicWriter<S>, after: &MosaicWriter<S>)
    requires
        rows_ok(before.schema_of(), before.buffered(), before.buffered_rows()),
        after.is_all_written(before),
    ensures
        after.has_written_all(before),
{
    assert forall|g: int| 0 <= g < before.schema_of().columns@.len() implies #[trigger] logged_rows(
        after.groups(),
        g,
        after.groups().len(),
    ) == before.taken_rows(g) by {
        if before.buffered_rows() == 0 {
            assert(before.buffered()[g] =~= Seq::<Row>::empty());
            assert(after.groups() == before.groups());
            assert(before.taken_rows(g) =~= logged_rows(after.groups(), g, after.groups().len()));
        } else {
            lemma_logged_prefix(after.groups(), before.groups(), g, before.groups().len());
        }
    }
}

/// An error that closing a file ends with: that of its last row group, or that of its end.
pub open spec fn is_close_error(
    format: BucketFormat,
    schema: MosaicSchema,
    rows: Seq<Seq<Row>>,
    num_rows: nat,
    limits: (usize, usize),
    raw: Seq<u8>,
    logs: Seq<GroupLog>,
    stats: Seq<Vec<u8>>,
    may_fail: bool,
    e: Error,
) -> bool {
    is_group_error(format, schema, rows, num_rows, limits, may_fail, e) || exists|start: nat| #[trigger]
        file_tail(format, raw, groups_of(format, logs), stats, schema.num_buckets as int, start) == Err::<Seq<u8>, Error>(e)
}

} // verus!
