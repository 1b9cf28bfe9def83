//! What a writer counts and decides: the sizes that it tells, how columns are encoded, and how buckets
//! stand in the file.
use vstd::prelude::*;
use crate::bits::{bytes_for, index_width};
use crate::bucket_image::{column_page, page_bytes, page_count, pages_of};
use crate::bucket_output::{bucket_bytes, is_paged, BucketFormat};
use crate::bucket_writer::{value_bytes, BucketWriter};
use crate::column_writer::{column_image, distinct, joined, present, Cells, ColumnImage, DictLimits};
use crate::file_laws::reads_file;
use crate::format::{COMPRESSION_ZSTD, ENCODING_ALL_NULL, ENCODING_CONST, ENCODING_DICT, ENCODING_PLAIN};
use crate::input::InputFile;
use crate::output::OutputFile;
use crate::reader::{group_views, BucketInfo, MosaicReader};
use crate::schema::MosaicSchema;
use crate::varint::varint_bytes;
use crate::writer::{buckets_bytes, group_of, groups_of, is_file, stored_total, GroupLog, MosaicWriter};

verus! {

// ---------------------------------------------------------------- sizes

/// The bytes that buckets are told to take in the file are the bytes that they take.
pub proof fn stored_bytes_are_counted(format: BucketFormat, ws: Seq<BucketWriter>, n: nat)
    requires
        n <= ws.len(),
        buckets_bytes(format, ws, n) matches Ok(bytes) && bytes.len() <= u64::MAX,
    ensures
        stored_total(format, ws, n) == buckets_bytes(format, ws, n)->Ok_0.len(),
    decreases n,
{
    if n > 0 {
        stored_bytes_are_counted(format, ws, (n - 1) as nat);
    }
}

/// When a row group is written, the total of the bytes in the file grows by as many bytes as the file
/// does.
pub proof fn totals_grow_with_the_file<S: OutputFile>(before: MosaicWriter<S>, after: MosaicWriter<S>, rows: Seq<Seq<crate::column::Row>>, num_rows: nat)
    requires
        after.same_writer(&before),
        after.is_group_written(&before, rows, num_rows),
        before.totals().1 + after.written().len() <= u64::MAX,
    ensures
        after.totals().1 - before.totals().1 == after.written().len() - before.written().len(),
        after.totals().0 >= before.totals().0,
{
    let log = after.groups().last();
    stored_bytes_are_counted(after.format_of(), log.buckets, log.buckets.len());
}

/// The bytes that values count for are the bytes of the values, one column behind the other.
pub proof fn value_bytes_are_counted(columns: Seq<Cells>)
    ensures
        value_bytes(columns) == joined(Seq::new(columns.len(), |j: int| joined(present(columns[j])))).len(),
    decreases columns.len(),
{
    let all = Seq::new(columns.len(), |j: int| joined(present(columns[j])));
    if columns.len() > 0 {
        let front = columns.drop_last();
        value_bytes_are_counted(front);
        assert(all.drop_last() =~= Seq::new(front.len(), |j: int| joined(present(front[j]))));
    }
}

// ---------------------------------------------------------------- encodings

/// A column is encoded the way that takes the fewest bytes. Without values it takes none, and with one
/// value throughout it takes that value. A dictionary is taken where it is allowed and shorter than the
/// values: it has at least two entries' room, no more entries than the limit, and either the indexes of
/// short values are shorter than the values, or the entries of other values stay within the limit of
/// bytes.
pub proof fn encodings_are_the_shortest(cells: Cells, width: int, limits: DictLimits)
    ensures
        ({
            let image = column_image(cells, width, limits);
            let values = present(cells);
            let d = distinct(values);
            let with_dictionary = varint_bytes(d.len()).len() + joined(d).len() + bytes_for((values.len() * index_width(d.len())) as int);
            let is_allowed = limits.max_entries >= 2 && d.len() <= limits.max_entries && (if 0 < width <= 8 {
                index_width(d.len()) < 8 * width
            } else {
                joined(d).len() <= limits.max_total_bytes
            });
            &&& image.encoding == ENCODING_ALL_NULL <==> values.len() == 0
            &&& image.encoding == ENCODING_CONST <==> values.len() > 0 && (forall|i: int|
                0 <= i < values.len() ==> #[trigger] values[i] == values[0])
            &&& image.encoding == ENCODING_CONST ==> image.const_value == values[0]
            &&& image.encoding == ENCODING_DICT ==> is_allowed && with_dictionary < joined(values).len()
            &&& image.encoding == ENCODING_PLAIN ==> image.data == joined(values) && !(is_allowed && with_dictionary < joined(values).len())
        }),
{
}

// ---------------------------------------------------------------- buckets

/// A bucket stands by pages in a compressed file where it and, on average, its pages are as large as
/// the limit, and only there.
pub proof fn large_pages_stand_on_their_own(format: BucketFormat, w: BucketWriter)
    requires
        w.image().len() <= usize::MAX,
        page_bytes(pages_of(w.images())) <= usize::MAX,
    ensures
        is_paged(format, w) <==> {
            let pages = pages_of(w.images());
            &&& format.compression == COMPRESSION_ZSTD
            &&& w.image().len() >= format.page_size_threshold
            &&& page_count(pages) > 0
            &&& page_bytes(pages) >= format.page_size_threshold * page_count(pages)
        },
{
    let pages = pages_of(w.images());
    let (bytes, count, limit) = (page_bytes(pages) as int, page_count(pages) as int, format.page_size_threshold as int);
    if count > 0 {
        assert(bytes / count >= limit <==> bytes >= limit * count) by (nonlinear_arith)
            requires
                count > 0,
                bytes >= 0,
                limit >= 0,
        ;
    }
}

/// The pages of a bucket are counted, and so are their bytes.
pub proof fn pages_are_counted(images: Seq<ColumnImage>)
    ensures
        page_bytes(pages_of(images)) == joined(
            Seq::new(
                images.len(),
                |i: int|
                    match column_page(images[i]) {
                        Some(page) => page,
                        None => Seq::empty(),
                    },
            ),
        ).len(),
        page_count(pages_of(images)) == pages_of(images).filter(|page: Option<Seq<u8>>| page is Some).len(),
    decreases images.len(),
{
    let all = Seq::new(
        images.len(),
        |i: int|
            match column_page(images[i]) {
                Some(page) => page,
                None => Seq::<u8>::empty(),
            },
    );
    reveal(Seq::filter);
    if images.len() > 0 {
        let front = images.drop_last();
        pages_are_counted(front);
        assert(pages_of(images).drop_last() =~= pages_of(front));
        assert(all.drop_last() =~= Seq::new(
            front.len(),
            |i: int|
                match column_page(front[i]) {
                    Some(page) => page,
                    None => Seq::<u8>::empty(),
                },
        ));
    }
}

/// What is told of the buckets of a file is how they were written: which columns they hold, how they
/// stand in the file, how many bytes they take there, and, for one in one piece, how many it has before
/// it is compressed.
pub proof fn buckets_are_told_as_written<I: InputFile>(
    reader: MosaicReader<I>,
    file: Seq<u8>,
    start: int,
    format: BucketFormat,
    schema: MosaicSchema,
    raw: Seq<u8>,
    logs: Seq<GroupLog>,
    stats: Seq<Vec<u8>>,
    rg_index: int,
    b: int,
    info: BucketInfo,
)
    requires
        is_file(file, start, format, schema, raw, logs, stats),
        reads_file(reader, file, format, schema, logs),
        0 <= rg_index < logs.len(),
        0 <= b < schema.num_buckets,
        reader.info_of(rg_index, b, info),
    ensures
        ({
            let w = logs[rg_index].buckets[b];
            &&& reader.groups()[rg_index].num_rows == logs[rg_index].num_rows
            &&& info.bucket == b
            &&& forall|g: int|
                0 <= g < schema.columns@.len() ==> (info.columns@.contains(g as usize) <==> (#[trigger] schema.columns@[g]).bucket_id == b)
            &&& w.rows() == 0 ==> info.kind is Empty && info.size == 0
            &&& w.rows() > 0 && is_paged(format, w) ==> info.kind is Paged
            &&& w.rows() > 0 && !is_paged(format, w) ==> info.kind is Monolithic && info.uncompressed == w.image().len()
            &&& w.rows() > 0 ==> (bucket_bytes(format, w) matches Ok(bytes) && info.size == bytes.len())
        }),
{
    crate::file_laws::lemma_file_group(file, start, format, schema, raw, logs, stats, rg_index);
    let log = logs[rg_index];
    assert(group_views(reader.groups()).len() == reader.groups().len());
    assert(group_views(reader.groups())[rg_index] == reader.groups()[rg_index]@);
    assert(groups_of(format, logs)[rg_index] == group_of(format, log));
    assert(crate::writer::is_restorable(format, log.buckets[b]));
    assert(reader.groups()[rg_index]@.bucket_layouts[b] == reader.groups()[rg_index].bucket_layouts@[b]);
    assert(schema.bucket_ok(b));
    assert(schema.columns.len() == schema.columns@.len());
    assert forall|g: int| 0 <= g < schema.columns@.len() implies (info.columns@.contains(g as usize) <==> (#[trigger] schema.columns@[g]).bucket_id
        == b) by {
        assert(schema.column_placed(g));
        if info.columns@.contains(g as usize) {
            let k = choose|k: int| 0 <= k < info.columns@.len() && info.columns@[k] == g as usize;
            assert(schema.bucket_to_global@[b]@[k] == g);
        }
    }
}

} // verus!
