//! Buckets on their way to a file.
use vstd::prelude::*;
use crate::bucket_image::{byte_views, clamped, consts_of, encodings_of, nulls_of, page_bytes, page_count, page_view, page_views,
    pages_of};
use crate::bucket_writer::{child_counts, BucketWriter, ChildColumnMeta, PagedBucketOutput};
use crate::column_writer::ColumnImage;
use crate::compression::{compress_zstd, compressed, decompressed};
use crate::dictionary::u8_nats;
use crate::error::{Error, SizeField};
use crate::format::{BucketLayout, COMPRESSION_NONE, COMPRESSION_ZSTD, ENCODING_ALL_NULL, ENCODING_CONST};
use crate::output::OutputFile;
use crate::paged::{build_directory, build_slot, directory_bytes, slot_content, slot_of, sum, usize_nats};
use crate::varint::varint_bytes;

verus! {

// ---------------------------------------------------------------- model

/// The bytes of a bucket in one piece.
pub open spec fn block_of(raw: Seq<u8>, compression: u8, level: int) -> Result<Seq<u8>, Error> {
    if compression == COMPRESSION_NONE {
        Ok(raw)
    } else if compression == COMPRESSION_ZSTD {
        compressed(raw, level, SizeField::BucketUncompressedSize)
    } else {
        Err(Error::UnsupportedOutputCompression { code: compression })
    }
}

/// The slots of the first `n` columns.
pub open spec fn slots_of(images: Seq<ColumnImage>, level: int, n: nat) -> Result<Seq<Seq<u8>>, Error>
    decreases n,
{
    if n == 0 {
        Ok(Seq::empty())
    } else {
        match slots_of(images, level, (n - 1) as nat) {
            Err(e) => Err(e),
            Ok(before) => match slot_of(images[n - 1], level) {
                Err(e) => Err(e),
                Ok(slot) => Ok(before.push(slot)),
            },
        }
    }
}

pub open spec fn slot_sizes(slots: Seq<Seq<u8>>) -> Seq<nat> {
    Seq::new(slots.len(), |i: int| slots[i].len())
}

/// The first of the first `n` slots that is too large.
pub open spec fn slot_size_error(slots: Seq<Seq<u8>>, n: nat) -> Option<Error>
    decreases n,
{
    if n == 0 {
        None
    } else {
        match slot_size_error(slots, (n - 1) as nat) {
            Some(e) => Some(e),
            None => if slots[n - 1].len() > u32::MAX {
                Some(Error::SizeOverU32 { field: SizeField::PagedSlotSize, size: slots[n - 1].len() as usize })
            } else {
                None
            },
        }
    }
}

/// Slots one behind the other.
pub open spec fn joined_slots(slots: Seq<Seq<u8>>) -> Seq<u8>
    decreases slots.len(),
{
    if slots.len() == 0 {
        Seq::empty()
    } else {
        joined_slots(slots.drop_last()) + slots.last()
    }
}

/// The bytes of a bucket by pages: a directory, and the slots behind it.
pub open spec fn paged_bytes(images: Seq<ColumnImage>, counts: Seq<nat>, level: int) -> Result<Seq<u8>, Error> {
    match slots_of(images, level, images.len()) {
        Err(e) => Err(e),
        Ok(slots) => match slot_size_error(slots, slots.len()) {
            Some(e) => Err(e),
            None => {
                let bytes = directory_bytes(counts, slot_sizes(slots)) + joined_slots(slots);
                if bytes.len() > usize::MAX {
                    Err(Error::SizeOverU32 { field: SizeField::BucketCompressedSize, size: usize::MAX })
                } else {
                    Ok(bytes)
                }
            },
        },
    }
}

/// How row groups are written.
#[derive(Clone, Copy, Debug, PartialEq, Eq, Structural)]
pub struct BucketFormat {
    pub compression: u8,
    pub zstd_level: i32,
    pub page_size_threshold: usize,
}

/// The pages of a bucket are large enough to stand on their own.
pub open spec fn is_paged(format: BucketFormat, writer: BucketWriter) -> bool {
    let pages = pages_of(writer.images());
    &&& format.compression == COMPRESSION_ZSTD
    &&& clamped(writer.image().len()) >= format.page_size_threshold
    &&& page_count(pages) > 0
    &&& clamped(page_bytes(pages)) as int / page_count(pages) as int >= format.page_size_threshold
}

/// The bytes of a bucket with rows.
pub open spec fn bucket_bytes(format: BucketFormat, writer: BucketWriter) -> Result<Seq<u8>, Error> {
    if is_paged(format, writer) {
        paged_bytes(writer.images(), child_counts(writer.types(), writer.cells()), format.zstd_level as int)
    } else {
        block_of(writer.image(), format.compression, format.zstd_level as int)
    }
}

/// The block of a slot stands for the content of the slot.
pub open spec fn slot_restorable(image: ColumnImage, slot: Seq<u8>) -> bool {
    let content = slot_content(image);
    image.encoding == ENCODING_ALL_NULL || decompressed(slot.skip(varint_bytes(content.len()).len() as int), content.len()) == Ok::<
        Seq<u8>,
        Error,
    >(content)
}

pub open spec fn slots_restorable(images: Seq<ColumnImage>, slots: Seq<Seq<u8>>) -> bool {
    forall|i: int| #![trigger slots[i]] 0 <= i < slots.len() ==> slot_restorable(images[i], slots[i])
}

/// The compressed parts of a bucket stand for what was compressed.
pub open spec fn bucket_restorable(format: BucketFormat, writer: BucketWriter, bytes: Seq<u8>) -> bool {
    if is_paged(format, writer) {
        slots_of(writer.images(), format.zstd_level as int, writer.images().len()) matches Ok(slots) && slots_restorable(
            writer.images(),
            slots,
        )
    } else {
        format.compression == COMPRESSION_ZSTD ==> bytes.len() > 0 && decompressed(bytes, writer.image().len()) == Ok::<
            Seq<u8>,
            Error,
        >(writer.image())
    }
}

/// What the index tells of a bucket with rows.
pub open spec fn bucket_layout(format: BucketFormat, writer: BucketWriter, bytes: Seq<u8>) -> BucketLayout {
    if is_paged(format, writer) {
        BucketLayout::Paged { total_size: bytes.len() as usize }
    } else {
        BucketLayout::Monolithic {
            compressed_size: bytes.len() as usize,
            uncompressed_size: writer.image().len() as usize,
        }
    }
}

/// How many bytes a bucket has before it is compressed.
pub open spec fn raw_size(format: BucketFormat, writer: BucketWriter) -> usize {
    if is_paged(format, writer) {
        clamped(page_bytes(pages_of(writer.images())))
    } else {
        writer.image().len() as usize
    }
}

// ---------------------------------------------------------------- writing

/// Writes a bucket in one piece, and tells its size in the file.
pub fn write_compressed<S: OutputFile>(out: &mut S, raw: &[u8], compression: u8, zstd_level: i32) -> (result: Result<usize, Error>)
    ensures
        final(out).never_fails() == old(out).never_fails(),
        match block_of(raw@, compression, zstd_level as int) {
            Ok(bytes) => match result {
                Ok(size) => size == bytes.len() && final(out).written() == old(out).written() + bytes && (compression
                    == COMPRESSION_ZSTD ==> bytes.len() > 0 && decompressed(bytes, raw@.len()) == Ok::<Seq<u8>, Error>(raw@)),
                Err(e) => e is Io && !old(out).never_fails(),
            },
            Err(e) => result == Err::<usize, Error>(e) && *final(out) == *old(out),
        },
{
    if compression == COMPRESSION_NONE {
        return match out.write(raw) {
            Ok(_) => Ok(raw.len()),
            Err(e) => Err(e),
        };
    }
    if compression != COMPRESSION_ZSTD {
        return Err(Error::UnsupportedOutputCompression { code: compression });
    }
    match compress_zstd(raw, zstd_level, SizeField::BucketUncompressedSize) {
        Ok(block) => match out.write(block.as_slice()) {
            Ok(_) => Ok(block.len()),
            Err(e) => Err(e),
        },
        Err(e) => Err(e),
    }
}

proof fn lemma_slots_error(images: Seq<ColumnImage>, level: int, n: nat, m: nat)
    requires
        n <= m,
        slots_of(images, level, n) is Err,
    ensures
        slots_of(images, level, m) == slots_of(images, level, n),
    decreases m,
{
    if n < m {
        lemma_slots_error(images, level, n, (m - 1) as nat);
    }
}

proof fn lemma_slot_size_error(slots: Seq<Seq<u8>>, n: nat, m: nat)
    requires
        n <= m,
        slot_size_error(slots, n) is Some,
    ensures
        slot_size_error(slots, m) == slot_size_error(slots, n),
    decreases m,
{
    if n < m {
        lemma_slot_size_error(slots, n, (m - 1) as nat);
    }
}

proof fn lemma_joined_len(slots: Seq<Seq<u8>>)
    ensures
        joined_slots(slots).len() == sum(slot_sizes(slots)),
    decreases slots.len(),
{
    if slots.len() > 0 {
        lemma_joined_len(slots.drop_last());
        assert(slot_sizes(slots).drop_last() =~= slot_sizes(slots.drop_last()));
    }
}

/// The columns of a bucket by pages are those of the images.
pub open spec fn pages_are(paged: PagedBucketOutput, images: Seq<ColumnImage>, counts: Seq<nat>) -> bool {
    &&& u8_nats(paged.encodings@) == encodings_of(images)
    &&& paged.has_nulls@ == nulls_of(images)
    &&& byte_views(paged.const_data@) == consts_of(images)
    &&& page_views(paged.column_pages@) == pages_of(images)
    &&& paged.children@.len() == counts.len()
    &&& forall|i: int| 0 <= i < counts.len() ==> (#[trigger] paged.children@[i]).num_elements == counts[i]
}

/// Only a constant column has the bytes of a constant.
pub open spec fn constants_ok(images: Seq<ColumnImage>) -> bool {
    forall|i: int| 0 <= i < images.len() ==> (#[trigger] images[i]).encoding == ENCODING_CONST || images[i].const_value.len() == 0
}

fn build_slots(paged: &PagedBucketOutput, zstd_level: i32, Ghost(images): Ghost<Seq<ColumnImage>>, Ghost(counts): Ghost<Seq<nat>>) -> (result:
    Result<Vec<Vec<u8>>, Error>)
    requires
        pages_are(*paged, images, counts),
        constants_ok(images),
    ensures
        match slots_of(images, zstd_level as int, images.len()) {
            Ok(slots) => result matches Ok(found) && byte_views(found@) == slots && slots_restorable(images, slots),
            Err(e) => result == Err::<Vec<Vec<u8>>, Error>(e),
        },
{
    let n: usize = paged.encodings.len();
    assert(encodings_of(images).len() == images.len());
    let mut slots: Vec<Vec<u8>> = Vec::new();
    let mut i: usize = 0;
    assert(byte_views(slots@) =~= Seq::empty());
    while i < n
        invariant
            i <= n,
            n == paged.encodings@.len(),
            n == images.len(),
            pages_are(*paged, images, counts),
            constants_ok(images),
            slots_of(images, zstd_level as int, i as nat) == Ok::<Seq<Seq<u8>>, Error>(byte_views(slots@)),
            slots_restorable(images, byte_views(slots@)),
            slots@.len() == i,
        decreases n - i,
    {
        let ghost image = images[i as int];
        proof {
            assert(u8_nats(paged.encodings@)[i as int] == encodings_of(images)[i as int]);
            assert(nulls_of(images).len() == images.len());
            assert(paged.has_nulls@[i as int] == nulls_of(images)[i as int]);
            assert(consts_of(images).len() == images.len());
            assert(byte_views(paged.const_data@).len() == paged.const_data@.len());
            assert(byte_views(paged.const_data@)[i as int] == consts_of(images)[i as int]);
            assert(page_views(paged.column_pages@).len() == paged.column_pages@.len());
            assert(page_views(paged.column_pages@)[i as int] == pages_of(images)[i as int]);
            if slots_of(images, zstd_level as int, (i + 1) as nat) is Err {
                lemma_slots_error(images, zstd_level as int, (i + 1) as nat, images.len());
            }
        }
        match build_slot(
            paged.encodings[i],
            paged.has_nulls[i],
            &paged.const_data[i],
            &paged.column_pages[i],
            zstd_level,
            Ghost(image),
        ) {
            Ok(slot) => {
                let ghost before = byte_views(slots@);
                slots.push(slot);
                assert(byte_views(slots@) =~= before.push(slot@));
            },
            Err(e) => {
                return Err(e);
            },
        }
        i += 1;
    }
    Ok(slots)
}

/// The sizes of slots, if all of them can be told.
fn told_sizes(slots: &Vec<Vec<u8>>) -> (result: Result<Vec<usize>, Error>)
    ensures
        match slot_size_error(byte_views(slots@), slots@.len()) {
            Some(e) => result == Err::<Vec<usize>, Error>(e),
            None => result matches Ok(sizes) && usize_nats(sizes@) == slot_sizes(byte_views(slots@)),
        },
{
    let ghost views = byte_views(slots@);
    let mut sizes: Vec<usize> = Vec::new();
    let mut i: usize = 0;
    while i < slots.len()
        invariant
            i <= slots@.len(),
            views == byte_views(slots@),
            sizes@.len() == i,
            slot_size_error(views, i as nat) is None,
            forall|k: int| 0 <= k < i ==> #[trigger] sizes@[k] == views[k].len(),
        decreases slots@.len() - i,
    {
        let size: usize = slots[i].len();
        proof {
            if slot_size_error(views, (i + 1) as nat) is Some {
                lemma_slot_size_error(views, (i + 1) as nat, slots@.len());
            }
        }
        if size > u32::MAX as usize {
            return Err(Error::SizeOverU32 { field: SizeField::PagedSlotSize, size });
        }
        sizes.push(size);
        i += 1;
    }
    assert(usize_nats(sizes@) =~= slot_sizes(views));
    Ok(sizes)
}

/// The numbers of cells of the child columns.
fn counts_of_children(children: &Vec<ChildColumnMeta>, Ghost(counts): Ghost<Seq<nat>>) -> (found: Vec<usize>)
    requires
        children@.len() == counts.len(),
        forall|i: int| 0 <= i < counts.len() ==> (#[trigger] children@[i]).num_elements == counts[i],
    ensures
        usize_nats(found@) == counts,
{
    let mut found: Vec<usize> = Vec::new();
    let mut i: usize = 0;
    while i < children.len()
        invariant
            i <= children@.len(),
            children@.len() == counts.len(),
            found@.len() == i,
            forall|k: int| 0 <= k < counts.len() ==> (#[trigger] children@[k]).num_elements == counts[k],
            forall|k: int| 0 <= k < i ==> #[trigger] found@[k] == counts[k],
        decreases children@.len() - i,
    {
        assert(children@[i as int].num_elements == counts[i as int]);
        found.push(children[i].num_elements);
        i += 1;
    }
    assert(usize_nats(found@) =~= counts);
    found
}

proof fn lemma_sum_push(values: Seq<nat>, v: nat)
    ensures
        sum(values.push(v)) == sum(values) + v,
{
    assert(values.push(v).drop_last() =~= values);
}

/// The bytes of the directory and of all slots, as far as they can be told.
fn total_size(directory: usize, sizes: &Vec<usize>) -> (total: Option<usize>)
    ensures
        directory + sum(usize_nats(sizes@)) <= usize::MAX ==> total == Some((directory + sum(usize_nats(sizes@))) as usize),
        directory + sum(usize_nats(sizes@)) > usize::MAX ==> total is None,
{
    let ghost all = usize_nats(sizes@);
    let mut total: usize = directory;
    let mut i: usize = 0;
    assert(all.take(0) =~= Seq::<nat>::empty());
    while i < sizes.len()
        invariant
            i <= sizes@.len(),
            all == usize_nats(sizes@),
            total == directory + sum(all.take(i as int)),
        decreases sizes@.len() - i,
    {
        proof {
            assert(all.take(i + 1) =~= all.take(i as int).push(all[i as int]));
            lemma_sum_push(all.take(i as int), all[i as int]);
            lemma_sum_grows(all, i + 1);
        }
        match total.checked_add(sizes[i]) {
            Some(next) => {
                total = next;
            },
            None => {
                return None;
            },
        }
        i += 1;
    }
    assert(all.take(i as int) =~= all);
    Some(total)
}

proof fn lemma_sum_grows(values: Seq<nat>, n: int)
    requires
        0 <= n <= values.len(),
    ensures
        sum(values.take(n)) <= sum(values),
    decreases values.len() - n,
{
    if n < values.len() {
        lemma_sum_grows(values, n + 1);
        assert(values.take(n + 1) =~= values.take(n).push(values[n]));
        lemma_sum_push(values.take(n), values[n]);
    } else {
        assert(values.take(n) =~= values);
    }
}

/// Writes a bucket by pages, and tells its size in the file.
pub(crate) fn write_paged_bucket<S: OutputFile>(
    out: &mut S,
    paged: &PagedBucketOutput,
    zstd_level: i32,
    Ghost(images): Ghost<Seq<ColumnImage>>,
    Ghost(counts): Ghost<Seq<nat>>,
) -> (result: Result<usize, Error>)
    requires
        pages_are(*paged, images, counts),
        constants_ok(images),
    ensures
        final(out).never_fails() == old(out).never_fails(),
        match paged_bytes(images, counts, zstd_level as int) {
            Ok(bytes) => match result {
                Ok(size) => size == bytes.len() && final(out).written() == old(out).written() + bytes && (slots_of(
                    images,
                    zstd_level as int,
                    images.len(),
                ) matches Ok(slots) && slots_restorable(images, slots)),
                Err(e) => e is Io && !old(out).never_fails(),
            },
            Err(e) => result == Err::<usize, Error>(e) && *final(out) == *old(out),
        },
{
    let slots: Vec<Vec<u8>> = match build_slots(paged, zstd_level, Ghost(images), Ghost(counts)) {
        Ok(slots) => slots,
        Err(e) => {
            return Err(e);
        },
    };
    let ghost views = byte_views(slots@);
    let sizes: Vec<usize> = match told_sizes(&slots) {
        Ok(sizes) => sizes,
        Err(e) => {
            return Err(e);
        },
    };
    let child_counts: Vec<usize> = counts_of_children(&paged.children, Ghost(counts));
    let directory: Vec<u8> = build_directory(&child_counts, &sizes);
    proof {
        lemma_joined_len(views);
    }
    let total: usize = match total_size(directory.len(), &sizes) {
        Some(total) => total,
        None => {
            return Err(Error::SizeOverU32 { field: SizeField::BucketCompressedSize, size: usize::MAX });
        },
    };
    let ghost start = out.written();
    match out.write(directory.as_slice()) {
        Ok(_) => {},
        Err(e) => {
            return Err(e);
        },
    }
    let mut i: usize = 0;
    assert(views.take(0) =~= Seq::<Seq<u8>>::empty());
    assert(out.written() =~= start + (directory@ + joined_slots(views.take(0))));
    while i < slots.len()
        invariant
            out.never_fails() == old(out).never_fails(),
            i <= slots@.len(),
            views == byte_views(slots@),
            start == old(out).written(),
            paged_bytes(images, counts, zstd_level as int) == Ok::<Seq<u8>, Error>(directory@ + joined_slots(views)),
            out.written() == start + (directory@ + joined_slots(views.take(i as int))),
        decreases slots@.len() - i,
    {
        assert(views.take(i + 1).drop_last() =~= views.take(i as int));
        assert(views.take(i + 1).last() == slots@[i as int]@);
        if slots[i].len() > 0 {
            match out.write(slots[i].as_slice()) {
                Ok(_) => {},
                Err(e) => {
                    return Err(e);
                },
            }
        }
        assert(out.written() =~= start + (directory@ + joined_slots(views.take(i + 1))));
        i += 1;
    }
    assert(views.take(i as int) =~= views);
    Ok(total)
}

/// The number of pages and their bytes, as far as they can be told.
fn count_pages(pages: &Vec<Option<Vec<u8>>>) -> (found: (usize, usize))
    ensures
        found.0 == page_count(page_views(pages@)),
        found.1 == clamped(page_bytes(page_views(pages@))),
{
    let ghost all = page_views(pages@);
    let mut count: usize = 0;
    let mut total: usize = 0;
    let mut i: usize = 0;
    assert(all.take(0) =~= Seq::<Option<Seq<u8>>>::empty());
    while i < pages.len()
        invariant
            i <= pages@.len(),
            all == page_views(pages@),
            count <= i,
            count == page_count(all.take(i as int)),
            total == clamped(page_bytes(all.take(i as int))),
        decreases pages@.len() - i,
    {
        assert(all.take(i + 1).drop_last() =~= all.take(i as int));
        assert(all.take(i + 1).last() == page_view(pages@[i as int]));
        match &pages[i] {
            Some(page) => {
                count += 1;
                total = total.saturating_add(page.len());
            },
            None => {},
        }
        i += 1;
    }
    assert(all.take(i as int) =~= all);
    (count, total)
}

/// How a bucket was written.
pub struct WrittenBucket {
    pub layout: BucketLayout,
    pub size: usize,
    pub raw_size: usize,
}

proof fn lemma_image_constants(writer: BucketWriter)
    ensures
        constants_ok(writer.images()),
{
}

/// Writes a bucket with rows: by pages if they are large enough, else in one piece.
pub fn write_bucket<S: OutputFile>(out: &mut S, writer: &BucketWriter, format: BucketFormat) -> (result: Result<WrittenBucket, Error>)
    requires
        writer.wf(),
        writer.rows() > 0,
    ensures
        final(out).never_fails() == old(out).never_fails(),
        match bucket_bytes(format, *writer) {
            Ok(bytes) => match result {
                Ok(written) => written.layout == bucket_layout(format, *writer, bytes) && written.size == bytes.len()
                    && written.raw_size == raw_size(format, *writer) && bytes.len() <= usize::MAX && final(out).written()
                    == old(out).written() + bytes && (!is_paged(format, *writer) ==> writer.image().len() <= usize::MAX)
                    && bucket_restorable(format, *writer, bytes),
                Err(e) => e is Io && !old(out).never_fails(),
            },
            Err(e) => result == Err::<WrittenBucket, Error>(e) && *final(out) == *old(out),
        },
{
    let ghost images = writer.images();
    let ghost counts = child_counts(writer.types(), writer.cells());
    if format.compression == COMPRESSION_ZSTD && writer.estimated_raw_size() >= format.page_size_threshold {
        let paged: PagedBucketOutput = writer.finish_paged();
        let (count, total) = count_pages(&paged.column_pages);
        if count > 0 && total / count >= format.page_size_threshold {
            proof {
                lemma_image_constants(*writer);
                writer.lemma_wf();
                crate::bucket_writer::lemma_all_metas_len(writer.types(), writer.types().len());
                let types = writer.types();
                assert(types.take(types.len() as int) =~= types);
                assert(counts.len() == crate::bucket_writer::all_child_types(types).len());
                assert(paged.children@.len() == counts.len());
                assert forall|i: int| 0 <= i < counts.len() implies (#[trigger] paged.children@[i]).num_elements == counts[i] by {
                    let cells = writer.cells();
                    assert(counts[i] == cells[writer.types().len() + i].len());
                }
            }
            return match write_paged_bucket(out, &paged, format.zstd_level, Ghost(images), Ghost(counts)) {
                Ok(size) => Ok(WrittenBucket { layout: BucketLayout::Paged { total_size: size }, size, raw_size: total }),
                Err(e) => Err(e),
            };
        }
    }
    let raw: Vec<u8> = writer.finish();
    match write_compressed(out, raw.as_slice(), format.compression, format.zstd_level) {
        Ok(size) => Ok(
            WrittenBucket {
                layout: BucketLayout::Monolithic { compressed_size: size, uncompressed_size: raw.len() },
                size,
                raw_size: raw.len(),
            },
        ),
        Err(e) => Err(e),
    }
}

} // verus!
