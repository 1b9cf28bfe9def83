//! The bytes of a bucket.
use vstd::prelude::*;
use crate::bits::{bytes_for, pack_flags, packed, packed_flags};
use crate::column_writer::{joined, ColumnImage, PreparedColumn};
use crate::dictionary::{u8_nats, write_u8_indices};
use crate::format::{ENCODING_ALL_NULL, ENCODING_CONST};
use crate::varint;
use crate::varint::varint_bytes;

verus! {

// ---------------------------------------------------------------- model

/// Numbers one after another, each in as few bytes as hold it.
pub open spec fn varints(values: Seq<nat>) -> Seq<u8>
    decreases values.len(),
{
    if values.len() == 0 {
        Seq::empty()
    } else {
        varints(values.drop_last()) + varint_bytes(values.last())
    }
}

/// What stands before the columns: nothing, unless there are lists or maps.
pub open spec fn bucket_header(num_primary: nat, counts: Seq<nat>) -> Seq<u8> {
    if counts.len() == 0 {
        Seq::empty()
    } else {
        varint_bytes(num_primary) + varint_bytes(counts.len()) + varints(counts)
    }
}

pub open spec fn encodings_of(images: Seq<ColumnImage>) -> Seq<nat> {
    Seq::new(images.len(), |i: int| images[i].encoding as nat)
}

pub open spec fn nulls_of(images: Seq<ColumnImage>) -> Seq<bool> {
    Seq::new(images.len(), |i: int| images[i].has_nulls)
}

pub open spec fn consts_of(images: Seq<ColumnImage>) -> Seq<Seq<u8>> {
    Seq::new(images.len(), |i: int| images[i].const_value)
}

pub open spec fn dicts_of(images: Seq<ColumnImage>) -> Seq<Seq<u8>> {
    Seq::new(images.len(), |i: int| images[i].dict_meta)
}

pub open spec fn bitmaps_of(images: Seq<ColumnImage>) -> Seq<Seq<u8>> {
    Seq::new(images.len(), |i: int| images[i].null_bytes)
}

pub open spec fn datas_of(images: Seq<ColumnImage>) -> Seq<Seq<u8>> {
    Seq::new(images.len(), |i: int| images[i].data)
}

/// The bytes of a bucket in one piece: how each column is encoded and which of them have nulls,
/// then the constants, dictionaries, null bitmaps and values of all columns.
pub open spec fn bucket_image(num_primary: nat, counts: Seq<nat>, images: Seq<ColumnImage>) -> Seq<u8> {
    bucket_header(num_primary, counts) + packed(encodings_of(images), 2) + packed_flags(nulls_of(images)) + joined(consts_of(images))
        + joined(dicts_of(images)) + joined(bitmaps_of(images)) + joined(datas_of(images))
}

/// The page of a column that is stored on its own; a column that is all null, or the same value
/// throughout, needs none.
pub open spec fn column_page(image: ColumnImage) -> Option<Seq<u8>> {
    if image.encoding == ENCODING_ALL_NULL || (image.encoding == ENCODING_CONST && !image.has_nulls) {
        None
    } else {
        Some(image.dict_meta + image.null_bytes + image.data)
    }
}

pub open spec fn pages_of(images: Seq<ColumnImage>) -> Seq<Option<Seq<u8>>> {
    Seq::new(images.len(), |i: int| column_page(images[i]))
}

/// The number of pages.
pub open spec fn page_count(pages: Seq<Option<Seq<u8>>>) -> nat
    decreases pages.len(),
{
    if pages.len() == 0 {
        0
    } else {
        page_count(pages.drop_last()) + (if pages.last() is Some {
            1nat
        } else {
            0nat
        })
    }
}

/// The bytes of all pages.
pub open spec fn page_bytes(pages: Seq<Option<Seq<u8>>>) -> nat
    decreases pages.len(),
{
    if pages.len() == 0 {
        0
    } else {
        page_bytes(pages.drop_last()) + (match pages.last() {
            Some(page) => page.len(),
            None => 0,
        })
    }
}

/// A number of bytes as far as it can be told.
pub open spec fn clamped(n: nat) -> usize {
    if n <= usize::MAX {
        n as usize
    } else {
        usize::MAX
    }
}

pub open spec fn images_of(columns: Seq<PreparedColumn>) -> Seq<ColumnImage> {
    Seq::new(columns.len(), |i: int| columns[i]@)
}

pub open spec fn counts_of(counts: Seq<usize>) -> Seq<nat> {
    Seq::new(counts.len(), |i: int| counts[i] as nat)
}

// ---------------------------------------------------------------- lemmas

proof fn lemma_joined_take(parts: Seq<Seq<u8>>, n: int)
    requires
        0 <= n < parts.len(),
    ensures
        joined(parts.take(n + 1)) == joined(parts.take(n)) + parts[n],
{
    assert(parts.take(n + 1).drop_last() =~= parts.take(n));
}

pub proof fn lemma_varints_push(values: Seq<nat>, v: nat)
    ensures
        varints(values.push(v)) == varints(values) + varint_bytes(v),
{
    assert(values.push(v).drop_last() =~= values);
}

// ---------------------------------------------------------------- the bucket

/// So many columns have a place in a bucket: the bits of their encodings can be counted, and the
/// numbers that stand in front where there are lists or maps are ones of 32 bits.
pub open spec fn columns_fit(primary: nat, physical: nat) -> bool {
    &&& 2 * physical <= usize::MAX
    &&& primary < physical ==> primary <= u32::MAX && physical - primary <= u32::MAX
}

/// A bucket whose columns are encoded.
pub struct PreparedBucket {
    pub num_primary: usize,
    pub counts: Vec<usize>,
    pub columns: Vec<PreparedColumn>,
}

impl PreparedBucket {
    pub open spec fn images(self) -> Seq<ColumnImage> {
        images_of(self.columns@)
    }

    /// The numbers fit the file format.
    pub open spec fn wf(self) -> bool {
        &&& columns_fit(self.num_primary as nat, self.columns@.len())
        &&& self.columns@.len() == self.num_primary + self.counts@.len()
        &&& forall|i: int| 0 <= i < self.counts@.len() ==> #[trigger] self.counts@[i] <= u32::MAX
        &&& forall|i: int| 0 <= i < self.columns@.len() ==> (#[trigger] self.columns@[i]).encoding <= 3
    }

    pub open spec fn image(self) -> Seq<u8> {
        bucket_image(self.num_primary as nat, counts_of(self.counts@), self.images())
    }

    /// How long the bucket is in one piece.
    pub fn estimated_raw_size(&self) -> (size: usize)
        requires
            self.wf(),
        ensures
            size == clamped(self.image().len()),
    {
        let ghost images = self.images();
        let ghost counts = counts_of(self.counts@);
        let mut size: usize = 0;
        if self.counts.len() > 0 {
            size = varint::encoded_size(self.num_primary as u32) + varint::encoded_size(self.counts.len() as u32);
            let ghost head = size as nat;
            let mut i: usize = 0;
            assert(varints(counts.take(0)) =~= Seq::empty());
            while i < self.counts.len()
                invariant
                    i <= self.counts.len(),
                    self.wf(),
                    counts == counts_of(self.counts@),
                    size == clamped(head + varints(counts.take(i as int)).len()),
                decreases self.counts.len() - i,
            {
                assert(counts.take(i + 1) =~= counts.take(i as int).push(counts[i as int]));
                proof {
                    lemma_varints_push(counts.take(i as int), counts[i as int]);
                }
                assert(self.counts@[i as int] <= u32::MAX);
                size = size.saturating_add(varint::encoded_size(self.counts[i] as u32));
                i += 1;
            }
            assert(counts.take(counts.len() as int) =~= counts);
        }
        assert(size == clamped(bucket_header(self.num_primary as nat, counts).len()));
        let n: usize = self.columns.len();
        size = size.saturating_add(crate::bits::byte_count(n * 2)).saturating_add(crate::bits::byte_count(n));
        let ghost fixed = bucket_header(self.num_primary as nat, counts).len() + bytes_for(2 * n) + bytes_for(n as int);
        let ghost (c, d, b, v) = (consts_of(images), dicts_of(images), bitmaps_of(images), datas_of(images));
        proof {
            assert(c.take(0) =~= Seq::empty());
            assert(d.take(0) =~= Seq::empty());
            assert(b.take(0) =~= Seq::empty());
            assert(v.take(0) =~= Seq::empty());
        }
        let mut i: usize = 0;
        while i < self.columns.len()
            invariant
                i <= self.columns.len(),
                images == self.images(),
                c == consts_of(images),
                d == dicts_of(images),
                b == bitmaps_of(images),
                v == datas_of(images),
                fixed >= 0,
                size == clamped(
                    (fixed + joined(c.take(i as int)).len() + joined(d.take(i as int)).len() + joined(b.take(i as int)).len()
                        + joined(v.take(i as int)).len()) as nat,
                ),
            decreases self.columns.len() - i,
        {
            proof {
                lemma_joined_take(c, i as int);
                lemma_joined_take(d, i as int);
                lemma_joined_take(b, i as int);
                lemma_joined_take(v, i as int);
            }
            let column: &PreparedColumn = &self.columns[i];
            assert(images[i as int] == column@);
            size = size.saturating_add(column.const_value.len()).saturating_add(column.dict_meta.len()).saturating_add(
                column.null_bytes.len(),
            ).saturating_add(column.data.len());
            i += 1;
        }
        proof {
            assert(c.take(c.len() as int) =~= c);
            assert(d.take(d.len() as int) =~= d);
            assert(b.take(b.len() as int) =~= b);
            assert(v.take(v.len() as int) =~= v);
        }
        size
    }

    /// How many pages the columns take, and how long they are.
    pub fn estimated_paged_size(&self) -> (sizes: (usize, usize))
        requires
            self.wf(),
        ensures
            sizes.0 == page_count(pages_of(self.images())),
            sizes.1 == clamped(page_bytes(pages_of(self.images()))),
    {
        let ghost pages = pages_of(self.images());
        let mut num_pages: usize = 0;
        let mut total_size: usize = 0;
        let mut i: usize = 0;
        assert(pages.take(0) =~= Seq::empty());
        while i < self.columns.len()
            invariant
                i <= self.columns.len(),
                pages == pages_of(self.images()),
                num_pages <= i,
                num_pages == page_count(pages.take(i as int)),
                total_size == clamped(page_bytes(pages.take(i as int))),
            decreases self.columns.len() - i,
        {
            assert(pages.take(i + 1).drop_last() =~= pages.take(i as int));
            assert(pages[i as int] == column_page(self.columns@[i as int]@));
            let column: &PreparedColumn = &self.columns[i];
            if column.encoding != ENCODING_ALL_NULL && (column.encoding != ENCODING_CONST || column.has_nulls) {
                num_pages += 1;
                total_size = total_size.saturating_add(column.dict_meta.len()).saturating_add(
                    column.null_bytes.len(),
                ).saturating_add(column.data.len());
            }
            i += 1;
        }
        assert(pages.take(pages.len() as int) =~= pages);
        (num_pages, total_size)
    }

    /// How each column is encoded.
    pub fn encodings(&self) -> (encodings: Vec<u8>)
        ensures
            u8_nats(encodings@) == encodings_of(self.images()),
            encodings@.len() == self.columns@.len(),
    {
        let mut encodings: Vec<u8> = Vec::new();
        let mut i: usize = 0;
        while i < self.columns.len()
            invariant
                i <= self.columns.len(),
                encodings@.len() == i,
                forall|k: int| 0 <= k < i ==> #[trigger] encodings@[k] == self.columns@[k].encoding,
            decreases self.columns.len() - i,
        {
            encodings.push(self.columns[i].encoding);
            i += 1;
        }
        assert(u8_nats(encodings@) =~= encodings_of(self.images()));
        encodings
    }

    /// Which columns have nulls beside values.
    pub fn has_nulls(&self) -> (flags: Vec<bool>)
        ensures
            flags@ == nulls_of(self.images()),
    {
        let mut flags: Vec<bool> = Vec::new();
        let mut i: usize = 0;
        while i < self.columns.len()
            invariant
                i <= self.columns.len(),
                flags@.len() == i,
                forall|k: int| 0 <= k < i ==> #[trigger] flags@[k] == self.columns@[k].has_nulls,
            decreases self.columns.len() - i,
        {
            flags.push(self.columns[i].has_nulls);
            i += 1;
        }
        assert(flags@ =~= nulls_of(self.images()));
        flags
    }

    /// The bytes of the bucket in one piece.
    pub fn finish(&self) -> (out: Vec<u8>)
        requires
            self.wf(),
        ensures
            out@ == self.image(),
    {
        let ghost images = self.images();
        let ghost counts = counts_of(self.counts@);
        let mut out: Vec<u8> = Vec::new();
        if self.counts.len() > 0 {
            varint::encode(&mut out, self.num_primary as u32);
            varint::encode(&mut out, self.counts.len() as u32);
            let ghost head = out@;
            assert(head =~= varint_bytes(self.num_primary as nat) + varint_bytes(counts.len()));
            let mut i: usize = 0;
            assert(out@ =~= head + varints(counts.take(0)));
            while i < self.counts.len()
                invariant
                    i <= self.counts.len(),
                    self.wf(),
                    counts == counts_of(self.counts@),
                    out@ == head + varints(counts.take(i as int)),
                decreases self.counts.len() - i,
            {
                assert(counts.take(i + 1) =~= counts.take(i as int).push(counts[i as int]));
                proof {
                    lemma_varints_push(counts.take(i as int), counts[i as int]);
                }
                assert(self.counts@[i as int] <= u32::MAX);
                varint::encode(&mut out, self.counts[i] as u32);
                assert(out@ =~= head + varints(counts.take(i + 1)));
                i += 1;
            }
            assert(counts.take(counts.len() as int) =~= counts);
        }
        assert(out@ =~= bucket_header(self.num_primary as nat, counts));
        let encodings: Vec<u8> = self.encodings();
        let n: usize = self.columns.len();
        let mut flags: Vec<u8> = vec![0u8; crate::bits::byte_count(n * 2)];
        proof {
            vstd::arithmetic::power2::lemma2_to64();
            assert forall|k: int| 0 <= k < u8_nats(encodings@).len() implies #[trigger] u8_nats(encodings@)[k] < 4 by {
                assert(u8_nats(encodings@)[k] == encodings_of(images)[k]);
                assert(self.columns@[k].encoding <= 3);
            }
        }
        write_u8_indices(&encodings, &mut flags, 2);
        out.append(&mut flags);
        let nulls: Vec<bool> = self.has_nulls();
        let mut null_flags: Vec<u8> = pack_flags(nulls.as_slice());
        out.append(&mut null_flags);
        let ghost start = out@;
        assert(start =~= bucket_header(self.num_primary as nat, counts) + packed(encodings_of(images), 2) + packed_flags(
            nulls_of(images),
        ));
        self.write_consts(&mut out);
        self.write_dicts(&mut out);
        self.write_bitmaps(&mut out);
        self.write_datas(&mut out);
        out
    }

    fn write_consts(&self, out: &mut Vec<u8>)
        ensures
            final(out)@ == old(out)@ + joined(consts_of(self.images())),
    {
        let ghost start = out@;
        let ghost parts = consts_of(self.images());
        let mut i: usize = 0;
        assert(out@ =~= start + joined(parts.take(0)));
        while i < self.columns.len()
            invariant
                i <= self.columns.len(),
                parts == consts_of(self.images()),
                out@ == start + joined(parts.take(i as int)),
            decreases self.columns.len() - i,
        {
            proof {
                lemma_joined_take(parts, i as int);
            }
            out.extend_from_slice(self.columns[i].const_value.as_slice());
            assert(out@ =~= start + joined(parts.take(i + 1)));
            i += 1;
        }
        assert(parts.take(parts.len() as int) =~= parts);
    }

    fn write_dicts(&self, out: &mut Vec<u8>)
        ensures
            final(out)@ == old(out)@ + joined(dicts_of(self.images())),
    {
        let ghost start = out@;
        let ghost parts = dicts_of(self.images());
        let mut i: usize = 0;
        assert(out@ =~= start + joined(parts.take(0)));
        while i < self.columns.len()
            invariant
                i <= self.columns.len(),
                parts == dicts_of(self.images()),
                out@ == start + joined(parts.take(i as int)),
            decreases self.columns.len() - i,
        {
            proof {
                lemma_joined_take(parts, i as int);
            }
            out.extend_from_slice(self.columns[i].dict_meta.as_slice());
            assert(out@ =~= start + joined(parts.take(i + 1)));
            i += 1;
        }
        assert(parts.take(parts.len() as int) =~= parts);
    }

    fn write_bitmaps(&self, out: &mut Vec<u8>)
        ensures
            final(out)@ == old(out)@ + joined(bitmaps_of(self.images())),
    {
        let ghost start = out@;
        let ghost parts = bitmaps_of(self.images());
        let mut i: usize = 0;
        assert(out@ =~= start + joined(parts.take(0)));
        while i < self.columns.len()
            invariant
                i <= self.columns.len(),
                parts == bitmaps_of(self.images()),
                out@ == start + joined(parts.take(i as int)),
            decreases self.columns.len() - i,
        {
            proof {
                lemma_joined_take(parts, i as int);
            }
            out.extend_from_slice(self.columns[i].null_bytes.as_slice());
            assert(out@ =~= start + joined(parts.take(i + 1)));
            i += 1;
        }
        assert(parts.take(parts.len() as int) =~= parts);
    }

    fn write_datas(&self, out: &mut Vec<u8>)
        ensures
            final(out)@ == old(out)@ + joined(datas_of(self.images())),
    {
        let ghost start = out@;
        let ghost parts = datas_of(self.images());
        let mut i: usize = 0;
        assert(out@ =~= start + joined(parts.take(0)));
        while i < self.columns.len()
            invariant
                i <= self.columns.len(),
                parts == datas_of(self.images()),
                out@ == start + joined(parts.take(i as int)),
            decreases self.columns.len() - i,
        {
            proof {
                lemma_joined_take(parts, i as int);
            }
            out.extend_from_slice(self.columns[i].data.as_slice());
            assert(out@ =~= start + joined(parts.take(i + 1)));
            i += 1;
        }
        assert(parts.take(parts.len() as int) =~= parts);
    }

    /// The page of each column that has one.
    pub fn column_pages(&self) -> (pages: Vec<Option<Vec<u8>>>)
        ensures
            page_views(pages@) == pages_of(self.images()),
    {
        let mut pages: Vec<Option<Vec<u8>>> = Vec::new();
        let mut i: usize = 0;
        while i < self.columns.len()
            invariant
                i <= self.columns.len(),
                pages@.len() == i,
                forall|k: int| 0 <= k < i ==> page_view(#[trigger] pages@[k]) == column_page(self.columns@[k]@),
            decreases self.columns.len() - i,
        {
            let column: &PreparedColumn = &self.columns[i];
            if column.encoding == ENCODING_ALL_NULL || (column.encoding == ENCODING_CONST && !column.has_nulls) {
                pages.push(None);
            } else {
                let mut page: Vec<u8> = Vec::new();
                page.extend_from_slice(column.dict_meta.as_slice());
                page.extend_from_slice(column.null_bytes.as_slice());
                page.extend_from_slice(column.data.as_slice());
                assert(page@ =~= column@.dict_meta + column@.null_bytes + column@.data);
                pages.push(Some(page));
            }
            i += 1;
        }
        assert(page_views(pages@) =~= pages_of(self.images()));
        pages
    }

    /// The value of each constant column.
    pub fn const_data(&self) -> (values: Vec<Vec<u8>>)
        ensures
            byte_views(values@) == consts_of(self.images()),
    {
        let mut values: Vec<Vec<u8>> = Vec::new();
        let mut i: usize = 0;
        while i < self.columns.len()
            invariant
                i <= self.columns.len(),
                values@.len() == i,
                forall|k: int| 0 <= k < i ==> (#[trigger] values@[k])@ == self.columns@[k].const_value@,
            decreases self.columns.len() - i,
        {
            values.push(vstd::slice::slice_to_vec(self.columns[i].const_value.as_slice()));
            i += 1;
        }
        assert(byte_views(values@) =~= consts_of(self.images()));
        values
    }
}

pub open spec fn page_view(page: Option<Vec<u8>>) -> Option<Seq<u8>> {
    match page {
        Some(p) => Some(p@),
        None => None,
    }
}

pub open spec fn page_views(pages: Seq<Option<Vec<u8>>>) -> Seq<Option<Seq<u8>>> {
    Seq::new(pages.len(), |i: int| page_view(pages[i]))
}

pub open spec fn byte_views(values: Seq<Vec<u8>>) -> Seq<Seq<u8>> {
    Seq::new(values.len(), |i: int| values[i]@)
}

} // verus!
