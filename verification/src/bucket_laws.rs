//! What is written to a bucket is read back from it.
use vstd::prelude::*;
use vstd::arithmetic::power2::pow2;
use crate::bits::{bytes_for, flag_values, packed, packed_flags, stream_bit, unpack_undoes_pack};
use crate::bucket_image::{column_page, bitmaps_of, bucket_header, bucket_image, columns_fit, consts_of, datas_of, dicts_of, encodings_of, nulls_of, varints};
use crate::bucket_reader::{
    page_column, bitmaps_at, blank_column, bucket_columns, bucket_rows, consts_at, counts_at, dict_at, dicts_at, encoding_at,
    all_rows_in, all_unplaced, codes_at, entries_at, flags_at, header_at, placed_at, read_rows, Source,
};
use crate::bucket_writer::{appended, batch_ok, batch_rows, child_ok, columns_error, lemma_no_error, shape_error,
    all_child_columns, all_child_types, bucket_images, child_counts, lemma_all_child_len, lemma_batch_len,
    lemma_child_place, lengths, max_rows, physical_columns, physical_types, BucketWriter};
use crate::column::{
    consistent, element_ok, kept_items, leaf_error, leaf_matches, leaf_value, lemma_leaf_fits, lemma_legacy_row,
    lemma_rows_len, offsets_ok, row_range, rows_below, rows_of, Column, ColumnValues, child_columns,
    child_types, element_columns, element_types, lemma_columns_len, list_items, map_keys, map_values, own_cell, own_cells, Row,
};
use crate::column_writer::{column_image, distinct, joined, null_flags, present, Cells, ColumnImage, DictLimits};
use crate::codec::lemma_be_bytes_len;
use crate::decimal::{lemma_signed_len, signed_len, signed_value_of_signed_bytes, twos_complement};
use crate::encoded_column::EncodedColumnView;
use crate::error::{Error, PagePart};
use crate::format::{ENCODING_ALL_NULL, ENCODING_CONST, ENCODING_DICT, ENCODING_PLAIN};
use crate::raw_column::coerced;
use crate::read_back::{lemma_written_dict, all_taken, decoded_all, decoded_rows, is_written, lemma_column_reads, lemma_flag_bits, lemma_stands,
    lemma_stands_part, stands_at, written_column};
use crate::reassemble::{all_assembled, assembled, cut_lists, cut_maps, length_of, offset_at};
use crate::types::{is_container_type, physical_type, width_of, DataType};
use crate::values::{decode_undoes_encode, decoded_value, is_value, lemma_value_in_data, value_fits, ValueView};
use crate::varint;
use crate::varint::varint_bytes;

verus! {

// ---------------------------------------------------------------- physical columns

/// The cells hold values that their columns take as they are.
pub open spec fn cells_taken(types: Seq<DataType>, cells: Seq<Cells>) -> bool {
    &&& types.len() == cells.len()
    &&& forall|j: int| 0 <= j < cells.len() ==> all_taken(types[j], present(#[trigger] cells[j])) && cells[j].len() <= max_rows()
}

/// The images of physical columns.
pub open spec fn images_for(types: Seq<DataType>, cells: Seq<Cells>, limits: DictLimits) -> Seq<ColumnImage> {
    Seq::new(cells.len(), |j: int| column_image(cells[j], width_of(types[j]), limits))
}

pub open spec fn codes_of(images: Seq<ColumnImage>) -> Seq<u8> {
    Seq::new(images.len(), |j: int| images[j].encoding)
}

pub open spec fn const_views(types: Seq<DataType>, cells: Seq<Cells>, limits: DictLimits, data: Seq<u8>, n: nat) -> Seq<ValueView> {
    Seq::new(n, |j: int| written_column(types[j], cells[j], limits, data, 0).const_value)
}

pub open spec fn dict_parts(types: Seq<DataType>, cells: Seq<Cells>, limits: DictLimits, data: Seq<u8>, n: nat) -> Seq<Seq<ValueView>> {
    Seq::new(n, |j: int| written_column(types[j], cells[j], limits, data, 0).dict)
}

pub open spec fn bitmap_parts(types: Seq<DataType>, cells: Seq<Cells>, limits: DictLimits, data: Seq<u8>, n: nat) -> Seq<Seq<u8>> {
    Seq::new(n, |j: int| written_column(types[j], cells[j], limits, data, 0).null_bitmap)
}

proof fn lemma_encoding_codes(cells: Cells, width: int, limits: DictLimits)
    ensures
        column_image(cells, width, limits).encoding <= 3,
{
}

/// The numbers stand where they were written.
proof fn lemma_counts(counts: Seq<nat>, data: Seq<u8>, p: int, n: nat)
    requires
        stands_at(data, p, varints(counts)),
        n <= counts.len(),
        forall|i: int| 0 <= i < counts.len() ==> #[trigger] counts[i] <= u32::MAX,
    ensures
        varints(counts.take(n as int)).len() <= varints(counts).len(),
        counts_at(data, p, n) == Ok::<(Seq<nat>, int), Error>((counts.take(n as int), p + varints(counts.take(n as int)).len())),
        stands_at(data, p, varints(counts.take(n as int))),
    decreases n,
{
    lemma_varints_stand(counts, data, p, n);
    if n > 0 {
        lemma_counts(counts.take(n as int), data, p, (n - 1) as nat);
        let front = counts.take(n - 1);
        assert(counts.take(n as int).take(n - 1) =~= front);
        assert(counts.take(n as int).drop_last() =~= front);
        lemma_stands(data, p, varints(front), varint_bytes(counts[n - 1]));
        varint::decode_undoes_encode(data, p + varints(front).len(), counts[n - 1]);
        assert(counts.take(n as int) =~= front.push(counts[n - 1]));
    } else {
        assert(counts.take(0) =~= Seq::empty());
    }
}

proof fn lemma_varints_stand(counts: Seq<nat>, data: Seq<u8>, p: int, n: nat)
    requires
        stands_at(data, p, varints(counts)),
        n <= counts.len(),
    ensures
        stands_at(data, p, varints(counts.take(n as int))),
        varints(counts.take(n as int)).len() <= varints(counts).len(),
    decreases counts.len(),
{
    if n < counts.len() {
        lemma_stands(data, p, varints(counts.drop_last()), varint_bytes(counts.last()));
        lemma_varints_stand(counts.drop_last(), data, p, n);
        assert(counts.drop_last().take(n as int) =~= counts.take(n as int));
    } else {
        assert(counts.take(n as int) =~= counts);
    }
}

proof fn lemma_header(num_primary: nat, counts: Seq<nat>, data: Seq<u8>)
    requires
        stands_at(data, 0, bucket_header(num_primary, counts)),
        counts.len() > 0 ==> num_primary <= u32::MAX && counts.len() <= u32::MAX,
        forall|i: int| 0 <= i < counts.len() ==> #[trigger] counts[i] <= u32::MAX,
    ensures
        header_at(data, counts.len() > 0) == Ok::<(Seq<nat>, int), Error>(
            (counts, bucket_header(num_primary, counts).len() as int),
        ),
{
    if counts.len() > 0 {
        let a = varint_bytes(num_primary);
        let b = varint_bytes(counts.len());
        lemma_stands(data, 0, a + b, varints(counts));
        lemma_stands(data, 0, a, b);
        varint::decode_undoes_encode(data, 0, num_primary);
        varint::decode_undoes_encode(data, a.len() as int, counts.len());
        lemma_counts(counts, data, (a.len() + b.len()) as int, counts.len());
        assert(counts.take(counts.len() as int) =~= counts);
    } else {
        assert(counts =~= Seq::empty());
    }
}

/// The constants stand where they were written.
proof fn lemma_consts(types: Seq<DataType>, cells: Seq<Cells>, limits: DictLimits, codes: Seq<u8>, data: Seq<u8>, p: int, n: nat)
    requires
        cells_taken(types, cells),
        stands_at(data, p, joined(consts_of(images_for(types, cells, limits)))),
        codes == codes_of(images_for(types, cells, limits)),
        n <= cells.len(),
    ensures
        consts_at(types, codes, data, p, n) == Ok::<(Seq<ValueView>, int), Error>(
            (
                const_views(types, cells, limits, data, n),
                p + joined(consts_of(images_for(types, cells, limits)).take(n as int)).len(),
            ),
        ),
    decreases n,
{
    let images = images_for(types, cells, limits);
    let parts = consts_of(images);
    let views = |m: nat| const_views(types, cells, limits, data, m);
    if n == 0 {
        assert(parts.take(0) =~= Seq::empty());
        assert(views(0) =~= Seq::empty());
    } else {
        lemma_consts(types, cells, limits, codes, data, p, (n - 1) as nat);
        lemma_stands_part(data, p, parts, n - 1);
        let values = present(cells[n - 1]);
        let q = p + joined(parts.take(n - 1)).len();
        if codes[n - 1] == ENCODING_CONST {
            assert(is_value(types[n - 1], values[0]));
            lemma_value_in_data(types[n - 1], data, q, values[0], Error::BucketTruncated);
        }
        assert(views(n) =~= views((n - 1) as nat).push(written_column(types[n - 1], cells[n - 1], limits, data, 0).const_value));
    }
}

/// The entries of a dictionary stand where they were written.
pub proof fn lemma_entries_written(dt: DataType, entries: Seq<Seq<u8>>, data: Seq<u8>, p: int, n: nat, source: Source)
    requires
        all_taken(dt, entries),
        stands_at(data, p, joined(entries)),
        n <= entries.len(),
    ensures
        entries_at(dt, data, p, n, source) == Ok::<(Seq<ValueView>, int), Error>(
            (decoded_all(dt, entries).take(n as int), p + joined(entries.take(n as int)).len()),
        ),
    decreases n,
{
    let all = decoded_all(dt, entries);
    if n == 0 {
        assert(entries.take(0) =~= Seq::empty());
        assert(all.take(0) =~= Seq::empty());
    } else {
        lemma_entries_written(dt, entries, data, p, (n - 1) as nat, source);
        lemma_stands_part(data, p, entries, n - 1);
        let q = p + joined(entries.take(n - 1)).len();
        assert(is_value(dt, entries[n - 1]));
        lemma_value_in_data(dt, data, q, entries[n - 1], source.spec_truncated(PagePart::Value));
        assert(all.take(n as int) =~= all.take(n - 1).push(all[n - 1]));
    }
}

/// A dictionary stands where it was written.
pub proof fn lemma_dict_written(dt: DataType, entries: Seq<Seq<u8>>, data: Seq<u8>, p: int, source: Source)
    requires
        all_taken(dt, entries),
        entries.len() <= u32::MAX,
        stands_at(data, p, varint_bytes(entries.len()) + joined(entries)),
    ensures
        dict_at(dt, data, p, source) == Ok::<(Seq<ValueView>, int), Error>(
            (decoded_all(dt, entries), p + (varint_bytes(entries.len()) + joined(entries)).len()),
        ),
{
    let head = varint_bytes(entries.len());
    lemma_stands(data, p, head, joined(entries));
    varint::decode_undoes_encode(data, p, entries.len());
    lemma_entries_written(dt, entries, data, p + head.len(), entries.len(), source);
    assert(entries.take(entries.len() as int) =~= entries);
    assert(decoded_all(dt, entries).take(entries.len() as int) =~= decoded_all(dt, entries));
}

/// The dictionaries stand where they were written.
proof fn lemma_dicts(types: Seq<DataType>, cells: Seq<Cells>, limits: DictLimits, codes: Seq<u8>, data: Seq<u8>, p: int, n: nat)
    requires
        limits.wf(),
        cells_taken(types, cells),
        stands_at(data, p, joined(dicts_of(images_for(types, cells, limits)))),
        codes == codes_of(images_for(types, cells, limits)),
        n <= cells.len(),
    ensures
        dicts_at(types, codes, data, p, n) == Ok::<(Seq<Seq<ValueView>>, int), Error>(
            (
                dict_parts(types, cells, limits, data, n),
                p + joined(dicts_of(images_for(types, cells, limits)).take(n as int)).len(),
            ),
        ),
    decreases n,
{
    let images = images_for(types, cells, limits);
    let parts = dicts_of(images);
    let views = |m: nat| dict_parts(types, cells, limits, data, m);
    if n == 0 {
        assert(parts.take(0) =~= Seq::empty());
        assert(views(0) =~= Seq::empty());
    } else {
        lemma_dicts(types, cells, limits, codes, data, p, (n - 1) as nat);
        lemma_stands_part(data, p, parts, n - 1);
        let d = distinct(present(cells[n - 1]));
        let q = p + joined(parts.take(n - 1)).len();
        crate::read_back::lemma_written_dict(types[n - 1], cells[n - 1], limits);
        if codes[n - 1] == ENCODING_DICT {
            lemma_dict_written(types[n - 1], d, data, q, Source::Bucket);
        }
        assert(views(n) =~= views((n - 1) as nat).push(written_column(types[n - 1], cells[n - 1], limits, data, 0).dict));
    }
}

/// The null bitmaps stand where they were written.
proof fn lemma_bitmaps(
    types: Seq<DataType>,
    cells: Seq<Cells>,
    limits: DictLimits,
    codes: Seq<u8>,
    nulls: Seq<bool>,
    rows: Seq<nat>,
    data: Seq<u8>,
    p: int,
    n: nat,
)
    requires
        types.len() == cells.len(),
        stands_at(data, p, joined(bitmaps_of(images_for(types, cells, limits)))),
        codes == codes_of(images_for(types, cells, limits)),
        nulls == nulls_of(images_for(types, cells, limits)),
        rows == lengths(cells),
        n <= cells.len(),
    ensures
        bitmaps_at(codes, nulls, rows, data, p, n) == Ok::<(Seq<Seq<u8>>, int), Error>(
            (
                bitmap_parts(types, cells, limits, data, n),
                p + joined(bitmaps_of(images_for(types, cells, limits)).take(n as int)).len(),
            ),
        ),
    decreases n,
{
    let images = images_for(types, cells, limits);
    let parts = bitmaps_of(images);
    let views = |m: nat| bitmap_parts(types, cells, limits, data, m);
    if n == 0 {
        assert(parts.take(0) =~= Seq::empty());
        assert(views(0) =~= Seq::empty());
    } else {
        lemma_bitmaps(types, cells, limits, codes, nulls, rows, data, p, (n - 1) as nat);
        lemma_stands_part(data, p, parts, n - 1);
        if images[n - 1].has_nulls {
            let flags = null_flags(cells[n - 1]);
            assert(flag_values(flags).len() * 1 == flags.len()) by (nonlinear_arith)
                requires
                    flag_values(flags).len() == flags.len(),
            ;
            assert(packed_flags(flags).len() == bytes_for(flags.len() as int));
        }
        assert(views(n) =~= views((n - 1) as nat).push(written_column(types[n - 1], cells[n - 1], limits, data, 0).null_bitmap));
    }
}

/// Where the values of physical column `j` stand, if those of the first one stand at `p`.
pub open spec fn data_start(types: Seq<DataType>, cells: Seq<Cells>, limits: DictLimits, p: int, j: int) -> int {
    p + joined(datas_of(images_for(types, cells, limits)).take(j)).len()
}

/// The physical columns as they are read where they were written.
pub open spec fn written_columns(types: Seq<DataType>, cells: Seq<Cells>, limits: DictLimits, data: Seq<u8>, p: int, n: nat) -> Seq<
    EncodedColumnView,
> {
    Seq::new(n, |j: int| written_column(types[j], cells[j], limits, data, data_start(types, cells, limits, p, j)))
}

proof fn lemma_places(
    types: Seq<DataType>,
    cells: Seq<Cells>,
    limits: DictLimits,
    columns: Seq<EncodedColumnView>,
    data: Seq<u8>,
    p: int,
    n: nat,
)
    requires
        limits.wf(),
        cells_taken(types, cells),
        stands_at(data, p, joined(datas_of(images_for(types, cells, limits)))),
        columns.len() == cells.len(),
        forall|j: int| 0 <= j < cells.len() ==> #[trigger] columns[j] == written_column(types[j], cells[j], limits, data, 0),
        n <= cells.len(),
    ensures
        placed_at(columns, p, n) == Ok::<(Seq<EncodedColumnView>, int), Error>(
            (written_columns(types, cells, limits, data, p, n), data_start(types, cells, limits, p, n as int)),
        ),
    decreases n,
{
    let parts = datas_of(images_for(types, cells, limits));
    if n == 0 {
        assert(parts.take(0) =~= Seq::empty());
        assert(written_columns(types, cells, limits, data, p, 0) =~= Seq::empty());
    } else {
        lemma_places(types, cells, limits, columns, data, p, (n - 1) as nat);
        lemma_stands_part(data, p, parts, n - 1);
        let q = data_start(types, cells, limits, p, n - 1);
        assert(all_taken(types[n - 1], present(cells[n - 1])));
        lemma_column_reads(types[n - 1], cells[n - 1], limits, data, q, Source::Bucket);
        assert(EncodedColumnView { cursor: q, ..columns[n - 1] } == written_column(types[n - 1], cells[n - 1], limits, data, q));
        assert(written_columns(types, cells, limits, data, p, n) =~= written_columns(types, cells, limits, data, p, (n - 1) as nat).push(
            written_column(types[n - 1], cells[n - 1], limits, data, q),
        ));
    }
}

/// Where the parts of a bucket stand.
proof fn lemma_bucket_parts(num_primary: nat, counts: Seq<nat>, images: Seq<ColumnImage>)
    ensures
        ({
            let data = bucket_image(num_primary, counts, images);
            let p0 = bucket_header(num_primary, counts).len() as int;
            let p1 = p0 + bytes_for((2 * images.len()) as int);
            let p2 = p1 + bytes_for(images.len() as int);
            let p3 = p2 + joined(consts_of(images)).len();
            let p4 = p3 + joined(dicts_of(images)).len();
            let p5 = p4 + joined(bitmaps_of(images)).len();
            &&& stands_at(data, 0, bucket_header(num_primary, counts))
            &&& stands_at(data, p0, packed(encodings_of(images), 2))
            &&& stands_at(data, p1, packed_flags(nulls_of(images)))
            &&& stands_at(data, p2, joined(consts_of(images)))
            &&& stands_at(data, p3, joined(dicts_of(images)))
            &&& stands_at(data, p4, joined(bitmaps_of(images)))
            &&& stands_at(data, p5, joined(datas_of(images)))
            &&& packed(encodings_of(images), 2).len() == bytes_for((2 * images.len()) as int)
            &&& packed_flags(nulls_of(images)).len() == bytes_for(images.len() as int)
        }),
{
    let total = images.len();
    let header = bucket_header(num_primary, counts);
    let flags = packed(encodings_of(images), 2);
    let null_part = packed_flags(nulls_of(images));
    let consts = joined(consts_of(images));
    let dicts = joined(dicts_of(images));
    let bitmaps = joined(bitmaps_of(images));
    let datas = joined(datas_of(images));
    let data = bucket_image(num_primary, counts, images);
    assert(data.subrange(0, data.len() as int) =~= data);
    lemma_stands(data, 0, header + flags + null_part + consts + dicts + bitmaps, datas);
    lemma_stands(data, 0, header + flags + null_part + consts + dicts, bitmaps);
    lemma_stands(data, 0, header + flags + null_part + consts, dicts);
    lemma_stands(data, 0, header + flags + null_part, consts);
    lemma_stands(data, 0, header + flags, null_part);
    lemma_stands(data, 0, header, flags);
    assert(encodings_of(images).len() * 2 == 2 * total);
    assert(flag_values(nulls_of(images)).len() * 1 == total) by (nonlinear_arith)
        requires
            flag_values(nulls_of(images)).len() == total,
    ;
}

/// The codes of the encodings stand where they were written.
proof fn lemma_codes(types: Seq<DataType>, cells: Seq<Cells>, limits: DictLimits, data: Seq<u8>, p: int)
    requires
        types.len() == cells.len(),
        stands_at(data, p, packed(encodings_of(images_for(types, cells, limits)), 2)),
    ensures
        codes_at(data, p, types.len()) == codes_of(images_for(types, cells, limits)),
{
    let images = images_for(types, cells, limits);
    let flags = packed(encodings_of(images), 2);
    let before = data.take(p);
    let after = data.skip(p + flags.len());
    assert(data =~= before + flags + after) by {
        assert(flags =~= data.subrange(p, p + flags.len()));
    }
    vstd::arithmetic::power2::lemma2_to64();
    assert forall|k: int| 0 <= k < encodings_of(images).len() implies #[trigger] encodings_of(images)[k] < pow2(2) by {
        lemma_encoding_codes(cells[k], width_of(types[k]), limits);
    }
    assert forall|j: int| 0 <= j < types.len() implies #[trigger] encoding_at(data, p, j) == images[j].encoding by {
        unpack_undoes_pack(encodings_of(images), 2, j, before, after);
        assert(encodings_of(images)[j] == images[j].encoding);
    }
    assert(codes_at(data, p, types.len()) =~= codes_of(images));
}

/// The flags of the columns with nulls stand where they were written.
proof fn lemma_null_codes(flags: Seq<bool>, data: Seq<u8>, p: int)
    requires
        stands_at(data, p, packed_flags(flags)),
    ensures
        flags_at(data, p, flags.len()) == flags,
{
    let part = packed_flags(flags);
    assert forall|j: int| 0 <= j < flags.len() implies #[trigger] stream_bit(data, 8 * p + j) == flags[j] by {
        lemma_flag_bits(flags, j);
        assert((8 * p + j) / 8 == p + j / 8);
        assert((8 * p + j) % 8 == j % 8);
        assert(data[p + j / 8] == data.subrange(p, p + part.len())[j / 8]);
    }
    assert(flags_at(data, p, flags.len()) =~= flags);
}

/// What a bucket is written from.
pub open spec fn bucket_ok(types: Seq<DataType>, num_primary: nat, cells: Seq<Cells>, limits: DictLimits, num_rows: nat) -> bool {
    &&& limits.wf()
    &&& cells_taken(types, cells)
    &&& num_rows > 0
    &&& 0 < num_primary <= types.len()
    &&& columns_fit(num_primary, types.len())
    &&& forall|j: int| 0 <= j < num_primary ==> (#[trigger] cells[j]).len() == num_rows
}

/// The bytes of a bucket.
pub open spec fn image_for(types: Seq<DataType>, num_primary: nat, cells: Seq<Cells>, limits: DictLimits) -> Seq<u8> {
    bucket_image(num_primary, lengths(cells.skip(num_primary as int)), images_for(types, cells, limits))
}

/// The positions of the parts of a bucket.
pub open spec fn part_at(types: Seq<DataType>, num_primary: nat, cells: Seq<Cells>, limits: DictLimits, part: nat) -> int
    decreases part,
{
    let images = images_for(types, cells, limits);
    if part == 0 {
        bucket_header(num_primary, lengths(cells.skip(num_primary as int))).len() as int
    } else {
        part_at(types, num_primary, cells, limits, (part - 1) as nat) + (if part == 1 {
            bytes_for((2 * images.len()) as int)
        } else if part == 2 {
            bytes_for(images.len() as int)
        } else if part == 3 {
            joined(consts_of(images)).len() as int
        } else if part == 4 {
            joined(dicts_of(images)).len() as int
        } else {
            joined(bitmaps_of(images)).len() as int
        })
    }
}

proof fn lemma_stage_one(types: Seq<DataType>, num_primary: nat, cells: Seq<Cells>, limits: DictLimits, num_rows: nat)
    requires
        bucket_ok(types, num_primary, cells, limits, num_rows),
    ensures
        ({
            let images = images_for(types, cells, limits);
            let counts = lengths(cells.skip(num_primary as int));
            let data = image_for(types, num_primary, cells, limits);
            let p = |k: nat| part_at(types, num_primary, cells, limits, k);
            &&& header_at(data, types.len() > num_primary) == Ok::<(Seq<nat>, int), Error>((counts, p(0)))
            &&& codes_at(data, p(0), types.len()) == codes_of(images)
            &&& flags_at(data, p(1), types.len()) == nulls_of(images)
            &&& all_rows_in(types.len(), num_primary as int, num_rows, counts) == lengths(cells)
            &&& stands_at(data, p(2), joined(consts_of(images)))
            &&& stands_at(data, p(3), joined(dicts_of(images)))
            &&& stands_at(data, p(4), joined(bitmaps_of(images)))
            &&& stands_at(data, p(5), joined(datas_of(images)))
            &&& p(1) == p(0) + bytes_for((2 * types.len()) as int)
            &&& p(2) == p(1) + bytes_for(types.len() as int)
            &&& p(3) == p(2) + joined(consts_of(images)).len()
            &&& p(4) == p(3) + joined(dicts_of(images)).len()
            &&& p(5) == p(4) + joined(bitmaps_of(images)).len()
            &&& 0 < p(2) <= data.len()
        }),
{
    let images = images_for(types, cells, limits);
    let counts = lengths(cells.skip(num_primary as int));
    let data = image_for(types, num_primary, cells, limits);
    reveal_with_fuel(part_at, 6);
    lemma_bucket_parts(num_primary, counts, images);
    assert forall|i: int| 0 <= i < counts.len() implies #[trigger] counts[i] <= u32::MAX by {
        assert(cells[num_primary + i].len() <= max_rows());
    }
    lemma_header(num_primary, counts, data);
    lemma_codes(types, cells, limits, data, part_at(types, num_primary, cells, limits, 0));
    lemma_null_codes(nulls_of(images), data, part_at(types, num_primary, cells, limits, 1));
    let rows = all_rows_in(types.len(), num_primary as int, num_rows, counts);
    assert(rows =~= lengths(cells)) by {
        assert forall|j: int| 0 <= j < types.len() implies #[trigger] rows[j] == lengths(cells)[j] by {
            if j >= num_primary {
                assert(counts[j - num_primary] == cells[j].len());
            }
        }
    }
}

proof fn lemma_stage_two(types: Seq<DataType>, cells: Seq<Cells>, limits: DictLimits, data: Seq<u8>, p: int)
    requires
        limits.wf(),
        cells_taken(types, cells),
        stands_at(data, p, joined(datas_of(images_for(types, cells, limits)))),
    ensures
        ({
            let images = images_for(types, cells, limits);
            let columns = all_unplaced(
                types,
                codes_of(images),
                nulls_of(images),
                lengths(cells),
                const_views(types, cells, limits, data, types.len()),
                dict_parts(types, cells, limits, data, types.len()),
                bitmap_parts(types, cells, limits, data, types.len()),
                data,
            );
            placed_at(columns, p, types.len()) == Ok::<(Seq<EncodedColumnView>, int), Error>(
                (
                    written_columns(types, cells, limits, data, p, types.len()),
                    data_start(types, cells, limits, p, types.len() as int),
                ),
            )
        }),
{
    let images = images_for(types, cells, limits);
    let columns = all_unplaced(
        types,
        codes_of(images),
        nulls_of(images),
        lengths(cells),
        const_views(types, cells, limits, data, types.len()),
        dict_parts(types, cells, limits, data, types.len()),
        bitmap_parts(types, cells, limits, data, types.len()),
        data,
    );
    lemma_places(types, cells, limits, columns, data, p, types.len());
}

/// The columns of a bucket follow from its parts.
proof fn lemma_compose(
    types: Seq<DataType>,
    num_primary: nat,
    data: Seq<u8>,
    num_rows: nat,
    counts: Seq<nat>,
    codes: Seq<u8>,
    nulls: Seq<bool>,
    rows: Seq<nat>,
    consts: Seq<ValueView>,
    dicts: Seq<Seq<ValueView>>,
    bitmaps: Seq<Seq<u8>>,
    columns: Seq<EncodedColumnView>,
    p0: int,
    p3: int,
    p4: int,
    p5: int,
    end: int,
)
    requires
        num_rows > 0,
        data.len() > 0,
        header_at(data, types.len() > num_primary) == Ok::<(Seq<nat>, int), Error>((counts, p0)),
        codes == codes_at(data, p0, types.len()),
        nulls == flags_at(data, p0 + bytes_for((2 * types.len()) as int), types.len()),
        rows == all_rows_in(types.len(), num_primary as int, num_rows, counts),
        p0 + bytes_for((2 * types.len()) as int) + bytes_for(types.len() as int) <= data.len(),
        consts_at(types, codes, data, p0 + bytes_for((2 * types.len()) as int) + bytes_for(types.len() as int), types.len()) == Ok::<
            (Seq<ValueView>, int),
            Error,
        >((consts, p3)),
        dicts_at(types, codes, data, p3, types.len()) == Ok::<(Seq<Seq<ValueView>>, int), Error>((dicts, p4)),
        bitmaps_at(codes, nulls, rows, data, p4, types.len()) == Ok::<(Seq<Seq<u8>>, int), Error>((bitmaps, p5)),
        placed_at(all_unplaced(types, codes, nulls, rows, consts, dicts, bitmaps, data), p5, types.len()) == Ok::<
            (Seq<EncodedColumnView>, int),
            Error,
        >((columns, end)),
    ensures
        bucket_columns(types, num_primary as int, data, num_rows) == Ok::<Seq<EncodedColumnView>, Error>(columns),
{
}

/// The physical columns of a bucket are read where they were written.
pub proof fn lemma_bucket_columns(types: Seq<DataType>, num_primary: nat, cells: Seq<Cells>, limits: DictLimits, num_rows: nat)
    requires
        bucket_ok(types, num_primary, cells, limits, num_rows),
    ensures
        ({
            let data = image_for(types, num_primary, cells, limits);
            let p = part_at(types, num_primary, cells, limits, 5);
            &&& data.len() > 0
            &&& stands_at(data, p, joined(datas_of(images_for(types, cells, limits))))
            &&& bucket_columns(types, num_primary as int, data, num_rows) == Ok::<Seq<EncodedColumnView>, Error>(
                written_columns(types, cells, limits, data, p, types.len()),
            )
        }),
{
    let total = types.len();
    let images = images_for(types, cells, limits);
    let data = image_for(types, num_primary, cells, limits);
    let counts = lengths(cells.skip(num_primary as int));
    lemma_stage_one(types, num_primary, cells, limits, num_rows);
    let p2 = part_at(types, num_primary, cells, limits, 2);
    let p3 = part_at(types, num_primary, cells, limits, 3);
    let p4 = part_at(types, num_primary, cells, limits, 4);
    let p5 = part_at(types, num_primary, cells, limits, 5);
    let consts = const_views(types, cells, limits, data, total);
    let dicts = dict_parts(types, cells, limits, data, total);
    let bitmaps = bitmap_parts(types, cells, limits, data, total);
    assert(consts_at(types, codes_of(images), data, p2, total) == Ok::<(Seq<ValueView>, int), Error>((consts, p3))) by {
        lemma_consts(types, cells, limits, codes_of(images), data, p2, total);
        assert(consts_of(images).take(total as int) =~= consts_of(images));
    }
    assert(dicts_at(types, codes_of(images), data, p3, total) == Ok::<(Seq<Seq<ValueView>>, int), Error>((dicts, p4))) by {
        lemma_dicts(types, cells, limits, codes_of(images), data, p3, total);
        assert(dicts_of(images).take(total as int) =~= dicts_of(images));
    }
    assert(bitmaps_at(codes_of(images), nulls_of(images), lengths(cells), data, p4, total) == Ok::<(Seq<Seq<u8>>, int), Error>(
        (bitmaps, p5),
    )) by {
        lemma_bitmaps(types, cells, limits, codes_of(images), nulls_of(images), lengths(cells), data, p4, total);
        assert(bitmaps_of(images).take(total as int) =~= bitmaps_of(images));
    }
    lemma_stage_two(types, cells, limits, data, p5);
    lemma_compose(
        types,
        num_primary,
        data,
        num_rows,
        counts,
        codes_of(images),
        nulls_of(images),
        lengths(cells),
        consts,
        dicts,
        bitmaps,
        written_columns(types, cells, limits, data, p5, total),
        part_at(types, num_primary, cells, limits, 0),
        p3,
        p4,
        p5,
        data_start(types, cells, limits, p5, total as int),
    );
}

proof fn lemma_read_written(types: Seq<DataType>, cells: Seq<Cells>, limits: DictLimits, data: Seq<u8>, p: int, total: nat, n: nat)
    requires
        limits.wf(),
        cells_taken(types, cells),
        stands_at(data, p, joined(datas_of(images_for(types, cells, limits)))),
        n <= total <= cells.len(),
    ensures
        read_rows(written_columns(types, cells, limits, data, p, total), n) == Ok::<Seq<Seq<Row>>, Error>(
            Seq::new(n, |j: int| decoded_rows(types[j], cells[j])),
        ),
    decreases n,
{
    let columns = written_columns(types, cells, limits, data, p, total);
    let views = |m: nat| Seq::new(m, |j: int| decoded_rows(types[j], cells[j]));
    if n == 0 {
        assert(views(0) =~= Seq::empty());
    } else {
        lemma_read_written(types, cells, limits, data, p, total, (n - 1) as nat);
        let parts = datas_of(images_for(types, cells, limits));
        lemma_stands_part(data, p, parts, n - 1);
        assert(all_taken(types[n - 1], present(cells[n - 1])));
        lemma_column_reads(
            types[n - 1],
            cells[n - 1],
            limits,
            data,
            data_start(types, cells, limits, p, n - 1),
            Source::Bucket,
        );
        assert(views(n) =~= views((n - 1) as nat).push(decoded_rows(types[n - 1], cells[n - 1])));
    }
}

// ---------------------------------------------------------------- rows

/// A value that a column of type `dt` holds as it is.
pub open spec fn canonical(dt: DataType, v: ValueView) -> bool {
    value_fits(dt, v) && coerced(dt, v) == Ok::<ValueView, Error>(v)
}

/// A row of a column of type `dt`.
pub open spec fn row_fits(dt: DataType, row: Row) -> bool
    decreases dt,
{
    match row {
        Row::Null => true,
        Row::Leaf(v) => !is_container_type(dt) && canonical(dt, v),
        Row::ListOf(items) => match dt {
            DataType::ListOf(element, _) => items.len() <= i32::MAX && forall|i: int|
                0 <= i < items.len() ==> row_fits(*element, #[trigger] items[i]),
            _ => false,
        },
        Row::MapOf(entries) => match dt {
            DataType::MapOf(key, value, _) => entries.len() <= i32::MAX && forall|i: int|
                0 <= i < entries.len() ==> row_fits(*key, (#[trigger] entries[i]).0) && row_fits(*value, entries[i].1),
            _ => false,
        },
    }
}

pub open spec fn rows_fit(dt: DataType, rows: Seq<Row>) -> bool {
    forall|i: int| 0 <= i < rows.len() ==> row_fits(dt, #[trigger] rows[i])
}

/// What the own physical column of rows holds: values, and the lengths of lists and maps.
pub open spec fn own_row(row: Row) -> Row {
    match row {
        Row::ListOf(items) => Row::Leaf(ValueView::Integer(items.len() as i32)),
        Row::MapOf(entries) => Row::Leaf(ValueView::Integer(entries.len() as i32)),
        _ => row,
    }
}

pub open spec fn own_rows(rows: Seq<Row>) -> Seq<Row> {
    Seq::new(rows.len(), |i: int| own_row(rows[i]))
}

/// The bytes are those of a value that a column of type `dt` takes.
spec fn taken(dt: DataType, b: Seq<u8>) -> bool {
    is_value(dt, b) && coerced(dt, decoded_value(dt, b)) is Ok
}

proof fn lemma_present_taken(dt: DataType, cells: Cells)
    requires
        forall|r: int| 0 <= r < cells.len() && cells[r] is Some ==> taken(dt, (#[trigger] cells[r])->0),
    ensures
        all_taken(dt, present(cells)),
    decreases cells.len(),
{
    if cells.len() > 0 {
        let front = cells.drop_last();
        assert forall|r: int| 0 <= r < front.len() && front[r] is Some implies taken(dt, (#[trigger] front[r])->0) by {
            assert(taken(dt, cells[r]->0));
        }
        lemma_present_taken(dt, front);
        let last = cells[cells.len() - 1];
        if last is Some {
            assert(taken(dt, last->0));
            assert forall|k: int| 0 <= k < present(cells).len() implies is_value(dt, #[trigger] present(cells)[k]) && coerced(
                dt,
                decoded_value(dt, present(cells)[k]),
            ) is Ok by {
                if k < present(front).len() {
                    assert(is_value(dt, present(front)[k]));
                }
            }
        }
    }
}

/// The own cell of a row holds its own row.
proof fn lemma_own_cell(dt: DataType, row: Row)
    requires
        row_fits(dt, row),
    ensures
        own_cell(row) matches Some(b) ==> taken(physical_type(dt), b) && own_row(row) == Row::Leaf(
            coerced(physical_type(dt), decoded_value(physical_type(dt), b))->Ok_0,
        ),
        own_cell(row) is None ==> own_row(row) == Row::Null,
{
    match row {
        Row::Null => {},
        Row::Leaf(v) => {
            decode_undoes_encode(dt, v);
        },
        Row::ListOf(items) => {
            let n = ValueView::Integer(items.len() as i32);
            assert(value_fits(DataType::Int32, n));
            decode_undoes_encode(DataType::Int32, n);
        },
        Row::MapOf(entries) => {
            let n = ValueView::Integer(entries.len() as i32);
            assert(value_fits(DataType::Int32, n));
            decode_undoes_encode(DataType::Int32, n);
        },
    }
}

pub proof fn lemma_own_cells(dt: DataType, rows: Seq<Row>)
    requires
        rows_fit(dt, rows),
    ensures
        all_taken(physical_type(dt), present(own_cells(rows))),
        decoded_rows(physical_type(dt), own_cells(rows)) == own_rows(rows),
{
    let cells = own_cells(rows);
    assert forall|r: int| 0 <= r < cells.len() && cells[r] is Some implies taken(physical_type(dt), (#[trigger] cells[r])->0) by {
        assert(row_fits(dt, rows[r]));
        lemma_own_cell(dt, rows[r]);
    }
    lemma_present_taken(physical_type(dt), cells);
    assert(decoded_rows(physical_type(dt), cells) =~= own_rows(rows)) by {
        assert forall|r: int| 0 <= r < rows.len() implies #[trigger] decoded_rows(physical_type(dt), cells)[r] == own_rows(rows)[r] by {
            assert(row_fits(dt, rows[r]));
            lemma_own_cell(dt, rows[r]);
        }
    }
}

proof fn lemma_items_fit(element: DataType, dt: DataType, rows: Seq<Row>)
    requires
        dt matches DataType::ListOf(e, _) && *e == element,
        rows_fit(dt, rows),
    ensures
        rows_fit(element, list_items(rows)),
    decreases rows.len(),
{
    if rows.len() > 0 {
        let front = rows.drop_last();
        assert forall|i: int| 0 <= i < front.len() implies row_fits(dt, #[trigger] front[i]) by {
            assert(row_fits(dt, rows[i]));
        }
        lemma_items_fit(element, dt, front);
        assert(row_fits(dt, rows[rows.len() - 1]));
        let head = list_items(front);
        assert forall|i: int| 0 <= i < list_items(rows).len() implies row_fits(element, #[trigger] list_items(rows)[i]) by {
            if i < head.len() {
                assert(row_fits(element, head[i]));
            } else if let Row::ListOf(items) = rows.last() {
                assert(row_fits(element, items[i - head.len()]));
            }
        }
    }
}

proof fn lemma_entries_fit(key: DataType, value: DataType, dt: DataType, rows: Seq<Row>)
    requires
        dt matches DataType::MapOf(k, v, _) && *k == key && *v == value,
        rows_fit(dt, rows),
    ensures
        rows_fit(key, map_keys(rows)),
        rows_fit(value, map_values(rows)),
        map_keys(rows).len() == map_values(rows).len(),
    decreases rows.len(),
{
    if rows.len() > 0 {
        let front = rows.drop_last();
        assert forall|i: int| 0 <= i < front.len() implies row_fits(dt, #[trigger] front[i]) by {
            assert(row_fits(dt, rows[i]));
        }
        lemma_entries_fit(key, value, dt, front);
        assert(row_fits(dt, rows[rows.len() - 1]));
        let ks = map_keys(front);
        let vs = map_values(front);
        assert forall|i: int| 0 <= i < map_keys(rows).len() implies row_fits(key, #[trigger] map_keys(rows)[i]) by {
            if i < ks.len() {
                assert(row_fits(key, ks[i]));
            } else if let Row::MapOf(entries) = rows.last() {
                assert(row_fits(key, entries[i - ks.len()].0));
            }
        }
        assert forall|i: int| 0 <= i < map_values(rows).len() implies row_fits(value, #[trigger] map_values(rows)[i]) by {
            if i < vs.len() {
                assert(row_fits(value, vs[i]));
            } else if let Row::MapOf(entries) = rows.last() {
                assert(row_fits(value, entries[i - vs.len()].1));
            }
        }
    }
}

/// The physical columns below rows hold values that they take.
proof fn lemma_children_taken(dt: DataType, rows: Seq<Row>)
    requires
        rows_fit(dt, rows),
    ensures
        child_columns(dt, rows).len() == child_types(dt).len(),
        forall|j: int|
            0 <= j < child_types(dt).len() ==> all_taken(child_types(dt)[j], present(#[trigger] child_columns(dt, rows)[j])),
    decreases dt,
{
    lemma_columns_len(dt, rows);
    match dt {
        DataType::ListOf(element, _) => {
            let items = list_items(rows);
            lemma_items_fit(*element, dt, rows);
            lemma_own_cells(*element, items);
            lemma_children_taken(*element, items);
            assert forall|j: int| 0 <= j < child_types(dt).len() implies all_taken(
                child_types(dt)[j],
                present(#[trigger] child_columns(dt, rows)[j]),
            ) by {
                if j > 0 {
                    assert(child_columns(dt, rows)[j] == child_columns(*element, items)[j - 1]);
                }
            }
        },
        DataType::MapOf(key, value, _) => {
            let (ks, vs) = (map_keys(rows), map_values(rows));
            lemma_entries_fit(*key, *value, dt, rows);
            lemma_own_cells(*key, ks);
            lemma_own_cells(*value, vs);
            lemma_children_taken(*key, ks);
            lemma_children_taken(*value, vs);
            lemma_columns_len(*key, ks);
            let split = element_types(*key).len() as int;
            assert forall|j: int| 0 <= j < child_types(dt).len() implies all_taken(
                child_types(dt)[j],
                present(#[trigger] child_columns(dt, rows)[j]),
            ) by {
                if 0 < j < split {
                    assert(child_columns(dt, rows)[j] == child_columns(*key, ks)[j - 1]);
                } else if j > split {
                    assert(child_columns(dt, rows)[j] == child_columns(*value, vs)[j - split - 1]);
                }
            }
        },
        _ => {},
    }
}

/// The rows below rows, as they are read.
pub open spec fn rows_below_of(dt: DataType, rows: Seq<Row>) -> Seq<Seq<Row>> {
    Seq::new(child_types(dt).len(), |j: int| decoded_rows(child_types(dt)[j], child_columns(dt, rows)[j]))
}

proof fn lemma_list_offsets(element: DataType, dt: DataType, rows: Seq<Row>, n: nat)
    requires
        dt matches DataType::ListOf(e, _) && *e == element,
        rows_fit(dt, rows),
        n <= rows.len(),
    ensures
        offset_at(own_rows(rows), n) == list_items(rows.take(n as int)).len(),
        list_items(rows.take(n as int)).len() <= list_items(rows).len(),
        list_items(rows).take(list_items(rows.take(n as int)).len() as int) == list_items(rows.take(n as int)),
    decreases rows.len(),
{
    if n < rows.len() {
        let front = rows.drop_last();
        assert forall|i: int| 0 <= i < front.len() implies row_fits(dt, #[trigger] front[i]) by {
            assert(row_fits(dt, rows[i]));
        }
        lemma_list_offsets(element, dt, front, n);
        assert(front.take(n as int) =~= rows.take(n as int));
        lemma_offset_same(own_rows(front), own_rows(rows), n);
        let m = list_items(rows.take(n as int)).len() as int;
        assert(list_items(rows).take(m) =~= list_items(front).take(m));
    } else {
        assert(rows.take(n as int) =~= rows);
        assert(list_items(rows).take(list_items(rows).len() as int) =~= list_items(rows));
        if n > 0 {
            let front = rows.drop_last();
            assert forall|i: int| 0 <= i < front.len() implies row_fits(dt, #[trigger] front[i]) by {
                assert(row_fits(dt, rows[i]));
            }
            lemma_list_offsets(element, dt, front, (n - 1) as nat);
            assert(front.take(n - 1) =~= front);
            lemma_offset_same(own_rows(front), own_rows(rows), (n - 1) as nat);
            assert(row_fits(dt, rows[n - 1]));
        }
    }
}

proof fn lemma_offset_same(a: Seq<Row>, b: Seq<Row>, n: nat)
    requires
        n <= a.len(),
        n <= b.len(),
        forall|i: int| 0 <= i < n ==> #[trigger] a[i] == b[i],
    ensures
        offset_at(a, n) == offset_at(b, n),
    decreases n,
{
    if n > 0 {
        lemma_offset_same(a, b, (n - 1) as nat);
        assert(a[n - 1] == b[n - 1]);
    }
}

proof fn lemma_map_offsets(key: DataType, value: DataType, dt: DataType, rows: Seq<Row>, n: nat)
    requires
        dt matches DataType::MapOf(k, v, _) && *k == key && *v == value,
        rows_fit(dt, rows),
        n <= rows.len(),
    ensures
        offset_at(own_rows(rows), n) == map_keys(rows.take(n as int)).len(),
        offset_at(own_rows(rows), n) == map_values(rows.take(n as int)).len(),
        map_keys(rows.take(n as int)).len() <= map_keys(rows).len(),
        map_values(rows.take(n as int)).len() <= map_values(rows).len(),
        map_keys(rows).take(map_keys(rows.take(n as int)).len() as int) == map_keys(rows.take(n as int)),
        map_values(rows).take(map_values(rows.take(n as int)).len() as int) == map_values(rows.take(n as int)),
    decreases rows.len(),
{
    if n < rows.len() {
        let front = rows.drop_last();
        assert forall|i: int| 0 <= i < front.len() implies row_fits(dt, #[trigger] front[i]) by {
            assert(row_fits(dt, rows[i]));
        }
        lemma_map_offsets(key, value, dt, front, n);
        assert(front.take(n as int) =~= rows.take(n as int));
        lemma_offset_same(own_rows(front), own_rows(rows), n);
        let m = map_keys(rows.take(n as int)).len() as int;
        assert(map_keys(rows).take(m) =~= map_keys(front).take(m));
        assert(map_values(rows).take(m) =~= map_values(front).take(m));
    } else {
        assert(rows.take(n as int) =~= rows);
        assert(map_keys(rows).take(map_keys(rows).len() as int) =~= map_keys(rows));
        assert(map_values(rows).take(map_values(rows).len() as int) =~= map_values(rows));
        if n > 0 {
            let front = rows.drop_last();
            assert forall|i: int| 0 <= i < front.len() implies row_fits(dt, #[trigger] front[i]) by {
                assert(row_fits(dt, rows[i]));
            }
            lemma_map_offsets(key, value, dt, front, (n - 1) as nat);
            assert(front.take(n - 1) =~= front);
            lemma_offset_same(own_rows(front), own_rows(rows), (n - 1) as nat);
            assert(row_fits(dt, rows[n - 1]));
        }
    }
}

proof fn lemma_lengths_fit(dt: DataType, rows: Seq<Row>)
    requires
        rows_fit(dt, rows),
        is_container_type(dt),
    ensures
        forall|i: int| 0 <= i < own_rows(rows).len() ==> length_of(#[trigger] own_rows(rows)[i]) >= 0,
{
    assert forall|i: int| 0 <= i < own_rows(rows).len() implies length_of(#[trigger] own_rows(rows)[i]) >= 0 by {
        assert(row_fits(dt, rows[i]));
    }
}

/// Lists and maps are put together again as they were.
#[verifier::rlimit(30)]
#[verifier::spinoff_prover]
proof fn lemma_assembled(dt: DataType, rows: Seq<Row>)
    requires
        rows_fit(dt, rows),
    ensures
        assembled(dt, own_rows(rows), rows_below_of(dt, rows)) == Ok::<Seq<Row>, Error>(rows),
    decreases dt,
{
    let below = rows_below_of(dt, rows);
    let own = own_rows(rows);
    lemma_columns_len(dt, rows);
    match dt {
        DataType::ListOf(element, _) => {
            let items = list_items(rows);
            lemma_items_fit(*element, dt, rows);
            lemma_own_cells(*element, items);
            lemma_columns_len(*element, items);
            lemma_assembled(*element, items);
            assert(below[0] == own_rows(items));
            assert(below.skip(1) =~= rows_below_of(*element, items)) by {
                assert forall|j: int| 0 <= j < child_types(*element).len() implies #[trigger] below.skip(1)[j] == rows_below_of(
                    *element,
                    items,
                )[j] by {
                    assert(child_columns(dt, rows)[j + 1] == child_columns(*element, items)[j]);
                }
            }
            lemma_list_offsets(*element, dt, rows, rows.len());
            assert(rows.take(rows.len() as int) =~= rows);
            lemma_lengths_fit(dt, rows);
            assert(cut_lists(own, items) =~= rows) by {
                assert forall|i: int| 0 <= i < rows.len() implies #[trigger] cut_lists(own, items)[i] == rows[i] by {
                    assert(row_fits(dt, rows[i]));
                    if let Row::ListOf(xs) = rows[i] {
                        lemma_list_offsets(*element, dt, rows, i as nat);
                        lemma_list_offsets(*element, dt, rows, (i + 1) as nat);
                        assert(rows.take(i + 1).drop_last() =~= rows.take(i));
                        let a = offset_at(own, i as nat);
                        let b = offset_at(own, (i + 1) as nat);
                        let whole = list_items(rows.take(i + 1));
                        assert(whole == list_items(rows.take(i)) + xs);
                        assert(items.subrange(a, b) =~= xs) by {
                            assert forall|k: int| 0 <= k < xs.len() implies items.subrange(a, b)[k] == xs[k] by {
                                assert(items.take(b)[a + k] == whole[a + k]);
                            }
                        }
                    }
                }
            }
        },
        DataType::MapOf(key, value, _) => {
            let (ks, vs) = (map_keys(rows), map_values(rows));
            let split = element_types(*key).len() as int;
            lemma_entries_fit(*key, *value, dt, rows);
            lemma_own_cells(*key, ks);
            lemma_own_cells(*value, vs);
            lemma_columns_len(*key, ks);
            lemma_columns_len(*value, vs);
            lemma_assembled(*key, ks);
            lemma_assembled(*value, vs);
            assert(child_columns(dt, rows)[0] == own_cells(ks));
            assert(child_columns(dt, rows)[split] == own_cells(vs));
            assert(below[0] == own_rows(ks));
            assert(below[split] == own_rows(vs));
            assert(below.subrange(1, split) =~= rows_below_of(*key, ks)) by {
                assert forall|j: int| 0 <= j < child_types(*key).len() implies #[trigger] below.subrange(1, split)[j] == rows_below_of(
                    *key,
                    ks,
                )[j] by {
                    assert(child_columns(dt, rows)[j + 1] == child_columns(*key, ks)[j]);
                    assert(child_types(dt)[j + 1] == child_types(*key)[j]);
                }
            }
            assert(below.skip(split + 1) =~= rows_below_of(*value, vs)) by {
                assert forall|j: int| 0 <= j < child_types(*value).len() implies #[trigger] below.skip(split + 1)[j] == rows_below_of(
                    *value,
                    vs,
                )[j] by {
                    assert(child_columns(dt, rows)[split + 1 + j] == child_columns(*value, vs)[j]);
                    assert(child_types(dt)[split + 1 + j] == child_types(*value)[j]);
                }
            }
            lemma_map_offsets(*key, *value, dt, rows, rows.len());
            assert(rows.take(rows.len() as int) =~= rows);
            lemma_lengths_fit(dt, rows);
            assert(cut_maps(own, ks, vs) =~= rows) by {
                assert forall|i: int| 0 <= i < rows.len() implies #[trigger] cut_maps(own, ks, vs)[i] == rows[i] by {
                    assert(row_fits(dt, rows[i]));
                    if let Row::MapOf(entries) = rows[i] {
                        lemma_map_offsets(*key, *value, dt, rows, i as nat);
                        lemma_map_offsets(*key, *value, dt, rows, (i + 1) as nat);
                        assert(rows.take(i + 1).drop_last() =~= rows.take(i));
                        let a = offset_at(own, i as nat);
                        let b = offset_at(own, (i + 1) as nat);
                        let whole_keys = map_keys(rows.take(i + 1));
                        let whole_values = map_values(rows.take(i + 1));
                        assert(cut_maps(own, ks, vs)[i]->MapOf_0 =~= entries) by {
                            assert forall|k: int| 0 <= k < entries.len() implies cut_maps(own, ks, vs)[i]->MapOf_0[k] == entries[k] by {
                                assert(ks.take(b)[a + k] == whole_keys[a + k]);
                                assert(vs.take(b)[a + k] == whole_values[a + k]);
                            }
                        }
                    }
                }
            }
        },
        _ => {
            assert(own =~= rows) by {
                assert forall|i: int| 0 <= i < rows.len() implies #[trigger] own[i] == rows[i] by {
                    assert(row_fits(dt, rows[i]));
                }
            }
        },
    }
}

/// The physical columns hold values that they take.
proof fn lemma_all_taken(types: Seq<DataType>, rows: Seq<Seq<Row>>, n: nat)
    requires
        types.len() == rows.len(),
        n <= types.len(),
        forall|i: int| 0 <= i < types.len() ==> rows_fit(types[i], #[trigger] rows[i]),
    ensures
        all_child_columns(types.take(n as int), rows).len() == all_child_types(types.take(n as int)).len(),
        forall|j: int|
            0 <= j < all_child_types(types.take(n as int)).len() ==> all_taken(
                all_child_types(types.take(n as int))[j],
                present(#[trigger] all_child_columns(types.take(n as int), rows)[j]),
            ),
    decreases n,
{
    let some = types.take(n as int);
    lemma_all_child_len(some, rows);
    if n > 0 {
        lemma_all_taken(types, rows, (n - 1) as nat);
        assert(some.drop_last() =~= types.take(n - 1));
        lemma_children_taken(types[n - 1], rows[n - 1]);
        let head = all_child_types(types.take(n - 1)).len() as int;
        assert forall|j: int| 0 <= j < all_child_types(some).len() implies all_taken(
            all_child_types(some)[j],
            present(#[trigger] all_child_columns(some, rows)[j]),
        ) by {
            if j < head {
                assert(all_child_columns(some, rows)[j] == all_child_columns(types.take(n - 1), rows)[j]);
            } else {
                assert(all_child_columns(some, rows)[j] == child_columns(types[n - 1], rows[n - 1])[j - head]);
            }
        }
    }
}

/// The rows of the physical columns, as they are read.
pub open spec fn physical_read(types: Seq<DataType>, rows: Seq<Seq<Row>>) -> Seq<Seq<Row>> {
    Seq::new(physical_types(types).len(), |j: int| decoded_rows(physical_types(types)[j], physical_columns(types, rows)[j]))
}

pub proof fn lemma_all_assembled(types: Seq<DataType>, rows: Seq<Seq<Row>>, n: nat)
    requires
        types.len() == rows.len(),
        n <= types.len(),
        forall|i: int| 0 <= i < types.len() ==> rows_fit(types[i], #[trigger] rows[i]),
    ensures
        all_assembled(types, physical_read(types, rows), n) == Ok::<Seq<Seq<Row>>, Error>(rows.take(n as int)),
    decreases n,
{
    if n == 0 {
        assert(rows.take(0) =~= Seq::empty());
    } else {
        let i = n - 1;
        let read = physical_read(types, rows);
        lemma_all_assembled(types, rows, (n - 1) as nat);
        lemma_child_place(types, rows, i);
        lemma_all_child_len(types.take(i), rows);
        lemma_batch_len(types, rows);
        lemma_own_cells(types[i], rows[i]);
        let at = (types.len() + all_child_types(types.take(i)).len()) as int;
        assert(read[i] == own_rows(rows[i]));
        assert(read.subrange(at, at + child_types(types[i]).len()) =~= rows_below_of(types[i], rows[i])) by {
            assert forall|k: int| 0 <= k < child_types(types[i]).len() implies #[trigger] read.subrange(
                at,
                at + child_types(types[i]).len(),
            )[k] == rows_below_of(types[i], rows[i])[k] by {
                assert(physical_types(types)[at + k] == child_types(types[i])[k]);
                assert(physical_columns(types, rows)[at + k] == child_columns(types[i], rows[i])[k]);
            }
        }
        lemma_assembled(types[i], rows[i]);
        assert(rows.take(n as int) =~= rows.take(i).push(rows[i]));
    }
}

/// The cells of rows that fit are ones that the physical columns take.
pub proof fn lemma_cells_taken(types: Seq<DataType>, rows: Seq<Seq<Row>>)
    requires
        types.len() == rows.len(),
        forall|i: int| 0 <= i < types.len() ==> rows_fit(types[i], #[trigger] rows[i]),
        forall|j: int|
            0 <= j < physical_columns(types, rows).len() ==> (#[trigger] physical_columns(types, rows)[j]).len() <= max_rows(),
    ensures
        physical_columns(types, rows).len() == physical_types(types).len(),
        cells_taken(physical_types(types), physical_columns(types, rows)),
{
    let cells = physical_columns(types, rows);
    let physical = physical_types(types);
    lemma_batch_len(types, rows);
    lemma_all_taken(types, rows, types.len());
    assert(types.take(types.len() as int) =~= types);
    assert(cells_taken(physical, cells)) by {
        assert forall|j: int| 0 <= j < cells.len() implies all_taken(physical[j], present(#[trigger] cells[j])) && cells[j].len()
            <= max_rows() by {
            if j < types.len() {
                assert(rows_fit(types[j], rows[j]));
                lemma_own_cells(types[j], rows[j]);
            } else {
                assert(cells[j] == all_child_columns(types, rows)[j - types.len()]);
            }
        }
    }
}

/// The columns have no cells.
spec fn all_empty(columns: Seq<Cells>) -> bool {
    forall|k: int| 0 <= k < columns.len() ==> (#[trigger] columns[k]).len() == 0
}

proof fn lemma_empty_joined(a: Seq<Cells>, b: Seq<Cells>)
    requires
        all_empty(a),
        all_empty(b),
    ensures
        all_empty(a + b),
{
    assert forall|k: int| 0 <= k < (a + b).len() implies (#[trigger] (a + b)[k]).len() == 0 by {
        if k < a.len() {
            assert((a + b)[k] == a[k]);
        } else {
            assert((a + b)[k] == b[k - a.len()]);
        }
    }
}

/// No rows have no rows below them.
proof fn lemma_no_rows_below(dt: DataType, rows: Seq<Row>)
    requires
        rows.len() == 0,
    ensures
        all_empty(child_columns(dt, rows)),
        all_empty(element_columns(dt, rows)),
    decreases dt,
{
    match dt {
        DataType::ListOf(element, _) => {
            lemma_no_rows_below(*element, list_items(rows));
        },
        DataType::MapOf(key, value, _) => {
            lemma_no_rows_below(*key, map_keys(rows));
            lemma_no_rows_below(*value, map_values(rows));
            lemma_empty_joined(element_columns(*key, map_keys(rows)), element_columns(*value, map_values(rows)));
        },
        _ => {},
    }
    lemma_empty_joined(seq![own_cells(rows)], child_columns(dt, rows));
}

proof fn lemma_no_child_rows(types: Seq<DataType>, rows: Seq<Seq<Row>>)
    requires
        types.len() <= rows.len(),
        forall|i: int| 0 <= i < types.len() ==> (#[trigger] rows[i]).len() == 0,
    ensures
        all_empty(all_child_columns(types, rows)),
    decreases types.len(),
{
    if types.len() > 0 {
        lemma_no_child_rows(types.drop_last(), rows);
        lemma_no_rows_below(types.last(), rows[types.len() - 1]);
        lemma_empty_joined(all_child_columns(types.drop_last(), rows), child_columns(types.last(), rows[types.len() - 1]));
    }
}

/// Columns without rows are read as such.
proof fn lemma_read_blank(types: Seq<DataType>, num_primary: int, data: Seq<u8>, n: nat)
    requires
        n <= types.len(),
    ensures
        read_rows(Seq::new(types.len(), |j: int| blank_column(types, num_primary, data, 0, j)), n) == Ok::<Seq<Seq<Row>>, Error>(
            Seq::new(n, |j: int| Seq::<Row>::empty()),
        ),
    decreases n,
{
    let nothing = |m: nat| Seq::new(m, |j: int| Seq::<Row>::empty());
    if n == 0 {
        assert(nothing(0) =~= Seq::empty());
    } else {
        lemma_read_blank(types, num_primary, data, (n - 1) as nat);
        let column = blank_column(types, num_primary, data, 0, n - 1);
        assert(column.rows_result() matches Ok(rows) && rows =~= Seq::<Row>::empty());
        assert(nothing(n) =~= nothing((n - 1) as nat).push(Seq::empty()));
    }
}

/// A bucket without rows has no bytes, and none are read from it.
proof fn lemma_nothing_reads_back(types: Seq<DataType>, rows: Seq<Seq<Row>>)
    requires
        types.len() == rows.len(),
        forall|i: int| 0 <= i < types.len() ==> rows_fit(types[i], #[trigger] rows[i]) && rows[i].len() == 0,
    ensures
        bucket_rows(types, Seq::empty(), 0) == Ok::<Seq<Seq<Row>>, Error>(rows),
{
    let physical = physical_types(types);
    lemma_no_child_rows(types, rows);
    lemma_batch_len(types, rows);
    lemma_read_blank(physical, types.len() as int, Seq::empty(), physical.len());
    let read = Seq::new(physical.len(), |j: int| Seq::<Row>::empty());
    assert(physical_read(types, rows) =~= read) by {
        assert forall|j: int| 0 <= j < physical.len() implies #[trigger] physical_read(types, rows)[j] == read[j] by {
            assert(physical_columns(types, rows)[j].len() == 0);
            assert(physical_read(types, rows)[j] =~= Seq::empty());
        }
    }
    lemma_all_assembled(types, rows, types.len());
    assert(rows.take(types.len() as int) =~= rows);
}

/// What a bucket is written as: without rows it has no bytes.
pub open spec fn written_bucket(types: Seq<DataType>, cells: Seq<Cells>, limits: DictLimits, num_rows: nat) -> Seq<u8> {
    if num_rows == 0 {
        Seq::empty()
    } else {
        bucket_image(types.len(), child_counts(types, cells), bucket_images(types, cells, limits))
    }
}

/// Rows written to a bucket are the rows read from it, whatever the limits of its dictionaries were.
pub proof fn bucket_reads_back(types: Seq<DataType>, rows: Seq<Seq<Row>>, limits: DictLimits, num_rows: nat)
    requires
        limits.wf(),
        types.len() == rows.len(),
        columns_fit(types.len(), physical_types(types).len()),
        forall|i: int| 0 <= i < types.len() ==> rows_fit(types[i], #[trigger] rows[i]) && rows[i].len() == num_rows,
        forall|j: int|
            0 <= j < physical_columns(types, rows).len() ==> (#[trigger] physical_columns(types, rows)[j]).len() <= max_rows(),
    ensures
        ({
            let written = written_bucket(types, physical_columns(types, rows), limits, num_rows);
            &&& types.len() > 0 && num_rows > 0 ==> written.len() > 0
            &&& bucket_rows(types, written, num_rows) == Ok::<Seq<Seq<Row>>, Error>(rows)
        }),
{
    if num_rows == 0 {
        lemma_nothing_reads_back(types, rows);
    } else if types.len() == 0 {
        lemma_no_columns_read_back(types, rows, limits, num_rows);
    } else {
        lemma_rows_read_back(types, rows, limits, num_rows);
    }
}

proof fn lemma_no_columns_read_back(types: Seq<DataType>, rows: Seq<Seq<Row>>, limits: DictLimits, num_rows: nat)
    requires
        types.len() == 0,
        rows.len() == 0,
        num_rows > 0,
    ensures
        bucket_rows(types, written_bucket(types, physical_columns(types, rows), limits, num_rows), num_rows) == Ok::<
            Seq<Seq<Row>>,
            Error,
        >(rows),
{
    let cells = physical_columns(types, rows);
    let images = bucket_images(types, cells, limits);
    lemma_batch_len(types, rows);
    assert(physical_types(types).len() == 0);
    assert(images.len() == 0);
    assert(child_counts(types, cells).len() == 0);
    let data = written_bucket(types, cells, limits, num_rows);
    assert(data =~= Seq::empty());
    assert(rows =~= Seq::empty());
}

proof fn lemma_rows_read_back(types: Seq<DataType>, rows: Seq<Seq<Row>>, limits: DictLimits, num_rows: nat)
    requires
        limits.wf(),
        num_rows > 0,
        0 < types.len() == rows.len(),
        columns_fit(types.len(), physical_types(types).len()),
        forall|i: int| 0 <= i < types.len() ==> rows_fit(types[i], #[trigger] rows[i]) && rows[i].len() == num_rows,
        forall|j: int|
            0 <= j < physical_columns(types, rows).len() ==> (#[trigger] physical_columns(types, rows)[j]).len() <= max_rows(),
    ensures
        ({
            let written = written_bucket(types, physical_columns(types, rows), limits, num_rows);
            &&& written.len() > 0
            &&& bucket_rows(types, written, num_rows) == Ok::<Seq<Seq<Row>>, Error>(rows)
        }),
{
    let cells = physical_columns(types, rows);
    let physical = physical_types(types);
    lemma_cells_taken(types, rows);
    assert forall|j: int| 0 <= j < types.len() implies (#[trigger] cells[j]).len() == num_rows by {
        assert(rows[j].len() == num_rows);
    }
    lemma_bucket_columns(physical, types.len(), cells, limits, num_rows);
    let data = image_for(physical, types.len(), cells, limits);
    assert(bucket_images(types, cells, limits) =~= images_for(physical, cells, limits));
    let p = part_at(physical, types.len(), cells, limits, 5);
    lemma_read_written(physical, cells, limits, data, p, physical.len(), physical.len());
    assert(Seq::new(physical.len(), |j: int| decoded_rows(physical[j], cells[j])) =~= physical_read(types, rows));
    lemma_all_assembled(types, rows, types.len());
    assert(rows.take(types.len() as int) =~= rows);
}

/// Each physical column of a bucket is read as it was written of its cells.
pub proof fn bucket_columns_read_back(types: Seq<DataType>, rows: Seq<Seq<Row>>, limits: DictLimits, num_rows: nat)
    requires
        limits.wf(),
        num_rows > 0,
        0 < types.len() == rows.len(),
        columns_fit(types.len(), physical_types(types).len()),
        forall|i: int| 0 <= i < types.len() ==> rows_fit(types[i], #[trigger] rows[i]) && rows[i].len() == num_rows,
        forall|j: int|
            0 <= j < physical_columns(types, rows).len() ==> (#[trigger] physical_columns(types, rows)[j]).len() <= max_rows(),
    ensures
        ({
            let cells = physical_columns(types, rows);
            let physical = physical_types(types);
            bucket_columns(physical, types.len() as int, written_bucket(types, cells, limits, num_rows), num_rows) matches Ok(columns)
                && columns.len() == physical.len() && cells.len() == physical.len() && forall|j: int|
                0 <= j < columns.len() ==> is_written(#[trigger] columns[j], physical[j], cells[j], limits)
        }),
{
    let cells = physical_columns(types, rows);
    let physical = physical_types(types);
    lemma_cells_taken(types, rows);
    assert forall|j: int| 0 <= j < types.len() implies (#[trigger] cells[j]).len() == num_rows by {
        assert(rows[j].len() == num_rows);
    }
    lemma_bucket_columns(physical, types.len(), cells, limits, num_rows);
    let data = image_for(physical, types.len(), cells, limits);
    assert(bucket_images(types, cells, limits) =~= images_for(physical, cells, limits));
    let p = part_at(physical, types.len(), cells, limits, 5);
    let columns = written_columns(physical, cells, limits, data, p, physical.len());
    assert forall|j: int| 0 <= j < columns.len() implies is_written(#[trigger] columns[j], physical[j], cells[j], limits) by {
        lemma_stands_part(data, p, datas_of(images_for(physical, cells, limits)), j);
    }
}

// ---------------------------------------------------------------- batches

proof fn lemma_list_items_add(a: Seq<Row>, b: Seq<Row>)
    ensures
        list_items(a + b) == list_items(a) + list_items(b),
    decreases b.len(),
{
    if b.len() == 0 {
        assert(a + b =~= a);
        assert(list_items(a) + list_items(b) =~= list_items(a));
    } else {
        lemma_list_items_add(a, b.drop_last());
        assert((a + b).drop_last() =~= a + b.drop_last());
        assert((a + b).last() == b.last());
        assert(list_items(a + b) =~= list_items(a) + list_items(b));
    }
}

proof fn lemma_map_items_add(a: Seq<Row>, b: Seq<Row>)
    ensures
        map_keys(a + b) == map_keys(a) + map_keys(b),
        map_values(a + b) == map_values(a) + map_values(b),
    decreases b.len(),
{
    if b.len() == 0 {
        assert(a + b =~= a);
        assert(map_keys(a) + map_keys(b) =~= map_keys(a));
        assert(map_values(a) + map_values(b) =~= map_values(a));
    } else {
        lemma_map_items_add(a, b.drop_last());
        assert((a + b).drop_last() =~= a + b.drop_last());
        assert((a + b).last() == b.last());
        assert(map_keys(a + b) =~= map_keys(a) + map_keys(b));
        assert(map_values(a + b) =~= map_values(a) + map_values(b));
    }
}

proof fn lemma_child_columns_add(dt: DataType, a: Seq<Row>, b: Seq<Row>)
    ensures
        child_columns(dt, a + b) == appended(child_columns(dt, a), child_columns(dt, b)),
        child_columns(dt, a).len() == child_types(dt).len(),
    decreases dt,
{
    lemma_columns_len(dt, a);
    lemma_columns_len(dt, b);
    lemma_columns_len(dt, a + b);
    match dt {
        DataType::ListOf(element, _) => {
            let (x, y) = (list_items(a), list_items(b));
            lemma_list_items_add(a, b);
            lemma_child_columns_add(*element, x, y);
            lemma_columns_len(*element, y);
            assert(own_cells(x + y) =~= own_cells(x) + own_cells(y));
            assert(child_columns(dt, a + b) =~= appended(child_columns(dt, a), child_columns(dt, b)));
        },
        DataType::MapOf(key, value, _) => {
            lemma_map_items_add(a, b);
            let (ka, kb) = (map_keys(a), map_keys(b));
            let (va, vb) = (map_values(a), map_values(b));
            lemma_child_columns_add(*key, ka, kb);
            lemma_child_columns_add(*value, va, vb);
            lemma_columns_len(*key, kb);
            lemma_columns_len(*value, vb);
            assert(own_cells(ka + kb) =~= own_cells(ka) + own_cells(kb));
            assert(own_cells(va + vb) =~= own_cells(va) + own_cells(vb));
            assert(child_columns(dt, a + b) =~= appended(child_columns(dt, a), child_columns(dt, b)));
        },
        _ => {
            assert(child_columns(dt, a + b) =~= appended(child_columns(dt, a), child_columns(dt, b)));
        },
    }
}

/// The rows of each column, one batch behind the other.
pub open spec fn joined_rows(a: Seq<Seq<Row>>, b: Seq<Seq<Row>>) -> Seq<Seq<Row>> {
    Seq::new(a.len(), |i: int| a[i] + b[i])
}

proof fn lemma_all_children_add(types: Seq<DataType>, a: Seq<Seq<Row>>, b: Seq<Seq<Row>>)
    requires
        types.len() <= a.len(),
        a.len() == b.len(),
    ensures
        all_child_columns(types, joined_rows(a, b)) == appended(all_child_columns(types, a), all_child_columns(types, b)),
    decreases types.len(),
{
    lemma_all_child_len(types, a);
    lemma_all_child_len(types, b);
    lemma_all_child_len(types, joined_rows(a, b));
    if types.len() > 0 {
        let n = types.len() - 1;
        lemma_all_children_add(types.drop_last(), a, b);
        lemma_all_child_len(types.drop_last(), a);
        lemma_all_child_len(types.drop_last(), b);
        lemma_child_columns_add(types.last(), a[n], b[n]);
        lemma_columns_len(types.last(), b[n]);
        assert(joined_rows(a, b)[n] == a[n] + b[n]);
    }
    assert(all_child_columns(types, joined_rows(a, b)) =~= appended(all_child_columns(types, a), all_child_columns(types, b)));
}

/// Writing two batches is writing the rows of both at once.
pub proof fn batches_join(types: Seq<DataType>, a: Seq<Seq<Row>>, b: Seq<Seq<Row>>)
    requires
        types.len() == a.len(),
        a.len() == b.len(),
    ensures
        appended(physical_columns(types, a), physical_columns(types, b)) == physical_columns(types, joined_rows(a, b)),
{
    lemma_all_children_add(types, a, b);
    lemma_batch_len(types, a);
    lemma_batch_len(types, b);
    lemma_batch_len(types, joined_rows(a, b));
    let both = physical_columns(types, joined_rows(a, b));
    let cells = appended(physical_columns(types, a), physical_columns(types, b));
    assert(cells =~= both) by {
        assert forall|j: int| 0 <= j < cells.len() implies #[trigger] cells[j] == both[j] by {
            if j < types.len() {
                assert(own_cells(a[j] + b[j]) =~= own_cells(a[j]) + own_cells(b[j]));
            } else {
                let k = j - types.len();
                assert(both[j] == all_child_columns(types, joined_rows(a, b))[k]);
            }
        }
    }
}

// ---------------------------------------------------------------- accepted columns

proof fn lemma_leaf_rows_fit(dt: DataType, col: Column, kept: Seq<usize>, k: int)
    requires
        leaf_error(dt, col, kept) is None,
        consistent(col),
        rows_below(kept, col.nulls@.len()),
        0 <= k < kept.len(),
    ensures
        row_fits(dt, rows_of(dt, col)[kept[k] as int]),
{
    let row = kept[k] as int;
    if !col.nulls@[row] {
        if let ColumnValues::LegacyTimestampNanos { millis, nanos, child_nulls } = col.values {
            lemma_legacy_row(millis@, nanos@, child_nulls@, col.nulls@, kept, k);
        }
        lemma_leaf_fits(dt, col.values, row);
        let v = leaf_value(dt, col.values, row);
        match col.values {
            ColumnValues::Decimal128(values) => {
                if width_of(dt) <= 0 {
                    let x = values@[row];
                    lemma_signed_len(x, 1);
                    lemma_be_bytes_len(twos_complement(x), signed_len(x, 1));
                    signed_value_of_signed_bytes(x);
                }
            },
            ColumnValues::TimestampNanos(values) => {
                let x = values@[row] as int;
                let q = x / 1_000_000;
                let r = x % 1_000_000;
                assert(x == q * 1_000_000 + r && 0 <= r < 1_000_000 && i64::MIN <= q <= i64::MAX);
            },
            _ => {},
        }
    }
}

/// The items of a row that is kept are kept.
proof fn lemma_item_kept(offsets: Seq<usize>, nulls: Seq<bool>, kept: Seq<usize>, k: int, item: int) -> (m: int)
    requires
        0 <= k < kept.len(),
        !nulls[kept[k] as int],
        offsets[kept[k] as int] <= item < offsets[kept[k] as int + 1],
    ensures
        0 <= m < kept_items(offsets, nulls, kept).len(),
        kept_items(offsets, nulls, kept)[m] == item,
    decreases kept.len(),
{
    let front = kept_items(offsets, nulls, kept.drop_last());
    if k < kept.len() - 1 {
        lemma_item_kept(offsets, nulls, kept.drop_last(), k, item)
    } else {
        front.len() + (item - offsets[kept[k] as int])
    }
}

proof fn lemma_items_below(offsets: Seq<usize>, nulls: Seq<bool>, kept: Seq<usize>, rows: nat, children: nat)
    requires
        offsets_ok(offsets, rows, children),
        rows_below(kept, rows),
    ensures
        rows_below(kept_items(offsets, nulls, kept), children),
    decreases kept.len(),
{
    if kept.len() > 0 {
        let front = kept.drop_last();
        assert(rows_below(front, rows)) by {
            assert forall|i: int| 0 <= i < front.len() implies #[trigger] front[i] < rows by {
                assert(kept[i] < rows);
            }
        }
        lemma_items_below(offsets, nulls, front, rows, children);
        let row = kept.last() as int;
        assert(kept[kept.len() - 1] < rows);
        assert(offsets[row + 1] <= offsets[rows as int]);
        let head = kept_items(offsets, nulls, front);
        let all = kept_items(offsets, nulls, kept);
        assert forall|i: int| 0 <= i < all.len() implies #[trigger] all[i] < children by {
            if i < head.len() {
                assert(head[i] < children);
            }
        }
    }
}

/// The rows below a list or map that pass the checks fit their type.
proof fn lemma_element_rows_fit(dt: DataType, col: Column, kept: Seq<usize>)
    requires
        element_ok(dt, col, kept),
        consistent(col),
        rows_below(kept, col.nulls@.len()),
    ensures
        forall|k: int| 0 <= k < kept.len() ==> row_fits(dt, rows_of(dt, col)[#[trigger] kept[k] as int]),
    decreases dt, 1int,
{
    if kept.len() > 0 {
        if is_container_type(dt) {
            assert(!(col.values is ListOf) && !(col.values is MapOf) ==> !leaf_matches(dt, col.values));
            lemma_container_rows_fit(dt, col, kept);
        } else {
            assert forall|k: int| 0 <= k < kept.len() implies row_fits(dt, rows_of(dt, col)[#[trigger] kept[k] as int]) by {
                lemma_leaf_rows_fit(dt, col, kept, k);
            }
        }
    }
}

proof fn lemma_container_rows_fit(dt: DataType, col: Column, kept: Seq<usize>)
    requires
        is_container_type(dt),
        shape_error(dt, col) is None,
        child_ok(dt, col, kept),
        consistent(col),
        rows_below(kept, col.nulls@.len()),
    ensures
        forall|k: int| 0 <= k < kept.len() ==> row_fits(dt, rows_of(dt, col)[#[trigger] kept[k] as int]),
    decreases dt, 0int,
{
    let n = col.nulls@.len();
    match (dt, col.values) {
        (DataType::ListOf(element, _), ColumnValues::ListOf { offsets, values }) => {
            let items = kept_items(offsets@, col.nulls@, kept);
            lemma_items_below(offsets@, col.nulls@, kept, n, values.nulls@.len());
            lemma_element_rows_fit(*element, *values, items);
            lemma_rows_len(*element, *values);
            assert forall|k: int| 0 <= k < kept.len() implies row_fits(dt, rows_of(dt, col)[#[trigger] kept[k] as int]) by {
                let row = kept[k] as int;
                assert(kept[k] < n);
                if !col.nulls@[row] {
                    let (from, to) = (offsets@[row] as int, offsets@[row + 1] as int);
                    assert(from <= to <= offsets@[n as int]);
                    assert(offsets@[row + 1] - offsets@[row] <= i32::MAX);
                    let part = rows_of(*element, *values).subrange(from, to);
                    assert forall|i: int| 0 <= i < part.len() implies row_fits(*element, #[trigger] part[i]) by {
                        let m = lemma_item_kept(offsets@, col.nulls@, kept, k, from + i);
                        assert(row_fits(*element, rows_of(*element, *values)[items[m] as int]));
                    }
                }
            }
        },
        (DataType::MapOf(key, value, _), ColumnValues::MapOf { offsets, keys, values }) => {
            let items = kept_items(offsets@, col.nulls@, kept);
            lemma_items_below(offsets@, col.nulls@, kept, n, values.nulls@.len());
            lemma_element_rows_fit(*key, *keys, items);
            lemma_element_rows_fit(*value, *values, items);
            lemma_rows_len(*key, *keys);
            lemma_rows_len(*value, *values);
            assert forall|k: int| 0 <= k < kept.len() implies row_fits(dt, rows_of(dt, col)[#[trigger] kept[k] as int]) by {
                let row = kept[k] as int;
                assert(kept[k] < n);
                if !col.nulls@[row] {
                    let (from, to) = (offsets@[row] as int, offsets@[row + 1] as int);
                    assert(from <= to <= offsets@[n as int]);
                    assert(offsets@[row + 1] - offsets@[row] <= i32::MAX);
                    let entries = rows_of(dt, col)[row]->MapOf_0;
                    assert forall|i: int| 0 <= i < entries.len() implies row_fits(*key, (#[trigger] entries[i]).0) && row_fits(
                        *value,
                        entries[i].1,
                    ) by {
                        let m = lemma_item_kept(offsets@, col.nulls@, kept, k, from + i);
                        assert(row_fits(*key, rows_of(*key, *keys)[items[m] as int]));
                        assert(row_fits(*value, rows_of(*value, *values)[items[m] as int]));
                    }
                }
            }
        },
        _ => {},
    }
}

/// The rows of columns that pass the checks of a write are rows that are read back.
pub proof fn accepted_rows_fit(types: Seq<DataType>, cols: Seq<&Column>, num_rows: nat)
    requires
        types.len() == cols.len(),
        batch_ok(cols, num_rows),
        columns_error(types, cols) is None,
    ensures
        forall|i: int| 0 <= i < types.len() ==> rows_fit(types[i], #[trigger] batch_rows(types, cols)[i]),
{
    assert forall|i: int| 0 <= i < types.len() implies rows_fit(types[i], #[trigger] batch_rows(types, cols)[i]) by {
        let (dt, col) = (types[i], *cols[i]);
        assert(consistent(*cols[i]));
        lemma_no_error(types, cols, types.len(), i);
        let kept = row_range(0, num_rows as int);
        lemma_rows_len(dt, col);
        assert(col.nulls.len() == col.nulls@.len());
        assert(rows_below(kept, num_rows));
        let rows = rows_of(dt, col);
        if is_container_type(dt) {
            lemma_container_rows_fit(dt, col, kept);
        }
        assert forall|r: int| 0 <= r < rows.len() implies row_fits(dt, #[trigger] rows[r]) by {
            assert(kept[r] == r);
            if !is_container_type(dt) {
                lemma_leaf_rows_fit(dt, col, kept, r);
            }
        }
    }
}

/// The bucket holds the rows.
pub open spec fn bucket_holds(w: BucketWriter, rows: Seq<Seq<Row>>) -> bool {
    &&& w.wf()
    &&& rows.len() == w.types().len()
    &&& w.cells() == physical_columns(w.types(), rows)
    &&& forall|i: int| 0 <= i < rows.len() ==> rows_fit(w.types()[i], #[trigger] rows[i]) && rows[i].len() == w.rows()
}

/// A bucket without cells holds no rows.
pub proof fn new_buckets_are_empty(w: BucketWriter)
    requires
        w.wf(),
        w.rows() == 0,
        forall|j: int| 0 <= j < w.cells().len() ==> (#[trigger] w.cells()[j]).len() == 0,
    ensures
        bucket_holds(w, Seq::new(w.types().len(), |i: int| Seq::<Row>::empty())),
{
    let rows = Seq::new(w.types().len(), |i: int| Seq::<Row>::empty());
    w.lemma_wf();
    lemma_no_child_rows(w.types(), rows);
    lemma_batch_len(w.types(), rows);
    let cells = physical_columns(w.types(), rows);
    assert forall|j: int| 0 <= j < cells.len() implies #[trigger] w.cells()[j] == cells[j] by {
        if j >= w.types().len() {
            assert(cells[j] == all_child_columns(w.types(), rows)[j - w.types().len()]);
        }
        assert(w.cells()[j] =~= cells[j]);
    }
    assert(w.cells() =~= cells);
}

/// What `write_columns` leaves behind where it takes a batch.
pub open spec fn took_batch(before: BucketWriter, after: BucketWriter, cols: Seq<&Column>) -> bool {
    let num_rows = cols[0].nulls@.len();
    &&& 0 < cols.len() == before.types().len()
    &&& batch_ok(cols, num_rows)
    &&& after.wf()
    &&& after.types() == before.types()
    &&& if num_rows == 0 {
        after == before
    } else {
        &&& columns_error(before.types(), cols) is None
        &&& after.rows() == before.rows() + num_rows
        &&& after.cells() == appended(before.cells(), physical_columns(before.types(), batch_rows(before.types(), cols)))
    }
}

/// A bucket that takes a batch holds its rows behind those that it held.
pub proof fn batches_are_held(before: BucketWriter, after: BucketWriter, rows: Seq<Seq<Row>>, cols: Seq<&Column>)
    requires
        bucket_holds(before, rows),
        took_batch(before, after, cols),
    ensures
        bucket_holds(after, joined_rows(rows, batch_rows(before.types(), cols))),
{
    let types = before.types();
    let batch = batch_rows(types, cols);
    let num_rows = cols[0].nulls@.len();
    let all = joined_rows(rows, batch);
    assert forall|i: int| 0 <= i < batch.len() implies (#[trigger] batch[i]).len() == num_rows by {
        assert(consistent(*cols[i]));
        lemma_rows_len(types[i], *cols[i]);
    }
    if num_rows == 0 {
        assert forall|i: int| 0 <= i < all.len() implies #[trigger] all[i] == rows[i] by {
            assert(all[i] =~= rows[i]);
        }
        assert(all =~= rows);
    } else {
        accepted_rows_fit(types, cols, num_rows);
        batches_join(types, rows, batch);
        assert forall|i: int| 0 <= i < all.len() implies rows_fit(types[i], #[trigger] all[i]) && all[i].len() == after.rows() by {
            assert(rows_fit(types[i], rows[i]));
            assert(rows_fit(types[i], batch[i]));
        }
    }
}

/// The rows of the first `n` batches, one behind the other.
pub open spec fn rows_of_batches(types: Seq<DataType>, batches: Seq<Seq<&Column>>, n: nat) -> Seq<Seq<Row>>
    decreases n,
{
    if n == 0 {
        Seq::new(types.len(), |i: int| Seq::<Row>::empty())
    } else {
        joined_rows(rows_of_batches(types, batches, (n - 1) as nat), batch_rows(types, batches[n - 1]))
    }
}

proof fn lemma_batches_held(states: Seq<BucketWriter>, batches: Seq<Seq<&Column>>, n: nat)
    requires
        n < states.len(),
        n <= batches.len(),
        bucket_holds(states[0], Seq::new(states[0].types().len(), |i: int| Seq::<Row>::empty())),
        forall|i: int| 0 <= i < n ==> took_batch(states[i], states[i + 1], #[trigger] batches[i]),
    ensures
        states[n as int].types() == states[0].types(),
        bucket_holds(states[n as int], rows_of_batches(states[0].types(), batches, n)),
    decreases n,
{
    if n > 0 {
        lemma_batches_held(states, batches, (n - 1) as nat);
        assert(took_batch(states[n - 1], states[n - 1 + 1], batches[n - 1]));
        batches_are_held(
            states[n - 1],
            states[n as int],
            rows_of_batches(states[0].types(), batches, (n - 1) as nat),
            batches[n - 1],
        );
    }
}

/// The rows that a bucket holds are read from the bytes that it is finished as, whatever the limits
/// of its dictionaries are.
pub proof fn held_rows_read_back(w: BucketWriter, rows: Seq<Seq<Row>>)
    requires
        bucket_holds(w, rows),
    ensures
        bucket_rows(
            w.types(),
            if w.rows() == 0 {
                Seq::empty()
            } else {
                w.image()
            },
            w.rows(),
        ) == Ok::<Seq<Seq<Row>>, Error>(rows),
{
    w.lemma_wf();
    bucket_reads_back(w.types(), rows, w.dict_limits(), w.rows());
}

/// All batches that a new bucket took, one after another, are read back from the bytes that it is
/// finished as, whatever the limits of its dictionaries are.
pub proof fn batches_read_back(states: Seq<BucketWriter>, batches: Seq<Seq<&Column>>)
    requires
        states.len() == batches.len() + 1,
        states[0].wf(),
        states[0].rows() == 0,
        forall|j: int| 0 <= j < states[0].cells().len() ==> (#[trigger] states[0].cells()[j]).len() == 0,
        forall|i: int| 0 <= i < batches.len() ==> took_batch(states[i], states[i + 1], #[trigger] batches[i]),
    ensures
        ({
            let w = states.last();
            bucket_rows(
                w.types(),
                if w.rows() == 0 {
                    Seq::empty()
                } else {
                    w.image()
                },
                w.rows(),
            ) == Ok::<Seq<Seq<Row>>, Error>(rows_of_batches(states[0].types(), batches, batches.len()))
        }),
{
    new_buckets_are_empty(states[0]);
    lemma_batches_held(states, batches, batches.len());
    held_rows_read_back(states.last(), rows_of_batches(states[0].types(), batches, batches.len()));
}

// ---------------------------------------------------------------- pages

/// The page of a column; empty if it has none.
pub open spec fn page_or_empty(image: ColumnImage) -> Seq<u8> {
    match column_page(image) {
        Some(page) => page,
        None => Seq::empty(),
    }
}

/// A column that stands in a page is the one that was written, and its cells are read back.
#[verifier::rlimit(30)]
#[verifier::spinoff_prover]
pub proof fn page_reads_back(dt: DataType, cells: Cells, limits: DictLimits, data: Seq<u8>, start: int)
    requires
        limits.wf(),
        cells.len() <= max_rows(),
        all_taken(dt, present(cells)),
        stands_at(data, start, page_or_empty(column_image(cells, width_of(dt), limits))),
    ensures
        ({
            let image = column_image(cells, width_of(dt), limits);
            let value = if image.encoding == ENCODING_CONST {
                decoded_value(dt, image.const_value)
            } else {
                ValueView::Null
            };
            page_column(dt, image.encoding, image.has_nulls, value, data, start, cells.len()) matches Ok(column)
                && column.rows_result() == Ok::<Seq<Row>, Error>(decoded_rows(dt, cells)) && is_written(column, dt, cells, limits)
        }),
{
    let image = column_image(cells, width_of(dt), limits);
    let d = distinct(present(cells));
    lemma_encoding_codes(cells, width_of(dt), limits);
    lemma_written_dict(dt, cells, limits);
    if image.has_nulls {
        let flags = null_flags(cells);
        assert(flag_values(flags).len() * 1 == flags.len()) by (nonlinear_arith)
            requires
                flag_values(flags).len() == flags.len(),
        ;
        assert(packed_flags(flags).len() == bytes_for(flags.len() as int));
    }
    let values_at = start + image.dict_meta.len() + image.null_bytes.len();
    if column_page(image) is Some {
        lemma_stands(data, start, image.dict_meta + image.null_bytes, image.data);
        lemma_stands(data, start, image.dict_meta, image.null_bytes);
        if image.encoding == ENCODING_DICT {
            lemma_dict_written(dt, d, data, start, Source::Page);
        }
    }
    let cursor = if image.encoding == ENCODING_PLAIN || image.encoding == ENCODING_DICT {
        values_at
    } else {
        start
    };
    assert(stands_at(data, cursor, image.data)) by {
        if image.encoding == ENCODING_CONST || image.encoding == ENCODING_ALL_NULL {
            assert(data.subrange(cursor, cursor + image.data.len()) =~= image.data);
        }
    }
    lemma_column_reads(dt, cells, limits, data, cursor, Source::Page);
    let column = written_column(dt, cells, limits, data, cursor);
    assert(column.null_bitmap == image.null_bytes);
}

/// Two buckets of the same cells have the same bytes, whatever seeds their dictionaries were built
/// with.
pub proof fn seeds_make_no_difference(a: BucketWriter, b: BucketWriter)
    requires
        a.types() == b.types(),
        a.cells() == b.cells(),
        a.dict_limits().max_total_bytes == b.dict_limits().max_total_bytes,
        a.dict_limits().max_entries == b.dict_limits().max_entries,
    ensures
        a.images() == b.images(),
        a.image() == b.image(),
{
    assert(a.images() =~= b.images());
}

} // verus!
