use mosaic_core::bits::{bit_width, byte_count, get_bit, pack_flags, read_bit_packed, set_bit, write_bit_packed};
use mosaic_core::codec::{get_be, put_be};
use mosaic_core::compression::{
    check_zstd_block_size, compress_zstd, decompress_zstd, schema_digest, to_u32, MAX_ZSTD_DECOMPRESS_BLOCK_SIZE,
};
use mosaic_core::decimal::{i128_to_biginteger_bytes, sign_extended};
use mosaic_core::error::{Error, ErrorKind, SizeField};
use mosaic_core::footer::{FileMeta, Footer};
use mosaic_core::format::{assign_bucket, BucketLayout, COMPRESSION_NONE, COMPRESSION_ZSTD, FOOTER_SIZE, MAGIC, VERSION};
use mosaic_core::output::MemoryFile;
use mosaic_core::reader::{read_index, IndexReader};
use mosaic_core::row_index::{read_row_group, write_row_group, RowGroupMeta};
use mosaic_core::types::{millis_nanos_to_ns, ns_to_millis_nanos};
use mosaic_core::varint;

fn varint_of(value: u32) -> Vec<u8> {
    let mut out = Vec::new();
    varint::encode(&mut out, value);
    out
}

fn decoded(bytes: &[u8]) -> (Result<u32, Error>, usize) {
    let mut pos = 0;
    let result = varint::decode(bytes, &mut pos);
    (result, pos)
}

#[test]
fn varints_have_seven_bits_per_byte() {
    assert_eq!(varint_of(0), vec![0]);
    assert_eq!(varint_of(127), vec![127]);
    assert_eq!(varint_of(128), vec![128, 1]);
    assert_eq!(varint_of(300), vec![172, 2]);
    assert_eq!(varint_of(u32::MAX), vec![255, 255, 255, 255, 15]);
    for value in [0u32, 1, 127, 128, 16_383, 16_384, 2_097_151, 2_097_152, 268_435_455, 268_435_456, u32::MAX] {
        let bytes = varint_of(value);
        assert_eq!(varint::encoded_size(value), bytes.len());
        assert_eq!(decoded(&bytes), (Ok(value), bytes.len()));
    }
}

#[test]
fn varints_that_end_early_or_are_too_long_are_refused() {
    assert_eq!(decoded(&[]), (Err(Error::TruncatedVarint), 0));
    assert_eq!(decoded(&[128]), (Err(Error::TruncatedVarint), 0));
    assert_eq!(decoded(&[255, 255, 255, 255, 16]), (Err(Error::OversizedVarint), 0));
    assert_eq!(decoded(&[128, 128, 128, 128, 128, 0]), (Err(Error::OversizedVarint), 0));
}

#[test]
fn numbers_are_big_endian() {
    let mut out = vec![9];
    put_be(&mut out, 0x0102_0304, 4);
    assert_eq!(out, vec![9, 1, 2, 3, 4]);
    assert_eq!(get_be(&out, 1, 4), 0x0102_0304);
}

#[test]
fn nanoseconds_are_split_and_joined() {
    assert_eq!(ns_to_millis_nanos(1_234_567), (1, 234_567));
    assert_eq!(ns_to_millis_nanos(-1), (-1, 999_999));
    for ns in [0, 1, -1, 999_999, 1_000_000, -1_000_000, i64::MIN, i64::MAX] {
        let (millis, nanos) = ns_to_millis_nanos(ns);
        assert_eq!(millis_nanos_to_ns(millis, nanos), Ok(ns));
    }
    assert_eq!(millis_nanos_to_ns(0, 1_000_000), Err(Error::NanosOutOfRange { nanos: 1_000_000 }));
    assert_eq!(millis_nanos_to_ns(0, -1), Err(Error::NanosOutOfRange { nanos: -1 }));
    assert_eq!(millis_nanos_to_ns(i64::MAX, 0), Err(Error::TimestampOverflow));
}

#[test]
fn bits_are_packed_from_the_lowest_on() {
    assert_eq!(pack_flags(&[true, false, false, true, false, false, false, false, true]), vec![0b1001, 1]);
    assert_eq!(byte_count(0), 0);
    assert_eq!(byte_count(8), 1);
    assert_eq!(byte_count(9), 2);
    assert_eq!(bit_width(1), 0);
    assert_eq!(bit_width(2), 1);
    assert_eq!(bit_width(3), 2);
    assert_eq!(bit_width(255), 8);
    assert_eq!(bit_width(257), 9);
    let mut bytes = vec![0u8; 2];
    set_bit(&mut bytes, 10);
    assert_eq!(bytes, vec![0, 4]);
    assert!(get_bit(&bytes, 10));
    assert!(!get_bit(&bytes, 9));
}

#[test]
fn packed_numbers_are_unpacked() {
    let values = [5usize, 0, 7, 3, 6, 1, 2, 4, 7];
    let mut bytes = vec![0xaau8; 1];
    bytes.resize(1 + byte_count(3 * values.len()), 0);
    for (i, value) in values.iter().enumerate() {
        write_bit_packed(&mut bytes, 1, 3 * i, *value, 3);
    }
    assert_eq!(bytes[0], 0xaa);
    bytes.push(0x55);
    for (i, value) in values.iter().enumerate() {
        assert_eq!(read_bit_packed(&bytes, 1, 3 * i, 3), *value);
    }
}

#[test]
fn decimals_have_the_fewest_signed_bytes() {
    assert_eq!(i128_to_biginteger_bytes(0), vec![0]);
    assert_eq!(i128_to_biginteger_bytes(127), vec![127]);
    assert_eq!(i128_to_biginteger_bytes(128), vec![0, 128]);
    assert_eq!(i128_to_biginteger_bytes(-1), vec![255]);
    assert_eq!(i128_to_biginteger_bytes(-129), vec![255, 127]);
    for value in [0, 1, -1, 127, 128, -128, -129, i128::MAX, i128::MIN, 12_345_678_901_234_567_890] {
        assert_eq!(sign_extended(&i128_to_biginteger_bytes(value)), value);
    }
}

#[test]
fn layouts_are_told_by_two_sizes() {
    let layouts = [
        (BucketLayout::Empty, (0, 0)),
        (BucketLayout::Monolithic { compressed_size: 7, uncompressed_size: 9 }, (7, 9)),
        (BucketLayout::Paged { total_size: 5 }, (5, 0)),
    ];
    for (layout, sizes) in layouts {
        assert_eq!(layout.encode(), sizes);
        assert_eq!(BucketLayout::decode(sizes.0, sizes.1), Ok(layout));
    }
    assert_eq!(
        BucketLayout::decode(0, 1),
        Err("invalid bucket layout: compressed_size == 0 but bulk_decompress_size != 0")
    );
}

#[test]
fn columns_are_spread_over_the_buckets_in_order() {
    let buckets: Vec<usize> = (0..10).map(|column| assign_bucket(column, 10, 4)).collect();
    assert_eq!(buckets, vec![0, 0, 0, 1, 1, 2, 2, 2, 3, 3]);
    assert!(buckets.windows(2).all(|pair| pair[0] <= pair[1]));
    assert!(buckets.iter().all(|bucket| *bucket < 4));
}

#[test]
fn blocks_decompress_to_what_was_compressed() {
    let data: Vec<u8> = (0..10_000u32).map(|i| (i / 100) as u8).collect();
    let block = compress_zstd(&data, 3, SizeField::BucketUncompressedSize).unwrap();
    assert!(block.len() < data.len());
    assert_ne!(block, data);
    assert_eq!(decompress_zstd(&block, data.len()), Ok(data.clone()));
    assert_eq!(decompress_zstd(&block, data.len() - 1), Err(Error::DecompressionFailed));
    assert_eq!(decompress_zstd(&data, data.len()), Err(Error::DecompressionFailed));
    let empty = compress_zstd(&[], 1, SizeField::BucketUncompressedSize).unwrap();
    assert!(!empty.is_empty());
    assert_eq!(decompress_zstd(&empty, 0), Ok(vec![]));
}

#[test]
fn blocks_may_not_claim_too_much() {
    assert_eq!(
        decompress_zstd(&[1, 2, 3], 1_048_577),
        Err(Error::DecompressedSizeOverCap { size: 1_048_577, cap: 1_048_576, block: 3 })
    );
    let block = vec![0u8; 20];
    assert_eq!(
        decompress_zstd(&block, 1_310_721),
        Err(Error::DecompressedSizeOverCap { size: 1_310_721, cap: 1_310_720, block: 20 })
    );
    assert_eq!(decompress_zstd(&block, 1_310_720), Err(Error::DecompressionFailed));
    assert_eq!(check_zstd_block_size(MAX_ZSTD_DECOMPRESS_BLOCK_SIZE, SizeField::PageUncompressedSize), Ok(()));
    let size = MAX_ZSTD_DECOMPRESS_BLOCK_SIZE + 1;
    assert_eq!(
        check_zstd_block_size(size, SizeField::PageUncompressedSize),
        Err(Error::BlockTooLarge { field: SizeField::PageUncompressedSize, size })
    );
    assert_eq!(to_u32(4_294_967_295, SizeField::NumBuckets), Ok(u32::MAX));
    assert_eq!(
        to_u32(4_294_967_296, SizeField::NumBuckets),
        Err(Error::SizeOverU32 { field: SizeField::NumBuckets, size: 4_294_967_296 })
    );
}

#[test]
fn the_digest_is_sha_256() {
    let expected = [
        0xba, 0x78, 0x16, 0xbf, 0x8f, 0x01, 0xcf, 0xea, 0x41, 0x41, 0x40, 0xde, 0x5d, 0xae, 0x22, 0x23, 0xb0, 0x03, 0x61,
        0xa3, 0x96, 0x17, 0x7a, 0x9c, 0xb4, 0x10, 0xff, 0x61, 0xf2, 0x00, 0x15, 0xad,
    ];
    assert_eq!(schema_digest(b"abc"), expected);
}

fn small_footer() -> Footer {
    Footer { index_offset: 14, schema_block_offset: 3, num_buckets: 2, num_row_groups: 1, compression: COMPRESSION_NONE }
}

#[test]
fn footers_read_back() {
    let footer = Footer {
        index_offset: 0x0102_0304_0506_0708,
        schema_block_offset: 0x0102_0304_0506_0000,
        num_buckets: 0x0a0b_0c0d,
        num_row_groups: 7,
        compression: COMPRESSION_ZSTD,
    };
    let bytes = footer.encode();
    let mut expected = vec![1, 2, 3, 4, 5, 6, 7, 8, 1, 2, 3, 4, 5, 6, 0, 0, 10, 11, 12, 13, 0, 0, 0, 7, 1, VERSION, 0, 0];
    expected.extend_from_slice(&MAGIC);
    assert_eq!(bytes, expected);
    assert_eq!(bytes.len(), FOOTER_SIZE);
    assert_eq!(Footer::decode(&bytes, u64::MAX), Ok(footer));
}

#[test]
fn wrong_footers_are_refused() {
    let good = small_footer().encode();
    assert_eq!(Footer::decode(&good, 60), Ok(small_footer()));
    let mut bad = good.clone();
    bad[31] ^= 1;
    assert_eq!(Footer::decode(&bad, 60), Err(Error::BadMagic));
    let mut bad = good.clone();
    bad[25] = 9;
    assert_eq!(Footer::decode(&bad, 60), Err(Error::UnsupportedVersion { version: 9 }));
    assert_eq!(Footer::decode(&good, 45), Err(Error::CorruptFooter));
    let crossed = Footer { index_offset: 6, ..small_footer() };
    assert_eq!(Footer::decode(&crossed.encode(), 60), Err(Error::CorruptFooter));
    let far = Footer { schema_block_offset: u64::MAX, ..small_footer() };
    assert_eq!(Footer::decode(&far.encode(), 60), Err(Error::CorruptFooter));
}

fn small_file(footer: Footer) -> Vec<u8> {
    let mut file = vec![1, 2, 3];
    file.extend_from_slice(&[0, 0, 0, 7]);
    file.extend_from_slice(b"columns");
    file.extend_from_slice(b"index");
    file.extend_from_slice(&footer.encode());
    file
}

#[test]
fn the_metadata_of_a_file_is_found_from_its_end() {
    let file = MemoryFile::new(small_file(small_footer()));
    let len = file.bytes.len() as u64;
    let meta = FileMeta::read(&file, len).unwrap();
    assert_eq!(meta.footer, small_footer());
    assert_eq!(meta.schema_raw, b"columns");
    assert_eq!(meta.index, b"index");
    assert_eq!(meta.schema_fingerprint, schema_digest(b"columns"));
}

#[test]
fn files_without_metadata_are_refused() {
    let file = MemoryFile::new(vec![0; 31]);
    assert_eq!(FileMeta::read(&file, 31).err(), Some(Error::FileTooSmall));
    let file = MemoryFile::new(small_file(Footer { compression: 7, ..small_footer() }));
    assert_eq!(FileMeta::read(&file, file.bytes.len() as u64).err(), Some(Error::UnsupportedCompression { code: 7 }));
    let file = MemoryFile::new(small_file(Footer { compression: COMPRESSION_ZSTD, ..small_footer() }));
    assert_eq!(FileMeta::read(&file, file.bytes.len() as u64).err(), Some(Error::DecompressionFailed));
}

fn small_index() -> Vec<u8> {
    let layouts = vec![
        BucketLayout::Paged { total_size: 40 },
        BucketLayout::Empty,
        BucketLayout::Monolithic { compressed_size: 10, uncompressed_size: 300 },
    ];
    let mut out = Vec::new();
    write_row_group(&mut out, 200, &vec![0, 0, 40], &layouts).unwrap();
    out
}

fn row_group(data: &[u8], num_buckets: usize, limit: u64) -> Result<RowGroupMeta, Error> {
    let mut pos = 0;
    read_row_group(data, &mut pos, num_buckets, limit)
}

#[test]
fn row_groups_of_the_index_read_back() {
    let index = small_index();
    assert_eq!(index, vec![200, 1, 2, 0, 0, 0, 0, 0, 0, 0, 0, 0, 40, 0, 2, 0, 0, 0, 0, 0, 0, 0, 40, 10, 172, 2]);
    let meta = row_group(&index, 3, 50).unwrap();
    assert_eq!(meta.num_rows, 200);
    assert_eq!(meta.bucket_offsets, vec![0, 0, 40]);
    assert_eq!(
        meta.bucket_layouts,
        vec![
            BucketLayout::Paged { total_size: 40 },
            BucketLayout::Empty,
            BucketLayout::Monolithic { compressed_size: 10, uncompressed_size: 300 },
        ]
    );
}

#[test]
fn wrong_row_groups_of_the_index_are_refused() {
    let index = small_index();
    assert_eq!(row_group(&index, 3, 49).err(), Some(Error::BucketPastSchema));
    assert_eq!(row_group(&index, 1, 50).err(), Some(Error::NonEmptyCountTooLarge));
    assert_eq!(row_group(&index, 2, 50).err(), Some(Error::CorruptRowGroupIndex));
    assert_eq!(row_group(&index[..20], 3, 50).err(), Some(Error::CorruptRowGroupIndex));
    assert_eq!(row_group(&index[..1], 3, 50).err(), Some(Error::TruncatedVarint));
    let mut twice = index.clone();
    twice[14] = 0;
    assert_eq!(row_group(&twice, 3, 50).err(), Some(Error::DuplicateBucket));
    let empty = [1, 1, 0, 0, 0, 0, 0, 0, 0, 0, 0, 0, 5];
    assert_eq!(row_group(&empty, 1, 50).err(), Some(Error::InvalidBucketLayout));
    let far = [1, 1, 0, 255, 255, 255, 255, 255, 255, 255, 255, 1, 5];
    assert_eq!(row_group(&far, 1, u64::MAX).err(), Some(Error::BucketOffsetOverflow));
}

#[test]
fn sizes_over_32_bits_are_not_written_to_the_index() {
    let mut out = Vec::new();
    let size = 4_294_967_296;
    assert_eq!(
        write_row_group(&mut out, size, &vec![], &vec![]),
        Err(Error::SizeOverU32 { field: SizeField::RowGroupRows, size })
    );
    assert_eq!(
        write_row_group(&mut out, 1, &vec![0], &vec![BucketLayout::Paged { total_size: size }]),
        Err(Error::SizeOverU32 { field: SizeField::BucketCompressedSize, size })
    );
}

#[test]
fn the_index_is_read_to_its_end() {
    let mut index = small_index();
    index.extend_from_slice(&small_index());
    let metas = read_index(index.clone(), 2, 3, 50).unwrap();
    assert_eq!(metas.len(), 2);
    assert_eq!(metas[1].num_rows, 200);
    assert_eq!(read_index(index.clone(), 1, 3, 50).err(), Some(Error::TrailingIndexBytes));
    assert_eq!(read_index(index.clone(), 3, 3, 50).err(), Some(Error::TruncatedVarint));
    let mut reader = IndexReader::new(index.clone(), 3, 50);
    assert_eq!(reader.rest(), &index[..]);
    assert_eq!(reader.next_row_group().unwrap().num_rows, 200);
    assert_eq!(reader.skip(26), Ok(()));
    assert_eq!(reader.finish(), Ok(()));
    assert_eq!(reader.skip(1), Err(Error::CorruptRowGroupIndex));
}

#[test]
fn errors_have_a_kind_and_a_text() {
    assert_eq!(Error::TruncatedVarint.kind(), ErrorKind::InvalidData);
    let io = Error::Io { kind: ErrorKind::BrokenPipe, message: "gone".to_string() };
    assert_eq!(io.kind(), ErrorKind::BrokenPipe);
    assert_eq!(io.message(), "gone");
    assert!(!Error::BadMagic.message().is_empty());
}
