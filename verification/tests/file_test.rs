//! Whole files: what is told of them, what is refused, and lists and maps in buckets by pages.

use std::sync::Arc;

use mosaic_core::column::{Column, ColumnValues};
use mosaic_core::compression::schema_digest;
use mosaic_core::encoded_column::EncodedColumn;
use mosaic_core::error::{Error, ErrorKind};
use mosaic_core::footer::{FileMeta, Footer};
use mosaic_core::format::{BucketLayout, COMPRESSION_NONE, COMPRESSION_ZSTD};
use mosaic_core::input::{merge_ranges, read_range, sorted_by_offset, InputFile, ReadRangeBuffer};
use mosaic_core::output::MemoryFile;
use mosaic_core::page_info::{paged_slot_offsets, paged_slot_sizes, validate_paged_total};
use mosaic_core::reader::{BucketKind, Encoding, MosaicReader};
use mosaic_core::row_group_reader::ColumnBatch;
use mosaic_core::row_index::RowGroupMeta;
use mosaic_core::schema::{sorted_by_name, FieldSpec, MosaicSchema};
use mosaic_core::types::{DataType, FieldLabel, MapLabel, TimeUnit};
use mosaic_core::values::Value;
use mosaic_core::writer::{MosaicWriter, WriterOptions, WriterState};

fn field(name: &str, data_type: DataType, nullable: bool) -> FieldSpec {
    FieldSpec { name: name.to_string(), data_type, nullable }
}

fn full(values: ColumnValues, rows: usize) -> Column {
    Column { values, nulls: vec![false; rows] }
}

fn ints(values: Vec<i32>) -> Column {
    let rows = values.len();
    full(ColumnValues::Int32(values), rows)
}

fn texts(values: Vec<String>) -> Column {
    let rows = values.len();
    full(ColumnValues::Utf8(values.into_iter().map(String::into_bytes).collect()), rows)
}

fn label(name: &str, nullable: bool) -> FieldLabel {
    FieldLabel { name: name.to_string(), nullable, metadata: String::new() }
}

fn list_of(data_type: DataType) -> DataType {
    DataType::ListOf(Box::new(data_type), label("item", true))
}

fn map_of(key: DataType, value: DataType) -> DataType {
    let labels =
        MapLabel { entries: label("entries", false), key: label("key", false), value: label("value", true), sorted: false };
    DataType::MapOf(Box::new(key), Box::new(value), labels)
}

/// Four columns: numbers, names out of few, lists of numbers, and maps from texts to numbers.
fn mixed_fields() -> Vec<FieldSpec> {
    vec![
        field("id", DataType::Int32, false),
        field("name", DataType::Utf8, true),
        field("list", list_of(DataType::Int32), true),
        field("map", map_of(DataType::Utf8, DataType::Int32), true),
    ]
}

fn mixed_columns(rows: usize) -> Vec<Column> {
    let names = (0..rows).map(|i| format!("name {}", i % 3)).collect();
    let offsets: Vec<usize> = (0..=rows).map(|i| i * 2).collect();
    let items = ints((0..2 * rows as i32).collect());
    let list = Column {
        values: ColumnValues::ListOf { offsets: offsets.clone(), values: Box::new(items) },
        nulls: vec![false; rows],
    };
    let keys = texts((0..2 * rows).map(|i| format!("key {}", i)).collect());
    let values = ints((0..2 * rows as i32).map(|i| -i).collect());
    let map = Column {
        values: ColumnValues::MapOf { offsets, keys: Box::new(keys), values: Box::new(values) },
        nulls: vec![false; rows],
    };
    vec![ints((0..rows as i32).collect()), texts(names), list, map]
}

fn batch(fields: Vec<FieldSpec>, columns: Vec<Column>) -> ColumnBatch {
    let num_rows = columns[0].nulls.len();
    ColumnBatch { fields, columns, num_rows }
}

fn options(compression: u8, num_buckets: usize, page_size_threshold: usize) -> WriterOptions {
    WriterOptions { compression, num_buckets, page_size_threshold, ..Default::default() }
}

fn new_writer(fields: Vec<FieldSpec>, options: WriterOptions) -> MosaicWriter<MemoryFile> {
    MosaicWriter::new(MemoryFile::new(Vec::new()), &fields, b"schema".to_vec(), options).unwrap()
}

fn mixed_file(options: WriterOptions) -> Vec<u8> {
    let mut writer = new_writer(mixed_fields(), options);
    writer.write_batch(&batch(mixed_fields(), mixed_columns(400))).unwrap();
    writer.close().unwrap();
    writer.output().bytes.clone()
}

fn open(data: Vec<u8>, fields: Vec<FieldSpec>, num_buckets: usize) -> Result<MosaicReader<MemoryFile>, Error> {
    let (schema, _) = MosaicSchema::from_fields(&fields, num_buckets).unwrap();
    let len = data.len() as u64;
    MosaicReader::open(MemoryFile::new(data), len, schema)
}

#[test]
fn files_of_all_layouts_read_back() {
    for compression in [COMPRESSION_NONE, COMPRESSION_ZSTD] {
        for num_buckets in [1, 2, 4] {
            for threshold in [1, 1 << 30] {
                let data = mixed_file(options(compression, num_buckets, threshold));
                let reader = open(data, mixed_fields(), num_buckets).unwrap();
                assert_eq!(reader.num_row_groups(), 1);
                assert_eq!(reader.compression(), compression);
                assert_eq!(reader.schema_fingerprint(), &schema_digest(b"schema"));
                let read = reader.row_group_reader(0).unwrap().read_columns().unwrap();
                assert_eq!(read.num_rows, 400);
                assert_eq!(read.columns, mixed_columns(400));
                let part = reader.row_group_reader_by_names(0, &["map", "id"]).unwrap().read_columns().unwrap();
                let mut expected = mixed_columns(400);
                let map = expected.remove(3);
                assert_eq!(part.columns, vec![map, expected.remove(0)]);
            }
        }
    }
}

#[test]
fn buckets_and_pages_are_told_of() {
    let data = mixed_file(options(COMPRESSION_ZSTD, 1, 1));
    let reader = open(data, mixed_fields(), 1).unwrap();
    let buckets = reader.bucket_infos(0).unwrap();
    assert_eq!(buckets.len(), 1);
    assert_eq!(buckets[0].kind, BucketKind::Paged);
    assert_eq!(buckets[0].uncompressed, 0);
    assert_eq!(buckets[0].columns, vec![0, 1, 2, 3]);
    let infos = reader.page_infos(0).unwrap();
    let names: Vec<&str> = infos.iter().map(|info| reader.schema().columns[info.column_index].name.as_str()).collect();
    assert_eq!(names, vec!["id", "list", "map", "name"]);
    assert_eq!(infos[0].encoding, Encoding::Plain);
    assert_eq!(infos[3].encoding, Encoding::Dict);
    let sizes = reader.slot_sizes(0).unwrap();
    assert_eq!(sizes, infos.iter().map(|info| info.slot_size).collect::<Vec<usize>>());
    // The directory tells of three columns below lists and maps and of seven slots.
    assert_eq!(buckets[0].size, 2 + 4 * 3 + 4 * 7 + sizes.iter().sum::<usize>());
    let named = reader.page_infos_by_names(0, &["name"]).unwrap();
    assert_eq!(named.len(), 1);
    assert_eq!(named[0].column_index, 3);
    assert_eq!(named[0].slot_size, sizes[3]);
    assert_eq!(reader.page_infos_projected(0, &[9]).err(), Some(Error::ProjectedColumnOutOfRange { column: 9, num_columns: 4 }));
    assert_eq!(reader.page_infos(1).err(), Some(Error::RowGroupOutOfRange));
    assert_eq!(reader.slot_sizes(1).err(), Some(Error::RowGroupOutOfRange));
}

#[test]
fn buckets_in_one_piece_have_no_slots() {
    let data = mixed_file(options(COMPRESSION_ZSTD, 2, 1 << 30));
    let reader = open(data, mixed_fields(), 2).unwrap();
    let buckets = reader.bucket_infos(0).unwrap();
    assert_eq!(buckets[0].kind, BucketKind::Monolithic);
    assert_eq!(buckets[1].columns, vec![2, 3]);
    assert!(buckets[0].size < buckets[0].uncompressed);
    assert_eq!(reader.slot_sizes(0).unwrap(), vec![0, 0, 0, 0]);
    assert!(reader.page_infos(0).unwrap().iter().all(|info| info.slot_size == 0));
    assert_eq!(reader.bucket_infos(1).err(), Some(Error::RowGroupOutOfRange));
}

#[test]
fn dictionaries_are_handed_out() {
    let data = mixed_file(options(COMPRESSION_ZSTD, 1, 1));
    let reader = open(data, mixed_fields(), 1).unwrap();
    let entries = reader.dictionary(0, 3).unwrap().unwrap();
    let expected: Vec<Value> = (0..3).map(|i| Value::String(format!("name {}", i).into_bytes())).collect();
    assert_eq!(entries, expected);
    assert_eq!(reader.dictionary(0, 0), Ok(None));
    assert_eq!(reader.dictionary(0, 4), Err(Error::ProjectedColumnOutOfRange { column: 4, num_columns: 4 }));
    assert_eq!(reader.dictionary(1, 0), Err(Error::RowGroupOutOfRange));
}

#[test]
fn encoded_columns_are_visited_by_bucket() {
    let fields = || vec![field("b", DataType::Int32, false), field("a", DataType::Int32, false)];
    let mut writer = new_writer(fields(), options(COMPRESSION_NONE, 1, 1 << 30));
    writer.write_batch(&batch(fields(), vec![ints(vec![1, 2]), ints(vec![7, 7])])).unwrap();
    writer.close().unwrap();
    let reader = open(writer.output().bytes.clone(), fields(), 1).unwrap();
    let group = reader.row_group_reader(0).unwrap();
    let mut seen = Vec::new();
    let visited = group.visit_encoded_columns(|name: &str, _: &DataType, nullable: bool, column: EncodedColumn<'_>| {
        seen.push((name.to_string(), nullable, column.encoding(), column.num_rows()));
        Ok(())
    });
    assert_eq!(visited, Ok(()));
    let expected = vec![("b".to_string(), false, Encoding::Plain, 2), ("a".to_string(), false, Encoding::Const, 2)];
    let mut sorted = seen.clone();
    sorted.sort_by(|x, y| y.0.cmp(&x.0));
    assert_eq!(sorted, expected);
    let order: Vec<String> =
        group.visit_order().into_iter().map(|column| group.schema().columns[column].name.clone()).collect();
    assert_eq!(order, seen.iter().map(|column| column.0.clone()).collect::<Vec<String>>());
    let stopped = group.visit_encoded_columns(|_: &str, _: &DataType, _: bool, _: EncodedColumn<'_>| Err(Error::WriterClosed));
    assert_eq!(stopped, Err(Error::WriterClosed));
}

#[test]
fn lists_have_no_encoded_column() {
    let reader = open(mixed_file(options(COMPRESSION_NONE, 1, 1 << 30)), mixed_fields(), 1).unwrap();
    let group = reader.row_group_reader(0).unwrap();
    let visited = group.visit_encoded_columns(|_: &str, _: &DataType, _: bool, _: EncodedColumn<'_>| Ok(()));
    assert_eq!(visited, Err(Error::NestedEncodedColumn { name: "list".to_string() }));
}

#[test]
fn columns_that_were_not_asked_for_are_not_there() {
    let reader = open(mixed_file(options(COMPRESSION_ZSTD, 1, 1)), mixed_fields(), 1).unwrap();
    let group = reader.row_group_reader_projected(0, &[0]).unwrap();
    assert_eq!(group.num_rows(), 400);
    assert!(group.encoded_column(0).is_ok());
    assert_eq!(group.encoded_column(3).err(), Some(Error::ColumnMissingFromPagedBucket { column: 3, bucket: 0 }));
    let reader = open(mixed_file(options(COMPRESSION_NONE, 4, 1 << 30)), mixed_fields(), 4).unwrap();
    let group = reader.row_group_reader_projected(0, &[0]).unwrap();
    assert_eq!(group.encoded_column(3).err(), Some(Error::BucketNotLoaded { bucket: 3 }));
}

#[test]
fn projections_stay_until_they_are_changed() {
    let mut reader = open(mixed_file(options(COMPRESSION_NONE, 1, 1 << 30)), mixed_fields(), 1).unwrap();
    assert_eq!(reader.project(&["name"]), Ok(()));
    let read = reader.row_group_reader(0).unwrap().read_columns().unwrap();
    assert_eq!(read.fields.len(), 1);
    assert_eq!(read.fields[0].name, "name");
    assert_eq!(reader.project(&["name", "none"]), Err(Error::ColumnNotFound { name: "none".to_string() }));
    assert_eq!(reader.row_group_reader(0).unwrap().read_columns().unwrap().fields.len(), 1);
    assert_eq!(reader.row_group_reader(1).err(), Some(Error::RowGroupOutOfRange));
    assert_eq!(reader.row_group_num_rows(0), Ok(400));
    assert_eq!(reader.row_group_num_rows(1), Err(Error::RowGroupIndexOutOfRange { index: 1, num_row_groups: 1 }));
    assert!(reader.row_group_stats(0).unwrap().is_empty());
    assert_eq!(reader.row_group_stats(2).err(), Some(Error::RowGroupIndexOutOfRange { index: 2, num_row_groups: 1 }));
}

#[test]
fn files_of_another_schema_are_not_opened() {
    let data = mixed_file(options(COMPRESSION_NONE, 2, 1 << 30));
    assert_eq!(open(data, mixed_fields(), 3).err(), Some(Error::BucketCountMismatch));
    assert_eq!(MosaicSchema::from_fields(&mixed_fields(), 0).err(), Some(Error::NoBuckets));
}

#[test]
fn columns_are_sorted_by_name_over_the_buckets() {
    let fields = mixed_fields();
    assert_eq!(sorted_by_name(&fields), vec![0, 2, 3, 1]);
    let (schema, map) = MosaicSchema::from_fields(&fields, 2).unwrap();
    assert_eq!(map, vec![0, 2, 3, 1]);
    assert_eq!(schema.bucket_to_global, vec![vec![0, 1], vec![2, 3]]);
    assert_eq!(schema.original_order, vec![0, 3, 1, 2]);
    assert_eq!(schema.find_column("map"), Some(2));
    assert_eq!(schema.find_column("nap"), None);
    assert_eq!(schema.find_columns(&["name", "id"]), Ok(vec![3, 0]));
}

#[test]
fn wrong_batches_are_refused() {
    let fields = || vec![field("a", DataType::Int32, false)];
    let mut writer = new_writer(fields(), options(COMPRESSION_NONE, 1, 1 << 30));
    let none = ColumnBatch { fields: vec![], columns: vec![], num_rows: 0 };
    assert_eq!(writer.write_batch(&none), Err(Error::ColumnCountMismatch { expected: 1, actual: 0 }));
    let other = batch(vec![field("b", DataType::Int32, false)], vec![ints(vec![1])]);
    assert_eq!(
        writer.write_batch(&other),
        Err(Error::FieldNameMismatch { column: 0, expected_name: "a".to_string(), actual_name: "b".to_string() })
    );
    let typed = batch(vec![field("a", DataType::Utf8, false)], vec![texts(vec!["x".to_string()])]);
    assert_eq!(writer.write_batch(&typed), Err(Error::ColumnTypeMismatch { name: "a".to_string(), expected_type: DataType::Int32, actual_type: DataType::Utf8 }));
    let null = batch(fields(), vec![Column { values: ColumnValues::Int32(vec![0, 0]), nulls: vec![true, false] }]);
    assert_eq!(writer.write_batch(&null), Err(Error::UnexpectedNulls { name: "a".to_string(), nulls: 1 }));
    assert_eq!(writer.state(), WriterState::Open);
    assert_eq!(writer.write_batch(&batch(fields(), vec![ints(vec![4])])), Ok(()));
    assert_eq!(writer.close(), Ok(()));
    assert_eq!(writer.close(), Ok(()));
    assert_eq!(writer.write_batch(&batch(fields(), vec![ints(vec![5])])), Err(Error::WriterClosed));
    assert_eq!(writer.num_row_groups(), 1);
}

#[test]
fn other_compressions_abort_the_writer() {
    let fields = || vec![field("a", DataType::Int32, false)];
    let mut writer = new_writer(fields(), options(9, 1, 1 << 30));
    writer.write_batch(&batch(fields(), vec![ints(vec![4])])).unwrap();
    assert_eq!(writer.close(), Err(Error::UnsupportedOutputCompression { code: 9 }));
    assert_eq!(writer.state(), WriterState::Aborted);
    assert_eq!(writer.close(), Err(Error::WriterAborted));
    assert_eq!(writer.write_batch(&batch(fields(), vec![ints(vec![5])])), Err(Error::WriterAborted));
}

#[test]
fn sizes_are_counted_while_a_file_is_written() {
    let fields = || vec![field("a", DataType::Int32, false)];
    let mut writer = new_writer(fields(), options(COMPRESSION_NONE, 1, 1 << 30));
    assert_eq!(writer.file_sizes().written, 0);
    writer.write_batch(&batch(fields(), vec![ints(vec![1, 2, 3])])).unwrap();
    let sizes = writer.file_sizes();
    assert_eq!(sizes.written, 0);
    assert_eq!(sizes.buffered, 15);
    writer.close().unwrap();
    let sizes = writer.file_sizes();
    assert_eq!(sizes.written, writer.output().bytes.len() as u64);
    assert_eq!((sizes.total_uncompressed, sizes.total_compressed), (14, 14));
}

#[test]
fn sizes_grow_with_each_row_group() {
    let fields = || vec![field("a", DataType::Int32, false)];
    let options = WriterOptions { row_group_max_size: 1, ..options(COMPRESSION_ZSTD, 1, 1 << 30) };
    let mut writer = new_writer(fields(), options);
    assert_eq!((writer.file_sizes().total_uncompressed, writer.file_sizes().total_compressed), (0, 0));
    for groups in 1..=3 {
        let before = writer.file_sizes();
        writer.write_batch(&batch(fields(), vec![ints((0..1_000).map(|i| i * 7).collect())])).unwrap();
        let sizes = writer.file_sizes();
        assert_eq!(writer.num_row_groups(), groups);
        assert_eq!(sizes.buffered, 0);
        assert_eq!(sizes.total_uncompressed, before.total_uncompressed + 4_002);
        assert_eq!(sizes.total_compressed - before.total_compressed, sizes.written - before.written);
        assert!(sizes.total_compressed < sizes.total_uncompressed);
    }
    let before = writer.file_sizes();
    let refused = writer.write_batch(&batch(vec![field("b", DataType::Int32, false)], vec![ints(vec![1])]));
    assert!(matches!(refused, Err(Error::FieldNameMismatch { .. })));
    assert_eq!(writer.file_sizes().total_uncompressed, before.total_uncompressed);
    writer.close().unwrap();
    assert_eq!(writer.file_sizes().total_uncompressed, before.total_uncompressed);
    assert_eq!(writer.file_sizes().total_compressed, before.total_compressed);
}

#[test]
fn dictionaries_keep_to_the_limits_of_the_writer() {
    let fields = || vec![field("name", DataType::Utf8, false)];
    let names = || texts((0..400).map(|i| format!("name {}", i % 4)).collect());
    let encoding = |max_dict_entries: usize, max_dict_total_bytes: usize| {
        let options = WriterOptions { max_dict_entries, max_dict_total_bytes, ..options(COMPRESSION_ZSTD, 1, 1) };
        let mut writer = new_writer(fields(), options);
        writer.write_batch(&batch(fields(), vec![names()])).unwrap();
        writer.close().unwrap();
        let reader = open(writer.output().bytes.clone(), fields(), 1).unwrap();
        let read = reader.row_group_reader(0).unwrap().read_columns().unwrap();
        assert_eq!(read.columns[0].values, names().values);
        reader.page_infos(0).unwrap()[0].encoding
    };
    assert_eq!(encoding(4, 1 << 20), Encoding::Dict);
    assert_eq!(encoding(3, 1 << 20), Encoding::Plain);
    assert_eq!(encoding(0, 1 << 20), Encoding::Plain);
    assert_eq!(encoding(4, 1), Encoding::Plain);
}

#[test]
fn batches_of_other_types_are_refused() {
    let zoned = |zone: Option<&str>| DataType::Timestamp(TimeUnit::Millisecond, zone.map(str::to_string));
    let item = |name: &str, nullable: bool| DataType::ListOf(Box::new(DataType::Int32), label(name, nullable));
    let key = |nullable: bool, sorted: bool| {
        let labels = MapLabel { entries: label("entries", false), key: label("key", nullable), value: label("value", true), sorted };
        DataType::MapOf(Box::new(DataType::Int32), Box::new(DataType::Int32), labels)
    };
    let times = || full(ColumnValues::TimestampMillis(vec![5]), 1);
    let lists = || full(ColumnValues::ListOf { offsets: vec![0, 1], values: Box::new(ints(vec![1])) }, 1);
    let maps =
        || full(ColumnValues::MapOf { offsets: vec![0, 1], keys: Box::new(ints(vec![1])), values: Box::new(ints(vec![2])) }, 1);
    let written = |declared: DataType, given: DataType, column: Column| {
        let mut writer = new_writer(vec![field("a", declared, true)], WriterOptions::default());
        let result = writer.write_batch(&batch(vec![field("a", given, true)], vec![column]));
        assert_eq!(writer.state(), WriterState::Open);
        result
    };
    assert_eq!(written(zoned(Some("UTC")), zoned(Some("UTC")), times()), Ok(()));
    assert_eq!(
        written(zoned(Some("UTC")), zoned(None), times()).unwrap_err().message(),
        "column 'a' type mismatch: expected Timestamp(Millisecond, Some(\"UTC\")), got Timestamp(Millisecond, None)"
    );
    assert!(written(zoned(None), zoned(Some("UTC")), times()).is_err());
    assert!(written(zoned(Some("UTC")), zoned(Some("+01:00")), times()).is_err());
    assert_eq!(written(item("item", true), item("item", true), lists()), Ok(()));
    assert!(written(item("item", true), item("element", true), lists()).is_err());
    assert!(written(item("item", true), item("item", false), lists()).is_err());
    assert_eq!(written(key(false, false), key(false, false), maps()), Ok(()));
    assert!(written(key(false, false), key(true, false), maps()).is_err());
    assert!(written(key(false, false), key(false, true), maps()).is_err());
}

#[test]
fn options_come_from_numbers() {
    let options = WriterOptions::from_numbers(0, 0, 5, -1, 0, 8, 9);
    assert_eq!(options.num_buckets, WriterOptions::default().num_buckets);
    assert_eq!(options.compression, COMPRESSION_NONE);
    assert_eq!(options.zstd_level, 5);
    assert_eq!(options.row_group_max_size, u64::MAX);
    assert_eq!(options.max_dict_total_bytes, 0);
    assert_eq!(options.max_dict_entries, 8);
    assert_eq!(options.page_size_threshold, 9);
    assert_eq!(WriterOptions::from_numbers(3, 257, 2, 4, 5, 6, 7).num_buckets, 3);
    assert_eq!(WriterOptions::from_numbers(3, 257, 2, 4, 5, 6, 7).compression, COMPRESSION_ZSTD);
}

/// A reader of a file with one bucket of two columns of numbers.
fn crafted(data: Vec<u8>, layout: BucketLayout, compression: u8) -> MosaicReader<MemoryFile> {
    crafted_from(MemoryFile::new(data), layout, compression)
}

fn crafted_from<I: InputFile>(input: I, layout: BucketLayout, compression: u8) -> MosaicReader<I> {
    let fields = vec![field("a", DataType::Int32, false), field("b", DataType::Int32, false)];
    let (schema, _) = MosaicSchema::from_fields(&fields, 1).unwrap();
    let meta = FileMeta {
        footer: Footer { index_offset: 4, schema_block_offset: 0, num_buckets: 1, num_row_groups: 1, compression },
        schema_raw: vec![],
        schema_fingerprint: schema_digest(&[]),
        index: vec![],
    };
    let group = RowGroupMeta { num_rows: 1, bucket_offsets: vec![0], bucket_layouts: vec![layout], stats: vec![] };
    MosaicReader::new(input, &meta, schema, vec![group]).unwrap()
}

#[test]
fn wrong_buckets_are_refused() {
    let whole = BucketLayout::Monolithic { compressed_size: 4, uncompressed_size: 4 };
    let reader = crafted(vec![0; 4], whole, 7);
    assert_eq!(reader.row_group_reader(0).err(), Some(Error::UnsupportedBucketCompression));
    let reader = crafted(vec![0; 4], whole, COMPRESSION_ZSTD);
    assert_eq!(reader.row_group_reader(0).err(), Some(Error::DecompressionFailed));
    let paged = BucketLayout::Paged { total_size: 20 };
    let reader = crafted(vec![0; 20], paged, COMPRESSION_NONE);
    assert_eq!(reader.row_group_reader(0).err(), Some(Error::PagedBucketNotZstd));
    let small = BucketLayout::Paged { total_size: 7 };
    let reader = crafted(vec![0; 7], small, COMPRESSION_ZSTD);
    assert_eq!(
        reader.row_group_reader_projected(0, &[0]).err(),
        Some(Error::DirectoryTooLarge { bucket: 0, dir_size: 8, total_size: 7 })
    );
    assert_eq!(reader.page_infos(0).err(), Some(Error::DirectoryTooLarge { bucket: 0, dir_size: 8, total_size: 7 }));
    let reader = crafted(vec![0; 20], paged, COMPRESSION_ZSTD);
    assert_eq!(
        reader.row_group_reader(0).err(),
        Some(Error::DirectoryMismatch { bucket: 0, dir_size: 8, slot_total: 0, total_size: 20 })
    );
    assert_eq!(reader.page_infos(0).err(), Some(Error::SlotSumMismatch { bucket: 0, total: 20 }));
    assert_eq!(reader.slot_sizes(0).err(), Some(Error::SlotSumMismatch { bucket: 0, total: 20 }));
}

/// Nothing can be read.
struct UnreadableFile;

impl InputFile for UnreadableFile {
    fn read_at(&self, _offset: u64, _buf: &mut [u8]) -> Result<(), Error> {
        Err(Error::Io { kind: ErrorKind::Other, message: "unreadable".to_string() })
    }
}

#[test]
fn wrong_layouts_are_found_before_anything_is_read() {
    let reader = |layout: BucketLayout, compression: u8| crafted_from(UnreadableFile, layout, compression);
    let unreadable = || Some(Error::Io { kind: ErrorKind::Other, message: "unreadable".to_string() });
    let paged = BucketLayout::Paged { total_size: 20 };
    assert_eq!(reader(paged, COMPRESSION_NONE).row_group_reader(0).err(), Some(Error::PagedBucketNotZstd));
    assert_eq!(reader(paged, COMPRESSION_ZSTD).row_group_reader(0).err(), unreadable());
    assert_eq!(reader(paged, COMPRESSION_ZSTD).page_infos(0).err(), unreadable());
    let small = BucketLayout::Paged { total_size: 7 };
    let too_large = || Some(Error::DirectoryTooLarge { bucket: 0, dir_size: 8, total_size: 7 });
    assert_eq!(reader(small, COMPRESSION_ZSTD).row_group_reader_projected(0, &[0]).err(), too_large());
    assert_eq!(reader(small, COMPRESSION_ZSTD).page_infos(0).err(), too_large());
    assert_eq!(reader(small, COMPRESSION_ZSTD).row_group_reader_projected(0, &[2]).err().unwrap().kind(), ErrorKind::InvalidInput);
    let whole = BucketLayout::Monolithic { compressed_size: 4, uncompressed_size: 4 };
    assert_eq!(reader(whole, COMPRESSION_NONE).row_group_reader(0).err(), unreadable());
}

#[test]
fn slots_stand_one_behind_the_other() {
    let directory = [9, 3, 0, 0, 0, 4, 0, 0, 0];
    let sizes = paged_slot_sizes(&directory, 1, 2);
    assert_eq!(sizes, vec![3, 4]);
    assert_eq!(paged_slot_offsets(100, &sizes), vec![100, 103]);
    assert_eq!(validate_paged_total(5, 8, &sizes, 15), Ok(()));
    assert_eq!(validate_paged_total(5, 8, &sizes, 16), Err(Error::SlotSumMismatch { bucket: 5, total: 16 }));
}

#[test]
fn ranges_that_are_close_are_read_together() {
    let ranges = [(5_000_000, 10), (0, 100), (500, 20), (120, 30)];
    assert_eq!(sorted_by_offset(&ranges), vec![1, 3, 2, 0]);
    let merged = merge_ranges(&ranges);
    let told: Vec<(u64, u64, Vec<usize>)> = merged.into_iter().map(|range| (range.start, range.end, range.members)).collect();
    assert_eq!(told, vec![(0, 520, vec![1, 3, 2]), (5_000_000, 5_000_010, vec![0])]);
}

#[test]
fn ranges_are_read_in_the_order_they_were_asked_for() {
    let file = MemoryFile::new((0..100u8).collect());
    assert_eq!(read_range(&file, 10, 3), Ok(vec![10, 11, 12]));
    let buffers = file.read_ranges(&[(90, 2), (5, 3), (7, 0)]).unwrap();
    assert_eq!(buffers.len(), 3);
    assert_eq!(buffers[0].as_slice(), &[90, 91]);
    assert_eq!(buffers[1].as_slice(), &[5, 6, 7]);
    assert!(buffers[2].is_empty());
    assert!(file.read_ranges(&[(99, 2)]).is_err());
}

#[test]
fn buffers_are_parts_of_shared_bytes() {
    let data = Arc::new(vec![1, 2, 3, 4]);
    let buffer = ReadRangeBuffer::new(data.clone(), 1, 2).unwrap();
    assert_eq!(buffer.clone().as_slice(), &[2, 3]);
    assert_eq!(buffer.len(), 2);
    assert_eq!(Arc::strong_count(&data), 2);
    assert_eq!(ReadRangeBuffer::new(data.clone(), 3, 2).err(), Some(Error::RangeOutOfBounds));
    assert_eq!(ReadRangeBuffer::new(data, usize::MAX, 2).err(), Some(Error::RangeOutOfBounds));
}
