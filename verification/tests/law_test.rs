//! What holds of several calls together, on small inputs.

use std::collections::HashMap;
use std::sync::Arc;

use arrow_schema::{DataType as ArrowType, Field, TimeUnit as ArrowUnit};
use mosaic_core::bpe::{build_vocabulary, build_vocabulary_and_encode, encode, most_frequent_pair_dense, MAX_RULES};
use mosaic_core::column::{Column, ColumnValues};
use mosaic_core::compression::{compress_zstd, decompress_zstd};
use mosaic_core::encoded_column::EncodedColumn;
use mosaic_core::error::{Error, ErrorKind, SizeField};
use mosaic_core::format::{
    assign_bucket, COMPRESSION_NONE, COMPRESSION_ZSTD, ENCODING_ALL_NULL, ENCODING_CONST, ENCODING_DICT, ENCODING_PLAIN,
};
use mosaic_core::input::sorted_by_offset;
use mosaic_core::output::MemoryFile;
use mosaic_core::page_info::PageInfo;
use mosaic_core::reader::MosaicReader;
use mosaic_core::row_group_reader::ColumnBatch;
use mosaic_core::schema::{sorted_by_name, FieldSpec, MosaicSchema};
use mosaic_core::types::{DataType, FieldLabel, MapLabel, TimeUnit};
use mosaic_core::values::{EncodedValueRef, Value};
use mosaic_core::visitor::{ColumnVisitor, EntryVisitor};
use mosaic_core::writer::{MosaicWriter, WriterOptions};

// ---------------------------------------------------------------- buckets

fn bucket_sizes(num_columns: usize, num_buckets: usize) -> Vec<usize> {
    let mut sizes = vec![0; num_buckets];
    for position in 0..num_columns {
        sizes[assign_bucket(position, num_columns, num_buckets)] += 1;
    }
    sizes
}

#[test]
fn bucket_sizes_are_balanced() {
    assert_eq!(bucket_sizes(10, 4), vec![3, 2, 3, 2]);
    for num_columns in 1..60 {
        for num_buckets in 1..=num_columns {
            let sizes = bucket_sizes(num_columns, num_buckets);
            let down = num_columns / num_buckets;
            assert!(down > 0);
            assert!(sizes.iter().all(|size| *size == down || *size == (num_columns + num_buckets - 1) / num_buckets));
        }
        assert!((0..num_columns).all(|position| assign_bucket(position, num_columns, num_columns) == position));
    }
}

#[test]
fn columns_of_a_schema_are_spread_evenly() {
    let fields: Vec<FieldSpec> = (0..7)
        .map(|i| FieldSpec { name: format!("c{}", i), data_type: DataType::Int32, nullable: false })
        .collect();
    let sizes = |num_buckets: usize| -> Vec<usize> {
        let (schema, _) = MosaicSchema::from_fields(&fields, num_buckets).unwrap();
        schema.bucket_to_global.iter().map(Vec::len).collect()
    };
    assert_eq!(sizes(1), vec![7]);
    assert_eq!(sizes(3), vec![3, 2, 2]);
    assert_eq!(sizes(5), vec![2, 1, 2, 1, 1]);
    assert_eq!(sizes(100), vec![1; 7]);
}

#[test]
fn fields_of_the_same_name_keep_their_order() {
    let names = ["b", "a", "b", "a", "ab", "a"];
    let fields: Vec<FieldSpec> = names
        .iter()
        .map(|name| FieldSpec { name: name.to_string(), data_type: DataType::Int32, nullable: false })
        .collect();
    assert_eq!(sorted_by_name(&fields), vec![1, 3, 5, 4, 0, 2]);
    assert_eq!(sorted_by_name(&vec![]), Vec::<usize>::new());
}

#[test]
fn many_ranges_are_sorted_quickly() {
    let ranges: Vec<(u64, usize)> = (0..200_000u64).map(|i| ((i * 7_919) % 200_003, 1)).collect();
    let order = sorted_by_offset(&ranges);
    assert_eq!(order.len(), ranges.len());
    assert!(order.windows(2).all(|pair| ranges[pair[0]].0 < ranges[pair[1]].0));
}

// ---------------------------------------------------------------- byte pairs

fn pair_count(tokens: &[Vec<u8>], pair: [u8; 2]) -> usize {
    tokens.iter().map(|token| token.windows(2).filter(|window| **window == pair).count()).sum()
}

fn best_pair(tokens: &[Vec<u8>]) -> Option<(usize, [u8; 2])> {
    let mut best = None;
    for token in tokens {
        for window in token.windows(2) {
            let pair = [window[0], window[1]];
            let found = Some((pair_count(tokens, pair), pair));
            if found > best {
                best = found;
            }
        }
    }
    best
}

#[test]
fn each_rule_replaces_the_best_pair() {
    let names: Vec<&[u8]> = vec![b"user_name", b"user_id", b"order_id", b"order_user_name"];
    let (rules, encoded) = build_vocabulary_and_encode(&names);
    assert_eq!(rules, build_vocabulary(&names));
    assert!(!rules.is_empty() && rules.len() < MAX_RULES);
    for r in 0..rules.len() {
        let before: Vec<Vec<u8>> = names.iter().map(|name| encode(name, &rules[..r])).collect();
        let (count, pair) = best_pair(&before).unwrap();
        assert!(count >= 2);
        assert_eq!(pair, rules[r]);
    }
    let all: Vec<Vec<u8>> = names.iter().map(|name| encode(name, &rules)).collect();
    assert_eq!(all, encoded);
    assert_eq!(best_pair(&all).unwrap().0, 1);
}

#[test]
fn counted_pairs_are_listed_once() {
    let mut counts = vec![0u32; 65_536];
    let mut touched = Vec::new();
    let first = vec![vec![9, 9, 9]];
    most_frequent_pair_dense(&first, &mut counts, &mut touched);
    assert_eq!(touched, vec![9 * 256 + 9]);
    let second = vec![vec![1, 2, 1, 2, 1], vec![1, 2]];
    assert_eq!(most_frequent_pair_dense(&second, &mut counts, &mut touched), Some((1, 2, 3)));
    touched.sort();
    assert_eq!(touched, vec![256 + 2, 2 * 256 + 1]);
    let counted: Vec<usize> = (0..counts.len()).filter(|pair| counts[*pair] != 0).collect();
    assert_eq!(counted, vec![256 + 2, 2 * 256 + 1]);
}

// ---------------------------------------------------------------- encoded columns

fn const_column<'a>(data_type: &'a DataType, value: &'a Value, bitmap: &'a [u8], rows: usize) -> EncodedColumn<'a> {
    EncodedColumn::new(data_type, ENCODING_CONST, true, bitmap, value, &[], 0, &[], 0, rows)
}

#[test]
fn nulls_are_told_where_a_row_is_null() {
    let value = Value::Integer(7);
    assert!(!const_column(&DataType::Int32, &value, &[0], 3).has_nulls());
    assert!(!const_column(&DataType::Int32, &value, &[0b1000], 3).has_nulls());
    assert!(const_column(&DataType::Int32, &value, &[0b0100], 3).has_nulls());
    let all_null = |rows: usize| EncodedColumn::new(&DataType::Int32, ENCODING_ALL_NULL, false, &[], &Value::Null, &[], 0, &[], 0, rows);
    assert!(!all_null(0).has_nulls());
    assert!(all_null(1).has_nulls());
    let plain = EncodedColumn::new(&DataType::Int32, ENCODING_PLAIN, false, &[], &Value::Null, &[], 0, &[0, 0, 0, 1], 0, 1);
    assert!(!plain.has_nulls());
}

#[test]
fn a_run_of_values_ends_at_the_last_row_or_at_an_error() {
    let data_type = DataType::Int32;
    let data = [0, 0, 0, 1, 0, 0, 0, 2, 0];
    let column = |rows: usize| EncodedColumn::new(&DataType::Int32, ENCODING_PLAIN, false, &[], &Value::Null, &[], 0, &data, 0, rows);
    let mut values = column(2).values();
    assert_eq!(values.next(), Some(Ok(EncodedValueRef::Int32(1))));
    assert_eq!(values.next(), Some(Ok(EncodedValueRef::Int32(2))));
    assert_eq!(values.next(), None);
    assert_eq!(values.next(), None);
    let mut values = column(4).values();
    values.next();
    values.next();
    assert_eq!(values.next(), Some(Err(Error::TruncatedColumnData)));
    assert_eq!(values.next(), None);
    assert_eq!(values.next(), None);
    assert_eq!(column(4).data_type(), &data_type);
}

struct Entries {
    seen: Vec<Vec<u8>>,
    refuse_after: usize,
}

impl<'a> EntryVisitor<'a> for Entries {
    fn visit(&mut self, value: EncodedValueRef<'a>) -> Result<(), Error> {
        if self.seen.len() == self.refuse_after {
            return Err(Error::WriterClosed);
        }
        match value {
            EncodedValueRef::Utf8(text) => self.seen.push(text.to_vec()),
            _ => return Err(Error::WriterAborted),
        }
        Ok(())
    }
}

fn greek() -> Vec<Value> {
    vec![
        Value::String(b"alpha".to_vec()),
        Value::String(b"beta".to_vec()),
        Value::String(b"gamma".to_vec()),
    ]
}

fn dict_column<'a>(dict: &'a [Value], data: &'a [u8], rows: usize) -> EncodedColumn<'a> {
    EncodedColumn::new(&DataType::Utf8, ENCODING_DICT, false, &[], &Value::Null, dict, 2, data, 0, rows)
}

#[test]
fn visitors_get_each_entry_once() {
    let dict = greek();
    let all = vec![b"alpha".to_vec(), b"beta".to_vec(), b"gamma".to_vec()];
    let mut entries = Entries { seen: vec![], refuse_after: 9 };
    assert_eq!(dict_column(&dict, &[0x24], 4).visit_dictionary_with(&mut entries), Ok(true));
    assert_eq!(entries.seen, all);

    // The entries come before the indexes are checked.
    let mut entries = Entries { seen: vec![], refuse_after: 9 };
    assert_eq!(dict_column(&dict, &[0x24, 0x03], 5).visit_dictionary_with(&mut entries), Err(Error::CorruptDictIndex));
    assert_eq!(entries.seen, all);

    let mut entries = Entries { seen: vec![], refuse_after: 1 };
    assert_eq!(dict_column(&dict, &[0x24, 0x03], 5).visit_dictionary_with(&mut entries), Err(Error::WriterClosed));
    assert_eq!(entries.seen, all[..1].to_vec());

    let mut entries = Entries { seen: vec![], refuse_after: 0 };
    let constant = Value::String(b"alpha".to_vec());
    let column = EncodedColumn::new(&DataType::Utf8, ENCODING_CONST, false, &[], &constant, &[], 0, &[], 0, 1);
    assert_eq!(column.visit_dictionary_with(&mut entries), Ok(false));
    assert!(entries.seen.is_empty());
}

// ---------------------------------------------------------------- files

fn field(name: &str, data_type: DataType) -> FieldSpec {
    FieldSpec { name: name.to_string(), data_type, nullable: false }
}

fn three_fields() -> Vec<FieldSpec> {
    vec![field("c", DataType::Int32), field("a", DataType::Utf8), field("b", DataType::Int64)]
}

fn three_columns(rows: usize) -> Vec<Column> {
    let column = |values: ColumnValues| Column { values, nulls: vec![false; rows] };
    vec![
        column(ColumnValues::Int32((0..rows as i32).collect())),
        column(ColumnValues::Utf8((0..rows).map(|i| vec![b'a' + (i % 3) as u8]).collect())),
        column(ColumnValues::Int64(vec![5; rows])),
    ]
}

fn written(fields: &Vec<FieldSpec>, columns: Vec<Column>, rows: usize, options: WriterOptions) -> Vec<u8> {
    let mut writer = MosaicWriter::new(MemoryFile::new(vec![]), fields, b"schema".to_vec(), options).unwrap();
    let batch = ColumnBatch {
        fields: fields.iter().map(|f| FieldSpec { name: f.name.clone(), data_type: f.data_type.clone(), nullable: f.nullable }).collect(),
        columns,
        num_rows: rows,
    };
    writer.write_batch(&batch).unwrap();
    writer.close().unwrap();
    writer.output().bytes.clone()
}

fn opened(data: Vec<u8>, fields: &Vec<FieldSpec>, num_buckets: usize) -> MosaicReader<MemoryFile> {
    let len = data.len() as u64;
    let (schema, _) = MosaicSchema::from_fields(fields, num_buckets).unwrap();
    MosaicReader::open(MemoryFile::new(data), len, schema).unwrap()
}

fn told(info: &PageInfo) -> String {
    format!("{} {} {:?} {}", info.column_index, info.bucket, info.encoding, info.slot_size)
}

#[test]
fn pages_of_some_columns_are_those_of_all() {
    for threshold in [1, 1 << 30] {
        let options = WriterOptions { compression: COMPRESSION_ZSTD, num_buckets: 2, page_size_threshold: threshold, ..Default::default() };
        let fields = three_fields();
        let reader = opened(written(&fields, three_columns(500), 500, options), &fields, 2);
        let all = reader.page_infos(0).unwrap();
        assert_eq!(all.len(), 3);
        let some = reader.page_infos_projected(0, &[2, 0, 2]).unwrap();
        let expected: Vec<String> = vec![told(&all[0]), told(&all[2])];
        assert_eq!(some.iter().map(told).collect::<Vec<String>>(), expected);
        let sizes = reader.slot_sizes(0).unwrap();
        assert_eq!(sizes, all.iter().map(|info| info.slot_size).collect::<Vec<usize>>());
        assert_eq!(threshold == 1, sizes.iter().all(|size| *size > 0));
        assert!(threshold == 1 || sizes.iter().all(|size| *size == 0));
    }
}

struct Columns {
    seen: Vec<(String, DataType, bool, usize)>,
    refuse: bool,
}

impl ColumnVisitor for Columns {
    fn visit(&mut self, name: &str, data_type: &DataType, nullable: bool, column: EncodedColumn<'_>) -> Result<(), Error> {
        if self.refuse {
            return Err(Error::WriterClosed);
        }
        self.seen.push((name.to_string(), data_type.clone(), nullable, column.num_rows()));
        Ok(())
    }
}

#[test]
fn visitors_get_each_column_once() {
    let options = WriterOptions { compression: COMPRESSION_NONE, num_buckets: 2, page_size_threshold: 1 << 30, ..Default::default() };
    let fields = three_fields();
    let reader = opened(written(&fields, three_columns(4), 4, options), &fields, 2);
    let group = reader.row_group_reader(0).unwrap();
    let mut columns = Columns { seen: vec![], refuse: false };
    assert_eq!(group.visit_encoded_columns_with(&mut columns), Ok(()));
    let expected: Vec<(String, DataType, bool, usize)> = group
        .visit_order()
        .into_iter()
        .map(|at| {
            let column = &group.schema().columns[at];
            (column.name.clone(), column.data_type.clone(), false, 4)
        })
        .collect();
    assert_eq!(expected.len(), 3);
    assert_eq!(columns.seen, expected);
    let mut columns = Columns { seen: vec![], refuse: true };
    assert_eq!(group.visit_encoded_columns_with(&mut columns), Err(Error::WriterClosed));
}

#[test]
fn what_compresses_very_well_reads_back() {
    let zeros = vec![0u8; 8 << 20];
    let block = compress_zstd(&zeros, 3, SizeField::BucketUncompressedSize).unwrap();
    assert!(zeros.len() <= 32_768 * block.len());
    assert_eq!(decompress_zstd(&block, zeros.len()), Ok(zeros));

    let rows = 3_000;
    let fields = vec![field("text", DataType::Utf8)];
    let mut values = vec![vec![b'z'; 1_000]; rows];
    values[0][0] = b'a';
    for threshold in [1, 1 << 30] {
        let options = WriterOptions { compression: COMPRESSION_ZSTD, num_buckets: 1, page_size_threshold: threshold, max_dict_entries: 0, ..Default::default() };
        let column = Column { values: ColumnValues::Utf8(values.clone()), nulls: vec![false; rows] };
        let data = written(&fields, vec![column], rows, options);
        assert!(data.len() < 100_000);
        let reader = opened(data, &fields, 1);
        let batch = reader.row_group_reader(0).unwrap().read_columns().unwrap();
        assert_eq!(batch.columns[0].values, ColumnValues::Utf8(values.clone()));
    }
}

#[test]
fn wrong_numbers_are_invalid_input() {
    let options = WriterOptions { compression: COMPRESSION_NONE, num_buckets: 1, ..Default::default() };
    let fields = three_fields();
    let reader = opened(written(&fields, three_columns(4), 4, options), &fields, 1);
    assert_eq!(reader.page_infos(1).unwrap_err().kind(), ErrorKind::InvalidInput);
    assert_eq!(reader.slot_sizes(1).unwrap_err().kind(), ErrorKind::InvalidInput);
    assert_eq!(reader.dictionary(0, 3).unwrap_err().kind(), ErrorKind::InvalidInput);
    assert_eq!(reader.row_group_reader(1).err().unwrap().kind(), ErrorKind::InvalidInput);
    assert_eq!(reader.row_group_reader_projected(0, &[0, 3]).err().unwrap().kind(), ErrorKind::InvalidInput);
}

// ---------------------------------------------------------------- messages

#[test]
fn messages_tell_columns_and_types() {
    let typed = Error::ColumnTypeMismatch { name: "a".to_string(), expected_type: DataType::Decimal128(10, -2), actual_type: DataType::Utf8 };
    assert_eq!(typed.message(), "column 'a' type mismatch: expected Decimal128(10, -2), got Utf8");
    let nulls = Error::UnexpectedNulls { name: "a".to_string(), nulls: 12 };
    assert_eq!(nulls.message(), "non-nullable column 'a' has 12 nulls in batch");
    assert_eq!(Error::TruncatedDictIndexes.message(), "truncated dict indexes");
    let block = Error::BlockTooLarge { field: SizeField::PageUncompressedSize, size: 1_073_741_825 };
    assert_eq!(
        block.message(),
        "page uncompressed size (1073741825) exceeds max zstd decompressed block size (1073741824)"
    );
    let decimal = Error::DecimalOverPrecision { precision: 3, scale: 1 };
    assert_eq!(decimal.message(), "decimal value exceeds declared precision 3 for Decimal128(3, 1)");
    assert_eq!(Error::UnsupportedColumnEncoding { code: 9 }.message(), "unsupported column encoding Other(9)");
    let time = Error::EncodedTypeMismatch { data_type: DataType::Timestamp(TimeUnit::Microsecond, None) };
    assert_eq!(time.message(), "encoded value does not match column type Timestamp(Microsecond, None)");
}

fn label(name: &str, nullable: bool) -> FieldLabel {
    FieldLabel { name: name.to_string(), nullable, metadata: String::new() }
}

fn list_of(data_type: DataType, item: FieldLabel) -> DataType {
    DataType::ListOf(Box::new(data_type), item)
}

#[test]
fn messages_tell_types_as_arrow_does() {
    let told = |data_type: DataType| Error::StatsTypeUnsupported { name: "m".to_string(), data_type }.message();
    let expected = |arrow: ArrowType| format!("stats_columns: column 'm' has unsupported type {:?} for statistics", arrow);
    let zoned = DataType::Timestamp(TimeUnit::Millisecond, Some("UTC".to_string()));
    assert_eq!(told(zoned), expected(ArrowType::Timestamp(ArrowUnit::Millisecond, Some("UTC".into()))));
    let unzoned = DataType::Timestamp(TimeUnit::Nanosecond, None);
    assert_eq!(told(unzoned), expected(ArrowType::Timestamp(ArrowUnit::Nanosecond, None)));

    let times = ArrowType::Time32(ArrowUnit::Millisecond);
    let plain = ArrowType::List(Arc::new(Field::new("item", times.clone(), true)));
    assert_eq!(told(list_of(DataType::Time32, label("item", true))), expected(plain.clone()));
    let named = ArrowType::List(Arc::new(Field::new("element", times.clone(), false)));
    assert_eq!(told(list_of(DataType::Time32, label("element", false))), expected(named));
    let described = Field::new("item", times, true).with_metadata(HashMap::from([("k".to_string(), "v".to_string())]));
    let item = FieldLabel { metadata: "{\"k\": \"v\"}".to_string(), ..label("item", true) };
    assert_eq!(told(list_of(DataType::Time32, item)), expected(ArrowType::List(Arc::new(described))));

    let labels = MapLabel { entries: label("entries", false), key: label("key", false), value: label("value", true), sorted: true };
    let map = DataType::MapOf(Box::new(DataType::Utf8), Box::new(list_of(DataType::Time32, label("item", true))), labels);
    let pair = vec![Field::new("key", ArrowType::Utf8, false), Field::new("value", plain, true)];
    let entries = Field::new("entries", ArrowType::Struct(pair.into()), false);
    assert_eq!(told(map), expected(ArrowType::Map(Arc::new(entries), true)));

    let legacy = DataType::LegacyTimestampNanos(label("millis", false), label("nanos", true));
    let parts = vec![Field::new("millis", ArrowType::Int64, false), Field::new("nanos", ArrowType::Int32, true)];
    assert_eq!(told(legacy), expected(ArrowType::Struct(parts.into())));
}

#[test]
fn messages_tell_what_is_wrong_with_texts() {
    for bytes in [&b"\xff"[..], b"ab\xe2\x28", b"ab\xe2\x82", b"\xf0\x9f\x98"] {
        let fault = std::str::from_utf8(bytes).unwrap_err();
        let (valid_up_to, error_len) = (fault.valid_up_to(), fault.error_len());
        let value = Error::InvalidUtf8Value { valid_up_to, error_len };
        assert_eq!(value.message(), format!("invalid UTF-8 column value: {}", fault));
        let answer = Error::JavaDoubleNotUtf8 { valid_up_to, error_len };
        assert_eq!(answer.message(), format!("Java returned non-UTF-8 DOUBLE text: {}", fault));
    }
    for rendered in ["", "x", "1.0.0", " 1"] {
        let fault = rendered.parse::<f64>().unwrap_err();
        let answer = Error::JavaDoubleInvalid { rendered: rendered.to_string() };
        assert_eq!(answer.message(), format!("Java returned invalid DOUBLE text '{}': {}", rendered, fault));
    }
    let rendering = "0.0".to_string();
    assert_eq!(Error::InvalidDoubleText { rendering }.message(), "invalid finite double rendering '0.0'");
}
