use mosaic_core::bucket_reader::{BucketReader, ColumnPageReader};
use mosaic_core::bucket_writer::{BucketWriter, ChildColumnRole};
use mosaic_core::column::{check_element, write_typed_value, Column, ColumnValues};
use mosaic_core::encoded_column::EncodedColumn;
use mosaic_core::error::{Error, PagePart};
use mosaic_core::format::{ENCODING_CONST, ENCODING_DICT, ENCODING_PLAIN};
use mosaic_core::paged::{build_directory, parse_simple_column_slot, Directory};
use mosaic_core::reassemble::reassemble_list_columns_pub;
use mosaic_core::types::{DataType, FieldLabel, MapLabel, TimeUnit};
use mosaic_core::values::{encoded_value_ref, read_encoded_value, read_value, EncodedValueRef, Value};

fn full(values: ColumnValues, rows: usize) -> Column {
    Column { values, nulls: vec![false; rows] }
}

fn ints(values: Vec<i32>) -> Column {
    let rows = values.len();
    full(ColumnValues::Int32(values), rows)
}

fn texts(values: &[&str]) -> Column {
    full(ColumnValues::Utf8(values.iter().map(|text| text.as_bytes().to_vec()).collect()), values.len())
}

fn label(name: &str, nullable: bool) -> FieldLabel {
    FieldLabel { name: name.to_string(), nullable, metadata: String::new() }
}

fn list_of(data_type: DataType) -> DataType {
    DataType::ListOf(Box::new(data_type), label("item", true))
}

fn map_of(key: DataType, value: DataType) -> DataType {
    let labels =
        MapLabel { entries: label("entries", false), key: label("key", false), value: label("value", true), sorted: false };
    DataType::MapOf(Box::new(key), Box::new(value), labels)
}

fn lists(offsets: Vec<usize>, nulls: Vec<bool>, values: Column) -> Column {
    Column { values: ColumnValues::ListOf { offsets, values: Box::new(values) }, nulls }
}

fn maps(offsets: Vec<usize>, nulls: Vec<bool>, keys: Column, values: Column) -> Column {
    Column { values: ColumnValues::MapOf { offsets, keys: Box::new(keys), values: Box::new(values) }, nulls }
}

fn legacy(millis: i64, nanos: i32, child_null: bool) -> Column {
    let values = ColumnValues::LegacyTimestampNanos { millis: vec![millis], nanos: vec![nanos], child_nulls: vec![child_null] };
    full(values, 1)
}

fn written(data_type: &DataType, column: &Column) -> Result<BucketWriter, Error> {
    let mut writer = BucketWriter::new(&[data_type], 32_768, 255);
    writer.write_columns(&[column], &[data_type])?;
    Ok(writer)
}

fn read_back(data_type: DataType, column: &Column) -> Column {
    let writer = written(&data_type, column).unwrap();
    let reader = BucketReader::new(vec![data_type], writer.finish(), column.nulls.len()).unwrap();
    reader.read_all_columns().unwrap().remove(0)
}

#[test]
fn values_are_written_and_read() {
    let cases = vec![
        (DataType::Boolean, ColumnValues::Boolean(vec![true]), vec![1], Value::Boolean(true)),
        (DataType::Int8, ColumnValues::Int8(vec![-2]), vec![254], Value::TinyInt(-2)),
        (DataType::Int16, ColumnValues::Int16(vec![258]), vec![1, 2], Value::SmallInt(258)),
        (DataType::Int32, ColumnValues::Int32(vec![-1]), vec![255; 4], Value::Integer(-1)),
        (DataType::Int64, ColumnValues::Int64(vec![1]), vec![0, 0, 0, 0, 0, 0, 0, 1], Value::BigInt(1)),
        (DataType::Float32, ColumnValues::Float32(vec![1.5f32.to_bits()]), vec![63, 192, 0, 0], Value::Float(0x3fc0_0000)),
        (
            DataType::Float64,
            ColumnValues::Float64(vec![(-0.0f64).to_bits()]),
            vec![128, 0, 0, 0, 0, 0, 0, 0],
            Value::Double((-0.0f64).to_bits()),
        ),
        (DataType::Date32, ColumnValues::Date32(vec![19_000]), vec![0, 0, 74, 56], Value::Date(19_000)),
        (DataType::Time32, ColumnValues::Time32(vec![1]), vec![0, 0, 0, 1], Value::Time(1)),
        (DataType::Utf8, ColumnValues::Utf8(vec![b"hi".to_vec()]), vec![2, 104, 105], Value::String(b"hi".to_vec())),
        (DataType::Binary, ColumnValues::Binary(vec![vec![]]), vec![0], Value::Bytes(vec![])),
        (
            DataType::Decimal128(18, 2),
            ColumnValues::Decimal128(vec![-1]),
            vec![255; 8],
            Value::DecimalCompact(-1),
        ),
        (
            DataType::Decimal128(19, 2),
            ColumnValues::Decimal128(vec![128]),
            vec![2, 0, 128],
            Value::DecimalLarge(vec![0, 128]),
        ),
        (
            DataType::Timestamp(TimeUnit::Millisecond, None),
            ColumnValues::TimestampMillis(vec![2]),
            vec![0, 0, 0, 0, 0, 0, 0, 2],
            Value::TimestampMillis(2),
        ),
        (
            DataType::Timestamp(TimeUnit::Microsecond, None),
            ColumnValues::TimestampMicros(vec![3]),
            vec![0, 0, 0, 0, 0, 0, 0, 3],
            Value::TimestampMicros(3),
        ),
        (
            DataType::Timestamp(TimeUnit::Nanosecond, None),
            ColumnValues::TimestampNanos(vec![1_000_007]),
            vec![0, 0, 0, 0, 0, 0, 0, 1, 0, 0, 0, 7],
            Value::TimestampNanos { millis: 1, nanos_of_milli: 7 },
        ),
    ];
    for (data_type, values, bytes, value) in cases {
        let mut out = vec![];
        write_typed_value(&mut out, &data_type, &values, 0);
        assert_eq!(out, bytes);
        let (read, size) = read_value(&data_type, &out, 0, Error::TruncatedColumnData).unwrap();
        assert_eq!(read, value);
        assert_eq!(size, bytes.len());
        let (borrowed, size) = read_encoded_value(&data_type, &out, 0).unwrap();
        assert_eq!(Ok(borrowed), encoded_value_ref(&data_type, &value));
        assert_eq!(size, bytes.len());
        let column = full(values, 1);
        assert_eq!(read_back(data_type, &column), column);
    }
}

#[test]
fn values_that_are_cut_off_are_refused() {
    let error = |data_type: &DataType, bytes: &[u8]| read_encoded_value(data_type, bytes, 0).err();
    assert_eq!(error(&DataType::Int32, &[1, 2, 3]), Some(Error::TruncatedColumnData));
    assert_eq!(error(&DataType::Utf8, &[]), Some(Error::TruncatedValueLength));
    assert_eq!(error(&DataType::Utf8, &[3, 1, 2]), Some(Error::TruncatedValue));
    assert_eq!(error(&list_of(DataType::Int32), &[0, 0, 0, 0]), Some(Error::UnsupportedEncodedType { data_type: list_of(DataType::Int32) }));
    let bad_nanos = [0, 0, 0, 0, 0, 0, 0, 0, 0, 15, 66, 64];
    assert_eq!(
        error(&DataType::Timestamp(TimeUnit::Nanosecond, None), &bad_nanos),
        Some(Error::NanosOutOfRange { nanos: 1_000_000 })
    );
    assert_eq!(
        read_value(&DataType::Int64, &[1], 0, Error::BucketTruncated).err(),
        Some(Error::BucketTruncated)
    );
}

#[test]
fn lists_and_maps_read_back() {
    let data_type = map_of(DataType::Utf8, list_of(DataType::Int32));
    let items = ints(vec![10, 20, 30, 40]);
    let values = lists(vec![0, 2, 2, 3, 4], vec![false, false, false, false], items);
    let keys = texts(&["a", "b", "c", "d"]);
    let column = maps(vec![0, 1, 1, 4], vec![false, true, false], keys, values);
    assert_eq!(read_back(data_type, &column), column);
}

#[test]
fn items_of_null_lists_are_not_kept() {
    let column = lists(vec![0, 2, 3], vec![true, false], ints(vec![1, 2, 3]));
    let read = read_back(list_of(DataType::Int32), &column);
    assert_eq!(read, lists(vec![0, 0, 1], vec![true, false], ints(vec![3])));
}

#[test]
fn several_batches_read_back_one_behind_the_other() {
    let data_type = DataType::Utf8;
    let mut writer = BucketWriter::new(&[&data_type], 32_768, 255);
    writer.write_columns(&[&texts(&["x", "yy"])], &[&data_type]).unwrap();
    writer.write_columns(&[&texts(&["zzz"])], &[&data_type]).unwrap();
    let reader = BucketReader::new(vec![DataType::Utf8], writer.finish(), 3).unwrap();
    assert_eq!(reader.num_rows(), 3);
    assert_eq!(reader.read_all_columns(), Ok(vec![texts(&["x", "yy", "zzz"])]));
    assert_eq!(reader.encoded_column(1).err(), Some(Error::ColumnOutOfRange { column: 1, num_columns: 1 }));
}

#[test]
fn columns_of_another_type_are_refused() {
    let error = |data_type: DataType, column: &Column| written(&data_type, column).err();
    assert_eq!(error(DataType::Int64, &ints(vec![1])), Some(Error::ArrayTypeMismatch { data_type: DataType::Int64 }));
    assert_eq!(error(list_of(DataType::Int32), &ints(vec![1])), Some(Error::ExpectedListArray));
    assert_eq!(error(map_of(DataType::Int32, DataType::Int32), &ints(vec![1])), Some(Error::ExpectedMapArray));
    let nested = lists(vec![0, 1], vec![false], lists(vec![0, 1], vec![false], ints(vec![1])));
    assert_eq!(error(list_of(DataType::Int32), &nested), Some(Error::MissingChildColumn { parent: 0, length: 1, role: ChildColumnRole::ListElement }));
    let deep = Column {
        values: ColumnValues::MapOf { offsets: vec![0, 1], keys: Box::new(ints(vec![1])), values: Box::new(nested) },
        nulls: vec![false],
    };
    let missing = error(map_of(DataType::Int32, list_of(DataType::Int32)), &deep).unwrap();
    assert_eq!(missing.message(), "missing complex child column: parent=0, length=3, role=ListElement");
    let maps = Column {
        values: ColumnValues::MapOf { offsets: vec![0, 1], keys: Box::new(ints(vec![1])), values: Box::new(ints(vec![2])) },
        nulls: vec![false],
    };
    let missing = error(list_of(DataType::Int32), &lists(vec![0, 1], vec![false], maps)).unwrap();
    assert_eq!(missing.message(), "missing complex child column: parent=0, length=1, role=MapKey");
    assert_eq!(check_element(&DataType::Int32, &ints(vec![1]), &vec![0], 0, 1), Ok(()));
    assert_eq!(check_element(&DataType::Int64, &ints(vec![1]), &vec![], 0, 1), Ok(()));
}

#[test]
fn split_timestamps_are_checked() {
    let error = |column: &Column| written(&DataType::LegacyTimestampNanos(label("millis", false), label("nanos", false)), column).err();
    assert_eq!(error(&legacy(1, 2, false)), None);
    assert_eq!(error(&legacy(1, 2, true)), Some(Error::LegacyNullChild));
    assert_eq!(error(&legacy(1, 1_000_000, false)), Some(Error::InvalidLegacyNanos { nanos: 1_000_000 }));
    assert_eq!(error(&legacy(i64::MAX, 0, false)), Some(Error::LegacyTimestampOverflow));
}

#[test]
fn split_timestamps_read_back_with_both_parts() {
    let data_type = || DataType::LegacyTimestampNanos(label("millis", false), label("nanos", false));
    let read = |nulls: Vec<bool>, child_nulls: Vec<bool>| {
        let rows = nulls.len();
        let values = ColumnValues::LegacyTimestampNanos {
            millis: (0..rows as i64).collect(),
            nanos: (0..rows as i32).map(|nanos| nanos * 3).collect(),
            child_nulls,
        };
        let writer = written(&data_type(), &Column { values, nulls }).unwrap();
        let reader = BucketReader::new(vec![data_type()], writer.finish(), rows).unwrap();
        let mut columns = reader.read_all_columns().unwrap();
        match columns.remove(0).values {
            ColumnValues::LegacyTimestampNanos { millis, nanos, child_nulls } => (millis, nanos, child_nulls),
            _ => panic!("another type"),
        }
    };
    let (millis, nanos, parts) = read(vec![false, true, false], vec![false, true, false]);
    assert_eq!((millis[0], nanos[0], millis[2], nanos[2]), (0, 0, 2, 6));
    assert_eq!(parts, vec![false; 3]);
    let (_, _, parts) = read(vec![true, true], vec![true, true]);
    assert_eq!(parts.len(), 2);
}

#[test]
fn a_refused_batch_leaves_the_bucket_as_it_was() {
    let data_type = DataType::Int32;
    let mut writer = written(&data_type, &ints(vec![1, 2])).unwrap();
    let before = writer.finish();
    let wrong = texts(&["a"]);
    assert_eq!(writer.write_columns(&[&wrong], &[&data_type]), Err(Error::ArrayTypeMismatch { data_type: DataType::Int32 }));
    assert_eq!(writer.num_rows(), 2);
    assert_eq!(writer.finish(), before);
    writer.reset();
    assert!(writer.is_empty());
}

#[test]
fn lengths_have_to_account_for_the_items() {
    let data_type = list_of(DataType::Int32);
    let read = |lengths: Vec<i32>, items: Vec<i32>| {
        reassemble_list_columns_pub(vec![ints(lengths), ints(items)], &[&data_type])
    };
    assert_eq!(read(vec![1, 2], vec![7, 8, 9]), Ok(vec![lists(vec![0, 1, 3], vec![false, false], ints(vec![7, 8, 9]))]));
    assert_eq!(read(vec![1, 3], vec![7, 8, 9]), Err(Error::CorruptLengths));
    assert_eq!(read(vec![-1, 4], vec![7, 8, 9]), Err(Error::CorruptLengths));
}

#[test]
fn buckets_that_are_cut_off_are_refused() {
    let writer = written(&DataType::Utf8, &texts(&["some", "text"])).unwrap();
    let data = writer.finish();
    for len in 1..data.len() {
        assert!(BucketReader::new(vec![DataType::Utf8], data[..len].to_vec(), 2).is_err());
    }
    let empty = BucketReader::new(vec![DataType::Utf8], vec![], 2).unwrap();
    assert_eq!(empty.read_all_columns(), Err(Error::BucketTruncated));
}

fn page(encoding: u8, has_nulls: bool, data: Vec<u8>, rows: usize) -> Result<ColumnPageReader, Error> {
    ColumnPageReader::new(DataType::Int32, encoding, has_nulls, Value::Null, data, rows)
}

#[test]
fn parts_that_pages_lack_are_named() {
    let truncated = |part: PagePart| Some(Error::PageTruncated { part });
    assert_eq!(page(ENCODING_PLAIN, true, vec![], 9).err(), truncated(PagePart::NullBitmap));
    assert_eq!(page(ENCODING_PLAIN, false, vec![0; 7], 2).err(), truncated(PagePart::FixedValues));
    assert_eq!(page(ENCODING_DICT, false, vec![2, 0, 0, 0, 1, 0], 3).err(), truncated(PagePart::Value));
    assert_eq!(
        page(ENCODING_DICT, false, vec![2, 0, 0, 0, 1, 0, 0, 0, 2], 3).err(),
        truncated(PagePart::DictIndexes)
    );
    assert_eq!(page(9, false, vec![], 1).err(), Some(Error::UnsupportedPageEncoding { code: 9 }));
    let started = ColumnPageReader::new_with_page_data_start(DataType::Int32, ENCODING_PLAIN, false, Value::Null, vec![0], 2, 0);
    assert_eq!(started.err(), Some(Error::PageStartOutOfBounds));
}

#[test]
fn dictionary_pages_are_read() {
    let reader = page(ENCODING_DICT, false, vec![2, 0, 0, 0, 1, 0, 0, 0, 2, 0b101], 3).unwrap();
    assert_eq!(reader.encoding(), ENCODING_DICT);
    assert_eq!(reader.dict_values(), &[Value::Integer(1), Value::Integer(2)]);
    assert_eq!(reader.read_all(), Ok(ints(vec![2, 1, 2])));
    let out_of_range = page(ENCODING_DICT, false, vec![3, 0, 0, 0, 1, 0, 0, 0, 2, 0, 0, 0, 3, 0b1101], 2).unwrap();
    assert_eq!(out_of_range.read_all(), Err(Error::CorruptDictIndex));
}

#[test]
fn long_decimals_are_refused() {
    let mut data = vec![17];
    data.extend_from_slice(&[0; 17]);
    let reader = ColumnPageReader::new(DataType::Decimal128(38, 0), ENCODING_PLAIN, false, Value::Null, data, 1).unwrap();
    assert_eq!(reader.read_all(), Err(Error::DecimalTooLong));
}

fn dict_column<'a>(dict: &'a [Value], data: &'a [u8], rows: usize) -> EncodedColumn<'a> {
    EncodedColumn::new(&DataType::Int32, ENCODING_DICT, false, &[], &Value::Null, dict, 1, data, 0, rows)
}

#[test]
fn encoded_columns_hand_out_their_values() {
    let dict = [Value::Integer(5), Value::Integer(6)];
    let column = dict_column(&dict, &[0b10], 2);
    assert_eq!(column.dict_len(), 2);
    assert_eq!(column.dict_entry(1), Ok(EncodedValueRef::Int32(6)));
    assert_eq!(column.check_indexes(), Ok(()));
    let mut values = column.values();
    assert_eq!(values.next(), Some(Ok(EncodedValueRef::Int32(5))));
    assert_eq!(values.next(), Some(Ok(EncodedValueRef::Int32(6))));
    assert_eq!(values.next(), None);
    let constant = Value::Integer(7);
    let bitmap = [0b01];
    let column = EncodedColumn::new(&DataType::Int32, ENCODING_CONST, true, &bitmap, &constant, &[], 0, &[], 0, 2);
    assert!(column.has_nulls());
    assert!(column.is_null(0));
    assert!(!column.is_null(1));
    assert_eq!(column.constant(), Ok(Some(EncodedValueRef::Int32(7))));
    let mut values = column.values();
    assert_eq!(values.next(), Some(Ok(EncodedValueRef::Null)));
    assert_eq!(values.next(), Some(Ok(EncodedValueRef::Int32(7))));
}

#[test]
fn encoded_columns_tell_what_is_wrong() {
    let dict = [Value::Integer(5)];
    assert_eq!(dict_column(&dict, &[0b10], 2).check_indexes(), Err(Error::CorruptDictIndex));
    assert_eq!(dict_column(&dict, &[], 2).check_indexes(), Err(Error::TruncatedDictIndexes));
    let mut values = dict_column(&dict, &[], 2).values();
    assert_eq!(values.next(), Some(Err(Error::TruncatedDictIndexes)));
    assert_eq!(values.next(), None);
    let column = EncodedColumn::new(&DataType::Int32, 9, false, &[], &Value::Null, &[], 0, &[], 0, 1);
    assert_eq!(column.values().next(), Some(Err(Error::UnsupportedEncoding { code: 9 })));
}

#[test]
fn directories_read_back() {
    let bytes = build_directory(&vec![3, 4], &vec![5, 6, 7]);
    assert_eq!(bytes, vec![2, 0, 3, 0, 0, 0, 4, 0, 0, 0, 5, 0, 0, 0, 6, 0, 0, 0, 7, 0, 0, 0]);
    let directory = Directory::decode_checked(&bytes, true, 3, 0, 40).unwrap();
    assert_eq!(directory.counts, vec![3, 4]);
    assert_eq!(directory.sizes, vec![5, 6, 7]);
    assert_eq!(directory.dir_size, 22);
    let plain = build_directory(&vec![], &vec![9]);
    assert_eq!(plain, vec![9, 0, 0, 0]);
    assert_eq!(Directory::decode(&plain, false, 1).unwrap().sizes, vec![9]);
}

#[test]
fn wrong_directories_are_refused() {
    let bytes = build_directory(&vec![3, 4], &vec![5, 6, 7]);
    let error = |len: usize| Directory::decode(&bytes[..len], true, 3).err();
    assert_eq!(error(1), Some(Error::ChildHeaderTooShort));
    assert_eq!(error(9), Some(Error::ChildHeaderTruncated));
    assert_eq!(error(21), Some(Error::DirectoryTruncated));
    assert_eq!(
        Directory::decode_checked(&bytes, true, 3, 8, 41).err(),
        Some(Error::DirectoryMismatch { bucket: 8, dir_size: 22, slot_total: 18, total_size: 41 })
    );
}

#[test]
fn slots_tell_their_encoding() {
    let mut content = vec![ENCODING_CONST, 0];
    assert_eq!(parse_simple_column_slot(vec![0], &DataType::Int32, 1).err(), Some(Error::PageContentTooShort));
    assert_eq!(parse_simple_column_slot(content.clone(), &DataType::Int32, 1).err(), Some(Error::ConstValueTruncated));
    content.extend_from_slice(&[0, 0, 0, 42]);
    let reader = parse_simple_column_slot(content, &DataType::Int32, 2).unwrap();
    assert_eq!(reader.read_all(), Ok(ints(vec![42, 42])));
}

#[test]
fn buckets_of_the_same_rows_have_the_same_bytes() {
    let data_type = DataType::Int32;
    let rows: Vec<i32> = (0..500).map(|i| i % 7).collect();
    let whole = written(&data_type, &ints(rows.clone())).unwrap();
    let mut parts = written(&data_type, &ints(rows[..123].to_vec())).unwrap();
    parts.write_columns(&[&ints(rows[123..].to_vec())], &[&data_type]).unwrap();
    assert_eq!(whole.prepare().encodings(), vec![ENCODING_DICT]);
    assert_eq!(whole.finish(), parts.finish());
}
