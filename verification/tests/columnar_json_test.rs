use std::collections::BTreeSet;
use std::mem::size_of;

use mosaic_core::column::{Column, ColumnValues};
use mosaic_core::columnar_json::{
    check_row_count, has_supported_structure, prepare_encoded, OutputBudget, MAX_COLUMNAR_JSON_ROWS, MAX_UNCOMPRESSED_JSON_BYTES,
};
use mosaic_core::error::{Error, ErrorKind};
use mosaic_core::format::{COMPRESSION_NONE, ENCODING_DICT};
use mosaic_core::json_columns::{checked_estimated_bytes, integer_value_matches};
use mosaic_core::json_doubles::{
    can_format_double_in_rust, prepare_double_value, write_double, write_exact_double, EncodedJsonPlan, EncodedJsonPreflight,
    MAX_DISTINCT_JAVA_DOUBLE_VALUES,
};
use mosaic_core::json_repeat::{
    append_nullable_const_block, write_nullable_repeated_rows, write_repeated_value, write_utf8_constant, NULLABLE_CONST_CACHE_BYTES,
    NULLABLE_CONST_PATTERN_COUNT,
};
use mosaic_core::json_text::{
    decode_signed_i128, escaped_utf8_len, is_oversized_escaped_utf8, write_decimal, write_escaped_utf8, REPEATED_VALUE_BUFFER_BYTES,
};
use mosaic_core::json_writer::write_encoded_value;
use mosaic_core::output::{MemoryFile, OutputFile};
use mosaic_core::reader::{Encoding, MosaicReader};
use mosaic_core::schema::{FieldSpec, MosaicSchema};
use mosaic_core::types::DataType;
use mosaic_core::values::EncodedValueRef;
use mosaic_core::writer::{MosaicWriter, WriterOptions};
use mosaic_core::row_group_reader::ColumnBatch;

struct TrackingWriter {
    output: Vec<u8>,
    max_write: usize,
}

impl TrackingWriter {
    fn new() -> Self {
        TrackingWriter { output: Vec::new(), max_write: 0 }
    }
}

impl OutputFile for TrackingWriter {
    fn write(&mut self, data: &[u8]) -> Result<(), Error> {
        self.output.extend_from_slice(data);
        self.max_write = self.max_write.max(data.len());
        Ok(())
    }

    fn flush(&mut self) -> Result<(), Error> {
        Ok(())
    }

    fn pos(&self) -> u64 {
        self.output.len() as u64
    }
}

fn field(name: &str, data_type: DataType) -> FieldSpec {
    FieldSpec { name: name.to_string(), data_type, nullable: false }
}

fn column(values: ColumnValues, rows: usize) -> Column {
    Column { values, nulls: vec![false; rows] }
}

fn int_and_bool_fields() -> Vec<FieldSpec> {
    vec![field("a", DataType::Int32), field("z", DataType::Boolean)]
}

fn double_and_int_fields() -> Vec<FieldSpec> {
    vec![field("a", DataType::Float64), field("z", DataType::Int32)]
}

fn written_file(make_fields: fn() -> Vec<FieldSpec>, columns: Vec<Column>, rows: usize, num_buckets: usize) -> Vec<u8> {
    let options = WriterOptions { compression: COMPRESSION_NONE, num_buckets, ..Default::default() };
    let mut writer = MosaicWriter::new(MemoryFile::new(Vec::new()), &make_fields(), b"schema".to_vec(), options).unwrap();
    let batch = ColumnBatch { fields: make_fields(), columns, num_rows: rows };
    writer.write_batch(&batch).unwrap();
    writer.close().unwrap();
    writer.output().bytes.clone()
}

fn open_file(data: Vec<u8>, make_fields: fn() -> Vec<FieldSpec>, num_buckets: usize) -> MosaicReader<MemoryFile> {
    let (schema, _) = MosaicSchema::from_fields(&make_fields(), num_buckets).unwrap();
    let len = data.len() as u64;
    MosaicReader::open(MemoryFile::new(data), len, schema).unwrap()
}

fn int_and_bool_file() -> Vec<u8> {
    written_file(
        int_and_bool_fields,
        vec![
            column(ColumnValues::Int32(vec![1, 2, 3, 1, 2, 3, 1, 2]), 8),
            column(ColumnValues::Boolean(vec![true, false, true, false, true, false, true, false]), 8),
        ],
        8,
        1,
    )
}

fn shortest_text(value: f64) -> String {
    ryu::Buffer::new().format_finite(value).to_string()
}

fn plan_for(values: &[f64]) -> EncodedJsonPlan {
    let mut bits: Vec<u64> = values.iter().map(|value| value.to_bits()).collect();
    bits.sort_unstable();
    bits.dedup();
    let texts = bits.iter().map(|bits| shortest_text(f64::from_bits(*bits))).collect();
    EncodedJsonPreflight::new(vec![], bits).complete(vec![], &[], texts).unwrap()
}

fn parsed(text: &[u8]) -> Option<u64> {
    let text = std::str::from_utf8(text).ok()?;
    text.parse::<f64>().ok().map(f64::to_bits)
}

fn empty_cache() -> Vec<Option<Vec<u8>>> {
    (0..NULLABLE_CONST_PATTERN_COUNT).map(|_| None).collect()
}

#[test]
fn validates_integer_value_type_exactly() {
    assert!(integer_value_matches(&DataType::Int16, EncodedValueRef::Int16(0)));
    assert!(!integer_value_matches(&DataType::Int16, EncodedValueRef::Int32(0)));
    assert!(!integer_value_matches(&DataType::Int32, EncodedValueRef::Int16(0)));
}

#[test]
fn rejects_row_count_above_budget() {
    assert!(check_row_count(MAX_COLUMNAR_JSON_ROWS).is_ok());
    let error = check_row_count(MAX_COLUMNAR_JSON_ROWS + 1).unwrap_err();
    assert_eq!(error.kind(), ErrorKind::Unsupported);
    assert!(error.message().contains("row budget"));
}

#[test]
fn rejects_output_above_byte_budget() {
    let mut budget = OutputBudget::new();
    budget.add(MAX_UNCOMPRESSED_JSON_BYTES - 2).unwrap();
    assert_eq!(budget.remaining(), 0);

    let error = budget.add(1).unwrap_err();
    assert_eq!(error.kind(), ErrorKind::Unsupported);
    assert!(error.message().contains("output budget"));
    assert_eq!(budget.remaining(), 0);
}

#[test]
fn accounts_for_complete_column_structure() {
    let mut budget = OutputBudget::new();
    budget.add_column_structure("a\"", 0, 3).unwrap();
    budget.add_column_structure("b", 1, 1).unwrap();
    assert_eq!(budget.estimated_bytes, 19);
}

#[test]
fn checks_column_support_without_scanning_values() {
    assert!(has_supported_structure(&DataType::Int32, Encoding::Plain));
    assert!(has_supported_structure(&DataType::Boolean, Encoding::AllNull));
    assert!(!has_supported_structure(&DataType::Boolean, Encoding::Dict));
    assert!(!has_supported_structure(&DataType::Utf8, Encoding::Other(99)));
}

#[test]
fn reports_corrupt_supported_column_before_later_unsupported_column() {
    let mut data = int_and_bool_file();
    assert_eq!(data[0] & 0x03, ENCODING_DICT);
    assert_eq!(data[2], 3);
    // Header bytes: encoding/null flags, both dictionaries, then the first column's indexes.
    // A two-bit dictionary index of 3 is outside the valid 0..3 range.
    data[18] = (data[18] & !0x03) | 0x03;

    let reader = open_file(data, int_and_bool_fields, 1);
    let row_group = reader.row_group_reader(0).unwrap();
    let error = match prepare_encoded(&row_group) {
        Ok(_) => panic!("corrupt dictionary index was accepted as normal fallback"),
        Err(error) => error,
    };
    assert_eq!(error.kind(), ErrorKind::InvalidData);
    assert!(error.message().contains("corrupt dict index"));
}

#[test]
fn reports_corrupt_supported_column_after_earlier_unsupported_column() {
    let mut data = int_and_bool_file();
    let mut baseline = open_file(data.clone(), int_and_bool_fields, 1);
    baseline.project(&["z", "a"]).unwrap();
    let baseline_row_group = baseline.row_group_reader(0).unwrap();
    assert!(prepare_encoded(&baseline_row_group).unwrap().is_none());

    assert_eq!(data[0] & 0x03, ENCODING_DICT);
    assert_eq!(data[2], 3);
    data[18] = (data[18] & !0x03) | 0x03;

    let mut reader = open_file(data, int_and_bool_fields, 1);
    reader.project(&["z", "a"]).unwrap();
    let row_group = reader.row_group_reader(0).unwrap();
    let error = match prepare_encoded(&row_group) {
        Ok(_) => panic!("corrupt dictionary index was accepted as normal fallback"),
        Err(error) => error,
    };
    assert_eq!(error.kind(), ErrorKind::InvalidData);
    assert!(error.message().contains("corrupt dict index"));
}

#[test]
fn reports_corrupt_column_after_double_cardinality_fallback() {
    let row_count = MAX_DISTINCT_JAVA_DOUBLE_VALUES + 1;
    let mut data = written_file(
        double_and_int_fields,
        vec![
            column(ColumnValues::Float64((1..=row_count as u64).collect()), row_count),
            column(ColumnValues::Int32((0..row_count).map(|row| (row % 3 + 1) as i32).collect()), row_count),
        ],
        row_count,
        2,
    );
    let reader = open_file(data.clone(), double_and_int_fields, 2);
    let buckets = reader.bucket_infos(0).unwrap();
    assert_eq!(buckets.len(), 2);
    assert_eq!(buckets[0].columns, vec![0]);
    assert_eq!(buckets[1].columns, vec![1]);
    let baseline_row_group = reader.row_group_reader(0).unwrap();
    assert!(prepare_encoded(&baseline_row_group).unwrap().is_none());

    let int_bucket_start = buckets[0].size;
    assert_eq!(data[int_bucket_start] & 0x03, ENCODING_DICT);
    assert_eq!(data[int_bucket_start + 2], 3);
    // Single-column bucket: two header bytes, one-byte dictionary size, three i32 values.
    let int_indexes_start = int_bucket_start + 2 + 1 + 3 * size_of::<i32>();
    data[int_indexes_start] = (data[int_indexes_start] & !0x03) | 0x03;

    let reader = open_file(data, double_and_int_fields, 2);
    let row_group = reader.row_group_reader(0).unwrap();
    let error = match prepare_encoded(&row_group) {
        Ok(_) => panic!("corrupt dictionary index was accepted after DOUBLE fallback"),
        Err(error) => error,
    };
    assert_eq!(error.kind(), ErrorKind::InvalidData);
    assert!(error.message().contains("corrupt dict index"));
}

#[test]
fn rejects_value_estimate_overflow() {
    let error = checked_estimated_bytes(usize::MAX, 2, usize::MAX).unwrap_err();
    assert_eq!(error.kind(), ErrorKind::Unsupported);
    assert!(error.message().contains("output budget"));
}

#[test]
fn writes_nullable_const_bitmap_block() {
    let mut output = Vec::new();
    append_nullable_const_block(&mut output, b"-7", 0b1001_1010, 8, true);
    assert_eq!(output, b",-7,,-7,-7,,,-7");

    output.clear();
    append_nullable_const_block(&mut output, b"x", 0b0000_0101, 3, false);
    assert_eq!(output, b",x,,x");
}

#[test]
fn oversized_repeated_values_use_bounded_writes_and_buffer() {
    let value = vec![b'x'; REPEATED_VALUE_BUFFER_BYTES + 17];
    let mut output = TrackingWriter::new();
    let mut repeated_buffer = Vec::new();

    write_repeated_value(&mut output, &value, 3, &mut repeated_buffer).unwrap();

    let mut expected = value.clone();
    expected.push(b',');
    expected.extend_from_slice(&value);
    expected.push(b',');
    expected.extend_from_slice(&value);
    assert_eq!(output.output, expected);
    assert!(output.max_write <= REPEATED_VALUE_BUFFER_BYTES);
    assert!(repeated_buffer.len() <= REPEATED_VALUE_BUFFER_BYTES);
}

#[test]
fn large_nullable_constants_use_bounded_writes_and_scratch() {
    let value = vec![b'x'; REPEATED_VALUE_BUFFER_BYTES / 4 + 17];
    let null_bitmap = [0b0001_0010u8];
    let mut output = TrackingWriter::new();
    let mut block_cache = empty_cache();
    let mut cache_bytes = 0;
    let mut scratch = Vec::new();

    write_nullable_repeated_rows(&mut output, &value, 8, &null_bitmap, &mut block_cache, &mut cache_bytes, &mut scratch).unwrap();

    let mut expected = Vec::new();
    for row in 0..8 {
        if row > 0 {
            expected.push(b',');
        }
        if null_bitmap[0] & (1 << row) == 0 {
            expected.extend_from_slice(&value);
        }
    }
    assert_eq!(output.output, expected);
    assert!(output.max_write <= REPEATED_VALUE_BUFFER_BYTES);
    assert!(scratch.len() <= REPEATED_VALUE_BUFFER_BYTES);
    assert_eq!(cache_bytes, 0);
}

#[test]
fn nullable_const_cache_stays_within_its_total_budget() {
    let value = vec![b'x'; 511];
    let null_bitmap = (0u8..=u8::MAX).collect::<Vec<_>>();
    let row_count = null_bitmap.len() * 8;
    let mut output = TrackingWriter::new();
    let mut block_cache = empty_cache();
    let mut cache_bytes = 0;
    let mut scratch = Vec::new();

    write_nullable_repeated_rows(&mut output, &value, row_count, &null_bitmap, &mut block_cache, &mut cache_bytes, &mut scratch)
        .unwrap();

    let mut expected = Vec::new();
    for row in 0..row_count {
        if row > 0 {
            expected.push(b',');
        }
        if null_bitmap[row / 8] & (1 << (row % 8)) == 0 {
            expected.extend_from_slice(&value);
        }
    }
    let retained_cache_bytes: usize = block_cache.iter().filter_map(|block| block.as_ref()).map(Vec::len).sum();
    assert_eq!(output.output, expected);
    assert_eq!(cache_bytes, retained_cache_bytes);
    assert!(cache_bytes <= NULLABLE_CONST_CACHE_BYTES);
    assert!(scratch.len() <= REPEATED_VALUE_BUFFER_BYTES);
}

#[test]
fn oversized_utf8_constants_stream_without_staging() {
    let mut value = vec![b'x'; REPEATED_VALUE_BUFFER_BYTES + 17];
    value[1] = b'"';
    value[2] = b'\\';
    value[3] = b'\n';
    value[4] = 0x01;
    let null_bitmap = [0b0000_0010u8];
    let mut output = TrackingWriter::new();
    let mut value_buffer = b"value sentinel".to_vec();
    let mut repeated_buffer = b"repeated sentinel".to_vec();
    let mut block_cache = empty_cache();
    let mut cache_bytes = 0;

    write_utf8_constant(
        &mut output,
        &value,
        3,
        Some(&null_bitmap),
        &mut value_buffer,
        &mut repeated_buffer,
        &mut block_cache,
        &mut cache_bytes,
    )
    .unwrap();

    let mut escaped = Vec::new();
    write_escaped_utf8(&mut escaped, &value).unwrap();
    let mut expected = escaped.clone();
    expected.extend_from_slice(b",,");
    expected.extend_from_slice(&escaped);
    assert_eq!(output.output, expected);
    assert!(output.max_write <= REPEATED_VALUE_BUFFER_BYTES);
    assert_eq!(value_buffer, b"value sentinel");
    assert_eq!(repeated_buffer, b"repeated sentinel");
}

#[test]
fn oversized_plain_or_dict_utf8_values_use_bounded_writes() {
    let mut value = vec![b'x'; REPEATED_VALUE_BUFFER_BYTES + 17];
    value[1] = b'"';
    value[2] = b'\\';
    value[3] = b'\n';
    value[4] = 0x01;
    let mut output = TrackingWriter::new();

    write_encoded_value(&mut output, &DataType::Utf8, EncodedValueRef::Utf8(&value), false, &EncodedJsonPlan::default()).unwrap();

    let mut expected = Vec::new();
    write_escaped_utf8(&mut expected, &value).unwrap();
    assert_eq!(output.output, expected);
    assert!(output.max_write <= REPEATED_VALUE_BUFFER_BYTES);
}

#[test]
fn escaped_size_selects_streaming_at_the_buffer_limit() {
    let safe = vec![b'x'; REPEATED_VALUE_BUFFER_BYTES - 1];
    assert!(!is_oversized_escaped_utf8(&safe).unwrap());

    let mut escaped_to_limit = safe;
    escaped_to_limit[0] = b'"';
    assert!(is_oversized_escaped_utf8(&escaped_to_limit).unwrap());
}

#[test]
fn writes_java_style_fallback_doubles() {
    let values = [1.25, 0.0001, 10_000_000.0, 429_496_729.5, 1_812_576.4000000001];
    let plan = plan_for(&values);
    let mut output = Vec::new();
    for (index, value) in values.into_iter().enumerate() {
        write_double(&mut output, value.to_bits(), index > 0, &plan).unwrap();
    }
    assert_eq!(output, b"1.25,1.0E-4,1.0E7,4.294967295E8,1812576.4000000001");
}

#[test]
fn identifies_doubles_formatted_in_rust() {
    assert!(can_format_double_in_rust(0.0f64.to_bits()));
    assert!(can_format_double_in_rust((-0.0f64).to_bits()));
    assert!(can_format_double_in_rust(1.0e-6f64.to_bits()));
    assert!(can_format_double_in_rust(1.0e9f64.to_bits()));
    assert!(!can_format_double_in_rust(f64::MIN_POSITIVE.to_bits()));
    assert!(!can_format_double_in_rust(f64::INFINITY.to_bits()));
    assert!(!can_format_double_in_rust(f64::NAN.to_bits()));
}

#[test]
fn writes_java_supplied_double_text_exactly() {
    let value = f64::from_bits(0x3d20_0000_0000_0000);
    let text = b"2.8421709430404007E-14".to_vec();
    let known = parsed(&text);
    let plan = EncodedJsonPreflight::new(vec![value.to_bits()], vec![]).complete(vec![text], &[known], vec![]).unwrap();

    let mut output = Vec::new();
    write_exact_double(&mut output, value.to_bits(), true, &plan).unwrap();
    assert_eq!(output, b",2.8421709430404007E-14");
}

#[test]
fn rejects_java_double_text_for_a_different_value() {
    let value = f64::from_bits(0x3d20_0000_0000_0000);
    let preflight = EncodedJsonPreflight::new(vec![value.to_bits()], vec![]);
    let error = match preflight.complete(vec![b"1.0".to_vec()], &[parsed(b"1.0")], vec![]) {
        Ok(_) => panic!("mismatched Java DOUBLE text was accepted"),
        Err(error) => error,
    };
    assert_eq!(error.kind(), ErrorKind::InvalidData);
    assert!(error.message().contains("does not round-trip"));
}

#[test]
fn bounds_java_formatted_double_cardinality() {
    let mut values = BTreeSet::new();
    for bits in 1..=MAX_DISTINCT_JAVA_DOUBLE_VALUES as u64 {
        assert!(prepare_double_value(bits, &mut values).unwrap());
    }
    let error = prepare_double_value(MAX_DISTINCT_JAVA_DOUBLE_VALUES as u64 + 1, &mut values).unwrap_err();
    assert_eq!(error.kind(), ErrorKind::Unsupported);
    assert!(error.message().contains("Java-formatted DOUBLE"));
}

#[test]
fn writes_decimal_plain_strings_for_all_scales() {
    let mut output = Vec::new();
    write_decimal(&mut output, 12_340, 3, false).unwrap();
    write_decimal(&mut output, -5, 3, true).unwrap();
    write_decimal(&mut output, 123, -2, true).unwrap();
    write_decimal(&mut output, 0, -2, true).unwrap();
    write_decimal(&mut output, 0, 3, true).unwrap();
    assert_eq!(output, b"12.340,-0.005,12300,0,0.000");
}

#[test]
fn decodes_signed_big_endian_decimal_values() {
    assert_eq!(decode_signed_i128(&[0xff]).unwrap(), -1);
    assert_eq!(decode_signed_i128(&[0x00, 0x80]).unwrap(), 128);
    assert_eq!(decode_signed_i128(&i128::MIN.to_be_bytes()).unwrap(), i128::MIN);
    assert!(decode_signed_i128(&[]).is_err());
    assert!(decode_signed_i128(&[0; 17]).is_err());
}

#[test]
fn escaped_length_matches_written_bytes() {
    let value = b"a\"\\\n\t\x01z";
    let mut output = Vec::new();
    write_escaped_utf8(&mut output, value).unwrap();
    assert_eq!(escaped_utf8_len(value).unwrap(), output.len());
    assert_eq!(output, br#"a\"\\\n\t\u0001z"#);
}
