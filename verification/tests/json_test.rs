//! Columnar JSON: the texts of whole row groups and what cannot be written.

use std::collections::BTreeSet;

use mosaic_core::column::{Column, ColumnValues};
use mosaic_core::columnar_json::{
    check_row_count, prepare_encoded, OutputBudget, MAX_COLUMNAR_JSON_ROWS, MAX_UNCOMPRESSED_JSON_BYTES,
};
use mosaic_core::encoded_column::EncodedColumn;
use mosaic_core::error::Error;
use mosaic_core::format::{ENCODING_CONST, ENCODING_PLAIN};
use mosaic_core::json_columns::{
    decode_decimal_value, estimate_integer_value_bytes, has_non_null, max_decimal_value_bytes, non_null_count, validate_decimal_column,
    validate_float64_column, validate_integer_column, validate_utf8_column,
};
use mosaic_core::json_doubles::{
    can_format_double_in_rust, prepare_double_value, sorted_bits, write_double, write_exact_double, EncodedJsonPlan,
    EncodedJsonPreflight, MAX_DISTINCT_JAVA_DOUBLE_VALUES,
};
use mosaic_core::json_repeat::{validate_null_bitmap, write_nullable_repeated_rows, write_repeated_value};
use mosaic_core::json_text::{
    decimal_digits, decode_signed_i128, escaped_utf8_len, parse_exponent, write_decimal, write_escaped_utf8, write_i64,
    write_i64_value, write_java_style_double,
};
use mosaic_core::json_writer::{write_encoded_supported, write_encoded_value};
use mosaic_core::output::MemoryFile;
use mosaic_core::reader::MosaicReader;
use mosaic_core::row_group_reader::ColumnBatch;
use mosaic_core::schema::{FieldSpec, MosaicSchema};
use mosaic_core::types::DataType;
use mosaic_core::values::{EncodedValueRef, Value};
use mosaic_core::writer::{MosaicWriter, WriterOptions};

fn no_plan() -> EncodedJsonPlan {
    EncodedJsonPreflight::new(vec![], vec![]).complete(vec![], &[], vec![]).unwrap()
}

fn text_of(write: impl FnOnce(&mut MemoryFile) -> Result<(), Error>) -> Result<String, Error> {
    let mut out = MemoryFile::new(vec![]);
    write(&mut out)?;
    Ok(String::from_utf8(out.bytes).unwrap())
}

fn plain<'a>(data_type: &'a DataType, data: &'a [u8], rows: usize) -> EncodedColumn<'a> {
    EncodedColumn::new(data_type, ENCODING_PLAIN, false, &[], &Value::Null, &[], 0, data, 0, rows)
}

fn shortest_text(bits: u64) -> String {
    ryu::Buffer::new().format_finite(f64::from_bits(bits)).to_string()
}

fn parsed(text: &[u8]) -> Option<u64> {
    std::str::from_utf8(text).ok()?.parse::<f64>().ok().map(f64::to_bits)
}

fn fields() -> Vec<FieldSpec> {
    let field = |name: &str, data_type: DataType| FieldSpec { name: name.to_string(), data_type, nullable: true };
    vec![
        field("text", DataType::Utf8),
        field("price", DataType::Decimal128(10, 2)),
        field("ratio", DataType::Float64),
        field("a\"b", DataType::Int32),
    ]
}

fn row_group_json(doubles: Vec<f64>) -> String {
    let rows = doubles.len();
    let column = |values: ColumnValues| Column { values, nulls: vec![false; rows] };
    let mut numbers = Column { values: ColumnValues::Int32(vec![7; rows]), nulls: vec![false; rows] };
    numbers.nulls[0] = true;
    let columns = vec![
        column(ColumnValues::Utf8((0..rows).map(|i| format!("r{}\n", i).into_bytes()).collect())),
        column(ColumnValues::Decimal128((0..rows as i128).map(|i| -i * 5).collect())),
        column(ColumnValues::Float64(doubles.iter().map(|value| value.to_bits()).collect())),
        numbers,
    ];
    let options = WriterOptions { num_buckets: 2, ..Default::default() };
    let mut writer = MosaicWriter::new(MemoryFile::new(vec![]), &fields(), vec![], options).unwrap();
    writer.write_batch(&ColumnBatch { fields: fields(), columns, num_rows: rows }).unwrap();
    writer.close().unwrap();
    let data = writer.output().bytes.clone();
    let (schema, _) = MosaicSchema::from_fields(&fields(), 2).unwrap();
    let len = data.len() as u64;
    let reader = MosaicReader::open(MemoryFile::new(data), len, schema).unwrap();
    let group = reader.row_group_reader(0).unwrap();
    let preflight = prepare_encoded(&group).unwrap().unwrap();
    let texts: Vec<Vec<u8>> = preflight.java_double_bits().iter().map(|bits| shortest_text(*bits).into_bytes()).collect();
    let exact = preflight.exact_double_bits().iter().map(|bits| shortest_text(*bits)).collect();
    let bits: Vec<Option<u64>> = texts.iter().map(|text| parsed(text)).collect();
    let plan = preflight.complete(texts, &bits, exact).unwrap();
    let json = text_of(|out| write_encoded_supported(&group, &plan, out)).unwrap();
    assert!(json.len() <= MAX_UNCOMPRESSED_JSON_BYTES);
    json
}

#[test]
fn row_groups_that_are_checked_can_be_written() {
    let json = row_group_json(vec![0.5, -0.0, 1e300]);
    let expected = "{\"text\":\"r0\\n,r1\\n,r2\\n\",\"price\":\"0.00,-0.05,-0.10\",\"ratio\":\"0.5,-0.0,1e300\",\"a\\\"b\":\",7,7\"}";
    assert_eq!(json, expected);
}

#[test]
fn values_have_their_texts() {
    let plan = no_plan();
    let value = |data_type: DataType, value: EncodedValueRef<'_>| {
        text_of(|out| write_encoded_value(out, &data_type, value, false, &plan))
    };
    assert_eq!(value(DataType::Int8, EncodedValueRef::Int8(-3)), Ok("-3".to_string()));
    assert_eq!(value(DataType::Utf8, EncodedValueRef::Utf8(b"a\\")), Ok("a\\\\".to_string()));
    assert_eq!(value(DataType::Int8, EncodedValueRef::Null), Ok(String::new()));
    assert_eq!(value(DataType::Int8, EncodedValueRef::Int16(1)), Err(Error::EncodedTypeMismatch { data_type: DataType::Int8 }));
    assert_eq!(value(DataType::Boolean, EncodedValueRef::Boolean(true)), Err(Error::EncodedTypeMismatch { data_type: DataType::Boolean }));
}

#[test]
fn numbers_are_written_in_digits() {
    assert_eq!(text_of(|out| write_i64(out, i64::MIN)), Ok("-9223372036854775808".to_string()));
    assert_eq!(text_of(|out| write_i64_value(out, 0, true)), Ok(",0".to_string()));
    assert_eq!(decimal_digits(0), 1);
    assert_eq!(decimal_digits(-999), 3);
    assert_eq!(decimal_digits(i128::MIN), 39);
    assert_eq!(text_of(|out| write_decimal(out, -12, 3, false)), Ok("-0.012".to_string()));
    assert_eq!(text_of(|out| write_decimal(out, 12, -2, true)), Ok(",1200".to_string()));
}

#[test]
fn texts_are_escaped() {
    let text = "q\" b\\ n\n t\t c\u{1} é".as_bytes();
    let written = text_of(|out| write_escaped_utf8(out, text)).unwrap();
    assert_eq!(written.len(), escaped_utf8_len(text).unwrap());
    assert!(written.starts_with("q\\\" b\\\\ n\\n t\\t c\\u0001 "));
}

#[test]
fn decimals_are_checked() {
    let value = |precision: u8, value: EncodedValueRef<'_>| decode_decimal_value(&DataType::Decimal128(precision, 0), value);
    assert_eq!(value(3, EncodedValueRef::DecimalCompact(-999)), Ok(-999));
    assert_eq!(value(3, EncodedValueRef::DecimalCompact(1000)), Err(Error::DecimalOverPrecision { precision: 3, scale: 0 }));
    assert_eq!(value(19, EncodedValueRef::DecimalCompact(1)), Err(Error::EncodedTypeMismatch { data_type: DataType::Decimal128(19, 0) }));
    assert_eq!(value(19, EncodedValueRef::DecimalLarge(&[255, 0])), Ok(-256));
    assert_eq!(value(19, EncodedValueRef::DecimalLarge(&[])), Err(Error::InvalidDecimalWidth { width: 0 }));
    assert_eq!(decode_signed_i128(&[0; 17]), Err(Error::InvalidDecimalWidth { width: 17 }));
    assert_eq!(max_decimal_value_bytes(10, -2), 15);
}

#[test]
fn columns_are_checked() {
    let ints = DataType::Int32;
    assert_eq!(validate_integer_column(plain(&ints, &[0, 0, 0, 1], 1)), Ok(true));
    assert_eq!(validate_integer_column(plain(&ints, &[0, 0, 0], 1)), Err(Error::TruncatedColumnData));
    let texts = DataType::Utf8;
    let checked = validate_utf8_column(plain(&texts, &[2, 104, 34], 1), 100).unwrap();
    assert!(checked.supported);
    assert_eq!(checked.estimated_value_bytes, 3);
    assert_eq!(validate_utf8_column(plain(&texts, &[1, 255], 1), 100).err(), Some(Error::InvalidUtf8Value { valid_up_to: 0, error_len: Some(1) }));
    let over = validate_utf8_column(plain(&texts, &[2, 104, 34], 1), 2).unwrap();
    assert!(!over.supported);
    assert_eq!(over.estimated_value_bytes, 0);
    let decimals = DataType::Decimal128(2, 0);
    assert_eq!(
        validate_decimal_column(plain(&decimals, &[0, 0, 0, 0, 0, 0, 0, 100], 1)),
        Err(Error::DecimalOverPrecision { precision: 2, scale: 0 })
    );
    let doubles = DataType::Float64;
    let (mut java, mut exact) = (BTreeSet::new(), BTreeSet::new());
    let half = 0.5f64.to_be_bytes();
    assert_eq!(validate_float64_column(plain(&doubles, &half, 1), &mut java, &mut exact), Ok(true));
    assert!(java.is_empty());
    assert_eq!(sorted_bits(&exact), vec![0.5f64.to_bits()]);
    let infinite = f64::INFINITY.to_be_bytes();
    assert_eq!(validate_float64_column(plain(&doubles, &infinite, 1), &mut java, &mut exact), Ok(false));
    let constant = Value::Integer(1);
    let nullable = EncodedColumn::new(&ints, ENCODING_CONST, true, &[0b101], &constant, &[], 0, &[], 0, 3);
    assert_eq!(non_null_count(&nullable), 1);
    assert!(has_non_null(&nullable));
    assert!(estimate_integer_value_bytes(&ints, nullable, 100).unwrap() >= 1);
    assert_eq!(estimate_integer_value_bytes(&ints, nullable, 0), Err(Error::OutputBudgetExceeded));
}

#[test]
fn budgets_run_out() {
    assert_eq!(check_row_count(MAX_COLUMNAR_JSON_ROWS), Ok(()));
    let rows = MAX_COLUMNAR_JSON_ROWS + 1;
    assert_eq!(check_row_count(rows), Err(Error::RowBudgetExceeded { rows }));
    let mut budget = OutputBudget::new();
    let rest = budget.remaining();
    assert_eq!(budget.add(rest), Ok(()));
    assert_eq!(budget.remaining(), 0);
    assert_eq!(budget.add(1), Err(Error::OutputBudgetExceeded));
}

#[test]
fn texts_from_java_are_checked() {
    let bits = 1e300f64.to_bits();
    assert!(!can_format_double_in_rust(bits));
    let complete = |texts: Vec<Vec<u8>>| {
        let parsed: Vec<Option<u64>> = texts.iter().map(|text| parsed(text)).collect();
        EncodedJsonPreflight::new(vec![bits], vec![]).complete(texts, &parsed, vec![])
    };
    let plan = complete(vec![b"1.0E300".to_vec()]).unwrap();
    assert_eq!(plan.java_double_value(bits), Some(&b"1.0E300"[..]));
    assert_eq!(text_of(|out| write_exact_double(out, bits, true, &plan)), Ok(",1.0E300".to_string()));
    assert_eq!(complete(vec![]).err(), Some(Error::JavaDoubleCountMismatch { returned: 0, requested: 1 }));
    assert_eq!(complete(vec![vec![255]]).err(), Some(Error::JavaDoubleNotUtf8 { valid_up_to: 0, error_len: Some(1) }));
    assert_eq!(complete(vec![b"x".to_vec()]).err(), Some(Error::JavaDoubleInvalid { rendered: "x".to_string() }));
    assert_eq!(
        complete(vec![b"1.0E301".to_vec()]).err(),
        Some(Error::JavaDoubleMismatch { rendered: "1.0E301".to_string(), bits })
    );
}

#[test]
fn numbers_without_a_text_are_not_written() {
    let plan = no_plan();
    let written = |value: f64| text_of(|out| write_exact_double(out, value.to_bits(), false, &plan));
    assert_eq!(written(0.0), Ok("0.0".to_string()));
    assert_eq!(written(f64::NAN), Err(Error::NonFiniteDouble));
    assert_eq!(written(1e300), Err(Error::MissingJavaDouble { bits: 1e300f64.to_bits() }));
    let half = 0.5f64.to_bits();
    assert_eq!(written(0.5), Err(Error::MissingDoubleText { bits: half }));
    let plan = EncodedJsonPreflight::new(vec![], vec![half]).complete(vec![], &[], vec!["0.5".to_string()]).unwrap();
    assert_eq!(plan.shortest_double_value(half), Some(&"0.5".to_string()));
    assert_eq!(text_of(|out| write_double(out, half, true, &plan)), Ok(",0.5".to_string()));
}

#[test]
fn java_is_asked_for_so_many_numbers_only() {
    let mut asked: BTreeSet<u64> = (1..=MAX_DISTINCT_JAVA_DOUBLE_VALUES as u64).collect();
    assert_eq!(prepare_double_value(1, &mut asked), Ok(true));
    assert_eq!(prepare_double_value(MAX_DISTINCT_JAVA_DOUBLE_VALUES as u64 + 1, &mut asked), Err(Error::TooManyJavaDoubles));
    assert_eq!(prepare_double_value(f64::NAN.to_bits(), &mut asked), Ok(false));
}

#[test]
fn numbers_are_written_as_java_does() {
    let java = |text: &str| text_of(|out| write_java_style_double(out, &text.to_string()));
    assert_eq!(java("1e21"), Ok("1.0E21".to_string()));
    assert_eq!(java("-1.25e-7"), Ok("-1.25E-7".to_string()));
    assert_eq!(java("100.0"), Ok("100.0".to_string()));
    assert_eq!(java("0.001"), Ok("0.001".to_string()));
    assert_eq!(java("1e"), Err(Error::MissingExponent));
    assert_eq!(java("1e-"), Err(Error::MissingExponent));
    assert_eq!(java("1e1x"), Err(Error::InvalidExponent));
    assert_eq!(java("1e9999999999"), Err(Error::ExponentOverflow));
    assert_eq!(java("0.0"), Err(Error::InvalidDoubleText { rendering: "0.0".to_string() }));
    assert_eq!(parse_exponent(b"-12"), Ok(-12));
    assert_eq!(parse_exponent(b"+7"), Ok(7));
}

#[test]
fn constants_are_repeated() {
    let mut buffer = vec![];
    assert_eq!(text_of(|out| write_repeated_value(out, b"ab", 3, &mut buffer)), Ok("ab,ab,ab".to_string()));
    assert_eq!(validate_null_bitmap(8, &[0]), Ok(()));
    assert_eq!(validate_null_bitmap(9, &[0]), Err(Error::NullBitmapTruncated));
    let (mut cache, mut bytes, mut scratch) = (vec![], 0, vec![]);
    let mut out = MemoryFile::new(vec![]);
    let refused = write_nullable_repeated_rows(&mut out, b"ab", 3, &[0], &mut cache, &mut bytes, &mut scratch);
    assert_eq!(refused, Err(Error::BlockCacheSize));
}
