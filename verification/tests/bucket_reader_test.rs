use std::mem::size_of;

use mosaic_core::bucket_reader::ColumnPageReader;
use mosaic_core::column::ColumnValues;
use mosaic_core::const_fill::{
    all_output_pages_touched, row_range_has_non_null, ConstOutputLayout, OutputPages, CONST_FILL_ALL_MIN_NON_NULL_DENOMINATOR,
};
use mosaic_core::encoded_column::EncodedColumn;
use mosaic_core::error::ErrorKind;
use mosaic_core::format::{ENCODING_CONST, ENCODING_DICT, ENCODING_PLAIN};
use mosaic_core::raw_column::{build_array, read_all_const, DataVariant, RawColumnData};
use mosaic_core::types::{ns_to_millis_nanos, DataType, TimeUnit};
use mosaic_core::values::{EncodedValueRef, Value};

fn null_bitmap(num_rows: usize, non_null_rows: &[usize]) -> Vec<u8> {
    let mut bitmap = vec![u8::MAX; num_rows.div_ceil(8)];
    for &row in non_null_rows {
        bitmap[row / 8] &= !(1 << (row % 8));
    }
    bitmap
}

fn test_page_size() -> usize {
    4096
}

fn test_pages() -> Option<OutputPages> {
    Some(OutputPages { address: 0, page_size: test_page_size() })
}

#[test]
fn test_sparse_fixed_const_writes_only_non_null_slots() {
    let num_rows = 32;
    let bitmap = null_bitmap(num_rows, &[0, 31]);
    let data = read_all_const(
        &Value::BigInt(42),
        num_rows,
        true,
        &bitmap,
        DataVariant::Int64,
        test_pages(),
    )
    .unwrap();

    let RawColumnData::Int64(values) = data else {
        panic!("expected Int64 CONST data");
    };
    assert_eq!(values.len(), num_rows);
    assert_eq!(values[0], 42);
    assert_eq!(values[31], 42);
    assert!(values[1..31].iter().all(|&value| value == 0));
}

#[test]
fn test_dense_fixed_const_values_are_row_aligned() {
    let num_rows = 32;
    let non_null_rows = (0..24).collect::<Vec<_>>();
    let bitmap = null_bitmap(num_rows, &non_null_rows);
    let data = read_all_const(
        &Value::BigInt(42),
        num_rows,
        true,
        &bitmap,
        DataVariant::Int64,
        test_pages(),
    )
    .unwrap();

    let RawColumnData::Int64(values) = data else {
        panic!("expected Int64 CONST data");
    };
    assert_eq!(values.len(), num_rows);
    for row in non_null_rows {
        assert_eq!(values[row], 42);
    }
}

#[test]
fn test_interleaved_const_chunks_write_only_non_null_runs() {
    let rows_per_chunk = test_page_size() / size_of::<i64>();
    let num_rows = rows_per_chunk * 4;
    let non_null_rows = [0, 2]
        .into_iter()
        .flat_map(|chunk| {
            let start = chunk * rows_per_chunk;
            start..start + rows_per_chunk / 4
        })
        .collect::<Vec<_>>();
    assert_eq!(
        non_null_rows.len(),
        num_rows.div_ceil(CONST_FILL_ALL_MIN_NON_NULL_DENOMINATOR)
    );
    let bitmap = null_bitmap(num_rows, &non_null_rows);
    let data = read_all_const(
        &Value::BigInt(42),
        num_rows,
        true,
        &bitmap,
        DataVariant::Int64,
        test_pages(),
    )
    .unwrap();

    let RawColumnData::Int64(values) = data else {
        panic!("expected Int64 CONST data");
    };
    for (row, value) in values.into_iter().enumerate() {
        let chunk = row / rows_per_chunk;
        let row_in_chunk = row % rows_per_chunk;
        let expected = chunk & 1 == 0 && row_in_chunk < rows_per_chunk / 4;
        assert_eq!(value, if expected { 42 } else { 0 }, "row {row}");
    }
}

#[test]
fn test_clustered_const_at_density_cutoff_fills_only_non_null_runs() {
    let rows_per_chunk = test_page_size() / size_of::<i64>();
    let num_rows = rows_per_chunk * CONST_FILL_ALL_MIN_NON_NULL_DENOMINATOR;
    let non_null_rows = (0..rows_per_chunk).collect::<Vec<_>>();
    let bitmap = null_bitmap(num_rows, &non_null_rows);
    let data = read_all_const(
        &Value::BigInt(42),
        num_rows,
        true,
        &bitmap,
        DataVariant::Int64,
        test_pages(),
    )
    .unwrap();

    let RawColumnData::Int64(values) = data else {
        panic!("expected Int64 CONST data");
    };
    assert!(values[..rows_per_chunk].iter().all(|&value| value == 42));
    assert!(values[rows_per_chunk..].iter().all(|&value| value == 0));
}

#[test]
fn test_distributed_const_at_density_cutoff_preserves_valid_values() {
    let rows_per_chunk = test_page_size() / size_of::<i64>();
    let num_rows = rows_per_chunk * CONST_FILL_ALL_MIN_NON_NULL_DENOMINATOR;
    let non_null_rows = (0..num_rows)
        .step_by(CONST_FILL_ALL_MIN_NON_NULL_DENOMINATOR)
        .collect::<Vec<_>>();
    let bitmap = null_bitmap(num_rows, &non_null_rows);
    let data = read_all_const(
        &Value::BigInt(42),
        num_rows,
        true,
        &bitmap,
        DataVariant::Int64,
        test_pages(),
    )
    .unwrap();

    let RawColumnData::Int64(values) = data else {
        panic!("expected Int64 CONST data");
    };
    assert_eq!(values.len(), num_rows);
    for row in non_null_rows {
        assert_eq!(values[row], 42);
    }
}

#[test]
fn test_output_page_coverage_distinguishes_distributed_and_clustered_values() {
    let page_size = 4096;
    let rows_per_page = page_size / size_of::<i64>();
    let num_rows = rows_per_page * CONST_FILL_ALL_MIN_NON_NULL_DENOMINATOR;
    let output_addr = 0;
    let output_len_bytes = num_rows * size_of::<i64>();
    let layout = ConstOutputLayout::FixedWidth {
        bytes_per_row: size_of::<i64>(),
    };

    let distributed_rows = (0..num_rows)
        .step_by(CONST_FILL_ALL_MIN_NON_NULL_DENOMINATOR)
        .collect::<Vec<_>>();
    let distributed_bitmap = null_bitmap(num_rows, &distributed_rows);
    assert!(all_output_pages_touched(
        &distributed_bitmap,
        num_rows,
        output_addr,
        output_len_bytes,
        page_size,
        layout,
    ));

    let clustered_rows = (0..rows_per_page).collect::<Vec<_>>();
    let clustered_bitmap = null_bitmap(num_rows, &clustered_rows);
    assert!(!all_output_pages_touched(
        &clustered_bitmap,
        num_rows,
        output_addr,
        output_len_bytes,
        page_size,
        layout,
    ));
}

#[test]
fn test_page_coverage_accounts_for_allocation_offset() {
    let page_size = 4096;
    let rows_per_chunk = page_size / size_of::<i64>();
    let num_rows = rows_per_chunk * CONST_FILL_ALL_MIN_NON_NULL_DENOMINATOR;
    let non_null_rows = (0..CONST_FILL_ALL_MIN_NON_NULL_DENOMINATOR / 2)
        .flat_map(|pair| {
            let even_chunk_start = pair * 2 * rows_per_chunk;
            let odd_chunk_end = even_chunk_start + 2 * rows_per_chunk;
            (even_chunk_start..even_chunk_start + 127).chain(std::iter::once(odd_chunk_end - 1))
        })
        .collect::<Vec<_>>();
    assert_eq!(
        non_null_rows.len(),
        num_rows.div_ceil(CONST_FILL_ALL_MIN_NON_NULL_DENOMINATOR)
    );
    let bitmap = null_bitmap(num_rows, &non_null_rows);
    for chunk_start in (0..num_rows).step_by(rows_per_chunk) {
        assert!(row_range_has_non_null(
            &bitmap,
            chunk_start,
            (chunk_start + rows_per_chunk).min(num_rows)
        ));
    }

    let layout = ConstOutputLayout::FixedWidth {
        bytes_per_row: size_of::<i64>(),
    };
    let output_len_bytes = num_rows * size_of::<i64>();
    assert!(all_output_pages_touched(
        &bitmap,
        num_rows,
        0,
        output_len_bytes,
        page_size,
        layout,
    ));
    assert!(!all_output_pages_touched(
        &bitmap,
        num_rows,
        16,
        output_len_bytes,
        page_size,
        layout,
    ));
}

#[test]
fn test_page_coverage_ignores_trailing_bitmap_bits() {
    let page_size = 4096;
    let rows_per_page = page_size / size_of::<i64>();
    let num_rows = rows_per_page + 1;
    let non_null_rows = (0..num_rows.div_ceil(8)).collect::<Vec<_>>();
    let mut bitmap = null_bitmap(num_rows, &non_null_rows);
    bitmap[num_rows / 8] = 0b0000_0001;

    assert!(!all_output_pages_touched(
        &bitmap,
        num_rows,
        0,
        num_rows * size_of::<i64>(),
        page_size,
        ConstOutputLayout::FixedWidth {
            bytes_per_row: size_of::<i64>(),
        },
    ));
}

#[test]
fn test_boolean_fallback_respects_non_null_and_bitmap_boundaries() {
    let rows_per_chunk = test_page_size() * 8;
    let num_rows = rows_per_chunk * 2 + 1;
    let non_null_rows = (0..num_rows.div_ceil(8)).collect::<Vec<_>>();
    let mut bitmap = null_bitmap(num_rows, &non_null_rows);
    bitmap[num_rows / 8] = 0b0000_0001;
    let data = read_all_const(
        &Value::Boolean(true),
        num_rows,
        true,
        &bitmap,
        DataVariant::Boolean,
        test_pages(),
    )
    .unwrap();

    let RawColumnData::Boolean(values) = data else {
        panic!("expected Boolean CONST data");
    };
    for row in 0..num_rows {
        let value = values[row / 8] & (1 << (row % 8)) != 0;
        assert_eq!(value, row < non_null_rows.len(), "row {row}");
    }
}

#[test]
fn test_timestamp_nanos_uses_each_buffer_element_width() {
    let page_size = test_page_size();
    let millis_rows_per_chunk = page_size / size_of::<i64>();
    let nanos_rows_per_chunk = page_size / size_of::<i32>();
    let num_rows = millis_rows_per_chunk * CONST_FILL_ALL_MIN_NON_NULL_DENOMINATOR;
    let non_null_rows = (millis_rows_per_chunk..nanos_rows_per_chunk).collect::<Vec<_>>();
    let bitmap = null_bitmap(num_rows, &non_null_rows);
    let data = read_all_const(
        &Value::TimestampNanos {
            millis: 42,
            nanos_of_milli: 7,
        },
        num_rows,
        true,
        &bitmap,
        DataVariant::TimestampNanos,
        test_pages(),
    )
    .unwrap();

    let RawColumnData::TimestampNanos {
        millis,
        nanos_of_milli,
    } = data
    else {
        panic!("expected TimestampNanos CONST data");
    };
    assert!(millis[..millis_rows_per_chunk]
        .iter()
        .all(|&value| value == 0));
    assert!(millis[millis_rows_per_chunk..nanos_rows_per_chunk]
        .iter()
        .all(|&value| value == 42));
    assert!(millis[nanos_rows_per_chunk..]
        .iter()
        .all(|&value| value == 0));
    assert!(nanos_of_milli[..millis_rows_per_chunk]
        .iter()
        .all(|&value| value == 0));
    assert!(nanos_of_milli[millis_rows_per_chunk..nanos_rows_per_chunk]
        .iter()
        .all(|&value| value == 7));
    assert!(nanos_of_milli[nanos_rows_per_chunk..]
        .iter()
        .all(|&value| value == 0));
}

#[test]
fn test_timestamp_nanos_conversion_ignores_null_hidden_values() {
    let (min_millis, min_nanos) = ns_to_millis_nanos(i64::MIN);
    let (max_millis, max_nanos) = ns_to_millis_nanos(i64::MAX);
    let data = RawColumnData::TimestampNanos {
        millis: vec![min_millis, min_millis, max_millis, max_millis],
        nanos_of_milli: vec![min_nanos, 0, max_nanos, 999_999],
    };
    let array =
        build_array(data, &DataType::Timestamp(TimeUnit::Nanosecond, None), Some(vec![0b0000_0101]), 4, true).unwrap();
    let ColumnValues::TimestampNanos(values) = array.values else {
        panic!("expected nanosecond timestamps");
    };

    assert_eq!(values[0], i64::MIN);
    assert!(array.nulls[1]);
    assert_eq!(values[2], i64::MAX);
    assert!(array.nulls[3]);
}

#[test]
fn test_fixed_const_preserves_default_and_negative_zero_values() {
    let num_rows = test_page_size();
    let non_null_rows =
        (0..num_rows.div_ceil(CONST_FILL_ALL_MIN_NON_NULL_DENOMINATOR)).collect::<Vec<_>>();
    let bitmap = null_bitmap(num_rows, &non_null_rows);

    let zero_data = read_all_const(
        &Value::SmallInt(0),
        num_rows,
        true,
        &bitmap,
        DataVariant::Int16,
        test_pages(),
    )
    .unwrap();
    let RawColumnData::Int16(zero_values) = zero_data else {
        panic!("expected Int16 CONST data");
    };
    assert!(zero_values.iter().all(|&value| value == 0));

    let negative_zero_data = read_all_const(
        &Value::Float((-0.0f32).to_bits()),
        num_rows,
        true,
        &bitmap,
        DataVariant::Float32,
        test_pages(),
    )
    .unwrap();
    let RawColumnData::Float32(negative_zero_values) = negative_zero_data else {
        panic!("expected Float32 CONST data");
    };
    assert!(negative_zero_values[..non_null_rows.len()]
        .iter()
        .all(|value| *value == (-0.0f32).to_bits()));
    assert!(negative_zero_values[non_null_rows.len()..]
        .iter()
        .all(|value| *value == 0.0f32.to_bits()));
}

#[test]
fn column_page_rejects_unknown_encoding_without_panicking() {
    let result = ColumnPageReader::new(DataType::Int32, 0xff, true, Value::Null, Vec::new(), 1)
        .and_then(|page| page.read_all().map(|_| ()));

    let err = result.expect_err("unknown column page encoding must be rejected");
    assert_eq!(err.kind(), ErrorKind::InvalidData);
    assert!(err.message().contains("unsupported encoding 255"));
}

#[test]
fn rejects_invalid_timestamp_nanos_for_all_encodings() {
    let data_type = DataType::Timestamp(TimeUnit::Nanosecond, None);
    let invalid = Value::TimestampNanos {
        millis: 0,
        nanos_of_milli: 1_000_000,
    };
    let placeholder = Value::Null;

    let constant = EncodedColumn::new(
        &data_type,
        ENCODING_CONST,
        false,
        &[],
        &invalid,
        &[],
        0,
        &[],
        0,
        1,
    );
    assert_eq!(
        constant.constant().unwrap_err().kind(),
        ErrorKind::InvalidData
    );
    assert_eq!(
        constant.values().next().unwrap().unwrap_err().kind(),
        ErrorKind::InvalidData
    );

    let dictionary = EncodedColumn::new(
        &data_type,
        ENCODING_DICT,
        false,
        &[],
        &placeholder,
        std::slice::from_ref(&invalid),
        0,
        &[],
        0,
        1,
    );
    assert_eq!(
        dictionary.values().next().unwrap().unwrap_err().kind(),
        ErrorKind::InvalidData
    );

    let mut plain_data = 0i64.to_be_bytes().to_vec();
    plain_data.extend_from_slice(&1_000_000i32.to_be_bytes());
    let plain = EncodedColumn::new(
        &data_type,
        ENCODING_PLAIN,
        false,
        &[],
        &placeholder,
        &[],
        0,
        &plain_data,
        0,
        1,
    );
    assert_eq!(
        plain.values().next().unwrap().unwrap_err().kind(),
        ErrorKind::InvalidData
    );
}

#[test]
fn reports_corrupt_dict_indexes_without_panicking() {
    let data_type = DataType::Int32;
    let placeholder = Value::Null;
    let dict_values = [Value::Integer(7)];

    let truncated = EncodedColumn::new(
        &data_type,
        ENCODING_DICT,
        false,
        &[],
        &placeholder,
        &dict_values,
        1,
        &[],
        0,
        1,
    );
    assert_eq!(
        truncated.values().next().unwrap().unwrap_err().kind(),
        ErrorKind::InvalidData
    );
    assert_eq!(
        truncated.visit_dictionary(|_| Ok(())).unwrap_err().kind(),
        ErrorKind::InvalidData
    );

    let out_of_range = EncodedColumn::new(
        &data_type,
        ENCODING_DICT,
        false,
        &[],
        &placeholder,
        &dict_values,
        1,
        &[1],
        0,
        1,
    );
    assert_eq!(
        out_of_range.values().next().unwrap().unwrap_err().kind(),
        ErrorKind::InvalidData
    );
    assert_eq!(
        out_of_range
            .visit_dictionary(|_| Ok(()))
            .unwrap_err()
            .kind(),
        ErrorKind::InvalidData
    );
}

#[test]
fn visits_dictionary_entries_once_and_checks_the_last_index() {
    let data_type = DataType::Utf8;
    let placeholder = Value::Null;
    let dict_values = [
        Value::String(b"alpha".to_vec()),
        Value::String(b"beta".to_vec()),
        Value::String(b"gamma".to_vec()),
    ];
    let column = EncodedColumn::new(
        &data_type,
        ENCODING_DICT,
        false,
        &[],
        &placeholder,
        &dict_values,
        2,
        &[0x24, 0x03],
        0,
        5,
    );

    let mut entries = Vec::new();
    let error = column
        .visit_dictionary(|value| {
            let EncodedValueRef::Utf8(value) = value else {
                panic!("unexpected dictionary value: {value:?}");
            };
            entries.push(value.to_vec());
            Ok(())
        })
        .unwrap_err();

    assert_eq!(
        entries,
        [b"alpha".to_vec(), b"beta".to_vec(), b"gamma".to_vec()]
    );
    assert_eq!(error.kind(), ErrorKind::InvalidData);
    assert!(error.message().contains("corrupt dict index"));
}

#[test]
fn reports_truncated_plain_values_without_panicking() {
    let placeholder = Value::Null;

    let fixed = EncodedColumn::new(
        &DataType::Int64,
        ENCODING_PLAIN,
        false,
        &[],
        &placeholder,
        &[],
        0,
        &[0; 7],
        0,
        1,
    );
    assert_eq!(
        fixed.values().next().unwrap().unwrap_err().kind(),
        ErrorKind::InvalidData
    );

    let variable = EncodedColumn::new(
        &DataType::Utf8,
        ENCODING_PLAIN,
        false,
        &[],
        &placeholder,
        &[],
        0,
        &[3, b'a', b'b'],
        0,
        1,
    );
    assert_eq!(
        variable.values().next().unwrap().unwrap_err().kind(),
        ErrorKind::InvalidData
    );
}
