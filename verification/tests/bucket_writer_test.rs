use mosaic_core::bits::{append_null_bitmap, write_bit_packed};
use mosaic_core::bucket_reader::BucketReader;
use mosaic_core::bucket_writer::{expand_col_types, BucketWriter, ChildColumnRole};
use mosaic_core::column::{Column, ColumnValues};
use mosaic_core::column_writer::DictTracking;
use mosaic_core::dictionary::{write_u8_indices, IncrementalFixedDict};
use mosaic_core::format::{ENCODING_ALL_NULL, ENCODING_CONST, ENCODING_DICT, ENCODING_PLAIN};
use mosaic_core::types::{DataType, FieldLabel, MapLabel, TimeUnit};

fn header_size(_data: &[u8]) -> usize {
    // No header for buckets without lists or maps.
    0
}

fn label(name: &str, nullable: bool) -> FieldLabel {
    FieldLabel { name: name.to_string(), nullable, metadata: String::new() }
}

fn list_of(data_type: DataType) -> DataType {
    DataType::ListOf(Box::new(data_type), label("item", true))
}

fn map_of(key: DataType, value: DataType) -> DataType {
    let labels =
        MapLabel { entries: label("entries", false), key: label("key", false), value: label("value", true), sorted: false };
    DataType::MapOf(Box::new(key), Box::new(value), labels)
}

fn full(values: ColumnValues, rows: usize) -> Column {
    Column { values, nulls: vec![false; rows] }
}

fn ints(values: Vec<i32>) -> Column {
    let rows = values.len();
    full(ColumnValues::Int32(values), rows)
}

fn nullable_ints(values: Vec<Option<i32>>) -> Column {
    Column {
        nulls: values.iter().map(Option::is_none).collect(),
        values: ColumnValues::Int32(values.into_iter().map(Option::unwrap_or_default).collect()),
    }
}

fn null_ints(rows: usize) -> Column {
    nullable_ints(vec![None; rows])
}

fn strings(values: &[&str]) -> Column {
    full(ColumnValues::Utf8(values.iter().map(|value| value.as_bytes().to_vec()).collect()), values.len())
}

fn lists(offsets: Vec<usize>, values: Column) -> Column {
    let rows = offsets.len() - 1;
    full(ColumnValues::ListOf { offsets, values: Box::new(values) }, rows)
}

fn nullable_longs(values: &[Option<i64>]) -> (Vec<i64>, Vec<bool>) {
    (values.iter().map(|value| value.unwrap_or_default()).collect(), values.iter().map(Option::is_none).collect())
}

fn nullable_millis(values: &[Option<i64>]) -> Column {
    let (values, nulls) = nullable_longs(values);
    Column { values: ColumnValues::TimestampMillis(values), nulls }
}

fn nullable_nanos(values: &[Option<i64>]) -> Column {
    let (values, nulls) = nullable_longs(values);
    Column { values: ColumnValues::TimestampNanos(values), nulls }
}

#[test]
fn test_expand_col_types_records_explicit_child_layout() {
    let map_type = map_of(DataType::Int32, list_of(DataType::Utf8));
    let list_type = list_of(map_type);
    let col_refs = vec![&list_type];

    let (physical_types, children) = expand_col_types(&col_refs);

    assert_eq!(physical_types, vec![DataType::Int32, DataType::Int32, DataType::Int32, DataType::Int32, DataType::Utf8]);
    assert_eq!(children.len(), 4);
    assert_eq!(children[0].role, ChildColumnRole::ListElement);
    assert_eq!(children[0].physical_index, 1);
    assert_eq!(children[0].length_physical_index, 0);
    assert_eq!(children[1].role, ChildColumnRole::MapKey);
    assert_eq!(children[1].physical_index, 2);
    assert_eq!(children[1].length_physical_index, 1);
    assert_eq!(children[2].role, ChildColumnRole::MapValue);
    assert_eq!(children[2].physical_index, 3);
    assert_eq!(children[2].length_physical_index, 1);
    assert_eq!(children[3].role, ChildColumnRole::ListElement);
    assert_eq!(children[3].physical_index, 4);
    assert_eq!(children[3].length_physical_index, 3);
}

#[test]
fn bucket_writer_test_all_null_encoding() {
    let types = [DataType::Int32];
    let type_refs: Vec<&DataType> = types.iter().collect();
    let mut writer = BucketWriter::new(&type_refs, 32768, 255);

    let arr = null_ints(10);
    writer.write_columns(&[&arr], &[&DataType::Int32]).unwrap();

    let data = writer.finish();
    assert!(!data.is_empty());
    let h = header_size(&data);
    assert_eq!(data[h] & 0x03, ENCODING_ALL_NULL);
}

#[test]
fn test_const_encoding() {
    let types = [DataType::Int32];
    let type_refs: Vec<&DataType> = types.iter().collect();
    let mut writer = BucketWriter::new(&type_refs, 32768, 255);

    let arr = ints(vec![42; 10]);
    writer.write_columns(&[&arr], &[&DataType::Int32]).unwrap();

    let data = writer.finish();
    let h = header_size(&data);
    assert_eq!(data[h] & 0x03, ENCODING_CONST);
}

#[test]
fn test_dict_encoding() {
    let types = [DataType::Int32];
    let type_refs: Vec<&DataType> = types.iter().collect();
    let mut writer = BucketWriter::new(&type_refs, 32768, 255);

    let vals: Vec<i32> = (0..100).map(|i| i % 3).collect();
    let arr = ints(vals);
    writer.write_columns(&[&arr], &[&DataType::Int32]).unwrap();

    let data = writer.finish();
    let h = header_size(&data);
    assert_eq!(data[h] & 0x03, ENCODING_DICT);
}

#[test]
fn test_fixed_dict_encoding_matrix() {
    for (data_type, width) in [(DataType::Int8, 1), (DataType::Int16, 2), (DataType::Int32, 4), (DataType::Int64, 8)] {
        for distinct in [2, 255, 256] {
            let values = match width {
                1 => ColumnValues::Int8((0..10_000).map(|row| (row % distinct) as i8).collect::<Vec<_>>()),
                2 => ColumnValues::Int16((0..10_000).map(|row| (row % distinct) as i16).collect::<Vec<_>>()),
                4 => ColumnValues::Int32((0..10_000).map(|row| row % distinct).collect::<Vec<_>>()),
                8 => ColumnValues::Int64((0..10_000).map(|row| (row % distinct) as i64).collect::<Vec<_>>()),
                _ => unreachable!(),
            };
            let column = full(values, 10_000);
            let mut writer = BucketWriter::new(&[&data_type], 32768, 255);
            writer.write_columns(&[&column], &[&data_type]).unwrap();

            let encoding = writer.finish()[0] & 0x03;
            let expected = if distinct == 2 || (distinct == 255 && width > 1) { ENCODING_DICT } else { ENCODING_PLAIN };
            assert_eq!(encoding, expected, "width={width}, distinct={distinct}");
        }
    }
}

#[test]
fn test_incremental_fixed_dict_preserves_bit_pattern_keys() {
    let mut dict = IncrementalFixedDict::new(4, 123);
    assert_eq!(dict.num_slots(), 4);
    assert_eq!(dict.lookup_or_insert(0, 4), Some(0));
    assert_eq!(dict.lookup_or_insert(u64::MAX, 4), Some(1));
    assert_eq!(dict.lookup_or_insert((-0.0_f64).to_bits(), 4), Some(2));
    assert_eq!(dict.num_slots(), 8);
    assert_eq!(dict.lookup_or_insert(0, 4), Some(0));
    assert_eq!(dict.lookup_or_insert(u64::MAX, 4), Some(1));
    assert_eq!(dict.lookup_or_insert((-0.0_f64).to_bits(), 4), Some(2));
}

#[test]
fn test_incremental_fixed_dict_does_not_preallocate_configured_maximum() {
    let dict = IncrementalFixedDict::new(65_536, 123);
    assert_eq!(dict.num_slots(), 4);
}

#[test]
fn test_u8_block_packing_matches_scalar_reference() {
    for bit_width in 0usize..=8 {
        for len in 0usize..=65 {
            let mask = if bit_width == 8 { u8::MAX } else { ((1u16 << bit_width) - 1) as u8 };
            let indices = (0..len).map(|index| (index as u8).wrapping_mul(37) & mask).collect::<Vec<_>>();
            let packed_size = (len * bit_width).div_ceil(8);
            let mut expected = vec![0; packed_size];
            for (position, &index) in indices.iter().enumerate() {
                write_bit_packed(&mut expected, 0, position * bit_width, index as usize, bit_width);
            }
            let mut actual = vec![0; packed_size];
            write_u8_indices(&indices, &mut actual, bit_width);
            assert_eq!(actual, expected, "bit_width={bit_width}, len={len}");
        }
    }
}

#[test]
fn test_plain_encoding() {
    let types = [DataType::Int32];
    let type_refs: Vec<&DataType> = types.iter().collect();
    let mut writer = BucketWriter::new(&type_refs, 32768, 255);

    let vals: Vec<i32> = (0..1000).collect();
    let arr = ints(vals);
    writer.write_columns(&[&arr], &[&DataType::Int32]).unwrap();

    let data = writer.finish();
    let h = header_size(&data);
    assert_eq!(data[h] & 0x03, ENCODING_PLAIN);
}

#[test]
fn test_const_string_encoding() {
    let types = [DataType::Utf8];
    let type_refs: Vec<&DataType> = types.iter().collect();
    let mut writer = BucketWriter::new(&type_refs, 32768, 255);

    let arr = strings(&["same"; 50]);
    writer.write_columns(&[&arr], &[&DataType::Utf8]).unwrap();

    let data = writer.finish();
    let h = header_size(&data);
    assert_eq!(data[h] & 0x03, ENCODING_CONST);
}

#[test]
fn test_const_columns_do_not_build_dictionaries() {
    let types = [DataType::Int32, DataType::Utf8];
    let type_refs: Vec<&DataType> = types.iter().collect();
    let mut writer = BucketWriter::new(&type_refs, 32768, 255);

    let int_column = ints(vec![42; 100]);
    let string_column = strings(&["same"; 100]);
    writer.write_columns(&[&int_column, &string_column], &[&types[0], &types[1]]).unwrap();

    assert_eq!(writer.column(0).dict_tracking(), DictTracking::Pending);
    assert_eq!(writer.column(1).dict_tracking(), DictTracking::Pending);
    assert!(writer.column(1).dict_entries().is_none());
}

#[test]
fn test_dictionary_tracking_compacts_fixed_width_and_activates_variable_width() {
    let types = [DataType::Int32, DataType::Utf8];
    let type_refs: Vec<&DataType> = types.iter().collect();
    let mut writer = BucketWriter::new(&type_refs, 32768, 255);

    let const_ints = ints(vec![42; 50]);
    let const_strings = strings(&["same"; 50]);
    writer.write_columns(&[&const_ints, &const_strings], &[&types[0], &types[1]]).unwrap();

    let varied_ints = ints(vec![42, 7, 42, 7]);
    let varied_strings = strings(&["same", "other", "same", "other"]);
    writer.write_columns(&[&varied_ints, &varied_strings], &[&types[0], &types[1]]).unwrap();

    assert_eq!(writer.column(0).dict_tracking(), DictTracking::Active);
    assert_eq!(writer.column(1).dict_tracking(), DictTracking::Active);
    assert_eq!(writer.column(0).dict_entries(), Some(2));
    assert_eq!(writer.column(0).non_null_count(), 54);
    assert!(writer.column(0).buffered().is_empty());
    assert_eq!(writer.column(1).dict_entries(), Some(2));

    let prepared = writer.prepare();
    // One byte for the number of entries, and two entries of four bytes.
    assert_eq!(prepared.columns[0].dict_meta.len(), 9);
    let data = writer.finish();
    assert_eq!(data[0] & 0x03, ENCODING_DICT);
    assert_eq!((data[0] >> 2) & 0x03, ENCODING_DICT);
}

#[test]
fn test_append_null_bitmap_handles_source_and_destination_offsets() {
    let validity = [true, false, true, false, false, true, true, false, true, false, true];
    let nulls: Vec<bool> = validity[2..2 + 7].iter().map(|valid| !valid).collect();
    let mut bitmap = vec![0b0000_0101, 0, 0];

    append_null_bitmap(&mut bitmap, 3, &nulls);

    assert_eq!(bitmap, vec![0b0011_0101, 0b0000_0001, 0]);
}

#[test]
fn test_append_null_bitmap_matches_scalar_copy_across_chunk_boundaries() {
    for source_offset in 0..8 {
        for destination_offset in 0..16 {
            for len in [1, 7, 8, 9, 63, 64, 65, 127, 128, 129] {
                let validity: Vec<bool> = (0..source_offset + len).map(|i| i % 3 != 0 && i % 11 != 0).collect();
                let nulls: Vec<bool> = validity[source_offset..source_offset + len].iter().map(|valid| !valid).collect();
                let mut actual = vec![0u8; (destination_offset + len).div_ceil(8) + 1];
                let mut expected = actual.clone();

                for row in 0..len {
                    if !validity[source_offset + row] {
                        let bit = destination_offset + row;
                        expected[bit / 8] |= 1 << (bit % 8);
                    }
                }
                append_null_bitmap(&mut actual, destination_offset, &nulls);

                assert_eq!(
                    actual, expected,
                    "source_offset={source_offset}, destination_offset={destination_offset}, len={len}"
                );
            }
        }
    }
}

#[test]
fn test_nullable_timestamp_millis_batch_preserves_slices_and_append_offsets() {
    let data_type = DataType::Timestamp(TimeUnit::Millisecond, None);
    let mut writer = BucketWriter::new(&[&data_type], 32768, 255);

    let source = [Some(99), Some(10), None, Some(10), Some(20), None];
    let first = nullable_millis(&source[1..5]);
    writer.write_columns(&[&first], &[&data_type]).unwrap();

    let second = nullable_millis(&[None, Some(20), None]);
    writer.write_columns(&[&second], &[&data_type]).unwrap();

    assert_eq!(writer.num_rows(), 7);
    assert_eq!(writer.column(0).non_null_count(), 4);
    assert_eq!(writer.column(0).null_bitmap()[0], 0b0101_0010);
    assert!(writer.column(0).buffered().is_empty());
    assert_eq!(writer.column(0).dict_tracking(), DictTracking::Active);
    assert_eq!(writer.column(0).dict_entries(), Some(2));
    let prepared = writer.prepare();
    assert_eq!(prepared.columns[0].encoding, ENCODING_DICT);
}

#[test]
fn test_fixed_dict_overflow_reconstructs_plain_across_batches() {
    let data_type = DataType::Int32;
    let mut writer = BucketWriter::new(&[&data_type], 32768, 2);

    let first = ints(vec![1, 2, 1, 2]);
    writer.write_columns(&[&first], &[&data_type]).unwrap();
    assert_eq!(writer.column(0).dict_tracking(), DictTracking::Active);
    assert!(writer.column(0).buffered().is_empty());

    let second = ints(vec![3, 4]);
    writer.write_columns(&[&second], &[&data_type]).unwrap();
    assert_eq!(writer.column(0).dict_tracking(), DictTracking::Disabled);
    assert!(writer.column(0).dict_entries().is_none());
    assert_eq!(
        *writer.column(0).buffered(),
        [1_i32, 2, 1, 2, 3, 4].into_iter().flat_map(i32::to_be_bytes).collect::<Vec<_>>()
    );

    let data = writer.finish();
    assert_eq!(data[0] & 0x03, ENCODING_PLAIN);
}

#[test]
fn test_fixed_dict_stops_when_indices_cannot_beat_plain_across_batches() {
    let data_type = DataType::Int8;
    let mut writer = BucketWriter::new(&[&data_type], 32768, 255);

    let first_values = (0..256).map(|row| (row % 128) as i8).collect::<Vec<_>>();
    let first = full(ColumnValues::Int8(first_values.clone()), 256);
    writer.write_columns(&[&first], &[&data_type]).unwrap();
    assert_eq!(writer.column(0).dict_tracking(), DictTracking::Active);
    assert!(writer.column(0).buffered().is_empty());
    assert_eq!(writer.column(0).dict_entries(), Some(128));

    let second_values = vec![i8::MIN, 0, 1];
    let second = full(ColumnValues::Int8(second_values.clone()), 3);
    writer.write_columns(&[&second], &[&data_type]).unwrap();

    assert_eq!(writer.column(0).dict_tracking(), DictTracking::Disabled);
    assert!(writer.column(0).dict_entries().is_none());
    assert_eq!(
        *writer.column(0).buffered(),
        first_values.into_iter().chain(second_values).map(|value| value as u8).collect::<Vec<_>>()
    );

    let data = writer.finish();
    assert_eq!(data[0] & 0x03, ENCODING_PLAIN);
}

#[test]
fn test_dict_string_encoding() {
    let types = [DataType::Utf8];
    let type_refs: Vec<&DataType> = types.iter().collect();
    let mut writer = BucketWriter::new(&type_refs, 32768, 255);

    let vals: Vec<&str> = (0..60).map(|i| ["aa", "bb", "cc"][i % 3]).collect();
    let arr = strings(&vals);
    writer.write_columns(&[&arr], &[&DataType::Utf8]).unwrap();

    let data = writer.finish();
    let h = header_size(&data);
    assert_eq!(data[h] & 0x03, ENCODING_DICT);
}

#[test]
fn test_const_with_nulls() {
    let types = [DataType::Int32];
    let type_refs: Vec<&DataType> = types.iter().collect();
    let mut writer = BucketWriter::new(&type_refs, 32768, 255);

    let vals: Vec<Option<i32>> = (0..20).map(|i| if i % 3 == 0 { None } else { Some(42) }).collect();
    let arr = nullable_ints(vals);
    writer.write_columns(&[&arr], &[&DataType::Int32]).unwrap();

    let data = writer.finish();
    let h = header_size(&data);
    assert_eq!(data[h] & 0x03, ENCODING_CONST);
}

#[test]
fn test_dict_with_nulls() {
    let types = [DataType::Int32];
    let type_refs: Vec<&DataType> = types.iter().collect();
    let mut writer = BucketWriter::new(&type_refs, 32768, 255);

    let vals: Vec<Option<i32>> = (0..100).map(|i| if i % 5 == 0 { None } else { Some(i % 3) }).collect();
    let arr = nullable_ints(vals);
    writer.write_columns(&[&arr], &[&DataType::Int32]).unwrap();

    let data = writer.finish();
    let h = header_size(&data);
    assert_eq!(data[h] & 0x03, ENCODING_DICT);
}

#[test]
fn test_timestamp_nanos_byte_dict_after_no_null_batch() {
    let types = [DataType::Timestamp(TimeUnit::Nanosecond, None)];
    let type_refs: Vec<&DataType> = types.iter().collect();
    let mut writer = BucketWriter::new(&type_refs, 32768, 255);

    let first = nullable_nanos(&[Some(1), None, Some(2)]);
    writer.write_columns(&[&first], &[&types[0]]).unwrap();

    let second_values: Vec<i64> = (0..120).map(|i| 3 + (i % 3) as i64).collect();
    let second = full(ColumnValues::TimestampNanos(second_values), 120);
    writer.write_columns(&[&second], &[&types[0]]).unwrap();

    let data = writer.finish();
    let h = header_size(&data);
    assert_eq!(data[h] & 0x03, ENCODING_DICT);
}

#[test]
fn test_multi_column_mixed_encodings() {
    let types = [DataType::Int32, DataType::Utf8, DataType::Int64];
    let type_refs: Vec<&DataType> = types.iter().collect();
    let mut writer = BucketWriter::new(&type_refs, 32768, 255);

    let col0 = null_ints(100);
    let col1 = strings(&["same"; 100]);
    let col2_vals: Vec<i64> = (0..100).map(|i| i % 4).collect();
    let col2 = full(ColumnValues::Int64(col2_vals), 100);

    writer.write_columns(&[&col0, &col1, &col2], &[&DataType::Int32, &DataType::Utf8, &DataType::Int64]).unwrap();

    let data = writer.finish();
    let h = header_size(&data);
    assert_eq!(data[h] & 0x03, ENCODING_ALL_NULL);
    assert_eq!((data[h] >> 2) & 0x03, ENCODING_CONST);
    assert_eq!((data[h] >> 4) & 0x03, ENCODING_DICT);
}

#[test]
fn test_estimated_paged_size_matches_materialized_pages() {
    let types = [DataType::Int32, DataType::Utf8, DataType::Int64, DataType::Float64];
    let type_refs: Vec<&DataType> = types.iter().collect();
    let mut writer = BucketWriter::new(&type_refs, 32768, 255);

    let all_null = null_ints(100);
    let const_with_nulls = Column {
        values: ColumnValues::Utf8((0..100).map(|row| if row % 5 != 0 { b"same".to_vec() } else { Vec::new() }).collect()),
        nulls: (0..100).map(|row| row % 5 == 0).collect(),
    };
    let dict_values = full(ColumnValues::Int64((0..100).map(|row| (row % 7) as i64).collect()), 100);
    let plain_values = full(ColumnValues::Float64((0..100).map(|row| (row as f64 + 0.25).to_bits()).collect()), 100);
    writer
        .write_columns(
            &[&all_null, &const_with_nulls, &dict_values, &plain_values],
            &[&types[0], &types[1], &types[2], &types[3]],
        )
        .unwrap();

    let prepared = writer.prepare();
    let estimated = prepared.estimated_paged_size();
    let paged = writer.finish_paged_prepared(&prepared);
    let actual_pages = paged.column_pages.iter().filter(|page| page.is_some()).count();
    let actual_size = paged.column_pages.iter().filter_map(|page| page.as_ref()).map(Vec::len).sum();

    assert_eq!(estimated, (actual_pages, actual_size));
}

#[test]
fn test_reset_and_reuse() {
    let types = [DataType::Int32];
    let type_refs: Vec<&DataType> = types.iter().collect();
    let mut writer = BucketWriter::new(&type_refs, 32768, 255);

    let arr1 = ints(vec![42; 10]);
    writer.write_columns(&[&arr1], &[&DataType::Int32]).unwrap();
    let data1 = writer.finish();
    assert_eq!(data1[0] & 0x03, ENCODING_CONST);

    writer.reset();
    assert!(writer.is_empty());

    let vals: Vec<i32> = (0..1000).collect();
    let arr2 = ints(vals);
    writer.write_columns(&[&arr2], &[&DataType::Int32]).unwrap();
    let data2 = writer.finish();
    let h2 = header_size(&data2);
    assert_eq!(data2[h2] & 0x03, ENCODING_PLAIN);
}

#[test]
fn batches_read_back_from_a_bucket() {
    let types = || vec![DataType::Int32, DataType::Utf8, list_of(DataType::Int32)];
    for (max_total_bytes, max_entries) in [(0, 0), (1 << 20, 2), (1 << 20, 255)] {
        let owned = types();
        let refs: Vec<&DataType> = owned.iter().collect();
        let mut writer = BucketWriter::new(&refs, max_total_bytes, max_entries);
        let batches = [
            vec![ints(vec![1, 2]), strings(&["a", "b"]), lists(vec![0, 2, 2], ints(vec![7, 8]))],
            vec![ints(vec![1]), strings(&["a"]), lists(vec![0, 1], ints(vec![9]))],
        ];
        for columns in &batches {
            let columns: Vec<&Column> = columns.iter().collect();
            writer.write_columns(&columns, &refs).unwrap();
        }
        let reader = BucketReader::new(types(), writer.finish(), writer.num_rows()).unwrap();
        let expected = vec![ints(vec![1, 2, 1]), strings(&["a", "b", "a"]), lists(vec![0, 2, 2, 3], ints(vec![7, 8, 9]))];
        assert_eq!(reader.read_all_columns().unwrap(), expected);
    }
}

#[test]
fn empty_buckets_read_back() {
    let owned = [DataType::Int32, list_of(DataType::Utf8)];
    let refs: Vec<&DataType> = owned.iter().collect();
    let writer = BucketWriter::new(&refs, 1 << 20, 255);
    assert!(writer.finish().is_empty());
    let reader = BucketReader::new(vec![DataType::Int32, list_of(DataType::Utf8)], writer.finish(), 0).unwrap();
    let read = reader.read_all_columns().unwrap();
    assert_eq!(read, vec![ints(vec![]), lists(vec![0], strings(&[]))]);
    let reader = BucketReader::new(vec![], vec![], 3).unwrap();
    assert!(reader.read_all_columns().unwrap().is_empty());
    let reader = BucketReader::new(vec![DataType::Int32], vec![], 3).unwrap();
    assert!(reader.read_all_columns().is_err());
}
