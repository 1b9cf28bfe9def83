//! Files that are written and read back: encodings, compression, projections and the options of the
//! writer.

use mosaic_core::column::{Column, ColumnValues};
use mosaic_core::format::{COMPRESSION_NONE, COMPRESSION_ZSTD};
use mosaic_core::output::MemoryFile;
use mosaic_core::reader::MosaicReader;
use mosaic_core::row_group_reader::ColumnBatch;
use mosaic_core::schema::{FieldSpec, MosaicSchema};
use mosaic_core::types::DataType;
use mosaic_core::writer::{MosaicWriter, WriterOptions};

type FieldDef = (String, DataType, bool);

fn def(name: &str, data_type: DataType, nullable: bool) -> FieldDef {
    (name.to_string(), data_type, nullable)
}

fn field_specs(fields: &[FieldDef]) -> Vec<FieldSpec> {
    fields
        .iter()
        .map(|(name, data_type, nullable)| FieldSpec { name: name.clone(), data_type: data_type.duplicate(), nullable: *nullable })
        .collect()
}

fn batch_of(fields: &[FieldDef], columns: Vec<Column>) -> ColumnBatch {
    let num_rows = columns[0].nulls.len();
    ColumnBatch { fields: field_specs(fields), columns, num_rows }
}

fn simple_hash(seed: u64, i: usize) -> u64 {
    let mut x = seed.wrapping_add(i as u64);
    x ^= x >> 33;
    x = x.wrapping_mul(0xff51afd7ed558ccd);
    x ^= x >> 33;
    x = x.wrapping_mul(0xc4ceb9fe1a85ec53);
    x ^= x >> 33;
    x
}

fn write_file(fields: &[FieldDef], batches: &[ColumnBatch], options: WriterOptions) -> Vec<u8> {
    let mut writer =
        MosaicWriter::new(MemoryFile::new(Vec::new()), &field_specs(fields), b"schema bytes".to_vec(), options).unwrap();
    for batch in batches {
        writer.write_batch(batch).unwrap();
    }
    writer.close().unwrap();
    writer.output().bytes.clone()
}

fn plain_options(num_buckets: usize) -> WriterOptions {
    WriterOptions { num_buckets, compression: COMPRESSION_NONE, ..Default::default() }
}

fn open_file(data: &[u8], fields: &[FieldDef], num_buckets: usize) -> MosaicReader<MemoryFile> {
    let (schema, _) = MosaicSchema::from_fields(&field_specs(fields), num_buckets).unwrap();
    MosaicReader::open(MemoryFile::new(data.to_vec()), data.len() as u64, schema).unwrap()
}

fn read_all(data: &[u8], fields: &[FieldDef], num_buckets: usize) -> Vec<ColumnBatch> {
    let reader = open_file(data, fields, num_buckets);
    (0..reader.num_row_groups()).map(|rg| reader.row_group_reader(rg).unwrap().read_columns().unwrap()).collect()
}

fn index_of(batch: &ColumnBatch, name: &str) -> Option<usize> {
    batch.fields.iter().position(|field| field.name == name)
}

fn column_of<'a>(batch: &'a ColumnBatch, name: &str) -> &'a Column {
    &batch.columns[index_of(batch, name).unwrap()]
}

fn nullable<T: Default>(values: Vec<Option<T>>) -> (Vec<T>, Vec<bool>) {
    let nulls = values.iter().map(Option::is_none).collect();
    (values.into_iter().map(Option::unwrap_or_default).collect(), nulls)
}

fn full(values: ColumnValues, rows: usize) -> Column {
    Column { values, nulls: vec![false; rows] }
}

fn ints(values: Vec<i32>) -> Column {
    let rows = values.len();
    full(ColumnValues::Int32(values), rows)
}

fn longs(values: Vec<i64>) -> Column {
    let rows = values.len();
    full(ColumnValues::Int64(values), rows)
}

fn doubles(values: Vec<f64>) -> Column {
    let rows = values.len();
    full(ColumnValues::Float64(values.into_iter().map(f64::to_bits).collect()), rows)
}

fn strings<S: AsRef<str>>(values: &[S]) -> Column {
    full(ColumnValues::Utf8(values.iter().map(|value| value.as_ref().as_bytes().to_vec()).collect()), values.len())
}

fn binaries(values: &[Vec<u8>]) -> Column {
    full(ColumnValues::Binary(values.to_vec()), values.len())
}

fn nullable_bools(values: Vec<Option<bool>>) -> Column {
    let (values, nulls) = nullable(values);
    Column { values: ColumnValues::Boolean(values), nulls }
}

fn nullable_i8s(values: Vec<Option<i8>>) -> Column {
    let (values, nulls) = nullable(values);
    Column { values: ColumnValues::Int8(values), nulls }
}

fn nullable_i16s(values: Vec<Option<i16>>) -> Column {
    let (values, nulls) = nullable(values);
    Column { values: ColumnValues::Int16(values), nulls }
}

fn nullable_i32s(values: Vec<Option<i32>>) -> Column {
    let (values, nulls) = nullable(values);
    Column { values: ColumnValues::Int32(values), nulls }
}

fn nullable_i64s(values: Vec<Option<i64>>) -> Column {
    let (values, nulls) = nullable(values);
    Column { values: ColumnValues::Int64(values), nulls }
}

fn nullable_f32s(values: Vec<Option<f32>>) -> Column {
    let (values, nulls) = nullable(values);
    Column { values: ColumnValues::Float32(values.into_iter().map(f32::to_bits).collect()), nulls }
}

fn nullable_f64s(values: Vec<Option<f64>>) -> Column {
    let (values, nulls) = nullable(values);
    Column { values: ColumnValues::Float64(values.into_iter().map(f64::to_bits).collect()), nulls }
}

fn nullable_strings(values: Vec<Option<String>>) -> Column {
    let (values, nulls) = nullable(values);
    Column { values: ColumnValues::Utf8(values.into_iter().map(String::into_bytes).collect()), nulls }
}

fn nullable_binaries(values: Vec<Option<Vec<u8>>>) -> Column {
    let (values, nulls) = nullable(values);
    Column { values: ColumnValues::Binary(values), nulls }
}

fn nullable_dates(values: Vec<Option<i32>>) -> Column {
    let (values, nulls) = nullable(values);
    Column { values: ColumnValues::Date32(values), nulls }
}

fn nullable_times(values: Vec<Option<i32>>) -> Column {
    let (values, nulls) = nullable(values);
    Column { values: ColumnValues::Time32(values), nulls }
}

fn nullable_decimals(values: Vec<Option<i128>>) -> Column {
    let (values, nulls) = nullable(values);
    Column { values: ColumnValues::Decimal128(values), nulls }
}

fn value_bytes(values: &ColumnValues, row: usize) -> Vec<u8> {
    match values {
        ColumnValues::Boolean(values) => vec![values[row] as u8],
        ColumnValues::Int8(values) => values[row].to_be_bytes().to_vec(),
        ColumnValues::Int16(values) => values[row].to_be_bytes().to_vec(),
        ColumnValues::Int32(values) => values[row].to_be_bytes().to_vec(),
        ColumnValues::Int64(values) => values[row].to_be_bytes().to_vec(),
        ColumnValues::Float32(values) => values[row].to_be_bytes().to_vec(),
        ColumnValues::Float64(values) => values[row].to_be_bytes().to_vec(),
        ColumnValues::Date32(values) => values[row].to_be_bytes().to_vec(),
        ColumnValues::Time32(values) => values[row].to_be_bytes().to_vec(),
        ColumnValues::Utf8(values) => values[row].clone(),
        ColumnValues::Binary(values) => values[row].clone(),
        ColumnValues::Decimal128(values) => values[row].to_be_bytes().to_vec(),
        other => panic!("no bytes of {other:?}"),
    }
}

fn concat_cells(batches: &[ColumnBatch], name: &str) -> Vec<Option<Vec<u8>>> {
    let mut out = Vec::new();
    for batch in batches {
        let column = column_of(batch, name);
        for row in 0..column.nulls.len() {
            out.push(if column.nulls[row] { None } else { Some(value_bytes(&column.values, row)) });
        }
    }
    out
}

fn concat_column_i32(batches: &[ColumnBatch], name: &str) -> Vec<Option<i32>> {
    concat_cells(batches, name).into_iter().map(|cell| cell.map(|bytes| i32::from_be_bytes(bytes.try_into().unwrap()))).collect()
}

fn concat_column_i64(batches: &[ColumnBatch], name: &str) -> Vec<Option<i64>> {
    concat_cells(batches, name).into_iter().map(|cell| cell.map(|bytes| i64::from_be_bytes(bytes.try_into().unwrap()))).collect()
}

fn concat_column_string(batches: &[ColumnBatch], name: &str) -> Vec<Option<String>> {
    concat_cells(batches, name).into_iter().map(|cell| cell.map(|bytes| String::from_utf8(bytes).unwrap())).collect()
}

fn total_rows(batches: &[ColumnBatch]) -> usize {
    batches.iter().map(|batch| batch.num_rows).sum()
}

fn assert_batches_equal(expected: &[ColumnBatch], actual: &[ColumnBatch]) {
    assert_eq!(total_rows(expected), total_rows(actual), "total row count mismatch");
    for field in &expected[0].fields {
        for batch in actual {
            let found = &batch.fields[index_of(batch, &field.name).unwrap()];
            assert_eq!(found.data_type, field.data_type);
        }
        assert!(
            concat_cells(expected, &field.name) == concat_cells(actual, &field.name),
            "mismatch at column {}",
            field.name
        );
    }
}

// ---------------------------------------------------------------- encodings

#[test]
fn test_const_encoding_all_types() {
    let num_rows = 100_000;
    let cases: Vec<(&str, DataType, ColumnValues)> = vec![
        ("Boolean", DataType::Boolean, ColumnValues::Boolean(vec![true; num_rows])),
        ("Int8", DataType::Int8, ColumnValues::Int8(vec![42i8; num_rows])),
        ("Int16", DataType::Int16, ColumnValues::Int16(vec![1234i16; num_rows])),
        ("Int32", DataType::Int32, ColumnValues::Int32(vec![99999i32; num_rows])),
        ("Int64", DataType::Int64, ColumnValues::Int64(vec![999_999_999_999i64; num_rows])),
        ("Float32", DataType::Float32, ColumnValues::Float32(vec![3.14f32.to_bits(); num_rows])),
        ("Float64", DataType::Float64, ColumnValues::Float64(vec![2.71828f64.to_bits(); num_rows])),
        ("Utf8", DataType::Utf8, ColumnValues::Utf8(vec![b"hello_world".to_vec(); num_rows])),
        ("Binary", DataType::Binary, ColumnValues::Binary(vec![b"constant_binary_value".to_vec(); num_rows])),
        ("Date32", DataType::Date32, ColumnValues::Date32(vec![19000i32; num_rows])),
        ("Time32", DataType::Time32, ColumnValues::Time32(vec![3_600_000i32; num_rows])),
        ("Decimal128", DataType::Decimal128(10, 2), ColumnValues::Decimal128(vec![12345i128; num_rows])),
    ];
    for (name, data_type, values) in cases {
        let fields = vec![def("v", data_type, false)];
        let batch = batch_of(&fields, vec![full(values, num_rows)]);
        let data = write_file(&fields, &[batch], plain_options(1));
        assert!(data.len() < 4096, "{} const file too large: {} bytes", name, data.len());
        let result = read_all(&data, &fields, 1);
        assert_eq!(total_rows(&result), num_rows);
    }
}

#[test]
fn test_dict_encoding_boundary_253_254_255_256() {
    let fields = vec![def("v", DataType::Int32, false)];

    for num_distinct in [253, 254, 255, 256] {
        let num_rows = 50_000;
        let vals: Vec<i32> = (0..num_rows).map(|i| (i % num_distinct) as i32).collect();
        let batch = batch_of(&fields, vec![ints(vals.clone())]);

        let data = write_file(&fields, &[batch], plain_options(1));

        let result = read_all(&data, &fields, 1);
        let out_vals: Vec<i32> = concat_column_i32(&result, "v").into_iter().map(Option::unwrap).collect();
        assert_eq!(out_vals, vals, "roundtrip failed for {} distinct values", num_distinct);
    }
}

#[test]
fn test_dict_encoding_string_cardinality() {
    for num_distinct in [5, 50, 100, 200, 255] {
        let num_rows = 100_000;
        let fields = vec![def("v", DataType::Utf8, false)];

        let distinct_vals: Vec<String> = (0..num_distinct).map(|i| format!("str_value_{:05}", i)).collect();
        let str_vals: Vec<&str> = (0..num_rows).map(|i| distinct_vals[i % num_distinct].as_str()).collect();

        let batch = batch_of(&fields, vec![strings(&str_vals)]);
        let data = write_file(&fields, &[batch], plain_options(1));

        let result = read_all(&data, &fields, 1);
        let out_vals = concat_column_string(&result, "v");
        assert_eq!(out_vals.len(), num_rows);
        for (i, v) in out_vals.iter().enumerate() {
            assert_eq!(v.as_deref(), Some(str_vals[i]), "mismatch at row {} for cardinality {}", i, num_distinct);
        }
    }
}

#[test]
fn test_dict_budget_exceeded() {
    let fields = vec![def("v", DataType::Utf8, false)];

    // Strings of 120 bytes and more, with enough distinct ones to go past 1024 bytes of dictionary.
    let num_distinct = 20;
    let num_rows = 10_000;

    let distinct_vals: Vec<String> = (0..num_distinct).map(|i| format!("long_string_value_{:0>100}", i)).collect();
    let str_vals: Vec<&str> = (0..num_rows).map(|i| distinct_vals[i % num_distinct].as_str()).collect();

    let batch = batch_of(&fields, vec![strings(&str_vals)]);
    let data = write_file(
        &fields,
        &[batch],
        WriterOptions { num_buckets: 1, max_dict_total_bytes: 1024, compression: COMPRESSION_NONE, ..Default::default() },
    );

    let result = read_all(&data, &fields, 1);
    let out_vals = concat_column_string(&result, "v");
    assert_eq!(out_vals.len(), num_rows);
    for (i, v) in out_vals.iter().enumerate() {
        assert_eq!(v.as_deref(), Some(str_vals[i]), "mismatch at row {}", i);
    }
}

#[test]
fn encoding_compression_test_test_all_null_encoding() {
    let num_rows = 100_000;
    let cases: Vec<(DataType, Column)> = vec![
        (DataType::Boolean, nullable_bools(vec![None; num_rows])),
        (DataType::Int32, nullable_i32s(vec![None; num_rows])),
        (DataType::Int64, nullable_i64s(vec![None; num_rows])),
        (DataType::Float64, nullable_f64s(vec![None; num_rows])),
        (DataType::Utf8, nullable_strings(vec![None; num_rows])),
        (DataType::Binary, nullable_binaries(vec![None; num_rows])),
        (DataType::Date32, nullable_dates(vec![None; num_rows])),
        (DataType::Decimal128(10, 2), nullable_decimals(vec![None; num_rows])),
    ];
    for (data_type, column) in cases {
        let fields = vec![def("v", data_type, true)];
        let batch = batch_of(&fields, vec![column]);
        let data = write_file(&fields, &[batch], plain_options(1));
        let result = read_all(&data, &fields, 1);
        assert_eq!(total_rows(&result), num_rows);
        for b in &result {
            let column = column_of(b, "v");
            assert_eq!(column.nulls.len(), b.num_rows);
            assert!(column.nulls.iter().all(|null| *null));
        }
    }
}

#[test]
fn test_encoding_mixed_in_same_file() {
    let num_rows = 200_000;
    let fields = vec![
        def("const_col", DataType::Int64, false),
        def("dict_col", DataType::Utf8, false),
        def("plain_col", DataType::Int64, false),
        def("null_col", DataType::Float64, true),
    ];

    let batch_size = 50_000;
    let mut batches = Vec::new();

    for batch_start in (0..num_rows).step_by(batch_size) {
        let end = (batch_start + batch_size).min(num_rows);
        let count = end - batch_start;

        let const_vals: Vec<i64> = vec![42i64; count];
        let dict_vals: Vec<&str> = (0..count)
            .map(|i| match (batch_start + i) % 5 {
                0 => "alpha",
                1 => "beta",
                2 => "gamma",
                3 => "delta",
                _ => "epsilon",
            })
            .collect();
        let plain_vals: Vec<i64> = (batch_start..batch_start + count).map(|i| i as i64).collect();
        let null_vals: Vec<Option<f64>> = vec![None; count];

        batches.push(batch_of(
            &fields,
            vec![longs(const_vals), strings(&dict_vals), longs(plain_vals), nullable_f64s(null_vals)],
        ));
    }

    let data = write_file(&fields, &batches, plain_options(1));

    let result = read_all(&data, &fields, 1);
    assert_batches_equal(&batches, &result);
}

// ---------------------------------------------------------------- compression

#[test]
fn test_no_compression_roundtrip_all_types() {
    let num_rows = 200_000;
    let batch_size = 50_000;
    let fields = vec![
        def("bool_col", DataType::Boolean, true),
        def("i8_col", DataType::Int8, true),
        def("i16_col", DataType::Int16, true),
        def("i32_col", DataType::Int32, true),
        def("i64_col", DataType::Int64, true),
        def("f32_col", DataType::Float32, true),
        def("f64_col", DataType::Float64, true),
        def("str_col", DataType::Utf8, true),
        def("bin_col", DataType::Binary, true),
        def("date_col", DataType::Date32, true),
        def("time_col", DataType::Time32, true),
        def("dec_col", DataType::Decimal128(10, 2), true),
    ];

    let mut batches = Vec::new();
    for batch_start in (0..num_rows).step_by(batch_size) {
        let end = (batch_start + batch_size).min(num_rows);
        let rows = batch_start..end;

        let bools: Vec<Option<bool>> = rows.clone().map(|i| if i % 10 == 0 { None } else { Some(i % 2 == 0) }).collect();
        let i8s: Vec<Option<i8>> = rows.clone().map(|i| if i % 15 == 0 { None } else { Some((i % 256) as i8) }).collect();
        let i16s: Vec<Option<i16>> = rows.clone().map(|i| if i % 12 == 0 { None } else { Some((i % 30000) as i16) }).collect();
        let i32s: Vec<Option<i32>> = rows.clone().map(|i| if i % 9 == 0 { None } else { Some(i as i32 * 3) }).collect();
        let i64s: Vec<Option<i64>> = rows.clone().map(|i| if i % 8 == 0 { None } else { Some(i as i64 * 1_000_000) }).collect();
        let f32s: Vec<Option<f32>> = rows.clone().map(|i| if i % 14 == 0 { None } else { Some(i as f32 * 0.1) }).collect();
        let f64s: Vec<Option<f64>> = rows.clone().map(|i| if i % 11 == 0 { None } else { Some(i as f64 * 3.14159) }).collect();
        let texts: Vec<Option<String>> =
            rows.clone().map(|i| if i % 6 == 0 { None } else { Some(format!("row_{:08}", i)) }).collect();
        let bytes: Vec<Option<Vec<u8>>> = rows
            .clone()
            .map(|i| {
                if i % 7 == 0 {
                    None
                } else {
                    let len = i % 32 + 1;
                    Some((0..len).map(|j| ((i + j) % 256) as u8).collect())
                }
            })
            .collect();
        let dates: Vec<Option<i32>> =
            rows.clone().map(|i| if i % 20 == 0 { None } else { Some(18000 + i as i32 % 3650) }).collect();
        let times: Vec<Option<i32>> =
            rows.clone().map(|i| if i % 25 == 0 { None } else { Some((i as i32 % 86_400_000).abs()) }).collect();
        let decimals: Vec<Option<i128>> =
            rows.clone().map(|i| if i % 13 == 0 { None } else { Some(i as i128 * 100 + 99) }).collect();

        batches.push(batch_of(
            &fields,
            vec![
                nullable_bools(bools),
                nullable_i8s(i8s),
                nullable_i16s(i16s),
                nullable_i32s(i32s),
                nullable_i64s(i64s),
                nullable_f32s(f32s),
                nullable_f64s(f64s),
                nullable_strings(texts),
                nullable_binaries(bytes),
                nullable_dates(dates),
                nullable_times(times),
                nullable_decimals(decimals),
            ],
        ));
    }

    let data = write_file(&fields, &batches, plain_options(4));

    let result = read_all(&data, &fields, 4);
    assert_batches_equal(&batches, &result);
}

#[test]
fn test_zstd_compression_levels() {
    let fields = vec![def("id", DataType::Int64, false), def("data", DataType::Utf8, false)];

    let num_rows = 50_000;
    let ids: Vec<i64> = (0..num_rows as i64).collect();
    let strs: Vec<String> = (0..num_rows).map(|i| format!("record_{:08}_padding_{}", i, "x".repeat(20))).collect();

    let batches = [batch_of(&fields, vec![longs(ids.clone()), strings(&strs)])];

    for level in [1, 3, 7, 15, 22] {
        let data = write_file(
            &fields,
            &batches,
            WriterOptions { num_buckets: 1, compression: COMPRESSION_ZSTD, zstd_level: level, ..Default::default() },
        );

        let result = read_all(&data, &fields, 1);
        let out_ids = concat_column_i64(&result, "id");
        assert_eq!(out_ids.len(), num_rows);
        for (i, v) in out_ids.iter().enumerate() {
            assert_eq!(*v, Some(ids[i]), "id mismatch at row {} for level {}", i, level);
        }
    }
}

#[test]
fn test_compression_highly_compressible() {
    let fields = vec![def("v", DataType::Int64, false)];

    let num_rows = 200_000;
    let vals: Vec<i64> = (0..num_rows as i64).collect();
    let batches = [batch_of(&fields, vec![longs(vals)])];

    let data_none = write_file(&fields, &batches, plain_options(1));
    let data_zstd = write_file(
        &fields,
        &batches,
        WriterOptions { num_buckets: 1, compression: COMPRESSION_ZSTD, ..Default::default() },
    );

    let result_none = read_all(&data_none, &fields, 1);
    let result_zstd = read_all(&data_zstd, &fields, 1);
    assert_eq!(total_rows(&result_none), num_rows);
    assert_eq!(total_rows(&result_zstd), num_rows);

    let ratio = data_none.len() as f64 / data_zstd.len() as f64;
    assert!(ratio > 2.0, "expected compression ratio > 2x for sequential integers, got {:.2}x", ratio);
}

#[test]
fn test_compression_incompressible() {
    let fields = vec![def("v", DataType::Binary, false)];

    let num_rows = 10_000;
    let bin_vals: Vec<Vec<u8>> =
        (0..num_rows).map(|i| (0..64).map(|j| simple_hash(42, i * 64 + j) as u8).collect()).collect();
    let batches = [batch_of(&fields, vec![binaries(&bin_vals)])];

    let data_none = write_file(&fields, &batches, plain_options(1));
    let data_zstd = write_file(
        &fields,
        &batches,
        WriterOptions { num_buckets: 1, compression: COMPRESSION_ZSTD, ..Default::default() },
    );

    let result_none = read_all(&data_none, &fields, 1);
    let result_zstd = read_all(&data_zstd, &fields, 1);
    assert_eq!(total_rows(&result_none), num_rows);
    assert_eq!(total_rows(&result_zstd), num_rows);

    // Random bytes are not to grow by more than a tenth.
    let max_allowed = (data_none.len() as f64 * 1.10) as usize;
    assert!(
        data_zstd.len() <= max_allowed,
        "ZSTD inflated random data too much: NONE={}, ZSTD={}, max_allowed={}",
        data_none.len(),
        data_zstd.len(),
        max_allowed
    );
}

#[test]
fn test_compression_empty_strings() {
    let fields = vec![def("v", DataType::Utf8, false)];

    let num_rows = 100_000;
    let batch = batch_of(&fields, vec![strings(&vec![""; num_rows])]);
    let data = write_file(
        &fields,
        &[batch],
        WriterOptions { num_buckets: 1, compression: COMPRESSION_ZSTD, ..Default::default() },
    );

    let result = read_all(&data, &fields, 1);
    assert_eq!(total_rows(&result), num_rows);

    let out_vals = concat_column_string(&result, "v");
    for (i, v) in out_vals.iter().enumerate() {
        assert_eq!(v.as_deref(), Some(""), "row {} not empty string", i);
    }
}

// ---------------------------------------------------------------- projections

#[test]
fn test_projection_single_column_from_100() {
    let num_cols = 100;
    let num_rows = 10_000;

    let fields: Vec<FieldDef> = (0..num_cols).map(|i| def(&format!("col_{:04}", i), DataType::Int32, false)).collect();
    let columns: Vec<Column> =
        (0..num_cols).map(|col| ints((0..num_rows).map(|i| (col * 10000 + i) as i32).collect())).collect();

    let batch = batch_of(&fields, columns);
    let file_data = write_file(&fields, &[batch], plain_options(10));

    let target_col = 50;
    let reader = open_file(&file_data, &fields, 10);

    let mut all_vals: Vec<i32> = Vec::new();
    for rg in 0..reader.num_row_groups() {
        let rg_reader = reader.row_group_reader_projected(rg, &[target_col]).unwrap();
        let result = rg_reader.read_columns().unwrap();
        assert_eq!(result.columns.len(), 1);
        let col_name = format!("col_{:04}", target_col);
        all_vals.extend(concat_column_i32(&[result], &col_name).into_iter().map(Option::unwrap));
    }

    let expected: Vec<i32> = (0..num_rows).map(|i| (target_col * 10000 + i) as i32).collect();
    assert_eq!(all_vals, expected);
}

fn fifty_longs() -> (Vec<FieldDef>, Vec<u8>) {
    let num_cols = 50;
    let num_rows = 10_000;
    let fields: Vec<FieldDef> = (0..num_cols).map(|i| def(&format!("col_{:04}", i), DataType::Int64, false)).collect();
    let columns: Vec<Column> =
        (0..num_cols).map(|col| longs((0..num_rows).map(|i| (col * 100000 + i) as i64).collect())).collect();
    let batch = batch_of(&fields, columns);
    let file_data = write_file(&fields, &[batch], plain_options(5));
    (fields, file_data)
}

#[test]
fn test_projection_last_column() {
    let (fields, file_data) = fifty_longs();
    let last_col = 49;
    let num_rows = 10_000;
    let reader = open_file(&file_data, &fields, 5);

    let mut all_vals: Vec<i64> = Vec::new();
    for rg in 0..reader.num_row_groups() {
        let rg_reader = reader.row_group_reader_projected(rg, &[last_col]).unwrap();
        let result = rg_reader.read_columns().unwrap();
        assert_eq!(result.columns.len(), 1);
        let col_name = format!("col_{:04}", last_col);
        all_vals.extend(concat_column_i64(&[result], &col_name).into_iter().map(Option::unwrap));
    }

    let expected: Vec<i64> = (0..num_rows).map(|i| (last_col * 100000 + i) as i64).collect();
    assert_eq!(all_vals, expected);
}

#[test]
fn test_projection_first_column() {
    let (fields, file_data) = fifty_longs();
    let num_rows = 10_000;
    let reader = open_file(&file_data, &fields, 5);

    let mut all_vals: Vec<i64> = Vec::new();
    for rg in 0..reader.num_row_groups() {
        let rg_reader = reader.row_group_reader_projected(rg, &[0]).unwrap();
        let result = rg_reader.read_columns().unwrap();
        assert_eq!(result.columns.len(), 1);
        all_vals.extend(concat_column_i64(&[result], "col_0000").into_iter().map(Option::unwrap));
    }

    let expected: Vec<i64> = (0..num_rows).map(|i| i as i64).collect();
    assert_eq!(all_vals, expected);
}

#[test]
fn test_projection_reverse_order() {
    let fields = vec![
        def("a", DataType::Int32, false),
        def("b", DataType::Int64, false),
        def("c", DataType::Utf8, false),
        def("d", DataType::Float64, false),
    ];

    let num_rows = 10_000;
    let texts: Vec<String> = (0..num_rows).map(|i| format!("s_{}", i)).collect();
    let batch = batch_of(
        &fields,
        vec![
            ints((0..num_rows as i32).collect()),
            longs((0..num_rows as i64).map(|i| i * 100).collect()),
            strings(&texts),
            doubles((0..num_rows).map(|i| i as f64 * 0.5).collect()),
        ],
    );

    let file_data = write_file(&fields, &[batch], plain_options(4));
    let reader = open_file(&file_data, &fields, 4);

    for rg in 0..reader.num_row_groups() {
        let rg_reader = reader.row_group_reader_projected(rg, &[3, 2, 1, 0]).unwrap();
        let result = rg_reader.read_columns().unwrap();
        assert_eq!(result.columns.len(), 4);

        assert!(index_of(&result, "a").is_some());
        assert!(index_of(&result, "b").is_some());
        assert!(index_of(&result, "c").is_some());
        assert!(index_of(&result, "d").is_some());
        assert_eq!(result.fields[0].name, "d");
        assert_eq!(result.fields[3].name, "a");
    }
}

#[test]
fn test_projection_same_column_twice() {
    let fields = vec![def("a", DataType::Int32, false), def("b", DataType::Int64, false)];

    let num_rows = 5_000;
    let batch =
        batch_of(&fields, vec![ints((0..num_rows as i32).collect()), longs((0..num_rows as i64).collect())]);

    let file_data = write_file(&fields, &[batch], plain_options(1));
    let reader = open_file(&file_data, &fields, 1);

    for rg in 0..reader.num_row_groups() {
        let rg_result = reader.row_group_reader_projected(rg, &[0, 0]);
        match rg_result {
            Ok(rg_reader) => {
                let result = rg_reader.read_columns().unwrap();
                assert!(index_of(&result, "a").is_some());
                assert!(result.num_rows > 0);
            }
            Err(_) => {
                println!("  duplicate projection indices rejected (acceptable)");
            }
        }
    }
}

#[test]
fn test_projection_by_name() {
    let fields = vec![
        def("alpha", DataType::Int32, false),
        def("beta", DataType::Utf8, false),
        def("gamma", DataType::Float64, false),
        def("delta", DataType::Int64, false),
    ];

    let num_rows = 10_000;
    let texts: Vec<String> = (0..num_rows).map(|i| format!("val_{}", i)).collect();
    let batch = batch_of(
        &fields,
        vec![
            ints((0..num_rows as i32).collect()),
            strings(&texts),
            doubles((0..num_rows).map(|i| i as f64).collect()),
            longs((0..num_rows as i64).collect()),
        ],
    );

    let file_data = write_file(&fields, &[batch], plain_options(4));
    let reader = open_file(&file_data, &fields, 4);

    for rg in 0..reader.num_row_groups() {
        let rg_reader = reader.row_group_reader_by_names(rg, &["beta", "delta"]).unwrap();
        let result = rg_reader.read_columns().unwrap();
        assert_eq!(result.columns.len(), 2);
        assert!(index_of(&result, "beta").is_some());
        assert!(index_of(&result, "delta").is_some());
    }
}

#[test]
fn test_projection_with_all_encodings() {
    let num_rows = 50_000;
    let fields = vec![
        def("const_col", DataType::Int32, false),
        def("dict_col", DataType::Utf8, false),
        def("null_col", DataType::Float64, true),
        def("plain_col", DataType::Int64, false),
    ];

    let dict_vals: Vec<&str> = (0..num_rows)
        .map(|i| match i % 3 {
            0 => "foo",
            1 => "bar",
            _ => "baz",
        })
        .collect();
    let batch = batch_of(
        &fields,
        vec![
            ints(vec![42; num_rows]),
            strings(&dict_vals),
            nullable_f64s(vec![None; num_rows]),
            longs((0..num_rows as i64).collect()),
        ],
    );

    let file_data = write_file(&fields, &[batch], plain_options(1));

    let reader = open_file(&file_data, &fields, 1);
    for rg in 0..reader.num_row_groups() {
        let rg_reader = reader.row_group_reader_by_names(rg, &["const_col"]).unwrap();
        let result = rg_reader.read_columns().unwrap();
        assert_eq!(result.columns.len(), 1);
        for value in concat_column_i32(&[result], "const_col") {
            assert_eq!(value, Some(42));
        }
    }

    let reader2 = open_file(&file_data, &fields, 1);
    for rg in 0..reader2.num_row_groups() {
        let rg_reader = reader2.row_group_reader_by_names(rg, &["plain_col"]).unwrap();
        let result = rg_reader.read_columns().unwrap();
        assert_eq!(result.columns.len(), 1);
    }

    let reader3 = open_file(&file_data, &fields, 1);
    for rg in 0..reader3.num_row_groups() {
        let rg_reader = reader3.row_group_reader_by_names(rg, &["const_col", "null_col"]).unwrap();
        let result = rg_reader.read_columns().unwrap();
        assert_eq!(result.columns.len(), 2);
    }
}

#[test]
fn test_projection_across_multiple_row_groups() {
    let fields = vec![def("a", DataType::Int32, false), def("b", DataType::Utf8, false), def("c", DataType::Int64, false)];

    let num_rows = 100_000;
    let batch_size = 1000;
    let mut batches = Vec::new();

    for batch_start in (0..num_rows).step_by(batch_size) {
        let end = (batch_start + batch_size).min(num_rows);
        let b_vals: Vec<String> = (batch_start..end).map(|i| format!("s_{:06}", i)).collect();
        batches.push(batch_of(
            &fields,
            vec![
                ints((batch_start..end).map(|i| i as i32).collect()),
                strings(&b_vals),
                longs((batch_start..end).map(|i| i as i64 * 1000).collect()),
            ],
        ));
    }

    let file_data = write_file(
        &fields,
        &batches,
        WriterOptions { num_buckets: 1, row_group_max_size: 32 * 1024, compression: COMPRESSION_NONE, ..Default::default() },
    );
    let reader = open_file(&file_data, &fields, 1);

    assert!(reader.num_row_groups() > 1, "expected multiple row groups, got {}", reader.num_row_groups());

    let mut a_total = 0usize;
    let mut c_total = 0usize;

    for rg in 0..reader.num_row_groups() {
        if rg % 2 == 0 {
            let rg_reader = reader.row_group_reader_by_names(rg, &["a"]).unwrap();
            let result = rg_reader.read_columns().unwrap();
            assert_eq!(result.columns.len(), 1);
            assert!(index_of(&result, "a").is_some());
            a_total += result.num_rows;
        } else {
            let rg_reader = reader.row_group_reader_by_names(rg, &["c"]).unwrap();
            let result = rg_reader.read_columns().unwrap();
            assert_eq!(result.columns.len(), 1);
            assert!(index_of(&result, "c").is_some());
            c_total += result.num_rows;
        }
    }

    assert_eq!(a_total + c_total, num_rows);
}

// ---------------------------------------------------------------- options of the writer

#[test]
fn test_bucket_count_1() {
    let num_rows = 200_000;
    let fields = vec![
        def("i32_col", DataType::Int32, true),
        def("i64_col", DataType::Int64, false),
        def("str_col", DataType::Utf8, true),
        def("f64_col", DataType::Float64, false),
    ];

    let batch_size = 50_000;
    let mut batches = Vec::new();

    for batch_start in (0..num_rows).step_by(batch_size) {
        let rows = batch_start..(batch_start + batch_size).min(num_rows);
        batches.push(batch_of(
            &fields,
            vec![
                nullable_i32s(rows.clone().map(|i| if i % 7 == 0 { None } else { Some(i as i32) }).collect()),
                longs(rows.clone().map(|i| i as i64 * 100).collect()),
                nullable_strings(rows.clone().map(|i| if i % 5 == 0 { None } else { Some(format!("val_{}", i % 50)) }).collect()),
                doubles(rows.clone().map(|i| i as f64 * 0.01).collect()),
            ],
        ));
    }

    let data = write_file(&fields, &batches, plain_options(1));

    let reader = open_file(&data, &fields, 1);
    assert_eq!(reader.schema().num_buckets, 1);

    let result = read_all(&data, &fields, 1);
    assert_batches_equal(&batches, &result);
}

fn int_columns(num_cols: usize, num_rows: usize) -> (Vec<FieldDef>, ColumnBatch) {
    let fields: Vec<FieldDef> = (0..num_cols).map(|i| def(&format!("col_{:02}", i), DataType::Int32, false)).collect();
    let columns: Vec<Column> =
        (0..num_cols).map(|col| ints((0..num_rows).map(|i| (col * 10000 + i) as i32).collect())).collect();
    let batch = batch_of(&fields, columns);
    (fields, batch)
}

#[test]
fn test_bucket_count_equals_columns() {
    let num_cols = 10;
    let (fields, batch) = int_columns(num_cols, 10_000);
    let batches = [batch];

    let data = write_file(&fields, &batches, plain_options(num_cols));

    let reader = open_file(&data, &fields, num_cols);
    assert_eq!(reader.schema().num_buckets, num_cols);

    let result = read_all(&data, &fields, num_cols);
    assert_batches_equal(&batches, &result);
}

#[test]
fn test_bucket_count_exceeds_columns() {
    let num_cols = 10;
    let (fields, batch) = int_columns(num_cols, 5_000);
    let batches = [batch];

    let data = write_file(&fields, &batches, plain_options(500));

    let reader = open_file(&data, &fields, 500);
    assert_eq!(reader.schema().num_buckets, num_cols, "num_buckets should be capped to column count");

    let result = read_all(&data, &fields, 500);
    assert_batches_equal(&batches, &result);
}

fn id_and_data_fields() -> Vec<FieldDef> {
    vec![def("id", DataType::Int64, false), def("data", DataType::Utf8, false)]
}

#[test]
fn test_tiny_row_group_max() {
    let fields = id_and_data_fields();

    let num_rows = 50_000;
    let batch_size = 1_000;
    let mut batches = Vec::new();

    for batch_start in (0..num_rows).step_by(batch_size) {
        let rows = batch_start..(batch_start + batch_size).min(num_rows);
        let strs: Vec<String> = rows.clone().map(|i| format!("row_{:06}_pad", i)).collect();
        batches.push(batch_of(&fields, vec![longs(rows.map(|i| i as i64).collect()), strings(&strs)]));
    }

    let file_data = write_file(
        &fields,
        &batches,
        WriterOptions { num_buckets: 1, row_group_max_size: 1024, compression: COMPRESSION_NONE, ..Default::default() },
    );
    let reader = open_file(&file_data, &fields, 1);

    assert!(reader.num_row_groups() > 5, "expected many row groups with 1KB max, got {}", reader.num_row_groups());

    let result = read_all(&file_data, &fields, 1);
    assert_eq!(total_rows(&result), num_rows);

    let all_ids = concat_column_i64(&result, "id");
    for (i, v) in all_ids.iter().enumerate() {
        assert_eq!(*v, Some(i as i64), "id mismatch at row {}", i);
    }
}

#[test]
fn test_huge_row_group_max() {
    let fields = id_and_data_fields();

    let num_rows = 50_000;
    let strs: Vec<String> = (0..num_rows).map(|i| format!("row_{:06}", i)).collect();
    let batch = batch_of(&fields, vec![longs((0..num_rows as i64).collect()), strings(&strs)]);

    let data = write_file(
        &fields,
        &[batch],
        WriterOptions { num_buckets: 1, row_group_max_size: 1_073_741_824, compression: COMPRESSION_NONE, ..Default::default() },
    );

    let reader = open_file(&data, &fields, 1);
    assert_eq!(reader.num_row_groups(), 1, "expected single row group with 1GB max");

    let result = read_all(&data, &fields, 1);
    assert_eq!(total_rows(&result), num_rows);
}

#[test]
fn test_page_size_threshold_small() {
    let fields = id_and_data_fields();

    let num_rows = 200_000;
    let batch_size = 50_000;
    let mut batches = Vec::new();

    for batch_start in (0..num_rows).step_by(batch_size) {
        let rows = batch_start..(batch_start + batch_size).min(num_rows);
        let strs: Vec<String> = rows
            .clone()
            .map(|i| {
                let h = simple_hash(99, i);
                format!("data_{:08}_{}", i, h % 1000)
            })
            .collect();
        batches.push(batch_of(&fields, vec![longs(rows.map(|i| i as i64).collect()), strings(&strs)]));
    }

    let data = write_file(
        &fields,
        &batches,
        WriterOptions { num_buckets: 1, page_size_threshold: 256, compression: COMPRESSION_NONE, ..Default::default() },
    );

    let result = read_all(&data, &fields, 1);
    assert_batches_equal(&batches, &result);
}

#[test]
fn test_page_size_threshold_large() {
    let fields = id_and_data_fields();

    let num_rows = 50_000;
    let strs: Vec<String> = (0..num_rows).map(|i| format!("row_{:08}", i)).collect();
    let batches = [batch_of(&fields, vec![longs((0..num_rows as i64).collect()), strings(&strs)])];

    let data = write_file(
        &fields,
        &batches,
        WriterOptions { num_buckets: 1, page_size_threshold: 1_048_576, compression: COMPRESSION_NONE, ..Default::default() },
    );

    let result = read_all(&data, &fields, 1);
    assert_batches_equal(&batches, &result);
}

// ---------------------------------------------------------------- row groups

#[test]
fn test_exact_row_group_boundary() {
    let fields = id_and_data_fields();

    let num_rows = 20_000;
    let batch_size = 100;
    let mut batches = Vec::new();

    for batch_start in (0..num_rows).step_by(batch_size) {
        let rows = batch_start..(batch_start + batch_size).min(num_rows);
        let strs: Vec<String> = rows.clone().map(|i| format!("data_{:010}", i)).collect();
        batches.push(batch_of(&fields, vec![longs(rows.map(|i| i as i64).collect()), strings(&strs)]));
    }

    let file_data = write_file(
        &fields,
        &batches,
        WriterOptions { num_buckets: 1, row_group_max_size: 16 * 1024, compression: COMPRESSION_NONE, ..Default::default() },
    );

    let result = read_all(&file_data, &fields, 1);
    let all_ids = concat_column_i64(&result, "id");
    assert_eq!(all_ids.len(), num_rows);
    for (i, v) in all_ids.iter().enumerate() {
        assert_eq!(*v, Some(i as i64), "id mismatch at row {}", i);
    }
}

#[test]
fn test_data_split_across_many_row_groups() {
    let fields =
        vec![def("id", DataType::Int64, false), def("value", DataType::Int32, false), def("label", DataType::Utf8, false)];

    let num_rows = 200_000;
    let batch_size = 500;
    let mut batches = Vec::new();

    for batch_start in (0..num_rows).step_by(batch_size) {
        let rows = batch_start..(batch_start + batch_size).min(num_rows);
        let labels: Vec<String> = rows.clone().map(|i| format!("label_{:08}_{}", i, "x".repeat(30))).collect();
        batches.push(batch_of(
            &fields,
            vec![
                longs(rows.clone().map(|i| i as i64).collect()),
                ints(rows.map(|i| simple_hash(77, i) as i32).collect()),
                strings(&labels),
            ],
        ));
    }

    let file_data = write_file(
        &fields,
        &batches,
        WriterOptions { num_buckets: 1, row_group_max_size: 8 * 1024, compression: COMPRESSION_NONE, ..Default::default() },
    );
    let reader = open_file(&file_data, &fields, 1);

    assert!(reader.num_row_groups() >= 50, "expected 50+ row groups with 8KB max, got {}", reader.num_row_groups());

    let result = read_all(&file_data, &fields, 1);
    let total = total_rows(&result);
    assert_eq!(total, num_rows, "total rows mismatch");

    let all_ids = concat_column_i64(&result, "id");
    for (i, v) in all_ids.iter().enumerate() {
        assert_eq!(*v, Some(i as i64), "id mismatch at row {}", i);
    }

    let all_vals = concat_column_i32(&result, "value");
    for (i, v) in all_vals.iter().enumerate() {
        let expected = simple_hash(77, i) as i32;
        assert_eq!(*v, Some(expected), "value mismatch at row {}", i);
    }
}
