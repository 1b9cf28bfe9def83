use std::sync::{Arc, Mutex};

use mosaic_core::column::{Column, ColumnValues};
use mosaic_core::error::{Error, ErrorKind};
use mosaic_core::format::{COMPRESSION_NONE, COMPRESSION_ZSTD, FOOTER_SIZE, MAGIC, VERSION};
use mosaic_core::output::{MemoryFile, OutputFile};
use mosaic_core::reader::{IndexReader, MosaicReader};
use mosaic_core::row_group_reader::ColumnBatch;
use mosaic_core::footer::FileMeta;
use mosaic_core::schema::{FieldSpec, MosaicSchema};
use mosaic_core::stats::StatsColumn;
use mosaic_core::types::DataType;
use mosaic_core::writer::{MosaicWriter, WriterOptions, WriterState};

fn field(name: &str, data_type: DataType, nullable: bool) -> FieldSpec {
    FieldSpec { name: name.to_string(), data_type, nullable }
}

fn full(values: ColumnValues, rows: usize) -> Column {
    Column { values, nulls: vec![false; rows] }
}

fn ints(values: Vec<i32>) -> Column {
    let rows = values.len();
    full(ColumnValues::Int32(values), rows)
}

fn longs(values: Vec<i64>) -> Column {
    let rows = values.len();
    full(ColumnValues::Int64(values), rows)
}

fn nullable_strings(values: &[Option<&str>]) -> Column {
    Column {
        values: ColumnValues::Utf8(values.iter().map(|value| value.unwrap_or_default().as_bytes().to_vec()).collect()),
        nulls: values.iter().map(Option::is_none).collect(),
    }
}

fn new_writer(fields: Vec<FieldSpec>, options: WriterOptions) -> MosaicWriter<MemoryFile> {
    MosaicWriter::new(MemoryFile::new(Vec::new()), &fields, b"schema bytes".to_vec(), options).unwrap()
}

#[derive(Default)]
struct FailingOutputState {
    write_calls: usize,
    flush_calls: usize,
    bytes: Vec<u8>,
}

struct FailOnceOutputFile {
    state: Arc<Mutex<FailingOutputState>>,
    fail: bool,
}

impl OutputFile for FailOnceOutputFile {
    fn write(&mut self, data: &[u8]) -> Result<(), Error> {
        let mut state = self.state.lock().unwrap();
        state.write_calls += 1;
        if self.fail {
            self.fail = false;
            return Err(Error::Io { kind: ErrorKind::Other, message: "sentinel output failure".to_string() });
        }
        state.bytes.extend_from_slice(data);
        Ok(())
    }

    fn flush(&mut self) -> Result<(), Error> {
        self.state.lock().unwrap().flush_calls += 1;
        Ok(())
    }

    fn pos(&self) -> u64 {
        self.state.lock().unwrap().bytes.len() as u64
    }
}

fn id_fields() -> Vec<FieldSpec> {
    vec![field("id", DataType::Int32, false)]
}

fn one_id() -> ColumnBatch {
    ColumnBatch { fields: id_fields(), columns: vec![ints(vec![7])], num_rows: 1 }
}

#[test]
fn test_write_failure_aborts_writer_without_retry_or_drop_flush() {
    let batch = one_id();
    let state = Arc::new(Mutex::new(FailingOutputState::default()));

    {
        let out = FailOnceOutputFile { state: Arc::clone(&state), fail: true };
        let mut writer = MosaicWriter::new(
            out,
            &id_fields(),
            b"schema bytes".to_vec(),
            WriterOptions { compression: COMPRESSION_NONE, num_buckets: 1, row_group_max_size: 1, ..Default::default() },
        )
        .map_err(|error| error.message())
        .unwrap();

        let error = writer.write_batch(&batch).unwrap_err();
        assert_eq!("sentinel output failure", error.message());
        let calls_after_failure = state.lock().unwrap().write_calls;
        assert_eq!(1, calls_after_failure);

        let retry_error = writer.write_batch(&batch).unwrap_err();
        assert!(retry_error.message().contains("writer is aborted after a previous failure"));
        assert_eq!(calls_after_failure, state.lock().unwrap().write_calls);

        let close_error = writer.close().unwrap_err();
        assert!(close_error.message().contains("writer is aborted after a previous failure"));
        assert_eq!(calls_after_failure, state.lock().unwrap().write_calls);
    }

    let state = state.lock().unwrap();
    assert_eq!(1, state.write_calls);
    assert_eq!(0, state.flush_calls);
    assert!(state.bytes.is_empty());
}

#[test]
fn test_close_failure_aborts_writer_without_retry_or_drop_flush() {
    let batch = one_id();
    let state = Arc::new(Mutex::new(FailingOutputState::default()));

    {
        let out = FailOnceOutputFile { state: Arc::clone(&state), fail: true };
        let mut writer = MosaicWriter::new(
            out,
            &id_fields(),
            b"schema bytes".to_vec(),
            WriterOptions { compression: COMPRESSION_NONE, num_buckets: 1, row_group_max_size: u64::MAX, ..Default::default() },
        )
        .map_err(|error| error.message())
        .unwrap();

        writer.write_batch(&batch).unwrap();
        let error = writer.close().unwrap_err();
        assert_eq!("sentinel output failure", error.message());
        let calls_after_failure = state.lock().unwrap().write_calls;
        assert_eq!(1, calls_after_failure);

        let retry_error = writer.close().unwrap_err();
        assert!(retry_error.message().contains("writer is aborted after a previous failure"));
        assert_eq!(calls_after_failure, state.lock().unwrap().write_calls);
    }

    let state = state.lock().unwrap();
    assert_eq!(1, state.write_calls);
    assert_eq!(0, state.flush_calls);
    assert!(state.bytes.is_empty());
}

#[test]
fn test_write_simple_file() {
    let fields = || vec![field("name", DataType::Utf8, true), field("age", DataType::Int32, true), field("score", DataType::Float64, true)];
    let mut writer =
        new_writer(fields(), WriterOptions { num_buckets: 2, compression: COMPRESSION_NONE, ..Default::default() });

    let names: Vec<String> = (0..100).map(|i| format!("user_{}", i)).collect();
    let name_refs: Vec<Option<&str>> = names.iter().map(|s| Some(s.as_str())).collect();
    let ages: Vec<i32> = (0..100).map(|i| 20 + (i % 50)).collect();
    let scores: Vec<u64> = (0..100).map(|i| (i as f64 * 1.5).to_bits()).collect();

    let batch = ColumnBatch {
        fields: fields(),
        columns: vec![nullable_strings(&name_refs), ints(ages), full(ColumnValues::Float64(scores), 100)],
        num_rows: 100,
    };
    writer.write_batch(&batch).unwrap();

    writer.close().unwrap();
    let data = &writer.output().bytes;

    assert!(data.len() >= FOOTER_SIZE);
    let magic = &data[data.len() - 4..];
    assert_eq!(magic, &MAGIC);
    assert_eq!(data[data.len() - 7], VERSION);
}

#[test]
fn test_write_with_zstd() {
    let fields = || vec![field("a", DataType::Int64, true), field("b", DataType::Int64, true)];
    let mut writer = new_writer(
        fields(),
        WriterOptions { num_buckets: 1, compression: COMPRESSION_ZSTD, zstd_level: 3, ..Default::default() },
    );

    let a_vals: Vec<i64> = (0..1000).collect();
    let b_vals: Vec<i64> = (0..1000).map(|i| i * 2).collect();
    let batch = ColumnBatch { fields: fields(), columns: vec![longs(a_vals), longs(b_vals)], num_rows: 1000 };
    writer.write_batch(&batch).unwrap();

    writer.close().unwrap();
    let bytes = &writer.output().bytes;
    let magic = &bytes[bytes.len() - 4..];
    assert_eq!(magic, &MAGIC);
}

#[test]
fn test_non_nullable_rejects_null() {
    let fields = vec![field("id", DataType::Int32, false), field("name", DataType::Utf8, true)];
    let mut writer = new_writer(fields, WriterOptions::default());
    let batch_fields = || vec![field("id", DataType::Int32, true), field("name", DataType::Utf8, true)];

    let batch = ColumnBatch {
        fields: batch_fields(),
        columns: vec![
            Column { values: ColumnValues::Int32(vec![0, 1]), nulls: vec![true, false] },
            nullable_strings(&[Some("hello"), Some("world")]),
        ],
        num_rows: 2,
    };
    let result = writer.write_batch(&batch);
    assert!(result.is_err());
    assert_eq!(result.unwrap_err().kind(), ErrorKind::InvalidInput);

    let batch2 = ColumnBatch {
        fields: batch_fields(),
        columns: vec![ints(vec![1, 2]), nullable_strings(&[None, Some("world")])],
        num_rows: 2,
    };
    let result = writer.write_batch(&batch2);
    assert!(result.is_ok());
}

#[test]
fn test_write_batch_rejects_reordered_schema_without_aborting_writer() {
    let fields = || vec![field("b", DataType::Int32, false), field("a", DataType::Int32, false)];
    let mut writer = new_writer(fields(), WriterOptions::default());

    let reordered_batch = ColumnBatch {
        fields: vec![field("a", DataType::Int32, false), field("b", DataType::Int32, false)],
        columns: vec![ints(vec![1, 2]), ints(vec![10, 20])],
        num_rows: 2,
    };

    let error = writer.write_batch(&reordered_batch).unwrap_err();
    assert_eq!(error.kind(), ErrorKind::InvalidInput);
    assert_eq!("field name mismatch at column 0: schema has 'a' but batch has 'b'", error.message());

    let valid_batch = ColumnBatch { fields: fields(), columns: vec![ints(vec![10, 20]), ints(vec![1, 2])], num_rows: 2 };
    writer.write_batch(&valid_batch).unwrap();
    assert_eq!(writer.state(), WriterState::Open);
}

/// Statistics are kept of numbers and texts here.
fn stats_columns(fields: Vec<FieldSpec>, names: &[&str]) -> Result<Vec<StatsColumn>, Error> {
    let writer = new_writer(fields, WriterOptions { num_buckets: 1, ..Default::default() });
    let supported: Vec<bool> = writer.schema().columns.iter().map(|column| column.data_type != DataType::Binary).collect();
    writer.stats_columns(names, &supported)
}

#[test]
fn test_stats_columns_not_found() {
    let fields = vec![field("a", DataType::Int32, true), field("b", DataType::Int64, true)];
    let result = stats_columns(fields, &["x"]);
    assert!(result.is_err());
    let err = result.err().expect("should be an error");
    assert_eq!(err.kind(), ErrorKind::InvalidInput);
    assert!(err.message().contains("not found"));
    assert_eq!(err, Error::StatsColumnNotFound { name: "x".to_string() });
}

#[test]
fn test_stats_columns_unsupported_type() {
    let fields = vec![field("a", DataType::Int32, true), field("b", DataType::Binary, true)];
    let result = stats_columns(fields, &["a", "b"]);
    assert!(result.is_err());
    let err = result.err().expect("should be an error");
    assert_eq!(err.kind(), ErrorKind::InvalidInput);
    assert!(err.message().contains("unsupported type"));
    assert_eq!(err, Error::StatsTypeUnsupported { name: "b".to_string(), data_type: DataType::Binary });
}

#[test]
fn test_stats_columns_valid() {
    let fields = vec![field("a", DataType::Int32, true), field("b", DataType::Int64, true), field("c", DataType::Utf8, true)];
    let result = stats_columns(fields, &["a", "b", "c"]);
    assert!(result.is_ok());
}

#[test]
fn columns_with_statistics_are_in_the_order_of_the_schema() {
    let fields = vec![field("z", DataType::Float64, true), field("y", DataType::Int64, true), field("x", DataType::Int32, true)];
    let stats = stats_columns(fields, &["z", "x"]).unwrap();
    assert_eq!(
        stats,
        vec![StatsColumn { column: 0, batch_column: 2 }, StatsColumn { column: 2, batch_column: 0 }]
    );
}

#[test]
fn statistics_stand_behind_their_row_groups() {
    let mut writer = new_writer(
        id_fields(),
        WriterOptions { num_buckets: 1, compression: COMPRESSION_NONE, row_group_max_size: 1, ..Default::default() },
    );
    writer.write_batch(&one_id()).unwrap();
    writer.write_batch(&one_id()).unwrap();
    writer.close_with_stats(&vec![vec![1, 2, 3], vec![4]]).unwrap();
    let data = writer.output().bytes.clone();
    let len = data.len() as u64;
    let file = MemoryFile::new(data);
    let meta = FileMeta::read(&file, len).unwrap();
    let mut index = IndexReader::new(meta.index.clone(), 1, meta.footer.schema_block_offset);
    let first = index.next_row_group().unwrap();
    assert_eq!(&index.rest()[..3], &[1, 2, 3]);
    index.skip(3).unwrap();
    let second = index.next_row_group().unwrap();
    assert_eq!(index.rest(), &[4]);
    assert_eq!(index.finish(), Err(Error::TrailingIndexBytes));
    index.skip(1).unwrap();
    assert_eq!(index.finish(), Ok(()));
    let (schema, _) = MosaicSchema::from_fields(&id_fields(), 1).unwrap();
    let reader = MosaicReader::new(file, &meta, schema, vec![first, second]).unwrap();
    assert_eq!(reader.row_group_reader(1).unwrap().read_columns().unwrap().columns, vec![ints(vec![7])]);
}

#[test]
fn the_output_can_be_reached_while_the_writer_is_open() {
    let mut writer = new_writer(id_fields(), WriterOptions { num_buckets: 1, compression: COMPRESSION_NONE, ..Default::default() });
    writer.write_batch(&one_id()).unwrap();
    writer.output_mut().bytes.reserve(1000);
    writer.close().unwrap();
    let len = writer.output().bytes.len();
    assert_eq!(writer.output_mut().bytes.len(), len);
    assert_eq!(&writer.output().bytes[len - 4..], &MAGIC);
}
