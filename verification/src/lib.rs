//! Mosaic: a columnar file format whose columns are spread over buckets.
//!
//! A file is a row of row groups, a schema, an index and a footer. Each row group holds the columns
//! of a batch of rows, sorted by name and spread over buckets; a bucket stands in the file in one
//! piece, or by pages with a directory. Every column is stored as one constant, by a dictionary, as
//! it is, or not at all where every row is null.
//!
//! - Writing: [`writer`], and below it [`batch`], [`bucket_writer`], [`column_writer`],
//!   [`dictionary`], [`bucket_image`], [`bucket_output`] and [`stats`].
//! - Reading: [`reader`], and below it [`footer`], [`row_index`], [`row_group`],
//!   [`row_group_reader`], [`bucket_reader`], [`paged`], [`encoded_column`], [`raw_column`],
//!   [`const_fill`], [`reassemble`] and [`page_info`].
//! - What both share: [`format`](mod@format), [`schema`], [`types`], [`values`], [`column`],
//!   [`varint`], [`codec`], [`bits`], [`decimal`], [`compression`], [`input`], [`output`],
//!   [`visitor`], [`sorting`] and [`error`].
//! - Names by byte pairs: [`bpe`] and [`incremental_bpe`].
//! - Columnar JSON of a row group: [`columnar_json`], [`json_columns`], [`json_doubles`],
//!   [`json_repeat`], [`json_text`] and [`json_writer`].
//! - Frames for readers in Java: [`java_compatible_zstd`].
//! - What holds of files and their parts: [`bucket_laws`], [`read_back`], [`file_laws`], [`stored_laws`],
//!   [`batch_laws`], [`page_laws`] and [`writer_laws`].
//! - What holds of columnar JSON: [`json_laws`], [`json_numbers`], [`json_double_laws`], [`json_strings`],
//!   [`json_reads_back`] and [`json_file_laws`].

pub mod batch;
pub mod batch_laws;
pub mod bits;
pub mod bpe;
pub mod bucket_image;
pub mod bucket_laws;
pub mod bucket_output;
pub mod bucket_reader;
pub mod bucket_writer;
pub mod codec;
pub mod column;
pub mod column_writer;
pub mod columnar_json;
pub mod compression;
pub mod const_fill;
pub mod decimal;
pub mod dictionary;
pub mod encoded_column;
pub mod error;
pub mod file_laws;
pub mod footer;
pub mod format;
pub mod incremental_bpe;
pub mod input;
pub mod java_compatible_zstd;
pub mod json_columns;
pub mod json_double_laws;
pub mod json_doubles;
pub mod json_file_laws;
pub mod json_laws;
pub mod json_numbers;
pub mod json_reads_back;
pub mod json_repeat;
pub mod json_strings;
pub mod json_text;
pub mod json_writer;
pub mod output;
pub mod page_info;
pub mod page_laws;
pub mod paged;
pub mod raw_column;
pub mod read_back;
pub mod reader;
pub mod reassemble;
pub mod row_group;
pub mod row_group_reader;
pub mod row_index;
pub mod schema;
pub mod sorting;
pub mod stats;
pub mod stored_laws;
pub mod types;
pub mod values;
pub mod varint;
pub mod visitor;
pub mod writer;
pub mod writer_laws;
