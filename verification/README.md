# Mosaic

Mosaic is a columnar file format. The columns of a row group are sorted by name and spread over
buckets; a bucket is compressed in one piece, or column by column behind a directory. A column is
stored as a constant, by a dictionary, as plain values, or not at all where all its rows are null.
This crate writes such files, reads them back, and writes row groups as columnar JSON.

`src/` is the library. It is written in Verus: its functions state what they return and change, and
Verus proves it. Where zstd, a file or a caller's own code has a say, they state what holds whatever
the answer was. `tests/` runs the library on concrete files. `app/` is ordinary Rust
around the library: Arrow arrays, files on disk, floating point numbers and the calls from Java.

## What is proved

- A file that was closed without an error can be opened, and every row that was taken is read back,
  for any choice of columns (`file_laws`, `writer`). This holds where the schema and the index fit
  into memory, and where no bucket by pages has more than 65,535 columns below its lists and maps:
  its directory counts them with 16 bits.
- Buckets, pages, directories, indexes, footers, values, variable-length numbers and packed bits read
  back as they were written (`bucket_laws`, `paged`, `row_index`, `footer`, `values`, `varint`,
  `bits`).
- Names that were encoded by byte pairs decode to themselves, and the incremental way of learning the
  pairs learns the same ones as scanning the names anew: each is the most frequent pair that the
  rules before it have left, and there is another as long as a pair repeats (`bpe`,
  `incremental_bpe`).
- Columns are spread evenly: the sizes of two buckets differ by at most one column (`format`).
- What is told of some columns is what is told of all of them (`page_info`).
- A row group that passes the checks for columnar JSON can be written, and the text stays within the
  budget (`json_laws`). Repeated values and long texts are written in parts of bounded size
  (`json_repeat`).
- The bytes of a streamed frame depend on what was written and on the level alone, however the input was
  cut, unless the encoder was flushed on the way (`java_compatible_zstd`).
- Bytes that cannot be a file end in an error that the contracts tell, and never in a panic.

## What is taken for granted

The library calls zstd for compression and sha2 for the digest of a schema, and a few functions of
the standard library. Their contracts are believed, and each says so where it is declared: in
`compression`, `java_compatible_zstd`, `bucket_writer`, `incremental_bpe`, `input` and
`json_doubles`. Files and outputs are traits; what a file of another crate has to hold to is said
there.

Floating point numbers are held by their bits. The bytes of a schema, and those of the statistics of
row groups, are handed in and out as they are.
