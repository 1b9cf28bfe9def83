//! Reading files.
use std::sync::Arc;
use vstd::prelude::*;
use crate::encoded_column::value_views;
use crate::error::Error;
use crate::footer::{file_meta, FileMeta};
use crate::format::{BucketLayout, ENCODING_ALL_NULL, ENCODING_CONST, ENCODING_DICT, ENCODING_PLAIN, FOOTER_SIZE};
use crate::input::{share, InputFile};
use crate::row_group::{lemma_projection_inside, load_row_group, mark_projected, projection_error, projection_of, request_of,
    GroupRequest};
use crate::row_group_reader::RowGroupReader;
use crate::row_index::{read_row_group, row_group_at, ColumnStats, RowGroupMeta, RowGroupView};
use crate::schema::MosaicSchema;
use crate::values::Value;

verus! {

/// How a column is encoded.
#[derive(Clone, Copy, Debug, PartialEq, Eq, Structural)]
#[non_exhaustive]
pub enum Encoding {
    Plain,
    Const,
    Dict,
    AllNull,
    Other(u8),
}

/// The encoding that a code stands for.
pub open spec fn encoding_of_code(code: u8) -> Encoding {
    if code == ENCODING_PLAIN {
        Encoding::Plain
    } else if code == ENCODING_CONST {
        Encoding::Const
    } else if code == ENCODING_DICT {
        Encoding::Dict
    } else if code == ENCODING_ALL_NULL {
        Encoding::AllNull
    } else {
        Encoding::Other(code)
    }
}

impl Encoding {
    pub fn from_code(code: u8) -> (encoding: Self)
        ensures
            encoding == encoding_of_code(code),
    {
        if code == ENCODING_PLAIN {
            Encoding::Plain
        } else if code == ENCODING_CONST {
            Encoding::Const
        } else if code == ENCODING_DICT {
            Encoding::Dict
        } else if code == ENCODING_ALL_NULL {
            Encoding::AllNull
        } else {
            Encoding::Other(code)
        }
    }
}

// ---------------------------------------------------------------- the index

/// Reads the row groups of the index one after another. Statistics may stand behind each row group;
/// whoever knows how long they are moves on behind them.
pub struct IndexReader {
    data: Vec<u8>,
    pos: usize,
    num_buckets: usize,
    limit: u64,
}

impl IndexReader {
    pub closed spec fn bytes(&self) -> Seq<u8> {
        self.data@
    }

    pub closed spec fn at(&self) -> int {
        self.pos as int
    }

    pub closed spec fn buckets(&self) -> nat {
        self.num_buckets as nat
    }

    pub closed spec fn end_of_data(&self) -> u64 {
        self.limit
    }

    pub open spec fn wf(&self) -> bool {
        0 <= self.at() <= self.bytes().len()
    }

    /// The index is the same; only the position may differ.
    pub open spec fn same_index(&self, other: &IndexReader) -> bool {
        self.bytes() == other.bytes() && self.buckets() == other.buckets() && self.end_of_data() == other.end_of_data()
    }

    pub fn new(index: Vec<u8>, num_buckets: usize, limit: u64) -> (reader: Self)
        ensures
            reader.wf(),
            reader.bytes() == index@,
            reader.at() == 0,
            reader.buckets() == num_buckets,
            reader.end_of_data() == limit,
    {
        IndexReader { data: index, pos: 0, num_buckets, limit }
    }

    /// Reads the next row group.
    pub fn next_row_group(&mut self) -> (result: Result<RowGroupMeta, Error>)
        requires
            old(self).wf(),
        ensures
            final(self).same_index(old(self)),
            match row_group_at(old(self).bytes(), old(self).at(), old(self).buckets(), old(self).end_of_data() as int) {
                Ok((group, end)) => result matches Ok(meta) && meta@ == group && meta.stats@.len() == 0 && group.wf(
                    old(self).buckets() as int,
                    old(self).end_of_data() as int,
                ) && final(self).wf() && final(self).at() == end,
                Err(e) => result matches Err(x) && x == e,
            },
    {
        let mut pos: usize = self.pos;
        let result = read_row_group(self.data.as_slice(), &mut pos, self.num_buckets, self.limit);
        self.pos = pos;
        result
    }

    /// The bytes from the position on.
    pub fn rest(&self) -> (bytes: &[u8])
        requires
            self.wf(),
        ensures
            bytes@ == self.bytes().skip(self.at()),
    {
        let bytes: &[u8] = vstd::slice::slice_subrange(self.data.as_slice(), self.pos, self.data.len());
        assert(bytes@ =~= self.bytes().skip(self.at()));
        bytes
    }

    /// Moves on by some bytes.
    pub fn skip(&mut self, len: usize) -> (result: Result<(), Error>)
        requires
            old(self).wf(),
        ensures
            final(self).same_index(old(self)),
            final(self).wf(),
            old(self).at() + len <= old(self).bytes().len() ==> result == Ok::<(), Error>(()) && final(self).at() == old(self).at() + len,
            old(self).at() + len > old(self).bytes().len() ==> result == Err::<(), Error>(Error::CorruptRowGroupIndex)
                && final(self).at() == old(self).at(),
    {
        if len > self.data.len() - self.pos {
            return Err(Error::CorruptRowGroupIndex);
        }
        self.pos = self.pos + len;
        Ok(())
    }

    /// Checks that the whole index was read.
    pub fn finish(&self) -> (result: Result<(), Error>)
        requires
            self.wf(),
        ensures
            self.at() == self.bytes().len() ==> result == Ok::<(), Error>(()),
            self.at() != self.bytes().len() ==> result == Err::<(), Error>(Error::TrailingIndexBytes),
    {
        if self.pos != self.data.len() {
            return Err(Error::TrailingIndexBytes);
        }
        Ok(())
    }
}

/// The first `n` row groups of an index without statistics, and the position behind them.
pub open spec fn row_groups_at(data: Seq<u8>, n: nat, num_buckets: nat, limit: int) -> Result<(Seq<RowGroupView>, int), Error>
    decreases n,
{
    if n == 0 {
        Ok((Seq::empty(), 0))
    } else {
        match row_groups_at(data, (n - 1) as nat, num_buckets, limit) {
            Err(e) => Err(e),
            Ok((groups, pos)) => match row_group_at(data, pos, num_buckets, limit) {
                Err(e) => Err(e),
                Ok((group, end)) => Ok((groups.push(group), end)),
            },
        }
    }
}

/// All row groups of an index without statistics.
pub open spec fn index_groups(data: Seq<u8>, n: nat, num_buckets: nat, limit: int) -> Result<Seq<RowGroupView>, Error> {
    match row_groups_at(data, n, num_buckets, limit) {
        Err(e) => Err(e),
        Ok((groups, end)) => if end != data.len() {
            Err(Error::TrailingIndexBytes)
        } else {
            Ok(groups)
        },
    }
}

pub open spec fn group_views(metas: Seq<RowGroupMeta>) -> Seq<RowGroupView> {
    Seq::new(metas.len(), |i: int| metas[i]@)
}

proof fn lemma_groups_error(data: Seq<u8>, n: nat, m: nat, num_buckets: nat, limit: int)
    requires
        n <= m,
        row_groups_at(data, n, num_buckets, limit) is Err,
    ensures
        row_groups_at(data, m, num_buckets, limit) == row_groups_at(data, n, num_buckets, limit),
    decreases m,
{
    if n < m {
        lemma_groups_error(data, n, (m - 1) as nat, num_buckets, limit);
    }
}

/// Reads an index without statistics.
pub fn read_index(index: Vec<u8>, num_row_groups: usize, num_buckets: usize, limit: u64) -> (result: Result<Vec<RowGroupMeta>, Error>)
    ensures
        match index_groups(index@, num_row_groups as nat, num_buckets as nat, limit as int) {
            Ok(groups) => result matches Ok(metas) && group_views(metas@) == groups && metas_ok(
                metas@,
                num_buckets as int,
                limit as int,
            ),
            Err(e) => result matches Err(x) && x == e,
        },
{
    let ghost data = index@;
    let mut reader: IndexReader = IndexReader::new(index, num_buckets, limit);
    let mut metas: Vec<RowGroupMeta> = Vec::new();
    let mut i: usize = 0;
    assert(group_views(metas@) =~= Seq::empty());
    while i < num_row_groups
        invariant
            i <= num_row_groups,
            data == index@,
            reader.wf(),
            reader.bytes() == data,
            reader.buckets() == num_buckets,
            reader.end_of_data() == limit,
            row_groups_at(data, i as nat, num_buckets as nat, limit as int) == Ok::<(Seq<RowGroupView>, int), Error>(
                (group_views(metas@), reader.at()),
            ),
            metas_ok(metas@, num_buckets as int, limit as int),
        decreases num_row_groups - i,
    {
        let ghost before = metas@;
        match reader.next_row_group() {
            Err(e) => {
                proof {
                    lemma_groups_error(data, (i + 1) as nat, num_row_groups as nat, num_buckets as nat, limit as int);
                }
                return Err(e);
            },
            Ok(meta) => {
                metas.push(meta);
                assert(group_views(metas@) =~= group_views(before).push(meta@));
            },
        }
        i += 1;
    }
    match reader.finish() {
        Ok(_) => Ok(metas),
        Err(e) => Err(e),
    }
}

/// The row groups have a place for each bucket.
pub open spec fn metas_ok(metas: Seq<RowGroupMeta>, num_buckets: int, limit: int) -> bool {
    forall|i: int| 0 <= i < metas.len() ==> (#[trigger] metas[i])@.wf(num_buckets, limit)
}

// ---------------------------------------------------------------- files

/// How a bucket is stored.
#[derive(Clone, Copy, Debug, PartialEq, Eq, Structural)]
#[non_exhaustive]
pub enum BucketKind {
    Empty,
    Monolithic,
    Paged,
}

/// The layout of one bucket of a row group.
#[non_exhaustive]
pub struct BucketInfo {
    pub bucket: usize,
    pub kind: BucketKind,
    /// The bytes on disk.
    pub size: usize,
    /// The bytes without compression; 0 where they are not known.
    pub uncompressed: usize,
    /// The columns of the bucket.
    pub columns: Vec<usize>,
}

/// A file with its metadata at hand.
pub struct MosaicReader<I: InputFile> {
    input: I,
    schema: Arc<MosaicSchema>,
    schema_fingerprint: [u8; 32],
    row_group_metas: Vec<RowGroupMeta>,
    compression: u8,
    projected_columns: Option<Vec<usize>>,
}

impl<I: InputFile> MosaicReader<I> {
    pub closed spec fn file(&self) -> Seq<u8> {
        self.input.contents()
    }

    pub closed spec fn schema_of(&self) -> MosaicSchema {
        *self.schema
    }

    pub closed spec fn groups(&self) -> Seq<RowGroupMeta> {
        self.row_group_metas@
    }

    pub closed spec fn compression_code(&self) -> u8 {
        self.compression
    }

    pub closed spec fn fingerprint(&self) -> Seq<u8> {
        self.schema_fingerprint@
    }

    pub closed spec fn projection(&self) -> Option<Seq<usize>> {
        match self.projected_columns {
            Some(columns) => Some(columns@),
            None => None,
        }
    }

    /// The bytes that the file has can always be read.
    pub closed spec fn never_fails(&self) -> bool {
        self.input.never_fails()
    }

    /// The buckets of a row group lie inside the file and can always be read.
    pub open spec fn is_whole(&self, rg_index: int) -> bool {
        self.never_fails() && self.groups()[rg_index]@.wf(self.schema_of().num_buckets as int, self.file().len() as int)
    }

    /// Reading the columns of a row group may fail: nothing is wrong with what is asked for, nor with
    /// what the index tells of the buckets.
    pub open spec fn reads_may_fail(&self, rg_index: int, columns: Seq<usize>) -> bool {
        &&& self.may_fail(rg_index, columns)
        &&& self.request(rg_index, columns).plan_errors(self.schema_of().num_buckets as nat) is None
    }

    /// The row group and the columns are there, and reads of it may fail.
    pub open spec fn may_fail(&self, rg_index: int, columns: Seq<usize>) -> bool {
        &&& rg_index < self.groups().len()
        &&& projection_error(columns, self.schema_of().columns@.len() as int, columns.len()) is None
        &&& !self.is_whole(rg_index)
    }

    pub open spec fn wf(&self) -> bool {
        &&& self.schema_of().wf()
        &&& metas_ok(self.groups(), self.schema_of().num_buckets as int, u64::MAX as int)
    }

    /// Only the projection may differ.
    pub open spec fn same_file(&self, other: &Self) -> bool {
        self.file() == other.file() && self.schema_of() == other.schema_of() && self.groups() == other.groups()
            && self.compression_code() == other.compression_code() && self.fingerprint() == other.fingerprint() && self.never_fails()
            == other.never_fails()
    }

    /// What is wrong with a schema for a file.
    pub open spec fn schema_error(num_buckets: int, schema: MosaicSchema) -> Option<Error> {
        if schema.num_buckets != num_buckets {
            Some(Error::BucketCountMismatch)
        } else if num_buckets == 0 {
            Some(Error::NoBuckets)
        } else {
            None
        }
    }

    /// Checks that a schema is one of a file with so many buckets. This comes before the index is
    /// read.
    pub fn check_schema(num_buckets: usize, schema: &MosaicSchema) -> (result: Result<(), Error>)
        ensures
            match Self::schema_error(num_buckets as int, *schema) {
                Some(e) => result == Err::<(), Error>(e),
                None => result is Ok,
            },
    {
        if schema.num_buckets != num_buckets {
            return Err(Error::BucketCountMismatch);
        }
        if num_buckets == 0 {
            return Err(Error::NoBuckets);
        }
        Ok(())
    }

    /// A file whose metadata was read.
    pub fn new(input: I, meta: &FileMeta, schema: MosaicSchema, row_group_metas: Vec<RowGroupMeta>) -> (result: Result<Self, Error>)
        requires
            schema.wf(),
            metas_ok(row_group_metas@, meta.footer.num_buckets as int, u64::MAX as int),
        ensures
            match Self::schema_error(meta.footer.num_buckets as int, schema) {
                Some(e) => result matches Err(x) && x == e,
                None => result matches Ok(reader) && reader.wf() && reader.file() == input.contents() && reader.schema_of() == schema
                    && reader.groups() == row_group_metas@ && reader.compression_code() == meta.footer.compression
                    && reader.fingerprint() == meta.schema_fingerprint@ && reader.projection() is None && reader.never_fails()
                    == input.never_fails(),
            },
    {
        match Self::check_schema(meta.footer.num_buckets as usize, &schema) {
            Ok(_) => {},
            Err(e) => {
                return Err(e);
            },
        }
        Ok(
            MosaicReader {
                input,
                schema: Arc::new(schema),
                schema_fingerprint: meta.schema_fingerprint,
                row_group_metas,
                compression: meta.footer.compression,
                projected_columns: None,
            },
        )
    }

    /// What keeps a file without statistics from being opened.
    pub open spec fn open_error(contents: Seq<u8>, file_len: int, schema: MosaicSchema) -> Option<Error> {
        match file_meta(contents, file_len) {
            Err(e) => Some(e),
            Ok(meta) => match Self::schema_error(meta.footer.num_buckets as int, schema) {
                Some(e) => Some(e),
                None => match index_groups(
                    meta.index,
                    meta.footer.num_row_groups as nat,
                    meta.footer.num_buckets as nat,
                    meta.footer.schema_block_offset as int,
                ) {
                    Err(e) => Some(e),
                    Ok(_) => None,
                },
            },
        }
    }

    /// The reader is one of a file without statistics, as its metadata tell.
    pub open spec fn is_opened(&self, contents: Seq<u8>, file_len: int, schema: MosaicSchema) -> bool {
        let meta = file_meta(contents, file_len)->Ok_0;
        &&& self.wf()
        &&& self.file() == contents
        &&& self.schema_of() == schema
        &&& group_views(self.groups()) == index_groups(
            meta.index,
            meta.footer.num_row_groups as nat,
            meta.footer.num_buckets as nat,
            meta.footer.schema_block_offset as int,
        )->Ok_0
        &&& self.compression_code() == meta.footer.compression
        &&& self.fingerprint() == crate::compression::sha256(meta.schema_raw)
        &&& self.projection() is None
    }

    /// Opens a file without statistics whose schema is known.
    pub fn open(input: I, file_len: u64, schema: MosaicSchema) -> (result: Result<Self, Error>)
        requires
            schema.wf(),
        ensures
            result matches Err(e) ==> (e is Io && file_len >= FOOTER_SIZE && !(input.never_fails() && file_len <= input.contents().len())) || Self::open_error(
                input.contents(),
                file_len as int,
                schema,
            ) == Some(e),
            result matches Ok(reader) ==> (input.never_fails() && file_len <= input.contents().len() ==> forall|rg: int|
                0 <= rg < reader.groups().len() ==> #[trigger] reader.is_whole(rg)),
            result matches Ok(reader) ==> Self::open_error(input.contents(), file_len as int, schema) is None && reader.is_opened(
                input.contents(),
                file_len as int,
                schema,
            ),
    {
        let meta: FileMeta = match FileMeta::read(&input, file_len) {
            Ok(meta) => meta,
            Err(e) => {
                return Err(e);
            },
        };
        let num_buckets: usize = meta.footer.num_buckets as usize;
        match Self::check_schema(num_buckets, &schema) {
            Ok(_) => {},
            Err(e) => {
                return Err(e);
            },
        }
        let index: Vec<u8> = vstd::slice::slice_to_vec(meta.index.as_slice());
        let limit: u64 = meta.footer.schema_block_offset;
        match read_index(index, meta.footer.num_row_groups as usize, num_buckets, limit) {
            Ok(metas) => {
                proof {
                    assert forall|i: int| 0 <= i < metas@.len() implies (#[trigger] metas@[i])@.wf(num_buckets as int, u64::MAX as int) by {
                        assert(metas@[i]@.wf(num_buckets as int, limit as int));
                    }
                }
                MosaicReader::new(input, &meta, schema, metas)
            },
            Err(e) => Err(e),
        }
    }

    pub fn schema(&self) -> (schema: &MosaicSchema)
        ensures
            *schema == self.schema_of(),
    {
        &self.schema
    }

    pub fn input(&self) -> (input: &I)
        ensures
            input.contents() == self.file(),
            input.never_fails() == self.never_fails(),
    {
        &self.input
    }

    /// The digest of the bytes of the schema.
    pub fn schema_fingerprint(&self) -> (fingerprint: &[u8; 32])
        ensures
            fingerprint@ == self.fingerprint(),
    {
        &self.schema_fingerprint
    }

    /// The code of the compression.
    pub fn compression(&self) -> (code: u8)
        ensures
            code == self.compression_code(),
    {
        self.compression
    }

    pub fn num_row_groups(&self) -> (count: usize)
        ensures
            count == self.groups().len(),
    {
        self.row_group_metas.len()
    }

    pub fn row_group_num_rows(&self, rg_index: usize) -> (result: Result<usize, Error>)
        ensures
            rg_index < self.groups().len() ==> result == Ok::<usize, Error>(self.groups()[rg_index as int].num_rows),
            rg_index >= self.groups().len() ==> result == Err::<usize, Error>(
                Error::RowGroupIndexOutOfRange { index: rg_index, num_row_groups: self.groups().len() as usize },
            ),
    {
        if rg_index >= self.row_group_metas.len() {
            return Err(Error::RowGroupIndexOutOfRange { index: rg_index, num_row_groups: self.row_group_metas.len() });
        }
        Ok(self.row_group_metas[rg_index].num_rows)
    }

    pub fn row_group_stats(&self, rg_index: usize) -> (result: Result<&Vec<ColumnStats>, Error>)
        ensures
            rg_index < self.groups().len() ==> (result matches Ok(stats) && *stats == self.groups()[rg_index as int].stats),
            rg_index >= self.groups().len() ==> (result matches Err(e) && e == (Error::RowGroupIndexOutOfRange {
                index: rg_index,
                num_row_groups: self.groups().len() as usize,
            })),
    {
        if rg_index >= self.row_group_metas.len() {
            return Err(Error::RowGroupIndexOutOfRange { index: rg_index, num_row_groups: self.row_group_metas.len() });
        }
        Ok(&self.row_group_metas[rg_index].stats)
    }

    /// Asks for the columns of the given names from now on.
    pub fn project(&mut self, column_names: &[&str]) -> (result: Result<(), Error>)
        ensures
            final(self).same_file(old(self)),
            result is Ok ==> (final(self).projection() matches Some(columns) && old(self).schema_of().names_found(
                column_names@,
                columns,
            )),
            result matches Err(e) ==> final(self).projection() == old(self).projection() && exists|i: int|
                #[trigger] old(self).schema_of().not_found(column_names@, i, e),
    {
        match self.schema.find_columns(column_names) {
            Ok(indices) => {
                self.projected_columns = Some(indices);
                Ok(())
            },
            Err(e) => {
                proof {
                    let i = choose|i: int| #[trigger] self.schema.not_found(column_names@, i, e);
                    assert(self.schema_of().not_found(column_names@, i, e));
                }
                Err(e)
            },
        }
    }

    /// The request for some columns of a row group.
    pub open spec fn request(&self, rg_index: int, columns: Seq<usize>) -> GroupRequest {
        request_of(
            self.schema_of(),
            self.groups()[rg_index]@,
            self.compression_code(),
            self.file(),
            projection_of(columns, self.schema_of().columns@.len()),
        )
    }

    /// What keeps some columns of a row group from being read, reads that fail aside.
    pub open spec fn group_error(&self, rg_index: int, columns: Seq<usize>) -> Option<Error> {
        if rg_index >= self.groups().len() {
            Some(Error::RowGroupOutOfRange)
        } else {
            match projection_error(columns, self.schema_of().columns@.len() as int, columns.len()) {
                Some(e) => Some(e),
                None => self.request(rg_index, columns).error(),
            }
        }
    }

    /// The reader is one of the given columns of a row group.
    pub open spec fn is_group(&self, rg_index: int, columns: Seq<usize>, reader: RowGroupReader) -> bool {
        &&& reader.wf()
        &&& reader.schema_of() == self.schema_of()
        &&& reader.states() == self.request(rg_index, columns).states()
        &&& reader.rows() == self.groups()[rg_index].num_rows
        &&& reader.projected() == projection_of(columns, self.schema_of().columns@.len())
        &&& reader.order() == columns
    }

    /// Reads some columns of a row group.
    pub fn row_group_reader_projected(&self, rg_index: usize, columns: &[usize]) -> (result: Result<RowGroupReader, Error>)
        requires
            self.wf(),
        ensures
            result matches Ok(reader) ==> self.group_error(rg_index as int, columns@) is None && self.is_group(
                rg_index as int,
                columns@,
                reader,
            ),
            result matches Err(e) ==> (e is Io && self.reads_may_fail(rg_index as int, columns@)) || self.group_error(rg_index as int, columns@) == Some(e),
    {
        if rg_index >= self.row_group_metas.len() {
            return Err(Error::RowGroupOutOfRange);
        }
        let projected: Vec<bool> = match mark_projected(columns, self.schema.columns.len()) {
            Ok(projected) => projected,
            Err(e) => {
                return Err(e);
            },
        };
        let meta: &RowGroupMeta = &self.row_group_metas[rg_index];
        assert(self.groups()[rg_index as int]@.wf(self.schema_of().num_buckets as int, u64::MAX as int));
        match load_row_group(&self.input, &self.schema, meta, self.compression, &projected) {
            Ok(states) => {
                let order: Vec<usize> = vstd::slice::slice_to_vec(columns);
                proof {
                    assert forall|i: int| 0 <= i < order@.len() implies (#[trigger] order@[i]) < self.schema_of().columns@.len() by {
                        lemma_projection_inside(columns@, self.schema_of().columns@.len() as int, columns@.len(), i);
                    }
                    assert(self.request(rg_index as int, columns@).types == crate::row_group_reader::schema_types(self.schema_of()));
                }
                Ok(RowGroupReader::new(states, share(&self.schema), meta.num_rows, projected, order))
            },
            Err(e) => Err(e),
        }
    }

    /// The columns that are asked for: those of the projection, or all in the order they were
    /// given in.
    pub open spec fn asked_for(&self) -> Seq<usize> {
        match self.projection() {
            Some(columns) => columns,
            None => self.schema_of().original_order@,
        }
    }

    /// Reads a row group.
    pub fn row_group_reader(&self, rg_index: usize) -> (result: Result<RowGroupReader, Error>)
        requires
            self.wf(),
        ensures
            result matches Ok(reader) ==> self.group_error(rg_index as int, self.asked_for()) is None && self.is_group(
                rg_index as int,
                self.asked_for(),
                reader,
            ),
            result matches Err(e) ==> (e is Io && self.reads_may_fail(rg_index as int, self.asked_for())) || self.group_error(
                rg_index as int,
                self.asked_for(),
            ) == Some(e),
    {
        match &self.projected_columns {
            Some(columns) => self.row_group_reader_projected(rg_index, columns.as_slice()),
            None => self.row_group_reader_projected(rg_index, self.schema.original_order.as_slice()),
        }
    }

    /// Reads the columns of the given names of a row group.
    pub fn row_group_reader_by_names(&self, rg_index: usize, column_names: &[&str]) -> (result: Result<RowGroupReader, Error>)
        requires
            self.wf(),
        ensures
            result matches Ok(reader) ==> self.schema_of().names_found(column_names@, reader.order()) && self.group_error(
                rg_index as int,
                reader.order(),
            ) is None && self.is_group(rg_index as int, reader.order(), reader),
            result matches Err(e) ==> (exists|i: int| #[trigger] self.schema_of().not_found(column_names@, i, e)) || (
            exists|columns: Seq<usize>| #[trigger]
                self.schema_of().names_found(column_names@, columns) && ((e is Io && self.reads_may_fail(rg_index as int, columns))
                    || self.group_error(rg_index as int, columns) == Some(e))),
    {
        match self.schema.find_columns(column_names) {
            Ok(indices) => {
                assert(self.schema_of().names_found(column_names@, indices@));
                match self.row_group_reader_projected(rg_index, indices.as_slice()) {
                    Ok(reader) => Ok(reader),
                    Err(e) => {
                        assert((e is Io && self.reads_may_fail(rg_index as int, indices@)) || self.group_error(rg_index as int, indices@) == Some(
                            e,
                        ));
                        Err(e)
                    },
                }
            },
            Err(e) => Err(e),
        }
    }

    /// What is known of a row group.
    pub(crate) fn row_group_meta(&self, rg_index: usize) -> (meta: &RowGroupMeta)
        requires
            rg_index < self.groups().len(),
        ensures
            *meta == self.groups()[rg_index as int],
    {
        &self.row_group_metas[rg_index]
    }

    /// What is told of a bucket.
    pub open spec fn info_of(&self, rg_index: int, b: int, info: BucketInfo) -> bool {
        let layout = self.groups()[rg_index].bucket_layouts@[b];
        &&& info.bucket == b
        &&& info.kind == kind_of(layout)
        &&& info.size == layout.sizes().0
        &&& info.uncompressed == layout.sizes().1
        &&& info.columns@ == self.schema_of().bucket_to_global@[b]@
    }

    /// The layouts of the buckets of a row group.
    pub fn bucket_infos(&self, rg_index: usize) -> (result: Result<Vec<BucketInfo>, Error>)
        requires
            self.wf(),
        ensures
            rg_index >= self.groups().len() ==> (result matches Err(e) && e == Error::RowGroupOutOfRange),
            rg_index < self.groups().len() ==> (result matches Ok(infos) && infos@.len() == self.schema_of().num_buckets && forall|b: int|
                0 <= b < infos@.len() ==> self.info_of(rg_index as int, b, #[trigger] infos@[b])),
    {
        if rg_index >= self.row_group_metas.len() {
            return Err(Error::RowGroupOutOfRange);
        }
        let meta: &RowGroupMeta = &self.row_group_metas[rg_index];
        assert(self.groups()[rg_index as int]@.wf(self.schema_of().num_buckets as int, u64::MAX as int));
        let mut infos: Vec<BucketInfo> = Vec::new();
        let mut b: usize = 0;
        while b < self.schema.num_buckets
            invariant
                b <= self.schema.num_buckets,
                self.wf(),
                rg_index < self.groups().len(),
                *meta == self.groups()[rg_index as int],
                meta@.wf(self.schema_of().num_buckets as int, u64::MAX as int),
                infos@.len() == b,
                forall|c: int| 0 <= c < b ==> self.info_of(rg_index as int, c, #[trigger] infos@[c]),
            decreases self.schema.num_buckets - b,
        {
            let (size, uncompressed) = meta.bucket_layouts[b].encode();
            let kind: BucketKind = match meta.bucket_layouts[b] {
                BucketLayout::Empty => BucketKind::Empty,
                BucketLayout::Monolithic { .. } => BucketKind::Monolithic,
                BucketLayout::Paged { .. } => BucketKind::Paged,
            };
            let columns: Vec<usize> = vstd::slice::slice_to_vec(self.schema.bucket_to_global[b].as_slice());
            infos.push(BucketInfo { bucket: b, kind, size, uncompressed, columns });
            b += 1;
        }
        Ok(infos)
    }

    /// The entries of the dictionary of a column in a row group; nothing of a column without one.
    pub fn dictionary(&self, rg_index: usize, col: usize) -> (result: Result<Option<Vec<Value>>, Error>)
        requires
            self.wf(),
        ensures
            result matches Err(e) ==> (e is Io && self.reads_may_fail(rg_index as int, seq![col])) || self.group_error(rg_index as int, seq![col]) == Some(e),
            result matches Ok(found) ==> self.group_error(rg_index as int, seq![col]) is None && exists|reader: RowGroupReader|
                #[trigger] self.is_group(rg_index as int, seq![col], reader) && dictionary_of(reader, col as int, found),
    {
        let mut columns: Vec<usize> = Vec::new();
        columns.push(col);
        assert(columns@ =~= seq![col]);
        match self.row_group_reader_projected(rg_index, columns.as_slice()) {
            Err(e) => Err(e),
            Ok(reader) => {
                proof {
                    lemma_projection_inside(columns@, self.schema_of().columns@.len() as int, 1, 0);
                }
                let found: Option<Vec<Value>> = reader.take_dictionary(col);
                assert(dictionary_of(reader, col as int, found));
                Ok(found)
            },
        }
    }
}

/// The entries of the dictionary of a column of a row group.
pub open spec fn dictionary_of(reader: RowGroupReader, col: int, found: Option<Vec<Value>>) -> bool {
    match reader.stored_column(col) {
        Ok(column) => if column.dict.len() == 0 {
            found is None
        } else {
            found matches Some(values) && value_views(values@) == column.dict
        },
        Err(_) => found is None,
    }
}

pub open spec fn kind_of(layout: BucketLayout) -> BucketKind {
    match layout {
        BucketLayout::Empty => BucketKind::Empty,
        BucketLayout::Monolithic { .. } => BucketKind::Monolithic,
        BucketLayout::Paged { .. } => BucketKind::Paged,
    }
}

/// The row groups of an index that is taken fill it to its end: they are as many as the file tells, and
/// each stands right behind the one before it.
pub proof fn indexes_are_read_to_their_end(data: Seq<u8>, n: nat, num_buckets: nat, limit: int)
    ensures
        index_groups(data, n, num_buckets, limit) matches Ok(groups) ==> groups.len() == n && exists|ends: Seq<int>| #[trigger]
            groups_stand(data, groups, ends, num_buckets, limit) && ends.last() == data.len(),
{
    if let Ok(groups) = index_groups(data, n, num_buckets, limit) {
        let ends = lemma_groups_stand(data, n, num_buckets, limit);
        assert(groups_stand(data, groups, ends, num_buckets, limit) && ends.last() == data.len());
    }
}

/// Row group `i` stands from `ends[i]` up to `ends[i + 1]`.
pub open spec fn groups_stand(data: Seq<u8>, groups: Seq<RowGroupView>, ends: Seq<int>, num_buckets: nat, limit: int) -> bool {
    &&& ends.len() == groups.len() + 1
    &&& ends[0] == 0
    &&& forall|i: int|
        0 <= i < groups.len() ==> row_group_at(data, ends[i], num_buckets, limit) == Ok::<(RowGroupView, int), Error>(
            (#[trigger] groups[i], ends[i + 1]),
        )
}

proof fn lemma_groups_stand(data: Seq<u8>, n: nat, num_buckets: nat, limit: int) -> (ends: Seq<int>)
    requires
        row_groups_at(data, n, num_buckets, limit) is Ok,
    ensures
        ({
            let (groups, end) = row_groups_at(data, n, num_buckets, limit)->Ok_0;
            groups.len() == n && groups_stand(data, groups, ends, num_buckets, limit) && ends.last() == end
        }),
    decreases n,
{
    if n == 0 {
        seq![0int]
    } else {
        let before = lemma_groups_stand(data, (n - 1) as nat, num_buckets, limit);
        let (groups, end) = row_groups_at(data, n, num_buckets, limit)->Ok_0;
        let ends = before.push(end);
        assert forall|i: int| 0 <= i < groups.len() implies row_group_at(data, ends[i], num_buckets, limit) == Ok::<
            (RowGroupView, int),
            Error,
        >((#[trigger] groups[i], ends[i + 1])) by {
            let first = row_groups_at(data, (n - 1) as nat, num_buckets, limit)->Ok_0.0;
            if i < n - 1 {
                assert(groups[i] == first[i]);
            }
        }
        ends
    }
}

} // verus!
