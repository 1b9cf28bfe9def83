//! The footer of a file and the metadata in front of it.
use vstd::prelude::*;
use vstd::slice::{slice_subrange, slice_to_vec};
use crate::codec::{be_bytes, be_value, get_be, lemma_be_bytes_of_value, lemma_be_value_of_bytes, lemma_pow256, put_be};
use crate::compression::{decompress_zstd, decompressed, schema_digest, sha256};
use crate::error::Error;
use crate::format::{COMPRESSION_NONE, COMPRESSION_ZSTD, FOOTER_SIZE, MAGIC, VERSION};
use crate::input::{read_range, InputFile};

verus! {

/// So many bytes are read from the end of a file at once.
pub const TAIL_PREFETCH_SIZE: u64 = 65_536;

/// The last bytes of a file: where its metadata stands, and how it is compressed.
#[derive(Clone, Copy, Debug, PartialEq, Eq, Structural)]
pub struct Footer {
    pub index_offset: u64,
    pub schema_block_offset: u64,
    pub num_buckets: u32,
    pub num_row_groups: u32,
    pub compression: u8,
}

/// The bytes of a footer.
pub open spec fn footer_bytes(footer: Footer) -> Seq<u8> {
    be_bytes(footer.index_offset as nat, 8) + be_bytes(footer.schema_block_offset as nat, 8) + be_bytes(
        footer.num_buckets as nat,
        4,
    ) + be_bytes(footer.num_row_groups as nat, 4) + seq![footer.compression, VERSION, 0u8, 0u8] + MAGIC@
}

/// The offsets lie one behind the other in a file of the given length.
pub open spec fn offsets_in_order(footer: Footer, file_len: int) -> bool {
    footer.schema_block_offset + 4 <= footer.index_offset <= file_len - FOOTER_SIZE
}

/// The footer that bytes stand for, or what is wrong with them.
pub open spec fn footer_at(bytes: Seq<u8>, file_len: int) -> Result<Footer, Error> {
    let footer = Footer {
        index_offset: be_value(bytes.subrange(0, 8)) as u64,
        schema_block_offset: be_value(bytes.subrange(8, 16)) as u64,
        num_buckets: be_value(bytes.subrange(16, 20)) as u32,
        num_row_groups: be_value(bytes.subrange(20, 24)) as u32,
        compression: bytes[24],
    };
    if bytes.subrange(28, 32) != MAGIC@ {
        Err(Error::BadMagic)
    } else if bytes[25] != VERSION {
        Err(Error::UnsupportedVersion { version: bytes[25] })
    } else if !offsets_in_order(footer, file_len) {
        Err(Error::CorruptFooter)
    } else {
        Ok(footer)
    }
}

impl Footer {
    pub fn encode(&self) -> (bytes: Vec<u8>)
        ensures
            bytes@ == footer_bytes(*self),
    {
        let mut bytes: Vec<u8> = Vec::new();
        put_be(&mut bytes, self.index_offset, 8);
        put_be(&mut bytes, self.schema_block_offset, 8);
        put_be(&mut bytes, self.num_buckets as u64, 4);
        put_be(&mut bytes, self.num_row_groups as u64, 4);
        bytes.push(self.compression);
        bytes.push(VERSION);
        bytes.push(0u8);
        bytes.push(0u8);
        let ghost front = bytes@;
        bytes.push(MAGIC[0]);
        bytes.push(MAGIC[1]);
        bytes.push(MAGIC[2]);
        bytes.push(MAGIC[3]);
        assert(bytes@ =~= front + MAGIC@);
        assert(bytes@ =~= footer_bytes(*self));
        bytes
    }

    /// Reads the footer of a file of the given length.
    pub fn decode(bytes: &[u8], file_len: u64) -> (result: Result<Self, Error>)
        requires
            bytes@.len() == FOOTER_SIZE,
            file_len >= FOOTER_SIZE,
        ensures
            result == footer_at(bytes@, file_len as int),
    {
        let good: bool = bytes[28] == MAGIC[0] && bytes[29] == MAGIC[1] && bytes[30] == MAGIC[2] && bytes[31] == MAGIC[3];
        proof {
            let end = bytes@.subrange(28, 32);
            assert(end[0] == bytes@[28] && end[1] == bytes@[29] && end[2] == bytes@[30] && end[3] == bytes@[31]);
            if good {
                assert(end =~= MAGIC@);
            }
        }
        if !good {
            return Err(Error::BadMagic);
        }
        if bytes[25] != VERSION {
            return Err(Error::UnsupportedVersion { version: bytes[25] });
        }
        proof {
            lemma_pow256();
        }
        let footer = Footer {
            index_offset: get_be(bytes, 0, 8),
            schema_block_offset: get_be(bytes, 8, 8),
            num_buckets: get_be(bytes, 16, 4) as u32,
            num_row_groups: get_be(bytes, 20, 4) as u32,
            compression: bytes[24],
        };
        let footer_start: u64 = file_len - FOOTER_SIZE as u64;
        match footer.schema_block_offset.checked_add(4) {
            None => Err(Error::CorruptFooter),
            Some(data_start) => if data_start <= footer.index_offset && footer.index_offset <= footer_start {
                Ok(footer)
            } else {
                Err(Error::CorruptFooter)
            },
        }
    }
}

/// A footer whose offsets lie in order is read as it was written.
pub proof fn footer_reads_back(footer: Footer, file_len: int)
    requires
        offsets_in_order(footer, file_len),
    ensures
        footer_bytes(footer).len() == FOOTER_SIZE,
        footer_at(footer_bytes(footer), file_len) == Ok::<Footer, Error>(footer),
{
    let bytes = footer_bytes(footer);
    lemma_pow256();
    lemma_be_value_of_bytes(footer.index_offset as nat, 8);
    lemma_be_value_of_bytes(footer.schema_block_offset as nat, 8);
    lemma_be_value_of_bytes(footer.num_buckets as nat, 4);
    lemma_be_value_of_bytes(footer.num_row_groups as nat, 4);
    assert(bytes.subrange(0, 8) =~= be_bytes(footer.index_offset as nat, 8));
    assert(bytes.subrange(8, 16) =~= be_bytes(footer.schema_block_offset as nat, 8));
    assert(bytes.subrange(16, 20) =~= be_bytes(footer.num_buckets as nat, 4));
    assert(bytes.subrange(20, 24) =~= be_bytes(footer.num_row_groups as nat, 4));
    assert(bytes.subrange(28, 32) =~= MAGIC@);
}

// ---------------------------------------------------------------- metadata

/// What stands behind the row groups of a file.
pub struct FileMeta {
    pub footer: Footer,
    pub schema_raw: Vec<u8>,
    pub schema_fingerprint: [u8; 32],
    pub index: Vec<u8>,
}

pub struct FileMetaView {
    pub footer: Footer,
    pub schema_raw: Seq<u8>,
    pub index: Seq<u8>,
}

impl View for FileMeta {
    type V = FileMetaView;

    open spec fn view(&self) -> FileMetaView {
        FileMetaView { footer: self.footer, schema_raw: self.schema_raw@, index: self.index@ }
    }
}

/// The bytes of a schema out of its block.
pub open spec fn schema_of_block(compression: u8, block: Seq<u8>, size: nat) -> Result<Seq<u8>, Error> {
    if compression == COMPRESSION_NONE {
        Ok(block)
    } else if compression == COMPRESSION_ZSTD {
        decompressed(block, size)
    } else {
        Err(Error::UnsupportedCompression { code: compression })
    }
}

/// The metadata of a footer, out of the bytes from the schema block up to the footer.
pub open spec fn meta_of(footer: Footer, meta: Seq<u8>) -> Result<FileMetaView, Error> {
    let at = footer.index_offset - footer.schema_block_offset;
    match schema_of_block(footer.compression, meta.subrange(4, at), be_value(meta.subrange(0, 4))) {
        Err(e) => Err(e),
        Ok(schema_raw) => Ok(FileMetaView { footer, schema_raw, index: meta.skip(at) }),
    }
}

/// The metadata of a file of the given length.
pub open spec fn file_meta(contents: Seq<u8>, file_len: int) -> Result<FileMetaView, Error> {
    if file_len < FOOTER_SIZE {
        Err(Error::FileTooSmall)
    } else {
        match footer_at(contents.subrange(file_len - FOOTER_SIZE, file_len), file_len) {
            Err(e) => Err(e),
            Ok(footer) => if file_len - FOOTER_SIZE - footer.schema_block_offset > usize::MAX {
                Err(Error::CorruptFooter)
            } else {
                meta_of(footer, contents.subrange(footer.schema_block_offset as int, file_len - FOOTER_SIZE))
            },
        }
    }
}

pub open spec fn meta_view(result: Result<FileMeta, Error>) -> Result<FileMetaView, Error> {
    match result {
        Ok(meta) => Ok(meta@),
        Err(e) => Err(e),
    }
}

impl FileMeta {
    /// The digest is that of the schema.
    pub open spec fn wf(&self) -> bool {
        self.schema_fingerprint@ == sha256(self.schema_raw@)
    }

    /// Takes the metadata apart.
    pub fn decode(footer: Footer, meta: &[u8]) -> (result: Result<Self, Error>)
        requires
            footer.schema_block_offset + 4 <= footer.index_offset <= footer.schema_block_offset + meta@.len(),
        ensures
            meta_view(result) == meta_of(footer, meta@),
            result matches Ok(decoded) ==> decoded.wf(),
    {
        let len: usize = meta.len();
        let at: usize = (footer.index_offset - footer.schema_block_offset) as usize;
        let size: u64 = get_be(meta, 0, 4);
        proof {
            lemma_pow256();
        }
        let block: &[u8] = slice_subrange(meta, 4, at);
        let schema_raw: Vec<u8> = if footer.compression == COMPRESSION_NONE {
            slice_to_vec(block)
        } else if footer.compression == COMPRESSION_ZSTD {
            match decompress_zstd(block, size as usize) {
                Ok(bytes) => bytes,
                Err(e) => {
                    return Err(e);
                },
            }
        } else {
            return Err(Error::UnsupportedCompression { code: footer.compression });
        };
        let schema_fingerprint: [u8; 32] = schema_digest(schema_raw.as_slice());
        let index: Vec<u8> = slice_to_vec(slice_subrange(meta, at, len));
        assert(index@ =~= meta@.skip(at as int));
        Ok(FileMeta { footer, schema_raw, schema_fingerprint, index })
    }

    /// Reads the metadata of a file: first its last bytes, and the rest only if it is not there.
    pub fn read<I: InputFile>(input: &I, file_len: u64) -> (result: Result<Self, Error>)
        ensures
            result matches Ok(meta) ==> meta.wf() && file_meta(input.contents(), file_len as int) == Ok::<FileMetaView, Error>(meta@),
            result matches Err(e) ==> (e is Io && file_len >= FOOTER_SIZE && !(input.never_fails() && file_len <= input.contents().len())) || file_meta(
                input.contents(),
                file_len as int,
            ) == Err::<FileMetaView, Error>(e),
    {
        if file_len < FOOTER_SIZE as u64 {
            return Err(Error::FileTooSmall);
        }
        let tail_size: usize = if file_len < TAIL_PREFETCH_SIZE {
            file_len as usize
        } else {
            TAIL_PREFETCH_SIZE as usize
        };
        let tail_offset: u64 = file_len - tail_size as u64;
        let tail: Vec<u8> = match read_range(input, tail_offset, tail_size) {
            Ok(bytes) => bytes,
            Err(e) => {
                return Err(e);
            },
        };
        let ghost contents = input.contents();
        let last: &[u8] = slice_subrange(tail.as_slice(), tail_size - FOOTER_SIZE, tail_size);
        assert(last@ =~= contents.subrange(file_len - FOOTER_SIZE, file_len as int));
        let footer: Footer = match Footer::decode(last, file_len) {
            Ok(footer) => footer,
            Err(e) => {
                return Err(e);
            },
        };
        let footer_start: u64 = file_len - FOOTER_SIZE as u64;
        let ghost whole = contents.subrange(footer.schema_block_offset as int, footer_start as int);
        let meta_len: u64 = footer_start - footer.schema_block_offset;
        if meta_len > usize::MAX as u64 {
            return Err(Error::CorruptFooter);
        }
        if footer.schema_block_offset >= tail_offset {
            let start: usize = (footer.schema_block_offset - tail_offset) as usize;
            let meta: &[u8] = slice_subrange(tail.as_slice(), start, tail_size - FOOTER_SIZE);
            assert(meta@ =~= whole);
            FileMeta::decode(footer, meta)
        } else {
            match read_range(input, footer.schema_block_offset, meta_len as usize) {
                Ok(bytes) => {
                    assert(bytes@ =~= whole);
                    FileMeta::decode(footer, bytes.as_slice())
                },
                Err(e) => Err(e),
            }
        }
    }
}

/// A footer is taken where it ends with the magic bytes, is of the version, and its offsets lie one
/// behind the other in the file, and only there. Apart from two bytes that tell nothing, the footer is
/// then written as it was read.
pub proof fn footers_are_taken_as_they_stand(bytes: Seq<u8>, file_len: int)
    requires
        bytes.len() == FOOTER_SIZE,
    ensures
        footer_at(bytes, file_len) is Ok <==> {
            let index_offset = be_value(bytes.subrange(0, 8));
            let schema_block_offset = be_value(bytes.subrange(8, 16));
            &&& bytes.skip(28) == MAGIC@
            &&& bytes[25] == VERSION
            &&& schema_block_offset + 4 <= index_offset
            &&& index_offset + FOOTER_SIZE <= file_len
        },
        footer_at(bytes, file_len) matches Ok(footer) ==> footer_bytes(footer).take(26) == bytes.take(26) && footer_bytes(footer).skip(28)
            == bytes.skip(28),
        footer_at(bytes, file_len) matches Err(e) ==> e == (if bytes.skip(28) != MAGIC@ {
            Error::BadMagic
        } else if bytes[25] != VERSION {
            Error::UnsupportedVersion { version: bytes[25] }
        } else {
            Error::CorruptFooter
        }),
{
    lemma_pow256();
    let (a, b, c, d) = (bytes.subrange(0, 8), bytes.subrange(8, 16), bytes.subrange(16, 20), bytes.subrange(20, 24));
    lemma_be_bytes_of_value(a);
    lemma_be_bytes_of_value(b);
    lemma_be_bytes_of_value(c);
    lemma_be_bytes_of_value(d);
    assert(bytes.skip(28) =~= bytes.subrange(28, 32));
    if let Ok(footer) = footer_at(bytes, file_len) {
        let told = footer_bytes(footer);
        assert(told.take(26) =~= a + b + c + d + seq![footer.compression, VERSION]);
        assert(bytes.take(26) =~= a + b + c + d + seq![footer.compression, VERSION]);
        assert(told.skip(28) =~= MAGIC@);
    }
}

} // verus!
