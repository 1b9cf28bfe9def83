//! Blocks of compressed bytes and the digest of a schema.
use sha2::{Digest, Sha256};
use vstd::prelude::*;
use crate::error::{Error, SizeField};

verus! {

/// The largest block that is compressed or decompressed as a whole.
pub const MAX_ZSTD_DECOMPRESS_BLOCK_SIZE: usize = 1_073_741_824;

/// A block may say that it stands for this many times its own size.
pub const MAX_DECOMPRESS_RATIO: usize = 65_536;

/// A frame stands for at most this many times its own size.
pub const MAX_BLOCK_RATIO: usize = 32_768;

/// A block of any size may say that it stands for this many bytes.
pub const MIN_DECOMPRESS_CAP: usize = 1_048_576;

/// What `zstd::bulk::compress` makes of the bytes at a level; nothing if it fails.
pub uninterp spec fn zstd_compressed(data: Seq<u8>, level: int) -> Option<Seq<u8>>;

/// What `zstd::bulk::decompress` makes of the bytes with a capacity; nothing if it fails.
pub uninterp spec fn zstd_decompressed(data: Seq<u8>, capacity: nat) -> Option<Seq<u8>>;

/// The SHA-256 digest of the bytes, as `Sha256::digest` gives it.
pub uninterp spec fn sha256(data: Seq<u8>) -> Seq<u8>;

/// `zstd::bulk::compress` gives bytes that `zstd::bulk::decompress` turns into `data` again when
/// its capacity is the length of `data`. Which bytes they are is left open, but there are some: a
/// frame starts with a magic number. They are not too few either: a frame is made of blocks, a block
/// stands for at most 128 KiB, and the smallest block that stands for any bytes has a header of three
/// bytes and one byte more. It reserves room for them before it starts, so that `data` has
/// to be of a size for which that can be done. That it fails where zstd itself can get no memory to
/// work with is left out of account.
#[verifier::external_body]
fn compress_block(data: &[u8], level: i32) -> (result: Option<Vec<u8>>)
    requires
        data@.len() <= MAX_ZSTD_DECOMPRESS_BLOCK_SIZE,
    ensures
        result matches Some(block) ==> zstd_compressed(data@, level as int) == Some(block@) && zstd_decompressed(
            block@,
            data@.len(),
        ) == Some(data@) && block@.len() > 0 && data@.len() <= MAX_BLOCK_RATIO * block@.len(),
        result is None ==> zstd_compressed(data@, level as int) is None,
{
    zstd::bulk::compress(data, level).ok()
}

/// `zstd::bulk::decompress` gives at most `capacity` bytes. It reserves the capacity before it
/// starts, so that the capacity has to be one that can be reserved. That it fails where zstd itself
/// can get no memory to work with is left out of account.
#[verifier::external_body]
fn decompress_block(data: &[u8], capacity: usize) -> (result: Option<Vec<u8>>)
    requires
        capacity <= MAX_ZSTD_DECOMPRESS_BLOCK_SIZE,
    ensures
        result matches Some(bytes) ==> zstd_decompressed(data@, capacity as nat) == Some(bytes@) && bytes@.len() <= capacity,
        result is None ==> zstd_decompressed(data@, capacity as nat) is None,
{
    zstd::bulk::decompress(data, capacity).ok()
}

/// `Sha256::digest` gives the digest of all the bytes.
#[verifier::external_body]
fn digest(data: &[u8]) -> (fingerprint: [u8; 32])
    ensures
        fingerprint@ == sha256(data@),
{
    Sha256::digest(data).into()
}

/// How many bytes a block of `len` bytes may say that it stands for.
pub open spec fn decompress_cap(len: nat) -> int {
    let scaled = len * MAX_DECOMPRESS_RATIO;
    if scaled < MIN_DECOMPRESS_CAP {
        MIN_DECOMPRESS_CAP as int
    } else if scaled > MAX_ZSTD_DECOMPRESS_BLOCK_SIZE {
        MAX_ZSTD_DECOMPRESS_BLOCK_SIZE as int
    } else {
        scaled as int
    }
}

/// What a block that says it stands for `size` bytes is decompressed to.
pub open spec fn decompressed(block: Seq<u8>, size: nat) -> Result<Seq<u8>, Error> {
    if size > decompress_cap(block.len()) {
        Err(
            Error::DecompressedSizeOverCap {
                size: size as usize,
                cap: decompress_cap(block.len()) as usize,
                block: block.len() as usize,
            },
        )
    } else {
        match zstd_decompressed(block, size) {
            Some(bytes) => Ok(bytes),
            None => Err(Error::DecompressionFailed),
        }
    }
}

/// The bytes of a result.
pub open spec fn bytes_view(result: Result<Vec<u8>, Error>) -> Result<Seq<u8>, Error> {
    match result {
        Ok(bytes) => Ok(bytes@),
        Err(e) => Err(e),
    }
}

fn block_cap(len: usize) -> (cap: usize)
    ensures
        cap == decompress_cap(len as nat),
{
    match len.checked_mul(MAX_DECOMPRESS_RATIO) {
        Some(scaled) => if scaled < MIN_DECOMPRESS_CAP {
            MIN_DECOMPRESS_CAP
        } else if scaled > MAX_ZSTD_DECOMPRESS_BLOCK_SIZE {
            MAX_ZSTD_DECOMPRESS_BLOCK_SIZE
        } else {
            scaled
        },
        None => MAX_ZSTD_DECOMPRESS_BLOCK_SIZE,
    }
}

/// Decompresses a block; refuses one that says it stands for far more than it can.
pub fn decompress_zstd(compressed: &[u8], uncompressed_size: usize) -> (result: Result<Vec<u8>, Error>)
    ensures
        bytes_view(result) == decompressed(compressed@, uncompressed_size as nat),
        result matches Ok(bytes) ==> bytes@.len() <= uncompressed_size,
{
    let cap: usize = block_cap(compressed.len());
    if uncompressed_size > cap {
        return Err(Error::DecompressedSizeOverCap { size: uncompressed_size, cap, block: compressed.len() });
    }
    match decompress_block(compressed, uncompressed_size) {
        Some(bytes) => Ok(bytes),
        None => Err(Error::DecompressionFailed),
    }
}

/// Whether a block may be compressed as a whole.
pub fn check_zstd_block_size(size: usize, field: SizeField) -> (result: Result<(), Error>)
    ensures
        size <= MAX_ZSTD_DECOMPRESS_BLOCK_SIZE ==> result == Ok::<(), Error>(()),
        size > MAX_ZSTD_DECOMPRESS_BLOCK_SIZE ==> result == Err::<(), Error>(Error::BlockTooLarge { field, size }),
{
    if size > MAX_ZSTD_DECOMPRESS_BLOCK_SIZE {
        return Err(Error::BlockTooLarge { field, size });
    }
    Ok(())
}

pub fn to_u32(val: usize, field: SizeField) -> (result: Result<u32, Error>)
    ensures
        val <= u32::MAX ==> result == Ok::<u32, Error>(val as u32),
        val > u32::MAX ==> result == Err::<u32, Error>(Error::SizeOverU32 { field, size: val }),
{
    if val > u32::MAX as usize {
        return Err(Error::SizeOverU32 { field, size: val });
    }
    Ok(val as u32)
}

/// What becomes of a block that is compressed.
pub open spec fn compressed(data: Seq<u8>, level: int, field: SizeField) -> Result<Seq<u8>, Error> {
    if data.len() > MAX_ZSTD_DECOMPRESS_BLOCK_SIZE {
        Err(Error::BlockTooLarge { field, size: data.len() as usize })
    } else {
        match zstd_compressed(data, level) {
            Some(block) => Ok(block),
            None => Err(Error::CompressionFailed),
        }
    }
}

/// Compresses a block. It decompresses to the same bytes.
pub fn compress_zstd(data: &[u8], level: i32, field: SizeField) -> (result: Result<Vec<u8>, Error>)
    ensures
        bytes_view(result) == compressed(data@, level as int, field),
        result matches Ok(block) ==> decompressed(block@, data@.len()) == Ok::<Seq<u8>, Error>(data@) && block@.len() > 0,
{
    match check_zstd_block_size(data.len(), field) {
        Ok(_) => {},
        Err(e) => {
            return Err(e);
        },
    }
    match compress_block(data, level) {
        Some(block) => Ok(block),
        None => Err(Error::CompressionFailed),
    }
}

/// The digest of the bytes of a schema.
pub fn schema_digest(raw: &[u8]) -> (fingerprint: [u8; 32])
    ensures
        fingerprint@ == sha256(raw@),
{
    digest(raw)
}

} // verus!
