//! The calls into `flate2`: bounded decompression, compression, and checksums.

use flate2::read::{DeflateDecoder, ZlibDecoder};
use flate2::write::{DeflateEncoder, ZlibEncoder};
use flate2::{Compression, Crc};
use std::io::{Read, Write};
use vstd::prelude::*;

use crate::checksum::crc32_of;
use crate::text::outcome;

verus! {

/// The first bytes that a zlib stream decompresses to, at most `limit` of them;
/// `None` where the stream is broken before that many were read.
pub uninterp spec fn zlib_prefix(data: Seq<u8>, limit: u64) -> Option<Seq<u8>>;

/// `flate2::read::ZlibDecoder`, read through `take(limit)`: what the stream
/// decompresses to, cut at the limit, or `None` where it cannot be read. The
/// result is a function of the data and the limit.
#[verifier::external_body]
pub(crate) fn read_zlib(data: &[u8], limit: u64) -> (bytes: Option<Vec<u8>>)
    ensures
        match bytes {
            Some(bytes) => zlib_prefix(data@, limit) == Some(bytes@) && bytes@.len() <= limit,
            None => zlib_prefix(data@, limit) is None,
        },
{
    let mut bytes = Vec::new();
    ZlibDecoder::new(data).take(limit).read_to_end(&mut bytes).ok().map(|_| bytes)
}

/// The first bytes that a raw deflate stream decompresses to, at most `limit` of
/// them, or the text of the error.
pub uninterp spec fn deflate_prefix(data: Seq<u8>, limit: u64) -> Result<Seq<u8>, Seq<char>>;

/// `flate2::read::DeflateDecoder`, read through `take(limit)`: what the stream
/// decompresses to, cut at the limit, or the text of the error. The result is a
/// function of the data and the limit.
#[verifier::external_body]
pub(crate) fn read_deflate(data: &[u8], limit: u64) -> (bytes: Result<Vec<u8>, String>)
    ensures
        outcome(bytes) == deflate_prefix(data@, limit),
        bytes matches Ok(bytes) ==> bytes@.len() <= limit,
{
    let mut bytes = Vec::new();
    let read = DeflateDecoder::new(data).take(limit).read_to_end(&mut bytes);
    read.map(|_| bytes).map_err(|error| error.to_string())
}

/// What bytes compress to as a raw deflate stream at a level.
pub uninterp spec fn deflated(data: Seq<u8>, level: u32) -> Result<Seq<u8>, Seq<char>>;

/// `flate2::write::DeflateEncoder` over a vector: the compressed bytes, or the
/// text of the error. The result is a function of the data and the level.
#[verifier::external_body]
pub(crate) fn write_deflate(data: &[u8], level: u32) -> (bytes: Result<Vec<u8>, String>)
    requires
        level <= 9,
    ensures
        outcome(bytes) == deflated(data@, level),
{
    let mut encoder = DeflateEncoder::new(Vec::new(), Compression::new(level));
    let written = encoder.write_all(data);
    written.and_then(|_| encoder.finish()).map_err(|error| error.to_string())
}

/// What bytes compress to as a zlib stream at the best level.
pub uninterp spec fn zlib_best(data: Seq<u8>) -> Result<Seq<u8>, Seq<char>>;

/// The first bytes, at most `limit` of them.
pub open spec fn first_bytes(data: Seq<u8>, limit: u64) -> Seq<u8> {
    if limit < data.len() {
        data.take(limit as int)
    } else {
        data
    }
}

/// `flate2::write::ZlibEncoder` over a vector at the best level: the compressed
/// bytes, or the text of the error. The result is a function of the data, and what
/// is compressed decompresses to the data again.
#[verifier::external_body]
pub(crate) fn write_zlib(data: &[u8]) -> (bytes: Result<Vec<u8>, String>)
    ensures
        outcome(bytes) == zlib_best(data@),
        match bytes {
            Ok(bytes) => forall|limit: u64| #[trigger]
                zlib_prefix(bytes@, limit) == Some(first_bytes(data@, limit)),
            Err(_) => true,
        },
{
    let mut encoder = ZlibEncoder::new(Vec::new(), Compression::best());
    let written = encoder.write_all(data);
    written.and_then(|_| encoder.finish()).map_err(|error| error.to_string())
}

/// `flate2::Crc` over one buffer: its CRC-32.
#[verifier::external_body]
pub(crate) fn crc_sum(data: &[u8]) -> (sum: u32)
    ensures
        sum == crc32_of(data@),
{
    let mut crc = Crc::new();
    crc.update(data);
    crc.sum()
}

} // verus!
