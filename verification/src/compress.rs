//! Per-tile compression.
//!
//! Every tile is compressed independently, with a tile-local gzip stream and
//! no cross-tile dictionary, so that any tile can be decompressed without its
//! siblings. The gzip streams themselves come from flate2.

#![allow(unused_imports)]
use vstd::prelude::*;

use std::io::Read;

use crate::builder::GBrowserChunk;
use crate::codec::decode_chunk;
use crate::codec::enc_chunk;
use crate::codec::parse_chunk_full;
use crate::record::RecordModel;

verus! {

/// What flate2's gzip decoding yields on a byte string: the decompressed
/// bytes, or nothing when the bytes are not a well-formed gzip stream.
/// Decoding is a pure function of the bytes.
pub uninterp spec fn gunzip_of(b: Seq<u8>) -> Option<Seq<u8>>;

/// Why a tile's raw bytes could not be turned back into records.
#[derive(Clone, Copy, Debug, PartialEq, Eq, Structural)]
pub enum TileDecodeError {
    /// The bytes are not a well-formed gzip stream.
    Compression,
    /// The decompressed bytes are not a well-formed tile encoding.
    Encoding,
}

/// Compress a tile's bytes into a fresh gzip stream.
///
/// Relies on flate2's `read::GzEncoder`: gzip compression is lossless, so
/// decoding what the encoder produced (see `gzip_decompress`) yields the
/// input again. Reading from an in-memory encoder cannot fail: its only
/// error source is the underlying reader, and a byte slice never errors.
#[verifier::external_body]
pub fn gzip_compress(b: &Vec<u8>) -> (r: Vec<u8>)
    ensures
        gunzip_of(r@) == Some(b@),
{
    let mut out: Vec<u8> = Vec::new();
    let mut gz = flate2::read::GzEncoder::new(&b[..], flate2::Compression::fast());
    gz.read_to_end(&mut out).expect("in-memory gzip encoding cannot fail");
    out
}

/// Decompress one tile-local gzip stream.
///
/// Relies on flate2's `read::GzDecoder`: on a well-formed stream it yields
/// the decompressed bytes, on a malformed one an error; either outcome
/// depends on the bytes alone.
#[verifier::external_body]
pub fn gzip_decompress(b: &Vec<u8>) -> (r: Result<Vec<u8>, TileDecodeError>)
    ensures
        match r {
            Ok(v) => gunzip_of(b@) == Some(v@),
            Err(e) => gunzip_of(b@) is None && e == TileDecodeError::Compression,
        },
{
    let mut out: Vec<u8> = Vec::new();
    let mut gz = flate2::read::GzDecoder::new(&b[..]);
    match gz.read_to_end(&mut out) {
        Ok(_) => Ok(out),
        Err(_) => Err(TileDecodeError::Compression),
    }
}

/// What decoding a stored tile yields: decompress, then decode; or nothing
/// when either step fails.
pub open spec fn tile_decode_model(b: Seq<u8>) -> Option<Seq<RecordModel>> {
    match gunzip_of(b) {
        Some(p) => parse_chunk_full(p),
        Option::None => Option::<Seq<RecordModel>>::None,
    }
}

/// Serialize and compress one tile, ready for the packed blob.
pub fn encode_tile(chunk: &GBrowserChunk) -> (r: Vec<u8>)
    ensures
        tile_decode_model(r@) == Some(chunk@),
{
    let plain = crate::codec::encode_chunk(chunk);
    proof {
        assert(chunk@.len() < 0x10000000000000000) by {
            assert(chunk.records@.len() == chunk.records.len());
        }
        assert forall|k: int| 0 <= k < chunk@.len() implies (#[trigger] chunk@[k]).attributes.len()
            < 0x10000000000000000 by {
            assert(chunk@[k] == chunk.records@[k]@);
            assert(chunk.records@[k].attributes@.len() == chunk.records@[k].attributes.len());
        }
        assert(enc_chunk(chunk@).len() < 0x10000000000000000) by {
            assert(plain@.len() == plain.len());
        }
        crate::codec::lemma_chunk_round_trip(chunk@);
    }
    gzip_compress(&plain)
}

/// Decompress and decode one tile fetched from the store. A failure of
/// either step reports which, and is isolated to this tile.
pub fn decode_tile(bytes: &Vec<u8>) -> (r: Result<GBrowserChunk, TileDecodeError>)
    ensures
        match r {
            Ok(c) => tile_decode_model(bytes@) == Some(c@),
            Err(TileDecodeError::Compression) => gunzip_of(bytes@) is None,
            Err(TileDecodeError::Encoding) => gunzip_of(bytes@) is Some && tile_decode_model(
                bytes@,
            ) is None,
        },
        r is Err ==> tile_decode_model(bytes@) is None,
{
    match gzip_decompress(bytes) {
        Ok(plain) => match decode_chunk(&plain) {
            Some(c) => Ok(c),
            Option::None => Err(TileDecodeError::Encoding),
        },
        Err(e) => Err(e),
    }
}

} // verus!
