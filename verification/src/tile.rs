//! Tile identities and the messages that carry them.
//!
//! A tile is addressed by `(reference sequence, track, bin)`; the store maps
//! each identity to a byte range inside the packed blob.

#![allow(unused_imports)]
use vstd::prelude::*;

use crate::record::GBrowserRecordBuf;
use crate::record::RecordModel;

verus! {

/// Byte range of one tile inside the packed blob: `[start, end)`.
#[derive(Clone, Copy, Debug, PartialEq, Eq, Structural)]
pub struct GBrowserGFFchunkpos {
    pub start: u64,
    pub end: u64,
}

/// Identity of one tile: reference sequence name, track index, bin index.
#[derive(Clone, Debug, PartialEq)]
pub struct GBrowserGFFchunkID {
    pub chr: Vec<u8>,
    pub track: u64,
    pub bin: u64,
}

/// Mathematical form of a tile identity.
#[verifier::ext_equal]
pub ghost struct ChunkIdModel {
    pub chr: Seq<u8>,
    pub track: u64,
    pub bin: u64,
}

impl View for GBrowserGFFchunkID {
    type V = ChunkIdModel;

    open spec fn view(&self) -> ChunkIdModel {
        ChunkIdModel { chr: self.chr@, track: self.track, bin: self.bin }
    }
}

impl GBrowserGFFchunkID {
    pub fn new(chr: Vec<u8>, track: u64, bin: u64) -> (r: GBrowserGFFchunkID)
        ensures
            r@ == (ChunkIdModel { chr: chr@, track, bin }),
    {
        GBrowserGFFchunkID { chr, track, bin }
    }

    /// Compare two tile identities for equality.
    pub fn same_id(&self, other: &GBrowserGFFchunkID) -> (r: bool)
        ensures
            r == (self@ == other@),
    {
        let r = crate::record::bytes_eq(&self.chr, &other.chr) && self.track == other.track
            && self.bin == other.bin;
        r
    }
}

/// A batch of tile identities requested by the client.
#[derive(Clone, Debug, PartialEq)]
pub struct GBrowserGFFchunkRequest {
    pub to_get: Vec<GBrowserGFFchunkID>,
}

impl View for GBrowserGFFchunkRequest {
    type V = Seq<ChunkIdModel>;

    open spec fn view(&self) -> Seq<ChunkIdModel> {
        self.to_get@.map_values(|id: GBrowserGFFchunkID| id@)
    }
}

/// The server's answer: still-compressed bytes for each requested tile that
/// exists in the store. Tiles without data are simply absent.
#[derive(Clone, Debug, PartialEq)]
pub struct GBrowserGFFchunkResponse {
    pub data: Vec<(GBrowserGFFchunkID, Vec<u8>)>,
}

impl View for GBrowserGFFchunkResponse {
    type V = Seq<(ChunkIdModel, Seq<u8>)>;

    open spec fn view(&self) -> Seq<(ChunkIdModel, Seq<u8>)> {
        self.data@.map_values(|p: (GBrowserGFFchunkID, Vec<u8>)| (p.0@, p.1@))
    }
}

/// Store description: the track chunk sizes, the overflow records that fit no
/// track, and the largest observed end coordinate per reference sequence.
/// A client needs it before it can compute tile needs.
#[derive(Clone, Debug, PartialEq)]
pub struct GBrowserGFFdescription {
    pub chunk_sizes: Vec<u64>,
    pub remainder: Vec<GBrowserRecordBuf>,
    pub chrom_sizes: Vec<(Vec<u8>, u64)>,
}

/// Mathematical form of a store description.
#[verifier::ext_equal]
pub ghost struct DescriptionModel {
    pub chunk_sizes: Seq<u64>,
    pub remainder: Seq<RecordModel>,
    pub chrom_sizes: Seq<(Seq<u8>, u64)>,
}

impl View for GBrowserGFFdescription {
    type V = DescriptionModel;

    open spec fn view(&self) -> DescriptionModel {
        DescriptionModel {
            chunk_sizes: self.chunk_sizes@,
            remainder: self.remainder@.map_values(|r: GBrowserRecordBuf| r@),
            chrom_sizes: self.chrom_sizes@.map_values(|p: (Vec<u8>, u64)| (p.0@, p.1)),
        }
    }
}

impl GBrowserGFFdescription {
    pub fn new() -> (r: GBrowserGFFdescription)
        ensures
            r@.chunk_sizes == Seq::<u64>::empty(),
            r@.remainder == Seq::<RecordModel>::empty(),
            r@.chrom_sizes == Seq::<(Seq<u8>, u64)>::empty(),
    {
        let r = GBrowserGFFdescription {
            chunk_sizes: Vec::new(),
            remainder: Vec::new(),
            chrom_sizes: Vec::new(),
        };
        proof {
            assert(r@.remainder =~= Seq::<RecordModel>::empty());
            assert(r@.chrom_sizes =~= Seq::<(Seq<u8>, u64)>::empty());
        }
        r
    }
}

/// Request for the store description.
#[derive(Clone, Debug, PartialEq)]
pub struct GBrowserGFFdescriptionRequest {
}

/// Response carrying the store description.
#[derive(Clone, Debug, PartialEq)]
pub struct GBrowserGFFdescriptionResponse {
    pub description: GBrowserGFFdescription,
}

} // verus!
