//! A multi-resolution tile store for genomic annotation records, with the
//! client protocol that streams its tiles into a genome-browser viewport.
//!
//! Records are bucketed into the finest resolution track whose bin fully
//! contains them (`builder`), serialized and compressed tile by tile into a
//! packed blob with a byte-range index (`codec`, `compress`, `store`), and
//! served by exact byte-range reads. A client keeps a per-tile cache, works
//! out which tiles the visible window needs, requests only the missing
//! ones, and applies responses tile by tile (`client`, `camera`).

#![allow(unused_imports)]
use vstd::prelude::*;

pub mod appdata;
pub mod builder;
pub mod camera;
pub mod client;
pub mod codec;
pub mod color;
pub mod compress;
pub mod countdata;
pub mod record;
pub mod store;
pub mod tile;

verus! {

/// Clamp a genomic coordinate to the first chromosome base: positions left of
/// the origin are treated as position zero.
pub fn clamp0_i64(pos: i64) -> (r: u64)
    ensures
        r == if pos < 0 { 0u64 } else { pos as u64 },
{
    if pos < 0 {
        0
    } else {
        pos as u64
    }
}

} // verus!
