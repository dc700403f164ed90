//! The tile store: a packed blob of independently compressed tiles, and the
//! index that maps each tile identity to its exact byte range.
//!
//! Only the index's offsets matter: a reader seeks to `start`, reads exactly
//! `end - start` bytes, and gets one independently decodable compressed tile.

#![allow(unused_imports)]
use vstd::prelude::*;
use vstd::seq_lib::*;

use crate::builder::GBrowserGFF;
use crate::builder::GffModel;
use crate::builder::TrackModel;
use crate::builder::assoc_key_index;
use crate::builder::chrom_clone;
use crate::builder::gff_chunk_sizes;
use crate::builder::lemma_assoc_key_index;
use crate::builder::lemma_assoc_key_index_at;
use crate::builder::lemma_assoc_key_index_none;
use crate::builder::track_contents;
use crate::compress::tile_decode_model;
use crate::record::GBrowserRecordBuf;
use crate::record::RecordModel;
use crate::record::bytes_clone;
use crate::record::records_clone;
use crate::tile::ChunkIdModel;
use crate::tile::GBrowserGFFchunkID;
use crate::tile::GBrowserGFFchunkRequest;
use crate::tile::GBrowserGFFchunkResponse;
use crate::tile::GBrowserGFFchunkpos;
use crate::tile::GBrowserGFFdescription;

verus! {

/// The persisted index: the store description, and the byte range of every
/// tile in the packed blob.
#[derive(Clone, Debug, PartialEq)]
pub struct GBrowserGFFindex {
    pub chunk_sizes: Vec<u64>,
    pub remainder: Vec<GBrowserRecordBuf>,
    pub chrom_sizes: Vec<(Vec<u8>, u64)>,
    pub chunk_coordinates: Vec<(GBrowserGFFchunkID, GBrowserGFFchunkpos)>,
}

/// Mathematical form of the index.
#[verifier::ext_equal]
pub ghost struct IndexModel {
    pub chunk_sizes: Seq<u64>,
    pub remainder: Seq<RecordModel>,
    pub chrom_sizes: Seq<(Seq<u8>, u64)>,
    pub chunk_coordinates: Seq<(ChunkIdModel, GBrowserGFFchunkpos)>,
}

impl View for GBrowserGFFindex {
    type V = IndexModel;

    open spec fn view(&self) -> IndexModel {
        IndexModel {
            chunk_sizes: self.chunk_sizes@,
            remainder: self.remainder@.map_values(|r: GBrowserRecordBuf| r@),
            chrom_sizes: self.chrom_sizes@.map_values(|p: (Vec<u8>, u64)| (p.0@, p.1)),
            chunk_coordinates: self.chunk_coordinates@.map_values(
                |p: (GBrowserGFFchunkID, GBrowserGFFchunkpos)| (p.0@, p.1),
            ),
        }
    }
}

/// The tiles of one track, in entry order, under their tile identities.
pub open spec fn track_tiles(t: TrackModel, ti: u64) -> Seq<(ChunkIdModel, Seq<RecordModel>)> {
    t.entries.map_values(
        |e: ((Seq<u8>, u64), Seq<RecordModel>)|
            (ChunkIdModel { chr: e.0.0, track: ti, bin: e.0.1 }, e.1),
    )
}

/// The tiles of the first `t` tracks, track by track.
pub open spec fn gff_tiles_upto(g: GffModel, t: int) -> Seq<(ChunkIdModel, Seq<RecordModel>)> {
    Seq::new(t as nat, |i: int| track_tiles(g.tracks[i], i as u64)).flatten()
}

/// Every tile of the builder, track by track, in entry order.
pub open spec fn gff_tiles(g: GffModel) -> Seq<(ChunkIdModel, Seq<RecordModel>)> {
    gff_tiles_upto(g, g.tracks.len() as int)
}

/// The index's byte ranges lie inside the blob.
pub open spec fn index_pos_wf(coords: Seq<(ChunkIdModel, GBrowserGFFchunkpos)>, blob: Seq<u8>) -> bool {
    forall|k: int|
        0 <= k < coords.len() ==> (#[trigger] coords[k]).1.start <= coords[k].1.end
            && coords[k].1.end <= blob.len()
}

/// The index entries match the given tiles, one entry per tile in tile
/// order: identities agree, the byte ranges are consecutive and partition
/// the blob, and each range decompresses and decodes to exactly that tile's
/// records.
pub open spec fn coords_match(
    coords: Seq<(ChunkIdModel, GBrowserGFFchunkpos)>,
    blob: Seq<u8>,
    tiles: Seq<(ChunkIdModel, Seq<RecordModel>)>,
) -> bool {
    &&& coords.len() == tiles.len()
    &&& forall|k: int|
        0 <= k < coords.len() ==> {
            let (id, pos) = #[trigger] coords[k];
            &&& id == tiles[k].0
            &&& pos.start <= pos.end
            &&& pos.end <= blob.len()
            &&& pos.start == if k == 0 {
                0u64
            } else {
                coords[k - 1].1.end
            }
            &&& tile_decode_model(blob.subrange(pos.start as int, pos.end as int)) == Some(
                tiles[k].1,
            )
        }
    &&& blob.len() == if coords.len() == 0 {
        0int
    } else {
        coords[coords.len() - 1].1.end as int
    }
}

/// A blob and an index faithfully represent a builder state: the description
/// fields carry over, and the index entries match the builder's tiles.
pub open spec fn store_represents(blob: Seq<u8>, index: IndexModel, g: GffModel) -> bool {
    &&& index.chunk_sizes == gff_chunk_sizes(g)
    &&& index.remainder == g.remainder
    &&& index.chrom_sizes == g.chrom_sizes
    &&& coords_match(index.chunk_coordinates, blob, gff_tiles(g))
}

/// One more track's tiles extend the tile list at the end.
pub proof fn lemma_gff_tiles_upto_snoc(g: GffModel, t: int)
    requires
        0 <= t < g.tracks.len(),
    ensures
        gff_tiles_upto(g, t + 1) == gff_tiles_upto(g, t) + track_tiles(g.tracks[t], t as u64),
{
    let f = |i: int| track_tiles(g.tracks[i], i as u64);
    assert(Seq::new((t + 1) as nat, f) =~= Seq::new(t as nat, f).push(f(t)));
    Seq::lemma_flatten_push(Seq::new(t as nat, f), f(t));
}

/// Append bytes to the blob.
fn append_bytes(out: &mut Vec<u8>, b: &Vec<u8>)
    ensures
        final(out)@ == old(out)@ + b@,
{
    let n = b.len();
    let mut i: usize = 0;
    while i < n
        invariant
            n == b@.len(),
            0 <= i <= n,
            out@ == old(out)@ + b@.subrange(0, i as int),
        decreases n - i,
    {
        out.push(b[i]);
        proof {
            assert(out@ =~= old(out)@ + b@.subrange(0, (i + 1) as int));
        }
        i += 1;
    }
    proof {
        assert(b@.subrange(0, n as int) =~= b@);
    }
}

/// Serialize every tile of every track, in a stable order, compressing each
/// independently into a single growing blob, and record each tile's exact
/// byte range in the index together with the store description. Only the
/// offsets matter to a reader.
pub fn build_store(gff: &GBrowserGFF) -> (r: (Vec<u8>, GBrowserGFFindex))
    ensures
        store_represents(r.0@, r.1@, gff@),
{
    let mut blob: Vec<u8> = Vec::new();
    let mut coords: Vec<(GBrowserGFFchunkID, GBrowserGFFchunkpos)> = Vec::new();
    let ghost cview = |p: (GBrowserGFFchunkID, GBrowserGFFchunkpos)| (p.0@, p.1);
    proof {
        assert(gff_tiles_upto(gff@, 0) =~= Seq::<(ChunkIdModel, Seq<RecordModel>)>::empty());
        assert(coords@.map_values(cview) =~= Seq::<(ChunkIdModel, GBrowserGFFchunkpos)>::empty());
    }
    let nt = gff.tracks.len();
    let mut t: usize = 0;
    while t < nt
        invariant
            nt == gff.tracks@.len(),
            0 <= t <= nt,
            cview == (|p: (GBrowserGFFchunkID, GBrowserGFFchunkpos)| (p.0@, p.1)),
            coords_match(coords@.map_values(cview), blob@, gff_tiles_upto(gff@, t as int)),
        decreases nt - t,
    {
        let track = &gff.tracks[t];
        let ne = track.records.len();
        let mut e: usize = 0;
        proof {
            assert(track_tiles(gff@.tracks[t as int], t as u64).take(0)
                =~= Seq::<(ChunkIdModel, Seq<RecordModel>)>::empty());
            assert(gff_tiles_upto(gff@, t as int) + track_tiles(
                gff@.tracks[t as int],
                t as u64,
            ).take(0) =~= gff_tiles_upto(gff@, t as int));
        }
        while e < ne
            invariant
                nt == gff.tracks@.len(),
                0 <= t < nt,
                *track == gff.tracks@[t as int],
                ne == track.records@.len(),
                0 <= e <= ne,
                cview == (|p: (GBrowserGFFchunkID, GBrowserGFFchunkpos)| (p.0@, p.1)),
                coords_match(
                    coords@.map_values(cview),
                    blob@,
                    gff_tiles_upto(gff@, t as int) + track_tiles(
                        gff@.tracks[t as int],
                        t as u64,
                    ).take(e as int),
                ),
            decreases ne - e,
        {
            let ghost old_blob = blob@;
            let ghost old_coords = coords@;
            let ghost old_tiles = gff_tiles_upto(gff@, t as int) + track_tiles(
                gff@.tracks[t as int],
                t as u64,
            ).take(e as int);
            let entry = &track.records[e];
            let chunk_bytes = crate::compress::encode_tile(&entry.1);
            let start = blob.len() as u64;
            append_bytes(&mut blob, &chunk_bytes);
            let end = blob.len() as u64;
            let id = GBrowserGFFchunkID::new(bytes_clone(&entry.0.0), t as u64, entry.0.1);
            coords.push((id, GBrowserGFFchunkpos { start, end }));
            proof {
                let tile = track_tiles(gff@.tracks[t as int], t as u64)[e as int];
                assert(track_tiles(gff@.tracks[t as int], t as u64).take((e + 1) as int)
                    =~= track_tiles(gff@.tracks[t as int], t as u64).take(e as int).push(tile));
                let new_tiles = old_tiles.push(tile);
                assert(gff_tiles_upto(gff@, t as int) + track_tiles(
                    gff@.tracks[t as int],
                    t as u64,
                ).take((e + 1) as int) =~= new_tiles);
                let cv = coords@.map_values(cview);
                assert(cv =~= cv.subrange(0, cv.len() - 1).push((id@, GBrowserGFFchunkpos { start, end })));
                assert(cv.subrange(0, cv.len() - 1) =~= old_coords.map_values(cview)) by {
                    assert(coords@.subrange(0, coords@.len() - 1) =~= old_coords);
                }
                assert(blob@ == old_blob + chunk_bytes@);
                assert(blob@.subrange(start as int, end as int) =~= chunk_bytes@);
                assert(tile.1 == entry.1@);
                assert forall|k: int| 0 <= k < cv.len() - 1 implies {
                    let (kid, pos) = #[trigger] cv[k];
                    tile_decode_model(blob@.subrange(pos.start as int, pos.end as int)) == Some(
                        new_tiles[k].1,
                    )
                } by {
                    let (kid, pos) = cv[k];
                    assert(blob@.subrange(pos.start as int, pos.end as int) =~= old_blob.subrange(
                        pos.start as int,
                        pos.end as int,
                    ));
                }
                assert(coords_match(cv, blob@, new_tiles));
            }
            e += 1;
        }
        proof {
            lemma_gff_tiles_upto_snoc(gff@, t as int);
            assert(track_tiles(gff@.tracks[t as int], t as u64).take(ne as int) =~= track_tiles(
                gff@.tracks[t as int],
                t as u64,
            ));
        }
        t += 1;
    }
    let desc = gff.get_description();
    let index = GBrowserGFFindex {
        chunk_sizes: desc.chunk_sizes,
        remainder: desc.remainder,
        chrom_sizes: desc.chrom_sizes,
        chunk_coordinates: coords,
    };
    proof {
        assert(gff_tiles(gff@) == gff_tiles_upto(gff@, nt as int));
        assert(index@.chunk_coordinates == coords@.map_values(cview));
        assert(store_represents(blob@, index@, gff@));
    }
    (blob, index)
}

impl GBrowserGFFindex {
    /// The store description carried inside the index.
    pub fn get_description(&self) -> (r: GBrowserGFFdescription)
        ensures
            r@.chunk_sizes == self@.chunk_sizes,
            r@.remainder == self@.remainder,
            r@.chrom_sizes == self@.chrom_sizes,
    {
        let mut chunk_sizes: Vec<u64> = Vec::new();
        let n = self.chunk_sizes.len();
        let mut i: usize = 0;
        while i < n
            invariant
                n == self.chunk_sizes@.len(),
                0 <= i <= n,
                chunk_sizes@ == self.chunk_sizes@.subrange(0, i as int),
            decreases n - i,
        {
            chunk_sizes.push(self.chunk_sizes[i]);
            proof {
                assert(chunk_sizes@ =~= self.chunk_sizes@.subrange(0, i + 1 as int));
            }
            i += 1;
        }
        proof {
            assert(chunk_sizes@ =~= self.chunk_sizes@);
        }
        GBrowserGFFdescription {
            chunk_sizes,
            remainder: records_clone(&self.remainder),
            chrom_sizes: chrom_clone(&self.chrom_sizes),
        }
    }

    /// The byte range stored for one tile identity, when the store holds it.
    pub fn offsets_for(&self, id: &GBrowserGFFchunkID) -> (r: Option<GBrowserGFFchunkpos>)
        ensures
            match r {
                Some(pos) => {
                    let ki = assoc_key_index(self@.chunk_coordinates, id@);
                    ki >= 0 && pos == self@.chunk_coordinates[ki].1
                },
                None => assoc_key_index(self@.chunk_coordinates, id@) == -1,
            },
    {
        let n = self.chunk_coordinates.len();
        let mut i: usize = 0;
        while i < n
            invariant
                n == self.chunk_coordinates@.len(),
                n == self@.chunk_coordinates.len(),
                0 <= i <= n,
                forall|j: int| 0 <= j < i ==> self@.chunk_coordinates[j].0 != id@,
            decreases n - i,
        {
            let entry = &self.chunk_coordinates[i];
            if entry.0.same_id(id) {
                proof {
                    assert(self@.chunk_coordinates[i as int].0 == id@);
                    lemma_assoc_key_index_at(self@.chunk_coordinates, id@, i as int);
                }
                return Some(entry.1);
            }
            i += 1;
        }
        proof {
            lemma_assoc_key_index_none(self@.chunk_coordinates, id@);
        }
        None
    }
}

/// What a served response holds for a request: for each requested identity
/// that the index knows, in request order, exactly the blob bytes of its
/// range; identities without an index entry are omitted.
pub open spec fn serve_model(
    req: Seq<ChunkIdModel>,
    coords: Seq<(ChunkIdModel, GBrowserGFFchunkpos)>,
    blob: Seq<u8>,
) -> Seq<(ChunkIdModel, Seq<u8>)>
    decreases req.len(),
{
    if req.len() == 0 {
        Seq::<(ChunkIdModel, Seq<u8>)>::empty()
    } else {
        let ki = assoc_key_index(coords, req[0]);
        let head = if ki >= 0 {
            seq![(req[0], blob.subrange(coords[ki].1.start as int, coords[ki].1.end as int))]
        } else {
            Seq::<(ChunkIdModel, Seq<u8>)>::empty()
        };
        head + serve_model(req.drop_first(), coords, blob)
    }
}

/// Check that every byte range of a loaded index lies inside the blob, so
/// that `serve` may be called on it. An index read from disk must pass this
/// before it is served.
pub fn check_index_bounds(index: &GBrowserGFFindex, blob: &Vec<u8>) -> (r: bool)
    ensures
        r == index_pos_wf(index@.chunk_coordinates, blob@),
{
    let blob_len = blob.len() as u64;
    let n = index.chunk_coordinates.len();
    let mut i: usize = 0;
    while i < n
        invariant
            n == index.chunk_coordinates@.len(),
            n == index@.chunk_coordinates.len(),
            blob_len == blob@.len(),
            0 <= i <= n,
            forall|k: int|
                0 <= k < i ==> (#[trigger] index@.chunk_coordinates[k]).1.start
                    <= index@.chunk_coordinates[k].1.end && index@.chunk_coordinates[k].1.end
                    <= blob@.len(),
        decreases n - i,
    {
        let pos = &index.chunk_coordinates[i].1;
        if !(pos.start <= pos.end && pos.end <= blob_len) {
            proof {
                assert(index@.chunk_coordinates[i as int].1 == *pos);
            }
            return false;
        }
        i += 1;
    }
    true
}

/// Copy one byte range out of the blob.
fn read_range(blob: &Vec<u8>, start: u64, end: u64) -> (r: Vec<u8>)
    requires
        start <= end,
        end <= blob@.len(),
    ensures
        r@ == blob@.subrange(start as int, end as int),
{
    proof {
        assert(blob@.len() == blob.len());
    }
    let start = start as usize;
    let end = end as usize;
    let mut out: Vec<u8> = Vec::new();
    let mut k: usize = start;
    while k < end
        invariant
            start <= k <= end,
            end <= blob@.len(),
            out@ == blob@.subrange(start as int, k as int),
        decreases end - k,
    {
        out.push(blob[k]);
        proof {
            assert(out@ =~= blob@.subrange(start as int, (k + 1) as int));
        }
        k += 1;
    }
    out
}

/// Answer a batch of tile requests with exact byte-range reads from the
/// blob: each requested tile that the index knows is returned still
/// compressed; a tile absent from the index is simply omitted, which a
/// client must read as "confirmed empty". The blob is only read, so
/// concurrent requests cannot interfere.
pub fn serve(
    req: &GBrowserGFFchunkRequest,
    index: &GBrowserGFFindex,
    blob: &Vec<u8>,
) -> (r: GBrowserGFFchunkResponse)
    requires
        index_pos_wf(index@.chunk_coordinates, blob@),
    ensures
        r@ == serve_model(req@, index@.chunk_coordinates, blob@),
{
    let mut data: Vec<(GBrowserGFFchunkID, Vec<u8>)> = Vec::new();
    let n = req.to_get.len();
    let mut i: usize = 0;
    while i < n
        invariant
            n == req.to_get@.len(),
            index_pos_wf(index@.chunk_coordinates, blob@),
            0 <= i <= n,
            data@.map_values(|p: (GBrowserGFFchunkID, Vec<u8>)| (p.0@, p.1@)) == serve_model(
                req@.take(i as int),
                index@.chunk_coordinates,
                blob@,
            ),
        decreases n - i,
    {
        let id = &req.to_get[i];
        let found = index.offsets_for(id);
        match found {
            Some(pos) => {
                proof {
                    lemma_assoc_key_index(index@.chunk_coordinates, id@);
                }
                let bytes = read_range(blob, pos.start, pos.end);
                data.push((crate::tile::GBrowserGFFchunkID::new(
                    bytes_clone(&id.chr),
                    id.track,
                    id.bin,
                ), bytes));
            },
            None => {},
        }
        proof {
            lemma_serve_model_snoc(req@.take(i as int), id@, index@.chunk_coordinates, blob@);
            assert(req@.take(i + 1 as int) =~= req@.take(i as int).push(id@));
            assert(data@.map_values(|p: (GBrowserGFFchunkID, Vec<u8>)| (p.0@, p.1@))
                =~= serve_model(req@.take(i + 1 as int), index@.chunk_coordinates, blob@));
        }
        i += 1;
    }
    proof {
        assert(req@.take(n as int) =~= req@);
    }
    GBrowserGFFchunkResponse { data }
}

/// Serving one more identity appends its answer, if any, at the end.
proof fn lemma_serve_model_snoc(
    req: Seq<ChunkIdModel>,
    id: ChunkIdModel,
    coords: Seq<(ChunkIdModel, GBrowserGFFchunkpos)>,
    blob: Seq<u8>,
)
    ensures
        serve_model(req.push(id), coords, blob) == serve_model(req, coords, blob) + {
            let ki = assoc_key_index(coords, id);
            if ki >= 0 {
                seq![(id, blob.subrange(coords[ki].1.start as int, coords[ki].1.end as int))]
            } else {
                Seq::<(ChunkIdModel, Seq<u8>)>::empty()
            }
        },
    decreases req.len(),
{
    if req.len() == 0 {
        assert(req.push(id).drop_first() =~= req);
        assert(serve_model(req.push(id), coords, blob) =~= serve_model(req, coords, blob) + {
            let ki = assoc_key_index(coords, id);
            if ki >= 0 {
                seq![(id, blob.subrange(coords[ki].1.start as int, coords[ki].1.end as int))]
            } else {
                Seq::<(ChunkIdModel, Seq<u8>)>::empty()
            }
        });
    } else {
        assert(req.push(id).drop_first() =~= req.drop_first().push(id));
        lemma_serve_model_snoc(req.drop_first(), id, coords, blob);
        assert(serve_model(req.push(id), coords, blob) =~= serve_model(req, coords, blob) + {
            let ki = assoc_key_index(coords, id);
            if ki >= 0 {
                seq![(id, blob.subrange(coords[ki].1.start as int, coords[ki].1.end as int))]
            } else {
                Seq::<(ChunkIdModel, Seq<u8>)>::empty()
            }
        });
    }
}

/// The records of the first `t` tracks' tiles, tile by tile, are the
/// records of those tracks' contents.
proof fn lemma_tiles_records_upto(g: GffModel, t: int)
    requires
        0 <= t <= g.tracks.len(),
    ensures
        gff_tiles_upto(g, t).map_values(|p: (ChunkIdModel, Seq<RecordModel>)| p.1).flatten()
            == g.tracks.take(t).map_values(|tr: TrackModel| track_contents(tr)).flatten(),
    decreases t,
{
    let pick = |p: (ChunkIdModel, Seq<RecordModel>)| p.1;
    let tc = |tr: TrackModel| track_contents(tr);
    if t == 0 {
        assert(gff_tiles_upto(g, 0) =~= Seq::<(ChunkIdModel, Seq<RecordModel>)>::empty());
        assert(g.tracks.take(0) =~= Seq::<TrackModel>::empty());
        assert(gff_tiles_upto(g, 0).map_values(pick) =~= Seq::<Seq<RecordModel>>::empty());
        assert(g.tracks.take(0).map_values(tc) =~= Seq::<Seq<RecordModel>>::empty());
    } else {
        lemma_tiles_records_upto(g, t - 1);
        lemma_gff_tiles_upto_snoc(g, t - 1);
        let tr = g.tracks[t - 1];
        let tt = track_tiles(tr, (t - 1) as u64);
        assert(gff_tiles_upto(g, t).map_values(pick) =~= gff_tiles_upto(g, t - 1).map_values(pick)
            + tt.map_values(pick));
        lemma_flatten_concat(gff_tiles_upto(g, t - 1).map_values(pick), tt.map_values(pick));
        assert(tt.map_values(pick) =~= tr.entries.map_values(
            |e: ((Seq<u8>, u64), Seq<RecordModel>)| e.1,
        ));
        assert(tt.map_values(pick).flatten() == track_contents(tr));
        assert(g.tracks.take(t).map_values(tc) =~= g.tracks.take(t - 1).map_values(tc).push(
            track_contents(tr),
        ));
        Seq::lemma_flatten_push(g.tracks.take(t - 1).map_values(tc), track_contents(tr));
        assert(gff_tiles_upto(g, t).map_values(pick).flatten() =~= g.tracks.take(t).map_values(
            tc,
        ).flatten());
    }
}

/// Index coverage: for a store built from a list of records, the records
/// written into the tiles, together with the overflow list that the index
/// carries, are exactly the input records — the same multiset, and the same
/// count.
pub proof fn lemma_index_coverage(
    blob: Seq<u8>,
    index: IndexModel,
    g: GffModel,
    sizes: Seq<u64>,
    recs: Seq<RecordModel>,
)
    requires
        store_represents(blob, index, g),
        g == crate::builder::build_model(sizes, recs),
    ensures
        gff_tiles(g).map_values(|p: (ChunkIdModel, Seq<RecordModel>)| p.1).flatten().to_multiset()
            .add(index.remainder.to_multiset()) == recs.to_multiset(),
        gff_tiles(g).map_values(|p: (ChunkIdModel, Seq<RecordModel>)| p.1).flatten().len()
            + index.remainder.len() == recs.len(),
{
    broadcast use vstd::multiset::group_multiset_axioms;
    broadcast use vstd::seq_lib::group_to_multiset_ensures;

    let pick = |p: (ChunkIdModel, Seq<RecordModel>)| p.1;
    let tc = |tr: TrackModel| track_contents(tr);
    lemma_tiles_records_upto(g, g.tracks.len() as int);
    assert(g.tracks.take(g.tracks.len() as int) =~= g.tracks);
    crate::builder::lemma_build_model_records(sizes, recs);
    let tiles_flat = gff_tiles(g).map_values(pick).flatten();
    assert(crate::builder::gff_records(g) == g.tracks.map_values(tc).flatten() + g.remainder);
    lemma_multiset_commutative(g.tracks.map_values(tc).flatten(), g.remainder);
    assert(tiles_flat.to_multiset().add(index.remainder.to_multiset()) =~= recs.to_multiset());
    assert(tiles_flat.to_multiset().len() == tiles_flat.len());
    assert(index.remainder.to_multiset().len() == index.remainder.len());
    assert(recs.to_multiset().len() == recs.len());
}

/// Round trip: serving a tile identity that the index knows returns exactly
/// the byte range written for it, and decompressing and decoding those bytes
/// reproduces exactly the records of the tile that was written under that
/// identity.
pub proof fn lemma_store_round_trip(blob: Seq<u8>, index: IndexModel, g: GffModel, id: ChunkIdModel)
    requires
        store_represents(blob, index, g),
        assoc_key_index(index.chunk_coordinates, id) >= 0,
    ensures
        ({
            let ki = assoc_key_index(index.chunk_coordinates, id);
            let pos = index.chunk_coordinates[ki].1;
            &&& gff_tiles(g)[ki].0 == id
            &&& serve_model(seq![id], index.chunk_coordinates, blob) == seq![
                (id, blob.subrange(pos.start as int, pos.end as int)),
            ]
            &&& tile_decode_model(blob.subrange(pos.start as int, pos.end as int)) == Some(
                gff_tiles(g)[ki].1,
            )
        }),
{
    reveal_with_fuel(serve_model, 3);
    lemma_assoc_key_index(index.chunk_coordinates, id);
    let ki = assoc_key_index(index.chunk_coordinates, id);
    let pos = index.chunk_coordinates[ki].1;
    assert(seq![id].drop_first() =~= Seq::<ChunkIdModel>::empty());
    assert(seq![id][0] == id);
    assert(serve_model(seq![id], index.chunk_coordinates, blob) =~= seq![
        (id, blob.subrange(pos.start as int, pos.end as int)),
    ]);
}

/// A tile identity without an index entry is served nothing: its absence
/// from the response is the server's way of confirming that no records exist
/// there.
pub proof fn lemma_store_absent(
    blob: Seq<u8>,
    coords: Seq<(ChunkIdModel, GBrowserGFFchunkpos)>,
    id: ChunkIdModel,
)
    requires
        assoc_key_index(coords, id) == -1,
    ensures
        serve_model(seq![id], coords, blob) == Seq::<(ChunkIdModel, Seq<u8>)>::empty(),
{
    reveal_with_fuel(serve_model, 3);
    assert(seq![id].drop_first() =~= Seq::<ChunkIdModel>::empty());
    assert(seq![id][0] == id);
    assert(serve_model(seq![id], coords, blob) =~= Seq::<(ChunkIdModel, Seq<u8>)>::empty());
}

/// Format of an annotation file, told from its name's suffix.
#[derive(Clone, Copy, Debug, PartialEq, Eq, Structural)]
pub enum AnnotationFormat {
    GffPlain,
    GffGzip,
    GtfPlain,
    GtfGzip,
}

/// Does `p` end with `suffix`?
pub open spec fn ends_with(p: Seq<u8>, suffix: Seq<u8>) -> bool {
    p.len() >= suffix.len() && p.subrange(p.len() - suffix.len(), p.len() as int) == suffix
}

/// The annotation format that a file name's suffix announces, if any.
pub open spec fn detect_model(p: Seq<u8>) -> Option<AnnotationFormat> {
    if ends_with(p, seq![103u8, 102u8, 102u8, 46u8, 103u8, 122u8]) {
        Some(AnnotationFormat::GffGzip)
    } else if ends_with(p, seq![103u8, 102u8, 102u8]) {
        Some(AnnotationFormat::GffPlain)
    } else if ends_with(p, seq![103u8, 116u8, 102u8, 46u8, 103u8, 122u8]) {
        Some(AnnotationFormat::GtfGzip)
    } else if ends_with(p, seq![103u8, 116u8, 102u8]) {
        Some(AnnotationFormat::GtfPlain)
    } else {
        None
    }
}

/// Does `p` end with `s`?
fn has_suffix(p: &Vec<u8>, s: &Vec<u8>) -> (r: bool)
    ensures
        r == ends_with(p@, s@),
{
    let np = p.len();
    let ns = s.len();
    if np < ns {
        return false;
    }
    let base = np - ns;
    let mut i: usize = 0;
    while i < ns
        invariant
            np == p@.len(),
            ns == s@.len(),
            base == np - ns,
            0 <= i <= ns,
            forall|k: int| 0 <= k < i ==> p@[base + k] == s@[k],
        decreases ns - i,
    {
        if p[base + i] != s[i] {
            proof {
                assert(p@.subrange(p@.len() - s@.len(), p@.len() as int)[i as int] == p@[base
                    + i]);
            }
            return false;
        }
        i += 1;
    }
    proof {
        assert(p@.subrange(p@.len() - s@.len(), p@.len() as int) =~= s@);
    }
    true
}

/// The position of the extension dot in a path: the last `.` before the end
/// of the file name, unless it starts the file name; -1 when the name has no
/// extension.
pub open spec fn ext_dot_index(p: Seq<u8>) -> int
    decreases p.len(),
{
    if p.len() == 0 {
        -1
    } else if p.last() == 47u8 {
        -1
    } else if p.last() == 46u8 {
        if p.len() == 1 {
            -1
        } else if p[p.len() - 2] == 47u8 {
            -1
        } else {
            p.len() - 1
        }
    } else {
        ext_dot_index(p.drop_last())
    }
}

/// The path with its extension replaced by `ext`, or with `.ext` appended
/// when the file name has none.
pub open spec fn with_extension(p: Seq<u8>, ext: Seq<u8>) -> Seq<u8> {
    let di = ext_dot_index(p);
    if di >= 0 {
        p.take(di) + seq![46u8] + ext
    } else {
        p + seq![46u8] + ext
    }
}

/// Position of the extension dot in the path's file name, if any.
fn find_ext_dot(path: &Vec<u8>) -> (r: Option<usize>)
    ensures
        match r {
            Some(di) => 0 <= di < path@.len() && ext_dot_index(path@) == di,
            None => ext_dot_index(path@) == -1,
        },
{
    let n = path.len();
    let mut k: usize = n;
    proof {
        assert(path@.take(n as int) =~= path@);
    }
    while k > 0
        invariant
            n == path@.len(),
            0 <= k <= n,
            ext_dot_index(path@) == ext_dot_index(path@.take(k as int)),
        decreases k,
    {
        let c = path[k - 1];
        proof {
            assert(path@.take(k as int).last() == path@[k - 1]);
            assert(path@.take(k as int).drop_last() =~= path@.take((k - 1) as int));
            if k >= 2 {
                assert(path@.take(k as int)[k - 2] == path@[k - 2]);
            }
        }
        if c == 47 {
            return None;
        }
        if c == 46 {
            if k >= 2 && path[k - 2] != 47 {
                return Some(k - 1);
            }
            return None;
        }
        k -= 1;
    }
    proof {
        assert(path@.take(0) =~= Seq::<u8>::empty());
    }
    None
}

/// Replace the path's extension with `ext`, or append `.ext` when the file
/// name has none.
fn path_with_extension(path: &Vec<u8>, ext: &Vec<u8>) -> (r: Vec<u8>)
    ensures
        r@ == with_extension(path@, ext@),
{
    let n = path.len();
    let dot = find_ext_dot(path);
    let stem_len = match dot {
        Some(di) => di,
        None => n,
    };
    let mut out: Vec<u8> = Vec::new();
    let mut i: usize = 0;
    while i < stem_len
        invariant
            stem_len <= path@.len(),
            0 <= i <= stem_len,
            out@ == path@.subrange(0, i as int),
        decreases stem_len - i,
    {
        out.push(path[i]);
        proof {
            assert(out@ =~= path@.subrange(0, (i + 1) as int));
        }
        i += 1;
    }
    out.push(46);
    append_bytes(&mut out, ext);
    proof {
        assert(path@.subrange(0, stem_len as int) == path@.take(stem_len as int));
        match dot {
            Some(di) => {
                assert(out@ =~= path@.take(di as int) + seq![46u8] + ext@);
            },
            None => {
                assert(path@.take(n as int) =~= path@);
                assert(out@ =~= path@ + seq![46u8] + ext@);
            },
        }
    }
    out
}

/// The on-disk tile store and the steps that make one from an annotation
/// file: detect the file's format by its name, bucket its records, pack the
/// tiles, and name the two sibling files the store lives in.
pub struct GFFparseSettings {
}

/// Associated functions for building and locating a feature store on disk.
pub struct FeatureCollection {
}

impl FeatureCollection {
    /// Path of the packed tile blob that belongs to a store path.
    pub fn get_path_chunks(path: &Vec<u8>) -> (r: Vec<u8>)
        ensures
            r@ == with_extension(path@, seq![99u8, 104u8, 117u8, 110u8, 107u8, 115u8]),
    {
        let mut ext: Vec<u8> = Vec::new();
        ext.push(99u8);
        ext.push(104u8);
        ext.push(117u8);
        ext.push(110u8);
        ext.push(107u8);
        ext.push(115u8);
        proof {
            assert(ext@ =~= seq![99u8, 104u8, 117u8, 110u8, 107u8, 115u8]);
        }
        path_with_extension(path, &ext)
    }

    /// Path of the serialized index that belongs to a store path.
    pub fn get_path_index(path: &Vec<u8>) -> (r: Vec<u8>)
        ensures
            r@ == with_extension(path@, seq![105u8, 110u8, 100u8, 101u8, 120u8]),
    {
        let mut ext: Vec<u8> = Vec::new();
        ext.push(105u8);
        ext.push(110u8);
        ext.push(100u8);
        ext.push(101u8);
        ext.push(120u8);
        proof {
            assert(ext@ =~= seq![105u8, 110u8, 100u8, 101u8, 120u8]);
        }
        path_with_extension(path, &ext)
    }

    /// Tell an annotation file's format from its name suffix. A name with no
    /// known suffix announces no format, and the build must be refused.
    pub fn detect_format(path: &Vec<u8>) -> (r: Option<AnnotationFormat>)
        ensures
            r == detect_model(path@),
    {
        let mut gff_gz: Vec<u8> = Vec::new();
        gff_gz.push(103u8);
        gff_gz.push(102u8);
        gff_gz.push(102u8);
        gff_gz.push(46u8);
        gff_gz.push(103u8);
        gff_gz.push(122u8);
        let mut gff: Vec<u8> = Vec::new();
        gff.push(103u8);
        gff.push(102u8);
        gff.push(102u8);
        let mut gtf_gz: Vec<u8> = Vec::new();
        gtf_gz.push(103u8);
        gtf_gz.push(116u8);
        gtf_gz.push(102u8);
        gtf_gz.push(46u8);
        gtf_gz.push(103u8);
        gtf_gz.push(122u8);
        let mut gtf: Vec<u8> = Vec::new();
        gtf.push(103u8);
        gtf.push(116u8);
        gtf.push(102u8);
        proof {
            assert(gff_gz@ =~= seq![103u8, 102u8, 102u8, 46u8, 103u8, 122u8]);
            assert(gff@ =~= seq![103u8, 102u8, 102u8]);
            assert(gtf_gz@ =~= seq![103u8, 116u8, 102u8, 46u8, 103u8, 122u8]);
            assert(gtf@ =~= seq![103u8, 116u8, 102u8]);
        }
        if has_suffix(path, &gff_gz) {
            Some(AnnotationFormat::GffGzip)
        } else if has_suffix(path, &gff) {
            Some(AnnotationFormat::GffPlain)
        } else if has_suffix(path, &gtf_gz) {
            Some(AnnotationFormat::GtfGzip)
        } else if has_suffix(path, &gtf) {
            Some(AnnotationFormat::GtfPlain)
        } else {
            None
        }
    }

    /// A fresh builder with the standard resolution tracks: bins of one,
    /// five and fifty million bases, finest first.
    pub fn make_default_gff() -> (r: GBrowserGFF)
        ensures
            crate::builder::gff_wf(r@),
            r@.remainder == Seq::<RecordModel>::empty(),
            r@.chrom_sizes == Seq::<(Seq<u8>, u64)>::empty(),
            gff_chunk_sizes(r@) == seq![1000000u64, 5000000u64, 50000000u64],
            forall|t: int|
                0 <= t < r@.tracks.len() ==> (#[trigger] r@.tracks[t]).entries
                    == Seq::<((Seq<u8>, u64), Seq<RecordModel>)>::empty(),
    {
        let mut gff = GBrowserGFF::new();
        gff.add_track(1000000);
        gff.add_track(5000000);
        gff.add_track(50000000);
        proof {
            assert(gff_chunk_sizes(gff@) =~= seq![1000000u64, 5000000u64, 50000000u64]);
            assert(crate::builder::gff_wf(gff@));
        }
        gff
    }
}

} // verus!
