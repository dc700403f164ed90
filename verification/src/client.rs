//! The client tile cache and the viewport fetch scheduler.
//!
//! Each tile identity moves through `Absent -> Pending -> Resolved` or
//! `Absent -> Pending -> KnownEmpty`; both end states are terminal for the
//! session, since the store's contents are static. The scheduler enumerates
//! the tiles the visible window needs, requests only the absent ones, and
//! applies responses tile by tile.

#![allow(unused_imports)]
use vstd::prelude::*;
use vstd::seq_lib::*;

use crate::builder::GBrowserChunk;
use crate::builder::assoc_key_index;
use crate::builder::lemma_assoc_key_index;
use crate::builder::lemma_assoc_key_index_at;
use crate::builder::lemma_assoc_key_index_none;
use crate::record::RecordModel;
use crate::record::bytes_clone;
use crate::tile::ChunkIdModel;
use crate::tile::GBrowserGFFchunkID;
use crate::tile::GBrowserGFFchunkRequest;
use crate::tile::GBrowserGFFchunkResponse;
use crate::tile::GBrowserGFFdescription;

verus! {

/// State of one tile the cache has an entry for.
#[derive(Clone, Debug, PartialEq)]
pub enum TileState {
    /// Requested; the response has not arrived yet.
    Pending,
    /// Response arrived and decoded.
    Resolved(GBrowserChunk),
    /// The server confirmed that no records exist there.
    KnownEmpty,
}

/// Mathematical form of a cache entry's state.
#[verifier::ext_equal]
pub ghost enum TileStateModel {
    Pending,
    Resolved(Seq<RecordModel>),
    KnownEmpty,
}

impl View for TileState {
    type V = TileStateModel;

    open spec fn view(&self) -> TileStateModel {
        match self {
            TileState::Pending => TileStateModel::Pending,
            TileState::Resolved(c) => TileStateModel::Resolved(c@),
            TileState::KnownEmpty => TileStateModel::KnownEmpty,
        }
    }
}

/// What the cache knows of a tile identity: the three entry states, or
/// nothing yet.
#[verifier::ext_equal]
pub ghost enum CacheState {
    Absent,
    Pending,
    Resolved(Seq<RecordModel>),
    KnownEmpty,
}

/// The cache's association list as a mathematical map: the first entry for
/// an identity decides, and an identity without an entry is absent.
pub open spec fn state_of(chunks: Seq<(ChunkIdModel, TileStateModel)>, id: ChunkIdModel) -> CacheState {
    let ki = assoc_key_index(chunks, id);
    if ki < 0 {
        CacheState::Absent
    } else {
        match chunks[ki].1 {
            TileStateModel::Pending => CacheState::Pending,
            TileStateModel::Resolved(r) => CacheState::Resolved(r),
            TileStateModel::KnownEmpty => CacheState::KnownEmpty,
        }
    }
}

/// Setting one identity's state: replace its first entry, or append one.
pub open spec fn set_state_model(
    chunks: Seq<(ChunkIdModel, TileStateModel)>,
    id: ChunkIdModel,
    st: TileStateModel,
) -> Seq<(ChunkIdModel, TileStateModel)> {
    let ki = assoc_key_index(chunks, id);
    if ki < 0 {
        chunks.push((id, st))
    } else {
        chunks.update(ki, (id, st))
    }
}

/// Dropping one identity's entry, leaving it absent.
pub open spec fn remove_state_model(
    chunks: Seq<(ChunkIdModel, TileStateModel)>,
    id: ChunkIdModel,
) -> Seq<(ChunkIdModel, TileStateModel)> {
    let ki = assoc_key_index(chunks, id);
    if ki < 0 {
        chunks
    } else {
        chunks.remove(ki)
    }
}

/// After setting `id` to `st`, `id` reads back `st` and every other
/// identity reads as before.
pub proof fn lemma_set_state(
    chunks: Seq<(ChunkIdModel, TileStateModel)>,
    id: ChunkIdModel,
    st: TileStateModel,
    other: ChunkIdModel,
)
    ensures
        state_of(set_state_model(chunks, id, st), id) == match st {
            TileStateModel::Pending => CacheState::Pending,
            TileStateModel::Resolved(r) => CacheState::Resolved(r),
            TileStateModel::KnownEmpty => CacheState::KnownEmpty,
        },
        other != id ==> state_of(set_state_model(chunks, id, st), other) == state_of(
            chunks,
            other,
        ),
{
    lemma_assoc_key_index(chunks, id);
    let ki = assoc_key_index(chunks, id);
    let c2 = set_state_model(chunks, id, st);
    if ki < 0 {
        lemma_assoc_key_index(chunks, other);
        let oi = assoc_key_index(chunks, other);
        lemma_assoc_key_index_at(c2, id, chunks.len() as int);
        if other != id {
            if oi >= 0 {
                lemma_assoc_key_index_at(c2, other, oi);
            } else {
                lemma_assoc_key_index_none(c2, other);
            }
        }
    } else {
        lemma_assoc_key_index_at(c2, id, ki);
        if other != id {
            lemma_assoc_key_index(chunks, other);
            let oi = assoc_key_index(chunks, other);
            if oi >= 0 {
                lemma_assoc_key_index_at(c2, other, oi);
            } else {
                lemma_assoc_key_index_none(c2, other);
            }
        }
    }
}

/// After dropping `id`'s entries, every other identity reads as before,
/// provided each identity has at most one entry.
pub proof fn lemma_remove_state(
    chunks: Seq<(ChunkIdModel, TileStateModel)>,
    id: ChunkIdModel,
    other: ChunkIdModel,
)
    requires
        forall|i: int, j: int| 0 <= i < j < chunks.len() ==> chunks[i].0 != chunks[j].0,
    ensures
        state_of(remove_state_model(chunks, id), id) == CacheState::Absent,
        other != id ==> state_of(remove_state_model(chunks, id), other) == state_of(
            chunks,
            other,
        ),
{
    lemma_assoc_key_index(chunks, id);
    let ki = assoc_key_index(chunks, id);
    let c2 = remove_state_model(chunks, id);
    if ki < 0 {
        lemma_assoc_key_index(chunks, other);
    } else {
        assert(c2 =~= chunks.remove(ki));
        assert forall|j: int| 0 <= j < c2.len() implies c2[j].0 != id by {
            if j < ki {
                assert(c2[j] == chunks[j]);
            } else {
                assert(c2[j] == chunks[j + 1]);
            }
        }
        lemma_assoc_key_index_none(c2, id);
        if other != id {
            lemma_assoc_key_index(chunks, other);
            let oi = assoc_key_index(chunks, other);
            if oi >= 0 {
                if oi < ki {
                    assert(c2[oi] == chunks[oi]);
                    lemma_assoc_key_index_at(c2, other, oi);
                } else {
                    assert(oi != ki);
                    assert(c2[oi - 1] == chunks[oi]);
                    assert forall|j: int| 0 <= j < oi - 1 implies c2[j].0 != other by {
                        if j < ki {
                            assert(c2[j] == chunks[j]);
                        } else {
                            assert(c2[j] == chunks[j + 1]);
                        }
                    }
                    lemma_assoc_key_index_at(c2, other, oi - 1);
                }
            } else {
                assert forall|j: int| 0 <= j < c2.len() implies c2[j].0 != other by {
                    if j < ki {
                        assert(c2[j] == chunks[j]);
                    } else {
                        assert(c2[j] == chunks[j + 1]);
                    }
                }
                lemma_assoc_key_index_none(c2, other);
            }
        }
    }
}

/// Setting or dropping a state keeps each identity's entry unique.
pub proof fn lemma_state_ops_keep_unique(
    chunks: Seq<(ChunkIdModel, TileStateModel)>,
    id: ChunkIdModel,
    st: TileStateModel,
)
    requires
        forall|i: int, j: int| 0 <= i < j < chunks.len() ==> chunks[i].0 != chunks[j].0,
    ensures
        forall|i: int, j: int|
            0 <= i < j < set_state_model(chunks, id, st).len() ==> set_state_model(
                chunks,
                id,
                st,
            )[i].0 != set_state_model(chunks, id, st)[j].0,
        forall|i: int, j: int|
            0 <= i < j < remove_state_model(chunks, id).len() ==> remove_state_model(
                chunks,
                id,
            )[i].0 != remove_state_model(chunks, id)[j].0,
{
    lemma_assoc_key_index(chunks, id);
    let ki = assoc_key_index(chunks, id);
    let c2 = set_state_model(chunks, id, st);
    assert forall|i: int, j: int| 0 <= i < j < c2.len() implies c2[i].0 != c2[j].0 by {
        if ki < 0 {
            if j == c2.len() - 1 {
                assert(c2[i] == chunks[i]);
            }
        }
    }
    let c3 = remove_state_model(chunks, id);
    if ki >= 0 {
        assert forall|i: int, j: int| 0 <= i < j < c3.len() implies c3[i].0 != c3[j].0 by {
            let i0 = if i < ki {
                i
            } else {
                i + 1
            };
            let j0 = if j < ki {
                j
            } else {
                j + 1
            };
            assert(c3[i] == chunks[i0]);
            assert(c3[j] == chunks[j0]);
        }
    }
}

/// The client-side view of one feature store: the description fetched once,
/// and the per-tile cache.
#[derive(Clone, Debug, PartialEq)]
pub struct ClientGBrowseData {
    pub desc: GBrowserGFFdescription,
    pub chunks: Vec<(GBrowserGFFchunkID, TileState)>,
}

/// Mathematical form of the client state.
#[verifier::ext_equal]
pub ghost struct ClientModel {
    pub desc: crate::tile::DescriptionModel,
    pub chunks: Seq<(ChunkIdModel, TileStateModel)>,
}

impl View for ClientGBrowseData {
    type V = ClientModel;

    open spec fn view(&self) -> ClientModel {
        ClientModel {
            desc: self.desc@,
            chunks: self.chunks@.map_values(|p: (GBrowserGFFchunkID, TileState)| (p.0@, p.1@)),
        }
    }
}

/// Each identity holds at most one cache entry.
pub open spec fn cache_wf(chunks: Seq<(ChunkIdModel, TileStateModel)>) -> bool {
    forall|i: int, j: int| 0 <= i < j < chunks.len() ==> chunks[i].0 != chunks[j].0
}

/// An answer a caller can branch on without borrowing the cache.
#[derive(Clone, Copy, Debug, PartialEq, Eq, Structural)]
pub enum TileStateKind {
    Absent,
    Pending,
    Resolved,
    KnownEmpty,
}

/// The kind of a cache state.
pub open spec fn kind_of(cs: CacheState) -> TileStateKind {
    match cs {
        CacheState::Absent => TileStateKind::Absent,
        CacheState::Pending => TileStateKind::Pending,
        CacheState::Resolved(_) => TileStateKind::Resolved,
        CacheState::KnownEmpty => TileStateKind::KnownEmpty,
    }
}

impl ClientGBrowseData {
    /// Fresh client state around a fetched description: every tile absent.
    pub fn new(desc: GBrowserGFFdescription) -> (r: ClientGBrowseData)
        ensures
            r@.desc == desc@,
            r@.chunks == Seq::<(ChunkIdModel, TileStateModel)>::empty(),
            cache_wf(r@.chunks),
    {
        let r = ClientGBrowseData { desc, chunks: Vec::new() };
        proof {
            assert(r@.chunks =~= Seq::<(ChunkIdModel, TileStateModel)>::empty());
        }
        r
    }

    /// Position of the first cache entry for `id`, if any.
    fn find_entry(&self, id: &GBrowserGFFchunkID) -> (r: Option<usize>)
        ensures
            match r {
                Some(i) => 0 <= i < self@.chunks.len() && assoc_key_index(self@.chunks, id@) == i,
                None => assoc_key_index(self@.chunks, id@) == -1,
            },
    {
        let n = self.chunks.len();
        let mut i: usize = 0;
        while i < n
            invariant
                n == self.chunks@.len(),
                n == self@.chunks.len(),
                0 <= i <= n,
                forall|j: int| 0 <= j < i ==> self@.chunks[j].0 != id@,
            decreases n - i,
        {
            if self.chunks[i].0.same_id(id) {
                proof {
                    assert(self@.chunks[i as int].0 == id@);
                    lemma_assoc_key_index_at(self@.chunks, id@, i as int);
                }
                return Some(i);
            }
            i += 1;
        }
        proof {
            lemma_assoc_key_index_none(self@.chunks, id@);
        }
        None
    }

    /// What the cache knows of `id`, as a plain kind.
    pub fn state_kind(&self, id: &GBrowserGFFchunkID) -> (r: TileStateKind)
        ensures
            r == kind_of(state_of(self@.chunks, id@)),
    {
        let found = self.find_entry(id);
        match found {
            Some(i) => match &self.chunks[i].1 {
                TileState::Pending => TileStateKind::Pending,
                TileState::Resolved(_) => TileStateKind::Resolved,
                TileState::KnownEmpty => TileStateKind::KnownEmpty,
            },
            None => TileStateKind::Absent,
        }
    }

    /// The records of a resolved tile, for the renderer.
    pub fn get_resolved(&self, id: &GBrowserGFFchunkID) -> (r: Option<&GBrowserChunk>)
        ensures
            match r {
                Some(c) => state_of(self@.chunks, id@) == CacheState::Resolved(c@),
                None => !(state_of(self@.chunks, id@) is Resolved),
            },
    {
        let found = self.find_entry(id);
        match found {
            Some(i) => match &self.chunks[i].1 {
                TileState::Resolved(c) => Some(c),
                TileState::Pending => None,
                TileState::KnownEmpty => None,
            },
            None => None,
        }
    }

    /// Set one identity's state, replacing its entry or appending one.
    fn set_state(&mut self, id: &GBrowserGFFchunkID, st: TileState)
        ensures
            final(self)@.chunks == set_state_model(old(self)@.chunks, id@, st@),
            final(self)@.desc == old(self)@.desc,
    {
        let found = self.find_entry(id);
        match found {
            Some(i) => {
                let entry = &mut self.chunks[i];
                entry.0 = GBrowserGFFchunkID::new(bytes_clone(&id.chr), id.track, id.bin);
                entry.1 = st;
                proof {
                    assert(self@.chunks =~~= set_state_model(old(self)@.chunks, id@, st@));
                }
            },
            None => {
                self.chunks.push(
                    (GBrowserGFFchunkID::new(bytes_clone(&id.chr), id.track, id.bin), st),
                );
                proof {
                    assert(self@.chunks =~~= set_state_model(old(self)@.chunks, id@, st@));
                }
            },
        }
    }

    /// Drop one identity's entry, leaving it absent and re-requestable.
    fn drop_state(&mut self, id: &GBrowserGFFchunkID)
        ensures
            final(self)@.chunks == remove_state_model(old(self)@.chunks, id@),
            final(self)@.desc == old(self)@.desc,
    {
        let found = self.find_entry(id);
        match found {
            Some(i) => {
                let _ = self.chunks.remove(i);
                proof {
                    assert(self@.chunks =~~= remove_state_model(old(self)@.chunks, id@));
                }
            },
            None => {},
        }
    }
}

/// Marking a batch of identities as requested, in order.
pub open spec fn loading_model(
    chunks: Seq<(ChunkIdModel, TileStateModel)>,
    ids: Seq<ChunkIdModel>,
) -> Seq<(ChunkIdModel, TileStateModel)>
    decreases ids.len(),
{
    if ids.len() == 0 {
        chunks
    } else {
        loading_model(set_state_model(chunks, ids[0], TileStateModel::Pending), ids.drop_first())
    }
}

/// Marking one more identity marks it at the end.
pub proof fn lemma_loading_model_snoc(
    chunks: Seq<(ChunkIdModel, TileStateModel)>,
    ids: Seq<ChunkIdModel>,
    id: ChunkIdModel,
)
    ensures
        loading_model(chunks, ids.push(id)) == set_state_model(
            loading_model(chunks, ids),
            id,
            TileStateModel::Pending,
        ),
    decreases ids.len(),
{
    reveal_with_fuel(loading_model, 3);
    if ids.len() == 0 {
        assert(ids.push(id).drop_first() =~= ids);
        assert(ids.push(id)[0] == id);
    } else {
        assert(ids.push(id).drop_first() =~= ids.drop_first().push(id));
        assert(ids.push(id)[0] == ids[0]);
        lemma_loading_model_snoc(
            set_state_model(chunks, ids[0], TileStateModel::Pending),
            ids.drop_first(),
            id,
        );
    }
}

/// After marking a batch, each marked identity is pending and every other
/// identity reads as before.
pub proof fn lemma_loading_model_state(
    chunks: Seq<(ChunkIdModel, TileStateModel)>,
    ids: Seq<ChunkIdModel>,
    id: ChunkIdModel,
)
    ensures
        ids.contains(id) ==> state_of(loading_model(chunks, ids), id) == CacheState::Pending,
        !ids.contains(id) ==> state_of(loading_model(chunks, ids), id) == state_of(chunks, id),
    decreases ids.len(),
{
    if ids.len() > 0 {
        let c1 = set_state_model(chunks, ids[0], TileStateModel::Pending);
        lemma_set_state(chunks, ids[0], TileStateModel::Pending, id);
        lemma_loading_model_state(c1, ids.drop_first(), id);
        if ids.contains(id) && !ids.drop_first().contains(id) {
            let w = choose|w: int| 0 <= w < ids.len() && ids[w] == id;
            if w > 0 {
                assert(ids.drop_first()[w - 1] == id);
            }
            assert(ids[0] == id);
        }
        if !ids.contains(id) {
            assert(ids[0] != id);
            assert(!ids.drop_first().contains(id)) by {
                if ids.drop_first().contains(id) {
                    let w = choose|w: int|
                        0 <= w < ids.drop_first().len() && ids.drop_first()[w] == id;
                    assert(ids[w + 1] == id);
                }
            }
        }
    }
}

/// Marking keeps the cache well formed.
pub proof fn lemma_loading_model_wf(
    chunks: Seq<(ChunkIdModel, TileStateModel)>,
    ids: Seq<ChunkIdModel>,
)
    requires
        cache_wf(chunks),
    ensures
        cache_wf(loading_model(chunks, ids)),
    decreases ids.len(),
{
    if ids.len() > 0 {
        lemma_state_ops_keep_unique(chunks, ids[0], TileStateModel::Pending);
        lemma_loading_model_wf(
            set_state_model(chunks, ids[0], TileStateModel::Pending),
            ids.drop_first(),
        );
    }
}

/// Applying a response's entries, in order: a tile that decodes becomes
/// resolved; one that does not is dropped back to absent, isolated from its
/// siblings.
pub open spec fn apply_entries_model(
    chunks: Seq<(ChunkIdModel, TileStateModel)>,
    data: Seq<(ChunkIdModel, Seq<u8>)>,
) -> Seq<(ChunkIdModel, TileStateModel)>
    decreases data.len(),
{
    if data.len() == 0 {
        chunks
    } else {
        let c1 = match crate::compress::tile_decode_model(data[0].1) {
            Some(r) => set_state_model(chunks, data[0].0, TileStateModel::Resolved(r)),
            None => remove_state_model(chunks, data[0].0),
        };
        apply_entries_model(c1, data.drop_first())
    }
}

/// Does the response carry bytes for `id`?
pub open spec fn resp_has(data: Seq<(ChunkIdModel, Seq<u8>)>, id: ChunkIdModel) -> bool {
    assoc_key_index(data, id) >= 0
}

/// Turning the requested identities that the response left unanswered into
/// confirmed-empty entries, in order.
pub open spec fn mark_empty_model(
    chunks: Seq<(ChunkIdModel, TileStateModel)>,
    requested: Seq<ChunkIdModel>,
    data: Seq<(ChunkIdModel, Seq<u8>)>,
) -> Seq<(ChunkIdModel, TileStateModel)>
    decreases requested.len(),
{
    if requested.len() == 0 {
        chunks
    } else {
        let c1 = if !resp_has(data, requested[0]) && state_of(chunks, requested[0])
            is Pending {
            set_state_model(chunks, requested[0], TileStateModel::KnownEmpty)
        } else {
            chunks
        };
        mark_empty_model(c1, requested.drop_first(), data)
    }
}

/// What one response does to the cache: apply each returned tile, then mark
/// the requested-but-unanswered pending tiles as confirmed empty.
pub open spec fn response_model(
    chunks: Seq<(ChunkIdModel, TileStateModel)>,
    requested: Seq<ChunkIdModel>,
    data: Seq<(ChunkIdModel, Seq<u8>)>,
) -> Seq<(ChunkIdModel, TileStateModel)> {
    mark_empty_model(apply_entries_model(chunks, data), requested, data)
}

/// Marking one more requested identity marks it at the end.
pub proof fn lemma_mark_empty_snoc(
    chunks: Seq<(ChunkIdModel, TileStateModel)>,
    requested: Seq<ChunkIdModel>,
    id: ChunkIdModel,
    data: Seq<(ChunkIdModel, Seq<u8>)>,
)
    ensures
        mark_empty_model(chunks, requested.push(id), data) == ({
            let c1 = mark_empty_model(chunks, requested, data);
            if !resp_has(data, id) && state_of(c1, id) is Pending {
                set_state_model(c1, id, TileStateModel::KnownEmpty)
            } else {
                c1
            }
        }),
    decreases requested.len(),
{
    reveal_with_fuel(mark_empty_model, 3);
    if requested.len() == 0 {
        assert(requested.push(id).drop_first() =~= requested);
        assert(requested.push(id)[0] == id);
    } else {
        assert(requested.push(id)[0] == requested[0]);
        assert(requested.push(id).drop_first() =~= requested.drop_first().push(id));
        let c1 = if !resp_has(data, requested[0]) && state_of(chunks, requested[0])
            is Pending {
            set_state_model(chunks, requested[0], TileStateModel::KnownEmpty)
        } else {
            chunks
        };
        lemma_mark_empty_snoc(c1, requested.drop_first(), id, data);
    }
}

/// Applying one more response entry applies it at the end.
pub proof fn lemma_apply_entries_snoc(
    chunks: Seq<(ChunkIdModel, TileStateModel)>,
    data: Seq<(ChunkIdModel, Seq<u8>)>,
    entry: (ChunkIdModel, Seq<u8>),
)
    ensures
        apply_entries_model(chunks, data.push(entry)) == ({
            let c1 = apply_entries_model(chunks, data);
            match crate::compress::tile_decode_model(entry.1) {
                Some(r) => set_state_model(c1, entry.0, TileStateModel::Resolved(r)),
                None => remove_state_model(c1, entry.0),
            }
        }),
    decreases data.len(),
{
    reveal_with_fuel(apply_entries_model, 3);
    if data.len() == 0 {
        assert(data.push(entry).drop_first() =~= data);
        assert(data.push(entry)[0] == entry);
    } else {
        assert(data.push(entry).drop_first() =~= data.drop_first().push(entry));
        assert(data.push(entry)[0] == data[0]);
        let c1 = match crate::compress::tile_decode_model(data[0].1) {
            Some(r) => set_state_model(chunks, data[0].0, TileStateModel::Resolved(r)),
            None => remove_state_model(chunks, data[0].0),
        };
        lemma_apply_entries_snoc(c1, data.drop_first(), entry);
    }
}

impl ClientGBrowseData {
    /// Mark every identity of an outgoing request as pending, before its
    /// response arrives, so that later scheduler passes issue no duplicate
    /// request for them.
    pub fn set_loading(&mut self, query: &GBrowserGFFchunkRequest)
        ensures
            final(self)@.chunks == loading_model(old(self)@.chunks, query@),
            final(self)@.desc == old(self)@.desc,
    {
        let n = query.to_get.len();
        let mut i: usize = 0;
        proof {
            assert(query@.take(0) =~= Seq::<ChunkIdModel>::empty());
        }
        while i < n
            invariant
                n == query.to_get@.len(),
                n == query@.len(),
                0 <= i <= n,
                self@.chunks == loading_model(old(self)@.chunks, query@.take(i as int)),
                self@.desc == old(self)@.desc,
            decreases n - i,
        {
            self.set_state(&query.to_get[i], TileState::Pending);
            proof {
                assert(query@.take((i + 1) as int) =~= query@.take(i as int).push(
                    query@[i as int],
                ));
                lemma_loading_model_snoc(old(self)@.chunks, query@.take(i as int), query@[i as int]);
            }
            i += 1;
        }
        proof {
            assert(query@.take(n as int) =~= query@);
        }
    }

    /// Apply one response to the cache: each returned tile is decompressed
    /// and decoded independently — a tile that fails either step is dropped
    /// back to absent, without touching its siblings — and every identity of
    /// the answered request that the response omitted while it was pending
    /// becomes confirmed empty, a terminal state.
    pub fn set_chunks(&mut self, requested: &GBrowserGFFchunkRequest, res: &GBrowserGFFchunkResponse)
        ensures
            final(self)@.chunks == response_model(old(self)@.chunks, requested@, res@),
            final(self)@.desc == old(self)@.desc,
    {
        let nd = res.data.len();
        let mut i: usize = 0;
        proof {
            assert(res@.take(0) =~= Seq::<(ChunkIdModel, Seq<u8>)>::empty());
        }
        while i < nd
            invariant
                nd == res.data@.len(),
                nd == res@.len(),
                0 <= i <= nd,
                self@.chunks == apply_entries_model(old(self)@.chunks, res@.take(i as int)),
                self@.desc == old(self)@.desc,
            decreases nd - i,
        {
            let entry = &res.data[i];
            let decoded = crate::compress::decode_tile(&entry.1);
            match decoded {
                Ok(c) => {
                    self.set_state(&entry.0, TileState::Resolved(c));
                },
                Err(_) => {
                    self.drop_state(&entry.0);
                },
            }
            proof {
                assert(res@.take((i + 1) as int) =~= res@.take(i as int).push(res@[i as int]));
                lemma_apply_entries_snoc(old(self)@.chunks, res@.take(i as int), res@[i as int]);
            }
            i += 1;
        }
        proof {
            assert(res@.take(nd as int) =~= res@);
        }
        let ghost applied = apply_entries_model(old(self)@.chunks, res@);
        let nr = requested.to_get.len();
        let mut j: usize = 0;
        proof {
            assert(requested@.take(0) =~= Seq::<ChunkIdModel>::empty());
        }
        while j < nr
            invariant
                nr == requested.to_get@.len(),
                nr == requested@.len(),
                0 <= j <= nr,
                self@.chunks == mark_empty_model(applied, requested@.take(j as int), res@),
                self@.desc == old(self)@.desc,
            decreases nr - j,
        {
            let id = &requested.to_get[j];
            let in_response = response_contains(res, id);
            let kind = self.state_kind(id);
            if !in_response && matches!(kind, TileStateKind::Pending) {
                self.set_state(id, TileState::KnownEmpty);
            }
            proof {
                assert(requested@.take((j + 1) as int) =~= requested@.take(j as int).push(
                    requested@[j as int],
                ));
                lemma_mark_empty_snoc(applied, requested@.take(j as int), requested@[j as int], res@);
            }
            j += 1;
        }
        proof {
            assert(requested@.take(nr as int) =~= requested@);
        }
    }
}

/// Applying a response keeps each identity's entry unique.
pub proof fn lemma_apply_entries_wf(
    chunks: Seq<(ChunkIdModel, TileStateModel)>,
    data: Seq<(ChunkIdModel, Seq<u8>)>,
)
    requires
        cache_wf(chunks),
    ensures
        cache_wf(apply_entries_model(chunks, data)),
    decreases data.len(),
{
    if data.len() > 0 {
        lemma_state_ops_keep_unique(
            chunks,
            data[0].0,
            TileStateModel::Resolved(
                match crate::compress::tile_decode_model(data[0].1) {
                    Some(r) => r,
                    None => Seq::<RecordModel>::empty(),
                },
            ),
        );
        let c1 = match crate::compress::tile_decode_model(data[0].1) {
            Some(r) => set_state_model(chunks, data[0].0, TileStateModel::Resolved(r)),
            None => remove_state_model(chunks, data[0].0),
        };
        lemma_apply_entries_wf(c1, data.drop_first());
    }
}

/// Marking unanswered tiles keeps each identity's entry unique.
pub proof fn lemma_mark_empty_wf(
    chunks: Seq<(ChunkIdModel, TileStateModel)>,
    requested: Seq<ChunkIdModel>,
    data: Seq<(ChunkIdModel, Seq<u8>)>,
)
    requires
        cache_wf(chunks),
    ensures
        cache_wf(mark_empty_model(chunks, requested, data)),
    decreases requested.len(),
{
    if requested.len() > 0 {
        lemma_state_ops_keep_unique(chunks, requested[0], TileStateModel::KnownEmpty);
        let c1 = if !resp_has(data, requested[0]) && state_of(chunks, requested[0])
            is Pending {
            set_state_model(chunks, requested[0], TileStateModel::KnownEmpty)
        } else {
            chunks
        };
        lemma_mark_empty_wf(c1, requested.drop_first(), data);
    }
}

/// A whole response keeps the cache well formed.
pub proof fn lemma_response_model_wf(
    chunks: Seq<(ChunkIdModel, TileStateModel)>,
    requested: Seq<ChunkIdModel>,
    data: Seq<(ChunkIdModel, Seq<u8>)>,
)
    requires
        cache_wf(chunks),
    ensures
        cache_wf(response_model(chunks, requested, data)),
{
    lemma_apply_entries_wf(chunks, data);
    lemma_mark_empty_wf(apply_entries_model(chunks, data), requested, data);
}

/// Decode failures are isolated: applying a response's entries leaves every
/// identity the response does not carry exactly as it was — a tile that
/// fails to decode never corrupts its siblings.
pub proof fn lemma_apply_entries_isolated(
    chunks: Seq<(ChunkIdModel, TileStateModel)>,
    data: Seq<(ChunkIdModel, Seq<u8>)>,
    id: ChunkIdModel,
)
    requires
        cache_wf(chunks),
        !resp_has(data, id),
    ensures
        state_of(apply_entries_model(chunks, data), id) == state_of(chunks, id),
    decreases data.len(),
{
    if data.len() > 0 {
        crate::builder::lemma_assoc_key_index(data, id);
        assert(data[0].0 != id);
        assert(!resp_has(data.drop_first(), id)) by {
            assert forall|j: int| 0 <= j < data.drop_first().len() implies data.drop_first()[j].0
                != id by {
                assert(data.drop_first()[j] == data[j + 1]);
            }
            lemma_assoc_key_index_none(data.drop_first(), id);
        }
        let c1 = match crate::compress::tile_decode_model(data[0].1) {
            Some(r) => set_state_model(chunks, data[0].0, TileStateModel::Resolved(r)),
            None => remove_state_model(chunks, data[0].0),
        };
        match crate::compress::tile_decode_model(data[0].1) {
            Some(r) => {
                lemma_set_state(chunks, data[0].0, TileStateModel::Resolved(r), id);
                lemma_state_ops_keep_unique(chunks, data[0].0, TileStateModel::Resolved(r));
            },
            None => {
                lemma_remove_state(chunks, data[0].0, id);
                lemma_state_ops_keep_unique(chunks, data[0].0, TileStateModel::Pending);
            },
        }
        lemma_apply_entries_isolated(c1, data.drop_first(), id);
    }
}

/// A window position clamped to the first chromosome base.
pub open spec fn clamp0(pos: i64) -> u64 {
    if pos < 0 {
        0u64
    } else {
        pos as u64
    }
}

/// The candidate tiles of one track for a window: every bin from `first`
/// to `last`, inclusive, in order.
pub open spec fn track_needed(chr: Seq<u8>, t: u64, first: u64, last: u64) -> Seq<ChunkIdModel> {
    Seq::new(
        (last - first + 1) as nat,
        |i: int| ChunkIdModel { chr, track: t, bin: (first + i) as u64 },
    )
}

/// The candidate tiles of the first `t` tracks for a window.
pub open spec fn needed_upto(sizes: Seq<u64>, chr: Seq<u8>, from: i64, to: i64, t: int) -> Seq<
    ChunkIdModel,
> {
    Seq::new(
        t as nat,
        |s: int| track_needed(chr, s as u64, clamp0(from) / sizes[s], clamp0(to) / sizes[s]),
    ).flatten()
}

/// Every candidate tile the window needs, across all tracks: for each track
/// the bins from `clamp(from) / chunk_size` to `clamp(to) / chunk_size`,
/// inclusive.
pub open spec fn needed_model(sizes: Seq<u64>, chr: Seq<u8>, from: i64, to: i64) -> Seq<
    ChunkIdModel,
> {
    needed_upto(sizes, chr, from, to, sizes.len() as int)
}

/// One more track's candidates extend the list at the end.
proof fn lemma_needed_upto_snoc(sizes: Seq<u64>, chr: Seq<u8>, from: i64, to: i64, t: int)
    requires
        0 <= t < sizes.len(),
    ensures
        needed_upto(sizes, chr, from, to, t + 1) == needed_upto(sizes, chr, from, to, t)
            + track_needed(chr, t as u64, clamp0(from) / sizes[t], clamp0(to) / sizes[t]),
{
    let f = |s: int| track_needed(chr, s as u64, clamp0(from) / sizes[s], clamp0(to) / sizes[s]);
    assert(Seq::new((t + 1) as nat, f) =~= Seq::new(t as nat, f).push(f(t)));
    Seq::lemma_flatten_push(Seq::new(t as nat, f), f(t));
}

/// A flattened sequence holds an element exactly when one of its parts does.
proof fn lemma_flatten_contains<A>(ss: Seq<Seq<A>>, x: A)
    ensures
        ss.flatten().contains(x) <==> exists|i: int| 0 <= i < ss.len() && ss[i].contains(x),
    decreases ss.len(),
{
    if ss.len() == 0 {
    } else {
        lemma_flatten_contains(ss.drop_first(), x);
        assert(ss.flatten() == ss.first() + ss.drop_first().flatten());
        if ss.flatten().contains(x) {
            let w = choose|w: int| 0 <= w < ss.flatten().len() && ss.flatten()[w] == x;
            if w < ss.first().len() {
                assert(ss.first()[w] == x);
                assert(ss[0].contains(x));
            } else {
                assert(ss.drop_first().flatten()[w - ss.first().len()] == x);
                assert(ss.drop_first().flatten().contains(x));
                let i = choose|i: int|
                    0 <= i < ss.drop_first().len() && ss.drop_first()[i].contains(x);
                assert(ss[i + 1].contains(x));
            }
        }
        if exists|i: int| 0 <= i < ss.len() && ss[i].contains(x) {
            let i = choose|i: int| 0 <= i < ss.len() && ss[i].contains(x);
            if i == 0 {
                let w = choose|w: int| 0 <= w < ss[0].len() && ss[0][w] == x;
                assert(ss.flatten()[w] == x);
            } else {
                assert(ss.drop_first()[i - 1].contains(x));
                assert(ss.drop_first().flatten().contains(x));
                let w = choose|w: int|
                    0 <= w < ss.drop_first().flatten().len() && ss.drop_first().flatten()[w] == x;
                assert(ss.flatten()[w + ss.first().len()] == x);
            }
        }
    }
}

/// Scheduler completeness: for a window `[from, to]` and each track, the
/// candidate bins are exactly `clamp(from) / chunk_size` through
/// `clamp(to) / chunk_size` — no gaps, and no bins beyond that range.
pub proof fn lemma_scheduler_completeness(
    sizes: Seq<u64>,
    chr: Seq<u8>,
    from: i64,
    to: i64,
    t: int,
    b: u64,
)
    requires
        forall|s: int| 0 <= s < sizes.len() ==> sizes[s] >= 1,
        sizes.len() < 0x10000000000000000,
        from <= to,
        0 <= t < sizes.len(),
    ensures
        needed_model(sizes, chr, from, to).contains(
            ChunkIdModel { chr, track: t as u64, bin: b },
        ) <==> clamp0(from) / sizes[t] <= b <= clamp0(to) / sizes[t],
{
    let id = ChunkIdModel { chr, track: t as u64, bin: b };
    let f = |s: int| track_needed(chr, s as u64, clamp0(from) / sizes[s], clamp0(to) / sizes[s]);
    let blocks = Seq::new(sizes.len(), f);
    lemma_flatten_contains(blocks, id);
    let first = clamp0(from) / sizes[t];
    let last = clamp0(to) / sizes[t];
    vstd::arithmetic::div_mod::lemma_div_is_ordered(
        clamp0(from) as int,
        clamp0(to) as int,
        sizes[t] as int,
    );
    assert forall|s: int| 0 <= s < blocks.len() && s != t implies !(#[trigger] blocks[s]).contains(
        id,
    ) by {
        if blocks[s].contains(id) {
            let w = choose|w: int| 0 <= w < blocks[s].len() && blocks[s][w] == id;
            assert(blocks[s][w].track == s as u64);
            assert(s as u64 == t as u64);
            assert(s == t);
        }
    }
    if first <= b <= last {
        assert(blocks[t][b - first as int] == id);
        assert(blocks[t].contains(id));
    }
    if blocks[t].contains(id) {
        let w = choose|w: int| 0 <= w < blocks[t].len() && blocks[t][w] == id;
        assert(blocks[t][w].bin == (first + w) as u64);
        assert(first <= b <= last);
    }
}

/// Enumerate every tile identity the visible window `[from, to]` needs, for
/// each track the bins from `clamp(from) / chunk_size` through
/// `clamp(to) / chunk_size`, inclusive, finest track first.
pub fn needed_chunks(chunk_sizes: &Vec<u64>, chr: &Vec<u8>, from: i64, to: i64) -> (r: Vec<
    GBrowserGFFchunkID,
>)
    requires
        forall|s: int| 0 <= s < chunk_sizes@.len() ==> chunk_sizes@[s] >= 1,
        from <= to,
    ensures
        r@.map_values(|id: GBrowserGFFchunkID| id@) == needed_model(chunk_sizes@, chr@, from, to),
{
    let ghost iview = |id: GBrowserGFFchunkID| id@;
    let cfrom = crate::clamp0_i64(from);
    let cto = crate::clamp0_i64(to);
    let mut out: Vec<GBrowserGFFchunkID> = Vec::new();
    proof {
        assert(needed_upto(chunk_sizes@, chr@, from, to, 0) =~= Seq::<ChunkIdModel>::empty());
        assert(out@.map_values(iview) =~= Seq::<ChunkIdModel>::empty());
    }
    let nt = chunk_sizes.len();
    let mut t: usize = 0;
    while t < nt
        invariant
            nt == chunk_sizes@.len(),
            forall|s: int| 0 <= s < chunk_sizes@.len() ==> chunk_sizes@[s] >= 1,
            from <= to,
            cfrom == clamp0(from),
            cto == clamp0(to),
            0 <= t <= nt,
            iview == (|id: GBrowserGFFchunkID| id@),
            out@.map_values(iview) == needed_upto(chunk_sizes@, chr@, from, to, t as int),
        decreases nt - t,
    {
        let cs = chunk_sizes[t];
        let first = cfrom / cs;
        let last = cto / cs;
        proof {
            vstd::arithmetic::div_mod::lemma_div_is_ordered(cfrom as int, cto as int, cs as int);
            assert(track_needed(chr@, t as u64, first, last).take(0)
                =~= Seq::<ChunkIdModel>::empty());
            assert(out@.map_values(iview) + track_needed(chr@, t as u64, first, last).take(0)
                =~= out@.map_values(iview));
        }
        let ghost base = out@.map_values(iview);
        let mut b: u64 = first;
        while b <= last
            invariant
                first <= b <= last + 1,
                last < 0xffffffffffffffff,
                iview == (|id: GBrowserGFFchunkID| id@),
                out@.map_values(iview) == base + track_needed(chr@, t as u64, first, last).take(
                    (b - first) as int,
                ),
            decreases last + 1 - b,
        {
            let ghost pre_out = out@;
            let new_id = GBrowserGFFchunkID::new(bytes_clone(chr), t as u64, b);
            proof {
                assert(new_id@ == (ChunkIdModel { chr: chr@, track: t as u64, bin: b }));
            }
            out.push(new_id);
            proof {
                let k = (b - first) as int;
                assert(out@ == pre_out.push(new_id));
                assert(out@.map_values(iview) =~= pre_out.map_values(iview).push(new_id@));
                assert(track_needed(chr@, t as u64, first, last)[k] == (ChunkIdModel {
                    chr: chr@,
                    track: t as u64,
                    bin: b,
                }));
                assert(track_needed(chr@, t as u64, first, last).take(k + 1) =~= track_needed(
                    chr@,
                    t as u64,
                    first,
                    last,
                ).take(k).push(track_needed(chr@, t as u64, first, last)[k]));
                assert(out@.map_values(iview) =~= base + track_needed(
                    chr@,
                    t as u64,
                    first,
                    last,
                ).take(k + 1));
            }
            b += 1;
        }
        proof {
            assert(track_needed(chr@, t as u64, first, last).take((last + 1 - first) as int)
                =~= track_needed(chr@, t as u64, first, last));
            lemma_needed_upto_snoc(chunk_sizes@, chr@, from, to, t as int);
        }
        t += 1;
    }
    out
}

/// How many tiles one request may carry at most. When more are missing, the
/// scheduler requests the first ones in enumeration order — a deterministic
/// priority — and picks up the rest on later passes.
pub const REQUEST_BATCH_LIMIT: usize = 100;

/// The absent tiles among the needed ones, in enumeration order.
pub open spec fn missing_model(
    chunks: Seq<(ChunkIdModel, TileStateModel)>,
    needed: Seq<ChunkIdModel>,
) -> Seq<ChunkIdModel> {
    needed.filter(|id: ChunkIdModel| state_of(chunks, id) is Absent)
}

/// What one scheduler pass requests: the absent tiles, capped at the batch
/// limit.
pub open spec fn request_model(
    chunks: Seq<(ChunkIdModel, TileStateModel)>,
    needed: Seq<ChunkIdModel>,
) -> Seq<ChunkIdModel> {
    let missing = missing_model(chunks, needed);
    if missing.len() > REQUEST_BATCH_LIMIT {
        missing.take(REQUEST_BATCH_LIMIT as int)
    } else {
        missing
    }
}

impl ClientGBrowseData {
    /// One scheduler pass: among the needed tiles, request exactly the
    /// absent ones, in enumeration order, capped at the batch limit.
    /// Pending, resolved and confirmed-empty tiles are never re-requested.
    pub fn compute_request(&self, needed: &Vec<GBrowserGFFchunkID>) -> (r: GBrowserGFFchunkRequest)
        ensures
            r@ == request_model(self@.chunks, needed@.map_values(|id: GBrowserGFFchunkID| id@)),
    {
        let ghost iview = |id: GBrowserGFFchunkID| id@;
        let ghost pred = |id: ChunkIdModel| state_of(self@.chunks, id) is Absent;
        let mut out: Vec<GBrowserGFFchunkID> = Vec::new();
        let n = needed.len();
        let mut i: usize = 0;
        proof {
            assert(needed@.map_values(iview).take(0) =~= Seq::<ChunkIdModel>::empty());
            assert(Seq::<ChunkIdModel>::empty().filter(pred) =~= Seq::<ChunkIdModel>::empty());
            assert(out@.map_values(iview) =~= Seq::<ChunkIdModel>::empty());
        }
        while i < n
            invariant
                n == needed@.len(),
                0 <= i <= n,
                iview == (|id: GBrowserGFFchunkID| id@),
                pred == (|id: ChunkIdModel| state_of(self@.chunks, id) is Absent),
                out@.map_values(iview) == ({
                    let m = needed@.map_values(iview).take(i as int).filter(pred);
                    if m.len() > REQUEST_BATCH_LIMIT {
                        m.take(REQUEST_BATCH_LIMIT as int)
                    } else {
                        m
                    }
                }),
            decreases n - i,
        {
            let id = &needed[i];
            let ghost m0 = needed@.map_values(iview).take(i as int).filter(pred);
            let kind = self.state_kind(id);
            if matches!(kind, TileStateKind::Absent) && out.len() < REQUEST_BATCH_LIMIT {
                out.push(GBrowserGFFchunkID::new(bytes_clone(&id.chr), id.track, id.bin));
            }
            proof {
                let nv = needed@.map_values(iview);
                assert(nv.take((i + 1) as int) =~= nv.take(i as int).push(nv[i as int]));
                seq_filter_snoc(nv.take(i as int), nv[i as int], pred);
                let m1 = nv.take((i + 1) as int).filter(pred);
                if pred(nv[i as int]) {
                    assert(m1 =~= m0.push(nv[i as int]));
                    if m0.len() >= REQUEST_BATCH_LIMIT {
                        assert(m1.take(REQUEST_BATCH_LIMIT as int) =~= ({
                            if m0.len() > REQUEST_BATCH_LIMIT {
                                m0.take(REQUEST_BATCH_LIMIT as int)
                            } else {
                                m0
                            }
                        }));
                    }
                }
                assert(out@.map_values(iview) =~= ({
                    if m1.len() > REQUEST_BATCH_LIMIT {
                        m1.take(REQUEST_BATCH_LIMIT as int)
                    } else {
                        m1
                    }
                }));
            }
            i += 1;
        }
        proof {
            assert(needed@.map_values(iview).take(n as int) =~= needed@.map_values(iview));
        }
        GBrowserGFFchunkRequest { to_get: out }
    }
}

/// Filtering one more element keeps it exactly when the predicate holds.
proof fn seq_filter_snoc<A>(s: Seq<A>, x: A, pred: spec_fn(A) -> bool)
    ensures
        s.push(x).filter(pred) == if pred(x) {
            s.filter(pred).push(x)
        } else {
            s.filter(pred)
        },
{
    reveal(Seq::filter);
    assert(s.push(x).drop_last() =~= s);
    assert(s.push(x).last() == x);
}

/// A tile identity that is not absent is never in the request of a
/// scheduler pass: pending tiles, resolved tiles and confirmed-empty tiles
/// are left alone.
pub proof fn lemma_non_absent_not_requested(
    chunks: Seq<(ChunkIdModel, TileStateModel)>,
    needed: Seq<ChunkIdModel>,
    id: ChunkIdModel,
)
    requires
        !(state_of(chunks, id) is Absent),
    ensures
        !request_model(chunks, needed).contains(id),
{
    let pred = |x: ChunkIdModel| state_of(chunks, x) is Absent;
    let missing = missing_model(chunks, needed);
    let req = request_model(chunks, needed);
    if req.contains(id) {
        let w = choose|w: int| 0 <= w < req.len() && req[w] == id;
        assert(missing[w] == id);
        needed.lemma_filter_pred(pred, w);
        assert(pred(id));
    }
}

/// Idempotent caching: once a scheduler pass has computed its request and
/// marked every identity in it as pending, a second pass over any needed
/// list requests none of them again — a pending tile suppresses duplicate
/// requests until its response arrives.
pub proof fn lemma_pending_suppresses_duplicates(
    chunks: Seq<(ChunkIdModel, TileStateModel)>,
    needed: Seq<ChunkIdModel>,
    needed2: Seq<ChunkIdModel>,
    id: ChunkIdModel,
)
    requires
        request_model(chunks, needed).contains(id),
    ensures
        state_of(loading_model(chunks, request_model(chunks, needed)), id) == CacheState::Pending,
        !request_model(
            loading_model(chunks, request_model(chunks, needed)),
            needed2,
        ).contains(id),
{
    let req = request_model(chunks, needed);
    lemma_loading_model_state(chunks, req, id);
    lemma_non_absent_not_requested(loading_model(chunks, req), needed2, id);
}

/// Empty-tile terminality, first half: an identity that was requested and
/// pending, and that the response legitimately omits, becomes confirmed
/// empty.
pub proof fn lemma_omitted_pending_becomes_known_empty(
    chunks: Seq<(ChunkIdModel, TileStateModel)>,
    requested: Seq<ChunkIdModel>,
    data: Seq<(ChunkIdModel, Seq<u8>)>,
    id: ChunkIdModel,
)
    requires
        requested.contains(id),
        !resp_has(data, id),
        state_of(apply_entries_model(chunks, data), id) is Pending,
    ensures
        state_of(response_model(chunks, requested, data), id) == CacheState::KnownEmpty,
{
    lemma_mark_empty_state(apply_entries_model(chunks, data), requested, data, id);
}

/// After the marking phase, an identity that was requested, unanswered and
/// pending reads as confirmed empty, and every other identity reads as
/// before.
proof fn lemma_mark_empty_state(
    chunks: Seq<(ChunkIdModel, TileStateModel)>,
    requested: Seq<ChunkIdModel>,
    data: Seq<(ChunkIdModel, Seq<u8>)>,
    id: ChunkIdModel,
)
    ensures
        requested.contains(id) && !resp_has(data, id) && state_of(chunks, id) is Pending
            ==> state_of(mark_empty_model(chunks, requested, data), id)
            == CacheState::KnownEmpty,
        state_of(chunks, id) is KnownEmpty ==> state_of(
            mark_empty_model(chunks, requested, data),
            id,
        ) == CacheState::KnownEmpty,
        !requested.contains(id) ==> state_of(mark_empty_model(chunks, requested, data), id)
            == state_of(chunks, id),
    decreases requested.len(),
{
    if requested.len() > 0 {
        let c1 = if !resp_has(data, requested[0]) && state_of(chunks, requested[0])
            is Pending {
            set_state_model(chunks, requested[0], TileStateModel::KnownEmpty)
        } else {
            chunks
        };
        lemma_set_state(chunks, requested[0], TileStateModel::KnownEmpty, id);
        lemma_mark_empty_state(c1, requested.drop_first(), data, id);
        if requested.contains(id) && !requested.drop_first().contains(id) {
            let w = choose|w: int| 0 <= w < requested.len() && requested[w] == id;
            if w > 0 {
                assert(requested.drop_first()[w - 1] == id);
            }
            assert(requested[0] == id);
        }
        if !requested.contains(id) {
            assert(requested[0] != id);
            assert(!requested.drop_first().contains(id)) by {
                if requested.drop_first().contains(id) {
                    let w = choose|w: int|
                        0 <= w < requested.drop_first().len() && requested.drop_first()[w] == id;
                    assert(requested[w + 1] == id);
                }
            }
        }
    }
}

/// Empty-tile terminality, second half: a confirmed-empty identity stays
/// confirmed empty through any later response, and is never requested again.
pub proof fn lemma_known_empty_terminal(
    chunks: Seq<(ChunkIdModel, TileStateModel)>,
    needed: Seq<ChunkIdModel>,
    id: ChunkIdModel,
)
    requires
        state_of(chunks, id) is KnownEmpty,
    ensures
        !request_model(chunks, needed).contains(id),
{
    lemma_non_absent_not_requested(chunks, needed, id);
}

/// Does a response carry bytes for `id`?
fn response_contains(res: &GBrowserGFFchunkResponse, id: &GBrowserGFFchunkID) -> (r: bool)
    ensures
        r == resp_has(res@, id@),
{
    let n = res.data.len();
    let mut i: usize = 0;
    while i < n
        invariant
            n == res.data@.len(),
            n == res@.len(),
            0 <= i <= n,
            forall|j: int| 0 <= j < i ==> res@[j].0 != id@,
        decreases n - i,
    {
        if res.data[i].0.same_id(id) {
            proof {
                assert(res@[i as int].0 == id@);
                lemma_assoc_key_index_at(res@, id@, i as int);
            }
            return true;
        }
        i += 1;
    }
    proof {
        lemma_assoc_key_index_none(res@, id@);
    }
    false
}

} // verus!
