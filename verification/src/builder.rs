//! The tile builder: buckets each annotation record into the finest
//! resolution track whose bin fully contains it, or into the overflow list.

#![allow(unused_imports)]
use vstd::prelude::*;
use vstd::seq_lib::*;
use vstd::multiset::Multiset;

use crate::record::GBrowserRecordBuf;
use crate::record::RecordModel;
use crate::record::bytes_eq;
use crate::tile::DescriptionModel;
use crate::tile::GBrowserGFFdescription;

verus! {

/// One tile: the records co-located in one bin of one track.
#[derive(Clone, Debug, PartialEq)]
pub struct GBrowserChunk {
    pub records: Vec<GBrowserRecordBuf>,
}

impl View for GBrowserChunk {
    type V = Seq<RecordModel>;

    open spec fn view(&self) -> Seq<RecordModel> {
        self.records@.map_values(|r: GBrowserRecordBuf| r@)
    }
}

/// One resolution track: a fixed bin width and the tiles it holds, keyed by
/// `(reference sequence name, bin index)`. Keys are unique; a vector keeps
/// the insertion order stable.
#[derive(Clone, Debug, PartialEq)]
pub struct GBrowserChunkTrack {
    pub chunk_size: u64,
    pub records: Vec<((Vec<u8>, u64), GBrowserChunk)>,
}

/// Mathematical form of one resolution track.
#[verifier::ext_equal]
pub ghost struct TrackModel {
    pub chunk_size: u64,
    pub entries: Seq<((Seq<u8>, u64), Seq<RecordModel>)>,
}

impl View for GBrowserChunkTrack {
    type V = TrackModel;

    open spec fn view(&self) -> TrackModel {
        TrackModel {
            chunk_size: self.chunk_size,
            entries: self.records@.map_values(
                |e: ((Vec<u8>, u64), GBrowserChunk)| ((e.0.0@, e.0.1), e.1@),
            ),
        }
    }
}

/// The whole builder state: the resolution tracks, the overflow records that
/// fit no track, and the largest observed end coordinate per reference
/// sequence.
#[derive(Clone, Debug, PartialEq)]
pub struct GBrowserGFF {
    pub tracks: Vec<GBrowserChunkTrack>,
    pub remainder: Vec<GBrowserRecordBuf>,
    pub chrom_sizes: Vec<(Vec<u8>, u64)>,
}

/// Mathematical form of the builder state.
#[verifier::ext_equal]
pub ghost struct GffModel {
    pub tracks: Seq<TrackModel>,
    pub remainder: Seq<RecordModel>,
    pub chrom_sizes: Seq<(Seq<u8>, u64)>,
}

impl View for GBrowserGFF {
    type V = GffModel;

    open spec fn view(&self) -> GffModel {
        GffModel {
            tracks: self.tracks@.map_values(|t: GBrowserChunkTrack| t@),
            remainder: self.remainder@.map_values(|r: GBrowserRecordBuf| r@),
            chrom_sizes: self.chrom_sizes@.map_values(|p: (Vec<u8>, u64)| (p.0@, p.1)),
        }
    }
}

/// First index at which an association list holds `key`, or -1.
pub open spec fn assoc_key_index<K, V>(s: Seq<(K, V)>, key: K) -> int
    decreases s.len(),
{
    if s.len() == 0 {
        -1
    } else if s[0].0 == key {
        0
    } else {
        let r = assoc_key_index(s.drop_first(), key);
        if r < 0 {
            -1
        } else {
            r + 1
        }
    }
}

/// `assoc_key_index` returns the first matching position, or -1 when no
/// position matches.
pub proof fn lemma_assoc_key_index<K, V>(s: Seq<(K, V)>, key: K)
    ensures
        -1 <= assoc_key_index(s, key) < s.len(),
        assoc_key_index(s, key) == -1 ==> forall|j: int| 0 <= j < s.len() ==> s[j].0 != key,
        assoc_key_index(s, key) >= 0 ==> s[assoc_key_index(s, key)].0 == key,
        assoc_key_index(s, key) >= 0 ==> forall|j: int|
            0 <= j < assoc_key_index(s, key) ==> s[j].0 != key,
    decreases s.len(),
{
    if s.len() > 0 && s[0].0 != key {
        lemma_assoc_key_index(s.drop_first(), key);
        assert forall|j: int| 1 <= j < s.len() implies s.drop_first()[j - 1] == s[j] by {}
    }
}

/// If `key` first occurs at position `i`, then `assoc_key_index` returns `i`.
pub proof fn lemma_assoc_key_index_at<K, V>(s: Seq<(K, V)>, key: K, i: int)
    requires
        0 <= i < s.len(),
        s[i].0 == key,
        forall|j: int| 0 <= j < i ==> s[j].0 != key,
    ensures
        assoc_key_index(s, key) == i,
    decreases s.len(),
{
    if i > 0 {
        assert(s[0].0 != key);
        assert forall|j: int| 0 <= j < i - 1 implies s.drop_first()[j].0 != key by {
            assert(s.drop_first()[j] == s[j + 1]);
        }
        assert(s.drop_first()[i - 1].0 == key);
        lemma_assoc_key_index_at(s.drop_first(), key, i - 1);
    }
}

/// If no position holds `key`, then `assoc_key_index` returns -1.
pub proof fn lemma_assoc_key_index_none<K, V>(s: Seq<(K, V)>, key: K)
    requires
        forall|j: int| 0 <= j < s.len() ==> s[j].0 != key,
    ensures
        assoc_key_index(s, key) == -1,
    decreases s.len(),
{
    if s.len() > 0 {
        assert(s[0].0 != key);
        assert forall|j: int| 0 <= j < s.drop_first().len() implies s.drop_first()[j].0 != key by {
            assert(s.drop_first()[j] == s[j + 1]);
        }
        lemma_assoc_key_index_none(s.drop_first(), key);
    }
}

/// Does `rec` fit one bin of a track with the given bin width?
pub open spec fn fits(rec: RecordModel, chunk_size: u64) -> bool {
    chunk_size > 0 && rec.start / chunk_size == rec.end / chunk_size
}

/// Index of the first (finest) track whose bin fully contains `rec`.
pub open spec fn select_track(rec: RecordModel, sizes: Seq<u64>) -> Option<int>
    decreases sizes.len(),
{
    if sizes.len() == 0 {
        None
    } else if fits(rec, sizes[0]) {
        Some(0int)
    } else {
        match select_track(rec, sizes.drop_first()) {
            Some(i) => Some(i + 1),
            None => None,
        }
    }
}

/// `select_track` picks exactly the first fitting track, and picks nothing
/// exactly when no track fits.
pub proof fn lemma_select_track(rec: RecordModel, sizes: Seq<u64>)
    ensures
        match select_track(rec, sizes) {
            Some(t) => 0 <= t < sizes.len() && fits(rec, sizes[t]) && forall|s: int|
                0 <= s < t ==> !fits(rec, sizes[s]),
            None => forall|s: int| 0 <= s < sizes.len() ==> !fits(rec, sizes[s]),
        },
    decreases sizes.len(),
{
    if sizes.len() > 0 && !fits(rec, sizes[0]) {
        lemma_select_track(rec, sizes.drop_first());
        assert forall|j: int| 1 <= j < sizes.len() implies sizes.drop_first()[j - 1] == sizes[j] by {}
    }
}

/// The chunk sizes of the tracks, finest first.
pub open spec fn gff_chunk_sizes(g: GffModel) -> Seq<u64> {
    g.tracks.map_values(|t: TrackModel| t.chunk_size)
}

/// The first (finest) track whose bin fully contains `rec`, or nothing when
/// no track's bin does and the record belongs in the overflow list.
pub fn select_track_for(rec: &GBrowserRecordBuf, chunk_sizes: &Vec<u64>) -> (r: Option<usize>)
    requires
        forall|s: int| 0 <= s < chunk_sizes@.len() ==> chunk_sizes@[s] >= 1,
    ensures
        r == match select_track(rec@, chunk_sizes@) {
            Some(t) => Some(t as usize),
            None => None::<usize>,
        },
{
    proof {
        lemma_select_track(rec@, chunk_sizes@);
    }
    let n = chunk_sizes.len();
    let mut t: usize = 0;
    while t < n
        invariant
            n == chunk_sizes@.len(),
            forall|s: int| 0 <= s < chunk_sizes@.len() ==> chunk_sizes@[s] >= 1,
            0 <= t <= n,
            forall|s: int| 0 <= s < t ==> !fits(rec@, chunk_sizes@[s]),
        decreases n - t,
    {
        let cs = chunk_sizes[t];
        if rec.start / cs == rec.end / cs {
            proof {
                assert(fits(rec@, chunk_sizes@[t as int]));
                lemma_select_track(rec@, chunk_sizes@);
            }
            return Some(t);
        }
        t += 1;
    }
    proof {
        lemma_select_track(rec@, chunk_sizes@);
    }
    None
}

/// Insert `rec` into the tile keyed `key`, creating the tile if absent.
pub open spec fn entries_insert(
    entries: Seq<((Seq<u8>, u64), Seq<RecordModel>)>,
    key: (Seq<u8>, u64),
    rec: RecordModel,
) -> Seq<((Seq<u8>, u64), Seq<RecordModel>)> {
    let ki = assoc_key_index(entries, key);
    if ki < 0 {
        entries.push((key, seq![rec]))
    } else {
        entries.update(ki, (key, entries[ki].1.push(rec)))
    }
}

/// Raise the recorded size of `name` to at least `end`, creating the entry if
/// absent.
pub open spec fn chrom_update(
    sizes: Seq<(Seq<u8>, u64)>,
    name: Seq<u8>,
    end: u64,
) -> Seq<(Seq<u8>, u64)> {
    let ki = assoc_key_index(sizes, name);
    if ki < 0 {
        sizes.push((name, end))
    } else if end > sizes[ki].1 {
        sizes.update(ki, (name, end))
    } else {
        sizes
    }
}

/// What one `add_record` call does: update the per-chromosome maximum, then
/// home the record in the first fitting track, or in the overflow list.
pub open spec fn add_model(g: GffModel, rec: RecordModel) -> GffModel {
    let chrom_sizes = chrom_update(g.chrom_sizes, rec.reference_sequence_name, rec.end);
    match select_track(rec, gff_chunk_sizes(g)) {
        Some(t) => {
            let track = g.tracks[t];
            let key = (rec.reference_sequence_name, rec.start / track.chunk_size);
            let track2 = TrackModel {
                chunk_size: track.chunk_size,
                entries: entries_insert(track.entries, key, rec),
            };
            GffModel { tracks: g.tracks.update(t, track2), remainder: g.remainder, chrom_sizes }
        },
        None => GffModel {
            tracks: g.tracks,
            remainder: g.remainder.push(rec),
            chrom_sizes,
        },
    }
}

/// Track well-formedness: positive bin width, unique tile keys, and every
/// record placed in the tile whose key its span maps to.
pub open spec fn track_wf(t: TrackModel) -> bool {
    &&& t.chunk_size >= 1
    &&& forall|i: int, j: int|
        0 <= i < j < t.entries.len() ==> t.entries[i].0 != t.entries[j].0
    &&& forall|i: int, k: int|
        0 <= i < t.entries.len() && 0 <= k < t.entries[i].1.len() ==> {
            let r = #[trigger] t.entries[i].1[k];
            &&& r.reference_sequence_name == t.entries[i].0.0
            &&& r.start <= r.end
            &&& fits(r, t.chunk_size)
            &&& r.start / t.chunk_size == t.entries[i].0.1
        }
}

/// Builder well-formedness: every track well formed, bin widths ordered from
/// finest to coarsest, unique chromosome entries, ordered overflow spans.
pub open spec fn gff_wf(g: GffModel) -> bool {
    &&& forall|t: int| 0 <= t < g.tracks.len() ==> track_wf(#[trigger] g.tracks[t])
    &&& forall|i: int, j: int|
        0 <= i < j < g.tracks.len() ==> g.tracks[i].chunk_size <= g.tracks[j].chunk_size
    &&& forall|i: int, j: int|
        0 <= i < j < g.chrom_sizes.len() ==> g.chrom_sizes[i].0 != g.chrom_sizes[j].0
    &&& forall|k: int|
        0 <= k < g.remainder.len() ==> (#[trigger] g.remainder[k]).start <= g.remainder[k].end
}

/// All records homed in one track, tile by tile.
pub open spec fn track_contents(t: TrackModel) -> Seq<RecordModel> {
    t.entries.map_values(|e: ((Seq<u8>, u64), Seq<RecordModel>)| e.1).flatten()
}

/// All records a builder state holds: every track's tiles, then the overflow
/// list.
pub open spec fn gff_records(g: GffModel) -> Seq<RecordModel> {
    g.tracks.map_values(|t: TrackModel| track_contents(t)).flatten() + g.remainder
}

/// A flattened sequence splits around any one of its parts.
pub proof fn lemma_flatten_split3<A>(ss: Seq<Seq<A>>, i: int)
    requires
        0 <= i < ss.len(),
    ensures
        ss.flatten() == ss.subrange(0, i).flatten() + ss[i] + ss.subrange(
            i + 1,
            ss.len() as int,
        ).flatten(),
{
    let a = ss.subrange(0, i);
    let b = seq![ss[i]];
    let c = ss.subrange(i + 1, ss.len() as int);
    assert(ss =~= (a + b) + c);
    lemma_flatten_concat(a + b, c);
    lemma_flatten_concat(a, b);
    b.lemma_flatten_one_element();
    assert(ss.flatten() =~= a.flatten() + ss[i] + c.flatten());
}

/// Inserting one record into a tile list adds exactly that record to the
/// track's contents.
pub proof fn lemma_entries_insert_contents(
    entries: Seq<((Seq<u8>, u64), Seq<RecordModel>)>,
    key: (Seq<u8>, u64),
    rec: RecordModel,
)
    ensures
        track_contents(TrackModel { chunk_size: 0, entries: entries_insert(entries, key, rec) })
            .to_multiset() == track_contents(TrackModel { chunk_size: 0, entries })
            .to_multiset().insert(rec),
{
    broadcast use vstd::multiset::group_multiset_axioms;
    broadcast use vstd::seq_lib::group_to_multiset_ensures;

    let f = |e: ((Seq<u8>, u64), Seq<RecordModel>)| e.1;
    let ss = entries.map_values(f);
    let ki = assoc_key_index(entries, key);
    lemma_assoc_key_index(entries, key);
    if ki < 0 {
        let e2 = entries.push((key, seq![rec]));
        assert(e2.map_values(f) =~= ss.push(seq![rec]));
        Seq::lemma_flatten_push(ss, seq![rec]);
        assert(ss.flatten() + seq![rec] =~= ss.flatten().push(rec));
    } else {
        let v = entries[ki].1.push(rec);
        let e2 = entries.update(ki, (key, v));
        assert(e2.map_values(f) =~= ss.update(ki, v));
        lemma_flatten_split3(ss, ki);
        lemma_flatten_split3(ss.update(ki, v), ki);
        let a = ss.subrange(0, ki);
        let c = ss.subrange(ki + 1, ss.len() as int);
        assert(ss.update(ki, v).subrange(0, ki) =~= a);
        assert(ss.update(ki, v).subrange(ki + 1, ss.len() as int) =~= c);
        assert(ss.update(ki, v).flatten() == a.flatten() + v + c.flatten());
        lemma_multiset_commutative(a.flatten() + ss[ki], c.flatten());
        lemma_multiset_commutative(a.flatten(), ss[ki]);
        lemma_multiset_commutative(a.flatten() + v, c.flatten());
        lemma_multiset_commutative(a.flatten(), v);
        assert(v.to_multiset() == ss[ki].to_multiset().insert(rec));
        assert((a.flatten() + v + c.flatten()).to_multiset() =~= (a.flatten() + ss[ki]
            + c.flatten()).to_multiset().insert(rec));
    }
}

/// One `add_record` step adds exactly the new record to the records a
/// builder state holds.
pub proof fn lemma_add_model_records(g: GffModel, rec: RecordModel)
    ensures
        gff_records(add_model(g, rec)).to_multiset() == gff_records(g).to_multiset().insert(rec),
{
    broadcast use vstd::multiset::group_multiset_axioms;
    broadcast use vstd::seq_lib::group_to_multiset_ensures;

    let g2 = add_model(g, rec);
    let tc = |t: TrackModel| track_contents(t);
    let mm = g.tracks.map_values(tc);
    lemma_select_track(rec, gff_chunk_sizes(g));
    match select_track(rec, gff_chunk_sizes(g)) {
        Some(t) => {
            let track = g.tracks[t];
            let key = (rec.reference_sequence_name, rec.start / track.chunk_size);
            let track2 = TrackModel {
                chunk_size: track.chunk_size,
                entries: entries_insert(track.entries, key, rec),
            };
            lemma_entries_insert_contents(track.entries, key, rec);
            assert(track_contents(track2).to_multiset() == track_contents(track)
                .to_multiset().insert(rec)) by {
                assert(track_contents(track2) == track_contents(
                    TrackModel { chunk_size: 0, entries: track2.entries },
                ));
                assert(track_contents(track) == track_contents(
                    TrackModel { chunk_size: 0, entries: track.entries },
                ));
            }
            let mm2 = g2.tracks.map_values(tc);
            assert(mm2 =~= mm.update(t, track_contents(track2)));
            lemma_flatten_split3(mm, t);
            lemma_flatten_split3(mm.update(t, track_contents(track2)), t);
            let a = mm.subrange(0, t);
            let c = mm.subrange(t + 1, mm.len() as int);
            assert(mm.update(t, track_contents(track2)).subrange(0, t) =~= a);
            assert(mm.update(t, track_contents(track2)).subrange(t + 1, mm.len() as int) =~= c);
            lemma_multiset_commutative(a.flatten() + mm[t], c.flatten());
            lemma_multiset_commutative(a.flatten(), mm[t]);
            lemma_multiset_commutative(a.flatten() + track_contents(track2), c.flatten());
            lemma_multiset_commutative(a.flatten(), track_contents(track2));
            assert(mm2.flatten().to_multiset() =~= mm.flatten().to_multiset().insert(rec));
            lemma_multiset_commutative(mm2.flatten(), g2.remainder);
            lemma_multiset_commutative(mm.flatten(), g.remainder);
            assert(gff_records(g2).to_multiset() =~= gff_records(g).to_multiset().insert(rec));
        },
        None => {
            let mm2 = g2.tracks.map_values(tc);
            assert(mm2 =~= mm);
            lemma_multiset_commutative(mm.flatten(), g2.remainder);
            lemma_multiset_commutative(mm.flatten(), g.remainder);
            assert(g2.remainder.to_multiset() == g.remainder.to_multiset().insert(rec));
            assert(gff_records(g2).to_multiset() =~= gff_records(g).to_multiset().insert(rec));
        },
    }
}

/// One `add_record` step keeps the builder well formed.
pub proof fn lemma_add_model_wf(g: GffModel, rec: RecordModel)
    requires
        gff_wf(g),
        rec.start <= rec.end,
    ensures
        gff_wf(add_model(g, rec)),
{
    let g2 = add_model(g, rec);
    let cs2 = chrom_update(g.chrom_sizes, rec.reference_sequence_name, rec.end);
    lemma_assoc_key_index(g.chrom_sizes, rec.reference_sequence_name);
    assert forall|i: int, j: int| 0 <= i < j < cs2.len() implies cs2[i].0 != cs2[j].0 by {}
    lemma_select_track(rec, gff_chunk_sizes(g));
    match select_track(rec, gff_chunk_sizes(g)) {
        Some(t) => {
            let track = g.tracks[t];
            let key = (rec.reference_sequence_name, rec.start / track.chunk_size);
            let e2 = entries_insert(track.entries, key, rec);
            lemma_assoc_key_index(track.entries, key);
            let ki = assoc_key_index(track.entries, key);
            assert(fits(rec, track.chunk_size));
            if ki < 0 {
                assert forall|i: int, j: int| 0 <= i < j < e2.len() implies e2[i].0 != e2[j].0 by {}
            }
            assert(track_wf(g2.tracks[t]));
            assert forall|s: int| 0 <= s < g2.tracks.len() implies track_wf(
                #[trigger] g2.tracks[s],
            ) by {
                if s != t {
                    assert(g2.tracks[s] == g.tracks[s]);
                }
            }
        },
        None => {},
    }
}

/// Every record is homed exactly once: in the tile of the first (finest)
/// track whose bin fully contains it, with every other track and the
/// overflow list untouched; or, when no track's bin contains it, in the
/// overflow list alone. Either way the builder gains exactly that record.
pub proof fn lemma_record_single_home(g: GffModel, rec: RecordModel)
    requires
        gff_wf(g),
        rec.start <= rec.end,
    ensures
        gff_records(add_model(g, rec)).to_multiset() == gff_records(g).to_multiset().insert(rec),
        match select_track(rec, gff_chunk_sizes(g)) {
            Some(t) => {
                &&& 0 <= t < g.tracks.len()
                &&& fits(rec, g.tracks[t].chunk_size)
                &&& forall|s: int| 0 <= s < t ==> !fits(rec, g.tracks[s].chunk_size)
                &&& track_contents(add_model(g, rec).tracks[t]).to_multiset() == track_contents(
                    g.tracks[t],
                ).to_multiset().insert(rec)
                &&& forall|s: int|
                    0 <= s < g.tracks.len() && s != t ==> add_model(g, rec).tracks[s]
                        == g.tracks[s]
                &&& add_model(g, rec).remainder == g.remainder
            },
            None => {
                &&& forall|s: int| 0 <= s < g.tracks.len() ==> !fits(rec, g.tracks[s].chunk_size)
                &&& add_model(g, rec).remainder == g.remainder.push(rec)
                &&& add_model(g, rec).tracks == g.tracks
            },
        },
{
    lemma_add_model_records(g, rec);
    lemma_select_track(rec, gff_chunk_sizes(g));
    assert(gff_chunk_sizes(g).len() == g.tracks.len());
    assert forall|s: int| 0 <= s < g.tracks.len() implies gff_chunk_sizes(g)[s] == (
    #[trigger] g.tracks[s]).chunk_size by {}
    match select_track(rec, gff_chunk_sizes(g)) {
        Some(t) => {
            let track = g.tracks[t];
            let key = (rec.reference_sequence_name, rec.start / track.chunk_size);
            lemma_entries_insert_contents(track.entries, key, rec);
            let track2 = add_model(g, rec).tracks[t];
            assert(track_contents(track2) == track_contents(
                TrackModel { chunk_size: 0, entries: track2.entries },
            ));
            assert(track_contents(track) == track_contents(
                TrackModel { chunk_size: 0, entries: track.entries },
            ));
        },
        None => {},
    }
}

/// The builder state reached by bucketing a list of records, in order, into
/// tracks with the given bin widths.
pub open spec fn build_model(sizes: Seq<u64>, recs: Seq<RecordModel>) -> GffModel
    decreases recs.len(),
{
    if recs.len() == 0 {
        GffModel {
            tracks: sizes.map_values(
                |cs: u64| TrackModel {
                    chunk_size: cs,
                    entries: Seq::<((Seq<u8>, u64), Seq<RecordModel>)>::empty(),
                },
            ),
            remainder: Seq::<RecordModel>::empty(),
            chrom_sizes: Seq::<(Seq<u8>, u64)>::empty(),
        }
    } else {
        add_model(build_model(sizes, recs.drop_last()), recs.last())
    }
}

/// Bucketing one more record is one more `add_record` step: a builder that
/// starts from empty tracks and takes records one at a time reaches exactly
/// `build_model` of the records it has seen.
pub proof fn lemma_build_model_snoc(sizes: Seq<u64>, recs: Seq<RecordModel>, rec: RecordModel)
    ensures
        build_model(sizes, recs.push(rec)) == add_model(build_model(sizes, recs), rec),
{
    assert(recs.push(rec).drop_last() =~= recs);
    assert(recs.push(rec).last() == rec);
}

/// A store built from a list of records holds exactly those records: what
/// the tracks' tiles hold, together with the overflow list, is the input
/// list, record for record.
pub proof fn lemma_build_model_records(sizes: Seq<u64>, recs: Seq<RecordModel>)
    ensures
        gff_records(build_model(sizes, recs)).to_multiset() == recs.to_multiset(),
    decreases recs.len(),
{
    broadcast use vstd::multiset::group_multiset_axioms;
    broadcast use vstd::seq_lib::group_to_multiset_ensures;

    if recs.len() == 0 {
        let g = build_model(sizes, recs);
        assert(g.tracks.map_values(|t: TrackModel| track_contents(t)).flatten().to_multiset()
            =~= Multiset::<RecordModel>::empty()) by {
            let mm = g.tracks.map_values(|t: TrackModel| track_contents(t));
            assert forall|i: int| 0 <= i < mm.len() implies mm[i] == Seq::<RecordModel>::empty() by {
                assert(g.tracks[i].entries.map_values(
                    |e: ((Seq<u8>, u64), Seq<RecordModel>)| e.1,
                ) =~= Seq::<Seq<RecordModel>>::empty());
            }
            lemma_flatten_of_empties(mm);
        }
        assert(gff_records(g) =~= g.tracks.map_values(
            |t: TrackModel| track_contents(t),
        ).flatten());
        assert(gff_records(g).to_multiset() =~= recs.to_multiset());
    } else {
        lemma_build_model_records(sizes, recs.drop_last());
        lemma_add_model_records(build_model(sizes, recs.drop_last()), recs.last());
        assert(recs =~= recs.drop_last().push(recs.last()));
        assert(recs.drop_last().push(recs.last()).to_multiset() == recs.drop_last()
            .to_multiset().insert(recs.last()));
    }
}

/// Flattening a sequence of empty sequences gives the empty sequence.
pub proof fn lemma_flatten_of_empties<A>(ss: Seq<Seq<A>>)
    requires
        forall|i: int| 0 <= i < ss.len() ==> ss[i] == Seq::<A>::empty(),
    ensures
        ss.flatten() =~= Seq::<A>::empty(),
    decreases ss.len(),
{
    if ss.len() > 0 {
        assert forall|i: int| 0 <= i < ss.drop_first().len() implies ss.drop_first()[i]
            == Seq::<A>::empty() by {
            assert(ss.drop_first()[i] == ss[i + 1]);
        }
        lemma_flatten_of_empties(ss.drop_first());
        assert(ss.flatten() == ss.first().add(ss.drop_first().flatten()));
    }
}

/// The store description that a builder state gives out.
pub open spec fn description_model(g: GffModel) -> DescriptionModel {
    DescriptionModel {
        chunk_sizes: gff_chunk_sizes(g),
        remainder: g.remainder,
        chrom_sizes: g.chrom_sizes,
    }
}

/// Copy a chromosome-size table.
pub fn chrom_clone(v: &Vec<(Vec<u8>, u64)>) -> (r: Vec<(Vec<u8>, u64)>)
    ensures
        r@.map_values(|p: (Vec<u8>, u64)| (p.0@, p.1)) == v@.map_values(
            |p: (Vec<u8>, u64)| (p.0@, p.1),
        ),
{
    let mut out: Vec<(Vec<u8>, u64)> = Vec::new();
    let n = v.len();
    let mut i: usize = 0;
    while i < n
        invariant
            n == v@.len(),
            0 <= i <= n,
            out@.len() == i,
            forall|k: int| 0 <= k < i ==> {
                &&& (#[trigger] out@[k]).0@ == v@[k].0@
                &&& out@[k].1 == v@[k].1
            },
        decreases n - i,
    {
        let entry = &v[i];
        out.push((crate::record::bytes_clone(&entry.0), entry.1));
        i += 1;
    }
    proof {
        assert(out@.map_values(|p: (Vec<u8>, u64)| (p.0@, p.1)) =~= v@.map_values(
            |p: (Vec<u8>, u64)| (p.0@, p.1),
        ));
    }
    out
}

/// Raise the recorded maximum end coordinate of `name` to at least `end`.
fn chrom_bump(sizes: &mut Vec<(Vec<u8>, u64)>, name: &Vec<u8>, end: u64)
    ensures
        final(sizes)@.map_values(|p: (Vec<u8>, u64)| (p.0@, p.1)) == chrom_update(
            old(sizes)@.map_values(|p: (Vec<u8>, u64)| (p.0@, p.1)),
            name@,
            end,
        ),
{
    let ghost old_view = sizes@.map_values(|p: (Vec<u8>, u64)| (p.0@, p.1));
    proof {
        assert(old_view == old(sizes)@.map_values(|p: (Vec<u8>, u64)| (p.0@, p.1)));
    }
    let n = sizes.len();
    let mut i: usize = 0;
    while i < n
        invariant
            n == sizes@.len(),
            0 <= i <= n,
            old_view == sizes@.map_values(|p: (Vec<u8>, u64)| (p.0@, p.1)),
            old_view == old(sizes)@.map_values(|p: (Vec<u8>, u64)| (p.0@, p.1)),
            forall|j: int| 0 <= j < i ==> old_view[j].0 != name@,
        decreases n - i,
    {
        if bytes_eq(&sizes[i].0, name) {
            proof {
                assert(old_view[i as int].0 == name@);
                lemma_assoc_key_index_at(old_view, name@, i as int);
            }
            if end > sizes[i].1 {
                let key = crate::record::bytes_clone(name);
                sizes.set(i, (key, end));
                proof {
                    assert(sizes@.map_values(|p: (Vec<u8>, u64)| (p.0@, p.1)) =~= old_view.update(
                        i as int,
                        (name@, end),
                    ));
                    assert(chrom_update(old_view, name@, end) == old_view.update(
                        i as int,
                        (name@, end),
                    ));
                }
            } else {
                proof {
                    assert(chrom_update(old_view, name@, end) == old_view);
                    assert(sizes@.map_values(|p: (Vec<u8>, u64)| (p.0@, p.1)) == old_view);
                }
            }
            proof {
                assert(sizes@.map_values(|p: (Vec<u8>, u64)| (p.0@, p.1)) == chrom_update(
                    old(sizes)@.map_values(|p: (Vec<u8>, u64)| (p.0@, p.1)),
                    name@,
                    end,
                ));
            }
            return;
        }
        i += 1;
    }
    proof {
        lemma_assoc_key_index_none(old_view, name@);
    }
    let key = crate::record::bytes_clone(name);
    sizes.push((key, end));
    proof {
        assert(sizes@.map_values(|p: (Vec<u8>, u64)| (p.0@, p.1)) =~= old_view.push((name@, end)));
    }
}

impl GBrowserChunkTrack {
    /// Which bin does a position refer to?
    pub fn pos_to_bin(&self, pos: u64) -> (r: u64)
        requires
            self@.chunk_size >= 1,
        ensures
            r == pos / self@.chunk_size,
    {
        pos / self.chunk_size
    }

    /// Position of the tile keyed `(name, bin)` in this track, if present.
    fn find_entry(&self, name: &Vec<u8>, bin: u64) -> (r: Option<usize>)
        ensures
            match r {
                Some(i) => {
                    &&& 0 <= i < self@.entries.len()
                    &&& assoc_key_index(self@.entries, (name@, bin)) == i
                    &&& self@.entries[i as int].0 == (name@, bin)
                },
                None => assoc_key_index(self@.entries, (name@, bin)) == -1,
            },
    {
        let n = self.records.len();
        let mut i: usize = 0;
        while i < n
            invariant
                n == self.records@.len(),
                n == self@.entries.len(),
                0 <= i <= n,
                forall|j: int| 0 <= j < i ==> self@.entries[j].0 != (name@, bin),
            decreases n - i,
        {
            let entry = &self.records[i];
            if entry.0.1 == bin && bytes_eq(&entry.0.0, name) {
                proof {
                    assert(self@.entries[i as int].0 == (name@, bin));
                    lemma_assoc_key_index_at(self@.entries, (name@, bin), i as int);
                }
                return Some(i);
            }
            i += 1;
        }
        proof {
            lemma_assoc_key_index_none(self@.entries, (name@, bin));
        }
        None
    }

    /// Insert a record that fits one bin of this track into the tile for that
    /// bin, creating the tile if absent.
    fn insert_record(&mut self, rec: GBrowserRecordBuf)
        requires
            old(self)@.chunk_size >= 1,
            fits(rec@, old(self)@.chunk_size),
        ensures
            final(self)@.chunk_size == old(self)@.chunk_size,
            final(self)@.entries == entries_insert(
                old(self)@.entries,
                (rec@.reference_sequence_name, rec@.start / old(self)@.chunk_size),
                rec@,
            ),
    {
        let ghost key = (rec@.reference_sequence_name, rec@.start / old(self)@.chunk_size);
        let bin = self.chunk_size;
        let bin = rec.start / bin;
        let found = self.find_entry(&rec.reference_sequence_name, bin);
        let ghost old_records = self.records@;
        match found {
            Some(i) => {
                let ghost ki = i as int;
                let entry = &mut self.records[i];
                entry.1.records.push(rec);
                proof {
                    assert(self.records@.len() == old_records.len());
                    assert(self.records@[ki].0 == old_records[ki].0);
                    assert(self.records@[ki].1.records@ == old_records[ki].1.records@.push(rec));
                    assert(self@.entries[ki].1 =~= old(self)@.entries[ki].1.push(rec@));
                    assert(self@.entries =~~= entries_insert(old(self)@.entries, key, rec@));
                }
            },
            None => {
                let name = crate::record::bytes_clone(&rec.reference_sequence_name);
                let mut chunk_records: Vec<GBrowserRecordBuf> = Vec::new();
                chunk_records.push(rec);
                self.records.push(((name, bin), GBrowserChunk { records: chunk_records }));
                proof {
                    assert(self@.entries =~~= entries_insert(old(self)@.entries, key, rec@));
                }
            },
        }
    }
}

impl GBrowserGFF {
    /// Fresh builder with no tracks, no overflow records and no chromosome
    /// sizes.
    pub fn new() -> (r: GBrowserGFF)
        ensures
            r@.tracks == Seq::<TrackModel>::empty(),
            r@.remainder == Seq::<RecordModel>::empty(),
            r@.chrom_sizes == Seq::<(Seq<u8>, u64)>::empty(),
            gff_wf(r@),
    {
        let r = GBrowserGFF { tracks: Vec::new(), remainder: Vec::new(), chrom_sizes: Vec::new() };
        proof {
            assert(r@.tracks =~= Seq::<TrackModel>::empty());
            assert(r@.remainder =~= Seq::<RecordModel>::empty());
            assert(r@.chrom_sizes =~= Seq::<(Seq<u8>, u64)>::empty());
        }
        r
    }

    /// Append a resolution track with the given bin width. Tracks must be
    /// added from the smallest bin width to the largest.
    pub fn add_track(&mut self, chunk_size: u64)
        requires
            chunk_size >= 1,
            forall|i: int|
                0 <= i < old(self)@.tracks.len() ==> (#[trigger] old(
                    self,
                )@.tracks[i]).chunk_size <= chunk_size,
        ensures
            final(self)@.tracks == old(self)@.tracks.push(
                TrackModel {
                    chunk_size,
                    entries: Seq::<((Seq<u8>, u64), Seq<RecordModel>)>::empty(),
                },
            ),
            final(self)@.remainder == old(self)@.remainder,
            final(self)@.chrom_sizes == old(self)@.chrom_sizes,
    {
        self.tracks.push(GBrowserChunkTrack { chunk_size, records: Vec::new() });
        proof {
            assert(self@.tracks =~~= old(self)@.tracks.push(
                TrackModel {
                    chunk_size,
                    entries: Seq::<((Seq<u8>, u64), Seq<RecordModel>)>::empty(),
                },
            ));
        }
    }

    /// Bucket one record: update the per-chromosome maximum end coordinate,
    /// then place the record in the first (finest) track whose bin fully
    /// contains it, or append it to the overflow list when no track fits.
    pub fn add_record(&mut self, rec: GBrowserRecordBuf)
        requires
            gff_wf(old(self)@),
            rec@.start <= rec@.end,
        ensures
            final(self)@ == add_model(old(self)@, rec@),
    {
        chrom_bump(&mut self.chrom_sizes, &rec.reference_sequence_name, rec.end);
        let n = self.tracks.len();
        let mut t: usize = 0;
        while t < n
            invariant
                n == self.tracks@.len(),
                0 <= t <= n,
                gff_wf(old(self)@),
                rec@.start <= rec@.end,
                self@.tracks == old(self)@.tracks,
                self@.remainder == old(self)@.remainder,
                self@.chrom_sizes == chrom_update(
                    old(self)@.chrom_sizes,
                    rec@.reference_sequence_name,
                    rec@.end,
                ),
                forall|s: int| 0 <= s < t ==> !fits(rec@, gff_chunk_sizes(old(self)@)[s]),
            decreases n - t,
        {
            let cs = self.tracks[t].chunk_size;
            proof {
                assert(self@.tracks[t as int] == old(self)@.tracks[t as int]);
                assert(cs == gff_chunk_sizes(old(self)@)[t as int]);
                assert(track_wf(old(self)@.tracks[t as int]));
            }
            let bin_start = rec.start / cs;
            let bin_end = rec.end / cs;
            if bin_start == bin_end {
                proof {
                    assert(fits(rec@, gff_chunk_sizes(old(self)@)[t as int]));
                    lemma_select_track(rec@, gff_chunk_sizes(old(self)@));
                    assert(select_track(rec@, gff_chunk_sizes(old(self)@)) == Some(t as int));
                }
                let tr = &mut self.tracks[t];
                tr.insert_record(rec);
                proof {
                    assert(self@ =~~= add_model(old(self)@, rec@));
                }
                return;
            }
            t += 1;
        }
        proof {
            lemma_select_track(rec@, gff_chunk_sizes(old(self)@));
            assert(select_track(rec@, gff_chunk_sizes(old(self)@)) is None);
        }
        self.remainder.push(rec);
        proof {
            assert(self@ =~~= add_model(old(self)@, rec@));
        }
    }

    /// The store description for the current builder state.
    pub fn get_description(&self) -> (r: GBrowserGFFdescription)
        ensures
            r@ == description_model(self@),
    {
        let mut chunk_sizes: Vec<u64> = Vec::new();
        let n = self.tracks.len();
        let mut t: usize = 0;
        while t < n
            invariant
                n == self.tracks@.len(),
                0 <= t <= n,
                chunk_sizes@.len() == t,
                forall|k: int| 0 <= k < t ==> chunk_sizes@[k] == gff_chunk_sizes(self@)[k],
            decreases n - t,
        {
            chunk_sizes.push(self.tracks[t].chunk_size);
            t += 1;
        }
        let r = GBrowserGFFdescription {
            chunk_sizes,
            remainder: crate::record::records_clone(&self.remainder),
            chrom_sizes: chrom_clone(&self.chrom_sizes),
        };
        proof {
            assert(r@.chunk_sizes =~= gff_chunk_sizes(self@));
            assert(r@ =~~= description_model(self@));
        }
        r
    }
}

} // verus!
