use biscvi::builder::GBrowserGFF;
use biscvi::client::{needed_chunks, ClientGBrowseData, TileStateKind};
use biscvi::record::{GBrowserRecordBuf, GBrowserStrand};
use biscvi::store::{build_store, serve};
use biscvi::tile::{GBrowserGFFchunkID, GBrowserGFFchunkRequest, GBrowserGFFchunkResponse};

fn rec(chr: &str, start: u64, end: u64) -> GBrowserRecordBuf {
    GBrowserRecordBuf {
        reference_sequence_name: chr.as_bytes().to_vec(),
        ty: b"gene".to_vec(),
        start,
        end,
        strand: GBrowserStrand::Unknown,
        phase: None,
        attributes: vec![],
    }
}

fn client_for(gff: &GBrowserGFF) -> ClientGBrowseData {
    ClientGBrowseData::new(gff.get_description())
}

#[test]
fn window_needs_exactly_the_covering_bins() {
    // Track 0 (width 10): bins 1..=3; track 1 (width 100): bin 0.
    let ids = needed_chunks(&vec![10, 100], &b"1".to_vec(), 15, 35);
    let expect: Vec<GBrowserGFFchunkID> = vec![
        GBrowserGFFchunkID::new(b"1".to_vec(), 0, 1),
        GBrowserGFFchunkID::new(b"1".to_vec(), 0, 2),
        GBrowserGFFchunkID::new(b"1".to_vec(), 0, 3),
        GBrowserGFFchunkID::new(b"1".to_vec(), 1, 0),
    ];
    assert_eq!(ids, expect);
}

#[test]
fn negative_window_positions_clamp_to_the_origin() {
    let ids = needed_chunks(&vec![10], &b"1".to_vec(), -25, 5);
    let expect: Vec<GBrowserGFFchunkID> = vec![GBrowserGFFchunkID::new(b"1".to_vec(), 0, 0)];
    assert_eq!(ids, expect);
}

#[test]
fn pending_tile_suppresses_duplicate_requests() {
    let mut gff = GBrowserGFF::new();
    gff.add_track(1000);
    let mut client = client_for(&gff);
    let needed = needed_chunks(&vec![1000], &b"1".to_vec(), 0, 2500);
    let req1 = client.compute_request(&needed);
    assert_eq!(req1.to_get.len(), 3);
    client.set_loading(&req1);
    let req2 = client.compute_request(&needed);
    assert_eq!(req2.to_get.len(), 0);
}

#[test]
fn tile_absent_from_response_becomes_known_empty_and_stays() {
    let mut gff = GBrowserGFF::new();
    gff.add_track(1000);
    let mut client = client_for(&gff);
    let needed = needed_chunks(&vec![1000], &b"1".to_vec(), 0, 500);
    let req = client.compute_request(&needed);
    assert_eq!(req.to_get.len(), 1);
    client.set_loading(&req);
    assert_eq!(
        client.state_kind(&req.to_get[0]),
        TileStateKind::Pending
    );
    // The server has nothing there: the response omits the tile.
    let empty = GBrowserGFFchunkResponse { data: vec![] };
    client.set_chunks(&req, &empty);
    assert_eq!(
        client.state_kind(&req.to_get[0]),
        TileStateKind::KnownEmpty
    );
    let req2 = client.compute_request(&needed);
    assert_eq!(req2.to_get.len(), 0);
}

#[test]
fn served_tile_resolves_in_the_cache() {
    let mut gff = GBrowserGFF::new();
    gff.add_track(1000);
    gff.add_record(rec("1", 100, 200));
    let (blob, index) = build_store(&gff);
    let mut client = client_for(&gff);
    let needed = needed_chunks(&client.desc.chunk_sizes.clone(), &b"1".to_vec(), 0, 900);
    let req = client.compute_request(&needed);
    client.set_loading(&req);
    let res = serve(&req, &index, &blob);
    client.set_chunks(&req, &res);
    let id = GBrowserGFFchunkID::new(b"1".to_vec(), 0, 0);
    assert_eq!(client.state_kind(&id), TileStateKind::Resolved);
    let tile = client.get_resolved(&id).expect("resolved tile readable");
    assert_eq!(tile.records.len(), 1);
    assert_eq!(tile.records[0].end, 200);
}

#[test]
fn undecodable_tile_is_left_absent_for_retry() {
    let mut gff = GBrowserGFF::new();
    gff.add_track(1000);
    let mut client = client_for(&gff);
    let id = GBrowserGFFchunkID::new(b"1".to_vec(), 0, 0);
    let req = GBrowserGFFchunkRequest {
        to_get: vec![id.clone()],
    };
    client.set_loading(&req);
    let bad = GBrowserGFFchunkResponse {
        data: vec![(id.clone(), b"corrupt".to_vec())],
    };
    client.set_chunks(&req, &bad);
    assert_eq!(client.state_kind(&id), TileStateKind::Absent);
    // Absent again: a later pass may re-request it.
    let req2 = client.compute_request(&req.to_get);
    assert_eq!(req2.to_get.len(), 1);
}

#[test]
fn oversized_backlogs_are_requested_in_deterministic_batches() {
    let mut gff = GBrowserGFF::new();
    gff.add_track(10);
    let client = client_for(&gff);
    // 150 candidate bins: more than one batch.
    let needed = needed_chunks(&vec![10], &b"1".to_vec(), 0, 1495);
    assert_eq!(needed.len(), 150);
    let req = client.compute_request(&needed);
    assert_eq!(req.to_get.len(), 100);
    assert_eq!(req.to_get[..], needed[..100]);
}
