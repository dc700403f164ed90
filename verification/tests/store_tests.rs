use biscvi::builder::GBrowserGFF;
use biscvi::compress::{decode_tile, TileDecodeError};
use biscvi::record::{GBrowserRecordBuf, GBrowserStrand};
use biscvi::store::{build_store, serve, AnnotationFormat, FeatureCollection};
use biscvi::tile::{GBrowserGFFchunkID, GBrowserGFFchunkRequest};

fn rec(chr: &str, start: u64, end: u64) -> GBrowserRecordBuf {
    GBrowserRecordBuf {
        reference_sequence_name: chr.as_bytes().to_vec(),
        ty: b"gene".to_vec(),
        start,
        end,
        strand: GBrowserStrand::Forward,
        phase: None,
        attributes: vec![],
    }
}

fn built() -> GBrowserGFF {
    let mut gff = GBrowserGFF::new();
    gff.add_track(1000);
    gff.add_track(10000);
    gff.add_record(rec("1", 100, 200));
    gff.add_record(rec("1", 300, 400));
    gff.add_record(rec("1", 1100, 1200));
    gff
}

#[test]
fn serve_and_decode_reproduce_the_written_tile() {
    let gff = built();
    let (blob, index) = build_store(&gff);
    let id = GBrowserGFFchunkID::new(b"1".to_vec(), 0, 0);
    let req = GBrowserGFFchunkRequest {
        to_get: vec![id.clone()],
    };
    let res = serve(&req, &index, &blob);
    assert_eq!(res.data.len(), 1);
    assert_eq!(res.data[0].0, id);
    let tile = decode_tile(&res.data[0].1).expect("a served tile must decode");
    assert_eq!(tile.records.len(), 2);
    assert_eq!(tile.records[0].start, 100);
    assert_eq!(tile.records[1].start, 300);
}

#[test]
fn absent_tile_is_omitted_from_the_response() {
    let gff = built();
    let (blob, index) = build_store(&gff);
    let missing = GBrowserGFFchunkID::new(b"1".to_vec(), 0, 99);
    let present = GBrowserGFFchunkID::new(b"1".to_vec(), 0, 1);
    let req = GBrowserGFFchunkRequest {
        to_get: vec![missing, present.clone()],
    };
    let res = serve(&req, &index, &blob);
    assert_eq!(res.data.len(), 1);
    assert_eq!(res.data[0].0, present);
}

#[test]
fn stored_tiles_are_gzip_streams() {
    let gff = built();
    let (blob, index) = build_store(&gff);
    assert!(!index.chunk_coordinates.is_empty());
    for (_, pos) in &index.chunk_coordinates {
        let bytes = &blob[pos.start as usize..pos.end as usize];
        assert_eq!(bytes[0], 0x1f);
        assert_eq!(bytes[1], 0x8b);
    }
}

#[test]
fn index_ranges_partition_the_blob() {
    let gff = built();
    let (blob, index) = build_store(&gff);
    let mut expected_start = 0u64;
    for (_, pos) in &index.chunk_coordinates {
        assert_eq!(pos.start, expected_start);
        assert!(pos.start < pos.end);
        expected_start = pos.end;
    }
    assert_eq!(expected_start, blob.len() as u64);
}

#[test]
fn index_covers_every_record() {
    let gff = built();
    let (blob, index) = build_store(&gff);
    let mut decoded = 0usize;
    for (_, pos) in &index.chunk_coordinates {
        let bytes = blob[pos.start as usize..pos.end as usize].to_vec();
        decoded += decode_tile(&bytes).unwrap().records.len();
    }
    assert_eq!(decoded + index.remainder.len(), 3);
}

#[test]
fn decode_tile_rejects_non_gzip_bytes() {
    let bytes = b"not a gzip stream".to_vec();
    assert_eq!(decode_tile(&bytes).unwrap_err(), TileDecodeError::Compression);
}

#[test]
fn decode_tile_rejects_well_compressed_garbage() {
    let compressed = biscvi::compress::gzip_compress(&b"not a tile encoding".to_vec());
    assert_eq!(
        decode_tile(&compressed).unwrap_err(),
        TileDecodeError::Encoding
    );
}

#[test]
fn index_description_matches_builder() {
    let gff = built();
    let (_, index) = build_store(&gff);
    let desc = index.get_description();
    assert_eq!(desc.chunk_sizes, vec![1000, 10000]);
    assert_eq!(desc.chrom_sizes, vec![(b"1".to_vec(), 1200)]);
}

#[test]
fn rebuild_reproduces_the_same_index_contents() {
    let gff = built();
    let (_, index1) = build_store(&gff);
    let (_, index2) = build_store(&gff);
    assert_eq!(index1, index2);
}

#[test]
fn store_paths_sit_next_to_the_annotation_file() {
    let chunks = FeatureCollection::get_path_chunks(&b"data/annot.gff".to_vec());
    assert_eq!(chunks, b"data/annot.chunks".to_vec());
    let index = FeatureCollection::get_path_index(&b"data/annot.gff".to_vec());
    assert_eq!(index, b"data/annot.index".to_vec());
    let gz = FeatureCollection::get_path_chunks(&b"annot.gff.gz".to_vec());
    assert_eq!(gz, b"annot.gff.chunks".to_vec());
    let bare = FeatureCollection::get_path_index(&b"store".to_vec());
    assert_eq!(bare, b"store.index".to_vec());
    let hidden = FeatureCollection::get_path_index(&b"dir/.hidden".to_vec());
    assert_eq!(hidden, b"dir/.hidden.index".to_vec());
}

#[test]
fn format_is_told_from_the_name_suffix() {
    let f = |p: &[u8]| FeatureCollection::detect_format(&p.to_vec());
    assert_eq!(f(b"a.gff"), Some(AnnotationFormat::GffPlain));
    assert_eq!(f(b"a.gff.gz"), Some(AnnotationFormat::GffGzip));
    assert_eq!(f(b"a.gtf"), Some(AnnotationFormat::GtfPlain));
    assert_eq!(f(b"a.gtf.gz"), Some(AnnotationFormat::GtfGzip));
    assert_eq!(f(b"a.bed"), None);
}
