use biscvi::builder::{select_track_for, GBrowserGFF};
use biscvi::record::{GBrowserAttributeValue, GBrowserPhase, GBrowserRecordBuf, GBrowserStrand};
use biscvi::store::FeatureCollection;

fn rec(chr: &str, start: u64, end: u64) -> GBrowserRecordBuf {
    GBrowserRecordBuf {
        reference_sequence_name: chr.as_bytes().to_vec(),
        ty: b"gene".to_vec(),
        start,
        end,
        strand: GBrowserStrand::Forward,
        phase: Some(GBrowserPhase::Zero),
        attributes: vec![(
            b"ID".to_vec(),
            GBrowserAttributeValue::Text(b"gene1".to_vec()),
        )],
    }
}

fn two_track_gff() -> GBrowserGFF {
    let mut gff = GBrowserGFF::new();
    gff.add_track(1000);
    gff.add_track(10000);
    gff
}

#[test]
fn record_goes_to_finest_fitting_track() {
    let mut gff = two_track_gff();
    gff.add_record(rec("1", 100, 200));
    assert_eq!(gff.tracks[0].records.len(), 1);
    assert_eq!(gff.tracks[1].records.len(), 0);
    assert_eq!(gff.remainder.len(), 0);
    let (key, chunk) = &gff.tracks[0].records[0];
    assert_eq!(key.0, b"1".to_vec());
    assert_eq!(key.1, 0);
    assert_eq!(chunk.records.len(), 1);
    assert_eq!(chunk.records[0].start, 100);
}

#[test]
fn straddling_record_falls_to_coarser_track() {
    let mut gff = two_track_gff();
    // Crosses the 1000 boundary, but fits bin 0 of the 10000 track.
    gff.add_record(rec("1", 500, 1500));
    assert_eq!(gff.tracks[0].records.len(), 0);
    assert_eq!(gff.tracks[1].records.len(), 1);
    assert_eq!(gff.tracks[1].records[0].0 .1, 0);
    assert_eq!(gff.remainder.len(), 0);
}

#[test]
fn record_too_wide_for_any_track_overflows() {
    let mut gff = two_track_gff();
    // Crosses a 10000 boundary too.
    gff.add_record(rec("1", 9500, 10500));
    assert_eq!(gff.tracks[0].records.len(), 0);
    assert_eq!(gff.tracks[1].records.len(), 0);
    assert_eq!(gff.remainder.len(), 1);
    assert_eq!(gff.remainder[0].start, 9500);
}

#[test]
fn each_record_homed_exactly_once() {
    let mut gff = two_track_gff();
    gff.add_record(rec("1", 100, 200));
    gff.add_record(rec("1", 500, 1500));
    gff.add_record(rec("2", 9500, 10500));
    let in_tiles: usize = gff
        .tracks
        .iter()
        .map(|t| t.records.iter().map(|(_, c)| c.records.len()).sum::<usize>())
        .sum();
    assert_eq!(in_tiles + gff.remainder.len(), 3);
}

#[test]
fn records_in_same_bin_share_a_tile() {
    let mut gff = two_track_gff();
    gff.add_record(rec("1", 100, 200));
    gff.add_record(rec("1", 300, 400));
    assert_eq!(gff.tracks[0].records.len(), 1);
    assert_eq!(gff.tracks[0].records[0].1.records.len(), 2);
}

#[test]
fn chromosome_size_is_running_maximum() {
    let mut gff = two_track_gff();
    gff.add_record(rec("1", 100, 900));
    gff.add_record(rec("1", 200, 300));
    gff.add_record(rec("2", 10, 20));
    let desc = gff.get_description();
    assert_eq!(desc.chrom_sizes.len(), 2);
    assert_eq!(desc.chrom_sizes[0], (b"1".to_vec(), 900));
    assert_eq!(desc.chrom_sizes[1], (b"2".to_vec(), 20));
}

#[test]
fn description_lists_chunk_sizes_finest_first() {
    let gff = FeatureCollection::make_default_gff();
    let desc = gff.get_description();
    assert_eq!(desc.chunk_sizes, vec![1000000, 5000000, 50000000]);
    assert_eq!(desc.remainder.len(), 0);
}

#[test]
fn track_selection_is_first_fit() {
    let sizes = vec![1000, 10000];
    assert_eq!(select_track_for(&rec("1", 100, 200), &sizes), Some(0));
    assert_eq!(select_track_for(&rec("1", 500, 1500), &sizes), Some(1));
    assert_eq!(select_track_for(&rec("1", 9500, 10500), &sizes), None);
}

#[test]
fn pos_to_bin_is_integer_division() {
    let gff = two_track_gff();
    assert_eq!(gff.tracks[0].pos_to_bin(0), 0);
    assert_eq!(gff.tracks[0].pos_to_bin(999), 0);
    assert_eq!(gff.tracks[0].pos_to_bin(1000), 1);
    assert_eq!(gff.tracks[1].pos_to_bin(25000), 2);
}
