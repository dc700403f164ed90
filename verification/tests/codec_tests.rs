use biscvi::builder::GBrowserChunk;
use biscvi::codec::{decode_chunk, encode_chunk};
use biscvi::record::{GBrowserAttributeValue, GBrowserPhase, GBrowserRecordBuf, GBrowserStrand};

fn sample_chunk() -> GBrowserChunk {
    GBrowserChunk {
        records: vec![
            GBrowserRecordBuf {
                reference_sequence_name: b"chr1".to_vec(),
                ty: b"exon".to_vec(),
                start: 1500,
                end: 1720,
                strand: GBrowserStrand::Reverse,
                phase: None,
                attributes: vec![
                    (
                        b"ID".to_vec(),
                        GBrowserAttributeValue::Text(b"exon-7".to_vec()),
                    ),
                    (
                        b"Parent".to_vec(),
                        GBrowserAttributeValue::Text(b"tx-3".to_vec()),
                    ),
                ],
            },
            GBrowserRecordBuf {
                reference_sequence_name: b"chr1".to_vec(),
                ty: b"transcript".to_vec(),
                start: 1000,
                end: 2000,
                strand: GBrowserStrand::Unstranded,
                phase: Some(GBrowserPhase::Two),
                attributes: vec![],
            },
        ],
    }
}

#[test]
fn chunk_round_trips_through_the_codec() {
    let chunk = sample_chunk();
    let bytes = encode_chunk(&chunk);
    let back = decode_chunk(&bytes).expect("a fresh encoding must decode");
    assert_eq!(back, chunk);
}

#[test]
fn empty_chunk_encodes_as_a_zero_count() {
    let chunk = GBrowserChunk { records: vec![] };
    let bytes = encode_chunk(&chunk);
    assert_eq!(bytes, vec![0u8; 8]);
    assert_eq!(decode_chunk(&bytes), Some(chunk));
}

#[test]
fn truncated_encoding_is_rejected() {
    let chunk = sample_chunk();
    let mut bytes = encode_chunk(&chunk);
    bytes.pop();
    assert_eq!(decode_chunk(&bytes), None);
}

#[test]
fn trailing_bytes_are_rejected() {
    let chunk = sample_chunk();
    let mut bytes = encode_chunk(&chunk);
    bytes.push(0);
    assert_eq!(decode_chunk(&bytes), None);
}

#[test]
fn garbage_is_rejected() {
    let bytes = b"definitely not a tile".to_vec();
    assert_eq!(decode_chunk(&bytes), None);
}
