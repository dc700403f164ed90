//! Annotation records: the features (genes, exons, transcripts) that the tile
//! store buckets, serves and renders.
//!
//! Reference-sequence names, feature types and attribute text arrive as raw
//! byte strings; they are kept as `Vec<u8>` so that contracts can speak of
//! them as `Seq<u8>`.

#![allow(unused_imports)]
use vstd::prelude::*;

verus! {

/// Reading-frame phase of a coding feature.
#[derive(Clone, Copy, Debug, PartialEq, Eq, Structural)]
pub enum GBrowserPhase {
    Zero,
    One,
    Two,
}

/// Strand of a feature.
#[derive(Clone, Copy, Debug, PartialEq, Eq, Structural)]
pub enum GBrowserStrand {
    Unstranded,
    Forward,
    Reverse,
    Unknown,
}

/// Value of one record attribute.
#[derive(Clone, Debug, PartialEq)]
pub enum GBrowserAttributeValue {
    Text(Vec<u8>),
}

/// Mathematical form of an attribute value.
#[verifier::ext_equal]
pub ghost enum AttributeValueModel {
    Text(Seq<u8>),
}

impl View for GBrowserAttributeValue {
    type V = AttributeValueModel;

    open spec fn view(&self) -> AttributeValueModel {
        match self {
            GBrowserAttributeValue::Text(s) => AttributeValueModel::Text(s@),
        }
    }
}

/// One annotation record: a feature on a reference sequence, with a 1-based
/// inclusive `[start, end]` span, `start <= end`.
#[derive(Clone, Debug, PartialEq)]
pub struct GBrowserRecordBuf {
    pub reference_sequence_name: Vec<u8>,
    pub ty: Vec<u8>,
    /// 1-based inclusive start.
    pub start: u64,
    /// 1-based inclusive end.
    pub end: u64,
    pub strand: GBrowserStrand,
    pub phase: Option<GBrowserPhase>,
    /// Attribute mapping, keys unique, insertion order kept.
    pub attributes: Vec<(Vec<u8>, GBrowserAttributeValue)>,
}

/// Mathematical form of an annotation record.
#[verifier::ext_equal]
pub ghost struct RecordModel {
    pub reference_sequence_name: Seq<u8>,
    pub ty: Seq<u8>,
    pub start: u64,
    pub end: u64,
    pub strand: GBrowserStrand,
    pub phase: Option<GBrowserPhase>,
    pub attributes: Seq<(Seq<u8>, AttributeValueModel)>,
}

impl View for GBrowserRecordBuf {
    type V = RecordModel;

    open spec fn view(&self) -> RecordModel {
        RecordModel {
            reference_sequence_name: self.reference_sequence_name@,
            ty: self.ty@,
            start: self.start,
            end: self.end,
            strand: self.strand,
            phase: self.phase,
            attributes: self.attributes@.map_values(
                |p: (Vec<u8>, GBrowserAttributeValue)| (p.0@, p.1@),
            ),
        }
    }
}

/// A record is well formed when its span is ordered and its attribute keys
/// are mutually distinct.
pub open spec fn record_wf(r: RecordModel) -> bool {
    &&& r.start <= r.end
    &&& forall|i: int, j: int|
        0 <= i < j < r.attributes.len() ==> r.attributes[i].0 != r.attributes[j].0
}

/// Copy a byte string.
pub fn bytes_clone(v: &Vec<u8>) -> (r: Vec<u8>)
    ensures
        r@ == v@,
{
    let mut out: Vec<u8> = Vec::new();
    let n = v.len();
    let mut i: usize = 0;
    while i < n
        invariant
            n == v@.len(),
            0 <= i <= n,
            out@ == v@.subrange(0, i as int),
        decreases n - i,
    {
        out.push(v[i]);
        proof {
            assert(out@ =~= v@.subrange(0, i + 1 as int));
        }
        i += 1;
    }
    proof {
        assert(out@ =~= v@);
    }
    out
}

/// Copy an annotation record.
pub fn record_clone(rec: &GBrowserRecordBuf) -> (r: GBrowserRecordBuf)
    ensures
        r@ == rec@,
{
    let mut attributes: Vec<(Vec<u8>, GBrowserAttributeValue)> = Vec::new();
    let n = rec.attributes.len();
    let mut i: usize = 0;
    while i < n
        invariant
            n == rec.attributes@.len(),
            0 <= i <= n,
            attributes@.len() == i,
            forall|k: int| 0 <= k < i ==> {
                &&& (#[trigger] attributes@[k]).0@ == rec.attributes@[k].0@
                &&& attributes@[k].1@ == rec.attributes@[k].1@
            },
        decreases n - i,
    {
        let entry = &rec.attributes[i];
        let value = match &entry.1 {
            GBrowserAttributeValue::Text(s) => GBrowserAttributeValue::Text(bytes_clone(s)),
        };
        attributes.push((bytes_clone(&entry.0), value));
        i += 1;
    }
    let r = GBrowserRecordBuf {
        reference_sequence_name: bytes_clone(&rec.reference_sequence_name),
        ty: bytes_clone(&rec.ty),
        start: rec.start,
        end: rec.end,
        strand: rec.strand,
        phase: rec.phase,
        attributes,
    };
    proof {
        assert(r@.attributes =~= rec@.attributes);
        assert(r@ =~= rec@);
    }
    r
}

/// Copy a list of annotation records.
pub fn records_clone(v: &Vec<GBrowserRecordBuf>) -> (r: Vec<GBrowserRecordBuf>)
    ensures
        r@.map_values(|x: GBrowserRecordBuf| x@) == v@.map_values(|x: GBrowserRecordBuf| x@),
{
    let mut out: Vec<GBrowserRecordBuf> = Vec::new();
    let n = v.len();
    let mut i: usize = 0;
    while i < n
        invariant
            n == v@.len(),
            0 <= i <= n,
            out@.len() == i,
            forall|k: int| 0 <= k < i ==> (#[trigger] out@[k])@ == v@[k]@,
        decreases n - i,
    {
        out.push(record_clone(&v[i]));
        i += 1;
    }
    proof {
        assert(out@.map_values(|x: GBrowserRecordBuf| x@) =~= v@.map_values(
            |x: GBrowserRecordBuf| x@,
        ));
    }
    out
}

/// Compare two byte strings for equality.
pub fn bytes_eq(a: &Vec<u8>, b: &Vec<u8>) -> (r: bool)
    ensures
        r == (a@ == b@),
{
    if a.len() != b.len() {
        assert(a@.len() != b@.len());
        return false;
    }
    let n = a.len();
    let mut i: usize = 0;
    while i < n
        invariant
            n == a@.len() == b@.len(),
            0 <= i <= n,
            forall|k: int| 0 <= k < i ==> a@[k] == b@[k],
        decreases n - i,
    {
        if a[i] != b[i] {
            return false;
        }
        i += 1;
    }
    proof {
        assert(a@ =~= b@);
    }
    true
}

} // verus!
