//! Binary encoding of tiles.
//!
//! Each tile is serialized independently into a compact byte form: integers
//! as 8 little-endian bytes, byte strings length-prefixed, lists
//! count-prefixed. The decoder is proved to reproduce exactly what the
//! encoder wrote.

#![allow(unused_imports)]
use vstd::prelude::*;

use crate::builder::GBrowserChunk;
use crate::record::AttributeValueModel;
use crate::record::GBrowserAttributeValue;
use crate::record::GBrowserPhase;
use crate::record::GBrowserRecordBuf;
use crate::record::GBrowserStrand;
use crate::record::RecordModel;

verus! {

/// A `u64` as 8 little-endian bytes.
#[verifier::opaque]
pub open spec fn enc_u64(v: u64) -> Seq<u8> {
    seq![
        (v % 256) as u8,
        ((v / 0x100) % 256) as u8,
        ((v / 0x10000) % 256) as u8,
        ((v / 0x1000000) % 256) as u8,
        ((v / 0x100000000) % 256) as u8,
        ((v / 0x10000000000) % 256) as u8,
        ((v / 0x1000000000000) % 256) as u8,
        ((v / 0x100000000000000) % 256) as u8,
    ]
}

/// The `u64` that 8 little-endian bytes hold.
#[verifier::opaque]
pub open spec fn dec_u64(s: Seq<u8>) -> u64 {
    (s[0] + s[1] * 0x100 + s[2] * 0x10000 + s[3] * 0x1000000 + s[4] * 0x100000000 + s[5]
        * 0x10000000000 + s[6] * 0x1000000000000 + s[7] * 0x100000000000000) as u64
}

/// Decoding the encoding of a `u64` gives it back.
pub proof fn lemma_dec_enc_u64(v: u64)
    ensures
        dec_u64(enc_u64(v)) == v,
{
    reveal(enc_u64);
    reveal(dec_u64);
    assert(v % 256 + (v / 0x100 % 256) * 0x100 + (v / 0x10000 % 256) * 0x10000 + (v / 0x1000000
        % 256) * 0x1000000 + (v / 0x100000000 % 256) * 0x100000000 + (v / 0x10000000000 % 256)
        * 0x10000000000 + (v / 0x1000000000000 % 256) * 0x1000000000000 + (v / 0x100000000000000
        % 256) * 0x100000000000000 == v) by (bit_vector);
}

/// An encoded `u64` is always 8 bytes long.
pub broadcast proof fn lemma_enc_u64_len(v: u64)
    ensures
        #[trigger] enc_u64(v).len() == 8,
{
    reveal(enc_u64);
}

/// `u64` parse: 8 bytes at offset `i`, or nothing when they run out.
pub open spec fn parse_u64(s: Seq<u8>, i: int) -> Option<(u64, int)> {
    if 0 <= i && i + 8 <= s.len() {
        Some((dec_u64(s.subrange(i, i + 8)), i + 8))
    } else {
        None
    }
}

/// A byte string, length-prefixed.
pub open spec fn enc_bytes(b: Seq<u8>) -> Seq<u8> {
    enc_u64(b.len() as u64) + b
}

/// Byte-string parse: a length prefix, then that many bytes.
pub open spec fn parse_bytes(s: Seq<u8>, i: int) -> Option<(Seq<u8>, int)> {
    match parse_u64(s, i) {
        Some((n, j)) => if j + n <= s.len() {
            Some((s.subrange(j, j + n), j + n))
        } else {
            None
        },
        None => None,
    }
}

/// Parsing at the start of an encoded `u64` yields that `u64`.
pub proof fn lemma_parse_u64_at(s: Seq<u8>, i: int, v: u64)
    requires
        0 <= i,
        i + 8 <= s.len(),
        s.subrange(i, i + 8) == enc_u64(v),
    ensures
        parse_u64(s, i) == Some((v, i + 8)),
{
    lemma_dec_enc_u64(v);
}

/// Parsing at the start of an encoded byte string yields that byte string.
pub proof fn lemma_parse_bytes_at(s: Seq<u8>, i: int, b: Seq<u8>)
    requires
        0 <= i,
        b.len() < 0x10000000000000000,
        i + enc_bytes(b).len() <= s.len(),
        s.subrange(i, i + enc_bytes(b).len()) == enc_bytes(b),
    ensures
        parse_bytes(s, i) == Some((b, i + 8 + b.len())),
{
    broadcast use lemma_enc_u64_len;
    let eb = enc_bytes(b);
    assert(eb.len() == 8 + b.len());
    assert(s.subrange(i, i + 8) =~= eb.subrange(0, 8));
    assert(eb.subrange(0, 8) =~= enc_u64(b.len() as u64));
    lemma_parse_u64_at(s, i, b.len() as u64);
    assert(s.subrange(i + 8, i + 8 + b.len()) =~= eb.subrange(8, eb.len() as int));
    assert(eb.subrange(8, eb.len() as int) =~= b);
}

/// Strand as one byte.
pub open spec fn enc_strand(st: GBrowserStrand) -> Seq<u8> {
    match st {
        GBrowserStrand::Unstranded => seq![0u8],
        GBrowserStrand::Forward => seq![1u8],
        GBrowserStrand::Reverse => seq![2u8],
        GBrowserStrand::Unknown => seq![3u8],
    }
}

/// Strand parse: one tag byte.
pub open spec fn parse_strand(s: Seq<u8>, i: int) -> Option<(GBrowserStrand, int)> {
    if 0 <= i && i + 1 <= s.len() {
        if s[i] == 0u8 {
            Some((GBrowserStrand::Unstranded, i + 1))
        } else if s[i] == 1u8 {
            Some((GBrowserStrand::Forward, i + 1))
        } else if s[i] == 2u8 {
            Some((GBrowserStrand::Reverse, i + 1))
        } else if s[i] == 3u8 {
            Some((GBrowserStrand::Unknown, i + 1))
        } else {
            None
        }
    } else {
        None
    }
}

/// Optional phase as one byte: 0 for none, otherwise the phase plus one.
pub open spec fn enc_phase(p: Option<GBrowserPhase>) -> Seq<u8> {
    match p {
        Option::None => seq![0u8],
        Option::Some(GBrowserPhase::Zero) => seq![1u8],
        Option::Some(GBrowserPhase::One) => seq![2u8],
        Option::Some(GBrowserPhase::Two) => seq![3u8],
    }
}

/// Phase parse: one tag byte.
pub open spec fn parse_phase(s: Seq<u8>, i: int) -> Option<(Option<GBrowserPhase>, int)> {
    if 0 <= i && i + 1 <= s.len() {
        if s[i] == 0u8 {
            Some((Option::None, i + 1))
        } else if s[i] == 1u8 {
            Some((Some(GBrowserPhase::Zero), i + 1))
        } else if s[i] == 2u8 {
            Some((Some(GBrowserPhase::One), i + 1))
        } else if s[i] == 3u8 {
            Some((Some(GBrowserPhase::Two), i + 1))
        } else {
            None
        }
    } else {
        None
    }
}

/// One attribute: its key, then its text value.
pub open spec fn enc_attr(a: (Seq<u8>, AttributeValueModel)) -> Seq<u8> {
    enc_bytes(a.0) + enc_bytes(match a.1 {
        AttributeValueModel::Text(v) => v,
    })
}

/// Attribute parse: key bytes, then value bytes.
pub open spec fn parse_attr(s: Seq<u8>, i: int) -> Option<((Seq<u8>, AttributeValueModel), int)> {
    match parse_bytes(s, i) {
        Some((k, j)) => match parse_bytes(s, j) {
            Some((v, j2)) => Some(((k, AttributeValueModel::Text(v)), j2)),
            None => None,
        },
        None => None,
    }
}

/// An attribute list, in order.
pub open spec fn enc_attrs(attrs: Seq<(Seq<u8>, AttributeValueModel)>) -> Seq<u8>
    decreases attrs.len(),
{
    if attrs.len() == 0 {
        Seq::<u8>::empty()
    } else {
        enc_attr(attrs[0]) + enc_attrs(attrs.drop_first())
    }
}

/// Parse of exactly `n` attributes.
pub open spec fn parse_n_attrs(s: Seq<u8>, i: int, n: int) -> Option<(
    Seq<(Seq<u8>, AttributeValueModel)>,
    int,
)>
    decreases n,
{
    if n <= 0 {
        Some((Seq::<(Seq<u8>, AttributeValueModel)>::empty(), i))
    } else {
        match parse_attr(s, i) {
            Some((a, j)) => match parse_n_attrs(s, j, n - 1) {
                Some((rest, j2)) => Some((seq![a] + rest, j2)),
                None => None,
            },
            None => None,
        }
    }
}

/// One record: name, type, span, strand, phase, then the attributes,
/// count-prefixed.
pub open spec fn enc_record(r: RecordModel) -> Seq<u8> {
    enc_bytes(r.reference_sequence_name) + enc_bytes(r.ty) + enc_u64(r.start) + enc_u64(r.end)
        + enc_strand(r.strand) + enc_phase(r.phase) + enc_u64(r.attributes.len() as u64)
        + enc_attrs(r.attributes)
}

/// Record parse, mirroring `enc_record` field by field.
pub open spec fn parse_record(s: Seq<u8>, i: int) -> Option<(RecordModel, int)> {
    match parse_bytes(s, i) {
        Some((name, i1)) => match parse_bytes(s, i1) {
            Some((ty, i2)) => match parse_u64(s, i2) {
                Some((start, i3)) => match parse_u64(s, i3) {
                    Some((end, i4)) => match parse_strand(s, i4) {
                        Some((strand, i5)) => match parse_phase(s, i5) {
                            Some((phase, i6)) => match parse_u64(s, i6) {
                                Some((n, i7)) => match parse_n_attrs(s, i7, n as int) {
                                    Some((attributes, i8)) => Some(
                                        (
                                            RecordModel {
                                                reference_sequence_name: name,
                                                ty,
                                                start,
                                                end,
                                                strand,
                                                phase,
                                                attributes,
                                            },
                                            i8,
                                        ),
                                    ),
                                    None => None,
                                },
                                None => None,
                            },
                            None => None,
                        },
                        None => None,
                    },
                    None => None,
                },
                None => None,
            },
            None => None,
        },
        None => None,
    }
}

/// A record list, in order.
pub open spec fn enc_records(recs: Seq<RecordModel>) -> Seq<u8>
    decreases recs.len(),
{
    if recs.len() == 0 {
        Seq::<u8>::empty()
    } else {
        enc_record(recs[0]) + enc_records(recs.drop_first())
    }
}

/// Parse of exactly `n` records.
pub open spec fn parse_n_records(s: Seq<u8>, i: int, n: int) -> Option<(Seq<RecordModel>, int)>
    decreases n,
{
    if n <= 0 {
        Some((Seq::<RecordModel>::empty(), i))
    } else {
        match parse_record(s, i) {
            Some((r, j)) => match parse_n_records(s, j, n - 1) {
                Some((rest, j2)) => Some((seq![r] + rest, j2)),
                None => None,
            },
            None => None,
        }
    }
}

/// A subrange equal to a concatenation splits into the two parts.
proof fn lemma_subrange_cat(s: Seq<u8>, i: int, a: Seq<u8>, b: Seq<u8>)
    requires
        0 <= i,
        i + a.len() + b.len() <= s.len(),
        s.subrange(i, i + a.len() + b.len()) == a + b,
    ensures
        s.subrange(i, i + a.len()) == a,
        s.subrange(i + a.len(), i + a.len() + b.len()) == b,
{
    assert(s.subrange(i, i + a.len()) =~= (a + b).subrange(0, a.len() as int));
    assert((a + b).subrange(0, a.len() as int) =~= a);
    assert(s.subrange(i + a.len(), i + a.len() + b.len()) =~= (a + b).subrange(
        a.len() as int,
        (a.len() + b.len()) as int,
    ));
    assert((a + b).subrange(a.len() as int, (a.len() + b.len()) as int) =~= b);
}

/// Parsing at the start of an encoded strand yields that strand.
proof fn lemma_parse_strand_at(s: Seq<u8>, i: int, st: GBrowserStrand)
    requires
        0 <= i,
        i + 1 <= s.len(),
        s.subrange(i, i + 1) == enc_strand(st),
    ensures
        parse_strand(s, i) == Some((st, i + 1)),
{
    assert(s[i] == enc_strand(st)[0]);
}

/// Parsing at the start of an encoded phase yields that phase.
proof fn lemma_parse_phase_at(s: Seq<u8>, i: int, p: Option<GBrowserPhase>)
    requires
        0 <= i,
        i + 1 <= s.len(),
        s.subrange(i, i + 1) == enc_phase(p),
    ensures
        parse_phase(s, i) == Some((p, i + 1)),
{
    assert(s[i] == enc_phase(p)[0]);
}

/// Parsing at the start of an encoded attribute yields that attribute.
#[verifier::rlimit(60)]
proof fn lemma_parse_attr_at(s: Seq<u8>, i: int, a: (Seq<u8>, AttributeValueModel))
    requires
        0 <= i,
        s.len() < 0x10000000000000000,
        i + enc_attr(a).len() <= s.len(),
        s.subrange(i, i + enc_attr(a).len()) == enc_attr(a),
    ensures
        parse_attr(s, i) == Some((a, i + enc_attr(a).len())),
{
    broadcast use lemma_enc_u64_len;
    let k = a.0;
    let v = match a.1 {
        AttributeValueModel::Text(v) => v,
    };
    lemma_subrange_cat(s, i, enc_bytes(k), enc_bytes(v));
    lemma_parse_bytes_at(s, i, k);
    lemma_parse_bytes_at(s, i + enc_bytes(k).len(), v);
    assert(a =~= (k, AttributeValueModel::Text(v)));
}

/// Parsing at the start of an encoded attribute list yields that list.
proof fn lemma_parse_n_attrs_at(s: Seq<u8>, i: int, attrs: Seq<(Seq<u8>, AttributeValueModel)>)
    requires
        0 <= i,
        s.len() < 0x10000000000000000,
        i + enc_attrs(attrs).len() <= s.len(),
        s.subrange(i, i + enc_attrs(attrs).len()) == enc_attrs(attrs),
    ensures
        parse_n_attrs(s, i, attrs.len() as int) == Some((attrs, i + enc_attrs(attrs).len())),
    decreases attrs.len(),
{
    broadcast use lemma_enc_u64_len;
    if attrs.len() == 0 {
        assert(attrs =~= Seq::<(Seq<u8>, AttributeValueModel)>::empty());
    } else {
        let a0 = attrs[0];
        let rest = attrs.drop_first();
        lemma_subrange_cat(s, i, enc_attr(a0), enc_attrs(rest));
        lemma_parse_attr_at(s, i, a0);
        let j = i + enc_attr(a0).len();
        lemma_parse_n_attrs_at(s, j, rest);
        assert(seq![a0] + rest =~= attrs);
    }
}

/// Parsing at the start of an encoded record yields that record.
#[verifier::rlimit(60)]
proof fn lemma_parse_record_at(s: Seq<u8>, i: int, r: RecordModel)
    requires
        0 <= i,
        s.len() < 0x10000000000000000,
        r.attributes.len() < 0x10000000000000000,
        i + enc_record(r).len() <= s.len(),
        s.subrange(i, i + enc_record(r).len()) == enc_record(r),
    ensures
        parse_record(s, i) == Some((r, i + enc_record(r).len())),
{
    broadcast use lemma_enc_u64_len;
    let p1 = enc_bytes(r.reference_sequence_name);
    let p2 = enc_bytes(r.ty);
    let p3 = enc_u64(r.start);
    let p4 = enc_u64(r.end);
    let p5 = enc_strand(r.strand);
    let p6 = enc_phase(r.phase);
    let p7 = enc_u64(r.attributes.len() as u64);
    let p8 = enc_attrs(r.attributes);
    let q7 = p1 + p2 + p3 + p4 + p5 + p6 + p7;
    let q6 = p1 + p2 + p3 + p4 + p5 + p6;
    let q5 = p1 + p2 + p3 + p4 + p5;
    let q4 = p1 + p2 + p3 + p4;
    let q3 = p1 + p2 + p3;
    let q2 = p1 + p2;
    lemma_subrange_cat(s, i, q7, p8);
    lemma_subrange_cat(s, i, q6, p7);
    lemma_subrange_cat(s, i, q5, p6);
    lemma_subrange_cat(s, i, q4, p5);
    lemma_subrange_cat(s, i, q3, p4);
    lemma_subrange_cat(s, i, q2, p3);
    lemma_subrange_cat(s, i, p1, p2);
    lemma_parse_bytes_at(s, i, r.reference_sequence_name);
    let i1 = i + p1.len();
    lemma_parse_bytes_at(s, i1, r.ty);
    let i2 = i1 + p2.len();
    lemma_parse_u64_at(s, i2, r.start);
    let i3 = i2 + 8;
    lemma_parse_u64_at(s, i3, r.end);
    let i4 = i3 + 8;
    lemma_parse_strand_at(s, i4, r.strand);
    let i5 = i4 + 1;
    lemma_parse_phase_at(s, i5, r.phase);
    let i6 = i5 + 1;
    lemma_parse_u64_at(s, i6, r.attributes.len() as u64);
    let i7 = i6 + 8;
    lemma_parse_n_attrs_at(s, i7, r.attributes);
    assert(parse_record(s, i) == Some((r, i7 + p8.len()))) by {
        let got = parse_record(s, i)->Some_0.0;
        assert(got =~= r);
    }
}

/// Parsing at the start of an encoded record list yields that list.
proof fn lemma_parse_n_records_at(s: Seq<u8>, i: int, recs: Seq<RecordModel>)
    requires
        0 <= i,
        s.len() < 0x10000000000000000,
        forall|k: int|
            0 <= k < recs.len() ==> (#[trigger] recs[k]).attributes.len()
                < 0x10000000000000000,
        i + enc_records(recs).len() <= s.len(),
        s.subrange(i, i + enc_records(recs).len()) == enc_records(recs),
    ensures
        parse_n_records(s, i, recs.len() as int) == Some((recs, i + enc_records(recs).len())),
    decreases recs.len(),
{
    broadcast use lemma_enc_u64_len;
    if recs.len() == 0 {
        assert(recs =~= Seq::<RecordModel>::empty());
    } else {
        let r0 = recs[0];
        let rest = recs.drop_first();
        assert forall|k: int| 0 <= k < rest.len() implies (#[trigger] rest[k]).attributes.len()
            < 0x10000000000000000 by {
            assert(rest[k] == recs[k + 1]);
        }
        lemma_subrange_cat(s, i, enc_record(r0), enc_records(rest));
        lemma_parse_record_at(s, i, r0);
        let j = i + enc_record(r0).len();
        lemma_parse_n_records_at(s, j, rest);
        assert(seq![r0] + rest =~= recs);
    }
}

/// One tile: its records, count-prefixed.
pub open spec fn enc_chunk(recs: Seq<RecordModel>) -> Seq<u8> {
    enc_u64(recs.len() as u64) + enc_records(recs)
}

/// Tile parse: the whole byte string must be consumed.
pub open spec fn parse_chunk_full(s: Seq<u8>) -> Option<Seq<RecordModel>> {
    match parse_u64(s, 0) {
        Some((n, i)) => match parse_n_records(s, i, n as int) {
            Some((recs, j)) => if j == s.len() {
                Some(recs)
            } else {
                None
            },
            None => None,
        },
        None => None,
    }
}

/// Decoding the encoding of a tile gives back exactly its records.
#[verifier::rlimit(60)]
pub proof fn lemma_chunk_round_trip(recs: Seq<RecordModel>)
    requires
        recs.len() < 0x10000000000000000,
        forall|k: int|
            0 <= k < recs.len() ==> (#[trigger] recs[k]).attributes.len()
                < 0x10000000000000000,
        enc_chunk(recs).len() < 0x10000000000000000,
    ensures
        parse_chunk_full(enc_chunk(recs)) == Some(recs),
{
    broadcast use lemma_enc_u64_len;
    let s = enc_chunk(recs);
    assert(s.subrange(0, s.len() as int) =~= s);
    lemma_subrange_cat(s, 0, enc_u64(recs.len() as u64), enc_records(recs));
    lemma_parse_u64_at(s, 0, recs.len() as u64);
    lemma_parse_n_records_at(s, 8, recs);
}

/// Appending one attribute extends an attribute-list encoding at the end.
proof fn lemma_enc_attrs_snoc(attrs: Seq<(Seq<u8>, AttributeValueModel)>, a: (Seq<u8>, AttributeValueModel))
    ensures
        enc_attrs(attrs.push(a)) == enc_attrs(attrs) + enc_attr(a),
    decreases attrs.len(),
{
    if attrs.len() == 0 {
        assert(attrs.push(a).drop_first() =~= attrs);
        assert(enc_attrs(attrs.push(a)) =~= enc_attrs(attrs) + enc_attr(a));
    } else {
        assert(attrs.push(a).drop_first() =~= attrs.drop_first().push(a));
        lemma_enc_attrs_snoc(attrs.drop_first(), a);
        assert(enc_attrs(attrs.push(a)) =~= enc_attrs(attrs) + enc_attr(a));
    }
}

/// Appending one record extends a record-list encoding at the end.
proof fn lemma_enc_records_snoc(recs: Seq<RecordModel>, r: RecordModel)
    ensures
        enc_records(recs.push(r)) == enc_records(recs) + enc_record(r),
    decreases recs.len(),
{
    if recs.len() == 0 {
        assert(recs.push(r).drop_first() =~= recs);
        assert(enc_records(recs.push(r)) =~= enc_records(recs) + enc_record(r));
    } else {
        assert(recs.push(r).drop_first() =~= recs.drop_first().push(r));
        lemma_enc_records_snoc(recs.drop_first(), r);
        assert(enc_records(recs.push(r)) =~= enc_records(recs) + enc_record(r));
    }
}

/// Append a `u64` to the output, as 8 little-endian bytes.
fn write_u64(out: &mut Vec<u8>, v: u64)
    ensures
        final(out)@ == old(out)@ + enc_u64(v),
{
    out.push((v % 256) as u8);
    out.push(((v / 0x100) % 256) as u8);
    out.push(((v / 0x10000) % 256) as u8);
    out.push(((v / 0x1000000) % 256) as u8);
    out.push(((v / 0x100000000) % 256) as u8);
    out.push(((v / 0x10000000000) % 256) as u8);
    out.push(((v / 0x1000000000000) % 256) as u8);
    out.push(((v / 0x100000000000000) % 256) as u8);
    proof {
        reveal(enc_u64);
        assert(out@ =~= old(out)@ + enc_u64(v));
    }
}

/// Append a byte string to the output, length-prefixed.
fn write_bytes(out: &mut Vec<u8>, b: &Vec<u8>)
    ensures
        final(out)@ == old(out)@ + enc_bytes(b@),
{
    broadcast use lemma_enc_u64_len;

    write_u64(out, b.len() as u64);
    let n = b.len();
    let mut i: usize = 0;
    while i < n
        invariant
            n == b@.len(),
            0 <= i <= n,
            out@ == old(out)@ + enc_u64(b@.len() as u64) + b@.subrange(0, i as int),
        decreases n - i,
    {
        out.push(b[i]);
        proof {
            assert(out@ =~= old(out)@ + enc_u64(b@.len() as u64) + b@.subrange(0, i + 1 as int));
        }
        i += 1;
    }
    proof {
        assert(b@.subrange(0, n as int) =~= b@);
        assert(out@ =~= old(out)@ + enc_bytes(b@));
    }
}

/// Append a strand tag byte to the output.
fn write_strand(out: &mut Vec<u8>, st: GBrowserStrand)
    ensures
        final(out)@ == old(out)@ + enc_strand(st),
{
    let tag: u8 = match st {
        GBrowserStrand::Unstranded => 0,
        GBrowserStrand::Forward => 1,
        GBrowserStrand::Reverse => 2,
        GBrowserStrand::Unknown => 3,
    };
    out.push(tag);
    proof {
        assert(out@ =~= old(out)@ + enc_strand(st));
    }
}

/// Append a phase tag byte to the output.
fn write_phase(out: &mut Vec<u8>, p: Option<GBrowserPhase>)
    ensures
        final(out)@ == old(out)@ + enc_phase(p),
{
    let tag: u8 = match p {
        Option::None => 0,
        Option::Some(GBrowserPhase::Zero) => 1,
        Option::Some(GBrowserPhase::One) => 2,
        Option::Some(GBrowserPhase::Two) => 3,
    };
    out.push(tag);
    proof {
        assert(out@ =~= old(out)@ + enc_phase(p));
    }
}

/// Append one record to the output.
fn write_record(out: &mut Vec<u8>, r: &GBrowserRecordBuf)
    ensures
        final(out)@ == old(out)@ + enc_record(r@),
{
    write_bytes(out, &r.reference_sequence_name);
    write_bytes(out, &r.ty);
    write_u64(out, r.start);
    write_u64(out, r.end);
    write_strand(out, r.strand);
    write_phase(out, r.phase);
    write_u64(out, r.attributes.len() as u64);
    let ghost prefix = old(out)@ + enc_bytes(r@.reference_sequence_name) + enc_bytes(r@.ty)
        + enc_u64(r@.start) + enc_u64(r@.end) + enc_strand(r@.strand) + enc_phase(r@.phase)
        + enc_u64(r@.attributes.len() as u64);
    let n = r.attributes.len();
    let mut i: usize = 0;
    while i < n
        invariant
            n == r.attributes@.len(),
            0 <= i <= n,
            r@.attributes.len() == n,
            out@ == prefix + enc_attrs(r@.attributes.take(i as int)),
        decreases n - i,
    {
        let entry = &r.attributes[i];
        write_bytes(out, &entry.0);
        match &entry.1 {
            GBrowserAttributeValue::Text(v) => {
                write_bytes(out, v);
            },
        }
        proof {
            let a = r@.attributes[i as int];
            assert(r@.attributes.take(i + 1 as int) =~= r@.attributes.take(i as int).push(a));
            lemma_enc_attrs_snoc(r@.attributes.take(i as int), a);
            assert(enc_attr(a) == enc_bytes(entry.0@) + enc_bytes(match entry.1@ {
                AttributeValueModel::Text(v) => v,
            }));
            assert(out@ =~= prefix + enc_attrs(r@.attributes.take(i + 1 as int)));
        }
        i += 1;
    }
    proof {
        assert(r@.attributes.take(n as int) =~= r@.attributes);
        assert(out@ =~= old(out)@ + enc_record(r@));
    }
}

/// Serialize one tile into its compact byte form.
pub fn encode_chunk(chunk: &GBrowserChunk) -> (r: Vec<u8>)
    ensures
        r@ == enc_chunk(chunk@),
{
    let mut out: Vec<u8> = Vec::new();
    write_u64(&mut out, chunk.records.len() as u64);
    proof {
        assert(Seq::<u8>::empty() + enc_u64(chunk.records@.len() as u64) =~= enc_u64(
            chunk@.len() as u64,
        ));
    }
    let n = chunk.records.len();
    let mut i: usize = 0;
    while i < n
        invariant
            n == chunk.records@.len(),
            0 <= i <= n,
            chunk@.len() == n,
            out@ == enc_u64(chunk@.len() as u64) + enc_records(chunk@.take(i as int)),
        decreases n - i,
    {
        write_record(&mut out, &chunk.records[i]);
        proof {
            let rm = chunk@[i as int];
            assert(chunk@.take(i + 1 as int) =~= chunk@.take(i as int).push(rm));
            lemma_enc_records_snoc(chunk@.take(i as int), rm);
            assert(out@ =~= enc_u64(chunk@.len() as u64) + enc_records(chunk@.take(i + 1 as int)));
        }
        i += 1;
    }
    proof {
        assert(chunk@.take(n as int) =~= chunk@);
        assert(out@ =~= enc_chunk(chunk@));
    }
    out
}

/// Attribute list as its mathematical form.
pub open spec fn attrs_view(v: Seq<(Vec<u8>, GBrowserAttributeValue)>) -> Seq<
    (Seq<u8>, AttributeValueModel),
> {
    v.map_values(|p: (Vec<u8>, GBrowserAttributeValue)| (p.0@, p.1@))
}

/// Record list as its mathematical form.
pub open spec fn recs_view(v: Seq<GBrowserRecordBuf>) -> Seq<RecordModel> {
    v.map_values(|r: GBrowserRecordBuf| r@)
}

/// Read a `u64` at offset `i`.
fn read_u64(bytes: &Vec<u8>, i: usize) -> (r: Option<(u64, usize)>)
    ensures
        match r {
            Some((v, j)) => parse_u64(bytes@, i as int) == Some((v, j as int)),
            None => parse_u64(bytes@, i as int) is None,
        },
{
    if bytes.len() < 8 || i > bytes.len() - 8 {
        return None;
    }
    let b0 = bytes[i] as u64;
    let b1 = bytes[i + 1] as u64;
    let b2 = bytes[i + 2] as u64;
    let b3 = bytes[i + 3] as u64;
    let b4 = bytes[i + 4] as u64;
    let b5 = bytes[i + 5] as u64;
    let b6 = bytes[i + 6] as u64;
    let b7 = bytes[i + 7] as u64;
    let v = b0 + b1 * 0x100 + b2 * 0x10000 + b3 * 0x1000000 + b4 * 0x100000000 + b5
        * 0x10000000000 + b6 * 0x1000000000000 + b7 * 0x100000000000000;
    proof {
        reveal(dec_u64);
        let sub = bytes@.subrange(i as int, i as int + 8);
        assert(sub[0] == bytes@[i as int]);
        assert(sub[1] == bytes@[i as int + 1]);
        assert(sub[2] == bytes@[i as int + 2]);
        assert(sub[3] == bytes@[i as int + 3]);
        assert(sub[4] == bytes@[i as int + 4]);
        assert(sub[5] == bytes@[i as int + 5]);
        assert(sub[6] == bytes@[i as int + 6]);
        assert(sub[7] == bytes@[i as int + 7]);
        assert(v == dec_u64(sub));
    }
    Some((v, i + 8))
}

/// Read a length-prefixed byte string at offset `i`.
fn read_bytes(bytes: &Vec<u8>, i: usize) -> (r: Option<(Vec<u8>, usize)>)
    ensures
        match r {
            Some((v, j)) => parse_bytes(bytes@, i as int) == Some((v@, j as int)) && j
                <= bytes@.len(),
            None => parse_bytes(bytes@, i as int) is None,
        },
{
    match read_u64(bytes, i) {
        Some((n, j)) => {
            if n <= (bytes.len() - j) as u64 {
                let n = n as usize;
                let mut out: Vec<u8> = Vec::new();
                let mut k: usize = 0;
                while k < n
                    invariant
                        0 <= k <= n,
                        j + n <= bytes@.len(),
                        bytes@.len() <= usize::MAX,
                        out@ == bytes@.subrange(j as int, (j + k) as int),
                    decreases n - k,
                {
                    out.push(bytes[j + k]);
                    proof {
                        assert(out@ =~= bytes@.subrange(j as int, (j + k + 1) as int));
                    }
                    k += 1;
                }
                Some((out, j + n))
            } else {
                None
            }
        },
        None => None,
    }
}

/// Read a strand tag at offset `i`.
fn read_strand(bytes: &Vec<u8>, i: usize) -> (r: Option<(GBrowserStrand, usize)>)
    ensures
        match r {
            Some((st, j)) => parse_strand(bytes@, i as int) == Some((st, j as int)),
            None => parse_strand(bytes@, i as int) is None,
        },
{
    if i < bytes.len() {
        let t = bytes[i];
        if t == 0 {
            Some((GBrowserStrand::Unstranded, i + 1))
        } else if t == 1 {
            Some((GBrowserStrand::Forward, i + 1))
        } else if t == 2 {
            Some((GBrowserStrand::Reverse, i + 1))
        } else if t == 3 {
            Some((GBrowserStrand::Unknown, i + 1))
        } else {
            None
        }
    } else {
        None
    }
}

/// Read a phase tag at offset `i`.
fn read_phase(bytes: &Vec<u8>, i: usize) -> (r: Option<(Option<GBrowserPhase>, usize)>)
    ensures
        match r {
            Some((p, j)) => parse_phase(bytes@, i as int) == Some((p, j as int)),
            None => parse_phase(bytes@, i as int) is None,
        },
{
    if i < bytes.len() {
        let t = bytes[i];
        if t == 0 {
            Some((Option::None, i + 1))
        } else if t == 1 {
            Some((Some(GBrowserPhase::Zero), i + 1))
        } else if t == 2 {
            Some((Some(GBrowserPhase::One), i + 1))
        } else if t == 3 {
            Some((Some(GBrowserPhase::Two), i + 1))
        } else {
            None
        }
    } else {
        None
    }
}

/// Read one attribute at offset `i`.
fn read_attr(bytes: &Vec<u8>, i: usize) -> (r: Option<((Vec<u8>, GBrowserAttributeValue), usize)>)
    ensures
        match r {
            Some((a, j)) => parse_attr(bytes@, i as int) == Some(((a.0@, a.1@), j as int)) && j
                <= bytes@.len(),
            None => parse_attr(bytes@, i as int) is None,
        },
{
    match read_bytes(bytes, i) {
        Some((k, j)) => match read_bytes(bytes, j) {
            Some((v, j2)) => Some(((k, GBrowserAttributeValue::Text(v)), j2)),
            None => None,
        },
        None => None,
    }
}

/// Read one record at offset `i`.
fn read_record(bytes: &Vec<u8>, i: usize) -> (r: Option<(GBrowserRecordBuf, usize)>)
    ensures
        match r {
            Some((rec, j)) => parse_record(bytes@, i as int) == Some((rec@, j as int)) && j
                <= bytes@.len(),
            None => parse_record(bytes@, i as int) is None,
        },
{
    let s = bytes;
    let r1 = read_bytes(s, i);
    let (name, i1) = match r1 {
        Some(x) => x,
        Option::None => {
            return None;
        },
    };
    let r2 = read_bytes(s, i1);
    let (ty, i2) = match r2 {
        Some(x) => x,
        Option::None => {
            return None;
        },
    };
    let r3 = read_u64(s, i2);
    let (start, i3) = match r3 {
        Some(x) => x,
        Option::None => {
            return None;
        },
    };
    let r4 = read_u64(s, i3);
    let (end, i4) = match r4 {
        Some(x) => x,
        Option::None => {
            return None;
        },
    };
    let r5 = read_strand(s, i4);
    let (strand, i5) = match r5 {
        Some(x) => x,
        Option::None => {
            return None;
        },
    };
    let r6 = read_phase(s, i5);
    let (phase, i6) = match r6 {
        Some(x) => x,
        Option::None => {
            return None;
        },
    };
    let r7 = read_u64(s, i6);
    let (n_attrs, i7) = match r7 {
        Some(x) => x,
        Option::None => {
            return None;
        },
    };
    let ghost full = parse_n_attrs(bytes@, i7 as int, n_attrs as int);
    let blen = bytes.len();
    let mut attributes: Vec<(Vec<u8>, GBrowserAttributeValue)> = Vec::new();
    let mut cur: usize = i7;
    let mut k: u64 = 0;
    proof {
        assert(i7 <= bytes@.len());
        assert(attrs_view(attributes@) =~= Seq::<(Seq<u8>, AttributeValueModel)>::empty());
        if parse_n_attrs(bytes@, cur as int, (n_attrs - k) as int) is Some {
            let (rest, jj) = parse_n_attrs(bytes@, cur as int, (n_attrs - k) as int)->Some_0;
            assert(attrs_view(attributes@) + rest =~= rest);
        }
    }
    while k < n_attrs
        invariant
            0 <= k <= n_attrs,
            cur <= bytes@.len(),
            bytes@.len() <= usize::MAX,
            full == match parse_n_attrs(bytes@, cur as int, (n_attrs - k) as int) {
                Some((rest, jj)) => Some((attrs_view(attributes@) + rest, jj)),
                Option::None => Option::<(Seq<(Seq<u8>, AttributeValueModel)>, int)>::None,
            },
            parse_record(bytes@, i as int) == (match full {
                Some((ats, jj)) => Some(
                    (
                        (RecordModel {
                            reference_sequence_name: name@,
                            ty: ty@,
                            start,
                            end,
                            strand,
                            phase,
                            attributes: ats,
                        }),
                        jj,
                    ),
                ),
                Option::None => Option::<(RecordModel, int)>::None,
            }),
        decreases n_attrs - k,
    {
        let ra = read_attr(bytes, cur);
        match ra {
            Some((a, j2)) => {
                proof {
                    let am = (a.0@, a.1@);
                    let tail = parse_n_attrs(bytes@, j2 as int, (n_attrs - k - 1) as int);
                    assert(parse_n_attrs(bytes@, cur as int, (n_attrs - k) as int)
                        == match tail {
                        Some((rest2, jj)) => Some((seq![am] + rest2, jj)),
                        Option::None => Option::<(Seq<(Seq<u8>, AttributeValueModel)>, int)>::None,
                    });
                    if tail is Some {
                        let (rest2, jj) = tail->Some_0;
                        assert(attrs_view(attributes@.push(a)) =~= attrs_view(attributes@).push(
                            am,
                        ));
                        assert(attrs_view(attributes@) + (seq![am] + rest2) =~= attrs_view(
                            attributes@.push(a),
                        ) + rest2);
                    }
                }
                attributes.push(a);
                cur = j2;
                k += 1;
            },
            Option::None => {
                return None;
            },
        }
    }
    proof {
        assert(parse_n_attrs(bytes@, cur as int, 0) == Some(
            (Seq::<(Seq<u8>, AttributeValueModel)>::empty(), cur as int),
        ));
        assert(attrs_view(attributes@) + Seq::<(Seq<u8>, AttributeValueModel)>::empty()
            =~= attrs_view(attributes@));
        assert(full == Some((attrs_view(attributes@), cur as int)));
    }
    let rec = GBrowserRecordBuf {
        reference_sequence_name: name,
        ty,
        start,
        end,
        strand,
        phase,
        attributes,
    };
    proof {
        let parsed = parse_record(bytes@, i as int);
        assert(parsed is Some);
        assert(parsed->Some_0.0 =~= rec@);
    }
    Some((rec, cur))
}

/// Decode one tile from its compact byte form. The whole byte string must be
/// a well-formed encoding; nothing may be left over.
pub fn decode_chunk(bytes: &Vec<u8>) -> (r: Option<GBrowserChunk>)
    ensures
        match r {
            Some(c) => parse_chunk_full(bytes@) == Some(c@),
            None => parse_chunk_full(bytes@) is None,
        },
{
    let r0 = read_u64(bytes, 0);
    let (n, i) = match r0 {
        Some(x) => x,
        Option::None => {
            return None;
        },
    };
    let ghost full = parse_n_records(bytes@, i as int, n as int);
    let blen = bytes.len();
    let mut records: Vec<GBrowserRecordBuf> = Vec::new();
    let mut cur: usize = i;
    let mut k: u64 = 0;
    proof {
        assert(i <= bytes@.len());
        assert(recs_view(records@) =~= Seq::<RecordModel>::empty());
        if parse_n_records(bytes@, cur as int, (n - k) as int) is Some {
            let (rest, jj) = parse_n_records(bytes@, cur as int, (n - k) as int)->Some_0;
            assert(recs_view(records@) + rest =~= rest);
        }
    }
    while k < n
        invariant
            0 <= k <= n,
            cur <= bytes@.len(),
            bytes@.len() <= usize::MAX,
            full == match parse_n_records(bytes@, cur as int, (n - k) as int) {
                Some((rest, jj)) => Some((recs_view(records@) + rest, jj)),
                Option::None => Option::<(Seq<RecordModel>, int)>::None,
            },
            parse_chunk_full(bytes@) == (match full {
                Some((rs, jj)) => if jj == bytes@.len() {
                    Some(rs)
                } else {
                    Option::<Seq<RecordModel>>::None
                },
                Option::None => Option::<Seq<RecordModel>>::None,
            }),
        decreases n - k,
    {
        let rr = read_record(bytes, cur);
        match rr {
            Some((rec, j2)) => {
                proof {
                    let rm = rec@;
                    let tail = parse_n_records(bytes@, j2 as int, (n - k - 1) as int);
                    assert(parse_n_records(bytes@, cur as int, (n - k) as int) == match tail {
                        Some((rest2, jj)) => Some((seq![rm] + rest2, jj)),
                        Option::None => Option::<(Seq<RecordModel>, int)>::None,
                    });
                    if tail is Some {
                        let (rest2, jj) = tail->Some_0;
                        assert(recs_view(records@.push(rec)) =~= recs_view(records@).push(rm));
                        assert(recs_view(records@) + (seq![rm] + rest2) =~= recs_view(
                            records@.push(rec),
                        ) + rest2);
                    }
                }
                records.push(rec);
                cur = j2;
                k += 1;
            },
            Option::None => {
                return None;
            },
        }
    }
    proof {
        assert(parse_n_records(bytes@, cur as int, 0) == Some(
            (Seq::<RecordModel>::empty(), cur as int),
        ));
        assert(recs_view(records@) + Seq::<RecordModel>::empty() =~= recs_view(records@));
        assert(full == Some((recs_view(records@), cur as int)));
    }
    if cur != bytes.len() {
        return None;
    }
    let chunk = GBrowserChunk { records };
    Some(chunk)
}

} // verus!
