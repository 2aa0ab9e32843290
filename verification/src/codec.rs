//! Canonical binary encoding of version records: little-endian fixed-width
//! integers, length-prefixed UTF-8 text, one tag byte per option and per
//! record kind.  Decoding accepts exactly the encodings and round-tripping is
//! proved exact, which is what hydration from the durable store relies on.

use vstd::prelude::*;

use crate::ext::bytes_to_string;
use crate::types::{
    ConceptData, ConceptDataV, ConceptVersion, ConceptVersionV, RelationshipVersion,
    RelationshipVersionV,
};
use vstd::string::StrSliceExecFns;
use vstd::utf8::{decode_utf8, encode_utf8, encode_utf8_decode_utf8, encode_utf8_valid_utf8,
    valid_utf8};

verus! {

pub open spec fn u64_le_bytes(x: u64) -> Seq<u8> {
    seq![
        x as u8,
        (x >> 8) as u8,
        (x >> 16) as u8,
        (x >> 24) as u8,
        (x >> 32) as u8,
        (x >> 40) as u8,
        (x >> 48) as u8,
        (x >> 56) as u8,
    ]
}

pub open spec fn u128_le_bytes(x: u128) -> Seq<u8> {
    seq![
        x as u8,
        (x >> 8) as u8,
        (x >> 16) as u8,
        (x >> 24) as u8,
        (x >> 32) as u8,
        (x >> 40) as u8,
        (x >> 48) as u8,
        (x >> 56) as u8,
        (x >> 64) as u8,
        (x >> 72) as u8,
        (x >> 80) as u8,
        (x >> 88) as u8,
        (x >> 96) as u8,
        (x >> 104) as u8,
        (x >> 112) as u8,
        (x >> 120) as u8,
    ]
}

pub open spec fn u64_from_le(s: Seq<u8>) -> u64
    recommends
        s.len() == 8,
{
    (s[0] as u64) | ((s[1] as u64) << 8) | ((s[2] as u64) << 16) | ((s[3] as u64) << 24) | ((s[4]
        as u64) << 32) | ((s[5] as u64) << 40) | ((s[6] as u64) << 48) | ((s[7] as u64) << 56)
}

pub open spec fn u128_from_le(s: Seq<u8>) -> u128
    recommends
        s.len() == 16,
{
    (s[0] as u128) | ((s[1] as u128) << 8) | ((s[2] as u128) << 16) | ((s[3] as u128) << 24) | ((
    s[4] as u128) << 32) | ((s[5] as u128) << 40) | ((s[6] as u128) << 48) | ((s[7] as u128) << 56)
        | ((s[8] as u128) << 64) | ((s[9] as u128) << 72) | ((s[10] as u128) << 80) | ((s[11]
        as u128) << 88) | ((s[12] as u128) << 96) | ((s[13] as u128) << 104) | ((s[14] as u128)
        << 112) | ((s[15] as u128) << 120)
}

pub proof fn lemma_u64_le_roundtrip(x: u64)
    ensures
        u64_from_le(u64_le_bytes(x)) == x,
{
    let s = u64_le_bytes(x);
    assert(s[0] == x as u8 && s[1] == (x >> 8) as u8 && s[2] == (x >> 16) as u8 && s[3] == (x
        >> 24) as u8 && s[4] == (x >> 32) as u8 && s[5] == (x >> 40) as u8 && s[6] == (x >> 48)
        as u8 && s[7] == (x >> 56) as u8);
    assert(((x as u8) as u64) | ((((x >> 8) as u8) as u64) << 8) | ((((x >> 16) as u8) as u64)
        << 16) | ((((x >> 24) as u8) as u64) << 24) | ((((x >> 32) as u8) as u64) << 32) | ((((x
        >> 40) as u8) as u64) << 40) | ((((x >> 48) as u8) as u64) << 48) | ((((x >> 56) as u8)
        as u64) << 56) == x) by (bit_vector);
}

pub proof fn lemma_u128_le_roundtrip(x: u128)
    ensures
        u128_from_le(u128_le_bytes(x)) == x,
{
    let s = u128_le_bytes(x);
    assert(s[0] == x as u8 && s[1] == (x >> 8) as u8 && s[2] == (x >> 16) as u8 && s[3] == (x
        >> 24) as u8 && s[4] == (x >> 32) as u8 && s[5] == (x >> 40) as u8 && s[6] == (x >> 48)
        as u8 && s[7] == (x >> 56) as u8 && s[8] == (x >> 64) as u8 && s[9] == (x >> 72) as u8
        && s[10] == (x >> 80) as u8 && s[11] == (x >> 88) as u8 && s[12] == (x >> 96) as u8 && s[13]
        == (x >> 104) as u8 && s[14] == (x >> 112) as u8 && s[15] == (x >> 120) as u8);
    assert(((x as u8) as u128) | ((((x >> 8) as u8) as u128) << 8) | ((((x >> 16) as u8) as u128)
        << 16) | ((((x >> 24) as u8) as u128) << 24) | ((((x >> 32) as u8) as u128) << 32) | ((((x
        >> 40) as u8) as u128) << 40) | ((((x >> 48) as u8) as u128) << 48) | ((((x >> 56) as u8)
        as u128) << 56) | ((((x >> 64) as u8) as u128) << 64) | ((((x >> 72) as u8) as u128) << 72)
        | ((((x >> 80) as u8) as u128) << 80) | ((((x >> 88) as u8) as u128) << 88) | ((((x >> 96)
        as u8) as u128) << 96) | ((((x >> 104) as u8) as u128) << 104) | ((((x >> 112) as u8)
        as u128) << 112) | ((((x >> 120) as u8) as u128) << 120) == x) by (bit_vector);
}

/// Length-prefixed UTF-8 text.
pub open spec fn spec_encode_str(t: Seq<char>) -> Seq<u8> {
    u64_le_bytes(encode_utf8(t).len() as u64) + encode_utf8(t)
}

pub open spec fn spec_encode_data(d: ConceptDataV) -> Seq<u8> {
    match d {
        ConceptDataV::Empty => seq![0u8],
        ConceptDataV::Structured(t) => seq![1u8] + spec_encode_str(t),
    }
}

pub open spec fn spec_encode_opt_u64(o: Option<u64>) -> Seq<u8> {
    match o {
        Option::None => seq![0u8],
        Option::Some(x) => seq![1u8] + u64_le_bytes(x),
    }
}

pub open spec fn spec_encode_opt_u128(o: Option<u128>) -> Seq<u8> {
    match o {
        Option::None => seq![0u8],
        Option::Some(x) => seq![1u8] + u128_le_bytes(x),
    }
}

/// The byte encoding of a concept version record.
#[verifier::opaque]
pub open spec fn spec_encode_cv(v: ConceptVersionV) -> Seq<u8> {
    seq![1u8] + u128_le_bytes(v.concept_id) + u64_le_bytes(v.version) + spec_encode_data(v.data)
        + u64_le_bytes(v.created_at) + u128_le_bytes(v.created_by) + spec_encode_opt_u64(
        v.deleted_at,
    ) + spec_encode_opt_u128(v.deleted_by)
}

/// The byte encoding of a relationship version record.
#[verifier::opaque]
pub open spec fn spec_encode_rv(v: RelationshipVersionV) -> Seq<u8> {
    seq![2u8] + u128_le_bytes(v.relationship_id) + u64_le_bytes(v.version) + u128_le_bytes(
        v.source,
    ) + u128_le_bytes(v.target) + spec_encode_str(v.relationship_type) + u64_le_bytes(v.created_at)
        + u128_le_bytes(v.created_by) + spec_encode_opt_u64(v.deleted_at) + spec_encode_opt_u128(
        v.deleted_by,
    )
}

/// The UTF-8 encoding of the payload fits the 64-bit length prefix.  True of
/// every string a program can hold.
pub open spec fn str_len_ok(t: Seq<char>) -> bool {
    encode_utf8(t).len() < 0x1_0000_0000_0000_0000
}

pub open spec fn data_len_ok(d: ConceptDataV) -> bool {
    match d {
        ConceptDataV::Empty => true,
        ConceptDataV::Structured(t) => str_len_ok(t),
    }
}

pub open spec fn parse_u64(b: Seq<u8>, at: int) -> Option<(u64, int)> {
    if 0 <= at && at + 8 <= b.len() {
        Some((u64_from_le(b.subrange(at, at + 8)), at + 8))
    } else {
        None
    }
}

pub open spec fn parse_u128(b: Seq<u8>, at: int) -> Option<(u128, int)> {
    if 0 <= at && at + 16 <= b.len() {
        Some((u128_from_le(b.subrange(at, at + 16)), at + 16))
    } else {
        None
    }
}

pub open spec fn parse_str(b: Seq<u8>, at: int) -> Option<(Seq<char>, int)> {
    match parse_u64(b, at) {
        Option::Some((len, a)) => if a + len <= b.len() && valid_utf8(
            b.subrange(a, a + len),
        ) {
            Some((decode_utf8(b.subrange(a, a + len)), a + len))
        } else {
            None
        },
        Option::None => None,
    }
}

pub open spec fn parse_data(b: Seq<u8>, at: int) -> Option<(ConceptDataV, int)> {
    if 0 <= at && at < b.len() {
        if b[at] == 0u8 {
            Some((ConceptDataV::Empty, at + 1))
        } else if b[at] == 1u8 {
            match parse_str(b, at + 1) {
                Option::Some((t, a)) => Some((ConceptDataV::Structured(t), a)),
                Option::None => None,
            }
        } else {
            None
        }
    } else {
        None
    }
}

pub open spec fn parse_opt_u64(b: Seq<u8>, at: int) -> Option<(Option<u64>, int)> {
    if 0 <= at && at < b.len() {
        if b[at] == 0u8 {
            Some((Option::None, at + 1))
        } else if b[at] == 1u8 {
            match parse_u64(b, at + 1) {
                Option::Some((x, a)) => Some((Option::Some(x), a)),
                Option::None => None,
            }
        } else {
            None
        }
    } else {
        None
    }
}

pub open spec fn parse_opt_u128(b: Seq<u8>, at: int) -> Option<(Option<u128>, int)> {
    if 0 <= at && at < b.len() {
        if b[at] == 0u8 {
            Some((Option::None, at + 1))
        } else if b[at] == 1u8 {
            match parse_u128(b, at + 1) {
                Option::Some((x, a)) => Some((Option::Some(x), a)),
                Option::None => None,
            }
        } else {
            None
        }
    } else {
        None
    }
}

/// A durable record: one version of either entity kind.
pub enum VersionRecord {
    Concept(ConceptVersion),
    Relationship(RelationshipVersion),
}

pub ghost enum VersionRecordV {
    Concept(ConceptVersionV),
    Relationship(RelationshipVersionV),
}

impl View for VersionRecord {
    type V = VersionRecordV;

    open spec fn view(&self) -> VersionRecordV {
        match self {
            VersionRecord::Concept(v) => VersionRecordV::Concept(v@),
            VersionRecord::Relationship(v) => VersionRecordV::Relationship(v@),
        }
    }
}

/// The decoding of one durable value: the record it holds, provided every
/// field parses and the value holds nothing else.
#[verifier::opaque]
pub open spec fn spec_decode_record(b: Seq<u8>) -> Option<VersionRecordV> {
    if b.len() < 1 {
        None
    } else if b[0] == 1u8 {
        match parse_u128(b, 1) {
            Option::Some((concept_id, a1)) => match parse_u64(b, a1) {
                Option::Some((version, a2)) => match parse_data(b, a2) {
                    Option::Some((data, a3)) => match parse_u64(b, a3) {
                        Option::Some((created_at, a4)) => match parse_u128(b, a4) {
                            Option::Some((created_by, a5)) => match parse_opt_u64(b, a5) {
                                Option::Some((deleted_at, a6)) => match parse_opt_u128(b, a6) {
                                    Option::Some((deleted_by, a7)) => if a7 == b.len() {
                                        Some(
                                            VersionRecordV::Concept(
                                                ConceptVersionV {
                                                    concept_id,
                                                    version,
                                                    data,
                                                    created_at,
                                                    created_by,
                                                    deleted_at,
                                                    deleted_by,
                                                },
                                            ),
                                        )
                                    } else {
                                        None
                                    },
                                    Option::None => None,
                                },
                                Option::None => None,
                            },
                            Option::None => None,
                        },
                        Option::None => None,
                    },
                    Option::None => None,
                },
                Option::None => None,
            },
            Option::None => None,
        }
    } else if b[0] == 2u8 {
        match parse_u128(b, 1) {
            Option::Some((relationship_id, a1)) => match parse_u64(b, a1) {
                Option::Some((version, a2)) => match parse_u128(b, a2) {
                    Option::Some((source, a3)) => match parse_u128(b, a3) {
                        Option::Some((target, a4)) => match parse_str(b, a4) {
                            Option::Some((relationship_type, a5)) => match parse_u64(b, a5) {
                                Option::Some((created_at, a6)) => match parse_u128(b, a6) {
                                    Option::Some((created_by, a7)) => match parse_opt_u64(b, a7) {
                                        Option::Some((deleted_at, a8)) => match parse_opt_u128(
                                            b,
                                            a8,
                                        ) {
                                            Option::Some((deleted_by, a9)) => if a9 == b.len() {
                                                Some(
                                                    VersionRecordV::Relationship(
                                                        RelationshipVersionV {
                                                            relationship_id,
                                                            version,
                                                            source,
                                                            relationship_type,
                                                            target,
                                                            created_at,
                                                            created_by,
                                                            deleted_at,
                                                            deleted_by,
                                                        },
                                                    ),
                                                )
                                            } else {
                                                None
                                            },
                                            Option::None => None,
                                        },
                                        Option::None => None,
                                    },
                                    Option::None => None,
                                },
                                Option::None => None,
                            },
                            Option::None => None,
                        },
                        Option::None => None,
                    },
                    Option::None => None,
                },
                Option::None => None,
            },
            Option::None => None,
        }
    } else {
        None
    }
}

pub proof fn lemma_parse_u64_at(b: Seq<u8>, at: int, x: u64)
    requires
        0 <= at,
        at + 8 <= b.len(),
        b.subrange(at, at + 8) == u64_le_bytes(x),
    ensures
        parse_u64(b, at) == Some((x, at + 8)),
{
    lemma_u64_le_roundtrip(x);
}

pub proof fn lemma_parse_u128_at(b: Seq<u8>, at: int, x: u128)
    requires
        0 <= at,
        at + 16 <= b.len(),
        b.subrange(at, at + 16) == u128_le_bytes(x),
    ensures
        parse_u128(b, at) == Some((x, at + 16)),
{
    lemma_u128_le_roundtrip(x);
}

pub proof fn lemma_parse_str_at(b: Seq<u8>, at: int, t: Seq<char>)
    requires
        0 <= at,
        str_len_ok(t),
        at + spec_encode_str(t).len() <= b.len(),
        b.subrange(at, at + spec_encode_str(t).len()) == spec_encode_str(t),
    ensures
        parse_str(b, at) == Some((t, at + spec_encode_str(t).len())),
{
    let u = encode_utf8(t);
    let n = u.len() as int;
    let enc = spec_encode_str(t);
    assert(enc.len() == 8 + n);
    assert(b.subrange(at, at + 8) =~= enc.subrange(0, 8));
    assert(enc.subrange(0, 8) =~= u64_le_bytes(n as u64));
    lemma_parse_u64_at(b, at, n as u64);
    assert((n as u64) as int == n);
    assert(b.subrange(at + 8, at + 8 + n) =~= enc.subrange(8, 8 + n));
    assert(enc.subrange(8, 8 + n) =~= u);
    encode_utf8_valid_utf8(t);
    encode_utf8_decode_utf8(t);
}

pub proof fn lemma_parse_data_at(b: Seq<u8>, at: int, d: ConceptDataV)
    requires
        0 <= at,
        data_len_ok(d),
        at + spec_encode_data(d).len() <= b.len(),
        b.subrange(at, at + spec_encode_data(d).len()) == spec_encode_data(d),
    ensures
        parse_data(b, at) == Some((d, at + spec_encode_data(d).len())),
{
    let enc = spec_encode_data(d);
    assert(b[at] == enc[0]);
    match d {
        ConceptDataV::Empty => {
            assert(enc[0] == 0u8);
        },
        ConceptDataV::Structured(t) => {
            assert(enc[0] == 1u8);
            let s = spec_encode_str(t);
            assert(enc.len() == 1 + s.len());
            assert(b.subrange(at + 1, at + 1 + s.len() as int) =~= enc.subrange(1, 1 + s.len() as int));
            assert(enc.subrange(1, 1 + s.len() as int) =~= s);
            lemma_parse_str_at(b, at + 1, t);
        },
    }
}

pub proof fn lemma_parse_opt_u64_at(b: Seq<u8>, at: int, o: Option<u64>)
    requires
        0 <= at,
        at + spec_encode_opt_u64(o).len() <= b.len(),
        b.subrange(at, at + spec_encode_opt_u64(o).len()) == spec_encode_opt_u64(o),
    ensures
        parse_opt_u64(b, at) == Some((o, at + spec_encode_opt_u64(o).len())),
{
    let enc = spec_encode_opt_u64(o);
    assert(b[at] == enc[0]);
    match o {
        Option::None => {
            assert(enc[0] == 0u8);
        },
        Option::Some(x) => {
            assert(enc[0] == 1u8);
            assert(b.subrange(at + 1, at + 9) =~= enc.subrange(1, 9));
            assert(enc.subrange(1, 9) =~= u64_le_bytes(x));
            lemma_parse_u64_at(b, at + 1, x);
        },
    }
}

pub proof fn lemma_parse_opt_u128_at(b: Seq<u8>, at: int, o: Option<u128>)
    requires
        0 <= at,
        at + spec_encode_opt_u128(o).len() <= b.len(),
        b.subrange(at, at + spec_encode_opt_u128(o).len()) == spec_encode_opt_u128(o),
    ensures
        parse_opt_u128(b, at) == Some((o, at + spec_encode_opt_u128(o).len())),
{
    let enc = spec_encode_opt_u128(o);
    assert(b[at] == enc[0]);
    match o {
        Option::None => {
            assert(enc[0] == 0u8);
        },
        Option::Some(x) => {
            assert(enc[0] == 1u8);
            assert(b.subrange(at + 1, at + 17) =~= enc.subrange(1, 17));
            assert(enc.subrange(1, 17) =~= u128_le_bytes(x));
            lemma_parse_u128_at(b, at + 1, x);
        },
    }
}

/// Round trip: decoding the encoding of a concept version yields it back.
#[verifier::rlimit(100)]
#[verifier::spinoff_prover]
pub proof fn lemma_concept_record_roundtrip(v: ConceptVersionV)
    requires
        data_len_ok(v.data),
    ensures
        spec_decode_record(spec_encode_cv(v)) == Some(VersionRecordV::Concept(v)),
{
    reveal(spec_encode_cv);
    reveal(spec_decode_record);
    let b = spec_encode_cv(v);
    let c1 = u128_le_bytes(v.concept_id);
    let c2 = u64_le_bytes(v.version);
    let c3 = spec_encode_data(v.data);
    let c4 = u64_le_bytes(v.created_at);
    let c5 = u128_le_bytes(v.created_by);
    let c6 = spec_encode_opt_u64(v.deleted_at);
    let c7 = spec_encode_opt_u128(v.deleted_by);
    let o1 = 1int;
    let o2 = o1 + 16;
    let o3 = o2 + 8;
    let o4 = o3 + c3.len();
    let o5 = o4 + 8;
    let o6 = o5 + 16;
    let o7 = o6 + c6.len();
    let o8 = o7 + c7.len();
    assert(b.len() == o8);
    assert(b[0] == 1u8);
    assert(b.subrange(o1, o2) =~= c1);
    lemma_parse_u128_at(b, o1, v.concept_id);
    assert(b.subrange(o2, o3) =~= c2);
    lemma_parse_u64_at(b, o2, v.version);
    assert(b.subrange(o3, o4) =~= c3);
    lemma_parse_data_at(b, o3, v.data);
    assert(b.subrange(o4, o5) =~= c4);
    lemma_parse_u64_at(b, o4, v.created_at);
    assert(b.subrange(o5, o6) =~= c5);
    lemma_parse_u128_at(b, o5, v.created_by);
    assert(b.subrange(o6, o7) =~= c6);
    lemma_parse_opt_u64_at(b, o6, v.deleted_at);
    assert(b.subrange(o7, o8) =~= c7);
    lemma_parse_opt_u128_at(b, o7, v.deleted_by);
}

/// Round trip: decoding the encoding of a relationship version yields it
/// back.
#[verifier::rlimit(100)]
#[verifier::spinoff_prover]
pub proof fn lemma_relationship_record_roundtrip(v: RelationshipVersionV)
    requires
        str_len_ok(v.relationship_type),
    ensures
        spec_decode_record(spec_encode_rv(v)) == Some(VersionRecordV::Relationship(v)),
{
    reveal(spec_encode_rv);
    reveal(spec_decode_record);
    let b = spec_encode_rv(v);
    let c1 = u128_le_bytes(v.relationship_id);
    let c2 = u64_le_bytes(v.version);
    let c3 = u128_le_bytes(v.source);
    let c4 = u128_le_bytes(v.target);
    let c5 = spec_encode_str(v.relationship_type);
    let c6 = u64_le_bytes(v.created_at);
    let c7 = u128_le_bytes(v.created_by);
    let c8 = spec_encode_opt_u64(v.deleted_at);
    let c9 = spec_encode_opt_u128(v.deleted_by);
    let o1 = 1int;
    let o2 = o1 + 16;
    let o3 = o2 + 8;
    let o4 = o3 + 16;
    let o5 = o4 + 16;
    let o6 = o5 + c5.len();
    let o7 = o6 + 8;
    let o8 = o7 + 16;
    let o9 = o8 + c8.len();
    let o10 = o9 + c9.len();
    assert(b.len() == o10);
    assert(b[0] == 2u8);
    assert(b.subrange(o1, o2) =~= c1);
    lemma_parse_u128_at(b, o1, v.relationship_id);
    assert(b.subrange(o2, o3) =~= c2);
    lemma_parse_u64_at(b, o2, v.version);
    assert(b.subrange(o3, o4) =~= c3);
    lemma_parse_u128_at(b, o3, v.source);
    assert(b.subrange(o4, o5) =~= c4);
    lemma_parse_u128_at(b, o4, v.target);
    assert(b.subrange(o5, o6) =~= c5);
    lemma_parse_str_at(b, o5, v.relationship_type);
    assert(b.subrange(o6, o7) =~= c6);
    lemma_parse_u64_at(b, o6, v.created_at);
    assert(b.subrange(o7, o8) =~= c7);
    lemma_parse_u128_at(b, o7, v.created_by);
    assert(b.subrange(o8, o9) =~= c8);
    lemma_parse_opt_u64_at(b, o8, v.deleted_at);
    assert(b.subrange(o9, o10) =~= c9);
    lemma_parse_opt_u128_at(b, o9, v.deleted_by);
}

fn push_u64(out: &mut Vec<u8>, x: u64)
    ensures
        final(out)@ == old(out)@ + u64_le_bytes(x),
{
    out.push(#[verifier::truncate] (x as u8));
    out.push(#[verifier::truncate] ((x >> 8) as u8));
    out.push(#[verifier::truncate] ((x >> 16) as u8));
    out.push(#[verifier::truncate] ((x >> 24) as u8));
    out.push(#[verifier::truncate] ((x >> 32) as u8));
    out.push(#[verifier::truncate] ((x >> 40) as u8));
    out.push(#[verifier::truncate] ((x >> 48) as u8));
    out.push(#[verifier::truncate] ((x >> 56) as u8));
    proof {
        assert(out@ =~= old(out)@ + u64_le_bytes(x));
    }
}

fn push_u128(out: &mut Vec<u8>, x: u128)
    ensures
        final(out)@ == old(out)@ + u128_le_bytes(x),
{
    out.push(#[verifier::truncate] (x as u8));
    out.push(#[verifier::truncate] ((x >> 8) as u8));
    out.push(#[verifier::truncate] ((x >> 16) as u8));
    out.push(#[verifier::truncate] ((x >> 24) as u8));
    out.push(#[verifier::truncate] ((x >> 32) as u8));
    out.push(#[verifier::truncate] ((x >> 40) as u8));
    out.push(#[verifier::truncate] ((x >> 48) as u8));
    out.push(#[verifier::truncate] ((x >> 56) as u8));
    out.push(#[verifier::truncate] ((x >> 64) as u8));
    out.push(#[verifier::truncate] ((x >> 72) as u8));
    out.push(#[verifier::truncate] ((x >> 80) as u8));
    out.push(#[verifier::truncate] ((x >> 88) as u8));
    out.push(#[verifier::truncate] ((x >> 96) as u8));
    out.push(#[verifier::truncate] ((x >> 104) as u8));
    out.push(#[verifier::truncate] ((x >> 112) as u8));
    out.push(#[verifier::truncate] ((x >> 120) as u8));
    proof {
        assert(out@ =~= old(out)@ + u128_le_bytes(x));
    }
}

fn push_bytes(out: &mut Vec<u8>, b: &Vec<u8>)
    ensures
        final(out)@ == old(out)@ + b@,
{
    let n = b.len();
    let mut i: usize = 0;
    while i < n
        invariant
            i <= n,
            n == b@.len(),
            out@ == old(out)@ + b@.subrange(0, i as int),
        decreases n - i,
    {
        out.push(b[i]);
        proof {
            assert(out@ =~= old(out)@ + b@.subrange(0, i + 1));
        }
        i = i + 1;
    }
    proof {
        assert(b@.subrange(0, n as int) =~= b@);
    }
}

fn push_str(out: &mut Vec<u8>, s: &String)
    ensures
        final(out)@ == old(out)@ + spec_encode_str(s@),
{
    let bytes = s.as_str().as_bytes_vec();
    push_u64(out, bytes.len() as u64);
    push_bytes(out, &bytes);
    proof {
        assert(out@ =~= old(out)@ + spec_encode_str(s@));
    }
}

fn push_data(out: &mut Vec<u8>, d: &ConceptData)
    ensures
        final(out)@ == old(out)@ + spec_encode_data(d@),
{
    match d {
        ConceptData::Empty => {
            out.push(0u8);
            proof {
                assert(out@ =~= old(out)@ + spec_encode_data(d@));
            }
        },
        ConceptData::Structured(s) => {
            out.push(1u8);
            push_str(out, s);
            proof {
                assert(out@ =~= old(out)@ + spec_encode_data(d@));
            }
        },
    }
}

fn push_opt_u64(out: &mut Vec<u8>, o: Option<u64>)
    ensures
        final(out)@ == old(out)@ + spec_encode_opt_u64(o),
{
    match o {
        None => {
            out.push(0u8);
            proof {
                assert(out@ =~= old(out)@ + spec_encode_opt_u64(o));
            }
        },
        Some(x) => {
            out.push(1u8);
            push_u64(out, x);
            proof {
                assert(out@ =~= old(out)@ + spec_encode_opt_u64(o));
            }
        },
    }
}

fn push_opt_u128(out: &mut Vec<u8>, o: Option<u128>)
    ensures
        final(out)@ == old(out)@ + spec_encode_opt_u128(o),
{
    match o {
        None => {
            out.push(0u8);
            proof {
                assert(out@ =~= old(out)@ + spec_encode_opt_u128(o));
            }
        },
        Some(x) => {
            out.push(1u8);
            push_u128(out, x);
            proof {
                assert(out@ =~= old(out)@ + spec_encode_opt_u128(o));
            }
        },
    }
}

/// Encode one concept version record.
pub fn encode_concept_version(v: &ConceptVersion) -> (r: Vec<u8>)
    ensures
        r@ == spec_encode_cv(v@),
{
    proof {
        reveal(spec_encode_cv);
    }
    let mut out: Vec<u8> = Vec::new();
    out.push(1u8);
    proof {
        assert(out@ =~= seq![1u8]);
    }
    push_u128(&mut out, v.concept_id);
    push_u64(&mut out, v.version);
    push_data(&mut out, &v.data);
    push_u64(&mut out, v.created_at);
    push_u128(&mut out, v.created_by);
    push_opt_u64(&mut out, v.deleted_at);
    push_opt_u128(&mut out, v.deleted_by);
    proof {
        assert(out@ =~= spec_encode_cv(v@));
    }
    out
}

/// Encode one relationship version record.
pub fn encode_relationship_version(v: &RelationshipVersion) -> (r: Vec<u8>)
    ensures
        r@ == spec_encode_rv(v@),
{
    proof {
        reveal(spec_encode_rv);
    }
    let mut out: Vec<u8> = Vec::new();
    out.push(2u8);
    proof {
        assert(out@ =~= seq![2u8]);
    }
    push_u128(&mut out, v.relationship_id);
    push_u64(&mut out, v.version);
    push_u128(&mut out, v.source);
    push_u128(&mut out, v.target);
    push_str(&mut out, &v.relationship_type);
    push_u64(&mut out, v.created_at);
    push_u128(&mut out, v.created_by);
    push_opt_u64(&mut out, v.deleted_at);
    push_opt_u128(&mut out, v.deleted_by);
    proof {
        assert(out@ =~= spec_encode_rv(v@));
    }
    out
}

fn read_u64(b: &Vec<u8>, at: usize) -> (r: Option<(u64, usize)>)
    ensures
        match (r, parse_u64(b@, at as int)) {
            (Option::Some((x, n)), Option::Some((gx, gn))) => x == gx && n as int == gn,
            (Option::None, Option::None) => true,
            _ => false,
        },
{
    if b.len() < 8 || at > b.len() - 8 {
        return None;
    }
    let x = (b[at] as u64) | ((b[at + 1] as u64) << 8) | ((b[at + 2] as u64) << 16) | ((b[at + 3]
        as u64) << 24) | ((b[at + 4] as u64) << 32) | ((b[at + 5] as u64) << 40) | ((b[at + 6]
        as u64) << 48) | ((b[at + 7] as u64) << 56);
    proof {
        let s = b@.subrange(at as int, at as int + 8);
        assert(s[0] == b@[at as int] && s[1] == b@[at as int + 1] && s[2] == b@[at as int + 2]
            && s[3] == b@[at as int + 3] && s[4] == b@[at as int + 4] && s[5] == b@[at as int + 5]
            && s[6] == b@[at as int + 6] && s[7] == b@[at as int + 7]);
    }
    Some((x, at + 8))
}

fn read_u128(b: &Vec<u8>, at: usize) -> (r: Option<(u128, usize)>)
    ensures
        match (r, parse_u128(b@, at as int)) {
            (Option::Some((x, n)), Option::Some((gx, gn))) => x == gx && n as int == gn,
            (Option::None, Option::None) => true,
            _ => false,
        },
{
    if b.len() < 16 || at > b.len() - 16 {
        return None;
    }
    let x = (b[at] as u128) | ((b[at + 1] as u128) << 8) | ((b[at + 2] as u128) << 16) | ((b[at
        + 3] as u128) << 24) | ((b[at + 4] as u128) << 32) | ((b[at + 5] as u128) << 40) | ((b[at
        + 6] as u128) << 48) | ((b[at + 7] as u128) << 56) | ((b[at + 8] as u128) << 64) | ((b[at
        + 9] as u128) << 72) | ((b[at + 10] as u128) << 80) | ((b[at + 11] as u128) << 88) | ((b[at
        + 12] as u128) << 96) | ((b[at + 13] as u128) << 104) | ((b[at + 14] as u128) << 112) | ((
    b[at + 15] as u128) << 120);
    proof {
        let s = b@.subrange(at as int, at as int + 16);
        assert(s[0] == b@[at as int] && s[1] == b@[at as int + 1] && s[2] == b@[at as int + 2]
            && s[3] == b@[at as int + 3] && s[4] == b@[at as int + 4] && s[5] == b@[at as int + 5]
            && s[6] == b@[at as int + 6] && s[7] == b@[at as int + 7] && s[8] == b@[at as int + 8]
            && s[9] == b@[at as int + 9] && s[10] == b@[at as int + 10] && s[11] == b@[at as int
            + 11] && s[12] == b@[at as int + 12] && s[13] == b@[at as int + 13] && s[14] == b@[
        at as int + 14] && s[15] == b@[at as int + 15]);
    }
    Some((x, at + 16))
}

fn copy_range(b: &Vec<u8>, at: usize, len: usize) -> (r: Vec<u8>)
    requires
        at + len <= b@.len(),
    ensures
        r@ == b@.subrange(at as int, at as int + len as int),
{
    let total = b.len();
    let mut out: Vec<u8> = Vec::new();
    let mut i: usize = 0;
    while i < len
        invariant
            i <= len,
            total == b@.len(),
            at + len <= b@.len(),
            out@ == b@.subrange(at as int, at as int + i as int),
        decreases len - i,
    {
        out.push(b[at + i]);
        proof {
            assert(out@ =~= b@.subrange(at as int, at as int + i + 1));
        }
        i = i + 1;
    }
    out
}

fn read_str(b: &Vec<u8>, at: usize) -> (r: Option<(String, usize)>)
    ensures
        match (r, parse_str(b@, at as int)) {
            (Option::Some((s, n)), Option::Some((gt, gn))) => s@ == gt && n as int == gn,
            (Option::None, Option::None) => true,
            _ => false,
        },
{
    let (len, a) = match read_u64(b, at) {
        Some(p) => p,
        None => {
            return None;
        },
    };
    if len > (b.len() - a) as u64 {
        return None;
    }
    let len_us = len as usize;
    let bytes = copy_range(b, a, len_us);
    match bytes_to_string(bytes) {
        Some(s) => Some((s, a + len_us)),
        None => None,
    }
}

fn read_data(b: &Vec<u8>, at: usize) -> (r: Option<(ConceptData, usize)>)
    ensures
        match (r, parse_data(b@, at as int)) {
            (Option::Some((d, n)), Option::Some((gd, gn))) => d@ == gd && n as int == gn,
            (Option::None, Option::None) => true,
            _ => false,
        },
{
    if at >= b.len() {
        return None;
    }
    let tag = b[at];
    if tag == 0 {
        Some((ConceptData::Empty, at + 1))
    } else if tag == 1 {
        match read_str(b, at + 1) {
            Some((s, n)) => Some((ConceptData::Structured(s), n)),
            None => None,
        }
    } else {
        None
    }
}

fn read_opt_u64(b: &Vec<u8>, at: usize) -> (r: Option<(Option<u64>, usize)>)
    ensures
        match (r, parse_opt_u64(b@, at as int)) {
            (Option::Some((o, n)), Option::Some((go, gn))) => o == go && n as int == gn,
            (Option::None, Option::None) => true,
            _ => false,
        },
{
    if at >= b.len() {
        return None;
    }
    let tag = b[at];
    if tag == 0 {
        Some((None, at + 1))
    } else if tag == 1 {
        match read_u64(b, at + 1) {
            Some((x, n)) => Some((Some(x), n)),
            None => None,
        }
    } else {
        None
    }
}

fn read_opt_u128(b: &Vec<u8>, at: usize) -> (r: Option<(Option<u128>, usize)>)
    ensures
        match (r, parse_opt_u128(b@, at as int)) {
            (Option::Some((o, n)), Option::Some((go, gn))) => o == go && n as int == gn,
            (Option::None, Option::None) => true,
            _ => false,
        },
{
    if at >= b.len() {
        return None;
    }
    let tag = b[at];
    if tag == 0 {
        Some((None, at + 1))
    } else if tag == 1 {
        match read_u128(b, at + 1) {
            Some((x, n)) => Some((Some(x), n)),
            None => None,
        }
    } else {
        None
    }
}

/// Decode one durable value; returns the record exactly when the bytes are a
/// canonical encoding.
pub fn decode_version_record(b: &Vec<u8>) -> (r: Option<VersionRecord>)
    ensures
        match (r, spec_decode_record(b@)) {
            (Option::Some(rec), Option::Some(g)) => rec@ == g,
            (Option::None, Option::None) => true,
            _ => false,
        },
{
    proof {
        reveal(spec_decode_record);
    }
    if b.len() < 1 {
        return None;
    }
    let tag = b[0];
    if tag == 1 {
        let (concept_id, a1) = match read_u128(b, 1) {
            Some(p) => p,
            None => {
                return None;
            },
        };
        let (version, a2) = match read_u64(b, a1) {
            Some(p) => p,
            None => {
                return None;
            },
        };
        let (data, a3) = match read_data(b, a2) {
            Some(p) => p,
            None => {
                return None;
            },
        };
        let (created_at, a4) = match read_u64(b, a3) {
            Some(p) => p,
            None => {
                return None;
            },
        };
        let (created_by, a5) = match read_u128(b, a4) {
            Some(p) => p,
            None => {
                return None;
            },
        };
        let (deleted_at, a6) = match read_opt_u64(b, a5) {
            Some(p) => p,
            None => {
                return None;
            },
        };
        let (deleted_by, a7) = match read_opt_u128(b, a6) {
            Some(p) => p,
            None => {
                return None;
            },
        };
        if a7 != b.len() {
            return None;
        }
        Some(
            VersionRecord::Concept(
                ConceptVersion {
                    concept_id,
                    version,
                    data,
                    created_at,
                    created_by,
                    deleted_at,
                    deleted_by,
                },
            ),
        )
    } else if tag == 2 {
        let (relationship_id, a1) = match read_u128(b, 1) {
            Some(p) => p,
            None => {
                return None;
            },
        };
        let (version, a2) = match read_u64(b, a1) {
            Some(p) => p,
            None => {
                return None;
            },
        };
        let (source, a3) = match read_u128(b, a2) {
            Some(p) => p,
            None => {
                return None;
            },
        };
        let (target, a4) = match read_u128(b, a3) {
            Some(p) => p,
            None => {
                return None;
            },
        };
        let (relationship_type, a5) = match read_str(b, a4) {
            Some(p) => p,
            None => {
                return None;
            },
        };
        let (created_at, a6) = match read_u64(b, a5) {
            Some(p) => p,
            None => {
                return None;
            },
        };
        let (created_by, a7) = match read_u128(b, a6) {
            Some(p) => p,
            None => {
                return None;
            },
        };
        let (deleted_at, a8) = match read_opt_u64(b, a7) {
            Some(p) => p,
            None => {
                return None;
            },
        };
        let (deleted_by, a9) = match read_opt_u128(b, a8) {
            Some(p) => p,
            None => {
                return None;
            },
        };
        if a9 != b.len() {
            return None;
        }
        Some(
            VersionRecord::Relationship(
                RelationshipVersion {
                    relationship_id,
                    version,
                    source,
                    relationship_type,
                    target,
                    created_at,
                    created_by,
                    deleted_at,
                    deleted_by,
                },
            ),
        )
    } else {
        None
    }
}

} // verus!
