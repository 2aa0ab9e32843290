use mnemonic_core::codec::{
    decode_version_record, encode_concept_version, encode_relationship_version, VersionRecord,
};
use mnemonic_core::keys::{concept_version_key, relationship_version_key};
use mnemonic_core::types::{ConceptData, ConceptVersion, RelationshipVersion};

#[test]
fn test_concept_record_round_trip() {
    let v = ConceptVersion {
        concept_id: 0x1234_5678_9abc_def0_1122_3344_5566_7788u128,
        version: 3,
        data: ConceptData::Structured("{\"name\":\"Alice\",\"note\":\"héllo\"}".to_string()),
        created_at: 1_700_000_000_123,
        created_by: 42,
        deleted_at: Some(1_700_000_000_999),
        deleted_by: Some(43),
    };
    let bytes = encode_concept_version(&v);
    let decoded = decode_version_record(&bytes).expect("canonical encoding must decode");
    match decoded {
        VersionRecord::Concept(d) => {
            assert_eq!(d.concept_id, v.concept_id);
            assert_eq!(d.version, v.version);
            assert_eq!(d.created_at, v.created_at);
            assert_eq!(d.created_by, v.created_by);
            assert_eq!(d.deleted_at, v.deleted_at);
            assert_eq!(d.deleted_by, v.deleted_by);
            match d.data {
                ConceptData::Structured(s) => {
                    assert_eq!(s, "{\"name\":\"Alice\",\"note\":\"héllo\"}")
                }
                ConceptData::Empty => panic!("expected structured payload"),
            }
        }
        VersionRecord::Relationship(_) => panic!("expected a concept record"),
    }
}

#[test]
fn test_empty_payload_round_trip() {
    let v = ConceptVersion {
        concept_id: 7,
        version: 1,
        data: ConceptData::Empty,
        created_at: 5,
        created_by: 9,
        deleted_at: None,
        deleted_by: None,
    };
    let bytes = encode_concept_version(&v);
    match decode_version_record(&bytes).unwrap() {
        VersionRecord::Concept(d) => {
            assert!(matches!(d.data, ConceptData::Empty));
            assert_eq!(d.version, 1);
        }
        VersionRecord::Relationship(_) => panic!("expected a concept record"),
    }
}

#[test]
fn test_relationship_record_round_trip() {
    let v = RelationshipVersion {
        relationship_id: 11,
        version: 2,
        source: 12,
        relationship_type: "works_for".to_string(),
        target: 13,
        created_at: 100,
        created_by: 14,
        deleted_at: Some(100),
        deleted_by: Some(14),
    };
    let bytes = encode_relationship_version(&v);
    match decode_version_record(&bytes).unwrap() {
        VersionRecord::Relationship(d) => {
            assert_eq!(d.relationship_id, 11);
            assert_eq!(d.source, 12);
            assert_eq!(d.target, 13);
            assert_eq!(d.relationship_type, "works_for");
            assert_eq!(d.deleted_at, Some(100));
        }
        VersionRecord::Concept(_) => panic!("expected a relationship record"),
    }
}

#[test]
fn test_decoder_rejects_noise() {
    assert!(decode_version_record(&Vec::new()).is_none());
    assert!(decode_version_record(&vec![0u8]).is_none());
    assert!(decode_version_record(&vec![3u8, 1, 2, 3]).is_none());
    // A truncated concept record does not decode.
    assert!(decode_version_record(&vec![1u8, 0, 0, 0]).is_none());
    // Trailing bytes after a canonical record are rejected too.
    let v = ConceptVersion {
        concept_id: 7,
        version: 1,
        data: ConceptData::Empty,
        created_at: 5,
        created_by: 9,
        deleted_at: None,
        deleted_by: None,
    };
    let mut bytes = encode_concept_version(&v);
    bytes.push(0u8);
    assert!(decode_version_record(&bytes).is_none());
}

#[test]
fn test_version_keys_have_documented_format() {
    let key = concept_version_key(0, 1);
    assert_eq!(
        key,
        b"cv:00000000-0000-0000-0000-000000000000:1".to_vec()
    );
    let id = 0x1234_5678_9abc_4def_8123_4567_89ab_cdefu128;
    let key2 = concept_version_key(id, 42);
    assert_eq!(
        key2,
        b"cv:12345678-9abc-4def-8123-456789abcdef:42".to_vec()
    );
    let key3 = relationship_version_key(id, 10);
    assert_eq!(
        key3,
        b"rv:12345678-9abc-4def-8123-456789abcdef:10".to_vec()
    );
    let key4 = concept_version_key(u128::MAX, u64::MAX);
    assert_eq!(
        key4,
        b"cv:ffffffff-ffff-ffff-ffff-ffffffffffff:18446744073709551615".to_vec()
    );
}
