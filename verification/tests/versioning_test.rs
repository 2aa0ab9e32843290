use mnemonic_core::types::{ConceptData, ConceptVersion, Relationship, RelationshipVersion};
use mnemonic_core::versioning::VersionStore;

fn concept_version(
    concept_id: u128,
    version: u64,
    text: &str,
    created_at: u64,
    created_by: u128,
) -> ConceptVersion {
    ConceptVersion {
        concept_id,
        version,
        data: ConceptData::Structured(text.to_string()),
        created_at,
        created_by,
        deleted_at: None,
        deleted_by: None,
    }
}

#[test]
fn test_version_time_travel() {
    let mut store = VersionStore::new();
    let concept_id: u128 = 7;
    let txn_id: u128 = 11;

    let t1: u64 = 1000;
    // Version 1 created at time T1
    let version1 = concept_version(concept_id, 1, "v1", t1, txn_id);
    store.add_concept_version(version1.clone()).unwrap();

    let t2: u64 = t1 + 10;
    // Version 2 created at time T2
    let version2 = concept_version(concept_id, 2, "v2", t2, txn_id);
    store.add_concept_version(version2.clone()).unwrap();

    // Check 1: Query for time T1 should give version 1
    let retrieved_v1 = store
        .get_concept_version_at_timestamp(&concept_id, t1)
        .unwrap()
        .unwrap();
    assert_eq!(retrieved_v1.version, 1);
    match retrieved_v1.data {
        ConceptData::Structured(s) => assert_eq!(s, "v1"),
        ConceptData::Empty => panic!("expected structured payload"),
    }

    // Check 2: Query for time T2 should give version 2
    let retrieved_v2 = store
        .get_concept_version_at_timestamp(&concept_id, t2)
        .unwrap()
        .unwrap();
    assert_eq!(retrieved_v2.version, 2);
    match retrieved_v2.data {
        ConceptData::Structured(s) => assert_eq!(s, "v2"),
        ConceptData::Empty => panic!("expected structured payload"),
    }

    // Check 3: Query for a time before anything existed should give nothing
    let before_time = t1 - 1;
    let nothing = store
        .get_concept_version_at_timestamp(&concept_id, before_time)
        .unwrap();
    assert!(nothing.is_none());
}

#[test]
fn test_relationship_version_time_travel() {
    let mut store = VersionStore::new();

    let source_id: u128 = 21;
    let target_id: u128 = 22;
    let txn_id_1: u128 = 31;
    let txn_id_2: u128 = 32;

    // 1. Create a relationship object
    let original_rel = Relationship::new(source_id, "knows".to_string(), target_id);
    let rel_id = original_rel.id;
    let t1 = original_rel.metadata.created_at;

    // 2. Create the first version from it and store it
    let version1 = RelationshipVersion::from_relationship(&original_rel, txn_id_1);
    store.add_relationship_version(version1).unwrap();

    // 3. Create the second (deleted) version a bit later
    let t2 = t1 + 10;
    let version2 = RelationshipVersion {
        relationship_id: rel_id,
        version: 2,
        source: source_id,
        relationship_type: "knows".to_string(),
        target: target_id,
        created_at: t2,
        created_by: txn_id_2,
        deleted_at: Some(t2),
        deleted_by: Some(txn_id_2),
    };
    store.add_relationship_version(version2).unwrap();

    // 4. Time-travel queries.
    // At time T1, we should find the original, non-deleted version 1
    let retrieved_at_t1 = store
        .get_relationship_version_at_timestamp(&rel_id, t1)
        .unwrap()
        .unwrap();
    assert_eq!(retrieved_at_t1.version, 1);
    assert!(retrieved_at_t1.deleted_at.is_none());

    // At time T2 (the moment of deletion), we should find nothing
    let retrieved_at_t2 = store
        .get_relationship_version_at_timestamp(&rel_id, t2)
        .unwrap();
    assert!(retrieved_at_t2.is_none());
}

#[test]
fn test_modification_probe_sees_tombstones() {
    let mut store = VersionStore::new();
    let rel_id: u128 = 40;
    let v = RelationshipVersion {
        relationship_id: rel_id,
        version: 1,
        source: 41,
        relationship_type: "works_for".to_string(),
        target: 42,
        created_at: 100,
        created_by: 43,
        deleted_at: Some(150),
        deleted_by: Some(43),
    };
    store.add_relationship_version(v).unwrap();
    // The deletion instant counts as a modification.
    assert!(store.has_relationship_been_modified_since(&rel_id, 120).unwrap());
    assert!(!store.has_relationship_been_modified_since(&rel_id, 150).unwrap());
    assert!(!store.has_relationship_been_modified_since(&rel_id, 200).unwrap());
    // An unknown id was never modified.
    assert!(!store.has_concept_been_modified_since(&99, 0).unwrap());
}

#[test]
fn test_active_set_keeps_newest_active_versions_only() {
    let mut store = VersionStore::new();
    let a: u128 = 1;
    let b: u128 = 2;
    store.add_concept_version(concept_version(a, 1, "a1", 10, 5)).unwrap();
    store.add_concept_version(concept_version(a, 2, "a2", 20, 5)).unwrap();
    store.add_concept_version(concept_version(b, 1, "b1", 30, 5)).unwrap();

    let active = store.get_all_active_concepts(25).unwrap();
    // At instant 25 only concept `a` exists, as its newest version.
    assert_eq!(active.len(), 1);
    assert_eq!(active[0].concept_id, a);
    assert_eq!(active[0].version, 2);

    let active_later = store.get_all_active_concepts(30).unwrap();
    assert_eq!(active_later.len(), 2);
}
