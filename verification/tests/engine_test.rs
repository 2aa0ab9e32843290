use mnemonic_core::engine::GraphEngine;
use mnemonic_core::store::DurableStore;
use mnemonic_core::transaction::IsolationLevel;
use mnemonic_core::types::{Concept, ConceptData, MnemonicError};

fn structured(text: &str) -> ConceptData {
    ConceptData::Structured(text.to_string())
}

#[test]
fn test_full_engine_lifecycle() {
    // 1. Setup.
    let mut engine = GraphEngine::new(DurableStore::new()).unwrap();

    // 2. Store two concepts.
    let person_id = engine.store(structured("{\"name\":\"Carol\"}")).unwrap();
    let project_id = engine.store(structured("{\"name\":\"Mnemonic\"}")).unwrap();

    // 3. Relate them.
    let relationship_id = engine
        .relate(person_id, "leads_project".to_string(), project_id)
        .unwrap();

    // 4. Retrieve and verify.
    let relationships = engine.retrieve_by_source(person_id).unwrap();
    assert_eq!(relationships.len(), 1);
    let rel = &relationships[0];
    assert_eq!(rel.id, relationship_id);
    assert_eq!(rel.target, project_id);
    assert_eq!(rel.relationship_type, "leads_project");

    // 5. Unrelate and verify the relationship is gone.
    engine.unrelate(relationship_id).unwrap();
    let relationships_after_unrelate = engine.retrieve_by_source(person_id).unwrap();
    assert_eq!(relationships_after_unrelate.len(), 0);
}

#[test]
fn test_engine_transactional_store_is_visible() {
    let mut engine = GraphEngine::new(DurableStore::new()).unwrap();

    // Store a concept using the engine's public API.
    let concept_id = engine.store(structured("{\"name\":\"Test\"}")).unwrap();

    // Use the internal manager to check that the data is visible.
    let manager = engine.transaction_manager();
    let retrieved_version = manager
        .read_concept_as_of(&concept_id, u64::MAX - 1)
        .unwrap();
    assert!(retrieved_version.is_some());
    assert_eq!(retrieved_version.unwrap().concept_id, concept_id);
}

#[test]
fn test_transaction_is_durable_across_restarts() {
    // 1. First session: create and commit data, collecting the written
    // batches as an external mirror would.
    let concept_id;
    let mut entries: Vec<(Vec<u8>, Vec<u8>)> = Vec::new();
    {
        let mut engine1 = GraphEngine::new(DurableStore::new()).unwrap();
        let mut txn = engine1.begin_transaction(IsolationLevel::Snapshot).unwrap();
        let new_concept = Concept::new("{\"handle\":\"4xMafole\"}".to_string());
        concept_id = new_concept.id;
        txn.stage_concept_write(new_concept);
        let ops = engine1.commit_transaction(txn).unwrap();
        for op in ops {
            entries.push(op);
        }
    } // the first engine is dropped here, simulating a shutdown.

    // 2. Second session: a brand-new engine over the same durable records.
    let engine2 = GraphEngine::new(DurableStore::from_entries(entries)).unwrap();
    let version = engine2
        .transaction_manager()
        .read_concept_as_of(&concept_id, u64::MAX - 1)
        .unwrap();

    // 3. The moment of truth: the data survived the restart.
    let version = version.expect("concept was not loaded from the log on engine restart");
    match version.data {
        ConceptData::Structured(s) => assert_eq!(s, "{\"handle\":\"4xMafole\"}"),
        ConceptData::Empty => panic!("expected structured payload"),
    }
}

#[test]
fn test_round_trip_store_relate_retrieve() {
    let mut engine = GraphEngine::new(DurableStore::new()).unwrap();
    let a = engine.store(structured("{\"name\":\"Alice\"}")).unwrap();
    let b = engine.store(structured("{\"name\":\"Bob\"}")).unwrap();
    assert_ne!(a, b);
    let r = engine.relate(a, "knows".to_string(), b).unwrap();

    let rels = engine.retrieve_by_source(a).unwrap();
    assert_eq!(rels.len(), 1);
    assert_eq!(rels[0].id, r);
    assert_eq!(rels[0].source, a);
    assert_eq!(rels[0].target, b);
    assert_eq!(rels[0].relationship_type, "knows");
}

#[test]
fn test_tombstone_and_time_travel() {
    let mut engine = GraphEngine::new(DurableStore::new()).unwrap();
    let a = engine.store(structured("{\"name\":\"Alice\"}")).unwrap();
    let b = engine.store(structured("{\"name\":\"Bob\"}")).unwrap();
    let r = engine.relate(a, "knows".to_string(), b).unwrap();

    // Remember the instant the relationship was created.
    let created_at = engine
        .transaction_manager()
        .read_relationship_as_of(&r, u64::MAX - 1)
        .unwrap()
        .unwrap()
        .created_at;

    engine.unrelate(r).unwrap();

    // retrieve_by_source no longer returns the tombstoned relationship.
    assert_eq!(engine.retrieve_by_source(a).unwrap().len(), 0);

    // Time travel to before the deletion still shows the original version.
    let past = engine
        .transaction_manager()
        .read_relationship_as_of(&r, created_at)
        .unwrap();
    let past = past.expect("pre-delete version should stay visible");
    assert_eq!(past.version, 1);
    assert!(past.deleted_at.is_none());

    // Reading now shows nothing.
    let now_read = engine
        .transaction_manager()
        .read_relationship_as_of(&r, u64::MAX - 1)
        .unwrap();
    assert!(now_read.is_none());
}

#[test]
fn test_relate_missing_endpoint() {
    let mut engine = GraphEngine::new(DurableStore::new()).unwrap();
    let x: u128 = 1001;
    let y: u128 = 1002;
    let r = engine.relate(x, "x".to_string(), y);
    // The source endpoint is probed first.
    assert!(matches!(r, Err(MnemonicError::ConceptNotFound(missing)) if missing == x));
    // No relationship version was written, and the internal transaction was
    // aborted rather than left registered.
    assert_eq!(engine.transaction_manager().durable_store().len(), 0);
    assert_eq!(engine.transaction_manager().active_transaction_count(), 0);
}

#[test]
fn test_relate_missing_target_is_reported_second() {
    let mut engine = GraphEngine::new(DurableStore::new()).unwrap();
    let a = engine.store(structured("{\"name\":\"Alice\"}")).unwrap();
    let ghost_target: u128 = 4004;
    let r = engine.relate(a, "haunts".to_string(), ghost_target);
    assert!(matches!(r, Err(MnemonicError::ConceptNotFound(missing)) if missing == ghost_target));
    assert_eq!(engine.transaction_manager().active_transaction_count(), 0);
}

#[test]
fn test_relate_rejects_tombstoned_source() {
    // Build a store whose only record is an already-tombstoned concept, as a
    // deletion-capable peer could have written it, and hydrate from it.
    let tombstoned = mnemonic_core::types::ConceptVersion {
        concept_id: 77,
        version: 1,
        data: structured("{\"gone\":true}"),
        created_at: 10,
        created_by: 5,
        deleted_at: Some(20),
        deleted_by: Some(5),
    };
    let key = mnemonic_core::keys::concept_version_key(77, 1);
    let value = mnemonic_core::codec::encode_concept_version(&tombstoned);
    let entries = vec![(key, value)];
    let mut engine = GraphEngine::new(DurableStore::from_entries(entries)).unwrap();

    let b = engine.store(structured("{\"name\":\"Bob\"}")).unwrap();
    let r = engine.relate(77, "knows".to_string(), b);
    assert!(matches!(r, Err(MnemonicError::ConceptNotFound(missing)) if missing == 77));
}

#[test]
fn test_unrelate_missing_relationship() {
    let mut engine = GraphEngine::new(DurableStore::new()).unwrap();
    let r = engine.unrelate(555);
    assert!(matches!(r, Err(MnemonicError::RelationshipNotFound(555))));
}

#[test]
fn test_time_travel_across_an_update() {
    let mut engine = GraphEngine::new(DurableStore::new()).unwrap();

    // Commit version 1 of the concept.
    let id = engine.store(structured("{\"v\":1}")).unwrap();
    let t1 = engine
        .transaction_manager()
        .read_concept_as_of(&id, u64::MAX - 1)
        .unwrap()
        .unwrap()
        .created_at;

    // Commit an update to the same concept.
    let mut txn = engine.begin_transaction(IsolationLevel::Snapshot).unwrap();
    let update = Concept {
        id,
        data: structured("{\"v\":2}"),
        metadata: mnemonic_core::types::ConceptMetadata::default(),
    };
    txn.stage_concept_write(update);
    engine.commit_transaction(txn).unwrap();
    let t2 = engine
        .transaction_manager()
        .read_concept_as_of(&id, u64::MAX - 1)
        .unwrap()
        .unwrap()
        .created_at;
    assert!(t2 > t1);

    let manager = engine.transaction_manager();
    let at_t1 = manager.read_concept_as_of(&id, t1).unwrap().unwrap();
    match at_t1.data {
        ConceptData::Structured(s) => assert_eq!(s, "{\"v\":1}"),
        ConceptData::Empty => panic!("expected structured payload"),
    }
    let at_t2 = manager.read_concept_as_of(&id, t2).unwrap().unwrap();
    match at_t2.data {
        ConceptData::Structured(s) => assert_eq!(s, "{\"v\":2}"),
        ConceptData::Empty => panic!("expected structured payload"),
    }
    let before = manager.read_concept_as_of(&id, t1 - 1).unwrap();
    assert!(before.is_none());
}

#[test]
fn test_restart_answers_as_before() {
    // Build history through commits, collect the written batches, rebuild a
    // manager over the same records, and compare the answers.
    let mut engine_b = GraphEngine::new(DurableStore::new()).unwrap();
    let mut entries: Vec<(Vec<u8>, Vec<u8>)> = Vec::new();

    let mut txn = engine_b.begin_transaction(IsolationLevel::Snapshot).unwrap();
    let c = Concept::new("{\"k\":1}".to_string());
    let cid = c.id;
    txn.stage_concept_write(c);
    let ops = engine_b.commit_transaction(txn).unwrap();
    for op in ops {
        entries.push(op);
    }

    let mut txn2 = engine_b.begin_transaction(IsolationLevel::Snapshot).unwrap();
    let c2 = Concept {
        id: cid,
        data: structured("{\"k\":2}"),
        metadata: mnemonic_core::types::ConceptMetadata::default(),
    };
    txn2.stage_concept_write(c2);
    let ops2 = engine_b.commit_transaction(txn2).unwrap();
    for op in ops2 {
        entries.push(op);
    }

    let engine_c = GraphEngine::new(DurableStore::from_entries(entries)).unwrap();
    let v1 = engine_b
        .transaction_manager()
        .read_concept_as_of(&cid, u64::MAX - 1)
        .unwrap()
        .unwrap();
    let v2 = engine_c
        .transaction_manager()
        .read_concept_as_of(&cid, u64::MAX - 1)
        .unwrap()
        .unwrap();
    assert_eq!(v1.version, 2);
    assert_eq!(v1.version, v2.version);
    assert_eq!(v1.created_at, v2.created_at);
    assert_eq!(v1.created_by, v2.created_by);
}

#[test]
fn test_unrelate_of_tombstoned_relationship_fails() {
    let mut engine = GraphEngine::new(DurableStore::new()).unwrap();
    let a = engine.store(structured("{\"name\":\"Alice\"}")).unwrap();
    let b = engine.store(structured("{\"name\":\"Bob\"}")).unwrap();
    let r = engine.relate(a, "knows".to_string(), b).unwrap();

    engine.unrelate(r).unwrap();
    // A second unrelate of the already-tombstoned edge is refused, and no
    // further record is written.
    let log_len = engine.transaction_manager().durable_store().len();
    let second = engine.unrelate(r);
    assert!(matches!(second, Err(MnemonicError::RelationshipNotFound(missing)) if missing == r));
    assert_eq!(engine.transaction_manager().durable_store().len(), log_len);
}
