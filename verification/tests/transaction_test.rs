use mnemonic_core::keys::concept_version_key;
use mnemonic_core::store::DurableStore;
use mnemonic_core::transaction::{IsolationLevel, TransactionManager};
use mnemonic_core::types::{Concept, ConceptData, ConceptMetadata, MnemonicError};

#[test]
fn test_transaction_lifecycle() {
    // 1. Setup: a manager over an empty durable store.
    let mut manager = TransactionManager::new(DurableStore::new()).unwrap();

    // 2. Begin a transaction.
    let txn = manager.begin_transaction(IsolationLevel::Snapshot).unwrap();

    // 3. Verify begin: exactly one active transaction, with our id.
    assert_eq!(manager.active_transaction_count(), 1);
    assert!(manager.is_transaction_active(txn.id));

    // 4. Abort the transaction.
    manager.abort_transaction(txn.id).unwrap();

    // 5. Verify abort: the active set is empty again.
    assert_eq!(manager.active_transaction_count(), 0);
}

#[test]
fn test_abort_of_unknown_transaction_fails() {
    let mut manager = TransactionManager::new(DurableStore::new()).unwrap();
    let r = manager.abort_transaction(12345);
    assert!(matches!(r, Err(MnemonicError::Transaction(12345))));
}

#[test]
fn test_commit_of_unknown_transaction_fails() {
    let mut manager = TransactionManager::new(DurableStore::new()).unwrap();
    let other = TransactionManager::new(DurableStore::new())
        .unwrap()
        .begin_transaction(IsolationLevel::Snapshot)
        .unwrap();
    let tid = other.id;
    let r = manager.commit_transaction(other);
    assert!(matches!(r, Err(MnemonicError::Transaction(t)) if t == tid));
}

#[test]
fn test_first_committer_wins_conflict() {
    // 1. Setup.
    let mut manager = TransactionManager::new(DurableStore::new()).unwrap();

    // 2. Create the initial state: version 1 of a concept, committed.
    let mut initial_txn = manager.begin_transaction(IsolationLevel::Snapshot).unwrap();
    let concept_to_create = Concept::new("{\"value\":\"initial\"}".to_string());
    let concept_id = concept_to_create.id;
    initial_txn.stage_concept_write(concept_to_create);
    manager.commit_transaction(initial_txn).unwrap();

    // 3. The race begins: Alice starts, then Bob; both see the same state.
    let mut alice_txn = manager.begin_transaction(IsolationLevel::Snapshot).unwrap();
    let mut bob_txn = manager.begin_transaction(IsolationLevel::Snapshot).unwrap();

    // 4. Alice wins the race.
    let concept_for_alice = manager
        .read_concept_as_of(&concept_id, alice_txn.start_timestamp)
        .unwrap()
        .unwrap();
    let updated_concept = Concept {
        id: concept_id,
        data: ConceptData::Structured("{\"value\":\"alice was here\"}".to_string()),
        metadata: ConceptMetadata {
            created_at: concept_for_alice.created_at,
            updated_at: concept_for_alice.created_at + 10,
            version: concept_for_alice.version + 1,
            transaction_id: alice_txn.id,
        },
    };
    alice_txn.stage_concept_write(updated_concept);
    assert!(manager.commit_transaction(alice_txn).is_ok());

    // 5. Bob tries to commit and fails with a conflict.
    let updated_concept_bob = Concept {
        id: concept_id,
        data: ConceptData::Structured("{\"value\":\"bob was here\"}".to_string()),
        metadata: ConceptMetadata::default(),
    };
    bob_txn.stage_concept_write(updated_concept_bob);
    let bob_commit_result = manager.commit_transaction(bob_txn);
    assert!(bob_commit_result.is_err());
    assert!(matches!(
        bob_commit_result.unwrap_err(),
        MnemonicError::TransactionConflict(_)
    ));
    // The refused transaction was consumed: nothing stays registered.
    assert_eq!(manager.active_transaction_count(), 0);

    // 6. Durability: exactly versions 1 and 2 of the concept are on the log.
    let store = manager.durable_store();
    let key_v1 = concept_version_key(concept_id, 1);
    let key_v2 = concept_version_key(concept_id, 2);
    let key_v3 = concept_version_key(concept_id, 3);
    assert!(store.get_version(&key_v1).is_some());
    assert!(store.get_version(&key_v2).is_some());
    assert!(store.get_version(&key_v3).is_none());
    assert_eq!(store.len(), 2);

    // 7. The surviving payload is Alice's.
    let now_version = manager
        .read_concept_as_of(&concept_id, u64::MAX - 1)
        .unwrap()
        .unwrap();
    match now_version.data {
        ConceptData::Structured(s) => assert_eq!(s, "{\"value\":\"alice was here\"}"),
        ConceptData::Empty => panic!("expected structured payload"),
    }
}

#[test]
fn test_version_numbers_are_dense_across_commits() {
    let mut manager = TransactionManager::new(DurableStore::new()).unwrap();
    let mut txn = manager.begin_transaction(IsolationLevel::Snapshot).unwrap();
    let concept = Concept::new("{\"n\":1}".to_string());
    let id = concept.id;
    txn.stage_concept_write(concept);
    manager.commit_transaction(txn).unwrap();

    for n in 2u64..6u64 {
        let mut t = manager.begin_transaction(IsolationLevel::Snapshot).unwrap();
        let update = Concept {
            id,
            data: ConceptData::Structured(format!("{{\"n\":{}}}", n)),
            metadata: ConceptMetadata::default(),
        };
        t.stage_concept_write(update);
        manager.commit_transaction(t).unwrap();
        let v = manager.read_concept_as_of(&id, u64::MAX - 1).unwrap().unwrap();
        assert_eq!(v.version, n);
    }
    // Five commits left exactly five records for this concept on the log.
    assert_eq!(manager.durable_store().len(), 5);
    for n in 1u64..6u64 {
        let key = concept_version_key(id, n);
        assert!(manager.durable_store().get_version(&key).is_some());
    }
}

#[test]
fn test_abort_leaves_no_trace() {
    let mut manager = TransactionManager::new(DurableStore::new()).unwrap();
    let mut txn = manager.begin_transaction(IsolationLevel::Snapshot).unwrap();
    let concept = Concept::new("{\"ghostly\":true}".to_string());
    let id = concept.id;
    txn.stage_concept_write(concept);
    let tid = txn.id;
    manager.abort_transaction(tid).unwrap();

    // No version record on the durable log, no answer from the index.
    assert_eq!(manager.durable_store().len(), 0);
    assert!(manager.read_concept_as_of(&id, u64::MAX - 1).unwrap().is_none());
    assert!(!manager.is_transaction_active(tid));
}

#[test]
fn test_hydration_rejects_undecodable_records() {
    let entries = vec![(b"cv:junk".to_vec(), vec![9u8, 9, 9])];
    let r = TransactionManager::new(DurableStore::from_entries(entries));
    assert!(matches!(r, Err(MnemonicError::Serialization)));
}
