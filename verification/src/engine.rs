//! The Graph Facade: `store`, `relate`, `unrelate` and `retrieve_by_source`
//! as single-statement transactions over the Transaction Manager, plus
//! explicit begin / commit / abort for multi-statement callers.  Each
//! one-shot operation begins a transaction, stages its change, and commits.

use vstd::prelude::*;

use crate::store::{entries_view, DurableStore};
use crate::transaction::{
    chain_after_commit_c, chain_after_commit_r, commit_error, first_missing_delete, log_decodes,
    replay_concepts, replay_relationships, staged_concept, staged_relationship, IsolationLevel,
    Transaction, TransactionManager,
};
use crate::types::{
    Concept, ConceptData, ConceptId, ConceptVersionV, MnemonicError, RelationType, Relationship,
    RelationshipId, RelationshipMetadata, RelationshipV, RelationshipVersionV, Timestamp,
};
use crate::versioning::{distinct_entity_ids_r, ids_ok_r, sound_active_r, version_at_c,
    version_at_r};

verus! {

/// The plain relationship value carried by a version record.
pub open spec fn rel_of_version(v: RelationshipVersionV) -> RelationshipV {
    RelationshipV {
        id: v.relationship_id,
        source: v.source,
        relationship_type: v.relationship_type,
        target: v.target,
        created_at: v.created_at,
        version: v.version,
        transaction_id: v.created_by,
    }
}

/// Item `k` is the newest version of some relationship, active at `now` and
/// originating at `source`.
pub open spec fn retrieve_item_ok(
    m: TransactionManager,
    source: u128,
    now: Timestamp,
    items: Seq<RelationshipV>,
    k: int,
) -> bool {
    exists|id: u128| #![trigger m.relationship_chain(id)]
        m.relationship_chain(id).len() > 0 && m.relationship_chain(id).last().active_at(now)
            && m.relationship_chain(id).last().source == source && items[k] == rel_of_version(
            m.relationship_chain(id).last(),
        )
}

/// What `retrieve_by_source` returns at instant `now`: exactly the
/// relationships whose newest version is active at `now` and starts at
/// `source`.
pub open spec fn retrieve_post(
    m: TransactionManager,
    source: u128,
    now: Timestamp,
    items: Seq<RelationshipV>,
) -> bool {
    &&& forall|k: int|
        0 <= k < items.len() ==> #[trigger] retrieve_item_ok(m, source, now, items, k)
    &&& forall|id: u128|
        (((#[trigger] m.relationship_chain(id)).len() > 0 && m.relationship_chain(
            id,
        ).last().active_at(now) && m.relationship_chain(id).last().source == source) ==> exists|
            k: int,
        |
            0 <= k < items.len() && items[k] == rel_of_version(m.relationship_chain(id).last()))
    &&& forall|k1: int, k2: int|
        0 <= k1 < k2 < items.len() ==> (#[trigger] items[k1]).id != (#[trigger] items[k2]).id
}


/// `retrieve_post` over the returned vector's views.
pub open spec fn retrieve_post_vec(
    m: TransactionManager,
    source: u128,
    now: Timestamp,
    items: Vec<Relationship>,
) -> bool {
    retrieve_post(m, source, now, items@.map_values(|x: Relationship| x@))
}

/// The high-level graph engine: the core primitives over one owned
/// Transaction Manager.
pub struct GraphEngine {
    transaction_manager: TransactionManager,
}

impl GraphEngine {
    /// The owned Transaction Manager.
    pub closed spec fn manager(self) -> TransactionManager {
        self.transaction_manager
    }

    pub open spec fn wf(self) -> bool {
        self.manager().wf()
    }

    pub open spec fn concept_chain(self, id: u128) -> Seq<ConceptVersionV> {
        self.manager().concept_chain(id)
    }

    pub open spec fn relationship_chain(self, id: u128) -> Seq<RelationshipVersionV> {
        self.manager().relationship_chain(id)
    }

    /// Build an engine over a Durable Store, hydrating the Version Index
    /// from its log.
    pub fn new(store: DurableStore) -> (r: Result<GraphEngine, MnemonicError>)
        ensures
            match r {
                Result::Ok(e) => {
                    &&& e.wf()
                    &&& e.manager().store_log() == store.log()
                    &&& forall|id: u128| #[trigger]
                        e.concept_chain(id) == replay_concepts(store.log(), id)
                    &&& forall|id: u128| #[trigger]
                        e.relationship_chain(id) == replay_relationships(store.log(), id)
                },
                Result::Err(e) => e == MnemonicError::Serialization && !log_decodes(store.log()),
            },
    {
        match TransactionManager::new(store) {
            Ok(m) => Ok(GraphEngine { transaction_manager: m }),
            Err(e) => Err(e),
        }
    }

    /// A read-only handle to the Transaction Manager, for ancillary readers.
    pub fn transaction_manager(&self) -> (r: &TransactionManager)
        ensures
            *r == self.manager(),
    {
        &self.transaction_manager
    }

    /// STORE: create a concept carrying `data` and commit it in one
    /// transaction; returns the fresh concept id.
    pub fn store(&mut self, data: ConceptData) -> (r: Result<ConceptId, MnemonicError>)
        requires
            old(self).wf(),
        ensures
            final(self).wf(),
            forall|id: u128| #[trigger]
                final(self).relationship_chain(id) == old(self).relationship_chain(id),
            match r {
                Result::Ok(cid) => {
                    let chain0 = old(self).concept_chain(cid);
                    let chain1 = final(self).concept_chain(cid);
                    &&& chain1 == chain0.push(chain1.last())
                    &&& chain1.last().concept_id == cid
                    &&& chain1.last().data == data@
                    &&& chain1.last().version == (if chain0.len() == 0 {
                        1u64
                    } else {
                        (chain0.last().version + 1) as u64
                    })
                    &&& chain1.last().created_at == final(self).manager().timestamp_hi()
                    &&& chain1.last().created_at > old(self).manager().timestamp_hi()
                    &&& chain1.last().deleted_at is None
                    &&& forall|id: u128|
                        id != cid ==> #[trigger] final(self).concept_chain(id) == old(
                            self,
                        ).concept_chain(id)
                },
                Result::Err(e) => {
                    &&& forall|id: u128| #[trigger]
                        final(self).concept_chain(id) == old(self).concept_chain(id)
                    &&& final(self).manager().store_log() == old(self).manager().store_log()
                    &&& (e is Transaction || e is TransactionConflict)
                },
            },
            forall|tid: u128| #[trigger]
                final(self).manager().is_active(tid) ==> old(self).manager().is_active(tid),
            old(self).manager().temporal_wf() ==> final(self).manager().temporal_wf(),
            old(self).manager().dense() ==> final(self).manager().dense(),
    {
        let mut txn = match self.transaction_manager.begin_transaction(IsolationLevel::Snapshot) {
            Ok(t) => t,
            Err(e) => {
                return Err(e);
            },
        };
        let ghost m1 = self.transaction_manager;
        let ghost txn0 = txn;
        let new_concept = match data {
            ConceptData::Empty => Concept::empty(),
            ConceptData::Structured(s) => Concept::new(s),
        };
        let concept_id = new_concept.id;
        txn.stage_concept_write(new_concept);
        let ghost gtxn = txn;
        match self.transaction_manager.commit_transaction(txn) {
            Ok(_) => {
                proof {
                    let stamp = self.transaction_manager.timestamp_hi();
                    assert(staged_concept(gtxn, concept_id) is Some);
                    assert(self.concept_chain(concept_id) == chain_after_commit_c(
                        m1,
                        gtxn,
                        stamp,
                        concept_id,
                    ));
                    assert forall|id: u128|
                        id != concept_id implies #[trigger] self.concept_chain(id) == m1.concept_chain(
                        id,
                    ) by {
                        assert(staged_concept(gtxn, id) == staged_concept(txn0, id));
                        assert(staged_concept(txn0, id) is None);
                    }
                    assert forall|id: u128| #[trigger]
                        self.relationship_chain(id) == m1.relationship_chain(id) by {
                        assert(staged_relationship(gtxn, id) == staged_relationship(txn0, id));
                        assert(staged_relationship(txn0, id) is None);
                        assert(gtxn.pending_deletes@ == txn0.pending_deletes@);
                        assert(!gtxn.pending_deletes@.contains(id));
                    }
                    assert forall|tid: u128| #[trigger]
                        self.manager().is_active(tid) implies old(self).manager().is_active(
                        tid,
                    ) by {
                        if tid == gtxn.id {
                            assert(!self.manager().is_active(tid));
                        } else {
                            assert(self.manager().active_txn(tid) == m1.active_txn(tid));
                            assert(m1.active_txn(tid) == old(self).manager().active_txn(tid));
                        }
                    }
                }
                Ok(concept_id)
            },
            Err(e) => {
                proof {
                    assert(gtxn.pending_deletes@ == txn0.pending_deletes@);
                    assert(first_missing_delete(m1, gtxn, 0) is None);
                    assert forall|tid: u128| #[trigger]
                        self.manager().is_active(tid) implies old(self).manager().is_active(
                        tid,
                    ) by {
                        if tid == gtxn.id {
                            assert(!self.manager().is_active(tid));
                        } else {
                            assert(self.manager().active_txn(tid) == m1.active_txn(tid));
                            assert(m1.active_txn(tid) == old(self).manager().active_txn(tid));
                        }
                    }
                }
                Err(e)
            },
        }
    }

    /// RELATE: assert both endpoints have an active version as of the
    /// transaction's start, create the typed edge and commit it.  The source
    /// endpoint is probed first, so a missing source is reported before a
    /// missing target; an endpoint check that fails aborts the internal
    /// transaction.
    pub fn relate(
        &mut self,
        source: ConceptId,
        relationship_type: RelationType,
        target: ConceptId,
    ) -> (r: Result<RelationshipId, MnemonicError>)
        requires
            old(self).wf(),
        ensures
            final(self).wf(),
            forall|id: u128| #[trigger]
                final(self).concept_chain(id) == old(self).concept_chain(id),
            match r {
                Result::Ok(rid) => {
                    let chain0 = old(self).relationship_chain(rid);
                    let chain1 = final(self).relationship_chain(rid);
                    &&& chain1 == chain0.push(chain1.last())
                    &&& chain1.last().relationship_id == rid
                    &&& chain1.last().source == source
                    &&& chain1.last().target == target
                    &&& chain1.last().relationship_type == relationship_type@
                    &&& chain1.last().version == (if chain0.len() == 0 {
                        1u64
                    } else {
                        (chain0.last().version + 1) as u64
                    })
                    &&& chain1.last().created_at == final(self).manager().timestamp_hi()
                    &&& chain1.last().created_at > old(self).manager().timestamp_hi()
                    &&& chain1.last().deleted_at is None
                    &&& forall|id: u128|
                        id != rid ==> #[trigger] final(self).relationship_chain(id) == old(
                            self,
                        ).relationship_chain(id)
                    &&& exists|tq: Timestamp|
                        version_at_c(old(self).concept_chain(source), tq) is Some && version_at_c(
                            old(self).concept_chain(target),
                            tq,
                        ) is Some
                },
                Result::Err(e) => {
                    &&& forall|id: u128| #[trigger]
                        final(self).relationship_chain(id) == old(self).relationship_chain(id)
                    &&& final(self).manager().store_log() == old(self).manager().store_log()
                    &&& (e matches MnemonicError::ConceptNotFound(missing) ==> missing == source
                        || missing == target)
                    &&& (e is ConceptNotFound || e is Transaction || e is TransactionConflict)
                },
            },
            (old(self).concept_chain(source).len() == 0 || old(self).concept_chain(
                source,
            ).last().deleted_at is Some) ==> r == Result::<RelationshipId, MnemonicError>::Err(
                MnemonicError::ConceptNotFound(source),
            ),
            (old(self).concept_chain(source).len() > 0 && old(self).concept_chain(
                source,
            ).last().deleted_at is None && (old(self).concept_chain(target).len() == 0 || old(
                self,
            ).concept_chain(target).last().deleted_at is Some)) ==> r == Result::<
                RelationshipId,
                MnemonicError,
            >::Err(MnemonicError::ConceptNotFound(target)),
            (old(self).concept_chain(source).len() > 0 && old(self).concept_chain(
                source,
            ).last().deleted_at is None && old(self).concept_chain(target).len() > 0 && old(
                self,
            ).concept_chain(target).last().deleted_at is None) ==> !(r matches Result::Err(
                MnemonicError::ConceptNotFound(_),
            )),
            forall|tid: u128| #[trigger]
                final(self).manager().is_active(tid) ==> old(self).manager().is_active(tid),
            old(self).manager().temporal_wf() ==> final(self).manager().temporal_wf(),
            old(self).manager().dense() ==> final(self).manager().dense(),
    {
        let ghost cs0 = old(self).concept_chain(source);
        let ghost ct0 = old(self).concept_chain(target);
        proof {
            if cs0.len() > 0 {
                assert(crate::transaction::chain_wf_c(
                    old(self).manager().concept_chain(source),
                    source,
                    old(self).manager().timestamp_hi(),
                ));
                assert(cs0.last().created_at <= old(self).manager().timestamp_hi());
                assert(cs0.last().deleted_at is Some ==> cs0.last().deleted_at.unwrap() <= old(
                    self,
                ).manager().timestamp_hi());
            }
            if ct0.len() > 0 {
                assert(crate::transaction::chain_wf_c(
                    old(self).manager().concept_chain(target),
                    target,
                    old(self).manager().timestamp_hi(),
                ));
                assert(ct0.last().created_at <= old(self).manager().timestamp_hi());
                assert(ct0.last().deleted_at is Some ==> ct0.last().deleted_at.unwrap() <= old(
                    self,
                ).manager().timestamp_hi());
            }
        }
        let mut txn = match self.transaction_manager.begin_transaction(IsolationLevel::Snapshot) {
            Ok(t) => t,
            Err(e) => {
                return Err(e);
            },
        };
        proof {
            assert(self.concept_chain(source) == cs0);
            assert(self.concept_chain(target) == ct0);
            assert(txn.start_timestamp >= old(self).manager().timestamp_hi());
        }
        let source_version = match self.transaction_manager.read_concept_as_of(
            &source,
            txn.start_timestamp,
        ) {
            Ok(v) => v,
            Err(e) => {
                return Err(e);
            },
        };
        if source_version.is_none() {
            proof {
                if cs0.len() > 0 && cs0.last().deleted_at is None {
                    assert(cs0.last().active_at(txn.start_timestamp));
                    assert(version_at_c(cs0, txn.start_timestamp) == Some(cs0.last()));
                    assert(false);
                }
            }
            let _aborted = self.transaction_manager.abort_transaction(txn.id);
            proof {
                assert forall|tid: u128| #[trigger]
                    self.manager().is_active(tid) implies old(self).manager().is_active(tid) by {
                    if tid == txn.id {
                        assert(!self.manager().is_active(tid));
                    }
                }
            }
            return Err(MnemonicError::ConceptNotFound(source));
        }
        proof {
            assert(version_at_c(cs0, txn.start_timestamp) is Some);
            assert(cs0.len() > 0);
            if cs0.last().deleted_at is Some {
                assert(!cs0.last().active_at(txn.start_timestamp));
                assert(version_at_c(cs0, txn.start_timestamp) is None);
                assert(false);
            }
        }
        let target_version = match self.transaction_manager.read_concept_as_of(
            &target,
            txn.start_timestamp,
        ) {
            Ok(v) => v,
            Err(e) => {
                return Err(e);
            },
        };
        if target_version.is_none() {
            proof {
                if ct0.len() > 0 && ct0.last().deleted_at is None {
                    assert(ct0.last().active_at(txn.start_timestamp));
                    assert(version_at_c(ct0, txn.start_timestamp) == Some(ct0.last()));
                    assert(false);
                }
            }
            let _aborted = self.transaction_manager.abort_transaction(txn.id);
            proof {
                assert forall|tid: u128| #[trigger]
                    self.manager().is_active(tid) implies old(self).manager().is_active(tid) by {
                    if tid == txn.id {
                        assert(!self.manager().is_active(tid));
                    }
                }
            }
            return Err(MnemonicError::ConceptNotFound(target));
        }
        proof {
            assert(version_at_c(cs0, txn.start_timestamp) is Some);
            assert(version_at_c(ct0, txn.start_timestamp) is Some);
            assert(ct0.len() > 0);
            if ct0.last().deleted_at is Some {
                assert(!ct0.last().active_at(txn.start_timestamp));
                assert(version_at_c(ct0, txn.start_timestamp) is None);
                assert(false);
            }
        }
        txn.mark_concept_read(source);
        txn.mark_concept_read(target);
        let ghost m1 = self.transaction_manager;
        let ghost txn0 = txn;
        let new_rel = Relationship::new(source, relationship_type, target);
        let rel_id = new_rel.id;
        txn.stage_relationship_write(new_rel);
        let ghost gtxn = txn;
        match self.transaction_manager.commit_transaction(txn) {
            Ok(_) => {
                proof {
                    let stamp = self.transaction_manager.timestamp_hi();
                    assert(staged_relationship(gtxn, rel_id) is Some);
                    assert(self.relationship_chain(rel_id) == chain_after_commit_r(
                        m1,
                        gtxn,
                        stamp,
                        rel_id,
                    ));
                    assert forall|id: u128|
                        id != rel_id implies #[trigger] self.relationship_chain(id)
                        == m1.relationship_chain(id) by {
                        assert(staged_relationship(gtxn, id) == staged_relationship(txn0, id));
                        assert(staged_relationship(txn0, id) is None);
                        assert(gtxn.pending_deletes@ == txn0.pending_deletes@);
                        assert(!gtxn.pending_deletes@.contains(id));
                    }
                    assert forall|id: u128| #[trigger]
                        self.concept_chain(id) == m1.concept_chain(id) by {
                        assert(staged_concept(gtxn, id) == staged_concept(txn0, id));
                        assert(staged_concept(txn0, id) is None);
                    }
                    assert forall|tid: u128| #[trigger]
                        self.manager().is_active(tid) implies old(self).manager().is_active(
                        tid,
                    ) by {
                        if tid == gtxn.id {
                            assert(!self.manager().is_active(tid));
                        } else {
                            assert(self.manager().active_txn(tid) == m1.active_txn(tid));
                            assert(m1.active_txn(tid) == old(self).manager().active_txn(tid));
                        }
                    }
                }
                Ok(rel_id)
            },
            Err(e) => {
                proof {
                    assert(gtxn.pending_deletes@ == txn0.pending_deletes@);
                    assert(first_missing_delete(m1, gtxn, 0) is None);
                    assert forall|tid: u128| #[trigger]
                        self.manager().is_active(tid) implies old(self).manager().is_active(
                        tid,
                    ) by {
                        if tid == gtxn.id {
                            assert(!self.manager().is_active(tid));
                        } else {
                            assert(self.manager().active_txn(tid) == m1.active_txn(tid));
                            assert(m1.active_txn(tid) == old(self).manager().active_txn(tid));
                        }
                    }
                }
                Err(e)
            },
        }
    }

    /// UNRELATE: assert the relationship has an active version as of the
    /// transaction's start, then tombstone it in one committed transaction;
    /// a failed check aborts the internal transaction.
    pub fn unrelate(&mut self, rel_id: RelationshipId) -> (r: Result<(), MnemonicError>)
        requires
            old(self).wf(),
        ensures
            final(self).wf(),
            forall|id: u128| #[trigger]
                final(self).concept_chain(id) == old(self).concept_chain(id),
            match r {
                Result::Ok(()) => {
                    let chain0 = old(self).relationship_chain(rel_id);
                    let chain1 = final(self).relationship_chain(rel_id);
                    &&& chain0.len() > 0
                    &&& chain1 == chain0.push(chain1.last())
                    &&& chain1.last().relationship_id == rel_id
                    &&& chain1.last().source == chain0.last().source
                    &&& chain1.last().target == chain0.last().target
                    &&& chain1.last().relationship_type == chain0.last().relationship_type
                    &&& chain1.last().version == (chain0.last().version + 1) as u64
                    &&& chain1.last().created_at == final(self).manager().timestamp_hi()
                    &&& chain1.last().created_at > old(self).manager().timestamp_hi()
                    &&& chain1.last().deleted_at == Some(chain1.last().created_at)
                    &&& forall|id: u128|
                        id != rel_id ==> #[trigger] final(self).relationship_chain(id) == old(
                            self,
                        ).relationship_chain(id)
                },
                Result::Err(e) => {
                    &&& forall|id: u128| #[trigger]
                        final(self).relationship_chain(id) == old(self).relationship_chain(id)
                    &&& final(self).manager().store_log() == old(self).manager().store_log()
                    &&& (e matches MnemonicError::RelationshipNotFound(missing) ==> missing
                        == rel_id)
                    &&& (e is RelationshipNotFound || e is Transaction || e is TransactionConflict)
                },
            },
            old(self).relationship_chain(rel_id).len() == 0 ==> r == Result::<
                (),
                MnemonicError,
            >::Err(MnemonicError::RelationshipNotFound(rel_id)),
            (old(self).relationship_chain(rel_id).len() > 0 && old(self).relationship_chain(
                rel_id,
            ).last().deleted_at is Some) ==> r == Result::<(), MnemonicError>::Err(
                MnemonicError::RelationshipNotFound(rel_id),
            ),
            (old(self).relationship_chain(rel_id).len() > 0 && old(self).relationship_chain(
                rel_id,
            ).last().deleted_at is None) ==> !(r matches Result::Err(
                MnemonicError::RelationshipNotFound(_),
            )),
            forall|tid: u128| #[trigger]
                final(self).manager().is_active(tid) ==> old(self).manager().is_active(tid),
            old(self).manager().temporal_wf() ==> final(self).manager().temporal_wf(),
            old(self).manager().dense() ==> final(self).manager().dense(),
    {
        let ghost chain0 = old(self).relationship_chain(rel_id);
        proof {
            if chain0.len() > 0 {
                assert(chain0.last().created_at <= old(self).manager().timestamp_hi());
                assert(chain0.last().deleted_at is Some ==> chain0.last().deleted_at.unwrap()
                    <= old(self).manager().timestamp_hi());
            }
        }
        let mut txn = match self.transaction_manager.begin_transaction(IsolationLevel::Snapshot) {
            Ok(t) => t,
            Err(e) => {
                return Err(e);
            },
        };
        proof {
            assert(self.relationship_chain(rel_id) == chain0);
            assert(txn.start_timestamp >= old(self).manager().timestamp_hi());
        }
        let existing = match self.transaction_manager.read_relationship_as_of(
            &rel_id,
            txn.start_timestamp,
        ) {
            Ok(v) => v,
            Err(e) => {
                return Err(e);
            },
        };
        if existing.is_none() {
            proof {
                if chain0.len() > 0 && chain0.last().deleted_at is None {
                    assert(chain0.last().active_at(txn.start_timestamp));
                    assert(version_at_r(chain0, txn.start_timestamp) == Some(chain0.last()));
                    assert(false);
                }
            }
            let _aborted = self.transaction_manager.abort_transaction(txn.id);
            proof {
                assert forall|tid: u128| #[trigger]
                    self.manager().is_active(tid) implies old(self).manager().is_active(tid) by {
                    if tid == txn.id {
                        assert(!self.manager().is_active(tid));
                    }
                }
            }
            return Err(MnemonicError::RelationshipNotFound(rel_id));
        }
        proof {
            assert(version_at_r(self.relationship_chain(rel_id), txn.start_timestamp) is Some);
            assert(self.relationship_chain(rel_id).len() > 0);
            assert(old(self).relationship_chain(rel_id).len() > 0);
            if chain0.last().deleted_at is Some {
                assert(!chain0.last().active_at(txn.start_timestamp));
                assert(version_at_r(chain0, txn.start_timestamp) is None);
                assert(false);
            }
            assert(chain0.last().deleted_at is None);
        }
        txn.mark_relationship_read(rel_id);
        let ghost m1 = self.transaction_manager;
        let ghost txn0 = txn;
        txn.stage_delete(rel_id);
        let ghost gtxn = txn;
        match self.transaction_manager.commit_transaction(txn) {
            Ok(_) => {
                proof {
                    let stamp = self.transaction_manager.timestamp_hi();
                    assert(staged_relationship(gtxn, rel_id) is None);
                    assert(gtxn.pending_deletes@.contains(rel_id));
                    assert(self.relationship_chain(rel_id) == chain_after_commit_r(
                        m1,
                        gtxn,
                        stamp,
                        rel_id,
                    ));
                    assert forall|id: u128|
                        id != rel_id implies #[trigger] self.relationship_chain(id)
                        == m1.relationship_chain(id) by {
                        assert(staged_relationship(gtxn, id) == staged_relationship(txn0, id));
                        assert(staged_relationship(txn0, id) is None);
                        if gtxn.pending_deletes@.contains(id) {
                            let j = choose|j: int|
                                0 <= j < gtxn.pending_deletes@.len() && gtxn.pending_deletes@[j]
                                    == id;
                            assert(gtxn.pending_deletes@ == txn0.pending_deletes@.push(rel_id));
                            assert(false);
                        }
                    }
                    assert forall|id: u128| #[trigger]
                        self.concept_chain(id) == m1.concept_chain(id) by {
                        assert(staged_concept(gtxn, id) == staged_concept(txn0, id));
                        assert(staged_concept(txn0, id) is None);
                    }
                    assert forall|tid: u128| #[trigger]
                        self.manager().is_active(tid) implies old(self).manager().is_active(
                        tid,
                    ) by {
                        if tid == gtxn.id {
                            assert(!self.manager().is_active(tid));
                        } else {
                            assert(self.manager().active_txn(tid) == m1.active_txn(tid));
                            assert(m1.active_txn(tid) == old(self).manager().active_txn(tid));
                        }
                    }
                }
                Ok(())
            },
            Err(e) => {
                proof {
                    assert(m1.relationship_chain(rel_id) == chain0);
                    assert(gtxn.pending_deletes@ == txn0.pending_deletes@.push(rel_id));
                    assert forall|j: int|
                        0 <= j < gtxn.pending_deletes@.len() implies m1.relationship_chain(
                        #[trigger] gtxn.pending_deletes@[j],
                    ).len() > 0 by {
                        assert(gtxn.pending_deletes@[j] == rel_id);
                    }
                    crate::transaction::lemma_no_missing_found(m1, gtxn, 0);
                    assert(first_missing_delete(m1, gtxn, 0) is None);
                    assert(!(e is RelationshipNotFound));
                    assert forall|tid: u128| #[trigger]
                        self.manager().is_active(tid) implies old(self).manager().is_active(
                        tid,
                    ) by {
                        if tid == gtxn.id {
                            assert(!self.manager().is_active(tid));
                        } else {
                            assert(self.manager().active_txn(tid) == m1.active_txn(tid));
                            assert(m1.active_txn(tid) == old(self).manager().active_txn(tid));
                        }
                    }
                }
                Err(e)
            },
        }
    }

    /// RETRIEVE: every relationship whose newest version is active now and
    /// originates at `source`, as a snapshot of the current state.
    pub fn retrieve_by_source(&self, source_id: ConceptId) -> (r: Result<
        Vec<Relationship>,
        MnemonicError,
    >)
        requires
            self.wf(),
        ensures
            r is Ok,
            exists|now: Timestamp|
                #![trigger retrieve_post_vec(self.manager(), source_id, now, r->Ok_0)]
                retrieve_post_vec(self.manager(), source_id, now, r->Ok_0) && now
                    >= self.manager().timestamp_hi(),
    {
        let now = self.transaction_manager.current_timestamp();
        let version_store = self.transaction_manager.version_store();
        let all_active = match version_store.get_all_active_relationships(now) {
            Ok(v) => v,
            Err(e) => {
                return Err(e);
            },
        };
        let ghost gitems = crate::versioning::vec_rv_view(all_active);
        proof {
            assert forall|id: u128, i: int|
                0 <= i < self.manager().index().relationship_chain(id).len() implies (
            #[trigger] self.manager().index().relationship_chain(id)[i]).relationship_id
                == id by {
                assert(crate::transaction::chain_wf_r(
                    self.manager().relationship_chain(id),
                    id,
                    self.manager().timestamp_hi(),
                ));
            }
            assert(ids_ok_r(self.manager().index()));
            assert(distinct_entity_ids_r(gitems));
        }
        let mut out: Vec<Relationship> = Vec::new();
        let ghost srcidx = Seq::<int>::empty();
        let n = all_active.len();
        let mut i: usize = 0;
        while i < n
            invariant
                i <= n,
                n == gitems.len(),
                gitems == crate::versioning::vec_rv_view(all_active),
                self.wf(),
                sound_active_r(self.manager().index(), now, gitems),
                distinct_entity_ids_r(gitems),
                srcidx.len() == out@.len(),
                forall|k1: int, k2: int|
                    0 <= k1 < k2 < srcidx.len() ==> #[trigger] srcidx[k1] < #[trigger] srcidx[k2],
                forall|k: int|
                    0 <= k < out@.len() ==> 0 <= #[trigger] srcidx[k] < i && gitems[srcidx[k]].source
                        == source_id && out@[k]@ == rel_of_version(gitems[srcidx[k]]),
                forall|j: int|
                    0 <= j < i && (#[trigger] gitems[j]).source == source_id ==> exists|k: int|
                        0 <= k < out@.len() && out@[k]@ == rel_of_version(gitems[j]),
            decreases n - i,
        {
            let ghost out0 = out@;
            let ghost srcidx0 = srcidx;
            let v = &all_active[i];
            proof {
                assert(gitems[i as int] == v@);
            }
            if v.source == source_id {
                let rel = Relationship {
                    id: v.relationship_id,
                    source: v.source,
                    relationship_type: v.relationship_type.clone(),
                    target: v.target,
                    metadata: RelationshipMetadata {
                        created_at: v.created_at,
                        version: v.version,
                        transaction_id: v.created_by,
                    },
                };
                proof {
                    assert(rel@ == rel_of_version(v@));
                }
                out.push(rel);
                proof {
                    srcidx = srcidx0.push(i as int);
                    assert(out@[out@.len() - 1]@ == rel_of_version(gitems[i as int]));
                    assert forall|k1: int, k2: int|
                        0 <= k1 < k2 < srcidx.len() implies #[trigger] srcidx[k1]
                        < #[trigger] srcidx[k2] by {
                        if k2 < srcidx0.len() {
                            assert(srcidx[k1] == srcidx0[k1] && srcidx[k2] == srcidx0[k2]);
                        } else {
                            assert(srcidx[k1] == srcidx0[k1]);
                            assert(srcidx[k2] == i as int);
                        }
                    }
                    assert forall|k: int| 0 <= k < out@.len() implies 0 <= #[trigger] srcidx[k] < i
                        + 1 && gitems[srcidx[k]].source == source_id && out@[k]@ == rel_of_version(
                        gitems[srcidx[k]],
                    ) by {
                        if k < out0.len() {
                            assert(out@[k] == out0[k]);
                            assert(srcidx[k] == srcidx0[k]);
                        } else {
                            assert(srcidx[k] == i as int);
                        }
                    }
                }
            }
            proof {
                assert forall|j: int|
                    0 <= j < i + 1 && (#[trigger] gitems[j]).source == source_id implies exists|
                    k: int,
                |
                    0 <= k < out@.len() && out@[k]@ == rel_of_version(gitems[j]) by {
                    if j < i {
                        let k = choose|k: int|
                            0 <= k < out0.len() && out0[k]@ == rel_of_version(gitems[j]);
                        assert(out@[k] == out0[k]);
                        assert(out@[k]@ == rel_of_version(gitems[j]));
                    } else {
                        assert(out@[out@.len() - 1]@ == rel_of_version(gitems[i as int]));
                    }
                }
            }
            i = i + 1;
        }
        proof {
            let items = out@.map_values(|x: Relationship| x@);
            assert forall|k: int| 0 <= k < items.len() implies #[trigger] retrieve_item_ok(
                self.manager(),
                source_id,
                now,
                items,
                k,
            ) by {
                assert(items[k] == out@[k]@);
                let j = srcidx[k];
                assert(gitems[j].source == source_id && out@[k]@ == rel_of_version(gitems[j]));
                let id = choose|id: u128|
                    {
                        let chain = #[trigger] self.manager().index().relationship_chain(id);
                        chain.len() > 0 && chain.last().active_at(now) && gitems[j]
                            == chain.last()
                    };
                assert(self.manager().relationship_chain(id).len() > 0
                    && self.manager().relationship_chain(id).last().active_at(now)
                    && self.manager().relationship_chain(id).last().source == source_id && items[k]
                    == rel_of_version(self.manager().relationship_chain(id).last()));
            }
            assert forall|id: u128|
                ((#[trigger] self.manager().relationship_chain(id)).len() > 0
                    && self.manager().relationship_chain(id).last().active_at(now)
                    && self.manager().relationship_chain(id).last().source == source_id) implies
                exists|k: int|
                0 <= k < items.len() && items[k] == rel_of_version(
                    self.manager().relationship_chain(id).last(),
                ) by {
                let j = choose|j: int|
                    0 <= j < gitems.len() && gitems[j] == self.manager().index().relationship_chain(
                        id,
                    ).last();
                assert(gitems[j].source == source_id);
                let k = choose|k: int|
                    0 <= k < out@.len() && out@[k]@ == rel_of_version(gitems[j]);
                assert(items[k] == out@[k]@);
                assert(items[k] == rel_of_version(self.manager().relationship_chain(id).last()));
            }
            assert forall|k1: int, k2: int|
                0 <= k1 < k2 < items.len() implies (#[trigger] items[k1]).id != (
            #[trigger] items[k2]).id by {
                assert(items[k1] == out@[k1]@);
                assert(items[k2] == out@[k2]@);
                let j1 = srcidx[k1];
                let j2 = srcidx[k2];
                assert(j1 < j2);
                assert(items[k1].id == gitems[j1].relationship_id);
                assert(items[k2].id == gitems[j2].relationship_id);
                assert(gitems[j1].relationship_id != gitems[j2].relationship_id);
            }
            assert(retrieve_post_vec(self.manager(), source_id, now, out));
        }
        let result: Result<Vec<Relationship>, MnemonicError> = Ok(out);
        proof {
            assert(retrieve_post_vec(self.manager(), source_id, now, result->Ok_0));
        }
        result
    }

    /// Begin a transaction through the facade.
    pub fn begin_transaction(&mut self, isolation_level: IsolationLevel) -> (r: Result<
        Transaction,
        MnemonicError,
    >)
        requires
            old(self).wf(),
        ensures
            final(self).wf(),
            r is Ok,
            (r->Ok_0).wf(),
            (r->Ok_0).start_timestamp == final(self).manager().timestamp_hi(),
            (r->Ok_0).isolation_level == isolation_level,
            (r->Ok_0).read_set@ == Seq::<u128>::empty(),
            (r->Ok_0).relationship_read_set@ == Seq::<u128>::empty(),
            (r->Ok_0).write_set@ == Seq::<u128>::empty(),
            (r->Ok_0).relationship_write_set@ == Seq::<u128>::empty(),
            (r->Ok_0).pending_writes@ == Seq::<(u128, Concept)>::empty(),
            (r->Ok_0).pending_relationship_writes@ == Seq::<(u128, Relationship)>::empty(),
            (r->Ok_0).pending_deletes@ == Seq::<u128>::empty(),
            final(self).manager().is_active((r->Ok_0).id),
            forall|id: u128| #[trigger]
                final(self).concept_chain(id) == old(self).concept_chain(id),
            forall|id: u128| #[trigger]
                final(self).relationship_chain(id) == old(self).relationship_chain(id),
            final(self).manager().store_log() == old(self).manager().store_log(),
            old(self).manager().temporal_wf() ==> final(self).manager().temporal_wf(),
            old(self).manager().dense() ==> final(self).manager().dense(),
    {
        self.transaction_manager.begin_transaction(isolation_level)
    }

    /// Commit a transaction through the facade.
    pub fn commit_transaction(&mut self, transaction: Transaction) -> (r: Result<
        Vec<(Vec<u8>, Vec<u8>)>,
        MnemonicError,
    >)
        requires
            old(self).wf(),
            transaction.wf(),
        ensures
            final(self).wf(),
            match r {
                Result::Err(e) => {
                    &&& commit_error(old(self).manager(), transaction) == Some(e)
                    &&& forall|id: u128| #[trigger]
                        final(self).concept_chain(id) == old(self).concept_chain(id)
                    &&& forall|id: u128| #[trigger]
                        final(self).relationship_chain(id) == old(self).relationship_chain(id)
                    &&& final(self).manager().store_log() == old(self).manager().store_log()
                    &&& final(self).manager().timestamp_hi() == old(self).manager().timestamp_hi()
                    &&& !final(self).manager().is_active(transaction.id)
                    &&& forall|tid: u128|
                        tid != transaction.id ==> #[trigger] final(self).manager().active_txn(tid)
                            == old(self).manager().active_txn(tid)
                },
                Result::Ok(ops) => {
                    &&& commit_error(old(self).manager(), transaction) is None
                    &&& final(self).manager().timestamp_hi() > old(self).manager().timestamp_hi()
                    &&& final(self).manager().store_log() == old(self).manager().store_log()
                        + entries_view(ops@)
                    &&& forall|id: u128| #[trigger]
                        final(self).concept_chain(id) == chain_after_commit_c(
                            old(self).manager(),
                            transaction,
                            final(self).manager().timestamp_hi(),
                            id,
                        )
                    &&& forall|id: u128| #[trigger]
                        final(self).relationship_chain(id) == chain_after_commit_r(
                            old(self).manager(),
                            transaction,
                            final(self).manager().timestamp_hi(),
                            id,
                        )
                },
            },
            old(self).manager().temporal_wf() ==> final(self).manager().temporal_wf(),
            old(self).manager().dense() ==> final(self).manager().dense(),
    {
        self.transaction_manager.commit_transaction(transaction)
    }

    /// Abort a transaction through the facade: no version record is written
    /// and no read changes.
    pub fn abort_transaction(&mut self, transaction_id: u128) -> (r: Result<(), MnemonicError>)
        requires
            old(self).wf(),
        ensures
            final(self).wf(),
            forall|id: u128| #[trigger]
                final(self).concept_chain(id) == old(self).concept_chain(id),
            forall|id: u128| #[trigger]
                final(self).relationship_chain(id) == old(self).relationship_chain(id),
            final(self).manager().store_log() == old(self).manager().store_log(),
            r is Ok <==> old(self).manager().is_active(transaction_id),
            old(self).manager().temporal_wf() ==> final(self).manager().temporal_wf(),
            old(self).manager().dense() ==> final(self).manager().dense(),
    {
        self.transaction_manager.abort_transaction(transaction_id)
    }
}

} // verus!
