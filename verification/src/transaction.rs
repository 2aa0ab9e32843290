//! Transactions and the Transaction Manager: begin, validate, commit and
//! abort under snapshot isolation with a first-committer-wins policy, and
//! hydration of the Version Index from the durable log.

use vstd::prelude::*;

use crate::assoc::{assoc_get, distinct_keys, lemma_assoc_get_absent, lemma_assoc_get_index,
    lemma_assoc_push, lemma_assoc_remove, lemma_assoc_update};
use crate::codec::{encode_concept_version, encode_relationship_version, decode_version_record,
    spec_decode_record, spec_encode_cv, spec_encode_rv, VersionRecord, VersionRecordV};
use crate::ext::fresh_id;
use crate::keys::{concept_version_key, relationship_version_key, spec_concept_version_key,
    spec_relationship_version_key};
use crate::store::{entries_view, DurableStore};
use crate::types::{current_clock, Concept, ConceptId, ConceptVersion, ConceptVersionV,
    MnemonicError, Relationship, RelationshipId, RelationshipVersion, RelationshipVersionV,
    Timestamp, TransactionId};
use crate::versioning::{concept_modified_since, insert_by_version_c, insert_by_version_r,
    last_mod_c, last_mod_r, relationship_modified_since, time_sorted_c, time_sorted_r,
    VersionStore};

verus! {

/// How far a transaction is isolated from concurrent ones.  Only snapshot
/// isolation is defined.
#[derive(Clone, Copy, PartialEq, Eq, Structural, Debug)]
pub enum IsolationLevel {
    Snapshot,
}

/// A transaction: a per-session workspace of pending changes, applied
/// atomically at commit.
pub struct Transaction {
    pub id: TransactionId,
    /// The instant this transaction started; drives snapshot reads and
    /// conflict checks.
    pub start_timestamp: Timestamp,
    pub isolation_level: IsolationLevel,
    /// Concept ids read by the caller.
    pub read_set: Vec<ConceptId>,
    /// Relationship ids read by the caller.
    pub relationship_read_set: Vec<RelationshipId>,
    /// Concept ids scheduled for write.
    pub write_set: Vec<ConceptId>,
    /// Relationship ids scheduled for write or delete.
    pub relationship_write_set: Vec<RelationshipId>,
    /// Full concept values to install, keyed by id.
    pub pending_writes: Vec<(ConceptId, Concept)>,
    /// Full relationship values to install, keyed by id.
    pub pending_relationship_writes: Vec<(RelationshipId, Relationship)>,
    /// Relationship ids to tombstone.
    pub pending_deletes: Vec<RelationshipId>,
}

/// The concept value a transaction has staged for an id, if any.
pub open spec fn staged_concept(t: Transaction, id: u128) -> Option<Concept> {
    assoc_get(t.pending_writes@, id)
}

/// The relationship value a transaction has staged for an id, if any.
pub open spec fn staged_relationship(t: Transaction, id: u128) -> Option<Relationship> {
    assoc_get(t.pending_relationship_writes@, id)
}

impl Transaction {
    /// Internal consistency: pending changes are keyed uniquely and every
    /// pending id is scheduled in the corresponding write set; an id is not
    /// both written and deleted.
    pub open spec fn wf(self) -> bool {
        &&& distinct_keys(self.pending_writes@)
        &&& distinct_keys(self.pending_relationship_writes@)
        &&& forall|i: int|
            0 <= i < self.pending_writes@.len() ==> self.write_set@.contains(
                (#[trigger] self.pending_writes@[i]).0,
            )
        &&& forall|i: int|
            0 <= i < self.pending_relationship_writes@.len()
                ==> self.relationship_write_set@.contains(
                (#[trigger] self.pending_relationship_writes@[i]).0,
            )
        &&& forall|i: int|
            0 <= i < self.pending_deletes@.len() ==> self.relationship_write_set@.contains(
                #[trigger] self.pending_deletes@[i],
            )
        &&& forall|i: int, j: int|
            0 <= i < self.pending_deletes@.len() && 0 <= j < self.pending_deletes@.len() && i != j
                ==> self.pending_deletes@[i] != self.pending_deletes@[j]
        &&& forall|i: int|
            0 <= i < self.pending_deletes@.len() ==> staged_relationship(
                self,
                #[trigger] self.pending_deletes@[i],
            ) is None
    }

    /// A fresh, empty transaction stamped with the current instant.
    pub fn new(isolation_level: IsolationLevel) -> (r: Self)
        ensures
            r.wf(),
            r.read_set@ == Seq::<u128>::empty(),
            r.relationship_read_set@ == Seq::<u128>::empty(),
            r.write_set@ == Seq::<u128>::empty(),
            r.relationship_write_set@ == Seq::<u128>::empty(),
            r.pending_writes@ == Seq::<(u128, Concept)>::empty(),
            r.pending_relationship_writes@ == Seq::<(u128, Relationship)>::empty(),
            r.pending_deletes@ == Seq::<u128>::empty(),
    {
        Transaction {
            id: fresh_id(),
            start_timestamp: current_clock(),
            isolation_level,
            read_set: Vec::new(),
            relationship_read_set: Vec::new(),
            write_set: Vec::new(),
            relationship_write_set: Vec::new(),
            pending_writes: Vec::new(),
            pending_relationship_writes: Vec::new(),
            pending_deletes: Vec::new(),
        }
    }

    /// Schedule a concept value for write, replacing any earlier staging of
    /// the same id.
    pub fn stage_concept_write(&mut self, concept: Concept)
        requires
            old(self).wf(),
        ensures
            final(self).wf(),
            staged_concept(*final(self), concept.id) == Some(concept),
            forall|id: u128|
                id != concept.id ==> #[trigger] staged_concept(*final(self), id) == staged_concept(
                    *old(self),
                    id,
                ),
            final(self).write_set@.contains(concept.id),
            forall|id: u128| #[trigger]
                old(self).write_set@.contains(id) ==> final(self).write_set@.contains(id),
            final(self).id == old(self).id,
            final(self).start_timestamp == old(self).start_timestamp,
            final(self).pending_relationship_writes == old(self).pending_relationship_writes,
            final(self).pending_deletes == old(self).pending_deletes,
            final(self).relationship_write_set == old(self).relationship_write_set,
    {
        let cid = concept.id;
        let ghost oldpairs = self.pending_writes@;
        let ghost oldws = self.write_set@;
        if !contains_id(&self.write_set, cid) {
            self.write_set.push(cid);
            proof {
                assert(self.write_set@[self.write_set@.len() - 1] == cid);
            }
        }
        proof {
            assert(self.write_set@.contains(cid));
            assert forall|id: u128| #[trigger] oldws.contains(id) implies self.write_set@.contains(
                id,
            ) by {
                let j = choose|j: int| 0 <= j < oldws.len() && oldws[j] == id;
                assert(self.write_set@[j] == id);
            }
        }
        match find_concept_key(&self.pending_writes, cid) {
            Some(i) => {
                let mut pair = self.pending_writes.remove(i);
                pair.1 = concept;
                self.pending_writes.insert(i, pair);
                proof {
                    assert(self.pending_writes@ =~= oldpairs.update(
                        i as int,
                        (cid, self.pending_writes@[i as int].1),
                    ));
                    lemma_assoc_update(oldpairs, i as int, self.pending_writes@[i as int].1);
                    assert forall|j: int| 0 <= j < self.pending_writes@.len() implies
                        self.write_set@.contains(
                        (#[trigger] self.pending_writes@[j]).0,
                    ) by {
                        if j != i as int {
                            assert(self.pending_writes@[j] == oldpairs[j]);
                        }
                    }
                }
            },
            None => {
                self.pending_writes.push((cid, concept));
                proof {
                    lemma_assoc_push(oldpairs, cid, self.pending_writes@.last().1);
                    assert(self.pending_writes@ =~= oldpairs.push(
                        (cid, self.pending_writes@.last().1),
                    ));
                    assert forall|j: int| 0 <= j < self.pending_writes@.len() implies
                        self.write_set@.contains(
                        (#[trigger] self.pending_writes@[j]).0,
                    ) by {
                        if j < oldpairs.len() {
                            assert(self.pending_writes@[j] == oldpairs[j]);
                        }
                    }
                }
            },
        }
    }

    /// Schedule a relationship value for write, replacing any earlier
    /// staging of the same id.
    pub fn stage_relationship_write(&mut self, relationship: Relationship)
        requires
            old(self).wf(),
            !old(self).pending_deletes@.contains(relationship.id),
        ensures
            final(self).wf(),
            staged_relationship(*final(self), relationship.id) == Some(relationship),
            forall|id: u128|
                id != relationship.id ==> #[trigger] staged_relationship(*final(self), id)
                    == staged_relationship(*old(self), id),
            final(self).relationship_write_set@.contains(relationship.id),
            forall|id: u128| #[trigger]
                old(self).relationship_write_set@.contains(id) ==> final(self).relationship_write_set@.contains(id),
            final(self).id == old(self).id,
            final(self).start_timestamp == old(self).start_timestamp,
            final(self).pending_writes == old(self).pending_writes,
            final(self).pending_deletes == old(self).pending_deletes,
            final(self).write_set == old(self).write_set,
    {
        let rid = relationship.id;
        let ghost oldpairs = self.pending_relationship_writes@;
        let ghost oldws = self.relationship_write_set@;
        if !contains_id(&self.relationship_write_set, rid) {
            self.relationship_write_set.push(rid);
            proof {
                assert(self.relationship_write_set@[self.relationship_write_set@.len() - 1] == rid);
            }
        }
        proof {
            assert(self.relationship_write_set@.contains(rid));
            assert forall|id: u128| #[trigger] oldws.contains(id) implies
                self.relationship_write_set@.contains(id) by {
                let j = choose|j: int| 0 <= j < oldws.len() && oldws[j] == id;
                assert(self.relationship_write_set@[j] == id);
            }
        }
        match find_relationship_key(&self.pending_relationship_writes, rid) {
            Some(i) => {
                let mut pair = self.pending_relationship_writes.remove(i);
                pair.1 = relationship;
                self.pending_relationship_writes.insert(i, pair);
                proof {
                    assert(self.pending_relationship_writes@ =~= oldpairs.update(
                        i as int,
                        (rid, self.pending_relationship_writes@[i as int].1),
                    ));
                    lemma_assoc_update(
                        oldpairs,
                        i as int,
                        self.pending_relationship_writes@[i as int].1,
                    );
                    assert forall|j: int| 0 <= j < self.pending_relationship_writes@.len() implies
                        self.relationship_write_set@.contains(
                        (#[trigger] self.pending_relationship_writes@[j]).0,
                    ) by {
                        if j != i as int {
                            assert(self.pending_relationship_writes@[j] == oldpairs[j]);
                        }
                    }
                }
            },
            None => {
                self.pending_relationship_writes.push((rid, relationship));
                proof {
                    lemma_assoc_push(oldpairs, rid, self.pending_relationship_writes@.last().1);
                    assert(self.pending_relationship_writes@ =~= oldpairs.push(
                        (rid, self.pending_relationship_writes@.last().1),
                    ));
                    assert forall|j: int| 0 <= j < self.pending_relationship_writes@.len() implies
                        self.relationship_write_set@.contains(
                        (#[trigger] self.pending_relationship_writes@[j]).0,
                    ) by {
                        if j < oldpairs.len() {
                            assert(self.pending_relationship_writes@[j] == oldpairs[j]);
                        }
                    }
                }
            },
        }
    }

    /// Schedule a relationship for logical deletion.
    pub fn stage_delete(&mut self, relationship_id: RelationshipId)
        requires
            old(self).wf(),
            staged_relationship(*old(self), relationship_id) is None,
        ensures
            final(self).wf(),
            final(self).pending_deletes@.contains(relationship_id),
            final(self).pending_deletes@ == old(self).pending_deletes@ || final(self).pending_deletes@ == old(self).pending_deletes@.push(relationship_id),
            forall|id: u128| #[trigger]
                old(self).pending_deletes@.contains(id) ==> final(self).pending_deletes@.contains(
                    id,
                ),
            final(self).relationship_write_set@.contains(relationship_id),
            forall|id: u128| #[trigger]
                old(self).relationship_write_set@.contains(id) ==> final(self).relationship_write_set@.contains(id),
            final(self).id == old(self).id,
            final(self).start_timestamp == old(self).start_timestamp,
            final(self).pending_writes == old(self).pending_writes,
            final(self).pending_relationship_writes == old(self).pending_relationship_writes,
            final(self).write_set == old(self).write_set,
    {
        let ghost oldws = self.relationship_write_set@;
        let ghost olddel = self.pending_deletes@;
        if !contains_id(&self.relationship_write_set, relationship_id) {
            self.relationship_write_set.push(relationship_id);
            proof {
                assert(self.relationship_write_set@[self.relationship_write_set@.len() - 1] == relationship_id);
            }
        }
        proof {
            assert(self.relationship_write_set@.contains(relationship_id));
            assert forall|id: u128| #[trigger] oldws.contains(id) implies
                self.relationship_write_set@.contains(id) by {
                let j = choose|j: int| 0 <= j < oldws.len() && oldws[j] == id;
                assert(self.relationship_write_set@[j] == id);
            }
        }
        if !contains_id(&self.pending_deletes, relationship_id) {
            self.pending_deletes.push(relationship_id);
            proof {
                assert(self.pending_deletes@[self.pending_deletes@.len() - 1] == relationship_id);
            }
        }
        proof {
            assert(self.pending_deletes@.contains(relationship_id));
            assert forall|id: u128| #[trigger] olddel.contains(id) implies
                self.pending_deletes@.contains(id) by {
                let j = choose|j: int| 0 <= j < olddel.len() && olddel[j] == id;
                assert(self.pending_deletes@[j] == id);
            }
            assert forall|i: int| 0 <= i < self.pending_deletes@.len() implies
                self.relationship_write_set@.contains(#[trigger] self.pending_deletes@[i]) by {
                if i < olddel.len() {
                    assert(olddel.contains(olddel[i]));
                }
            }
        }
    }

    /// Record that a relationship was read.
    pub fn mark_relationship_read(&mut self, id: RelationshipId)
        requires
            old(self).wf(),
        ensures
            final(self).wf(),
            final(self).relationship_read_set@.contains(id),
            final(self).id == old(self).id,
            final(self).start_timestamp == old(self).start_timestamp,
            final(self).write_set == old(self).write_set,
            final(self).relationship_write_set == old(self).relationship_write_set,
            final(self).pending_writes == old(self).pending_writes,
            final(self).pending_relationship_writes == old(self).pending_relationship_writes,
            final(self).pending_deletes == old(self).pending_deletes,
    {
        if !contains_id(&self.relationship_read_set, id) {
            self.relationship_read_set.push(id);
            proof {
                assert(self.relationship_read_set@[self.relationship_read_set@.len() - 1] == id);
            }
        }
    }

    /// Record that a concept was read.
    pub fn mark_concept_read(&mut self, id: ConceptId)
        requires
            old(self).wf(),
        ensures
            final(self).wf(),
            final(self).read_set@.contains(id),
            final(self).id == old(self).id,
            final(self).start_timestamp == old(self).start_timestamp,
            final(self).write_set == old(self).write_set,
            final(self).relationship_write_set == old(self).relationship_write_set,
            final(self).pending_writes == old(self).pending_writes,
            final(self).pending_relationship_writes == old(self).pending_relationship_writes,
            final(self).pending_deletes == old(self).pending_deletes,
    {
        if !contains_id(&self.read_set, id) {
            self.read_set.push(id);
            proof {
                assert(self.read_set@[self.read_set@.len() - 1] == id);
            }
        }
    }
}

/// Index of the first pair carrying `key`, if any.
fn find_concept_key(v: &Vec<(u128, Concept)>, key: u128) -> (r: Option<usize>)
    ensures
        match r {
            Option::Some(i) => i < v@.len() && v@[i as int].0 == key,
            Option::None => forall|j: int| 0 <= j < v@.len() ==> (#[trigger] v@[j]).0 != key,
        },
{
    let n = v.len();
    let mut i: usize = 0;
    while i < n
        invariant
            i <= n,
            n == v@.len(),
            forall|j: int| 0 <= j < i ==> (#[trigger] v@[j]).0 != key,
        decreases n - i,
    {
        if v[i].0 == key {
            return Some(i);
        }
        i = i + 1;
    }
    None
}

/// Index of the first pair carrying `key`, if any.
fn find_relationship_key(v: &Vec<(u128, Relationship)>, key: u128) -> (r: Option<usize>)
    ensures
        match r {
            Option::Some(i) => i < v@.len() && v@[i as int].0 == key,
            Option::None => forall|j: int| 0 <= j < v@.len() ==> (#[trigger] v@[j]).0 != key,
        },
{
    let n = v.len();
    let mut i: usize = 0;
    while i < n
        invariant
            i <= n,
            n == v@.len(),
            forall|j: int| 0 <= j < i ==> (#[trigger] v@[j]).0 != key,
        decreases n - i,
    {
        if v[i].0 == key {
            return Some(i);
        }
        i = i + 1;
    }
    None
}

/// Whether a vector of ids holds the given id.
pub fn contains_id(v: &Vec<u128>, x: u128) -> (r: bool)
    ensures
        r == v@.contains(x),
{
    let n = v.len();
    let mut i: usize = 0;
    while i < n
        invariant
            i <= n,
            n == v@.len(),
            forall|j: int| 0 <= j < i ==> v@[j] != x,
        decreases n - i,
    {
        if v[i] == x {
            return true;
        }
        i = i + 1;
    }
    false
}

/// The durable log replayed into one concept's chain: every decoded concept
/// record filed under `id`, spliced in ascending version order.
pub open spec fn replay_concepts(log: Seq<(Seq<u8>, Seq<u8>)>, id: u128) -> Seq<ConceptVersionV>
    decreases log.len(),
{
    if log.len() == 0 {
        Seq::empty()
    } else {
        let rest = replay_concepts(log.drop_last(), id);
        match spec_decode_record(log.last().1) {
            Option::Some(VersionRecordV::Concept(v)) => if v.concept_id == id {
                insert_by_version_c(rest, v)
            } else {
                rest
            },
            _ => rest,
        }
    }
}

/// The durable log replayed into one relationship's chain.
pub open spec fn replay_relationships(log: Seq<(Seq<u8>, Seq<u8>)>, id: u128) -> Seq<
    RelationshipVersionV,
>
    decreases log.len(),
{
    if log.len() == 0 {
        Seq::empty()
    } else {
        let rest = replay_relationships(log.drop_last(), id);
        match spec_decode_record(log.last().1) {
            Option::Some(VersionRecordV::Relationship(v)) => if v.relationship_id == id {
                insert_by_version_r(rest, v)
            } else {
                rest
            },
            _ => rest,
        }
    }
}

/// Every value in the log is a canonical record encoding.
pub open spec fn log_decodes(log: Seq<(Seq<u8>, Seq<u8>)>) -> bool {
    forall|i: int| 0 <= i < log.len() ==> spec_decode_record((#[trigger] log[i]).1) is Some
}

/// Records are filed under their own id.
pub open spec fn chain_ids_ok_c(chain: Seq<ConceptVersionV>, id: u128) -> bool {
    forall|i: int| 0 <= i < chain.len() ==> (#[trigger] chain[i]).concept_id == id
}

pub open spec fn chain_ids_ok_r(chain: Seq<RelationshipVersionV>, id: u128) -> bool {
    forall|i: int| 0 <= i < chain.len() ==> (#[trigger] chain[i]).relationship_id == id
}

/// Version numbers never decrease along a chain.
pub open spec fn chain_version_sorted_c(chain: Seq<ConceptVersionV>) -> bool {
    forall|i: int, j: int|
        0 <= i <= j < chain.len() ==> (#[trigger] chain[i]).version <= (#[trigger] chain[j]).version
}

pub open spec fn chain_version_sorted_r(chain: Seq<RelationshipVersionV>) -> bool {
    forall|i: int, j: int|
        0 <= i <= j < chain.len() ==> (#[trigger] chain[i]).version <= (#[trigger] chain[j]).version
}

/// All instants in the chain lie at or before `hi`.
pub open spec fn chain_times_bounded_c(chain: Seq<ConceptVersionV>, hi: Timestamp) -> bool {
    forall|i: int|
        0 <= i < chain.len() ==> (#[trigger] chain[i]).created_at <= hi && (chain[i].deleted_at
            is Some ==> chain[i].deleted_at.unwrap() <= hi)
}

pub open spec fn chain_times_bounded_r(chain: Seq<RelationshipVersionV>, hi: Timestamp) -> bool {
    forall|i: int|
        0 <= i < chain.len() ==> (#[trigger] chain[i]).created_at <= hi && (chain[i].deleted_at
            is Some ==> chain[i].deleted_at.unwrap() <= hi)
}

pub open spec fn chain_wf_c(chain: Seq<ConceptVersionV>, id: u128, hi: Timestamp) -> bool {
    chain_ids_ok_c(chain, id) && chain_version_sorted_c(chain) && chain_times_bounded_c(chain, hi)
}

pub open spec fn chain_wf_r(chain: Seq<RelationshipVersionV>, id: u128, hi: Timestamp) -> bool {
    chain_ids_ok_r(chain, id) && chain_version_sorted_r(chain) && chain_times_bounded_r(chain, hi)
}

/// Splicing a record whose times fit under `hi2 >= hi` keeps a chain well
/// formed, and introduces no version number above the larger of the record's
/// and the old last one's.
proof fn lemma_insert_wf_c(chain: Seq<ConceptVersionV>, v: ConceptVersionV, id: u128, hi: Timestamp, hi2: Timestamp)
    requires
        chain_wf_c(chain, id, hi),
        v.concept_id == id,
        hi <= hi2,
        v.created_at <= hi2,
        v.deleted_at is Some ==> v.deleted_at.unwrap() <= hi2,
    ensures
        chain_wf_c(insert_by_version_c(chain, v), id, hi2),
        insert_by_version_c(chain, v).len() == chain.len() + 1,
        forall|k: int|
            0 <= k < insert_by_version_c(chain, v).len() ==> (#[trigger] insert_by_version_c(
                chain,
                v,
            )[k]).version <= v.version || (chain.len() > 0 && insert_by_version_c(chain, v)[k].version
                <= chain.last().version),
    decreases chain.len(),
{
    let result = insert_by_version_c(chain, v);
    if chain.len() == 0 {
    } else if chain.last().version <= v.version {
        assert forall|i: int, j: int| 0 <= i <= j < result.len() implies (
        #[trigger] result[i]).version <= (#[trigger] result[j]).version by {
            if j < chain.len() {
                assert(chain[i].version <= chain[j].version);
            } else if i < chain.len() {
                assert(chain[i].version <= chain.last().version);
            }
        }
    } else {
        let prefix = chain.drop_last();
        lemma_insert_wf_c(prefix, v, id, hi, hi2);
        let inner = insert_by_version_c(prefix, v);
        assert forall|i: int, j: int| 0 <= i <= j < result.len() implies (
        #[trigger] result[i]).version <= (#[trigger] result[j]).version by {
            if j < inner.len() {
                assert(inner[i].version <= inner[j].version);
            } else if i < inner.len() {
                assert(inner[i].version <= v.version || (prefix.len() > 0 && inner[i].version
                    <= prefix.last().version));
                if prefix.len() > 0 {
                    assert(prefix.last() == chain[chain.len() - 2]);
                    assert(chain[chain.len() - 2].version <= chain.last().version);
                }
            }
        }
    }
}

proof fn lemma_insert_wf_r(chain: Seq<RelationshipVersionV>, v: RelationshipVersionV, id: u128, hi: Timestamp, hi2: Timestamp)
    requires
        chain_wf_r(chain, id, hi),
        v.relationship_id == id,
        hi <= hi2,
        v.created_at <= hi2,
        v.deleted_at is Some ==> v.deleted_at.unwrap() <= hi2,
    ensures
        chain_wf_r(insert_by_version_r(chain, v), id, hi2),
        insert_by_version_r(chain, v).len() == chain.len() + 1,
        forall|k: int|
            0 <= k < insert_by_version_r(chain, v).len() ==> (#[trigger] insert_by_version_r(
                chain,
                v,
            )[k]).version <= v.version || (chain.len() > 0 && insert_by_version_r(chain, v)[k].version
                <= chain.last().version),
    decreases chain.len(),
{
    let result = insert_by_version_r(chain, v);
    if chain.len() == 0 {
    } else if chain.last().version <= v.version {
        assert forall|i: int, j: int| 0 <= i <= j < result.len() implies (
        #[trigger] result[i]).version <= (#[trigger] result[j]).version by {
            if j < chain.len() {
                assert(chain[i].version <= chain[j].version);
            } else if i < chain.len() {
                assert(chain[i].version <= chain.last().version);
            }
        }
    } else {
        let prefix = chain.drop_last();
        lemma_insert_wf_r(prefix, v, id, hi, hi2);
        let inner = insert_by_version_r(prefix, v);
        assert forall|i: int, j: int| 0 <= i <= j < result.len() implies (
        #[trigger] result[i]).version <= (#[trigger] result[j]).version by {
            if j < inner.len() {
                assert(inner[i].version <= inner[j].version);
            } else if i < inner.len() {
                assert(inner[i].version <= v.version || (prefix.len() > 0 && inner[i].version
                    <= prefix.last().version));
                if prefix.len() > 0 {
                    assert(prefix.last() == chain[chain.len() - 2]);
                    assert(chain[chain.len() - 2].version <= chain.last().version);
                }
            }
        }
    }
}

/// Operations that leave every chain and the log as they were, and never
/// lower the watermark, keep the per-chain well-formedness, the replay
/// correspondence, and the temporal and density laws.
proof fn lemma_chains_preserved(m1: TransactionManager, m2: TransactionManager)
    requires
        m1.wf(),
        forall|id: u128| #[trigger] m2.concept_chain(id) == m1.concept_chain(id),
        forall|id: u128| #[trigger] m2.relationship_chain(id) == m1.relationship_chain(id),
        m2.timestamp_hi() >= m1.timestamp_hi(),
        m2.store_log() == m1.store_log(),
    ensures
        forall|id: u128| chain_wf_c(#[trigger] m2.concept_chain(id), id, m2.timestamp_hi()),
        forall|id: u128| chain_wf_r(#[trigger] m2.relationship_chain(id), id, m2.timestamp_hi()),
        forall|id: u128|
            replay_concepts(m2.store_log(), id) == #[trigger] m2.concept_chain(id),
        forall|id: u128|
            replay_relationships(m2.store_log(), id) == #[trigger] m2.relationship_chain(id),
        log_decodes(m2.store_log()),
        m1.temporal_wf() ==> m2.temporal_wf(),
        m1.dense() ==> m2.dense(),
{
    assert forall|id: u128| chain_wf_c(#[trigger] m2.concept_chain(id), id, m2.timestamp_hi()) by {
        assert(chain_wf_c(m1.concept_chain(id), id, m1.timestamp_hi()));
        let chain = m2.concept_chain(id);
        assert forall|i: int|
            0 <= i < chain.len() implies (#[trigger] chain[i]).created_at <= m2.timestamp_hi() && (
            chain[i].deleted_at is Some ==> chain[i].deleted_at.unwrap() <= m2.timestamp_hi()) by {
            assert(m1.concept_chain(id)[i] == chain[i]);
        }
    }
    assert forall|id: u128| chain_wf_r(#[trigger] m2.relationship_chain(id), id, m2.timestamp_hi())
        by {
        assert(chain_wf_r(m1.relationship_chain(id), id, m1.timestamp_hi()));
        let chain = m2.relationship_chain(id);
        assert forall|i: int|
            0 <= i < chain.len() implies (#[trigger] chain[i]).created_at <= m2.timestamp_hi() && (
            chain[i].deleted_at is Some ==> chain[i].deleted_at.unwrap() <= m2.timestamp_hi()) by {
            assert(m1.relationship_chain(id)[i] == chain[i]);
        }
    }
    assert forall|id: u128|
        replay_concepts(m2.store_log(), id) == #[trigger] m2.concept_chain(id) by {
        assert(replay_concepts(m1.store_log(), id) == m1.concept_chain(id));
    }
    assert forall|id: u128|
        replay_relationships(m2.store_log(), id) == #[trigger] m2.relationship_chain(id) by {
        assert(replay_relationships(m1.store_log(), id) == m1.relationship_chain(id));
    }
    if m1.temporal_wf() {
        assert forall|id: u128| time_sorted_c(#[trigger] m2.concept_chain(id)) by {
            assert(time_sorted_c(m1.concept_chain(id)));
        }
        assert forall|id: u128| time_sorted_r(#[trigger] m2.relationship_chain(id)) by {
            assert(time_sorted_r(m1.relationship_chain(id)));
        }
    }
    if m1.dense() {
        assert forall|id: u128, i: int|
            0 <= i < m2.concept_chain(id).len() implies (#[trigger] m2.concept_chain(
            id,
        )[i]).version == i + 1 by {
            assert(m1.concept_chain(id)[i] == m2.concept_chain(id)[i]);
        }
        assert forall|id: u128, i: int|
            0 <= i < m2.relationship_chain(id).len() implies (#[trigger] m2.relationship_chain(
            id,
        )[i]).version == i + 1 by {
            assert(m1.relationship_chain(id)[i] == m2.relationship_chain(id)[i]);
        }
    }
}

/// The Transaction Manager: owns the Version Index, the durable log and the
/// set of active transactions; begins, validates, commits and aborts
/// transactions.
pub struct TransactionManager {
    version_store: VersionStore,
    store: DurableStore,
    active_transactions: Vec<(TransactionId, Transaction)>,
    ts_hi: Timestamp,
}

impl TransactionManager {
    /// The in-memory Version Index.
    pub closed spec fn index(self) -> VersionStore {
        self.version_store
    }

    /// The durable log of version records.
    pub closed spec fn store_log(self) -> Seq<(Seq<u8>, Seq<u8>)> {
        self.store.log()
    }

    /// The registered active transactions, keyed by id.
    pub closed spec fn active(self) -> Seq<(u128, Transaction)> {
        self.active_transactions@
    }

    /// The highest instant ever issued by this manager.
    pub closed spec fn timestamp_hi(self) -> Timestamp {
        self.ts_hi
    }

    pub open spec fn concept_chain(self, id: u128) -> Seq<ConceptVersionV> {
        self.index().concept_chain(id)
    }

    pub open spec fn relationship_chain(self, id: u128) -> Seq<RelationshipVersionV> {
        self.index().relationship_chain(id)
    }

    /// The registered copy of an active transaction.
    pub open spec fn active_txn(self, tid: u128) -> Option<Transaction> {
        assoc_get(self.active(), tid)
    }

    pub open spec fn is_active(self, tid: u128) -> bool {
        self.active_txn(tid) is Some
    }

    /// Internal consistency: the index is well formed, every chain is filed
    /// correctly, sorted by version and bounded by the issued-instant
    /// watermark; active ids are unique and started at or before the
    /// watermark; and the index is exactly the replay of the durable log.
    pub open spec fn wf(self) -> bool {
        &&& self.index().wf()
        &&& forall|id: u128|
            chain_wf_c(#[trigger] self.concept_chain(id), id, self.timestamp_hi())
        &&& forall|id: u128|
            chain_wf_r(#[trigger] self.relationship_chain(id), id, self.timestamp_hi())
        &&& distinct_keys(self.active())
        &&& forall|i: int|
            0 <= i < self.active().len() ==> (#[trigger] self.active()[i]).1.start_timestamp
                <= self.timestamp_hi()
        &&& log_decodes(self.store_log())
        &&& forall|id: u128|
            replay_concepts(self.store_log(), id) == #[trigger] self.concept_chain(id)
        &&& forall|id: u128|
            replay_relationships(self.store_log(), id) == #[trigger] self.relationship_chain(id)
    }

    /// Creation instants never decrease along any chain.  Holds of every
    /// manager that grew from an empty store and is preserved by every
    /// operation; hydrating a foreign store cannot assume it.
    pub open spec fn temporal_wf(self) -> bool {
        &&& forall|id: u128| time_sorted_c(#[trigger] self.concept_chain(id))
        &&& forall|id: u128| time_sorted_r(#[trigger] self.relationship_chain(id))
    }

    /// Version numbers of every chain are exactly `1, 2, ..., N`.
    pub open spec fn dense(self) -> bool {
        &&& forall|id: u128, i: int|
            0 <= i < self.concept_chain(id).len() ==> (#[trigger] self.concept_chain(id)[i]).version
                == i + 1
        &&& forall|id: u128, i: int|
            0 <= i < self.relationship_chain(id).len() ==> (#[trigger] self.relationship_chain(
                id,
            )[i]).version == i + 1
    }

    /// A read-only handle to the Version Index, for ancillary readers.
    pub fn version_store(&self) -> (r: &VersionStore)
        ensures
            *r == self.index(),
    {
        &self.version_store
    }

    /// A read-only handle to the Durable Store's log.
    pub fn durable_store(&self) -> (r: &DurableStore)
        ensures
            r.log() == self.store_log(),
    {
        &self.store
    }

    /// Build a manager over a Durable Store, hydrating the Version Index by
    /// replaying every record in the log.  Fails with a serialization error
    /// exactly when some record does not decode.
    pub fn new(store: DurableStore) -> (r: Result<TransactionManager, MnemonicError>)
        ensures
            match r {
                Result::Ok(m) => {
                    &&& m.wf()
                    &&& m.store_log() == store.log()
                    &&& log_decodes(store.log())
                    &&& forall|id: u128| #[trigger]
                        m.concept_chain(id) == replay_concepts(store.log(), id)
                    &&& forall|id: u128| #[trigger]
                        m.relationship_chain(id) == replay_relationships(store.log(), id)
                    &&& forall|tid: u128| !#[trigger] m.is_active(tid)
                },
                Result::Err(e) => e == MnemonicError::Serialization && !log_decodes(store.log()),
            },
    {
        let mut version_store = VersionStore::new();
        let mut ts_hi: u64 = 0;
        let n = store.len();
        let mut i: usize = 0;
        while i < n
            invariant
                i <= n,
                n == store.log().len(),
                version_store.wf(),
                forall|j: int|
                    0 <= j < i ==> spec_decode_record((#[trigger] store.log()[j]).1) is Some,
                forall|id: u128|
                    replay_concepts(store.log().subrange(0, i as int), id) == #[trigger]
                    version_store.concept_chain(id),
                forall|id: u128|
                    replay_relationships(store.log().subrange(0, i as int), id) == #[trigger]
                    version_store.relationship_chain(id),
                forall|id: u128|
                    chain_wf_c(#[trigger] version_store.concept_chain(id), id, ts_hi),
                forall|id: u128|
                    chain_wf_r(#[trigger] version_store.relationship_chain(id), id, ts_hi),
            decreases n - i,
        {
            let ghost prefix = store.log().subrange(0, i as int);
            let ghost prefix1 = store.log().subrange(0, i + 1);
            proof {
                assert(prefix1.drop_last() =~= prefix);
                assert(prefix1.last() == store.log()[i as int]);
            }
            let value = store.value_at(i);
            match decode_version_record(value) {
                None => {
                    proof {
                        assert(spec_decode_record(store.log()[i as int].1) is None);
                    }
                    return Err(MnemonicError::Serialization);
                },
                Some(VersionRecord::Concept(cv)) => {
                    let ghost hi0 = ts_hi;
                    if cv.created_at > ts_hi {
                        ts_hi = cv.created_at;
                    }
                    match cv.deleted_at {
                        Some(d) => if d > ts_hi {
                            ts_hi = d;
                        },
                        None => {},
                    }
                    let ghost gid = cv@.concept_id;
                    let ghost gv = cv@;
                    let ghost oldchain = version_store.concept_chain(gid);
                    let _ = version_store.insert_concept_version_sorted(cv);
                    proof {
                        lemma_insert_wf_c(oldchain, gv, gid, hi0, ts_hi);
                        assert forall|id: u128|
                            replay_concepts(prefix1, id) == #[trigger] version_store.concept_chain(
                            id,
                        ) by {
                            if id != gid {
                                assert(version_store.concept_chain(id) == replay_concepts(
                                    prefix,
                                    id,
                                ));
                            }
                        }
                        assert forall|id: u128|
                            chain_wf_c(#[trigger] version_store.concept_chain(id), id, ts_hi) by {
                            if id != gid {
                                assert(version_store.concept_chain(id) == replay_concepts(
                                    prefix,
                                    id,
                                ));
                            }
                        }
                    }
                },
                Some(VersionRecord::Relationship(rv)) => {
                    let ghost hi0 = ts_hi;
                    if rv.created_at > ts_hi {
                        ts_hi = rv.created_at;
                    }
                    match rv.deleted_at {
                        Some(d) => if d > ts_hi {
                            ts_hi = d;
                        },
                        None => {},
                    }
                    let ghost gid = rv@.relationship_id;
                    let ghost gv = rv@;
                    let ghost oldchain = version_store.relationship_chain(gid);
                    let _ = version_store.insert_relationship_version_sorted(rv);
                    proof {
                        lemma_insert_wf_r(oldchain, gv, gid, hi0, ts_hi);
                        assert forall|id: u128|
                            replay_relationships(prefix1, id) == #[trigger]
                            version_store.relationship_chain(id) by {
                            if id != gid {
                                assert(version_store.relationship_chain(id)
                                    == replay_relationships(prefix, id));
                            }
                        }
                        assert forall|id: u128|
                            chain_wf_r(#[trigger] version_store.relationship_chain(id), id, ts_hi) by {
                            if id != gid {
                                assert(version_store.relationship_chain(id)
                                    == replay_relationships(prefix, id));
                            }
                        }
                    }
                },
            }
            i = i + 1;
        }
        proof {
            assert(store.log().subrange(0, n as int) =~= store.log());
        }
        let m = TransactionManager {
            version_store,
            store,
            active_transactions: Vec::new(),
            ts_hi,
        };
        proof {
            assert(m.active() =~= Seq::<(u128, Transaction)>::empty());
            assert forall|tid: u128| !#[trigger] m.is_active(tid) by {
                assert(assoc_get(m.active(), tid) is None);
            }
        }
        Ok(m)
    }

    /// Index of the active entry holding `tid`, if any.
    fn find_active_index(&self, tid: u128) -> (r: Option<usize>)
        requires
            distinct_keys(self.active()),
        ensures
            match r {
                Option::Some(i) => i < self.active().len() && self.active()[i as int].0 == tid
                    && self.active_txn(tid) == Some(self.active()[i as int].1),
                Option::None => !self.is_active(tid) && forall|j: int|
                    0 <= j < self.active().len() ==> (#[trigger] self.active()[j]).0 != tid,
            },
    {
        let n = self.active_transactions.len();
        let mut i: usize = 0;
        while i < n
            invariant
                i <= n,
                n == self.active().len(),
                distinct_keys(self.active()),
                forall|j: int| 0 <= j < i ==> (#[trigger] self.active()[j]).0 != tid,
            decreases n - i,
        {
            if self.active_transactions[i].0 == tid {
                proof {
                    lemma_assoc_get_index(self.active(), i as int);
                }
                return Some(i);
            }
            i = i + 1;
        }
        proof {
            lemma_assoc_get_absent(self.active(), tid);
        }
        None
    }

    /// Begin a transaction: capture a fresh id and the current instant,
    /// register the transaction as active, and hand it to the caller.  The
    /// start instant never precedes any instant the manager issued before.
    pub fn begin_transaction(&mut self, isolation_level: IsolationLevel) -> (r: Result<
        Transaction,
        MnemonicError,
    >)
        requires
            old(self).wf(),
        ensures
            final(self).wf(),
            r is Ok,
            (r->Ok_0).wf(),
            (r->Ok_0).start_timestamp == final(self).timestamp_hi(),
            (r->Ok_0).isolation_level == isolation_level,
            (r->Ok_0).read_set@ == Seq::<u128>::empty(),
            (r->Ok_0).relationship_read_set@ == Seq::<u128>::empty(),
            (r->Ok_0).write_set@ == Seq::<u128>::empty(),
            (r->Ok_0).relationship_write_set@ == Seq::<u128>::empty(),
            (r->Ok_0).pending_writes@ == Seq::<(u128, Concept)>::empty(),
            (r->Ok_0).pending_relationship_writes@ == Seq::<(u128, Relationship)>::empty(),
            (r->Ok_0).pending_deletes@ == Seq::<u128>::empty(),
            final(self).is_active((r->Ok_0).id),
            final(self).timestamp_hi() >= old(self).timestamp_hi(),
            forall|id: u128| #[trigger]
                final(self).concept_chain(id) == old(self).concept_chain(id),
            forall|id: u128| #[trigger]
                final(self).relationship_chain(id) == old(self).relationship_chain(id),
            final(self).store_log() == old(self).store_log(),
            forall|tid: u128|
                tid != (r->Ok_0).id ==> #[trigger] final(self).active_txn(tid) == old(
                    self,
                ).active_txn(tid),
            old(self).temporal_wf() ==> final(self).temporal_wf(),
            old(self).dense() ==> final(self).dense(),
    {
        let tid = fresh_id();
        let now = current_clock();
        if now > self.ts_hi {
            self.ts_hi = now;
        }
        let start = self.ts_hi;
        let txn = Transaction {
            id: tid,
            start_timestamp: start,
            isolation_level,
            read_set: Vec::new(),
            relationship_read_set: Vec::new(),
            write_set: Vec::new(),
            relationship_write_set: Vec::new(),
            pending_writes: Vec::new(),
            pending_relationship_writes: Vec::new(),
            pending_deletes: Vec::new(),
        };
        let copy = Transaction {
            id: tid,
            start_timestamp: start,
            isolation_level,
            read_set: Vec::new(),
            relationship_read_set: Vec::new(),
            write_set: Vec::new(),
            relationship_write_set: Vec::new(),
            pending_writes: Vec::new(),
            pending_relationship_writes: Vec::new(),
            pending_deletes: Vec::new(),
        };
        let ghost oldactive = self.active();
        match self.find_active_index(tid) {
            Some(i) => {
                self.active_transactions.remove(i);
                self.active_transactions.insert(i, (tid, copy));
                proof {
                    assert(self.active() =~= oldactive.update(
                        i as int,
                        (tid, self.active()[i as int].1),
                    ));
                    lemma_assoc_update(oldactive, i as int, self.active()[i as int].1);
                    assert forall|j: int|
                        0 <= j < self.active().len() implies (
                    #[trigger] self.active()[j]).1.start_timestamp <= self.timestamp_hi() by {
                        if j != i as int {
                            assert(self.active()[j] == oldactive[j]);
                            assert(oldactive[j].1.start_timestamp <= old(self).timestamp_hi());
                        }
                    }
                }
            },
            None => {
                self.active_transactions.push((tid, copy));
                proof {
                    lemma_assoc_push(oldactive, tid, self.active().last().1);
                    assert(self.active() =~= oldactive.push((tid, self.active().last().1)));
                    assert forall|j: int|
                        0 <= j < self.active().len() implies (
                    #[trigger] self.active()[j]).1.start_timestamp <= self.timestamp_hi() by {
                        if j < oldactive.len() {
                            assert(self.active()[j] == oldactive[j]);
                            assert(oldactive[j].1.start_timestamp <= old(self).timestamp_hi());
                        }
                    }
                }
            },
        }
        proof {
            lemma_chains_preserved(*old(self), *self);
        }
        Ok(txn)
    }

    /// Abort a transaction: remove it from the active set and discard its
    /// pending changes.  Nothing else changes: no version record is written
    /// and no read is affected.  Fails when the id is not active.
    pub fn abort_transaction(&mut self, transaction_id: TransactionId) -> (r: Result<
        (),
        MnemonicError,
    >)
        requires
            old(self).wf(),
        ensures
            final(self).wf(),
            forall|id: u128| #[trigger]
                final(self).concept_chain(id) == old(self).concept_chain(id),
            forall|id: u128| #[trigger]
                final(self).relationship_chain(id) == old(self).relationship_chain(id),
            final(self).store_log() == old(self).store_log(),
            final(self).timestamp_hi() == old(self).timestamp_hi(),
            match r {
                Result::Ok(()) => {
                    &&& old(self).is_active(transaction_id)
                    &&& !final(self).is_active(transaction_id)
                    &&& forall|tid: u128|
                        tid != transaction_id ==> #[trigger] final(self).active_txn(tid) == old(
                            self,
                        ).active_txn(tid)
                },
                Result::Err(e) => {
                    &&& e == MnemonicError::Transaction(transaction_id)
                    &&& !old(self).is_active(transaction_id)
                    &&& forall|tid: u128| #[trigger]
                        final(self).active_txn(tid) == old(self).active_txn(tid)
                },
            },
            old(self).temporal_wf() ==> final(self).temporal_wf(),
            old(self).dense() ==> final(self).dense(),
    {
        let ghost oldactive = self.active();
        match self.find_active_index(transaction_id) {
            Some(i) => {
                self.active_transactions.remove(i);
                proof {
                    lemma_assoc_remove(oldactive, i as int);
                    assert forall|j: int|
                        0 <= j < self.active().len() implies (
                    #[trigger] self.active()[j]).1.start_timestamp <= self.timestamp_hi() by {
                        let j2: int = if j < i as int {
                            j
                        } else {
                            j + 1
                        };
                        assert(self.active()[j] == oldactive[j2]);
                        assert(oldactive[j2].1.start_timestamp <= old(self).timestamp_hi());
                    }
                    lemma_chains_preserved(*old(self), *self);
                }
                Ok(())
            },
            None => {
                proof {
                    lemma_chains_preserved(*old(self), *self);
                }
                Err(MnemonicError::Transaction(transaction_id))
            },
        }
    }

    /// Time travel: the version of the concept live at `timestamp`.
    pub fn read_concept_as_of(&self, concept_id: &ConceptId, timestamp: Timestamp) -> (r: Result<
        Option<ConceptVersion>,
        MnemonicError,
    >)
        requires
            self.wf(),
        ensures
            r is Ok,
            crate::versioning::opt_cv_view(r->Ok_0) == crate::versioning::version_at_c(
                self.concept_chain(*concept_id),
                timestamp,
            ),
    {
        self.version_store.get_concept_version_at_timestamp(concept_id, timestamp)
    }

    /// Time travel: the version of the relationship live at `timestamp`.
    pub fn read_relationship_as_of(
        &self,
        relationship_id: &RelationshipId,
        timestamp: Timestamp,
    ) -> (r: Result<Option<RelationshipVersion>, MnemonicError>)
        requires
            self.wf(),
        ensures
            r is Ok,
            crate::versioning::opt_rv_view(r->Ok_0) == crate::versioning::version_at_r(
                self.relationship_chain(*relationship_id),
                timestamp,
            ),
    {
        self.version_store.get_relationship_version_at_timestamp(relationship_id, timestamp)
    }

    /// How many transactions are registered as active.
    pub fn active_transaction_count(&self) -> (r: usize)
        ensures
            r == self.active().len(),
    {
        self.active_transactions.len()
    }

    /// Whether a transaction id is registered as active.
    pub fn is_transaction_active(&self, transaction_id: TransactionId) -> (r: bool)
        requires
            self.wf(),
        ensures
            r == self.is_active(transaction_id),
    {
        match self.find_active_index(transaction_id) {
            Some(_) => true,
            None => false,
        }
    }

    /// The current instant as this manager sees it: the wall clock, never
    /// before any instant the manager already issued.
    pub fn current_timestamp(&self) -> (r: Timestamp)
        ensures
            r >= self.timestamp_hi(),
    {
        let now = current_clock();
        if now > self.ts_hi {
            now
        } else {
            self.ts_hi
        }
    }
}

/// The first concept id at or after position `i` of the write set whose
/// chain was modified after the transaction started.
pub open spec fn first_conflict_c(m: TransactionManager, t: Transaction, i: int) -> Option<u128>
    decreases t.write_set@.len() - i,
{
    if i < 0 || i >= t.write_set@.len() {
        None
    } else if concept_modified_since(m.concept_chain(t.write_set@[i]), t.start_timestamp) {
        Some(t.write_set@[i])
    } else {
        first_conflict_c(m, t, i + 1)
    }
}

/// The first relationship id at or after position `i` of the relationship
/// write set whose chain was modified after the transaction started.
pub open spec fn first_conflict_r(m: TransactionManager, t: Transaction, i: int) -> Option<u128>
    decreases t.relationship_write_set@.len() - i,
{
    if i < 0 || i >= t.relationship_write_set@.len() {
        None
    } else if relationship_modified_since(
        m.relationship_chain(t.relationship_write_set@[i]),
        t.start_timestamp,
    ) {
        Some(t.relationship_write_set@[i])
    } else {
        first_conflict_r(m, t, i + 1)
    }
}

/// First-committer-wins: the first entity of the transaction's write sets,
/// concepts before relationships, modified since the transaction started.
pub open spec fn first_conflict(m: TransactionManager, t: Transaction) -> Option<u128> {
    match first_conflict_c(m, t, 0) {
        Option::Some(x) => Some(x),
        Option::None => first_conflict_r(m, t, 0),
    }
}

/// The version number the next record appended to a chain receives.
pub open spec fn next_version_c(chain: Seq<ConceptVersionV>) -> u64 {
    if chain.len() == 0 {
        1u64
    } else {
        (chain.last().version + 1) as u64
    }
}

pub open spec fn next_version_r(chain: Seq<RelationshipVersionV>) -> u64 {
    if chain.len() == 0 {
        1u64
    } else {
        (chain.last().version + 1) as u64
    }
}

/// The concept version record a commit installs for a staged id.
pub open spec fn commit_cv(m: TransactionManager, t: Transaction, stamp: Timestamp, id: u128) -> ConceptVersionV {
    ConceptVersionV {
        concept_id: id,
        version: next_version_c(m.concept_chain(id)),
        data: staged_concept(t, id).unwrap()@.data,
        created_at: stamp,
        created_by: t.id,
        deleted_at: None,
        deleted_by: None,
    }
}

/// The relationship version record a commit installs for a staged id.
pub open spec fn commit_rv(m: TransactionManager, t: Transaction, stamp: Timestamp, id: u128) -> RelationshipVersionV {
    RelationshipVersionV {
        relationship_id: id,
        version: next_version_r(m.relationship_chain(id)),
        source: staged_relationship(t, id).unwrap()@.source,
        relationship_type: staged_relationship(t, id).unwrap()@.relationship_type,
        target: staged_relationship(t, id).unwrap()@.target,
        created_at: stamp,
        created_by: t.id,
        deleted_at: None,
        deleted_by: None,
    }
}

/// The tombstone record a commit installs for a deleted relationship: the
/// newest version's endpoints and label, with the deletion stamped.
pub open spec fn commit_tombstone(m: TransactionManager, t: Transaction, stamp: Timestamp, id: u128) -> RelationshipVersionV {
    let prior = m.relationship_chain(id).last();
    RelationshipVersionV {
        relationship_id: id,
        version: next_version_r(m.relationship_chain(id)),
        source: prior.source,
        relationship_type: prior.relationship_type,
        target: prior.target,
        created_at: stamp,
        created_by: t.id,
        deleted_at: Some(stamp),
        deleted_by: Some(t.id),
    }
}

/// The first pending delete at or after position `i` whose relationship has
/// no version at all.
pub open spec fn first_missing_delete(m: TransactionManager, t: Transaction, i: int) -> Option<
    u128,
>
    decreases t.pending_deletes@.len() - i,
{
    if i < 0 || i >= t.pending_deletes@.len() {
        None
    } else if m.relationship_chain(t.pending_deletes@[i]).len() == 0 {
        Some(t.pending_deletes@[i])
    } else {
        first_missing_delete(m, t, i + 1)
    }
}

pub open spec fn next_ok_c(chain: Seq<ConceptVersionV>) -> bool {
    chain.len() == 0 || chain.last().version < 0xffff_ffff_ffff_ffffu64
}

pub open spec fn next_ok_r(chain: Seq<RelationshipVersionV>) -> bool {
    chain.len() == 0 || chain.last().version < 0xffff_ffff_ffff_ffffu64
}

/// No version counter or the instant watermark stands at its machine limit.
pub open spec fn commit_headroom(m: TransactionManager, t: Transaction) -> bool {
    &&& m.timestamp_hi() < 0xffff_ffff_ffff_ffffu64
    &&& forall|i: int|
        0 <= i < t.pending_writes@.len() ==> next_ok_c(
            m.concept_chain((#[trigger] t.pending_writes@[i]).0),
        )
    &&& forall|i: int|
        0 <= i < t.pending_relationship_writes@.len() ==> next_ok_r(
            m.relationship_chain((#[trigger] t.pending_relationship_writes@[i]).0),
        )
    &&& forall|i: int|
        0 <= i < t.pending_deletes@.len() ==> next_ok_r(
            m.relationship_chain(#[trigger] t.pending_deletes@[i]),
        )
}

/// Why a commit is refused, if it is: an unknown transaction, the first
/// write-set entity modified since the snapshot, the first pending delete
/// with no version to tombstone, or a counter at its machine limit.
pub open spec fn commit_error(m: TransactionManager, t: Transaction) -> Option<MnemonicError> {
    if !m.is_active(t.id) {
        Some(MnemonicError::Transaction(t.id))
    } else if first_conflict(m, t) is Some {
        Some(MnemonicError::TransactionConflict(first_conflict(m, t).unwrap()))
    } else if first_missing_delete(m, t, 0) is Some {
        Some(MnemonicError::RelationshipNotFound(first_missing_delete(m, t, 0).unwrap()))
    } else if !commit_headroom(m, t) {
        Some(MnemonicError::Transaction(t.id))
    } else {
        None
    }
}

/// A concept's chain after the commit: its record appended if the
/// transaction staged one.
pub open spec fn chain_after_commit_c(m: TransactionManager, t: Transaction, stamp: Timestamp, id: u128) -> Seq<ConceptVersionV> {
    if staged_concept(t, id) is Some {
        m.concept_chain(id).push(commit_cv(m, t, stamp, id))
    } else {
        m.concept_chain(id)
    }
}

/// A relationship's chain after the commit: its record appended if staged,
/// its tombstone appended if deleted.
pub open spec fn chain_after_commit_r(m: TransactionManager, t: Transaction, stamp: Timestamp, id: u128) -> Seq<RelationshipVersionV> {
    if staged_relationship(t, id) is Some {
        m.relationship_chain(id).push(commit_rv(m, t, stamp, id))
    } else if t.pending_deletes@.contains(id) {
        m.relationship_chain(id).push(commit_tombstone(m, t, stamp, id))
    } else {
        m.relationship_chain(id)
    }
}

pub open spec fn concept_op(m: TransactionManager, t: Transaction, stamp: Timestamp, id: u128) -> (
    Seq<u8>,
    Seq<u8>,
) {
    (
        spec_concept_version_key(id, next_version_c(m.concept_chain(id))),
        spec_encode_cv(commit_cv(m, t, stamp, id)),
    )
}

pub open spec fn relationship_op(m: TransactionManager, t: Transaction, stamp: Timestamp, id: u128) -> (Seq<u8>, Seq<u8>) {
    (
        spec_relationship_version_key(id, next_version_r(m.relationship_chain(id))),
        spec_encode_rv(commit_rv(m, t, stamp, id)),
    )
}

pub open spec fn tombstone_op(m: TransactionManager, t: Transaction, stamp: Timestamp, id: u128) -> (Seq<u8>, Seq<u8>) {
    (
        spec_relationship_version_key(id, next_version_r(m.relationship_chain(id))),
        spec_encode_rv(commit_tombstone(m, t, stamp, id)),
    )
}

/// The batch entries for the first `i` pending concept writes.
pub open spec fn commit_ops_c(m: TransactionManager, t: Transaction, stamp: Timestamp, i: int) -> Seq<(Seq<u8>, Seq<u8>)>
    decreases i,
{
    if i <= 0 {
        Seq::empty()
    } else {
        commit_ops_c(m, t, stamp, i - 1) + seq![
            concept_op(m, t, stamp, t.pending_writes@[i - 1].0),
        ]
    }
}

/// The batch entries for the first `i` pending relationship writes.
pub open spec fn commit_ops_w(m: TransactionManager, t: Transaction, stamp: Timestamp, i: int) -> Seq<(Seq<u8>, Seq<u8>)>
    decreases i,
{
    if i <= 0 {
        Seq::empty()
    } else {
        commit_ops_w(m, t, stamp, i - 1) + seq![
            relationship_op(m, t, stamp, t.pending_relationship_writes@[i - 1].0),
        ]
    }
}

/// The batch entries for the first `i` pending deletes.
pub open spec fn commit_ops_d(m: TransactionManager, t: Transaction, stamp: Timestamp, i: int) -> Seq<(Seq<u8>, Seq<u8>)>
    decreases i,
{
    if i <= 0 {
        Seq::empty()
    } else {
        commit_ops_d(m, t, stamp, i - 1) + seq![
            tombstone_op(m, t, stamp, t.pending_deletes@[i - 1]),
        ]
    }
}

/// The whole batch one commit writes: concept records, then relationship
/// records, then tombstones, in staging order.
pub open spec fn commit_ops(m: TransactionManager, t: Transaction, stamp: Timestamp) -> Seq<
    (Seq<u8>, Seq<u8>),
> {
    commit_ops_c(m, t, stamp, t.pending_writes@.len() as int) + commit_ops_w(
        m,
        t,
        stamp,
        t.pending_relationship_writes@.len() as int,
    ) + commit_ops_d(m, t, stamp, t.pending_deletes@.len() as int)
}

/// Appending a decodable concept record to the log splices it into exactly
/// its entity's replayed chain.
proof fn lemma_replay_append_concept(
    log: Seq<(Seq<u8>, Seq<u8>)>,
    key: Seq<u8>,
    value: Seq<u8>,
    v: ConceptVersionV,
)
    requires
        spec_decode_record(value) == Some(VersionRecordV::Concept(v)),
    ensures
        forall|id: u128| #[trigger]
            replay_concepts(log.push((key, value)), id) == (if id == v.concept_id {
                insert_by_version_c(replay_concepts(log, id), v)
            } else {
                replay_concepts(log, id)
            }),
        forall|id: u128| #[trigger]
            replay_relationships(log.push((key, value)), id) == replay_relationships(log, id),
{
    assert(log.push((key, value)).drop_last() =~= log);
    assert(log.push((key, value)).last() == (key, value));
}

/// Appending a decodable relationship record to the log splices it into
/// exactly its entity's replayed chain.
proof fn lemma_replay_append_relationship(
    log: Seq<(Seq<u8>, Seq<u8>)>,
    key: Seq<u8>,
    value: Seq<u8>,
    v: RelationshipVersionV,
)
    requires
        spec_decode_record(value) == Some(VersionRecordV::Relationship(v)),
    ensures
        forall|id: u128| #[trigger]
            replay_relationships(log.push((key, value)), id) == (if id == v.relationship_id {
                insert_by_version_r(replay_relationships(log, id), v)
            } else {
                replay_relationships(log, id)
            }),
        forall|id: u128| #[trigger]
            replay_concepts(log.push((key, value)), id) == replay_concepts(log, id),
{
    assert(log.push((key, value)).drop_last() =~= log);
    assert(log.push((key, value)).last() == (key, value));
}

/// An encoded concept record that fits in memory has a payload that fits
/// the length prefix.
proof fn lemma_cv_data_len(v: ConceptVersionV, n: nat)
    requires
        spec_encode_cv(v).len() == n,
        n < 0x1_0000_0000_0000_0000,
    ensures
        crate::codec::data_len_ok(v.data),
{
    reveal(spec_encode_cv);
    match v.data {
        crate::types::ConceptDataV::Empty => {
        },
        crate::types::ConceptDataV::Structured(t) => {
            assert(spec_encode_cv(v).len() >= crate::codec::spec_encode_data(v.data).len());
            assert(crate::codec::spec_encode_data(v.data).len() >= vstd::utf8::encode_utf8(
                t,
            ).len());
        },
    }
}

/// An encoded relationship record that fits in memory has a label that fits
/// the length prefix.
proof fn lemma_rv_str_len(v: RelationshipVersionV, n: nat)
    requires
        spec_encode_rv(v).len() == n,
        n < 0x1_0000_0000_0000_0000,
    ensures
        crate::codec::str_len_ok(v.relationship_type),
{
    reveal(spec_encode_rv);
    assert(spec_encode_rv(v).len() >= crate::codec::spec_encode_str(v.relationship_type).len());
    assert(crate::codec::spec_encode_str(v.relationship_type).len() >= vstd::utf8::encode_utf8(
        v.relationship_type,
    ).len());
}

impl TransactionManager {
    /// Phase one of commit: fail with a conflict error naming the first
    /// entity of the write sets that another commit modified after this
    /// transaction started.
    fn validate_transaction(&self, transaction: &Transaction) -> (r: Result<(), MnemonicError>)
        requires
            self.wf(),
        ensures
            match r {
                Result::Ok(()) => first_conflict(*self, *transaction) is None,
                Result::Err(e) => first_conflict(*self, *transaction) is Some && e
                    == MnemonicError::TransactionConflict(
                    first_conflict(*self, *transaction).unwrap(),
                ),
            },
    {
        let n = transaction.write_set.len();
        let mut i: usize = 0;
        while i < n
            invariant
                i <= n,
                n == transaction.write_set@.len(),
                self.wf(),
                first_conflict_c(*self, *transaction, 0) == first_conflict_c(
                    *self,
                    *transaction,
                    i as int,
                ),
            decreases n - i,
        {
            let cid = transaction.write_set[i];
            let modified = match self.version_store.has_concept_been_modified_since(
                &cid,
                transaction.start_timestamp,
            ) {
                Ok(b) => b,
                Err(e) => {
                    return Err(e);
                },
            };
            if modified {
                return Err(MnemonicError::TransactionConflict(cid));
            }
            i = i + 1;
        }
        let n2 = transaction.relationship_write_set.len();
        let mut i2: usize = 0;
        while i2 < n2
            invariant
                i2 <= n2,
                n2 == transaction.relationship_write_set@.len(),
                self.wf(),
                first_conflict_c(*self, *transaction, 0) == None::<u128>,
                first_conflict_r(*self, *transaction, 0) == first_conflict_r(
                    *self,
                    *transaction,
                    i2 as int,
                ),
            decreases n2 - i2,
        {
            let rid = transaction.relationship_write_set[i2];
            let modified = match self.version_store.has_relationship_been_modified_since(
                &rid,
                transaction.start_timestamp,
            ) {
                Ok(b) => b,
                Err(e) => {
                    return Err(e);
                },
            };
            if modified {
                return Err(MnemonicError::TransactionConflict(rid));
            }
            i2 = i2 + 1;
        }
        Ok(())
    }

    /// Phase two, concept records: append one version per staged concept to
    /// the batch and to the index.
    #[verifier::rlimit(100)]
    #[verifier::spinoff_prover]
    fn apply_concept_writes(
        &mut self,
        transaction: &Transaction,
        stamp: Timestamp,
        ops: &mut Vec<(Vec<u8>, Vec<u8>)>,
        Ghost(om): Ghost<TransactionManager>,
    )
        requires
            om.wf(),
            transaction.wf(),
            commit_headroom(om, *transaction),
            stamp > om.timestamp_hi(),
            old(self).index().wf(),
            old(self).store_log() == om.store_log(),
            old(self).active() == om.active(),
            old(self).timestamp_hi() == stamp,
            forall|id: u128| #[trigger] old(self).concept_chain(id) == om.concept_chain(id),
            forall|id: u128| #[trigger]
                old(self).relationship_chain(id) == om.relationship_chain(id),
            old(ops)@ == Seq::<(Vec<u8>, Vec<u8>)>::empty(),
        ensures
            final(self).index().wf(),
            final(self).store_log() == om.store_log(),
            final(self).active() == om.active(),
            final(self).timestamp_hi() == stamp,
            entries_view(final(ops)@) == commit_ops_c(
                om,
                *transaction,
                stamp,
                transaction.pending_writes@.len() as int,
            ),
            forall|id: u128| #[trigger]
                final(self).concept_chain(id) == chain_after_commit_c(
                    om,
                    *transaction,
                    stamp,
                    id,
                ),
            forall|id: u128| #[trigger]
                final(self).relationship_chain(id) == om.relationship_chain(id),
            log_decodes(om.store_log() + entries_view(final(ops)@)),
            forall|id: u128|
                replay_concepts(om.store_log() + entries_view(final(ops)@), id) == #[trigger]
                final(self).concept_chain(id),
            forall|id: u128|
                replay_relationships(om.store_log() + entries_view(final(ops)@), id) == #[trigger]
                final(self).relationship_chain(id),
    {
        let np = transaction.pending_writes.len();
        let mut i: usize = 0;
        proof {
            assert(entries_view(ops@) =~= Seq::<(Seq<u8>, Seq<u8>)>::empty());
            assert(om.store_log() + entries_view(ops@) =~= om.store_log());
            assert(transaction.pending_writes@.subrange(0, 0) =~= Seq::<(u128, Concept)>::empty());
            assert forall|id: u128| #[trigger]
                self.concept_chain(id) == chain_upto_c(om, *transaction, stamp, 0, id) by {
                assert(staged_upto_c(*transaction, 0, id) is None);
            }
            assert forall|id: u128|
                replay_concepts(om.store_log() + entries_view(ops@), id) == #[trigger]
                self.concept_chain(id) by {
                assert(replay_concepts(om.store_log(), id) == om.concept_chain(id));
            }
            assert forall|id: u128|
                replay_relationships(om.store_log() + entries_view(ops@), id) == #[trigger]
                self.relationship_chain(id) by {
                assert(replay_relationships(om.store_log(), id) == om.relationship_chain(id));
            }
        }
        while i < np
            invariant
                i <= np,
                np == transaction.pending_writes@.len(),
                om.wf(),
                transaction.wf(),
                commit_headroom(om, *transaction),
                stamp > om.timestamp_hi(),
                self.index().wf(),
                self.store_log() == om.store_log(),
                self.active() == om.active(),
                self.timestamp_hi() == stamp,
                entries_view(ops@) == commit_ops_c(om, *transaction, stamp, i as int),
                forall|id: u128| #[trigger]
                    self.concept_chain(id) == chain_upto_c(om, *transaction, stamp, i as int, id),
                forall|id: u128| #[trigger]
                    self.relationship_chain(id) == om.relationship_chain(id),
                log_decodes(om.store_log() + entries_view(ops@)),
                forall|id: u128|
                    replay_concepts(om.store_log() + entries_view(ops@), id) == #[trigger]
                    self.concept_chain(id),
                forall|id: u128|
                    replay_relationships(om.store_log() + entries_view(ops@), id) == #[trigger]
                    self.relationship_chain(id),
            decreases np - i,
        {
            let ghost ops0 = ops@;
            let ghost log1 = om.store_log() + entries_view(ops0);
            let cid = transaction.pending_writes[i].0;
            proof {
                assert forall|j: int|
                    0 <= j < transaction.pending_writes@.subrange(0, i as int).len() implies (
                #[trigger] transaction.pending_writes@.subrange(0, i as int)[j]).0 != cid by {
                    assert(transaction.pending_writes@[j].0 != transaction.pending_writes@[
                        i as int].0);
                }
                lemma_assoc_get_absent(transaction.pending_writes@.subrange(0, i as int), cid);
                assert(self.concept_chain(cid) == om.concept_chain(cid));
            }
            let ver = match self.version_store.latest_concept_version(&cid) {
                None => 1u64,
                Some(v) => {
                    proof {
                        assert(next_ok_c(om.concept_chain(cid)));
                    }
                    v.version + 1
                },
            };
            proof {
                assert(ver == next_version_c(om.concept_chain(cid)));
                lemma_assoc_get_index(transaction.pending_writes@, i as int);
            }
            let data = transaction.pending_writes[i].1.data.clone();
            let record = ConceptVersion {
                concept_id: cid,
                version: ver,
                data,
                created_at: stamp,
                created_by: transaction.id,
                deleted_at: None,
                deleted_by: None,
            };
            proof {
                assert(record@ == commit_cv(om, *transaction, stamp, cid));
            }
            let key = concept_version_key(cid, ver);
            let value = encode_concept_version(&record);
            let vlen = value.len();
            let ghost gkey = key@;
            let ghost gvalue = value@;
            let ghost rec = record@;
            proof {
                assert(spec_encode_cv(rec).len() == vlen as nat);
                assert((vlen as nat) < 0x1_0000_0000_0000_0000) by {
                    assert(vlen <= usize::MAX);
                }
                lemma_cv_data_len(rec, vlen as nat);
                crate::codec::lemma_concept_record_roundtrip(rec);
            }
            ops.push((key, value));
            let ghost mid = *self;
            let _ = self.version_store.add_concept_version(record);
            proof {
                assert(mid.concept_chain(cid) == om.concept_chain(cid));
                assert(self.concept_chain(cid) == mid.concept_chain(cid).push(rec));
                assert(entries_view(ops@) =~= entries_view(ops0).push((gkey, gvalue)));
                assert(commit_ops_c(om, *transaction, stamp, i + 1) =~= commit_ops_c(
                    om,
                    *transaction,
                    stamp,
                    i as int,
                ).push(concept_op(om, *transaction, stamp, cid)));
                assert(concept_op(om, *transaction, stamp, cid) == (gkey, gvalue));
                assert(entries_view(ops@) =~= commit_ops_c(om, *transaction, stamp, i + 1));
                assert(om.store_log() + entries_view(ops@) =~= log1.push((gkey, gvalue)));
                lemma_replay_append_concept(log1, gkey, gvalue, rec);
                // the chain formula advances by one staged id
                assert(transaction.pending_writes@.subrange(0, i + 1) =~=
                    transaction.pending_writes@.subrange(0, i as int).push(
                    transaction.pending_writes@[i as int],
                ));
                lemma_assoc_push(
                    transaction.pending_writes@.subrange(0, i as int),
                    cid,
                    transaction.pending_writes@[i as int].1,
                );
                assert forall|id: u128| #[trigger]
                    self.concept_chain(id) == chain_upto_c(
                    om,
                    *transaction,
                    stamp,
                    i + 1,
                    id,
                ) by {
                    if id == cid {
                        assert(staged_upto_c(*transaction, i as int, cid) is None);
                        assert(transaction.pending_writes@[i as int] == (
                            cid,
                            transaction.pending_writes@[i as int].1,
                        ));
                        assert(staged_upto_c(*transaction, i + 1, cid) == Some(
                            transaction.pending_writes@[i as int].1,
                        ));
                        assert(commit_cv(om, *transaction, stamp, cid) == rec);
                        assert(chain_upto_c(om, *transaction, stamp, i + 1, cid)
                            == om.concept_chain(cid).push(rec));
                    } else {
                        assert(staged_upto_c(*transaction, i + 1, id) == staged_upto_c(
                            *transaction,
                            i as int,
                            id,
                        ));
                        assert(self.concept_chain(id) == mid.concept_chain(id));
                        assert(mid.concept_chain(id) == chain_upto_c(
                            om,
                            *transaction,
                            stamp,
                            i as int,
                            id,
                        ));
                    }
                }
                assert forall|id: u128|
                    replay_concepts(om.store_log() + entries_view(ops@), id) == #[trigger]
                    self.concept_chain(id) by {
                    assert(replay_concepts(log1.push((gkey, gvalue)), id) == (if id
                        == rec.concept_id {
                        insert_by_version_c(replay_concepts(log1, id), rec)
                    } else {
                        replay_concepts(log1, id)
                    }));
                    if id == cid {
                        let chain = om.concept_chain(cid);
                        assert(replay_concepts(log1, cid) == mid.concept_chain(cid));
                        assert(replay_concepts(log1, cid) == chain);
                        if chain.len() > 0 {
                            assert(chain.last().version <= rec.version);
                        }
                        assert(insert_by_version_c(chain, rec) =~= chain.push(rec));
                    } else {
                        assert(replay_concepts(log1, id) == mid.concept_chain(id));
                        assert(self.concept_chain(id) == mid.concept_chain(id));
                    }
                }
                assert forall|id: u128|
                    replay_relationships(om.store_log() + entries_view(ops@), id) == #[trigger]
                    self.relationship_chain(id) by {
                    assert(replay_relationships(log1.push((gkey, gvalue)), id)
                        == replay_relationships(log1, id));
                    assert(replay_relationships(log1, id) == mid.relationship_chain(id));
                    assert(self.relationship_chain(id) == mid.relationship_chain(id));
                }
                assert forall|id: u128| #[trigger]
                    self.relationship_chain(id) == om.relationship_chain(id) by {
                    assert(self.relationship_chain(id) == mid.relationship_chain(id));
                    assert(mid.relationship_chain(id) == om.relationship_chain(id));
                }
                assert forall|j: int|
                    0 <= j < (om.store_log() + entries_view(ops@)).len() implies spec_decode_record(
                    (#[trigger] (om.store_log() + entries_view(ops@))[j]).1,
                ) is Some by {
                    if j < log1.len() {
                        assert((om.store_log() + entries_view(ops@))[j] == log1[j]);
                    } else {
                        assert((om.store_log() + entries_view(ops@))[j] == (gkey, gvalue));
                    }
                }
            }
            i = i + 1;
        }
        proof {
            assert(transaction.pending_writes@.subrange(0, np as int) =~=
                transaction.pending_writes@);
            assert forall|id: u128| #[trigger]
                self.concept_chain(id) == chain_after_commit_c(om, *transaction, stamp, id) by {
                assert(staged_upto_c(*transaction, np as int, id) == staged_concept(
                    *transaction,
                    id,
                ));
            }
        }
    }
}

/// The concept staged among the first `k` pending writes, if any.
pub open spec fn staged_upto_c(t: Transaction, k: int, id: u128) -> Option<Concept> {
    assoc_get(t.pending_writes@.subrange(0, k), id)
}

/// The chain of `id` once the first `k` pending concept writes are applied.
pub open spec fn chain_upto_c(m: TransactionManager, t: Transaction, stamp: Timestamp, k: int, id: u128) -> Seq<ConceptVersionV> {
    if staged_upto_c(t, k, id) is Some {
        m.concept_chain(id).push(commit_cv(m, t, stamp, id))
    } else {
        m.concept_chain(id)
    }
}


/// The relationship staged among the first `k` pending writes, if any.
pub open spec fn staged_upto_w(t: Transaction, k: int, id: u128) -> Option<Relationship> {
    assoc_get(t.pending_relationship_writes@.subrange(0, k), id)
}

/// The chain of `id` once the first `k` pending relationship writes are
/// applied.
pub open spec fn chain_upto_w(m: TransactionManager, t: Transaction, stamp: Timestamp, k: int, id: u128) -> Seq<RelationshipVersionV> {
    if staged_upto_w(t, k, id) is Some {
        m.relationship_chain(id).push(commit_rv(m, t, stamp, id))
    } else {
        m.relationship_chain(id)
    }
}

/// A relationship's chain once all staged writes, but no deletes, are
/// applied.
pub open spec fn chain_after_writes_r(m: TransactionManager, t: Transaction, stamp: Timestamp, id: u128) -> Seq<RelationshipVersionV> {
    if staged_relationship(t, id) is Some {
        m.relationship_chain(id).push(commit_rv(m, t, stamp, id))
    } else {
        m.relationship_chain(id)
    }
}

impl TransactionManager {
    /// Phase two, relationship records: append one version per staged
    /// relationship to the batch and to the index.
    #[verifier::rlimit(100)]
    #[verifier::spinoff_prover]
    fn apply_relationship_writes(
        &mut self,
        transaction: &Transaction,
        stamp: Timestamp,
        ops: &mut Vec<(Vec<u8>, Vec<u8>)>,
        Ghost(om): Ghost<TransactionManager>,
    )
        requires
            om.wf(),
            transaction.wf(),
            commit_headroom(om, *transaction),
            stamp > om.timestamp_hi(),
            old(self).index().wf(),
            old(self).store_log() == om.store_log(),
            old(self).active() == om.active(),
            old(self).timestamp_hi() == stamp,
            forall|id: u128| #[trigger]
                old(self).relationship_chain(id) == om.relationship_chain(id),
            forall|id: u128| #[trigger]
                old(self).concept_chain(id) == chain_after_commit_c(om, *transaction, stamp, id),
            log_decodes(om.store_log() + entries_view(old(ops)@)),
            forall|id: u128|
                replay_concepts(om.store_log() + entries_view(old(ops)@), id) == #[trigger]
                old(self).concept_chain(id),
            forall|id: u128|
                replay_relationships(om.store_log() + entries_view(old(ops)@), id) == #[trigger]
                old(self).relationship_chain(id),
        ensures
            final(self).index().wf(),
            final(self).store_log() == om.store_log(),
            final(self).active() == om.active(),
            final(self).timestamp_hi() == stamp,
            entries_view(final(ops)@) == entries_view(old(ops)@) + commit_ops_w(
                om,
                *transaction,
                stamp,
                transaction.pending_relationship_writes@.len() as int,
            ),
            forall|id: u128| #[trigger]
                final(self).relationship_chain(id) == chain_after_writes_r(
                    om,
                    *transaction,
                    stamp,
                    id,
                ),
            forall|id: u128| #[trigger]
                final(self).concept_chain(id) == old(self).concept_chain(id),
            log_decodes(om.store_log() + entries_view(final(ops)@)),
            forall|id: u128|
                replay_relationships(om.store_log() + entries_view(final(ops)@), id) == #[trigger]
                final(self).relationship_chain(id),
            forall|id: u128|
                replay_concepts(om.store_log() + entries_view(final(ops)@), id) == #[trigger]
                final(self).concept_chain(id),
    {
        let np = transaction.pending_relationship_writes.len();
        let mut i: usize = 0;
        let ghost base = entries_view(ops@);
        proof {
            assert(entries_view(ops@) =~= base + commit_ops_w(om, *transaction, stamp, 0));
            assert(transaction.pending_relationship_writes@.subrange(0, 0) =~= Seq::<(u128, Relationship)>::empty());
            assert forall|id: u128| #[trigger]
                self.relationship_chain(id) == chain_upto_w(om, *transaction, stamp, 0, id) by {
                assert(staged_upto_w(*transaction, 0, id) is None);
            }
        }
        while i < np
            invariant
                i <= np,
                np == transaction.pending_relationship_writes@.len(),
                om.wf(),
                transaction.wf(),
                commit_headroom(om, *transaction),
                stamp > om.timestamp_hi(),
                self.index().wf(),
                self.store_log() == om.store_log(),
                self.active() == om.active(),
                self.timestamp_hi() == stamp,
                entries_view(ops@) == base + commit_ops_w(om, *transaction, stamp, i as int),
                forall|id: u128| #[trigger]
                    self.relationship_chain(id) == chain_upto_w(om, *transaction, stamp, i as int, id),
                forall|id: u128| #[trigger]
                    self.concept_chain(id) == chain_after_commit_c(om, *transaction, stamp, id),
                log_decodes(om.store_log() + entries_view(ops@)),
                forall|id: u128|
                    replay_relationships(om.store_log() + entries_view(ops@), id) == #[trigger]
                    self.relationship_chain(id),
                forall|id: u128|
                    replay_concepts(om.store_log() + entries_view(ops@), id) == #[trigger]
                    self.concept_chain(id),
            decreases np - i,
        {
            let ghost ops0 = ops@;
            let ghost log1 = om.store_log() + entries_view(ops0);
            let cid = transaction.pending_relationship_writes[i].0;
            proof {
                assert forall|j: int|
                    0 <= j < transaction.pending_relationship_writes@.subrange(0, i as int).len() implies (
                #[trigger] transaction.pending_relationship_writes@.subrange(0, i as int)[j]).0 != cid by {
                    assert(transaction.pending_relationship_writes@[j].0 != transaction.pending_relationship_writes@[
                        i as int].0);
                }
                lemma_assoc_get_absent(transaction.pending_relationship_writes@.subrange(0, i as int), cid);
                assert(self.relationship_chain(cid) == om.relationship_chain(cid));
            }
            let ver = match self.version_store.latest_relationship_version(&cid) {
                None => 1u64,
                Some(v) => {
                    proof {
                        assert(next_ok_r(om.relationship_chain(cid)));
                    }
                    v.version + 1
                },
            };
            proof {
                assert(ver == next_version_r(om.relationship_chain(cid)));
                lemma_assoc_get_index(transaction.pending_relationship_writes@, i as int);
            }
            let rel_type = transaction.pending_relationship_writes[i].1.relationship_type.clone();
            let rel_source = transaction.pending_relationship_writes[i].1.source;
            let rel_target = transaction.pending_relationship_writes[i].1.target;
            let record = RelationshipVersion {
                relationship_id: cid,
                version: ver,
                source: rel_source,
                relationship_type: rel_type,
                target: rel_target,
                created_at: stamp,
                created_by: transaction.id,
                deleted_at: None,
                deleted_by: None,
            };
            proof {
                assert(record@ == commit_rv(om, *transaction, stamp, cid));
            }
            let key = relationship_version_key(cid, ver);
            let value = encode_relationship_version(&record);
            let vlen = value.len();
            let ghost gkey = key@;
            let ghost gvalue = value@;
            let ghost rec = record@;
            proof {
                assert(spec_encode_rv(rec).len() == vlen as nat);
                assert((vlen as nat) < 0x1_0000_0000_0000_0000) by {
                    assert(vlen <= usize::MAX);
                }
                lemma_rv_str_len(rec, vlen as nat);
                crate::codec::lemma_relationship_record_roundtrip(rec);
            }
            ops.push((key, value));
            let ghost mid = *self;
            let _ = self.version_store.add_relationship_version(record);
            proof {
                assert(mid.relationship_chain(cid) == om.relationship_chain(cid));
                assert(self.relationship_chain(cid) == mid.relationship_chain(cid).push(rec));
                assert(entries_view(ops@) =~= entries_view(ops0).push((gkey, gvalue)));
                assert(commit_ops_w(om, *transaction, stamp, i + 1) =~= commit_ops_w(
                    om,
                    *transaction,
                    stamp,
                    i as int,
                ).push(relationship_op(om, *transaction, stamp, cid)));
                assert(relationship_op(om, *transaction, stamp, cid) == (gkey, gvalue));
                assert(entries_view(ops@) =~= base + commit_ops_w(om, *transaction, stamp, i + 1));
                assert(om.store_log() + entries_view(ops@) =~= log1.push((gkey, gvalue)));
                lemma_replay_append_relationship(log1, gkey, gvalue, rec);
                // the chain formula advances by one staged id
                assert(transaction.pending_relationship_writes@.subrange(0, i + 1) =~=
                    transaction.pending_relationship_writes@.subrange(0, i as int).push(
                    transaction.pending_relationship_writes@[i as int],
                ));
                lemma_assoc_push(
                    transaction.pending_relationship_writes@.subrange(0, i as int),
                    cid,
                    transaction.pending_relationship_writes@[i as int].1,
                );
                assert forall|id: u128| #[trigger]
                    self.relationship_chain(id) == chain_upto_w(
                    om,
                    *transaction,
                    stamp,
                    i + 1,
                    id,
                ) by {
                    if id == cid {
                        assert(staged_upto_w(*transaction, i as int, cid) is None);
                        assert(transaction.pending_relationship_writes@[i as int] == (
                            cid,
                            transaction.pending_relationship_writes@[i as int].1,
                        ));
                        assert(staged_upto_w(*transaction, i + 1, cid) == Some(
                            transaction.pending_relationship_writes@[i as int].1,
                        ));
                        assert(commit_rv(om, *transaction, stamp, cid) == rec);
                        assert(chain_upto_w(om, *transaction, stamp, i + 1, cid)
                            == om.relationship_chain(cid).push(rec));
                    } else {
                        assert(staged_upto_w(*transaction, i + 1, id) == staged_upto_w(
                            *transaction,
                            i as int,
                            id,
                        ));
                        assert(self.relationship_chain(id) == mid.relationship_chain(id));
                        assert(mid.relationship_chain(id) == chain_upto_w(
                            om,
                            *transaction,
                            stamp,
                            i as int,
                            id,
                        ));
                    }
                }
                assert forall|id: u128|
                    replay_relationships(om.store_log() + entries_view(ops@), id) == #[trigger]
                    self.relationship_chain(id) by {
                    assert(replay_relationships(log1.push((gkey, gvalue)), id) == (if id
                        == rec.relationship_id {
                        insert_by_version_r(replay_relationships(log1, id), rec)
                    } else {
                        replay_relationships(log1, id)
                    }));
                    if id == cid {
                        let chain = om.relationship_chain(cid);
                        assert(replay_relationships(log1, cid) == mid.relationship_chain(cid));
                        assert(replay_relationships(log1, cid) == chain);
                        if chain.len() > 0 {
                            assert(chain.last().version <= rec.version);
                        }
                        assert(insert_by_version_r(chain, rec) =~= chain.push(rec));
                    } else {
                        assert(replay_relationships(log1, id) == mid.relationship_chain(id));
                        assert(self.relationship_chain(id) == mid.relationship_chain(id));
                    }
                }
                assert forall|id: u128|
                    replay_concepts(om.store_log() + entries_view(ops@), id) == #[trigger]
                    self.concept_chain(id) by {
                    assert(replay_concepts(log1.push((gkey, gvalue)), id)
                        == replay_concepts(log1, id));
                    assert(replay_concepts(log1, id) == mid.concept_chain(id));
                    assert(self.concept_chain(id) == mid.concept_chain(id));
                }
                assert forall|id: u128| #[trigger]
                    self.concept_chain(id) == chain_after_commit_c(om, *transaction, stamp, id) by {
                    assert(self.concept_chain(id) == mid.concept_chain(id));
                    assert(mid.concept_chain(id) == chain_after_commit_c(
                        om,
                        *transaction,
                        stamp,
                        id,
                    ));
                }
                assert forall|j: int|
                    0 <= j < (om.store_log() + entries_view(ops@)).len() implies spec_decode_record(
                    (#[trigger] (om.store_log() + entries_view(ops@))[j]).1,
                ) is Some by {
                    if j < log1.len() {
                        assert((om.store_log() + entries_view(ops@))[j] == log1[j]);
                    } else {
                        assert((om.store_log() + entries_view(ops@))[j] == (gkey, gvalue));
                    }
                }
            }
            i = i + 1;
        }
        proof {
            assert(transaction.pending_relationship_writes@.subrange(0, np as int) =~=
                transaction.pending_relationship_writes@);
            assert forall|id: u128| #[trigger]
                self.relationship_chain(id) == chain_after_writes_r(om, *transaction, stamp, id) by {
                assert(staged_upto_w(*transaction, np as int, id) == staged_relationship(
                    *transaction,
                    id,
                ));
            }
        }
    }
}


/// Whether `id` is among the first `k` pending deletes.
pub open spec fn deleted_upto(t: Transaction, k: int, id: u128) -> bool {
    t.pending_deletes@.subrange(0, k).contains(id)
}

/// The chain of `id` once all staged relationship writes and the first `k`
/// pending deletes are applied.
pub open spec fn chain_upto_d(m: TransactionManager, t: Transaction, stamp: Timestamp, k: int, id: u128) -> Seq<RelationshipVersionV> {
    if staged_relationship(t, id) is Some {
        m.relationship_chain(id).push(commit_rv(m, t, stamp, id))
    } else if deleted_upto(t, k, id) {
        m.relationship_chain(id).push(commit_tombstone(m, t, stamp, id))
    } else {
        m.relationship_chain(id)
    }
}

impl TransactionManager {
    /// Phase two, tombstones: append one tombstone record per pending delete
    /// to the batch and to the index.
    #[verifier::rlimit(100)]
    #[verifier::spinoff_prover]
    fn apply_deletes(
        &mut self,
        transaction: &Transaction,
        stamp: Timestamp,
        ops: &mut Vec<(Vec<u8>, Vec<u8>)>,
        Ghost(om): Ghost<TransactionManager>,
    )
        requires
            om.wf(),
            transaction.wf(),
            commit_headroom(om, *transaction),
            stamp > om.timestamp_hi(),
            first_missing_delete(om, *transaction, 0) is None,
            old(self).index().wf(),
            old(self).store_log() == om.store_log(),
            old(self).active() == om.active(),
            old(self).timestamp_hi() == stamp,
            forall|id: u128| #[trigger]
                old(self).relationship_chain(id) == chain_after_writes_r(
                    om,
                    *transaction,
                    stamp,
                    id,
                ),
            forall|id: u128| #[trigger]
                old(self).concept_chain(id) == chain_after_commit_c(om, *transaction, stamp, id),
            log_decodes(om.store_log() + entries_view(old(ops)@)),
            forall|id: u128|
                replay_relationships(om.store_log() + entries_view(old(ops)@), id) == #[trigger]
                old(self).relationship_chain(id),
            forall|id: u128|
                replay_concepts(om.store_log() + entries_view(old(ops)@), id) == #[trigger]
                old(self).concept_chain(id),
        ensures
            final(self).index().wf(),
            final(self).store_log() == om.store_log(),
            final(self).active() == om.active(),
            final(self).timestamp_hi() == stamp,
            entries_view(final(ops)@) == entries_view(old(ops)@) + commit_ops_d(
                om,
                *transaction,
                stamp,
                transaction.pending_deletes@.len() as int,
            ),
            forall|id: u128| #[trigger]
                final(self).relationship_chain(id) == chain_after_commit_r(
                    om,
                    *transaction,
                    stamp,
                    id,
                ),
            forall|id: u128| #[trigger]
                final(self).concept_chain(id) == old(self).concept_chain(id),
            log_decodes(om.store_log() + entries_view(final(ops)@)),
            forall|id: u128|
                replay_relationships(om.store_log() + entries_view(final(ops)@), id) == #[trigger]
                final(self).relationship_chain(id),
            forall|id: u128|
                replay_concepts(om.store_log() + entries_view(final(ops)@), id) == #[trigger]
                final(self).concept_chain(id),
    {
        let np = transaction.pending_deletes.len();
        let mut i: usize = 0;
        let ghost base = entries_view(ops@);
        proof {
            assert(entries_view(ops@) =~= base + commit_ops_d(om, *transaction, stamp, 0));
            assert(transaction.pending_deletes@.subrange(0, 0) =~= Seq::<u128>::empty());
            assert forall|id: u128| #[trigger]
                self.relationship_chain(id) == chain_upto_d(om, *transaction, stamp, 0, id) by {
                assert(!deleted_upto(*transaction, 0, id));
            }
        }
        while i < np
            invariant
                i <= np,
                np == transaction.pending_deletes@.len(),
                om.wf(),
                transaction.wf(),
                commit_headroom(om, *transaction),
                stamp > om.timestamp_hi(),
                first_missing_delete(om, *transaction, i as int) is None,
                self.index().wf(),
                self.store_log() == om.store_log(),
                self.active() == om.active(),
                self.timestamp_hi() == stamp,
                entries_view(ops@) == base + commit_ops_d(om, *transaction, stamp, i as int),
                forall|id: u128| #[trigger]
                    self.relationship_chain(id) == chain_upto_d(
                        om,
                        *transaction,
                        stamp,
                        i as int,
                        id,
                    ),
                forall|id: u128| #[trigger]
                    self.concept_chain(id) == chain_after_commit_c(om, *transaction, stamp, id),
                log_decodes(om.store_log() + entries_view(ops@)),
                forall|id: u128|
                    replay_relationships(om.store_log() + entries_view(ops@), id) == #[trigger]
                    self.relationship_chain(id),
                forall|id: u128|
                    replay_concepts(om.store_log() + entries_view(ops@), id) == #[trigger]
                    self.concept_chain(id),
            decreases np - i,
        {
            let ghost ops0 = ops@;
            let ghost log1 = om.store_log() + entries_view(ops0);
            let rid = transaction.pending_deletes[i];
            proof {
                assert(staged_relationship(*transaction, rid) is None);
                assert forall|j: int|
                    0 <= j < transaction.pending_deletes@.subrange(0, i as int).len() implies
                    #[trigger] transaction.pending_deletes@.subrange(0, i as int)[j] != rid by {
                    assert(transaction.pending_deletes@[j] != transaction.pending_deletes@[
                        i as int]);
                }
                assert(!deleted_upto(*transaction, i as int, rid));
                assert(self.relationship_chain(rid) == om.relationship_chain(rid));
                assert(om.relationship_chain(rid).len() > 0);
                assert(next_ok_r(om.relationship_chain(rid)));
            }
            let prior = match self.version_store.latest_relationship_version(&rid) {
                Some(p) => p,
                None => {
                    proof {
                        assert(false);
                    }
                    return ;
                },
            };
            let ver = prior.version + 1;
            proof {
                assert(prior@ == om.relationship_chain(rid).last());
                assert(ver == next_version_r(om.relationship_chain(rid)));
            }
            let record = RelationshipVersion {
                relationship_id: rid,
                version: ver,
                source: prior.source,
                relationship_type: prior.relationship_type.clone(),
                target: prior.target,
                created_at: stamp,
                created_by: transaction.id,
                deleted_at: Some(stamp),
                deleted_by: Some(transaction.id),
            };
            proof {
                assert(record@ == commit_tombstone(om, *transaction, stamp, rid));
            }
            let key = relationship_version_key(rid, ver);
            let value = encode_relationship_version(&record);
            let vlen = value.len();
            let ghost gkey = key@;
            let ghost gvalue = value@;
            let ghost rec = record@;
            proof {
                assert(spec_encode_rv(rec).len() == vlen as nat);
                assert((vlen as nat) < 0x1_0000_0000_0000_0000) by {
                    assert(vlen <= usize::MAX);
                }
                lemma_rv_str_len(rec, vlen as nat);
                crate::codec::lemma_relationship_record_roundtrip(rec);
            }
            ops.push((key, value));
            let ghost mid = *self;
            let _ = self.version_store.add_relationship_version(record);
            proof {
                assert(mid.relationship_chain(rid) == om.relationship_chain(rid));
                assert(self.relationship_chain(rid) == mid.relationship_chain(rid).push(rec));
                assert(entries_view(ops@) =~= entries_view(ops0).push((gkey, gvalue)));
                assert(commit_ops_d(om, *transaction, stamp, i + 1) =~= commit_ops_d(
                    om,
                    *transaction,
                    stamp,
                    i as int,
                ).push(tombstone_op(om, *transaction, stamp, rid)));
                assert(tombstone_op(om, *transaction, stamp, rid) == (gkey, gvalue));
                assert(entries_view(ops@) =~= base + commit_ops_d(om, *transaction, stamp, i + 1));
                assert(om.store_log() + entries_view(ops@) =~= log1.push((gkey, gvalue)));
                lemma_replay_append_relationship(log1, gkey, gvalue, rec);
                assert(transaction.pending_deletes@.subrange(0, i + 1) =~=
                    transaction.pending_deletes@.subrange(0, i as int).push(
                    transaction.pending_deletes@[i as int],
                ));
                assert forall|id: u128| #[trigger]
                    self.relationship_chain(id) == chain_upto_d(
                    om,
                    *transaction,
                    stamp,
                    i + 1,
                    id,
                ) by {
                    if id == rid {
                        assert(deleted_upto(*transaction, i + 1, rid)) by {
                            assert(transaction.pending_deletes@.subrange(0, i + 1)[i as int]
                                == rid);
                        }
                        assert(commit_tombstone(om, *transaction, stamp, rid) == rec);
                        assert(chain_upto_d(om, *transaction, stamp, i + 1, rid)
                            == om.relationship_chain(rid).push(rec));
                    } else {
                        assert(deleted_upto(*transaction, i + 1, id) == deleted_upto(
                            *transaction,
                            i as int,
                            id,
                        )) by {
                            let sub1 = transaction.pending_deletes@.subrange(0, i + 1);
                            let sub0 = transaction.pending_deletes@.subrange(0, i as int);
                            if sub1.contains(id) {
                                let j = choose|j: int| 0 <= j < sub1.len() && sub1[j] == id;
                                assert(j < i as int);
                                assert(sub0[j] == id);
                            }
                            if sub0.contains(id) {
                                let j = choose|j: int| 0 <= j < sub0.len() && sub0[j] == id;
                                assert(sub1[j] == id);
                            }
                        }
                        assert(self.relationship_chain(id) == mid.relationship_chain(id));
                        assert(mid.relationship_chain(id) == chain_upto_d(
                            om,
                            *transaction,
                            stamp,
                            i as int,
                            id,
                        ));
                    }
                }
                assert forall|id: u128|
                    replay_relationships(om.store_log() + entries_view(ops@), id) == #[trigger]
                    self.relationship_chain(id) by {
                    assert(replay_relationships(log1.push((gkey, gvalue)), id) == (if id
                        == rec.relationship_id {
                        insert_by_version_r(replay_relationships(log1, id), rec)
                    } else {
                        replay_relationships(log1, id)
                    }));
                    if id == rid {
                        let chain = om.relationship_chain(rid);
                        assert(replay_relationships(log1, rid) == mid.relationship_chain(rid));
                        assert(replay_relationships(log1, rid) == chain);
                        assert(chain.last().version <= rec.version);
                        assert(insert_by_version_r(chain, rec) =~= chain.push(rec));
                    } else {
                        assert(replay_relationships(log1, id) == mid.relationship_chain(id));
                        assert(self.relationship_chain(id) == mid.relationship_chain(id));
                    }
                }
                assert forall|id: u128|
                    replay_concepts(om.store_log() + entries_view(ops@), id) == #[trigger]
                    self.concept_chain(id) by {
                    assert(replay_concepts(log1.push((gkey, gvalue)), id) == replay_concepts(
                        log1,
                        id,
                    ));
                    assert(replay_concepts(log1, id) == mid.concept_chain(id));
                    assert(self.concept_chain(id) == mid.concept_chain(id));
                }
                assert forall|id: u128| #[trigger]
                    self.concept_chain(id) == chain_after_commit_c(om, *transaction, stamp, id) by {
                    assert(self.concept_chain(id) == mid.concept_chain(id));
                    assert(mid.concept_chain(id) == chain_after_commit_c(
                        om,
                        *transaction,
                        stamp,
                        id,
                    ));
                }
                assert forall|j: int|
                    0 <= j < (om.store_log() + entries_view(ops@)).len() implies spec_decode_record(
                    (#[trigger] (om.store_log() + entries_view(ops@))[j]).1,
                ) is Some by {
                    if j < log1.len() {
                        assert((om.store_log() + entries_view(ops@))[j] == log1[j]);
                    } else {
                        assert((om.store_log() + entries_view(ops@))[j] == (gkey, gvalue));
                    }
                }
            }
            i = i + 1;
        }
        proof {
            assert(transaction.pending_deletes@.subrange(0, np as int) =~=
                transaction.pending_deletes@);
            assert forall|id: u128| #[trigger]
                self.relationship_chain(id) == chain_after_commit_r(om, *transaction, stamp, id) by {
                assert(deleted_upto(*transaction, np as int, id) == transaction.pending_deletes@.contains(id));
            }
        }
    }
}


/// If no pending delete is missing from position `i` on, every later delete
/// target has a version to tombstone.
proof fn lemma_no_missing_deletes(om: TransactionManager, t: Transaction, i: int)
    requires
        0 <= i <= t.pending_deletes@.len(),
        first_missing_delete(om, t, i) is None,
    ensures
        forall|j: int|
            i <= j < t.pending_deletes@.len() ==> om.relationship_chain(
                #[trigger] t.pending_deletes@[j],
            ).len() > 0,
    decreases t.pending_deletes@.len() - i,
{
    if i < t.pending_deletes@.len() {
        lemma_no_missing_deletes(om, t, i + 1);
    }
}

/// The chains a commit leaves behind are well formed at the new watermark,
/// and the temporal and density laws survive the commit.
#[verifier::rlimit(100)]
#[verifier::spinoff_prover]
proof fn lemma_commit_post(om: TransactionManager, t: Transaction, stamp: Timestamp, m2: TransactionManager)
    requires
        om.wf(),
        t.wf(),
        commit_headroom(om, t),
        stamp > om.timestamp_hi(),
        first_missing_delete(om, t, 0) is None,
        m2.timestamp_hi() == stamp,
        forall|id: u128| #[trigger] m2.concept_chain(id) == chain_after_commit_c(om, t, stamp, id),
        forall|id: u128| #[trigger]
            m2.relationship_chain(id) == chain_after_commit_r(om, t, stamp, id),
    ensures
        forall|id: u128| chain_wf_c(#[trigger] m2.concept_chain(id), id, m2.timestamp_hi()),
        forall|id: u128| chain_wf_r(#[trigger] m2.relationship_chain(id), id, m2.timestamp_hi()),
        om.temporal_wf() ==> m2.temporal_wf(),
        om.dense() ==> m2.dense(),
{
    lemma_no_missing_deletes(om, t, 0);
    assert forall|id: u128| chain_wf_c(#[trigger] m2.concept_chain(id), id, m2.timestamp_hi()) by {
        let old_chain = om.concept_chain(id);
        let chain = m2.concept_chain(id);
        assert(chain_wf_c(old_chain, id, om.timestamp_hi()));
        if staged_concept(t, id) is Some {
            crate::assoc::lemma_assoc_get_some_index(t.pending_writes@, id);
            let j = choose|j: int|
                0 <= j < t.pending_writes@.len() && (#[trigger] t.pending_writes@[j]).0 == id
                    && t.pending_writes@[j].1 == staged_concept(t, id).unwrap();
            assert(next_ok_c(om.concept_chain(t.pending_writes@[j].0)));
            let rec = commit_cv(om, t, stamp, id);
            assert(chain == old_chain.push(rec));
            if old_chain.len() > 0 {
                assert(rec.version == old_chain.last().version + 1);
            }
            assert forall|a: int, b: int| 0 <= a <= b < chain.len() implies (
            #[trigger] chain[a]).version <= (#[trigger] chain[b]).version by {
                if b < old_chain.len() {
                    assert(old_chain[a].version <= old_chain[b].version);
                } else if a < old_chain.len() {
                    assert(old_chain[a].version <= old_chain.last().version);
                }
            }
            assert forall|a: int|
                0 <= a < chain.len() implies (#[trigger] chain[a]).created_at <= stamp && (
            chain[a].deleted_at is Some ==> chain[a].deleted_at.unwrap() <= stamp) by {
                if a < old_chain.len() {
                    assert(old_chain[a].created_at <= om.timestamp_hi());
                }
            }
            assert forall|a: int| 0 <= a < chain.len() implies (#[trigger] chain[a]).concept_id
                == id by {
                if a < old_chain.len() {
                    assert(old_chain[a].concept_id == id);
                }
            }
        } else {
            assert(chain == old_chain);
            assert forall|a: int|
                0 <= a < chain.len() implies (#[trigger] chain[a]).created_at <= stamp && (
            chain[a].deleted_at is Some ==> chain[a].deleted_at.unwrap() <= stamp) by {
                assert(old_chain[a].created_at <= om.timestamp_hi());
            }
        }
    }
    assert forall|id: u128| chain_wf_r(#[trigger] m2.relationship_chain(id), id, m2.timestamp_hi())
        by {
        let old_chain = om.relationship_chain(id);
        let chain = m2.relationship_chain(id);
        assert(chain_wf_r(old_chain, id, om.timestamp_hi()));
        if staged_relationship(t, id) is Some || t.pending_deletes@.contains(id) {
            if staged_relationship(t, id) is Some {
                crate::assoc::lemma_assoc_get_some_index(t.pending_relationship_writes@, id);
                let j = choose|j: int|
                    0 <= j < t.pending_relationship_writes@.len() && (
                    #[trigger] t.pending_relationship_writes@[j]).0 == id
                        && t.pending_relationship_writes@[j].1 == staged_relationship(
                        t,
                        id,
                    ).unwrap();
                assert(next_ok_r(om.relationship_chain(t.pending_relationship_writes@[j].0)));
            } else {
                let j = choose|j: int|
                    0 <= j < t.pending_deletes@.len() && t.pending_deletes@[j] == id;
                assert(next_ok_r(om.relationship_chain(t.pending_deletes@[j])));
            }
            let rec = if staged_relationship(t, id) is Some {
                commit_rv(om, t, stamp, id)
            } else {
                commit_tombstone(om, t, stamp, id)
            };
            assert(chain == old_chain.push(rec));
            if old_chain.len() > 0 {
                assert(rec.version == old_chain.last().version + 1);
            }
            assert(rec.relationship_id == id);
            assert(rec.created_at == stamp);
            assert(rec.deleted_at is Some ==> rec.deleted_at.unwrap() == stamp);
            assert forall|a: int, b: int| 0 <= a <= b < chain.len() implies (
            #[trigger] chain[a]).version <= (#[trigger] chain[b]).version by {
                if b < old_chain.len() {
                    assert(old_chain[a].version <= old_chain[b].version);
                } else if a < old_chain.len() {
                    assert(old_chain[a].version <= old_chain.last().version);
                }
            }
            assert forall|a: int|
                0 <= a < chain.len() implies (#[trigger] chain[a]).created_at <= stamp && (
            chain[a].deleted_at is Some ==> chain[a].deleted_at.unwrap() <= stamp) by {
                if a < old_chain.len() {
                    assert(old_chain[a].created_at <= om.timestamp_hi());
                }
            }
            assert forall|a: int|
                0 <= a < chain.len() implies (#[trigger] chain[a]).relationship_id == id by {
                if a < old_chain.len() {
                    assert(old_chain[a].relationship_id == id);
                }
            }
        } else {
            assert(chain == old_chain);
            assert forall|a: int|
                0 <= a < chain.len() implies (#[trigger] chain[a]).created_at <= stamp && (
            chain[a].deleted_at is Some ==> chain[a].deleted_at.unwrap() <= stamp) by {
                assert(old_chain[a].created_at <= om.timestamp_hi());
            }
        }
    }
    if om.temporal_wf() {
        assert forall|id: u128| time_sorted_c(#[trigger] m2.concept_chain(id)) by {
            let old_chain = om.concept_chain(id);
            let chain = m2.concept_chain(id);
            assert(time_sorted_c(old_chain));
            assert forall|a: int, b: int| 0 <= a <= b < chain.len() implies (
            #[trigger] chain[a]).created_at <= (#[trigger] chain[b]).created_at by {
                if b < old_chain.len() {
                    assert(old_chain[a].created_at <= old_chain[b].created_at);
                } else if a < old_chain.len() {
                    assert(old_chain[a].created_at <= om.timestamp_hi());
                }
            }
        }
        assert forall|id: u128| time_sorted_r(#[trigger] m2.relationship_chain(id)) by {
            let old_chain = om.relationship_chain(id);
            let chain = m2.relationship_chain(id);
            assert(time_sorted_r(old_chain));
            assert forall|a: int, b: int| 0 <= a <= b < chain.len() implies (
            #[trigger] chain[a]).created_at <= (#[trigger] chain[b]).created_at by {
                if b < old_chain.len() {
                    assert(old_chain[a].created_at <= old_chain[b].created_at);
                } else if a < old_chain.len() {
                    assert(old_chain[a].created_at <= om.timestamp_hi());
                }
            }
        }
    }
    if om.dense() {
        assert forall|id: u128, a: int|
            0 <= a < m2.concept_chain(id).len() implies (#[trigger] m2.concept_chain(
            id,
        )[a]).version == a + 1 by {
            let old_chain = om.concept_chain(id);
            if a < old_chain.len() {
                assert(old_chain[a].version == a + 1);
                assert(m2.concept_chain(id)[a] == old_chain[a]);
            } else {
                assert(staged_concept(t, id) is Some);
                crate::assoc::lemma_assoc_get_some_index(t.pending_writes@, id);
                let j = choose|j: int|
                    0 <= j < t.pending_writes@.len() && (#[trigger] t.pending_writes@[j]).0 == id
                        && t.pending_writes@[j].1 == staged_concept(t, id).unwrap();
                assert(next_ok_c(om.concept_chain(t.pending_writes@[j].0)));
                if old_chain.len() > 0 {
                    assert(old_chain.last().version == old_chain.len());
                }
            }
        }
        assert forall|id: u128, a: int|
            0 <= a < m2.relationship_chain(id).len() implies (#[trigger] m2.relationship_chain(
            id,
        )[a]).version == a + 1 by {
            let old_chain = om.relationship_chain(id);
            if a < old_chain.len() {
                assert(old_chain[a].version == a + 1);
                assert(m2.relationship_chain(id)[a] == old_chain[a]);
            } else {
                if staged_relationship(t, id) is Some {
                    crate::assoc::lemma_assoc_get_some_index(t.pending_relationship_writes@, id);
                    let j = choose|j: int|
                        0 <= j < t.pending_relationship_writes@.len() && (
                        #[trigger] t.pending_relationship_writes@[j]).0 == id
                            && t.pending_relationship_writes@[j].1 == staged_relationship(
                            t,
                            id,
                        ).unwrap();
                    assert(next_ok_r(om.relationship_chain(t.pending_relationship_writes@[j].0)));
                } else {
                    assert(t.pending_deletes@.contains(id));
                    let j = choose|j: int|
                        0 <= j < t.pending_deletes@.len() && t.pending_deletes@[j] == id;
                    assert(next_ok_r(om.relationship_chain(t.pending_deletes@[j])));
                }
                if old_chain.len() > 0 {
                    assert(old_chain.last().version == old_chain.len());
                }
            }
        }
    }
}

impl TransactionManager {
    /// Remove a transaction's registration, if present; everything else in
    /// the manager is untouched.  Commit and abort both consume the
    /// transaction this way, whether or not they succeed.
    fn deregister(&mut self, transaction_id: TransactionId)
        requires
            distinct_keys(old(self).active()),
        ensures
            final(self).index() == old(self).index(),
            final(self).store_log() == old(self).store_log(),
            final(self).timestamp_hi() == old(self).timestamp_hi(),
            distinct_keys(final(self).active()),
            !final(self).is_active(transaction_id),
            forall|tid: u128|
                tid != transaction_id ==> #[trigger] final(self).active_txn(tid) == old(
                    self,
                ).active_txn(tid),
            old(self).wf() ==> final(self).wf(),
            forall|id: u128| #[trigger]
                final(self).concept_chain(id) == old(self).concept_chain(id),
            forall|id: u128| #[trigger]
                final(self).relationship_chain(id) == old(self).relationship_chain(id),
    {
        let ghost oldactive = self.active();
        match self.find_active_index(transaction_id) {
            Some(i) => {
                self.active_transactions.remove(i);
                proof {
                    lemma_assoc_remove(oldactive, i as int);
                    if old(self).wf() {
                        assert forall|j: int|
                            0 <= j < self.active().len() implies (
                        #[trigger] self.active()[j]).1.start_timestamp <= self.timestamp_hi() by {
                            let j2: int = if j < i as int {
                                j
                            } else {
                                j + 1
                            };
                            assert(self.active()[j] == oldactive[j2]);
                            assert(oldactive[j2].1.start_timestamp <= old(self).timestamp_hi());
                        }
                        lemma_chains_preserved(*old(self), *self);
                    }
                }
            },
            None => {},
        }
    }

    /// Commit: validate the write sets against the index
    /// (first-committer-wins), stamp an instant strictly after every instant
    /// issued before, append one version record per staged write and one
    /// tombstone per pending delete, in one atomic batch to the durable log
    /// and to the Version Index, and deregister the transaction.  On an
    /// error no version record is written and no read changes; the
    /// transaction is consumed either way — a refused one is deregistered
    /// and the caller retries with a fresh begin.  Returns the batch that
    /// was written, so a caller may mirror the log onto external media.
    #[verifier::rlimit(100)]
    #[verifier::spinoff_prover]
    pub fn commit_transaction(&mut self, transaction: Transaction) -> (r: Result<
        Vec<(Vec<u8>, Vec<u8>)>,
        MnemonicError,
    >)
        requires
            old(self).wf(),
            transaction.wf(),
        ensures
            final(self).wf(),
            match r {
                Result::Err(e) => {
                    &&& commit_error(*old(self), transaction) == Some(e)
                    &&& forall|id: u128| #[trigger]
                        final(self).concept_chain(id) == old(self).concept_chain(id)
                    &&& forall|id: u128| #[trigger]
                        final(self).relationship_chain(id) == old(self).relationship_chain(id)
                    &&& final(self).store_log() == old(self).store_log()
                    &&& final(self).timestamp_hi() == old(self).timestamp_hi()
                    &&& !final(self).is_active(transaction.id)
                    &&& forall|tid: u128|
                        tid != transaction.id ==> #[trigger] final(self).active_txn(tid) == old(
                            self,
                        ).active_txn(tid)
                },
                Result::Ok(ops) => {
                    &&& commit_error(*old(self), transaction) is None
                    &&& final(self).timestamp_hi() > old(self).timestamp_hi()
                    &&& entries_view(ops@) == commit_ops(
                        *old(self),
                        transaction,
                        final(self).timestamp_hi(),
                    )
                    &&& final(self).store_log() == old(self).store_log() + entries_view(ops@)
                    &&& forall|id: u128| #[trigger]
                        final(self).concept_chain(id) == chain_after_commit_c(
                            *old(self),
                            transaction,
                            final(self).timestamp_hi(),
                            id,
                        )
                    &&& forall|id: u128| #[trigger]
                        final(self).relationship_chain(id) == chain_after_commit_r(
                            *old(self),
                            transaction,
                            final(self).timestamp_hi(),
                            id,
                        )
                    &&& !final(self).is_active(transaction.id)
                    &&& forall|tid: u128|
                        tid != transaction.id ==> #[trigger] final(self).active_txn(tid) == old(
                            self,
                        ).active_txn(tid)
                },
            },
            old(self).temporal_wf() ==> final(self).temporal_wf(),
            old(self).dense() ==> final(self).dense(),
    {
        let ghost om = *old(self);
        match self.find_active_index(transaction.id) {
            None => {
                return Err(MnemonicError::Transaction(transaction.id));
            },
            Some(_) => {},
        }
        match self.validate_transaction(&transaction) {
            Err(e) => {
                self.deregister(transaction.id);
                return Err(e);
            },
            Ok(()) => {},
        }
        let nd = transaction.pending_deletes.len();
        let mut i: usize = 0;
        while i < nd
            invariant
                i <= nd,
                nd == transaction.pending_deletes@.len(),
                om == *old(self),
                *self == om,
                om.wf(),
                transaction.wf(),
                om.is_active(transaction.id),
                first_conflict(om, transaction) is None,
                first_missing_delete(om, transaction, 0) == first_missing_delete(
                    om,
                    transaction,
                    i as int,
                ),
            decreases nd - i,
        {
            let rid = transaction.pending_deletes[i];
            match self.version_store.latest_relationship_version(&rid) {
                None => {
                    self.deregister(transaction.id);
                    return Err(MnemonicError::RelationshipNotFound(rid));
                },
                Some(_) => {},
            }
            i = i + 1;
        }
        if self.ts_hi == 0xffff_ffff_ffff_ffffu64 {
            self.deregister(transaction.id);
            return Err(MnemonicError::Transaction(transaction.id));
        }
        let ncw = transaction.pending_writes.len();
        let mut iw: usize = 0;
        while iw < ncw
            invariant
                iw <= ncw,
                ncw == transaction.pending_writes@.len(),
                om == *old(self),
                *self == om,
                om.wf(),
                transaction.wf(),
                om.is_active(transaction.id),
                first_conflict(om, transaction) is None,
                first_missing_delete(om, transaction, 0) is None,
                om.timestamp_hi() < 0xffff_ffff_ffff_ffffu64,
                forall|j: int|
                    0 <= j < iw ==> next_ok_c(
                        om.concept_chain((#[trigger] transaction.pending_writes@[j]).0),
                    ),
            decreases ncw - iw,
        {
            let cid = transaction.pending_writes[iw].0;
            match self.version_store.latest_concept_version(&cid) {
                Some(v) => {
                    if v.version == 0xffff_ffff_ffff_ffffu64 {
                        self.deregister(transaction.id);
                        return Err(MnemonicError::Transaction(transaction.id));
                    }
                },
                None => {},
            }
            iw = iw + 1;
        }
        let nrw = transaction.pending_relationship_writes.len();
        let mut ir: usize = 0;
        while ir < nrw
            invariant
                ir <= nrw,
                nrw == transaction.pending_relationship_writes@.len(),
                om == *old(self),
                *self == om,
                om.wf(),
                transaction.wf(),
                om.is_active(transaction.id),
                first_conflict(om, transaction) is None,
                first_missing_delete(om, transaction, 0) is None,
                om.timestamp_hi() < 0xffff_ffff_ffff_ffffu64,
                forall|j: int|
                    0 <= j < transaction.pending_writes@.len() ==> next_ok_c(
                        om.concept_chain((#[trigger] transaction.pending_writes@[j]).0),
                    ),
                forall|j: int|
                    0 <= j < ir ==> next_ok_r(
                        om.relationship_chain(
                            (#[trigger] transaction.pending_relationship_writes@[j]).0,
                        ),
                    ),
            decreases nrw - ir,
        {
            let rid = transaction.pending_relationship_writes[ir].0;
            match self.version_store.latest_relationship_version(&rid) {
                Some(v) => {
                    if v.version == 0xffff_ffff_ffff_ffffu64 {
                        self.deregister(transaction.id);
                        return Err(MnemonicError::Transaction(transaction.id));
                    }
                },
                None => {},
            }
            ir = ir + 1;
        }
        let mut idd: usize = 0;
        while idd < nd
            invariant
                idd <= nd,
                nd == transaction.pending_deletes@.len(),
                om == *old(self),
                *self == om,
                om.wf(),
                transaction.wf(),
                om.is_active(transaction.id),
                first_conflict(om, transaction) is None,
                first_missing_delete(om, transaction, 0) is None,
                om.timestamp_hi() < 0xffff_ffff_ffff_ffffu64,
                forall|j: int|
                    0 <= j < transaction.pending_writes@.len() ==> next_ok_c(
                        om.concept_chain((#[trigger] transaction.pending_writes@[j]).0),
                    ),
                forall|j: int|
                    0 <= j < transaction.pending_relationship_writes@.len() ==> next_ok_r(
                        om.relationship_chain(
                            (#[trigger] transaction.pending_relationship_writes@[j]).0,
                        ),
                    ),
                forall|j: int|
                    0 <= j < idd ==> next_ok_r(
                        om.relationship_chain(#[trigger] transaction.pending_deletes@[j]),
                    ),
            decreases nd - idd,
        {
            let rid = transaction.pending_deletes[idd];
            match self.version_store.latest_relationship_version(&rid) {
                Some(v) => {
                    if v.version == 0xffff_ffff_ffff_ffffu64 {
                        self.deregister(transaction.id);
                        return Err(MnemonicError::Transaction(transaction.id));
                    }
                },
                None => {},
            }
            idd = idd + 1;
        }
        proof {
            assert(commit_headroom(om, transaction));
            assert(commit_error(om, transaction) is None);
        }
        // Phase two: stamp the commit instant and apply all changes; the
        // batch is written to the durable log in one piece.
        let now = current_clock();
        let stamp = if now > self.ts_hi {
            now
        } else {
            self.ts_hi + 1
        };
        self.ts_hi = stamp;
        let mut ops: Vec<(Vec<u8>, Vec<u8>)> = Vec::new();
        self.apply_concept_writes(&transaction, stamp, &mut ops, Ghost(om));
        self.apply_relationship_writes(&transaction, stamp, &mut ops, Ghost(om));
        self.apply_deletes(&transaction, stamp, &mut ops, Ghost(om));
        let ghost m3 = *self;
        self.store.write_batch(&ops);
        let ghost m4 = *self;
        // Phase three: deregister the transaction.
        let ghost oldactive = self.active();
        match self.find_active_index(transaction.id) {
            Some(idx) => {
                self.active_transactions.remove(idx);
                proof {
                    lemma_assoc_remove(oldactive, idx as int);
                    assert forall|j: int|
                        0 <= j < self.active().len() implies (
                    #[trigger] self.active()[j]).1.start_timestamp <= self.timestamp_hi() by {
                        let j2: int = if j < idx as int {
                            j
                        } else {
                            j + 1
                        };
                        assert(self.active()[j] == oldactive[j2]);
                        assert(oldactive[j2].1.start_timestamp <= om.timestamp_hi());
                    }
                }
            },
            None => {
                proof {
                    assert(false);
                }
            },
        }
        proof {
            assert(entries_view(ops@) =~= commit_ops(om, transaction, stamp));
            assert(self.store_log() == om.store_log() + entries_view(ops@));
            assert forall|id: u128| #[trigger]
                self.concept_chain(id) == chain_after_commit_c(om, transaction, stamp, id) by {
                assert(self.concept_chain(id) == m3.concept_chain(id));
            }
            assert forall|id: u128| #[trigger]
                self.relationship_chain(id) == chain_after_commit_r(om, transaction, stamp, id) by {
                assert(self.relationship_chain(id) == m3.relationship_chain(id));
            }
            lemma_commit_post(om, transaction, stamp, *self);
            assert forall|id: u128|
                replay_concepts(self.store_log(), id) == #[trigger] self.concept_chain(id) by {
                assert(replay_concepts(om.store_log() + entries_view(ops@), id)
                    == m3.concept_chain(id));
                assert(self.concept_chain(id) == m3.concept_chain(id));
            }
            assert forall|id: u128|
                replay_relationships(self.store_log(), id) == #[trigger] self.relationship_chain(
                id,
            ) by {
                assert(replay_relationships(om.store_log() + entries_view(ops@), id)
                    == m3.relationship_chain(id));
                assert(self.relationship_chain(id) == m3.relationship_chain(id));
            }
        }
        Ok(ops)
    }
}


/// A missing delete found from position `i` on is one of the pending
/// deletes.
pub proof fn lemma_first_missing_member(m: TransactionManager, t: Transaction, i: int)
    requires
        0 <= i <= t.pending_deletes@.len(),
        first_missing_delete(m, t, i) is Some,
    ensures
        t.pending_deletes@.contains(first_missing_delete(m, t, i).unwrap()),
    decreases t.pending_deletes@.len() - i,
{
    if m.relationship_chain(t.pending_deletes@[i]).len() == 0 {
        assert(t.pending_deletes@[i] == first_missing_delete(m, t, i).unwrap());
    } else {
        lemma_first_missing_member(m, t, i + 1);
    }
}

/// When every pending delete from position `i` on has a version to
/// tombstone, no missing delete is found.
pub proof fn lemma_no_missing_found(m: TransactionManager, t: Transaction, i: int)
    requires
        0 <= i <= t.pending_deletes@.len(),
        forall|j: int|
            i <= j < t.pending_deletes@.len() ==> m.relationship_chain(
                #[trigger] t.pending_deletes@[j],
            ).len() > 0,
    ensures
        first_missing_delete(m, t, i) is None,
    decreases t.pending_deletes@.len() - i,
{
    if i < t.pending_deletes@.len() {
        lemma_no_missing_found(m, t, i + 1);
    }
}

/// If validation finds no conflict from position `i` on, no later write-set
/// concept was modified after the snapshot.
proof fn lemma_no_conflict_c(m: TransactionManager, t: Transaction, i: int)
    requires
        0 <= i <= t.write_set@.len(),
        first_conflict_c(m, t, i) is None,
    ensures
        forall|j: int|
            i <= j < t.write_set@.len() ==> !concept_modified_since(
                m.concept_chain(#[trigger] t.write_set@[j]),
                t.start_timestamp,
            ),
    decreases t.write_set@.len() - i,
{
    if i < t.write_set@.len() {
        lemma_no_conflict_c(m, t, i + 1);
    }
}

/// Version numbers law: every chain of a well-formed manager over the empty
/// durable log is empty, so density holds; `begin_transaction`,
/// `commit_transaction` and `abort_transaction` each state that they
/// preserve density.  Together: for any sequence of commits starting from
/// an empty store, each entity's committed version numbers form
/// `1, 2, ..., N` with no gaps and no repeats.
pub proof fn lemma_empty_manager_dense(m: TransactionManager)
    requires
        m.wf(),
        m.store_log() == Seq::<(Seq<u8>, Seq<u8>)>::empty(),
    ensures
        m.dense(),
{
    assert forall|id: u128, i: int|
        0 <= i < m.concept_chain(id).len() implies (#[trigger] m.concept_chain(id)[i]).version == i
        + 1 by {
        assert(replay_concepts(m.store_log(), id) == m.concept_chain(id));
    }
    assert forall|id: u128, i: int|
        0 <= i < m.relationship_chain(id).len() implies (#[trigger] m.relationship_chain(
        id,
    )[i]).version == i + 1 by {
        assert(replay_relationships(m.store_log(), id) == m.relationship_chain(id));
    }
}

/// Durability law: two well-formed managers over the same durable log hold
/// the same chains, and therefore answer every time-travel read
/// identically.  Since building a manager hydrates its index as exactly the
/// replay of the log, restarting against the same Durable Store changes no
/// answer.
pub proof fn lemma_hydration_answers(m: TransactionManager, m2: TransactionManager)
    requires
        m.wf(),
        m2.wf(),
        m2.store_log() == m.store_log(),
    ensures
        forall|id: u128| #[trigger] m2.concept_chain(id) == m.concept_chain(id),
        forall|id: u128| #[trigger] m2.relationship_chain(id) == m.relationship_chain(id),
        forall|id: u128, t: Timestamp| #[trigger]
            crate::versioning::version_at_c(m2.concept_chain(id), t)
                == crate::versioning::version_at_c(m.concept_chain(id), t),
        forall|id: u128, t: Timestamp| #[trigger]
            crate::versioning::version_at_r(m2.relationship_chain(id), t)
                == crate::versioning::version_at_r(m.relationship_chain(id), t),
{
    assert forall|id: u128| #[trigger] m2.concept_chain(id) == m.concept_chain(id) by {
        assert(replay_concepts(m.store_log(), id) == m.concept_chain(id));
        assert(replay_concepts(m2.store_log(), id) == m2.concept_chain(id));
    }
    assert forall|id: u128| #[trigger] m2.relationship_chain(id) == m.relationship_chain(id) by {
        assert(replay_relationships(m.store_log(), id) == m.relationship_chain(id));
        assert(replay_relationships(m2.store_log(), id) == m2.relationship_chain(id));
    }
}

/// First committer wins: let transactions A and B overlap — B began before
/// A committed (B's snapshot is not after the watermark A's commit
/// exceeded) and both stage the same concept.  After A's successful commit,
/// B's commit is refused with a conflict error.
pub proof fn lemma_first_committer_wins(
    m0: TransactionManager,
    m1: TransactionManager,
    a: Transaction,
    b: Transaction,
    x: u128,
    stamp: Timestamp,
)
    requires
        m0.wf(),
        a.wf(),
        b.wf(),
        b.start_timestamp <= m0.timestamp_hi(),
        staged_concept(a, x) is Some,
        b.write_set@.contains(x),
        stamp > m0.timestamp_hi(),
        forall|id: u128| #[trigger]
            m1.concept_chain(id) == chain_after_commit_c(m0, a, stamp, id),
        m1.is_active(b.id),
    ensures
        commit_error(m1, b) is Some,
        commit_error(m1, b) == Some(
            MnemonicError::TransactionConflict(first_conflict(m1, b).unwrap()),
        ),
{
    let chain1 = m1.concept_chain(x);
    assert(chain1 == m0.concept_chain(x).push(commit_cv(m0, a, stamp, x)));
    assert(chain1.last().created_at == stamp);
    assert(chain1.last().deleted_at is None);
    assert(last_mod_c(chain1.last()) == stamp);
    assert(concept_modified_since(chain1, b.start_timestamp));
    let jx = choose|jx: int| 0 <= jx < b.write_set@.len() && b.write_set@[jx] == x;
    if first_conflict_c(m1, b, 0) is None {
        lemma_no_conflict_c(m1, b, 0);
        assert(!concept_modified_since(
            m1.concept_chain(b.write_set@[jx]),
            b.start_timestamp,
        ));
        assert(false);
    }
    assert(first_conflict(m1, b) is Some);
}

/// If validation finds no conflict from position `i` on, no later write-set
/// relationship was modified after the snapshot.
proof fn lemma_no_conflict_r(m: TransactionManager, t: Transaction, i: int)
    requires
        0 <= i <= t.relationship_write_set@.len(),
        first_conflict_r(m, t, i) is None,
    ensures
        forall|j: int|
            i <= j < t.relationship_write_set@.len() ==> !relationship_modified_since(
                m.relationship_chain(#[trigger] t.relationship_write_set@[j]),
                t.start_timestamp,
            ),
    decreases t.relationship_write_set@.len() - i,
{
    if i < t.relationship_write_set@.len() {
        lemma_no_conflict_r(m, t, i + 1);
    }
}

/// First committer wins, relationship flavour: when two overlapping
/// transactions touch the same relationship — one stages a write or a
/// delete of it and commits, the other has it in its relationship write
/// set — the second commit is refused with a conflict error.
pub proof fn lemma_first_committer_wins_relationship(
    m0: TransactionManager,
    m1: TransactionManager,
    a: Transaction,
    b: Transaction,
    x: u128,
    stamp: Timestamp,
)
    requires
        m0.wf(),
        a.wf(),
        b.wf(),
        b.start_timestamp <= m0.timestamp_hi(),
        staged_relationship(a, x) is Some || (a.pending_deletes@.contains(x)
            && m0.relationship_chain(x).len() > 0),
        b.relationship_write_set@.contains(x),
        stamp > m0.timestamp_hi(),
        forall|id: u128| #[trigger]
            m1.relationship_chain(id) == chain_after_commit_r(m0, a, stamp, id),
        m1.is_active(b.id),
    ensures
        commit_error(m1, b) is Some,
        commit_error(m1, b) == Some(
            MnemonicError::TransactionConflict(first_conflict(m1, b).unwrap()),
        ),
{
    let chain1 = m1.relationship_chain(x);
    if staged_relationship(a, x) is Some {
        assert(chain1 == m0.relationship_chain(x).push(commit_rv(m0, a, stamp, x)));
        assert(last_mod_r(chain1.last()) == stamp);
    } else {
        assert(staged_relationship(a, x) is None);
        assert(chain1 == m0.relationship_chain(x).push(commit_tombstone(m0, a, stamp, x)));
        assert(last_mod_r(chain1.last()) == stamp);
    }
    assert(relationship_modified_since(chain1, b.start_timestamp));
    let jx = choose|jx: int|
        0 <= jx < b.relationship_write_set@.len() && b.relationship_write_set@[jx] == x;
    if first_conflict(m1, b) is None {
        assert(first_conflict_r(m1, b, 0) is None);
        lemma_no_conflict_r(m1, b, 0);
        assert(!relationship_modified_since(
            m1.relationship_chain(b.relationship_write_set@[jx]),
            b.start_timestamp,
        ));
        assert(false);
    }
    assert(first_conflict(m1, b) is Some);
}

/// The snapshot law at the manager: under the temporal invariant — which
/// holds of every manager grown from an empty store — a time-travel read of
/// any entity returns exactly the unique version `v` with
/// `v.created_at <= t < (v.deleted_at | next.created_at | infinity)`, and
/// nothing when no such version exists.
pub proof fn lemma_reads_characterized(m: TransactionManager, id: u128, t: Timestamp)
    requires
        m.wf(),
        m.temporal_wf(),
    ensures
        crate::versioning::version_at_c(m.concept_chain(id), t) is Some ==> exists|i: int|
            #[trigger] crate::versioning::p2_witness_c(m.concept_chain(id), t, i)
                && m.concept_chain(id)[i] == crate::versioning::version_at_c(
                m.concept_chain(id),
                t,
            ).unwrap(),
        crate::versioning::version_at_c(m.concept_chain(id), t) is None ==> forall|i: int|
            !#[trigger] crate::versioning::p2_witness_c(m.concept_chain(id), t, i),
        forall|i: int, j: int|
            #[trigger] crate::versioning::p2_witness_c(m.concept_chain(id), t, i)
                && #[trigger] crate::versioning::p2_witness_c(m.concept_chain(id), t, j) ==> i
                == j,
        crate::versioning::version_at_r(m.relationship_chain(id), t) is Some ==> exists|i: int|
            #[trigger] crate::versioning::p2_witness_r(m.relationship_chain(id), t, i)
                && m.relationship_chain(id)[i] == crate::versioning::version_at_r(
                m.relationship_chain(id),
                t,
            ).unwrap(),
        crate::versioning::version_at_r(m.relationship_chain(id), t) is None ==> forall|i: int|
            !#[trigger] crate::versioning::p2_witness_r(m.relationship_chain(id), t, i),
        forall|i: int, j: int|
            #[trigger] crate::versioning::p2_witness_r(m.relationship_chain(id), t, i)
                && #[trigger] crate::versioning::p2_witness_r(m.relationship_chain(id), t, j)
                ==> i == j,
{
    crate::versioning::lemma_version_at_c_characterization(m.concept_chain(id), t);
    crate::versioning::lemma_version_at_r_characterization(m.relationship_chain(id), t);
}

/// Tombstone law: after a commit that deletes a relationship, reading it at
/// or after the commit instant yields nothing and its newest version is
/// inactive, while reads strictly before the commit instant answer exactly
/// as before it.
pub proof fn lemma_unrelate_effects(
    m0: TransactionManager,
    m1: TransactionManager,
    t: Transaction,
    rid: u128,
    stamp: Timestamp,
    q: Timestamp,
)
    requires
        m0.wf(),
        t.wf(),
        t.pending_deletes@.contains(rid),
        stamp > m0.timestamp_hi(),
        forall|id: u128| #[trigger]
            m1.relationship_chain(id) == chain_after_commit_r(m0, t, stamp, id),
    ensures
        q >= stamp ==> crate::versioning::version_at_r(m1.relationship_chain(rid), q) is None,
        q >= stamp ==> (m1.relationship_chain(rid).len() > 0 && !m1.relationship_chain(
            rid,
        ).last().active_at(q)),
        q < stamp ==> crate::versioning::version_at_r(m1.relationship_chain(rid), q)
            == crate::versioning::version_at_r(m0.relationship_chain(rid), q),
{
    let jd = choose|jd: int| 0 <= jd < t.pending_deletes@.len() && t.pending_deletes@[jd] == rid;
    assert(staged_relationship(t, rid) is None);
    let tomb = commit_tombstone(m0, t, stamp, rid);
    let chain1 = m1.relationship_chain(rid);
    assert(chain1 == m0.relationship_chain(rid).push(tomb));
    assert(tomb.created_at == stamp && tomb.deleted_at == Some(stamp));
    if q >= stamp {
        assert(chain1.last() == tomb);
        assert(!tomb.active_at(q));
        assert(crate::versioning::version_at_r(chain1, q) is None);
    }
    if q < stamp {
        crate::versioning::lemma_tombstone_preserves_past_r(
            m0.relationship_chain(rid),
            tomb,
            q,
        );
    }
}

} // verus!
