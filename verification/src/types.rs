//! Entity model: concepts (nodes), relationships (directed typed edges) and
//! their immutable version records.
//!
//! Identifiers are 128-bit values; instants are milliseconds since the Unix
//! epoch.  Each executable type has a ghost view so that contracts can speak
//! of payload text as a sequence of characters.

use vstd::prelude::*;

use crate::ext::{fresh_id, now_millis};

verus! {

pub type ConceptId = u128;

pub type TransactionId = u128;

pub type RelationshipId = u128;

pub type RelationType = String;

pub type Timestamp = u64;

/// The clock reading clamped to the library's timestamp domain: instants
/// before the epoch are treated as the epoch itself.
pub fn current_clock() -> Timestamp {
    let t = now_millis();
    if t < 0 {
        0
    } else {
        t as u64
    }
}

/// The payload of a concept: either a pure structural node, or an opaque
/// UTF-8 string chosen by the caller (typically JSON).
pub enum ConceptData {
    Empty,
    Structured(String),
}

pub ghost enum ConceptDataV {
    Empty,
    Structured(Seq<char>),
}

impl View for ConceptData {
    type V = ConceptDataV;

    open spec fn view(&self) -> ConceptDataV {
        match self {
            ConceptData::Empty => ConceptDataV::Empty,
            ConceptData::Structured(s) => ConceptDataV::Structured(s@),
        }
    }
}

impl Clone for ConceptData {
    fn clone(&self) -> (res: Self)
        ensures
            res@ == self@,
    {
        match self {
            ConceptData::Empty => ConceptData::Empty,
            ConceptData::Structured(s) => ConceptData::Structured(s.clone()),
        }
    }
}

/// Creation and update instants, a version number and the creating
/// transaction of a concept.
pub struct ConceptMetadata {
    pub created_at: Timestamp,
    pub updated_at: Timestamp,
    pub version: u64,
    pub transaction_id: TransactionId,
}

impl Clone for ConceptMetadata {
    fn clone(&self) -> (res: Self)
        ensures
            res == *self,
    {
        ConceptMetadata {
            created_at: self.created_at,
            updated_at: self.updated_at,
            version: self.version,
            transaction_id: self.transaction_id,
        }
    }
}

impl Default for ConceptMetadata {
    /// A fresh metadata block: both instants are "now", version 1, and the
    /// nil transaction.
    fn default() -> (res: Self)
        ensures
            res.created_at == res.updated_at,
            res.version == 1,
            res.transaction_id == 0,
    {
        let now = current_clock();
        ConceptMetadata { created_at: now, updated_at: now, version: 1, transaction_id: 0 }
    }
}

/// A node of the graph.
pub struct Concept {
    pub id: ConceptId,
    pub data: ConceptData,
    pub metadata: ConceptMetadata,
}

pub ghost struct ConceptV {
    pub id: ConceptId,
    pub data: ConceptDataV,
    pub created_at: Timestamp,
    pub updated_at: Timestamp,
    pub version: u64,
    pub transaction_id: TransactionId,
}

impl View for Concept {
    type V = ConceptV;

    open spec fn view(&self) -> ConceptV {
        ConceptV {
            id: self.id,
            data: self.data@,
            created_at: self.metadata.created_at,
            updated_at: self.metadata.updated_at,
            version: self.metadata.version,
            transaction_id: self.metadata.transaction_id,
        }
    }
}

impl Clone for Concept {
    fn clone(&self) -> (res: Self)
        ensures
            res@ == self@,
    {
        Concept { id: self.id, data: self.data.clone(), metadata: self.metadata.clone() }
    }
}

impl Concept {
    /// A new concept with a structured payload, a fresh identifier and
    /// default metadata.
    pub fn new(data: String) -> (res: Self)
        ensures
            res@.data == ConceptDataV::Structured(data@),
            res@.version == 1,
            res@.created_at == res@.updated_at,
            res@.transaction_id == 0,
    {
        Concept {
            id: fresh_id(),
            data: ConceptData::Structured(data),
            metadata: ConceptMetadata::default(),
        }
    }

    /// A new empty (pure structural) concept.
    pub fn empty() -> (res: Self)
        ensures
            res@.data == ConceptDataV::Empty,
            res@.version == 1,
            res@.created_at == res@.updated_at,
            res@.transaction_id == 0,
    {
        Concept { id: fresh_id(), data: ConceptData::Empty, metadata: ConceptMetadata::default() }
    }
}

/// An immutable historical snapshot of one concept.
pub struct ConceptVersion {
    pub concept_id: ConceptId,
    pub version: u64,
    pub data: ConceptData,
    pub created_at: Timestamp,
    pub created_by: TransactionId,
    pub deleted_at: Option<Timestamp>,
    pub deleted_by: Option<TransactionId>,
}

pub ghost struct ConceptVersionV {
    pub concept_id: ConceptId,
    pub version: u64,
    pub data: ConceptDataV,
    pub created_at: Timestamp,
    pub created_by: TransactionId,
    pub deleted_at: Option<Timestamp>,
    pub deleted_by: Option<TransactionId>,
}

impl ConceptVersionV {
    /// A version is active at instant `t` iff it was created at or before `t`
    /// and not yet deleted at `t`.
    pub open spec fn active_at(self, t: Timestamp) -> bool {
        self.created_at <= t && match self.deleted_at {
            Option::None => true,
            Option::Some(d) => d > t,
        }
    }
}

impl View for ConceptVersion {
    type V = ConceptVersionV;

    open spec fn view(&self) -> ConceptVersionV {
        ConceptVersionV {
            concept_id: self.concept_id,
            version: self.version,
            data: self.data@,
            created_at: self.created_at,
            created_by: self.created_by,
            deleted_at: self.deleted_at,
            deleted_by: self.deleted_by,
        }
    }
}

impl Clone for ConceptVersion {
    fn clone(&self) -> (res: Self)
        ensures
            res@ == self@,
    {
        ConceptVersion {
            concept_id: self.concept_id,
            version: self.version,
            data: self.data.clone(),
            created_at: self.created_at,
            created_by: self.created_by,
            deleted_at: self.deleted_at,
            deleted_by: self.deleted_by,
        }
    }
}

impl ConceptVersion {
    /// The first version snapshot of a concept, stamped by the given
    /// transaction.
    pub fn from_concept(concept: &Concept, transaction_id: TransactionId) -> (res: Self)
        ensures
            res@.concept_id == concept@.id,
            res@.version == concept@.version,
            res@.data == concept@.data,
            res@.created_at == concept@.updated_at,
            res@.created_by == transaction_id,
            res@.deleted_at is None,
            res@.deleted_by is None,
    {
        ConceptVersion {
            concept_id: concept.id,
            version: concept.metadata.version,
            data: concept.data.clone(),
            created_at: concept.metadata.updated_at,
            created_by: transaction_id,
            deleted_at: None,
            deleted_by: None,
        }
    }

    /// Whether this version was live at the given instant.
    pub fn is_active_at(&self, timestamp: Timestamp) -> (r: bool)
        ensures
            r == self@.active_at(timestamp),
    {
        self.created_at <= timestamp && match self.deleted_at {
            None => true,
            Some(d) => d > timestamp,
        }
    }
}

/// Creation instant, version number and creating transaction of a
/// relationship.
pub struct RelationshipMetadata {
    pub created_at: Timestamp,
    pub version: u64,
    pub transaction_id: TransactionId,
}

impl Clone for RelationshipMetadata {
    fn clone(&self) -> (res: Self)
        ensures
            res == *self,
    {
        RelationshipMetadata {
            created_at: self.created_at,
            version: self.version,
            transaction_id: self.transaction_id,
        }
    }
}

impl Default for RelationshipMetadata {
    /// A fresh metadata block: created "now", version 1, the nil transaction.
    fn default() -> (res: Self)
        ensures
            res.version == 1,
            res.transaction_id == 0,
    {
        RelationshipMetadata { created_at: current_clock(), version: 1, transaction_id: 0 }
    }
}

/// A directed typed edge of the graph.
pub struct Relationship {
    pub id: RelationshipId,
    pub source: ConceptId,
    pub relationship_type: RelationType,
    pub target: ConceptId,
    pub metadata: RelationshipMetadata,
}

pub ghost struct RelationshipV {
    pub id: RelationshipId,
    pub source: ConceptId,
    pub relationship_type: Seq<char>,
    pub target: ConceptId,
    pub created_at: Timestamp,
    pub version: u64,
    pub transaction_id: TransactionId,
}

impl View for Relationship {
    type V = RelationshipV;

    open spec fn view(&self) -> RelationshipV {
        RelationshipV {
            id: self.id,
            source: self.source,
            relationship_type: self.relationship_type@,
            target: self.target,
            created_at: self.metadata.created_at,
            version: self.metadata.version,
            transaction_id: self.metadata.transaction_id,
        }
    }
}

impl Clone for Relationship {
    fn clone(&self) -> (res: Self)
        ensures
            res@ == self@,
    {
        Relationship {
            id: self.id,
            source: self.source,
            relationship_type: self.relationship_type.clone(),
            target: self.target,
            metadata: self.metadata.clone(),
        }
    }
}

impl Relationship {
    /// A new relationship with a fresh identifier and default metadata.
    pub fn new(source: ConceptId, relationship_type: RelationType, target: ConceptId) -> (res:
        Self)
        ensures
            res@.source == source,
            res@.relationship_type == relationship_type@,
            res@.target == target,
            res@.version == 1,
            res@.transaction_id == 0,
    {
        Relationship {
            id: fresh_id(),
            source,
            relationship_type,
            target,
            metadata: RelationshipMetadata::default(),
        }
    }
}

/// An immutable historical snapshot of one relationship.
pub struct RelationshipVersion {
    pub relationship_id: RelationshipId,
    pub version: u64,
    pub source: ConceptId,
    pub relationship_type: RelationType,
    pub target: ConceptId,
    pub created_at: Timestamp,
    pub created_by: TransactionId,
    pub deleted_at: Option<Timestamp>,
    pub deleted_by: Option<TransactionId>,
}

pub ghost struct RelationshipVersionV {
    pub relationship_id: RelationshipId,
    pub version: u64,
    pub source: ConceptId,
    pub relationship_type: Seq<char>,
    pub target: ConceptId,
    pub created_at: Timestamp,
    pub created_by: TransactionId,
    pub deleted_at: Option<Timestamp>,
    pub deleted_by: Option<TransactionId>,
}

impl RelationshipVersionV {
    /// A version is active at instant `t` iff it was created at or before `t`
    /// and not yet deleted at `t`.
    pub open spec fn active_at(self, t: Timestamp) -> bool {
        self.created_at <= t && match self.deleted_at {
            Option::None => true,
            Option::Some(d) => d > t,
        }
    }
}

impl View for RelationshipVersion {
    type V = RelationshipVersionV;

    open spec fn view(&self) -> RelationshipVersionV {
        RelationshipVersionV {
            relationship_id: self.relationship_id,
            version: self.version,
            source: self.source,
            relationship_type: self.relationship_type@,
            target: self.target,
            created_at: self.created_at,
            created_by: self.created_by,
            deleted_at: self.deleted_at,
            deleted_by: self.deleted_by,
        }
    }
}

impl Clone for RelationshipVersion {
    fn clone(&self) -> (res: Self)
        ensures
            res@ == self@,
    {
        RelationshipVersion {
            relationship_id: self.relationship_id,
            version: self.version,
            source: self.source,
            relationship_type: self.relationship_type.clone(),
            target: self.target,
            created_at: self.created_at,
            created_by: self.created_by,
            deleted_at: self.deleted_at,
            deleted_by: self.deleted_by,
        }
    }
}

impl RelationshipVersion {
    /// The first version snapshot of a relationship, stamped by the given
    /// transaction.
    pub fn from_relationship(relationship: &Relationship, transaction_id: TransactionId) -> (res:
        Self)
        ensures
            res@.relationship_id == relationship@.id,
            res@.version == 1,
            res@.source == relationship@.source,
            res@.relationship_type == relationship@.relationship_type,
            res@.target == relationship@.target,
            res@.created_at == relationship@.created_at,
            res@.created_by == transaction_id,
            res@.deleted_at is None,
            res@.deleted_by is None,
    {
        RelationshipVersion {
            relationship_id: relationship.id,
            version: 1,
            source: relationship.source,
            relationship_type: relationship.relationship_type.clone(),
            target: relationship.target,
            created_at: relationship.metadata.created_at,
            created_by: transaction_id,
            deleted_at: None,
            deleted_by: None,
        }
    }

    /// Whether this version was live at the given instant.
    pub fn is_active_at(&self, timestamp: Timestamp) -> (r: bool)
        ensures
            r == self@.active_at(timestamp),
    {
        self.created_at <= timestamp && match self.deleted_at {
            None => true,
            Some(d) => d > timestamp,
        }
    }
}

/// The error kinds visible at the core boundary.
#[derive(PartialEq, Eq, Structural, Clone, Copy, Debug)]
pub enum MnemonicError {
    /// The durable store failed.
    Storage,
    /// A version record could not be encoded or decoded.
    Serialization,
    /// `relate` asserted a missing source or target concept.
    ConceptNotFound(ConceptId),
    /// `unrelate` targeted a missing or already-tombstoned relationship.
    RelationshipNotFound(RelationshipId),
    /// Internal transaction fault: an unknown or ill-formed transaction, or a
    /// counter at its machine limit; carries the transaction id.
    Transaction(TransactionId),
    /// First-committer-wins validation failed for the named entity.
    TransactionConflict(u128),
}

} // verus!
