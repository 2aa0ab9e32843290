//! The Version Index: an in-memory mapping from entity id to the
//! chronologically ordered chain of that entity's version records.
//!
//! The index itself accepts any record; ordering guarantees (versions dense,
//! creation instants non-decreasing) are maintained by the transaction
//! manager and stated there.

use vstd::prelude::*;

use crate::assoc::{
    assoc_get, distinct_keys, lemma_assoc_get_absent, lemma_assoc_get_index,
    lemma_assoc_get_some_index, lemma_assoc_push, lemma_assoc_update,
};
use crate::types::{
    ConceptId, ConceptVersion, ConceptVersionV, MnemonicError, RelationshipId, RelationshipVersion,
    RelationshipVersionV, Timestamp,
};

verus! {

/// The as-of collapse of a chain: scanning newest-to-oldest, the first
/// version created at or before `t` decides the snapshot — it is the answer
/// if it is still active at `t`, and a tombstone answer is "nothing".
pub open spec fn version_at_c(chain: Seq<ConceptVersionV>, t: Timestamp) -> Option<ConceptVersionV>
    decreases chain.len(),
{
    if chain.len() == 0 {
        None
    } else if chain.last().created_at <= t {
        if chain.last().active_at(t) {
            Some(chain.last())
        } else {
            None
        }
    } else {
        version_at_c(chain.drop_last(), t)
    }
}

/// As-of collapse of a relationship chain; same algorithm as for concepts.
pub open spec fn version_at_r(chain: Seq<RelationshipVersionV>, t: Timestamp) -> Option<
    RelationshipVersionV,
>
    decreases chain.len(),
{
    if chain.len() == 0 {
        None
    } else if chain.last().created_at <= t {
        if chain.last().active_at(t) {
            Some(chain.last())
        } else {
            None
        }
    } else {
        version_at_r(chain.drop_last(), t)
    }
}

/// The instant of a record's newest modification: its deletion if it is a
/// tombstone, else its creation.
pub open spec fn last_mod_c(v: ConceptVersionV) -> Timestamp {
    match v.deleted_at {
        Option::Some(d) => d,
        Option::None => v.created_at,
    }
}

pub open spec fn last_mod_r(v: RelationshipVersionV) -> Timestamp {
    match v.deleted_at {
        Option::Some(d) => d,
        Option::None => v.created_at,
    }
}

/// A chain has been modified since `t` iff its newest record was created or
/// deleted strictly after `t`.
pub open spec fn concept_modified_since(chain: Seq<ConceptVersionV>, t: Timestamp) -> bool {
    chain.len() > 0 && last_mod_c(chain.last()) > t
}

pub open spec fn relationship_modified_since(chain: Seq<RelationshipVersionV>, t: Timestamp) -> bool {
    chain.len() > 0 && last_mod_r(chain.last()) > t
}

/// Creation instants never decrease along a chain.
pub open spec fn time_sorted_c(chain: Seq<ConceptVersionV>) -> bool {
    forall|i: int, j: int|
        0 <= i <= j < chain.len() ==> #[trigger] chain[i].created_at <= #[trigger] chain[j].created_at
}

pub open spec fn time_sorted_r(chain: Seq<RelationshipVersionV>) -> bool {
    forall|i: int, j: int|
        0 <= i <= j < chain.len() ==> #[trigger] chain[i].created_at <= #[trigger] chain[j].created_at
}

/// Index `i` holds the snapshot law's unique witness for instant `t`: the
/// version was created at or before `t`, the next version (if any) only
/// after `t`, and its deletion (if any) only after `t`.
pub open spec fn p2_witness_c(chain: Seq<ConceptVersionV>, t: Timestamp, i: int) -> bool {
    &&& 0 <= i < chain.len()
    &&& chain[i].created_at <= t
    &&& (i == chain.len() - 1 || chain[i + 1].created_at > t)
    &&& (chain[i].deleted_at is Some ==> chain[i].deleted_at.unwrap() > t)
}

pub open spec fn p2_witness_r(chain: Seq<RelationshipVersionV>, t: Timestamp, i: int) -> bool {
    &&& 0 <= i < chain.len()
    &&& chain[i].created_at <= t
    &&& (i == chain.len() - 1 || chain[i + 1].created_at > t)
    &&& (chain[i].deleted_at is Some ==> chain[i].deleted_at.unwrap() > t)
}

/// The snapshot law for concept chains whose creation instants never
/// decrease: the as-of read returns exactly the unique version `v` with
/// `v.created_at <= t < (v.deleted_at | next.created_at | infinity)`, and
/// nothing when no such version exists.
pub proof fn lemma_version_at_c_characterization(chain: Seq<ConceptVersionV>, t: Timestamp)
    requires
        time_sorted_c(chain),
    ensures
        version_at_c(chain, t) is Some ==> exists|i: int|
            #[trigger] p2_witness_c(chain, t, i) && chain[i] == version_at_c(chain, t).unwrap(),
        version_at_c(chain, t) is None ==> forall|i: int| !#[trigger] p2_witness_c(chain, t, i),
        forall|i: int, j: int|
            #[trigger] p2_witness_c(chain, t, i) && #[trigger] p2_witness_c(chain, t, j) ==> i
                == j,
    decreases chain.len(),
{
    assert forall|i: int, j: int|
        #[trigger] p2_witness_c(chain, t, i) && #[trigger] p2_witness_c(chain, t, j) implies i
        == j by {
        if i < j {
            assert(chain[i + 1].created_at <= chain[j].created_at);
        }
        if j < i {
            assert(chain[j + 1].created_at <= chain[i].created_at);
        }
    }
    if chain.len() == 0 {
    } else if chain.last().created_at <= t {
        let n = chain.len() - 1;
        if chain.last().active_at(t) {
            assert(p2_witness_c(chain, t, n));
        } else {
            assert forall|i: int| !#[trigger] p2_witness_c(chain, t, i) by {
                if 0 <= i < n {
                    assert(chain[i + 1].created_at <= chain[n].created_at);
                }
            }
        }
    } else {
        let prefix = chain.drop_last();
        lemma_version_at_c_characterization(prefix, t);
        assert forall|i: int| 0 <= i < prefix.len() implies (p2_witness_c(chain, t, i)
            <==> #[trigger] p2_witness_c(prefix, t, i)) by {
            assert(prefix[i] == chain[i]);
            if i < prefix.len() - 1 {
                assert(prefix[i + 1] == chain[i + 1]);
            }
        }
        assert(!p2_witness_c(chain, t, chain.len() - 1));
        if version_at_c(prefix, t) is None {
            assert forall|i: int| !#[trigger] p2_witness_c(chain, t, i) by {
                if 0 <= i < prefix.len() {
                    assert(!p2_witness_c(prefix, t, i));
                }
            }
        }
        if version_at_c(prefix, t) is Some {
            let i = choose|i: int|
                #[trigger] p2_witness_c(prefix, t, i) && prefix[i] == version_at_c(
                    prefix,
                    t,
                ).unwrap();
            assert(p2_witness_c(chain, t, i) && chain[i] == version_at_c(chain, t).unwrap());
        }
    }
}

/// The snapshot law for relationship chains; same statement as for concepts.
pub proof fn lemma_version_at_r_characterization(chain: Seq<RelationshipVersionV>, t: Timestamp)
    requires
        time_sorted_r(chain),
    ensures
        version_at_r(chain, t) is Some ==> exists|i: int|
            #[trigger] p2_witness_r(chain, t, i) && chain[i] == version_at_r(chain, t).unwrap(),
        version_at_r(chain, t) is None ==> forall|i: int| !#[trigger] p2_witness_r(chain, t, i),
        forall|i: int, j: int|
            #[trigger] p2_witness_r(chain, t, i) && #[trigger] p2_witness_r(chain, t, j) ==> i
                == j,
    decreases chain.len(),
{
    assert forall|i: int, j: int|
        #[trigger] p2_witness_r(chain, t, i) && #[trigger] p2_witness_r(chain, t, j) implies i
        == j by {
        if i < j {
            assert(chain[i + 1].created_at <= chain[j].created_at);
        }
        if j < i {
            assert(chain[j + 1].created_at <= chain[i].created_at);
        }
    }
    if chain.len() == 0 {
    } else if chain.last().created_at <= t {
        let n = chain.len() - 1;
        if chain.last().active_at(t) {
            assert(p2_witness_r(chain, t, n));
        } else {
            assert forall|i: int| !#[trigger] p2_witness_r(chain, t, i) by {
                if 0 <= i < n {
                    assert(chain[i + 1].created_at <= chain[n].created_at);
                }
            }
        }
    } else {
        let prefix = chain.drop_last();
        lemma_version_at_r_characterization(prefix, t);
        assert forall|i: int| 0 <= i < prefix.len() implies (p2_witness_r(chain, t, i)
            <==> #[trigger] p2_witness_r(prefix, t, i)) by {
            assert(prefix[i] == chain[i]);
            if i < prefix.len() - 1 {
                assert(prefix[i + 1] == chain[i + 1]);
            }
        }
        assert(!p2_witness_r(chain, t, chain.len() - 1));
        if version_at_r(prefix, t) is None {
            assert forall|i: int| !#[trigger] p2_witness_r(chain, t, i) by {
                if 0 <= i < prefix.len() {
                    assert(!p2_witness_r(prefix, t, i));
                }
            }
        }
        if version_at_r(prefix, t) is Some {
            let i = choose|i: int|
                #[trigger] p2_witness_r(prefix, t, i) && prefix[i] == version_at_r(
                    prefix,
                    t,
                ).unwrap();
            assert(p2_witness_r(chain, t, i) && chain[i] == version_at_r(chain, t).unwrap());
        }
    }
}

/// Appending a tombstone does not disturb reads strictly before its instant:
/// history stays visible through time travel.
pub proof fn lemma_tombstone_preserves_past_r(
    chain: Seq<RelationshipVersionV>,
    tomb: RelationshipVersionV,
    t: Timestamp,
)
    requires
        t < tomb.created_at,
    ensures
        version_at_r(chain.push(tomb), t) == version_at_r(chain, t),
{
    assert(chain.push(tomb).drop_last() =~= chain);
}

/// Insertion into a chain kept ascending by version number.
pub open spec fn insert_by_version_c(chain: Seq<ConceptVersionV>, v: ConceptVersionV) -> Seq<
    ConceptVersionV,
>
    decreases chain.len(),
{
    if chain.len() == 0 {
        seq![v]
    } else if chain.last().version <= v.version {
        chain.push(v)
    } else {
        insert_by_version_c(chain.drop_last(), v).push(chain.last())
    }
}

pub open spec fn insert_by_version_r(chain: Seq<RelationshipVersionV>, v: RelationshipVersionV) -> Seq<
    RelationshipVersionV,
>
    decreases chain.len(),
{
    if chain.len() == 0 {
        seq![v]
    } else if chain.last().version <= v.version {
        chain.push(v)
    } else {
        insert_by_version_r(chain.drop_last(), v).push(chain.last())
    }
}

pub open spec fn vec_cv_view(v: Vec<ConceptVersion>) -> Seq<ConceptVersionV> {
    v@.map_values(|c: ConceptVersion| c@)
}

pub open spec fn vec_rv_view(v: Vec<RelationshipVersion>) -> Seq<RelationshipVersionV> {
    v@.map_values(|c: RelationshipVersion| c@)
}

pub open spec fn opt_cv_view(o: Option<ConceptVersion>) -> Option<ConceptVersionV> {
    match o {
        Option::Some(v) => Option::Some(v@),
        Option::None => Option::None,
    }
}

pub open spec fn opt_rv_view(o: Option<RelationshipVersion>) -> Option<RelationshipVersionV> {
    match o {
        Option::Some(v) => Option::Some(v@),
        Option::None => Option::None,
    }
}

/// Every returned item is the newest version of some entity and active at
/// `now`.
pub open spec fn sound_active_c(s: VersionStore, now: Timestamp, items: Seq<ConceptVersionV>) -> bool {
    forall|i: int| #![trigger items[i]]
        0 <= i < items.len() ==> exists|id: u128|
            {
                let chain = #[trigger] s.concept_chain(id);
                chain.len() > 0 && chain.last().active_at(now) && items[i] == chain.last()
            }
}

pub open spec fn sound_active_r(s: VersionStore, now: Timestamp, items: Seq<RelationshipVersionV>) -> bool {
    forall|i: int| #![trigger items[i]]
        0 <= i < items.len() ==> exists|id: u128|
            {
                let chain = #[trigger] s.relationship_chain(id);
                chain.len() > 0 && chain.last().active_at(now) && items[i] == chain.last()
            }
}

/// Every entity whose newest version is active at `now` is represented.
pub open spec fn complete_active_c(s: VersionStore, now: Timestamp, items: Seq<ConceptVersionV>) -> bool {
    forall|id: u128|
        (((#[trigger] s.concept_chain(id)).len() > 0 && s.concept_chain(id).last().active_at(now))
            ==> exists|i: int| 0 <= i < items.len() && items[i] == s.concept_chain(id).last())
}

pub open spec fn complete_active_r(s: VersionStore, now: Timestamp, items: Seq<RelationshipVersionV>) -> bool {
    forall|id: u128|
        (((#[trigger] s.relationship_chain(id)).len() > 0 && s.relationship_chain(
            id,
        ).last().active_at(now)) ==> exists|i: int|
            0 <= i < items.len() && items[i] == s.relationship_chain(id).last())
}

/// Every record of the map is filed under its own entity id; the
/// transaction manager maintains this of its index.
pub open spec fn ids_ok_c(s: VersionStore) -> bool {
    forall|id: u128, i: int|
        0 <= i < s.concept_chain(id).len() ==> (#[trigger] s.concept_chain(id)[i]).concept_id
            == id
}

pub open spec fn ids_ok_r(s: VersionStore) -> bool {
    forall|id: u128, i: int|
        0 <= i < s.relationship_chain(id).len() ==> (#[trigger] s.relationship_chain(
            id,
        )[i]).relationship_id == id
}

/// No two items carry the same entity id.
pub open spec fn distinct_entity_ids_c(items: Seq<ConceptVersionV>) -> bool {
    forall|k1: int, k2: int|
        0 <= k1 < k2 < items.len() ==> (#[trigger] items[k1]).concept_id != (
        #[trigger] items[k2]).concept_id
}

pub open spec fn distinct_entity_ids_r(items: Seq<RelationshipVersionV>) -> bool {
    forall|k1: int, k2: int|
        0 <= k1 < k2 < items.len() ==> (#[trigger] items[k1]).relationship_id != (
        #[trigger] items[k2]).relationship_id
}

/// All versions of concepts and relationships, grouped per entity id.
pub struct VersionStore {
    concept_versions: Vec<(ConceptId, Vec<ConceptVersion>)>,
    relationship_versions: Vec<(RelationshipId, Vec<RelationshipVersion>)>,
}

impl VersionStore {
    /// The concept map as ghost pairs.
    pub closed spec fn cpairs(self) -> Seq<(u128, Seq<ConceptVersionV>)> {
        self.concept_versions@.map_values(
            |p: (ConceptId, Vec<ConceptVersion>)| (p.0, vec_cv_view(p.1)),
        )
    }

    /// The relationship map as ghost pairs.
    pub closed spec fn rpairs(self) -> Seq<(u128, Seq<RelationshipVersionV>)> {
        self.relationship_versions@.map_values(
            |p: (RelationshipId, Vec<RelationshipVersion>)| (p.0, vec_rv_view(p.1)),
        )
    }

    /// The version chain of a concept id (empty when the id is unknown).
    pub open spec fn concept_chain(self, id: u128) -> Seq<ConceptVersionV> {
        match assoc_get(self.cpairs(), id) {
            Option::Some(chain) => chain,
            Option::None => Seq::empty(),
        }
    }

    /// The version chain of a relationship id (empty when the id is unknown).
    pub open spec fn relationship_chain(self, id: u128) -> Seq<RelationshipVersionV> {
        match assoc_get(self.rpairs(), id) {
            Option::Some(chain) => chain,
            Option::None => Seq::empty(),
        }
    }

    /// Internal consistency: one entry per entity id, no empty entries.
    pub closed spec fn wf(self) -> bool {
        &&& distinct_keys(self.cpairs())
        &&& distinct_keys(self.rpairs())
        &&& forall|i: int|
            0 <= i < self.cpairs().len() ==> (#[trigger] self.cpairs()[i]).1.len() > 0
        &&& forall|i: int|
            0 <= i < self.rpairs().len() ==> (#[trigger] self.rpairs()[i]).1.len() > 0
    }

    /// An empty index.
    pub fn new() -> (r: Self)
        ensures
            r.wf(),
            forall|id: u128| #[trigger] r.concept_chain(id) == Seq::<ConceptVersionV>::empty(),
            forall|id: u128| #[trigger] r.relationship_chain(id) == Seq::<
                RelationshipVersionV,
            >::empty(),
    {
        let r = VersionStore { concept_versions: Vec::new(), relationship_versions: Vec::new() };
        proof {
            assert(r.cpairs() =~= Seq::<(u128, Seq<ConceptVersionV>)>::empty());
            assert(r.rpairs() =~= Seq::<(u128, Seq<RelationshipVersionV>)>::empty());
        }
        r
    }

    /// Index of the entry holding `id`, if any.
    fn find_concept(&self, id: u128) -> (r: Option<usize>)
        ensures
            match r {
                Option::Some(i) => {
                    &&& i < self.cpairs().len()
                    &&& self.cpairs()[i as int].0 == id
                    &&& distinct_keys(self.cpairs()) ==> self.cpairs()[i as int].1
                        == self.concept_chain(id)
                },
                Option::None => {
                    &&& forall|j: int|
                        0 <= j < self.cpairs().len() ==> (#[trigger] self.cpairs()[j]).0 != id
                    &&& self.concept_chain(id) == Seq::<ConceptVersionV>::empty()
                },
            },
    {
        let n = self.concept_versions.len();
        let mut i: usize = 0;
        while i < n
            invariant
                i <= n,
                n == self.cpairs().len(),
                forall|j: int| 0 <= j < i ==> (#[trigger] self.cpairs()[j]).0 != id,
            decreases n - i,
        {
            if self.concept_versions[i].0 == id {
                proof {
                    if distinct_keys(self.cpairs()) {
                        lemma_assoc_get_index(self.cpairs(), i as int);
                    }
                }
                return Some(i);
            }
            i = i + 1;
        }
        proof {
            lemma_assoc_get_absent(self.cpairs(), id);
        }
        None
    }

    /// Index of the entry holding `id`, if any.
    fn find_relationship(&self, id: u128) -> (r: Option<usize>)
        ensures
            match r {
                Option::Some(i) => {
                    &&& i < self.rpairs().len()
                    &&& self.rpairs()[i as int].0 == id
                    &&& distinct_keys(self.rpairs()) ==> self.rpairs()[i as int].1
                        == self.relationship_chain(id)
                },
                Option::None => {
                    &&& forall|j: int|
                        0 <= j < self.rpairs().len() ==> (#[trigger] self.rpairs()[j]).0 != id
                    &&& self.relationship_chain(id) == Seq::<RelationshipVersionV>::empty()
                },
            },
    {
        let n = self.relationship_versions.len();
        let mut i: usize = 0;
        while i < n
            invariant
                i <= n,
                n == self.rpairs().len(),
                forall|j: int| 0 <= j < i ==> (#[trigger] self.rpairs()[j]).0 != id,
            decreases n - i,
        {
            if self.relationship_versions[i].0 == id {
                proof {
                    if distinct_keys(self.rpairs()) {
                        lemma_assoc_get_index(self.rpairs(), i as int);
                    }
                }
                return Some(i);
            }
            i = i + 1;
        }
        proof {
            lemma_assoc_get_absent(self.rpairs(), id);
        }
        None
    }

    /// Time travel: the version of the concept that was live at `timestamp`.
    pub fn get_concept_version_at_timestamp(
        &self,
        concept_id: &ConceptId,
        timestamp: Timestamp,
    ) -> (r: Result<Option<ConceptVersion>, MnemonicError>)
        requires
            self.wf(),
        ensures
            r is Ok,
            opt_cv_view(r->Ok_0) == version_at_c(self.concept_chain(*concept_id), timestamp),
    {
        let ghost gchain = self.concept_chain(*concept_id);
        match self.find_concept(*concept_id) {
            None => Ok(None),
            Some(i) => {
                let chain = &self.concept_versions[i].1;
                proof {
                    assert(vec_cv_view(self.concept_versions@[i as int].1) == self.cpairs()[
                        i as int].1);
                }
                let mut k = chain.len();
                proof {
                    assert(gchain.subrange(0, k as int) =~= gchain);
                }
                while k > 0
                    invariant
                        k <= chain.len(),
                        gchain == self.concept_chain(*concept_id),
                        gchain == vec_cv_view(*chain),
                        gchain.len() == chain.len(),
                        version_at_c(gchain, timestamp) == version_at_c(
                            gchain.subrange(0, k as int),
                            timestamp,
                        ),
                    decreases k,
                {
                    let v = &chain[k - 1];
                    proof {
                        assert(gchain.subrange(0, k as int).last() == gchain[k - 1]);
                        assert(gchain[k - 1] == v@);
                    }
                    if v.created_at <= timestamp {
                        proof {
                            let sub = gchain.subrange(0, k as int);
                            assert(sub.len() == k);
                            assert(sub.last() == v@);
                            if v@.active_at(timestamp) {
                                assert(version_at_c(sub, timestamp) == Some(v@));
                            } else {
                                assert(version_at_c(sub, timestamp) == None::<ConceptVersionV>);
                            }
                        }
                        if v.is_active_at(timestamp) {
                            return Ok(Some(v.clone()));
                        } else {
                            return Ok(None);
                        }
                    }
                    proof {
                        let sub = gchain.subrange(0, k as int);
                        assert(sub.len() == k);
                        assert(sub.last() == v@);
                        assert(version_at_c(sub, timestamp) == version_at_c(
                            sub.drop_last(),
                            timestamp,
                        ));
                        assert(sub.drop_last() =~= gchain.subrange(0, k - 1));
                    }
                    k = k - 1;
                }
                proof {
                    assert(gchain.subrange(0, 0) =~= Seq::<ConceptVersionV>::empty());
                }
                Ok(None)
            },
        }
    }

    /// Time travel: the version of the relationship that was live at
    /// `timestamp`.
    pub fn get_relationship_version_at_timestamp(
        &self,
        relationship_id: &RelationshipId,
        timestamp: Timestamp,
    ) -> (r: Result<Option<RelationshipVersion>, MnemonicError>)
        requires
            self.wf(),
        ensures
            r is Ok,
            opt_rv_view(r->Ok_0) == version_at_r(
                self.relationship_chain(*relationship_id),
                timestamp,
            ),
    {
        let ghost gchain = self.relationship_chain(*relationship_id);
        match self.find_relationship(*relationship_id) {
            None => Ok(None),
            Some(i) => {
                let chain = &self.relationship_versions[i].1;
                proof {
                    assert(vec_rv_view(self.relationship_versions@[i as int].1) == self.rpairs()[
                        i as int].1);
                }
                let mut k = chain.len();
                proof {
                    assert(gchain.subrange(0, k as int) =~= gchain);
                }
                while k > 0
                    invariant
                        k <= chain.len(),
                        gchain == self.relationship_chain(*relationship_id),
                        gchain == vec_rv_view(*chain),
                        gchain.len() == chain.len(),
                        version_at_r(gchain, timestamp) == version_at_r(
                            gchain.subrange(0, k as int),
                            timestamp,
                        ),
                    decreases k,
                {
                    let v = &chain[k - 1];
                    proof {
                        assert(gchain.subrange(0, k as int).last() == gchain[k - 1]);
                        assert(gchain[k - 1] == v@);
                    }
                    if v.created_at <= timestamp {
                        proof {
                            let sub = gchain.subrange(0, k as int);
                            assert(sub.len() == k);
                            assert(sub.last() == v@);
                            if v@.active_at(timestamp) {
                                assert(version_at_r(sub, timestamp) == Some(v@));
                            } else {
                                assert(version_at_r(sub, timestamp) == None::<RelationshipVersionV>);
                            }
                        }
                        if v.is_active_at(timestamp) {
                            return Ok(Some(v.clone()));
                        } else {
                            return Ok(None);
                        }
                    }
                    proof {
                        let sub = gchain.subrange(0, k as int);
                        assert(sub.len() == k);
                        assert(sub.last() == v@);
                        assert(version_at_r(sub, timestamp) == version_at_r(
                            sub.drop_last(),
                            timestamp,
                        ));
                        assert(sub.drop_last() =~= gchain.subrange(0, k - 1));
                    }
                    k = k - 1;
                }
                proof {
                    assert(gchain.subrange(0, 0) =~= Seq::<RelationshipVersionV>::empty());
                }
                Ok(None)
            },
        }
    }

    /// Append a new version at the end of a concept's history chain.
    pub fn add_concept_version(&mut self, version: ConceptVersion) -> (r: Result<
        (),
        MnemonicError,
    >)
        requires
            old(self).wf(),
        ensures
            final(self).wf(),
            r is Ok,
            final(self).concept_chain(version@.concept_id) == old(self).concept_chain(
                version@.concept_id,
            ).push(version@),
            forall|id: u128|
                id != version@.concept_id ==> #[trigger] final(self).concept_chain(id) == old(
                    self,
                ).concept_chain(id),
            forall|id: u128| #[trigger]
                final(self).relationship_chain(id) == old(self).relationship_chain(id),
    {
        let ghost cid = version@.concept_id;
        let ghost oldpairs = self.cpairs();
        let ghost vview = version@;
        match self.find_concept(version.concept_id) {
            Some(i) => {
                let ghost oldchain = oldpairs[i as int].1;
                let mut pair = self.concept_versions.remove(i);
                pair.1.push(version);
                proof {
                    assert(vec_cv_view(pair.1) =~= oldchain.push(vview));
                }
                self.concept_versions.insert(i, pair);
                proof {
                    let updated = oldpairs.update(i as int, (cid, oldchain.push(vview)));
                    assert(self.concept_versions@ =~= old(self).concept_versions@.update(
                        i as int,
                        self.concept_versions@[i as int],
                    ));
                    assert(self.cpairs() =~= updated);
                    lemma_assoc_update(oldpairs, i as int, oldchain.push(vview));
                    assert(self.concept_chain(cid) == oldchain.push(vview));
                    assert forall|j: int| 0 <= j < self.cpairs().len() implies (
                    #[trigger] self.cpairs()[j]).1.len() > 0 by {
                        if j != i as int {
                            assert(updated[j] == oldpairs[j]);
                        }
                    }
                    assert(self.rpairs() =~= old(self).rpairs());
                }
                Ok(())
            },
            None => {
                let key = version.concept_id;
                let mut chain: Vec<ConceptVersion> = Vec::new();
                chain.push(version);
                self.concept_versions.push((key, chain));
                proof {
                    let pushed = oldpairs.push((cid, seq![vview]));
                    assert(vec_cv_view(self.concept_versions@.last().1) =~= seq![vview]);
                    assert(self.cpairs() =~= pushed);
                    lemma_assoc_push(oldpairs, cid, seq![vview]);
                    assert(self.concept_chain(cid) =~= Seq::<ConceptVersionV>::empty().push(
                        vview,
                    ));
                    assert forall|j: int| 0 <= j < self.cpairs().len() implies (
                    #[trigger] self.cpairs()[j]).1.len() > 0 by {
                        if j < oldpairs.len() {
                            assert(pushed[j] == oldpairs[j]);
                        }
                    }
                    assert(self.rpairs() =~= old(self).rpairs());
                }
                Ok(())
            },
        }
    }

    /// Insert a version into a concept's chain, keeping the chain ascending
    /// by version number; used when hydrating from durable records.
    pub fn insert_concept_version_sorted(&mut self, version: ConceptVersion) -> (r: Result<
        (),
        MnemonicError,
    >)
        requires
            old(self).wf(),
        ensures
            final(self).wf(),
            r is Ok,
            final(self).concept_chain(version@.concept_id) == insert_by_version_c(
                old(self).concept_chain(version@.concept_id),
                version@,
            ),
            forall|id: u128|
                id != version@.concept_id ==> #[trigger] final(self).concept_chain(id) == old(
                    self,
                ).concept_chain(id),
            forall|id: u128| #[trigger]
                final(self).relationship_chain(id) == old(self).relationship_chain(id),
    {
        let ghost cid = version@.concept_id;
        let ghost oldpairs = self.cpairs();
        let ghost vview = version@;
        match self.find_concept(version.concept_id) {
            Some(i) => {
                let ghost oldchain = oldpairs[i as int].1;
                let mut pair = self.concept_versions.remove(i);
                let mut p = pair.1.len();
                while p > 0 && pair.1[p - 1].version > version.version
                    invariant
                        p <= pair.1@.len(),
                        vec_cv_view(pair.1) == oldchain,
                        pair.1@.len() == oldchain.len(),
                        version@ == vview,
                        forall|j: int|
                            p <= j < oldchain.len() ==> (#[trigger] oldchain[j]).version
                                > vview.version,
                    decreases p,
                {
                    proof {
                        assert(oldchain[p - 1] == pair.1@[p - 1]@);
                    }
                    p = p - 1;
                }
                proof {
                    if p > 0 {
                        assert(oldchain[p - 1] == pair.1@[p - 1]@);
                    }
                    lemma_insert_by_version_c_at(oldchain, vview, p as int);
                }
                let ghost newchain = oldchain.insert(p as int, vview);
                pair.1.insert(p, version);
                proof {
                    assert(vec_cv_view(pair.1) =~= newchain);
                }
                self.concept_versions.insert(i, pair);
                proof {
                    let updated = oldpairs.update(i as int, (cid, newchain));
                    assert(self.concept_versions@ =~= old(self).concept_versions@.update(
                        i as int,
                        self.concept_versions@[i as int],
                    ));
                    assert(self.cpairs() =~= updated);
                    lemma_assoc_update(oldpairs, i as int, newchain);
                    assert(self.concept_chain(cid) == newchain);
                    assert forall|j: int| 0 <= j < self.cpairs().len() implies (
                    #[trigger] self.cpairs()[j]).1.len() > 0 by {
                        if j != i as int {
                            assert(updated[j] == oldpairs[j]);
                        }
                    }
                    assert(self.rpairs() =~= old(self).rpairs());
                }
                Ok(())
            },
            None => {
                let key = version.concept_id;
                let mut chain: Vec<ConceptVersion> = Vec::new();
                chain.push(version);
                self.concept_versions.push((key, chain));
                proof {
                    let pushed = oldpairs.push((cid, seq![vview]));
                    assert(vec_cv_view(self.concept_versions@.last().1) =~= seq![vview]);
                    assert(self.cpairs() =~= pushed);
                    lemma_assoc_push(oldpairs, cid, seq![vview]);
                    assert(self.concept_chain(cid) =~= insert_by_version_c(
                        Seq::<ConceptVersionV>::empty(),
                        vview,
                    ));
                    assert forall|j: int| 0 <= j < self.cpairs().len() implies (
                    #[trigger] self.cpairs()[j]).1.len() > 0 by {
                        if j < oldpairs.len() {
                            assert(pushed[j] == oldpairs[j]);
                        }
                    }
                    assert(self.rpairs() =~= old(self).rpairs());
                }
                Ok(())
            },
        }
    }

    /// Conflict probe: has this concept a version created or deleted
    /// strictly after `timestamp`?
    pub fn has_concept_been_modified_since(
        &self,
        concept_id: &ConceptId,
        timestamp: Timestamp,
    ) -> (r: Result<bool, MnemonicError>)
        requires
            self.wf(),
        ensures
            r is Ok,
            r->Ok_0 == concept_modified_since(self.concept_chain(*concept_id), timestamp),
    {
        match self.find_concept(*concept_id) {
            None => Ok(false),
            Some(i) => {
                let chain = &self.concept_versions[i].1;
                if chain.len() == 0 {
                    proof {
                        assert(vec_cv_view(*chain) == self.concept_chain(*concept_id));
                    }
                    return Ok(false);
                }
                let last = &chain[chain.len() - 1];
                proof {
                    assert(vec_cv_view(*chain).last() == last@);
                    assert(vec_cv_view(*chain) == self.concept_chain(*concept_id));
                }
                let m = match last.deleted_at {
                    Some(d) => d,
                    None => last.created_at,
                };
                Ok(m > timestamp)
            },
        }
    }

    /// The newest version record of a concept, if any.
    pub fn latest_concept_version(&self, concept_id: &ConceptId) -> (r: Option<ConceptVersion>)
        requires
            self.wf(),
        ensures
            opt_cv_view(r) == latest_of_c(self.concept_chain(*concept_id)),
    {
        match self.find_concept(*concept_id) {
            None => None,
            Some(i) => {
                let chain = &self.concept_versions[i].1;
                proof {
                    assert(vec_cv_view(*chain) == self.concept_chain(*concept_id));
                }
                if chain.len() == 0 {
                    None
                } else {
                    let last = &chain[chain.len() - 1];
                    proof {
                        assert(vec_cv_view(*chain).last() == last@);
                    }
                    Some(last.clone())
                }
            },
        }
    }

    /// Every concept whose newest version is active at `now`, as that newest
    /// version.
    pub fn get_all_active_concepts(&self, now: Timestamp) -> (r: Result<
        Vec<ConceptVersion>,
        MnemonicError,
    >)
        requires
            self.wf(),
        ensures
            r is Ok,
            sound_active_c(*self, now, vec_cv_view(r->Ok_0)),
            complete_active_c(*self, now, vec_cv_view(r->Ok_0)),
            ids_ok_c(*self) ==> distinct_entity_ids_c(vec_cv_view(r->Ok_0)),
    {
        let mut out: Vec<ConceptVersion> = Vec::new();
        let ghost kidx = Seq::<int>::empty();
        let n = self.concept_versions.len();
        let mut j: usize = 0;
        proof {
            assert(vec_cv_view(out) =~= Seq::<ConceptVersionV>::empty());
        }
        while j < n
            invariant
                j <= n,
                n == self.cpairs().len(),
                self.wf(),
                kidx.len() == vec_cv_view(out).len(),
                forall|k1: int, k2: int|
                    0 <= k1 < k2 < kidx.len() ==> #[trigger] kidx[k1] < #[trigger] kidx[k2],
                forall|k: int|
                    0 <= k < kidx.len() ==> 0 <= #[trigger] kidx[k] < j && self.cpairs()[kidx[k]].1.len()
                        > 0 && vec_cv_view(out)[k] == self.cpairs()[kidx[k]].1.last(),
                sound_active_c(*self, now, vec_cv_view(out)),
                forall|jj: int|
                    0 <= jj < j ==> (((#[trigger] self.cpairs()[jj]).1.len() > 0
                        && self.cpairs()[jj].1.last().active_at(now)) ==> exists|i: int|
                        0 <= i < vec_cv_view(out).len() && vec_cv_view(out)[i] == self.cpairs()[jj].1.last()),
            decreases n - j,
        {
            let ghost items0 = vec_cv_view(out);
            let ghost kidx0 = kidx;
            let chain = &self.concept_versions[j].1;
            proof {
                assert(vec_cv_view(*chain) == self.cpairs()[j as int].1);
                lemma_assoc_get_index(self.cpairs(), j as int);
            }
            let mut pushed = false;
            if chain.len() > 0 {
                let last = &chain[chain.len() - 1];
                proof {
                    assert(vec_cv_view(*chain).last() == last@);
                }
                if last.is_active_at(now) {
                    out.push(last.clone());
                    pushed = true;
                    proof {
                        kidx = kidx0.push(j as int);
                        let wid = self.cpairs()[j as int].0;
                        let items = vec_cv_view(out);
                        assert(items =~= items0.push(last@));
                        assert(self.concept_chain(wid) == self.cpairs()[j as int].1);
                        assert(items[items.len() - 1] == self.concept_chain(wid).last());
                        assert forall|k: int|
                            0 <= k < kidx.len() implies 0 <= #[trigger] kidx[k] < j + 1
                            && self.cpairs()[kidx[k]].1.len() > 0 && items[k] == self.cpairs()[kidx[k]].1.last() by {
                            if k < kidx0.len() {
                                assert(kidx[k] == kidx0[k]);
                                assert(items[k] == items0[k]);
                            } else {
                                assert(kidx[k] == j as int);
                            }
                        }
                        assert forall|i: int| #![trigger items[i]] 0 <= i < items.len() implies exists|id: u128|
                            {
                                let chain2 = #[trigger] self.concept_chain(id);
                                chain2.len() > 0 && chain2.last().active_at(now) && items[i]
                                    == chain2.last()
                            } by {
                            if i < items0.len() {
                                assert(items[i] == items0[i]);
                            } else {
                                let chain2 = self.concept_chain(wid);
                                assert(chain2.len() > 0 && chain2.last().active_at(now) && items[i]
                                    == chain2.last());
                            }
                        }
                    }
                }
            }
            proof {
                let items = vec_cv_view(out);
                if !pushed {
                    assert(items == items0);
                }
                assert forall|jj: int|
                    0 <= jj < j + 1 && (#[trigger] self.cpairs()[jj]).1.len() > 0
                        && self.cpairs()[jj].1.last().active_at(now) implies exists|i: int|
                    0 <= i < items.len() && items[i] == self.cpairs()[jj].1.last() by {
                    if jj < j {
                        let i = choose|i: int|
                            0 <= i < items0.len() && items0[i] == self.cpairs()[jj].1.last();
                        assert(items[i] == items0[i]);
                        assert(items[i] == self.cpairs()[jj].1.last());
                    } else {
                        assert(vec_cv_view(self.concept_versions@[jj].1) == self.cpairs()[jj].1);
                        assert(items[items.len() - 1] == self.cpairs()[jj].1.last());
                    }
                }
            }
            j = j + 1;
        }
        proof {
            let items = vec_cv_view(out);
            assert forall|id: u128|
                ((#[trigger] self.concept_chain(id)).len() > 0 && self.concept_chain(
                    id,
                ).last().active_at(now)) implies exists|i: int|
                0 <= i < items.len() && items[i] == self.concept_chain(id).last() by {
                assert(assoc_get(self.cpairs(), id) is Some);
                lemma_assoc_get_some_index(self.cpairs(), id);
                let jj = choose|jj: int|
                    0 <= jj < self.cpairs().len() && (#[trigger] self.cpairs()[jj]).0 == id
                        && self.cpairs()[jj].1 == assoc_get(self.cpairs(), id).unwrap();
                assert(self.cpairs()[jj].1 == self.concept_chain(id));
                assert(self.cpairs()[jj].1.len() > 0 && self.cpairs()[jj].1.last().active_at(now));
            }
            if ids_ok_c(*self) {
                assert forall|k1: int, k2: int|
                    0 <= k1 < k2 < items.len() implies (#[trigger] items[k1]).concept_id != (
                #[trigger] items[k2]).concept_id by {
                    let j1 = kidx[k1];
                    let j2 = kidx[k2];
                    assert(j1 < j2);
                    lemma_assoc_get_index(self.cpairs(), j1);
                    lemma_assoc_get_index(self.cpairs(), j2);
                    let id1 = self.cpairs()[j1].0;
                    let id2 = self.cpairs()[j2].0;
                    assert(id1 != id2);
                    assert(self.concept_chain(id1) == self.cpairs()[j1].1);
                    assert(self.concept_chain(id2) == self.cpairs()[j2].1);
                    assert(self.concept_chain(id1)[self.concept_chain(id1).len() - 1].concept_id
                        == id1);
                    assert(self.concept_chain(id2)[self.concept_chain(id2).len() - 1].concept_id
                        == id2);
                    assert(items[k1].concept_id == id1);
                    assert(items[k2].concept_id == id2);
                }
            }
        }
        Ok(out)
    }

    /// Append a new version at the end of a relationship's history chain.
    pub fn add_relationship_version(&mut self, version: RelationshipVersion) -> (r: Result<
        (),
        MnemonicError,
    >)
        requires
            old(self).wf(),
        ensures
            final(self).wf(),
            r is Ok,
            final(self).relationship_chain(version@.relationship_id) == old(self).relationship_chain(
                version@.relationship_id,
            ).push(version@),
            forall|id: u128|
                id != version@.relationship_id ==> #[trigger] final(self).relationship_chain(id) == old(
                    self,
                ).relationship_chain(id),
            forall|id: u128| #[trigger]
                final(self).concept_chain(id) == old(self).concept_chain(id),
    {
        let ghost cid = version@.relationship_id;
        let ghost oldpairs = self.rpairs();
        let ghost vview = version@;
        match self.find_relationship(version.relationship_id) {
            Some(i) => {
                let ghost oldchain = oldpairs[i as int].1;
                let mut pair = self.relationship_versions.remove(i);
                pair.1.push(version);
                proof {
                    assert(vec_rv_view(pair.1) =~= oldchain.push(vview));
                }
                self.relationship_versions.insert(i, pair);
                proof {
                    let updated = oldpairs.update(i as int, (cid, oldchain.push(vview)));
                    assert(self.relationship_versions@ =~= old(self).relationship_versions@.update(
                        i as int,
                        self.relationship_versions@[i as int],
                    ));
                    assert(self.rpairs() =~= updated);
                    lemma_assoc_update(oldpairs, i as int, oldchain.push(vview));
                    assert(self.relationship_chain(cid) == oldchain.push(vview));
                    assert forall|j: int| 0 <= j < self.rpairs().len() implies (
                    #[trigger] self.rpairs()[j]).1.len() > 0 by {
                        if j != i as int {
                            assert(updated[j] == oldpairs[j]);
                        }
                    }
                    assert(self.cpairs() =~= old(self).cpairs());
                }
                Ok(())
            },
            None => {
                let key = version.relationship_id;
                let mut chain: Vec<RelationshipVersion> = Vec::new();
                chain.push(version);
                self.relationship_versions.push((key, chain));
                proof {
                    let pushed = oldpairs.push((cid, seq![vview]));
                    assert(vec_rv_view(self.relationship_versions@.last().1) =~= seq![vview]);
                    assert(self.rpairs() =~= pushed);
                    lemma_assoc_push(oldpairs, cid, seq![vview]);
                    assert(self.relationship_chain(cid) =~= Seq::<RelationshipVersionV>::empty().push(
                        vview,
                    ));
                    assert forall|j: int| 0 <= j < self.rpairs().len() implies (
                    #[trigger] self.rpairs()[j]).1.len() > 0 by {
                        if j < oldpairs.len() {
                            assert(pushed[j] == oldpairs[j]);
                        }
                    }
                    assert(self.cpairs() =~= old(self).cpairs());
                }
                Ok(())
            },
        }
    }

    /// Insert a version into a relationship's chain, keeping the chain ascending
    /// by version number; used when hydrating from durable records.
    pub fn insert_relationship_version_sorted(&mut self, version: RelationshipVersion) -> (r: Result<
        (),
        MnemonicError,
    >)
        requires
            old(self).wf(),
        ensures
            final(self).wf(),
            r is Ok,
            final(self).relationship_chain(version@.relationship_id) == insert_by_version_r(
                old(self).relationship_chain(version@.relationship_id),
                version@,
            ),
            forall|id: u128|
                id != version@.relationship_id ==> #[trigger] final(self).relationship_chain(id) == old(
                    self,
                ).relationship_chain(id),
            forall|id: u128| #[trigger]
                final(self).concept_chain(id) == old(self).concept_chain(id),
    {
        let ghost cid = version@.relationship_id;
        let ghost oldpairs = self.rpairs();
        let ghost vview = version@;
        match self.find_relationship(version.relationship_id) {
            Some(i) => {
                let ghost oldchain = oldpairs[i as int].1;
                let mut pair = self.relationship_versions.remove(i);
                let mut p = pair.1.len();
                while p > 0 && pair.1[p - 1].version > version.version
                    invariant
                        p <= pair.1@.len(),
                        vec_rv_view(pair.1) == oldchain,
                        pair.1@.len() == oldchain.len(),
                        version@ == vview,
                        forall|j: int|
                            p <= j < oldchain.len() ==> (#[trigger] oldchain[j]).version
                                > vview.version,
                    decreases p,
                {
                    proof {
                        assert(oldchain[p - 1] == pair.1@[p - 1]@);
                    }
                    p = p - 1;
                }
                proof {
                    if p > 0 {
                        assert(oldchain[p - 1] == pair.1@[p - 1]@);
                    }
                    lemma_insert_by_version_r_at(oldchain, vview, p as int);
                }
                let ghost newchain = oldchain.insert(p as int, vview);
                pair.1.insert(p, version);
                proof {
                    assert(vec_rv_view(pair.1) =~= newchain);
                }
                self.relationship_versions.insert(i, pair);
                proof {
                    let updated = oldpairs.update(i as int, (cid, newchain));
                    assert(self.relationship_versions@ =~= old(self).relationship_versions@.update(
                        i as int,
                        self.relationship_versions@[i as int],
                    ));
                    assert(self.rpairs() =~= updated);
                    lemma_assoc_update(oldpairs, i as int, newchain);
                    assert(self.relationship_chain(cid) == newchain);
                    assert forall|j: int| 0 <= j < self.rpairs().len() implies (
                    #[trigger] self.rpairs()[j]).1.len() > 0 by {
                        if j != i as int {
                            assert(updated[j] == oldpairs[j]);
                        }
                    }
                    assert(self.cpairs() =~= old(self).cpairs());
                }
                Ok(())
            },
            None => {
                let key = version.relationship_id;
                let mut chain: Vec<RelationshipVersion> = Vec::new();
                chain.push(version);
                self.relationship_versions.push((key, chain));
                proof {
                    let pushed = oldpairs.push((cid, seq![vview]));
                    assert(vec_rv_view(self.relationship_versions@.last().1) =~= seq![vview]);
                    assert(self.rpairs() =~= pushed);
                    lemma_assoc_push(oldpairs, cid, seq![vview]);
                    assert(self.relationship_chain(cid) =~= insert_by_version_r(
                        Seq::<RelationshipVersionV>::empty(),
                        vview,
                    ));
                    assert forall|j: int| 0 <= j < self.rpairs().len() implies (
                    #[trigger] self.rpairs()[j]).1.len() > 0 by {
                        if j < oldpairs.len() {
                            assert(pushed[j] == oldpairs[j]);
                        }
                    }
                    assert(self.cpairs() =~= old(self).cpairs());
                }
                Ok(())
            },
        }
    }

    /// Conflict probe: has this relationship a version created or deleted
    /// strictly after `timestamp`?
    pub fn has_relationship_been_modified_since(
        &self,
        relationship_id: &RelationshipId,
        timestamp: Timestamp,
    ) -> (r: Result<bool, MnemonicError>)
        requires
            self.wf(),
        ensures
            r is Ok,
            r->Ok_0 == relationship_modified_since(self.relationship_chain(*relationship_id), timestamp),
    {
        match self.find_relationship(*relationship_id) {
            None => Ok(false),
            Some(i) => {
                let chain = &self.relationship_versions[i].1;
                if chain.len() == 0 {
                    proof {
                        assert(vec_rv_view(*chain) == self.relationship_chain(*relationship_id));
                    }
                    return Ok(false);
                }
                let last = &chain[chain.len() - 1];
                proof {
                    assert(vec_rv_view(*chain).last() == last@);
                    assert(vec_rv_view(*chain) == self.relationship_chain(*relationship_id));
                }
                let m = match last.deleted_at {
                    Some(d) => d,
                    None => last.created_at,
                };
                Ok(m > timestamp)
            },
        }
    }

    /// The newest version record of a relationship, if any.
    pub fn latest_relationship_version(&self, relationship_id: &RelationshipId) -> (r: Option<RelationshipVersion>)
        requires
            self.wf(),
        ensures
            opt_rv_view(r) == latest_of_r(self.relationship_chain(*relationship_id)),
    {
        match self.find_relationship(*relationship_id) {
            None => None,
            Some(i) => {
                let chain = &self.relationship_versions[i].1;
                proof {
                    assert(vec_rv_view(*chain) == self.relationship_chain(*relationship_id));
                }
                if chain.len() == 0 {
                    None
                } else {
                    let last = &chain[chain.len() - 1];
                    proof {
                        assert(vec_rv_view(*chain).last() == last@);
                    }
                    Some(last.clone())
                }
            },
        }
    }

    /// Every relationship whose newest version is active at `now`, as that newest
    /// version.
    pub fn get_all_active_relationships(&self, now: Timestamp) -> (r: Result<
        Vec<RelationshipVersion>,
        MnemonicError,
    >)
        requires
            self.wf(),
        ensures
            r is Ok,
            sound_active_r(*self, now, vec_rv_view(r->Ok_0)),
            complete_active_r(*self, now, vec_rv_view(r->Ok_0)),
            ids_ok_r(*self) ==> distinct_entity_ids_r(vec_rv_view(r->Ok_0)),
    {
        let mut out: Vec<RelationshipVersion> = Vec::new();
        let ghost kidx = Seq::<int>::empty();
        let n = self.relationship_versions.len();
        let mut j: usize = 0;
        proof {
            assert(vec_rv_view(out) =~= Seq::<RelationshipVersionV>::empty());
        }
        while j < n
            invariant
                j <= n,
                n == self.rpairs().len(),
                self.wf(),
                kidx.len() == vec_rv_view(out).len(),
                forall|k1: int, k2: int|
                    0 <= k1 < k2 < kidx.len() ==> #[trigger] kidx[k1] < #[trigger] kidx[k2],
                forall|k: int|
                    0 <= k < kidx.len() ==> 0 <= #[trigger] kidx[k] < j && self.rpairs()[kidx[k]].1.len()
                        > 0 && vec_rv_view(out)[k] == self.rpairs()[kidx[k]].1.last(),
                sound_active_r(*self, now, vec_rv_view(out)),
                forall|jj: int|
                    0 <= jj < j ==> (((#[trigger] self.rpairs()[jj]).1.len() > 0
                        && self.rpairs()[jj].1.last().active_at(now)) ==> exists|i: int|
                        0 <= i < vec_rv_view(out).len() && vec_rv_view(out)[i] == self.rpairs()[jj].1.last()),
            decreases n - j,
        {
            let ghost items0 = vec_rv_view(out);
            let ghost kidx0 = kidx;
            let chain = &self.relationship_versions[j].1;
            proof {
                assert(vec_rv_view(*chain) == self.rpairs()[j as int].1);
                lemma_assoc_get_index(self.rpairs(), j as int);
            }
            let mut pushed = false;
            if chain.len() > 0 {
                let last = &chain[chain.len() - 1];
                proof {
                    assert(vec_rv_view(*chain).last() == last@);
                }
                if last.is_active_at(now) {
                    out.push(last.clone());
                    pushed = true;
                    proof {
                        kidx = kidx0.push(j as int);
                        let wid = self.rpairs()[j as int].0;
                        let items = vec_rv_view(out);
                        assert(items =~= items0.push(last@));
                        assert(self.relationship_chain(wid) == self.rpairs()[j as int].1);
                        assert(items[items.len() - 1] == self.relationship_chain(wid).last());
                        assert forall|k: int|
                            0 <= k < kidx.len() implies 0 <= #[trigger] kidx[k] < j + 1
                            && self.rpairs()[kidx[k]].1.len() > 0 && items[k] == self.rpairs()[kidx[k]].1.last() by {
                            if k < kidx0.len() {
                                assert(kidx[k] == kidx0[k]);
                                assert(items[k] == items0[k]);
                            } else {
                                assert(kidx[k] == j as int);
                            }
                        }
                        assert forall|i: int| #![trigger items[i]] 0 <= i < items.len() implies exists|id: u128|
                            {
                                let chain2 = #[trigger] self.relationship_chain(id);
                                chain2.len() > 0 && chain2.last().active_at(now) && items[i]
                                    == chain2.last()
                            } by {
                            if i < items0.len() {
                                assert(items[i] == items0[i]);
                            } else {
                                let chain2 = self.relationship_chain(wid);
                                assert(chain2.len() > 0 && chain2.last().active_at(now) && items[i]
                                    == chain2.last());
                            }
                        }
                    }
                }
            }
            proof {
                let items = vec_rv_view(out);
                if !pushed {
                    assert(items == items0);
                }
                assert forall|jj: int|
                    0 <= jj < j + 1 && (#[trigger] self.rpairs()[jj]).1.len() > 0
                        && self.rpairs()[jj].1.last().active_at(now) implies exists|i: int|
                    0 <= i < items.len() && items[i] == self.rpairs()[jj].1.last() by {
                    if jj < j {
                        let i = choose|i: int|
                            0 <= i < items0.len() && items0[i] == self.rpairs()[jj].1.last();
                        assert(items[i] == items0[i]);
                        assert(items[i] == self.rpairs()[jj].1.last());
                    } else {
                        assert(vec_rv_view(self.relationship_versions@[jj].1) == self.rpairs()[jj].1);
                        assert(items[items.len() - 1] == self.rpairs()[jj].1.last());
                    }
                }
            }
            j = j + 1;
        }
        proof {
            let items = vec_rv_view(out);
            assert forall|id: u128|
                ((#[trigger] self.relationship_chain(id)).len() > 0 && self.relationship_chain(
                    id,
                ).last().active_at(now)) implies exists|i: int|
                0 <= i < items.len() && items[i] == self.relationship_chain(id).last() by {
                assert(assoc_get(self.rpairs(), id) is Some);
                lemma_assoc_get_some_index(self.rpairs(), id);
                let jj = choose|jj: int|
                    0 <= jj < self.rpairs().len() && (#[trigger] self.rpairs()[jj]).0 == id
                        && self.rpairs()[jj].1 == assoc_get(self.rpairs(), id).unwrap();
                assert(self.rpairs()[jj].1 == self.relationship_chain(id));
                assert(self.rpairs()[jj].1.len() > 0 && self.rpairs()[jj].1.last().active_at(now));
            }
            if ids_ok_r(*self) {
                assert forall|k1: int, k2: int|
                    0 <= k1 < k2 < items.len() implies (#[trigger] items[k1]).relationship_id != (
                #[trigger] items[k2]).relationship_id by {
                    let j1 = kidx[k1];
                    let j2 = kidx[k2];
                    assert(j1 < j2);
                    lemma_assoc_get_index(self.rpairs(), j1);
                    lemma_assoc_get_index(self.rpairs(), j2);
                    let id1 = self.rpairs()[j1].0;
                    let id2 = self.rpairs()[j2].0;
                    assert(id1 != id2);
                    assert(self.relationship_chain(id1) == self.rpairs()[j1].1);
                    assert(self.relationship_chain(id2) == self.rpairs()[j2].1);
                    assert(self.relationship_chain(id1)[self.relationship_chain(
                        id1,
                    ).len() - 1].relationship_id == id1);
                    assert(self.relationship_chain(id2)[self.relationship_chain(
                        id2,
                    ).len() - 1].relationship_id == id2);
                    assert(items[k1].relationship_id == id1);
                    assert(items[k2].relationship_id == id2);
                }
            }
        }
        Ok(out)
    }

}

/// Splicing a version into its place by version number equals inserting it
/// at the first index whose version number is not smaller.
pub proof fn lemma_insert_by_version_c_at(chain: Seq<ConceptVersionV>, v: ConceptVersionV, p: int)
    requires
        0 <= p <= chain.len(),
        forall|j: int| p <= j < chain.len() ==> (#[trigger] chain[j]).version > v.version,
        p > 0 ==> chain[p - 1].version <= v.version,
    ensures
        insert_by_version_c(chain, v) == chain.insert(p, v),
    decreases chain.len(),
{
    if p == chain.len() {
        if chain.len() == 0 {
            assert(seq![v] =~= chain.insert(p, v));
        } else {
            assert(chain.push(v) =~= chain.insert(p, v));
        }
    } else {
        assert(chain[chain.len() - 1].version > v.version);
        lemma_insert_by_version_c_at(chain.drop_last(), v, p);
        assert(chain.drop_last().insert(p, v).push(chain.last()) =~= chain.insert(p, v));
    }
}

/// Splicing a version into its place by version number equals inserting it
/// at the first index whose version number is not smaller.
pub proof fn lemma_insert_by_version_r_at(
    chain: Seq<RelationshipVersionV>,
    v: RelationshipVersionV,
    p: int,
)
    requires
        0 <= p <= chain.len(),
        forall|j: int| p <= j < chain.len() ==> (#[trigger] chain[j]).version > v.version,
        p > 0 ==> chain[p - 1].version <= v.version,
    ensures
        insert_by_version_r(chain, v) == chain.insert(p, v),
    decreases chain.len(),
{
    if p == chain.len() {
        if chain.len() == 0 {
            assert(seq![v] =~= chain.insert(p, v));
        } else {
            assert(chain.push(v) =~= chain.insert(p, v));
        }
    } else {
        assert(chain[chain.len() - 1].version > v.version);
        lemma_insert_by_version_r_at(chain.drop_last(), v, p);
        assert(chain.drop_last().insert(p, v).push(chain.last()) =~= chain.insert(p, v));
    }
}

/// The newest element of a chain, if any.
pub open spec fn latest_of_c(chain: Seq<ConceptVersionV>) -> Option<ConceptVersionV> {
    if chain.len() == 0 {
        None
    } else {
        Some(chain.last())
    }
}

pub open spec fn latest_of_r(chain: Seq<RelationshipVersionV>) -> Option<RelationshipVersionV> {
    if chain.len() == 0 {
        None
    } else {
        Some(chain.last())
    }
}

} // verus!
