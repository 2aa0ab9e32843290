//! The core's view of the Durable Store: the `versions` namespace as an
//! append-only log of key/value byte pairs.  A commit appends all its
//! records in one atomic batch; hydration replays the whole log.  Mirroring
//! the log onto an on-disk key-value backend, and the entity-level
//! namespaces that only non-versioned read paths use, belong to the adapter
//! around this library, not to the core.

use vstd::prelude::*;

verus! {

/// Ghost view of a list of key/value pairs.
pub open spec fn entries_view(entries: Seq<(Vec<u8>, Vec<u8>)>) -> Seq<(Seq<u8>, Seq<u8>)> {
    entries.map_values(|p: (Vec<u8>, Vec<u8>)| (p.0@, p.1@))
}

/// Lookup of the first entry carrying `key` in a log.
pub open spec fn log_get(log: Seq<(Seq<u8>, Seq<u8>)>, key: Seq<u8>) -> Option<Seq<u8>>
    decreases log.len(),
{
    if log.len() == 0 {
        None
    } else if log[0].0 == key {
        Some(log[0].1)
    } else {
        log_get(log.drop_first(), key)
    }
}

/// The durable `versions` namespace.
pub struct DurableStore {
    versions: Vec<(Vec<u8>, Vec<u8>)>,
}

fn clone_bytes(v: &Vec<u8>) -> (r: Vec<u8>)
    ensures
        r@ == v@,
{
    let n = v.len();
    let mut out: Vec<u8> = Vec::new();
    let mut i: usize = 0;
    while i < n
        invariant
            i <= n,
            n == v@.len(),
            out@ == v@.subrange(0, i as int),
        decreases n - i,
    {
        out.push(v[i]);
        proof {
            assert(out@ =~= v@.subrange(0, i + 1));
        }
        i = i + 1;
    }
    proof {
        assert(v@.subrange(0, n as int) =~= v@);
    }
    out
}

impl DurableStore {
    /// The log of version records, in the order they were written.
    pub closed spec fn log(self) -> Seq<(Seq<u8>, Seq<u8>)> {
        entries_view(self.versions@)
    }

    /// An empty store.
    pub fn new() -> (r: Self)
        ensures
            r.log() == Seq::<(Seq<u8>, Seq<u8>)>::empty(),
    {
        let r = DurableStore { versions: Vec::new() };
        proof {
            assert(r.log() =~= Seq::<(Seq<u8>, Seq<u8>)>::empty());
        }
        r
    }

    /// A store holding the given entries; the adapter builds one from a scan
    /// of the on-disk `versions` namespace.
    pub fn from_entries(entries: Vec<(Vec<u8>, Vec<u8>)>) -> (r: Self)
        ensures
            r.log() == entries_view(entries@),
    {
        DurableStore { versions: entries }
    }

    /// Atomically append a batch of records to the log.
    pub fn write_batch(&mut self, ops: &Vec<(Vec<u8>, Vec<u8>)>)
        ensures
            final(self).log() == old(self).log() + entries_view(ops@),
    {
        let n = ops.len();
        let mut i: usize = 0;
        while i < n
            invariant
                i <= n,
                n == ops@.len(),
                self.log() == old(self).log() + entries_view(ops@.subrange(0, i as int)),
            decreases n - i,
        {
            let key = clone_bytes(&ops[i].0);
            let value = clone_bytes(&ops[i].1);
            let ghost prev = self.log();
            self.versions.push((key, value));
            proof {
                assert(self.log() =~= prev.push((ops@[i as int].0@, ops@[i as int].1@)));
                assert(entries_view(ops@.subrange(0, i + 1)) =~= entries_view(
                    ops@.subrange(0, i as int),
                ).push((ops@[i as int].0@, ops@[i as int].1@)));
                assert(self.log() =~= old(self).log() + entries_view(ops@.subrange(0, i + 1)));
            }
            i = i + 1;
        }
        proof {
            assert(entries_view(ops@.subrange(0, n as int)) =~= entries_view(ops@));
        }
    }

    /// The value of the first record written under `key`, if any.
    pub fn get_version(&self, key: &Vec<u8>) -> (r: Option<Vec<u8>>)
        ensures
            match (r, log_get(self.log(), key@)) {
                (Option::Some(v), Option::Some(gv)) => v@ == gv,
                (Option::None, Option::None) => true,
                _ => false,
            },
    {
        let n = self.versions.len();
        let mut i: usize = 0;
        proof {
            assert(self.log().skip(0) =~= self.log());
        }
        while i < n
            invariant
                i <= n,
                n == self.log().len(),
                log_get(self.log(), key@) == log_get(self.log().skip(i as int), key@),
            decreases n - i,
        {
            proof {
                assert(self.log().skip(i as int)[0] == self.log()[i as int]);
            }
            if bytes_eq(&self.versions[i].0, key) {
                let value = clone_bytes(&self.versions[i].1);
                return Some(value);
            }
            proof {
                assert(self.log().skip(i as int).drop_first() =~= self.log().skip(i + 1));
            }
            i = i + 1;
        }
        proof {
            assert(self.log().skip(n as int) =~= Seq::<(Seq<u8>, Seq<u8>)>::empty());
        }
        None
    }

    /// The value bytes of the record at position `i` in the log.
    pub fn value_at(&self, i: usize) -> (r: &Vec<u8>)
        requires
            i < self.log().len(),
        ensures
            r@ == self.log()[i as int].1,
    {
        &self.versions[i].1
    }

    /// A copy of the record at position `i` in the log, for callers that
    /// mirror the log onto external media.
    pub fn entry_at(&self, i: usize) -> (r: (Vec<u8>, Vec<u8>))
        requires
            i < self.log().len(),
        ensures
            r.0@ == self.log()[i as int].0,
            r.1@ == self.log()[i as int].1,
    {
        let key = clone_bytes(&self.versions[i].0);
        let value = clone_bytes(&self.versions[i].1);
        (key, value)
    }

    /// Number of records in the log.
    pub fn len(&self) -> (r: usize)
        ensures
            r == self.log().len(),
    {
        self.versions.len()
    }
}

/// Byte-for-byte equality of two byte vectors.
pub fn bytes_eq(a: &Vec<u8>, b: &Vec<u8>) -> (r: bool)
    ensures
        r == (a@ == b@),
{
    if a.len() != b.len() {
        proof {
            assert(a@.len() != b@.len());
        }
        return false;
    }
    let n = a.len();
    let mut i: usize = 0;
    while i < n
        invariant
            i <= n,
            n == a@.len(),
            n == b@.len(),
            forall|j: int| 0 <= j < i ==> a@[j] == b@[j],
        decreases n - i,
    {
        if a[i] != b[i] {
            return false;
        }
        i = i + 1;
    }
    proof {
        assert(a@ =~= b@);
    }
    true
}

} // verus!
