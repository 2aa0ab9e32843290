//! Transactional core of a small property-graph engine.
//!
//! A multi-version concurrency-control (MVCC) layer that stores two kinds of
//! entities, concepts (nodes) and relationships (directed typed edges), as
//! append-only chains of version records.  Reads are snapshot-consistent as of
//! a caller-supplied instant; commits follow a first-committer-wins policy.

mod assoc;
pub mod codec;
pub mod engine;
mod ext;
pub mod keys;
pub mod store;
pub mod transaction;
pub mod types;
pub mod versioning;
