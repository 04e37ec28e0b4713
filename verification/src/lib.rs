//! An order-configurable B+ tree keyed by strings, built over a flat,
//! append-only arena of nodes addressed by integer handles.
//!
//! The tree offers two operations: upsert a key/value pair (`put`) and
//! point-lookup a key (`get`). Splitting an overfull leaf, promoting a
//! separator key, and cascading that split upward through ancestor
//! internal nodes is the heart of the implementation; the verified
//! invariants say that every node stays sorted, aligned and within its
//! capacity bound across all of it.

pub mod keys;
pub mod model;
pub mod node;
pub mod tree;
