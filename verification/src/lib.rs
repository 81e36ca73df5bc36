//! Replay of key-value write batches against a remote store, checked after
//! every batch against an independently maintained in-memory reference model.
//!
//! The library holds the verified core: the conversion of a byte-string
//! prefix into a half-open key range, the reference model and its batch
//! application, the narrowed re-scan bookkeeping, equality-based divergence
//! detection, and the collision diagnostics run on a mismatch.

pub mod diagnostics;
pub mod engine;
pub mod laws;
pub mod model;
pub mod ops;
pub mod order;
pub mod range;
pub mod script;
