//! The core of an embedded key/value storage engine: a write-ahead
//! transaction log over a record and index codec, an ordered map built as
//! a multi-level skip list, and a cuckoo filter whose fingerprints come
//! from a Rabin fingerprint over GF(2) polynomials.  Every data structure
//! carries a mathematical model and machine-checked contracts; the file
//! system and the clock sit outside, behind the thin unverified rim that
//! feeds this crate plain bytes.

pub mod b_tree;
pub mod commit_log;
pub mod skip_list;
pub mod cuckoo_filter;
pub mod filters;
pub mod memtable;
pub mod entropy;
pub mod fingerprint;
pub mod segment;
pub mod transaction_log;

use vstd::prelude::*;

verus! {

/// Result type shared by the storage operations.
pub type StoreResult<K> = Result<K, StoreError>;

/// Error carrying a human-readable description of what went wrong.
#[derive(Debug, Clone)]
pub struct StoreError(pub String);

} // verus!
