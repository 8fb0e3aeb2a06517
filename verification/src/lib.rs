//! A content-verified trust decision store and a layered configuration merge.
//!
//! The store maps canonical paths to trust records and answers queries by
//! walking from a path up through its ancestors. The configuration side merges
//! documents with a bounded-depth recursive merge. Both are pure: reading and
//! writing files is left to the caller.

pub mod path;
pub mod fingerprint;
pub mod trust_db;
pub mod laws;
pub mod config;
pub mod store;
pub mod format;
pub mod merge_laws;
pub mod dialog;
