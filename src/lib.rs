//! Finds redundant copies among a list of files by comparing content digests.
//!
//! The library holds the decisions: which hash algorithm a name selects, which
//! files are worth hashing at all (only those whose size another file shares),
//! how bytes are streamed into a digest, and which files are duplicates of an
//! earlier one. Reading files and deleting them is left to the caller.

pub mod algorithm;
pub mod hasher;
pub mod prefilter;
pub mod classify;
