//! Cryptographic integrity snapshots of filesystem trees, stored as an
//! unbounded sequence of versions in a space-efficient weave archive.
//!
//! A snapshot is a canonical, hashed tree of directory entries with their
//! attributes. Snapshots serialize to a line-oriented text form, compare by
//! a streaming merge in canonical order, and persist either as single
//! compressed files or as deltas of an SCCS-style weave, where every stored
//! version stays readable forever.

use vstd::prelude::*;

pub mod escape;
pub mod weave;
pub mod delta;
pub mod lines;
pub mod tree;
pub mod serial;
pub mod compare;
pub mod hash;
pub mod cli;
pub mod store;

verus! {

/// A selector over the versions held in a store.
pub enum Version {
    Latest,
    Prior,
    Tagged(String),
}

/// The errors the library itself can raise. Failures of the surrounding
/// filesystem plumbing stay with that plumbing.
#[derive(Debug)]
pub enum SureError {
    /// A grammar violation in a tree or weave stream, with the line at fault.
    FormatError { line: u64 },
    /// An internal consistency violation in the delta writer.
    WeaveInvariant,
    /// The requested version is not in the store.
    VersionNotFound,
}

} // verus!
