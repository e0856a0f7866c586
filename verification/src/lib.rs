//! Derivation engine for commit-keyed derived data.
//!
//! Commits form an append-only directed acyclic graph.  For each derived-data
//! type, a pure function computes a value for a commit from the commit itself
//! and the already-computed values of its parents.  The engine memoizes those
//! values in a [`mapping::Mapping`], derives missing ancestors before their
//! descendants, backfills long histories in chunks, and builds bounded
//! dependency graphs of derivation tasks for continuous tailing.

use vstd::prelude::*;

pub mod backfill;
pub mod bookmarks;
pub mod config;
pub mod contract;
pub mod dag;
pub mod derive;
pub mod graph;
pub mod lease;
pub mod mapping;
pub mod registry;
pub mod scrub;
pub mod tail;

verus! {

/// How a derivation request treats a type that is not enabled for the
/// repository.
#[derive(Clone, Copy, PartialEq, Eq, Structural, Debug)]
pub enum DeriveMode {
    /// Fail with [`DeriveError::Disabled`] when the type is not enabled.
    OnlyIfEnabled,
    /// Derive even when the type is not enabled (controlled backfills).
    ForceEnabled,
}

/// Errors surfaced by the derivation engine.
#[derive(Clone, Copy, PartialEq, Eq, Structural, Debug)]
pub enum DeriveError {
    /// The requested derived-data type is not enabled for the repository.
    Disabled,
    /// The derivation function failed on the named commit.
    Failed(u64),
    /// A commit was not present in the commit graph.
    UnknownCommit(u64),
    /// The dependency declarations or the task graph contain a cycle.
    Cycle,
}

} // verus!
