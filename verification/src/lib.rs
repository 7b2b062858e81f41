//! Reference garbage collection for a distributed issue tracker.
//!
//! Issue threads are stored as immutable, content-addressed nodes of an
//! append-only DAG; mutable named references mark each issue's head and its
//! unmerged reply leaves. Over time references become redundant: their target
//! is already an ancestor of some other retained reference. This crate holds
//! the reachability analysis that decides exactly which local references are
//! safe to delete, together with the ancestry traversal and reverse-index
//! primitives it is built from.

pub mod accumulation;
pub mod error;
pub mod gc;
pub mod iter;
pub mod programs;
pub mod refs;
pub mod repository;
pub mod store;
pub mod traversal;
