use vstd::prelude::*;

verus! {

/// Errors of the reference garbage-collection core.
///
/// Any resolution failure aborts a whole calculator batch: a removable set
/// computed from incomplete ancestry could report still-needed references.
#[derive(Clone, Copy, PartialEq, Eq, Structural, Debug)]
pub enum Error {
    /// A node id could not be resolved in the store, either directly or while
    /// traversing ancestry.
    LookupError(u64),
    /// Following first parents from the given id never met an initial message
    /// backed by a head reference.
    NoTreeInitFound(u64),
    /// The reference with the given name token was not present in the
    /// directory when its deletion was attempted.
    DeletionError(u64),
}

} // verus!
