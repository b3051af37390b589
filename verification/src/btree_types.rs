//! Errors and tuning parameters of the B-tree.

use vstd::prelude::*;

verus! {

/// The class of a failed low-level request.
#[derive(Debug, Clone, Copy, PartialEq, Eq, Structural)]
pub enum IoErrorKind {
    /// An argument was out of range.
    InvalidInput,
    /// There was no room left.
    OutOfMemory,
    /// Anything else.
    Other,
}

/// What can go wrong in a B-tree operation.
#[derive(Debug, Clone, Copy, PartialEq, Eq, Structural)]
pub enum BtreeError {
    /// A low-level request failed.
    Io(IoErrorKind),
    /// No node with the requested id exists.
    NodeNotFound,
}

/// What a put may do.
#[derive(Debug, Clone, Copy, PartialEq, Eq, Structural)]
pub enum BtreePutType {
    /// Only add a new key.
    Insert,
    /// Only change the value of an existing key.
    Update,
    /// Either of the two.
    Upsert,
}

/// When the children of a node are packed into fewer nodes.
#[derive(Debug, Clone, Copy, PartialEq, Eq, Structural)]
pub enum MergePolicy {
    /// Nodes are never merged.
    Never,
    /// Any saved node is worth a merge.
    Aggressive,
    /// A merge has to save two nodes, or one where only two were available.
    Conservative,
}

} // verus!
