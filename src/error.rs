//! Errors, one kind per layer, each wrapping the layer beneath it.
use vstd::prelude::*;

verus! {

/// Failures of a single node operation.
#[derive(Debug, Clone, Copy, PartialEq, Eq, Structural)]
pub enum NodeError {
    /// An insert found the key already present.
    AlreadyExists,
    /// An update did not find the key.
    NotFound,
    /// The key is longer than `MAX_KEY_SIZE`.
    KeyTooLarge,
    /// The value is longer than `MAX_VALUE_SIZE`.
    ValueTooLarge,
}

/// Failures of a tree operation.
#[derive(Debug, Clone, Copy, PartialEq, Eq, Structural)]
pub enum TreeError {
    Node(NodeError),
}

/// Failures of a transaction operation.
#[derive(Debug, Clone, Copy, PartialEq, Eq, Structural)]
pub enum TxnError {
    Tree(TreeError),
    /// A write transaction is already active on the database.
    WriterActive,
}

} // verus!
