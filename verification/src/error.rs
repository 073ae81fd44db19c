use vstd::prelude::*;

verus! {

/// Why an operation on the block tree was refused. A refused operation leaves
/// the engine as it was.
#[derive(Clone, Copy, Debug, PartialEq, Eq, Structural)]
pub enum Error {
    /// A block names a parent that is not in the tree.
    InvalidParent,
    /// A block with this root is already in the tree.
    DuplicateRoot,
    /// A head search names a justified block that is not in the tree.
    UnknownJustifiedBlock,
    /// Pruning names a finalized block that is not in the tree.
    FinalizedNodeUnknown,
    /// A weight delta names a position beyond the end of the tree.
    InvalidNodeIndex,
    /// A weight delta would take a node's weight below zero or above the
    /// largest weight a node can hold.
    WeightOverflow,
}

} // verus!
