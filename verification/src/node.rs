use vstd::prelude::*;
use crate::checkpoint::{Checkpoint, Slot};
use crate::hash::Hash256;

verus! {

/// One block of the tree. Positions are indices into the tree's sequence of
/// nodes.
#[derive(Clone, Copy, Debug, PartialEq, Eq, Structural)]
pub struct ProtoNode {
    pub slot: Slot,
    pub root: Hash256,
    /// Position of the parent; `None` for the anchor only.
    pub parent: Option<usize>,
    pub justified_checkpoint: Checkpoint,
    pub finalized_checkpoint: Checkpoint,
    /// Total balance of the votes for this block and its descendants.
    pub weight: u64,
    /// Position of the heaviest child, as of the last propagation.
    pub best_child: Option<usize>,
    /// Position of the node reached by following heaviest children, as of the
    /// last propagation.
    pub best_descendant: Option<usize>,
}

} // verus!
