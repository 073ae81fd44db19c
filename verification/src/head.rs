use vstd::prelude::*;
use crate::checkpoint::Checkpoint;
use crate::error::Error;
use crate::hash::Hash256;
use crate::node::ProtoNode;
use crate::tree::{contains_root, in_subtree, index_of, lemma_subtree_bounds};

verus! {

/// Node `x` may be the head of a search from node `j` with the checkpoints
/// `justified` and `finalized`: either its own two checkpoints are these, or
/// its justified checkpoint is of the same or a later epoch and it is `j` or a
/// descendant of `j`.
pub open spec fn is_viable(
    s: Seq<ProtoNode>,
    justified: Checkpoint,
    finalized: Checkpoint,
    j: int,
    x: int,
) -> bool {
    (s[x].justified_checkpoint == justified && s[x].finalized_checkpoint == finalized) || (
    s[x].justified_checkpoint.epoch.0 >= justified.epoch.0 && in_subtree(s, j, x))
}

/// Going from `x` towards `j`, the first node that may be the head; `j` itself
/// where none may.
pub open spec fn deepest_viable(
    s: Seq<ProtoNode>,
    justified: Checkpoint,
    finalized: Checkpoint,
    j: int,
    x: int,
) -> int
    decreases x,
{
    if x <= j {
        j
    } else if is_viable(s, justified, finalized, j, x) {
        x
    } else {
        match s[x].parent {
            Some(p) => if p < x {
                deepest_viable(s, justified, finalized, j, p as int)
            } else {
                j
            },
            None => j,
        }
    }
}

/// Where the search from node `j` starts looking: the cached best descendant
/// of `j`, or `j` itself where none is cached.
pub open spec fn candidate(s: Seq<ProtoNode>, j: int) -> int {
    match s[j].best_descendant {
        Some(d) => d as int,
        None => j,
    }
}

/// The position of the head for the checkpoints `justified` and `finalized`,
/// where the justified root is in the tree.
pub open spec fn head_index(s: Seq<ProtoNode>, justified: Checkpoint, finalized: Checkpoint) -> int {
    let j = index_of(s, justified.root);
    deepest_viable(s, justified, finalized, j, candidate(s, j))
}

/// The result of a head search over the cached pointers: the root of the head,
/// or `UnknownJustifiedBlock` where the justified root is not in the tree.
pub open spec fn head_outcome(
    s: Seq<ProtoNode>,
    justified: Checkpoint,
    finalized: Checkpoint,
) -> Result<Hash256, Error> {
    if contains_root(s, justified.root) {
        Ok(s[head_index(s, justified, finalized)].root)
    } else {
        Err(Error::UnknownJustifiedBlock)
    }
}

/// The head lies in the subtree of the node that the search started from, and
/// it may be the head unless it is that node.
pub proof fn lemma_deepest_viable(
    s: Seq<ProtoNode>,
    justified: Checkpoint,
    finalized: Checkpoint,
    j: int,
    x: int,
)
    requires
        in_subtree(s, j, x),
    ensures
        in_subtree(s, j, deepest_viable(s, justified, finalized, j, x)),
        in_subtree(s, deepest_viable(s, justified, finalized, j, x), x),
        deepest_viable(s, justified, finalized, j, x) == j || is_viable(
            s,
            justified,
            finalized,
            j,
            deepest_viable(s, justified, finalized, j, x),
        ),
    decreases x,
{
    if x > j && !is_viable(s, justified, finalized, j, x) {
        let p = s[x].parent->0 as int;
        lemma_deepest_viable(s, justified, finalized, j, p);
        let h = deepest_viable(s, justified, finalized, j, p);
        lemma_subtree_bounds(s, h, p);
        assert(in_subtree(s, h, x));
    } else {
        assert(in_subtree(s, x, x));
    }
}

} // verus!
