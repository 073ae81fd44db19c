use vstd::prelude::*;
use crate::best::{
    lemma_refreshed_wf, lemma_with_weights_tree, refreshed, refreshed_nodes, with_weights,
};
use crate::checkpoint::{Checkpoint, Slot};
use crate::error::Error;
use crate::hash::Hash256;
use crate::head::{deepest_viable, head_index, head_outcome};
use crate::index::{
    find_slot, lemma_slot_absent, lemma_table_insert, lemma_table_same_roots,
    lemma_table_single, lookup, pruned_table, table_wf,
};
use crate::node::ProtoNode;
use crate::prune::{lemma_pruned_wf, pruned, pruned_nodes};
use crate::tree::{
    contains_root, in_subtree, index_of, lemma_index_of_in_range, lemma_subtree_bounds,
    lemma_subtree_same_parents, store_wf, tree_wf,
};
use crate::weights::{apply_outcome, new_weights, reweighted};

verus! {

/// The block tree as a flat sequence of nodes in insertion order, the anchor
/// first, with a table from roots to positions. Relations between nodes are
/// positions in the sequence.
pub struct ProtoArray {
    nodes: Vec<ProtoNode>,
    /// The positions of all nodes, in the order of their roots.
    indices: Vec<usize>,
}

/// The node that a new tree starts from.
pub open spec fn anchor_node(
    slot: Slot,
    root: Hash256,
    justified_checkpoint: Checkpoint,
    finalized_checkpoint: Checkpoint,
) -> ProtoNode {
    ProtoNode {
        slot,
        root,
        parent: None,
        justified_checkpoint,
        finalized_checkpoint,
        weight: 0,
        best_child: None,
        best_descendant: None,
    }
}

/// Whether a block with root `root` and parent `parent_root` can be added.
/// A known root is refused before an unknown parent is.
pub open spec fn insert_outcome(s: Seq<ProtoNode>, root: Hash256, parent_root: Hash256) -> Result<
    (),
    Error,
> {
    if contains_root(s, root) {
        Err(Error::DuplicateRoot)
    } else if !contains_root(s, parent_root) {
        Err(Error::InvalidParent)
    } else {
        Ok(())
    }
}

/// The tree with a new block appended under the node with root `parent_root`.
/// The new node has no weight and no cached pointers, and no other node
/// changes.
pub open spec fn with_block(
    s: Seq<ProtoNode>,
    slot: Slot,
    root: Hash256,
    parent_root: Hash256,
    justified_checkpoint: Checkpoint,
    finalized_checkpoint: Checkpoint,
) -> Seq<ProtoNode> {
    s.push(
        ProtoNode {
            slot,
            root,
            parent: Some(index_of(s, parent_root) as usize),
            justified_checkpoint,
            finalized_checkpoint,
            weight: 0,
            best_child: None,
            best_descendant: None,
        },
    )
}

/// Adding a block under a known parent keeps the store well formed.
pub proof fn lemma_with_block_wf(
    s: Seq<ProtoNode>,
    slot: Slot,
    root: Hash256,
    parent_root: Hash256,
    justified_checkpoint: Checkpoint,
    finalized_checkpoint: Checkpoint,
)
    requires
        store_wf(s),
        insert_outcome(s, root, parent_root) is Ok,
        s.len() < usize::MAX,
    ensures
        store_wf(
            with_block(s, slot, root, parent_root, justified_checkpoint, finalized_checkpoint),
        ),
{
    let t = with_block(s, slot, root, parent_root, justified_checkpoint, finalized_checkpoint);
    let n = s.len() as int;
    lemma_index_of_in_range(s, parent_root);
    assert forall|i: int| 0 < i < t.len() implies (#[trigger] t[i].parent) is Some
        && t[i].parent->0 < i by {
        if i < n {
            assert(t[i] == s[i]);
            assert(s[i].parent is Some);
        }
    }
    assert forall|i: int, j: int| 0 <= i < j < t.len() implies (#[trigger] t[i].root) != (
    #[trigger] t[j].root) by {
        if j < n {
            assert(t[i] == s[i] && t[j] == s[j]);
            assert(s[i].root != s[j].root);
        } else {
            assert(t[i] == s[i]);
        }
    }
    assert forall|i: int| 0 <= i < t.len() implies {
        &&& ((#[trigger] t[i]).best_child matches Some(c) ==> c < t.len() && t[c as int].parent
            == Some(i as usize))
        &&& (t[i].best_descendant matches Some(d) ==> in_subtree(t, i, d as int))
    } by {
        if i < n {
            assert(t[i] == s[i]);
            match s[i].best_child {
                Some(c) => {
                    assert(t[c as int] == s[c as int]);
                },
                None => {},
            }
            match s[i].best_descendant {
                Some(d) => {
                    lemma_subtree_bounds(s, i, d as int);
                    assert forall|k: int| 0 <= k <= d implies (#[trigger] s[k]).parent == (
                    #[trigger] t[k]).parent by {}
                    lemma_subtree_same_parents(s, t, i, d as int);
                },
                None => {},
            }
        }
    }
}

/// Whether the tree can be pruned to the node with root `root`.
pub open spec fn prune_outcome(s: Seq<ProtoNode>, root: Hash256) -> Result<(), Error> {
    if contains_root(s, root) {
        Ok(())
    } else {
        Err(Error::FinalizedNodeUnknown)
    }
}

/// The tree after a propagation of `deltas`: the weights are changed by the
/// deltas, then every cached pointer is brought up to date.
pub open spec fn propagated(s: Seq<ProtoNode>, deltas: Seq<(usize, i64)>) -> Seq<ProtoNode> {
    refreshed(reweighted(s, deltas))
}

impl ProtoArray {
    /// The nodes, in insertion order.
    pub closed spec fn view(&self) -> Seq<ProtoNode> {
        self.nodes@
    }

    /// The table from roots to positions.
    pub closed spec fn table(&self) -> Seq<usize> {
        self.indices@
    }

    /// The invariant of the store.
    pub open spec fn wf(&self) -> bool {
        store_wf(self@) && table_wf(self@, self.table())
    }

    /// A tree that holds only its anchor.
    pub fn new(
        slot: Slot,
        root: Hash256,
        justified_checkpoint: Checkpoint,
        finalized_checkpoint: Checkpoint,
    ) -> (a: ProtoArray)
        ensures
            a.wf(),
            a@ == seq![anchor_node(slot, root, justified_checkpoint, finalized_checkpoint)],
    {
        let mut nodes: Vec<ProtoNode> = Vec::new();
        nodes.push(
            ProtoNode {
                slot,
                root,
                parent: None,
                justified_checkpoint,
                finalized_checkpoint,
                weight: 0,
                best_child: None,
                best_descendant: None,
            },
        );
        let mut indices: Vec<usize> = Vec::new();
        indices.push(0);
        let a = ProtoArray { nodes, indices };
        proof {
            assert(a@ =~= seq![
                anchor_node(slot, root, justified_checkpoint, finalized_checkpoint),
            ]);
            assert(a.indices@ =~= seq![0usize]);
            lemma_table_single(a@);
        }
        a
    }

    /// The number of nodes.
    pub fn len(&self) -> (n: usize)
        ensures
            n == self@.len(),
    {
        self.nodes.len()
    }

    /// The node at position `i`, if there is one.
    pub fn node(&self, i: usize) -> (r: Option<ProtoNode>)
        ensures
            r == if i < self@.len() {
                Some(self@[i as int])
            } else {
                None
            },
    {
        if i < self.nodes.len() {
            Some(self.nodes[i])
        } else {
            None
        }
    }

    /// The position of the node with root `root`, found by bisection in the
    /// table from roots to positions.
    pub fn index_of(&self, root: &Hash256) -> (r: Option<usize>)
        requires
            self.wf(),
        ensures
            r is Some <==> contains_root(self@, *root),
            r matches Some(i) ==> i == index_of(self@, *root) && i < self@.len() && self@[i as int].root
                == *root,
    {
        lookup(&self.nodes, &self.indices, root)
    }

    /// Whether a node with root `root` is in the tree.
    pub fn contains(&self, root: &Hash256) -> (b: bool)
        requires
            self.wf(),
        ensures
            b == contains_root(self@, *root),
    {
        self.index_of(root).is_some()
    }

    /// Appends a block under the node with root `parent_root`.
    ///
    /// A root that is already in the tree is refused with `DuplicateRoot`;
    /// otherwise a parent that is not in the tree is refused with
    /// `InvalidParent`. The new node starts with weight 0 and without cached
    /// pointers; its ancestors' cached pointers are brought up to date by the
    /// next propagation.
    pub fn insert_block(
        &mut self,
        slot: Slot,
        root: Hash256,
        parent_root: Hash256,
        justified_checkpoint: Checkpoint,
        finalized_checkpoint: Checkpoint,
    ) -> (r: Result<(), Error>)
        requires
            old(self).wf(),
        ensures
            final(self).wf(),
            r == insert_outcome(old(self)@, root, parent_root),
            r is Ok ==> final(self)@ == with_block(
                old(self)@,
                slot,
                root,
                parent_root,
                justified_checkpoint,
                finalized_checkpoint,
            ),
            r is Err ==> final(self)@ == old(self)@,
    {
        let k = find_slot(&self.nodes, &self.indices, &root);
        if k < self.indices.len() && self.nodes[self.indices[k]].root == root {
            return Err(Error::DuplicateRoot);
        }
        proof {
            lemma_slot_absent(self.nodes@, self.indices@, root, k as int);
        }
        let parent = match self.index_of(&parent_root) {
            Some(p) => p,
            None => {
                return Err(Error::InvalidParent);
            },
        };
        let position = self.nodes.len();
        let node = ProtoNode {
            slot,
            root,
            parent: Some(parent),
            justified_checkpoint,
            finalized_checkpoint,
            weight: 0,
            best_child: None,
            best_descendant: None,
        };
        self.nodes.push(node);
        self.indices.insert(k, position);
        proof {
            assert(self.nodes.len() == self.nodes@.len());
            lemma_with_block_wf(
                old(self).nodes@,
                slot,
                root,
                parent_root,
                justified_checkpoint,
                finalized_checkpoint,
            );
            lemma_table_insert(old(self).nodes@, old(self).indices@, node, k as int);
        }
        Ok(())
    }

    /// Applies a batch of signed weight deltas, each for the node at a
    /// position, and brings the cached pointers up to date.
    ///
    /// A delta changes the weight of its node and of every ancestor of it, up
    /// to and including the anchor. Then every node gets as best child its
    /// heaviest child (of equally heavy ones, the one with the greater root)
    /// and as best descendant the node reached by following best children.
    /// A batch that names a position beyond the tree, or that would take a
    /// weight out of range, is refused as a whole.
    pub fn apply_deltas(&mut self, deltas: &Vec<(usize, i64)>) -> (r: Result<(), Error>)
        requires
            old(self).wf(),
        ensures
            final(self).wf(),
            r == apply_outcome(old(self)@, deltas@),
            r is Ok ==> final(self)@ == propagated(old(self)@, deltas@),
            r is Err ==> final(self)@ == old(self)@,
    {
        match new_weights(&self.nodes, deltas) {
            Err(e) => Err(e),
            Ok(w) => {
                let out = refreshed_nodes(&self.nodes, &w);
                proof {
                    assert(with_weights(self.nodes@, w@) =~= reweighted(self.nodes@, deltas@));
                    lemma_with_weights_tree(self.nodes@, w@);
                    lemma_refreshed_wf(reweighted(self.nodes@, deltas@));
                    lemma_table_same_roots(self.nodes@, out@, self.indices@);
                }
                self.nodes = out;
                Ok(())
            },
        }
    }

    /// Finds the head over the cached pointers, without propagating first.
    ///
    /// The search starts at the node of the justified root, goes to its cached
    /// best descendant, and from there back towards the start until it meets a
    /// node that may be the head; the start itself is the head where none may.
    pub fn find_head(&self, justified_checkpoint: Checkpoint, finalized_checkpoint: Checkpoint) -> (r:
        Result<Hash256, Error>)
        requires
            self.wf(),
        ensures
            r == head_outcome(self@, justified_checkpoint, finalized_checkpoint),
    {
        let j = match self.index_of(&justified_checkpoint.root) {
            Some(j) => j,
            None => {
                return Err(Error::UnknownJustifiedBlock);
            },
        };
        let mut x = match self.nodes[j].best_descendant {
            Some(d) => d,
            None => j,
        };
        proof {
            assert(in_subtree(self.nodes@, j as int, j as int));
            lemma_subtree_bounds(self.nodes@, j as int, x as int);
        }
        while x > j
            invariant
                j < self.nodes@.len(),
                in_subtree(self.nodes@, j as int, x as int),
                tree_wf(self.nodes@),
                deepest_viable(
                    self.nodes@,
                    justified_checkpoint,
                    finalized_checkpoint,
                    j as int,
                    x as int,
                ) == head_index(self.nodes@, justified_checkpoint, finalized_checkpoint),
            ensures
                x as int == head_index(self.nodes@, justified_checkpoint, finalized_checkpoint),
                x < self.nodes@.len(),
            decreases x,
        {
            proof {
                lemma_subtree_bounds(self.nodes@, j as int, x as int);
            }
            let node = self.nodes[x];
            let viable = (node.justified_checkpoint == justified_checkpoint
                && node.finalized_checkpoint == finalized_checkpoint)
                || node.justified_checkpoint.epoch.0 >= justified_checkpoint.epoch.0;
            if viable {
                break ;
            }
            match node.parent {
                Some(p) => {
                    x = p;
                },
                None => {
                    proof {
                        assert(self.nodes@[x as int].parent is Some);
                    }
                    break ;
                },
            }
            proof {
                lemma_subtree_bounds(self.nodes@, j as int, x as int);
            }
        }
        Ok(self.nodes[x].root)
    }

    /// Removes every node but the node with root `finalized_root` and its
    /// descendants. That node becomes the anchor; the nodes that stay keep
    /// their order, weights and cached pointers, and get new positions.
    pub fn prune(&mut self, finalized_root: Hash256) -> (r: Result<(), Error>)
        requires
            old(self).wf(),
        ensures
            final(self).wf(),
            r == prune_outcome(old(self)@, finalized_root),
            r is Ok ==> final(self)@ == pruned(old(self)@, index_of(old(self)@, finalized_root)),
            r is Err ==> final(self)@ == old(self)@,
    {
        let f = match self.index_of(&finalized_root) {
            Some(f) => f,
            None => {
                return Err(Error::FinalizedNodeUnknown);
            },
        };
        let (out, new_index) = pruned_nodes(&self.nodes, f);
        let table = pruned_table(&self.nodes, &self.indices, &new_index, f);
        proof {
            lemma_pruned_wf(self.nodes@, f as int);
        }
        self.nodes = out;
        self.indices = table;
        Ok(())
    }

    /// Whether the node at position `node` is the node at position `ancestor`
    /// or one of its descendants.
    pub fn is_descendant(&self, ancestor: usize, node: usize) -> (b: bool)
        requires
            self.wf(),
        ensures
            b == in_subtree(self@, ancestor as int, node as int),
    {
        let n = self.nodes.len();
        if ancestor >= n || node >= n {
            proof {
                if in_subtree(self.nodes@, ancestor as int, node as int) {
                    lemma_subtree_bounds(self.nodes@, ancestor as int, node as int);
                }
            }
            return false;
        }
        let mut x = node;
        while x > ancestor
            invariant
                n == self.nodes@.len(),
                ancestor < n,
                x < n,
                tree_wf(self.nodes@),
                in_subtree(self.nodes@, ancestor as int, x as int) == in_subtree(
                    self.nodes@,
                    ancestor as int,
                    node as int,
                ),
            decreases x,
        {
            match self.nodes[x].parent {
                Some(p) => {
                    x = p;
                },
                None => {
                    proof {
                        assert(self.nodes@[x as int].parent is Some);
                    }
                    return false;
                },
            }
        }
        x == ancestor
    }
}

} // verus!
