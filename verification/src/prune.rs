use vstd::prelude::*;
use crate::hash::Hash256;
use crate::node::ProtoNode;
use crate::tree::{
    contains_root, in_subtree, index_of, lemma_index_of_unique, lemma_subtree_bounds, store_wf,
    tree_wf,
};

verus! {

/// The number of nodes before position `i` that are in the subtree of `f`: the
/// position that node `i` has once all other nodes are removed.
pub open spec fn rank(s: Seq<ProtoNode>, f: int, i: int) -> int
    decreases i,
{
    if i <= 0 {
        0
    } else {
        rank(s, f, i - 1) + if in_subtree(s, f, i - 1) {
            1int
        } else {
            0
        }
    }
}

/// A position after pruning to the subtree of `f`; `None` for one that is
/// removed.
pub open spec fn remap(s: Seq<ProtoNode>, f: int, o: Option<usize>) -> Option<usize> {
    match o {
        Some(x) => if in_subtree(s, f, x as int) {
            Some(rank(s, f, x as int) as usize)
        } else {
            None
        },
        None => None,
    }
}

/// Node `i` after pruning to the subtree of `f`: the same block with the same
/// weight, its three positions renumbered.
pub open spec fn pruned_node(s: Seq<ProtoNode>, f: int, i: int) -> ProtoNode {
    ProtoNode {
        slot: s[i].slot,
        root: s[i].root,
        parent: remap(s, f, s[i].parent),
        justified_checkpoint: s[i].justified_checkpoint,
        finalized_checkpoint: s[i].finalized_checkpoint,
        weight: s[i].weight,
        best_child: remap(s, f, s[i].best_child),
        best_descendant: remap(s, f, s[i].best_descendant),
    }
}

/// The first `k` nodes after pruning to the subtree of `f`.
pub open spec fn pruned_upto(s: Seq<ProtoNode>, f: int, k: int) -> Seq<ProtoNode>
    decreases k,
{
    if k <= 0 {
        Seq::empty()
    } else if in_subtree(s, f, k - 1) {
        pruned_upto(s, f, k - 1).push(pruned_node(s, f, k - 1))
    } else {
        pruned_upto(s, f, k - 1)
    }
}

/// The tree pruned to the subtree of `f`: node `f` and its descendants, in
/// their old order, with `f` as the anchor.
pub open spec fn pruned(s: Seq<ProtoNode>, f: int) -> Seq<ProtoNode> {
    pruned_upto(s, f, s.len() as int)
}

/// A new position is at most the old one, and 0 up to the new anchor.
pub proof fn lemma_rank_bounds(s: Seq<ProtoNode>, f: int, i: int)
    ensures
        0 <= rank(s, f, i),
        i >= 0 ==> rank(s, f, i) <= i,
        i <= f ==> rank(s, f, i) == 0,
    decreases i,
{
    if i > 0 {
        lemma_rank_bounds(s, f, i - 1);
        if in_subtree(s, f, i - 1) {
            lemma_subtree_bounds(s, f, i - 1);
        }
    }
}

/// Renumbering keeps the order of the nodes that stay.
pub proof fn lemma_rank_mono(s: Seq<ProtoNode>, f: int, i: int, j: int)
    requires
        i <= j,
    ensures
        rank(s, f, i) <= rank(s, f, j),
        i < j && i >= 0 && in_subtree(s, f, i) ==> rank(s, f, i) < rank(s, f, j),
    decreases j,
{
    if i < j {
        lemma_rank_bounds(s, f, i);
        if j > 0 {
            lemma_rank_mono(s, f, i, j - 1);
        }
    }
}

/// The pruned tree holds as many nodes as stay.
pub proof fn lemma_pruned_len(s: Seq<ProtoNode>, f: int, k: int)
    ensures
        pruned_upto(s, f, k).len() == rank(s, f, k),
    decreases k,
{
    if k > 0 {
        lemma_pruned_len(s, f, k - 1);
    }
}

/// A node that stays is found at its new position.
pub proof fn lemma_pruned_at(s: Seq<ProtoNode>, f: int, k: int, i: int)
    requires
        0 <= i < k,
        in_subtree(s, f, i),
    ensures
        0 <= rank(s, f, i) < rank(s, f, k),
        pruned_upto(s, f, k).len() == rank(s, f, k),
        pruned_upto(s, f, k)[rank(s, f, i)] == pruned_node(s, f, i),
    decreases k,
{
    lemma_pruned_len(s, f, k);
    lemma_pruned_len(s, f, k - 1);
    lemma_rank_mono(s, f, i, k);
    lemma_rank_bounds(s, f, i);
    if i < k - 1 {
        lemma_pruned_at(s, f, k - 1, i);
    }
}

/// Every position after pruning is the new position of a node that stays.
pub proof fn lemma_origin_exists(s: Seq<ProtoNode>, f: int, k: int, m: int)
    requires
        0 <= m < rank(s, f, k),
    ensures
        exists|i: int| 0 <= i < k && in_subtree(s, f, i) && rank(s, f, i) == m,
    decreases k,
{
    if k > 0 {
        if in_subtree(s, f, k - 1) && rank(s, f, k - 1) == m {
            assert(0 <= k - 1 < k && in_subtree(s, f, k - 1) && rank(s, f, k - 1) == m);
        } else {
            lemma_origin_exists(s, f, k - 1, m);
            let i = choose|i: int| 0 <= i < k - 1 && in_subtree(s, f, i) && rank(s, f, i) == m;
            assert(0 <= i < k && in_subtree(s, f, i) && rank(s, f, i) == m);
        }
    }
}

/// The node that stands at position `m` after pruning.
pub open spec fn origin(s: Seq<ProtoNode>, f: int, m: int) -> int {
    choose|i: int| 0 <= i < s.len() && in_subtree(s, f, i) && rank(s, f, i) == m
}

/// What is known of the node at a position after pruning.
pub proof fn lemma_origin(s: Seq<ProtoNode>, f: int, m: int)
    requires
        0 <= m < pruned(s, f).len(),
    ensures
        0 <= origin(s, f, m) < s.len(),
        in_subtree(s, f, origin(s, f, m)),
        rank(s, f, origin(s, f, m)) == m,
        pruned(s, f)[m] == pruned_node(s, f, origin(s, f, m)),
{
    lemma_pruned_len(s, f, s.len() as int);
    lemma_origin_exists(s, f, s.len() as int, m);
    lemma_pruned_at(s, f, s.len() as int, origin(s, f, m));
}

/// Among the nodes that stay, pruning keeps who descends from whom.
pub proof fn lemma_pruned_ancestry(s: Seq<ProtoNode>, f: int, a: int, d: int)
    requires
        tree_wf(s),
        in_subtree(s, f, a),
        in_subtree(s, f, d),
    ensures
        in_subtree(s, a, d) == in_subtree(pruned(s, f), rank(s, f, a), rank(s, f, d)),
    decreases d,
{
    let p = pruned(s, f);
    let n = s.len() as int;
    lemma_subtree_bounds(s, f, a);
    lemma_subtree_bounds(s, f, d);
    lemma_pruned_at(s, f, n, a);
    lemma_pruned_at(s, f, n, d);
    if d == a {
    } else if a < d {
        lemma_rank_mono(s, f, a, d);
        assert(d != f);
        assert(s[d].parent is Some);
        let q = s[d].parent->0 as int;
        assert(in_subtree(s, f, q));
        lemma_subtree_bounds(s, f, q);
        lemma_rank_mono(s, f, q, d);
        lemma_rank_bounds(s, f, q);
        assert(p[rank(s, f, d)].parent == Some(rank(s, f, q) as usize));
        lemma_pruned_ancestry(s, f, a, q);
    } else {
        lemma_rank_mono(s, f, d, a);
    }
}

/// Pruning to the subtree of a node of a well-formed tree gives a well-formed
/// tree whose anchor is that node.
pub proof fn lemma_pruned_wf(s: Seq<ProtoNode>, f: int)
    requires
        store_wf(s),
        0 <= f < s.len(),
    ensures
        store_wf(pruned(s, f)),
        pruned(s, f).len() == rank(s, f, s.len() as int),
        pruned(s, f)[0] == pruned_node(s, f, f),
{
    let p = pruned(s, f);
    let n = s.len() as int;
    assert(in_subtree(s, f, f));
    lemma_pruned_at(s, f, n, f);
    lemma_rank_bounds(s, f, f);
    lemma_rank_bounds(s, f, n);
    assert(p[0].parent is None) by {
        match s[f].parent {
            Some(q) => {
                if in_subtree(s, f, q as int) {
                    lemma_subtree_bounds(s, f, q as int);
                }
            },
            None => {},
        }
    }
    assert forall|m: int| 0 < m < p.len() implies (#[trigger] p[m].parent) is Some
        && p[m].parent->0 < m by {
        lemma_origin(s, f, m);
        let i = origin(s, f, m);
        assert(i != f);
        lemma_subtree_bounds(s, f, i);
        assert(s[i].parent is Some);
        let q = s[i].parent->0 as int;
        assert(in_subtree(s, f, q));
        lemma_rank_mono(s, f, q, i);
        lemma_rank_bounds(s, f, q);
    }
    assert forall|x: int, y: int| 0 <= x < y < p.len() implies (#[trigger] p[x].root) != (
    #[trigger] p[y].root) by {
        lemma_origin(s, f, x);
        lemma_origin(s, f, y);
        let i = origin(s, f, x);
        let j = origin(s, f, y);
        if i < j {
            assert(s[i].root != s[j].root);
        } else if j < i {
            assert(s[j].root != s[i].root);
        }
    }
    assert forall|m: int| 0 <= m < p.len() implies {
        &&& ((#[trigger] p[m]).best_child matches Some(c) ==> c < p.len() && p[c as int].parent
            == Some(m as usize))
        &&& (p[m].best_descendant matches Some(d) ==> in_subtree(p, m, d as int))
    } by {
        lemma_origin(s, f, m);
        let i = origin(s, f, m);
        match s[i].best_child {
            Some(c) => {
                if in_subtree(s, f, c as int) {
                    lemma_pruned_at(s, f, n, c as int);
                    lemma_rank_bounds(s, f, c as int);
                }
            },
            None => {},
        }
        match s[i].best_descendant {
            Some(d) => {
                if in_subtree(s, f, d as int) {
                    lemma_pruned_at(s, f, n, d as int);
                    lemma_rank_bounds(s, f, d as int);
                    lemma_pruned_ancestry(s, f, i, d as int);
                }
            },
            None => {},
        }
    }
}

/// After pruning, the tree holds the roots of the nodes that stayed, each at
/// its new position, and no others.
pub proof fn lemma_pruned_roots(s: Seq<ProtoNode>, f: int, root: Hash256)
    requires
        store_wf(s),
        0 <= f < s.len(),
    ensures
        contains_root(pruned(s, f), root) == (contains_root(s, root)
            && in_subtree(s, f, index_of(s, root))),
        contains_root(pruned(s, f), root) ==> index_of(
            pruned(s, f),
            root,
        ) == rank(s, f, index_of(s, root)),
{
    let p = pruned(s, f);
    let n = s.len() as int;
    lemma_pruned_wf(s, f);
    if contains_root(p, root) {
        let m = index_of(p, root);
        lemma_origin(s, f, m);
        let i = origin(s, f, m);
        assert(s[i].root == root);
        lemma_index_of_unique(s, i);
    } else if contains_root(s, root) && in_subtree(
        s,
        f,
        index_of(s, root),
    ) {
        let i = index_of(s, root);
        lemma_pruned_at(s, f, n, i);
        assert(p[rank(s, f, i)].root == root);
    }
}

/// The new position for an old one, read from the list of new positions.
fn remapped(new_index: &Vec<Option<usize>>, o: Option<usize>) -> (r: Option<usize>)
    requires
        o matches Some(x) ==> x < new_index@.len(),
    ensures
        r == match o {
            Some(x) => new_index@[x as int],
            None => None,
        },
{
    match o {
        Some(x) => new_index[x],
        None => None,
    }
}

/// The nodes pruned to the subtree of node `f`.
///
/// A first pass gives each node that stays its new position: node `f` stays,
/// and a node behind it stays when its parent does. A second pass copies the
/// nodes that stay and renumbers their positions. The new positions are
/// returned with the nodes.
pub(crate) fn pruned_nodes(nodes: &Vec<ProtoNode>, f: usize) -> (out: (
    Vec<ProtoNode>,
    Vec<Option<usize>>,
))
    requires
        store_wf(nodes@),
        f < nodes@.len(),
    ensures
        out.0@ == pruned(nodes@, f as int),
        out.1@.len() == nodes@.len(),
        forall|i: int|
            0 <= i < nodes@.len() ==> #[trigger] out.1@[i] == remap(
                nodes@,
                f as int,
                Some(i as usize),
            ),
{
    let n = nodes.len();
    let ghost s = nodes@;
    let mut new_index: Vec<Option<usize>> = Vec::new();
    let mut count: usize = 0;
    let mut i: usize = 0;
    while i < n
        invariant
            s == nodes@,
            n == s.len(),
            f < n,
            i <= n,
            tree_wf(s),
            new_index@.len() == i,
            count == rank(s, f as int, i as int),
            forall|k: int|
                0 <= k < i ==> #[trigger] new_index@[k] == remap(s, f as int, Some(k as usize)),
        decreases n - i,
    {
        let keep = if i == f {
            true
        } else if i < f {
            false
        } else {
            match nodes[i].parent {
                Some(p) => new_index[p].is_some(),
                None => false,
            }
        };
        proof {
            lemma_rank_bounds(s, f as int, i as int);
            assert(keep == in_subtree(s, f as int, i as int)) by {
                if i > f {
                    assert(s[i as int].parent is Some && s[i as int].parent->0 < i);
                }
            }
        }
        if keep {
            new_index.push(Some(count));
            count += 1;
        } else {
            new_index.push(None);
        }
        i += 1;
    }
    let mut out: Vec<ProtoNode> = Vec::new();
    let mut i: usize = 0;
    while i < n
        invariant
            s == nodes@,
            n == s.len(),
            i <= n,
            store_wf(s),
            new_index@.len() == n,
            forall|k: int|
                0 <= k < n ==> #[trigger] new_index@[k] == remap(s, f as int, Some(k as usize)),
            out@ == pruned_upto(s, f as int, i as int),
        decreases n - i,
    {
        if new_index[i].is_some() {
            let node = nodes[i];
            proof {
                assert(s[i as int] == node);
                if i > 0 {
                    assert(s[i as int].parent is Some && s[i as int].parent->0 < i);
                }
                match node.best_descendant {
                    Some(d) => {
                        lemma_subtree_bounds(s, i as int, d as int);
                    },
                    None => {},
                }
            }
            let parent = remapped(&new_index, node.parent);
            let best_child = remapped(&new_index, node.best_child);
            let best_descendant = remapped(&new_index, node.best_descendant);
            out.push(
                ProtoNode {
                    slot: node.slot,
                    root: node.root,
                    parent,
                    justified_checkpoint: node.justified_checkpoint,
                    finalized_checkpoint: node.finalized_checkpoint,
                    weight: node.weight,
                    best_child,
                    best_descendant,
                },
            );
        }
        i += 1;
    }
    (out, new_index)
}

} // verus!
