use vstd::prelude::*;
use crate::hash::hash_le;
use crate::node::ProtoNode;
use crate::tree::{in_subtree, lemma_subtree_same_parents, store_wf, tree_wf};

verus! {

/// Node `c` is a child of node `p`.
pub open spec fn is_child(s: Seq<ProtoNode>, p: int, c: int) -> bool {
    0 <= p < c < s.len() && (s[c].parent matches Some(q) && q == p)
}

/// The rule by which one child is preferred to another: the heavier one, and
/// of two equally heavy children the one with the greater root.
pub open spec fn outranks(a: ProtoNode, b: ProtoNode) -> bool {
    a.weight > b.weight || (a.weight == b.weight && hash_le(b.root, a.root))
}

/// Node `c` is the child of `p` that is preferred to all its children.
pub open spec fn is_best_child(s: Seq<ProtoNode>, p: int, c: int) -> bool {
    is_child(s, p, c) && forall|k: int| #[trigger] is_child(s, p, k) ==> outranks(s[c], s[k])
}

/// Node `p` has a child.
pub open spec fn has_child(s: Seq<ProtoNode>, p: int) -> bool {
    exists|c: int| is_child(s, p, c)
}

/// The preferred child of node `p`, if it has children. It depends on the
/// parents, weights and roots alone.
pub open spec fn best_child_of(s: Seq<ProtoNode>, p: int) -> Option<usize> {
    if has_child(s, p) {
        Some((choose|c: int| is_best_child(s, p, c)) as usize)
    } else {
        None
    }
}

/// The node reached from `i` by going to the preferred child until a node
/// without children is reached: `i` itself if it has no children.
pub open spec fn best_descendant_of(s: Seq<ProtoNode>, i: int) -> int
    decreases s.len() - i,
{
    match best_child_of(s, i) {
        Some(c) => if i < c < s.len() {
            best_descendant_of(s, c as int)
        } else {
            i
        },
        None => i,
    }
}

/// The tree with every cached pointer brought up to date.
pub open spec fn refreshed(s: Seq<ProtoNode>) -> Seq<ProtoNode> {
    Seq::new(
        s.len(),
        |i: int|
            ProtoNode {
                slot: s[i].slot,
                root: s[i].root,
                parent: s[i].parent,
                justified_checkpoint: s[i].justified_checkpoint,
                finalized_checkpoint: s[i].finalized_checkpoint,
                weight: s[i].weight,
                best_child: best_child_of(s, i),
                best_descendant: Some(best_descendant_of(s, i) as usize),
            },
    )
}

/// The tree with the weights `w` in place of its own.
pub open spec fn with_weights(s: Seq<ProtoNode>, w: Seq<u64>) -> Seq<ProtoNode> {
    Seq::new(
        s.len(),
        |i: int|
            ProtoNode {
                slot: s[i].slot,
                root: s[i].root,
                parent: s[i].parent,
                justified_checkpoint: s[i].justified_checkpoint,
                finalized_checkpoint: s[i].finalized_checkpoint,
                weight: w[i],
                best_child: s[i].best_child,
                best_descendant: s[i].best_descendant,
            },
    )
}

/// Two nodes are the same block with the same weight; their cached pointers
/// may differ.
pub open spec fn same_block(a: ProtoNode, b: ProtoNode) -> bool {
    &&& a.slot == b.slot
    &&& a.root == b.root
    &&& a.parent == b.parent
    &&& a.justified_checkpoint == b.justified_checkpoint
    &&& a.finalized_checkpoint == b.finalized_checkpoint
    &&& a.weight == b.weight
}

/// Two trees hold the same blocks with the same weights.
pub open spec fn same_blocks(s: Seq<ProtoNode>, t: Seq<ProtoNode>) -> bool {
    s.len() == t.len() && forall|i: int| 0 <= i < s.len() ==> same_block(#[trigger] s[i], t[i])
}

/// A node has at most one preferred child.
pub proof fn lemma_best_child_unique(s: Seq<ProtoNode>, p: int, c1: int, c2: int)
    requires
        tree_wf(s),
        is_best_child(s, p, c1),
        is_best_child(s, p, c2),
    ensures
        c1 == c2,
{
    assert(is_child(s, p, c1) && is_child(s, p, c2));
    assert(outranks(s[c1], s[c2]) && outranks(s[c2], s[c1]));
    assert(s[c1].root == s[c2].root);
    if c1 < c2 {
        assert(s[c1].root != s[c2].root);
    } else if c2 < c1 {
        assert(s[c2].root != s[c1].root);
    }
}

/// A child that is preferred to all children is the preferred child.
pub proof fn lemma_best_child_found(s: Seq<ProtoNode>, p: int, c: int)
    requires
        tree_wf(s),
        is_best_child(s, p, c),
    ensures
        best_child_of(s, p) == Some(c as usize),
{
    assert(is_child(s, p, c));
    let d = choose|c: int| is_best_child(s, p, c);
    lemma_best_child_unique(s, p, c, d);
}

/// The preferred child does not depend on the cached pointers.
pub proof fn lemma_best_child_same_blocks(s: Seq<ProtoNode>, t: Seq<ProtoNode>, p: int)
    requires
        tree_wf(s),
        same_blocks(s, t),
    ensures
        best_child_of(s, p) == best_child_of(t, p),
{
    lemma_same_blocks_children(s, t, p);
    lemma_same_blocks_children(t, s, p);
    lemma_same_blocks_tree(s, t);
    if has_child(s, p) {
        let c = choose|c: int| is_child(s, p, c);
        assert(is_child(t, p, c));
        if exists|c: int| is_best_child(s, p, c) {
            let b = choose|c: int| is_best_child(s, p, c);
            assert(is_best_child(t, p, b)) by {
                assert forall|k: int| #[trigger] is_child(t, p, k) implies outranks(t[b], t[k]) by {
                    assert(is_child(s, p, k));
                }
            }
            lemma_best_child_found(t, p, b);
        } else if exists|c: int| is_best_child(t, p, c) {
            let b = choose|c: int| is_best_child(t, p, c);
            assert(is_best_child(s, p, b)) by {
                assert forall|k: int| #[trigger] is_child(s, p, k) implies outranks(s[b], s[k]) by {
                    assert(is_child(t, p, k));
                }
            }
        } else {
            lemma_best_child_exists(s, p);
        }
    } else {
        if has_child(t, p) {
            let c = choose|c: int| is_child(t, p, c);
            assert(is_child(s, p, c));
        }
    }
}

/// The node reached by following preferred children does not depend on the
/// cached pointers.
pub proof fn lemma_best_descendant_same_blocks(s: Seq<ProtoNode>, t: Seq<ProtoNode>, i: int)
    requires
        tree_wf(s),
        same_blocks(s, t),
    ensures
        best_descendant_of(s, i) == best_descendant_of(t, i),
    decreases s.len() - i,
{
    lemma_best_child_same_blocks(s, t, i);
    match best_child_of(s, i) {
        Some(c) => {
            if i < c < s.len() {
                lemma_best_descendant_same_blocks(s, t, c as int);
            }
        },
        None => {},
    }
}

/// Bringing the pointers up to date twice is bringing them up to date once.
pub proof fn lemma_refreshed_twice(s: Seq<ProtoNode>)
    requires
        tree_wf(s),
    ensures
        refreshed(refreshed(s)) == refreshed(s),
{
    let r = refreshed(s);
    assert(same_blocks(s, r));
    assert forall|i: int| 0 <= i < s.len() implies #[trigger] refreshed(r)[i] == r[i] by {
        lemma_best_child_same_blocks(s, r, i);
        lemma_best_descendant_same_blocks(s, r, i);
    }
    assert(refreshed(r) =~= r);
}

/// Trees with the same blocks have the same children.
pub proof fn lemma_same_blocks_children(s: Seq<ProtoNode>, t: Seq<ProtoNode>, p: int)
    requires
        same_blocks(s, t),
    ensures
        forall|c: int| is_child(s, p, c) ==> is_child(t, p, c),
{
    assert forall|c: int| is_child(s, p, c) implies is_child(t, p, c) by {
        assert(same_block(s[c], t[c]));
    }
}

/// Trees with the same blocks have the same shape.
pub proof fn lemma_same_blocks_tree(s: Seq<ProtoNode>, t: Seq<ProtoNode>)
    requires
        tree_wf(s),
        same_blocks(s, t),
    ensures
        tree_wf(t),
{
    assert(same_block(s[0], t[0]));
    assert forall|i: int| 0 < i < t.len() implies (#[trigger] t[i].parent) is Some
        && t[i].parent->0 < i by {
        assert(same_block(s[i], t[i]));
        assert(s[i].parent is Some);
    }
    assert forall|i: int, j: int| 0 <= i < j < t.len() implies (#[trigger] t[i].root) != (
    #[trigger] t[j].root) by {
        assert(same_block(s[i], t[i]) && same_block(s[j], t[j]));
        assert(s[i].root != s[j].root);
    }
}

/// The best of the children of `p` at positions below `hi`: `b` is one of
/// them and is preferred to all of them.
pub open spec fn is_best_below(s: Seq<ProtoNode>, p: int, b: int, hi: int) -> bool {
    is_child(s, p, b) && b < hi && forall|k: int|
        #[trigger] is_child(s, p, k) && k < hi ==> outranks(s[b], s[k])
}

/// Among the children of a node below a position, where there is one, one is
/// preferred to all.
proof fn lemma_best_below_exists(s: Seq<ProtoNode>, p: int, hi: int)
    requires
        tree_wf(s),
        0 <= hi <= s.len(),
        exists|c: int| is_child(s, p, c) && c < hi,
    ensures
        exists|b: int| is_best_below(s, p, b, hi),
    decreases hi,
{
    let last = hi - 1;
    if exists|c: int| is_child(s, p, c) && c < last {
        lemma_best_below_exists(s, p, last);
        let b = choose|b: int| is_best_below(s, p, b, last);
        if is_child(s, p, last) && !outranks(s[b], s[last]) {
            assert(outranks(s[last], s[b]));
            assert forall|k: int| #[trigger] is_child(s, p, k) && k < hi implies outranks(
                s[last],
                s[k],
            ) by {
                if k < last {
                    assert(outranks(s[b], s[k]));
                }
            }
            assert(is_best_below(s, p, last, hi));
        } else {
            assert forall|k: int| #[trigger] is_child(s, p, k) && k < hi implies outranks(
                s[b],
                s[k],
            ) by {}
            assert(is_best_below(s, p, b, hi));
        }
    } else {
        let c = choose|c: int| is_child(s, p, c) && c < hi;
        assert(c == last);
        assert forall|k: int| #[trigger] is_child(s, p, k) && k < hi implies outranks(
            s[last],
            s[k],
        ) by {
            assert(k == last);
        }
        assert(is_best_below(s, p, last, hi));
    }
}

/// A node that has children has a preferred child.
pub proof fn lemma_best_child_exists(s: Seq<ProtoNode>, p: int)
    requires
        tree_wf(s),
        has_child(s, p),
    ensures
        exists|c: int| is_best_child(s, p, c),
        best_child_of(s, p) is Some,
        is_best_child(s, p, best_child_of(s, p)->0 as int),
{
    let c = choose|c: int| is_child(s, p, c);
    assert(is_child(s, p, c) && c < s.len());
    lemma_best_below_exists(s, p, s.len() as int);
    let b = choose|b: int| is_best_below(s, p, b, s.len() as int);
    assert(is_best_child(s, p, b)) by {
        assert forall|k: int| #[trigger] is_child(s, p, k) implies outranks(s[b], s[k]) by {}
    }
    lemma_best_child_found(s, p, b);
}

/// The node reached by following preferred children is in the subtree.
pub proof fn lemma_best_descendant_in_subtree(s: Seq<ProtoNode>, i: int)
    requires
        tree_wf(s),
        0 <= i < s.len(),
    ensures
        in_subtree(s, i, best_descendant_of(s, i)),
        i <= best_descendant_of(s, i) < s.len(),
    decreases s.len() - i,
{
    match best_child_of(s, i) {
        Some(c) => {
            if i < c < s.len() {
                assert(has_child(s, i));
                lemma_best_child_exists(s, i);
                assert(is_child(s, i, c as int));
                lemma_best_descendant_in_subtree(s, c as int);
                lemma_child_subtree(s, i, c as int, best_descendant_of(s, c as int));
            }
        },
        None => {},
    }
}

/// What is in the subtree of a child is in the subtree of the parent.
pub proof fn lemma_child_subtree(s: Seq<ProtoNode>, p: int, c: int, d: int)
    requires
        is_child(s, p, c),
        in_subtree(s, c, d),
    ensures
        in_subtree(s, p, d),
    decreases d,
{
    if d != c {
        let q = s[d].parent->0 as int;
        lemma_child_subtree(s, p, c, q);
    } else {
        assert(in_subtree(s, p, p));
    }
}

/// A tree whose pointers were brought up to date is well formed.
pub proof fn lemma_refreshed_wf(s: Seq<ProtoNode>)
    requires
        tree_wf(s),
    ensures
        store_wf(refreshed(s)),
        same_blocks(s, refreshed(s)),
{
    let r = refreshed(s);
    assert(same_blocks(s, r));
    lemma_same_blocks_tree(s, r);
    assert forall|i: int| 0 <= i < r.len() implies {
        &&& ((#[trigger] r[i]).best_child matches Some(c) ==> c < r.len() && r[c as int].parent
            == Some(i as usize))
        &&& (r[i].best_descendant matches Some(d) ==> in_subtree(r, i, d as int))
    } by {
        if has_child(s, i) {
            lemma_best_child_exists(s, i);
            let c = best_child_of(s, i)->0 as int;
            assert(is_child(s, i, c));
        }
        lemma_best_descendant_in_subtree(s, i);
        let d = best_descendant_of(s, i);
        assert forall|k: int| 0 <= k <= d implies (#[trigger] s[k]).parent == (
        #[trigger] r[k]).parent by {}
        lemma_subtree_same_parents(s, r, i, d);
    }
}

/// Other weights leave the shape of the tree as it is.
pub proof fn lemma_with_weights_tree(s: Seq<ProtoNode>, w: Seq<u64>)
    requires
        tree_wf(s),
        w.len() == s.len(),
    ensures
        tree_wf(with_weights(s, w)),
        forall|i: int|
            0 <= i < s.len() ==> (#[trigger] with_weights(s, w)[i]).parent == s[i].parent,
{
    let b = with_weights(s, w);
    assert forall|k: int| 0 < k < b.len() implies (#[trigger] b[k].parent) is Some
        && b[k].parent->0 < k by {
        assert(s[k].parent is Some);
    }
    assert forall|x: int, y: int| 0 <= x < y < b.len() implies (#[trigger] b[x].root) != (
    #[trigger] b[y].root) by {
        assert(s[x].root != s[y].root);
    }
}

/// The best of the children of `p` at positions `t` and above is `bc`; `None`
/// when it has no child there.
pub open spec fn best_from(s: Seq<ProtoNode>, p: int, bc: Option<usize>, t: int) -> bool {
    match bc {
        Some(c) => is_child(s, p, c as int) && c >= t && forall|k: int|
            #[trigger] is_child(s, p, k) && k >= t ==> outranks(s[c as int], s[k]),
        None => forall|k: int| #[trigger] is_child(s, p, k) ==> k < t,
    }
}

/// Whether child `a` is preferred to child `b`.
pub fn prefers(a: &ProtoNode, b: &ProtoNode) -> (r: bool)
    ensures
        r == outranks(*a, *b),
{
    a.weight > b.weight || (a.weight == b.weight && !a.root.precedes(&b.root))
}

/// The nodes with the weights `weights` and with every cached pointer brought
/// up to date.
///
/// The nodes are visited from the last to the first. A node's children all
/// stand behind it, so when a node is reached its best child is known; the node
/// takes its best descendant from that child and is then offered to its own
/// parent as best child.
pub(crate) fn refreshed_nodes(nodes: &Vec<ProtoNode>, weights: &Vec<u64>) -> (out: Vec<ProtoNode>)
    requires
        tree_wf(nodes@),
        weights@.len() == nodes@.len(),
    ensures
        out@ == refreshed(with_weights(nodes@, weights@)),
{
    let n = nodes.len();
    let ghost b = with_weights(nodes@, weights@);
    let mut out: Vec<ProtoNode> = Vec::new();
    let mut i: usize = 0;
    while i < n
        invariant
            n == nodes@.len(),
            n == weights@.len(),
            i <= n,
            out@.len() == i,
            b == with_weights(nodes@, weights@),
            forall|k: int|
                0 <= k < i ==> same_block(#[trigger] out@[k], b[k]) && out@[k].best_child is None
                    && out@[k].best_descendant is None,
        decreases n - i,
    {
        let node = nodes[i];
        out.push(
            ProtoNode {
                slot: node.slot,
                root: node.root,
                parent: node.parent,
                justified_checkpoint: node.justified_checkpoint,
                finalized_checkpoint: node.finalized_checkpoint,
                weight: weights[i],
                best_child: None,
                best_descendant: None,
            },
        );
        i += 1;
    }
    proof {
        lemma_with_weights_tree(nodes@, weights@);
    }
    let mut t: usize = n;
    while t > 0
        invariant
            t <= n,
            n == b.len(),
            out@.len() == n,
            tree_wf(b),
            forall|k: int| 0 <= k < n ==> same_block(#[trigger] out@[k], b[k]),
            forall|p: int| 0 <= p < n ==> best_from(b, p, (#[trigger] out@[p]).best_child, t as int),
            forall|k: int|
                t <= k < n ==> (#[trigger] out@[k]).best_child == best_child_of(b, k)
                    && out@[k].best_descendant == Some(best_descendant_of(b, k) as usize),
        decreases t,
    {
        t -= 1;
        let node = out[t];
        proof {
            assert(best_from(b, t as int, out@[t as int].best_child, t + 1));
            assert(same_block(out@[t as int], b[t as int]));
        }
        let best_descendant = match node.best_child {
            Some(c) => {
                proof {
                    assert(is_child(b, t as int, c as int));
                    assert(is_best_child(b, t as int, c as int)) by {
                        assert forall|k: int| #[trigger] is_child(b, t as int, k) implies outranks(
                            b[c as int],
                            b[k],
                        ) by {}
                    }
                    lemma_best_child_found(b, t as int, c as int);
                    assert(out@[c as int].best_descendant == Some(
                        best_descendant_of(b, c as int) as usize,
                    ));
                }
                match out[c].best_descendant {
                    Some(d) => d,
                    None => c,
                }
            },
            None => {
                proof {
                    assert(!has_child(b, t as int)) by {
                        if has_child(b, t as int) {
                            let k = choose|k: int| is_child(b, t as int, k);
                            assert(is_child(b, t as int, k));
                        }
                    }
                }
                t
            },
        };
        proof {
            lemma_best_descendant_in_subtree(b, t as int);
            assert(best_descendant == best_descendant_of(b, t as int));
        }
        out.set(
            t,
            ProtoNode {
                slot: node.slot,
                root: node.root,
                parent: node.parent,
                justified_checkpoint: node.justified_checkpoint,
                finalized_checkpoint: node.finalized_checkpoint,
                weight: node.weight,
                best_child: node.best_child,
                best_descendant: Some(best_descendant),
            },
        );
        let ghost mid = out@;
        match node.parent {
            Some(p) => {
                proof {
                    assert(b[t as int].parent is Some && b[t as int].parent->0 < t);
                    assert(is_child(b, p as int, t as int));
                    assert(best_from(b, p as int, mid[p as int].best_child, t + 1));
                    assert(same_block(mid[p as int], b[p as int]));
                }
                let parent = out[p];
                let takes = match parent.best_child {
                    Some(c) => {
                        proof {
                            assert(same_block(mid[c as int], b[c as int]));
                            assert(same_block(mid[t as int], b[t as int]));
                        }
                        prefers(&out[t], &out[c])
                    },
                    None => true,
                };
                if takes {
                    out.set(
                        p,
                        ProtoNode {
                            slot: parent.slot,
                            root: parent.root,
                            parent: parent.parent,
                            justified_checkpoint: parent.justified_checkpoint,
                            finalized_checkpoint: parent.finalized_checkpoint,
                            weight: parent.weight,
                            best_child: Some(t),
                            best_descendant: parent.best_descendant,
                        },
                    );
                    proof {
                        assert forall|k: int|
                            #[trigger] is_child(b, p as int, k) && k >= t implies outranks(
                            b[t as int],
                            b[k],
                        ) by {
                            if k > t {
                                match parent.best_child {
                                    Some(c) => {
                                        assert(outranks(b[c as int], b[k]));
                                    },
                                    None => {},
                                }
                            }
                        }
                        assert(best_from(b, p as int, out@[p as int].best_child, t as int));
                    }
                } else {
                    proof {
                        let c = parent.best_child->0;
                        assert(outranks(b[c as int], b[t as int]));
                        assert forall|k: int|
                            #[trigger] is_child(b, p as int, k) && k >= t implies outranks(
                            b[c as int],
                            b[k],
                        ) by {}
                        assert(best_from(b, p as int, out@[p as int].best_child, t as int));
                    }
                }
            },
            None => {},
        }
        proof {
            assert forall|q: int| 0 <= q < n implies best_from(
                b,
                q,
                (#[trigger] out@[q]).best_child,
                t as int,
            ) by {
                if node.parent == Some(q as usize) {
                } else {
                    assert(out@[q].best_child == mid[q].best_child);
                    assert(best_from(b, q, mid[q].best_child, t + 1));
                    match mid[q].best_child {
                        Some(c) => {
                            assert forall|k: int|
                                #[trigger] is_child(b, q, k) && k >= t implies outranks(
                                b[c as int],
                                b[k],
                            ) by {
                                assert(k != t);
                            }
                        },
                        None => {
                            assert forall|k: int| #[trigger] is_child(b, q, k) implies k < t by {
                                assert(k != t);
                            }
                        },
                    }
                }
            }
        }
    }
    proof {
        assert(out@ =~= refreshed(b));
    }
    out
}

} // verus!
