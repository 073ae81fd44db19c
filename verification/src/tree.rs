use vstd::prelude::*;
use crate::hash::Hash256;
use crate::node::ProtoNode;

verus! {

/// The shape of a block tree: it has an anchor at position 0, which alone has
/// no parent; every other node's parent stands before it; no root occurs twice.
/// Positions fit in a `usize`.
pub open spec fn tree_wf(s: Seq<ProtoNode>) -> bool {
    &&& 0 < s.len() <= usize::MAX
    &&& s[0].parent is None
    &&& forall|i: int| 0 < i < s.len() ==> (#[trigger] s[i].parent) is Some && s[i].parent->0 < i
    &&& forall|i: int, j: int|
        0 <= i < j < s.len() ==> (#[trigger] s[i].root) != (#[trigger] s[j].root)
}

/// Node `d` is node `a` or one of its descendants.
pub open spec fn in_subtree(s: Seq<ProtoNode>, a: int, d: int) -> bool
    decreases d,
{
    if d == a {
        0 <= a < s.len()
    } else if 0 <= a < d < s.len() {
        match s[d].parent {
            Some(p) => p < d && in_subtree(s, a, p as int),
            None => false,
        }
    } else {
        false
    }
}

/// The cached pointers name real relatives: a best child is a child, a best
/// descendant is the node or one of its descendants.
pub open spec fn pointers_sound(s: Seq<ProtoNode>) -> bool {
    forall|i: int|
        0 <= i < s.len() ==> {
            &&& ((#[trigger] s[i]).best_child matches Some(c) ==> c < s.len() && s[c as int].parent
                == Some(i as usize))
            &&& (s[i].best_descendant matches Some(d) ==> in_subtree(s, i, d as int))
        }
}

/// What every operation on the node store keeps true.
pub open spec fn store_wf(s: Seq<ProtoNode>) -> bool {
    tree_wf(s) && pointers_sound(s)
}

/// Some node of `s` has root `root`.
pub open spec fn contains_root(s: Seq<ProtoNode>, root: Hash256) -> bool {
    exists|i: int| 0 <= i < s.len() && (#[trigger] s[i]).root == root
}

/// The position of the node with root `root`, where there is one.
pub open spec fn index_of(s: Seq<ProtoNode>, root: Hash256) -> int {
    choose|i: int| 0 <= i < s.len() && (#[trigger] s[i]).root == root
}

/// A root names at most one position.
pub proof fn lemma_index_of_unique(s: Seq<ProtoNode>, i: int)
    requires
        tree_wf(s),
        0 <= i < s.len(),
    ensures
        contains_root(s, s[i].root),
        index_of(s, s[i].root) == i,
{
    let j = index_of(s, s[i].root);
    assert(s[i].root == s[i].root);
    assert(0 <= j < s.len() && s[j].root == s[i].root);
    if j < i {
        assert(s[j].root != s[i].root);
    } else if i < j {
        assert(s[i].root != s[j].root);
    }
}

/// A root that is in the tree has a position there.
pub proof fn lemma_index_of_in_range(s: Seq<ProtoNode>, root: Hash256)
    requires
        contains_root(s, root),
    ensures
        0 <= index_of(s, root) < s.len(),
        s[index_of(s, root)].root == root,
{
}

/// A subtree lies between its top and the end of the tree.
pub proof fn lemma_subtree_bounds(s: Seq<ProtoNode>, a: int, d: int)
    requires
        in_subtree(s, a, d),
    ensures
        0 <= a <= d < s.len(),
{
}

/// A descendant of a descendant is a descendant.
pub proof fn lemma_subtree_trans(s: Seq<ProtoNode>, a: int, b: int, c: int)
    requires
        in_subtree(s, a, b),
        in_subtree(s, b, c),
    ensures
        in_subtree(s, a, c),
    decreases c,
{
    if c != b {
        let p = s[c].parent->0 as int;
        lemma_subtree_trans(s, a, b, p);
        lemma_subtree_bounds(s, a, p);
    }
}

/// The ancestors of one node lie on one chain: of two of them, the later is in
/// the subtree of the earlier.
pub proof fn lemma_ancestors_chain(s: Seq<ProtoNode>, a: int, b: int, d: int)
    requires
        in_subtree(s, a, d),
        in_subtree(s, b, d),
        a <= b,
    ensures
        in_subtree(s, a, b),
    decreases d,
{
    if d != b {
        let p = s[d].parent->0 as int;
        assert(d != a);
        lemma_ancestors_chain(s, a, b, p);
    }
}

/// Two trees whose nodes have the same parents up to `d` agree on who is an
/// ancestor of `d`.
pub proof fn lemma_subtree_same_parents(s: Seq<ProtoNode>, t: Seq<ProtoNode>, a: int, d: int)
    requires
        0 <= d < s.len(),
        d < t.len(),
        forall|i: int| 0 <= i <= d ==> (#[trigger] s[i]).parent == (#[trigger] t[i]).parent,
    ensures
        in_subtree(s, a, d) == in_subtree(t, a, d),
    decreases d,
{
    if d != a && 0 <= a < d {
        assert(s[d].parent == t[d].parent);
        match s[d].parent {
            Some(p) => {
                if p < d {
                    lemma_subtree_same_parents(s, t, a, p as int);
                }
            },
            None => {},
        }
    }
}

/// Two trees hold the same roots at the same positions, with the same parents.
pub open spec fn same_shape(s: Seq<ProtoNode>, t: Seq<ProtoNode>) -> bool {
    s.len() == t.len() && forall|i: int|
        0 <= i < s.len() ==> (#[trigger] s[i]).root == t[i].root && s[i].parent == t[i].parent
}

/// Trees of the same shape hold the same roots at the same positions, and
/// agree on who descends from whom.
pub proof fn lemma_same_shape(s: Seq<ProtoNode>, t: Seq<ProtoNode>, root: Hash256, a: int, d: int)
    requires
        tree_wf(s),
        same_shape(s, t),
    ensures
        tree_wf(t),
        contains_root(s, root) == contains_root(t, root),
        contains_root(s, root) ==> index_of(s, root) == index_of(t, root),
        in_subtree(s, a, d) == in_subtree(t, a, d),
{
    assert forall|i: int| 0 < i < t.len() implies (#[trigger] t[i].parent) is Some
        && t[i].parent->0 < i by {
        assert(s[i].parent == t[i].parent);
        assert(s[i].parent is Some);
    }
    assert forall|i: int, j: int| 0 <= i < j < t.len() implies (#[trigger] t[i].root) != (
    #[trigger] t[j].root) by {
        assert(s[i].root == t[i].root && s[j].root == t[j].root);
        assert(s[i].root != s[j].root);
    }
    assert(s[0].parent == t[0].parent);
    if contains_root(s, root) {
        let i = index_of(s, root);
        assert(t[i].root == root);
        lemma_index_of_unique(t, i);
    } else if contains_root(t, root) {
        let i = index_of(t, root);
        assert(s[i].root == root);
    }
    if 0 <= d < s.len() {
        assert forall|k: int| 0 <= k <= d implies (#[trigger] s[k]).parent == (
        #[trigger] t[k]).parent by {}
        lemma_subtree_same_parents(s, t, a, d);
    }
}

} // verus!
