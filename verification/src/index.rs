use vstd::prelude::*;
use crate::hash::{hash_lt, Hash256};
use crate::node::ProtoNode;
use crate::prune::{
    lemma_origin, lemma_pruned_at, lemma_pruned_wf, lemma_rank_bounds, origin, pruned, rank,
    remap,
};
use crate::tree::{contains_root, in_subtree, index_of, lemma_index_of_unique, store_wf, tree_wf};

verus! {

/// Position `i` occurs in the table.
pub open spec fn listed(table: Seq<usize>, i: int) -> bool {
    exists|k: int| 0 <= k < table.len() && table[k] == i
}

/// The entries of the table are positions of the tree, in the strict order
/// of the roots at these positions.
pub open spec fn table_sorted(s: Seq<ProtoNode>, table: Seq<usize>) -> bool {
    &&& forall|k: int| 0 <= k < table.len() ==> (#[trigger] table[k]) < s.len()
    &&& forall|k1: int, k2: int|
        0 <= k1 < k2 < table.len() ==> hash_lt(
            s[(#[trigger] table[k1]) as int].root,
            s[(#[trigger] table[k2]) as int].root,
        )
}

/// The table from roots to positions: the positions of all nodes, in the
/// order of their roots.
pub open spec fn table_wf(s: Seq<ProtoNode>, table: Seq<usize>) -> bool {
    &&& table_sorted(s, table)
    &&& forall|i: int| 0 <= i < s.len() ==> #[trigger] listed(table, i)
}

/// Entry `k` is where `root` stands in the table, or would stand: the roots
/// before it are smaller and the roots from it on are not.
pub open spec fn is_slot(s: Seq<ProtoNode>, table: Seq<usize>, root: Hash256, k: int) -> bool {
    &&& 0 <= k <= table.len()
    &&& forall|a: int| 0 <= a < k ==> hash_lt(s[(#[trigger] table[a]) as int].root, root)
    &&& forall|a: int|
        k <= a < table.len() ==> !hash_lt(s[(#[trigger] table[a]) as int].root, root)
}

/// Finds by bisection where `root` stands in the table, or would stand.
pub(crate) fn find_slot(nodes: &Vec<ProtoNode>, table: &Vec<usize>, root: &Hash256) -> (k: usize)
    requires
        table_sorted(nodes@, table@),
    ensures
        is_slot(nodes@, table@, *root, k as int),
{
    let mut lo: usize = 0;
    let mut hi: usize = table.len();
    while lo < hi
        invariant
            lo <= hi <= table@.len(),
            table_sorted(nodes@, table@),
            forall|a: int|
                0 <= a < lo ==> hash_lt(nodes@[(#[trigger] table@[a]) as int].root, *root),
            forall|a: int|
                hi <= a < table@.len() ==> !hash_lt(
                    nodes@[(#[trigger] table@[a]) as int].root,
                    *root,
                ),
        decreases hi - lo,
    {
        let mid = lo + (hi - lo) / 2;
        let at = table[mid];
        if nodes[at].root.precedes(root) {
            proof {
                assert forall|a: int| 0 <= a < mid + 1 implies hash_lt(
                    nodes@[(#[trigger] table@[a]) as int].root,
                    *root,
                ) by {
                    if a < mid {
                        assert(hash_lt(nodes@[table@[a] as int].root, nodes@[at as int].root));
                    }
                }
            }
            lo = mid + 1;
        } else {
            proof {
                assert forall|a: int| mid <= a < table@.len() implies !hash_lt(
                    nodes@[(#[trigger] table@[a]) as int].root,
                    *root,
                ) by {
                    if a > mid {
                        assert(hash_lt(nodes@[at as int].root, nodes@[table@[a] as int].root));
                    }
                }
            }
            hi = mid;
        }
    }
    lo
}

/// The position of the node with root `root`, looked up in the table.
pub(crate) fn lookup(nodes: &Vec<ProtoNode>, table: &Vec<usize>, root: &Hash256) -> (r: Option<
    usize,
>)
    requires
        tree_wf(nodes@),
        table_wf(nodes@, table@),
    ensures
        r is Some <==> contains_root(nodes@, *root),
        r matches Some(i) ==> i == index_of(nodes@, *root) && i < nodes@.len() && nodes@[i as int].root
            == *root,
{
    let k = find_slot(nodes, table, root);
    if k < table.len() {
        let at = table[k];
        if nodes[at].root == *root {
            proof {
                lemma_index_of_unique(nodes@, at as int);
            }
            return Some(at);
        }
    }
    proof {
        lemma_slot_absent(nodes@, table@, *root, k as int);
    }
    None
}

/// Where the entry at the place of `root` does not hold `root`, no node does.
pub proof fn lemma_slot_absent(s: Seq<ProtoNode>, table: Seq<usize>, root: Hash256, k: int)
    requires
        table_wf(s, table),
        is_slot(s, table, root, k),
        k < table.len() ==> s[table[k] as int].root != root,
    ensures
        !contains_root(s, root),
{
    if contains_root(s, root) {
        let i = index_of(s, root);
        assert(listed(table, i));
        let a = choose|a: int| 0 <= a < table.len() && table[a] == i;
        if a < k {
            assert(hash_lt(s[table[a] as int].root, root));
        } else if a > k {
            assert(hash_lt(s[table[k] as int].root, s[table[a] as int].root));
            assert(!hash_lt(s[table[k] as int].root, root));
        }
    }
}

/// Entering the position of a new node at the place of its root keeps the
/// table in order and complete.
pub proof fn lemma_table_insert(s: Seq<ProtoNode>, table: Seq<usize>, node: ProtoNode, k: int)
    requires
        table_wf(s, table),
        is_slot(s, table, node.root, k),
        !contains_root(s, node.root),
        s.len() < usize::MAX,
    ensures
        table_wf(s.push(node), table.insert(k, s.len() as usize)),
{
    let t = s.push(node);
    let n = s.len() as int;
    let out = table.insert(k, n as usize);
    assert forall|a: int| 0 <= a < out.len() implies (#[trigger] out[a]) < t.len() by {
        if a < k {
            assert(out[a] == table[a]);
        } else if a > k {
            assert(out[a] == table[a - 1]);
        }
    }
    assert forall|a: int| 0 <= a < out.len() implies t[out[a] as int].root == (if a < k {
        s[table[a] as int].root
    } else if a == k {
        node.root
    } else {
        s[table[a - 1] as int].root
    }) by {
        if a < k {
            assert(out[a] == table[a]);
        } else if a > k {
            assert(out[a] == table[a - 1]);
        }
    }
    assert forall|k1: int, k2: int| 0 <= k1 < k2 < out.len() implies hash_lt(
        t[(#[trigger] out[k1]) as int].root,
        t[(#[trigger] out[k2]) as int].root,
    ) by {
        if k2 < k {
            assert(hash_lt(s[table[k1] as int].root, s[table[k2] as int].root));
        } else if k2 == k {
            assert(hash_lt(s[table[k1] as int].root, node.root));
        } else if k1 < k {
            assert(hash_lt(s[table[k1] as int].root, s[table[k2 - 1] as int].root));
        } else if k1 == k {
            let other = s[table[k2 - 1] as int].root;
            assert(!hash_lt(other, node.root));
            assert(other != node.root) by {
                assert(s[table[k2 - 1] as int].root == other);
            }
        } else {
            assert(hash_lt(s[table[k1 - 1] as int].root, s[table[k2 - 1] as int].root));
        }
    }
    assert forall|i: int| 0 <= i < t.len() implies #[trigger] listed(out, i) by {
        if i < n {
            assert(listed(table, i));
            let a = choose|a: int| 0 <= a < table.len() && table[a] == i;
            if a < k {
                assert(out[a] == i);
            } else {
                assert(out[a + 1] == i);
            }
        } else {
            assert(out[k] == i);
        }
    }
}

/// The table of a tree that holds only its anchor.
pub proof fn lemma_table_single(s: Seq<ProtoNode>)
    requires
        s.len() == 1,
    ensures
        table_wf(s, seq![0usize]),
{
    let table = seq![0usize];
    assert forall|i: int| 0 <= i < s.len() implies #[trigger] listed(table, i) by {
        assert(table[0] == i);
    }
}

/// The table does not depend on weights and cached pointers.
pub proof fn lemma_table_same_roots(s: Seq<ProtoNode>, t: Seq<ProtoNode>, table: Seq<usize>)
    requires
        table_wf(s, table),
        s.len() == t.len(),
        forall|i: int| 0 <= i < s.len() ==> (#[trigger] s[i]).root == t[i].root,
    ensures
        table_wf(t, table),
{
    assert forall|k1: int, k2: int| 0 <= k1 < k2 < table.len() implies hash_lt(
        t[(#[trigger] table[k1]) as int].root,
        t[(#[trigger] table[k2]) as int].root,
    ) by {
        assert(s[table[k1] as int].root == t[table[k1] as int].root);
        assert(s[table[k2] as int].root == t[table[k2] as int].root);
    }
    assert forall|i: int| 0 <= i < t.len() implies #[trigger] listed(table, i) by {
        assert(listed(table, i));
    }
}

/// The table of the tree pruned to the subtree of node `f`: the entries of
/// the nodes that stay, renumbered, in their old order.
pub(crate) fn pruned_table(
    nodes: &Vec<ProtoNode>,
    table: &Vec<usize>,
    new_index: &Vec<Option<usize>>,
    f: usize,
) -> (out: Vec<usize>)
    requires
        store_wf(nodes@),
        table_wf(nodes@, table@),
        f < nodes@.len(),
        new_index@.len() == nodes@.len(),
        forall|i: int|
            0 <= i < nodes@.len() ==> #[trigger] new_index@[i] == remap(
                nodes@,
                f as int,
                Some(i as usize),
            ),
    ensures
        table_wf(pruned(nodes@, f as int), out@),
{
    let ghost s = nodes@;
    let ghost f = f as int;
    let ghost p = pruned(s, f);
    let m = table.len();
    let mut out: Vec<usize> = Vec::new();
    let mut k: usize = 0;
    proof {
        lemma_pruned_wf(s, f);
    }
    while k < m
        invariant
            s == nodes@,
            p == pruned(s, f),
            m == table@.len(),
            k <= m,
            0 <= f < s.len(),
            tree_wf(s),
            table_wf(s, table@),
            new_index@.len() == s.len(),
            forall|i: int|
                0 <= i < s.len() ==> #[trigger] new_index@[i] == remap(s, f, Some(i as usize)),
            forall|q: int| 0 <= q < out@.len() ==> (#[trigger] out@[q]) < p.len(),
            forall|q1: int, q2: int|
                0 <= q1 < q2 < out@.len() ==> hash_lt(
                    p[(#[trigger] out@[q1]) as int].root,
                    p[(#[trigger] out@[q2]) as int].root,
                ),
            forall|q: int, a: int|
                0 <= q < out@.len() && k <= a < m ==> hash_lt(
                    p[(#[trigger] out@[q]) as int].root,
                    s[(#[trigger] table@[a]) as int].root,
                ),
            forall|a: int|
                0 <= a < k && in_subtree(s, f, (#[trigger] table@[a]) as int) ==> listed(
                    out@,
                    rank(s, f, table@[a] as int),
                ),
        decreases m - k,
    {
        let i = table[k];
        let ghost before = out@;
        match new_index[i] {
            Some(x) => {
                proof {
                    assert(new_index@[i as int] == remap(s, f, Some(i)));
                    lemma_rank_bounds(s, f, i as int);
                    lemma_pruned_at(s, f, s.len() as int, i as int);
                    assert(x == rank(s, f, i as int));
                    assert(p[x as int].root == s[i as int].root);
                }
                out.push(x);
                proof {
                    assert forall|q: int, a: int|
                        0 <= q < out@.len() && k + 1 <= a < m implies hash_lt(
                        p[(#[trigger] out@[q]) as int].root,
                        s[(#[trigger] table@[a]) as int].root,
                    ) by {
                        if q < before.len() {
                            assert(out@[q] == before[q]);
                        } else {
                            assert(hash_lt(s[table@[k as int] as int].root, s[table@[a] as int].root));
                        }
                    }
                    assert forall|q1: int, q2: int| 0 <= q1 < q2 < out@.len() implies hash_lt(
                        p[(#[trigger] out@[q1]) as int].root,
                        p[(#[trigger] out@[q2]) as int].root,
                    ) by {
                        assert(out@[q1] == before[q1]);
                        if q2 < before.len() {
                            assert(out@[q2] == before[q2]);
                        } else {
                            assert(hash_lt(
                                p[before[q1] as int].root,
                                s[table@[k as int] as int].root,
                            ));
                        }
                    }
                    assert forall|a: int|
                        0 <= a < k + 1 && in_subtree(
                            s,
                            f,
                            (#[trigger] table@[a]) as int,
                        ) implies listed(out@, rank(s, f, table@[a] as int)) by {
                        if a < k {
                            assert(listed(before, rank(s, f, table@[a] as int)));
                            let q = choose|q: int|
                                0 <= q < before.len() && before[q] == rank(
                                    s,
                                    f,
                                    table@[a] as int,
                                );
                            assert(out@[q] == before[q]);
                        } else {
                            assert(out@[before.len() as int] == x);
                        }
                    }
                }
            },
            None => {},
        }
        k += 1;
    }
    proof {
        assert forall|x: int| 0 <= x < p.len() implies #[trigger] listed(out@, x) by {
            lemma_origin(s, f, x);
            let i = origin(s, f, x);
            assert(listed(table@, i));
            let a = choose|a: int| 0 <= a < table@.len() && table@[a] == i;
            assert(in_subtree(s, f, table@[a] as int));
        }
    }
    out
}

} // verus!
