use vstd::prelude::*;
use crate::error::Error;
use crate::node::ProtoNode;
use crate::tree::{in_subtree, tree_wf};

verus! {

/// The sum of the deltas whose node satisfies `pred`.
pub open spec fn selected_sum(deltas: Seq<(usize, i64)>, pred: spec_fn(usize) -> bool) -> int
    decreases deltas.len(),
{
    if deltas.len() == 0 {
        0
    } else {
        selected_sum(deltas.drop_last(), pred) + if pred(deltas.last().0) {
            deltas.last().1 as int
        } else {
            0
        }
    }
}

/// The positions in the subtree of node `n`.
pub open spec fn within(s: Seq<ProtoNode>, n: int) -> spec_fn(usize) -> bool {
    |x: usize| in_subtree(s, n, x as int)
}

/// The change in weight that `deltas` bring to node `n`: the sum of the deltas
/// given to `n` and to its descendants.
pub open spec fn subtree_delta(s: Seq<ProtoNode>, deltas: Seq<(usize, i64)>, n: int) -> int {
    selected_sum(deltas, within(s, n))
}

/// Every delta names a node of the tree.
pub open spec fn deltas_in_range(deltas: Seq<(usize, i64)>, len: nat) -> bool {
    forall|k: int| 0 <= k < deltas.len() ==> (#[trigger] deltas[k]).0 < len
}

/// The weight of node `n` once `deltas` are applied, as an unbounded number.
pub open spec fn new_weight(s: Seq<ProtoNode>, deltas: Seq<(usize, i64)>, n: int) -> int {
    s[n].weight + subtree_delta(s, deltas, n)
}

/// Every node's new weight is one that a node can hold.
pub open spec fn weights_fit(s: Seq<ProtoNode>, deltas: Seq<(usize, i64)>) -> bool {
    forall|n: int| 0 <= n < s.len() ==> 0 <= #[trigger] new_weight(s, deltas, n) <= u64::MAX
}

/// Whether `deltas` can be applied. A delta for a position beyond the tree is
/// refused before a weight out of range is.
pub open spec fn apply_outcome(s: Seq<ProtoNode>, deltas: Seq<(usize, i64)>) -> Result<(), Error> {
    if !deltas_in_range(deltas, s.len()) {
        Err(Error::InvalidNodeIndex)
    } else if !weights_fit(s, deltas) {
        Err(Error::WeightOverflow)
    } else {
        Ok(())
    }
}

/// The tree with `deltas` added to the weights: each delta counts for its node
/// and for every ancestor of it, the anchor included. Nothing else changes.
pub open spec fn reweighted(s: Seq<ProtoNode>, deltas: Seq<(usize, i64)>) -> Seq<ProtoNode> {
    Seq::new(
        s.len(),
        |i: int|
            ProtoNode {
                slot: s[i].slot,
                root: s[i].root,
                parent: s[i].parent,
                justified_checkpoint: s[i].justified_checkpoint,
                finalized_checkpoint: s[i].finalized_checkpoint,
                weight: new_weight(s, deltas, i) as u64,
                best_child: s[i].best_child,
                best_descendant: s[i].best_descendant,
            },
    )
}

/// A delta given to node `x` has been carried up to node `j` when the nodes at
/// positions `t` and above have handed their sums to their parents.
pub open spec fn reaches(s: Seq<ProtoNode>, j: int, x: int, t: int) -> bool
    decreases x,
{
    if x == j {
        0 <= j < s.len()
    } else if 0 <= j < x < s.len() && x >= t {
        match s[x].parent {
            Some(p) => p < x && reaches(s, j, p as int, t),
            None => false,
        }
    } else {
        false
    }
}

/// The positions whose deltas have been carried up to node `j`.
pub open spec fn carried(s: Seq<ProtoNode>, j: int, t: int) -> spec_fn(usize) -> bool {
    |x: usize| reaches(s, j, x as int, t)
}

/// Two sets of positions that hold the same nodes of `deltas` give the same
/// sum.
pub proof fn lemma_sum_same(
    deltas: Seq<(usize, i64)>,
    p: spec_fn(usize) -> bool,
    q: spec_fn(usize) -> bool,
)
    requires
        forall|k: int| 0 <= k < deltas.len() ==> p((#[trigger] deltas[k]).0) == q(deltas[k].0),
    ensures
        selected_sum(deltas, p) == selected_sum(deltas, q),
    decreases deltas.len(),
{
    if deltas.len() > 0 {
        let init = deltas.drop_last();
        assert forall|k: int| 0 <= k < init.len() implies p((#[trigger] init[k]).0) == q(
            init[k].0,
        ) by {
            assert(init[k] == deltas[k]);
        }
        lemma_sum_same(init, p, q);
        assert(deltas.last() == deltas[deltas.len() - 1]);
    }
}

/// The sum over two sets of positions that do not meet is the sum of the two
/// sums.
pub proof fn lemma_sum_split(
    deltas: Seq<(usize, i64)>,
    p: spec_fn(usize) -> bool,
    q: spec_fn(usize) -> bool,
    u: spec_fn(usize) -> bool,
)
    requires
        forall|k: int|
            0 <= k < deltas.len() ==> u((#[trigger] deltas[k]).0) == (p(deltas[k].0) || q(
                deltas[k].0,
            )) && !(p(deltas[k].0) && q(deltas[k].0)),
    ensures
        selected_sum(deltas, u) == selected_sum(deltas, p) + selected_sum(deltas, q),
    decreases deltas.len(),
{
    if deltas.len() > 0 {
        let init = deltas.drop_last();
        assert forall|k: int| 0 <= k < init.len() implies u((#[trigger] init[k]).0) == (p(
            init[k].0,
        ) || q(init[k].0)) && !(p(init[k].0) && q(init[k].0)) by {
            assert(init[k] == deltas[k]);
        }
        lemma_sum_split(init, p, q, u);
        assert(deltas.last() == deltas[deltas.len() - 1]);
    }
}

/// A sum of `len` deltas is at most `len` times the largest delta in size.
pub proof fn lemma_sum_bound(deltas: Seq<(usize, i64)>, pred: spec_fn(usize) -> bool)
    ensures
        -(deltas.len() * 0x8000_0000_0000_0000) <= selected_sum(deltas, pred) <= deltas.len()
            * 0x8000_0000_0000_0000,
    decreases deltas.len(),
{
    if deltas.len() > 0 {
        lemma_sum_bound(deltas.drop_last(), pred);
    }
}

/// The sum over the first `k + 1` deltas, from the sum over the first `k`.
pub proof fn lemma_sum_take_step(
    deltas: Seq<(usize, i64)>,
    k: int,
    pred: spec_fn(usize) -> bool,
)
    requires
        0 <= k < deltas.len(),
    ensures
        selected_sum(deltas.take(k + 1), pred) == selected_sum(deltas.take(k), pred) + if pred(
            deltas[k].0,
        ) {
            deltas[k].1 as int
        } else {
            0
        },
{
    assert(deltas.take(k + 1).drop_last() =~= deltas.take(k));
    assert(deltas.take(k + 1).last() == deltas[k]);
}

/// The sum after one more delta.
pub proof fn lemma_sum_push(
    deltas: Seq<(usize, i64)>,
    d: (usize, i64),
    pred: spec_fn(usize) -> bool,
)
    ensures
        selected_sum(deltas.push(d), pred) == selected_sum(deltas, pred) + if pred(d.0) {
            d.1 as int
        } else {
            0
        },
{
    assert(deltas.push(d).drop_last() =~= deltas);
    assert(deltas.push(d).last() == d);
}

/// A delta is carried only to ancestors of its node.
pub proof fn lemma_reaches_bounds(s: Seq<ProtoNode>, j: int, x: int, t: int)
    requires
        reaches(s, j, x, t),
    ensures
        0 <= j <= x < s.len(),
{
}

/// Once every node below `j` has handed its sum up, what has reached `j` is
/// what was given to its subtree.
pub proof fn lemma_reaches_done(s: Seq<ProtoNode>, j: int, x: int, t: int)
    requires
        t <= j + 1,
    ensures
        reaches(s, j, x, t) == in_subtree(s, j, x),
    decreases x,
{
    if x != j && 0 <= j < x < s.len() {
        match s[x].parent {
            Some(p) => {
                if p < x {
                    lemma_reaches_done(s, j, p as int, t);
                }
            },
            None => {},
        }
    }
}

/// Node `i` hands its sum to node `j`: `j` is the parent of `i`.
pub open spec fn hands_to(s: Seq<ProtoNode>, i: int, j: int) -> bool {
    s[i].parent matches Some(p) && p == j && j < i
}

/// What has reached node `j` once node `t - 1` has handed its sum to its
/// parent: what had reached `j` before and, for the parent, also what had
/// reached node `t - 1`.
pub proof fn lemma_reaches_step(s: Seq<ProtoNode>, j: int, x: int, t: int)
    requires
        1 <= t <= s.len(),
        0 <= x < s.len(),
    ensures
        reaches(s, j, x, t - 1) == (reaches(s, j, x, t) || (hands_to(s, t - 1, j) && reaches(
            s,
            t - 1,
            x,
            t,
        ))),
        !(reaches(s, j, x, t) && hands_to(s, t - 1, j) && reaches(s, t - 1, x, t)),
    decreases x,
{
    let i = t - 1;
    if reaches(s, i, x, t) {
        lemma_reaches_bounds(s, i, x, t);
    }
    if reaches(s, j, x, t) {
        lemma_reaches_bounds(s, j, x, t);
    }
    if x == j {
    } else if 0 <= j < x && x >= t {
        match s[x].parent {
            Some(q) => {
                if q < x {
                    lemma_reaches_step(s, j, q as int, t);
                    if reaches(s, i, q as int, t) {
                        lemma_reaches_bounds(s, i, q as int, t);
                    }
                }
            },
            None => {},
        }
    } else if 0 <= j < x && x == i {
        assert(!reaches(s, j, x, t));
        assert(reaches(s, i, x, t));
        match s[x].parent {
            Some(q) => {
                if q < x {
                    assert(reaches(s, j, q as int, t - 1) == (q == j));
                }
            },
            None => {},
        }
    } else {
        assert(!reaches(s, j, x, t - 1));
    }
}

/// The sums after node `t - 1` has handed its sum to its parent.
pub proof fn lemma_carry_step(s: Seq<ProtoNode>, deltas: Seq<(usize, i64)>, j: int, t: int)
    requires
        1 <= t <= s.len(),
        deltas_in_range(deltas, s.len()),
    ensures
        selected_sum(deltas, carried(s, j, t - 1)) == selected_sum(deltas, carried(s, j, t))
            + if hands_to(s, t - 1, j) {
            selected_sum(deltas, carried(s, t - 1, t))
        } else {
            0
        },
{
    if hands_to(s, t - 1, j) {
        assert forall|k: int| 0 <= k < deltas.len() implies carried(s, j, t - 1)(
            (#[trigger] deltas[k]).0,
        ) == (carried(s, j, t)(deltas[k].0) || carried(s, t - 1, t)(deltas[k].0)) && !(carried(
            s,
            j,
            t,
        )(deltas[k].0) && carried(s, t - 1, t)(deltas[k].0)) by {
            lemma_reaches_step(s, j, deltas[k].0 as int, t);
        }
        lemma_sum_split(deltas, carried(s, j, t), carried(s, t - 1, t), carried(s, j, t - 1));
    } else {
        assert forall|k: int| 0 <= k < deltas.len() implies carried(s, j, t - 1)(
            (#[trigger] deltas[k]).0,
        ) == carried(s, j, t)(deltas[k].0) by {
            lemma_reaches_step(s, j, deltas[k].0 as int, t);
        }
        lemma_sum_same(deltas, carried(s, j, t - 1), carried(s, j, t));
    }
}

/// When the nodes behind `j` have handed up their sums, the sum at `j` is the
/// change in weight of `j`.
pub proof fn lemma_carry_done(s: Seq<ProtoNode>, deltas: Seq<(usize, i64)>, j: int)
    ensures
        selected_sum(deltas, carried(s, j, j + 1)) == subtree_delta(s, deltas, j),
{
    assert forall|k: int| 0 <= k < deltas.len() implies carried(s, j, j + 1)(
        (#[trigger] deltas[k]).0,
    ) == within(s, j)(deltas[k].0) by {
        lemma_reaches_done(s, j, deltas[k].0 as int, j + 1);
    }
    lemma_sum_same(deltas, carried(s, j, j + 1), within(s, j));
}

/// `n` sums of nothing.
fn zeroed_sums(n: usize) -> (v: Vec<i128>)
    ensures
        v@.len() == n,
        forall|i: int| 0 <= i < n ==> v@[i] == 0,
{
    let mut v: Vec<i128> = Vec::new();
    let mut i: usize = 0;
    while i < n
        invariant
            i <= n,
            v@.len() == i,
            forall|k: int| 0 <= k < i ==> v@[k] == 0,
        decreases n - i,
    {
        v.push(0);
        i += 1;
    }
    v
}

/// The weights that the nodes hold.
fn current_weights(nodes: &Vec<ProtoNode>) -> (v: Vec<u64>)
    ensures
        v@.len() == nodes@.len(),
        forall|i: int| 0 <= i < v@.len() ==> v@[i] == nodes@[i].weight,
{
    let n = nodes.len();
    let mut v: Vec<u64> = Vec::new();
    let mut i: usize = 0;
    while i < n
        invariant
            n == nodes@.len(),
            i <= n,
            v@.len() == i,
            forall|k: int| 0 <= k < i ==> v@[k] == nodes@[k].weight,
        decreases n - i,
    {
        v.push(nodes[i].weight);
        i += 1;
    }
    v
}

/// The weights of all nodes once `deltas` are applied.
///
/// The deltas are first summed per node; then, from the last node to the
/// first, each node takes its sum as its change in weight and hands the sum to
/// its parent.
pub(crate) fn new_weights(nodes: &Vec<ProtoNode>, deltas: &Vec<(usize, i64)>) -> (r: Result<
    Vec<u64>,
    Error,
>)
    requires
        tree_wf(nodes@),
    ensures
        match r {
            Ok(w) => apply_outcome(nodes@, deltas@) is Ok && w@.len() == nodes@.len() && forall|
                j: int,
            |
                0 <= j < w@.len() ==> (#[trigger] w@[j]) as int == new_weight(nodes@, deltas@, j),
            Err(e) => apply_outcome(nodes@, deltas@) == Err::<(), Error>(e),
        },
{
    let n = nodes.len();
    let m = deltas.len();
    let mut acc = zeroed_sums(n);
    let mut k: usize = 0;
    while k < m
        invariant
            n == nodes@.len(),
            m == deltas@.len(),
            k <= m,
            acc@.len() == n,
            forall|x: int| 0 <= x < k ==> (#[trigger] deltas@[x]).0 < n,
            forall|j: int|
                0 <= j < n ==> #[trigger] acc@[j] == selected_sum(
                    deltas@.take(k as int),
                    carried(nodes@, j, n as int),
                ),
        decreases m - k,
    {
        let idx = deltas[k].0;
        let d = deltas[k].1;
        if idx >= n {
            proof {
                assert(!(deltas@[k as int].0 < n));
            }
            return Err(Error::InvalidNodeIndex);
        }
        let cur = acc[idx];
        proof {
            lemma_sum_bound(deltas@.take(k as int), carried(nodes@, idx as int, n as int));
        }
        let ghost before = acc@;
        acc.set(idx, cur + d as i128);
        proof {
            assert forall|j: int| 0 <= j < n implies #[trigger] acc@[j] == selected_sum(
                deltas@.take(k + 1),
                carried(nodes@, j, n as int),
            ) by {
                lemma_sum_take_step(deltas@, k as int, carried(nodes@, j, n as int));
                assert(before[j] == selected_sum(
                    deltas@.take(k as int),
                    carried(nodes@, j, n as int),
                ));
            }
        }
        k += 1;
    }
    proof {
        assert(deltas@.take(m as int) =~= deltas@);
        assert(deltas_in_range(deltas@, n as nat));
    }
    let mut weights = current_weights(nodes);
    let mut i: usize = n;
    while i > 0
        invariant
            n == nodes@.len(),
            i <= n,
            acc@.len() == n,
            weights@.len() == n,
            m == deltas@.len(),
            tree_wf(nodes@),
            deltas_in_range(deltas@, n as nat),
            forall|j: int|
                0 <= j < n ==> #[trigger] acc@[j] == selected_sum(
                    deltas@,
                    carried(nodes@, j, i as int),
                ),
            forall|j: int|
                i <= j < n ==> (#[trigger] weights@[j]) as int == new_weight(nodes@, deltas@, j),
            forall|j: int| i <= j < n ==> 0 <= #[trigger] new_weight(nodes@, deltas@, j) <= u64::MAX,
        decreases i,
    {
        i -= 1;
        let a = acc[i];
        let w = nodes[i].weight as i128;
        proof {
            lemma_carry_done(nodes@, deltas@, i as int);
            assert(a == subtree_delta(nodes@, deltas@, i as int));
            assert(w + a == new_weight(nodes@, deltas@, i as int));
        }
        if a < -w || a > u64::MAX as i128 - w {
            proof {
                assert(!(0 <= new_weight(nodes@, deltas@, i as int) <= u64::MAX));
            }
            return Err(Error::WeightOverflow);
        }
        weights.set(i, (w + a) as u64);
        let ghost before = acc@;
        match nodes[i].parent {
            Some(p) => {
                proof {
                    assert(0 < i);
                    assert(nodes@[i as int].parent is Some && nodes@[i as int].parent->0 < i);
                    lemma_carry_step(nodes@, deltas@, p as int, i + 1);
                    lemma_sum_bound(deltas@, carried(nodes@, p as int, i as int));
                    assert(hands_to(nodes@, i as int, p as int));
                    assert(acc@[p as int] + a == selected_sum(
                        deltas@,
                        carried(nodes@, p as int, i as int),
                    ));
                }
                let cur = acc[p];
                acc.set(p, cur + a);
            },
            None => {},
        }
        proof {
            assert forall|j: int| 0 <= j < n implies #[trigger] acc@[j] == selected_sum(
                deltas@,
                carried(nodes@, j, i as int),
            ) by {
                lemma_carry_step(nodes@, deltas@, j, i + 1);
                assert(before[j] == selected_sum(deltas@, carried(nodes@, j, i + 1)));
            }
        }
    }
    Ok(weights)
}

} // verus!
