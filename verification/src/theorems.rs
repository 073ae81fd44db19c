use vstd::prelude::*;
use crate::best::{
    best_child_of, best_descendant_of, has_child, is_best_child, is_child,
    lemma_best_child_exists, lemma_best_child_found, lemma_best_descendant_in_subtree,
    lemma_child_subtree, lemma_refreshed_twice, lemma_refreshed_wf, lemma_with_weights_tree,
    outranks, refreshed, with_weights,
};
use crate::checkpoint::{Checkpoint, Epoch, Slot};
use crate::error::Error;
use crate::fork_choice::{engine_wf, find_head_outcome, settled, vote_weights, vote_weights_fit};
use crate::hash::{hash_le, Hash256};
use crate::head::{
    candidate, deepest_viable, head_index, head_outcome, is_viable, lemma_deepest_viable,
};
use crate::node::ProtoNode;
use crate::proto_array::{
    insert_outcome, lemma_with_block_wf, propagated, prune_outcome, with_block,
};
use crate::prune::{
    lemma_origin, lemma_pruned_at, lemma_pruned_roots, lemma_pruned_wf, lemma_rank_bounds,
    origin, pruned,
};
use crate::tree::{
    contains_root, in_subtree, index_of, lemma_ancestors_chain, lemma_index_of_in_range,
    lemma_index_of_unique, lemma_same_shape, lemma_subtree_bounds, lemma_subtree_same_parents,
    pointers_sound, same_shape, store_wf, tree_wf,
};
use crate::votes::{
    balance_of, committed, lemma_insert_keeps_votes, lemma_vote_weight_le,
    lemma_vote_weight_nonneg, lemma_vote_weight_same_shape, lemma_vote_weight_zero, vote_term,
    vote_weight, votes_wf, weights_match, VoteTracker,
};
use crate::weights::{apply_outcome, new_weight, reweighted};

verus! {

/// The engine after a head search: as it was where the search is refused,
/// else with the latest votes committed and the tree settled.
pub open spec fn nodes_after_search(
    s: Seq<ProtoNode>,
    votes: Seq<VoteTracker>,
    justified: Checkpoint,
    finalized: Checkpoint,
    balances: Seq<u64>,
) -> Seq<ProtoNode> {
    if find_head_outcome(s, votes, justified, finalized, balances) is Ok {
        settled(s, committed(s, votes, balances))
    } else {
        s
    }
}

/// The trackers after a head search.
pub open spec fn votes_after_search(
    s: Seq<ProtoNode>,
    votes: Seq<VoteTracker>,
    justified: Checkpoint,
    finalized: Checkpoint,
    balances: Seq<u64>,
) -> Seq<VoteTracker> {
    if find_head_outcome(s, votes, justified, finalized, balances) is Ok {
        committed(s, votes, balances)
    } else {
        votes
    }
}

/// A head search that is repeated with the same checkpoints and balances,
/// with nothing done to the engine in between, gives the same result and
/// leaves the engine as the first search left it.
pub proof fn lemma_find_head_repeats(
    s: Seq<ProtoNode>,
    votes: Seq<VoteTracker>,
    justified: Checkpoint,
    finalized: Checkpoint,
    balances: Seq<u64>,
)
    requires
        engine_wf(s, votes),
    ensures
        ({
            let s1 = nodes_after_search(s, votes, justified, finalized, balances);
            let v1 = votes_after_search(s, votes, justified, finalized, balances);
            &&& find_head_outcome(s1, v1, justified, finalized, balances) == find_head_outcome(
                s,
                votes,
                justified,
                finalized,
                balances,
            )
            &&& nodes_after_search(s1, v1, justified, finalized, balances) == s1
            &&& votes_after_search(s1, v1, justified, finalized, balances) == v1
        }),
{
    if find_head_outcome(s, votes, justified, finalized, balances) is Ok {
        let v1 = committed(s, votes, balances);
        let w = vote_weights(s, v1);
        let b = with_weights(s, w);
        let s1 = settled(s, v1);
        lemma_with_weights_tree(s, w);
        assert(same_shape(s, s1));
        lemma_same_shape(s, s1, justified.root, 0, 0);
        assert(committed(s1, v1, balances) =~= v1) by {
            assert forall|v: int| 0 <= v < v1.len() implies #[trigger] committed(
                s1,
                v1,
                balances,
            )[v] == v1[v] by {
                match votes[v].next_root {
                    Some(r) => {
                        lemma_same_shape(s, s1, r, 0, 0);
                    },
                    None => {},
                }
            }
        }
        let w1 = vote_weights(s1, v1);
        assert(w1 =~= w) by {
            assert forall|n: int| 0 <= n < s1.len() implies #[trigger] w1[n] == w[n] by {
                lemma_vote_weight_same_shape(s, s1, v1, n);
            }
        }
        assert(with_weights(s1, w) =~= s1);
        lemma_refreshed_twice(b);
        assert(settled(s1, v1) == s1);
        assert(vote_weights_fit(s1, v1)) by {
            assert forall|n: int| 0 <= n < s1.len() implies #[trigger] vote_weight(s1, v1, n)
                <= u64::MAX by {
                lemma_vote_weight_same_shape(s, s1, v1, n);
                assert(vote_weight(s, v1, n) <= u64::MAX);
            }
        }
    }
}

/// A search is never refused for the checkpoints that the blocks hold: where
/// the node that the search starts looking at is justified in the epoch of the
/// search or in a later one, that node is the head.
pub proof fn lemma_later_justified_is_head(
    s: Seq<ProtoNode>,
    justified: Checkpoint,
    finalized: Checkpoint,
)
    requires
        store_wf(s),
        contains_root(s, justified.root),
        s[candidate(s, index_of(s, justified.root))].justified_checkpoint.epoch.0
            >= justified.epoch.0,
    ensures
        head_outcome(s, justified, finalized) == Ok::<Hash256, Error>(
            s[candidate(s, index_of(s, justified.root))].root,
        ),
{
    let j = index_of(s, justified.root);
    lemma_index_of_in_range(s, justified.root);
    let c = candidate(s, j);
    assert(in_subtree(s, j, j));
    assert(in_subtree(s, j, c));
    lemma_subtree_bounds(s, j, c);
}

/// A search starts at a known block and ends in its subtree: it is refused
/// only for a justified root that is not in the tree, and its head is the
/// justified block or a descendant of it that may be the head.
pub proof fn lemma_head_in_justified_subtree(
    s: Seq<ProtoNode>,
    justified: Checkpoint,
    finalized: Checkpoint,
)
    requires
        store_wf(s),
        contains_root(s, justified.root),
    ensures
        head_outcome(s, justified, finalized) is Ok,
        in_subtree(s, index_of(s, justified.root), head_index(s, justified, finalized)),
        head_index(s, justified, finalized) == index_of(s, justified.root) || is_viable(
            s,
            justified,
            finalized,
            index_of(s, justified.root),
            head_index(s, justified, finalized),
        ),
{
    let j = index_of(s, justified.root);
    lemma_index_of_in_range(s, justified.root);
    assert(in_subtree(s, j, j));
    assert(in_subtree(s, j, candidate(s, j)));
    lemma_deepest_viable(s, justified, finalized, j, candidate(s, j));
}

/// After pruning to a finalized block, a root that is not the root of that
/// block or of a descendant of it is not in the tree: a search that is
/// justified at it, a block that names it as parent and a pruning to it are
/// all refused.
pub proof fn lemma_pruned_root_is_unknown(
    s: Seq<ProtoNode>,
    finalized_root: Hash256,
    root: Hash256,
    votes: Seq<VoteTracker>,
    justified_epoch: Epoch,
    finalized: Checkpoint,
    balances: Seq<u64>,
    child_root: Hash256,
)
    requires
        store_wf(s),
        contains_root(s, finalized_root),
        !(contains_root(s, root) && in_subtree(
            s,
            index_of(s, finalized_root),
            index_of(s, root),
        )),
    ensures
        ({
            let p = pruned(s, index_of(s, finalized_root));
            let justified = Checkpoint { epoch: justified_epoch, root };
            &&& !contains_root(p, root)
            &&& find_head_outcome(p, votes, justified, finalized, balances) == Err::<
                Hash256,
                Error,
            >(Error::UnknownJustifiedBlock)
            &&& head_outcome(p, justified, finalized) == Err::<Hash256, Error>(
                Error::UnknownJustifiedBlock,
            )
            &&& insert_outcome(p, child_root, root) is Err
            &&& prune_outcome(p, root) == Err::<(), Error>(Error::FinalizedNodeUnknown)
        }),
{
    lemma_index_of_in_range(s, finalized_root);
    lemma_pruned_roots(s, index_of(s, finalized_root), root);
}

/// After pruning to a finalized block, the tree holds that block and its
/// descendants: their roots are in the tree.
pub proof fn lemma_pruned_root_is_known(s: Seq<ProtoNode>, finalized_root: Hash256, root: Hash256)
    requires
        store_wf(s),
        contains_root(s, finalized_root),
        contains_root(s, root),
        in_subtree(s, index_of(s, finalized_root), index_of(s, root)),
    ensures
        contains_root(pruned(s, index_of(s, finalized_root)), root),
        pruned(s, index_of(s, finalized_root))[0].root == finalized_root,
        pruned(s, index_of(s, finalized_root))[0].parent is None,
{
    lemma_index_of_in_range(s, finalized_root);
    lemma_pruned_roots(s, index_of(s, finalized_root), root);
    lemma_pruned_wf(s, index_of(s, finalized_root));
}

/// Every balance in the list is zero.
pub open spec fn all_zero(balances: Seq<u64>) -> bool {
    forall|v: int| 0 <= v < balances.len() ==> balances[v] == 0
}

/// The tree with every weight set to zero.
pub open spec fn without_weights(s: Seq<ProtoNode>) -> Seq<ProtoNode> {
    with_weights(s, Seq::new(s.len(), |i: int| 0u64))
}

/// With balances that are all zero the head does not depend on the votes: it
/// is the head of the tree without weights, which the shape of the tree, the
/// roots and the checkpoints decide.
pub proof fn lemma_zero_balances_head(
    s: Seq<ProtoNode>,
    votes: Seq<VoteTracker>,
    justified: Checkpoint,
    finalized: Checkpoint,
    balances: Seq<u64>,
)
    requires
        store_wf(s),
        all_zero(balances),
    ensures
        find_head_outcome(s, votes, justified, finalized, balances) == head_outcome(
            refreshed(without_weights(s)),
            justified,
            finalized,
        ),
{
    let v1 = committed(s, votes, balances);
    let zeros = Seq::new(s.len(), |i: int| 0u64);
    lemma_with_weights_tree(s, zeros);
    let t = refreshed(without_weights(s));
    assert(same_shape(s, t));
    lemma_same_shape(s, t, justified.root, 0, 0);
    assert forall|n: int| 0 <= n < s.len() implies #[trigger] vote_weight(s, v1, n) == 0 by {
        assert forall|v: int| 0 <= v < v1.len() implies vote_term(s, #[trigger] v1[v], n) == 0 by {
            assert(balance_of(balances, v) == 0);
        }
        lemma_vote_weight_zero(s, v1, n);
    }
    assert(vote_weights(s, v1) =~= zeros);
}

/// The preferred child of a node is preferred to each of its children: it is
/// at least as heavy, and of equally heavy children it has the greatest root.
pub proof fn lemma_best_child_is_preferred(s: Seq<ProtoNode>, p: int, k: int)
    requires
        tree_wf(s),
        is_child(s, p, k),
    ensures
        best_child_of(s, p) is Some,
        is_child(s, p, best_child_of(s, p)->0 as int),
        outranks(s[best_child_of(s, p)->0 as int], s[k]),
        s[best_child_of(s, p)->0 as int].weight == s[k].weight ==> hash_le(
            s[k].root,
            s[best_child_of(s, p)->0 as int].root,
        ),
{
    lemma_best_child_exists(s, p);
}

/// A node weighs at least what any of its children weighs.
pub proof fn lemma_parent_at_least_as_heavy(
    s: Seq<ProtoNode>,
    votes: Seq<VoteTracker>,
    p: int,
    c: int,
)
    requires
        engine_wf(s, votes),
        is_child(s, p, c),
    ensures
        s[p].weight >= s[c].weight,
{
    assert forall|v: int| 0 <= v < votes.len() implies vote_term(s, #[trigger] votes[v], c)
        <= vote_term(s, votes[v], p) by {
        match votes[v].current_root {
            Some(r) => {
                if contains_root(s, r) && in_subtree(s, c, index_of(s, r)) {
                    lemma_child_subtree(s, p, c, index_of(s, r));
                }
            },
            None => {},
        }
    }
    lemma_vote_weight_le(s, votes, c, p);
    assert(s[p].weight == vote_weight(s, votes, p));
    assert(s[c].weight == vote_weight(s, votes, c));
}

/// The total weight of the children of `p` at positions below `k`.
pub open spec fn children_weight(s: Seq<ProtoNode>, p: int, k: int) -> int
    decreases k,
{
    if k <= 0 {
        0
    } else {
        children_weight(s, p, k - 1) + if is_child(s, p, k - 1) {
            s[k - 1].weight as int
        } else {
            0
        }
    }
}

/// What one validator adds to the children of `p` at positions below `k`.
spec fn children_term(s: Seq<ProtoNode>, vote: VoteTracker, p: int, k: int) -> int
    decreases k,
{
    if k <= 0 {
        0
    } else {
        children_term(s, vote, p, k - 1) + if is_child(s, p, k - 1) {
            vote_term(s, vote, k - 1)
        } else {
            0
        }
    }
}

/// The total weight that the votes give to the children of `p` at positions
/// below `k`.
spec fn children_votes(s: Seq<ProtoNode>, votes: Seq<VoteTracker>, p: int, k: int) -> int
    decreases k,
{
    if k <= 0 {
        0
    } else {
        children_votes(s, votes, p, k - 1) + if is_child(s, p, k - 1) {
            vote_weight(s, votes, k - 1)
        } else {
            0
        }
    }
}

/// A validator adds to at most one child of a node, and then as much as to the
/// node.
proof fn lemma_children_term(s: Seq<ProtoNode>, vote: VoteTracker, p: int, k: int)
    requires
        tree_wf(s),
        0 <= k <= s.len(),
    ensures
        0 <= children_term(s, vote, p, k) <= vote_term(s, vote, p),
        children_term(s, vote, p, k) > 0 ==> exists|c: int|
            is_child(s, p, c) && c < k && vote_term(s, vote, c) > 0,
    decreases k,
{
    if k > 0 {
        lemma_children_term(s, vote, p, k - 1);
        let c = k - 1;
        if is_child(s, p, c) && vote_term(s, vote, c) > 0 {
            let t = index_of(s, vote.current_root->0);
            lemma_child_subtree(s, p, c, t);
            if children_term(s, vote, p, k - 1) > 0 {
                let c2 = choose|c2: int|
                    is_child(s, p, c2) && c2 < k - 1 && vote_term(s, vote, c2) > 0;
                lemma_ancestors_chain(s, c2, c, t);
                assert(in_subtree(s, c2, p));
                lemma_subtree_bounds(s, c2, p);
            }
        } else if children_term(s, vote, p, k - 1) > 0 {
            let c2 = choose|c2: int|
                is_child(s, p, c2) && c2 < k - 1 && vote_term(s, vote, c2) > 0;
            assert(is_child(s, p, c2) && c2 < k && vote_term(s, vote, c2) > 0);
        }
    }
}

/// One more validator adds to the children what it adds to each of them.
proof fn lemma_children_votes_step(s: Seq<ProtoNode>, votes: Seq<VoteTracker>, p: int, k: int)
    requires
        votes.len() > 0,
    ensures
        children_votes(s, votes, p, k) == children_votes(s, votes.drop_last(), p, k)
            + children_term(s, votes.last(), p, k),
    decreases k,
{
    if k > 0 {
        lemma_children_votes_step(s, votes, p, k - 1);
    }
}

/// Without validators the children weigh nothing.
proof fn lemma_children_votes_zero(s: Seq<ProtoNode>, votes: Seq<VoteTracker>, p: int, k: int)
    requires
        votes.len() == 0,
    ensures
        children_votes(s, votes, p, k) == 0,
    decreases k,
{
    if k > 0 {
        lemma_children_votes_zero(s, votes, p, k - 1);
    }
}

/// The votes give the children of a node together at most what they give
/// the node.
proof fn lemma_children_votes_bound(s: Seq<ProtoNode>, votes: Seq<VoteTracker>, p: int, k: int)
    requires
        tree_wf(s),
        0 <= k <= s.len(),
    ensures
        children_votes(s, votes, p, k) <= vote_weight(s, votes, p),
    decreases votes.len(),
{
    if votes.len() == 0 {
        lemma_children_votes_zero(s, votes, p, k);
    } else {
        lemma_children_votes_bound(s, votes.drop_last(), p, k);
        lemma_children_votes_step(s, votes, p, k);
        lemma_children_term(s, votes.last(), p, k);
    }
}

/// The children weigh together what the votes give them.
proof fn lemma_children_weight_is_votes(
    s: Seq<ProtoNode>,
    votes: Seq<VoteTracker>,
    p: int,
    k: int,
)
    requires
        weights_match(s, votes),
        0 <= k <= s.len(),
    ensures
        children_weight(s, p, k) == children_votes(s, votes, p, k),
    decreases k,
{
    if k > 0 {
        lemma_children_weight_is_votes(s, votes, p, k - 1);
        assert(s[k - 1].weight == vote_weight(s, votes, k - 1));
    }
}

/// A node weighs at least what its children weigh together.
pub proof fn lemma_weight_covers_children(s: Seq<ProtoNode>, votes: Seq<VoteTracker>, p: int)
    requires
        engine_wf(s, votes),
        0 <= p < s.len(),
    ensures
        s[p].weight >= children_weight(s, p, s.len() as int),
{
    lemma_children_weight_is_votes(s, votes, p, s.len() as int);
    lemma_children_votes_bound(s, votes, p, s.len() as int);
    assert(s[p].weight == vote_weight(s, votes, p));
}

/// A new block without weight changes the preferred child of its parent at
/// most to itself, and the preferred child of no other node.
proof fn lemma_push_best_child(s: Seq<ProtoNode>, node: ProtoNode, i: int)
    requires
        tree_wf(s),
        tree_wf(s.push(node)),
        0 <= i < s.len(),
    ensures
        best_child_of(s.push(node), i) == best_child_of(s, i) || best_child_of(s.push(node), i)
            == Some(s.len() as usize),
        best_child_of(s, i) matches Some(c) ==> is_child(s, i, c as int),
{
    let t = s.push(node);
    let n = s.len() as int;
    assert forall|c: int| c < n implies is_child(t, i, c) == is_child(s, i, c) by {
        if 0 <= c < n {
            assert(t[c] == s[c]);
        }
    }
    if has_child(s, i) {
        lemma_best_child_exists(s, i);
    }
    if has_child(t, i) {
        lemma_best_child_exists(t, i);
        let b = best_child_of(t, i)->0 as int;
        if b != n {
            assert(is_child(s, i, b));
            assert(is_best_child(s, i, b)) by {
                assert forall|k: int| #[trigger] is_child(s, i, k) implies outranks(s[b], s[k]) by {
                    assert(is_child(t, i, k));
                    assert(t[k] == s[k] && t[b] == s[b]);
                }
            }
            lemma_best_child_found(s, i, b);
        }
    } else {
        if has_child(s, i) {
            let c = choose|c: int| is_child(s, i, c);
            assert(is_child(t, i, c));
        }
    }
}

/// A new block without weight changes the node reached by following
/// preferred children at most to itself.
proof fn lemma_push_best_descendant(s: Seq<ProtoNode>, node: ProtoNode, i: int)
    requires
        tree_wf(s),
        tree_wf(s.push(node)),
        0 <= i < s.len(),
    ensures
        best_descendant_of(s.push(node), i) == best_descendant_of(s, i) || best_descendant_of(
            s.push(node),
            i,
        ) == s.len(),
    decreases s.len() - i,
{
    let t = s.push(node);
    let n = s.len() as int;
    lemma_push_best_child(s, node, i);
    if best_child_of(t, i) == best_child_of(s, i) {
        match best_child_of(s, i) {
            Some(c) => {
                lemma_push_best_descendant(s, node, c as int);
            },
            None => {},
        }
    } else {
        assert(best_child_of(t, n) is None) by {
            if has_child(t, n) {
                let c = choose|c: int| is_child(t, n, c);
                assert(is_child(t, n, c));
            }
        }
        assert(best_descendant_of(t, n) == n);
    }
}

/// Two trees that hold the same parents and checkpoints up to node `x` give
/// the same head on the way back from `x`.
proof fn lemma_deepest_viable_same(
    a: Seq<ProtoNode>,
    b: Seq<ProtoNode>,
    justified: Checkpoint,
    finalized: Checkpoint,
    j: int,
    x: int,
)
    requires
        0 <= x < a.len(),
        x < b.len(),
        forall|i: int|
            0 <= i <= x ==> (#[trigger] a[i]).parent == (#[trigger] b[i]).parent
                && a[i].justified_checkpoint == b[i].justified_checkpoint
                && a[i].finalized_checkpoint == b[i].finalized_checkpoint,
    ensures
        deepest_viable(a, justified, finalized, j, x) == deepest_viable(
            b,
            justified,
            finalized,
            j,
            x,
        ),
    decreases x,
{
    if x > j {
        assert(a[x].parent == b[x].parent);
        assert forall|i: int| 0 <= i <= x implies (#[trigger] a[i]).parent == (
        #[trigger] b[i]).parent by {}
        lemma_subtree_same_parents(a, b, j, x);
        if !is_viable(a, justified, finalized, j, x) {
            match a[x].parent {
                Some(p) => {
                    if p < x {
                        lemma_deepest_viable_same(a, b, justified, finalized, j, p as int);
                    }
                },
                None => {},
            }
        }
    }
}

/// A new block, added to a tree whose weights stay as they are, changes the
/// head of a search at most to itself, provided that the block is justified
/// in the epoch of the search or in a later one.
pub proof fn lemma_new_block_head(
    s: Seq<ProtoNode>,
    slot: Slot,
    root: Hash256,
    parent_root: Hash256,
    block_justified: Checkpoint,
    block_finalized: Checkpoint,
    justified: Checkpoint,
    finalized: Checkpoint,
)
    requires
        store_wf(s),
        s.len() < usize::MAX,
        insert_outcome(s, root, parent_root) is Ok,
        contains_root(s, justified.root),
        block_justified.epoch.0 >= justified.epoch.0,
    ensures
        ({
            let before = head_outcome(refreshed(s), justified, finalized);
            let after = head_outcome(
                refreshed(
                    with_block(s, slot, root, parent_root, block_justified, block_finalized),
                ),
                justified,
                finalized,
            );
            after == before || after == Ok::<Hash256, Error>(root)
        }),
{
    let t0 = with_block(s, slot, root, parent_root, block_justified, block_finalized);
    let node = t0.last();
    let n = s.len() as int;
    assert(t0 =~= s.push(node));
    lemma_with_block_wf(s, slot, root, parent_root, block_justified, block_finalized);
    let a = refreshed(s);
    let b = refreshed(t0);
    let j = index_of(s, justified.root);
    lemma_index_of_in_range(s, justified.root);
    assert(same_shape(s, a));
    lemma_same_shape(s, a, justified.root, 0, 0);
    assert(t0[j] == s[j]);
    lemma_index_of_unique(t0, j);
    assert(same_shape(t0, b));
    lemma_same_shape(t0, b, justified.root, j, n);
    assert(index_of(a, justified.root) == j && index_of(b, justified.root) == j);
    lemma_best_descendant_in_subtree(s, j);
    lemma_best_descendant_in_subtree(t0, j);
    lemma_push_best_descendant(s, node, j);
    let ca = best_descendant_of(s, j);
    let cb = best_descendant_of(t0, j);
    assert(candidate(a, j) == ca);
    assert(candidate(b, j) == cb);
    if cb == ca {
        assert forall|i: int| 0 <= i <= ca implies (#[trigger] a[i]).parent == (
        #[trigger] b[i]).parent && a[i].justified_checkpoint == b[i].justified_checkpoint
            && a[i].finalized_checkpoint == b[i].finalized_checkpoint by {
            assert(t0[i] == s[i]);
        }
        lemma_deepest_viable_same(a, b, justified, finalized, j, ca);
        let h = deepest_viable(a, justified, finalized, j, ca);
        lemma_same_shape(s, a, justified.root, j, ca);
        assert(in_subtree(a, j, ca));
        lemma_deepest_viable(a, justified, finalized, j, ca);
        lemma_subtree_bounds(a, h, ca);
        assert(b[h].root == t0[h].root && t0[h] == s[h] && a[h].root == s[h].root);
    } else {
        assert(cb == n);
        assert(in_subtree(b, j, n));
        assert(is_viable(b, justified, finalized, j, n));
        assert(deepest_viable(b, justified, finalized, j, n) == n);
    }
}

/// A new block changes the result of a head search at most to its own root,
/// provided that the block is justified in the epoch of the search or in a
/// later one and that no validator's latest vote is for it.
pub proof fn lemma_new_block_search(
    s: Seq<ProtoNode>,
    votes: Seq<VoteTracker>,
    slot: Slot,
    root: Hash256,
    parent_root: Hash256,
    block_justified: Checkpoint,
    block_finalized: Checkpoint,
    justified: Checkpoint,
    finalized: Checkpoint,
    balances: Seq<u64>,
)
    requires
        engine_wf(s, votes),
        s.len() < usize::MAX,
        insert_outcome(s, root, parent_root) is Ok,
        find_head_outcome(s, votes, justified, finalized, balances) is Ok,
        block_justified.epoch.0 >= justified.epoch.0,
        forall|v: int| 0 <= v < votes.len() ==> (#[trigger] votes[v]).next_root != Some(root),
    ensures
        ({
            let before = find_head_outcome(s, votes, justified, finalized, balances);
            let after = find_head_outcome(
                with_block(s, slot, root, parent_root, block_justified, block_finalized),
                votes,
                justified,
                finalized,
                balances,
            );
            after == before || after == Ok::<Hash256, Error>(root)
        }),
{
    let t0 = with_block(s, slot, root, parent_root, block_justified, block_finalized);
    let node = t0.last();
    let n = s.len() as int;
    assert(t0 =~= s.push(node));
    lemma_with_block_wf(s, slot, root, parent_root, block_justified, block_finalized);
    let v1 = committed(s, votes, balances);
    assert forall|r: Hash256| contains_root(t0, r) == (contains_root(s, r) || r == root) by {
        if contains_root(s, r) {
            let i = index_of(s, r);
            assert(t0[i].root == r);
        }
        if r == root {
            assert(t0[n].root == r);
        }
        if contains_root(t0, r) {
            let i = index_of(t0, r);
            if i < n {
                assert(s[i].root == r);
            }
        }
    }
    assert(committed(t0, votes, balances) =~= v1);
    // The tree with the weights that the committed votes give it.
    let w = vote_weights(s, v1);
    let b = with_weights(s, w);
    lemma_with_weights_tree(s, w);
    assert(same_shape(s, b));
    assert(pointers_sound(b)) by {
        assert forall|i: int| 0 <= i < b.len() implies {
            &&& ((#[trigger] b[i]).best_child matches Some(c) ==> c < b.len() && b[c as int].parent
                == Some(i as usize))
            &&& (b[i].best_descendant matches Some(d) ==> in_subtree(b, i, d as int))
        } by {
            assert(s[i].best_child == b[i].best_child);
            match s[i].best_descendant {
                Some(d) => {
                    lemma_same_shape(s, b, root, i, d as int);
                },
                None => {},
            }
        }
    }
    lemma_same_shape(s, b, root, 0, 0);
    lemma_same_shape(s, b, parent_root, 0, 0);
    lemma_same_shape(s, b, justified.root, 0, 0);
    assert forall|x: int| 0 <= x < b.len() implies (#[trigger] b[x]).weight == vote_weight(
        b,
        v1,
        x,
    ) by {
        lemma_vote_weight_same_shape(s, b, v1, x);
        assert(vote_weight(s, v1, x) <= u64::MAX);
        lemma_vote_weight_nonneg(s, v1, x);
    }
    lemma_vote_weight_same_shape(s, b, v1, 0);
    assert(votes_wf(s, v1));
    let b1 = with_block(b, slot, root, parent_root, block_justified, block_finalized);
    assert(b1 =~= b.push(node));
    lemma_with_block_wf(b, slot, root, parent_root, block_justified, block_finalized);
    lemma_insert_keeps_votes(b, v1, node);
    assert(same_shape(b1, t0));
    let w1 = vote_weights(t0, v1);
    assert forall|x: int| 0 <= x < t0.len() implies #[trigger] vote_weight(t0, v1, x)
        == b1[x].weight by {
        lemma_vote_weight_same_shape(b1, t0, v1, x);
    }
    assert(vote_weights_fit(t0, v1));
    assert(with_weights(t0, w1) =~= b1);
    lemma_new_block_head(
        b,
        slot,
        root,
        parent_root,
        block_justified,
        block_finalized,
        justified,
        finalized,
    );
}

/// Every node is in the anchor's subtree.
pub proof fn lemma_anchor_reaches_all(s: Seq<ProtoNode>, d: int)
    requires
        tree_wf(s),
        0 <= d < s.len(),
    ensures
        in_subtree(s, 0, d),
    decreases d,
{
    if d != 0 {
        assert(s[d].parent is Some);
        lemma_anchor_reaches_all(s, s[d].parent->0 as int);
    }
}

/// A node with a descendant other than itself has a child.
proof fn lemma_subtree_has_child(s: Seq<ProtoNode>, j: int, d: int)
    requires
        in_subtree(s, j, d),
        d != j,
    ensures
        has_child(s, j),
    decreases d,
{
    let p = s[d].parent->0 as int;
    if p == j {
        assert(is_child(s, j, d));
    } else {
        lemma_subtree_has_child(s, j, p);
    }
}

/// Where the justified block has no children, it is the head.
pub proof fn lemma_childless_justified_is_head(
    s: Seq<ProtoNode>,
    justified: Checkpoint,
    finalized: Checkpoint,
)
    requires
        store_wf(s),
        contains_root(s, justified.root),
        !has_child(s, index_of(s, justified.root)),
    ensures
        head_outcome(s, justified, finalized) == Ok::<Hash256, Error>(justified.root),
{
    let j = index_of(s, justified.root);
    lemma_index_of_in_range(s, justified.root);
    assert(in_subtree(s, j, j));
    let c = candidate(s, j);
    if c != j {
        lemma_subtree_has_child(s, j, c);
    }
}

/// A propagation without deltas is never refused and leaves the weights as
/// they are; after a propagation it changes nothing at all.
pub proof fn lemma_propagation_settles(s: Seq<ProtoNode>, deltas: Seq<(usize, i64)>)
    requires
        store_wf(s),
        apply_outcome(s, deltas) is Ok,
    ensures
        apply_outcome(s, Seq::empty()) is Ok,
        reweighted(s, Seq::empty()) == s,
        apply_outcome(propagated(s, deltas), Seq::empty()) is Ok,
        propagated(propagated(s, deltas), Seq::empty()) == propagated(s, deltas),
{
    let none = Seq::<(usize, i64)>::empty();
    assert forall|n: int| 0 <= n < s.len() implies #[trigger] new_weight(s, none, n)
        == s[n].weight by {}
    assert(reweighted(s, none) =~= s);
    let r = reweighted(s, deltas);
    assert(tree_wf(r)) by {
        assert(same_shape(s, r));
        lemma_same_shape(s, r, s[0].root, 0, 0);
    }
    let t = propagated(s, deltas);
    lemma_refreshed_wf(r);
    assert forall|n: int| 0 <= n < t.len() implies #[trigger] new_weight(t, none, n)
        == t[n].weight by {}
    assert(reweighted(t, none) =~= t);
    lemma_refreshed_twice(r);
}

/// The slot of node `i` is not before that of its parent.
pub open spec fn edge_ordered(s: Seq<ProtoNode>, i: int) -> bool {
    match s[i].parent {
        Some(p) => p < i ==> s[p as int].slot.0 <= s[i].slot.0,
        None => true,
    }
}

/// No block has a slot before that of its parent.
pub open spec fn slots_ordered(s: Seq<ProtoNode>) -> bool {
    forall|i: int| 0 < i < s.len() ==> #[trigger] edge_ordered(s, i)
}

/// While every block is added with a slot that is not before that of its
/// parent, no block of the tree has a slot before that of its parent:
/// propagation and pruning keep it so.
pub proof fn lemma_slots_stay_ordered(
    s: Seq<ProtoNode>,
    slot: Slot,
    root: Hash256,
    parent_root: Hash256,
    block_justified: Checkpoint,
    block_finalized: Checkpoint,
    deltas: Seq<(usize, i64)>,
    finalized_root: Hash256,
)
    requires
        store_wf(s),
        slots_ordered(s),
    ensures
        insert_outcome(s, root, parent_root) is Ok && s[index_of(s, parent_root)].slot.0 <= slot.0
            ==> slots_ordered(
            with_block(s, slot, root, parent_root, block_justified, block_finalized),
        ),
        slots_ordered(propagated(s, deltas)),
        contains_root(s, finalized_root) ==> slots_ordered(
            pruned(s, index_of(s, finalized_root)),
        ),
{
    if insert_outcome(s, root, parent_root) is Ok && s[index_of(s, parent_root)].slot.0 <= slot.0 {
        let t = with_block(s, slot, root, parent_root, block_justified, block_finalized);
        lemma_index_of_in_range(s, parent_root);
        assert forall|i: int| 0 < i < t.len() implies #[trigger] edge_ordered(t, i) by {
            if i < s.len() {
                assert(t[i] == s[i]);
                assert(edge_ordered(s, i));
                assert(s[i].parent is Some && s[i].parent->0 < i);
                assert(t[s[i].parent->0 as int] == s[s[i].parent->0 as int]);
            }
        }
    }
    let t = propagated(s, deltas);
    assert forall|i: int| 0 < i < t.len() implies #[trigger] edge_ordered(t, i) by {
        assert(edge_ordered(s, i));
        assert(s[i].parent is Some && s[i].parent->0 < i);
    }
    if contains_root(s, finalized_root) {
        let f = index_of(s, finalized_root);
        lemma_index_of_in_range(s, finalized_root);
        let p = pruned(s, f);
        lemma_pruned_wf(s, f);
        assert forall|m: int| 0 < m < p.len() implies #[trigger] edge_ordered(p, m) by {
            lemma_origin(s, f, m);
            let i = origin(s, f, m);
            assert(i != f) by {
                lemma_rank_bounds(s, f, f);
            }
            lemma_subtree_bounds(s, f, i);
            assert(s[i].parent is Some && s[i].parent->0 < i);
            let q = s[i].parent->0 as int;
            assert(edge_ordered(s, i));
            assert(in_subtree(s, f, q));
            lemma_pruned_at(s, f, s.len() as int, q);
            lemma_rank_bounds(s, f, q);
        }
    }
}

} // verus!
