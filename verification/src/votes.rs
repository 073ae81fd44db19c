use vstd::prelude::*;
use crate::checkpoint::Epoch;
use crate::hash::Hash256;
use crate::node::ProtoNode;
use crate::prune::{
    lemma_origin, lemma_pruned_ancestry, lemma_pruned_roots, lemma_pruned_wf, origin, pruned,
};
use crate::tree::{
    contains_root, in_subtree, index_of, lemma_index_of_in_range, lemma_index_of_unique,
    lemma_same_shape, lemma_subtree_bounds, lemma_subtree_same_parents, lemma_subtree_trans,
    same_shape, store_wf, tree_wf,
};
use crate::weights::{lemma_sum_push, selected_sum};

verus! {

/// The latest vote of one validator, in two versions: the one that the weights
/// of the tree account for (`current_*`), and the one reported since
/// (`next_*`), which the next head search commits.
#[derive(Clone, Copy, Debug, PartialEq, Eq, Structural)]
pub struct VoteTracker {
    /// The block that the weights count this validator for; `None` for none.
    pub current_root: Option<Hash256>,
    pub current_epoch: Epoch,
    /// The balance that the weights count this validator with.
    pub current_balance: u64,
    /// The block of the validator's latest vote; `None` before the first.
    pub next_root: Option<Hash256>,
    pub next_epoch: Epoch,
    /// The balance reported with the latest vote, or used at the last commit.
    pub next_balance: u64,
}

impl VoteTracker {
    /// The tracker of a validator that has not voted.
    pub open spec fn spec_empty() -> VoteTracker {
        VoteTracker {
            current_root: None,
            current_epoch: Epoch(0),
            current_balance: 0,
            next_root: None,
            next_epoch: Epoch(0),
            next_balance: 0,
        }
    }

    /// The tracker of a validator that has not voted.
    #[verifier::when_used_as_spec(spec_empty)]
    pub fn empty() -> (t: VoteTracker)
        ensures
            t == VoteTracker::spec_empty(),
    {
        VoteTracker {
            current_root: None,
            current_epoch: Epoch(0),
            current_balance: 0,
            next_root: None,
            next_epoch: Epoch(0),
            next_balance: 0,
        }
    }
}

/// The root names a node of the tree.
pub open spec fn resolves(s: Seq<ProtoNode>, root: Option<Hash256>) -> bool {
    root matches Some(r) && contains_root(s, r)
}

/// What one validator adds to the weight of node `n`: its current balance if
/// its current vote is for `n` or a descendant of `n`, else nothing.
pub open spec fn vote_term(s: Seq<ProtoNode>, vote: VoteTracker, n: int) -> int {
    match vote.current_root {
        Some(r) => if contains_root(s, r) && in_subtree(s, n, index_of(s, r)) {
            vote.current_balance as int
        } else {
            0
        },
        None => 0,
    }
}

/// The total balance of the validators whose current vote is for node `n` or
/// for a descendant of it.
pub open spec fn vote_weight(s: Seq<ProtoNode>, votes: Seq<VoteTracker>, n: int) -> int
    decreases votes.len(),
{
    if votes.len() == 0 {
        0
    } else {
        vote_weight(s, votes.drop_last(), n) + vote_term(s, votes.last(), n)
    }
}

/// The balance of validator `v` in a list of balances; 0 for a validator that
/// the list does not reach.
pub open spec fn balance_of(balances: Seq<u64>, v: int) -> u64 {
    if 0 <= v < balances.len() {
        balances[v]
    } else {
        0
    }
}

/// A tracker after its latest vote is committed with balance `b`: the latest
/// vote becomes the current one. A vote for a block that is not in the tree
/// counts with balance 0.
pub open spec fn committed_vote(s: Seq<ProtoNode>, vote: VoteTracker, b: u64) -> VoteTracker {
    VoteTracker {
        current_root: vote.next_root,
        current_epoch: vote.next_epoch,
        current_balance: if resolves(s, vote.next_root) {
            b
        } else {
            0
        },
        next_root: vote.next_root,
        next_epoch: vote.next_epoch,
        next_balance: b,
    }
}

/// All trackers after their latest votes are committed with `balances`.
pub open spec fn committed(s: Seq<ProtoNode>, votes: Seq<VoteTracker>, balances: Seq<u64>) -> Seq<
    VoteTracker,
> {
    Seq::new(votes.len(), |v: int| committed_vote(s, votes[v], balance_of(balances, v)))
}

/// The trackers after validator `v` votes for `root` in `epoch` with balance
/// `balance`. The list grows to reach `v`, with empty trackers in between; only
/// the latest vote of `v` changes.
pub open spec fn with_vote(
    votes: Seq<VoteTracker>,
    v: int,
    root: Hash256,
    epoch: Epoch,
    balance: u64,
) -> Seq<VoteTracker> {
    Seq::new(
        if v < votes.len() {
            votes.len()
        } else {
            (v + 1) as nat
        },
        |i: int|
            {
                let before = if i < votes.len() {
                    votes[i]
                } else {
                    VoteTracker::spec_empty()
                };
                if i == v {
                    VoteTracker {
                        current_root: before.current_root,
                        current_epoch: before.current_epoch,
                        current_balance: before.current_balance,
                        next_root: Some(root),
                        next_epoch: epoch,
                        next_balance: balance,
                    }
                } else {
                    before
                }
            },
    )
}

/// A vote for a block that is not in the tree counts with balance 0.
pub open spec fn votes_wf(s: Seq<ProtoNode>, votes: Seq<VoteTracker>) -> bool {
    forall|v: int|
        0 <= v < votes.len() && !resolves(s, (#[trigger] votes[v]).current_root)
            ==> votes[v].current_balance == 0
}

/// Every node's weight is the total balance of the votes for it and for its
/// descendants.
pub open spec fn weights_match(s: Seq<ProtoNode>, votes: Seq<VoteTracker>) -> bool {
    forall|n: int| 0 <= n < s.len() ==> (#[trigger] s[n]).weight == vote_weight(s, votes, n)
}

/// The weight of a node with one more validator.
pub proof fn lemma_vote_weight_push(
    s: Seq<ProtoNode>,
    votes: Seq<VoteTracker>,
    vote: VoteTracker,
    n: int,
)
    ensures
        vote_weight(s, votes.push(vote), n) == vote_weight(s, votes, n) + vote_term(s, vote, n),
{
    assert(votes.push(vote).drop_last() =~= votes);
    assert(votes.push(vote).last() == vote);
}

/// The weight that the first `k + 1` validators give, from that of the first
/// `k`.
pub proof fn lemma_vote_weight_take_step(
    s: Seq<ProtoNode>,
    votes: Seq<VoteTracker>,
    k: int,
    n: int,
)
    requires
        0 <= k < votes.len(),
    ensures
        vote_weight(s, votes.take(k + 1), n) == vote_weight(s, votes.take(k), n) + vote_term(
            s,
            votes[k],
            n,
        ),
{
    assert(votes.take(k + 1).drop_last() =~= votes.take(k));
    assert(votes.take(k + 1).last() == votes[k]);
}

/// No weight is negative.
pub proof fn lemma_vote_weight_nonneg(s: Seq<ProtoNode>, votes: Seq<VoteTracker>, n: int)
    ensures
        vote_weight(s, votes, n) >= 0,
    decreases votes.len(),
{
    if votes.len() > 0 {
        lemma_vote_weight_nonneg(s, votes.drop_last(), n);
    }
}

/// Two lists of trackers that add the same, validator by validator, to a node
/// of one tree and a node of another give the two nodes the same weight.
pub proof fn lemma_vote_weight_same(
    s1: Seq<ProtoNode>,
    votes1: Seq<VoteTracker>,
    n1: int,
    s2: Seq<ProtoNode>,
    votes2: Seq<VoteTracker>,
    n2: int,
)
    requires
        votes1.len() == votes2.len(),
        forall|v: int|
            0 <= v < votes1.len() ==> vote_term(s1, #[trigger] votes1[v], n1) == vote_term(
                s2,
                votes2[v],
                n2,
            ),
    ensures
        vote_weight(s1, votes1, n1) == vote_weight(s2, votes2, n2),
    decreases votes1.len(),
{
    if votes1.len() > 0 {
        let a = votes1.drop_last();
        let b = votes2.drop_last();
        assert forall|v: int| 0 <= v < a.len() implies vote_term(s1, #[trigger] a[v], n1)
            == vote_term(s2, b[v], n2) by {
            assert(a[v] == votes1[v] && b[v] == votes2[v]);
        }
        lemma_vote_weight_same(s1, a, n1, s2, b, n2);
        assert(votes1.last() == votes1[votes1.len() - 1]);
        assert(votes2.last() == votes2[votes2.len() - 1]);
    }
}

/// Where every validator adds to one node at most what it adds to another,
/// the first node weighs at most what the second does.
pub proof fn lemma_vote_weight_le(s: Seq<ProtoNode>, votes: Seq<VoteTracker>, n1: int, n2: int)
    requires
        forall|v: int|
            0 <= v < votes.len() ==> vote_term(s, #[trigger] votes[v], n1) <= vote_term(
                s,
                votes[v],
                n2,
            ),
    ensures
        vote_weight(s, votes, n1) <= vote_weight(s, votes, n2),
    decreases votes.len(),
{
    if votes.len() > 0 {
        let a = votes.drop_last();
        assert forall|v: int| 0 <= v < a.len() implies vote_term(s, #[trigger] a[v], n1)
            <= vote_term(s, a[v], n2) by {
            assert(a[v] == votes[v]);
        }
        lemma_vote_weight_le(s, a, n1, n2);
        assert(votes.last() == votes[votes.len() - 1]);
    }
}

/// Where no validator adds to a node, its weight is 0.
pub proof fn lemma_vote_weight_zero(s: Seq<ProtoNode>, votes: Seq<VoteTracker>, n: int)
    requires
        forall|v: int| 0 <= v < votes.len() ==> vote_term(s, #[trigger] votes[v], n) == 0,
    ensures
        vote_weight(s, votes, n) == 0,
    decreases votes.len(),
{
    if votes.len() > 0 {
        let a = votes.drop_last();
        assert forall|v: int| 0 <= v < a.len() implies vote_term(s, #[trigger] a[v], n) == 0 by {
            assert(a[v] == votes[v]);
        }
        lemma_vote_weight_zero(s, a, n);
        assert(votes.last() == votes[votes.len() - 1]);
    }
}

/// The weights that the votes give do not depend on the weights and pointers
/// that the tree holds.
pub proof fn lemma_vote_weight_same_shape(
    s: Seq<ProtoNode>,
    t: Seq<ProtoNode>,
    votes: Seq<VoteTracker>,
    n: int,
)
    requires
        tree_wf(s),
        same_shape(s, t),
    ensures
        vote_weight(s, votes, n) == vote_weight(t, votes, n),
        votes_wf(s, votes) == votes_wf(t, votes),
{
    assert forall|v: int| 0 <= v < votes.len() implies vote_term(s, #[trigger] votes[v], n)
        == vote_term(t, votes[v], n) by {
        match votes[v].current_root {
            Some(r) => {
                lemma_same_shape(s, t, r, n, index_of(s, r));
            },
            None => {},
        }
    }
    lemma_vote_weight_same(s, votes, n, t, votes, n);
    assert forall|v: int| 0 <= v < votes.len() implies resolves(s, (#[trigger] votes[v]).current_root)
        == resolves(t, votes[v].current_root) by {
        match votes[v].current_root {
            Some(r) => {
                lemma_same_shape(s, t, r, 0, 0);
            },
            None => {},
        }
    }
}

/// A new block without weight, added to a tree whose weights are those that
/// the votes give, leaves it such a tree.
pub proof fn lemma_insert_keeps_votes(s: Seq<ProtoNode>, votes: Seq<VoteTracker>, node: ProtoNode)
    requires
        store_wf(s),
        tree_wf(s.push(node)),
        votes_wf(s, votes),
        weights_match(s, votes),
        node.weight == 0,
    ensures
        votes_wf(s.push(node), votes),
        weights_match(s.push(node), votes),
{
    let t = s.push(node);
    let m = s.len() as int;
    assert forall|r: Hash256| contains_root(s, r) implies contains_root(t, r) && index_of(t, r)
        == index_of(s, r) by {
        let i = index_of(s, r);
        assert(t[i] == s[i]);
        lemma_index_of_unique(t, i);
    }
    assert forall|v: int|
        0 <= v < votes.len() && !resolves(t, (#[trigger] votes[v]).current_root)
            implies votes[v].current_balance == 0 by {
        assert(!resolves(s, votes[v].current_root));
    }
    assert forall|n: int| 0 <= n < t.len() implies (#[trigger] t[n]).weight == vote_weight(
        t,
        votes,
        n,
    ) by {
        if n < m {
            assert(t[n] == s[n]);
            assert forall|v: int| 0 <= v < votes.len() implies vote_term(s, #[trigger] votes[v], n)
                == vote_term(t, votes[v], n) by {
                match votes[v].current_root {
                    Some(r) => {
                        if contains_root(s, r) {
                            let i = index_of(s, r);
                            assert forall|k: int| 0 <= k <= i implies (#[trigger] s[k]).parent == (
                            #[trigger] t[k]).parent by {}
                            lemma_subtree_same_parents(s, t, n, i);
                        } else {
                            assert(!resolves(s, votes[v].current_root));
                        }
                    },
                    None => {},
                }
            }
            lemma_vote_weight_same(s, votes, n, t, votes, n);
            assert(s[n].weight == vote_weight(s, votes, n));
        } else {
            assert forall|v: int| 0 <= v < votes.len() implies vote_term(t, #[trigger] votes[v], n)
                == 0 by {
                match votes[v].current_root {
                    Some(r) => {
                        if contains_root(s, r) {
                            let i = index_of(s, r);
                            if in_subtree(t, n, i) {
                                lemma_subtree_bounds(t, n, i);
                            }
                        } else {
                            assert(!resolves(s, votes[v].current_root));
                        }
                    },
                    None => {},
                }
            }
            lemma_vote_weight_zero(t, votes, n);
        }
    }
}

/// The root names a node that pruning to the subtree of `f` removes.
pub open spec fn removed_by(s: Seq<ProtoNode>, f: int, root: Option<Hash256>) -> bool {
    root matches Some(r) && contains_root(s, r) && !in_subtree(s, f, index_of(s, r))
}

/// A tracker after pruning to the subtree of `f`: a vote for a node that was
/// removed is forgotten, the current one and the latest one each by itself.
pub open spec fn pruned_vote(s: Seq<ProtoNode>, f: int, vote: VoteTracker) -> VoteTracker {
    let keep_current = !removed_by(s, f, vote.current_root);
    let keep_next = !removed_by(s, f, vote.next_root);
    VoteTracker {
        current_root: if keep_current {
            vote.current_root
        } else {
            None
        },
        current_epoch: if keep_current {
            vote.current_epoch
        } else {
            Epoch(0)
        },
        current_balance: if keep_current {
            vote.current_balance
        } else {
            0
        },
        next_root: if keep_next {
            vote.next_root
        } else {
            None
        },
        next_epoch: if keep_next {
            vote.next_epoch
        } else {
            Epoch(0)
        },
        next_balance: if keep_next {
            vote.next_balance
        } else {
            0
        },
    }
}

/// All trackers after pruning to the subtree of `f`.
pub open spec fn pruned_votes(s: Seq<ProtoNode>, f: int, votes: Seq<VoteTracker>) -> Seq<
    VoteTracker,
> {
    Seq::new(votes.len(), |v: int| pruned_vote(s, f, votes[v]))
}

/// Pruning a tree whose weights are those that the votes give, and forgetting
/// the votes for what was removed, leaves it such a tree.
pub proof fn lemma_prune_keeps_votes(s: Seq<ProtoNode>, votes: Seq<VoteTracker>, f: int)
    requires
        store_wf(s),
        0 <= f < s.len(),
        votes_wf(s, votes),
        weights_match(s, votes),
    ensures
        votes_wf(pruned(s, f), pruned_votes(s, f, votes)),
        weights_match(pruned(s, f), pruned_votes(s, f, votes)),
{
    let p = pruned(s, f);
    let pv = pruned_votes(s, f, votes);
    lemma_pruned_wf(s, f);
    assert forall|v: int|
        0 <= v < pv.len() && !resolves(p, (#[trigger] pv[v]).current_root)
            implies pv[v].current_balance == 0 by {
        match votes[v].current_root {
            Some(r) => {
                lemma_pruned_roots(s, f, r);
                if !removed_by(s, f, votes[v].current_root) {
                    assert(!resolves(s, votes[v].current_root));
                }
            },
            None => {},
        }
    }
    assert forall|m: int| 0 <= m < p.len() implies (#[trigger] p[m]).weight == vote_weight(
        p,
        pv,
        m,
    ) by {
        lemma_origin(s, f, m);
        let i = origin(s, f, m);
        assert forall|v: int| 0 <= v < votes.len() implies vote_term(s, #[trigger] votes[v], i)
            == vote_term(p, pv[v], m) by {
            match votes[v].current_root {
                Some(r) => {
                    lemma_pruned_roots(s, f, r);
                    if contains_root(s, r) {
                        let t = index_of(s, r);
                        lemma_index_of_in_range(s, r);
                        if in_subtree(s, f, t) {
                            lemma_pruned_ancestry(s, f, i, t);
                        } else {
                            if in_subtree(s, i, t) {
                                lemma_subtree_trans(s, f, i, t);
                            }
                        }
                    }
                },
                None => {},
            }
        }
        lemma_vote_weight_same(s, votes, i, p, pv, m);
        assert(s[i].weight == vote_weight(s, votes, i));
    }
}

/// `amount` with a sign.
pub open spec fn signed(amount: u64, negative: bool) -> int {
    if negative {
        -(amount as int)
    } else {
        amount as int
    }
}

/// Appends to `deltas` the change of the weight of node `index` by `amount`,
/// upwards or downwards. An amount that no single delta can hold is given in
/// several.
pub(crate) fn push_amount(deltas: &mut Vec<(usize, i64)>, index: usize, amount: u64, negative: bool)
    ensures
        forall|pred: spec_fn(usize) -> bool| #[trigger]
            selected_sum(final(deltas)@, pred) == selected_sum(old(deltas)@, pred) + if pred(
                index,
            ) {
                signed(amount, negative)
            } else {
                0
            },
        forall|k: int|
            0 <= k < final(deltas)@.len() ==> (#[trigger] final(deltas)@[k]).0 == index || (k < old(
                deltas,
            )@.len() && final(deltas)@[k] == old(deltas)@[k]),
{
    let mut rest: u64 = amount;
    while rest > 0
        invariant
            rest <= amount,
            forall|pred: spec_fn(usize) -> bool| #[trigger]
                selected_sum(deltas@, pred) == selected_sum(old(deltas)@, pred) + if pred(index) {
                    signed((amount - rest) as u64, negative)
                } else {
                    0
                },
            forall|k: int|
                0 <= k < deltas@.len() ==> (#[trigger] deltas@[k]).0 == index || (k < old(
                    deltas,
                )@.len() && deltas@[k] == old(deltas)@[k]),
        decreases rest,
    {
        let part: u64 = if rest > 0x7fff_ffff_ffff_ffff {
            0x7fff_ffff_ffff_ffff
        } else {
            rest
        };
        let d: i64 = if negative {
            -(part as i64)
        } else {
            part as i64
        };
        let ghost before = deltas@;
        deltas.push((index, d));
        proof {
            assert forall|pred: spec_fn(usize) -> bool| #[trigger]
                selected_sum(deltas@, pred) == selected_sum(old(deltas)@, pred) + if pred(index) {
                    signed((amount - (rest - part)) as u64, negative)
                } else {
                    0
                } by {
                lemma_sum_push(before, (index, d), pred);
                assert(selected_sum(before, pred) == selected_sum(old(deltas)@, pred) + if pred(
                    index,
                ) {
                    signed((amount - rest) as u64, negative)
                } else {
                    0
                });
            }
        }
        rest = rest - part;
    }
}

} // verus!
