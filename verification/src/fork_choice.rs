use vstd::prelude::*;
use crate::best::{refreshed, with_weights};
use crate::checkpoint::{Checkpoint, Epoch, Slot};
use crate::error::Error;
use crate::hash::Hash256;
use crate::head::head_outcome;
use crate::node::ProtoNode;
use crate::proto_array::{anchor_node, insert_outcome, prune_outcome, with_block, ProtoArray};
use crate::prune::pruned;
use crate::tree::{contains_root, index_of, lemma_same_shape, same_shape, store_wf};
use crate::votes::{
    balance_of, committed, committed_vote, lemma_insert_keeps_votes, lemma_prune_keeps_votes,
    lemma_vote_weight_nonneg, lemma_vote_weight_push, lemma_vote_weight_same,
    lemma_vote_weight_same_shape, lemma_vote_weight_take_step, pruned_vote, pruned_votes,
    push_amount, removed_by, resolves, vote_term, vote_weight, votes_wf, weights_match,
    with_vote,
    VoteTracker,
};
use crate::weights::{
    deltas_in_range, new_weight, reweighted, selected_sum, subtree_delta, weights_fit, within,
};

verus! {

/// The fork-choice engine: the block tree together with the latest vote of
/// every validator.
pub struct ForkChoice {
    proto_array: ProtoArray,
    votes: Vec<VoteTracker>,
}

/// What every operation of the engine keeps true: the tree is well formed, and
/// the weight of every node is the total balance of the validators whose
/// current vote is for the node or for a descendant of it.
pub open spec fn engine_wf(s: Seq<ProtoNode>, votes: Seq<VoteTracker>) -> bool {
    store_wf(s) && votes_wf(s, votes) && weights_match(s, votes)
}

/// Every weight that the votes give is one that a node can hold.
pub open spec fn vote_weights_fit(s: Seq<ProtoNode>, votes: Seq<VoteTracker>) -> bool {
    forall|n: int| 0 <= n < s.len() ==> #[trigger] vote_weight(s, votes, n) <= u64::MAX
}

/// The weights that the votes give to the nodes.
pub open spec fn vote_weights(s: Seq<ProtoNode>, votes: Seq<VoteTracker>) -> Seq<u64> {
    Seq::new(s.len(), |n: int| vote_weight(s, votes, n) as u64)
}

/// The tree with the weights that the votes give and with every cached pointer
/// up to date.
pub open spec fn settled(s: Seq<ProtoNode>, votes: Seq<VoteTracker>) -> Seq<ProtoNode> {
    refreshed(with_weights(s, vote_weights(s, votes)))
}

/// The result of a head search by the engine.
///
/// A justified root that is not in the tree is refused. Else the latest votes
/// are committed with the given balances; if the weights that they give cannot
/// be held, the search is refused. Else the head is searched in the tree with
/// these weights.
pub open spec fn find_head_outcome(
    s: Seq<ProtoNode>,
    votes: Seq<VoteTracker>,
    justified: Checkpoint,
    finalized: Checkpoint,
    balances: Seq<u64>,
) -> Result<Hash256, Error> {
    if !contains_root(s, justified.root) {
        Err(Error::UnknownJustifiedBlock)
    } else if !vote_weights_fit(s, committed(s, votes, balances)) {
        Err(Error::WeightOverflow)
    } else {
        head_outcome(settled(s, committed(s, votes, balances)), justified, finalized)
    }
}

impl ForkChoice {
    /// The nodes of the block tree, in insertion order.
    pub closed spec fn nodes(&self) -> Seq<ProtoNode> {
        self.proto_array@
    }

    /// The vote trackers, by validator index.
    pub closed spec fn votes(&self) -> Seq<VoteTracker> {
        self.votes@
    }

    /// The tree's table from roots to positions is in order and complete.
    pub closed spec fn indexed(&self) -> bool {
        self.proto_array.wf()
    }

    /// The invariant of the engine.
    pub open spec fn wf(&self) -> bool {
        engine_wf(self.nodes(), self.votes()) && self.indexed()
    }

    /// An engine whose tree holds only the anchor, without votes.
    pub fn new(
        finalized_block_slot: Slot,
        finalized_root: Hash256,
        justified_checkpoint: Checkpoint,
        finalized_checkpoint: Checkpoint,
    ) -> (fc: ForkChoice)
        ensures
            fc.wf(),
            fc.nodes() == seq![
                anchor_node(
                    finalized_block_slot,
                    finalized_root,
                    justified_checkpoint,
                    finalized_checkpoint,
                ),
            ],
            fc.votes() == Seq::<VoteTracker>::empty(),
    {
        let proto_array = ProtoArray::new(
            finalized_block_slot,
            finalized_root,
            justified_checkpoint,
            finalized_checkpoint,
        );
        let fc = ForkChoice { proto_array, votes: Vec::new() };
        proof {
            assert(fc.votes@ =~= Seq::<VoteTracker>::empty());
            assert(fc.proto_array@[0].weight == 0);
        }
        fc
    }

    /// The block tree.
    pub fn proto_array(&self) -> (p: &ProtoArray)
        ensures
            p@ == self.nodes(),
            self.wf() ==> p.wf(),
    {
        &self.proto_array
    }

    /// The tracker of validator `validator_index`, if the engine has one.
    pub fn vote(&self, validator_index: usize) -> (r: Option<VoteTracker>)
        ensures
            r == if validator_index < self.votes().len() {
                Some(self.votes()[validator_index as int])
            } else {
                None
            },
    {
        if validator_index < self.votes.len() {
            Some(self.votes[validator_index])
        } else {
            None
        }
    }

    /// Adds a block to the tree, as [`ProtoArray::insert_block`] does. The
    /// votes stay as they are.
    pub fn insert_block(
        &mut self,
        slot: Slot,
        root: Hash256,
        parent_root: Hash256,
        justified_checkpoint: Checkpoint,
        finalized_checkpoint: Checkpoint,
    ) -> (r: Result<(), Error>)
        requires
            old(self).wf(),
        ensures
            final(self).wf(),
            final(self).votes() == old(self).votes(),
            r == insert_outcome(old(self).nodes(), root, parent_root),
            r is Ok ==> final(self).nodes() == with_block(
                old(self).nodes(),
                slot,
                root,
                parent_root,
                justified_checkpoint,
                finalized_checkpoint,
            ),
            r is Err ==> final(self).nodes() == old(self).nodes(),
    {
        let r = self.proto_array.insert_block(
            slot,
            root,
            parent_root,
            justified_checkpoint,
            finalized_checkpoint,
        );
        proof {
            if r is Ok {
                let s = old(self).proto_array@;
                let t = self.proto_array@;
                lemma_insert_keeps_votes(s, self.votes@, t.last());
                assert(t =~= s.push(t.last()));
            }
        }
        r
    }

    /// Records that validator `validator_index` now votes for the block with
    /// root `new_target_root`, in epoch `new_target_epoch`, with balance
    /// `new_balance`.
    ///
    /// The vote replaces the validator's latest vote and does not touch the
    /// weights: the next head search commits it. A validator that the engine
    /// has not seen gets a tracker, and so does every validator before it. The
    /// block need not be in the tree; a vote for a block that is not counts for
    /// nothing. This never fails.
    pub fn process_vote_change(
        &mut self,
        validator_index: usize,
        new_target_root: Hash256,
        new_target_epoch: Epoch,
        new_balance: u64,
    ) -> (r: Result<(), Error>)
        requires
            old(self).wf(),
        ensures
            final(self).wf(),
            r is Ok,
            final(self).nodes() == old(self).nodes(),
            final(self).votes() == with_vote(
                old(self).votes(),
                validator_index as int,
                new_target_root,
                new_target_epoch,
                new_balance,
            ),
    {
        let ghost s = self.proto_array@;
        let ghost before = self.votes@;
        while self.votes.len() <= validator_index
            invariant
                self.proto_array@ == s,
                self.proto_array.wf(),
                before.len() <= self.votes@.len(),
                self.votes@.len() <= validator_index + 1 || self.votes@.len() == before.len(),
                forall|i: int| 0 <= i < before.len() ==> self.votes@[i] == before[i],
                forall|i: int|
                    before.len() <= i < self.votes@.len() ==> self.votes@[i]
                        == VoteTracker::spec_empty(),
                votes_wf(s, self.votes@),
                weights_match(s, self.votes@),
            decreases validator_index + 1 - self.votes@.len(),
        {
            let ghost prev = self.votes@;
            self.votes.push(VoteTracker::empty());
            proof {
                assert forall|n: int| 0 <= n < s.len() implies (#[trigger] s[n]).weight
                    == vote_weight(s, self.votes@, n) by {
                    lemma_vote_weight_push(s, prev, VoteTracker::spec_empty(), n);
                }
            }
        }
        let vote = self.votes[validator_index];
        let ghost prev = self.votes@;
        self.votes.set(
            validator_index,
            VoteTracker {
                current_root: vote.current_root,
                current_epoch: vote.current_epoch,
                current_balance: vote.current_balance,
                next_root: Some(new_target_root),
                next_epoch: new_target_epoch,
                next_balance: new_balance,
            },
        );
        proof {
            assert forall|n: int| 0 <= n < s.len() implies (#[trigger] s[n]).weight == vote_weight(
                s,
                self.votes@,
                n,
            ) by {
                lemma_vote_weight_same(s, prev, n, s, self.votes@, n);
            }
            assert(self.votes@ =~= with_vote(
                before,
                validator_index as int,
                new_target_root,
                new_target_epoch,
                new_balance,
            ));
        }
        Ok(())
    }

    /// Finds the head of the chain.
    ///
    /// The justified root must be in the tree, else the search is refused with
    /// `UnknownJustifiedBlock`. Every validator's latest vote is committed
    /// with its balance in `justified_state_balances` (0 for a validator that
    /// the list does not reach), so that each node's weight becomes the total
    /// balance of the votes for it and its descendants; should a weight not
    /// fit, the search is refused with `WeightOverflow`. Then the cached
    /// pointers are brought up to date and the head is searched as
    /// [`ProtoArray::find_head`] does. A refused search changes nothing.
    pub fn find_head(
        &mut self,
        justified_checkpoint: Checkpoint,
        finalized_checkpoint: Checkpoint,
        justified_state_balances: &Vec<u64>,
    ) -> (r: Result<Hash256, Error>)
        requires
            old(self).wf(),
        ensures
            final(self).wf(),
            r == find_head_outcome(
                old(self).nodes(),
                old(self).votes(),
                justified_checkpoint,
                finalized_checkpoint,
                justified_state_balances@,
            ),
            r is Ok ==> final(self).votes() == committed(
                old(self).nodes(),
                old(self).votes(),
                justified_state_balances@,
            ) && final(self).nodes() == settled(old(self).nodes(), final(self).votes()),
            r is Err ==> final(self).nodes() == old(self).nodes() && final(self).votes() == old(
                self,
            ).votes(),
    {
        if !self.proto_array.contains(&justified_checkpoint.root) {
            return Err(Error::UnknownJustifiedBlock);
        }
        let ghost s = self.proto_array@;
        let ghost ov = self.votes@;
        let ghost bal = justified_state_balances@;
        let nv = self.votes.len();
        let mut deltas: Vec<(usize, i64)> = Vec::new();
        let mut new_votes: Vec<VoteTracker> = Vec::new();
        let mut v: usize = 0;
        proof {
            assert(ov.take(0) =~= Seq::<VoteTracker>::empty());
        }
        while v < nv
            invariant
                s == self.proto_array@,
                ov == self.votes@,
                bal == justified_state_balances@,
                nv == ov.len(),
                v <= nv,
                self.proto_array.wf(),
                votes_wf(s, ov),
                new_votes@.len() == v,
                forall|k: int|
                    0 <= k < v ==> #[trigger] new_votes@[k] == committed_vote(
                        s,
                        ov[k],
                        balance_of(bal, k),
                    ),
                deltas_in_range(deltas@, s.len()),
                forall|n: int|
                    0 <= n < s.len() ==> vote_weight(s, new_votes@, n) == vote_weight(
                        s,
                        ov.take(v as int),
                        n,
                    ) + #[trigger] subtree_delta(s, deltas@, n),
            decreases nv - v,
        {
            let vote = self.votes[v];
            let b = if v < justified_state_balances.len() {
                justified_state_balances[v]
            } else {
                0
            };
            let ghost d0 = deltas@;
            let next_index = self.position_of(&vote.next_root);
            let applied: u64 = if next_index.is_some() {
                b
            } else {
                0
            };
            let same_root = vote.current_root == vote.next_root;
            // A validator whose vote and balance are as they were changes no
            // weight.
            if !(same_root && vote.current_balance == applied) {
                let current_index = if same_root {
                    next_index
                } else {
                    self.position_of(&vote.current_root)
                };
                match current_index {
                    Some(i) => {
                        push_amount(&mut deltas, i, vote.current_balance, true);
                    },
                    None => {},
                }
            }
            let ghost d1 = deltas@;
            if !(same_root && vote.current_balance == applied) {
                match next_index {
                    Some(i) => {
                        push_amount(&mut deltas, i, b, false);
                    },
                    None => {},
                }
            }
            let cv = VoteTracker {
                current_root: vote.next_root,
                current_epoch: vote.next_epoch,
                current_balance: applied,
                next_root: vote.next_root,
                next_epoch: vote.next_epoch,
                next_balance: b,
            };
            let ghost nv0 = new_votes@;
            new_votes.push(cv);
            proof {
                assert(cv == committed_vote(s, ov[v as int], balance_of(bal, v as int)));
                assert forall|n: int| 0 <= n < s.len() implies vote_weight(s, new_votes@, n)
                    == vote_weight(s, ov.take(v + 1), n) + #[trigger] subtree_delta(
                    s,
                    deltas@,
                    n,
                ) by {
                    lemma_vote_weight_push(s, nv0, cv, n);
                    lemma_vote_weight_take_step(s, ov, v as int, n);
                    assert(vote_weight(s, nv0, n) == vote_weight(s, ov.take(v as int), n)
                        + subtree_delta(s, d0, n));
                    if same_root && vote.current_balance == applied {
                        assert(vote_term(s, cv, n) == vote_term(s, vote, n));
                    } else {
                        assert(selected_sum(d1, within(s, n)) == selected_sum(d0, within(s, n))
                            - vote_term(s, vote, n));
                        assert(selected_sum(deltas@, within(s, n)) == selected_sum(
                            d1,
                            within(s, n),
                        ) + vote_term(s, cv, n));
                    }
                }
                assert(deltas_in_range(deltas@, s.len())) by {
                    assert forall|k: int| 0 <= k < deltas@.len() implies (
                    #[trigger] deltas@[k]).0 < s.len() by {
                        if k < d0.len() && deltas@[k] == d0[k] {
                        } else if k < d1.len() && deltas@[k] == d1[k] {
                            assert(d1[k].0 < s.len());
                        }
                    }
                }
            }
            v += 1;
        }
        proof {
            assert(ov.take(nv as int) =~= ov);
            assert(new_votes@ =~= committed(s, ov, bal));
            assert forall|n: int| 0 <= n < s.len() implies #[trigger] new_weight(s, deltas@, n)
                == vote_weight(s, new_votes@, n) by {
                assert(s[n].weight == vote_weight(s, ov, n));
            }
            assert(weights_fit(s, deltas@) == vote_weights_fit(s, new_votes@)) by {
                if weights_fit(s, deltas@) {
                    assert forall|n: int| 0 <= n < s.len() implies #[trigger] vote_weight(
                        s,
                        new_votes@,
                        n,
                    ) <= u64::MAX by {
                        assert(0 <= new_weight(s, deltas@, n) <= u64::MAX);
                    }
                }
                if vote_weights_fit(s, new_votes@) {
                    assert forall|n: int| 0 <= n < s.len() implies 0 <= #[trigger] new_weight(
                        s,
                        deltas@,
                        n,
                    ) <= u64::MAX by {
                        lemma_vote_weight_nonneg(s, new_votes@, n);
                        assert(vote_weight(s, new_votes@, n) <= u64::MAX);
                    }
                }
            }
        }
        match self.proto_array.apply_deltas(&deltas) {
            Err(e) => Err(e),
            Ok(()) => {
                proof {
                    let t = self.proto_array@;
                    assert(reweighted(s, deltas@) =~= with_weights(
                        s,
                        vote_weights(s, new_votes@),
                    ));
                    assert(t == settled(s, new_votes@));
                    assert(same_shape(s, t));
                    lemma_same_shape(s, t, justified_checkpoint.root, 0, 0);
                    assert forall|n: int| 0 <= n < t.len() implies (#[trigger] t[n]).weight
                        == vote_weight(t, new_votes@, n) by {
                        lemma_vote_weight_same_shape(s, t, new_votes@, n);
                        assert(0 <= new_weight(s, deltas@, n) <= u64::MAX);
                    }
                    lemma_vote_weight_same_shape(s, t, new_votes@, 0);
                    assert(votes_wf(s, new_votes@));
                }
                self.votes = new_votes;
                self.proto_array.find_head(justified_checkpoint, finalized_checkpoint)
            },
        }
    }

    /// Prunes the tree to the block with root `finalized_root`, as
    /// [`ProtoArray::prune`] does, and forgets the votes for the blocks that
    /// were removed: such a vote counts for nothing until the validator votes
    /// again.
    pub fn prune(&mut self, finalized_root: Hash256) -> (r: Result<(), Error>)
        requires
            old(self).wf(),
        ensures
            final(self).wf(),
            r == prune_outcome(old(self).nodes(), finalized_root),
            r is Ok ==> final(self).nodes() == pruned(
                old(self).nodes(),
                index_of(old(self).nodes(), finalized_root),
            ) && final(self).votes() == pruned_votes(
                old(self).nodes(),
                index_of(old(self).nodes(), finalized_root),
                old(self).votes(),
            ),
            r is Err ==> final(self).nodes() == old(self).nodes() && final(self).votes() == old(
                self,
            ).votes(),
    {
        let f = match self.proto_array.index_of(&finalized_root) {
            Some(f) => f,
            None => {
                return Err(Error::FinalizedNodeUnknown);
            },
        };
        let ghost s = self.proto_array@;
        let ghost ov = self.votes@;
        let nv = self.votes.len();
        let mut new_votes: Vec<VoteTracker> = Vec::new();
        let mut v: usize = 0;
        while v < nv
            invariant
                s == self.proto_array@,
                ov == self.votes@,
                nv == ov.len(),
                v <= nv,
                self.proto_array.wf(),
                f < s.len(),
                new_votes@.len() == v,
                forall|k: int|
                    0 <= k < v ==> #[trigger] new_votes@[k] == pruned_vote(s, f as int, ov[k]),
            decreases nv - v,
        {
            let vote = self.votes[v];
            let keep_current = !self.is_removed_by(f, &vote.current_root);
            let keep_next = !self.is_removed_by(f, &vote.next_root);
            new_votes.push(
                VoteTracker {
                    current_root: if keep_current {
                        vote.current_root
                    } else {
                        None
                    },
                    current_epoch: if keep_current {
                        vote.current_epoch
                    } else {
                        Epoch(0)
                    },
                    current_balance: if keep_current {
                        vote.current_balance
                    } else {
                        0
                    },
                    next_root: if keep_next {
                        vote.next_root
                    } else {
                        None
                    },
                    next_epoch: if keep_next {
                        vote.next_epoch
                    } else {
                        Epoch(0)
                    },
                    next_balance: if keep_next {
                        vote.next_balance
                    } else {
                        0
                    },
                },
            );
            v += 1;
        }
        proof {
            assert(new_votes@ =~= pruned_votes(s, f as int, ov));
            lemma_prune_keeps_votes(s, ov, f as int);
        }
        let r = self.proto_array.prune(finalized_root);
        self.votes = new_votes;
        r
    }

    /// The position of the block that a vote is for, if the vote is for a
    /// block of the tree.
    fn position_of(&self, root: &Option<Hash256>) -> (r: Option<usize>)
        requires
            self.proto_array.wf(),
        ensures
            r is Some <==> resolves(self.proto_array@, *root),
            r matches Some(i) ==> i < self.proto_array@.len() && i == index_of(
                self.proto_array@,
                root->0,
            ),
    {
        match root {
            Some(r) => self.proto_array.index_of(r),
            None => None,
        }
    }

    /// Whether `root` names a node that pruning to the node at position `f`
    /// removes.
    fn is_removed_by(&self, f: usize, root: &Option<Hash256>) -> (b: bool)
        requires
            self.proto_array.wf(),
        ensures
            b == removed_by(self.proto_array@, f as int, *root),
    {
        match root {
            Some(r) => match self.proto_array.index_of(r) {
                Some(t) => !self.proto_array.is_descendant(f, t),
                None => false,
            },
            None => false,
        }
    }
}

} // verus!
