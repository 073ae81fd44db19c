use proto_array::best::prefers;
use proto_array::checkpoint::{Checkpoint, Epoch, Slot};
use proto_array::error::Error;
use proto_array::fork_choice::ForkChoice;
use proto_array::hash::Hash256;
use proto_array::node::ProtoNode;
use proto_array::proto_array::ProtoArray;
use proto_array::votes::VoteTracker;

fn root(i: u64) -> Hash256 {
    Hash256::from_low_u64_be(i)
}

fn checkpoint(epoch: u64, r: u64) -> Checkpoint {
    Checkpoint {
        epoch: Epoch::new(epoch),
        root: root(r),
    }
}

fn genesis() -> Checkpoint {
    checkpoint(1, 0)
}

/// The tree
///
/// ```text
///         0
///        / \
///        2  1
///        |  |
///        4  3
/// ```
fn two_branches() -> ForkChoice {
    let mut fc = ForkChoice::new(Slot::new(0), root(0), genesis(), genesis());
    for (slot, r, parent) in [(1, 2, 0), (1, 1, 0), (2, 3, 1), (2, 4, 2)] {
        assert_eq!(
            fc.insert_block(Slot::new(slot), root(r), root(parent), genesis(), genesis()),
            Ok(())
        );
    }
    fc
}

fn weight(fc: &ForkChoice, r: u64) -> u64 {
    let array = fc.proto_array();
    let i = array.index_of(&root(r)).expect("the block is in the tree");
    array.node(i).expect("the position is in the tree").weight
}

#[test]
fn new_engine_has_the_anchor_as_head() {
    let mut fc = ForkChoice::new(Slot::new(0), root(0), genesis(), genesis());
    assert_eq!(fc.proto_array().len(), 1);
    assert_eq!(fc.find_head(genesis(), genesis(), &vec![0; 16]), Ok(root(0)));
    let anchor = fc.proto_array().node(0).unwrap();
    assert_eq!(anchor.parent, None);
    assert_eq!(anchor.weight, 0);
    assert_eq!(anchor.best_child, None);
    assert_eq!(anchor.best_descendant, Some(0));
}

#[test]
fn inserted_block_starts_without_weight_and_pointers() {
    let mut fc = ForkChoice::new(Slot::new(0), root(0), genesis(), genesis());
    fc.insert_block(Slot::new(1), root(2), root(0), genesis(), genesis())
        .unwrap();
    let node = fc.proto_array().node(1).unwrap();
    assert_eq!(node.slot, Slot::new(1));
    assert_eq!(node.root, root(2));
    assert_eq!(node.parent, Some(0));
    assert_eq!(node.weight, 0);
    assert_eq!(node.best_child, None);
    assert_eq!(node.best_descendant, None);
    // The anchor's pointers are stale until the next propagation.
    assert_eq!(fc.proto_array().node(0).unwrap().best_child, None);
    assert_eq!(fc.proto_array().find_head(genesis(), genesis()), Ok(root(0)));
    assert_eq!(fc.find_head(genesis(), genesis(), &vec![]), Ok(root(2)));
    assert_eq!(fc.proto_array().node(0).unwrap().best_child, Some(1));
    assert_eq!(fc.proto_array().node(0).unwrap().best_descendant, Some(1));
}

#[test]
fn duplicate_root_is_refused() {
    let mut fc = two_branches();
    assert_eq!(
        fc.insert_block(Slot::new(5), root(3), root(4), genesis(), genesis()),
        Err(Error::DuplicateRoot)
    );
    // A known root is refused before an unknown parent is.
    assert_eq!(
        fc.insert_block(Slot::new(5), root(3), root(77), genesis(), genesis()),
        Err(Error::DuplicateRoot)
    );
    assert_eq!(fc.proto_array().len(), 5);
}

#[test]
fn unknown_parent_is_refused() {
    let mut fc = two_branches();
    assert_eq!(
        fc.insert_block(Slot::new(5), root(9), root(77), genesis(), genesis()),
        Err(Error::InvalidParent)
    );
    assert_eq!(fc.proto_array().len(), 5);
    assert!(!fc.proto_array().contains(&root(9)));
}

#[test]
fn unknown_justified_block_is_refused() {
    let mut fc = two_branches();
    assert_eq!(
        fc.find_head(checkpoint(1, 42), genesis(), &vec![0; 4]),
        Err(Error::UnknownJustifiedBlock)
    );
    assert_eq!(
        fc.proto_array().find_head(checkpoint(1, 42), genesis()),
        Err(Error::UnknownJustifiedBlock)
    );
}

#[test]
fn equal_weights_are_decided_by_the_greater_root() {
    let mut fc = two_branches();
    assert_eq!(fc.find_head(genesis(), genesis(), &vec![0; 4]), Ok(root(4)));
    // The branch of 1 gets deeper; the roots still decide.
    fc.insert_block(Slot::new(3), root(5), root(3), genesis(), genesis())
        .unwrap();
    fc.insert_block(Slot::new(4), root(6), root(5), genesis(), genesis())
        .unwrap();
    assert_eq!(fc.find_head(genesis(), genesis(), &vec![0; 4]), Ok(root(4)));
    // Within the subtree of 1 the head is its deepest block.
    assert_eq!(
        fc.find_head(checkpoint(1, 1), genesis(), &vec![0; 4]),
        Ok(root(6))
    );
}

#[test]
fn votes_move_the_head_to_the_heavier_branch() {
    let mut fc = two_branches();
    assert_eq!(
        fc.process_vote_change(0, root(3), Epoch::new(2), 10),
        Ok(())
    );
    // Recorded, not yet counted.
    assert_eq!(weight(&fc, 3), 0);
    assert_eq!(fc.find_head(genesis(), genesis(), &vec![10, 10]), Ok(root(3)));
    assert_eq!(weight(&fc, 3), 10);
    assert_eq!(weight(&fc, 1), 10);
    assert_eq!(weight(&fc, 0), 10);
    assert_eq!(weight(&fc, 2), 0);
    assert_eq!(weight(&fc, 4), 0);

    // A second validator votes for the other branch with the same balance: the
    // greater root decides again.
    fc.process_vote_change(1, root(4), Epoch::new(2), 10).unwrap();
    assert_eq!(fc.find_head(genesis(), genesis(), &vec![10, 10]), Ok(root(4)));
    assert_eq!(weight(&fc, 0), 20);
    assert_eq!(weight(&fc, 2), 10);
    assert_eq!(weight(&fc, 4), 10);

    // The first validator's balance grows.
    assert_eq!(fc.find_head(genesis(), genesis(), &vec![11, 10]), Ok(root(3)));
    assert_eq!(weight(&fc, 0), 21);
    assert_eq!(weight(&fc, 1), 11);
    assert_eq!(weight(&fc, 3), 11);

    // The first validator moves its vote to the other branch.
    fc.process_vote_change(0, root(2), Epoch::new(3), 11).unwrap();
    assert_eq!(fc.find_head(genesis(), genesis(), &vec![11, 10]), Ok(root(4)));
    assert_eq!(weight(&fc, 0), 21);
    assert_eq!(weight(&fc, 1), 0);
    assert_eq!(weight(&fc, 3), 0);
    assert_eq!(weight(&fc, 2), 21);
    assert_eq!(weight(&fc, 4), 10);
}

#[test]
fn vote_tracker_commits_the_latest_vote() {
    let mut fc = two_branches();
    assert_eq!(fc.vote(2), None);
    fc.process_vote_change(2, root(3), Epoch::new(5), 7).unwrap();
    // Trackers are made for the validators before it too.
    assert_eq!(fc.vote(0), Some(VoteTracker::empty()));
    assert_eq!(fc.vote(1), Some(VoteTracker::empty()));
    assert_eq!(fc.vote(3), None);
    assert_eq!(
        fc.vote(2),
        Some(VoteTracker {
            current_root: None,
            current_epoch: Epoch::new(0),
            current_balance: 0,
            next_root: Some(root(3)),
            next_epoch: Epoch::new(5),
            next_balance: 7,
        })
    );
    fc.find_head(genesis(), genesis(), &vec![1, 2, 30]).unwrap();
    assert_eq!(
        fc.vote(2),
        Some(VoteTracker {
            current_root: Some(root(3)),
            current_epoch: Epoch::new(5),
            current_balance: 30,
            next_root: Some(root(3)),
            next_epoch: Epoch::new(5),
            next_balance: 30,
        })
    );
    assert_eq!(weight(&fc, 3), 30);
    // A later vote replaces the latest one and leaves the current one.
    fc.process_vote_change(2, root(4), Epoch::new(6), 8).unwrap();
    assert_eq!(
        fc.vote(2),
        Some(VoteTracker {
            current_root: Some(root(3)),
            current_epoch: Epoch::new(5),
            current_balance: 30,
            next_root: Some(root(4)),
            next_epoch: Epoch::new(6),
            next_balance: 8,
        })
    );
    assert_eq!(weight(&fc, 3), 30);
}

#[test]
fn validator_beyond_the_balances_counts_for_nothing() {
    let mut fc = two_branches();
    fc.process_vote_change(3, root(3), Epoch::new(2), 10).unwrap();
    assert_eq!(fc.find_head(genesis(), genesis(), &vec![5, 5]), Ok(root(4)));
    assert_eq!(weight(&fc, 3), 0);
    assert_eq!(fc.vote(3).unwrap().current_balance, 0);
}

#[test]
fn vote_for_an_unknown_block_counts_once_the_block_arrives() {
    let mut fc = two_branches();
    fc.process_vote_change(0, root(9), Epoch::new(2), 10).unwrap();
    assert_eq!(fc.find_head(genesis(), genesis(), &vec![10]), Ok(root(4)));
    assert_eq!(weight(&fc, 0), 0);
    assert_eq!(fc.vote(0).unwrap().current_balance, 0);
    fc.insert_block(Slot::new(3), root(9), root(3), genesis(), genesis())
        .unwrap();
    assert_eq!(fc.find_head(genesis(), genesis(), &vec![10]), Ok(root(9)));
    assert_eq!(weight(&fc, 9), 10);
    assert_eq!(weight(&fc, 3), 10);
    assert_eq!(weight(&fc, 1), 10);
    assert_eq!(weight(&fc, 0), 10);
}

#[test]
fn find_head_twice_gives_the_same_head_and_state() {
    let mut fc = two_branches();
    fc.process_vote_change(0, root(3), Epoch::new(2), 10).unwrap();
    fc.process_vote_change(1, root(4), Epoch::new(2), 9).unwrap();
    let balances = vec![10, 9];
    let first = fc.find_head(genesis(), genesis(), &balances);
    let nodes: Vec<_> = (0..5).map(|i| fc.proto_array().node(i)).collect();
    let votes: Vec<_> = (0..2).map(|v| fc.vote(v)).collect();
    let second = fc.find_head(genesis(), genesis(), &balances);
    assert_eq!(first, Ok(root(3)));
    assert_eq!(second, first);
    assert_eq!(
        (0..5).map(|i| fc.proto_array().node(i)).collect::<Vec<_>>(),
        nodes
    );
    assert_eq!((0..2).map(|v| fc.vote(v)).collect::<Vec<_>>(), votes);
}

#[test]
fn zero_balances_leave_the_head_to_the_roots() {
    let mut fc = two_branches();
    fc.process_vote_change(0, root(3), Epoch::new(2), 0).unwrap();
    let balances = vec![0; 16];
    assert_eq!(fc.find_head(genesis(), genesis(), &balances), Ok(root(4)));
    assert_eq!(fc.find_head(genesis(), genesis(), &balances), Ok(root(4)));
    assert_eq!(fc.find_head(genesis(), genesis(), &balances), Ok(root(4)));
}

#[test]
fn later_justified_epoch_is_accepted() {
    let mut fc = two_branches();
    fc.insert_block(Slot::new(3), root(5), root(4), checkpoint(2, 2), genesis())
        .unwrap();
    // Block 5 is justified in epoch 2; the search is justified in epoch 1.
    assert_eq!(fc.find_head(genesis(), genesis(), &vec![0; 4]), Ok(root(5)));
    // Starting from block 5 itself, with the earlier epoch.
    assert_eq!(
        fc.find_head(checkpoint(1, 5), genesis(), &vec![0; 4]),
        Ok(root(5))
    );
    assert_eq!(
        fc.find_head(checkpoint(2, 2), genesis(), &vec![0; 4]),
        Ok(root(5))
    );
}

#[test]
fn earlier_justified_epoch_falls_back_to_an_ancestor() {
    let mut fc = two_branches();
    // Block 5 is justified in epoch 1, the search in epoch 3 with another
    // finalized checkpoint: neither 5 nor 4 nor 2 may be the head.
    fc.insert_block(Slot::new(3), root(5), root(4), genesis(), genesis())
        .unwrap();
    assert_eq!(
        fc.find_head(checkpoint(3, 0), checkpoint(2, 0), &vec![0; 4]),
        Ok(root(0))
    );
    // Block 6 under 5 is justified in epoch 3: it may be the head.
    fc.insert_block(Slot::new(4), root(6), root(5), checkpoint(3, 0), genesis())
        .unwrap();
    assert_eq!(
        fc.find_head(checkpoint(3, 0), checkpoint(2, 0), &vec![0; 4]),
        Ok(root(6))
    );
    // Block 7 under 6 is justified in epoch 2 again: the search goes back to 6.
    fc.insert_block(Slot::new(5), root(7), root(6), checkpoint(2, 0), genesis())
        .unwrap();
    assert_eq!(
        fc.find_head(checkpoint(3, 0), checkpoint(2, 0), &vec![0; 4]),
        Ok(root(6))
    );
    // A block whose two checkpoints are those of the search may be the head
    // whatever its epoch.
    assert_eq!(
        fc.find_head(checkpoint(2, 0), genesis(), &vec![0; 4]),
        Ok(root(7))
    );
}

#[test]
fn weight_overflow_is_refused_and_changes_nothing() {
    let mut fc = two_branches();
    fc.process_vote_change(0, root(3), Epoch::new(2), 1).unwrap();
    fc.process_vote_change(1, root(4), Epoch::new(2), 1).unwrap();
    assert_eq!(
        fc.find_head(genesis(), genesis(), &vec![u64::MAX, 1]),
        Err(Error::WeightOverflow)
    );
    assert_eq!(weight(&fc, 0), 0);
    assert_eq!(fc.vote(0).unwrap().current_root, None);
    // The largest balance fits by itself.
    assert_eq!(
        fc.find_head(genesis(), genesis(), &vec![u64::MAX, 0]),
        Ok(root(3))
    );
    assert_eq!(weight(&fc, 0), u64::MAX);
    assert_eq!(weight(&fc, 3), u64::MAX);
    assert_eq!(weight(&fc, 4), 0);
    // And can be taken away again.
    assert_eq!(fc.find_head(genesis(), genesis(), &vec![0, 3]), Ok(root(4)));
    assert_eq!(weight(&fc, 0), 3);
    assert_eq!(weight(&fc, 3), 0);
}

#[test]
fn apply_deltas_adds_to_the_node_and_its_ancestors() {
    let mut array = ProtoArray::new(Slot::new(0), root(0), genesis(), genesis());
    for (slot, r, parent) in [(1, 2, 0), (1, 1, 0), (2, 3, 1), (2, 4, 2)] {
        array
            .insert_block(Slot::new(slot), root(r), root(parent), genesis(), genesis())
            .unwrap();
    }
    // Positions: 0 -> 0, 2 -> 1, 1 -> 2, 3 -> 3, 4 -> 4.
    assert_eq!(array.apply_deltas(&vec![(3, 5), (4, 3), (1, 1)]), Ok(()));
    let weights: Vec<u64> = (0..5).map(|i| array.node(i).unwrap().weight).collect();
    assert_eq!(weights, vec![9, 4, 5, 5, 3]);
    assert_eq!(array.node(0).unwrap().best_child, Some(2));
    assert_eq!(array.node(0).unwrap().best_descendant, Some(3));
    assert_eq!(array.node(1).unwrap().best_child, Some(4));
    assert_eq!(array.node(1).unwrap().best_descendant, Some(4));
    assert_eq!(array.node(3).unwrap().best_child, None);
    assert_eq!(array.node(3).unwrap().best_descendant, Some(3));
    assert_eq!(array.find_head(genesis(), genesis()), Ok(root(3)));

    assert_eq!(array.apply_deltas(&vec![(3, -5), (3, 2), (4, 1)]), Ok(()));
    let weights: Vec<u64> = (0..5).map(|i| array.node(i).unwrap().weight).collect();
    assert_eq!(weights, vec![7, 5, 2, 2, 4]);
    assert_eq!(array.find_head(genesis(), genesis()), Ok(root(4)));

    // No deltas: nothing changes.
    assert_eq!(array.apply_deltas(&vec![]), Ok(()));
    let again: Vec<u64> = (0..5).map(|i| array.node(i).unwrap().weight).collect();
    assert_eq!(again, weights);
    assert_eq!(array.find_head(genesis(), genesis()), Ok(root(4)));
}

#[test]
fn apply_deltas_refuses_a_batch_as_a_whole() {
    let mut array = ProtoArray::new(Slot::new(0), root(0), genesis(), genesis());
    array
        .insert_block(Slot::new(1), root(1), root(0), genesis(), genesis())
        .unwrap();
    assert_eq!(
        array.apply_deltas(&vec![(1, 4), (2, 1)]),
        Err(Error::InvalidNodeIndex)
    );
    assert_eq!(array.node(1).unwrap().weight, 0);
    assert_eq!(
        array.apply_deltas(&vec![(1, 4), (0, -5)]),
        Err(Error::WeightOverflow)
    );
    assert_eq!(array.node(1).unwrap().weight, 0);
    assert_eq!(array.node(0).unwrap().weight, 0);
    // A position out of range is reported before a weight out of range.
    assert_eq!(
        array.apply_deltas(&vec![(0, -1), (7, 1)]),
        Err(Error::InvalidNodeIndex)
    );
    // What passes through zero on the way is no fault.
    assert_eq!(array.apply_deltas(&vec![(1, -4), (1, 6)]), Ok(()));
    assert_eq!(array.node(1).unwrap().weight, 2);
    assert_eq!(array.node(0).unwrap().weight, 2);
    assert_eq!(
        array.apply_deltas(&vec![(1, i64::MAX), (1, i64::MAX), (1, i64::MAX)]),
        Err(Error::WeightOverflow)
    );
    assert_eq!(
        array.apply_deltas(&vec![(1, i64::MAX), (1, i64::MAX), (1, -1)]),
        Ok(())
    );
    assert_eq!(array.node(1).unwrap().weight, u64::MAX);
    assert_eq!(array.apply_deltas(&vec![(1, i64::MIN)]), Ok(()));
    assert_eq!(array.node(0).unwrap().weight, u64::MAX - (1 << 63));
}

#[test]
fn prune_keeps_the_finalized_block_and_its_descendants() {
    let mut fc = two_branches();
    fc.insert_block(Slot::new(3), root(5), root(4), genesis(), genesis())
        .unwrap();
    fc.process_vote_change(0, root(5), Epoch::new(2), 4).unwrap();
    fc.process_vote_change(1, root(3), Epoch::new(2), 6).unwrap();
    fc.process_vote_change(2, root(4), Epoch::new(2), 1).unwrap();
    assert_eq!(fc.find_head(genesis(), genesis(), &vec![4, 6, 1]), Ok(root(3)));
    fc.process_vote_change(2, root(1), Epoch::new(3), 1).unwrap();

    assert_eq!(fc.prune(root(2)), Ok(()));
    let array = fc.proto_array();
    assert_eq!(array.len(), 3);
    let roots: Vec<Hash256> = (0..3).map(|i| array.node(i).unwrap().root).collect();
    assert_eq!(roots, vec![root(2), root(4), root(5)]);
    let parents: Vec<Option<usize>> = (0..3).map(|i| array.node(i).unwrap().parent).collect();
    assert_eq!(parents, vec![None, Some(0), Some(1)]);
    let weights: Vec<u64> = (0..3).map(|i| array.node(i).unwrap().weight).collect();
    assert_eq!(weights, vec![5, 5, 4]);
    assert_eq!(array.node(0).unwrap().best_child, Some(1));
    assert_eq!(array.node(0).unwrap().best_descendant, Some(2));
    assert_eq!(array.node(2).unwrap().best_descendant, Some(2));
    assert_eq!(array.index_of(&root(4)), Some(1));
    assert_eq!(array.index_of(&root(1)), None);

    // The vote for a removed block is forgotten.
    assert_eq!(fc.vote(1), Some(VoteTracker::empty()));
    // A current vote that stays is kept; a latest vote that was removed is not.
    assert_eq!(
        fc.vote(2),
        Some(VoteTracker {
            current_root: Some(root(4)),
            current_epoch: Epoch::new(2),
            current_balance: 1,
            next_root: None,
            next_epoch: Epoch::new(0),
            next_balance: 0,
        })
    );
    assert_eq!(fc.vote(0).unwrap().current_root, Some(root(5)));

    assert_eq!(
        fc.find_head(checkpoint(1, 2), genesis(), &vec![4, 6, 1]),
        Ok(root(5))
    );
    let weights: Vec<u64> = (0..3)
        .map(|i| fc.proto_array().node(i).unwrap().weight)
        .collect();
    assert_eq!(weights, vec![4, 4, 4]);
}

#[test]
fn after_prune_what_was_removed_is_unknown() {
    let mut fc = two_branches();
    assert_eq!(fc.prune(root(2)), Ok(()));
    for gone in [0, 1, 3] {
        assert_eq!(
            fc.find_head(checkpoint(1, gone), genesis(), &vec![0; 4]),
            Err(Error::UnknownJustifiedBlock)
        );
        assert_eq!(
            fc.insert_block(Slot::new(9), root(20 + gone), root(gone), genesis(), genesis()),
            Err(Error::InvalidParent)
        );
        assert_eq!(fc.prune(root(gone)), Err(Error::FinalizedNodeUnknown));
    }
    assert_eq!(fc.proto_array().len(), 2);
    assert_eq!(
        fc.insert_block(Slot::new(3), root(6), root(4), genesis(), genesis()),
        Ok(())
    );
    assert_eq!(
        fc.find_head(checkpoint(1, 2), genesis(), &vec![0; 4]),
        Ok(root(6))
    );
}

#[test]
fn prune_to_an_unknown_block_is_refused() {
    let mut fc = two_branches();
    assert_eq!(fc.prune(root(42)), Err(Error::FinalizedNodeUnknown));
    assert_eq!(fc.proto_array().len(), 5);
    // Pruning to the anchor removes nothing.
    assert_eq!(fc.prune(root(0)), Ok(()));
    assert_eq!(fc.proto_array().len(), 5);
    assert_eq!(fc.proto_array().node(3).unwrap().parent, Some(2));
}

#[test]
fn is_descendant_follows_the_parents() {
    let fc = two_branches();
    let array = fc.proto_array();
    // Positions: 0 -> 0, 2 -> 1, 1 -> 2, 3 -> 3, 4 -> 4.
    assert!(array.is_descendant(0, 4));
    assert!(array.is_descendant(1, 4));
    assert!(array.is_descendant(4, 4));
    assert!(!array.is_descendant(2, 4));
    assert!(!array.is_descendant(4, 1));
    assert!(!array.is_descendant(0, 5));
    assert!(!array.is_descendant(5, 5));
}

#[test]
fn roots_are_ordered_as_numbers() {
    let small = Hash256 { hi: 0, lo: u128::MAX };
    let large = Hash256 { hi: 1, lo: 0 };
    assert!(small.precedes(&large));
    assert!(!large.precedes(&small));
    assert!(!small.precedes(&small));
    assert!(root(1).precedes(&root(2)));
    assert!(Hash256::zero().is_zero());
    assert!(!root(1).is_zero());
    assert_eq!(Hash256 { hi: 7, lo: (1 << 64) + 5 }.low_u64(), 5);
}

#[test]
fn the_heavier_child_is_preferred_and_the_greater_root_among_equals() {
    let node = |weight: u64, r: Hash256| ProtoNode {
        slot: Slot::new(1),
        root: r,
        parent: Some(0),
        justified_checkpoint: genesis(),
        finalized_checkpoint: genesis(),
        weight,
        best_child: None,
        best_descendant: None,
    };
    assert!(prefers(&node(5, root(1)), &node(4, root(2))));
    assert!(!prefers(&node(4, root(2)), &node(5, root(1))));
    assert!(prefers(&node(4, root(2)), &node(4, root(1))));
    assert!(!prefers(&node(4, root(1)), &node(4, root(2))));
    assert!(prefers(&node(4, root(1)), &node(4, root(1))));
    let high = Hash256 { hi: 1, lo: 0 };
    assert!(prefers(&node(0, high), &node(0, Hash256 { hi: 0, lo: u128::MAX })));
}

#[test]
fn an_unchanged_vote_changes_no_weight() {
    let mut fc = two_branches();
    fc.process_vote_change(0, root(3), Epoch::new(2), 10).unwrap();
    fc.process_vote_change(1, root(9), Epoch::new(2), 10).unwrap();
    assert_eq!(fc.find_head(genesis(), genesis(), &vec![10, 10]), Ok(root(3)));
    for _ in 0..3 {
        assert_eq!(fc.find_head(genesis(), genesis(), &vec![10, 10]), Ok(root(3)));
        assert_eq!(weight(&fc, 0), 10);
        assert_eq!(weight(&fc, 1), 10);
        assert_eq!(weight(&fc, 3), 10);
        assert_eq!(weight(&fc, 2), 0);
    }
    // The same vote again, with another balance in the justified state.
    fc.process_vote_change(0, root(3), Epoch::new(3), 10).unwrap();
    assert_eq!(fc.find_head(genesis(), genesis(), &vec![4, 10]), Ok(root(3)));
    assert_eq!(weight(&fc, 0), 4);
    assert_eq!(weight(&fc, 3), 4);
    assert_eq!(fc.find_head(genesis(), genesis(), &vec![0, 10]), Ok(root(4)));
    assert_eq!(weight(&fc, 0), 0);
}
