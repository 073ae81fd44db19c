use vstd::prelude::*;
use crate::checkpoint::{Checkpoint, Epoch, Slot};
use crate::fork_choice_test_definition::{
    get_checkpoint, get_root, operations_view, ForkChoiceTestDefinition, Operation,
    OperationView,
};
use crate::hash::Hash256;

verus! {

/// The checkpoint of epoch 1 at the all-zero root.
pub open spec fn genesis_checkpoint() -> Checkpoint {
    Checkpoint { epoch: Epoch(1), root: Hash256::spec_zero() }
}

/// The checkpoint of epoch `i` at the root with number `i`.
pub open spec fn numbered_checkpoint(i: u64) -> Checkpoint {
    Checkpoint { epoch: Epoch(i), root: Hash256::spec_from_low_u64_be(i) }
}

/// A head search with sixteen balances of zero, finalized at the all-zero
/// root in epoch 1.
pub open spec fn search(justified: Checkpoint, expected: u64) -> OperationView {
    OperationView::FindHead {
        justified_checkpoint: justified,
        finalized_checkpoint: genesis_checkpoint(),
        justified_state_balances: Seq::new(16, |i: int| 0u64),
        expected_head: Hash256::spec_from_low_u64_be(expected),
    }
}

/// The block with number `root` under the block with number `parent`,
/// finalized at the all-zero root in epoch 1.
pub open spec fn block(slot: u64, root: u64, parent: u64, justified: Checkpoint) -> OperationView {
    OperationView::ProcessBlock {
        slot: Slot(slot),
        root: Hash256::spec_from_low_u64_be(root),
        parent_root: Hash256::spec_from_low_u64_be(parent),
        justified_checkpoint: justified,
        finalized_checkpoint: genesis_checkpoint(),
    }
}

/// The operations of the run without votes.
pub open spec fn no_votes_operations() -> Seq<OperationView> {
    seq![
        search(genesis_checkpoint(), 0),
        block(1, 2, 0, genesis_checkpoint()),
        search(genesis_checkpoint(), 2),
        block(1, 1, 0, genesis_checkpoint()),
        search(genesis_checkpoint(), 2),
        block(2, 3, 1, genesis_checkpoint()),
        search(genesis_checkpoint(), 2),
        block(2, 4, 2, genesis_checkpoint()),
        search(genesis_checkpoint(), 4),
        block(3, 5, 4, numbered_checkpoint(2)),
        search(genesis_checkpoint(), 5),
        search(Checkpoint { epoch: Epoch(1), root: Hash256::spec_from_low_u64_be(5) }, 5),
        search(numbered_checkpoint(2), 5),
        block(4, 6, 5, numbered_checkpoint(2)),
        search(numbered_checkpoint(2), 6),
    ]
}

/// A run in which no validator votes, so that every weight is zero and the
/// head is decided by the shape of the tree and the order of the roots.
///
/// The tree grows to
///
/// ```text
///         0
///        / \
///        2  1
///        |  |
///        4  3
///        |
///        5
///        |
///        6
/// ```
///
/// and the head is searched after every block. Of the two children of 0 the
/// one with the greater root, 2, leads to the head. Blocks 5 and 6 are
/// justified in epoch 2 at block 2, while the searches before block 5 arrives
/// are justified in epoch 1: a block with a later justified epoch is still the
/// head.
pub fn get_no_votes_test_definition() -> (d: ForkChoiceTestDefinition)
    ensures
        d.finalized_block_slot == Slot(0),
        d.justified_checkpoint == genesis_checkpoint(),
        d.finalized_checkpoint == genesis_checkpoint(),
        operations_view(d.operations@) == no_votes_operations(),
{
    let balances: Vec<u64> = vec![0; 16];
    proof {
        assert(balances@ =~= Seq::new(16, |i: int| 0u64));
    }

    let operations = vec![
        // Check that the head is the finalized block.
        Operation::FindHead {
            justified_checkpoint: Checkpoint { epoch: Epoch::new(1), root: Hash256::zero() },
            finalized_checkpoint: Checkpoint { epoch: Epoch::new(1), root: Hash256::zero() },
            justified_state_balances: balances.clone(),
            expected_head: Hash256::zero(),
        },
        // Add block 2
        //
        //         0
        //        /
        //        2
        Operation::ProcessBlock {
            slot: Slot::new(1),
            root: get_root(2),
            parent_root: Hash256::zero(),
            justified_checkpoint: Checkpoint { epoch: Epoch::new(1), root: Hash256::zero() },
            finalized_checkpoint: Checkpoint { epoch: Epoch::new(1), root: Hash256::zero() },
        },
        // Ensure the head is 2
        //
        //         0
        //        /
        //        2 <- head
        Operation::FindHead {
            justified_checkpoint: Checkpoint { epoch: Epoch::new(1), root: Hash256::zero() },
            finalized_checkpoint: Checkpoint { epoch: Epoch::new(1), root: Hash256::zero() },
            justified_state_balances: balances.clone(),
            expected_head: get_root(2),
        },
        // Add block 1
        //
        //         0
        //        / \
        //        2  1
        Operation::ProcessBlock {
            slot: Slot::new(1),
            root: get_root(1),
            parent_root: get_root(0),
            justified_checkpoint: Checkpoint { epoch: Epoch::new(1), root: Hash256::zero() },
            finalized_checkpoint: Checkpoint { epoch: Epoch::new(1), root: Hash256::zero() },
        },
        // Ensure the head is still 2
        //
        //         0
        //        / \
        // head-> 2  1
        Operation::FindHead {
            justified_checkpoint: Checkpoint { epoch: Epoch::new(1), root: Hash256::zero() },
            finalized_checkpoint: Checkpoint { epoch: Epoch::new(1), root: Hash256::zero() },
            justified_state_balances: balances.clone(),
            expected_head: get_root(2),
        },
        // Add block 3
        //
        //         0
        //        / \
        //        2  1
        //           |
        //           3
        Operation::ProcessBlock {
            slot: Slot::new(2),
            root: get_root(3),
            parent_root: get_root(1),
            justified_checkpoint: Checkpoint { epoch: Epoch::new(1), root: Hash256::zero() },
            finalized_checkpoint: Checkpoint { epoch: Epoch::new(1), root: Hash256::zero() },
        },
        // Ensure 2 is still the head
        //
        //          0
        //         / \
        // head-> 2  1
        //           |
        //           3
        Operation::FindHead {
            justified_checkpoint: Checkpoint { epoch: Epoch::new(1), root: Hash256::zero() },
            finalized_checkpoint: Checkpoint { epoch: Epoch::new(1), root: Hash256::zero() },
            justified_state_balances: balances.clone(),
            expected_head: get_root(2),
        },
        // Add block 4
        //
        //         0
        //        / \
        //        2  1
        //        |  |
        //        4  3
        Operation::ProcessBlock {
            slot: Slot::new(2),
            root: get_root(4),
            parent_root: get_root(2),
            justified_checkpoint: Checkpoint { epoch: Epoch::new(1), root: Hash256::zero() },
            finalized_checkpoint: Checkpoint { epoch: Epoch::new(1), root: Hash256::zero() },
        },
        // Ensure the head is 4.
        //
        //         0
        //        / \
        //        2  1
        //        |  |
        // head-> 4  3
        Operation::FindHead {
            justified_checkpoint: Checkpoint { epoch: Epoch::new(1), root: Hash256::zero() },
            finalized_checkpoint: Checkpoint { epoch: Epoch::new(1), root: Hash256::zero() },
            justified_state_balances: balances.clone(),
            expected_head: get_root(4),
        },
        // Add block 5 with a justified epoch of 2
        //
        //         0
        //        / \
        //        2  1
        //        |  |
        //        4  3
        //        |
        //        5 <- justified epoch = 2
        Operation::ProcessBlock {
            slot: Slot::new(3),
            root: get_root(5),
            parent_root: get_root(4),
            justified_checkpoint: get_checkpoint(2),
            finalized_checkpoint: Checkpoint { epoch: Epoch::new(1), root: Hash256::zero() },
        },
        // Ensure the head is now 5 whilst the justified epoch is 1.
        //
        //         0
        //        / \
        //        2  1
        //        |  |
        //        4  3
        //        |
        // head-> 5
        Operation::FindHead {
            justified_checkpoint: Checkpoint { epoch: Epoch::new(1), root: Hash256::zero() },
            finalized_checkpoint: Checkpoint { epoch: Epoch::new(1), root: Hash256::zero() },
            justified_state_balances: balances.clone(),
            expected_head: get_root(5),
        },
        // Ensure there is no error when starting from a block whose own
        // justified epoch is later than the one searched with: a head may have
        // a later justified checkpoint than the store.
        //
        //      0
        //     / \
        //     2  1
        //     |  |
        //     4  3
        //     |
        //     5 <- starting from 5 with justified epoch 1
        Operation::FindHead {
            justified_checkpoint: Checkpoint { epoch: Epoch::new(1), root: get_root(5) },
            finalized_checkpoint: Checkpoint { epoch: Epoch::new(1), root: Hash256::zero() },
            justified_state_balances: balances.clone(),
            expected_head: get_root(5),
        },
        // Set the justified epoch to 2 and the start block to 2 and ensure 5
        // is the head.
        //
        //      0
        //     / \
        //     2  1
        //     |  |
        //     4  3
        //     |
        //     5 <- head
        Operation::FindHead {
            justified_checkpoint: get_checkpoint(2),
            finalized_checkpoint: Checkpoint { epoch: Epoch::new(1), root: Hash256::zero() },
            justified_state_balances: balances.clone(),
            expected_head: get_root(5),
        },
        // Add block 6
        //
        //      0
        //     / \
        //     2  1
        //     |  |
        //     4  3
        //     |
        //     5
        //     |
        //     6
        Operation::ProcessBlock {
            slot: Slot::new(4),
            root: get_root(6),
            parent_root: get_root(5),
            justified_checkpoint: get_checkpoint(2),
            finalized_checkpoint: Checkpoint { epoch: Epoch::new(1), root: Hash256::zero() },
        },
        // Ensure 6 is the head
        //
        //      0
        //     / \
        //     2  1
        //     |  |
        //     4  3
        //     |
        //     5
        //     |
        //     6 <- head
        Operation::FindHead {
            justified_checkpoint: get_checkpoint(2),
            finalized_checkpoint: Checkpoint { epoch: Epoch::new(1), root: Hash256::zero() },
            justified_state_balances: balances,
            expected_head: get_root(6),
        },
    ];
    proof {
        assert(operations_view(operations@) =~= no_votes_operations());
    }

    ForkChoiceTestDefinition {
        finalized_block_slot: Slot::new(0),
        justified_checkpoint: Checkpoint { epoch: Epoch::new(1), root: Hash256::zero() },
        finalized_checkpoint: Checkpoint { epoch: Epoch::new(1), root: Hash256::zero() },
        operations,
    }
}

} // verus!
