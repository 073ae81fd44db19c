use proto_array::checkpoint::{Checkpoint, Epoch, Slot};
use proto_array::fork_choice_test_definition::no_votes::get_no_votes_test_definition;
use proto_array::fork_choice_test_definition::{
    get_checkpoint, get_root, ForkChoiceTestDefinition, Operation, RunFailure,
};
use proto_array::hash::Hash256;

fn genesis() -> Checkpoint {
    Checkpoint {
        epoch: Epoch::new(1),
        root: Hash256::zero(),
    }
}

#[test]
fn test() {
    let test = get_no_votes_test_definition();
    assert_eq!(test.run(), Ok(()));
}

#[test]
fn no_votes_definition_starts_at_the_zero_root() {
    let test = get_no_votes_test_definition();
    assert_eq!(test.finalized_block_slot, Slot::new(0));
    assert_eq!(test.justified_checkpoint, genesis());
    assert_eq!(test.finalized_checkpoint, genesis());
    assert_eq!(test.operations.len(), 15);
    assert_eq!(
        test.operations[0],
        Operation::FindHead {
            justified_checkpoint: genesis(),
            finalized_checkpoint: genesis(),
            justified_state_balances: vec![0; 16],
            expected_head: Hash256::zero(),
        }
    );
    assert_eq!(
        test.operations[9],
        Operation::ProcessBlock {
            slot: Slot::new(3),
            root: get_root(5),
            parent_root: get_root(4),
            justified_checkpoint: get_checkpoint(2),
            finalized_checkpoint: genesis(),
        }
    );
}

#[test]
fn get_root_numbers_the_last_bytes() {
    assert_eq!(get_root(0), Hash256::zero());
    assert_eq!(get_root(7), Hash256 { hi: 0, lo: 7 });
    assert_eq!(get_root(7).low_u64(), 7);
    assert_eq!(
        get_checkpoint(3),
        Checkpoint {
            epoch: Epoch::new(3),
            root: Hash256 { hi: 0, lo: 3 },
        }
    );
}

#[test]
fn run_reports_a_wrong_head() {
    let test = ForkChoiceTestDefinition {
        finalized_block_slot: Slot::new(0),
        justified_checkpoint: genesis(),
        finalized_checkpoint: genesis(),
        operations: vec![
            Operation::ProcessBlock {
                slot: Slot::new(1),
                root: get_root(2),
                parent_root: Hash256::zero(),
                justified_checkpoint: genesis(),
                finalized_checkpoint: genesis(),
            },
            Operation::FindHead {
                justified_checkpoint: genesis(),
                finalized_checkpoint: genesis(),
                justified_state_balances: vec![0; 16],
                expected_head: Hash256::zero(),
            },
        ],
    };
    assert_eq!(
        test.run(),
        Err(RunFailure::WrongHead {
            op_index: 1,
            found: get_root(2),
        })
    );
}

#[test]
fn run_reports_a_refused_operation() {
    let test = ForkChoiceTestDefinition {
        finalized_block_slot: Slot::new(0),
        justified_checkpoint: genesis(),
        finalized_checkpoint: genesis(),
        operations: vec![Operation::ProcessBlock {
            slot: Slot::new(1),
            root: get_root(2),
            parent_root: get_root(9),
            justified_checkpoint: genesis(),
            finalized_checkpoint: genesis(),
        }],
    };
    assert_eq!(
        test.run(),
        Err(RunFailure::Refused {
            op_index: 0,
            error: proto_array::error::Error::InvalidParent,
        })
    );
}

#[test]
fn a_copy_of_a_definition_runs_like_the_definition() {
    let test = get_no_votes_test_definition();
    let copy = test.clone();
    assert_eq!(copy, test);
    assert_eq!(copy.operations[11], test.operations[11].clone());
    assert_eq!(copy.run(), Ok(()));
    assert_eq!(test.run(), Ok(()));
}
