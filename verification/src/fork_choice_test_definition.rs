use vstd::prelude::*;
use crate::checkpoint::{Checkpoint, Epoch, Slot};
use crate::error::Error;
use crate::fork_choice::{find_head_outcome, settled, ForkChoice};
use crate::hash::Hash256;
use crate::node::ProtoNode;
use crate::proto_array::{anchor_node, insert_outcome, with_block};
use crate::votes::{committed, VoteTracker};

pub mod no_votes;

verus! {

/// One step of a scripted run of the engine.
#[derive(Debug, PartialEq, Eq)]
pub enum Operation {
    /// Search the head and compare it with `expected_head`.
    FindHead {
        justified_checkpoint: Checkpoint,
        finalized_checkpoint: Checkpoint,
        justified_state_balances: Vec<u64>,
        expected_head: Hash256,
    },
    /// Add a block to the tree.
    ProcessBlock {
        slot: Slot,
        root: Hash256,
        parent_root: Hash256,
        justified_checkpoint: Checkpoint,
        finalized_checkpoint: Checkpoint,
    },
}

/// An [`Operation`] as a mathematical value.
pub enum OperationView {
    FindHead {
        justified_checkpoint: Checkpoint,
        finalized_checkpoint: Checkpoint,
        justified_state_balances: Seq<u64>,
        expected_head: Hash256,
    },
    ProcessBlock {
        slot: Slot,
        root: Hash256,
        parent_root: Hash256,
        justified_checkpoint: Checkpoint,
        finalized_checkpoint: Checkpoint,
    },
}

impl View for Operation {
    type V = OperationView;

    /// The operation with its balances as a mathematical sequence.
    open spec fn view(&self) -> OperationView {
        match *self {
            Operation::FindHead {
                justified_checkpoint,
                finalized_checkpoint,
                justified_state_balances,
                expected_head,
            } => OperationView::FindHead {
                justified_checkpoint,
                finalized_checkpoint,
                justified_state_balances: justified_state_balances@,
                expected_head,
            },
            Operation::ProcessBlock {
                slot,
                root,
                parent_root,
                justified_checkpoint,
                finalized_checkpoint,
            } => OperationView::ProcessBlock {
                slot,
                root,
                parent_root,
                justified_checkpoint,
                finalized_checkpoint,
            },
        }
    }
}

impl Clone for Operation {
    /// A copy of the operation, with a copy of its balances.
    fn clone(&self) -> (r: Operation)
        ensures
            r@ == self@,
    {
        match self {
            Operation::FindHead {
                justified_checkpoint,
                finalized_checkpoint,
                justified_state_balances,
                expected_head,
            } => {
                let balances = justified_state_balances.clone();
                proof {
                    assert(balances@ =~= justified_state_balances@);
                }
                Operation::FindHead {
                    justified_checkpoint: *justified_checkpoint,
                    finalized_checkpoint: *finalized_checkpoint,
                    justified_state_balances: balances,
                    expected_head: *expected_head,
                }
            },
            Operation::ProcessBlock {
                slot,
                root,
                parent_root,
                justified_checkpoint,
                finalized_checkpoint,
            } => Operation::ProcessBlock {
                slot: *slot,
                root: *root,
                parent_root: *parent_root,
                justified_checkpoint: *justified_checkpoint,
                finalized_checkpoint: *finalized_checkpoint,
            },
        }
    }
}

/// A list of operations as mathematical values.
pub open spec fn operations_view(ops: Seq<Operation>) -> Seq<OperationView> {
    Seq::new(ops.len(), |k: int| ops[k]@)
}

/// Why a scripted run stopped before its end.
#[derive(Clone, Copy, Debug, PartialEq, Eq, Structural)]
pub enum RunFailure {
    /// The engine refused the operation at `op_index`.
    Refused { op_index: usize, error: Error },
    /// The head search at `op_index` found `found`, which is not the head
    /// that the operation expects.
    WrongHead { op_index: usize, found: Hash256 },
}

/// A scripted run of the engine: the anchor that the tree starts from, and the
/// operations to perform on it in order.
#[derive(Debug, PartialEq, Eq)]
pub struct ForkChoiceTestDefinition {
    pub finalized_block_slot: Slot,
    pub justified_checkpoint: Checkpoint,
    pub finalized_checkpoint: Checkpoint,
    pub operations: Vec<Operation>,
}

/// The root whose last eight bytes hold `i`; the all-zero root for 0.
pub fn get_root(i: u64) -> (h: Hash256)
    ensures
        h == Hash256::spec_from_low_u64_be(i),
{
    Hash256::from_low_u64_be(i)
}

/// The checkpoint of epoch `i` whose root is `get_root(i)`.
pub fn get_checkpoint(i: u64) -> (c: Checkpoint)
    ensures
        c == (Checkpoint { epoch: Epoch(i), root: Hash256::spec_from_low_u64_be(i) }),
{
    Checkpoint { epoch: Epoch::new(i), root: get_root(i) }
}

/// The outcome of operation `op`, the `k`-th of a run, on an engine with the
/// nodes `s` and the trackers `votes`: the nodes and trackers after it, or why
/// the run stops there.
pub open spec fn perform(
    s: Seq<ProtoNode>,
    votes: Seq<VoteTracker>,
    op: OperationView,
    k: int,
) -> Result<(Seq<ProtoNode>, Seq<VoteTracker>), RunFailure> {
    match op {
        OperationView::FindHead {
            justified_checkpoint,
            finalized_checkpoint,
            justified_state_balances,
            expected_head,
        } => match find_head_outcome(
            s,
            votes,
            justified_checkpoint,
            finalized_checkpoint,
            justified_state_balances,
        ) {
            Err(error) => Err(RunFailure::Refused { op_index: k as usize, error }),
            Ok(found) => if found != expected_head {
                Err(RunFailure::WrongHead { op_index: k as usize, found })
            } else {
                let after = committed(s, votes, justified_state_balances);
                Ok((settled(s, after), after))
            },
        },
        OperationView::ProcessBlock {
            slot,
            root,
            parent_root,
            justified_checkpoint,
            finalized_checkpoint,
        } => match insert_outcome(s, root, parent_root) {
            Err(error) => Err(RunFailure::Refused { op_index: k as usize, error }),
            Ok(()) => Ok(
                (
                    with_block(
                        s,
                        slot,
                        root,
                        parent_root,
                        justified_checkpoint,
                        finalized_checkpoint,
                    ),
                    votes,
                ),
            ),
        },
    }
}

/// The outcome of performing the operations from the `k`-th on, on an engine
/// with the nodes `s` and the trackers `votes`: the first failure, or `Ok` when
/// every operation is accepted and every head search finds the expected head.
pub open spec fn replay(
    s: Seq<ProtoNode>,
    votes: Seq<VoteTracker>,
    ops: Seq<OperationView>,
    k: int,
) -> Result<(), RunFailure>
    decreases ops.len() - k,
{
    if k < 0 || k >= ops.len() {
        Ok(())
    } else {
        match perform(s, votes, ops[k], k) {
            Err(failure) => Err(failure),
            Ok(after) => replay(after.0, after.1, ops, k + 1),
        }
    }
}

impl Clone for ForkChoiceTestDefinition {
    /// A copy of the run, with a copy of each operation.
    fn clone(&self) -> (r: ForkChoiceTestDefinition)
        ensures
            r.finalized_block_slot == self.finalized_block_slot,
            r.justified_checkpoint == self.justified_checkpoint,
            r.finalized_checkpoint == self.finalized_checkpoint,
            operations_view(r.operations@) == operations_view(self.operations@),
    {
        let n = self.operations.len();
        let mut operations: Vec<Operation> = Vec::new();
        let mut k: usize = 0;
        while k < n
            invariant
                n == self.operations@.len(),
                k <= n,
                operations@.len() == k,
                forall|i: int| 0 <= i < k ==> (#[trigger] operations@[i])@ == self.operations@[i]@,
            decreases n - k,
        {
            operations.push(self.operations[k].clone());
            k += 1;
        }
        proof {
            assert(operations_view(operations@) =~= operations_view(self.operations@));
        }
        ForkChoiceTestDefinition {
            finalized_block_slot: self.finalized_block_slot,
            justified_checkpoint: self.justified_checkpoint,
            finalized_checkpoint: self.finalized_checkpoint,
            operations,
        }
    }
}

impl ForkChoiceTestDefinition {
    /// Performs one operation, the `k`-th of a run, on the engine.
    fn perform_on(fork_choice: &mut ForkChoice, op: &Operation, k: usize) -> (r: Result<
        (),
        RunFailure,
    >)
        requires
            old(fork_choice).wf(),
        ensures
            final(fork_choice).wf(),
            match perform(old(fork_choice).nodes(), old(fork_choice).votes(), op@, k as int) {
                Err(failure) => r == Err::<(), RunFailure>(failure),
                Ok(after) => {
                    &&& r is Ok
                    &&& final(fork_choice).nodes() == after.0
                    &&& final(fork_choice).votes() == after.1
                },
            },
    {
        match op {
            Operation::FindHead {
                justified_checkpoint,
                finalized_checkpoint,
                justified_state_balances,
                expected_head,
            } => {
                match fork_choice.find_head(
                    *justified_checkpoint,
                    *finalized_checkpoint,
                    justified_state_balances,
                ) {
                    Err(error) => Err(RunFailure::Refused { op_index: k, error }),
                    Ok(found) => {
                        if found != *expected_head {
                            Err(RunFailure::WrongHead { op_index: k, found })
                        } else {
                            Ok(())
                        }
                    },
                }
            },
            Operation::ProcessBlock {
                slot,
                root,
                parent_root,
                justified_checkpoint,
                finalized_checkpoint,
            } => {
                match fork_choice.insert_block(
                    *slot,
                    *root,
                    *parent_root,
                    *justified_checkpoint,
                    *finalized_checkpoint,
                ) {
                    Err(error) => Err(RunFailure::Refused { op_index: k, error }),
                    Ok(()) => Ok(()),
                }
            },
        }
    }

    /// Performs the operations in order on a new engine whose anchor is the
    /// all-zero root at `finalized_block_slot`, and stops at the first
    /// operation that the engine refuses or whose head is not the expected
    /// one.
    pub fn run(self) -> (r: Result<(), RunFailure>)
        ensures
            r == replay(
                seq![
                    anchor_node(
                        self.finalized_block_slot,
                        Hash256::spec_zero(),
                        self.justified_checkpoint,
                        self.finalized_checkpoint,
                    ),
                ],
                Seq::empty(),
                operations_view(self.operations@),
                0,
            ),
    {
        let mut fork_choice = ForkChoice::new(
            self.finalized_block_slot,
            Hash256::zero(),
            self.justified_checkpoint,
            self.finalized_checkpoint,
        );
        let ghost ops = operations_view(self.operations@);
        let ghost s0 = fork_choice.nodes();
        let ghost v0 = fork_choice.votes();
        let n = self.operations.len();
        let mut k: usize = 0;
        while k < n
            invariant
                n == self.operations@.len(),
                ops == operations_view(self.operations@),
                k <= n,
                fork_choice.wf(),
                s0 == seq![
                    anchor_node(
                        self.finalized_block_slot,
                        Hash256::spec_zero(),
                        self.justified_checkpoint,
                        self.finalized_checkpoint,
                    ),
                ],
                v0 == Seq::<VoteTracker>::empty(),
                replay(s0, v0, ops, 0) == replay(
                    fork_choice.nodes(),
                    fork_choice.votes(),
                    ops,
                    k as int,
                ),
            decreases n - k,
        {
            let ghost s1 = fork_choice.nodes();
            let ghost v1 = fork_choice.votes();
            proof {
                assert(ops[k as int] == self.operations@[k as int]@);
            }
            let outcome = Self::perform_on(&mut fork_choice, &self.operations[k], k);
            proof {
                let step = perform(s1, v1, ops[k as int], k as int);
                assert(replay(s1, v1, ops, k as int) == match step {
                    Err(failure) => Err::<(), RunFailure>(failure),
                    Ok(after) => replay(after.0, after.1, ops, k + 1),
                });
            }
            match outcome {
                Err(failure) => {
                    return Err(failure);
                },
                Ok(()) => {},
            }
            k += 1;
        }
        Ok(())
    }
}

} // verus!
