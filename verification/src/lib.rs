//! A fork-choice engine over a flat, insertion-ordered block tree.
//!
//! Blocks are appended to a [`proto_array::ProtoArray`], which finds them
//! again by root through a sorted table. Validators' latest votes are buffered
//! in [`fork_choice::ForkChoice`]; a head search commits them, turns them into
//! signed weight deltas, carries the deltas up the tree, brings every node's
//! best child and best descendant up to date and then follows the best
//! descendants from the justified block, going back to the first block whose
//! checkpoints allow it to be the head. Pruning keeps the finalized block and
//! its descendants.
//!
//! Every function states what it returns and how it changes the engine, over
//! the sequence of nodes and the sequence of vote trackers as mathematical
//! values. What holds of the engine as a whole is proved in [`theorems`].

pub mod hash;
pub mod checkpoint;
pub mod error;
pub mod node;
pub mod tree;
pub mod index;
pub mod weights;
pub mod best;
pub mod head;
pub mod prune;
pub mod proto_array;
pub mod votes;
pub mod fork_choice;
pub mod fork_choice_test_definition;
pub mod theorems;
