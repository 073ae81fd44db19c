use vstd::prelude::*;
use crate::hash::Hash256;

verus! {

/// A slot number.
#[derive(Clone, Copy, Debug, PartialEq, Eq, Structural, Hash)]
pub struct Slot(pub u64);

impl Slot {
    /// The slot with number `slot`.
    pub fn new(slot: u64) -> (s: Slot)
        ensures
            s.0 == slot,
    {
        Slot(slot)
    }

    /// The slot's number.
    pub fn as_u64(&self) -> (n: u64)
        ensures
            n == self.0,
    {
        self.0
    }
}

/// An epoch number.
#[derive(Clone, Copy, Debug, PartialEq, Eq, Structural, Hash)]
pub struct Epoch(pub u64);

impl Epoch {
    /// The epoch with number `epoch`.
    pub fn new(epoch: u64) -> (e: Epoch)
        ensures
            e.0 == epoch,
    {
        Epoch(epoch)
    }

    /// The epoch's number.
    pub fn as_u64(&self) -> (n: u64)
        ensures
            n == self.0,
    {
        self.0
    }
}

/// An epoch paired with a block root: a point of validator agreement.
///
/// Two checkpoints are equal exactly when both fields are.
#[derive(Clone, Copy, Debug, PartialEq, Eq, Structural, Hash)]
pub struct Checkpoint {
    pub epoch: Epoch,
    pub root: Hash256,
}

} // verus!
