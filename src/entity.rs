//! The entity model: states with a distance, agents and tasks.
use vstd::prelude::*;

verus! {

/// A cost between two states. Costs are non-negative integers.
pub trait Distance: Sized {
    /// The cost of moving from `self` to `other`.
    spec fn dist(self, other: Self) -> nat;

    fn distance(&self, other: &Self) -> (r: u64)
        ensures
            r as nat == self.dist(*other),
    ;
}

/// A mobile agent, known by its current state.
#[derive(Debug, Clone, Copy)]
pub struct Agent<T> {
    pub state: T,
}

/// A task with a stable identifier: travel from `from` to `to`.
#[derive(Debug, Clone, Copy)]
pub struct Task<T> {
    pub id: usize,
    pub from: T,
    pub to: T,
}

} // verus!
