//! The duplicate-state cache: the states that a search has expanded.
use crate::State;
use std::collections::HashSet;
use vstd::prelude::*;

verus! {

broadcast use vstd::std_specs::hash::group_hash_axioms;

/// A set of expanded states; it only grows.
pub struct StateCacheSet<S: State> {
    seen: HashSet<S>,
}

impl<S: State> View for StateCacheSet<S> {
    type V = Set<S>;

    closed spec fn view(&self) -> Set<S> {
        self.seen@
    }
}

impl<S: State> StateCacheSet<S> {
    pub fn new() -> (r: Self)
        ensures
            r@ == Set::<S>::empty(),
    {
        Self { seen: HashSet::new() }
    }

    pub fn contains(&self, state: &S) -> (r: bool)
        requires
            vstd::std_specs::hash::obeys_key_model::<S>(),
        ensures
            r == self@.contains(*state),
    {
        self.seen.contains(state)
    }

    pub fn insert(&mut self, state: S)
        requires
            vstd::std_specs::hash::obeys_key_model::<S>(),
        ensures
            final(self)@ == old(self)@.insert(state),
    {
        self.seen.insert(state);
    }

    pub fn len(&self) -> (r: usize)
        requires
            vstd::std_specs::hash::obeys_key_model::<S>(),
        ensures
            r == self@.len(),
    {
        self.seen.len()
    }
}

} // verus!
