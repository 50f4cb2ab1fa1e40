//! What a successful search reports.
use crate::{Node, State};
use vstd::prelude::*;

verus! {

/// The goal state found, the actions that lead to it from the initial state,
/// and the search's counters.
#[derive(Debug)]
pub struct SearchResult<S: State> {
    pub end_state: S,
    pub path: Vec<S::Action>,
    pub expanded: usize,
    pub generated: usize,
}

impl<S: State> SearchResult<S> {
    pub fn new(node: Node<S>, generated: usize, expanded: usize) -> (r: Self)
        ensures
            r.end_state == node.spec_state(),
            r.path == node.spec_path_vec(),
            r.path@ == node.spec_path(),
            r.expanded == expanded,
            r.generated == generated,
    {
        let (end_state, path) = node.into_parts();
        Self { end_state, path, expanded, generated }
    }
}

impl<S: State> From<Node<S>> for SearchResult<S> {
    fn from(node: Node<S>) -> (r: Self) {
        SearchResult::new(node, 0, 0)
    }
}

impl<S: State> vstd::std_specs::convert::FromSpecImpl<Node<S>> for SearchResult<S> {
    open spec fn obeys_from_spec() -> bool {
        true
    }

    open spec fn from_spec(node: Node<S>) -> Self {
        SearchResult {
            end_state: node.spec_state(),
            path: node.spec_path_vec(),
            expanded: 0,
            generated: 0,
        }
    }
}

} // verus!
