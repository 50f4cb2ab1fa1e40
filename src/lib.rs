//! A generic state-space search engine: a problem is described by a state
//! type, the actions legal from each state and a goal test, and the engine
//! explores it depth first or breadth first, keeping the path to every node.
use vstd::prelude::*;

pub mod algos;
pub mod dup_protection;
pub mod frontiers;
pub mod output;

pub use dup_protection::StateCacheSet;
pub use frontiers::{PriorityFrontier, QueueFrontier, StackFrontier};
pub use output::SearchResult;

verus! {

/// A single legal transition between two states; copying it is free.
pub trait Action: Copy {}

/// An action that carries a numeric cost.
pub trait CostAction: Action {
    fn cost(&self) -> usize;
}

/// A state of a search problem.
///
/// `get_available_actions` lists the actions legal from the state and
/// `apply` builds the successor that one of them leads to. Both must be pure:
/// equal arguments give equal results (see `pure_state`).
pub trait State: Sized + Clone + Eq + core::hash::Hash {
    type Action: Action;

    fn get_available_actions(&self) -> Vec<Self::Action>;

    /// This builds a new state from the previous one.
    fn apply(&self, action: &Self::Action) -> Self;
}

/// The actions that `get_available_actions` offers in `s`.
pub open spec fn actions_of<S: State>(s: S) -> Seq<S::Action> {
    (choose|v: Vec<S::Action>| call_ensures(S::get_available_actions, (&s,), v))@
}

/// The state that `apply` builds from `s` and `action`.
pub open spec fn successor_of<S: State>(s: S, action: S::Action) -> S {
    choose|t: S| call_ensures(S::apply, (&s, &action), t)
}

/// The state's operations are functions of their arguments: every call
/// returns what `actions_of` and `successor_of` name.
pub open spec fn pure_state<S: State>() -> bool {
    &&& forall|s: S, v: Vec<S::Action>|
        #[trigger] call_ensures(S::get_available_actions, (&s,), v) ==> v@ == actions_of(s)
    &&& forall|s: S, a: S::Action, t: S|
        #[trigger] call_ensures(S::apply, (&s, &a), t) ==> t == successor_of(s, a)
}

/// The state reached from `start` by taking the actions of `path` in order.
pub open spec fn replay<S: State>(start: S, path: Seq<S::Action>) -> S
    decreases path.len(),
{
    if path.len() == 0 {
        start
    } else {
        successor_of(replay(start, path.drop_last()), path.last())
    }
}

/// Every action of `path` is legal in the state where it is taken.
pub open spec fn legal_path<S: State>(start: S, path: Seq<S::Action>) -> bool
    decreases path.len(),
{
    if path.len() == 0 {
        true
    } else {
        legal_path(start, path.drop_last()) && actions_of(replay(start, path.drop_last())).contains(
            path.last(),
        )
    }
}

/// Some legal path leads from `start` to `target`.
pub open spec fn reachable<S: State>(start: S, target: S) -> bool {
    exists|path: Seq<S::Action>| legal_path(start, path) && replay(start, path) == target
}

/// All the states reachable from `start`.
pub open spec fn reachable_states<S: State>(start: S) -> Set<S> {
    Set::new(|t: S| reachable(start, t))
}

/// A search problem: an initial state and a goal test.
pub trait Space {
    type State: State;
    type Action: Action;

    fn initial_state(&self) -> Self::State;

    /// The goal test; it must depend on the state alone.
    fn is_goal(&self, state: &Self::State) -> bool;
}

/// The state that `initial_state` returns.
pub open spec fn start_of<P: Space>(space: P) -> P::State {
    choose|t: P::State| call_ensures(P::initial_state, (&space,), t)
}

/// What `is_goal` answers for `s`.
pub open spec fn goal_of<P: Space>(space: P, s: P::State) -> bool {
    choose|b: bool| call_ensures(P::is_goal, (&space, &s), b)
}

/// The space's operations, and those of its states, are functions of their arguments.
pub open spec fn pure_space<P: Space>(space: P) -> bool {
    &&& pure_state::<P::State>()
    &&& forall|t: P::State|
        #[trigger] call_ensures(P::initial_state, (&space,), t) ==> t == start_of(space)
    &&& forall|s: P::State, b: bool|
        #[trigger] call_ensures(P::is_goal, (&space, &s), b) ==> b == goal_of(space, s)
}

/// A search node: a state and the actions that led to it from the initial state.
#[derive(Debug, Clone)]
pub struct Node<S: State> {
    state: S,
    path: Vec<S::Action>,
}

impl<S: State> Node<S> {
    pub closed spec fn spec_state(&self) -> S {
        self.state
    }

    pub closed spec fn spec_path(&self) -> Seq<S::Action> {
        self.path@
    }

    /// The vector that holds the node's path.
    pub closed spec fn spec_path_vec(&self) -> Vec<S::Action> {
        self.path
    }

    /// The node's state is the one its path leads to from `start`, through legal actions.
    pub open spec fn valid_from(&self, start: S) -> bool {
        legal_path(start, self.spec_path()) && replay(start, self.spec_path()) == self.spec_state()
    }

    /// The root node: `state` with an empty path.
    pub fn new(state: S) -> (r: Self)
        ensures
            r.spec_state() == state,
            r.spec_path() == Seq::<S::Action>::empty(),
    {
        Self { state, path: Vec::new() }
    }

    pub fn state(&self) -> (r: &S)
        ensures
            *r == self.spec_state(),
    {
        &self.state
    }

    pub fn path(&self) -> (r: &Vec<S::Action>)
        ensures
            r@ == self.spec_path(),
    {
        &self.path
    }

    /// The child node reached by `action`: its state is the successor and its
    /// path is this node's path with `action` appended.
    pub fn apply(&self, action: &S::Action) -> (r: Self)
        requires
            pure_state::<S>(),
        ensures
            r.spec_state() == successor_of(self.spec_state(), *action),
            r.spec_path() == self.spec_path().push(*action),
    {
        let state = self.state.apply(action);
        let mut path: Vec<S::Action> = Vec::new();
        let mut i: usize = 0;
        while i < self.path.len()
            invariant
                i <= self.path@.len(),
                path@ == self.path@.subrange(0, i as int),
            decreases self.path@.len() - i,
        {
            path.push(self.path[i]);
            i = i + 1;
        }
        assert(path@ == self.path@);
        path.push(*action);
        Self { state, path }
    }

    /// Takes the node apart into its state and its path.
    pub fn into_parts(self) -> (r: (S, Vec<S::Action>))
        ensures
            r.0 == self.spec_state(),
            r.1 == self.spec_path_vec(),
            r.1@ == self.spec_path(),
    {
        (self.state, self.path)
    }
}

/// Lemma: a node extended by a legal action stays valid.
pub proof fn lemma_child_valid<S: State>(start: S, parent: Node<S>, action: S::Action, child: Node<S>)
    requires
        parent.valid_from(start),
        actions_of(parent.spec_state()).contains(action),
        child.spec_state() == successor_of(parent.spec_state(), action),
        child.spec_path() == parent.spec_path().push(action),
    ensures
        child.valid_from(start),
{
    assert(child.spec_path().drop_last() =~= parent.spec_path());
}

/// A search strategy: explores a space and reports the first goal it reaches.
pub trait SearchAlgorithm {
    fn search<P: Space>(space: P) -> (r: Option<SearchResult<P::State>>)
        requires
            crate::algos::searchable(space),
        ensures
            crate::algos::search_outcome(space, r),
            r is Some <==> crate::algos::solvable(space),
            r matches Some(res) ==> crate::algos::expands_each_state_once(space, res),
    ;
}

/// Depth-first search: the most recently generated node is expanded first.
pub struct DepthFirstSearch {}

impl SearchAlgorithm for DepthFirstSearch {
    fn search<P: Space>(space: P) -> (r: Option<SearchResult<P::State>>) {
        crate::algos::search_with::<StackFrontier<P::State>, P>(&space)
    }
}

/// Breadth-first search: nodes are expanded in the order they were generated,
/// so the goal found is one with the fewest actions.
pub struct BreadthFirstSearch {}

impl SearchAlgorithm for BreadthFirstSearch {
    fn search<P: Space>(space: P) -> (r: Option<SearchResult<P::State>>)
        ensures
            r matches Some(res) ==> crate::algos::fewest_actions(space, res),
    {
        crate::algos::search_with::<QueueFrontier<P::State>, P>(&space)
    }
}

/// Search for spaces whose actions carry a cost. Costs do not yet steer the
/// order: nodes are expanded in the order they were generated.
pub trait UniformCostSearch {
    fn uniform_search<P: Space>(space: P) -> (r: Option<SearchResult<P::State>>) where
        P::Action: CostAction,

        requires
            crate::algos::searchable(space),
        ensures
            crate::algos::search_outcome(space, r),
            r is Some <==> crate::algos::solvable(space),
            r matches Some(res) ==> crate::algos::expands_each_state_once(space, res),
    ;
}

impl<S> UniformCostSearch for S where S: Space, S::Action: CostAction {
    fn uniform_search<P: Space>(space: P) -> (r: Option<SearchResult<P::State>>) where
        P::Action: CostAction,
    {
        crate::algos::search_with::<QueueFrontier<P::State>, P>(&space)
    }
}

} // verus!
