//! Frontiers: the nodes waiting to be expanded, and the order they leave in.
use crate::{Node, State};
use core::cmp::Ordering;
use std::collections::VecDeque;
use vstd::prelude::*;
use vstd::std_specs::cmp::{OrdSpec, PartialOrdSpec};

verus! {

/// An ordering of the nodes that wait for expansion.
pub trait Frontier: Sized {
    type State: State;

    /// The nodes held, oldest first.
    spec fn nodes(&self) -> Seq<Node<Self::State>>;

    /// The position of the node that `pop` hands out next.
    spec fn next_index(&self) -> int;

    /// Whether nodes leave in the order they came (first in, first out).
    spec fn first_in_first_out() -> bool;

    /// A frontier that holds the root node of `initial_state` alone.
    fn new(initial_state: Self::State) -> (r: Self)
        ensures
            r.nodes().len() == 1,
            r.nodes()[0].spec_state() == initial_state,
            r.nodes()[0].spec_path() == Seq::<<Self::State as State>::Action>::empty(),
    ;

    fn push(&mut self, state: Node<Self::State>)
        ensures
            final(self).nodes() == old(self).nodes().push(state),
    ;

    fn pop(&mut self) -> (r: Option<Node<Self::State>>)
        ensures
            old(self).nodes().len() == 0 ==> r is None && final(self).nodes() == old(self).nodes(),
            old(self).nodes().len() > 0 ==> {
                &&& 0 <= old(self).next_index() < old(self).nodes().len()
                &&& r == Some(old(self).nodes()[old(self).next_index()])
                &&& final(self).nodes() == old(self).nodes().remove(old(self).next_index())
            },
            Self::first_in_first_out() ==> old(self).next_index() == 0,
    ;
}

/// First in, first out: breadth-first order.
pub struct QueueFrontier<S: State> {
    queue: VecDeque<Node<S>>,
}

impl<S: State> Frontier for QueueFrontier<S> {
    type State = S;

    closed spec fn nodes(&self) -> Seq<Node<S>> {
        self.queue@
    }

    open spec fn next_index(&self) -> int {
        0
    }

    open spec fn first_in_first_out() -> bool {
        true
    }

    fn new(initial_state: S) -> (r: Self) {
        let mut queue = VecDeque::new();
        queue.push_back(Node::new(initial_state));
        Self { queue }
    }

    fn push(&mut self, state: Node<S>) {
        self.queue.push_back(state);
    }

    fn pop(&mut self) -> (r: Option<Node<S>>) {
        let r = self.queue.pop_front();
        proof {
            if old(self).queue@.len() > 0 {
                assert(self.queue@ =~= old(self).queue@.remove(0));
            }
        }
        r
    }
}

/// Last in, first out: depth-first order.
pub struct StackFrontier<S: State> {
    stack: Vec<Node<S>>,
}

impl<S: State> Frontier for StackFrontier<S> {
    type State = S;

    closed spec fn nodes(&self) -> Seq<Node<S>> {
        self.stack@
    }

    open spec fn next_index(&self) -> int {
        self.nodes().len() - 1
    }

    open spec fn first_in_first_out() -> bool {
        false
    }

    fn new(initial_state: S) -> (r: Self) {
        let mut stack = Vec::new();
        stack.push(Node::new(initial_state));
        Self { stack }
    }

    fn push(&mut self, state: Node<S>) {
        self.stack.push(state);
    }

    fn pop(&mut self) -> (r: Option<Node<S>>) {
        let r = self.stack.pop();
        proof {
            if old(self).stack@.len() > 0 {
                assert(self.stack@ =~= old(self).stack@.remove(old(self).stack@.len() - 1));
            }
        }
        r
    }
}

/// States ordered by priority: `pop` hands out a greatest one. It is not used
/// by the search algorithms; it is there for cost-aware strategies.
pub struct PriorityFrontier<S: State + Ord> {
    entries: Vec<S>,
}

impl<S: State + Ord> PriorityFrontier<S> {
    /// The states held, in no particular order.
    pub closed spec fn items(&self) -> Seq<S> {
        self.entries@
    }

    pub fn new() -> (r: Self)
        ensures
            r.items() == Seq::<S>::empty(),
    {
        Self { entries: Vec::new() }
    }

    pub fn push(&mut self, state: S)
        ensures
            final(self).items() == old(self).items().push(state),
    {
        self.entries.push(state);
    }

    /// Removes and returns a greatest state, or `None` when empty.
    pub fn pop(&mut self) -> (r: Option<S>)
        requires
            vstd::laws_cmp::obeys_cmp::<S>(),
        ensures
            old(self).items().len() == 0 ==> r is None && final(self).items() == old(self).items(),
            old(self).items().len() > 0 ==> exists|i: int|
                0 <= i < old(self).items().len() && r == Some(old(self).items()[i])
                    && final(self).items() == old(self).items().remove(i) && forall|j: int|
                    0 <= j < old(self).items().len() ==> (#[trigger] old(self).items()[j]).cmp_spec(
                        &old(self).items()[i],
                    ) != Ordering::Greater,
    {
        if self.entries.len() == 0 {
            return None;
        }
        proof {
            lemma_not_above_itself(self.entries@[0]);
        }
        let mut best: usize = 0;
        let mut i: usize = 1;
        while i < self.entries.len()
            invariant
                self.entries@ == old(self).entries@,
                vstd::laws_cmp::obeys_cmp::<S>(),
                0 <= best < i <= self.entries@.len(),
                forall|j: int|
                    0 <= j < i ==> (#[trigger] self.entries@[j]).cmp_spec(&self.entries@[best as int])
                        != Ordering::Greater,
            decreases self.entries@.len() - i,
        {
            proof {
                reveal(vstd::laws_cmp::obeys_cmp_ord);
                reveal(vstd::laws_cmp::obeys_partial_cmp_spec_properties);
            }
            match self.entries[i].cmp(&self.entries[best]) {
                Ordering::Greater => {
                    proof {
                        let h = self.entries@;
                        assert forall|j: int| 0 <= j < i implies (#[trigger] h[j]).cmp_spec(&h[i as int])
                            != Ordering::Greater by {
                            let (x, y, z) = (h[j], h[i as int], h[best as int]);
                            if x.cmp_spec(&y) == Ordering::Greater {
                                assert(x.partial_cmp_spec(&y) == Some(Ordering::Greater));
                                assert(y.partial_cmp_spec(&z) == Some(Ordering::Greater));
                                assert(x.partial_cmp_spec(&z) == Some(Ordering::Greater));
                            }
                        }
                        lemma_not_above_itself(h[i as int]);
                    }
                    best = i;
                },
                _ => {},
            }
            i = i + 1;
        }
        Some(self.entries.remove(best))
    }
}

proof fn lemma_not_above_itself<S: Ord>(x: S)
    requires
        vstd::laws_cmp::obeys_cmp::<S>(),
    ensures
        x.cmp_spec(&x) != Ordering::Greater,
{
    reveal(vstd::laws_cmp::obeys_cmp_ord);
    reveal(vstd::laws_cmp::obeys_partial_cmp_spec_properties);
    assert(x.partial_cmp_spec(&x) == Some(x.cmp_spec(&x)));
    assert(x.partial_cmp_spec(&x) == Some(Ordering::Less) <==> x.partial_cmp_spec(&x)
        == Some(Ordering::Greater));
}

} // verus!
