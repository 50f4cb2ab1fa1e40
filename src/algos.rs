//! The search algorithms: one loop, generic over the order of the frontier.
use crate::frontiers::{Frontier, QueueFrontier, StackFrontier};
use crate::{Node, SearchResult, Space, State, StateCacheSet};
use rayon::iter::{IntoParallelIterator, ParallelIterator};
use vstd::prelude::*;

verus! {

/// `r` reports a goal state together with a legal path that leads to it from
/// the initial state, and counts no more expanded states than generated ones.
pub open spec fn solves<P: Space>(space: P, r: SearchResult<P::State>) -> bool {
    &&& crate::legal_path(crate::start_of(space), r.path@)
    &&& crate::replay(crate::start_of(space), r.path@) == r.end_state
    &&& crate::goal_of(space, r.end_state)
    &&& r.generated >= r.expanded
}

/// Some goal state is reachable from the initial state.
pub open spec fn solvable<P: Space>(space: P) -> bool {
    exists|t: P::State| crate::reachable(crate::start_of(space), t) && crate::goal_of(space, t)
}

/// A search either solves the space, or reports nothing and the space has no solution.
pub open spec fn search_outcome<P: Space>(space: P, r: Option<SearchResult<P::State>>) -> bool {
    match r {
        Some(res) => solves(space, res),
        None => !solvable(space),
    }
}

/// No legal path that ends in a goal state is shorter than the one reported.
pub open spec fn fewest_actions<P: Space>(space: P, r: SearchResult<P::State>) -> bool {
    forall|path: Seq<<P::State as State>::Action>|
        crate::legal_path(crate::start_of(space), path) && crate::goal_of(
            space,
            #[trigger] crate::replay(crate::start_of(space), path),
        )
            ==> r.path@.len() <= path.len()
}

/// The number of actions that the states of `order` offer between them.
pub open spec fn branching<S: State>(order: Seq<S>) -> nat
    decreases order.len(),
{
    if order.len() == 0 {
        0
    } else {
        branching(order.drop_last()) + crate::actions_of(order.last()).len()
    }
}

/// `order` lists the states a search expanded: reachable, not goals, each
/// once, and as many as `r` reports expanded.
pub open spec fn expanded_states<P: Space>(
    space: P,
    order: Seq<P::State>,
    r: SearchResult<P::State>,
) -> bool {
    &&& order.no_duplicates()
    &&& order.len() == r.expanded
    &&& forall|i: int|
        0 <= i < order.len() ==> crate::reachable(crate::start_of(space), #[trigger] order[i])
            && !crate::goal_of(space, order[i])
}

/// No state is expanded twice: the expanded states are distinct, and the
/// generated count is exactly the number of actions they offer (unless that
/// count reached `usize::MAX`, where it stops).
pub open spec fn expands_each_state_once<P: Space>(space: P, r: SearchResult<P::State>) -> bool {
    exists|order: Seq<P::State>|
        #[trigger] expanded_states(space, order, r) && (r.generated == usize::MAX || r.generated
            == branching(order))
}

/// No state is expanded twice: the expanded states are distinct, and the
/// generated count is at most the number of actions they offer.
pub open spec fn expands_each_state_at_most_once<P: Space>(
    space: P,
    r: SearchResult<P::State>,
) -> bool {
    exists|order: Seq<P::State>|
        #[trigger] expanded_states(space, order, r) && r.generated <= branching(order)
}

/// What a search needs of a space: its operations are pure, equal states hash
/// and compare alike, and finitely many states are reachable, so that the
/// search ends.
pub open spec fn searchable<P: Space>(space: P) -> bool {
    &&& crate::pure_space(space)
    &&& vstd::std_specs::hash::obeys_key_model::<P::State>()
    &&& crate::reachable_states(crate::start_of(space)).finite()
}

spec fn all_valid<S: State>(start: S, nodes: Seq<Node<S>>) -> bool {
    forall|i: int| 0 <= i < nodes.len() ==> #[trigger] nodes[i].valid_from(start)
}

spec fn in_frontier<S: State>(nodes: Seq<Node<S>>, t: S) -> bool {
    exists|i: int| 0 <= i < nodes.len() && #[trigger] nodes[i].spec_state() == t
}

spec fn within<S: State>(nodes: Seq<Node<S>>, t: S, d: nat) -> bool {
    exists|i: int|
        0 <= i < nodes.len() && #[trigger] nodes[i].spec_state() == t && nodes[i].spec_path().len()
            <= d
}

/// Every successor of an expanded state is expanded too, or waits in the frontier.
spec fn closed_under<S: State>(visited: Set<S>, nodes: Seq<Node<S>>) -> bool {
    forall|s: S, a: S::Action|
        #![trigger visited.contains(s), crate::actions_of(s).contains(a)]
        visited.contains(s) && crate::actions_of(s).contains(a) ==> visited.contains(crate::successor_of(s, a))
            || in_frontier(nodes, crate::successor_of(s, a))
}

spec fn core_inv<S: State>(start: S, visited: Set<S>, nodes: Seq<Node<S>>) -> bool {
    &&& all_valid(start, nodes)
    &&& closed_under(visited, nodes)
    &&& visited.contains(start) || in_frontier(nodes, start)
}

spec fn covered_within<S: State>(
    visited: Set<S>,
    depth: Map<S, nat>,
    nodes: Seq<Node<S>>,
    t: S,
    d: nat,
) -> bool {
    (visited.contains(t) && depth[t] <= d) || within(nodes, t, d)
}

/// Breadth-first layering: the frontier is ordered by depth and spans at most
/// two depths, expanded states lie no deeper than any waiting node, and each
/// successor of an expanded state is covered at most one level further down.
spec fn layered<S: State>(start: S, visited: Set<S>, depth: Map<S, nat>, nodes: Seq<Node<S>>) -> bool {
    &&& forall|s: S, a: S::Action|
        #![trigger visited.contains(s), crate::actions_of(s).contains(a)]
        visited.contains(s) && crate::actions_of(s).contains(a) ==> covered_within(
            visited,
            depth,
            nodes,
            crate::successor_of(s, a),
            depth[s] + 1,
        )
    &&& covered_within(visited, depth, nodes, start, 0)
    &&& forall|i: int, j: int|
        0 <= i <= j < nodes.len() ==> #[trigger] nodes[i].spec_path().len()
            <= #[trigger] nodes[j].spec_path().len()
    &&& forall|i: int|
        0 <= i < nodes.len() ==> #[trigger] nodes[i].spec_path().len() <= nodes[0].spec_path().len()
            + 1
    &&& forall|s: S, i: int|
        #![trigger visited.contains(s), nodes[i]]
        visited.contains(s) && 0 <= i < nodes.len() ==> depth[s] <= nodes[i].spec_path().len()
}

proof fn lemma_prefix_legal<S: State>(start: S, path: Seq<S::Action>, j: int)
    requires
        crate::legal_path(start, path),
        0 <= j <= path.len(),
    ensures
        crate::legal_path(start, path.take(j)),
    decreases path.len(),
{
    if j == path.len() {
        assert(path.take(j) =~= path);
    } else {
        lemma_prefix_legal(start, path.drop_last(), j);
        assert(path.drop_last().take(j) =~= path.take(j));
    }
}

/// The step from the prefix of length `i` to the one of length `i + 1`.
proof fn lemma_prefix_step<S: State>(start: S, path: Seq<S::Action>, i: int)
    requires
        crate::legal_path(start, path),
        0 <= i < path.len(),
    ensures
        crate::actions_of(crate::replay(start, path.take(i))).contains(path[i]),
        crate::replay(start, path.take(i + 1)) == crate::successor_of(
            crate::replay(start, path.take(i)),
            path[i],
        ),
{
    lemma_prefix_legal(start, path, i + 1);
    assert(path.take(i + 1).drop_last() =~= path.take(i));
}

/// When nothing waits and the expanded states are closed under successors and
/// hold the start, they hold every reachable state.
proof fn lemma_closed_holds_reachable<S: State>(start: S, visited: Set<S>, path: Seq<S::Action>)
    requires
        closed_under(visited, Seq::<Node<S>>::empty()),
        visited.contains(start),
        crate::legal_path(start, path),
    ensures
        visited.contains(crate::replay(start, path)),
    decreases path.len(),
{
    if path.len() > 0 {
        lemma_closed_holds_reachable(start, visited, path.drop_last());
        let s = crate::replay(start, path.drop_last());
        assert(visited.contains(s) && crate::actions_of(s).contains(path.last()));
    }
}

proof fn lemma_exhausted<P: Space>(space: P, visited: Set<P::State>)
    requires
        closed_under(visited, Seq::<Node<P::State>>::empty()),
        visited.contains(crate::start_of(space)),
        forall|s: P::State| visited.contains(s) ==> !crate::goal_of(space, s),
    ensures
        !solvable(space),
{
    assert forall|t: P::State| crate::reachable(crate::start_of(space), t) implies !crate::goal_of(space, t) by {
        let path = choose|path: Seq<<P::State as State>::Action>|
            crate::legal_path(crate::start_of(space), path) && crate::replay(crate::start_of(space), path) == t;
        lemma_closed_holds_reachable(crate::start_of(space), visited, path);
    }
}

/// Along a legal path, each prefix of length `i` ends in a state covered
/// within depth `i`, unless some waiting node lies no deeper than `i`.
proof fn lemma_prefix_covered<S: State>(
    start: S,
    visited: Set<S>,
    depth: Map<S, nat>,
    nodes: Seq<Node<S>>,
    path: Seq<S::Action>,
    i: int,
)
    requires
        layered(start, visited, depth, nodes),
        crate::legal_path(start, path),
        0 <= i <= path.len(),
    ensures
        covered_within(visited, depth, nodes, crate::replay(start, path.take(i)), i as nat)
            || exists|j: int| 0 <= j < nodes.len() && #[trigger] nodes[j].spec_path().len() <= i,
    decreases i,
{
    if i == 0 {
        assert(path.take(0) =~= Seq::<S::Action>::empty());
    } else {
        lemma_prefix_covered(start, visited, depth, nodes, path, i - 1);
        lemma_prefix_step(start, path, i - 1);
        let s = crate::replay(start, path.take(i - 1));
        if visited.contains(s) && depth[s] <= i - 1 {
            assert(visited.contains(s) && crate::actions_of(s).contains(path[i - 1]));
        } else if within(nodes, s, (i - 1) as nat) {
            let j = choose|j: int|
                0 <= j < nodes.len() && #[trigger] nodes[j].spec_state() == s
                    && nodes[j].spec_path().len() <= (i - 1) as nat;
            assert(nodes[j].spec_path().len() <= i);
        }
    }
}

/// Breadth-first: a goal reached by `path` is not expanded, so some waiting
/// node lies no deeper than `path` is long, and the front node is no deeper.
proof fn lemma_front_is_shallowest<S: State>(
    start: S,
    visited: Set<S>,
    depth: Map<S, nat>,
    nodes: Seq<Node<S>>,
    path: Seq<S::Action>,
)
    requires
        layered(start, visited, depth, nodes),
        nodes.len() > 0,
        crate::legal_path(start, path),
        !visited.contains(crate::replay(start, path)),
    ensures
        nodes[0].spec_path().len() <= path.len(),
{
    lemma_prefix_covered(start, visited, depth, nodes, path, path.len() as int);
    assert(path.take(path.len() as int) =~= path);
    let k = path.len() as int;
    if within(nodes, crate::replay(start, path), k as nat) {
        let j = choose|j: int|
            0 <= j < nodes.len() && #[trigger] nodes[j].spec_state() == crate::replay(start, path)
                && nodes[j].spec_path().len() <= k as nat;
        assert(nodes[0].spec_path().len() <= nodes[j].spec_path().len());
    } else {
        let j = choose|j: int| 0 <= j < nodes.len() && #[trigger] nodes[j].spec_path().len() <= k;
        assert(nodes[0].spec_path().len() <= nodes[j].spec_path().len());
    }
}

proof fn lemma_remove_keeps<S: State>(nodes: Seq<Node<S>>, idx: int, t: S, d: nat)
    requires
        0 <= idx < nodes.len(),
        nodes[idx].spec_state() != t,
    ensures
        in_frontier(nodes, t) ==> in_frontier(nodes.remove(idx), t),
        within(nodes, t, d) ==> within(nodes.remove(idx), t, d),
{
    let rest = nodes.remove(idx);
    if in_frontier(nodes, t) {
        let i = choose|i: int| 0 <= i < nodes.len() && #[trigger] nodes[i].spec_state() == t;
        if i < idx {
            assert(rest[i] == nodes[i]);
        } else {
            assert(rest[i - 1] == nodes[i]);
        }
    }
    if within(nodes, t, d) {
        let i = choose|i: int|
            0 <= i < nodes.len() && #[trigger] nodes[i].spec_state() == t
                && nodes[i].spec_path().len() <= d;
        if i < idx {
            assert(rest[i] == nodes[i]);
        } else {
            assert(rest[i - 1] == nodes[i]);
        }
    }
}

proof fn lemma_append_keeps<S: State>(front: Seq<Node<S>>, back: Seq<Node<S>>, t: S, d: nat)
    ensures
        in_frontier(front, t) || in_frontier(back, t) ==> in_frontier(front + back, t),
        within(front, t, d) || within(back, t, d) ==> within(front + back, t, d),
{
    let all = front + back;
    if in_frontier(front, t) {
        let i = choose|i: int| 0 <= i < front.len() && #[trigger] front[i].spec_state() == t;
        assert(all[i] == front[i]);
    } else if in_frontier(back, t) {
        let i = choose|i: int| 0 <= i < back.len() && #[trigger] back[i].spec_state() == t;
        assert(all[front.len() + i] == back[i]);
    }
    if within(front, t, d) {
        let i = choose|i: int|
            0 <= i < front.len() && #[trigger] front[i].spec_state() == t
                && front[i].spec_path().len() <= d;
        assert(all[i] == front[i]);
    } else if within(back, t, d) {
        let i = choose|i: int|
            0 <= i < back.len() && #[trigger] back[i].spec_state() == t
                && back[i].spec_path().len() <= d;
        assert(all[front.len() + i] == back[i]);
    }
}

/// Dropping a popped node whose state was already expanded keeps the invariants.
proof fn lemma_drop_duplicate<S: State>(
    start: S,
    visited: Set<S>,
    depth: Map<S, nat>,
    nodes: Seq<Node<S>>,
    idx: int,
    fifo: bool,
)
    requires
        core_inv(start, visited, nodes),
        0 <= idx < nodes.len(),
        visited.contains(nodes[idx].spec_state()),
        fifo ==> idx == 0 && layered(start, visited, depth, nodes),
    ensures
        core_inv(start, visited, nodes.remove(idx)),
        fifo ==> layered(start, visited, depth, nodes.remove(idx)),
{
    let rest = nodes.remove(idx);
    assert forall|i: int| 0 <= i < rest.len() implies #[trigger] rest[i].valid_from(start) by {
        if i < idx {
            assert(rest[i] == nodes[i]);
        } else {
            assert(rest[i] == nodes[i + 1]);
        }
    }
    assert forall|s: S, a: S::Action|
        #![trigger visited.contains(s), crate::actions_of(s).contains(a)]
        visited.contains(s) && crate::actions_of(s).contains(a) implies visited.contains(
            crate::successor_of(s, a),
        )
        || in_frontier(rest, crate::successor_of(s, a)) by {
        if nodes[idx].spec_state() != crate::successor_of(s, a) {
            lemma_remove_keeps(nodes, idx, crate::successor_of(s, a), 0);
        }
    }
    if nodes[idx].spec_state() != start {
        lemma_remove_keeps(nodes, idx, start, 0);
    }
    if fifo {
        let d0 = nodes[0].spec_path().len();
        assert(depth[nodes[0].spec_state()] <= d0);
        assert forall|s: S, a: S::Action|
            #![trigger visited.contains(s), crate::actions_of(s).contains(a)]
            visited.contains(s) && crate::actions_of(s).contains(a) implies covered_within(
            visited,
            depth,
            rest,
            crate::successor_of(s, a),
            depth[s] + 1,
        ) by {
            let t = crate::successor_of(s, a);
            if nodes[0].spec_state() != t {
                lemma_remove_keeps(nodes, 0, t, depth[s] + 1);
            } else if within(nodes, t, depth[s] + 1) {
                let i = choose|i: int|
                    0 <= i < nodes.len() && #[trigger] nodes[i].spec_state() == t
                        && nodes[i].spec_path().len() <= depth[s] + 1;
                assert(nodes[0].spec_path().len() <= nodes[i].spec_path().len());
            }
        }
        if nodes[0].spec_state() != start {
            lemma_remove_keeps(nodes, 0, start, 0);
        }
        assert forall|i: int, j: int|
            0 <= i <= j < rest.len() implies #[trigger] rest[i].spec_path().len()
            <= #[trigger] rest[j].spec_path().len() by {
            assert(rest[i] == nodes[i + 1] && rest[j] == nodes[j + 1]);
        }
        assert forall|i: int| 0 <= i < rest.len() implies #[trigger] rest[i].spec_path().len()
            <= rest[0].spec_path().len() + 1 by {
            assert(rest[i] == nodes[i + 1] && rest[0] == nodes[1]);
            assert(nodes[0].spec_path().len() <= nodes[1].spec_path().len());
        }
        assert forall|s: S, i: int|
            #![trigger visited.contains(s), rest[i]]
            visited.contains(s) && 0 <= i < rest.len() implies depth[s]
            <= rest[i].spec_path().len() by {
            assert(rest[i] == nodes[i + 1]);
        }
    }
}

/// Expanding the popped node: its state joins the expanded ones and `extra`,
/// which covers the state's successors, joins the frontier.
proof fn lemma_expand<S: State>(
    start: S,
    visited: Set<S>,
    depth: Map<S, nat>,
    nodes: Seq<Node<S>>,
    idx: int,
    extra: Seq<Node<S>>,
    fifo: bool,
)
    requires
        core_inv(start, visited, nodes),
        0 <= idx < nodes.len(),
        !visited.contains(nodes[idx].spec_state()),
        all_valid(start, extra),
        forall|a: S::Action|
            #[trigger] crate::actions_of(nodes[idx].spec_state()).contains(a) ==> visited.insert(
                nodes[idx].spec_state(),
            ).contains(crate::successor_of(nodes[idx].spec_state(), a)) || in_frontier(
                extra,
                crate::successor_of(nodes[idx].spec_state(), a),
            ),
        fifo ==> {
            &&& idx == 0
            &&& layered(start, visited, depth, nodes)
            &&& forall|j: int|
                0 <= j < extra.len() ==> #[trigger] extra[j].spec_path().len()
                    == nodes[0].spec_path().len() + 1
            &&& forall|a: S::Action|
                #[trigger] crate::actions_of(nodes[0].spec_state()).contains(a) ==> within(
                    extra,
                    crate::successor_of(nodes[0].spec_state(), a),
                    nodes[0].spec_path().len() + 1,
                )
        },
    ensures
        core_inv(start, visited.insert(nodes[idx].spec_state()), nodes.remove(idx) + extra),
        fifo ==> layered(
            start,
            visited.insert(nodes[idx].spec_state()),
            depth.insert(nodes[idx].spec_state(), nodes[idx].spec_path().len()),
            nodes.remove(idx) + extra,
        ),
{
    let n = nodes[idx];
    let st = n.spec_state();
    let d = n.spec_path().len();
    let rest = nodes.remove(idx);
    let all = rest + extra;
    let v2 = visited.insert(st);
    let depth2 = depth.insert(st, d);
    assert forall|i: int| 0 <= i < all.len() implies #[trigger] all[i].valid_from(start) by {
        if i < idx {
            assert(all[i] == nodes[i]);
        } else if i < rest.len() {
            assert(all[i] == nodes[i + 1]);
        } else {
            assert(all[i] == extra[i - rest.len()]);
        }
    }
    assert forall|s: S, a: S::Action|
        #![trigger v2.contains(s), crate::actions_of(s).contains(a)]
        v2.contains(s) && crate::actions_of(s).contains(a) implies v2.contains(
            crate::successor_of(s, a),
        ) || in_frontier(
        all,
        crate::successor_of(s, a),
    ) by {
        let t = crate::successor_of(s, a);
        if s == st {
            assert(crate::actions_of(st).contains(a));
            lemma_append_keeps(rest, extra, t, 0);
        } else {
            assert(visited.contains(s) && crate::actions_of(s).contains(a));
            if st != t {
                lemma_remove_keeps(nodes, idx, t, 0);
                lemma_append_keeps(rest, extra, t, 0);
            }
        }
    }
    if st != start {
        lemma_remove_keeps(nodes, idx, start, 0);
        lemma_append_keeps(rest, extra, start, 0);
    }
    if fifo {
        assert forall|s: S, a: S::Action|
            #![trigger v2.contains(s), crate::actions_of(s).contains(a)]
            v2.contains(s) && crate::actions_of(s).contains(a) implies covered_within(
            v2,
            depth2,
            all,
            crate::successor_of(s, a),
            depth2[s] + 1,
        ) by {
            let t = crate::successor_of(s, a);
            if s == st {
                assert(crate::actions_of(st).contains(a));
                lemma_append_keeps(rest, extra, t, d + 1);
            } else {
                assert(visited.contains(s) && crate::actions_of(s).contains(a));
                if st != t {
                    lemma_remove_keeps(nodes, idx, t, depth[s] + 1);
                    lemma_append_keeps(rest, extra, t, depth[s] + 1);
                } else if within(nodes, t, depth[s] + 1) {
                    let i = choose|i: int|
                        0 <= i < nodes.len() && #[trigger] nodes[i].spec_state() == t
                            && nodes[i].spec_path().len() <= depth[s] + 1;
                    assert(nodes[0].spec_path().len() <= nodes[i].spec_path().len());
                }
            }
        }
        if st != start {
            lemma_remove_keeps(nodes, idx, start, 0);
            lemma_append_keeps(rest, extra, start, 0);
        }
        assert forall|i: int| 0 <= i < rest.len() implies d <= #[trigger] rest[i].spec_path().len()
            && rest[i].spec_path().len() <= d + 1 by {
            assert(rest[i] == nodes[i + 1]);
            assert(nodes[0].spec_path().len() <= nodes[i + 1].spec_path().len());
        }
        assert forall|i: int, j: int|
            0 <= i <= j < all.len() implies #[trigger] all[i].spec_path().len()
            <= #[trigger] all[j].spec_path().len() by {
            if j < rest.len() {
                assert(all[i] == nodes[i + 1] && all[j] == nodes[j + 1]);
            } else if i < rest.len() {
                assert(all[i] == rest[i]);
                assert(all[j] == extra[j - rest.len()]);
            } else {
                assert(all[i] == extra[i - rest.len()]);
                assert(all[j] == extra[j - rest.len()]);
            }
        }
        assert forall|i: int| 0 <= i < all.len() implies d <= #[trigger] all[i].spec_path().len()
            && all[i].spec_path().len() <= d + 1 by {
            if i < rest.len() {
                assert(all[i] == rest[i]);
            } else {
                assert(all[i] == extra[i - rest.len()]);
            }
        }
        assert forall|s: S, i: int|
            #![trigger v2.contains(s), all[i]]
            v2.contains(s) && 0 <= i < all.len() implies depth2[s] <= all[i].spec_path().len() by {
            assert(d <= all[i].spec_path().len());
            if s != st {
                assert(visited.contains(s) && 0 <= 0 < nodes.len());
                assert(depth[s] <= nodes[0].spec_path().len());
            }
        }
        if all.len() > 0 {
            assert(d <= all[0].spec_path().len());
        }
    }
}

/// Appending a state that is not yet expanded keeps the list duplicate-free.
proof fn lemma_order_push<S: State>(order: Seq<S>, visited: Set<S>, s: S)
    requires
        order.no_duplicates(),
        order.to_set() == visited,
        !visited.contains(s),
    ensures
        order.push(s).no_duplicates(),
        order.push(s).to_set() == visited.insert(s),
        branching(order.push(s)) == branching(order) + crate::actions_of(s).len(),
{
    assert(order.push(s).drop_last() =~= order);
    assert forall|i: int, j: int|
        0 <= i < j < order.push(s).len() implies order.push(s)[i] != order.push(s)[j] by {
        if j == order.len() {
            assert(order.to_set().contains(order[i]));
        }
    }
    assert(order.push(s).to_set() =~= visited.insert(s)) by {
        assert forall|t: S| order.push(s).to_set().contains(t) <==> visited.insert(s).contains(t) by {
            if order.push(s).contains(t) && t != s {
                let k = choose|k: int| 0 <= k < order.push(s).len() && order.push(s)[k] == t;
                assert(order[k] == t);
                assert(order.contains(t));
            }
            if visited.contains(t) {
                let k = choose|k: int| 0 <= k < order.len() && order[k] == t;
                assert(order.push(s)[k] == t);
            }
            if t == s {
                assert(order.push(s)[order.len() as int] == s);
            }
        }
    }
}

/// The list of expanded states witnesses the record of a result.
proof fn lemma_record<P: Space>(
    space: P,
    order: Seq<P::State>,
    visited: Set<P::State>,
    r: SearchResult<P::State>,
)
    requires
        order.no_duplicates(),
        order.to_set() == visited,
        visited.subset_of(crate::reachable_states(crate::start_of(space))),
        forall|s: P::State| visited.contains(s) ==> !crate::goal_of(space, s),
        r.expanded == visited.len(),
        r.generated == usize::MAX || r.generated == branching(order),
    ensures
        expands_each_state_once(space, r),
{
    order.unique_seq_to_set();
    assert forall|i: int| 0 <= i < order.len() implies crate::reachable(
        crate::start_of(space),
        #[trigger] order[i],
    ) && !crate::goal_of(space, order[i]) by {
        assert(order.to_set().contains(order[i]));
    }
    assert(expanded_states(space, order, r));
}

/// The list of expanded states witnesses the record of a pruned search.
proof fn lemma_record_pruned<P: Space>(
    space: P,
    order: Seq<P::State>,
    visited: Set<P::State>,
    r: SearchResult<P::State>,
)
    requires
        order.no_duplicates(),
        order.to_set() == visited,
        visited.subset_of(crate::reachable_states(crate::start_of(space))),
        forall|s: P::State| visited.contains(s) ==> !crate::goal_of(space, s),
        r.expanded == visited.len(),
        r.generated <= branching(order),
    ensures
        expands_each_state_at_most_once(space, r),
{
    order.unique_seq_to_set();
    assert forall|i: int| 0 <= i < order.len() implies crate::reachable(
        crate::start_of(space),
        #[trigger] order[i],
    ) && !crate::goal_of(space, order[i]) by {
        assert(order.to_set().contains(order[i]));
    }
    assert(expanded_states(space, order, r));
}

/// The search loop, written once for every frontier order: pop a node, stop
/// if its state is a goal, skip it if its state was expanded before, else
/// expand it and push one child per available action.
pub fn search_with<F, P>(space: &P) -> (r: Option<SearchResult<P::State>>) where
    F: Frontier<State = P::State>,
    P: Space,

    requires
        searchable(*space),
    ensures
        search_outcome(*space, r),
        r is Some <==> solvable(*space),
        r matches Some(res) ==> expands_each_state_once(*space, res),
        F::first_in_first_out() ==> (r matches Some(res) ==> fewest_actions(*space, res)),
{
    let ghost start = crate::start_of(*space);
    let ghost reach = crate::reachable_states(start);
    let mut frontier = F::new(space.initial_state());
    let mut visited: StateCacheSet<P::State> = StateCacheSet::new();
    let mut generated: usize = 0;
    let ghost mut depth: Map<P::State, nat> = Map::empty();
    let ghost mut order: Seq<P::State> = Seq::empty();
    proof {
        let nodes = frontier.nodes();
        assert(nodes[0].valid_from(start));
        assert(in_frontier(nodes, start));
        assert(within(nodes, start, 0));
    }
    loop
        invariant
            searchable(*space),
            start == crate::start_of(*space),
            reach == crate::reachable_states(start),
            core_inv(start, visited@, frontier.nodes()),
            visited@.subset_of(reach),
            forall|s: P::State| visited@.contains(s) ==> !crate::goal_of(*space, s),
            generated == usize::MAX || visited@.len() + frontier.nodes().len() <= generated + 1,
            F::first_in_first_out() ==> layered(start, visited@, depth, frontier.nodes()),
            order.no_duplicates(),
            order.to_set() == visited@,
            generated == usize::MAX || generated == branching(order),
        decreases reach.difference(visited@).len(), frontier.nodes().len(),
    {
        let ghost nodes0 = frontier.nodes();
        let ghost idx = frontier.next_index();
        let popped = frontier.pop();
        let node = match popped {
            None => {
                proof {
                    assert(nodes0 =~= Seq::<Node<P::State>>::empty());
                    lemma_exhausted(*space, visited@);
                }
                return None;
            },
            Some(node) => node,
        };
        let ghost rest = frontier.nodes();
        proof {
            assert(nodes0[idx].valid_from(start));
            vstd::set_lib::lemma_len_subset(visited@, reach);
        }
        if space.is_goal(node.state()) {
            let expanded = visited.len();
            proof {
                if F::first_in_first_out() {
                    assert forall|path: Seq<<P::State as State>::Action>|
                        crate::legal_path(start, path) && crate::goal_of(*space,
                            #[trigger] crate::replay(start, path),
                        ) implies node.spec_path().len() <= path.len() by {
                        lemma_front_is_shallowest(start, visited@, depth, nodes0, path);
                    }
                }
            }
            let result = SearchResult::new(node, generated, expanded);
            proof {
                lemma_record(*space, order, visited@, result);
            }
            return Some(result);
        }
        if visited.contains(node.state()) {
            proof {
                lemma_drop_duplicate(start, visited@, depth, nodes0, idx, F::first_in_first_out());
            }
            continue;
        }
        let actions = node.state().get_available_actions();
        let ghost g0 = generated;
        let mut k: usize = 0;
        while k < actions.len()
            invariant
                crate::pure_state::<P::State>(),
                0 <= idx < nodes0.len(),
                node == nodes0[idx],
                node.valid_from(start),
                actions@ == crate::actions_of(node.spec_state()),
                k <= actions@.len(),
                frontier.nodes().len() == rest.len() + k,
                frontier.nodes().subrange(0, rest.len() as int) == rest,
                forall|j: int|
                    0 <= j < k ==> {
                        &&& #[trigger] frontier.nodes()[rest.len() + j].spec_state()
                            == crate::successor_of(node.spec_state(), actions@[j])
                        &&& frontier.nodes()[rest.len() + j].spec_path() == node.spec_path().push(
                            actions@[j],
                        )
                        &&& frontier.nodes()[rest.len() + j].valid_from(start)
                    },
                generated == usize::MAX || generated == g0 + k,
            decreases actions@.len() - k,
        {
            let child = node.apply(&actions[k]);
            proof {
                assert(actions@.contains(actions@[k as int]));
                crate::lemma_child_valid(start, node, actions@[k as int], child);
            }
            frontier.push(child);
            generated = generated.saturating_add(1);
            k = k + 1;
        }
        let ghost extra = frontier.nodes().subrange(rest.len() as int, frontier.nodes().len() as int);
        proof {
            assert(frontier.nodes() =~= rest + extra);
            let st = node.spec_state();
            assert forall|j: int| #![trigger extra[j]] 0 <= j < extra.len() implies extra[j].valid_from(start)
                && extra[j].spec_path().len() == node.spec_path().len() + 1 by {
                assert(extra[j] == frontier.nodes()[rest.len() + j]);
                assert(frontier.nodes()[rest.len() + j].spec_state() == crate::successor_of(node.spec_state(),
                    actions@[j],
                ));
            }
            assert forall|a: <P::State as State>::Action| #[trigger] crate::actions_of(st).contains(a)
                implies within(extra, crate::successor_of(st, a), node.spec_path().len() + 1) && in_frontier(
                extra,
                crate::successor_of(st, a),
            ) by {
                let j = choose|j: int| 0 <= j < actions@.len() && actions@[j] == a;
                assert(extra[j] == frontier.nodes()[rest.len() + j]);
                assert(frontier.nodes()[rest.len() + j].spec_state() == crate::successor_of(node.spec_state(),
                    actions@[j],
                ));
            }
            lemma_expand(start, visited@, depth, nodes0, idx, extra, F::first_in_first_out());
            assert(reach.contains(st));
            assert(reach.difference(visited@.insert(st)) =~= reach.difference(visited@).remove(st));
            depth = depth.insert(st, node.spec_path().len());
            lemma_order_push(order, visited@, st);
            order = order.push(st);
        }
        let (state, _path) = node.into_parts();
        visited.insert(state);
    }
}

/// Relies on rayon's `into_par_iter().map(..).collect()` on a `Vec`: the
/// closure runs once per action, and the results come back in the order of
/// the actions.
#[verifier::external_body]
fn expand_parallel<S>(node: &Node<S>, actions: Vec<S::Action>) -> (r: Vec<Node<S>>) where
    S: State + Send + Sync,
    S::Action: Send + Sync,

    requires
        crate::pure_state::<S>(),
    ensures
        r@.len() == actions@.len(),
        forall|i: int|
            0 <= i < actions@.len() ==> {
                &&& (#[trigger] r@[i]).spec_state() == crate::successor_of(node.spec_state(), actions@[i])
                &&& r@[i].spec_path() == node.spec_path().push(actions@[i])
            },
{
    actions.into_par_iter().map(|action| node.apply(&action)).collect()
}

/// Depth-first search whose expansion step builds the children in parallel;
/// children whose state was expanded before are dropped before they are pushed.
pub trait DepthFirstSearch: Space + Sized {
    fn dfs_search(&self) -> (r: Option<SearchResult<Self::State>>)
        requires
            searchable(*self),
        ensures
            search_outcome(*self, r),
            r is Some <==> solvable(*self),
            r matches Some(res) ==> expands_each_state_at_most_once(*self, res),
    ;
}

impl<S> DepthFirstSearch for S where
    S: Space,
    S::State: Send + Sync,
    <S::State as State>::Action: Send + Sync,
 {
    fn dfs_search(&self) -> (r: Option<SearchResult<S::State>>) {
        let ghost start = crate::start_of(*self);
        let ghost reach = crate::reachable_states(start);
        let mut frontier = StackFrontier::new(self.initial_state());
        let mut visited: StateCacheSet<S::State> = StateCacheSet::new();
        let mut generated: usize = 0;
        let ghost mut order: Seq<S::State> = Seq::empty();
        proof {
            let nodes = frontier.nodes();
            assert(nodes[0].valid_from(start));
            assert(in_frontier(nodes, start));
        }
        loop
            invariant
                searchable(*self),
                start == crate::start_of(*self),
                reach == crate::reachable_states(start),
                core_inv(start, visited@, frontier.nodes()),
                visited@.subset_of(reach),
                forall|s: S::State| visited@.contains(s) ==> !crate::goal_of(*self, s),
                generated == usize::MAX || visited@.len() + frontier.nodes().len() <= generated + 1,
                order.no_duplicates(),
                order.to_set() == visited@,
                generated <= branching(order),
            decreases reach.difference(visited@).len(), frontier.nodes().len(),
        {
            let ghost nodes0 = frontier.nodes();
            let ghost idx = frontier.next_index();
            let popped = frontier.pop();
            let node = match popped {
                None => {
                    proof {
                        assert(nodes0 =~= Seq::<Node<S::State>>::empty());
                        lemma_exhausted(*self, visited@);
                    }
                    return None;
                },
                Some(node) => node,
            };
            let ghost rest = frontier.nodes();
            proof {
                assert(nodes0[idx].valid_from(start));
                vstd::set_lib::lemma_len_subset(visited@, reach);
            }
            if self.is_goal(node.state()) {
                let expanded = visited.len();
                let result = SearchResult::new(node, generated, expanded);
                proof {
                    lemma_record_pruned(*self, order, visited@, result);
                }
                return Some(result);
            }
            if visited.contains(node.state()) {
                proof {
                    lemma_drop_duplicate(start, visited@, Map::empty(), nodes0, idx, false);
                }
                continue;
            }
            let actions = node.state().get_available_actions();
            let ghost acts = actions@;
            let mut children = expand_parallel(&node, actions);
            let ghost all_children = children@;
            assert(all_children.len() == children.len());
            let ghost st = node.spec_state();
            proof {
                assert(reach.contains(st));
                assert(reach.difference(visited@.insert(st)) =~= reach.difference(
                    visited@,
                ).remove(st));
            }
            let ghost old_visited = visited@;
            proof {
                lemma_order_push(order, visited@, st);
            }
            let (state, _path) = node.into_parts();
            visited.insert(state);
            let ghost g0 = generated;
            let ghost mut pushed: Seq<Node<S::State>> = Seq::empty();
            let mut k: usize = 0;
            while children.len() > 0
                invariant
                    vstd::std_specs::hash::obeys_key_model::<S::State>(),
                    visited@ == old_visited.insert(st),
                    node.valid_from(start),
                    st == node.spec_state(),
                    acts == crate::actions_of(st),
                    all_children.len() == acts.len(),
                    all_children.len() <= usize::MAX,
                    forall|i: int|
                        0 <= i < acts.len() ==> {
                            &&& (#[trigger] all_children[i]).spec_state() == crate::successor_of(st, acts[i])
                            &&& all_children[i].spec_path() == node.spec_path().push(acts[i])
                        },
                    k + children@.len() == all_children.len(),
                    children@ == all_children.subrange(k as int, all_children.len() as int),
                    frontier.nodes() == rest + pushed,
                    all_valid(start, pushed),
                    forall|j: int|
                        0 <= j < k ==> visited@.contains(crate::successor_of(st, #[trigger] acts[j]))
                            || in_frontier(pushed, crate::successor_of(st, acts[j])),
                    generated == usize::MAX || generated == g0 + pushed.len(),
                    generated <= g0 + pushed.len(),
                    pushed.len() <= k,
                    g0 <= branching(order),
                decreases children@.len(),
            {
                let child = children.remove(0);
                proof {
                    assert(child == all_children[k as int]);
                    assert(acts.contains(acts[k as int]));
                    crate::lemma_child_valid(start, node, acts[k as int], child);
                }
                if !visited.contains(child.state()) {
                    frontier.push(child);
                    generated = generated.saturating_add(1);
                    proof {
                        let p0 = pushed;
                        pushed = pushed.push(child);
                        assert forall|i: int|
                            0 <= i < pushed.len() implies #[trigger] pushed[i].valid_from(start) by {
                            if i < p0.len() {
                                assert(pushed[i] == p0[i]);
                            }
                        }
                        assert forall|j: int|
                            0 <= j <= k implies visited@.contains(crate::successor_of(st, #[trigger] acts[j]))
                            || in_frontier(pushed, crate::successor_of(st, acts[j])) by {
                            if j < k && !visited@.contains(crate::successor_of(st, acts[j])) {
                                let t = crate::successor_of(st, acts[j]);
                                let i = choose|i: int| 0 <= i < p0.len() && #[trigger] p0[i].spec_state() == t;
                                assert(pushed[i] == p0[i]);
                            }
                            if j == k {
                                assert(pushed[p0.len() as int] == child);
                            }
                        }
                        assert(frontier.nodes() =~= rest + pushed);
                    }
                }
                k = k + 1;
            }
            proof {
                assert forall|a: <S::State as State>::Action| #[trigger] crate::actions_of(st).contains(a)
                    implies old_visited.insert(st).contains(crate::successor_of(st, a))
                    || in_frontier(pushed, crate::successor_of(st, a)) by {
                    let j = choose|j: int| 0 <= j < acts.len() && acts[j] == a;
                }
                lemma_expand(start, old_visited, Map::empty(), nodes0, idx, pushed, false);
                order = order.push(st);
            }
        }
    }
}

/// Breadth-first search on a space: the goal found is one with the fewest actions.
pub trait BreadthFirstSearch: Space + Sized {
    fn bfs_search(&self) -> (r: Option<SearchResult<Self::State>>)
        requires
            searchable(*self),
        ensures
            search_outcome(*self, r),
            r is Some <==> solvable(*self),
            r matches Some(res) ==> expands_each_state_once(*self, res),
            r matches Some(res) ==> fewest_actions(*self, res),
    ;
}

impl<S: Space> BreadthFirstSearch for S {
    fn bfs_search(&self) -> (r: Option<SearchResult<S::State>>) {
        search_with::<QueueFrontier<S::State>, S>(self)
    }
}

} // verus!
