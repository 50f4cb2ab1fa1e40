use search::algos::{search_with, BreadthFirstSearch as _, DepthFirstSearch as _};
use search::frontiers::Frontier;
use search::{
    Action, BreadthFirstSearch, CostAction, DepthFirstSearch, Node, PriorityFrontier,
    QueueFrontier, SearchAlgorithm, SearchResult, Space, StackFrontier, State, StateCacheSet,
    UniformCostSearch,
};

/// An edge of a small directed graph: the vertex it leads to.
#[derive(Debug, Clone, Copy, PartialEq, Eq)]
struct Edge(usize);

impl Action for Edge {}

impl CostAction for Edge {
    fn cost(&self) -> usize {
        1
    }
}

#[derive(Debug, Clone, PartialEq, Eq, Hash, PartialOrd, Ord)]
struct Vertex {
    id: usize,
    edges: &'static [&'static [usize]],
}

impl State for Vertex {
    type Action = Edge;

    fn get_available_actions(&self) -> Vec<Edge> {
        self.edges[self.id].iter().map(|&t| Edge(t)).collect()
    }

    fn apply(&self, action: &Edge) -> Self {
        assert!(self.edges[self.id].contains(&action.0));
        Vertex { id: action.0, edges: self.edges }
    }
}

struct Graph {
    edges: &'static [&'static [usize]],
    start: usize,
    goal: usize,
}

impl Space for Graph {
    type State = Vertex;
    type Action = Edge;

    fn initial_state(&self) -> Vertex {
        Vertex { id: self.start, edges: self.edges }
    }

    fn is_goal(&self, state: &Vertex) -> bool {
        state.id == self.goal
    }
}

fn ids(path: &[Edge]) -> Vec<usize> {
    path.iter().map(|e| e.0).collect()
}

fn replay_ids(space: &Graph, result: &SearchResult<Vertex>) -> Vertex {
    let mut state = space.initial_state();
    for action in &result.path {
        state = state.apply(action);
    }
    state
}

/// 0 -> 3 directly, and 0 -> 1 -> 2 -> 3; the long way is offered last.
const DETOUR: &[&[usize]] = &[&[3, 1], &[2], &[3], &[]];

/// 0 <-> 1, and 1 -> 2.
const BACK_AND_FORTH: &[&[usize]] = &[&[1], &[0, 2], &[]];

/// A tree with no path to vertex 5.
const NO_WAY: &[&[usize]] = &[&[1, 2], &[3], &[4], &[], &[], &[]];

/// A cycle 0 -> 1 -> 2 -> 0 with a way out from 2 to 3.
const CYCLE: &[&[usize]] = &[&[1], &[2], &[0, 3], &[]];

fn detour() -> Graph {
    Graph { edges: DETOUR, start: 0, goal: 3 }
}

#[test]
fn dfs_path_can_be_longer_than_bfs_path() {
    let dfs = DepthFirstSearch::search(detour()).unwrap();
    let bfs = BreadthFirstSearch::search(detour()).unwrap();
    assert_eq!(ids(&dfs.path), vec![1, 2, 3]);
    assert_eq!(ids(&bfs.path), vec![3]);
    assert!(dfs.path.len() > bfs.path.len());
}

#[test]
fn bfs_counters_on_detour() {
    let bfs = BreadthFirstSearch::search(detour()).unwrap();
    assert_eq!(bfs.expanded, 1);
    assert_eq!(bfs.generated, 2);
}

#[test]
fn dfs_counters_on_detour() {
    let dfs = DepthFirstSearch::search(detour()).unwrap();
    assert_eq!(dfs.expanded, 3);
    assert_eq!(dfs.generated, 4);
}

#[test]
fn results_replay_to_end_state() {
    let space = detour();
    for result in [
        DepthFirstSearch::search(detour()).unwrap(),
        BreadthFirstSearch::search(detour()).unwrap(),
        detour().dfs_search().unwrap(),
        detour().bfs_search().unwrap(),
    ] {
        let end = replay_ids(&space, &result);
        assert_eq!(end, result.end_state);
        assert!(space.is_goal(&end));
        assert!(result.generated >= result.expanded);
    }
}

#[test]
fn duplicate_state_is_not_expanded_twice() {
    let space = Graph { edges: BACK_AND_FORTH, start: 0, goal: 2 };
    let bfs = BreadthFirstSearch::search(space).unwrap();
    // 0 is expanded (pushes 1), 1 is expanded (pushes 0 and 2), the second 0
    // is dropped, then 2 is the goal.
    assert_eq!(bfs.expanded, 2);
    assert_eq!(bfs.generated, 3);
    assert_eq!(ids(&bfs.path), vec![1, 2]);
}

#[test]
fn cycle_is_searched_to_the_way_out() {
    let dfs = DepthFirstSearch::search(Graph { edges: CYCLE, start: 0, goal: 3 }).unwrap();
    assert_eq!(ids(&dfs.path), vec![1, 2, 3]);
    assert_eq!(dfs.expanded, 3);
    let bfs = BreadthFirstSearch::search(Graph { edges: CYCLE, start: 0, goal: 3 }).unwrap();
    assert_eq!(ids(&bfs.path), vec![1, 2, 3]);
}

#[test]
fn unreachable_goal_gives_no_result() {
    assert!(DepthFirstSearch::search(Graph { edges: NO_WAY, start: 0, goal: 5 }).is_none());
    assert!(BreadthFirstSearch::search(Graph { edges: NO_WAY, start: 0, goal: 5 }).is_none());
    assert!(Graph { edges: NO_WAY, start: 0, goal: 5 }.dfs_search().is_none());
    assert!(Graph { edges: NO_WAY, start: 0, goal: 5 }.bfs_search().is_none());
    assert!(Graph::uniform_search(Graph { edges: NO_WAY, start: 0, goal: 5 }).is_none());
}

#[test]
fn start_that_is_a_goal_is_found_at_once() {
    let result = DepthFirstSearch::search(Graph { edges: NO_WAY, start: 4, goal: 4 }).unwrap();
    assert!(result.path.is_empty());
    assert_eq!(result.end_state.id, 4);
    assert_eq!(result.expanded, 0);
    assert_eq!(result.generated, 0);
}

#[test]
fn uniform_search_finds_fewest_edges() {
    let result = Graph::uniform_search(detour()).unwrap();
    assert_eq!(ids(&result.path), vec![3]);
    assert_eq!(result.path[0].cost(), 1);
}

#[test]
fn parallel_dfs_drops_expanded_children() {
    let result = Graph { edges: BACK_AND_FORTH, start: 0, goal: 2 }.dfs_search().unwrap();
    assert_eq!(ids(&result.path), vec![1, 2]);
    // The child 0 of vertex 1 is dropped, as 0 was expanded already.
    assert_eq!(result.generated, 2);
    assert_eq!(result.expanded, 2);
}

#[test]
fn parallel_dfs_children_follow_the_actions() {
    let result = detour().dfs_search().unwrap();
    assert_eq!(ids(&result.path), vec![1, 2, 3]);
    assert_eq!(result.end_state.id, 3);
}

#[test]
fn node_root_has_empty_path() {
    let node = Node::new(Vertex { id: 0, edges: DETOUR });
    assert!(node.path().is_empty());
    assert_eq!(node.state().id, 0);
}

#[test]
fn node_apply_extends_path() {
    let root = Node::new(Vertex { id: 0, edges: DETOUR });
    let child = root.apply(&Edge(1));
    let grandchild = child.apply(&Edge(2));
    assert_eq!(ids(grandchild.path()), vec![1, 2]);
    assert_eq!(grandchild.state().id, 2);
    assert_eq!(ids(child.path()), vec![1]);
    assert!(root.path().is_empty());
    assert_eq!(root.state().id, 0);
}

#[test]
fn node_into_parts() {
    let node = Node::new(Vertex { id: 0, edges: DETOUR }).apply(&Edge(3));
    let (state, path) = node.into_parts();
    assert_eq!(state.id, 3);
    assert_eq!(ids(&path), vec![3]);
}

#[test]
fn cache_holds_each_state_once() {
    let mut cache = StateCacheSet::new();
    assert_eq!(cache.len(), 0);
    let a = Vertex { id: 0, edges: DETOUR };
    let b = Vertex { id: 1, edges: DETOUR };
    assert!(!cache.contains(&a));
    cache.insert(a.clone());
    cache.insert(a.clone());
    assert!(cache.contains(&a));
    assert!(!cache.contains(&b));
    assert_eq!(cache.len(), 1);
    cache.insert(b.clone());
    assert_eq!(cache.len(), 2);
}

#[test]
fn stack_frontier_is_last_in_first_out() {
    let mut frontier = StackFrontier::new(Vertex { id: 0, edges: DETOUR });
    let root = frontier.pop().unwrap();
    frontier.push(root.apply(&Edge(3)));
    frontier.push(root.apply(&Edge(1)));
    assert_eq!(frontier.pop().unwrap().state().id, 1);
    assert_eq!(frontier.pop().unwrap().state().id, 3);
    assert!(frontier.pop().is_none());
}

#[test]
fn queue_frontier_is_first_in_first_out() {
    let mut frontier = QueueFrontier::new(Vertex { id: 0, edges: DETOUR });
    let root = frontier.pop().unwrap();
    assert!(root.path().is_empty());
    frontier.push(root.apply(&Edge(3)));
    frontier.push(root.apply(&Edge(1)));
    assert_eq!(frontier.pop().unwrap().state().id, 3);
    assert_eq!(frontier.pop().unwrap().state().id, 1);
    assert!(frontier.pop().is_none());
}

#[test]
fn priority_frontier_hands_out_greatest_first() {
    let mut frontier = PriorityFrontier::new();
    assert!(frontier.pop().is_none());
    for id in [2, 0, 3, 1, 3] {
        frontier.push(Vertex { id, edges: DETOUR });
    }
    let order: Vec<usize> = (0..5).map(|_| frontier.pop().unwrap().id).collect();
    assert_eq!(order, vec![3, 3, 2, 1, 0]);
    assert!(frontier.pop().is_none());
}

#[test]
fn search_result_from_node() {
    let node = Node::new(Vertex { id: 0, edges: DETOUR }).apply(&Edge(1));
    let result = SearchResult::from(node.clone());
    assert_eq!(result.end_state.id, 1);
    assert_eq!(ids(&result.path), vec![1]);
    assert_eq!(result.expanded, 0);
    assert_eq!(result.generated, 0);
    let counted = SearchResult::new(node, 7, 4);
    assert_eq!(counted.generated, 7);
    assert_eq!(counted.expanded, 4);
    assert_eq!(ids(&counted.path), vec![1]);
}

#[test]
fn search_with_follows_the_frontier_order() {
    let by_stack = search_with::<StackFrontier<Vertex>, Graph>(&detour()).unwrap();
    let by_queue = search_with::<QueueFrontier<Vertex>, Graph>(&detour()).unwrap();
    assert_eq!(ids(&by_stack.path), vec![1, 2, 3]);
    assert_eq!(ids(&by_queue.path), vec![3]);
}
