use search::algos::{BreadthFirstSearch as _, DepthFirstSearch as _};
use search::{Action, BreadthFirstSearch, DepthFirstSearch, SearchAlgorithm, Space, State};

#[derive(Debug, Clone, Copy, PartialEq, Eq)]
pub enum EightTilesAction {
    Up,
    Down,
    Left,
    Right,
}

impl Action for EightTilesAction {}

#[derive(Debug, Clone, Copy, PartialEq, Eq, Hash)]
enum TileType {
    Empty,
    Number(u8),
}

#[derive(Debug, PartialEq, Eq, Clone, Hash)]
pub struct EightTiles {
    tiles: [[TileType; 3]; 3],
}

impl EightTiles {
    pub fn new(tiles: [[u8; 3]; 3]) -> EightTiles {
        let mut new_tiles = [[TileType::Empty; 3]; 3];
        for i in 0..3 {
            for j in 0..3 {
                new_tiles[i][j] = match tiles[i][j] {
                    0 => TileType::Empty,
                    n => TileType::Number(n),
                };
            }
        }
        let obj = EightTiles { tiles: new_tiles };
        obj.check_validity();
        obj
    }

    fn check_validity(&self) {
        let mut empty_count = 0;
        let mut numbers = [false; 9];
        for i in 0..3 {
            for j in 0..3 {
                match self.tiles[i][j] {
                    TileType::Empty => {
                        assert_eq!(empty_count, 0);
                        empty_count += 1;
                    }
                    TileType::Number(n) => {
                        assert!(n > 0 && n < 9);
                        assert!(!numbers[n as usize]);
                        numbers[n as usize] = true;
                    }
                }
            }
        }
    }

    fn find_empty(&self) -> (usize, usize) {
        for i in 0..3 {
            for j in 0..3 {
                if let TileType::Empty = self.tiles[i][j] {
                    return (j, i);
                }
            }
        }
        panic!("No empty tile found");
    }

    fn solved() -> Self {
        EightTiles::new([[1, 2, 3], [4, 5, 6], [7, 8, 0]])
    }
}

impl State for EightTiles {
    type Action = EightTilesAction;

    fn get_available_actions(&self) -> Vec<Self::Action> {
        let mut actions = Vec::new();
        let (x, y) = self.find_empty();
        if x > 0 {
            actions.push(EightTilesAction::Left);
        }
        if x < 2 {
            actions.push(EightTilesAction::Right);
        }
        if y > 0 {
            actions.push(EightTilesAction::Up);
        }
        if y < 2 {
            actions.push(EightTilesAction::Down);
        }
        actions
    }

    fn apply(&self, action: &Self::Action) -> Self {
        let mut tiles = self.tiles;
        let (x, y) = self.find_empty();
        let (dx, dy): (isize, isize) = match action {
            EightTilesAction::Left => (-1, 0),
            EightTilesAction::Right => (1, 0),
            EightTilesAction::Up => (0, -1),
            EightTilesAction::Down => (0, 1),
        };
        let (nx, ny) = ((x as isize + dx) as usize, (y as isize + dy) as usize);
        tiles[y][x] = tiles[ny][nx];
        tiles[ny][nx] = TileType::Empty;
        EightTiles { tiles }
    }
}

pub struct EightTilesSpace {
    initial_state: EightTiles,
}

impl EightTilesSpace {
    pub fn new(initial_state: EightTiles) -> EightTilesSpace {
        EightTilesSpace { initial_state }
    }
}

impl Space for EightTilesSpace {
    type State = EightTiles;
    type Action = EightTilesAction;

    fn initial_state(&self) -> Self::State {
        self.initial_state.clone()
    }

    fn is_goal(&self, state: &Self::State) -> bool {
        *state == EightTiles::solved()
    }
}

fn one_move_away() -> EightTiles {
    EightTiles::new([[1, 2, 3], [4, 5, 6], [7, 0, 8]])
}

fn replay(start: &EightTiles, path: &[EightTilesAction]) -> EightTiles {
    let mut state = start.clone();
    for action in path {
        assert!(state.get_available_actions().contains(action));
        state = state.apply(action);
    }
    state
}

#[test]
fn search_with_dbf() {
    let space = EightTilesSpace::new(EightTiles::new([[1, 2, 3], [4, 5, 6], [7, 0, 8]]));
    let result = search::DepthFirstSearch::search(space);
    assert!(result.is_some());
    let _result = result.unwrap();
}

#[test]
fn bfs_one_move_from_solved() {
    let result = BreadthFirstSearch::search(EightTilesSpace::new(one_move_away())).unwrap();
    assert_eq!(result.path, vec![EightTilesAction::Right]);
    assert_eq!(result.end_state, EightTiles::solved());
}

#[test]
fn dfs_one_move_from_solved() {
    let result = DepthFirstSearch::search(EightTilesSpace::new(one_move_away())).unwrap();
    assert!(result.path.len() >= 1);
    assert_eq!(result.end_state, EightTiles::solved());
    assert_eq!(replay(&one_move_away(), &result.path), EightTiles::solved());
    assert!(result.generated > result.expanded);
}

#[test]
fn dfs_eight_tiles_counters() {
    let result = DepthFirstSearch::search(EightTilesSpace::new(one_move_away())).unwrap();
    assert_eq!(result.path.len(), 29);
    assert_eq!(result.expanded, 29);
    assert_eq!(result.generated, 83);
}

#[test]
fn bfs_from_solved_is_empty_path() {
    let result = BreadthFirstSearch::search(EightTilesSpace::new(EightTiles::solved())).unwrap();
    assert!(result.path.is_empty());
    assert_eq!(result.expanded, 0);
    assert_eq!(result.generated, 0);
}

#[test]
fn bfs_two_moves_from_solved() {
    let start = EightTiles::new([[1, 2, 3], [4, 5, 6], [0, 7, 8]]);
    let result = BreadthFirstSearch::search(EightTilesSpace::new(start.clone())).unwrap();
    assert_eq!(result.path, vec![EightTilesAction::Right, EightTilesAction::Right]);
    assert_eq!(replay(&start, &result.path), EightTiles::solved());
    assert!(result.generated >= result.expanded);
}

#[test]
fn parallel_dfs_one_move_from_solved() {
    let space = EightTilesSpace::new(one_move_away());
    let result = space.dfs_search().unwrap();
    assert!(result.path.len() >= 1);
    assert_eq!(result.end_state, EightTiles::solved());
    assert_eq!(replay(&one_move_away(), &result.path), EightTiles::solved());
    assert!(result.generated >= result.expanded);
}

#[test]
fn bfs_search_trait_one_move_from_solved() {
    let space = EightTilesSpace::new(one_move_away());
    let result = space.bfs_search().unwrap();
    assert_eq!(result.path, vec![EightTilesAction::Right]);
}

#[test]
fn bfs_six_moves_from_solved() {
    let start = EightTiles::new([[4, 1, 3], [7, 2, 6], [0, 5, 8]]);
    let result = BreadthFirstSearch::search(EightTilesSpace::new(start.clone())).unwrap();
    assert_eq!(result.path.len(), 6);
    assert_eq!(result.generated, 242);
    assert_eq!(result.expanded, 89);
    assert_eq!(replay(&start, &result.path), EightTiles::solved());
    let dfs = DepthFirstSearch::search(EightTilesSpace::new(start.clone())).unwrap();
    assert!(dfs.path.len() >= result.path.len());
    assert_eq!(replay(&start, &dfs.path), EightTiles::solved());
}
