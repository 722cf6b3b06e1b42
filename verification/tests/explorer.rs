use peg_solitaire::{Action, Direction, Exploration, GameTree, Grid, Tile};

const F: Tile = Tile::Filled;
const E: Tile = Tile::Empty;
const B: Tile = Tile::Blocked;

fn pegs_at(cells: &[(usize, usize)]) -> Grid {
    let mut tiles = [[E; 7]; 7];
    for &(x, y) in cells {
        tiles[x][y] = F;
    }
    Grid::from_tiles(tiles)
}

/// Plays the jumps on the board, checking each before it is made.
fn replay(start: Grid, moves: &[Action]) -> Grid {
    let mut g = start;
    for a in moves {
        assert!(g.verify_action(*a), "{:?} is not legal", a);
        g = g.perform_action(*a);
    }
    g
}

fn assert_won(g: &Grid) {
    assert_eq!(g.filled_count(), 1);
    assert_eq!(g.tile(3, 3), F);
    assert!(g.is_solved());
}

#[test]
fn new_keeps_board_and_history() {
    let history = vec![Action { x: 1, y: 3, dir: Direction::Right }];
    let state = Grid::new().perform_action(history[0]);
    let node = GameTree::new(state, history.clone());
    assert_eq!(node.state, state);
    assert_eq!(node.history, history);
}

#[test]
fn default_node_is_the_start_without_history() {
    let node = GameTree::default();
    assert_eq!(node.state, Grid::new());
    assert!(node.history.is_empty());
}

#[test]
fn the_canonical_board_is_solved_in_thirty_one_jumps() {
    let found = GameTree::default().search().expect("the cross board has a solution");
    assert_won(&found.state);
    assert_eq!(found.history.len(), 31);
    for x in 0..7 {
        for y in 0..7 {
            let corner = (x < 2 || x > 4) && (y < 2 || y > 4);
            let expected = if corner {
                B
            } else if x == 3 && y == 3 {
                F
            } else {
                E
            };
            assert_eq!(found.state.tile(x, y), expected);
        }
    }
    assert_eq!(replay(Grid::new(), &found.history), found.state);
}

#[test]
fn a_board_without_jumps_yields_nothing() {
    let stuck = pegs_at(&[(3, 3), (0, 2), (6, 4)]);
    assert!(stuck.valid_actions().is_empty());
    let root = GameTree::new(stuck, Vec::new());
    assert!(root.search().is_none());
    let done = root.explore();
    assert!(done.found.is_none());
    assert_eq!(done.expanded, 1);
    assert_eq!(done.visited, 1);
}

#[test]
fn a_board_without_pegs_yields_nothing() {
    let done = GameTree::new(Grid::from_tiles([[E; 7]; 7]), Vec::new()).explore();
    assert!(done.found.is_none());
    assert_eq!((done.expanded, done.visited), (1, 1));
    let done = GameTree::new(Grid::from_tiles([[F; 7]; 7]), Vec::new()).explore();
    assert!(done.found.is_none());
    assert_eq!((done.expanded, done.visited), (1, 1));
}

#[test]
fn a_won_board_is_found_at_once() {
    let won = pegs_at(&[(3, 3)]);
    let history = vec![Action { x: 1, y: 3, dir: Direction::Right }];
    let root = GameTree::new(won, history.clone());
    let done = root.explore();
    let found = done.found.expect("the root is won");
    assert_eq!(found.state, won);
    assert_eq!(found.history, history);
    assert_eq!(done.expanded, 0);
    assert_eq!(done.visited, 1);
}

#[test]
fn one_jump_from_winning() {
    let root = GameTree::new(pegs_at(&[(1, 3), (2, 3)]), Vec::new());
    let done = root.explore();
    let found = done.found.expect("one jump wins");
    assert_eq!(found.history, vec![Action { x: 1, y: 3, dir: Direction::Right }]);
    assert_won(&found.state);
    assert_eq!(found.state, pegs_at(&[(3, 3)]));
    // The other jump, to the left, was tried first and led nowhere.
    assert_eq!(done.expanded, 2);
    assert_eq!(done.visited, 3);
}

#[test]
fn a_single_peg_off_the_centre_does_not_win() {
    let done = GameTree::new(pegs_at(&[(2, 3)]), Vec::new()).explore();
    assert!(done.found.is_none());
    assert_eq!((done.expanded, done.visited), (1, 1));
}

#[test]
fn an_exhausted_walk_has_expanded_every_board_it_met() {
    // One jump is possible, and it does not win.
    let done = GameTree::new(pegs_at(&[(0, 0), (1, 0)]), Vec::new()).explore();
    assert!(done.found.is_none());
    assert_eq!((done.expanded, done.visited), (2, 2));
    // Two pairs that can each jump once, in either order: the four boards
    // with one or both jumps made are reached on two ways, and met once.
    let done = GameTree::new(pegs_at(&[(0, 0), (1, 0), (3, 0), (4, 0)]), Vec::new()).explore();
    assert!(done.found.is_none());
    assert_eq!((done.expanded, done.visited), (7, 7));
}

#[test]
fn the_found_history_extends_the_history_of_the_root() {
    let first = Action { x: 5, y: 3, dir: Direction::Left };
    let second = Action { x: 4, y: 5, dir: Direction::Up };
    let start = Grid::new();
    let state = replay(start, &[first, second]);
    let root = GameTree::new(state, vec![first, second]);
    let found = root.search().expect("still solvable after two jumps");
    assert_eq!(found.history.len(), 31);
    assert_eq!(&found.history[..2], &[first, second]);
    assert_eq!(replay(state, &found.history[2..]), found.state);
    assert_eq!(replay(start, &found.history), found.state);
    assert_won(&found.state);
}

#[test]
fn the_history_is_as_long_as_the_pegs_that_left() {
    let root = GameTree::new(pegs_at(&[(1, 3), (2, 4), (3, 5), (4, 5)]), Vec::new());
    let found = root.search().expect("three jumps win");
    assert_eq!(found.history.len(), 3);
    assert_eq!(
        found.history.len() as u32,
        root.state.filled_count() - found.state.filled_count()
    );
    assert_eq!(replay(root.state, &found.history), found.state);
    assert_won(&found.state);
}

#[test]
fn two_searches_agree() {
    let root = GameTree::default();
    let first = root.search().expect("solvable");
    let second = root.search().expect("solvable");
    assert_eq!(first.state, second.state);
    assert_eq!(first.history.len(), second.history.len());
    assert_eq!(first.history, second.history);
    let one: Exploration = root.explore();
    let two: Exploration = root.explore();
    assert_eq!((one.expanded, one.visited), (two.expanded, two.visited));
}

#[test]
fn search_leaves_the_root_as_it_was() {
    let root = GameTree::default();
    let _ = root.search();
    assert_eq!(root.state, Grid::new());
    assert!(root.history.is_empty());
}

#[test]
fn no_board_is_expanded_twice() {
    let done = GameTree::default().explore();
    assert!(done.found.is_some());
    assert!(done.expanded < done.visited);
    assert_eq!(done.expanded, 1066);
    assert_eq!(done.visited, 1168);
}

#[test]
fn the_first_solution_found() {
    let found = GameTree::default().search().expect("solvable");
    let jumps: Vec<(usize, usize, char)> =
        found.history.iter().map(|a| (a.x, a.y, a.dir.symbol())).collect();
    assert_eq!(&jumps[..4], &[(5, 3, '←'), (4, 5, '↑'), (6, 4, '←'), (6, 2, '↓')]);
    assert_eq!(jumps[30], (1, 3, '→'));
}
