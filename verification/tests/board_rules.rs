use std::collections::HashSet;

use peg_solitaire::{Action, Direction, Grid, Tile};

const B: Tile = Tile::Blocked;
const F: Tile = Tile::Filled;
const E: Tile = Tile::Empty;

const DIRECTIONS: [Direction; 4] =
    [Direction::Left, Direction::Right, Direction::Up, Direction::Down];

fn jump(x: usize, y: usize, dir: Direction) -> Action {
    Action { x, y, dir }
}

fn in_corner(x: usize, y: usize) -> bool {
    (x < 2 || x > 4) && (y < 2 || y > 4)
}

/// A board with no peg that can jump: pegs on the centre and in two far
/// cells, everything else empty.
fn scattered() -> Grid {
    let mut tiles = [[E; 7]; 7];
    tiles[3][3] = F;
    tiles[0][2] = F;
    tiles[6][4] = F;
    Grid::from_tiles(tiles)
}

#[test]
fn start_has_the_cross_shape() {
    let g = Grid::new();
    for x in 0..7 {
        for y in 0..7 {
            let expected = if in_corner(x, y) {
                B
            } else if x == 3 && y == 3 {
                E
            } else {
                F
            };
            assert_eq!(g.tile(x, y), expected, "at ({}, {})", x, y);
        }
    }
}

#[test]
fn start_has_thirty_two_pegs() {
    assert_eq!(Grid::new().filled_count(), 32);
}

#[test]
fn default_is_the_start() {
    assert_eq!(Grid::default(), Grid::new());
}

#[test]
fn from_tiles_keeps_every_tile() {
    let mut tiles = [[E; 7]; 7];
    tiles[0][0] = B;
    tiles[6][0] = F;
    tiles[2][5] = F;
    tiles[4][1] = B;
    let g = Grid::from_tiles(tiles);
    for x in 0..7 {
        for y in 0..7 {
            assert_eq!(g.tile(x, y), tiles[x][y]);
        }
    }
    assert_eq!(g.filled_count(), 2);
}

#[test]
fn from_tiles_of_the_start_is_the_start() {
    let start = Grid::new();
    let mut tiles = [[E; 7]; 7];
    for x in 0..7 {
        for y in 0..7 {
            tiles[x][y] = start.tile(x, y);
        }
    }
    assert_eq!(Grid::from_tiles(tiles), start);
}

#[test]
fn filled_count_of_full_and_empty_boards() {
    assert_eq!(Grid::from_tiles([[F; 7]; 7]).filled_count(), 49);
    assert_eq!(Grid::from_tiles([[E; 7]; 7]).filled_count(), 0);
    assert_eq!(Grid::from_tiles([[B; 7]; 7]).filled_count(), 0);
}

#[test]
fn the_four_opening_jumps_are_legal() {
    let g = Grid::new();
    assert!(g.verify_action(jump(1, 3, Direction::Right)));
    assert!(g.verify_action(jump(5, 3, Direction::Left)));
    assert!(g.verify_action(jump(3, 1, Direction::Down)));
    assert!(g.verify_action(jump(3, 5, Direction::Up)));
}

#[test]
fn a_jump_needs_a_peg_on_its_source() {
    let g = Grid::new().perform_action(jump(1, 3, Direction::Right));
    // (1, 3) is empty now, (2, 3) is empty, (3, 3) holds the peg.
    assert_eq!(g.tile(1, 3), E);
    assert!(!g.verify_action(jump(1, 3, Direction::Right)));
    // From the empty centre of the start, over a peg, onto a peg.
    assert!(!Grid::new().verify_action(jump(3, 3, Direction::Left)));
    // An empty source with a peg to leap over and an empty landing cell.
    let mut tiles = [[E; 7]; 7];
    tiles[3][3] = F;
    let lone = Grid::from_tiles(tiles);
    assert!(!lone.verify_action(jump(2, 3, Direction::Right)));
}

#[test]
fn a_jump_needs_a_peg_to_leap_over() {
    let g = Grid::new().perform_action(jump(1, 3, Direction::Right));
    // (3, 3) holds a peg, (2, 3) is empty, (1, 3) is empty.
    assert!(!g.verify_action(jump(3, 3, Direction::Left)));
}

#[test]
fn a_jump_needs_an_empty_landing_cell() {
    let g = Grid::new();
    assert!(!g.verify_action(jump(2, 2, Direction::Right)));
    assert!(!g.verify_action(jump(2, 2, Direction::Down)));
    // The landing cell (0, 0) is blocked.
    assert!(!g.verify_action(jump(2, 0, Direction::Left)));
    assert!(!g.verify_action(jump(0, 2, Direction::Up)));
}

#[test]
fn a_jump_that_lands_outside_is_rejected() {
    let g = Grid::from_tiles([[F; 7]; 7]);
    let h = Grid::new();
    for board in [g, h] {
        for k in 0..7 {
            assert!(!board.verify_action(jump(0, k, Direction::Left)));
            assert!(!board.verify_action(jump(1, k, Direction::Left)));
            assert!(!board.verify_action(jump(5, k, Direction::Right)));
            assert!(!board.verify_action(jump(6, k, Direction::Right)));
            assert!(!board.verify_action(jump(k, 0, Direction::Up)));
            assert!(!board.verify_action(jump(k, 1, Direction::Up)));
            assert!(!board.verify_action(jump(k, 5, Direction::Down)));
            assert!(!board.verify_action(jump(k, 6, Direction::Down)));
        }
        for a in board.valid_actions() {
            let (lx, ly) = match a.dir {
                Direction::Left => (a.x as i64 - 2, a.y as i64),
                Direction::Right => (a.x as i64 + 2, a.y as i64),
                Direction::Up => (a.x as i64, a.y as i64 - 2),
                Direction::Down => (a.x as i64, a.y as i64 + 2),
            };
            assert!(0 <= lx && lx < 7 && 0 <= ly && ly < 7);
        }
    }
}

#[test]
fn a_jump_near_the_edge_onto_an_empty_cell_is_legal() {
    let mut tiles = [[E; 7]; 7];
    tiles[2][3] = F;
    tiles[1][3] = F;
    tiles[4][3] = F;
    tiles[5][3] = F;
    tiles[3][2] = F;
    tiles[3][1] = F;
    tiles[3][4] = F;
    tiles[3][5] = F;
    let g = Grid::from_tiles(tiles);
    assert!(g.verify_action(jump(2, 3, Direction::Left)));
    assert!(g.verify_action(jump(4, 3, Direction::Right)));
    assert!(g.verify_action(jump(3, 2, Direction::Up)));
    assert!(g.verify_action(jump(3, 4, Direction::Down)));
    assert_eq!(g.perform_action(jump(2, 3, Direction::Left)).tile(0, 3), F);
    assert_eq!(g.perform_action(jump(4, 3, Direction::Right)).tile(6, 3), F);
    assert_eq!(g.perform_action(jump(3, 2, Direction::Up)).tile(3, 0), F);
    assert_eq!(g.perform_action(jump(3, 4, Direction::Down)).tile(3, 6), F);
}

#[test]
fn a_jump_from_outside_the_board_is_rejected() {
    let g = Grid::new();
    for dir in DIRECTIONS {
        assert!(!g.verify_action(jump(7, 3, dir)));
        assert!(!g.verify_action(jump(3, 7, dir)));
        assert!(!g.verify_action(jump(8, 3, dir)));
        assert!(!g.verify_action(jump(9, 9, dir)));
        assert!(!g.verify_action(jump(usize::MAX, 3, dir)));
        assert!(!g.verify_action(jump(3, usize::MAX, dir)));
        assert!(!g.verify_action(jump(usize::MAX, usize::MAX, dir)));
    }
}

#[test]
fn tile_actions_of_a_cell_without_a_peg_are_none() {
    let g = Grid::new();
    assert!(g.tile_actions(3, 3).is_empty());
    assert!(g.tile_actions(0, 0).is_empty());
    assert!(g.tile_actions(6, 6).is_empty());
}

#[test]
fn tile_actions_at_the_start() {
    let g = Grid::new();
    assert_eq!(g.tile_actions(1, 3), vec![jump(1, 3, Direction::Right)]);
    assert_eq!(g.tile_actions(5, 3), vec![jump(5, 3, Direction::Left)]);
    assert_eq!(g.tile_actions(3, 1), vec![jump(3, 1, Direction::Down)]);
    assert_eq!(g.tile_actions(3, 5), vec![jump(3, 5, Direction::Up)]);
    assert!(g.tile_actions(2, 3).is_empty());
    assert!(g.tile_actions(2, 2).is_empty());
}

#[test]
fn tile_actions_come_left_right_up_down() {
    let mut tiles = [[E; 7]; 7];
    tiles[3][3] = F;
    tiles[2][3] = F;
    tiles[4][3] = F;
    tiles[3][2] = F;
    tiles[3][4] = F;
    let g = Grid::from_tiles(tiles);
    assert_eq!(
        g.tile_actions(3, 3),
        vec![
            jump(3, 3, Direction::Left),
            jump(3, 3, Direction::Right),
            jump(3, 3, Direction::Up),
            jump(3, 3, Direction::Down),
        ]
    );
    tiles[1][3] = F;
    tiles[3][5] = B;
    let g = Grid::from_tiles(tiles);
    assert_eq!(
        g.tile_actions(3, 3),
        vec![jump(3, 3, Direction::Right), jump(3, 3, Direction::Up)]
    );
}

#[test]
fn valid_actions_at_the_start() {
    assert_eq!(
        Grid::new().valid_actions(),
        vec![
            jump(1, 3, Direction::Right),
            jump(3, 1, Direction::Down),
            jump(3, 5, Direction::Up),
            jump(5, 3, Direction::Left),
        ]
    );
}

#[test]
fn valid_actions_after_the_first_jump() {
    let g = Grid::new().perform_action(jump(1, 3, Direction::Right));
    assert_eq!(
        g.valid_actions(),
        vec![
            jump(2, 1, Direction::Down),
            jump(2, 5, Direction::Up),
            jump(4, 3, Direction::Left),
        ]
    );
}

#[test]
fn valid_actions_of_a_board_without_jumps_are_none() {
    assert!(scattered().valid_actions().is_empty());
    assert!(Grid::from_tiles([[F; 7]; 7]).valid_actions().is_empty());
    assert!(Grid::from_tiles([[E; 7]; 7]).valid_actions().is_empty());
}

fn boards_to_try() -> Vec<Grid> {
    let mut boards = vec![Grid::new(), scattered(), Grid::from_tiles([[F; 7]; 7])];
    let mut g = Grid::new();
    loop {
        let actions = g.valid_actions();
        match actions.last() {
            None => break,
            Some(a) => g = g.perform_action(*a),
        }
        boards.push(g);
    }
    boards
}

#[test]
fn a_jump_is_legal_exactly_if_it_is_listed() {
    for g in boards_to_try() {
        let listed = g.valid_actions();
        for x in 0..9 {
            for y in 0..9 {
                for dir in DIRECTIONS {
                    let a = jump(x, y, dir);
                    assert_eq!(g.verify_action(a), listed.contains(&a), "{:?}", a);
                }
            }
        }
    }
}

#[test]
fn the_list_is_in_scan_order_without_repeats() {
    fn rank(a: &Action) -> usize {
        let d = match a.dir {
            Direction::Left => 0,
            Direction::Right => 1,
            Direction::Up => 2,
            Direction::Down => 3,
        };
        (a.x * 7 + a.y) * 4 + d
    }
    for g in boards_to_try() {
        let listed = g.valid_actions();
        for pair in listed.windows(2) {
            assert!(rank(&pair[0]) < rank(&pair[1]));
        }
    }
}

#[test]
fn the_list_joins_the_lists_of_the_cells() {
    for g in boards_to_try() {
        let mut joined = Vec::new();
        for x in 0..7 {
            for y in 0..7 {
                joined.extend(g.tile_actions(x, y));
            }
        }
        assert_eq!(g.valid_actions(), joined);
    }
}

#[test]
fn a_jump_moves_one_peg_and_removes_another() {
    let start = Grid::new();
    let next = start.perform_action(jump(3, 1, Direction::Down));
    assert_eq!(next.tile(3, 1), E);
    assert_eq!(next.tile(3, 2), E);
    assert_eq!(next.tile(3, 3), F);
    for x in 0..7 {
        for y in 0..7 {
            if x != 3 || y < 1 || y > 3 {
                assert_eq!(next.tile(x, y), start.tile(x, y));
            }
        }
    }
    // The receiver is a value of its own and has not changed.
    assert_eq!(start, Grid::new());
    assert_ne!(next, start);
}

#[test]
fn a_jump_in_each_direction() {
    let start = Grid::new();
    let right = start.perform_action(jump(1, 3, Direction::Right));
    assert_eq!((right.tile(1, 3), right.tile(2, 3), right.tile(3, 3)), (E, E, F));
    let left = start.perform_action(jump(5, 3, Direction::Left));
    assert_eq!((left.tile(5, 3), left.tile(4, 3), left.tile(3, 3)), (E, E, F));
    let up = start.perform_action(jump(3, 5, Direction::Up));
    assert_eq!((up.tile(3, 5), up.tile(3, 4), up.tile(3, 3)), (E, E, F));
    let down = start.perform_action(jump(3, 1, Direction::Down));
    assert_eq!((down.tile(3, 1), down.tile(3, 2), down.tile(3, 3)), (E, E, F));
}

#[test]
fn each_jump_removes_exactly_one_peg() {
    let mut g = Grid::new();
    let mut pegs = 32;
    loop {
        assert_eq!(g.filled_count(), pegs);
        let actions = g.valid_actions();
        for a in &actions {
            assert_eq!(g.perform_action(*a).filled_count(), pegs - 1);
        }
        match actions.first() {
            None => break,
            Some(a) => g = g.perform_action(*a),
        }
        pegs -= 1;
    }
    assert!(pegs < 32);
}

#[test]
fn blocked_cells_stay_blocked() {
    let mut g = Grid::new();
    loop {
        for x in 0..7 {
            for y in 0..7 {
                assert_eq!(g.tile(x, y) == B, in_corner(x, y));
            }
        }
        match g.valid_actions().last() {
            None => break,
            Some(a) => g = g.perform_action(*a),
        }
    }
}

#[test]
fn a_jump_cannot_be_taken_back() {
    let start = Grid::new();
    let next = start.perform_action(jump(1, 3, Direction::Right));
    // The jump back would start on the landing cell and go the other way.
    let back = jump(3, 3, Direction::Left);
    assert!(!next.verify_action(back));
    assert!(!next.valid_actions().contains(&back));
    assert_ne!(next, start);
    for g in boards_to_try() {
        for a in g.valid_actions() {
            let after = g.perform_action(a);
            let back = match a.dir {
                Direction::Left => jump(a.x - 2, a.y, Direction::Right),
                Direction::Right => jump(a.x + 2, a.y, Direction::Left),
                Direction::Up => jump(a.x, a.y - 2, Direction::Down),
                Direction::Down => jump(a.x, a.y + 2, Direction::Up),
            };
            assert!(!after.verify_action(back));
            assert_ne!(after, g);
        }
    }
}

#[test]
fn is_solved_wants_one_peg_on_the_centre() {
    let mut tiles = [[E; 7]; 7];
    tiles[3][3] = F;
    assert!(Grid::from_tiles(tiles).is_solved());
    tiles[0][2] = F;
    assert!(!Grid::from_tiles(tiles).is_solved());
    tiles[3][3] = E;
    assert!(!Grid::from_tiles(tiles).is_solved());
    assert!(!Grid::new().is_solved());
    assert!(!Grid::from_tiles([[E; 7]; 7]).is_solved());
}

#[test]
fn codes_of_the_extreme_boards() {
    assert_eq!(Grid::from_tiles([[B; 7]; 7]).code(), 0);
    // Forty-nine digits one in base three: (3^49 - 1) / 2.
    assert_eq!(Grid::from_tiles([[F; 7]; 7]).code(), 119649664615308764795041);
    // Forty-nine digits two in base three: 3^49 - 1.
    assert_eq!(Grid::from_tiles([[E; 7]; 7]).code(), 239299329230617529590082);
}

#[test]
fn the_last_tile_is_the_lowest_digit() {
    let mut tiles = [[B; 7]; 7];
    tiles[6][6] = F;
    assert_eq!(Grid::from_tiles(tiles).code(), 1);
    tiles[6][6] = E;
    assert_eq!(Grid::from_tiles(tiles).code(), 2);
    tiles[6][5] = F;
    assert_eq!(Grid::from_tiles(tiles).code(), 5);
    tiles = [[B; 7]; 7];
    tiles[5][6] = F;
    assert_eq!(Grid::from_tiles(tiles).code(), 2187);
    tiles = [[B; 7]; 7];
    tiles[0][0] = F;
    assert_eq!(Grid::from_tiles(tiles).code(), 79766443076872509863361);
}

#[test]
fn different_boards_have_different_codes() {
    let boards = boards_to_try();
    for (i, a) in boards.iter().enumerate() {
        for (j, b) in boards.iter().enumerate() {
            assert_eq!(a.code() == b.code(), a == b, "boards {} and {}", i, j);
        }
    }
}

#[test]
fn render_of_the_start() {
    let text: String = Grid::new().render().into_iter().collect();
    assert_eq!(
        text,
        "  OOO  \n  OOO  \nOOOOOOO\nOOO-OOO\nOOOOOOO\n  OOO  \n  OOO  \n"
    );
}

#[test]
fn render_writes_rows_from_the_top() {
    let mut tiles = [[E; 7]; 7];
    tiles[6][0] = F;
    tiles[0][6] = B;
    let text: String = Grid::from_tiles(tiles).render().into_iter().collect();
    assert_eq!(
        text,
        "------O\n-------\n-------\n-------\n-------\n-------\n ------\n"
    );
}

#[test]
fn symbols_of_tiles_and_directions() {
    assert_eq!(Tile::Blocked.symbol(), ' ');
    assert_eq!(Tile::Filled.symbol(), 'O');
    assert_eq!(Tile::Empty.symbol(), '-');
    assert_eq!(Direction::Up.symbol(), '↑');
    assert_eq!(Direction::Down.symbol(), '↓');
    assert_eq!(Direction::Left.symbol(), '←');
    assert_eq!(Direction::Right.symbol(), '→');
}

#[test]
fn equal_snapshots_are_one_member_of_a_set() {
    let start = Grid::new();
    let one = start.perform_action(jump(1, 3, Direction::Right));
    let same = Grid::new().perform_action(jump(1, 3, Direction::Right));
    let other = start.perform_action(jump(5, 3, Direction::Left));
    assert_eq!(one, same);
    assert_ne!(one, other);
    let mut seen = HashSet::new();
    assert!(seen.insert(start));
    assert!(seen.insert(one));
    assert!(!seen.insert(same));
    assert!(!seen.insert(Grid::new()));
    assert!(seen.insert(other));
    assert_eq!(seen.len(), 3);
}
