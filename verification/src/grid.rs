//! A board snapshot as a value: the seven-by-seven array of tiles together
//! with the number of pegs on it.

use vstd::prelude::*;
use vstd::array::spec_array_fill_for_copy_type;
use vstd::seq_lib::{lemma_seq_concat_contains_all_elements, lemma_seq_contains_after_push};
use crate::board::{
    column_pegs, direction_rank, in_range, in_scan_order, initial_board, legal,
    lemma_initial_board, lemma_listing, lemma_pegs_bound, lemma_pegs_by_cell, lemma_put,
    lemma_step, listing, pegs, put, scan_rank, solved, step, well_shaped, Board,
};
use crate::code::{board_code, column_code, power};
use crate::tile::{Action, Direction, Tile};

verus! {

/// One snapshot of the board. A value never changes: a jump gives a new one.
#[derive(Clone, Copy, Debug, PartialEq, Eq, Hash)]
pub struct Grid {
    grid: [[Tile; 7]; 7],
    filled_count: u32,
}

/// The board that an array of seven columns of seven tiles holds.
pub open spec fn board_of_tiles(tiles: [[Tile; 7]; 7]) -> Board {
    Seq::new(7, |x: int| tiles[x]@)
}

/// The text of a board: eight characters for each row, from the top: the
/// symbols of its seven tiles from the left, and a line feed.
pub open spec fn board_text(b: Board) -> Seq<char> {
    Seq::new(
        56,
        |i: int|
            if i % 8 == 7 {
                '\n'
            } else {
                b[i % 8][i / 8].symbol()
            },
    )
}

impl View for Grid {
    type V = Board;

    /// The board that the snapshot holds.
    closed spec fn view(&self) -> Board {
        board_of_tiles(self.grid)
    }
}

impl Default for Grid {
    /// The starting position.
    fn default() -> (g: Grid)
        ensures
            g@ == initial_board(),
    {
        Grid::new()
    }
}

impl Grid {
    /// The stored number of pegs is the number of pegs on the board.
    #[verifier::type_invariant]
    spec fn counted(self) -> bool {
        self.filled_count == pegs(self@)
    }

    /// The view of any snapshot has seven columns of seven tiles.
    pub proof fn lemma_view_well_shaped(self)
        ensures
            well_shaped(self@),
    {
    }

    /// The starting position: the corners blocked, the centre empty, pegs on
    /// the thirty-two other cells.
    pub fn new() -> (g: Grid)
        ensures
            g@ == initial_board(),
            pegs(g@) == 32,
    {
        let mut grid = [[Tile::Filled; 7]; 7];
        proof {
            let row = spec_array_fill_for_copy_type::<Tile, 7>(Tile::Filled);
            assert forall|x: int, y: int| in_range(x, y) implies grid[x][y] == Tile::Filled by {
                assert(grid@[x] == row);
                assert(row@[y] == Tile::Filled);
            }
        }
        grid[3][3] = Tile::Empty;
        grid[0][0] = Tile::Blocked;
        grid[0][1] = Tile::Blocked;
        grid[1][0] = Tile::Blocked;
        grid[1][1] = Tile::Blocked;
        grid[5][0] = Tile::Blocked;
        grid[5][1] = Tile::Blocked;
        grid[6][0] = Tile::Blocked;
        grid[6][1] = Tile::Blocked;
        grid[0][5] = Tile::Blocked;
        grid[0][6] = Tile::Blocked;
        grid[1][5] = Tile::Blocked;
        grid[1][6] = Tile::Blocked;
        grid[5][5] = Tile::Blocked;
        grid[5][6] = Tile::Blocked;
        grid[6][5] = Tile::Blocked;
        grid[6][6] = Tile::Blocked;
        proof {
            lemma_initial_board();
            let b = board_of_tiles(grid);
            assert forall|x: int, y: int| in_range(x, y) implies b[x][y] == initial_board()[x][y] by {
                assert(b[x] == grid@[x]@);
            }
            assert(b =~~= initial_board());
        }
        Grid { grid, filled_count: 32 }
    }

    /// The snapshot that holds the given tiles, `tiles[x][y]` being the tile at
    /// column `x`, row `y`.
    pub fn from_tiles(tiles: [[Tile; 7]; 7]) -> (g: Grid)
        ensures
            g@ == board_of_tiles(tiles),
    {
        let blocked = [[Tile::Blocked; 7]; 7];
        proof {
            let row = spec_array_fill_for_copy_type::<Tile, 7>(Tile::Blocked);
            assert forall|x: int, y: int| in_range(x, y) implies blocked[x][y] == Tile::Blocked by {
                assert(blocked@[x] == row);
                assert(row@[y] == Tile::Blocked);
            }
            lemma_pegs_by_cell(board_of_tiles(blocked));
        }
        let mut g = Grid { grid: blocked, filled_count: 0 };
        for x in 0..7usize
            invariant
                forall|i: int, j: int|
                    in_range(i, j) && i < x ==> #[trigger] g@[i][j] == tiles[i][j],
        {
            for y in 0..7usize
                invariant
                    x < 7,
                    forall|i: int, j: int|
                        in_range(i, j) && (i < x || (i == x && j < y)) ==> #[trigger] g@[i][j]
                            == tiles[i][j],
            {
                proof {
                    lemma_put(g@, x as int, y as int, tiles[x as int][y as int]);
                }
                g = g.with_tile(x, y, tiles[x][y]);
            }
        }
        proof {
            assert(g@ =~~= board_of_tiles(tiles));
        }
        g
    }

    /// The snapshot with the tile at `(x, y)` replaced by `t`.
    fn with_tile(&self, x: usize, y: usize, t: Tile) -> (g: Grid)
        requires
            x < 7,
            y < 7,
        ensures
            g@ == put(self@, x as int, y as int, t),
    {
        proof {
            use_type_invariant(self);
            lemma_put(self@, x as int, y as int, t);
            lemma_put(self@, x as int, y as int, Tile::Empty);
        }
        let mut count = self.filled_count;
        if self.grid[x][y] == Tile::Filled {
            count = count - 1;
        }
        proof {
            lemma_pegs_bound(self@);
        }
        if t == Tile::Filled {
            count = count + 1;
        }
        let mut grid = self.grid;
        grid[x][y] = t;
        proof {
            assert(board_of_tiles(grid) =~~= put(self@, x as int, y as int, t));
        }
        Grid { grid, filled_count: count }
    }

    /// The tile at column `x`, row `y`.
    pub fn tile(&self, x: usize, y: usize) -> (t: Tile)
        requires
            x < 7,
            y < 7,
        ensures
            t == self@[x as int][y as int],
    {
        self.grid[x][y]
    }

    /// The number of pegs on the board, counted cell by cell.
    pub fn filled_count(&self) -> (count: u32)
        ensures
            count == pegs(self@),
    {
        let mut count: u32 = 0;
        for x in 0..7usize
            invariant
                count == pegs(self@.take(x as int)),
                count <= 7 * x,
        {
            for y in 0..7usize
                invariant
                    x < 7,
                    count == pegs(self@.take(x as int)) + column_pegs(self@[x as int].take(y as int)),
                    count <= 7 * x + y,
            {
                proof {
                    let col = self@[x as int];
                    assert(col.take(y + 1).drop_last() =~= col.take(y as int));
                }
                if self.grid[x][y] == Tile::Filled {
                    count += 1;
                }
            }
            proof {
                assert(self@[x as int].take(7) =~= self@[x as int]);
                assert(self@.take(x + 1).drop_last() =~= self@.take(x as int));
            }
        }
        proof {
            assert(self@.take(7) =~= self@);
        }
        count
    }

    /// Whether the game is won on this board: a single peg is left, and it
    /// stands on the centre.
    pub fn is_solved(&self) -> (won: bool)
        ensures
            won == solved(self@),
    {
        proof {
            use_type_invariant(self);
        }
        self.filled_count == 1 && self.grid[3][3] == Tile::Filled
    }

    /// Whether the jump may be made on this board.
    pub open spec fn spec_verify_action(&self, action: Action) -> bool {
        legal(self@, action)
    }

    /// Whether the jump may be made on this board: the source and the landing
    /// cell lie on the board, pegs stand on the source and on the cell leapt
    /// over, and the landing cell is empty. A jump that starts or ends
    /// outside the board is not legal.
    #[verifier::when_used_as_spec(spec_verify_action)]
    pub fn verify_action(&self, action: Action) -> (ok: bool)
        ensures
            ok == legal(self@, action),
    {
        if action.x >= 7 || action.y >= 7 {
            return false;
        }
        if self.grid[action.x][action.y] != Tile::Filled {
            return false;
        }
        match action.dir {
            Direction::Up => {
                if action.y < 2 {
                    return false;
                }
                if self.grid[action.x][action.y - 1] != Tile::Filled {
                    return false;
                }
                if self.grid[action.x][action.y - 2] != Tile::Empty {
                    return false;
                }
            },
            Direction::Down => {
                if action.y > 4 {
                    return false;
                }
                if self.grid[action.x][action.y + 1] != Tile::Filled {
                    return false;
                }
                if self.grid[action.x][action.y + 2] != Tile::Empty {
                    return false;
                }
            },
            Direction::Left => {
                if action.x < 2 {
                    return false;
                }
                if self.grid[action.x - 1][action.y] != Tile::Filled {
                    return false;
                }
                if self.grid[action.x - 2][action.y] != Tile::Empty {
                    return false;
                }
            },
            Direction::Right => {
                if action.x > 4 {
                    return false;
                }
                if self.grid[action.x + 1][action.y] != Tile::Filled {
                    return false;
                }
                if self.grid[action.x + 2][action.y] != Tile::Empty {
                    return false;
                }
            },
        }
        true
    }

    /// The legal jumps of the peg at `(x, y)`, each once, in the order left,
    /// right, up, down. There is none where no peg stands on the cell.
    pub fn tile_actions(&self, x: usize, y: usize) -> (actions: Vec<Action>)
        requires
            x < 7,
            y < 7,
        ensures
            forall|a: Action| #[trigger]
                actions@.contains(a) <==> (a.x == x && a.y == y && self.verify_action(a)),
            in_scan_order(actions@),
    {
        let ghost b = self@;
        let mut actions = Vec::new();
        if self.grid[x][y] != Tile::Filled {
            return actions;
        }
        let left = Action { x, y, dir: Direction::Left };
        let right = Action { x, y, dir: Direction::Right };
        let up = Action { x, y, dir: Direction::Up };
        let down = Action { x, y, dir: Direction::Down };
        let ghost s0 = actions@;
        if x > 1 && self.grid[x - 1][y] == Tile::Filled && self.grid[x - 2][y] == Tile::Empty {
            actions.push(left);
        }
        let ghost s1 = actions@;
        if x < 5 && self.grid[x + 1][y] == Tile::Filled && self.grid[x + 2][y] == Tile::Empty {
            actions.push(right);
        }
        let ghost s2 = actions@;
        if y > 1 && self.grid[x][y - 1] == Tile::Filled && self.grid[x][y - 2] == Tile::Empty {
            actions.push(up);
        }
        let ghost s3 = actions@;
        if y < 5 && self.grid[x][y + 1] == Tile::Filled && self.grid[x][y + 2] == Tile::Empty {
            actions.push(down);
        }
        proof {
            lemma_offer(b, s0, s1, left);
            lemma_offer(b, s1, s2, right);
            lemma_offer(b, s2, s3, up);
            lemma_offer(b, s3, actions@, down);
        }
        actions
    }

    /// Every legal jump of the board, each once, listed by column, then by
    /// row, then by direction. A jump is in the list exactly if
    /// `verify_action` accepts it.
    pub fn valid_actions(&self) -> (actions: Vec<Action>)
        ensures
            actions@ == listing(self@),
            forall|a: Action| #[trigger] actions@.contains(a) <==> self.verify_action(a),
            in_scan_order(actions@),
    {
        let ghost b = self@;
        let mut actions: Vec<Action> = Vec::new();
        for x in 0..7usize
            invariant
                b == self@,
                forall|a: Action| actions@.contains(a) <==> (legal(b, a) && a.x < x),
                forall|i: int| 0 <= i < actions.len() ==> scan_rank(#[trigger] actions[i]) < x * 28,
                in_scan_order(actions@),
        {
            for y in 0..7usize
                invariant
                    x < 7,
                    b == self@,
                    forall|a: Action|
                        actions@.contains(a) <==> (legal(b, a) && (a.x < x || (a.x == x && a.y < y))),
                    forall|i: int|
                        0 <= i < actions.len() ==> scan_rank(#[trigger] actions[i]) < (x * 7 + y) * 4,
                    in_scan_order(actions@),
            {
                let ghost before = actions@;
                let mut more = self.tile_actions(x, y);
                let ghost added = more@;
                actions.append(&mut more);
                proof {
                    lemma_extend(b, before, added, x as int, y as int);
                }
            }
        }
        proof {
            lemma_listing(b, actions@);
        }
        actions
    }

    /// The board after the jump, which must be legal. The receiver is left as
    /// it was.
    pub fn perform_action(&self, action: Action) -> (next: Grid)
        requires
            legal(self@, action),
        ensures
            next@ == step(self@, action),
            pegs(next@) + 1 == pegs(self@),
    {
        proof {
            use_type_invariant(self);
            lemma_step(self@, action);
        }
        let mut new_grid = self.grid;
        new_grid[action.x][action.y] = Tile::Empty;
        match action.dir {
            Direction::Up => {
                new_grid[action.x][action.y - 1] = Tile::Empty;
                new_grid[action.x][action.y - 2] = Tile::Filled;
            },
            Direction::Down => {
                new_grid[action.x][action.y + 1] = Tile::Empty;
                new_grid[action.x][action.y + 2] = Tile::Filled;
            },
            Direction::Left => {
                new_grid[action.x - 1][action.y] = Tile::Empty;
                new_grid[action.x - 2][action.y] = Tile::Filled;
            },
            Direction::Right => {
                new_grid[action.x + 1][action.y] = Tile::Empty;
                new_grid[action.x + 2][action.y] = Tile::Filled;
            },
        }
        proof {
            assert(board_of_tiles(new_grid) =~~= step(self@, action));
        }
        Grid { grid: new_grid, filled_count: self.filled_count - 1 }
    }

    /// The number that stands for the board: the same for two snapshots only
    /// if they hold the same board.
    pub fn code(&self) -> (k: u128)
        ensures
            k == board_code(self@),
    {
        let mut k: u128 = 0;
        for x in 0..7usize
            invariant
                k == board_code(self@.take(x as int)),
                k < power(2187, x as nat),
        {
            let mut c: u128 = 0;
            for y in 0..7usize
                invariant
                    x < 7,
                    c == column_code(self@[x as int].take(y as int)),
                    c < power(3, y as nat),
            {
                let digit: u128 = match self.grid[x][y] {
                    Tile::Blocked => 0,
                    Tile::Filled => 1,
                    Tile::Empty => 2,
                };
                proof {
                    let col = self@[x as int];
                    assert(col.take(y + 1).drop_last() =~= col.take(y as int));
                    assert(power(3, y as nat) <= 729) by {
                        reveal_with_fuel(power, 8);
                    }
                }
                c = c * 3 + digit;
            }
            proof {
                assert(self@[x as int].take(7) =~= self@[x as int]);
                assert(self@.take(x + 1).drop_last() =~= self@.take(x as int));
                assert(power(3, 7) == 2187 && power(2187, x as nat) <= 109418989131512359209) by {
                    reveal_with_fuel(power, 8);
                }
            }
            k = k * 2187 + c;
        }
        proof {
            assert(self@.take(7) =~= self@);
        }
        k
    }

    /// The board as text, row by row from the top, one symbol for each tile
    /// and a line feed at the end of each row.
    pub fn render(&self) -> (text: Vec<char>)
        ensures
            text@ == board_text(self@),
    {
        let ghost whole = board_text(self@);
        let mut text: Vec<char> = Vec::new();
        for y in 0..7usize
            invariant
                whole == board_text(self@),
                text@ == whole.take(y * 8),
        {
            for x in 0..7usize
                invariant
                    y < 7,
                    whole == board_text(self@),
                    text@ == whole.take(y * 8 + x),
            {
                proof {
                    assert(whole.take(y * 8 + x).push(whole[y * 8 + x]) =~= whole.take(
                        y * 8 + x + 1,
                    ));
                }
                text.push(self.grid[x][y].symbol());
            }
            proof {
                assert(whole.take(y * 8 + 7).push(whole[y * 8 + 7]) =~= whole.take(y * 8 + 8));
            }
            text.push('\n');
        }
        proof {
            assert(whole.take(56) =~= whole);
        }
        text
    }
}

/// Adding the legal jumps of the next cell to the list of those of the cells
/// before it keeps the list exact and in order.
proof fn lemma_extend(b: Board, before: Seq<Action>, added: Seq<Action>, x: int, y: int)
    requires
        in_range(x, y),
        forall|a: Action|
            before.contains(a) <==> (legal(b, a) && (a.x < x || (a.x == x && a.y < y))),
        forall|i: int| 0 <= i < before.len() ==> scan_rank(#[trigger] before[i]) < (x * 7 + y) * 4,
        in_scan_order(before),
        forall|a: Action| added.contains(a) <==> (a.x == x && a.y == y && legal(b, a)),
        in_scan_order(added),
    ensures
        forall|a: Action|
            (before + added).contains(a) <==> (legal(b, a) && (a.x < x || (a.x == x && a.y <= y))),
        forall|i: int|
            0 <= i < (before + added).len() ==> scan_rank(#[trigger] (before + added)[i]) < (x * 7
                + y + 1) * 4,
        in_scan_order(before + added),
{
    let all = before + added;
    assert forall|a: Action|
        all.contains(a) <==> (legal(b, a) && (a.x < x || (a.x == x && a.y <= y))) by {
        lemma_seq_concat_contains_all_elements(before, added, a);
    }
    assert forall|i: int| 0 <= i < all.len() implies (i < before.len() ==> scan_rank(
        #[trigger] all[i],
    ) < (x * 7 + y) * 4) && (i >= before.len() ==> (x * 7 + y) * 4 <= scan_rank(all[i]) < (x * 7
        + y + 1) * 4) by {
        if i >= before.len() {
            assert(added.contains(added[i - before.len()]));
        }
    }
}

/// Offering the next candidate of a cell to the list of its legal jumps keeps
/// the list exact and in order.
proof fn lemma_offer(b: Board, before: Seq<Action>, after: Seq<Action>, cand: Action)
    requires
        forall|a: Action|
            before.contains(a) <==> (a.x == cand.x && a.y == cand.y && legal(b, a)
                && direction_rank(a.dir) < direction_rank(cand.dir)),
        in_scan_order(before),
        after == if legal(b, cand) {
            before.push(cand)
        } else {
            before
        },
    ensures
        forall|a: Action|
            after.contains(a) <==> (a.x == cand.x && a.y == cand.y && legal(b, a)
                && direction_rank(a.dir) <= direction_rank(cand.dir)),
        in_scan_order(after),
{
    assert forall|a: Action|
        after.contains(a) <==> (a.x == cand.x && a.y == cand.y && legal(b, a) && direction_rank(
            a.dir,
        ) <= direction_rank(cand.dir)) by {
        lemma_seq_contains_after_push(before, cand, a);
    }
    assert forall|i: int, j: int| 0 <= i < j < after.len() implies scan_rank(#[trigger] after[i])
        < scan_rank(#[trigger] after[j]) by {
        if j == before.len() {
            assert(before.contains(before[i]));
        }
    }
}

} // verus!
