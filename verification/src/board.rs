//! The mathematical model of the game: a board is a sequence of seven
//! columns of seven tiles, `b[x][y]` being the tile at column `x`, row `y`.
//! The rules are stated on this model, and so are the facts that hold of it.

use vstd::prelude::*;
use vstd::seq_lib::lemma_seq_contains_after_push;
use crate::tile::{Action, Direction, Tile};

verus! {

/// A board: `b[x][y]` is the tile at column `x` and row `y`.
pub type Board = Seq<Seq<Tile>>;

/// The coordinate `(x, y)` lies on the seven-by-seven square.
pub open spec fn in_range(x: int, y: int) -> bool {
    0 <= x < 7 && 0 <= y < 7
}

/// The board has seven columns of seven tiles each.
pub open spec fn well_shaped(b: Board) -> bool {
    &&& b.len() == 7
    &&& forall|x: int| 0 <= x < 7 ==> (#[trigger] b[x]).len() == 7
}

/// The coordinate lies in one of the four two-by-two corners that the cross
/// shape leaves out.
pub open spec fn in_corner(x: int, y: int) -> bool {
    (x < 2 || x > 4) && (y < 2 || y > 4)
}

/// The board at the start of the game: the corners blocked, the centre empty,
/// a peg everywhere else.
pub open spec fn initial_board() -> Board {
    Seq::new(
        7,
        |x: int|
            Seq::new(
                7,
                |y: int|
                    if in_corner(x, y) {
                        Tile::Blocked
                    } else if x == 3 && y == 3 {
                        Tile::Empty
                    } else {
                        Tile::Filled
                    },
            ),
    )
}

/// The board with the tile at `(x, y)` replaced by `t`.
pub open spec fn put(b: Board, x: int, y: int, t: Tile) -> Board {
    b.update(x, b[x].update(y, t))
}

/// The column of the cell that the jump leaps over.
pub open spec fn jumped_x(a: Action) -> int {
    a.x + a.dir.dx()
}

/// The row of the cell that the jump leaps over.
pub open spec fn jumped_y(a: Action) -> int {
    a.y + a.dir.dy()
}

/// The column of the cell on which the jump lands.
pub open spec fn landing_x(a: Action) -> int {
    a.x + 2 * a.dir.dx()
}

/// The row of the cell on which the jump lands.
pub open spec fn landing_y(a: Action) -> int {
    a.y + 2 * a.dir.dy()
}

/// The place of a direction in the order in which the jumps from one cell are
/// listed: left, right, up, down.
pub open spec fn direction_rank(d: Direction) -> int {
    match d {
        Direction::Left => 0,
        Direction::Right => 1,
        Direction::Up => 2,
        Direction::Down => 3,
    }
}

/// The place of a jump in the order in which the jumps of a board are listed:
/// by column, then by row, then by direction.
pub open spec fn scan_rank(a: Action) -> int {
    (a.x * 7 + a.y) * 4 + direction_rank(a.dir)
}

/// The jumps of the sequence stand in listing order, none of them twice.
pub open spec fn in_scan_order(moves: Seq<Action>) -> bool {
    forall|i: int, j: int|
        0 <= i < j < moves.len() ==> scan_rank(#[trigger] moves[i]) < scan_rank(#[trigger] moves[j])
}

/// The jump may be made on the board: its source and its landing cell lie on
/// the square, a peg stands on the source and on the cell leapt over, and the
/// landing cell is empty.
pub open spec fn legal(b: Board, a: Action) -> bool {
    &&& in_range(a.x as int, a.y as int)
    &&& in_range(landing_x(a), landing_y(a))
    &&& b[a.x as int][a.y as int] == Tile::Filled
    &&& b[jumped_x(a)][jumped_y(a)] == Tile::Filled
    &&& b[landing_x(a)][landing_y(a)] == Tile::Empty
}

/// The board after the jump: the source and the cell leapt over are empty,
/// the landing cell holds the peg, every other cell is as before.
pub open spec fn step(b: Board, a: Action) -> Board {
    put(
        put(put(b, a.x as int, a.y as int, Tile::Empty), jumped_x(a), jumped_y(a), Tile::Empty),
        landing_x(a),
        landing_y(a),
        Tile::Filled,
    )
}

/// One for a peg, zero for anything else.
pub open spec fn peg(t: Tile) -> nat {
    if t == Tile::Filled {
        1
    } else {
        0
    }
}

/// The number of pegs in a column.
pub open spec fn column_pegs(col: Seq<Tile>) -> nat
    decreases col.len(),
{
    if col.len() == 0 {
        0
    } else {
        column_pegs(col.drop_last()) + peg(col.last())
    }
}

/// The number of pegs on a board.
pub open spec fn pegs(b: Board) -> nat
    decreases b.len(),
{
    if b.len() == 0 {
        0
    } else {
        pegs(b.drop_last()) + column_pegs(b.last())
    }
}

/// The game is won: a single peg is left, and it stands on the centre.
pub open spec fn solved(b: Board) -> bool {
    pegs(b) == 1 && b[3][3] == Tile::Filled
}

/// Every jump of the sequence is legal on the board that the jumps before it
/// have made of `b`.
pub open spec fn playable(b: Board, moves: Seq<Action>) -> bool
    decreases moves.len(),
{
    moves.len() == 0 || (playable(b, moves.drop_last()) && legal(
        play(b, moves.drop_last()),
        moves.last(),
    ))
}

/// The board that the jumps of the sequence, made in order, make of `b`.
pub open spec fn play(b: Board, moves: Seq<Action>) -> Board
    decreases moves.len(),
{
    if moves.len() == 0 {
        b
    } else {
        step(play(b, moves.drop_last()), moves.last())
    }
}

/// Some sequence of legal jumps leads from `from` to `to`.
pub open spec fn reachable(from: Board, to: Board) -> bool {
    exists|moves: Seq<Action>| playable(from, moves) && #[trigger] play(from, moves) == to
}

/// The two boards are blocked on the same cells.
pub open spec fn same_shape(b1: Board, b2: Board) -> bool {
    forall|x: int, y: int|
        in_range(x, y) ==> ((#[trigger] b1[x][y] == Tile::Blocked) <==> b2[x][y] == Tile::Blocked)
}

/// Replacing one tile of a column changes its number of pegs by what the new
/// tile adds and the old one took.
pub proof fn lemma_column_pegs_update(col: Seq<Tile>, y: int, t: Tile)
    requires
        0 <= y < col.len(),
    ensures
        column_pegs(col.update(y, t)) == column_pegs(col) - peg(col[y]) + peg(t),
    decreases col.len(),
{
    let new = col.update(y, t);
    if y == col.len() - 1 {
        assert(new.drop_last() =~= col.drop_last());
    } else {
        assert(new.drop_last() =~= col.drop_last().update(y, t));
        lemma_column_pegs_update(col.drop_last(), y, t);
    }
}

/// Replacing one column of a board changes its number of pegs by what the new
/// column adds and the old one took.
pub proof fn lemma_pegs_update(b: Board, x: int, col: Seq<Tile>)
    requires
        0 <= x < b.len(),
    ensures
        pegs(b.update(x, col)) == pegs(b) - column_pegs(b[x]) + column_pegs(col),
    decreases b.len(),
{
    let new = b.update(x, col);
    if x == b.len() - 1 {
        assert(new.drop_last() =~= b.drop_last());
    } else {
        assert(new.drop_last() =~= b.drop_last().update(x, col));
        lemma_pegs_update(b.drop_last(), x, col);
    }
}

/// Replacing one tile of a board keeps its shape, changes that tile alone, and
/// changes the number of pegs by what the new tile adds and the old one took.
pub proof fn lemma_put(b: Board, x: int, y: int, t: Tile)
    requires
        well_shaped(b),
        in_range(x, y),
    ensures
        well_shaped(put(b, x, y, t)),
        put(b, x, y, t)[x][y] == t,
        forall|i: int, j: int|
            in_range(i, j) && (i != x || j != y) ==> #[trigger] put(b, x, y, t)[i][j] == b[i][j],
        pegs(put(b, x, y, t)) == pegs(b) - peg(b[x][y]) + peg(t),
{
    lemma_column_pegs_update(b[x], y, t);
    lemma_pegs_update(b, x, b[x].update(y, t));
}

/// The tile that stands at `(x, y)` once the jump is made.
pub open spec fn tile_after(b: Board, a: Action, x: int, y: int) -> Tile {
    if x == landing_x(a) && y == landing_y(a) {
        Tile::Filled
    } else if (x == a.x && y == a.y) || (x == jumped_x(a) && y == jumped_y(a)) {
        Tile::Empty
    } else {
        b[x][y]
    }
}

/// What a legal jump does: the board keeps its shape, each cell holds what
/// `tile_after` says, the blocked cells are the same as before, and one peg
/// fewer is on the board.
pub proof fn lemma_step(b: Board, a: Action)
    requires
        well_shaped(b),
        legal(b, a),
    ensures
        well_shaped(step(b, a)),
        forall|x: int, y: int| in_range(x, y) ==> #[trigger] step(b, a)[x][y] == tile_after(b, a, x, y),
        same_shape(b, step(b, a)),
        pegs(step(b, a)) == pegs(b) - 1,
{
    let b1 = put(b, a.x as int, a.y as int, Tile::Empty);
    let b2 = put(b1, jumped_x(a), jumped_y(a), Tile::Empty);
    lemma_put(b, a.x as int, a.y as int, Tile::Empty);
    lemma_put(b1, jumped_x(a), jumped_y(a), Tile::Empty);
    lemma_put(b2, landing_x(a), landing_y(a), Tile::Filled);
    assert forall|x: int, y: int| in_range(x, y) implies #[trigger] step(b, a)[x][y] == tile_after(
        b,
        a,
        x,
        y,
    ) by {
        assert(b2[x][y] == if x == jumped_x(a) && y == jumped_y(a) {
            Tile::Empty
        } else {
            b1[x][y]
        });
    }
}

/// The number of pegs after a legal jump is the number before it less one.
pub proof fn lemma_jump_removes_one_peg(b: Board, a: Action)
    requires
        well_shaped(b),
        legal(b, a),
    ensures
        pegs(step(b, a)) + 1 == pegs(b),
{
    lemma_step(b, a);
}

/// What a sequence of legal jumps does: the board keeps its shape, the
/// blocked cells are the same as before, and each jump has removed one peg.
pub proof fn lemma_play(b: Board, moves: Seq<Action>)
    requires
        well_shaped(b),
        playable(b, moves),
    ensures
        well_shaped(play(b, moves)),
        same_shape(b, play(b, moves)),
        pegs(play(b, moves)) + moves.len() == pegs(b),
    decreases moves.len(),
{
    if moves.len() > 0 {
        let before = play(b, moves.drop_last());
        lemma_play(b, moves.drop_last());
        lemma_step(before, moves.last());
        assert forall|x: int, y: int| in_range(x, y) implies ((#[trigger] b[x][y] == Tile::Blocked)
            <==> play(b, moves)[x][y] == Tile::Blocked) by {
            assert((before[x][y] == Tile::Blocked) <==> step(before, moves.last())[x][y]
                == Tile::Blocked);
        }
    }
}

/// A blocked cell is blocked after any sequence of legal jumps.
pub proof fn lemma_blocked_stays_blocked(b: Board, moves: Seq<Action>, x: int, y: int)
    requires
        well_shaped(b),
        playable(b, moves),
        in_range(x, y),
    ensures
        b[x][y] == Tile::Blocked <==> play(b, moves)[x][y] == Tile::Blocked,
{
    lemma_play(b, moves);
}

/// The jump that would carry the peg back: from the landing cell of `a`, in
/// the opposite direction.
pub open spec fn reverse(a: Action) -> Action {
    Action {
        x: landing_x(a) as usize,
        y: landing_y(a) as usize,
        dir: match a.dir {
            Direction::Up => Direction::Down,
            Direction::Down => Direction::Up,
            Direction::Left => Direction::Right,
            Direction::Right => Direction::Left,
        },
    }
}

/// A jump cannot be taken back: once it is made, the board differs from the
/// one before, and the reverse jump is not legal on it, since the cell it
/// would leap over has just been emptied.
pub proof fn lemma_jump_is_not_undone(b: Board, a: Action)
    requires
        well_shaped(b),
        legal(b, a),
    ensures
        step(b, a) != b,
        !legal(step(b, a), reverse(a)),
{
    lemma_step(b, a);
    assert(step(b, a)[a.x as int][a.y as int] == tile_after(b, a, a.x as int, a.y as int));
    assert(step(b, a)[jumped_x(a)][jumped_y(a)] == tile_after(b, a, jumped_x(a), jumped_y(a)));
}

/// The pegs among the first seven tiles of a column, counted tile by tile.
pub open spec fn seven_pegs(col: Seq<Tile>) -> nat {
    peg(col[0]) + peg(col[1]) + peg(col[2]) + peg(col[3]) + peg(col[4]) + peg(col[5]) + peg(col[6])
}

/// The pegs of a column of seven tiles, counted tile by tile.
pub proof fn lemma_column_pegs_of_seven(col: Seq<Tile>)
    requires
        col.len() == 7,
    ensures
        column_pegs(col) == seven_pegs(col),
{
    reveal_with_fuel(column_pegs, 8);
}

/// The pegs of a board, counted tile by tile.
pub proof fn lemma_pegs_by_cell(b: Board)
    requires
        well_shaped(b),
    ensures
        pegs(b) == seven_pegs(b[0]) + seven_pegs(b[1]) + seven_pegs(b[2]) + seven_pegs(b[3])
            + seven_pegs(b[4]) + seven_pegs(b[5]) + seven_pegs(b[6]),
{
    assert(pegs(b) == column_pegs(b[0]) + column_pegs(b[1]) + column_pegs(b[2]) + column_pegs(b[3])
        + column_pegs(b[4]) + column_pegs(b[5]) + column_pegs(b[6])) by {
        reveal_with_fuel(pegs, 8);
    }
    lemma_column_pegs_of_seven(b[0]);
    lemma_column_pegs_of_seven(b[1]);
    lemma_column_pegs_of_seven(b[2]);
    lemma_column_pegs_of_seven(b[3]);
    lemma_column_pegs_of_seven(b[4]);
    lemma_column_pegs_of_seven(b[5]);
    lemma_column_pegs_of_seven(b[6]);
}

/// A column holds at most as many pegs as it has tiles.
pub proof fn lemma_column_pegs_bound(col: Seq<Tile>)
    ensures
        column_pegs(col) <= col.len(),
    decreases col.len(),
{
    if col.len() > 0 {
        lemma_column_pegs_bound(col.drop_last());
    }
}

/// Columns of seven tiles hold at most seven pegs each.
pub proof fn lemma_pegs_bound(b: Board)
    requires
        forall|x: int| 0 <= x < b.len() ==> (#[trigger] b[x]).len() == 7,
    ensures
        pegs(b) <= 7 * b.len(),
    decreases b.len(),
{
    if b.len() > 0 {
        lemma_pegs_bound(b.drop_last());
        lemma_column_pegs_bound(b.last());
    }
}

/// The starting position has the shape of a board and thirty-two pegs, and
/// none of them stands on the centre.
pub proof fn lemma_initial_board()
    ensures
        well_shaped(initial_board()),
        pegs(initial_board()) == 32,
        !solved(initial_board()),
{
    let b = initial_board();
    lemma_pegs_by_cell(b);
}

/// On a board on which the game is won, no peg stands anywhere but on the
/// centre.
pub proof fn lemma_solved_has_one_peg(b: Board)
    requires
        well_shaped(b),
        solved(b),
    ensures
        forall|x: int, y: int|
            in_range(x, y) && !(x == 3 && y == 3) ==> #[trigger] b[x][y] != Tile::Filled,
{
    lemma_pegs_by_cell(b);
}

/// The board on which the game is won is determined by the blocked cells: two
/// boards that are blocked on the same cells and on which the game is won are
/// the same board.
pub proof fn lemma_solved_boards_agree(b1: Board, b2: Board)
    requires
        well_shaped(b1),
        well_shaped(b2),
        same_shape(b1, b2),
        solved(b1),
        solved(b2),
    ensures
        b1 == b2,
{
    lemma_solved_has_one_peg(b1);
    lemma_solved_has_one_peg(b2);
    assert forall|x: int, y: int| in_range(x, y) implies b1[x][y] == b2[x][y] by {
        assert((b1[x][y] == Tile::Blocked) <==> b2[x][y] == Tile::Blocked);
    }
    assert(b1 =~~= b2);
}

/// In a list of jumps in listing order, the rank of a jump is at least its
/// place in the list.
proof fn lemma_rank_at_least_place(moves: Seq<Action>, i: int)
    requires
        in_scan_order(moves),
        0 <= i < moves.len(),
    ensures
        scan_rank(moves[i]) >= i,
    decreases i,
{
    if i > 0 {
        lemma_rank_at_least_place(moves, i - 1);
    }
}

/// A board has at most 196 legal jumps: four for each of its cells.
pub proof fn lemma_at_most_196_jumps(b: Board, moves: Seq<Action>)
    requires
        in_scan_order(moves),
        forall|a: Action| moves.contains(a) ==> legal(b, a),
    ensures
        moves.len() <= 196,
{
    if moves.len() > 0 {
        let last = moves.len() - 1;
        lemma_rank_at_least_place(moves, last);
        assert(moves.contains(moves[last]));
    }
}

/// Two lists in listing order that hold the same jumps are the same list: the
/// order leaves no choice.
pub proof fn lemma_scan_order_is_unique(s1: Seq<Action>, s2: Seq<Action>)
    requires
        in_scan_order(s1),
        in_scan_order(s2),
        forall|a: Action| s1.contains(a) <==> s2.contains(a),
    ensures
        s1 == s2,
    decreases s1.len(),
{
    if s1.len() == 0 {
        if s2.len() > 0 {
            assert(s2.contains(s2[0]));
        }
        assert(s1 =~= s2);
    } else {
        let last = s1.last();
        assert(s1.contains(last));
        let j = s2.index_of(last);
        if j < s2.len() - 1 {
            assert(s2.contains(s2.last()));
            let i = s1.index_of(s2.last());
            assert(scan_rank(s1[i]) <= scan_rank(last));
            assert(scan_rank(s2[j]) < scan_rank(s2[s2.len() - 1]));
        }
        let r1 = s1.drop_last();
        let r2 = s2.drop_last();
        assert forall|a: Action| r1.contains(a) <==> r2.contains(a) by {
            if r1.contains(a) {
                let i = r1.index_of(a);
                assert(s1[i] == a);
                assert(s1.contains(a));
                let k = s2.index_of(a);
                assert(scan_rank(s1[i]) < scan_rank(s1[s1.len() - 1]));
                assert(r2[k] == a);
            }
            if r2.contains(a) {
                let k = r2.index_of(a);
                assert(s2[k] == a);
                assert(s2.contains(a));
                let i = s1.index_of(a);
                assert(scan_rank(s2[k]) < scan_rank(s2[s2.len() - 1]));
                assert(r1[i] == a);
            }
        }
        lemma_scan_order_is_unique(r1, r2);
        assert(s1 =~= r1.push(last));
        assert(s2 =~= r2.push(last));
    }
}

/// The direction with the given place in the listing order.
pub open spec fn direction_of_rank(r: int) -> Direction {
    if r == 0 {
        Direction::Left
    } else if r == 1 {
        Direction::Right
    } else if r == 2 {
        Direction::Up
    } else {
        Direction::Down
    }
}

/// The jump with the given place in the listing order.
pub open spec fn jump_of_rank(r: int) -> Action {
    Action { x: (r / 28) as usize, y: ((r / 4) % 7) as usize, dir: direction_of_rank(r % 4) }
}

/// The legal jumps of the board whose rank is below `n`, in listing order.
pub open spec fn listing_below(b: Board, n: nat) -> Seq<Action>
    decreases n,
{
    if n == 0 {
        Seq::empty()
    } else if legal(b, jump_of_rank(n - 1)) {
        listing_below(b, (n - 1) as nat).push(jump_of_rank(n - 1))
    } else {
        listing_below(b, (n - 1) as nat)
    }
}

/// The legal jumps of the board, in listing order.
pub open spec fn listing(b: Board) -> Seq<Action> {
    listing_below(b, 196)
}

/// `listing_below` holds the legal jumps with a rank below `n`, each once, in
/// listing order.
pub proof fn lemma_listing_below(b: Board, n: nat)
    requires
        n <= 196,
    ensures
        in_scan_order(listing_below(b, n)),
        forall|a: Action| #[trigger]
            listing_below(b, n).contains(a) <==> (legal(b, a) && scan_rank(a) < n),
    decreases n,
{
    let all = listing_below(b, n);
    if n == 0 {
    } else {
        let rest = listing_below(b, (n - 1) as nat);
        let next = jump_of_rank(n - 1);
        lemma_listing_below(b, (n - 1) as nat);
        assert(scan_rank(next) == n - 1);
        assert forall|a: Action| #[trigger] all.contains(a) <==> (legal(b, a) && scan_rank(a)
            < n) by {
            if legal(b, a) && scan_rank(a) == n - 1 {
                assert(a == next);
            }
            if legal(b, next) {
                lemma_seq_contains_after_push(rest, next, a);
            }
        }
        assert forall|i: int, j: int| 0 <= i < j < all.len() implies scan_rank(#[trigger] all[i])
            < scan_rank(#[trigger] all[j]) by {
            assert(rest.contains(rest[i]));
        }
    }
}

/// A list of jumps is the listing of a board exactly if it holds the legal
/// jumps of the board and stands in listing order.
pub proof fn lemma_listing(b: Board, jumps: Seq<Action>)
    ensures
        jumps == listing(b) <==> (in_scan_order(jumps) && forall|a: Action| #[trigger]
            jumps.contains(a) <==> legal(b, a)),
{
    lemma_listing_below(b, 196);
    if in_scan_order(jumps) && forall|a: Action| #[trigger] jumps.contains(a) <==> legal(b, a) {
        lemma_scan_order_is_unique(jumps, listing(b));
    }
}

} // verus!
