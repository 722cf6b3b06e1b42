//! A number for each board, different boards getting different numbers, so
//! that a set of boards can be kept as a set of integers. The tiles are the
//! digits of the number in base three, the last tile of the last column being
//! the lowest digit.

use vstd::prelude::*;
use crate::board::{well_shaped, Board};
use crate::tile::Tile;

verus! {

/// The digit that stands for a tile.
pub open spec fn tile_code(t: Tile) -> nat {
    match t {
        Tile::Blocked => 0,
        Tile::Filled => 1,
        Tile::Empty => 2,
    }
}

/// `base` to the power `exp`.
pub open spec fn power(base: nat, exp: nat) -> nat
    decreases exp,
{
    if exp == 0 {
        1
    } else {
        base * power(base, (exp - 1) as nat)
    }
}

/// The tiles of a column read as the digits of a number in base three.
pub open spec fn column_code(col: Seq<Tile>) -> nat
    decreases col.len(),
{
    if col.len() == 0 {
        0
    } else {
        column_code(col.drop_last()) * 3 + tile_code(col.last())
    }
}

/// The columns of a board read as the digits of a number in base 2187, which
/// is three to the seventh: one digit for each column of seven tiles.
pub open spec fn board_code(b: Board) -> nat
    decreases b.len(),
{
    if b.len() == 0 {
        0
    } else {
        board_code(b.drop_last()) * 2187 + column_code(b.last())
    }
}

/// Every column of the sequence has seven tiles.
pub open spec fn columns_of_seven(b: Board) -> bool {
    forall|x: int| 0 <= x < b.len() ==> (#[trigger] b[x]).len() == 7
}

/// The code of a column is below three to the number of its tiles.
pub proof fn lemma_column_code_bound(col: Seq<Tile>)
    ensures
        column_code(col) < power(3, col.len()),
    decreases col.len(),
{
    if col.len() > 0 {
        lemma_column_code_bound(col.drop_last());
    }
}

/// The code of a column of seven tiles is below 2187.
pub proof fn lemma_column_code_of_seven(col: Seq<Tile>)
    requires
        col.len() == 7,
    ensures
        column_code(col) < 2187,
{
    lemma_column_code_bound(col);
    assert(power(3, 7) == 2187) by {
        reveal_with_fuel(power, 8);
    }
}

/// The code of a sequence of columns of seven tiles is below 2187 to the
/// number of the columns.
pub proof fn lemma_board_code_bound(b: Board)
    requires
        columns_of_seven(b),
    ensures
        board_code(b) < power(2187, b.len()),
    decreases b.len(),
{
    if b.len() > 0 {
        lemma_board_code_bound(b.drop_last());
        lemma_column_code_of_seven(b.last());
    }
}

/// Two columns of the same length with the same code are the same column.
pub proof fn lemma_column_code_injective(c1: Seq<Tile>, c2: Seq<Tile>)
    requires
        c1.len() == c2.len(),
        column_code(c1) == column_code(c2),
    ensures
        c1 == c2,
    decreases c1.len(),
{
    if c1.len() > 0 {
        lemma_column_code_injective(c1.drop_last(), c2.drop_last());
        assert(c1 =~= c1.drop_last().push(c1.last()));
        assert(c2 =~= c2.drop_last().push(c2.last()));
    } else {
        assert(c1 =~= c2);
    }
}

/// Two sequences of as many columns of seven tiles with the same code are the
/// same sequence.
pub proof fn lemma_columns_code_injective(b1: Board, b2: Board)
    requires
        b1.len() == b2.len(),
        columns_of_seven(b1),
        columns_of_seven(b2),
        board_code(b1) == board_code(b2),
    ensures
        b1 == b2,
    decreases b1.len(),
{
    if b1.len() > 0 {
        lemma_column_code_of_seven(b1.last());
        lemma_column_code_of_seven(b2.last());
        lemma_columns_code_injective(b1.drop_last(), b2.drop_last());
        lemma_column_code_injective(b1.last(), b2.last());
        assert(b1 =~= b1.drop_last().push(b1.last()));
        assert(b2 =~= b2.drop_last().push(b2.last()));
    } else {
        assert(b1 =~= b2);
    }
}

/// Two boards have the same code only if they are the same board.
pub proof fn lemma_board_code_injective(b1: Board, b2: Board)
    requires
        well_shaped(b1),
        well_shaped(b2),
    ensures
        board_code(b1) == board_code(b2) <==> b1 == b2,
{
    if board_code(b1) == board_code(b2) {
        lemma_columns_code_injective(b1, b2);
    }
}

/// The code of a board is below three to the forty-ninth, and so fits in 128
/// bits.
pub proof fn lemma_board_code_fits(b: Board)
    requires
        well_shaped(b),
    ensures
        board_code(b) < 239299329230617529590083,
        board_code(b) <= u128::MAX,
{
    lemma_board_code_bound(b);
    assert(power(2187, 7) == 239299329230617529590083) by {
        reveal_with_fuel(power, 8);
    }
}

/// The code of a board as a machine integer.
pub open spec fn key(b: Board) -> u128 {
    board_code(b) as u128
}

/// Two boards have the same key only if they are the same board.
pub proof fn lemma_key_injective(b1: Board, b2: Board)
    requires
        well_shaped(b1),
        well_shaped(b2),
    ensures
        key(b1) == key(b2) <==> b1 == b2,
{
    lemma_board_code_fits(b1);
    lemma_board_code_fits(b2);
    lemma_board_code_injective(b1, b2);
}

} // verus!
