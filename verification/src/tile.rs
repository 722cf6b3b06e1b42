//! The vocabulary of the game: what a cell holds, the four directions of a
//! jump, and a jump itself.

use vstd::prelude::*;

verus! {

/// What one position of the board holds.
#[derive(Clone, Copy, Debug, PartialEq, Eq, Hash, Structural)]
pub enum Tile {
    /// The position is not part of the board.
    Blocked,
    /// A peg stands on the position.
    Filled,
    /// The position is playable and holds no peg.
    Empty,
}

/// The direction in which a peg jumps. `Up` lowers `y`, `Left` lowers `x`.
#[derive(Clone, Copy, Debug, PartialEq, Eq, Hash, Structural)]
pub enum Direction {
    Up,
    Down,
    Left,
    Right,
}

/// A jump: the peg at `(x, y)` leaps over its neighbour in direction `dir`
/// and lands two cells away.
#[derive(Clone, Copy, Debug, PartialEq, Eq, Hash, Structural)]
pub struct Action {
    pub x: usize,
    pub y: usize,
    pub dir: Direction,
}

impl Tile {
    /// The character that stands for the tile in a rendered board.
    pub open spec fn spec_symbol(self) -> char {
        match self {
            Tile::Blocked => ' ',
            Tile::Filled => 'O',
            Tile::Empty => '-',
        }
    }

    /// The character that stands for the tile in a rendered board.
    #[verifier::when_used_as_spec(spec_symbol)]
    pub fn symbol(self) -> (c: char)
        ensures
            c == self.spec_symbol(),
    {
        match self {
            Tile::Blocked => ' ',
            Tile::Filled => 'O',
            Tile::Empty => '-',
        }
    }
}

impl Direction {
    /// The change of `x` made by one step in this direction.
    pub open spec fn dx(self) -> int {
        match self {
            Direction::Left => -1,
            Direction::Right => 1,
            _ => 0,
        }
    }

    /// The change of `y` made by one step in this direction.
    pub open spec fn dy(self) -> int {
        match self {
            Direction::Up => -1,
            Direction::Down => 1,
            _ => 0,
        }
    }

    /// The arrow that stands for the direction in a rendered jump.
    pub open spec fn spec_symbol(self) -> char {
        match self {
            Direction::Up => '↑',
            Direction::Down => '↓',
            Direction::Left => '←',
            Direction::Right => '→',
        }
    }

    /// The arrow that stands for the direction in a rendered jump.
    #[verifier::when_used_as_spec(spec_symbol)]
    pub fn symbol(self) -> (c: char)
        ensures
            c == self.spec_symbol(),
    {
        match self {
            Direction::Up => '↑',
            Direction::Down => '↓',
            Direction::Left => '←',
            Direction::Right => '→',
        }
    }
}

} // verus!
