//! Grid coordinates and the four axis-aligned unit moves.

use vstd::prelude::*;

verus! {

/// A cell of the grid: `x` is the column, `y` the row, both counted from zero.
#[derive(Clone, Copy, PartialEq, Eq, Structural, Hash, Debug)]
pub struct Position {
    pub x: usize,
    pub y: usize,
}

/// A unit move on the grid. The declaration order is the order in which the
/// moves are tried everywhere in this crate.
#[derive(Clone, Copy, PartialEq, Eq, Structural, Debug)]
pub enum Direction {
    Right,
    Down,
    Left,
    Up,
}

impl Direction {
    /// The change of the column made by one move.
    pub open spec fn dx(self) -> int {
        match self {
            Direction::Right => 1,
            Direction::Left => -1,
            _ => 0,
        }
    }

    /// The change of the row made by one move.
    pub open spec fn dy(self) -> int {
        match self {
            Direction::Down => 1,
            Direction::Up => -1,
            _ => 0,
        }
    }

    /// The direction after a quarter turn clockwise.
    pub open spec fn turned(self) -> Direction {
        match self {
            Direction::Right => Direction::Down,
            Direction::Down => Direction::Left,
            Direction::Left => Direction::Up,
            Direction::Up => Direction::Right,
        }
    }

    /// Turns a quarter clockwise.
    pub fn turn(self) -> (d: Direction)
        ensures
            d == self.turned(),
    {
        match self {
            Direction::Right => Direction::Down,
            Direction::Down => Direction::Left,
            Direction::Left => Direction::Up,
            Direction::Up => Direction::Right,
        }
    }
}

/// Whether the cell `(x, y)` lies on the `n`-by-`n` grid.
pub open spec fn on_grid(n: int, x: int, y: int) -> bool {
    0 <= x < n && 0 <= y < n
}

impl Position {
    /// The cell as a pair of mathematical integers.
    pub open spec fn cell(self) -> (int, int) {
        (self.x as int, self.y as int)
    }

    /// The row-major index of the cell on a grid of width `n`.
    pub open spec fn linear(self, n: int) -> int {
        self.y * n + self.x
    }

    /// The cell with row-major index `pos` on a grid of width `n`.
    pub fn from_u64(pos: usize, n: usize) -> (p: Position)
        requires
            n > 0,
        ensures
            p.x == pos % n,
            p.y == pos / n,
            p.x < n,
            p.linear(n as int) == pos,
    {
        proof {
            vstd::arithmetic::div_mod::lemma_fundamental_div_mod(pos as int, n as int);
            vstd::arithmetic::mul::lemma_mul_is_commutative(n as int, pos as int / n as int);
        }
        Position { x: pos % n, y: pos / n }
    }

    /// The row-major index of this cell on a grid of width `n`.
    pub fn to_usize(&self, n: usize) -> (i: usize)
        requires
            self.linear(n as int) <= usize::MAX,
        ensures
            i == self.linear(n as int),
    {
        proof {
            vstd::arithmetic::mul::lemma_mul_nonnegative(self.y as int, n as int);
        }
        self.y * n + self.x
    }

    /// The neighbour of this cell in direction `d`, if it lies on the grid of
    /// width `n`.
    pub fn step(&self, d: Direction, n: usize) -> (r: Option<Position>)
        requires
            self.x < n,
            self.y < n,
        ensures
            r.is_some() == on_grid(n as int, self.x + d.dx(), self.y + d.dy()),
            r.is_some() ==> r.unwrap().x == self.x + d.dx() && r.unwrap().y == self.y + d.dy(),
    {
        match d {
            Direction::Right => if self.x + 1 < n {
                Some(Position { x: self.x + 1, y: self.y })
            } else {
                None
            },
            Direction::Down => if self.y + 1 < n {
                Some(Position { x: self.x, y: self.y + 1 })
            } else {
                None
            },
            Direction::Left => if self.x >= 1 {
                Some(Position { x: self.x - 1, y: self.y })
            } else {
                None
            },
            Direction::Up => if self.y >= 1 {
                Some(Position { x: self.x, y: self.y - 1 })
            } else {
                None
            },
        }
    }
}

/// Converting a cell to its row-major index and back gives the cell again,
/// and converting an index to a cell and back gives the index again.
pub proof fn lemma_index_round_trip(x: int, y: int, n: int)
    requires
        n > 0,
        0 <= x < n,
        0 <= y,
    ensures
        (y * n + x) % n == x,
        (y * n + x) / n == y,
{
    vstd::arithmetic::div_mod::lemma_fundamental_div_mod_converse(y * n + x, n, y, x);
}

} // verus!
