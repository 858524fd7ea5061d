//! Squares of the board.

use vstd::prelude::*;

verus! {

/// A square, numbered 0 (A1) to 63 (H8): row times eight plus column.
#[derive(Clone, Copy, PartialEq, Eq, Debug, Structural)]
pub struct Position(u8);

impl Position {
    /// Every square handled by executable code lies on the board.
    #[verifier::type_invariant]
    pub closed spec fn valid(self) -> bool {
        self.0 < 64
    }

    /// The square's number.
    pub closed spec fn view(self) -> int {
        self.0 as int
    }

    /// The square with the given number.
    pub closed spec fn at(sq: int) -> Position {
        Position(sq as u8)
    }

    /// A valid square has a number from 0 to 63.
    pub broadcast proof fn lemma_valid_range(self)
        requires
            self.valid(),
        ensures
            0 <= #[trigger] self@ < 64,
    {
    }

    /// The square with a number from 0 to 63 is valid and has that number.
    pub broadcast proof fn lemma_at(sq: int)
        requires
            0 <= sq < 64,
        ensures
            (#[trigger] Position::at(sq))@ == sq,
            Position::at(sq).valid(),
    {
    }

    /// A square is the square with its number.
    pub proof fn lemma_at_view(self)
        ensures
            Position::at(self@) == self,
    {
    }

    /// The square in row `row` and column `col`, both counted from 0.
    pub fn new(row: u8, col: u8) -> (p: Position)
        requires
            row < 8,
            col < 8,
        ensures
            p@ == row * 8 + col,
            p.valid(),
    {
        Position(row * 8 + col)
    }

    /// The row of the square, 0 for the first row.
    pub fn row(&self) -> (r: u8)
        ensures
            r == self@ / 8,
            r < 8,
    {
        proof {
            use_type_invariant(self);
        }
        self.0 / 8
    }

    /// The column of the square, 0 for column A.
    pub fn col(&self) -> (c: u8)
        ensures
            c == self@ % 8,
            c < 8,
    {
        self.0 % 8
    }

    /// The square's number, 0 for A1 up to 63 for H8.
    pub fn integral(&self) -> (i: u8)
        ensures
            i == self@,
            i < 64,
            self.valid(),
    {
        proof {
            use_type_invariant(self);
        }
        self.0
    }

    /// The square with number `integ`.
    pub fn from_integral(integ: u8) -> (p: Position)
        requires
            integ < 64,
        ensures
            p@ == integ,
            p.valid(),
            p == Position::at(integ as int),
    {
        Position(integ)
    }
}

/// A square by its row and column.
#[derive(Debug, Clone, Copy, PartialEq, Eq, Structural)]
pub struct Coord {
    pub row: u8,
    pub col: u8,
}

impl Coord {
    /// The row and column of the square with number `idx`.
    pub fn from_idx(idx: u8) -> (c: Coord)
        ensures
            c.col == idx % 8,
            c.row == idx / 8,
    {
        Coord { col: idx % 8, row: idx / 8 }
    }
}

} // verus!
