use vstd::prelude::*;

verus! {

/// Number of squares on the board.
pub const NUM_SQUARES: usize = 81;

/// A square of the 9x9 board. `col` 0 is file 1 (the right edge seen from
/// black), `row` 0 is rank 1 (white's back rank). The index is `col * 9 + row`.
#[derive(Clone, Copy, Debug, PartialEq, Eq, Structural, PartialOrd, Ord, Hash)]
pub struct Square {
    pub idx: u8,
}

impl Square {
    pub open spec fn wf(self) -> bool {
        self.idx < 81
    }

    pub open spec fn spec_index(self) -> int {
        self.idx as int
    }

    pub open spec fn spec_col(self) -> int {
        self.idx as int / 9
    }

    pub open spec fn spec_row(self) -> int {
        self.idx as int % 9
    }

    /// The square at column `col` and row `row`.
    pub fn new(col: usize, row: usize) -> (s: Square)
        requires
            col < 9,
            row < 9,
        ensures
            s.wf(),
            s.spec_col() == col,
            s.spec_row() == row,
            s.spec_index() == col * 9 + row,
    {
        Square { idx: (col * 9 + row) as u8 }
    }

    /// The square with the given index.
    pub fn from_index(index: usize) -> (s: Square)
        requires
            index < 81,
        ensures
            s.wf(),
            s.spec_index() == index,
    {
        Square { idx: index as u8 }
    }

    pub fn index(self) -> (r: usize)
        requires
            self.wf(),
        ensures
            r == self.spec_index(),
            r < 81,
    {
        self.idx as usize
    }

    pub fn col(self) -> (r: usize)
        requires
            self.wf(),
        ensures
            r == self.spec_col(),
            r < 9,
    {
        self.idx as usize / 9
    }

    pub fn row(self) -> (r: usize)
        requires
            self.wf(),
        ensures
            r == self.spec_row(),
            r < 9,
    {
        self.idx as usize % 9
    }
}

} // verus!
