//! Sudoku boards and cell locations.
//!
//! A board of base size `n` is an `n*n` by `n*n` grid of cells, each either
//! empty or holding a value in `1..=n*n`.  A [`CellLoc`] is a flat index into
//! the grid together with the base size; it derives its line, column and
//! square by integer arithmetic.

use vstd::prelude::*;
use vstd::string::StringSliceAdditionalSpecFns;

use crate::sets::ValueSet;

verus! {

/// Accepted base sizes: a board side is the square of its base size.
pub open spec fn valid_base(n: int) -> bool {
    n == 2 || n == 3 || n == 4
}

/// Number of cells in a line, column or square, and the largest cell value.
pub open spec fn side_len(n: int) -> int {
    n * n
}

/// Total number of cells on a board of base size `n`.
pub open spec fn cell_count(n: int) -> int {
    n * n * n * n
}

/// Line number of the cell with flat index `idx`.
pub open spec fn line_of(idx: int, n: int) -> int {
    idx / side_len(n)
}

/// Column number of the cell with flat index `idx`.
pub open spec fn col_of(idx: int, n: int) -> int {
    idx % side_len(n)
}

/// Square number of the cell with flat index `idx`: squares are numbered
/// line first, then column.
pub open spec fn square_of(idx: int, n: int) -> int {
    (line_of(idx, n) / n) * n + col_of(idx, n) / n
}

/// Two cell indices see each other: they share a line, a column or a square.
/// A cell shares a block with itself.
pub open spec fn same_block(i: int, j: int, n: int) -> bool {
    ||| line_of(i, n) == line_of(j, n)
    ||| col_of(i, n) == col_of(j, n)
    ||| square_of(i, n) == square_of(j, n)
}

/// The size of the board that the library can work with: only 4x4, 9x9 and
/// 16x16 boards are allowed.
#[derive(Debug, Copy, Clone, PartialEq, Eq, Structural)]
pub enum BoardSize {
    /// A board with 16 cells, in a 4 by 4 square.
    FourByFour,
    /// A board with 81 cells, in a 9 by 9 square.
    NineByNine,
    /// A board with 256 cells, in a 16 by 16 square.
    SixteenBySixteen,
}

impl BoardSize {
    /// The base size as a mathematical integer.
    pub open spec fn base(&self) -> int {
        match self {
            BoardSize::FourByFour => 2,
            BoardSize::NineByNine => 3,
            BoardSize::SixteenBySixteen => 4,
        }
    }

    /// A sudoku board is a square of N by N squares, each of them composed of
    /// N by N cells; the base size of the board is N.
    pub fn get_base_size(&self) -> (r: usize)
        ensures
            r == self.base(),
            valid_base(r as int),
    {
        match self {
            BoardSize::FourByFour => 2,
            BoardSize::NineByNine => 3,
            BoardSize::SixteenBySixteen => 4,
        }
    }

    /// The board size whose base size is `n`; `n` must be 2, 3 or 4.
    pub fn from_base_size(n: usize) -> (r: Result<BoardSize, BoardSizeOutOfRangeError>)
        ensures
            valid_base(n as int) <==> r is Ok,
            r is Ok ==> r->Ok_0.base() == n,
            r is Err ==> r->Err_0.0 == n,
    {
        match n {
            2 => Ok(BoardSize::FourByFour),
            3 => Ok(BoardSize::NineByNine),
            4 => Ok(BoardSize::SixteenBySixteen),
            _ => Err(BoardSizeOutOfRangeError(n)),
        }
    }
}

/// Error returned when a base size cannot be converted to a board size:
/// only 2, 3 and 4 are accepted base sizes.
#[derive(Debug)]
pub struct BoardSizeOutOfRangeError(pub usize);

/// Represents a cell location in the board: a flat 0-based index plus the
/// base size of the board it belongs to.
#[derive(Clone, Copy, PartialEq, Eq, Hash, PartialOrd, Ord, Debug, Structural)]
pub struct CellLoc {
    /// The base size of the board this location belongs to.
    pub base_size: usize,
    /// The flat 0-based index of the cell.
    pub idx: usize,
}

impl CellLoc {
    /// Well-formed: the base size is accepted and the index is on the board.
    pub open spec fn wf(&self) -> bool {
        &&& valid_base(self.base_size as int)
        &&& self.idx < cell_count(self.base_size as int)
    }

    /// The flat index as a mathematical integer.
    pub open spec fn spec_index(&self) -> int {
        self.idx as int
    }

    /// The base size as a mathematical integer.
    pub open spec fn spec_base(&self) -> int {
        self.base_size as int
    }

    /// The cell at line `l` and column `c` of a board of the given size.
    pub fn at(l: usize, c: usize, board_size: BoardSize) -> (r: CellLoc)
        requires
            l < side_len(board_size.base()),
            c < side_len(board_size.base()),
        ensures
            r.wf(),
            r.spec_base() == board_size.base(),
            r.spec_index() == l * side_len(board_size.base()) + c,
            line_of(r.spec_index(), r.spec_base()) == l,
            col_of(r.spec_index(), r.spec_base()) == c,
    {
        let base_size = board_size.get_base_size();
        let side = base_size * base_size;
        proof {
            lemma_line_col(l as int, c as int, base_size as int);
            assert(side == side_len(base_size as int));
            assert(cell_count(base_size as int) <= 256) by {
                assert(valid_base(base_size as int));
            }
        }
        let r = CellLoc { idx: l * side + c, base_size };
        r
    }

    /// The cell with flat index `idx` on a board of the given size.
    pub fn new(idx: usize, board_size: BoardSize) -> (r: CellLoc)
        requires
            idx < cell_count(board_size.base()),
        ensures
            r.wf(),
            r.spec_base() == board_size.base(),
            r.spec_index() == idx,
    {
        let base_size = board_size.get_base_size();
        CellLoc { idx, base_size }
    }

    /// The 0-based flat index of this cell location.
    pub fn get_index(&self) -> (r: usize)
        ensures
            r == self.spec_index(),
    {
        self.idx
    }

    /// The 0-based line number of this cell location.
    pub fn line(&self) -> (r: usize)
        requires
            self.wf(),
        ensures
            r == line_of(self.spec_index(), self.spec_base()),
            r < side_len(self.spec_base()),
    {
        proof {
            lemma_cell_geometry(self.spec_index(), self.spec_base());
        }
        self.idx / (self.base_size * self.base_size)
    }

    /// The 0-based column number of this cell location.
    pub fn col(&self) -> (r: usize)
        requires
            self.wf(),
        ensures
            r == col_of(self.spec_index(), self.spec_base()),
            r < side_len(self.spec_base()),
    {
        proof {
            lemma_cell_geometry(self.spec_index(), self.spec_base());
        }
        self.idx % (self.base_size * self.base_size)
    }

    /// The 0-based square number of this cell location; squares are numbered
    /// line first and then column.
    pub fn square(&self) -> (r: usize)
        requires
            self.wf(),
        ensures
            r == square_of(self.spec_index(), self.spec_base()),
            r < side_len(self.spec_base()),
    {
        proof {
            lemma_cell_geometry(self.spec_index(), self.spec_base());
        }
        let line_no = self.line();
        let col_no = self.col();
        (line_no / self.base_size) * self.base_size + col_no / self.base_size
    }
}

/// Every cell index on a board decomposes into a line, a column and a square,
/// all within the side length.
pub proof fn lemma_cell_geometry(idx: int, n: int)
    requires
        valid_base(n),
        0 <= idx < cell_count(n),
    ensures
        0 <= line_of(idx, n) < side_len(n),
        0 <= col_of(idx, n) < side_len(n),
        0 <= square_of(idx, n) < side_len(n),
        idx == line_of(idx, n) * side_len(n) + col_of(idx, n),
{
    assert(0 <= line_of(idx, n) < side_len(n) && 0 <= col_of(idx, n) < side_len(n)
        && 0 <= square_of(idx, n) < side_len(n) && idx == line_of(idx, n) * side_len(n) + col_of(
        idx,
        n,
    )) by {
        if n == 2 {
            assert(line_of(idx, 2) == idx / 4 && col_of(idx, 2) == idx % 4);
        } else if n == 3 {
            assert(line_of(idx, 3) == idx / 9 && col_of(idx, 3) == idx % 9);
        } else {
            assert(line_of(idx, 4) == idx / 16 && col_of(idx, 4) == idx % 16);
        }
    }
}

/// A line and a column within range determine the cell index at their
/// intersection.
pub proof fn lemma_line_col(l: int, c: int, n: int)
    requires
        valid_base(n),
        0 <= l < side_len(n),
        0 <= c < side_len(n),
    ensures
        0 <= l * side_len(n) + c < cell_count(n),
        line_of(l * side_len(n) + c, n) == l,
        col_of(l * side_len(n) + c, n) == c,
{
    if n == 2 {
        assert(line_of(l * 4 + c, 2) == (l * 4 + c) / 4 == l);
        assert(col_of(l * 4 + c, 2) == (l * 4 + c) % 4 == c);
    } else if n == 3 {
        assert(line_of(l * 9 + c, 3) == (l * 9 + c) / 9 == l);
        assert(col_of(l * 9 + c, 3) == (l * 9 + c) % 9 == c);
    } else {
        assert(line_of(l * 16 + c, 4) == (l * 16 + c) / 16 == l);
        assert(col_of(l * 16 + c, 4) == (l * 16 + c) % 16 == c);
    }
}

/// A grid of this many cells, with this base size: what a cell holds at each
/// index, `None` for an empty cell.
pub open spec fn grid_wf(grid: Seq<Option<u8>>, n: int) -> bool {
    &&& valid_base(n)
    &&& grid.len() == cell_count(n)
    &&& forall|i: int|
        0 <= i < grid.len() && grid[i] is Some ==> 1 <= grid[i]->0 <= side_len(n)
}

/// Two filled cells that see each other hold different values.
pub open spec fn grid_no_conflict(grid: Seq<Option<u8>>, n: int) -> bool {
    forall|i: int, j: int|
        0 <= i < grid.len() && 0 <= j < grid.len() && i != j && #[trigger] same_block(i, j, n)
            && grid[i] is Some ==> grid[i] != grid[j]
}

/// Every cell is filled.
pub open spec fn grid_complete(grid: Seq<Option<u8>>) -> bool {
    forall|i: int| 0 <= i < grid.len() ==> grid[i] is Some
}

/// `sub` holds a value only where `sup` holds the same value.
pub open spec fn grid_extends(sub: Seq<Option<u8>>, sup: Seq<Option<u8>>) -> bool {
    &&& sub.len() == sup.len()
    &&& forall|i: int| 0 <= i < sub.len() && sub[i] is Some ==> sub[i] == sup[i]
}

/// The values still legal for cell `c`: those in range that no other cell of
/// a shared line, column or square holds.
pub open spec fn candidates_of(grid: Seq<Option<u8>>, c: int, n: int) -> Set<u8> {
    Set::new(
        |v: u8|
            1 <= v <= side_len(n) && forall|j: int|
                0 <= j < grid.len() && j != c && same_block(c, j, n) ==> #[trigger] grid[j]
                    != Some(v),
    )
}

/// Represents a sudoku board: a flat vector of optional cell values.
///
/// This is usually the entry point to use any functionality of this library:
/// create an empty board with [`Board::new`], or parse one from a string, and
/// solve it in place with [`Board::solve`].
#[derive(Debug, Clone)]
pub struct Board {
    /// The base size of the board.
    pub base_size: usize,
    /// The cells in flat index order: `None` marks an empty cell.
    pub cells: Vec<Option<u8>>,
}

impl Board {
    /// Well-formed: accepted base size, full length, values in range.
    pub open spec fn wf(&self) -> bool {
        grid_wf(self.cells@, self.base_size as int)
    }

    /// The cell contents.
    pub open spec fn grid(&self) -> Seq<Option<u8>> {
        self.cells@
    }

    /// The base size as a mathematical integer.
    pub open spec fn spec_base(&self) -> int {
        self.base_size as int
    }

    /// A cell location is on this board.
    pub open spec fn on_board(&self, cell: CellLoc) -> bool {
        &&& cell.wf()
        &&& cell.spec_base() == self.spec_base()
    }

    /// Creates a new empty board of the specified size.
    #[must_use]
    pub fn new(board_size: BoardSize) -> (r: Board)
        ensures
            r.wf(),
            r.spec_base() == board_size.base(),
            forall|i: int| 0 <= i < r.grid().len() ==> r.grid()[i] is None,
    {
        let base_size = board_size.get_base_size();
        let count = base_size * base_size * base_size * base_size;
        let mut cells: Vec<Option<u8>> = Vec::new();
        let mut i: usize = 0;
        while i < count
            invariant
                cells@.len() == i,
                i <= count,
                forall|k: int| 0 <= k < i ==> cells@[k] is None,
            decreases count - i,
        {
            cells.push(None);
            i = i + 1;
        }
        Board { base_size, cells }
    }

    /// The board size of this board.
    pub fn board_size(&self) -> (r: BoardSize)
        requires
            self.wf(),
        ensures
            r.base() == self.spec_base(),
    {
        if self.base_size == 2 {
            BoardSize::FourByFour
        } else if self.base_size == 3 {
            BoardSize::NineByNine
        } else {
            BoardSize::SixteenBySixteen
        }
    }

    /// Sets the value of a cell and returns the previous value in this
    /// location.
    pub fn set(&mut self, loc: &CellLoc, value: u8) -> (r: Option<u8>)
        requires
            old(self).wf(),
            old(self).on_board(*loc),
            1 <= value <= side_len(old(self).spec_base()),
        ensures
            final(self).wf(),
            final(self).spec_base() == old(self).spec_base(),
            final(self).grid() == old(self).grid().update(loc.spec_index(), Some(value)),
            r == old(self).grid()[loc.spec_index()],
    {
        let idx = loc.get_index();
        let r = self.cells[idx];
        self.cells[idx] = Some(value);
        r
    }

    /// Convenience method to set a value using line and column indexing;
    /// returns the previous value.
    pub fn set_at(&mut self, l: usize, c: usize, value: u8) -> (r: Option<u8>)
        requires
            old(self).wf(),
            l < side_len(old(self).spec_base()),
            c < side_len(old(self).spec_base()),
            1 <= value <= side_len(old(self).spec_base()),
        ensures
            final(self).wf(),
            final(self).spec_base() == old(self).spec_base(),
            final(self).grid() == old(self).grid().update(
                l * side_len(old(self).spec_base()) + c,
                Some(value),
            ),
            r == old(self).grid()[l * side_len(old(self).spec_base()) + c],
    {
        let board_size = self.board_size();
        let loc = CellLoc::at(l, c, board_size);
        self.set(&loc, value)
    }

    /// Removes a value from the board at this cell and returns the previously
    /// saved value.
    pub fn unset(&mut self, loc: &CellLoc) -> (r: Option<u8>)
        requires
            old(self).wf(),
            old(self).on_board(*loc),
        ensures
            final(self).wf(),
            final(self).spec_base() == old(self).spec_base(),
            final(self).grid() == old(self).grid().update(loc.spec_index(), None),
            r == old(self).grid()[loc.spec_index()],
    {
        let idx = loc.get_index();
        let r = self.cells[idx];
        self.cells[idx] = None;
        r
    }

    /// Returns the value at a cell if there is any, or `None` otherwise.
    #[must_use]
    pub fn get(&self, cell: &CellLoc) -> (r: Option<u8>)
        requires
            self.wf(),
            self.on_board(*cell),
        ensures
            r == self.grid()[cell.spec_index()],
    {
        self.cells[cell.get_index()]
    }

    /// Same as [`Board::get`], addressing the cell by line and column.
    pub fn get_at(&self, l: usize, c: usize) -> (r: Option<u8>)
        requires
            self.wf(),
            l < side_len(self.spec_base()),
            c < side_len(self.spec_base()),
        ensures
            r == self.grid()[l * side_len(self.spec_base()) + c],
    {
        self.get(&CellLoc::at(l, c, self.board_size()))
    }

    /// Convenience method to return a [`CellLoc`] at this position compatible
    /// with this board.
    #[must_use]
    pub fn cell_at(&self, l: usize, c: usize) -> (r: CellLoc)
        requires
            self.wf(),
            l < side_len(self.spec_base()),
            c < side_len(self.spec_base()),
        ensures
            self.on_board(r),
            r.spec_index() == l * side_len(self.spec_base()) + c,
            line_of(r.spec_index(), r.spec_base()) == l,
            col_of(r.spec_index(), r.spec_base()) == c,
    {
        CellLoc::at(l, c, self.board_size())
    }

    /// All cells of the board, in flat index order.
    pub fn iter_cells(&self) -> (r: Vec<CellLoc>)
        requires
            self.wf(),
        ensures
            r@.len() == cell_count(self.spec_base()),
            forall|k: int|
                0 <= k < r@.len() ==> (#[trigger] r@[k]).spec_index() == k && r@[k].spec_base()
                    == self.spec_base() && r@[k].wf(),
    {
        let base_size = self.base_size;
        let count = base_size * base_size * base_size * base_size;
        let board_size = self.board_size();
        let mut r: Vec<CellLoc> = Vec::new();
        let mut i: usize = 0;
        while i < count
            invariant
                r@.len() == i,
                i <= count,
                count == cell_count(board_size.base()),
                board_size.base() == self.spec_base(),
                valid_base(self.spec_base()),
                forall|k: int|
                    0 <= k < i ==> (#[trigger] r@[k]).spec_index() == k && r@[k].spec_base()
                        == self.spec_base() && r@[k].wf(),
            decreases count - i,
        {
            r.push(CellLoc::new(i, board_size));
            i = i + 1;
        }
        r
    }
}

/// Two squares are equal exactly when both band coordinates agree.
pub proof fn lemma_square_membership(c: int, j: int, n: int)
    requires
        valid_base(n),
        0 <= c < cell_count(n),
        0 <= j < cell_count(n),
    ensures
        square_of(j, n) == square_of(c, n) <==> (line_of(j, n) / n == line_of(c, n) / n && col_of(
            j,
            n,
        ) / n == col_of(c, n) / n),
{
    lemma_cell_geometry(c, n);
    lemma_cell_geometry(j, n);
    if n == 2 {
        assert(square_of(j, 2) == (j / 4 / 2) * 2 + (j % 4) / 2);
        assert(square_of(c, 2) == (c / 4 / 2) * 2 + (c % 4) / 2);
    } else if n == 3 {
        assert(square_of(j, 3) == (j / 9 / 3) * 3 + (j % 9) / 3);
        assert(square_of(c, 3) == (c / 9 / 3) * 3 + (c % 9) / 3);
    } else {
        assert(square_of(j, 4) == (j / 16 / 4) * 4 + (j % 16) / 4);
        assert(square_of(c, 4) == (c / 16 / 4) * 4 + (c % 16) / 4);
    }
}

impl CellLoc {
    /// All cells in the same line as this one, in column order.
    pub fn iter_line(&self) -> (r: Vec<CellLoc>)
        requires
            self.wf(),
        ensures
            r@.len() == side_len(self.spec_base()),
            forall|k: int|
                0 <= k < r@.len() ==> (#[trigger] r@[k]).wf() && r@[k].spec_base()
                    == self.spec_base() && r@[k].spec_index() == line_of(
                    self.spec_index(),
                    self.spec_base(),
                ) * side_len(self.spec_base()) + k,
            forall|j: int|
                0 <= j < cell_count(self.spec_base()) ==> (#[trigger] line_of(j, self.spec_base())
                    == line_of(self.spec_index(), self.spec_base()) <==> exists|k: int|
                    0 <= k < r@.len() && (#[trigger] r@[k]).spec_index() == j),
    {
        let ghost n = self.spec_base();
        let side = self.base_size * self.base_size;
        let l = self.line();
        let base_size = self.base_size;
        let mut r: Vec<CellLoc> = Vec::new();
        let mut k: usize = 0;
        while k < side
            invariant
                side == side_len(n),
                base_size as int == n,
                valid_base(n),
                l == line_of(self.spec_index(), n),
                l < side,
                r@.len() == k,
                k <= side,
                forall|k2: int|
                    0 <= k2 < k ==> (#[trigger] r@[k2]).wf() && r@[k2].spec_base() == n
                        && r@[k2].spec_index() == l * side_len(n) + k2,
            decreases side - k,
        {
            proof {
                lemma_line_col(l as int, k as int, n);
            }
            r.push(CellLoc { idx: l * side + k, base_size });
            k = k + 1;
        }
        proof {
            assert forall|j: int| 0 <= j < cell_count(n) implies (#[trigger] line_of(j, n)
                == line_of(self.spec_index(), n) <==> exists|k2: int|
                0 <= k2 < r@.len() && (#[trigger] r@[k2]).spec_index() == j) by {
                lemma_cell_geometry(j, n);
                if line_of(j, n) == line_of(self.spec_index(), n) {
                    let k2 = col_of(j, n);
                    assert(r@[k2].spec_index() == j);
                }
                if exists|k2: int| 0 <= k2 < r@.len() && (#[trigger] r@[k2]).spec_index() == j {
                    let k2 = choose|k2: int|
                        0 <= k2 < r@.len() && (#[trigger] r@[k2]).spec_index() == j;
                    lemma_line_col(l as int, k2, n);
                }
            }
        }
        r
    }

    /// All cells in the same column as this one, in line order.
    pub fn iter_col(&self) -> (r: Vec<CellLoc>)
        requires
            self.wf(),
        ensures
            r@.len() == side_len(self.spec_base()),
            forall|k: int|
                0 <= k < r@.len() ==> (#[trigger] r@[k]).wf() && r@[k].spec_base()
                    == self.spec_base() && r@[k].spec_index() == k * side_len(self.spec_base())
                    + col_of(self.spec_index(), self.spec_base()),
            forall|j: int|
                0 <= j < cell_count(self.spec_base()) ==> (#[trigger] col_of(j, self.spec_base())
                    == col_of(self.spec_index(), self.spec_base()) <==> exists|k: int|
                    0 <= k < r@.len() && (#[trigger] r@[k]).spec_index() == j),
    {
        let ghost n = self.spec_base();
        let side = self.base_size * self.base_size;
        let c = self.col();
        let base_size = self.base_size;
        let mut r: Vec<CellLoc> = Vec::new();
        let mut k: usize = 0;
        while k < side
            invariant
                side == side_len(n),
                base_size as int == n,
                valid_base(n),
                c == col_of(self.spec_index(), n),
                c < side,
                r@.len() == k,
                k <= side,
                forall|k2: int|
                    0 <= k2 < k ==> (#[trigger] r@[k2]).wf() && r@[k2].spec_base() == n
                        && r@[k2].spec_index() == k2 * side_len(n) + c,
            decreases side - k,
        {
            proof {
                lemma_line_col(k as int, c as int, n);
            }
            r.push(CellLoc { idx: k * side + c, base_size });
            k = k + 1;
        }
        proof {
            assert forall|j: int| 0 <= j < cell_count(n) implies (#[trigger] col_of(j, n) == col_of(
                self.spec_index(),
                n,
            ) <==> exists|k2: int| 0 <= k2 < r@.len() && (#[trigger] r@[k2]).spec_index() == j) by {
                lemma_cell_geometry(j, n);
                if col_of(j, n) == col_of(self.spec_index(), n) {
                    let k2 = line_of(j, n);
                    assert(r@[k2].spec_index() == j);
                }
                if exists|k2: int| 0 <= k2 < r@.len() && (#[trigger] r@[k2]).spec_index() == j {
                    let k2 = choose|k2: int|
                        0 <= k2 < r@.len() && (#[trigger] r@[k2]).spec_index() == j;
                    lemma_line_col(k2, c as int, n);
                }
            }
        }
        r
    }

    /// All cells in the same square as this one, line first then column.
    #[verifier::rlimit(60)]
    pub fn iter_square(&self) -> (r: Vec<CellLoc>)
        requires
            self.wf(),
        ensures
            r@.len() == side_len(self.spec_base()),
            forall|k: int|
                0 <= k < r@.len() ==> (#[trigger] r@[k]).wf() && r@[k].spec_base()
                    == self.spec_base() && square_of(r@[k].spec_index(), self.spec_base())
                    == square_of(self.spec_index(), self.spec_base()),
            forall|k: int|
                0 <= k < r@.len() ==> (#[trigger] r@[k]).spec_index() == ((line_of(
                    self.spec_index(),
                    self.spec_base(),
                ) / self.spec_base()) * self.spec_base() + k / self.spec_base()) * side_len(
                    self.spec_base(),
                ) + (col_of(self.spec_index(), self.spec_base()) / self.spec_base())
                    * self.spec_base() + k % self.spec_base(),
            forall|j: int|
                0 <= j < cell_count(self.spec_base()) ==> (#[trigger] square_of(
                    j,
                    self.spec_base(),
                ) == square_of(self.spec_index(), self.spec_base()) <==> exists|k: int|
                    0 <= k < r@.len() && (#[trigger] r@[k]).spec_index() == j),
    {
        let ghost n = self.spec_base();
        proof {
            assert(self.base_size == 2 || self.base_size == 3 || self.base_size == 4);
        }
        let side = self.base_size * self.base_size;
        let base_size = self.base_size;
        let l = self.line();
        let c = self.col();
        proof {
            assert((l as int) / (base_size as int) * (base_size as int) <= l as int) by {
                assert(l as int == (l as int) / (base_size as int) * (base_size as int) + (
                l as int) % (base_size as int)) by (nonlinear_arith)
                    requires
                        base_size as int >= 2,
                ;
            }
        }
        let sq_line = (l / base_size) * base_size;
        let sq_col = (c / base_size) * base_size;
        let mut r: Vec<CellLoc> = Vec::new();
        let mut k: usize = 0;
        while k < side
            invariant
                side == side_len(n),
                base_size as int == n,
                valid_base(n),
                l == line_of(self.spec_index(), n),
                c == col_of(self.spec_index(), n),
                l < side,
                c < side,
                sq_line == (line_of(self.spec_index(), n) / n) * n,
                sq_col == (col_of(self.spec_index(), n) / n) * n,
                r@.len() == k,
                k <= side,
                forall|k2: int|
                    0 <= k2 < k ==> (#[trigger] r@[k2]).wf() && r@[k2].spec_base() == n
                        && r@[k2].spec_index() == (sq_line + k2 / n) * side_len(n) + sq_col + (
                    k2 % n),
            decreases side - k,
        {
            let a = k / base_size;
            let bcol = k % base_size;
            proof {
                assert(sq_line + a < side && sq_col + bcol < side) by {
                    assert((l as int) / n < n && (c as int) / n < n);
                    assert(a as int == (k as int) / n && a < base_size);
                }
                lemma_line_col((sq_line + a) as int, (sq_col + bcol) as int, n);
            }
            r.push(CellLoc { idx: (sq_line + a) * side + sq_col + bcol, base_size });
            k = k + 1;
        }
        proof {
            assert forall|k2: int|
                0 <= k2 < r@.len() implies (#[trigger] r@[k2]).wf() && r@[k2].spec_base() == n
                && square_of(r@[k2].spec_index(), n) == square_of(self.spec_index(), n) by {
                let jj = r@[k2].spec_index();
                lemma_line_col(sq_line + k2 / n, sq_col + (k2 % n), n);
                lemma_square_membership(self.spec_index(), jj, n);
                assert(line_of(jj, n) / n == line_of(self.spec_index(), n) / n) by {
                    assert(line_of(jj, n) == sq_line + k2 / n);
                    assert(0 <= k2 / n < n);
                }
                assert(col_of(jj, n) / n == col_of(self.spec_index(), n) / n) by {
                    assert(col_of(jj, n) == sq_col + (k2 % n));
                    assert(0 <= k2 % n < n);
                }
            }
            assert forall|j: int| 0 <= j < cell_count(n) implies (#[trigger] square_of(j, n)
                == square_of(self.spec_index(), n) <==> exists|k2: int|
                0 <= k2 < r@.len() && (#[trigger] r@[k2]).spec_index() == j) by {
                lemma_cell_geometry(j, n);
                lemma_square_membership(self.spec_index(), j, n);
                if square_of(j, n) == square_of(self.spec_index(), n) {
                    let a = line_of(j, n) - sq_line;
                    let bcol = col_of(j, n) - sq_col;
                    assert(0 <= a < n && 0 <= bcol < n) by {
                        assert(line_of(j, n) / n == line_of(self.spec_index(), n) / n);
                        assert(col_of(j, n) / n == col_of(self.spec_index(), n) / n);
                    }
                    let k2 = a * n + bcol;
                    assert(0 <= k2 < side_len(n));
                    assert(k2 / n == a && k2 % n == bcol);
                    assert(r@[k2].spec_index() == (sq_line + a) * side_len(n) + sq_col + bcol);
                    assert(r@[k2].spec_index() == j) by {
                        assert(line_of(j, n) == sq_line + a && col_of(j, n) == sq_col + bcol);
                    }
                }
            }
        }
        r
    }
}

/// The values in range that no cell of `p` holds on this grid.
pub open spec fn candidates_excluding(grid: Seq<Option<u8>>, n: int, p: Set<int>) -> Set<u8> {
    Set::new(
        |v: u8|
            1 <= v <= side_len(n) && forall|j: int|
                p.contains(j) && 0 <= j < grid.len() ==> #[trigger] grid[j] != Some(v),
    )
}

impl Board {
    /// A copy of the board with the same contents.
    #[must_use]
    pub fn duplicate(&self) -> (r: Board)
        ensures
            r.grid() == self.grid(),
            r.spec_base() == self.spec_base(),
    {
        Board { base_size: self.base_size, cells: self.cells.clone() }
    }
}

impl CellLoc {
    /// Given a board, all the possible values for this cell location within
    /// that board: the values that no other cell of a shared line, column or
    /// square holds.  If the cell is not empty, returns `None`.
    pub fn get_possible_values(&self, board: &Board) -> (r: Option<ValueSet>)
        requires
            board.wf(),
            board.on_board(*self),
        ensures
            r is None <==> board.grid()[self.spec_index()] is Some,
            r is Some ==> (r->0).wf() && (r->0).vset() =~= candidates_of(
                board.grid(),
                self.spec_index(),
                self.spec_base(),
            ),
    {
        if board.get(self).is_some() {
            return None;
        }
        Some(self.calculate_possible_values(board))
    }

    /// The possible values for this empty cell, computed from scratch.
    pub fn calculate_possible_values(&self, board: &Board) -> (r: ValueSet)
        requires
            board.wf(),
            board.on_board(*self),
            board.grid()[self.spec_index()] is None,
        ensures
            r.wf(),
            r.vset() =~= candidates_of(board.grid(), self.spec_index(), self.spec_base()),
    {
        let ghost n = self.spec_base();
        let ghost grid = board.grid();
        let side = self.base_size * self.base_size;
        let mut vs = ValueSet::full(side as u8);
        let ghost mut seen: Set<int> = Set::empty();
        proof {
            assert(vs.vset() =~= candidates_excluding(grid, n, seen));
        }
        let line = self.iter_line();
        let col = self.iter_col();
        let square = self.iter_square();
        let mut k: usize = 0;
        while k < line.len()
            invariant
                board.wf(),
                board.on_board(*self),
                grid == board.grid(),
                n == self.spec_base(),
                line@.len() == side_len(n),
                forall|k2: int|
                    0 <= k2 < line@.len() ==> (#[trigger] line@[k2]).wf() && line@[k2].spec_base()
                        == n,
                k <= line@.len(),
                vs.wf(),
                vs.vset() =~= candidates_excluding(grid, n, seen),
                seen =~= Set::new(
                    |j: int| exists|k2: int| 0 <= k2 < k && (#[trigger] line@[k2]).spec_index() == j,
                ),
            decreases line@.len() - k,
        {
            let cell = line[k];
            if let Some(v) = board.get(&cell) {
                vs.remove(v);
            }
            proof {
                let j0 = line@[k as int].spec_index();
                seen = seen.insert(j0);
                assert(seen =~= Set::new(
                    |j: int|
                        exists|k2: int|
                            0 <= k2 < k + 1 && (#[trigger] line@[k2]).spec_index() == j,
                ));
                assert(vs.vset() =~= candidates_excluding(grid, n, seen)) by {
                    assert forall|v: u8|
                        vs.vset().contains(v) <==> candidates_excluding(grid, n, seen).contains(
                        v,
                    ) by {
                        if grid[j0] is Some && grid[j0]->0 == v {
                            assert(!vs.vset().contains(v));
                        }
                    }
                }
            }
            k = k + 1;
        }
        let mut k: usize = 0;
        while k < col.len()
            invariant
                board.wf(),
                board.on_board(*self),
                grid == board.grid(),
                n == self.spec_base(),
                col@.len() == side_len(n),
                forall|k2: int|
                    0 <= k2 < col@.len() ==> (#[trigger] col@[k2]).wf() && col@[k2].spec_base()
                        == n,
                k <= col@.len(),
                vs.wf(),
                vs.vset() =~= candidates_excluding(grid, n, seen),
                line@.len() == side_len(n),
                seen =~= Set::new(
                    |j: int|
                        (exists|k2: int|
                            0 <= k2 < line@.len() && (#[trigger] line@[k2]).spec_index() == j)
                            || (exists|k2: int|
                            0 <= k2 < k && (#[trigger] col@[k2]).spec_index() == j),
                ),
            decreases col@.len() - k,
        {
            let cell = col[k];
            if let Some(v) = board.get(&cell) {
                vs.remove(v);
            }
            proof {
                let j0 = col@[k as int].spec_index();
                seen = seen.insert(j0);
                assert(seen =~= Set::new(
                    |j: int|
                        (exists|k2: int|
                            0 <= k2 < line@.len() && (#[trigger] line@[k2]).spec_index() == j)
                            || (exists|k2: int|
                            0 <= k2 < k + 1 && (#[trigger] col@[k2]).spec_index() == j),
                ));
                assert(vs.vset() =~= candidates_excluding(grid, n, seen)) by {
                    assert forall|v: u8|
                        vs.vset().contains(v) <==> candidates_excluding(grid, n, seen).contains(
                        v,
                    ) by {
                        if grid[j0] is Some && grid[j0]->0 == v {
                            assert(!vs.vset().contains(v));
                        }
                    }
                }
            }
            k = k + 1;
        }
        let mut k: usize = 0;
        while k < square.len()
            invariant
                board.wf(),
                board.on_board(*self),
                grid == board.grid(),
                n == self.spec_base(),
                square@.len() == side_len(n),
                forall|k2: int|
                    0 <= k2 < square@.len() ==> (#[trigger] square@[k2]).wf()
                        && square@[k2].spec_base() == n,
                k <= square@.len(),
                vs.wf(),
                vs.vset() =~= candidates_excluding(grid, n, seen),
                line@.len() == side_len(n),
                col@.len() == side_len(n),
                seen =~= Set::new(
                    |j: int|
                        (exists|k2: int|
                            0 <= k2 < line@.len() && (#[trigger] line@[k2]).spec_index() == j)
                            || (exists|k2: int|
                            0 <= k2 < col@.len() && (#[trigger] col@[k2]).spec_index() == j)
                            || (exists|k2: int|
                            0 <= k2 < k && (#[trigger] square@[k2]).spec_index() == j),
                ),
            decreases square@.len() - k,
        {
            let cell = square[k];
            if let Some(v) = board.get(&cell) {
                vs.remove(v);
            }
            proof {
                let j0 = square@[k as int].spec_index();
                seen = seen.insert(j0);
                assert(seen =~= Set::new(
                    |j: int|
                        (exists|k2: int|
                            0 <= k2 < line@.len() && (#[trigger] line@[k2]).spec_index() == j)
                            || (exists|k2: int|
                            0 <= k2 < col@.len() && (#[trigger] col@[k2]).spec_index() == j)
                            || (exists|k2: int|
                            0 <= k2 < k + 1 && (#[trigger] square@[k2]).spec_index() == j),
                ));
                assert(vs.vset() =~= candidates_excluding(grid, n, seen)) by {
                    assert forall|v: u8|
                        vs.vset().contains(v) <==> candidates_excluding(grid, n, seen).contains(
                        v,
                    ) by {
                        if grid[j0] is Some && grid[j0]->0 == v {
                            assert(!vs.vset().contains(v));
                        }
                    }
                }
            }
            k = k + 1;
        }
        proof {
            let c = self.spec_index();
            assert forall|j: int| seen.contains(j) implies 0 <= j < cell_count(n) && same_block(
                c,
                j,
                n,
            ) by {
                if exists|k2: int|
                    0 <= k2 < line@.len() && (#[trigger] line@[k2]).spec_index() == j {
                    let k2 = choose|k2: int|
                        0 <= k2 < line@.len() && (#[trigger] line@[k2]).spec_index() == j;
                    assert(line@[k2].wf());
                    assert(line_of(j, n) == line_of(c, n));
                } else if exists|k2: int|
                    0 <= k2 < col@.len() && (#[trigger] col@[k2]).spec_index() == j {
                    let k2 = choose|k2: int|
                        0 <= k2 < col@.len() && (#[trigger] col@[k2]).spec_index() == j;
                    assert(col@[k2].wf());
                    assert(col_of(j, n) == col_of(c, n));
                } else {
                    let k2 = choose|k2: int|
                        0 <= k2 < square@.len() && (#[trigger] square@[k2]).spec_index() == j;
                    assert(square@[k2].wf());
                    assert(square_of(j, n) == square_of(c, n));
                }
            }
            assert forall|j: int|
                0 <= j < cell_count(n) && same_block(c, j, n) implies seen.contains(j) by {
                if line_of(j, n) == line_of(c, n) {
                    assert(exists|k2: int|
                        0 <= k2 < line@.len() && (#[trigger] line@[k2]).spec_index() == j);
                } else if col_of(j, n) == col_of(c, n) {
                    assert(exists|k2: int|
                        0 <= k2 < col@.len() && (#[trigger] col@[k2]).spec_index() == j);
                } else {
                    assert(exists|k2: int|
                        0 <= k2 < square@.len() && (#[trigger] square@[k2]).spec_index() == j);
                }
            }
            assert(vs.vset() =~= candidates_of(grid, c, n)) by {
                assert forall|v: u8|
                    vs.vset().contains(v) <==> candidates_of(grid, c, n).contains(v) by {
                    if candidates_of(grid, c, n).contains(v) {
                        assert forall|j: int|
                            seen.contains(j) && 0 <= j < grid.len() implies #[trigger] grid[j]
                            != Some(v) by {
                            if j != c {
                                assert(same_block(c, j, n));
                            }
                        }
                    }
                    if vs.vset().contains(v) {
                        assert forall|j: int|
                            0 <= j < grid.len() && j != c && same_block(c, j, n) implies #[trigger]
                        grid[j] != Some(v) by {
                            assert(seen.contains(j));
                        }
                    }
                }
            }
        }
        vs
    }
}

impl PartialEq for Board {
    /// Two boards are equal when they have the same base size and hold the
    /// same value at every index.
    fn eq(&self, other: &Board) -> (r: bool) {
        if self.base_size != other.base_size {
            return false;
        }
        if self.cells.len() != other.cells.len() {
            return false;
        }
        let mut i: usize = 0;
        while i < self.cells.len()
            invariant
                self.cells@.len() == other.cells@.len(),
                i <= self.cells@.len(),
                self.base_size == other.base_size,
                forall|k: int| 0 <= k < i ==> self.cells@[k] == other.cells@[k],
            decreases self.cells@.len() - i,
        {
            let a = self.cells[i];
            let b = other.cells[i];
            let same = match (a, b) {
                (None, None) => true,
                (Some(x), Some(y)) => x == y,
                _ => false,
            };
            if !same {
                return false;
            }
            i = i + 1;
        }
        proof {
            assert(self.cells@ =~= other.cells@);
        }
        true
    }
}

impl vstd::std_specs::cmp::PartialEqSpecImpl for Board {
    open spec fn obeys_eq_spec() -> bool {
        true
    }

    open spec fn eq_spec(&self, other: &Board) -> bool {
        self.base_size == other.base_size && self.cells@ == other.cells@
    }
}

/// Error returned when the representation of a board cannot be parsed:
/// a board string must have one character per cell, each a digit within the
/// board's value range or a dot, besides the ignored separators.
#[derive(Debug, Clone)]
pub struct MalformedBoardError;

/// The bytes a board string may use as pure formatting: space, newline,
/// underscore, dash and pipe.
pub open spec fn is_separator(b: u8) -> bool {
    b == 32 || b == 10 || b == 13 || b == 95 || b == 45 || b == 124
}

/// The cell a text byte stands for: a dot is an empty cell, a digit is a
/// filled one.
pub open spec fn byte_cell(b: u8) -> Option<u8> {
    if b == 46 {
        None
    } else {
        Some((b - 48) as u8)
    }
}

impl Board {
    /// Parses a board from a string: one character per cell in flat index
    /// order, `.` for an empty cell and a digit for a filled one, with
    /// spaces, newlines, underscores, dashes and pipes ignored.
    pub fn from_text(s: &str) -> (r: Result<Board, MalformedBoardError>)
        ensures
            r is Ok ==> ({
                let b = r->Ok_0;
                let f = s.spec_bytes().filter(|x: u8| !is_separator(x));
                &&& b.wf()
                &&& f.len() == cell_count(b.spec_base())
                &&& forall|i: int| 0 <= i < f.len() ==> b.grid()[i] == byte_cell(#[trigger] f[i])
            }),
    {
        let ghost f = s.spec_bytes().filter(|x: u8| !is_separator(x));
        let bytes = s.as_bytes();
        let mut digits: Vec<u8> = Vec::new();
        let mut k: usize = 0;
        while k < bytes.len()
            invariant
                bytes@ == s.spec_bytes(),
                k <= bytes@.len(),
                digits@ == bytes@.take(k as int).filter(|x: u8| !is_separator(x)),
            decreases bytes@.len() - k,
        {
            let b = bytes[k];
            let sep = b == 32 || b == 10 || b == 13 || b == 95 || b == 45 || b == 124;
            if !sep {
                digits.push(b);
            }
            proof {
                assert(bytes@.take(k + 1).drop_last() == bytes@.take(k as int));
                assert(bytes@.take(k + 1).last() == bytes@[k as int]);
                reveal_with_fuel(Seq::filter, 2);
                assert(digits@ == bytes@.take(k + 1).filter(|x: u8| !is_separator(x)));
            }
            k = k + 1;
        }
        proof {
            assert(bytes@.take(bytes@.len() as int) == bytes@);
            assert(digits@ == f);
        }
        let board_size = if digits.len() == 16 {
            BoardSize::FourByFour
        } else if digits.len() == 81 {
            BoardSize::NineByNine
        } else if digits.len() == 256 {
            BoardSize::SixteenBySixteen
        } else {
            return Err(MalformedBoardError);
        };
        let side = board_size.get_base_size() * board_size.get_base_size();
        proof {
            assert(side == 4 || side == 9 || side == 16);
        }
        let mut board = Board::new(board_size);
        let mut k: usize = 0;
        while k < digits.len()
            invariant
                board.wf(),
                board.spec_base() == board_size.base(),
                digits@ == f,
                digits@.len() == cell_count(board_size.base()),
                side == side_len(board_size.base()),
                side == 4 || side == 9 || side == 16,
                k <= digits@.len(),
                forall|i: int| 0 <= i < k ==> board.grid()[i] == byte_cell(#[trigger] f[i]),
                forall|i: int| k <= i < digits@.len() ==> board.grid()[i] is None,
            decreases digits@.len() - k,
        {
            let b = digits[k];
            if b == 46 {
                proof {
                    assert(board.grid()[k as int] == byte_cell(f[k as int]));
                }
            } else if 49 <= b && b as usize <= 48 + side {
                let cell = CellLoc::new(k, board_size);
                board.set(&cell, b - 48);
            } else {
                return Err(MalformedBoardError);
            }
            k = k + 1;
        }
        Ok(board)
    }

    /// The board rendered as text: one line per board line, each cell its
    /// value or a dot, with single spaces between cells.
    pub fn to_text(&self) -> (r: String)
        requires
            self.wf(),
    {
        let side = self.base_size * self.base_size;
        let mut out = String::new();
        let mut l: usize = 0;
        while l < side
            invariant
                self.wf(),
                side == side_len(self.spec_base()),
                l <= side,
            decreases side - l,
        {
            let mut c: usize = 0;
            while c < side
                invariant
                    self.wf(),
                    side == side_len(self.spec_base()),
                    l < side,
                    c <= side,
                decreases side - c,
            {
                let text = match self.get_at(l, c) {
                    None => ". ",
                    Some(1) => "1 ",
                    Some(2) => "2 ",
                    Some(3) => "3 ",
                    Some(4) => "4 ",
                    Some(5) => "5 ",
                    Some(6) => "6 ",
                    Some(7) => "7 ",
                    Some(8) => "8 ",
                    Some(9) => "9 ",
                    Some(10) => "10 ",
                    Some(11) => "11 ",
                    Some(12) => "12 ",
                    Some(13) => "13 ",
                    Some(14) => "14 ",
                    Some(15) => "15 ",
                    Some(16) => "16 ",
                    Some(_) => "? ",
                };
                out.append(text);
                c = c + 1;
            }
            out.append("\n");
            l = l + 1;
        }
        out
    }

    /// A new board rotated clockwise by a quarter turn: the cell at line `l`
    /// and column `c` moves to line `c` and column `side - 1 - l`, so every
    /// cell of the result holds exactly the value of its preimage.
    pub fn rotated(&self) -> (r: Board)
        requires
            self.wf(),
        ensures
            r.wf(),
            r.spec_base() == self.spec_base(),
            forall|j: int|
                0 <= j < cell_count(self.spec_base()) ==> r.grid()[rotated_index(
                    j,
                    self.spec_base(),
                )] == self.grid()[j],
    {
        let ghost n = self.spec_base();
        let board_size = self.board_size();
        let side = self.base_size * self.base_size;
        let mut board = Board::new(board_size);
        let cells = self.iter_cells();
        proof {
            assert forall|j: int|
                0 <= j < cell_count(n) implies board.grid()[#[trigger] rotated_index(j, n)]
                is None by {
                lemma_rotated_index(j, n);
            }
        }
        let mut k: usize = 0;
        while k < cells.len()
            invariant
                self.wf(),
                board.wf(),
                n == self.spec_base(),
                board.spec_base() == n,
                side == side_len(n),
                cells@.len() == cell_count(n),
                forall|t: int|
                    0 <= t < cells@.len() ==> (#[trigger] cells@[t]).spec_index() == t
                        && cells@[t].spec_base() == n && cells@[t].wf(),
                k <= cells@.len(),
                forall|j: int|
                    0 <= j < k ==> board.grid()[#[trigger] rotated_index(j, n)]
                        == self.grid()[j],
                forall|j: int|
                    k <= j < cell_count(n) ==> board.grid()[#[trigger] rotated_index(j, n)]
                        is None,
            decreases cells@.len() - k,
        {
            let cell = cells[k];
            let l = cell.col();
            let c = side - 1 - cell.line();
            proof {
                lemma_rotated_index(k as int, n);
                assert((l * side_len(n) + c) as int == rotated_index(k as int, n));
            }
            if let Some(value) = self.get(&cell) {
                board.set_at(l, c, value);
            }
            proof {
                assert forall|j: int|
                    0 <= j < k + 1 implies board.grid()[#[trigger] rotated_index(j, n)]
                    == self.grid()[j] by {
                    if j < k {
                        lemma_rotated_index(j as int, n);
                    }
                }
                assert forall|j: int|
                    k + 1 <= j < cell_count(n) implies board.grid()[
                #[trigger] rotated_index(j, n)] is None by {
                    lemma_rotated_index(j, n);
                }
            }
            k = k + 1;
        }
        board
    }
}

/// Where the cell with index `j` lands under a clockwise quarter turn.
pub open spec fn rotated_index(j: int, n: int) -> int {
    col_of(j, n) * side_len(n) + (side_len(n) - 1 - line_of(j, n))
}

/// The quarter turn hits every target cell exactly once.
pub proof fn lemma_rotated_index(j: int, n: int)
    requires
        valid_base(n),
        0 <= j < cell_count(n),
    ensures
        0 <= rotated_index(j, n) < cell_count(n),
        line_of(rotated_index(j, n), n) == col_of(j, n),
        col_of(rotated_index(j, n), n) == side_len(n) - 1 - line_of(j, n),
        forall|j2: int|
            0 <= j2 < cell_count(n) && j2 != j ==> rotated_index(j2, n) != rotated_index(j, n),
{
    lemma_cell_geometry(j, n);
    lemma_line_col(col_of(j, n), side_len(n) - 1 - line_of(j, n), n);
    assert forall|j2: int|
        0 <= j2 < cell_count(n) && j2 != j implies rotated_index(j2, n) != rotated_index(
        j,
        n,
    ) by {
        lemma_cell_geometry(j2, n);
        lemma_line_col(col_of(j2, n), side_len(n) - 1 - line_of(j2, n), n);
        if rotated_index(j2, n) == rotated_index(j, n) {
            assert(col_of(j2, n) == col_of(j, n) && line_of(j2, n) == line_of(j, n));
        }
    }
}

impl core::str::FromStr for Board {
    type Err = MalformedBoardError;

    /// Parses a board from a string; see [`Board::from_text`].
    fn from_str(board_as_string: &str) -> Result<Board, MalformedBoardError> {
        Board::from_text(board_as_string)
    }
}

/// The `k`-th cell of the block with axis number `a`: axes `0..side` are the
/// lines, `side..2*side` the columns, and the rest the squares.
pub open spec fn axis_cell(a: int, k: int, n: int) -> int {
    let side = side_len(n);
    if a < side {
        a * side + k
    } else if a < 2 * side {
        k * side + (a - side)
    } else {
        (((a - 2 * side) / n) * n + k / n) * side + ((a - 2 * side) % n) * n + k % n
    }
}

/// Whether cell `j` lies in the block with axis number `a`.
pub open spec fn in_axis(j: int, a: int, n: int) -> bool {
    if a < side_len(n) {
        line_of(j, n) == a
    } else if a < 2 * side_len(n) {
        col_of(j, n) == a - side_len(n)
    } else {
        square_of(j, n) == a - 2 * side_len(n)
    }
}

/// The block with axis `a` consists of exactly the cells `axis_cell(a, k, n)`
/// for `k` below the side length, pairwise distinct.
#[verifier::spinoff_prover]
#[verifier::rlimit(60)]
pub proof fn lemma_axis_cells(a: int, k: int, n: int)
    requires
        valid_base(n),
        0 <= a < 3 * side_len(n),
        0 <= k < side_len(n),
    ensures
        0 <= axis_cell(a, k, n) < cell_count(n),
        in_axis(axis_cell(a, k, n), a, n),
        forall|k2: int|
            0 <= k2 < side_len(n) && k2 != k ==> axis_cell(a, k2, n) != axis_cell(a, k, n),
{
    let side = side_len(n);
    if a < side {
        lemma_line_col(a, k, n);
        assert forall|k2: int| 0 <= k2 < side && k2 != k implies axis_cell(a, k2, n) != axis_cell(
            a,
            k,
            n,
        ) by {
            lemma_line_col(a, k2, n);
        }
    } else if a < 2 * side {
        lemma_line_col(k, a - side, n);
        assert forall|k2: int| 0 <= k2 < side && k2 != k implies axis_cell(a, k2, n) != axis_cell(
            a,
            k,
            n,
        ) by {
            lemma_line_col(k2, a - side, n);
        }
    } else {
        let s = a - 2 * side;
        let big_l = s / n;
        let big_c = s % n;
        assert(0 <= big_l < n && 0 <= big_c < n && s == big_l * n + big_c) by {
            if n == 2 {
                assert(s == (s / 2) * 2 + s % 2);
            } else if n == 3 {
                assert(s == (s / 3) * 3 + s % 3);
            } else {
                assert(s == (s / 4) * 4 + s % 4);
            }
        }
        assert forall|k2: int| 0 <= k2 < side implies {
            let j2 = #[trigger] axis_cell(a, k2, n);
            &&& 0 <= j2 < cell_count(n)
            &&& line_of(j2, n) == big_l * n + k2 / n
            &&& col_of(j2, n) == big_c * n + k2 % n
            &&& square_of(j2, n) == s
        } by {
            let la = big_l * n + k2 / n;
            let ca = big_c * n + k2 % n;
            assert(0 <= k2 / n < n && 0 <= k2 % n < n) by {
                if n == 2 {
                    assert(k2 == (k2 / 2) * 2 + k2 % 2);
                } else if n == 3 {
                    assert(k2 == (k2 / 3) * 3 + k2 % 3);
                } else {
                    assert(k2 == (k2 / 4) * 4 + k2 % 4);
                }
            }
            assert(0 <= la < side && 0 <= ca < side) by (nonlinear_arith)
                requires
                    0 <= big_l < n,
                    0 <= big_c < n,
                    0 <= k2 / n < n,
                    0 <= k2 % n < n,
                    la == big_l * n + k2 / n,
                    ca == big_c * n + k2 % n,
                    side == n * n,
            ;
            lemma_line_col(la, ca, n);
            assert(square_of(axis_cell(a, k2, n), n) == (la / n) * n + ca / n);
            assert(la / n == big_l && ca / n == big_c) by {
                if n == 2 {
                    assert((big_l * 2 + k2 / 2) / 2 == big_l);
                    assert((big_c * 2 + k2 % 2) / 2 == big_c);
                } else if n == 3 {
                    assert((big_l * 3 + k2 / 3) / 3 == big_l);
                    assert((big_c * 3 + k2 % 3) / 3 == big_c);
                } else {
                    assert((big_l * 4 + k2 / 4) / 4 == big_l);
                    assert((big_c * 4 + k2 % 4) / 4 == big_c);
                }
            }
            assert((la / n) * n + ca / n == s);
        }
        assert forall|k2: int| 0 <= k2 < side && k2 != k implies axis_cell(a, k2, n) != axis_cell(
            a,
            k,
            n,
        ) by {
            let j1 = axis_cell(a, k2, n);
            let j2 = axis_cell(a, k, n);
            if j1 == j2 {
                assert(line_of(j1, n) == line_of(j2, n) && col_of(j1, n) == col_of(j2, n));
                assert(k2 / n == k / n && k2 % n == k % n);
                assert(k2 == k) by {
                    if n == 2 {
                        assert(k2 == (k2 / 2) * 2 + k2 % 2 && k == (k / 2) * 2 + k % 2);
                    } else if n == 3 {
                        assert(k2 == (k2 / 3) * 3 + k2 % 3 && k == (k / 3) * 3 + k % 3);
                    } else {
                        assert(k2 == (k2 / 4) * 4 + k2 % 4 && k == (k / 4) * 4 + k % 4);
                    }
                }
            }
        }
    }
}

/// Two cells of one block see each other.
pub proof fn lemma_axis_same_block(j1: int, j2: int, a: int, n: int)
    requires
        in_axis(j1, a, n),
        in_axis(j2, a, n),
    ensures
        same_block(j1, j2, n),
{
}

/// Solution validity: in a complete, conflict-free grid, every block
/// contains every value of the range exactly once.
pub proof fn lemma_value_exactly_once(grid: Seq<Option<u8>>, n: int, a: int, v: u8)
    requires
        grid_wf(grid, n),
        grid_complete(grid),
        grid_no_conflict(grid, n),
        0 <= a < 3 * side_len(n),
        1 <= v <= side_len(n),
    ensures
        exists|j: int|
            0 <= j < cell_count(n) && #[trigger] in_axis(j, a, n) && grid[j] == Some(v),
        forall|j1: int, j2: int|
            0 <= j1 < cell_count(n) && 0 <= j2 < cell_count(n) && in_axis(j1, a, n) && in_axis(
                j2,
                a,
                n,
            ) && #[trigger] grid[j1] == Some(v) && #[trigger] grid[j2] == Some(v) ==> j1 == j2,
{
    let side = side_len(n);
    assert forall|j1: int, j2: int|
        0 <= j1 < cell_count(n) && 0 <= j2 < cell_count(n) && in_axis(j1, a, n) && in_axis(
            j2,
            a,
            n,
        ) && #[trigger] grid[j1] == Some(v) && #[trigger] grid[j2] == Some(v) implies j1 == j2 by {
        lemma_axis_same_block(j1, j2, a, n);
        if j1 != j2 {
            assert(grid[j1] != grid[j2]);
        }
    }
    let vals = Seq::<int>::new(side as nat, |k: int| grid[axis_cell(a, k, n)]->0 as int);
    assert forall|k: int| 0 <= k < side implies 1 <= #[trigger] vals[k] <= side by {
        lemma_axis_cells(a, k, n);
        assert(grid[axis_cell(a, k, n)] is Some);
    }
    assert(vals.no_duplicates()) by {
        assert forall|k1: int, k2: int|
            0 <= k1 < vals.len() && 0 <= k2 < vals.len() && k1 != k2 implies vals[k1] != vals[
        k2] by {
            lemma_axis_cells(a, k1, n);
            lemma_axis_cells(a, k2, n);
            let j1 = axis_cell(a, k1, n);
            let j2 = axis_cell(a, k2, n);
            lemma_axis_same_block(j1, j2, a, n);
            assert(j1 != j2);
            assert(grid[j1] != grid[j2]);
            assert(grid[j1] is Some && grid[j2] is Some);
        }
    }
    vals.unique_seq_to_set();
    let range = vstd::set_lib::set_int_range(1, side + 1);
    vstd::set_lib::lemma_int_range(1, side + 1);
    assert(vals.to_set().subset_of(range)) by {
        assert forall|w: int| vals.to_set().contains(w) implies range.contains(w) by {
            let k = choose|k: int| 0 <= k < vals.len() && vals[k] == w;
        }
    }
    assert(range.subset_of(vals.to_set())) by {
        assert forall|w: int| range.contains(w) implies vals.to_set().contains(w) by {
            if !vals.to_set().contains(w) {
                assert(vals.to_set().subset_of(range.remove(w)));
                assert(range.remove(w).len() == side - 1) by {
                    assert(range.contains(w));
                }
                vstd::set_lib::lemma_len_subset(vals.to_set(), range.remove(w));
                assert(vals.to_set().len() <= side - 1);
                assert(vals.to_set().len() == side);
                assert(false);
            }
        }
    }
    assert(vals.to_set().contains(v as int));
    let k = choose|k: int| 0 <= k < vals.len() && vals[k] == v as int;
    lemma_axis_cells(a, k, n);
    let j = axis_cell(a, k, n);
    assert(grid[j] is Some && grid[j]->0 as int == v as int);
    assert(grid[j] == Some(v));
    assert(0 <= j < cell_count(n) && in_axis(j, a, n) && grid[j] == Some(v));
}

/// The value of cell `i` in the reference solved grid: every line carries
/// the value cycle shifted by `line * n + line / n`, which makes all lines,
/// columns and squares pairwise distinct.
pub open spec fn reference_value(i: int, n: int) -> u8 {
    (((line_of(i, n) * n + line_of(i, n) / n + col_of(i, n)) % side_len(n)) + 1) as u8
}

/// Two nonnegative integers less than a modulus apart with equal remainders
/// are equal.
proof fn lemma_mod_inj(a: int, b: int, m: int)
    requires
        m > 0,
        a >= 0,
        b >= 0,
        a % m == b % m,
        -m < a - b < m,
    ensures
        a == b,
{
    vstd::arithmetic::div_mod::lemma_fundamental_div_mod(a, m);
    vstd::arithmetic::div_mod::lemma_fundamental_div_mod(b, m);
    assert(a - b == (a / m - b / m) * m) by (nonlinear_arith)
        requires
            a == m * (a / m) + a % m,
            b == m * (b / m) + b % m,
            a % m == b % m,
    ;
    assert(a / m == b / m) by (nonlinear_arith)
        requires
            a - b == (a / m - b / m) * m,
            -m < a - b < m,
            m > 0,
    ;
}

/// Two cells that see each other hold different values in the reference
/// solved grid.
pub proof fn lemma_reference_distinct(i: int, j: int, n: int)
    requires
        valid_base(n),
        0 <= i < cell_count(n),
        0 <= j < cell_count(n),
        i != j,
        same_block(i, j, n),
    ensures
        reference_value(i, n) != reference_value(j, n),
{
    let nn = side_len(n);
    lemma_cell_geometry(i, n);
    lemma_cell_geometry(j, n);
    let l1 = line_of(i, n);
    let c1 = col_of(i, n);
    let l2 = line_of(j, n);
    let c2 = col_of(j, n);
    let s1 = l1 * n + l1 / n + c1;
    let s2 = l2 * n + l2 / n + c2;
    let a1 = l1 / n;
    let b1 = l1 % n;
    let a2 = l2 / n;
    let b2 = l2 % n;
    vstd::arithmetic::div_mod::lemma_fundamental_div_mod(l1, n);
    vstd::arithmetic::div_mod::lemma_fundamental_div_mod(l2, n);
    assert(0 <= a1 < n && 0 <= a2 < n) by (nonlinear_arith)
        requires
            l1 == n * a1 + b1,
            l2 == n * a2 + b2,
            0 <= b1 < n,
            0 <= b2 < n,
            0 <= l1 < n * n,
            0 <= l2 < n * n,
            n > 0,
    ;
    assert(0 <= s1 && 0 <= s2) by (nonlinear_arith)
        requires
            0 <= l1 && 0 <= a1 && 0 <= c1 && 0 <= l2 && 0 <= a2 && 0 <= c2 && n > 0,
            s1 == l1 * n + a1 + c1,
            s2 == l2 * n + a2 + c2,
    ;
    let u1 = s1 % nn;
    let u2 = s2 % nn;
    assert(0 <= u1 < nn && 0 <= u2 < nn) by {
        vstd::arithmetic::div_mod::lemma_fundamental_div_mod(s1, nn);
        vstd::arithmetic::div_mod::lemma_fundamental_div_mod(s2, nn);
    }
    if reference_value(i, n) == reference_value(j, n) {
        assert(u1 == u2) by {
            assert(reference_value(i, n) == (u1 + 1) as u8);
            assert(reference_value(j, n) == (u2 + 1) as u8);
        }
        if l1 == l2 {
            lemma_mod_inj(s1, s2, nn);
            assert(c1 == c2);
            assert(i == j);
            assert(false);
        } else if c1 == c2 {
            let r1 = b1 * n + a1;
            let r2 = b2 * n + a2;
            assert(0 <= r1 < nn && 0 <= r2 < nn) by (nonlinear_arith)
                requires
                    0 <= a1 < n && 0 <= b1 < n && 0 <= a2 < n && 0 <= b2 < n,
                    r1 == b1 * n + a1,
                    r2 == b2 * n + a2,
                    nn == n * n,
            ;
            assert(s1 == nn * a1 + (r1 + c1)) by (nonlinear_arith)
                requires
                    s1 == l1 * n + a1 + c1,
                    l1 == n * a1 + b1,
                    r1 == b1 * n + a1,
                    nn == n * n,
            ;
            assert(s2 == nn * a2 + (r2 + c2)) by (nonlinear_arith)
                requires
                    s2 == l2 * n + a2 + c2,
                    l2 == n * a2 + b2,
                    r2 == b2 * n + a2,
                    nn == n * n,
            ;
            vstd::arithmetic::div_mod::lemma_mod_multiples_vanish(a1, r1 + c1, nn);
            vstd::arithmetic::div_mod::lemma_mod_multiples_vanish(a2, r2 + c2, nn);
            assert(u1 == (r1 + c1) % nn && u2 == (r2 + c2) % nn);
            lemma_mod_inj(r1 + c1, r2 + c2, nn);
            assert(r1 == r2);
            assert(b1 == b2 && a1 == a2) by (nonlinear_arith)
                requires
                    r1 == b1 * n + a1,
                    r2 == b2 * n + a2,
                    r1 == r2,
                    0 <= a1 < n && 0 <= a2 < n && 0 <= b1 < n && 0 <= b2 < n,
            ;
            assert(l1 == l2);
            assert(false);
        } else {
            assert(square_of(i, n) == square_of(j, n));
            lemma_square_membership(i, j, n);
            assert(a1 == a2);
            let big_a = a1;
            let big_c = c1 / n;
            let d1 = c1 % n;
            let d2 = c2 % n;
            vstd::arithmetic::div_mod::lemma_fundamental_div_mod(c1, n);
            vstd::arithmetic::div_mod::lemma_fundamental_div_mod(c2, n);
            assert(big_c == c2 / n);
            let x1 = (b1 + big_c) * n + (big_a + d1);
            let x2 = (b2 + big_c) * n + (big_a + d2);
            assert(0 <= x1 < 2 * nn && 0 <= x2 < 2 * nn) by (nonlinear_arith)
                requires
                    0 <= b1 < n && 0 <= b2 < n && 0 <= big_c < n && 0 <= big_a < n && 0 <= d1 < n
                        && 0 <= d2 < n,
                    x1 == (b1 + big_c) * n + (big_a + d1),
                    x2 == (b2 + big_c) * n + (big_a + d2),
                    nn == n * n,
            ;
            assert(s1 == nn * big_a + x1) by (nonlinear_arith)
                requires
                    s1 == l1 * n + a1 + c1,
                    l1 == n * big_a + b1,
                    a1 == big_a,
                    c1 == n * big_c + d1,
                    x1 == (b1 + big_c) * n + (big_a + d1),
                    nn == n * n,
            ;
            assert(s2 == nn * big_a + x2) by (nonlinear_arith)
                requires
                    s2 == l2 * n + a2 + c2,
                    l2 == n * big_a + b2,
                    a2 == big_a,
                    c2 == n * big_c + d2,
                    x2 == (b2 + big_c) * n + (big_a + d2),
                    nn == n * n,
            ;
            vstd::arithmetic::div_mod::lemma_mod_multiples_vanish(big_a, x1, nn);
            vstd::arithmetic::div_mod::lemma_mod_multiples_vanish(big_a, x2, nn);
            assert(x1 % nn == x2 % nn);
            vstd::arithmetic::div_mod::lemma_fundamental_div_mod(x1, nn);
            vstd::arithmetic::div_mod::lemma_fundamental_div_mod(x2, nn);
            let q1 = x1 / nn;
            let q2 = x2 / nn;
            assert(0 <= q1 <= 1 && 0 <= q2 <= 1) by (nonlinear_arith)
                requires
                    x1 == nn * q1 + x1 % nn,
                    x2 == nn * q2 + x2 % nn,
                    0 <= x1 % nn < nn,
                    0 <= x2 % nn < nn,
                    0 <= x1 < 2 * nn,
                    0 <= x2 < 2 * nn,
                    nn > 0,
            ;
            assert(x1 - x2 == (q1 - q2) * nn) by (nonlinear_arith)
                requires
                    x1 == nn * q1 + x1 % nn,
                    x2 == nn * q2 + x2 % nn,
                    x1 % nn == x2 % nn,
            ;
            if q1 == q2 {
                assert(x1 == x2);
                assert(b1 == b2 && d1 == d2) by (nonlinear_arith)
                    requires
                        x1 == (b1 + big_c) * n + (big_a + d1),
                        x2 == (b2 + big_c) * n + (big_a + d2),
                        x1 == x2,
                        0 <= b1 < n && 0 <= b2 < n && 0 <= d1 < n && 0 <= d2 < n,
                        0 <= big_c < n && 0 <= big_a < n,
                ;
                assert(l1 == l2 && c1 == c2);
                assert(false);
            } else {
                assert(x1 - x2 == nn || x1 - x2 == -nn) by (nonlinear_arith)
                    requires
                        x1 - x2 == (q1 - q2) * nn,
                        0 <= q1 <= 1,
                        0 <= q2 <= 1,
                        q1 != q2,
                ;
                assert(false) by (nonlinear_arith)
                    requires
                        x1 == (b1 + big_c) * n + (big_a + d1),
                        x2 == (b2 + big_c) * n + (big_a + d2),
                        x1 - x2 == nn || x1 - x2 == -nn,
                        0 <= b1 < n && 0 <= b2 < n && 0 <= d1 < n && 0 <= d2 < n,
                        nn == n * n,
                        n > 0,
                ;
            }
        }
    }
}

impl Board {
    /// The reference solved grid of the given size: a complete,
    /// conflict-free board that every generation run can fall back on.
    pub fn reference_solution(board_size: BoardSize) -> (r: Board)
        ensures
            r.wf(),
            r.spec_base() == board_size.base(),
            grid_complete(r.grid()),
            grid_no_conflict(r.grid(), board_size.base()),
            forall|i: int|
                0 <= i < cell_count(board_size.base()) ==> r.grid()[i] == Some(
                    #[trigger] reference_value(i, board_size.base()),
                ),
    {
        let ghost n = board_size.base();
        let base_size = board_size.get_base_size();
        let side = base_size * base_size;
        let mut board = Board::new(board_size);
        let cells = board.iter_cells();
        let mut k: usize = 0;
        while k < cells.len()
            invariant
                board.wf(),
                board.spec_base() == n,
                valid_base(n),
                base_size as int == n,
                side == side_len(n),
                cells@.len() == cell_count(n),
                forall|t: int|
                    0 <= t < cells@.len() ==> (#[trigger] cells@[t]).spec_index() == t
                        && cells@[t].spec_base() == n && cells@[t].wf(),
                k <= cells@.len(),
                forall|t: int|
                    0 <= t < k ==> board.grid()[t] == Some(#[trigger] reference_value(t, n)),
            decreases cells@.len() - k,
        {
            let cell = cells[k];
            let l = cell.line();
            let lq = l / base_size;
            let c = cell.col();
            proof {
                vstd::arithmetic::div_mod::lemma_fundamental_div_mod(l as int, base_size as int);
                assert(lq <= l) by (nonlinear_arith)
                    requires
                        l as int == (base_size as int) * (lq as int) + (l as int) % (
                        base_size as int),
                        0 <= (l as int) % (base_size as int),
                        base_size >= 1,
                        lq >= 0,
                ;
                assert((l as int) * (base_size as int) + lq + c <= 100) by (nonlinear_arith)
                    requires
                        0 <= l < 16,
                        0 <= lq <= l,
                        0 <= c < 16,
                        0 < base_size <= 4,
                ;
                assert(l < 16 && c < 16 && base_size <= 4) by {
                    assert(side == 4 || side == 9 || side == 16);
                }
            }
            let shifted = (l * base_size + lq + c) % side;
            let value = (shifted + 1) as u8;
            proof {
                assert(shifted < side) by {
                    vstd::arithmetic::div_mod::lemma_fundamental_div_mod(
                        (l * base_size + lq + c) as int,
                        side as int,
                    );
                }
                assert(value == reference_value(k as int, n));
            }
            board.set(&cell, value);
            k = k + 1;
        }
        proof {
            assert(grid_complete(board.grid())) by {
                assert forall|t: int| 0 <= t < board.grid().len() implies board.grid()[t]
                    is Some by {
                    assert(board.grid()[t] == Some(reference_value(t, n)));
                }
            }
            assert(grid_no_conflict(board.grid(), n)) by {
                assert forall|i: int, j: int|
                    0 <= i < board.grid().len() && 0 <= j < board.grid().len() && i != j
                        && #[trigger] same_block(i, j, n) && board.grid()[i]
                        is Some implies board.grid()[i] != board.grid()[j] by {
                    lemma_reference_distinct(i, j, n);
                    assert(board.grid()[i] == Some(reference_value(i, n)));
                    assert(board.grid()[j] == Some(reference_value(j, n)));
                }
            }
        }
        board
    }
}


/// Extension is transitive.
pub proof fn lemma_extends_trans(a: Seq<Option<u8>>, b: Seq<Option<u8>>, c: Seq<Option<u8>>)
    requires
        grid_extends(a, b),
        grid_extends(b, c),
    ensures
        grid_extends(a, c),
{
}

/// A complete grid extending a board with one value placed still extends the
/// same placement on any sub-board.
pub proof fn lemma_extension_transport(
    sub: Seq<Option<u8>>,
    sup: Seq<Option<u8>>,
    g: Seq<Option<u8>>,
    j: int,
    v: u8,
)
    requires
        grid_extends(sub, sup),
        grid_extends(sup.update(j, Some(v)), g),
        0 <= j < sub.len(),
    ensures
        grid_extends(sub.update(j, Some(v)), g),
{
    assert forall|x: int|
        0 <= x < sub.len() && sub.update(j, Some(v))[x] is Some implies sub.update(j, Some(v))[x]
        == g[x] by {
        if x == j {
            assert(sup.update(j, Some(v))[x] == Some(v));
        } else {
            assert(sup.update(j, Some(v))[x] == sup[x]);
        }
    }
}

} // verus!
