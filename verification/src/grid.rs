//! The board as a two-dimensional `ndarray` array, together with the few
//! array operations the solver relies on.
//!
//! `ndarray`'s array type is generic over storage traits that the verifier
//! does not know, so the array lives in a private field of [`Grid`] and every
//! access goes through one of the small functions below. Their contracts are
//! stated over [`cells`] and are taken on trust; everything built on top of
//! them is proved.

use ndarray::Array2;
use vstd::prelude::*;

verus! {

/// A rectangular array of digits. On a Sudoku board `0` marks an empty cell
/// and `1..=9` a placed digit.
#[verifier::external_body]
pub struct Grid {
    array: Array2<u8>,
}

/// The contents of a grid, row by row: `cells(g)[r][c]` is the cell in row
/// `r` and column `c`.
pub uninterp spec fn cells(grid: Grid) -> Seq<Seq<u8>>;

impl View for Grid {
    type V = Seq<Seq<u8>>;

    open spec fn view(&self) -> Seq<Seq<u8>> {
        cells(*self)
    }
}

/// Every row of `g` has `cols` cells.
pub open spec fn is_rectangle(g: Seq<Seq<u8>>, rows: nat, cols: nat) -> bool {
    &&& g.len() == rows
    &&& forall|r: int| 0 <= r < rows ==> (#[trigger] g[r]).len() == cols
}

/// A `rows` x `cols` grid in which every cell holds `digit`.
pub open spec fn uniform(rows: nat, cols: nat, digit: u8) -> Seq<Seq<u8>> {
    Seq::new(rows, |r: int| Seq::new(cols, |c: int| digit))
}

/// `g` with the cell at (`row`, `col`) replaced by `digit`.
pub open spec fn with_cell(g: Seq<Seq<u8>>, row: int, col: int, digit: u8) -> Seq<Seq<u8>> {
    g.update(row, g[row].update(col, digit))
}

impl Grid {
    /// Calls `Array2::zeros((rows, cols))`: a fresh array of the given shape
    /// with `0` in every cell. `ndarray` panics when the product of the axis
    /// lengths that are not zero exceeds `isize::MAX`. With one axis of
    /// length zero that product is the other length alone, so the
    /// precondition bounds each length as well as the number of cells.
    #[verifier::external_body]
    pub(crate) fn zeros(rows: usize, cols: usize) -> (grid: Grid)
        requires
            rows <= isize::MAX,
            cols <= isize::MAX,
            rows * cols <= isize::MAX,
        ensures
            cells(grid) == uniform(rows as nat, cols as nat, 0),
    {
        Grid { array: Array2::zeros((rows, cols)) }
    }

    /// Calls `ArrayBase::dim`: the number of rows and the number of columns.
    #[verifier::external_body]
    pub(crate) fn dim(&self) -> (shape: (usize, usize))
        ensures
            is_rectangle(cells(*self), shape.0 as nat, shape.1 as nat),
    {
        self.array.dim()
    }

    /// Reads one cell through `ndarray`'s `Index<[usize; 2]>`, which panics
    /// on an index outside the array.
    #[verifier::external_body]
    pub(crate) fn get(&self, row: usize, col: usize) -> (digit: u8)
        requires
            row < cells(*self).len(),
            col < cells(*self)[row as int].len(),
        ensures
            digit == cells(*self)[row as int][col as int],
    {
        self.array[[row, col]]
    }

    /// Writes one cell through `ndarray`'s `IndexMut<[usize; 2]>`, which
    /// panics on an index outside the array. No other cell changes.
    #[verifier::external_body]
    pub(crate) fn put(&mut self, row: usize, col: usize, digit: u8)
        requires
            row < cells(*old(self)).len(),
            col < cells(*old(self))[row as int].len(),
        ensures
            cells(*final(self)) == with_cell(cells(*old(self)), row as int, col as int, digit),
    {
        self.array[[row, col]] = digit;
    }
}

impl Clone for Grid {
    /// Calls `ArrayBase::clone`: an independent array with the same shape and
    /// the same contents.
    #[verifier::external_body]
    fn clone(&self) -> (copy: Grid)
        ensures
            cells(copy) == cells(*self),
    {
        Grid { array: self.array.clone() }
    }
}

/// The rows of a nested vector, each as a sequence.
pub open spec fn rows_of(rows: Seq<Vec<u8>>) -> Seq<Seq<u8>> {
    Seq::new(rows.len(), |r: int| rows[r]@)
}

impl Grid {
    /// An empty 9x9 board.
    pub fn blank() -> (grid: Grid)
        ensures
            grid@ == uniform(9, 9, 0),
            is_rectangle(grid@, 9, 9),
    {
        Grid::zeros(9, 9)
    }

    /// Whether the grid has the shape of a board: nine rows of nine cells.
    pub fn is_board_shaped(&self) -> (yes: bool)
        ensures
            yes == is_rectangle(self@, 9, 9),
    {
        let shape = self.dim();
        assert(shape.0 == 9 && shape.1 != 9 ==> self@[0].len() != 9);
        shape.0 == 9 && shape.1 == 9
    }

    /// Builds a board from nine rows of nine cells, and nothing from
    /// anything else.
    pub fn from_rows(rows: &Vec<Vec<u8>>) -> (grid: Option<Grid>)
        ensures
            grid is Some <==> is_rectangle(rows_of(rows@), 9, 9),
            grid matches Some(g) ==> g@ == rows_of(rows@),
    {
        if rows.len() != 9 {
            return None;
        }
        let mut grid = Grid::blank();
        let mut r: usize = 0;
        while r < 9
            invariant
                rows@.len() == 9,
                r <= 9,
                is_rectangle(grid@, 9, 9),
                forall|i: int| 0 <= i < r ==> (#[trigger] rows@[i])@.len() == 9,
                forall|i: int| 0 <= i < r ==> #[trigger] grid@[i] == rows@[i]@,
            decreases 9 - r,
        {
            if rows[r].len() != 9 {
                assert(rows_of(rows@)[r as int].len() != 9);
                return None;
            }
            let mut c: usize = 0;
            while c < 9
                invariant
                    rows@.len() == 9,
                    r < 9,
                    c <= 9,
                    rows@[r as int]@.len() == 9,
                    is_rectangle(grid@, 9, 9),
                    forall|i: int| 0 <= i < r ==> #[trigger] grid@[i] == rows@[i]@,
                    forall|j: int| 0 <= j < c ==> #[trigger] grid@[r as int][j] == rows@[r as int]@[j],
                decreases 9 - c,
            {
                grid.put(r, c, rows[r][c]);
                c = c + 1;
            }
            assert(grid@[r as int] =~= rows@[r as int]@);
            r = r + 1;
        }
        assert(grid@ =~= rows_of(rows@));
        assert forall|i: int| 0 <= i < 9 implies (#[trigger] rows_of(rows@)[i]).len() == 9 by {
            assert(rows@[i]@.len() == 9);
        }
        Some(grid)
    }

    /// The cells of the grid as nested vectors, row by row.
    pub fn to_rows(&self) -> (rows: Vec<Vec<u8>>)
        ensures
            rows_of(rows@) == self@,
    {
        let shape = self.dim();
        let mut rows: Vec<Vec<u8>> = Vec::new();
        let mut r: usize = 0;
        while r < shape.0
            invariant
                is_rectangle(self@, shape.0 as nat, shape.1 as nat),
                r <= shape.0,
                rows@.len() == r,
                forall|i: int| 0 <= i < r ==> (#[trigger] rows@[i])@ == self@[i],
            decreases shape.0 - r,
        {
            let mut row: Vec<u8> = Vec::new();
            let mut c: usize = 0;
            while c < shape.1
                invariant
                    is_rectangle(self@, shape.0 as nat, shape.1 as nat),
                    r < shape.0,
                    c <= shape.1,
                    row@ == self@[r as int].take(c as int),
                decreases shape.1 - c,
            {
                row.push(self.get(r, c));
                c = c + 1;
            }
            assert(self@[r as int].take(shape.1 as int) =~= self@[r as int]);
            rows.push(row);
            r = r + 1;
        }
        assert(rows_of(rows@) =~= self@);
        rows
    }
}

} // verus!
