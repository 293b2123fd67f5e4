use vstd::prelude::*;

verus! {

/// Row of a linear cell index (cells are numbered row-major, `index = row*9 + col`).
pub open spec fn row_of(i: int) -> int {
    i / 9
}

/// Column of a linear cell index.
pub open spec fn col_of(i: int) -> int {
    i % 9
}

/// Linear cell index of a (row, col) pair.
pub open spec fn cell_index(r: int, c: int) -> int {
    r * 9 + c
}

/// Two distinct cells constrain each other when they share a row, a column,
/// or a 3x3 box (boxes start at rows/columns 0, 3, 6).
pub open spec fn same_unit(i: int, j: int) -> bool {
    ||| row_of(i) == row_of(j)
    ||| col_of(i) == col_of(j)
    ||| (row_of(i) / 3 == row_of(j) / 3 && col_of(i) / 3 == col_of(j) / 3)
}

/// A well-formed grid value: 81 cells, each holding a digit 0..9 (0 = empty).
pub open spec fn grid_wf(g: Seq<u8>) -> bool {
    &&& g.len() == 81
    &&& forall|i: int| 0 <= i < 81 ==> g[i] <= 9
}

/// Every cell holds a nonzero digit.
pub open spec fn full(g: Seq<u8>) -> bool {
    forall|i: int| 0 <= i < 81 ==> g[i] != 0
}

/// No two distinct cells of the same row, column or box hold the same nonzero digit.
pub open spec fn consistent(g: Seq<u8>) -> bool {
    forall|i: int, j: int|
        0 <= i < 81 && 0 <= j < 81 && i != j && same_unit(i, j) && #[trigger] g[i] != 0
            && #[trigger] g[j] != 0 ==> g[i] != g[j]
}

/// Number of empty cells among the first `n` cells.
pub open spec fn blanks_upto(g: Seq<u8>, n: int) -> int
    decreases n,
{
    if n <= 0 {
        0
    } else {
        blanks_upto(g, n - 1) + if g[n - 1] == 0 {
            1int
        } else {
            0int
        }
    }
}

/// Number of empty cells of the whole grid.
pub open spec fn num_blanks(g: Seq<u8>) -> int {
    blanks_upto(g, 81)
}

/// A grid with no empty cell has no blanks among its first `n` cells.
pub proof fn lemma_blanks_full(g: Seq<u8>, n: int)
    requires
        g.len() == 81,
        full(g),
        0 <= n <= 81,
    ensures
        blanks_upto(g, n) == 0,
    decreases n,
{
    if n > 0 {
        lemma_blanks_full(g, n - 1);
        assert(g[n - 1] != 0);
    }
}

/// Emptying one filled cell raises the blank count of every prefix that
/// covers it by exactly one.
pub proof fn lemma_blanks_update_zero(g: Seq<u8>, c: int, n: int)
    requires
        g.len() == 81,
        0 <= c < 81,
        g[c] != 0,
        0 <= n <= 81,
    ensures
        blanks_upto(g.update(c, 0), n) == blanks_upto(g, n) + if c < n {
            1int
        } else {
            0int
        },
    decreases n,
{
    let gu = g.update(c, 0);
    if n > 0 {
        lemma_blanks_update_zero(g, c, n - 1);
        if n - 1 == c {
            assert(gu[n - 1] == 0);
        } else {
            assert(gu[n - 1] == g[n - 1]);
        }
    }
}

/// A 9x9 Sudoku grid, stored row-major; cell values are 0..9 with 0 meaning empty.
pub struct Sudoku {
    cells: Vec<u8>,
}

impl View for Sudoku {
    type V = Seq<u8>;

    closed spec fn view(&self) -> Seq<u8> {
        self.cells@
    }
}

impl Sudoku {
    /// The grid invariant: 81 cells, each in 0..9.
    pub open spec fn wf(&self) -> bool {
        grid_wf(self@)
    }

    /// A fresh grid with every cell empty.
    pub fn new() -> (s: Sudoku)
        ensures
            s.wf(),
            s@.len() == 81,
            forall|i: int| 0 <= i < 81 ==> s@[i] == 0,
    {
        Sudoku { cells: vec![0u8; 81] }
    }

    /// Builds a grid from 81 row-major cell values; rejects wrong lengths and
    /// values outside 0..9.
    pub fn from_values(values: Vec<u8>) -> (r: Option<Sudoku>)
        ensures
            r is Some <==> grid_wf(values@),
            r matches Some(s) ==> s@ == values@ && s.wf(),
    {
        if values.len() != 81 {
            return None;
        }
        let mut i: usize = 0;
        while i < 81
            invariant
                i <= 81,
                values@.len() == 81,
                forall|k: int| 0 <= k < i ==> values@[k] <= 9,
            decreases 81 - i,
        {
            if values[i] > 9 {
                return None;
            }
            i += 1;
        }
        Some(Sudoku { cells: values })
    }

    /// Reads the cell at (row, col).
    pub fn get(&self, row: u8, col: u8) -> (v: u8)
        requires
            self.wf(),
            row < 9,
            col < 9,
        ensures
            v == self@[cell_index(row as int, col as int)],
            v <= 9,
    {
        self.cells[(row * 9 + col) as usize]
    }

    /// Sets the given number in the given cell.
    pub fn set_element(&mut self, row: u8, col: u8, num: u8)
        requires
            old(self).wf(),
            row < 9,
            col < 9,
            num <= 9,
        ensures
            final(self)@ == old(self)@.update(cell_index(row as int, col as int), num),
            final(self).wf(),
    {
        self.cells[(row * 9 + col) as usize] = num;
    }

    /// A copy of the 81 row-major cell values.
    pub fn values(&self) -> (v: Vec<u8>)
        ensures
            v@ == self@,
    {
        self.cells.clone()
    }

    /// An independent copy of the grid.
    pub fn duplicate(&self) -> (s: Sudoku)
        ensures
            s@ == self@,
    {
        Sudoku { cells: self.cells.clone() }
    }
}

} // verus!
