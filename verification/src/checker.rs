use vstd::prelude::*;
use crate::board::{cell_index, col_of, grid_wf, row_of, same_unit, Sudoku};

verus! {

/// The digit `d` occurs nowhere in row `r`, nowhere in column `c`, and nowhere
/// in the 3x3 box containing `(r, c)`: placing it at `(r, c)` breaks no
/// uniqueness constraint.
pub open spec fn digit_ok(g: Seq<u8>, r: int, c: int, d: u8) -> bool {
    &&& forall|k: int| 0 <= k < 9 ==> g[cell_index(r, k)] != d
    &&& forall|k: int| 0 <= k < 9 ==> g[cell_index(k, c)] != d
    &&& forall|k: int, l: int|
        3 * (r / 3) <= k < 3 * (r / 3) + 3 && 3 * (c / 3) <= l < 3 * (c / 3) + 3 ==> g[cell_index(
            k,
            l,
        )] != d
}

/// Every linear index below 81 decodes to a row and a column below 9, and the
/// decoding inverts `cell_index`.
pub proof fn lemma_index_decode(i: int)
    requires
        0 <= i < 81,
    ensures
        0 <= row_of(i) < 9,
        0 <= col_of(i) < 9,
        cell_index(row_of(i), col_of(i)) == i,
{
}

/// `cell_index` places `(r, c)` in row `r` and column `c`.
pub proof fn lemma_cell_index_decode(r: int, c: int)
    requires
        0 <= r < 9,
        0 <= c < 9,
    ensures
        0 <= cell_index(r, c) < 81,
        row_of(cell_index(r, c)) == r,
        col_of(cell_index(r, c)) == c,
{
}

/// When `digit_ok` holds at `(r, c)`, no cell sharing a row, column or box
/// with `(r, c)` holds the digit.
pub proof fn lemma_digit_ok_covers_unit(g: Seq<u8>, r: int, c: int, d: u8, j: int)
    requires
        0 <= r < 9,
        0 <= c < 9,
        0 <= j < 81,
        digit_ok(g, r, c, d),
        same_unit(j, cell_index(r, c)),
    ensures
        g[j] != d,
{
    let i = cell_index(r, c);
    lemma_cell_index_decode(r, c);
    lemma_index_decode(j);
    if row_of(j) == row_of(i) {
        assert(g[cell_index(r, col_of(j))] != d);
    } else if col_of(j) == col_of(i) {
        assert(g[cell_index(row_of(j), c)] != d);
    } else {
        assert(g[cell_index(row_of(j), col_of(j))] != d);
    }
}

/// When `digit_ok` fails at `(r, c)`, some cell sharing a row, column or box
/// with `(r, c)` (possibly `(r, c)` itself) already holds the digit.
pub proof fn lemma_digit_blocked_witness(g: Seq<u8>, r: int, c: int, d: u8) -> (j: int)
    requires
        0 <= r < 9,
        0 <= c < 9,
        !digit_ok(g, r, c, d),
    ensures
        0 <= j < 81,
        g[j] == d,
        j == cell_index(r, c) || same_unit(j, cell_index(r, c)),
{
    let i = cell_index(r, c);
    lemma_cell_index_decode(r, c);
    if exists|k: int| 0 <= k < 9 && g[cell_index(r, k)] == d {
        let k = choose|k: int| 0 <= k < 9 && g[cell_index(r, k)] == d;
        lemma_cell_index_decode(r, k);
        cell_index(r, k)
    } else if exists|k: int| 0 <= k < 9 && g[cell_index(k, c)] == d {
        let k = choose|k: int| 0 <= k < 9 && g[cell_index(k, c)] == d;
        lemma_cell_index_decode(k, c);
        cell_index(k, c)
    } else {
        let (k, l) = choose|k: int, l: int|
            3 * (r / 3) <= k < 3 * (r / 3) + 3 && 3 * (c / 3) <= l < 3 * (c / 3) + 3 && g[cell_index(
                k,
                l,
            )] == d;
        lemma_cell_index_decode(k, l);
        cell_index(k, l)
    }
}

/// Checks if the given number is valid in the given cell: true exactly when
/// the digit occurs nowhere in the cell's row, column, or 3x3 box.
pub fn check_validity(grid: &Sudoku, row: u8, col: u8, num: u8) -> (r: bool)
    requires
        grid.wf(),
        row < 9,
        col < 9,
        1 <= num <= 9,
    ensures
        r == digit_ok(grid@, row as int, col as int, num),
{
    // Check row
    let mut i: u8 = 0;
    while i < 9
        invariant
            grid.wf(),
            row < 9,
            col < 9,
            i <= 9,
            forall|k: int| 0 <= k < i ==> grid@[cell_index(row as int, k)] != num,
        decreases 9 - i,
    {
        if grid.get(row, i) == num {
            return false;
        }
        i += 1;
    }
    // Check column
    let mut i: u8 = 0;
    while i < 9
        invariant
            grid.wf(),
            row < 9,
            col < 9,
            i <= 9,
            forall|k: int| 0 <= k < i ==> grid@[cell_index(k, col as int)] != num,
        decreases 9 - i,
    {
        if grid.get(i, col) == num {
            return false;
        }
        i += 1;
    }
    // Check box
    let box_row = row - row % 3;
    let box_col = col - col % 3;
    let mut i: u8 = 0;
    while i < 3
        invariant
            grid.wf(),
            row < 9,
            col < 9,
            box_row == 3 * (row as int / 3),
            box_col == 3 * (col as int / 3),
            i <= 3,
            forall|k: int, l: int|
                box_row <= k < box_row + i && box_col <= l < box_col + 3 ==> grid@[cell_index(
                    k,
                    l,
                )] != num,
        decreases 3 - i,
    {
        let mut j: u8 = 0;
        while j < 3
            invariant
                grid.wf(),
                row < 9,
                col < 9,
                box_row == 3 * (row as int / 3),
                box_col == 3 * (col as int / 3),
                i < 3,
                j <= 3,
                forall|k: int, l: int|
                    box_row <= k <= box_row + i && box_col <= l < box_col + 3 && (k < box_row + i
                        || l < box_col + j) ==> grid@[cell_index(k, l)] != num,
            decreases 3 - j,
        {
            if grid.get(box_row + i, box_col + j) == num {
                return false;
            }
            j += 1;
        }
        i += 1;
    }
    true
}

} // verus!
