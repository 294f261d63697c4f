//! Reading a dense matrix of characters from text: one row per line, as many
//! columns as the first line has bytes.

use vstd::prelude::*;

use crate::grid::{cell_index, lemma_cell_index, lemma_cell_index_injective, Grid};
use crate::text::{split, trim, trimmed_lines, utf8_byte_len, utf8_len, views};

verus! {

/// The lines of a matrix's text.
pub open spec fn map_lines(text: Seq<char>) -> Seq<Seq<char>> {
    split(trim(text), '\n')
}

/// The text is a matrix `read_matrix` can read: every line holds at least as many
/// characters as the first line has bytes, and the cell count fits in an `i32`.
pub open spec fn map_text_ok(text: Seq<char>) -> bool {
    let ls = map_lines(text);
    &&& ls.len() * utf8_len(ls[0]) <= i32::MAX
    &&& ls.len() <= i32::MAX
    &&& utf8_len(ls[0]) <= i32::MAX
    &&& forall|r: int| 0 <= r < ls.len() ==> (#[trigger] ls[r]).len() >= utf8_len(ls[0])
}

/// Reads the characters of `input` into a grid: row `r`, column `c` holds the
/// `c`-th character of the `r`-th line of the trimmed text.
pub fn read_matrix(input: &str) -> (r: Grid<char>)
    requires
        map_text_ok(input@),
    ensures
        r.wf(),
        r.spec_nrows() == map_lines(input@).len(),
        r.spec_ncols() == utf8_len(map_lines(input@)[0]),
        forall|row: int, col: int|
            r.in_bounds(row, col) ==> #[trigger] r.cell(row, col) == map_lines(input@)[row][col],
{
    let lines = trimmed_lines(input);
    let ghost ls = map_lines(input@);
    let nrow = lines.len();
    assert(lines@[0]@ == ls[0]);
    let ncol = utf8_byte_len(lines[0].as_slice());
    let mut grid: Grid<char> = Grid::new_usize(nrow, ncol);
    for row in 0..nrow
        invariant
            nrow == lines@.len(),
            views(lines@) == ls,
            ls == map_lines(input@),
            ncol == utf8_len(ls[0]),
            forall|r: int| 0 <= r < ls.len() ==> (#[trigger] ls[r]).len() >= utf8_len(ls[0]),
            grid.wf(),
            grid.spec_nrows() == nrow,
            grid.spec_ncols() == ncol,
            forall|r2: int, c2: int|
                grid.in_bounds(r2, c2) && r2 < row ==> #[trigger] grid.cell(r2, c2) == ls[r2][c2],
    {
        let line = &lines[row];
        assert(line@ == ls[row as int]);
        for col in 0..ncol
            invariant
                nrow == lines@.len(),
                views(lines@) == ls,
                row < nrow,
                line@ == ls[row as int],
                ncol <= line@.len(),
                grid.wf(),
                grid.spec_nrows() == nrow,
                grid.spec_ncols() == ncol,
                forall|r2: int, c2: int|
                    grid.in_bounds(r2, c2) && (r2 < row || (r2 == row && c2 < col))
                        ==> #[trigger] grid.cell(r2, c2) == ls[r2][c2],
        {
            let ghost before = grid;
            proof {
                lemma_cell_index(nrow as int, ncol as int, row as int, col as int);
            }
            *grid.at_usize_mut(row, col) = line[col];
            assert forall|r2: int, c2: int|
                grid.in_bounds(r2, c2) && (r2 < row || (r2 == row && c2 < col + 1))
                    implies #[trigger] grid.cell(r2, c2) == ls[r2][c2] by {
                lemma_cell_index(nrow as int, ncol as int, r2, c2);
                if !(r2 == row && c2 == col) {
                    if cell_index(ncol as int, r2, c2) == cell_index(ncol as int, row as int, col as int) {
                        lemma_cell_index_injective(ncol as int, r2, c2, row as int, col as int);
                    }
                    assert(grid.cell(r2, c2) == before.cell(r2, c2));
                }
            }
        }
    }
    grid
}

} // verus!
