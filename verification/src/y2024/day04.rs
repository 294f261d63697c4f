//! A word search: "XMAS" in any of eight orientations, and crossed "MAS" pairs.

use vstd::prelude::*;

use crate::grid::Grid;
use crate::text::utf8_len;
use crate::y2024::matrix::{map_lines, map_text_ok, read_matrix};

verus! {

/// Reads the letters of the puzzle.
pub fn parse(input: &str) -> (r: Grid<char>)
    requires
        map_text_ok(input@),
    ensures
        r.wf(),
        r.spec_nrows() == map_lines(input@).len(),
        r.spec_ncols() == utf8_len(map_lines(input@)[0]),
        forall|row: int, col: int|
            r.in_bounds(row, col) ==> #[trigger] r.cell(row, col) == map_lines(input@)[row][col],
{
    read_matrix(input)
}

/// The eight orientations, in the order the search tries them.
pub open spec fn orientation(k: int) -> (int, int) {
    if k == 0 {
        (-1, -1)
    } else if k == 1 {
        (-1, 0)
    } else if k == 2 {
        (-1, 1)
    } else if k == 3 {
        (0, -1)
    } else if k == 4 {
        (0, 1)
    } else if k == 5 {
        (1, -1)
    } else if k == 6 {
        (1, 0)
    } else {
        (1, 1)
    }
}

/// "XMAS" reads from (row, col) in direction `d`, all four letters on the grid.
pub open spec fn xmas_at(g: Grid<char>, row: int, col: int, d: (int, int)) -> bool {
    &&& forall|i: int| 0 <= i < 4 ==> #[trigger] g.in_bounds(row + i * d.0, col + i * d.1)
    &&& g.cell(row, col) == 'X'
    &&& g.cell(row + d.0, col + d.1) == 'M'
    &&& g.cell(row + 2 * d.0, col + 2 * d.1) == 'A'
    &&& g.cell(row + 3 * d.0, col + 3 * d.1) == 'S'
}

/// Number of the first `k` orientations in which "XMAS" reads from (row, col).
pub open spec fn xmas_cell(g: Grid<char>, row: int, col: int, k: int) -> int
    decreases k,
{
    if k <= 0 {
        0
    } else {
        xmas_cell(g, row, col, k - 1) + if xmas_at(g, row, col, orientation(k - 1)) {
            1int
        } else {
            0int
        }
    }
}

/// Number of "XMAS" readings that start in row `row` before column `col`.
pub open spec fn xmas_row(g: Grid<char>, row: int, col: int) -> int
    decreases col,
{
    if col <= 0 {
        0
    } else {
        xmas_row(g, row, col - 1) + xmas_cell(g, row, col - 1, 8)
    }
}

/// Number of "XMAS" readings that start before row `row`.
pub open spec fn xmas_total(g: Grid<char>, row: int) -> int
    decreases row,
{
    if row <= 0 {
        0
    } else {
        xmas_total(g, row - 1) + xmas_row(g, row - 1, g.spec_ncols() as int)
    }
}

proof fn lemma_xmas_cell_bounds(g: Grid<char>, row: int, col: int, k: int)
    requires
        0 <= k,
    ensures
        0 <= xmas_cell(g, row, col, k) <= k,
    decreases k,
{
    if k > 0 {
        lemma_xmas_cell_bounds(g, row, col, k - 1);
    }
}

proof fn lemma_xmas_row_nonneg(g: Grid<char>, row: int, c: int)
    ensures
        0 <= xmas_row(g, row, c),
    decreases c,
{
    if c > 0 {
        lemma_xmas_row_nonneg(g, row, c - 1);
        lemma_xmas_cell_bounds(g, row, c - 1, 8);
    }
}

proof fn lemma_xmas_row_mono(g: Grid<char>, row: int, c1: int, c2: int)
    requires
        0 <= c1 <= c2,
    ensures
        0 <= xmas_row(g, row, c1) <= xmas_row(g, row, c2),
    decreases c2,
{
    lemma_xmas_row_nonneg(g, row, c1);
    if c2 > c1 {
        lemma_xmas_row_mono(g, row, c1, c2 - 1);
        lemma_xmas_cell_bounds(g, row, c2 - 1, 8);
    }
}

proof fn lemma_xmas_total_nonneg(g: Grid<char>, r: int)
    ensures
        0 <= xmas_total(g, r),
    decreases r,
{
    if r > 0 {
        lemma_xmas_total_nonneg(g, r - 1);
        lemma_xmas_row_nonneg(g, r - 1, g.spec_ncols() as int);
    }
}

proof fn lemma_xmas_total_mono(g: Grid<char>, r1: int, r2: int)
    requires
        0 <= r1 <= r2,
    ensures
        0 <= xmas_total(g, r1) <= xmas_total(g, r2),
    decreases r2,
{
    lemma_xmas_total_nonneg(g, r1);
    if r2 > r1 {
        lemma_xmas_total_mono(g, r1, r2 - 1);
        lemma_xmas_row_nonneg(g, r2 - 1, g.spec_ncols() as int);
    }
}

/// The orientation with index `k`.
fn orientation_exec(k: usize) -> (r: (i32, i32))
    requires
        k < 8,
    ensures
        r.0 == orientation(k as int).0,
        r.1 == orientation(k as int).1,
{
    let orientations: [(i32, i32); 8] = [
        (-1i32, -1),
        (-1, 0),
        (-1, 1),
        (0, -1),
        (0, 1),
        (1, -1),
        (1, 0),
        (1, 1),
    ];
    orientations[k]
}

/// Whether "XMAS" reads from (start_row, start_col) in direction `delta`.
fn reads_xmas(data: &Grid<char>, start_row: i32, start_col: i32, delta: (i32, i32)) -> (r: bool)
    requires
        data.wf(),
        data.in_bounds(start_row as int, start_col as int),
        data.spec_nrows() <= i32::MAX,
        data.spec_ncols() <= i32::MAX,
        -1 <= delta.0 <= 1,
        -1 <= delta.1 <= 1,
    ensures
        r == xmas_at(*data, start_row as int, start_col as int, (delta.0 as int, delta.1 as int)),
{
    let nrows = data.nrows() as i32;
    let ncols = data.ncols() as i32;
    let ghost d = (delta.0 as int, delta.1 as int);
    let mut row = start_row;
    let mut col = start_col;
    let mut word: Vec<char> = Vec::new();
    word.push(*data.at_i32(row, col));
    let mut i: usize = 0;
    while i < 3
        invariant
            data.wf(),
            nrows == data.spec_nrows(),
            ncols == data.spec_ncols(),
            i <= 3,
            row == start_row + i * d.0,
            col == start_col + i * d.1,
            d == (delta.0 as int, delta.1 as int),
            -1 <= delta.0 <= 1,
            -1 <= delta.1 <= 1,
            word@.len() == i + 1,
            forall|j: int| 0 <= j <= i ==> #[trigger] data.in_bounds(start_row + j * d.0, start_col + j * d.1),
            forall|j: int| 0 <= j <= i ==> #[trigger] word@[j] == data.cell(start_row + j * d.0, start_col + j * d.1),
        decreases 3 - i,
    {
        assert(data.in_bounds(start_row + i * d.0, start_col + i * d.1));
        assert((i + 1) * d.0 == i * d.0 + d.0 && (i + 1) * d.1 == i * d.1 + d.1) by (nonlinear_arith);
        row = row + delta.0;
        col = col + delta.1;
        if row < 0 || nrows <= row || col < 0 || ncols <= col {
            assert(!data.in_bounds(start_row + (i + 1) * d.0, start_col + (i + 1) * d.1));
            return false;
        }
        word.push(*data.at_i32(row, col));
        i = i + 1;
    }
    assert(start_row + 2 * d.0 == start_row + 2 * d.0);
    let r = word[0] == 'X' && word[1] == 'M' && word[2] == 'A' && word[3] == 'S';
    assert(word@[1] == data.cell(start_row + 1 * d.0, start_col + 1 * d.1));
    assert(word@[0] == data.cell(start_row + 0 * d.0, start_col + 0 * d.1));
    assert(data.in_bounds(start_row + 0 * d.0, start_col + 0 * d.1));
    r
}

/// Counts the "XMAS" readings in all orientations from every cell.
pub fn part1(data: &Grid<char>) -> (r: i32)
    requires
        data.wf(),
        data.spec_nrows() <= i32::MAX,
        data.spec_ncols() <= i32::MAX,
        xmas_total(*data, data.spec_nrows() as int) <= i32::MAX,
    ensures
        r == xmas_total(*data, data.spec_nrows() as int),
{
    let nrows = data.nrows() as i32;
    let ncols = data.ncols() as i32;
    let ghost total = xmas_total(*data, nrows as int);
    let mut num_xmas: i32 = 0;
    let mut start_row: i32 = 0;
    while start_row < nrows
        invariant
            data.wf(),
            nrows == data.spec_nrows(),
            ncols == data.spec_ncols(),
            0 <= start_row <= nrows,
            total == xmas_total(*data, nrows as int),
            total <= i32::MAX,
            num_xmas == xmas_total(*data, start_row as int),
        decreases nrows - start_row,
    {
        let mut start_col: i32 = 0;
        proof {
            lemma_xmas_total_mono(*data, start_row + 1, nrows as int);
        }
        while start_col < ncols
            invariant
                data.wf(),
                nrows == data.spec_nrows(),
                ncols == data.spec_ncols(),
                0 <= start_row < nrows,
                0 <= start_col <= ncols,
                xmas_total(*data, start_row + 1) <= i32::MAX,
                num_xmas == xmas_total(*data, start_row as int) + xmas_row(
                    *data,
                    start_row as int,
                    start_col as int,
                ),
            decreases ncols - start_col,
        {
            proof {
                lemma_xmas_row_mono(*data, start_row as int, start_col + 1, ncols as int);
                lemma_xmas_total_mono(*data, 0, start_row as int);
            }
            let mut k: usize = 0;
            while k < 8
                invariant
                    data.wf(),
                    nrows == data.spec_nrows(),
                    ncols == data.spec_ncols(),
                    0 <= start_row < nrows,
                    0 <= start_col < ncols,
                    k <= 8,
                    xmas_total(*data, start_row as int) + xmas_row(*data, start_row as int, start_col + 1)
                        <= i32::MAX,
                    num_xmas == xmas_total(*data, start_row as int) + xmas_row(
                        *data,
                        start_row as int,
                        start_col as int,
                    ) + xmas_cell(*data, start_row as int, start_col as int, k as int),
                decreases 8 - k,
            {
                proof {
                    lemma_xmas_cell_bounds(*data, start_row as int, start_col as int, k + 1);
                    lemma_xmas_cell_mono(*data, start_row as int, start_col as int, k + 1, 8);
                    lemma_xmas_row_mono(*data, start_row as int, 0, start_col as int);
                    lemma_xmas_total_mono(*data, 0, start_row as int);
                }
                let delta = orientation_exec(k);
                if reads_xmas(data, start_row, start_col, delta) {
                    num_xmas += 1;
                }
                k = k + 1;
            }
            start_col = start_col + 1;
        }
        start_row = start_row + 1;
    }
    num_xmas
}

proof fn lemma_xmas_cell_mono(g: Grid<char>, row: int, col: int, k1: int, k2: int)
    requires
        0 <= k1 <= k2,
    ensures
        xmas_cell(g, row, col, k1) <= xmas_cell(g, row, col, k2),
    decreases k2,
{
    if k2 > k1 {
        lemma_xmas_cell_mono(g, row, col, k1, k2 - 1);
    }
}

/// The two letters at the ends of a diagonal form "MS" or "SM".
pub open spec fn ms_pair(a: char, b: char) -> bool {
    (a == 'M' && b == 'S') || (a == 'S' && b == 'M')
}

/// (row, col) holds an 'A' with "MAS" crossing it along both diagonals.
pub open spec fn x_mas_at(g: Grid<char>, row: int, col: int) -> bool {
    &&& g.cell(row, col) == 'A'
    &&& ms_pair(g.cell(row - 1, col - 1), g.cell(row + 1, col + 1))
    &&& ms_pair(g.cell(row - 1, col + 1), g.cell(row + 1, col - 1))
}

/// Number of crossed "MAS" centres in row `row` at columns 1 up to `col` (exclusive).
pub open spec fn x_mas_row(g: Grid<char>, row: int, col: int) -> int
    decreases col,
{
    if col <= 1 {
        0
    } else {
        x_mas_row(g, row, col - 1) + if x_mas_at(g, row, col - 1) {
            1int
        } else {
            0int
        }
    }
}

/// Number of crossed "MAS" centres in rows 1 up to `row` (exclusive), away from the border.
pub open spec fn x_mas_total(g: Grid<char>, row: int) -> int
    decreases row,
{
    if row <= 1 {
        0
    } else {
        x_mas_total(g, row - 1) + x_mas_row(g, row - 1, g.spec_ncols() - 1)
    }
}

proof fn lemma_x_mas_row_le(g: Grid<char>, row: int, col: int)
    ensures
        0 <= x_mas_row(g, row, col) <= if col < 1 {
            0
        } else {
            col - 1
        },
    decreases col,
{
    if col > 1 {
        lemma_x_mas_row_le(g, row, col - 1);
    }
}

proof fn lemma_x_mas_total_le(g: Grid<char>, row: int)
    requires
        g.spec_ncols() >= 1,
    ensures
        0 <= x_mas_total(g, row) <= if row < 1 {
            0
        } else {
            (row - 1) * g.spec_ncols()
        },
    decreases row,
{
    if row > 1 {
        lemma_x_mas_total_le(g, row - 1);
        lemma_x_mas_row_le(g, row - 1, g.spec_ncols() - 1);
        assert((row - 2) * g.spec_ncols() + g.spec_ncols() == (row - 1) * g.spec_ncols()) by (nonlinear_arith);
    }
}

/// Counts the cells away from the border where "MAS" crosses itself.
pub fn part2(data: &Grid<char>) -> (r: i32)
    requires
        data.wf(),
        data.spec_nrows() >= 1,
        data.spec_ncols() >= 1,
        data.spec_nrows() * data.spec_ncols() <= i32::MAX,
    ensures
        r == x_mas_total(*data, data.spec_nrows() - 1),
{
    let nrows = data.nrows();
    let ncols = data.ncols();
    let mut count: i32 = 0;
    let mut row: u32 = 1;
    while row < nrows - 1
        invariant
            data.wf(),
            nrows == data.spec_nrows(),
            ncols == data.spec_ncols(),
            nrows >= 1,
            ncols >= 1,
            nrows * ncols <= i32::MAX,
            1 <= row <= if nrows >= 1 {
                if nrows - 1 >= 1 {
                    nrows - 1
                } else {
                    1
                }
            } else {
                1
            },
            count == x_mas_total(*data, row as int),
        decreases nrows - row,
    {
        proof {
            lemma_x_mas_total_le(*data, row + 1);
            assert(row * ncols <= nrows * ncols) by (nonlinear_arith)
                requires
                    row <= nrows,
            ;
        }
        let mut col: u32 = 1;
        while col < ncols - 1
            invariant
                data.wf(),
                nrows == data.spec_nrows(),
                ncols == data.spec_ncols(),
                1 <= row < nrows - 1,
                ncols >= 1,
                1 <= col <= if ncols - 1 >= 1 {
                    ncols - 1
                } else {
                    1
                },
                x_mas_total(*data, row + 1) <= i32::MAX,
                count == x_mas_total(*data, row as int) + x_mas_row(*data, row as int, col as int),
            decreases ncols - col,
        {
            proof {
                lemma_x_mas_row_le(*data, row as int, col + 1);
                lemma_x_mas_row_mono(*data, row as int, col + 1, ncols - 1);
            }
            if *data.at_u32(row, col) == 'A' {
                let a = *data.at_u32(row - 1, col - 1);
                let b = *data.at_u32(row + 1, col + 1);
                let c = *data.at_u32(row - 1, col + 1);
                let d = *data.at_u32(row + 1, col - 1);
                let x1 = (a == 'M' && b == 'S') || (a == 'S' && b == 'M');
                let x2 = (c == 'M' && d == 'S') || (c == 'S' && d == 'M');
                if x1 && x2 {
                    count += 1;
                }
            }
            col = col + 1;
        }
        row = row + 1;
    }
    count
}

proof fn lemma_x_mas_row_mono(g: Grid<char>, row: int, c1: int, c2: int)
    requires
        c1 <= c2,
    ensures
        x_mas_row(g, row, c1) <= x_mas_row(g, row, c2),
    decreases c2 - c1,
{
    if c1 < c2 {
        lemma_x_mas_row_mono(g, row, c1, c2 - 1);
    }
}

/// The eight orientations are the eight steps to a neighbouring cell, each
/// once: every step `(dr, dc)` with both parts in `-1..=1`, not both zero.
pub proof fn lemma_orientations_are_neighbours()
    ensures
        forall|k: int|
            0 <= k < 8 ==> -1 <= (#[trigger] orientation(k)).0 <= 1 && -1 <= orientation(k).1 <= 1
                && orientation(k) != (0int, 0int),
        forall|k1: int, k2: int|
            0 <= k1 < 8 && 0 <= k2 < 8 && k1 != k2 ==> #[trigger] orientation(k1) != #[trigger] orientation(k2),
        Set::new(|d: (int, int)| exists|k: int| 0 <= k < 8 && #[trigger] orientation(k) == d) =~= Set::new(
            |d: (int, int)| -1 <= d.0 <= 1 && -1 <= d.1 <= 1 && d != (0int, 0int),
        ),
{
    let steps = Set::new(|d: (int, int)| -1 <= d.0 <= 1 && -1 <= d.1 <= 1 && d != (0int, 0int));
    let found = Set::new(|d: (int, int)| exists|k: int| 0 <= k < 8 && #[trigger] orientation(k) == d);
    assert forall|d: (int, int)| #[trigger] steps.contains(d) implies found.contains(d) by {
        let dr = d.0;
        let dc = d.1;
        let k: int = if dr == -1 {
            dc + 1
        } else if dr == 0 {
            if dc == -1 { 3 } else { 4 }
        } else {
            dc + 6
        };
        assert(orientation(k) == (dr, dc));
    }
    assert(steps =~= found);
}

/// A cell counts once for each orientation in which "XMAS" reads from it:
/// at most eight, and none unless it holds 'X'.
pub proof fn lemma_xmas_cell_counts(g: Grid<char>, row: int, col: int)
    ensures
        0 <= xmas_cell(g, row, col, 8) <= 8,
        g.cell(row, col) != 'X' ==> xmas_cell(g, row, col, 8) == 0,
        xmas_cell(g, row, col, 8) > 0 <==> exists|k: int| 0 <= k < 8 && xmas_at(g, row, col, #[trigger] orientation(k)),
{
    lemma_xmas_cell_bounds(g, row, col, 8);
    reveal_with_fuel(xmas_cell, 9);
    if exists|k: int| 0 <= k < 8 && xmas_at(g, row, col, #[trigger] orientation(k)) {
        let k = choose|k: int| 0 <= k < 8 && xmas_at(g, row, col, #[trigger] orientation(k));
        assert(xmas_cell(g, row, col, 8) > 0);
    }
}

} // verus!
