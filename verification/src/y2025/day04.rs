//! Paper rolls on a grid: a roll is accessible when fewer than four of its
//! eight neighbours hold rolls; remove accessible rolls until none are left.

use vstd::prelude::*;

use crate::text::utf8_len;
use crate::y2025::grid::{has_mismatched_line, lines_fit, text_lines};

verus! {

/// The character grid of the puzzle.
pub type Grid = crate::y2025::grid::Grid<char>;

/// 1 for true, 0 for false.
pub open spec fn ind(b: bool) -> nat {
    if b {
        1
    } else {
        0
    }
}

/// A roll `@` sits at (r, c) of the `w` x `h` grid stored row by row in `s`.
pub open spec fn roll_at(s: Seq<char>, w: int, h: int, r: int, c: int) -> bool {
    0 <= r < h && 0 <= c < w && s[r * w + c] == '@'
}

/// Rolls among the first `k` of the nine cells around (r, c), in the order
/// (-1,-1), (-1,0), ..., (1,1), skipping the centre.
pub open spec fn neighbors_upto(s: Seq<char>, w: int, h: int, r: int, c: int, k: int) -> nat
    decreases k,
{
    if k <= 0 {
        0
    } else {
        neighbors_upto(s, w, h, r, c, k - 1) + if k - 1 == 4 {
            0nat
        } else {
            ind(roll_at(s, w, h, r + (k - 1) / 3 - 1, c + (k - 1) % 3 - 1))
        }
    }
}

/// Rolls in the eight cells around (r, c).
pub open spec fn neighbor_rolls(s: Seq<char>, w: int, h: int, r: int, c: int) -> nat {
    neighbors_upto(s, w, h, r, c, 9)
}

/// A roll with fewer than four neighbouring rolls.
pub open spec fn accessible(s: Seq<char>, w: int, h: int, r: int, c: int) -> bool {
    roll_at(s, w, h, r, c) && neighbor_rolls(s, w, h, r, c) < 4
}

/// Accessible rolls among the first `k` cells, row by row.
pub open spec fn accessible_upto(s: Seq<char>, w: int, h: int, k: int) -> nat
    decreases k,
{
    if k <= 0 {
        0
    } else {
        accessible_upto(s, w, h, k - 1) + ind(accessible(s, w, h, (k - 1) / w, (k - 1) % w))
    }
}

/// Accessible rolls in the whole grid.
pub open spec fn accessible_count(s: Seq<char>, w: int, h: int) -> nat {
    accessible_upto(s, w, h, w * h)
}

/// The grid after removing, all at once, every accessible roll.
pub open spec fn step(s: Seq<char>, w: int, h: int) -> Seq<char> {
    Seq::new(
        s.len(),
        |i: int|
            if i < w * h && accessible(s, w, h, i / w, i % w) {
                '.'
            } else {
                s[i]
            },
    )
}

/// Rolls among the first `k` entries.
pub open spec fn rolls_upto(s: Seq<char>, k: int) -> nat
    decreases k,
{
    if k <= 0 {
        0
    } else {
        rolls_upto(s, k - 1) + ind(s[k - 1] == '@')
    }
}

proof fn lemma_cell_div(row: int, col: int, w: int)
    requires
        0 <= col < w,
    ensures
        (row * w + col) / w == row,
        (row * w + col) % w == col,
{
    vstd::arithmetic::div_mod::lemma_fundamental_div_mod_converse(row * w + col, w, row, col);
}

pub proof fn lemma_step_rolls(s: Seq<char>, w: int, h: int, k: int)
    requires
        w > 0,
        s.len() == w * h,
        0 <= k <= w * h,
    ensures
        rolls_upto(step(s, w, h), k) + accessible_upto(s, w, h, k) == rolls_upto(s, k),
    decreases k,
{
    if k > 0 {
        lemma_step_rolls(s, w, h, k - 1);
        let i = k - 1;
        let r = i / w;
        let c = i % w;
        vstd::arithmetic::div_mod::lemma_fundamental_div_mod(i, w);
        if accessible(s, w, h, r, c) {
            assert(r * w + c == i) by {
                assert(w * r == r * w) by (nonlinear_arith);
            }
        }
    }
}

proof fn lemma_rolls_upto_bound(s: Seq<char>, k: int)
    requires
        0 <= k,
    ensures
        rolls_upto(s, k) <= k,
    decreases k,
{
    if k > 0 {
        lemma_rolls_upto_bound(s, k - 1);
    }
}

/// How many rolls the repeated removal takes away in total.
pub open spec fn total_removed(s: Seq<char>, w: int, h: int) -> nat
    decreases rolls_upto(s, s.len() as int),
{
    let n = accessible_count(s, w, h);
    if n == 0 || w <= 0 || h < 0 || s.len() != w * h {
        0
    } else {
        proof {
            assert(0 <= w * h) by (nonlinear_arith)
                requires
                    w > 0,
                    h >= 0,
            ;
            lemma_step_rolls(s, w, h, w * h);
        }
        n + total_removed(step(s, w, h), w, h)
    }
}

proof fn lemma_total_removed_bound(s: Seq<char>, w: int, h: int)
    ensures
        total_removed(s, w, h) <= rolls_upto(s, s.len() as int),
    decreases rolls_upto(s, s.len() as int),
{
    let n = accessible_count(s, w, h);
    if !(n == 0 || w <= 0 || h < 0 || s.len() != w * h) {
        assert(0 <= w * h) by (nonlinear_arith)
            requires
                w > 0,
                h >= 0,
        ;
        lemma_step_rolls(s, w, h, w * h);
        lemma_total_removed_bound(step(s, w, h), w, h);
    }
}

/// The input reads as a full grid of at most `i32::MAX` rows and columns.
pub open spec fn roll_text_ok(text: Seq<char>) -> bool {
    let ls = text_lines(text);
    &&& lines_fit(ls)
    &&& utf8_len(ls[0]) > 0
    &&& !has_mismatched_line(ls)
    &&& ls.flatten().len() == utf8_len(ls[0]) * ls.len()
    &&& ls.len() <= i32::MAX
    &&& utf8_len(ls[0]) <= i32::MAX
}

/// The grid contents, width and height that the input describes.
pub open spec fn roll_grid(text: Seq<char>) -> (Seq<char>, int, int) {
    let ls = text_lines(text);
    (ls.flatten(), utf8_len(ls[0]) as int, ls.len() as int)
}

/// The grid of a `roll_text_ok` input.
fn read_grid(text: &str) -> (g: Grid)
    requires
        roll_text_ok(text@),
    ensures
        g.wf(),
        g.spec_elems() == roll_grid(text@).0,
        g.spec_width() == roll_grid(text@).1,
        g.spec_height() == roll_grid(text@).2,
        g.spec_width() > 0,
        g.spec_width() <= i32::MAX,
        g.spec_height() <= i32::MAX,
{
    let g = Grid::new_char(text).unwrap();
    proof {
        g.lemma_full_grid_wf();
    }
    g
}

/// Count neighbors that have rolls `@` in 8 adjacent spots.
pub fn count_neighbor_rolls(g: &Grid, row: i32, col: i32) -> (r: u64)
    requires
        g.wf(),
        i32::MIN < row < i32::MAX,
        i32::MIN < col < i32::MAX,
    ensures
        r == neighbor_rolls(
            g.spec_elems(),
            g.spec_width() as int,
            g.spec_height() as int,
            row as int,
            col as int,
        ),
{
    let ghost s = g.spec_elems();
    let ghost w = g.spec_width() as int;
    let ghost h = g.spec_height() as int;
    let mut out: u64 = 0;
    for di in 0..3i32
        invariant
            g.wf(),
            s == g.spec_elems(),
            w == g.spec_width(),
            h == g.spec_height(),
            i32::MIN < row < i32::MAX,
            i32::MIN < col < i32::MAX,
            out == neighbors_upto(s, w, h, row as int, col as int, di * 3),
            out <= di * 3,
    {
        for dj in 0..3i32
            invariant
                g.wf(),
                s == g.spec_elems(),
                w == g.spec_width(),
                h == g.spec_height(),
                i32::MIN < row < i32::MAX,
                i32::MIN < col < i32::MAX,
                0 <= di < 3,
                out == neighbors_upto(s, w, h, row as int, col as int, di * 3 + dj),
                out <= di * 3 + dj,
        {
            let drow = di - 1;
            let dcol = dj - 1;
            let ghost k = di * 3 + dj;
            assert(k / 3 == di && k % 3 == dj);
            if !(drow == 0 && dcol == 0) {
                let xrow = row + drow;
                let xcol = col + dcol;
                match g.at(xrow, xcol) {
                    Ok(v) => {
                        if *v == '@' {
                            out += 1;
                        }
                    },
                    Err(_) => {},
                }
            }
        }
    }
    out
}

/// Check whether space is an accessible roll.
pub fn is_accessible_roll(g: &Grid, row: i32, col: i32) -> (r: bool)
    requires
        g.wf(),
        g.spec_inbounds(row as int, col as int),
        g.spec_height() <= i32::MAX,
        g.spec_width() <= i32::MAX,
    ensures
        r == accessible(
            g.spec_elems(),
            g.spec_width() as int,
            g.spec_height() as int,
            row as int,
            col as int,
        ),
{
    let value = g.at(row, col).unwrap();
    let num_neighbors = count_neighbor_rolls(g, row, col);
    *value == '@' && num_neighbors < 4
}

/// Returns the part1 result: the number of accessible rolls.
pub fn part1(text: &str) -> (r: u64)
    requires
        roll_text_ok(text@),
    ensures
        r == accessible_count(roll_grid(text@).0, roll_grid(text@).1, roll_grid(text@).2),
{
    let g = read_grid(text);
    let ghost s = g.spec_elems();
    let ghost w = g.spec_width() as int;
    let ghost h = g.spec_height() as int;
    let mut out: u64 = 0;
    let height = g.height();
    let width = g.width();
    assert(accessible_upto(s, w, h, 0) == 0);
    let mut row: i32 = 0;
    while row < height
        invariant
            0 <= row <= height,
            g.wf(),
            s == g.spec_elems(),
            w == g.spec_width(),
            h == g.spec_height(),
            w > 0,
            height == h,
            width == w,
            h <= i32::MAX,
            w <= i32::MAX,
            out == accessible_upto(s, w, h, row * w),
            out <= row * w,
        decreases height - row,
    {
        let mut col: i32 = 0;
        while col < width
            invariant
                0 <= col <= width,
                g.wf(),
                s == g.spec_elems(),
                w == g.spec_width(),
                h == g.spec_height(),
                w > 0,
                height == h,
                width == w,
                h <= i32::MAX,
                w <= i32::MAX,
                0 <= row < height,
                out == accessible_upto(s, w, h, row * w + col),
                out <= row * w + col,
            decreases width - col,
        {
            proof {
                lemma_cell_div(row as int, col as int, w);
                assert(row * w + col < 0x4000_0000_0000_0000) by (nonlinear_arith)
                    requires
                        0 <= row < h,
                        h <= i32::MAX,
                        0 <= col < w,
                        w <= i32::MAX,
                ;
            }
            if is_accessible_roll(&g, row, col) {
                out += 1;
            }
            col += 1;
        }
        assert((row + 1) * w == row * w + w) by (nonlinear_arith);
        row += 1;
    }
    assert(h * w == w * h) by (nonlinear_arith);
    out
}

/// Returns the part2 result: how many rolls are removed in total when accessible
/// rolls are removed round after round until none is accessible.
pub fn part2(text: &str) -> (r: u64)
    requires
        roll_text_ok(text@),
    ensures
        r == total_removed(roll_grid(text@).0, roll_grid(text@).1, roll_grid(text@).2),
{
    let mut g = read_grid(text);
    let ghost s0 = g.spec_elems();
    let ghost w = g.spec_width() as int;
    let ghost h = g.spec_height() as int;
    let mut out: u64 = 0;
    proof {
        lemma_total_removed_bound(s0, w, h);
        lemma_rolls_upto_bound(s0, s0.len() as int);
        g.lemma_elems_len();
    }
    loop
        invariant_except_break
            g.wf(),
            w == g.spec_width(),
            h == g.spec_height(),
            w > 0,
            h <= i32::MAX,
            w <= i32::MAX,
            g.spec_elems().len() == w * h,
            s0.len() == w * h,
            s0.len() <= usize::MAX,
            out + total_removed(g.spec_elems(), w, h) == total_removed(s0, w, h),
            total_removed(s0, w, h) <= s0.len(),
        ensures
            out == total_removed(s0, w, h),
        decreases rolls_upto(g.spec_elems(), g.spec_elems().len() as int),
    {
        // note starting point
        let out_start = out;
        let ghost s = g.spec_elems();
        let mut new_g = g.clone();
        assert(new_g.spec_elems() == s);
        proof {
            new_g.lemma_full_grid_wf();
        }
        let height = g.height();
        let width = g.width();
        proof {
            assert(0 <= w * h) by (nonlinear_arith)
                requires
                    w > 0,
                    h >= 0,
            ;
            lemma_step_rolls(s, w, h, w * h);
            lemma_total_removed_bound(s, w, h);
        }
        let mut row: i32 = 0;
        while row < height
            invariant
                0 <= row <= height,
                g.wf(),
                s == g.spec_elems(),
                w == g.spec_width(),
                h == g.spec_height(),
                w > 0,
                height == h,
                width == w,
                h <= i32::MAX,
                w <= i32::MAX,
                s.len() == w * h,
                new_g.wf(),
                new_g.spec_width() == w,
                new_g.spec_height() == h,
                new_g.spec_elems().len() == s.len(),
                forall|i: int|
                    0 <= i < s.len() ==> #[trigger] new_g.spec_elems()[i] == if i < row * w && accessible(
                        s,
                        w,
                        h,
                        i / w,
                        i % w,
                    ) {
                        '.'
                    } else {
                        s[i]
                    },
                out == out_start + accessible_upto(s, w, h, row * w),
                accessible_upto(s, w, h, w * h) <= total_removed(s, w, h) || accessible_upto(s, w, h, w * h) == 0,
                out_start + total_removed(s, w, h) <= s0.len(),
                s0.len() <= usize::MAX,
            decreases height - row,
        {
            let ghost prev_row = new_g.spec_elems();
            let mut col: i32 = 0;
            while col < width
                invariant
                    0 <= col <= width,
                    g.wf(),
                    s == g.spec_elems(),
                    w == g.spec_width(),
                    h == g.spec_height(),
                    w > 0,
                    height == h,
                    width == w,
                    h <= i32::MAX,
                    w <= i32::MAX,
                    s.len() == w * h,
                    0 <= row < height,
                    new_g.wf(),
                    new_g.spec_width() == w,
                    new_g.spec_height() == h,
                    new_g.spec_elems().len() == s.len(),
                    forall|i: int|
                        0 <= i < s.len() ==> #[trigger] new_g.spec_elems()[i] == if i < row * w + col
                            && accessible(s, w, h, i / w, i % w) {
                            '.'
                        } else {
                            s[i]
                        },
                    out == out_start + accessible_upto(s, w, h, row * w + col),
                    accessible_upto(s, w, h, w * h) <= total_removed(s, w, h) || accessible_upto(s, w, h, w * h) == 0,
                    out_start + total_removed(s, w, h) <= s0.len(),
                    s0.len() <= usize::MAX,
                decreases width - col,
            {
                proof {
                    lemma_cell_div(row as int, col as int, w);
                    assert(row * w + col < w * h) by (nonlinear_arith)
                        requires
                            0 <= row < h,
                            0 <= col < w,
                    ;
                    lemma_accessible_upto_mono(s, w, h, row * w + col + 1, w * h);
                }
                if is_accessible_roll(&g, row, col) {
                    // remove accessible rolls here
                    let ghost before = new_g.spec_elems();
                    *new_g.at_mut(row, col).unwrap() = '.';
                    proof {
                        new_g.lemma_full_grid_wf();
                    }
                    out += 1;
                    assert forall|i: int| 0 <= i < s.len() implies #[trigger] new_g.spec_elems()[i] == if i
                        < row * w + col + 1 && accessible(s, w, h, i / w, i % w) {
                        '.'
                    } else {
                        s[i]
                    } by {
                        if i == row * w + col {
                        } else {
                            assert(new_g.spec_elems()[i] == before[i]);
                        }
                    }
                } else {
                    assert forall|i: int| 0 <= i < s.len() implies #[trigger] new_g.spec_elems()[i] == if i
                        < row * w + col + 1 && accessible(s, w, h, i / w, i % w) {
                        '.'
                    } else {
                        s[i]
                    } by {
                    }
                }
                col += 1;
            }
            assert((row + 1) * w == row * w + w) by (nonlinear_arith);
            row += 1;
        }
        assert(h * w == w * h) by (nonlinear_arith);
        assert(new_g.spec_elems() =~= step(s, w, h));
        if out == out_start {
            // done if no more rolls were removed
            break;
        } else {
            // run it back with updated state
            g = new_g;
        }
    }
    out
}

proof fn lemma_accessible_upto_mono(s: Seq<char>, w: int, h: int, k: int, k2: int)
    requires
        k <= k2,
    ensures
        accessible_upto(s, w, h, k) <= accessible_upto(s, w, h, k2),
    decreases k2 - k,
{
    if k < k2 {
        lemma_accessible_upto_mono(s, w, h, k, k2 - 1);
    }
}

/// The neighbouring rolls of (r, c) are those in the eight cells around it,
/// each counted once and the cell itself not at all; there are at most eight.
pub proof fn lemma_neighbors_are_the_eight_around(s: Seq<char>, w: int, h: int, r: int, c: int)
    ensures
        neighbor_rolls(s, w, h, r, c) == ind(roll_at(s, w, h, r - 1, c - 1)) + ind(roll_at(s, w, h, r - 1, c))
            + ind(roll_at(s, w, h, r - 1, c + 1)) + ind(roll_at(s, w, h, r, c - 1)) + ind(
            roll_at(s, w, h, r, c + 1),
        ) + ind(roll_at(s, w, h, r + 1, c - 1)) + ind(roll_at(s, w, h, r + 1, c)) + ind(
            roll_at(s, w, h, r + 1, c + 1),
        ),
        neighbor_rolls(s, w, h, r, c) <= 8,
{
    reveal_with_fuel(neighbors_upto, 10);
}

} // verus!
