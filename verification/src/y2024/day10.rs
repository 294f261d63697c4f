//! Hiking trails on a height map: paths that climb one step at a time from a
//! trailhead of height 0 to a summit of height 9.

use vstd::prelude::*;

use crate::grid::{cell_index, lemma_cell_index, Grid};
use crate::text::utf8_len;
use crate::y2024::matrix::{map_lines, map_text_ok, read_matrix};

verus! {

/// A location (row, col).
#[derive(Clone, Copy, Debug, PartialEq, Eq, Hash, Structural)]
pub struct Loc(pub i32, pub i32);

impl Loc {
    /// The row.
    pub fn row(&self) -> (r: i32)
        ensures
            r == self.0,
    {
        self.0
    }

    /// The row as `usize` (sign-extended when negative).
    pub fn row_usize(&self) -> (r: usize)
        ensures
            r == self.0 as usize,
    {
        self.0 as usize
    }

    /// The column.
    pub fn col(&self) -> (r: i32)
        ensures
            r == self.1,
    {
        self.1
    }

    /// The column as `usize` (sign-extended when negative).
    pub fn col_usize(&self) -> (r: usize)
        ensures
            r == self.1 as usize,
    {
        self.1 as usize
    }
}

/// A step to a neighbouring location.
#[derive(Clone, Copy, Debug, PartialEq, Eq, Structural)]
pub enum Step {
    Up,
    Down,
    Left,
    Right,
}

/// The location one step from `l`.
pub open spec fn step_loc(l: Loc, s: Step) -> Loc {
    match s {
        Step::Up => Loc((l.0 - 1) as i32, l.1),
        Step::Down => Loc((l.0 + 1) as i32, l.1),
        Step::Left => Loc(l.0, (l.1 - 1) as i32),
        Step::Right => Loc(l.0, (l.1 + 1) as i32),
    }
}

/// A step stays within `i32` coordinates.
pub open spec fn can_step(l: Loc, s: Step) -> bool {
    match s {
        Step::Up => l.0 > i32::MIN,
        Step::Down => l.0 < i32::MAX,
        Step::Left => l.1 > i32::MIN,
        Step::Right => l.1 < i32::MAX,
    }
}

impl Loc {
    /// The location one step away.
    pub fn step(self, step: &Step) -> (r: Loc)
        requires
            can_step(self, *step),
        ensures
            r == step_loc(self, *step),
    {
        match step {
            Step::Up => Loc(self.0 - 1, self.1),
            Step::Down => Loc(self.0 + 1, self.1),
            Step::Left => Loc(self.0, self.1 - 1),
            Step::Right => Loc(self.0, self.1 + 1),
        }
    }
}

/// A height map: heights 0 to 9, and -1 where the map shows no height.
#[derive(Debug)]
pub struct Layout(pub Grid<i32>);

/// The height that a map character stands for: its digit, or -1.
pub open spec fn height_of(c: char) -> i32 {
    if '0' <= c && c <= '9' {
        (c as u32 - '0' as u32) as i32
    } else {
        -1i32
    }
}

/// The digit of `c` in base ten, as `char::to_digit(10)` gives it.
fn to_digit(c: char) -> (r: Option<u32>)
    ensures
        r == (if '0' <= c && c <= '9' {
            Some((c as u32 - '0' as u32) as u32)
        } else {
            None
        }),
{
    if '0' <= c && c <= '9' {
        Some((c as u32) - ('0' as u32))
    } else {
        None
    }
}

/// The map holds only heights 0 to 9 and -1, and its locations fit `i32`.
pub open spec fn layout_ok(m: &Layout) -> bool {
    &&& m.0.wf()
    &&& m.0.spec_nrows() <= i32::MAX
    &&& m.0.spec_ncols() <= i32::MAX
    &&& forall|row: int, col: int| m.0.in_bounds(row, col) ==> -1 <= #[trigger] m.0.cell(row, col) <= 9
}

/// `l` is a location of the map.
pub open spec fn on_map(m: &Layout, l: Loc) -> bool {
    m.0.in_bounds(l.0 as int, l.1 as int)
}

/// The height at `l`, or -1 off the map.
pub open spec fn height(m: &Layout, l: Loc) -> int {
    if on_map(m, l) {
        m.0.cell(l.0 as int, l.1 as int) as int
    } else {
        -1
    }
}

impl Layout {
    /// Make a map from an input string like in the input file.
    pub fn from_text(input: &str) -> (r: Self)
        requires
            map_text_ok(input@),
        ensures
            layout_ok(&r),
            r.0.spec_nrows() == map_lines(input@).len(),
            r.0.spec_ncols() == utf8_len(map_lines(input@)[0]),
            forall|row: int, col: int|
                r.0.in_bounds(row, col) ==> #[trigger] r.0.cell(row, col) == height_of(map_lines(input@)[row][col]),
    {
        let chars = read_matrix(input);
        let nrows = chars.nrows();
        let ncols = chars.ncols();
        let mut mat: Grid<i32> = Grid::new(nrows, ncols);
        for row in 0..nrows
            invariant
                chars.wf(),
                nrows == chars.spec_nrows(),
                ncols == chars.spec_ncols(),
                mat.wf(),
                mat.spec_nrows() == nrows,
                mat.spec_ncols() == ncols,
                forall|r2: int, c2: int|
                    mat.in_bounds(r2, c2) && r2 < row ==> #[trigger] mat.cell(r2, c2) == height_of(chars.cell(r2, c2)),
        {
            for col in 0..ncols
                invariant
                    chars.wf(),
                    nrows == chars.spec_nrows(),
                    ncols == chars.spec_ncols(),
                    row < nrows,
                    mat.wf(),
                    mat.spec_nrows() == nrows,
                    mat.spec_ncols() == ncols,
                    forall|r2: int, c2: int|
                        mat.in_bounds(r2, c2) && (r2 < row || (r2 == row && c2 < col)) ==> #[trigger] mat.cell(r2, c2)
                            == height_of(chars.cell(r2, c2)),
            {
                let c = *chars.at_u32(row, col);
                let v: i32 = match to_digit(c) {
                    Some(d) => d as i32,
                    None => -1,
                };
                let ghost before = mat@;
                let ghost m0 = mat;
                proof {
                    lemma_cell_index(nrows as int, ncols as int, row as int, col as int);
                }
                *mat.at_u32_mut(row, col) = v;
                proof {
                    assert forall|r2: int, c2: int|
                        mat.in_bounds(r2, c2) && (r2 < row || (r2 == row && c2 < col + 1)) implies #[trigger] mat.cell(r2, c2)
                        == height_of(chars.cell(r2, c2)) by {
                        if r2 == row && c2 == col {
                            assert(mat@[cell_index(ncols as int, row as int, col as int)] == v);
                            assert(height_of(c) == v);
                        } else {
                            lemma_cell_index(nrows as int, ncols as int, r2, c2);
                            if cell_index(ncols as int, r2, c2) == cell_index(ncols as int, row as int, col as int) {
                                crate::grid::lemma_cell_index_injective(ncols as int, r2, c2, row as int, col as int);
                            }
                            assert(mat@[cell_index(ncols as int, r2, c2)] == before[cell_index(ncols as int, r2, c2)]);
                            assert(m0.cell(r2, c2) == height_of(chars.cell(r2, c2)));
                        }
                    }
                }
            }
        }
        Layout(mat)
    }

    /// The height at a location, or -1 off the map.
    pub fn at(&self, loc: &Loc) -> (r: i32)
        requires
            layout_ok(self),
        ensures
            r == height(self, *loc),
    {
        if !self.is_inbounds(loc) {
            return -1;
        }
        *self.0.at_i32(loc.0, loc.1)
    }

    /// Number of rows.
    pub fn nrows(&self) -> (r: i32)
        requires
            layout_ok(self),
        ensures
            r == self.0.spec_nrows(),
    {
        self.0.nrows() as i32
    }

    /// Number of columns.
    pub fn ncols(&self) -> (r: i32)
        requires
            layout_ok(self),
        ensures
            r == self.0.spec_ncols(),
    {
        self.0.ncols() as i32
    }

    /// The locations of the map, row by row.
    pub fn locs(&self) -> (r: Vec<Loc>)
        requires
            layout_ok(self),
        ensures
            r@.len() == self.0.spec_nrows() * self.0.spec_ncols(),
            forall|row: int, col: int|
                self.0.in_bounds(row, col) ==> #[trigger] r@[cell_index(self.0.spec_ncols() as int, row, col)] == Loc(
                    row as i32,
                    col as i32,
                ),
    {
        let nrows = self.nrows();
        let ncols = self.ncols();
        let ghost nc = ncols as int;
        let mut out: Vec<Loc> = Vec::new();
        assert(0 * nc == 0);
        for row in 0..nrows
            invariant
                layout_ok(self),
                nrows == self.0.spec_nrows(),
                ncols == self.0.spec_ncols(),
                nc == ncols,
                out@.len() == row * nc,
                forall|r2: int, c2: int|
                    0 <= r2 < row && 0 <= c2 < ncols ==> #[trigger] out@[cell_index(nc, r2, c2)] == Loc(r2 as i32, c2 as i32),
        {
            let ghost prev = out@;
            for col in 0..ncols
                invariant
                    layout_ok(self),
                    nrows == self.0.spec_nrows(),
                    ncols == self.0.spec_ncols(),
                    nc == ncols,
                    0 <= row < nrows,
                    out@.len() == row * nc + col,
                    out@.subrange(0, row * nc) == prev,
                    prev.len() == row * nc,
                    forall|c2: int| 0 <= c2 < col ==> #[trigger] out@[row * nc + c2] == Loc(row as i32, c2 as i32),
            {
                out.push(Loc(row, col));
                assert(out@.subrange(0, row * nc) =~= prev);
            }
            proof {
                assert((row + 1) * nc == row * nc + nc) by (nonlinear_arith);
                assert forall|r2: int, c2: int|
                    0 <= r2 < row + 1 && 0 <= c2 < ncols implies #[trigger] out@[cell_index(nc, r2, c2)] == Loc(
                    r2 as i32,
                    c2 as i32,
                ) by {
                    if r2 < row {
                        lemma_cell_index(row as int, nc, r2, c2);
                        assert(out@[cell_index(nc, r2, c2)] == out@.subrange(0, row * nc)[cell_index(nc, r2, c2)]);
                    }
                }
            }
        }
        proof {
            assert(nrows * nc == self.0.spec_nrows() * self.0.spec_ncols());
        }
        out
    }

    /// Whether a location is on the map.
    pub fn is_inbounds(&self, loc: &Loc) -> (r: bool)
        requires
            layout_ok(self),
        ensures
            r == on_map(self, *loc),
    {
        let nrows = self.nrows();
        let ncols = self.ncols();
        0 <= loc.0 && loc.0 < nrows && 0 <= loc.1 && loc.1 < ncols
    }
}

/// The number of trails from `l` to the summit `e`: paths that climb by one at
/// each step to height 9.
pub open spec fn tail_count(m: &Layout, l: Loc, e: Loc) -> nat
    decreases 10 - height(m, l),
{
    let h = height(m, l);
    if h < 0 || h > 9 {
        0
    } else if h == 9 {
        if l == e {
            1
        } else {
            0
        }
    } else {
        (if height(m, step_loc(l, Step::Up)) == h + 1 {
            tail_count(m, step_loc(l, Step::Up), e)
        } else {
            0
        }) + (if height(m, step_loc(l, Step::Down)) == h + 1 {
            tail_count(m, step_loc(l, Step::Down), e)
        } else {
            0
        }) + (if height(m, step_loc(l, Step::Left)) == h + 1 {
            tail_count(m, step_loc(l, Step::Left), e)
        } else {
            0
        }) + (if height(m, step_loc(l, Step::Right)) == h + 1 {
            tail_count(m, step_loc(l, Step::Right), e)
        } else {
            0
        })
    }
}

/// The number of trails from `l` to any summit.
pub open spec fn trail_total(m: &Layout, l: Loc) -> nat
    decreases 10 - height(m, l),
{
    let h = height(m, l);
    if h < 0 || h > 9 {
        0
    } else if h == 9 {
        1
    } else {
        (if height(m, step_loc(l, Step::Up)) == h + 1 {
            trail_total(m, step_loc(l, Step::Up))
        } else {
            0
        }) + (if height(m, step_loc(l, Step::Down)) == h + 1 {
            trail_total(m, step_loc(l, Step::Down))
        } else {
            0
        }) + (if height(m, step_loc(l, Step::Left)) == h + 1 {
            trail_total(m, step_loc(l, Step::Left))
        } else {
            0
        }) + (if height(m, step_loc(l, Step::Right)) == h + 1 {
            trail_total(m, step_loc(l, Step::Right))
        } else {
            0
        })
    }
}

/// The steps in the order they are tried.
pub open spec fn step_seq() -> Seq<Step> {
    seq![Step::Up, Step::Down, Step::Left, Step::Right]
}

/// What the trails through the `k`-th step out of `l` add to the count for `e`.
pub open spec fn via(m: &Layout, l: Loc, k: int, e: Loc) -> nat {
    let n = step_loc(l, step_seq()[k]);
    if height(m, n) == height(m, l) + 1 {
        tail_count(m, n, e)
    } else {
        0
    }
}

/// What the trails through the `k`-th step out of `l` add to the total.
pub open spec fn via_total(m: &Layout, l: Loc, k: int) -> nat {
    let n = step_loc(l, step_seq()[k]);
    if height(m, n) == height(m, l) + 1 {
        trail_total(m, n)
    } else {
        0
    }
}

/// The count for `e` through the first `k` steps out of `l`.
pub open spec fn via_upto(m: &Layout, l: Loc, k: int, e: Loc) -> nat
    decreases k,
{
    if k <= 0 {
        0
    } else {
        via_upto(m, l, k - 1, e) + via(m, l, k - 1, e)
    }
}

/// The total through the first `k` steps out of `l`.
pub open spec fn via_total_upto(m: &Layout, l: Loc, k: int) -> nat
    decreases k,
{
    if k <= 0 {
        0
    } else {
        via_total_upto(m, l, k - 1) + via_total(m, l, k - 1)
    }
}

/// The count recorded for `e` in a list of (location, count) entries.
pub open spec fn count_of(v: Seq<(Loc, usize)>, e: Loc) -> int
    decreases v.len(),
{
    if v.len() == 0 {
        0
    } else {
        count_of(v.drop_last(), e) + if v.last().0 == e {
            v.last().1 as int
        } else {
            0
        }
    }
}

/// The sum of all counts in a list of entries.
pub open spec fn sum_counts(v: Seq<(Loc, usize)>) -> int
    decreases v.len(),
{
    if v.len() == 0 {
        0
    } else {
        sum_counts(v.drop_last()) + v.last().1 as int
    }
}

/// No location is listed twice.
pub open spec fn distinct_locs(v: Seq<(Loc, usize)>) -> bool {
    forall|i: int, j: int| 0 <= i < j < v.len() ==> v[i].0 != v[j].0
}

proof fn lemma_count_push(v: Seq<(Loc, usize)>, x: (Loc, usize), e: Loc)
    ensures
        count_of(v.push(x), e) == count_of(v, e) + if x.0 == e {
            x.1 as int
        } else {
            0
        },
        sum_counts(v.push(x)) == sum_counts(v) + x.1,
{
    assert(v.push(x).drop_last() =~= v);
}

proof fn lemma_count_update(v: Seq<(Loc, usize)>, i: int, c: usize, e: Loc)
    requires
        0 <= i < v.len(),
    ensures
        count_of(v.update(i, (v[i].0, c)), e) == count_of(v, e) + if v[i].0 == e {
            c - v[i].1
        } else {
            0
        },
        sum_counts(v.update(i, (v[i].0, c))) == sum_counts(v) + c - v[i].1,
    decreases v.len(),
{
    let w = v.update(i, (v[i].0, c));
    if i == v.len() - 1 {
        assert(w.drop_last() =~= v.drop_last());
    } else {
        assert(w.drop_last() =~= v.drop_last().update(i, (v[i].0, c)));
        lemma_count_update(v.drop_last(), i, c, e);
    }
}

proof fn lemma_count_absent(v: Seq<(Loc, usize)>, e: Loc)
    requires
        forall|i: int| 0 <= i < v.len() ==> v[i].0 != e,
    ensures
        count_of(v, e) == 0,
    decreases v.len(),
{
    if v.len() > 0 {
        lemma_count_absent(v.drop_last(), e);
    }
}

proof fn lemma_count_at(v: Seq<(Loc, usize)>, i: int)
    requires
        distinct_locs(v),
        0 <= i < v.len(),
    ensures
        count_of(v, v[i].0) == v[i].1,
    decreases v.len(),
{
    if i == v.len() - 1 {
        lemma_count_absent(v.drop_last(), v[i].0);
    } else {
        lemma_count_at(v.drop_last(), i);
    }
}

proof fn lemma_counts_nonneg(v: Seq<(Loc, usize)>, e: Loc)
    ensures
        count_of(v, e) >= 0,
        sum_counts(v) >= 0,
        count_of(v, e) <= sum_counts(v),
    decreases v.len(),
{
    if v.len() > 0 {
        lemma_counts_nonneg(v.drop_last(), e);
    }
}

/// Adds `c` to the count of `l`, listing `l` if it is new.
fn add_count(out: &mut Vec<(Loc, usize)>, l: Loc, c: usize)
    requires
        distinct_locs(old(out)@),
        c > 0,
        forall|i: int| 0 <= i < old(out)@.len() ==> (#[trigger] old(out)@[i]).1 > 0,
        count_of(old(out)@, l) + c <= usize::MAX,
        sum_counts(old(out)@) + c <= usize::MAX,
    ensures
        distinct_locs(final(out)@),
        forall|i: int| 0 <= i < final(out)@.len() ==> (#[trigger] final(out)@[i]).1 > 0,
        forall|e: Loc| #[trigger] count_of(final(out)@, e) == count_of(old(out)@, e) + if e == l {
            c as int
        } else {
            0
        },
        sum_counts(final(out)@) == sum_counts(old(out)@) + c,
{
    let ghost v = out@;
    let mut i: usize = 0;
    while i < out.len()
        invariant
            out@ == v,
            i <= v.len(),
            forall|j: int| 0 <= j < i ==> v[j].0 != l,
        ensures
            out@ == v,
            i <= v.len(),
            forall|j: int| 0 <= j < i ==> v[j].0 != l,
            i < v.len() ==> v[i as int].0 == l,
        decreases v.len() - i,
    {
        if out[i].0 == l {
            break;
        }
        i = i + 1;
    }
    if i < out.len() {
        let old_c = out[i].1;
        proof {
            lemma_count_at(v, i as int);
        }
        out.set(i, (l, old_c + c));
        proof {
            assert forall|e: Loc| #[trigger] count_of(out@, e) == count_of(v, e) + if e == l {
                c as int
            } else {
                0
            } by {
                lemma_count_update(v, i as int, (old_c + c) as usize, e);
            }
            lemma_count_update(v, i as int, (old_c + c) as usize, l);
        }
    } else {
        out.push((l, c));
        proof {
            assert forall|e: Loc| #[trigger] count_of(out@, e) == count_of(v, e) + if e == l {
                c as int
            } else {
                0
            } by {
                lemma_count_push(v, (l, c), e);
            }
            lemma_count_push(v, (l, c), l);
        }
    }
}

/// A trail count never passes the number of climbs, four at each of the
/// remaining heights.
proof fn lemma_trail_bounds(m: &Layout, l: Loc, e: Loc)
    ensures
        tail_count(m, l, e) <= trail_total(m, l),
        trail_total(m, l) <= 262144,
    decreases 10 - height(m, l),
{
    let h = height(m, l);
    if 0 <= h < 9 {
        let n0 = step_loc(l, Step::Up);
        let n1 = step_loc(l, Step::Down);
        let n2 = step_loc(l, Step::Left);
        let n3 = step_loc(l, Step::Right);
        if height(m, n0) == h + 1 {
            lemma_trail_bounds(m, n0, e);
            lemma_trail_scale(m, n0);
        }
        if height(m, n1) == h + 1 {
            lemma_trail_bounds(m, n1, e);
            lemma_trail_scale(m, n1);
        }
        if height(m, n2) == h + 1 {
            lemma_trail_bounds(m, n2, e);
            lemma_trail_scale(m, n2);
        }
        if height(m, n3) == h + 1 {
            lemma_trail_bounds(m, n3, e);
            lemma_trail_scale(m, n3);
        }
    }
    lemma_trail_scale(m, l);
    if 0 <= h <= 9 {
        lemma_pow4_mono((9 - h) as nat, 9);
    }
}

proof fn lemma_pow4_mono(a: nat, b: nat)
    requires
        a <= b,
    ensures
        pow4(a) <= pow4(b),
    decreases b,
{
    if a < b {
        lemma_pow4_mono(a, (b - 1) as nat);
    }
}

spec fn pow4(n: nat) -> nat
    decreases n,
{
    if n == 0 {
        1
    } else {
        4 * pow4((n - 1) as nat)
    }
}

/// From height `h` there are at most `4^(9 - h)` trails.
proof fn lemma_trail_scale(m: &Layout, l: Loc)
    ensures
        0 <= height(m, l) <= 9 ==> trail_total(m, l) <= pow4((9 - height(m, l)) as nat),
        pow4(9) == 262144,
    decreases 10 - height(m, l),
{
    reveal_with_fuel(pow4, 10);
    let h = height(m, l);
    if 0 <= h < 9 {
        let n0 = step_loc(l, Step::Up);
        let n1 = step_loc(l, Step::Down);
        let n2 = step_loc(l, Step::Left);
        let n3 = step_loc(l, Step::Right);
        if height(m, n0) == h + 1 {
            lemma_trail_scale(m, n0);
        }
        if height(m, n1) == h + 1 {
            lemma_trail_scale(m, n1);
        }
        if height(m, n2) == h + 1 {
            lemma_trail_scale(m, n2);
        }
        if height(m, n3) == h + 1 {
            lemma_trail_scale(m, n3);
        }
        assert(pow4((9 - h) as nat) == 4 * pow4((9 - (h + 1)) as nat));
    }
}

proof fn lemma_count_prefix(v: Seq<(Loc, usize)>, j: int, e: Loc)
    requires
        0 <= j < v.len(),
    ensures
        count_of(v.take(j + 1), e) == count_of(v.take(j), e) + if v[j].0 == e {
            v[j].1 as int
        } else {
            0
        },
        sum_counts(v.take(j + 1)) == sum_counts(v.take(j)) + v[j].1,
        count_of(v.take(j + 1), e) <= count_of(v, e),
        sum_counts(v.take(j + 1)) <= sum_counts(v),
    decreases v.len() - j,
{
    assert(v.take(j + 1) =~= v.take(j).push(v[j]));
    lemma_count_push(v.take(j), v[j], e);
    if j + 1 < v.len() {
        lemma_count_prefix(v, j + 1, e);
        lemma_counts_nonneg(seq![v[j + 1]], e);
        assert(v[j + 1].1 >= 0);
    } else {
        assert(v.take(j + 1) =~= v);
    }
}

/// Adds every count of `sub` to `out`.
fn merge_counts(out: &mut Vec<(Loc, usize)>, sub: &Vec<(Loc, usize)>)
    requires
        distinct_locs(old(out)@),
        distinct_locs(sub@),
        forall|i: int| 0 <= i < old(out)@.len() ==> (#[trigger] old(out)@[i]).1 > 0,
        forall|i: int| 0 <= i < sub@.len() ==> (#[trigger] sub@[i]).1 > 0,
        forall|e: Loc| count_of(old(out)@, e) + count_of(sub@, e) <= usize::MAX,
        sum_counts(old(out)@) + sum_counts(sub@) <= usize::MAX,
    ensures
        distinct_locs(final(out)@),
        forall|i: int| 0 <= i < final(out)@.len() ==> (#[trigger] final(out)@[i]).1 > 0,
        forall|e: Loc| #[trigger] count_of(final(out)@, e) == count_of(old(out)@, e) + count_of(sub@, e),
        sum_counts(final(out)@) == sum_counts(old(out)@) + sum_counts(sub@),
{
    let ghost base = out@;
    assert(sub@.take(0) =~= Seq::<(Loc, usize)>::empty());
    for j in 0..sub.len()
        invariant
            distinct_locs(out@),
            forall|i: int| 0 <= i < out@.len() ==> (#[trigger] out@[i]).1 > 0,
            forall|i: int| 0 <= i < sub@.len() ==> (#[trigger] sub@[i]).1 > 0,
            forall|e: Loc| count_of(base, e) + count_of(sub@, e) <= usize::MAX,
            sum_counts(base) + sum_counts(sub@) <= usize::MAX,
            forall|e: Loc| #[trigger] count_of(out@, e) == count_of(base, e) + count_of(sub@.take(j as int), e),
            sum_counts(out@) == sum_counts(base) + sum_counts(sub@.take(j as int)),
    {
        let (l, c) = sub[j];
        proof {
            lemma_count_prefix(sub@, j as int, l);
            assert(sub@[j as int].1 > 0);
        }
        add_count(out, l, c);
        proof {
            assert forall|e: Loc| #[trigger] count_of(out@, e) == count_of(base, e) + count_of(sub@.take(j + 1), e) by {
                lemma_count_prefix(sub@, j as int, e);
            }
        }
    }
    assert(sub@.take(sub@.len() as int) =~= sub@);
}

impl Layout {
    /// The summits reachable from `loc` by trails, each with its number of
    /// trails; nothing when `loc` is off the map or has no height.
    pub fn find_tails(&self, loc: &Loc) -> (r: Vec<(Loc, usize)>)
        requires
            layout_ok(self),
        ensures
            distinct_locs(r@),
            forall|i: int| 0 <= i < r@.len() ==> (#[trigger] r@[i]).1 > 0,
            forall|e: Loc| #[trigger] count_of(r@, e) == tail_count(self, *loc, e),
            sum_counts(r@) == trail_total(self, *loc),
        decreases 10 - height(self, *loc),
    {
        let current = self.at(loc);
        if current == -1 {
            return Vec::new();
        }
        if current == 9 {
            let mut out: Vec<(Loc, usize)> = Vec::new();
            out.push((*loc, 1));
            proof {
                assert forall|e: Loc| #[trigger] count_of(out@, e) == tail_count(self, *loc, e) by {
                    lemma_count_push(Seq::empty(), (*loc, 1usize), e);
                }
                lemma_count_push(Seq::empty(), (*loc, 1usize), *loc);
            }
            return out;
        }
        proof {
            assert(0 <= current < 9);
        }
        let steps = [Step::Up, Step::Down, Step::Left, Step::Right];
        let mut out: Vec<(Loc, usize)> = Vec::new();
        for k in 0..4
            invariant
                layout_ok(self),
                current == height(self, *loc),
                0 <= current < 9,
                on_map(self, *loc),
                steps@ == step_seq(),
                distinct_locs(out@),
                forall|i: int| 0 <= i < out@.len() ==> (#[trigger] out@[i]).1 > 0,
                forall|e: Loc| #[trigger] count_of(out@, e) == via_upto(self, *loc, k as int, e),
                sum_counts(out@) == via_total_upto(self, *loc, k as int),
        {
            let step = steps[k];
            let next_loc = loc.step(&step);
            assert(next_loc == step_loc(*loc, step_seq()[k as int]));
            if self.at(&next_loc) == current + 1 {
                let sub = self.find_tails(&next_loc);
                proof {
                    lemma_via_bound(self, *loc, k as int);
                    assert forall|e: Loc| count_of(out@, e) + count_of(sub@, e) <= usize::MAX by {
                        lemma_via_bound_at(self, *loc, k as int, e);
                    }
                }
                merge_counts(&mut out, &sub);
            }
        }
        proof {
            assert forall|e: Loc| #[trigger] count_of(out@, e) == tail_count(self, *loc, e) by {
                lemma_via_full(self, *loc, e);
            }
            lemma_via_full(self, *loc, *loc);
        }
        out
    }
}

/// Every partial count and total stays within the trail totals.
proof fn lemma_via_bound(m: &Layout, l: Loc, k: int)
    requires
        0 <= k < 4,
    ensures
        via_total_upto(m, l, k + 1) <= 262144 * (k + 1),
    decreases k,
{
    if k > 0 {
        lemma_via_bound(m, l, k - 1);
    } else {
        assert(via_total_upto(m, l, 0) == 0);
    }
    let n = step_loc(l, step_seq()[k]);
    lemma_trail_bounds(m, n, n);
    assert(via_total(m, l, k) <= 262144);
    assert(via_total_upto(m, l, k + 1) == via_total_upto(m, l, k) + via_total(m, l, k));
}

proof fn lemma_via_bound_at(m: &Layout, l: Loc, k: int, e: Loc)
    requires
        0 <= k < 4,
    ensures
        via_upto(m, l, k + 1, e) <= 262144 * (k + 1),
    decreases k,
{
    if k > 0 {
        lemma_via_bound_at(m, l, k - 1, e);
    } else {
        assert(via_upto(m, l, 0, e) == 0);
    }
    let n = step_loc(l, step_seq()[k]);
    lemma_trail_bounds(m, n, e);
    assert(via(m, l, k, e) <= 262144);
    assert(via_upto(m, l, k + 1, e) == via_upto(m, l, k, e) + via(m, l, k, e));
}

/// All four steps together give the trail counts.
proof fn lemma_via_full(m: &Layout, l: Loc, e: Loc)
    requires
        0 <= height(m, l) < 9,
    ensures
        via_upto(m, l, 4, e) == tail_count(m, l, e),
        via_total_upto(m, l, 4) == trail_total(m, l),
{
    reveal_with_fuel(via_upto, 5);
    reveal_with_fuel(via_total_upto, 5);
    assert(step_seq()[0] == Step::Up && step_seq()[1] == Step::Down && step_seq()[2] == Step::Left
        && step_seq()[3] == Step::Right);
}

/// The summits reachable by trails from `l`.
pub open spec fn summits(m: &Layout, l: Loc) -> Set<Loc> {
    Set::new(|e: Loc| tail_count(m, l, e) > 0)
}

/// The map's locations, row by row.
pub open spec fn all_locs(m: &Layout) -> Seq<Loc> {
    let nc = m.0.spec_ncols() as int;
    Seq::new(m.0.spec_nrows() * m.0.spec_ncols(), |i: int| Loc((i / nc) as i32, (i % nc) as i32))
}

/// The sum, over the trailheads among `ls`, of how many summits each reaches.
pub open spec fn score_sum(m: &Layout, ls: Seq<Loc>) -> int
    decreases ls.len(),
{
    if ls.len() == 0 {
        0
    } else {
        score_sum(m, ls.drop_last()) + if height(m, ls.last()) == 0 {
            summits(m, ls.last()).len() as int
        } else {
            0
        }
    }
}

/// The sum, over the trailheads among `ls`, of how many trails start there.
pub open spec fn rating_sum(m: &Layout, ls: Seq<Loc>) -> int
    decreases ls.len(),
{
    if ls.len() == 0 {
        0
    } else {
        rating_sum(m, ls.drop_last()) + if height(m, ls.last()) == 0 {
            trail_total(m, ls.last()) as int
        } else {
            0
        }
    }
}

proof fn lemma_sums_prefix(m: &Layout, ls: Seq<Loc>, i: int)
    requires
        0 <= i <= ls.len(),
    ensures
        score_sum(m, ls.take(i)) <= score_sum(m, ls),
        rating_sum(m, ls.take(i)) <= rating_sum(m, ls),
    decreases ls.len() - i,
{
    if i < ls.len() {
        lemma_sums_prefix(m, ls, i + 1);
        assert(ls.take(i + 1).drop_last() =~= ls.take(i));
    } else {
        assert(ls.take(i) =~= ls);
    }
}

/// The map's location list is its locations row by row.
proof fn lemma_locs_view(m: &Layout, v: Seq<Loc>)
    requires
        layout_ok(m),
        v.len() == m.0.spec_nrows() * m.0.spec_ncols(),
        forall|row: int, col: int|
            m.0.in_bounds(row, col) ==> #[trigger] v[cell_index(m.0.spec_ncols() as int, row, col)] == Loc(
                row as i32,
                col as i32,
            ),
    ensures
        v == all_locs(m),
{
    let nc = m.0.spec_ncols() as int;
    assert forall|i: int| 0 <= i < v.len() implies v[i] == all_locs(m)[i] by {
        crate::grid::lemma_cell_index_split(m.0.spec_nrows() as int, nc, i);
        assert(m.0.in_bounds(i / nc, i % nc));
    }
    assert(v =~= all_locs(m));
}

/// The number of summits a trail map's trails reach from `l`.
proof fn lemma_score(m: &Layout, l: Loc, r: Seq<(Loc, usize)>)
    requires
        distinct_locs(r),
        forall|i: int| 0 <= i < r.len() ==> (#[trigger] r[i]).1 > 0,
        forall|e: Loc| #[trigger] count_of(r, e) == tail_count(m, l, e),
    ensures
        r.len() == summits(m, l).len(),
{
    let keys = r.map_values(|x: (Loc, usize)| x.0);
    assert forall|e: Loc| keys.to_set().contains(e) <==> summits(m, l).contains(e) by {
        if keys.to_set().contains(e) {
            let i = choose|i: int| 0 <= i < keys.len() && keys[i] == e;
            lemma_count_at(r, i);
        }
        if summits(m, l).contains(e) {
            if !keys.to_set().contains(e) {
                assert forall|i: int| 0 <= i < r.len() implies r[i].0 != e by {
                    assert(keys[i] == r[i].0);
                }
                lemma_count_absent(r, e);
            }
        }
    }
    assert(keys.to_set() =~= summits(m, l));
    assert forall|a: int, b: int| 0 <= a < b < keys.len() implies keys[a] != keys[b] by {
    }
    keys.unique_seq_to_set();
}

/// The summits reached through the step `s` out of `l`, where that step climbs
/// by one.
pub open spec fn via_summits(m: &Layout, l: Loc, s: Step) -> Set<Loc> {
    let n = step_loc(l, s);
    if height(m, n) == height(m, l) + 1 {
        summits(m, n)
    } else {
        Set::empty()
    }
}

/// From any location the trails reach no more summits than there are trails.
proof fn lemma_summits_le_trails(m: &Layout, l: Loc)
    ensures
        summits(m, l).finite(),
        summits(m, l).len() <= trail_total(m, l),
    decreases 10 - height(m, l),
{
    let h = height(m, l);
    if h < 0 || h > 9 {
        assert(summits(m, l) =~= Set::<Loc>::empty());
    } else if h == 9 {
        assert(summits(m, l) =~= set![l]);
    } else {
        let up = step_loc(l, Step::Up);
        let down = step_loc(l, Step::Down);
        let left = step_loc(l, Step::Left);
        let right = step_loc(l, Step::Right);
        if height(m, up) == h + 1 {
            lemma_summits_le_trails(m, up);
        }
        if height(m, down) == h + 1 {
            lemma_summits_le_trails(m, down);
        }
        if height(m, left) == h + 1 {
            lemma_summits_le_trails(m, left);
        }
        if height(m, right) == h + 1 {
            lemma_summits_le_trails(m, right);
        }
        let a = via_summits(m, l, Step::Up);
        let b = via_summits(m, l, Step::Down);
        let c = via_summits(m, l, Step::Left);
        let d = via_summits(m, l, Step::Right);
        assert(summits(m, l) =~= a.union(b).union(c).union(d));
        vstd::set_lib::lemma_len_union(a, b);
        vstd::set_lib::lemma_len_union(a.union(b), c);
        vstd::set_lib::lemma_len_union(a.union(b).union(c), d);
    }
}

/// Part 1 never exceeds part 2: a trailhead's score, the summits its trails
/// reach, is at most its rating, the number of its trails.
pub proof fn lemma_score_at_most_rating(m: &Layout, ls: Seq<Loc>)
    ensures
        score_sum(m, ls) <= rating_sum(m, ls),
    decreases ls.len(),
{
    if ls.len() > 0 {
        lemma_score_at_most_rating(m, ls.drop_last());
        lemma_summits_le_trails(m, ls.last());
    }
}

/// The sum over trailheads of the number of summits each reaches.
pub fn part1(data: &Layout) -> (r: usize)
    requires
        layout_ok(data),
        score_sum(data, all_locs(data)) <= usize::MAX,
    ensures
        r == score_sum(data, all_locs(data)),
{
    let locs = data.locs();
    proof {
        lemma_locs_view(data, locs@);
    }
    let mut sum: usize = 0;
    for i in 0..locs.len()
        invariant
            layout_ok(data),
            locs@ == all_locs(data),
            score_sum(data, all_locs(data)) <= usize::MAX,
            sum == score_sum(data, locs@.take(i as int)),
    {
        let loc = locs[i];
        proof {
            assert(locs@.take(i + 1).drop_last() =~= locs@.take(i as int));
            lemma_sums_prefix(data, locs@, i + 1);
        }
        if data.at(&loc) == 0 {
            let tails = data.find_tails(&loc);
            proof {
                lemma_score(data, loc, tails@);
            }
            sum = sum + tails.len();
        }
    }
    proof {
        assert(locs@.take(locs@.len() as int) =~= locs@);
    }
    sum
}

/// The sum over trailheads of the number of trails from each.
pub fn part2(data: &Layout) -> (r: usize)
    requires
        layout_ok(data),
        rating_sum(data, all_locs(data)) <= usize::MAX,
    ensures
        r == rating_sum(data, all_locs(data)),
{
    let locs = data.locs();
    proof {
        lemma_locs_view(data, locs@);
    }
    let mut sum: usize = 0;
    for i in 0..locs.len()
        invariant
            layout_ok(data),
            locs@ == all_locs(data),
            rating_sum(data, all_locs(data)) <= usize::MAX,
            sum == rating_sum(data, locs@.take(i as int)),
    {
        let loc = locs[i];
        proof {
            assert(locs@.take(i + 1).drop_last() =~= locs@.take(i as int));
            lemma_sums_prefix(data, locs@, i + 1);
        }
        if data.at(&loc) == 0 {
            let tails = data.find_tails(&loc);
            proof {
                lemma_trail_bounds(data, loc, loc);
            }
            let mut total: usize = 0;
            for j in 0..tails.len()
                invariant
                    total == sum_counts(tails@.take(j as int)),
                    sum_counts(tails@) == trail_total(data, loc),
                    trail_total(data, loc) <= 262144,
            {
                proof {
                    lemma_count_prefix(tails@, j as int, loc);
                }
                total = total + tails[j].1;
            }
            proof {
                assert(tails@.take(tails@.len() as int) =~= tails@);
            }
            sum = sum + total;
        }
    }
    proof {
        assert(locs@.take(locs@.len() as int) =~= locs@);
    }
    sum
}

/// `a` and `b` are neighbours across one side.
pub open spec fn side_by_side(a: Loc, b: Loc) -> bool {
    ||| (a.0 == b.0 && (b.1 - a.1 == 1 || a.1 - b.1 == 1))
    ||| (a.1 == b.1 && (b.0 - a.0 == 1 || a.0 - b.0 == 1))
}

/// A hiking trail: each location is beside the one before and one higher.
pub open spec fn is_trail(m: &Layout, p: Seq<Loc>) -> bool {
    &&& p.len() >= 1
    &&& forall|i: int| 0 <= i < p.len() - 1 ==> side_by_side(#[trigger] p[i], p[i + 1])
    &&& forall|i: int| 0 <= i < p.len() - 1 ==> height(m, #[trigger] p[i + 1]) == height(m, p[i]) + 1
}

proof fn lemma_trail_found(m: &Layout, l: Loc, e: Loc) -> (p: Seq<Loc>)
    requires
        layout_ok(m),
        tail_count(m, l, e) > 0,
    ensures
        is_trail(m, p),
        p[0] == l,
        p.last() == e,
        height(m, e) == 9,
        0 <= height(m, l) <= 9,
    decreases 10 - height(m, l),
{
    let h = height(m, l);
    if h == 9 {
        seq![l]
    } else {
        let nu = step_loc(l, Step::Up);
        let nd = step_loc(l, Step::Down);
        let nl = step_loc(l, Step::Left);
        let nr = step_loc(l, Step::Right);
        let n = if height(m, nu) == h + 1 && tail_count(m, nu, e) > 0 {
            nu
        } else if height(m, nd) == h + 1 && tail_count(m, nd, e) > 0 {
            nd
        } else if height(m, nl) == h + 1 && tail_count(m, nl, e) > 0 {
            nl
        } else {
            nr
        };
        assert(height(m, n) == h + 1 && tail_count(m, n, e) > 0);
        assert(on_map(m, l) && on_map(m, n));
        assert(side_by_side(l, n));
        let q = lemma_trail_found(m, n, e);
        let p = seq![l] + q;
        assert forall|i: int| 0 <= i < p.len() - 1 implies side_by_side(#[trigger] p[i], p[i + 1]) by {
            if i > 0 {
                assert(p[i] == q[i - 1] && p[i + 1] == q[i]);
            }
        }
        assert forall|i: int| 0 <= i < p.len() - 1 implies height(m, #[trigger] p[i + 1]) == height(m, p[i]) + 1 by {
            if i > 0 {
                assert(p[i] == q[i - 1] && p[i + 1] == q[i]);
            }
        }
        p
    }
}

proof fn lemma_trail_counted(m: &Layout, p: Seq<Loc>)
    requires
        layout_ok(m),
        is_trail(m, p),
        0 <= height(m, p[0]),
        height(m, p.last()) == 9,
    ensures
        tail_count(m, p[0], p.last()) > 0,
    decreases p.len(),
{
    let l = p[0];
    let h = height(m, l);
    if p.len() == 1 {
    } else {
        let q = p.skip(1);
        assert(q.last() == p.last());
        assert forall|i: int| 0 <= i < q.len() - 1 implies side_by_side(#[trigger] q[i], q[i + 1]) by {
            assert(q[i] == p[i + 1] && q[i + 1] == p[i + 2]);
        }
        assert forall|i: int| 0 <= i < q.len() - 1 implies height(m, #[trigger] q[i + 1]) == height(m, q[i]) + 1 by {
            assert(q[i] == p[i + 1] && q[i + 1] == p[i + 2]);
        }
        assert(height(m, p[1]) == h + 1);
        assert(side_by_side(p[0], p[1]));
        lemma_trail_counted(m, q);
        let n = p[1];
        assert(on_map(m, l) && on_map(m, n));
        assert(h < 9) by {
            lemma_trail_heights(m, p, p.len() - 1);
        }
        if n.0 == l.0 - 1 {
            assert(n == step_loc(l, Step::Up));
        } else if n.0 == l.0 + 1 {
            assert(n == step_loc(l, Step::Down));
        } else if n.1 == l.1 - 1 {
            assert(n == step_loc(l, Step::Left));
        } else {
            assert(n == step_loc(l, Step::Right));
        }
    }
}

proof fn lemma_trail_heights(m: &Layout, p: Seq<Loc>, i: int)
    requires
        is_trail(m, p),
        0 <= i < p.len(),
    ensures
        height(m, p[i]) == height(m, p[0]) + i,
    decreases i,
{
    if i > 0 {
        lemma_trail_heights(m, p, i - 1);
        assert(height(m, p[(i - 1) + 1]) == height(m, p[i - 1]) + 1);
    }
}

/// The summits counted for a trailhead are exactly the places of height 9
/// that some hiking trail from it reaches, climbing by one at each step to a
/// neighbour across a side.
pub proof fn lemma_summits_are_trail_ends(m: &Layout, l: Loc, e: Loc)
    requires
        layout_ok(m),
    ensures
        summits(m, l).contains(e) <==> 0 <= height(m, l) && height(m, e) == 9 && exists|p: Seq<Loc>|
            #[trigger] is_trail(m, p) && p[0] == l && p.last() == e,
{
    if summits(m, l).contains(e) {
        let p = lemma_trail_found(m, l, e);
    }
    if 0 <= height(m, l) && height(m, e) == 9 && exists|p: Seq<Loc>| #[trigger] is_trail(m, p) && p[0] == l && p.last() == e {
        let p = choose|p: Seq<Loc>| #[trigger] is_trail(m, p) && p[0] == l && p.last() == e;
        lemma_trail_counted(m, p);
    }
}

} // verus!
