//! Locations, offsets, cell edges and a dense row-major grid.

use vstd::prelude::*;

use crate::text::{split, trim, trimmed_lines, utf8_byte_len, utf8_len, views};

verus! {

/// A location (row, col) on a grid.
#[derive(Clone, Copy, Debug, Eq, Hash, Ord, PartialEq, PartialOrd, Structural)]
pub struct Loc(pub i32, pub i32);

/// True when the integer fits in an `i32`.
pub open spec fn fits_i32(x: int) -> bool {
    i32::MIN <= x <= i32::MAX
}

impl Loc {
    pub fn new(row: i32, col: i32) -> (r: Self)
        ensures
            r == Loc(row, col),
    {
        Self(row, col)
    }

    pub fn from_usize(row: usize, col: usize) -> (r: Self)
        requires
            row <= i32::MAX,
            col <= i32::MAX,
        ensures
            r.0 == row,
            r.1 == col,
    {
        Self(row as i32, col as i32)
    }

    pub fn from_u32(row: u32, col: u32) -> (r: Self)
        requires
            row <= i32::MAX,
            col <= i32::MAX,
        ensures
            r.0 == row,
            r.1 == col,
    {
        Self(row as i32, col as i32)
    }

    pub fn from_u64(row: u64, col: u64) -> (r: Self)
        requires
            row <= i32::MAX,
            col <= i32::MAX,
        ensures
            r.0 == row,
            r.1 == col,
    {
        Self(row as i32, col as i32)
    }

    pub fn from_i64(row: i64, col: i64) -> (r: Self)
        requires
            fits_i32(row as int),
            fits_i32(col as int),
        ensures
            r.0 == row,
            r.1 == col,
    {
        Self(row as i32, col as i32)
    }

    pub fn row(&self) -> (r: i32)
        ensures
            r == self.0,
    {
        self.0
    }

    /// The row reinterpreted as `u32` (two's complement for negative rows).
    pub fn row_u32(&self) -> (r: u32)
        ensures
            r == self.0 as u32,
            self.0 >= 0 ==> r == self.0,
    {
        self.0 as u32
    }

    /// The row reinterpreted as `usize` (sign-extended for negative rows).
    pub fn row_usize(&self) -> (r: usize)
        ensures
            r == self.0 as usize,
            self.0 >= 0 ==> r == self.0,
    {
        self.0 as usize
    }

    pub fn col(&self) -> (r: i32)
        ensures
            r == self.1,
    {
        self.1
    }

    /// The column reinterpreted as `u32` (two's complement for negative columns).
    pub fn col_u32(&self) -> (r: u32)
        ensures
            r == self.1 as u32,
            self.1 >= 0 ==> r == self.1,
    {
        self.1 as u32
    }

    /// The column reinterpreted as `usize` (sign-extended for negative columns).
    pub fn col_usize(&self) -> (r: usize)
        ensures
            r == self.1 as usize,
            self.1 >= 0 ==> r == self.1,
    {
        self.1 as usize
    }
}

/// An offset (nrows, ncols) between two locations.
#[derive(Clone, Copy, Debug, Eq, Hash, PartialEq, Structural)]
pub struct Delta(pub i32, pub i32);

impl Delta {
    pub open spec fn spec_up() -> Delta {
        Delta(-1i32, 0i32)
    }

    pub open spec fn spec_down() -> Delta {
        Delta(1i32, 0i32)
    }

    pub open spec fn spec_left() -> Delta {
        Delta(0i32, -1i32)
    }

    pub open spec fn spec_right() -> Delta {
        Delta(0i32, 1i32)
    }

    /// One row up.
    #[verifier::when_used_as_spec(spec_up)]
    pub fn up() -> (r: Delta)
        ensures
            r == Delta(-1i32, 0i32),
    {
        Delta(-1i32, 0i32)
    }

    /// One row down.
    #[verifier::when_used_as_spec(spec_down)]
    pub fn down() -> (r: Delta)
        ensures
            r == Delta(1i32, 0i32),
    {
        Delta(1i32, 0i32)
    }

    /// One column left.
    #[verifier::when_used_as_spec(spec_left)]
    pub fn left() -> (r: Delta)
        ensures
            r == Delta(0i32, -1i32),
    {
        Delta(0i32, -1i32)
    }

    /// One column right.
    #[verifier::when_used_as_spec(spec_right)]
    pub fn right() -> (r: Delta)
        ensures
            r == Delta(0i32, 1i32),
    {
        Delta(0i32, 1i32)
    }

    pub fn new(nrows: i32, ncols: i32) -> (r: Self)
        ensures
            r == Delta(nrows, ncols),
    {
        Self(nrows, ncols)
    }

    pub fn nrows(&self) -> (r: i32)
        ensures
            r == self.0,
    {
        self.0
    }

    pub fn ncols(&self) -> (r: i32)
        ensures
            r == self.1,
    {
        self.1
    }

    /// Rotates the offset a quarter turn clockwise (rows grow downward).
    pub fn rot_cw(&self) -> (r: Self)
        requires
            self.0 != i32::MIN,
        ensures
            r == quarter_cw(*self),
    {
        Self(self.ncols(), -self.nrows())
    }

    /// Rotates the offset a quarter turn counter-clockwise.
    pub fn rot_ccw(&self) -> (r: Self)
        requires
            self.1 != i32::MIN,
        ensures
            r == quarter_ccw(*self),
    {
        Self(-self.ncols(), self.nrows())
    }
}

/// The offset turned a quarter clockwise (rows grow downward).
pub open spec fn quarter_cw(d: Delta) -> Delta {
    Delta(d.1, (-d.0) as i32)
}

/// The offset turned a quarter counter-clockwise.
pub open spec fn quarter_ccw(d: Delta) -> Delta {
    Delta((-d.1) as i32, d.0)
}

/// A counter-clockwise quarter turn undoes a clockwise one and the other way
/// round, and four clockwise quarter turns come back to the start.
pub proof fn lemma_quarter_turns(d: Delta)
    requires
        d.0 != i32::MIN,
        d.1 != i32::MIN,
    ensures
        quarter_ccw(quarter_cw(d)) == d,
        quarter_cw(quarter_ccw(d)) == d,
        quarter_cw(quarter_cw(quarter_cw(quarter_cw(d)))) == d,
{
}

/// True when `a + d` stays within `i32` coordinates.
pub open spec fn can_shift(a: Loc, d: Delta) -> bool {
    fits_i32(a.0 + d.0) && fits_i32(a.1 + d.1)
}

/// The location `a + d`, meaningful when `can_shift(a, d)`.
pub open spec fn shifted(a: Loc, d: Delta) -> Loc {
    Loc((a.0 + d.0) as i32, (a.1 + d.1) as i32)
}

/// True when `b - a` stays within `i32` offsets.
pub open spec fn can_diff(b: Loc, a: Loc) -> bool {
    fits_i32(b.0 - a.0) && fits_i32(b.1 - a.1)
}

/// The offset `b - a`, meaningful when `can_diff(b, a)`.
pub open spec fn diff(b: Loc, a: Loc) -> Delta {
    Delta((b.0 - a.0) as i32, (b.1 - a.1) as i32)
}

impl core::ops::Sub for Loc {
    type Output = Delta;

    fn sub(self, rhs: Loc) -> (r: Delta) {
        let nrows = self.row() - rhs.row();
        let ncols = self.col() - rhs.col();
        Delta::new(nrows, ncols)
    }
}

impl vstd::std_specs::ops::SubSpecImpl for Loc {
    open spec fn obeys_sub_spec() -> bool {
        true
    }

    open spec fn sub_req(self, rhs: Loc) -> bool {
        can_diff(self, rhs)
    }

    open spec fn sub_spec(self, rhs: Loc) -> Delta {
        diff(self, rhs)
    }
}

impl core::ops::Add<Delta> for Loc {
    type Output = Loc;

    fn add(self, rhs: Delta) -> (r: Loc) {
        let row = self.row() + rhs.nrows();
        let col = self.col() + rhs.ncols();
        Loc::new(row, col)
    }
}

impl vstd::std_specs::ops::AddSpecImpl<Delta> for Loc {
    open spec fn obeys_add_spec() -> bool {
        true
    }

    open spec fn add_req(self, rhs: Delta) -> bool {
        can_shift(self, rhs)
    }

    open spec fn add_spec(self, rhs: Delta) -> Loc {
        shifted(self, rhs)
    }
}

/// An edge of a grid cell: `Horizontal(loc)` is the top edge of `loc`,
/// `Vertical(loc)` its left edge.
#[derive(Clone, Copy, Debug, Eq, Hash, Ord, PartialEq, PartialOrd, Structural)]
pub enum Edge {
    Horizontal(Loc),
    Vertical(Loc),
}

/// Raised when two cells are not side by side.
#[derive(Clone, Copy, Debug, PartialEq, Eq, Structural)]
pub struct NoEdgeError(pub Loc, pub Loc);

/// The edge shared by `a` and `b` when `b - a` is a unit step.
pub open spec fn spec_edge_between(a: Loc, b: Loc, d: Delta) -> Option<Edge> {
    if d == Delta::right() {
        Some(Edge::Vertical(b))
    } else if d == Delta::down() {
        Some(Edge::Horizontal(b))
    } else if d == Delta::left() {
        Some(Edge::Vertical(a))
    } else if d == Delta::up() {
        Some(Edge::Horizontal(a))
    } else {
        None
    }
}

/// The edge right of a horizontal edge, or below a vertical one.
pub open spec fn spec_edge_next(e: Edge) -> Edge {
    match e {
        Edge::Horizontal(loc) => Edge::Horizontal(shifted(loc, Delta::right())),
        Edge::Vertical(loc) => Edge::Vertical(shifted(loc, Delta::down())),
    }
}

/// True when the edge can be advanced without leaving `i32` coordinates.
pub open spec fn can_advance(e: Edge) -> bool {
    match e {
        Edge::Horizontal(loc) => can_shift(loc, Delta::right()),
        Edge::Vertical(loc) => can_shift(loc, Delta::down()),
    }
}

fn edge_for_step(a: Loc, b: Loc, delta: Delta) -> (r: Result<Edge, NoEdgeError>)
    ensures
        match spec_edge_between(a, b, delta) {
            Some(e) => r == Ok::<Edge, NoEdgeError>(e),
            None => r == Err::<Edge, NoEdgeError>(NoEdgeError(a, b)),
        },
{
    if delta == Delta::right() {
        Ok(Edge::Vertical(b))
    } else if delta == Delta::down() {
        Ok(Edge::Horizontal(b))
    } else if delta == Delta::left() {
        Ok(Edge::Vertical(a))
    } else if delta == Delta::up() {
        Ok(Edge::Horizontal(a))
    } else {
        Err(NoEdgeError(a, b))
    }
}

impl Edge {
    /// The edge crossed when stepping from `a` by `delta`.
    pub fn beside(a: Loc, delta: Delta) -> (r: Result<Self, NoEdgeError>)
        requires
            can_shift(a, delta),
        ensures
            match spec_edge_between(a, shifted(a, delta), delta) {
                Some(e) => r == Ok::<Edge, NoEdgeError>(e),
                None => r == Err::<Edge, NoEdgeError>(NoEdgeError(a, shifted(a, delta))),
            },
    {
        let b = a + delta;
        edge_for_step(a, b, delta)
    }

    /// The edge shared by two cells that are side by side.
    pub fn between(a: Loc, b: Loc) -> (r: Result<Self, NoEdgeError>)
        requires
            can_diff(b, a),
        ensures
            match spec_edge_between(a, b, diff(b, a)) {
                Some(e) => r == Ok::<Edge, NoEdgeError>(e),
                None => r == Err::<Edge, NoEdgeError>(NoEdgeError(a, b)),
            },
    {
        let delta = b - a;
        edge_for_step(a, b, delta)
    }

    /// The next edge along the same line.
    pub fn next(&self) -> (r: Self)
        requires
            can_advance(*self),
        ensures
            r == spec_edge_next(*self),
    {
        match self {
            Edge::Horizontal(loc) => Edge::Horizontal(*loc + Delta::right()),
            Edge::Vertical(loc) => Edge::Vertical(*loc + Delta::down()),
        }
    }
}


/// Adding the difference `b - a` to `a` gives back `b`, and the difference
/// between `a + d` and `a` is `d`.
pub proof fn lemma_shift_diff(a: Loc, b: Loc, d: Delta)
    ensures
        can_diff(b, a) ==> can_shift(a, diff(b, a)) && shifted(a, diff(b, a)) == b,
        can_shift(a, d) ==> can_diff(shifted(a, d), a) && diff(shifted(a, d), a) == d,
{
}

/// The edge between two cells does not depend on which of them comes first.
pub proof fn lemma_between_symmetric(a: Loc, b: Loc)
    requires
        can_diff(b, a),
        can_diff(a, b),
    ensures
        spec_edge_between(a, b, diff(b, a)) == spec_edge_between(b, a, diff(a, b)),
{
}

/// The edge beside `a` toward `d` is the edge between `a` and `a + d`.
pub proof fn lemma_beside_is_between(a: Loc, d: Delta)
    requires
        can_shift(a, d),
    ensures
        can_diff(shifted(a, d), a),
        spec_edge_between(a, shifted(a, d), d) == spec_edge_between(a, shifted(a, d), diff(shifted(a, d), a)),
{
}

/// Position of (row, col) in row-major data with `ncols` columns.
pub open spec fn cell_index(ncols: int, row: int, col: int) -> int {
    row * ncols + col
}

/// A cell inside an `nrows` x `ncols` grid has its index inside the data.
pub proof fn lemma_cell_index(nrows: int, ncols: int, row: int, col: int)
    requires
        0 <= row < nrows,
        0 <= col < ncols,
    ensures
        0 <= cell_index(ncols, row, col) < nrows * ncols,
        cell_index(ncols, row, col) + ncols - col <= nrows * ncols,
        cell_index(ncols, row + 1, 0) == cell_index(ncols, row, col) + ncols - col,
        row * ncols <= (nrows - 1) * ncols,
{
    assert(0 <= row * ncols) by (nonlinear_arith)
        requires
            0 <= row,
            0 <= ncols,
    ;
    assert((row + 1) * ncols <= nrows * ncols) by (nonlinear_arith)
        requires
            row + 1 <= nrows,
            0 <= ncols,
    ;
    assert((row + 1) * ncols == row * ncols + ncols) by (nonlinear_arith);
    assert(row * ncols <= (nrows - 1) * ncols) by (nonlinear_arith)
        requires
            row <= nrows - 1,
            0 <= ncols,
    ;
}

/// A row-major index splits back into the row and column it came from.
pub proof fn lemma_cell_index_split(nrows: int, ncols: int, i: int)
    requires
        0 < ncols,
        0 <= i < nrows * ncols,
    ensures
        0 <= i / ncols < nrows,
        0 <= i % ncols < ncols,
        cell_index(ncols, i / ncols, i % ncols) == i,
{
    vstd::arithmetic::div_mod::lemma_fundamental_div_mod(i, ncols);
    vstd::arithmetic::div_mod::lemma_mod_pos_bound(i, ncols);
    let q = i / ncols;
    let r = i % ncols;
    assert(q * ncols == ncols * q) by (nonlinear_arith);
    assert(0 <= q) by (nonlinear_arith)
        requires
            i == ncols * q + r,
            0 <= i,
            r < ncols,
            0 < ncols,
    ;
    assert(q < nrows) by (nonlinear_arith)
        requires
            i == ncols * q + r,
            i < nrows * ncols,
            0 <= r,
            0 < ncols,
    ;
}

/// The row and column of a cell come back from its row-major index.
pub proof fn lemma_cell_index_join(ncols: int, row: int, col: int)
    requires
        0 <= col < ncols,
    ensures
        cell_index(ncols, row, col) / ncols == row,
        cell_index(ncols, row, col) % ncols == col,
{
    vstd::arithmetic::div_mod::lemma_fundamental_div_mod_converse(cell_index(ncols, row, col), ncols, row, col);
}

/// Distinct cells of a grid have distinct indices.
pub proof fn lemma_cell_index_injective(ncols: int, r1: int, c1: int, r2: int, c2: int)
    requires
        0 <= c1 < ncols,
        0 <= c2 < ncols,
        cell_index(ncols, r1, c1) == cell_index(ncols, r2, c2),
    ensures
        r1 == r2,
        c1 == c2,
{
    if r1 < r2 {
        assert(r1 * ncols + ncols <= r2 * ncols) by (nonlinear_arith)
            requires
                r1 + 1 <= r2,
                0 <= ncols,
        ;
    } else if r2 < r1 {
        assert(r2 * ncols + ncols <= r1 * ncols) by (nonlinear_arith)
            requires
                r2 + 1 <= r1,
                0 <= ncols,
        ;
    }
}

/// A value made by cloning what `T::default()` returns.
pub open spec fn is_default_clone<T: Default + Clone>(x: T) -> bool {
    exists|d: T| call_ensures(T::default, (), d) && cloned(d, x)
}

/// A dense grid of `nrows` x `ncols` cells, stored row by row.
#[derive(Debug, Eq, PartialEq)]
pub struct Grid<T> {
    nrows: u32,
    ncols: u32,
    data: Vec<T>,
}

impl<T: Clone> Clone for Grid<T> {
    /// A grid of the same shape holding a clone of each cell.
    fn clone(&self) -> (r: Self)
        ensures
            r.spec_nrows() == self.spec_nrows(),
            r.spec_ncols() == self.spec_ncols(),
            r@.len() == self@.len(),
            forall|i: int| 0 <= i < self@.len() ==> cloned(#[trigger] self@[i], r@[i]),
    {
        Grid { nrows: self.nrows, ncols: self.ncols, data: self.data.clone() }
    }
}

impl<T> View for Grid<T> {
    type V = Seq<T>;

    closed spec fn view(&self) -> Seq<T> {
        self.data@
    }
}

impl<T> Grid<T> {
    /// Number of rows.
    pub closed spec fn spec_nrows(&self) -> nat {
        self.nrows as nat
    }

    /// Number of columns.
    pub closed spec fn spec_ncols(&self) -> nat {
        self.ncols as nat
    }

    /// The cell count fits in a `u32` and the data holds exactly one value per cell.
    pub open spec fn wf(&self) -> bool {
        &&& self.spec_nrows() * self.spec_ncols() <= u32::MAX
        &&& self@.len() == self.spec_nrows() * self.spec_ncols()
    }

    /// True when (row, col) is a cell of the grid.
    pub open spec fn in_bounds(&self, row: int, col: int) -> bool {
        0 <= row < self.spec_nrows() && 0 <= col < self.spec_ncols()
    }

    /// The value at (row, col).
    pub open spec fn cell(&self, row: int, col: int) -> T {
        self@[cell_index(self.spec_ncols() as int, row, col)]
    }

    /// Every cell's row and column fit in an `i32`, so each cell has a `Loc`.
    pub open spec fn locs_fit(&self) -> bool {
        self.spec_nrows() * self.spec_ncols() == 0 || (self.spec_nrows() <= 0x8000_0000
            && self.spec_ncols() <= 0x8000_0000)
    }

    /// True when `other` has the same shape and `f` relates each of its cells to
    /// the matching cell here.
    pub open spec fn same_shape<O>(&self, other: &Grid<O>) -> bool {
        &&& other.wf()
        &&& other.spec_nrows() == self.spec_nrows()
        &&& other.spec_ncols() == self.spec_ncols()
    }
}

/// True when `x` is a clone of some value that `f` returns on `(loc, v)`.
pub open spec fn made_by<T, O: Clone, F: Fn((Loc, &T)) -> O>(f: F, loc: Loc, v: &T, x: O) -> bool {
    exists|o: O| call_ensures(f, ((loc, v),), o) && cloned(o, x)
}

/// A value written at one cell is read back there, and every other cell keeps
/// its value.
pub proof fn lemma_write_then_read<T>(g: Grid<T>, after: Grid<T>, row: int, col: int, v: T)
    requires
        g.wf(),
        g.in_bounds(row, col),
        after.spec_nrows() == g.spec_nrows(),
        after.spec_ncols() == g.spec_ncols(),
        after@ == g@.update(cell_index(g.spec_ncols() as int, row, col), v),
    ensures
        after.wf(),
        after.cell(row, col) == v,
        forall|r: int, c: int|
            g.in_bounds(r, c) && (r != row || c != col) ==> #[trigger] after.cell(r, c) == g.cell(r, c),
{
    let nr = g.spec_nrows() as int;
    let nc = g.spec_ncols() as int;
    lemma_cell_index(nr, nc, row, col);
    assert forall|r: int, c: int|
        g.in_bounds(r, c) && (r != row || c != col) implies #[trigger] after.cell(r, c) == g.cell(r, c) by {
        lemma_cell_index(nr, nc, r, c);
        if cell_index(nc, r, c) == cell_index(nc, row, col) {
            lemma_cell_index_injective(nc, r, c, row, col);
        }
    }
}

impl<T: Default + Clone> Grid<T> {
    /// A grid filled with `T::default()`.
    pub fn new(nrows: u32, ncols: u32) -> (r: Self)
        requires
            nrows * ncols <= u32::MAX,
        ensures
            r.wf(),
            r.spec_nrows() == nrows,
            r.spec_ncols() == ncols,
            forall|i: int| 0 <= i < r@.len() ==> is_default_clone(#[trigger] r@[i]),
    {
        let d = T::default();
        let r = Self::from_value(nrows, ncols, d);
        assert forall|i: int| 0 <= i < r@.len() implies is_default_clone(#[trigger] r@[i]) by {
            assert(cloned(d, r@[i]));
        }
        r
    }

    /// A grid filled with `T::default()`, with dimensions given as `u64`.
    pub fn new_u64(nrows: u64, ncols: u64) -> (r: Self)
        requires
            nrows <= u32::MAX,
            ncols <= u32::MAX,
            nrows * ncols <= u32::MAX,
        ensures
            r.wf(),
            r.spec_nrows() == nrows,
            r.spec_ncols() == ncols,
            forall|i: int| 0 <= i < r@.len() ==> is_default_clone(#[trigger] r@[i]),
    {
        Self::new(nrows as u32, ncols as u32)
    }

    /// A grid filled with `T::default()`, with dimensions given as `usize`.
    pub fn new_usize(nrows: usize, ncols: usize) -> (r: Self)
        requires
            nrows <= u32::MAX,
            ncols <= u32::MAX,
            nrows * ncols <= u32::MAX,
        ensures
            r.wf(),
            r.spec_nrows() == nrows,
            r.spec_ncols() == ncols,
            forall|i: int| 0 <= i < r@.len() ==> is_default_clone(#[trigger] r@[i]),
    {
        Self::new(nrows as u32, ncols as u32)
    }

    /// A grid holding a clone of `value` in every cell.
    pub fn from_value(nrows: u32, ncols: u32, value: T) -> (r: Self)
        requires
            nrows * ncols <= u32::MAX,
        ensures
            r.wf(),
            r.spec_nrows() == nrows,
            r.spec_ncols() == ncols,
            forall|i: int| 0 <= i < r@.len() ==> cloned(value, #[trigger] r@[i]),
    {
        let size = (nrows * ncols) as usize;
        let data = vec![value; size];
        Self { nrows, ncols, data }
    }

    /// A grid holding a clone of `value` in every cell, with dimensions given as `u64`.
    pub fn from_value_u64(nrows: u64, ncols: u64, value: T) -> (r: Self)
        requires
            nrows <= u32::MAX,
            ncols <= u32::MAX,
            nrows * ncols <= u32::MAX,
        ensures
            r.wf(),
            r.spec_nrows() == nrows,
            r.spec_ncols() == ncols,
            forall|i: int| 0 <= i < r@.len() ==> cloned(value, #[trigger] r@[i]),
    {
        let nrows = nrows as u32;
        let ncols = ncols as u32;
        let size = (nrows * ncols) as usize;
        let data = vec![value; size];
        Self { nrows, ncols, data }
    }

    /// A grid holding a clone of `value` in every cell, with dimensions given as `usize`.
    pub fn from_value_usize(nrows: usize, ncols: usize, value: T) -> (r: Self)
        requires
            nrows <= u32::MAX,
            ncols <= u32::MAX,
            nrows * ncols <= u32::MAX,
        ensures
            r.wf(),
            r.spec_nrows() == nrows,
            r.spec_ncols() == ncols,
            forall|i: int| 0 <= i < r@.len() ==> cloned(value, #[trigger] r@[i]),
    {
        let nrows = nrows as u32;
        let ncols = ncols as u32;
        let size = (nrows * ncols) as usize;
        let data = vec![value; size];
        Self { nrows, ncols, data }
    }

    /// A grid whose cell (row, col) is a clone of `input[row][col]`.
    pub fn from_array(nrows: u32, ncols: u32, input: &[&[T]]) -> (r: Self)
        requires
            nrows * ncols <= u32::MAX,
            nrows * ncols == 0 || (nrows <= 0x8000_0000 && ncols <= 0x8000_0000),
            ncols > 0 ==> input@.len() >= nrows,
            forall|row: int| 0 <= row < nrows && ncols > 0 ==> (#[trigger] input@[row])@.len() >= ncols,
        ensures
            r.wf(),
            r.spec_nrows() == nrows,
            r.spec_ncols() == ncols,
            forall|row: int, col: int|
                r.in_bounds(row, col) ==> cloned(input@[row]@[col], #[trigger] r.cell(row, col)),
    {
        let mut out: Grid<T> = Grid::new(nrows, ncols);
        let locs = out.each_loc();
        let n = locs.len();
        let ghost nc = ncols as int;
        for k in 0..n
            invariant
                n == nrows * ncols,
                n == locs@.len(),
                nc == ncols,
                nrows * ncols == 0 || (nrows <= 0x8000_0000 && ncols <= 0x8000_0000),
                out.wf(),
                out.spec_nrows() == nrows,
                out.spec_ncols() == ncols,
                nrows * ncols <= u32::MAX,
                ncols > 0 ==> input@.len() >= nrows,
                forall|row: int| 0 <= row < nrows && ncols > 0 ==> (#[trigger] input@[row])@.len() >= ncols,
                forall|row: int, col: int|
                    0 <= row < nrows && 0 <= col < ncols ==> #[trigger] locs@[cell_index(nc, row, col)]
                        == Loc(row as i32, col as i32),
                forall|row: int, col: int|
                    0 <= row < nrows && 0 <= col < ncols && cell_index(nc, row, col) < k ==> cloned(
                        input@[row]@[col],
                        #[trigger] out.cell(row, col),
                    ),
        {
            let ghost kk = k as int;
            let ghost row = kk / nc;
            let ghost col = kk % nc;
            proof {
                assert(ncols > 0) by {
                    if ncols == 0 {
                        assert(nrows * ncols == 0) by (nonlinear_arith)
                            requires ncols == 0;
                    }
                }
                vstd::arithmetic::div_mod::lemma_fundamental_div_mod(kk, nc);
                assert(0 <= row < nrows) by {
                    vstd::arithmetic::div_mod::lemma_div_pos_is_pos(kk, nc);
                    if row >= nrows {
                        assert(row * nc >= nrows * nc) by (nonlinear_arith)
                            requires row >= nrows, nc > 0;
                    }
                }
                assert(kk == cell_index(nc, row, col));
            }
            let loc = locs[k];
            let r = loc.row_usize();
            let c = loc.col_usize();
            let v = input[r][c].clone();
            let ghost before = out;
            *out.at_mut(loc) = v;
            assert forall|r2: int, c2: int|
                0 <= r2 < nrows && 0 <= c2 < ncols && cell_index(nc, r2, c2) < k + 1 implies cloned(
                input@[r2]@[c2],
                #[trigger] out.cell(r2, c2),
            ) by {
                if cell_index(nc, r2, c2) == kk {
                    lemma_cell_index_injective(nc, r2, c2, row, col);
                } else {
                    assert(out.cell(r2, c2) == before.cell(r2, c2));
                }
            }
        }
        assert forall|row: int, col: int| out.in_bounds(row, col) implies cloned(
            input@[row]@[col],
            #[trigger] out.cell(row, col),
        ) by {
            lemma_cell_index(nrows as int, nc, row, col);
        }
        out
    }

    /// All locations of the grid, row by row.
    pub fn each_loc(&self) -> (r: Vec<Loc>)
        requires
            self.wf(),
            self.locs_fit(),
        ensures
            r@.len() == self.spec_nrows() * self.spec_ncols(),
            forall|row: int, col: int|
                self.in_bounds(row, col) ==> #[trigger] r@[cell_index(self.spec_ncols() as int, row, col)]
                    == Loc(row as i32, col as i32),
    {
        let nrows = self.nrows;
        let ncols = self.ncols;
        let ghost nc = ncols as int;
        let mut out: Vec<Loc> = Vec::new();
        for row in 0..nrows
            invariant
                nrows == self.spec_nrows(),
                ncols == self.spec_ncols(),
                nc == ncols,
                self.locs_fit(),
                out@.len() == row * nc,
                forall|r2: int, c2: int|
                    0 <= r2 < row && 0 <= c2 < ncols ==> #[trigger] out@[cell_index(nc, r2, c2)] == Loc(
                        r2 as i32,
                        c2 as i32,
                    ),
        {
            let ghost prev = out@;
            for col in 0..ncols
                invariant
                    nrows == self.spec_nrows(),
                    ncols == self.spec_ncols(),
                    nc == ncols,
                    self.locs_fit(),
                    row < nrows,
                    out@.len() == row * nc + col,
                    out@.subrange(0, row * nc) == prev,
                    prev.len() == row * nc,
                    forall|c2: int| 0 <= c2 < col ==> #[trigger] out@[row * nc + c2] == Loc(row as i32, c2 as i32),
            {
                proof {
                    assert(nrows * ncols > 0) by (nonlinear_arith)
                        requires
                            row < nrows,
                            col < ncols,
                    ;
                }
                out.push(Loc::from_u32(row, col));
                assert(out@.subrange(0, row * nc) =~= prev);
            }
            proof {
                assert((row + 1) * nc == row * nc + nc) by (nonlinear_arith);
                assert forall|r2: int, c2: int|
                    0 <= r2 < row + 1 && 0 <= c2 < ncols implies #[trigger] out@[cell_index(nc, r2, c2)]
                    == Loc(r2 as i32, c2 as i32) by {
                    if r2 < row {
                        lemma_cell_index(row as int, nc, r2, c2);
                        assert(out@[cell_index(nc, r2, c2)] == out@.subrange(0, row * nc)[cell_index(nc, r2, c2)]);
                    }
                }
            }
        }
        out
    }

    /// The cell values, row by row.
    pub fn each_value(&self) -> (r: &[T])
        ensures
            r@ == self@,
    {
        self.data.as_slice()
    }

    /// Mutable access to the cell values, row by row.
    pub fn each_value_mut(&mut self) -> (r: &mut [T])
        ensures
            r@ == old(self)@,
            final(self)@ == final(r)@,
            final(self).spec_nrows() == old(self).spec_nrows(),
            final(self).spec_ncols() == old(self).spec_ncols(),
    {
        self.data.as_mut_slice()
    }

    /// Each location, row by row, beside the values in the same order to
    /// change in place: entry `k` of the values is the cell at entry `k` of the
    /// locations.
    pub fn each_item_mut(&mut self) -> (r: (Vec<Loc>, &mut [T]))
        requires
            old(self).wf(),
            old(self).locs_fit(),
        ensures
            r.0@.len() == old(self)@.len(),
            forall|row: int, col: int|
                old(self).in_bounds(row, col) ==> #[trigger] r.0@[cell_index(old(self).spec_ncols() as int, row, col)]
                    == Loc(row as i32, col as i32),
            r.1@ == old(self)@,
            final(self)@ == final(r.1)@,
            final(self).spec_nrows() == old(self).spec_nrows(),
            final(self).spec_ncols() == old(self).spec_ncols(),
    {
        let locs = self.each_loc();
        (locs, self.each_value_mut())
    }

    /// Each location paired with its value, row by row.
    pub fn each_item(&self) -> (r: Vec<(Loc, &T)>)
        requires
            self.wf(),
            self.locs_fit(),
        ensures
            r@.len() == self@.len(),
            forall|row: int, col: int|
                self.in_bounds(row, col) ==> #[trigger] r@[cell_index(self.spec_ncols() as int, row, col)]
                    == (Loc(row as i32, col as i32), &self.cell(row, col)),
    {
        let locs = self.each_loc();
        let values = self.each_value();
        let n = locs.len();
        let ghost nc = self.spec_ncols() as int;
        let mut out: Vec<(Loc, &T)> = Vec::new();
        for k in 0..n
            invariant
                n == locs@.len(),
                n == values@.len(),
                values@ == self@,
                out@.len() == k,
                forall|j: int| 0 <= j < k ==> #[trigger] out@[j] == (locs@[j], &values@[j]),
        {
            out.push((locs[k], &values[k]));
        }
        assert forall|row: int, col: int| self.in_bounds(row, col) implies #[trigger] out@[cell_index(
            nc,
            row,
            col,
        )] == (Loc(row as i32, col as i32), &self.cell(row, col)) by {
            lemma_cell_index(self.spec_nrows() as int, nc, row, col);
        }
        out
    }

    /// A grid of the same shape whose cells are clones of `f((loc, value))`.
    pub fn transform<O, F>(&self, f: F) -> (r: Grid<O>) where
        F: Fn((Loc, &T)) -> O,
        O: Clone + Default,

        requires
            self.wf(),
            self.locs_fit(),
            forall|row: int, col: int|
                self.in_bounds(row, col) ==> call_requires(
                    f,
                    ((Loc(row as i32, col as i32), &#[trigger] self.cell(row, col)),),
                ),
        ensures
            self.same_shape(&r),
            forall|row: int, col: int|
                self.in_bounds(row, col) ==> made_by(
                    f,
                    Loc(row as i32, col as i32),
                    &self.cell(row, col),
                    #[trigger] r.cell(row, col),
                ),
    {
        let mut out: Grid<O> = Grid::new(self.nrows, self.ncols);
        let items = self.each_item();
        let n = items.len();
        let ghost nc = self.spec_ncols() as int;
        let ghost nr = self.spec_nrows() as int;
        for k in 0..n
            invariant
                n == items@.len(),
                n == nr * nc,
                nr == self.spec_nrows(),
                nc == self.spec_ncols(),
                self.wf(),
                self.locs_fit(),
                self.same_shape(&out),
                forall|row: int, col: int|
                    self.in_bounds(row, col) ==> #[trigger] items@[cell_index(nc, row, col)] == (
                        Loc(row as i32, col as i32),
                        &self.cell(row, col),
                    ),
                forall|row: int, col: int|
                    self.in_bounds(row, col) ==> call_requires(
                        f,
                        ((Loc(row as i32, col as i32), &#[trigger] self.cell(row, col)),),
                    ),
                forall|row: int, col: int|
                    self.in_bounds(row, col) && cell_index(nc, row, col) < k ==> made_by(
                        f,
                        Loc(row as i32, col as i32),
                        &self.cell(row, col),
                        #[trigger] out.cell(row, col),
                    ),
        {
            let ghost kk = k as int;
            let ghost row = kk / nc;
            let ghost col = kk % nc;
            proof {
                assert(nc > 0) by {
                    if nc == 0 {
                        assert(nr * nc == 0) by (nonlinear_arith)
                            requires nc == 0;
                    }
                }
                vstd::arithmetic::div_mod::lemma_fundamental_div_mod(kk, nc);
                assert(0 <= row < nr) by {
                    vstd::arithmetic::div_mod::lemma_div_pos_is_pos(kk, nc);
                    if row >= nr {
                        assert(row * nc >= nr * nc) by (nonlinear_arith)
                            requires row >= nr, nc > 0;
                    }
                }
                assert(kk == cell_index(nc, row, col));
                assert(self.in_bounds(row, col));
            }
            let (loc, val) = items[k];
            let o = f((loc, val));
            let v = o.clone();
            let ghost before = out;
            *out.at_mut(loc) = v;
            assert forall|r2: int, c2: int|
                self.in_bounds(r2, c2) && cell_index(nc, r2, c2) < k + 1 implies made_by(
                f,
                Loc(r2 as i32, c2 as i32),
                &self.cell(r2, c2),
                #[trigger] out.cell(r2, c2),
            ) by {
                if cell_index(nc, r2, c2) == kk {
                    lemma_cell_index_injective(nc, r2, c2, row, col);
                    assert(call_ensures(f, ((Loc(r2 as i32, c2 as i32), &self.cell(r2, c2)),), o));
                    assert(cloned(o, out.cell(r2, c2)));
                } else {
                    assert(out.cell(r2, c2) == before.cell(r2, c2));
                }
            }
        }
        assert forall|row: int, col: int| self.in_bounds(row, col) implies made_by(
            f,
            Loc(row as i32, col as i32),
            &self.cell(row, col),
            #[trigger] out.cell(row, col),
        ) by {
            lemma_cell_index(nr, nc, row, col);
        }
        out
    }

    /// The value at `loc`.
    pub fn at(&self, loc: Loc) -> (r: &T)
        requires
            self.wf(),
            self.in_bounds(loc.0 as int, loc.1 as int),
        ensures
            *r == self.cell(loc.0 as int, loc.1 as int),
    {
        self.at_u32(loc.row_u32(), loc.col_u32())
    }

    /// The value at (row, col).
    pub fn at_u32(&self, row: u32, col: u32) -> (r: &T)
        requires
            self.wf(),
            self.in_bounds(row as int, col as int),
        ensures
            *r == self.cell(row as int, col as int),
    {
        let index = self.u32_to_index(row, col);
        &self.data[index]
    }

    /// The value at (row, col), with coordinates given as `u64`.
    pub fn at_u64(&self, row: u64, col: u64) -> (r: &T)
        requires
            self.wf(),
            self.in_bounds(row as int, col as int),
        ensures
            *r == self.cell(row as int, col as int),
    {
        self.at_u32(row as u32, col as u32)
    }

    /// The value at (row, col), with coordinates given as `usize`.
    pub fn at_usize(&self, row: usize, col: usize) -> (r: &T)
        requires
            self.wf(),
            self.in_bounds(row as int, col as int),
        ensures
            *r == self.cell(row as int, col as int),
    {
        self.at_u32(row as u32, col as u32)
    }

    /// The value at (row, col), with coordinates given as `i32`.
    pub fn at_i32(&self, row: i32, col: i32) -> (r: &T)
        requires
            self.wf(),
            self.in_bounds(row as int, col as int),
        ensures
            *r == self.cell(row as int, col as int),
    {
        self.at_u32(row as u32, col as u32)
    }

    /// The value at (row, col), with coordinates given as `i64`.
    pub fn at_i64(&self, row: i64, col: i64) -> (r: &T)
        requires
            self.wf(),
            self.in_bounds(row as int, col as int),
        ensures
            *r == self.cell(row as int, col as int),
    {
        self.at_u32(row as u32, col as u32)
    }

    /// Mutable access to the value at `loc`.
    pub fn at_mut(&mut self, loc: Loc) -> (r: &mut T)
        requires
            old(self).wf(),
            old(self).in_bounds(loc.0 as int, loc.1 as int),
        ensures
            *r == old(self).cell(loc.0 as int, loc.1 as int),
            final(self).spec_nrows() == old(self).spec_nrows(),
            final(self).spec_ncols() == old(self).spec_ncols(),
            final(self)@ == old(self)@.update(
                cell_index(old(self).spec_ncols() as int, loc.0 as int, loc.1 as int),
                *final(r),
            ),
    {
        self.at_u32_mut(loc.row_u32(), loc.col_u32())
    }

    /// Mutable access to the value at (row, col).
    pub fn at_u32_mut(&mut self, row: u32, col: u32) -> (r: &mut T)
        requires
            old(self).wf(),
            old(self).in_bounds(row as int, col as int),
        ensures
            *r == old(self).cell(row as int, col as int),
            final(self).spec_nrows() == old(self).spec_nrows(),
            final(self).spec_ncols() == old(self).spec_ncols(),
            final(self)@ == old(self)@.update(
                cell_index(old(self).spec_ncols() as int, row as int, col as int),
                *final(r),
            ),
    {
        let index = self.u32_to_index(row, col);
        &mut self.data[index]
    }

    /// Mutable access to the value at (row, col), with coordinates given as `u64`.
    pub fn at_u64_mut(&mut self, row: u64, col: u64) -> (r: &mut T)
        requires
            old(self).wf(),
            old(self).in_bounds(row as int, col as int),
        ensures
            *r == old(self).cell(row as int, col as int),
            final(self).spec_nrows() == old(self).spec_nrows(),
            final(self).spec_ncols() == old(self).spec_ncols(),
            final(self)@ == old(self)@.update(
                cell_index(old(self).spec_ncols() as int, row as int, col as int),
                *final(r),
            ),
    {
        self.at_u32_mut(row as u32, col as u32)
    }

    /// Mutable access to the value at (row, col), with coordinates given as `usize`.
    pub fn at_usize_mut(&mut self, row: usize, col: usize) -> (r: &mut T)
        requires
            old(self).wf(),
            old(self).in_bounds(row as int, col as int),
        ensures
            *r == old(self).cell(row as int, col as int),
            final(self).spec_nrows() == old(self).spec_nrows(),
            final(self).spec_ncols() == old(self).spec_ncols(),
            final(self)@ == old(self)@.update(
                cell_index(old(self).spec_ncols() as int, row as int, col as int),
                *final(r),
            ),
    {
        self.at_u32_mut(row as u32, col as u32)
    }

    /// Mutable access to the value at (row, col), with coordinates given as `i32`.
    pub fn at_i32_mut(&mut self, row: i32, col: i32) -> (r: &mut T)
        requires
            old(self).wf(),
            old(self).in_bounds(row as int, col as int),
        ensures
            *r == old(self).cell(row as int, col as int),
            final(self).spec_nrows() == old(self).spec_nrows(),
            final(self).spec_ncols() == old(self).spec_ncols(),
            final(self)@ == old(self)@.update(
                cell_index(old(self).spec_ncols() as int, row as int, col as int),
                *final(r),
            ),
    {
        self.at_u32_mut(row as u32, col as u32)
    }

    /// Mutable access to the value at (row, col), with coordinates given as `i64`.
    pub fn at_i64_mut(&mut self, row: i64, col: i64) -> (r: &mut T)
        requires
            old(self).wf(),
            old(self).in_bounds(row as int, col as int),
        ensures
            *r == old(self).cell(row as int, col as int),
            final(self).spec_nrows() == old(self).spec_nrows(),
            final(self).spec_ncols() == old(self).spec_ncols(),
            final(self)@ == old(self)@.update(
                cell_index(old(self).spec_ncols() as int, row as int, col as int),
                *final(r),
            ),
    {
        self.at_u32_mut(row as u32, col as u32)
    }

    /// Row-major index of (row, col).
    pub fn u32_to_index(&self, row: u32, col: u32) -> (r: usize)
        requires
            self.wf(),
            self.in_bounds(row as int, col as int),
        ensures
            r == cell_index(self.spec_ncols() as int, row as int, col as int),
            r < self@.len(),
    {
        proof {
            lemma_cell_index(self.nrows as int, self.ncols as int, row as int, col as int);
        }
        (row * self.ncols + col) as usize
    }

    pub fn nrows(&self) -> (r: u32)
        ensures
            r == self.spec_nrows(),
    {
        self.nrows
    }

    pub fn ncols(&self) -> (r: u32)
        ensures
            r == self.spec_ncols(),
    {
        self.ncols
    }

    /// The cell values, row by row.
    pub fn raw_data(&self) -> (r: &Vec<T>)
        ensures
            r@ == self@,
    {
        &self.data
    }

    /// Number of cells.
    pub fn size(&self) -> (r: usize)
        requires
            self.wf(),
        ensures
            r == self.spec_nrows() * self.spec_ncols(),
    {
        (self.nrows * self.ncols) as usize
    }
}


/// The lines of a character grid's text: `text.trim().split('\n')`.
pub open spec fn grid_lines(text: Seq<char>) -> Seq<Seq<char>> {
    split(trim(text), '\n')
}

/// The text can be read as a character grid: the width is the byte length of the
/// first line, no line holds more characters than that, and the cell count fits
/// in a `u32`.
pub open spec fn char_grid_fits(text: Seq<char>) -> bool {
    let ls = grid_lines(text);
    &&& ls.len() <= u32::MAX
    &&& utf8_len(ls[0]) <= u32::MAX
    &&& ls.len() * utf8_len(ls[0]) <= u32::MAX
    &&& forall|r: int| 0 <= r < ls.len() ==> (#[trigger] ls[r]).len() <= utf8_len(ls[0])
}

/// The value of cell (row, col) when the grid is read from `ls`: the character
/// there, or `'\0'` past the end of a short line.
pub open spec fn char_grid_cell(ls: Seq<Seq<char>>, row: int, col: int) -> char {
    if col < ls[row].len() {
        ls[row][col]
    } else {
        '\0'
    }
}

impl Grid<char> {
    /// Reads a grid of characters, one line per row.
    pub fn parse_char_grid(input: &str) -> (r: Self)
        requires
            char_grid_fits(input@),
        ensures
            r.wf(),
            r.spec_nrows() == grid_lines(input@).len(),
            r.spec_ncols() == utf8_len(grid_lines(input@)[0]),
            forall|row: int, col: int|
                r.in_bounds(row, col) ==> #[trigger] r.cell(row, col) == char_grid_cell(
                    grid_lines(input@),
                    row,
                    col,
                ),
    {
        let lines = trimmed_lines(input);
        let ghost ls = grid_lines(input@);
        assert(views(lines@) == ls);
        let nrows = lines.len();
        assert(lines@[0]@ == ls[0]);
        let ncols = utf8_byte_len(lines[0].as_slice());
        let mut data: Grid<char> = Grid::new_usize(nrows, ncols);
        assert forall|row: int, col: int| data.in_bounds(row, col) implies #[trigger] data.cell(row, col)
            == '\0' by {
            lemma_cell_index(nrows as int, ncols as int, row, col);
            assert(is_default_clone(data@[cell_index(ncols as int, row, col)]));
        }
        for row in 0..nrows
            invariant
                nrows == lines@.len(),
                views(lines@) == ls,
                ls.len() == nrows,
                ncols == utf8_len(ls[0]),
                forall|r: int| 0 <= r < ls.len() ==> (#[trigger] ls[r]).len() <= utf8_len(ls[0]),
                data.wf(),
                data.spec_nrows() == nrows,
                data.spec_ncols() == ncols,
                forall|r2: int, c2: int|
                    data.in_bounds(r2, c2) ==> #[trigger] data.cell(r2, c2) == (if r2 < row {
                        char_grid_cell(ls, r2, c2)
                    } else {
                        '\0'
                    }),
        {
            let line = &lines[row];
            assert(line@ == ls[row as int]);
            let len = line.len();
            for col in 0..len
                invariant
                    nrows == lines@.len(),
                    views(lines@) == ls,
                    ls.len() == nrows,
                    row < nrows,
                    ncols == utf8_len(ls[0]),
                    line@ == ls[row as int],
                    len == line@.len(),
                    len <= ncols,
                    data.wf(),
                    data.spec_nrows() == nrows,
                    data.spec_ncols() == ncols,
                    forall|r2: int, c2: int|
                        data.in_bounds(r2, c2) ==> #[trigger] data.cell(r2, c2) == (if r2 < row || (r2
                            == row && c2 < col) {
                            char_grid_cell(ls, r2, c2)
                        } else {
                            '\0'
                        }),
            {
                let c = line[col];
                let ghost before = data;
                proof {
                    lemma_cell_index(nrows as int, ncols as int, row as int, col as int);
                }
                *data.at_usize_mut(row, col) = c;
                assert forall|r2: int, c2: int| data.in_bounds(r2, c2) implies #[trigger] data.cell(
                    r2,
                    c2,
                ) == (if r2 < row || (r2 == row && c2 < col + 1) {
                    char_grid_cell(ls, r2, c2)
                } else {
                    '\0'
                }) by {
                    lemma_cell_index(nrows as int, ncols as int, r2, c2);
                    if r2 == row && c2 == col {
                    } else {
                        if cell_index(ncols as int, r2, c2) == cell_index(
                            ncols as int,
                            row as int,
                            col as int,
                        ) {
                            lemma_cell_index_injective(ncols as int, r2, c2, row as int, col as int);
                        }
                        assert(data.cell(r2, c2) == before.cell(r2, c2));
                    }
                }
            }
        }
        data
    }
}

} // verus!
