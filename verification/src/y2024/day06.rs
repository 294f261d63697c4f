//! A guard walking a map: straight ahead until an obstruction, then a right
//! turn; the walk ends by leaving the map or by running in a loop.

use vstd::prelude::*;

use crate::grid::{cell_index, lemma_cell_index, Grid};
use crate::text::utf8_len;
use crate::y2024::matrix::{map_lines, map_text_ok, read_matrix};

verus! {

/// Directions we could be going.
#[derive(Clone, Copy, Debug, PartialEq, Eq, Structural)]
pub enum Dir {
    Up,
    Right,
    Down,
    Left,
}

/// The direction after a right turn.
pub open spec fn dir_next(d: Dir) -> Dir {
    match d {
        Dir::Up => Dir::Right,
        Dir::Right => Dir::Down,
        Dir::Down => Dir::Left,
        Dir::Left => Dir::Up,
    }
}

/// Four right turns face the guard the way it started, and each turn is a
/// quarter turn: the step after a turn is the step before it turned clockwise.
pub proof fn lemma_right_turns(d: Dir)
    ensures
        dir_next(dir_next(dir_next(dir_next(d)))) == d,
        dir_delta(dir_next(d)).0 == dir_delta(d).1,
        dir_delta(dir_next(d)).1 == -dir_delta(d).0,
{
}

/// The coordinate change of one step.
pub open spec fn dir_delta(d: Dir) -> (i32, i32) {
    match d {
        Dir::Up => (-1i32, 0i32),
        Dir::Right => (0i32, 1i32),
        Dir::Down => (1i32, 0i32),
        Dir::Left => (0i32, -1i32),
    }
}

/// The character that marks a direction on the map.
pub open spec fn dir_value(d: Dir) -> char {
    match d {
        Dir::Up => '^',
        Dir::Right => '>',
        Dir::Down => 'v',
        Dir::Left => '<',
    }
}

impl Dir {
    /// Next direction (right turns only).
    pub fn next(&self) -> (r: Self)
        ensures
            r == dir_next(*self),
    {
        match self {
            Dir::Up => Dir::Right,
            Dir::Right => Dir::Down,
            Dir::Down => Dir::Left,
            Dir::Left => Dir::Up,
        }
    }

    /// Coordinate delta for each direction.
    pub fn delta(&self) -> (r: (i32, i32))
        ensures
            r == dir_delta(*self),
    {
        match self {
            Dir::Up => (-1, 0),
            Dir::Right => (0, 1),
            Dir::Down => (1, 0),
            Dir::Left => (0, -1),
        }
    }

    /// Char representation of a dir on the map.
    pub fn value(&self) -> (r: char)
        ensures
            r == dir_value(*self),
    {
        match self {
            Dir::Up => '^',
            Dir::Right => '>',
            Dir::Down => 'v',
            Dir::Left => '<',
        }
    }
}

/// A location (row, col).
#[derive(Clone, Copy, Debug, PartialEq, Eq, Hash, Structural)]
pub struct Loc(pub i32, pub i32);

/// The location one step from `l` in direction `d`.
pub open spec fn loc_next(l: Loc, d: Dir) -> Loc {
    Loc((l.0 + dir_delta(d).0) as i32, (l.1 + dir_delta(d).1) as i32)
}

impl Loc {
    /// Next coordinates one step in a given direction.
    pub fn next(&self, dir: Dir) -> (r: Self)
        requires
            i32::MIN < self.0 < i32::MAX,
            i32::MIN < self.1 < i32::MAX,
        ensures
            r == loc_next(*self, dir),
    {
        let (dx, dy) = dir.delta();
        Loc(self.0 + dx, self.1 + dy)
    }
}

/// A trajectory: location plus direction.
#[derive(Clone, Copy, Debug, PartialEq, Eq, Structural)]
pub struct Traj {
    pub loc: Loc,
    pub dir: Dir,
}

impl Traj {
    pub fn new(loc: &Loc, dir: Dir) -> (r: Self)
        ensures
            r.loc == *loc,
            r.dir == dir,
    {
        Traj { loc: *loc, dir }
    }
}

/// A map of the territory.
#[derive(Debug)]
pub struct Layout(pub Grid<char>);

impl Clone for Layout {
    fn clone(&self) -> (r: Self)
        ensures
            r.0@ == self.0@,
            r.0.spec_nrows() == self.0.spec_nrows(),
            r.0.spec_ncols() == self.0.spec_ncols(),
    {
        let g = self.0.clone();
        assert(g@ =~= self.0@);
        Layout(g)
    }
}

/// Layout dimensions within the range the walk works in.
pub open spec fn layout_ok(m: Layout) -> bool {
    &&& m.0.wf()
    &&& m.0.spec_nrows() <= i32::MAX
    &&& m.0.spec_ncols() <= i32::MAX
}

/// True when `l` is on a map of `nr` rows and `nc` columns.
pub open spec fn on_map(nr: int, nc: int, l: Loc) -> bool {
    0 <= l.0 < nr && 0 <= l.1 < nc
}

impl Layout {
    /// Make a map from an input string like in the input file.
    pub fn new(input: &str) -> (r: Self)
        requires
            map_text_ok(input@),
        ensures
            layout_ok(r),
            r.0.spec_nrows() == map_lines(input@).len(),
            r.0.spec_ncols() == utf8_len(map_lines(input@)[0]),
            forall|row: int, col: int|
                r.0.in_bounds(row, col) ==> #[trigger] r.0.cell(row, col) == map_lines(
                    input@,
                )[row][col],
    {
        Layout(read_matrix(input))
    }

    pub fn nrows(&self) -> (r: i32)
        requires
            layout_ok(*self),
        ensures
            r == self.0.spec_nrows(),
    {
        self.0.nrows() as i32
    }

    pub fn ncols(&self) -> (r: i32)
        requires
            layout_ok(*self),
        ensures
            r == self.0.spec_ncols(),
    {
        self.0.ncols() as i32
    }

    /// Update a cell on the map.
    pub fn update(&mut self, loc: &Loc, value: char)
        requires
            layout_ok(*old(self)),
            on_map(old(self).0.spec_nrows() as int, old(self).0.spec_ncols() as int, *loc),
        ensures
            layout_ok(*final(self)),
            final(self).0.spec_nrows() == old(self).0.spec_nrows(),
            final(self).0.spec_ncols() == old(self).0.spec_ncols(),
            final(self).0@ == old(self).0@.update(
                cell_index(old(self).0.spec_ncols() as int, loc.0 as int, loc.1 as int),
                value,
            ),
    {
        proof {
            lemma_cell_index(
                self.0.spec_nrows() as int,
                self.0.spec_ncols() as int,
                loc.0 as int,
                loc.1 as int,
            );
        }
        let cell = self.0.at_i32_mut(loc.0, loc.1);
        *cell = value;
    }

    /// The value at a location on the map.
    pub fn index(&self, loc: &Loc) -> (r: char)
        requires
            layout_ok(*self),
            on_map(self.0.spec_nrows() as int, self.0.spec_ncols() as int, *loc),
        ensures
            r == self.0.cell(loc.0 as int, loc.1 as int),
    {
        *self.0.at_i32(loc.0, loc.1)
    }

    /// Determine the starting point (the first '^', row by row).
    pub fn start_loc(&self) -> (r: Loc)
        requires
            layout_ok(*self),
            exists|row: int, col: int| self.0.in_bounds(row, col) && self.0.cell(row, col) == '^',
        ensures
            is_start(self.0.spec_nrows() as int, self.0.spec_ncols() as int, self.0@, r),
    {
        let nrows = self.0.nrows();
        let ncols = self.0.ncols();
        let mut row: u32 = 0;
        while row < nrows
            invariant
                layout_ok(*self),
                nrows == self.0.spec_nrows(),
                ncols == self.0.spec_ncols(),
                row <= nrows,
                forall|r2: int, c2: int|
                    0 <= r2 < row && 0 <= c2 < ncols ==> #[trigger] self.0@[cell_index(
                        ncols as int,
                        r2,
                        c2,
                    )] != '^',
            decreases nrows - row,
        {
            let mut col: u32 = 0;
            while col < ncols
                invariant
                    layout_ok(*self),
                    nrows == self.0.spec_nrows(),
                    ncols == self.0.spec_ncols(),
                    row < nrows,
                    col <= ncols,
                    forall|r2: int, c2: int|
                        0 <= c2 < ncols && (0 <= r2 < row || (r2 == row && 0 <= c2 < col))
                            ==> #[trigger] self.0@[cell_index(ncols as int, r2, c2)] != '^',
                decreases ncols - col,
            {
                if *self.0.at_u32(row, col) == '^' {
                    return Loc(row as i32, col as i32);
                }
                col = col + 1;
            }
            row = row + 1;
        }
        Loc(0, 0)
    }

    /// Check if a Loc is in bounds on the map.
    pub fn contains(&self, loc: &Loc) -> (r: bool)
        requires
            layout_ok(*self),
        ensures
            r == on_map(self.0.spec_nrows() as int, self.0.spec_ncols() as int, *loc),
    {
        0 <= loc.0 && loc.0 < self.nrows() && 0 <= loc.1 && loc.1 < self.ncols()
    }

    /// Count visited locations: cells marked with a direction.
    pub fn count_visited(&self) -> (r: i32)
        requires
            layout_ok(*self),
            self.0.spec_nrows() * self.0.spec_ncols() <= i32::MAX,
        ensures
            r == marks(self.0@),
    {
        let data = self.0.raw_data();
        let mut out: i32 = 0;
        assert(data@.take(0) =~= Seq::<char>::empty());
        for i in 0..data.len()
            invariant
                data@ == self.0@,
                data@.len() <= i32::MAX,
                out == marks(data@.take(i as int)),
                out <= i,
        {
            assert(data@.take(i + 1).drop_last() =~= data@.take(i as int));
            let c = data[i];
            if c == '^' || c == '>' || c == 'v' || c == '<' {
                out += 1;
            }
        }
        assert(data@.take(data@.len() as int) =~= data@);
        out
    }
}

/// The number of cells that hold a direction mark.
pub open spec fn marks(cells: Seq<char>) -> int
    decreases cells.len(),
{
    if cells.len() == 0 {
        0
    } else {
        marks(cells.drop_last()) + if cells.last() == '^' || cells.last() == '>' || cells.last()
            == 'v' || cells.last() == '<' {
            1int
        } else {
            0int
        }
    }
}

/// Possible outcomes: exit the map or get stuck in a loop.
#[derive(Clone, Copy, Debug, PartialEq, Eq, Structural)]
pub enum Outcome {
    Exit,
    Loop,
}

/// Path to track where we've been.
#[derive(Debug)]
pub struct Path {
    pub _init_state: Layout,
    pub final_state: Layout,
    pub history: Vec<Traj>,
    pub outcome: Outcome,
}

/// The walk's limit on steps.
pub open spec fn max_iter() -> nat {
    10000
}

/// The rest of a walk on a map of `nr` x `nc` cells whose contents are `cells`,
/// from `loc` heading `dir`, having turned from left to up at `corners`, with
/// `hist` the trajectory so far, for at most `fuel` more steps: the map with the
/// visited cells marked, the trajectory, and the outcome (`None` when the steps
/// ran out).
pub open spec fn walk(
    nr: int,
    nc: int,
    cells: Seq<char>,
    loc: Loc,
    dir: Dir,
    corners: Seq<Loc>,
    hist: Seq<Traj>,
    fuel: nat,
) -> (Seq<char>, Seq<Traj>, Option<Outcome>)
    decreases fuel,
{
    if fuel == 0 {
        (cells, hist, None)
    } else {
        let nl = loc_next(loc, dir);
        if !on_map(nr, nc, nl) {
            (cells, hist, Some(Outcome::Exit))
        } else if cells[cell_index(nc, nl.0 as int, nl.1 as int)] == '#' {
            let d2 = dir_next(dir);
            if d2 == Dir::Up && corners.contains(loc) {
                (cells, hist, Some(Outcome::Loop))
            } else {
                let c2 = if d2 == Dir::Up {
                    corners.push(loc)
                } else {
                    corners
                };
                walk(
                    nr,
                    nc,
                    cells.update(cell_index(nc, loc.0 as int, loc.1 as int), dir_value(d2)),
                    loc,
                    d2,
                    c2,
                    hist.push(Traj { loc, dir: d2 }),
                    (fuel - 1) as nat,
                )
            }
        } else {
            walk(
                nr,
                nc,
                cells.update(cell_index(nc, nl.0 as int, nl.1 as int), dir_value(dir)),
                nl,
                dir,
                corners,
                hist.push(Traj { loc: nl, dir }),
                (fuel - 1) as nat,
            )
        }
    }
}

/// The whole walk on `m` from `loc` heading `dir`.
pub open spec fn walk_from(m: Layout, loc: Loc, dir: Dir) -> (Seq<char>, Seq<Traj>, Option<Outcome>) {
    walk(
        m.0.spec_nrows() as int,
        m.0.spec_ncols() as int,
        m.0@,
        loc,
        dir,
        Seq::empty(),
        seq![Traj { loc, dir }],
        max_iter(),
    )
}

/// Whether `l` is among `v`.
fn contains_loc(v: &Vec<Loc>, l: Loc) -> (r: bool)
    ensures
        r == v@.contains(l),
{
    for i in 0..v.len()
        invariant
            forall|j: int| 0 <= j < i ==> v@[j] != l,
    {
        if v[i] == l {
            return true;
        }
    }
    false
}

impl Path {
    /// Generate a Path by following the rules starting from some location.
    pub fn generate(init_state: Layout, loc: &Loc, dir: Dir) -> (r: Self)
        requires
            layout_ok(init_state),
            on_map(init_state.0.spec_nrows() as int, init_state.0.spec_ncols() as int, *loc),
            walk_from(init_state, *loc, dir).2 is Some,
        ensures
            r.final_state.0@ == walk_from(init_state, *loc, dir).0,
            layout_ok(r.final_state),
            r.final_state.0.spec_nrows() == init_state.0.spec_nrows(),
            r.final_state.0.spec_ncols() == init_state.0.spec_ncols(),
            r.history@ == walk_from(init_state, *loc, dir).1,
            Some(r.outcome) == walk_from(init_state, *loc, dir).2,
            1 <= r.history@.len() <= max_iter() + 1,
            forall|k: int|
                0 <= k < r.history@.len() ==> on_map(
                    init_state.0.spec_nrows() as int,
                    init_state.0.spec_ncols() as int,
                    #[trigger] r.history@[k].loc,
                ),
    {
        let ghost goal = walk_from(init_state, *loc, dir);
        let ghost nr = init_state.0.spec_nrows() as int;
        let ghost nc = init_state.0.spec_ncols() as int;
        let mut state = init_state.clone();
        let mut loc = *loc;
        let mut dir = dir;
        let mut history: Vec<Traj> = Vec::new();
        history.push(Traj::new(&loc, dir));
        assert(history@ =~= seq![Traj { loc, dir }]);
        let mut corners: Vec<Loc> = Vec::new();
        let max_iter: u32 = 10000;
        let mut it: u32 = 0;
        let mut outcome: Option<Outcome> = None;
        while it < max_iter
            invariant_except_break
                outcome is None,
                walk(nr, nc, state.0@, loc, dir, corners@, history@, (max_iter - it) as nat) == goal,
            invariant
                max_iter == 10000,
                it <= max_iter,
                layout_ok(state),
                state.0.spec_nrows() == nr,
                state.0.spec_ncols() == nc,
                on_map(nr, nc, loc),
                goal.2 is Some,
                history@.len() == it + 1,
                forall|k: int| 0 <= k < history@.len() ==> on_map(nr, nc, #[trigger] history@[k].loc),
            ensures
                outcome is Some,
                (state.0@, history@, outcome) == goal,
                layout_ok(state),
                state.0.spec_nrows() == nr,
                state.0.spec_ncols() == nc,
                1 <= history@.len() <= max_iter + 1,
                forall|k: int| 0 <= k < history@.len() ==> on_map(nr, nc, #[trigger] history@[k].loc),
            decreases max_iter - it,
        {
            let next_loc = loc.next(dir);
            // handle exit
            if !state.contains(&next_loc) {
                outcome = Some(Outcome::Exit);
                break;
            }
            // take action
            if state.index(&next_loc) == '#' {
                // turn due to obstruction
                dir = dir.next();
                if dir == Dir::Up {
                    // check for loops any time we turn from Left to Up
                    if contains_loc(&corners, loc) {
                        outcome = Some(Outcome::Loop);
                        break;
                    }
                    corners.push(loc);
                }
            } else {
                // take a step in current direction
                loc = next_loc;
            }
            let traj = Traj::new(&loc, dir);
            state.update(&loc, dir.value());
            history.push(traj);
            it = it + 1;
        }
        let outcome = match outcome {
            Some(o) => o,
            None => Outcome::Exit,
        };
        Path { _init_state: init_state, final_state: state, history, outcome }
    }
}

/// The cells of the map the text describes, row by row.
pub open spec fn text_cells(text: Seq<char>) -> Seq<char> {
    let ls = map_lines(text);
    let nc = utf8_len(ls[0]) as int;
    Seq::new((ls.len() * nc) as nat, |i: int| ls[i / nc][i % nc])
}

/// `s` is the first '^' of the cells, row by row.
pub open spec fn is_start(nr: int, nc: int, cells: Seq<char>, s: Loc) -> bool {
    &&& on_map(nr, nc, s)
    &&& cells[cell_index(nc, s.0 as int, s.1 as int)] == '^'
    &&& forall|row: int, col: int|
        0 <= row < nr && 0 <= col < nc && #[trigger] cells[cell_index(nc, row, col)] == '^' ==> (
        s.0 < row || (s.0 == row && s.1 <= col))
}

/// The guard's walk on the text's map, from `s` going up.
pub open spec fn text_walk(text: Seq<char>, s: Loc) -> (Seq<char>, Seq<Traj>, Option<Outcome>) {
    let ls = map_lines(text);
    walk(
        ls.len() as int,
        utf8_len(ls[0]) as int,
        text_cells(text),
        s,
        Dir::Up,
        Seq::empty(),
        seq![Traj { loc: s, dir: Dir::Up }],
        max_iter(),
    )
}

/// The text holds a '^' in the map.
pub open spec fn has_start(text: Seq<char>) -> bool {
    let ls = map_lines(text);
    exists|row: int, col: int| 0 <= row < ls.len() && 0 <= col < utf8_len(ls[0]) && ls[row][col] == '^'
}

/// The text can be walked: a readable map with a '^', whose walk from the
/// first '^' going up ends by leaving the map.
pub open spec fn part1_ok(text: Seq<char>) -> bool {
    let ls = map_lines(text);
    &&& map_text_ok(text)
    &&& has_start(text)
    &&& forall|s: Loc|
        is_start(ls.len() as int, utf8_len(ls[0]) as int, text_cells(text), s) ==> #[trigger] text_walk(
            text,
            s,
        ).2 == Some(Outcome::Exit)
}

/// The cells of the map read from `text` are `text_cells(text)`.
proof fn lemma_map_cells(text: Seq<char>, m: Layout)
    requires
        m.0.wf(),
        m.0.spec_nrows() == map_lines(text).len(),
        m.0.spec_ncols() == utf8_len(map_lines(text)[0]),
        forall|row: int, col: int|
            m.0.in_bounds(row, col) ==> #[trigger] m.0.cell(row, col) == map_lines(text)[row][col],
    ensures
        m.0@ == text_cells(text),
{
    let nc = m.0.spec_ncols() as int;
    let nr = m.0.spec_nrows() as int;
    let cells = text_cells(text);
    assert forall|i: int| 0 <= i < m.0@.len() implies m.0@[i] == cells[i] by {
        assert(nc > 0) by (nonlinear_arith)
            requires
                0 <= i < nr * nc,
                nr >= 0,
        ;
        let row = i / nc;
        let col = i % nc;
        assert(i == row * nc + col && 0 <= col < nc) by (nonlinear_arith)
            requires
                nc > 0,
                0 <= i,
                row == i / nc,
                col == i % nc,
        ;
        assert(0 <= row < nr) by (nonlinear_arith)
            requires
                i == row * nc + col,
                0 <= col < nc,
                0 <= i < nr * nc,
        ;
        assert(m.0.cell(row, col) == map_lines(text)[row][col]);
    }
    assert(m.0@ =~= cells);
}

/// Calculate the path and count visited spots.
pub fn part1(input: &str) -> (r: i32)
    requires
        part1_ok(input@),
    ensures
        forall|s: Loc|
            is_start(
                map_lines(input@).len() as int,
                utf8_len(map_lines(input@)[0]) as int,
                text_cells(input@),
                s,
            ) ==> r == marks(#[trigger] text_walk(input@, s).0),
{
    let layout = Layout::new(input);
    let ghost ls = map_lines(input@);
    let ghost nr = ls.len() as int;
    let ghost nc = utf8_len(ls[0]) as int;
    proof {
        lemma_map_cells(input@, layout);
        let (wr, wc) = choose|row: int, col: int|
            0 <= row < ls.len() && 0 <= col < utf8_len(ls[0]) && ls[row][col] == '^';
        assert(layout.0.cell(wr, wc) == '^');
    }
    let loc = layout.start_loc();
    assert(text_walk(input@, loc).2 == Some(Outcome::Exit));
    let path = Path::generate(layout, &loc, Dir::Up);
    let r = path.final_state.count_visited();
    proof {
        assert forall|s: Loc| is_start(nr, nc, text_cells(input@), s) implies r == marks(
            #[trigger] text_walk(input@, s).0,
        ) by {
            lemma_start_unique(nr, nc, text_cells(input@), s, loc);
        }
    }
    r
}

/// The walk from `s` on the text's map with an obstruction placed at `l`.
pub open spec fn obstructed_walk(text: Seq<char>, s: Loc, l: Loc) -> (
    Seq<char>,
    Seq<Traj>,
    Option<Outcome>,
) {
    let ls = map_lines(text);
    let nc = utf8_len(ls[0]) as int;
    walk(
        ls.len() as int,
        nc,
        text_cells(text).update(cell_index(nc, l.0 as int, l.1 as int), '#'),
        s,
        Dir::Up,
        Seq::empty(),
        seq![Traj { loc: s, dir: Dir::Up }],
        max_iter(),
    )
}

/// The places on the walk from `s`, after the start, where an obstruction sends
/// the guard into a loop.
pub open spec fn loop_locs(text: Seq<char>, s: Loc) -> Set<Loc> {
    let h = text_walk(text, s).1;
    Set::new(
        |l: Loc|
            exists|i: int|
                1 <= i < h.len() && #[trigger] h[i].loc == l && obstructed_walk(text, s, l).2 == Some(
                    Outcome::Loop,
                ),
    )
}

/// The text can be walked as in part 1, and the walk with an obstruction placed
/// at any place of the walk after the start ends within the step limit.
pub open spec fn part2_ok(text: Seq<char>) -> bool {
    let ls = map_lines(text);
    &&& part1_ok(text)
    &&& forall|s: Loc, i: int|
        is_start(ls.len() as int, utf8_len(ls[0]) as int, text_cells(text), s) && 1 <= i
            < text_walk(text, s).1.len() ==> (#[trigger] obstructed_walk(
            text,
            s,
            text_walk(text, s).1[i].loc,
        )).2 is Some
}

/// Calculate the path, and try obstructing at each distinct point on that path.
pub fn part2(input: &str) -> (r: i32)
    requires
        part2_ok(input@),
    ensures
        forall|s: Loc|
            is_start(
                map_lines(input@).len() as int,
                utf8_len(map_lines(input@)[0]) as int,
                text_cells(input@),
                s,
            ) ==> r == (#[trigger] loop_locs(input@, s)).len(),
{
    // run the ordinary routine
    let layout = Layout::new(input);
    let ghost ls = map_lines(input@);
    let ghost nr = ls.len() as int;
    let ghost nc = utf8_len(ls[0]) as int;
    proof {
        lemma_map_cells(input@, layout);
        let (wr, wc) = choose|row: int, col: int|
            0 <= row < ls.len() && 0 <= col < utf8_len(ls[0]) && ls[row][col] == '^';
        assert(layout.0.cell(wr, wc) == '^');
    }
    let loc = layout.start_loc();
    assert(text_walk(input@, loc).2 == Some(Outcome::Exit));
    let path = Path::generate(layout.clone(), &loc, Dir::Up);
    let ghost h = path.history@;
    let ghost want = loop_locs(input@, loc);
    // now try throwing an obstacle in front, each step of the way, and see if it
    // results in a loop
    let mut obstruct_locs: Vec<Loc> = Vec::new();
    for i in 1..path.history.len()
        invariant
            h == path.history@,
            h == text_walk(input@, loc).1,
            layout_ok(layout),
            layout.0@ == text_cells(input@),
            layout.0.spec_nrows() == nr,
            layout.0.spec_ncols() == nc,
            nr == ls.len(),
            nc == utf8_len(ls[0]),
            ls == map_lines(input@),
            is_start(nr, nc, text_cells(input@), loc),
            part2_ok(input@),
            forall|k: int| 0 <= k < h.len() ==> on_map(nr, nc, #[trigger] h[k].loc),
            obstruct_locs@.no_duplicates(),
            obstruct_locs@.len() <= i,
            obstruct_locs@.to_set() == Set::new(
                |l: Loc|
                    exists|j: int|
                        1 <= j < i && #[trigger] h[j].loc == l && obstructed_walk(input@, loc, l).2
                            == Some(Outcome::Loop),
            ),
    {
        let obstruct_loc = path.history[i].loc;
        let ghost before = obstruct_locs@;
        // don't retry an obstruction
        if !contains_loc(&obstruct_locs, obstruct_loc) {
            // block the space
            let mut testlayout = layout.clone();
            testlayout.update(&obstruct_loc, '#');
            assert(obstructed_walk(input@, loc, h[i as int].loc).2 is Some);
            let testpath = Path::generate(testlayout.clone(), &loc, Dir::Up);
            // note any loops
            if testpath.outcome == Outcome::Loop {
                obstruct_locs.push(obstruct_loc);
                proof {
                    assert forall|a: int, b: int|
                        0 <= a < b < obstruct_locs@.len() implies obstruct_locs@[a]
                        != obstruct_locs@[b] by {
                        if b == obstruct_locs@.len() - 1 {
                            assert(before.contains(obstruct_locs@[a]));
                        }
                    }
                }
            }
        }
        proof {
            let next_set = Set::new(
                |l: Loc|
                    exists|j: int|
                        1 <= j < i + 1 && #[trigger] h[j].loc == l && obstructed_walk(input@, loc, l).2
                            == Some(Outcome::Loop),
            );
            let prev_set = Set::new(
                |l: Loc|
                    exists|j: int|
                        1 <= j < i && #[trigger] h[j].loc == l && obstructed_walk(input@, loc, l).2
                            == Some(Outcome::Loop),
            );
            assert(h[i as int].loc == obstruct_loc);
            assert(before.to_set() == prev_set);
            assert forall|l: Loc| next_set.contains(l) implies obstruct_locs@.to_set().contains(l) by {
                let j = choose|j: int|
                    1 <= j < i + 1 && #[trigger] h[j].loc == l && obstructed_walk(input@, loc, l).2
                        == Some(Outcome::Loop);
                if j < i {
                    assert(prev_set.contains(l));
                    assert(before.contains(l));
                    let k = choose|k: int| 0 <= k < before.len() && before[k] == l;
                    assert(obstruct_locs@[k] == l);
                } else {
                    assert(l == obstruct_loc);
                    if before.contains(l) {
                        let k = choose|k: int| 0 <= k < before.len() && before[k] == l;
                        assert(obstruct_locs@[k] == l);
                    } else {
                        assert(obstruct_locs@.last() == l);
                    }
                }
            }
            assert forall|l: Loc| obstruct_locs@.to_set().contains(l) implies next_set.contains(l) by {
                let k = choose|k: int| 0 <= k < obstruct_locs@.len() && obstruct_locs@[k] == l;
                if k < before.len() {
                    assert(before[k] == l);
                    assert(before.to_set().contains(l));
                    assert(prev_set.contains(l));
                } else {
                    assert(l == obstruct_loc);
                    assert(h[i as int].loc == l);
                }
            }
            assert(obstruct_locs@.to_set() =~= next_set);
        }
    }
    proof {
        obstruct_locs@.unique_seq_to_set();
        assert(obstruct_locs@.to_set() =~= want);
        assert forall|s: Loc| is_start(nr, nc, text_cells(input@), s) implies obstruct_locs@.len()
            == (#[trigger] loop_locs(input@, s)).len() by {
            lemma_start_unique(nr, nc, text_cells(input@), s, loc);
        }
    }
    obstruct_locs.len() as i32
}

/// The first '^' is unique.
proof fn lemma_start_unique(nr: int, nc: int, cells: Seq<char>, s1: Loc, s2: Loc)
    requires
        is_start(nr, nc, cells, s1),
        is_start(nr, nc, cells, s2),
    ensures
        s1 == s2,
{
    assert(cells[cell_index(nc, s1.0 as int, s1.1 as int)] == '^');
    assert(cells[cell_index(nc, s2.0 as int, s2.1 as int)] == '^');
}

/// The cell of (row, col) on a map of `nc` columns.
pub open spec fn cell_at(nc: int, cells: Seq<char>, l: Loc) -> char {
    cells[cell_index(nc, l.0 as int, l.1 as int)]
}

/// One move of the guard from `a` to `b` on the map `cells`: with an
/// obstacle on the map just ahead, a right turn on the spot; else one step
/// ahead onto a free cell of the map, keeping its heading.
pub open spec fn guard_move(nr: int, nc: int, cells: Seq<char>, a: Traj, b: Traj) -> bool {
    let r = a.loc.0 + dir_delta(a.dir).0;
    let c = a.loc.1 + dir_delta(a.dir).1;
    &&& 0 <= r < nr && 0 <= c < nc
    &&& if cells[cell_index(nc, r, c)] == '#' {
        b.loc == a.loc && b.dir == dir_next(a.dir)
    } else {
        b.loc.0 == r && b.loc.1 == c && b.dir == a.dir
    }
}

/// The same cells of the map hold obstacles in `a` and `b`.
pub open spec fn same_walls(a: Seq<char>, b: Seq<char>) -> bool {
    &&& a.len() == b.len()
    &&& forall|j: int| 0 <= j < a.len() ==> (#[trigger] a[j] == '#' <==> b[j] == '#')
}

proof fn lemma_walk_moves_from(
    nr: int,
    nc: int,
    cells0: Seq<char>,
    cells: Seq<char>,
    loc: Loc,
    dir: Dir,
    corners: Seq<Loc>,
    hist: Seq<Traj>,
    fuel: nat,
)
    requires
        0 < nr <= i32::MAX,
        0 < nc <= i32::MAX,
        cells0.len() == nr * nc,
        same_walls(cells0, cells),
        on_map(nr, nc, loc),
        cell_at(nc, cells0, loc) != '#',
        hist.len() >= 1,
        hist.last() == (Traj { loc, dir }),
        forall|i: int| 0 <= i < hist.len() - 1 ==> guard_move(nr, nc, cells0, #[trigger] hist[i], hist[i + 1]),
    ensures
        ({
            let r = walk(nr, nc, cells, loc, dir, corners, hist, fuel);
            &&& same_walls(cells0, r.0)
            &&& r.1.len() >= hist.len()
            &&& forall|i: int| 0 <= i < hist.len() ==> #[trigger] r.1[i] == hist[i]
            &&& forall|i: int| 0 <= i < r.1.len() - 1 ==> guard_move(nr, nc, cells0, #[trigger] r.1[i], r.1[i + 1])
            &&& r.2 == Some(Outcome::Exit) ==> !on_map(nr, nc, loc_next(r.1.last().loc, r.1.last().dir))
            &&& on_map(nr, nc, r.1.last().loc)
        }),
    decreases fuel,
{
    lemma_cell_index(nr, nc, loc.0 as int, loc.1 as int);
    if fuel > 0 {
        let nl = loc_next(loc, dir);
        let d = dir_delta(dir);
        if on_map(nr, nc, nl) {
            assert(nl.0 == loc.0 + d.0 && nl.1 == loc.1 + d.1);
            lemma_cell_index(nr, nc, nl.0 as int, nl.1 as int);
            let ni = cell_index(nc, nl.0 as int, nl.1 as int);
            if cells[ni] == '#' {
                let d2 = dir_next(dir);
                if !(d2 == Dir::Up && corners.contains(loc)) {
                    let c2 = if d2 == Dir::Up {
                        corners.push(loc)
                    } else {
                        corners
                    };
                    let li = cell_index(nc, loc.0 as int, loc.1 as int);
                    let cells2 = cells.update(li, dir_value(d2));
                    let h2 = hist.push(Traj { loc, dir: d2 });
                    assert(same_walls(cells0, cells2)) by {
                        assert forall|j: int| 0 <= j < cells0.len() implies (#[trigger] cells0[j] == '#' <==> cells2[j]
                            == '#') by {
                            if j == li {
                                assert(cells0[li] != '#');
                            }
                        }
                    }
                    assert forall|i: int| 0 <= i < h2.len() - 1 implies guard_move(
                        nr,
                        nc,
                        cells0,
                        #[trigger] h2[i],
                        h2[i + 1],
                    ) by {
                        if i < hist.len() - 1 {
                            assert(h2[i] == hist[i] && h2[i + 1] == hist[i + 1]);
                        } else {
                            assert(h2[i] == hist.last());
                            assert(cells0[ni] == '#');
                        }
                    }
                    lemma_walk_moves_from(nr, nc, cells0, cells2, loc, d2, c2, h2, (fuel - 1) as nat);
                    let r = walk(nr, nc, cells2, loc, d2, c2, h2, (fuel - 1) as nat);
                    assert forall|i: int| 0 <= i < hist.len() implies #[trigger] r.1[i] == hist[i] by {
                        assert(r.1[i] == h2[i]);
                    }
                }
            } else {
                let cells2 = cells.update(ni, dir_value(dir));
                let h2 = hist.push(Traj { loc: nl, dir });
                assert(same_walls(cells0, cells2)) by {
                    assert forall|j: int| 0 <= j < cells0.len() implies (#[trigger] cells0[j] == '#' <==> cells2[j]
                        == '#') by {
                        if j == ni {
                            assert(cells0[ni] != '#');
                        }
                    }
                }
                assert forall|i: int| 0 <= i < h2.len() - 1 implies guard_move(
                    nr,
                    nc,
                    cells0,
                    #[trigger] h2[i],
                    h2[i + 1],
                ) by {
                    if i < hist.len() - 1 {
                        assert(h2[i] == hist[i] && h2[i + 1] == hist[i + 1]);
                    } else {
                        assert(h2[i] == hist.last());
                        assert(cells0[ni] != '#');
                    }
                }
                lemma_walk_moves_from(nr, nc, cells0, cells2, nl, dir, corners, h2, (fuel - 1) as nat);
                let r = walk(nr, nc, cells2, nl, dir, corners, h2, (fuel - 1) as nat);
                assert forall|i: int| 0 <= i < hist.len() implies #[trigger] r.1[i] == hist[i] by {
                    assert(r.1[i] == h2[i]);
                }
            }
        }
    }
}

/// The guard's walk, from a free cell of the map: the trajectory starts
/// there, each entry follows from the one before by one move of the guard
/// (turn right before an obstacle, else step ahead), every entry is on the
/// map, the obstacles stay where they were, and a walk that ends by leaving
/// the map ends facing off its edge.
pub proof fn lemma_walk_moves(nr: int, nc: int, cells: Seq<char>, loc: Loc, dir: Dir, fuel: nat)
    requires
        0 < nr <= i32::MAX,
        0 < nc <= i32::MAX,
        cells.len() == nr * nc,
        on_map(nr, nc, loc),
        cell_at(nc, cells, loc) != '#',
    ensures
        ({
            let r = walk(nr, nc, cells, loc, dir, Seq::empty(), seq![Traj { loc, dir }], fuel);
            &&& same_walls(cells, r.0)
            &&& r.1.len() >= 1
            &&& r.1[0] == (Traj { loc, dir })
            &&& forall|i: int| 0 <= i < r.1.len() - 1 ==> guard_move(nr, nc, cells, #[trigger] r.1[i], r.1[i + 1])
            &&& forall|i: int| 0 <= i < r.1.len() ==> on_map(nr, nc, (#[trigger] r.1[i]).loc)
            &&& r.2 == Some(Outcome::Exit) ==> !on_map(nr, nc, loc_next(r.1.last().loc, r.1.last().dir))
        }),
{
    let h = seq![Traj { loc, dir }];
    lemma_walk_moves_from(nr, nc, cells, cells, loc, dir, Seq::empty(), h, fuel);
    let r = walk(nr, nc, cells, loc, dir, Seq::empty(), h, fuel);
    assert(r.1[0] == h[0]);
    assert forall|i: int| 0 <= i < r.1.len() implies on_map(nr, nc, (#[trigger] r.1[i]).loc) by {
        lemma_walk_on_map(nr, nc, cells, r.1, i);
    }
}

proof fn lemma_walk_on_map(nr: int, nc: int, cells: Seq<char>, h: Seq<Traj>, i: int)
    requires
        0 <= i < h.len(),
        on_map(nr, nc, h[0].loc),
        forall|k: int| 0 <= k < h.len() - 1 ==> guard_move(nr, nc, cells, #[trigger] h[k], h[k + 1]),
    ensures
        on_map(nr, nc, h[i].loc),
    decreases i,
{
    if i > 0 {
        lemma_walk_on_map(nr, nc, cells, h, i - 1);
        assert(guard_move(nr, nc, cells, h[i - 1], h[i]));
    }
}

/// A character that marks a direction.
pub open spec fn is_mark(c: char) -> bool {
    c == '^' || c == '>' || c == 'v' || c == '<'
}

/// The distinct places of a trajectory.
pub open spec fn visited(h: Seq<Traj>) -> Set<Loc> {
    h.map_values(|t: Traj| t.loc).to_set()
}

proof fn lemma_marks_update(cells: Seq<char>, j: int, x: char)
    requires
        0 <= j < cells.len(),
    ensures
        marks(cells.update(j, x)) == marks(cells) - (if is_mark(cells[j]) {
            1int
        } else {
            0int
        }) + (if is_mark(x) {
            1int
        } else {
            0int
        }),
    decreases cells.len(),
{
    let u = cells.update(j, x);
    if j == cells.len() - 1 {
        assert(u.drop_last() =~= cells.drop_last());
    } else {
        assert(u.drop_last() =~= cells.drop_last().update(j, x));
        lemma_marks_update(cells.drop_last(), j, x);
    }
}

proof fn lemma_visited_push(h: Seq<Traj>, t: Traj)
    ensures
        visited(h.push(t)) == visited(h).insert(t.loc),
        visited(h).finite(),
        visited(h).contains(t.loc) <==> exists|i: int| 0 <= i < h.len() && (#[trigger] h[i]).loc == t.loc,
{
    let f = |t: Traj| t.loc;
    let s = h.map_values(f);
    assert(h.push(t).map_values(f) =~= s.push(t.loc));
    assert forall|x: Loc| #[trigger] s.push(t.loc).to_set().contains(x) <==> s.to_set().insert(t.loc).contains(x) by {
        if s.push(t.loc).contains(x) {
            let k = choose|k: int| 0 <= k < s.push(t.loc).len() && s.push(t.loc)[k] == x;
            if k < s.len() {
                assert(s[k] == x);
            }
        }
        if s.contains(x) {
            let k = choose|k: int| 0 <= k < s.len() && s[k] == x;
            assert(s.push(t.loc)[k] == x);
        }
        if x == t.loc {
            assert(s.push(t.loc)[s.len() as int] == x);
        }
    }
    assert(visited(h.push(t)) == s.push(t.loc).to_set());
    assert(visited(h) == s.to_set());
    assert(s.push(t.loc).to_set() =~= s.to_set().insert(t.loc));
    h.map_values(f).lemma_cardinality_of_set();
    if visited(h).contains(t.loc) {
        let k = choose|k: int| 0 <= k < h.map_values(f).len() && h.map_values(f)[k] == t.loc;
        assert(h[k].loc == t.loc);
    }
    if exists|i: int| 0 <= i < h.len() && (#[trigger] h[i]).loc == t.loc {
        let i = choose|i: int| 0 <= i < h.len() && (#[trigger] h[i]).loc == t.loc;
        assert(h.map_values(f)[i] == t.loc);
    }
}

/// The cells that hold a mark are exactly those of the places in `h`, all of
/// which are on the map.
pub open spec fn marks_match(nr: int, nc: int, cells: Seq<char>, h: Seq<Traj>) -> bool {
    &&& forall|i: int| 0 <= i < h.len() ==> on_map(nr, nc, (#[trigger] h[i]).loc)
    &&& forall|j: int|
        0 <= j < cells.len() ==> (is_mark(#[trigger] cells[j]) <==> exists|i: int|
            0 <= i < h.len() && cell_index(nc, (#[trigger] h[i]).loc.0 as int, h[i].loc.1 as int) == j)
}

proof fn lemma_walk_marks_from(
    nr: int,
    nc: int,
    cells: Seq<char>,
    loc: Loc,
    dir: Dir,
    corners: Seq<Loc>,
    hist: Seq<Traj>,
    fuel: nat,
)
    requires
        0 < nr <= i32::MAX,
        0 < nc <= i32::MAX,
        cells.len() == nr * nc,
        hist.len() >= 1,
        hist.last().loc == loc,
        marks_match(nr, nc, cells, hist),
        marks(cells) == visited(hist).len(),
    ensures
        marks(walk(nr, nc, cells, loc, dir, corners, hist, fuel).0) == visited(
            walk(nr, nc, cells, loc, dir, corners, hist, fuel).1,
        ).len(),
    decreases fuel,
{
    assert(on_map(nr, nc, hist[hist.len() - 1].loc));
    lemma_cell_index(nr, nc, loc.0 as int, loc.1 as int);
    let li = cell_index(nc, loc.0 as int, loc.1 as int);
    assert(is_mark(cells[li])) by {
        assert(cell_index(nc, hist[hist.len() - 1].loc.0 as int, hist[hist.len() - 1].loc.1 as int) == li);
    }
    if fuel > 0 {
        let nl = loc_next(loc, dir);
        if on_map(nr, nc, nl) {
            lemma_cell_index(nr, nc, nl.0 as int, nl.1 as int);
            let ni = cell_index(nc, nl.0 as int, nl.1 as int);
            if cells[ni] == '#' {
                let d2 = dir_next(dir);
                if !(d2 == Dir::Up && corners.contains(loc)) {
                    let c2 = if d2 == Dir::Up {
                        corners.push(loc)
                    } else {
                        corners
                    };
                    let cells2 = cells.update(li, dir_value(d2));
                    let t = Traj { loc, dir: d2 };
                    let h2 = hist.push(t);
                    lemma_marks_update(cells, li, dir_value(d2));
                    lemma_visited_push(hist, t);
                    assert(visited(hist).contains(loc)) by {
                        assert(hist[hist.len() - 1].loc == t.loc);
                    }
                    assert(visited(h2) =~= visited(hist));
                    assert forall|j: int| 0 <= j < cells2.len() implies (is_mark(#[trigger] cells2[j]) <==> exists|i: int|
                        0 <= i < h2.len() && cell_index(nc, (#[trigger] h2[i]).loc.0 as int, h2[i].loc.1 as int) == j) by {
                        if exists|i: int|
                            0 <= i < h2.len() && cell_index(nc, (#[trigger] h2[i]).loc.0 as int, h2[i].loc.1 as int) == j {
                            let i = choose|i: int|
                                0 <= i < h2.len() && cell_index(nc, (#[trigger] h2[i]).loc.0 as int, h2[i].loc.1 as int) == j;
                            if i < hist.len() {
                                assert(h2[i] == hist[i]);
                            }
                        }
                        if j != li && is_mark(cells2[j]) {
                            let i = choose|i: int|
                                0 <= i < hist.len() && cell_index(nc, (#[trigger] hist[i]).loc.0 as int, hist[i].loc.1 as int) == j;
                            assert(h2[i] == hist[i]);
                        }
                        if j == li {
                            assert(h2[h2.len() - 1] == t);
                        }
                    }
                    assert forall|i: int| 0 <= i < h2.len() implies on_map(nr, nc, (#[trigger] h2[i]).loc) by {
                        if i < hist.len() {
                            assert(h2[i] == hist[i]);
                        }
                    }
                    lemma_walk_marks_from(nr, nc, cells2, loc, d2, c2, h2, (fuel - 1) as nat);
                }
            } else {
                let cells2 = cells.update(ni, dir_value(dir));
                let t = Traj { loc: nl, dir };
                let h2 = hist.push(t);
                lemma_marks_update(cells, ni, dir_value(dir));
                lemma_visited_push(hist, t);
                if is_mark(cells[ni]) {
                    let i = choose|i: int|
                        0 <= i < hist.len() && cell_index(nc, (#[trigger] hist[i]).loc.0 as int, hist[i].loc.1 as int) == ni;
                    crate::grid::lemma_cell_index_injective(nc, hist[i].loc.0 as int, hist[i].loc.1 as int, nl.0 as int, nl.1 as int);
                    assert(hist[i].loc == nl);
                    assert(visited(h2) =~= visited(hist));
                } else {
                    if visited(hist).contains(nl) {
                        let i = choose|i: int| 0 <= i < hist.len() && (#[trigger] hist[i]).loc == nl;
                        assert(cell_index(nc, hist[i].loc.0 as int, hist[i].loc.1 as int) == ni);
                        assert(false);
                    }
                }
                assert forall|j: int| 0 <= j < cells2.len() implies (is_mark(#[trigger] cells2[j]) <==> exists|i: int|
                    0 <= i < h2.len() && cell_index(nc, (#[trigger] h2[i]).loc.0 as int, h2[i].loc.1 as int) == j) by {
                    if exists|i: int|
                        0 <= i < h2.len() && cell_index(nc, (#[trigger] h2[i]).loc.0 as int, h2[i].loc.1 as int) == j {
                        let i = choose|i: int|
                            0 <= i < h2.len() && cell_index(nc, (#[trigger] h2[i]).loc.0 as int, h2[i].loc.1 as int) == j;
                        if i < hist.len() {
                            assert(h2[i] == hist[i]);
                        }
                    }
                    if j != ni && is_mark(cells2[j]) {
                        let i = choose|i: int|
                            0 <= i < hist.len() && cell_index(nc, (#[trigger] hist[i]).loc.0 as int, hist[i].loc.1 as int) == j;
                        assert(h2[i] == hist[i]);
                    }
                    if j == ni {
                        assert(h2[h2.len() - 1] == t);
                    }
                }
                assert forall|i: int| 0 <= i < h2.len() implies on_map(nr, nc, (#[trigger] h2[i]).loc) by {
                    if i < hist.len() {
                        assert(h2[i] == hist[i]);
                    }
                }
                lemma_walk_marks_from(nr, nc, cells2, nl, dir, corners, h2, (fuel - 1) as nat);
            }
        }
    }
}

/// On a map whose only mark is the guard's own at its start, the marks left
/// after the walk are as many as the distinct places the guard visited.
pub proof fn lemma_marks_count_visited(nr: int, nc: int, cells: Seq<char>, loc: Loc, dir: Dir, fuel: nat)
    requires
        0 < nr <= i32::MAX,
        0 < nc <= i32::MAX,
        cells.len() == nr * nc,
        on_map(nr, nc, loc),
        is_mark(cell_at(nc, cells, loc)),
        forall|j: int|
            0 <= j < cells.len() && j != cell_index(nc, loc.0 as int, loc.1 as int) ==> !is_mark(#[trigger] cells[j]),
    ensures
        marks(walk(nr, nc, cells, loc, dir, Seq::empty(), seq![Traj { loc, dir }], fuel).0) == visited(
            walk(nr, nc, cells, loc, dir, Seq::empty(), seq![Traj { loc, dir }], fuel).1,
        ).len(),
{
    let h = seq![Traj { loc, dir }];
    let li = cell_index(nc, loc.0 as int, loc.1 as int);
    lemma_cell_index(nr, nc, loc.0 as int, loc.1 as int);
    lemma_marks_one(cells, li);
    assert(h.map_values(|t: Traj| t.loc) =~= seq![loc]);
    assert(visited(h) =~= Set::empty().insert(loc)) by {
        assert(seq![loc][0] == loc);
        assert forall|x: Loc| seq![loc].contains(x) implies x == loc by {
            let k = choose|k: int| 0 <= k < 1 && seq![loc][k] == x;
        }
    }
    assert forall|j: int| 0 <= j < cells.len() implies (is_mark(#[trigger] cells[j]) <==> exists|i: int|
        0 <= i < h.len() && cell_index(nc, (#[trigger] h[i]).loc.0 as int, h[i].loc.1 as int) == j) by {
        if j == li {
            assert(h[0].loc == loc);
        }
    }
    lemma_walk_marks_from(nr, nc, cells, loc, dir, Seq::empty(), h, fuel);
}

proof fn lemma_marks_one(cells: Seq<char>, li: int)
    requires
        0 <= li < cells.len(),
        is_mark(cells[li]),
        forall|j: int| 0 <= j < cells.len() && j != li ==> !is_mark(#[trigger] cells[j]),
    ensures
        marks(cells) == 1,
    decreases cells.len(),
{
    if cells.len() - 1 != li {
        lemma_marks_one(cells.drop_last(), li);
    } else {
        lemma_marks_none(cells.drop_last());
    }
}

proof fn lemma_marks_none(cells: Seq<char>)
    requires
        forall|j: int| 0 <= j < cells.len() ==> !is_mark(#[trigger] cells[j]),
    ensures
        marks(cells) == 0,
    decreases cells.len(),
{
    if cells.len() > 0 {
        lemma_marks_none(cells.drop_last());
    }
}

/// What part 1 counts, on a map whose only mark is the guard's '^': the
/// distinct places of the walk from the start.
pub proof fn lemma_part1_counts_places(text: Seq<char>, s: Loc)
    requires
        map_text_ok(text),
        is_start(map_lines(text).len() as int, utf8_len(map_lines(text)[0]) as int, text_cells(text), s),
        forall|j: int|
            0 <= j < text_cells(text).len() && j != cell_index(utf8_len(map_lines(text)[0]) as int, s.0 as int, s.1 as int)
                ==> !is_mark(#[trigger] text_cells(text)[j]),
    ensures
        marks(text_walk(text, s).0) == visited(text_walk(text, s).1).len(),
{
    let ls = map_lines(text);
    let nc = utf8_len(ls[0]) as int;
    lemma_marks_count_visited(ls.len() as int, nc, text_cells(text), s, Dir::Up, max_iter());
}

} // verus!
