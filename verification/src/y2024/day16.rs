//! The reindeer maze: the cheapest way from `S` to `E`, where a step forward
//! costs 1 and a quarter turn costs 1000, and the tiles on the cheapest ways.

use std::collections::VecDeque;

use vstd::prelude::*;

use crate::grid::{
    cell_index, lemma_cell_index, lemma_cell_index_injective, lemma_cell_index_split, shifted, Delta, Grid,
    Loc,
};

verus! {

/// A maze is a grid of characters.
pub type Maze = Grid<char>;

/// The way a reindeer faces.
#[derive(Clone, Copy, Debug, PartialEq, Eq, Hash, Structural)]
pub enum Dir {
    Up,
    Down,
    Left,
    Right,
}

/// The step one tile forward.
pub open spec fn dir_delta(d: Dir) -> Delta {
    match d {
        Dir::Up => Delta::up(),
        Dir::Down => Delta::down(),
        Dir::Left => Delta::left(),
        Dir::Right => Delta::right(),
    }
}

/// A quarter turn clockwise.
pub open spec fn dir_cw(d: Dir) -> Dir {
    match d {
        Dir::Up => Dir::Right,
        Dir::Right => Dir::Down,
        Dir::Down => Dir::Left,
        Dir::Left => Dir::Up,
    }
}

/// A quarter turn counter-clockwise.
pub open spec fn dir_ccw(d: Dir) -> Dir {
    match d {
        Dir::Up => Dir::Left,
        Dir::Left => Dir::Down,
        Dir::Down => Dir::Right,
        Dir::Right => Dir::Up,
    }
}

/// The number of a direction, for indexing.
pub open spec fn dir_index(d: Dir) -> int {
    match d {
        Dir::Up => 0,
        Dir::Down => 1,
        Dir::Left => 2,
        Dir::Right => 3,
    }
}

impl Dir {
    /// The step one tile forward.
    pub fn delta(&self) -> (r: Delta)
        ensures
            r == dir_delta(*self),
    {
        match self {
            Dir::Up => Delta::up(),
            Dir::Down => Delta::down(),
            Dir::Left => Delta::left(),
            Dir::Right => Delta::right(),
        }
    }

    /// A quarter turn clockwise.
    pub fn rot_cw(&self) -> (r: Self)
        ensures
            r == dir_cw(*self),
    {
        match self {
            Dir::Up => Dir::Right,
            Dir::Right => Dir::Down,
            Dir::Down => Dir::Left,
            Dir::Left => Dir::Up,
        }
    }

    /// A quarter turn counter-clockwise.
    pub fn rot_ccw(&self) -> (r: Self)
        ensures
            r == dir_ccw(*self),
    {
        match self {
            Dir::Up => Dir::Left,
            Dir::Left => Dir::Down,
            Dir::Down => Dir::Right,
            Dir::Right => Dir::Up,
        }
    }

    fn index(&self) -> (r: usize)
        ensures
            r == dir_index(*self),
    {
        match self {
            Dir::Up => 0,
            Dir::Down => 1,
            Dir::Left => 2,
            Dir::Right => 3,
        }
    }
}

/// A reindeer at a tile, facing a way, with what it paid to get there.
#[derive(Clone, Copy, Debug, PartialEq, Eq, Hash, Structural)]
pub struct State {
    pub loc: Loc,
    pub dir: Dir,
    pub cost: u32,
}

impl State {
    pub fn new(loc: Loc, dir: Dir, cost: u32) -> (r: Self)
        ensures
            r == (State { loc, dir, cost }),
    {
        Self { loc, dir, cost }
    }

    /// The tile and the way faced.
    pub fn locdir(&self) -> (r: (Loc, Dir))
        ensures
            r == (self.loc, self.dir),
    {
        (self.loc, self.dir)
    }
}

/// Reads a maze, one line per row.
pub fn parse(input: &str) -> (r: Maze)
    requires
        crate::grid::char_grid_fits(input@),
    ensures
        r.wf(),
        r.spec_nrows() == crate::grid::grid_lines(input@).len(),
        r.spec_ncols() == crate::text::utf8_len(crate::grid::grid_lines(input@)[0]),
        forall|row: int, col: int|
            r.in_bounds(row, col) ==> #[trigger] r.cell(row, col) == crate::grid::char_grid_cell(
                crate::grid::grid_lines(input@),
                row,
                col,
            ),
{
    Grid::parse_char_grid(input)
}

/// `l` is a tile of the maze.
pub open spec fn inside(m: &Maze, l: Loc) -> bool {
    m.in_bounds(l.0 as int, l.1 as int)
}

/// The tile at `l`.
pub open spec fn tile(m: &Maze, l: Loc) -> char {
    m.cell(l.0 as int, l.1 as int)
}

/// `l` comes before `k` in row-major order.
pub open spec fn before(l: Loc, k: Loc) -> bool {
    l.0 < k.0 || (l.0 == k.0 && l.1 < k.1)
}

/// The first tile that holds `c`, in row-major order.
pub fn find(maze: &Maze, c: char) -> (r: Option<Loc>)
    requires
        maze.wf(),
        maze.spec_nrows() <= i32::MAX,
        maze.spec_ncols() <= i32::MAX,
    ensures
        match r {
            Some(l) => inside(maze, l) && tile(maze, l) == c && forall|k: Loc|
                inside(maze, k) && before(k, l) ==> tile(maze, k) != c,
            None => forall|k: Loc| inside(maze, k) ==> tile(maze, k) != c,
        },
{
    let nrows = maze.nrows();
    let ncols = maze.ncols();
    for row in 0..nrows
        invariant
            maze.wf(),
            nrows == maze.spec_nrows(),
            ncols == maze.spec_ncols(),
            nrows <= i32::MAX,
            ncols <= i32::MAX,
            forall|k: Loc| inside(maze, k) && k.0 < row ==> tile(maze, k) != c,
    {
        for col in 0..ncols
            invariant
                maze.wf(),
                nrows == maze.spec_nrows(),
                ncols == maze.spec_ncols(),
                nrows <= i32::MAX,
                ncols <= i32::MAX,
                row < nrows,
                forall|k: Loc| inside(maze, k) && (k.0 < row || (k.0 == row && k.1 < col)) ==> tile(maze, k) != c,
        {
            if *maze.at_u32(row, col) == c {
                return Some(Loc::from_u32(row, col));
            }
        }
    }
    None
}

/// The maze is walled all round and small enough for the cost arithmetic:
/// every route cost found stays within a `u32`.
pub open spec fn maze_ok(m: &Maze) -> bool {
    &&& m.wf()
    &&& 0 < m.spec_nrows() <= i32::MAX
    &&& 0 < m.spec_ncols() <= i32::MAX
    &&& 1000 * (4 * (m.spec_nrows() * m.spec_ncols()) + 1) <= u32::MAX
    &&& forall|l: Loc|
        inside(m, l) && (l.0 == 0 || l.0 == m.spec_nrows() - 1 || l.1 == 0 || l.1 == m.spec_ncols() - 1)
            ==> #[trigger] tile(m, l) == '#'
}

/// A reindeer position: a tile and the way faced.
pub type Pose = (Loc, Dir);

/// What a single move from `a` to `b` costs: 1000 for a quarter turn in place,
/// 1 for a step forward, and -1 when `b` is no move from `a` or is a wall.
#[verifier::opaque]
pub open spec fn move_cost(m: &Maze, a: Pose, b: Pose) -> int {
    if !inside(m, b.0) || tile(m, b.0) == '#' {
        -1
    } else if b.0 == a.0 && (b.1 == dir_cw(a.1) || b.1 == dir_ccw(a.1)) {
        1000
    } else if b.0 == shifted(a.0, dir_delta(a.1)) && b.1 == a.1 {
        1
    } else {
        -1
    }
}

/// The pose at `i + 1` is one move from the pose at `i`.
pub open spec fn route_step(m: &Maze, w: Seq<Pose>, i: int) -> bool {
    move_cost(m, w[i], w[i + 1]) >= 0
}

/// A route: each pose is one move from the one before.
pub open spec fn is_route(m: &Maze, w: Seq<Pose>) -> bool {
    &&& w.len() >= 1
    &&& forall|i: int| 0 <= i < w.len() - 1 ==> #[trigger] route_step(m, w, i)
}

/// What a route costs.
pub open spec fn route_cost(m: &Maze, w: Seq<Pose>) -> int
    decreases w.len(),
{
    if w.len() <= 1 {
        0
    } else {
        route_cost(m, w.drop_last()) + move_cost(m, w[w.len() - 2], w.last())
    }
}

/// The route passes `goal` only at its end, if at all (when `avoid` holds).
pub open spec fn avoids(w: Seq<Pose>, goal: Loc, avoid: bool) -> bool {
    avoid ==> forall|i: int| 0 <= i < w.len() - 1 ==> (#[trigger] w[i]).0 != goal
}

/// Some route from `s` to `v` costs `c` (passing `goal` only at its end when
/// `avoid` holds).
pub open spec fn reach(m: &Maze, s: Pose, v: Pose, c: int, goal: Loc, avoid: bool) -> bool {
    exists|w: Seq<Pose>|
        #[trigger] is_route(m, w) && w[0] == s && w.last() == v && route_cost(m, w) == c && avoids(w, goal, avoid)
}

/// The index of a pose among the `4 * rows * cols` poses.
pub open spec fn pose_index(m: &Maze, p: Pose) -> int {
    4 * cell_index(m.spec_ncols() as int, p.0.0 as int, p.0.1 as int) + dir_index(p.1)
}

/// The pose of a state.
pub open spec fn pose(s: State) -> Pose {
    (s.loc, s.dir)
}

/// The number of tiles.
pub open spec fn tiles(m: &Maze) -> int {
    (m.spec_nrows() * m.spec_ncols()) as int
}

/// A cost found so far, or -1 for a pose not reached.
pub open spec fn dval(o: Option<u32>) -> int {
    match o {
        Some(c) => c as int,
        None => -1,
    }
}

spec fn pot(o: Option<u32>, b: int) -> int {
    match o {
        Some(c) => c as int,
        None => b,
    }
}

spec fn pot_sum(s: Seq<Option<u32>>, b: int) -> int
    decreases s.len(),
{
    if s.len() == 0 {
        0
    } else {
        pot_sum(s.drop_last(), b) + pot(s.last(), b)
    }
}

pub open spec fn some_count(s: Seq<Option<u32>>) -> int
    decreases s.len(),
{
    if s.len() == 0 {
        0
    } else {
        some_count(s.drop_last()) + if s.last() is Some {
            1int
        } else {
            0
        }
    }
}

proof fn lemma_sums_update(s: Seq<Option<u32>>, b: int, j: int, v: Option<u32>)
    requires
        0 <= j < s.len(),
    ensures
        pot_sum(s.update(j, v), b) == pot_sum(s, b) - pot(s[j], b) + pot(v, b),
        some_count(s.update(j, v)) == some_count(s) - (if s[j] is Some { 1int } else { 0 }) + (if v is Some {
            1int
        } else {
            0
        }),
    decreases s.len(),
{
    let t = s.update(j, v);
    if j == s.len() - 1 {
        assert(t.drop_last() =~= s.drop_last());
    } else {
        assert(t.drop_last() =~= s.drop_last().update(j, v));
        lemma_sums_update(s.drop_last(), b, j, v);
    }
}

proof fn lemma_sums_bounds(s: Seq<Option<u32>>, b: int)
    requires
        b >= 0,
    ensures
        0 <= some_count(s) <= s.len(),
        pot_sum(s, b) >= 0,
    decreases s.len(),
{
    if s.len() > 0 {
        lemma_sums_bounds(s.drop_last(), b);
    }
}

/// The cap on costs that bounds the search: more than any cost it records.
pub open spec fn cost_cap(m: &Maze) -> int {
    1000 * (4 * tiles(m) + 1)
}

/// The move from `u` to `q` has been tried at `u`'s cost: reaching `q` costs no
/// more than going through `u`, and when it costs just that, `u` is recorded as
/// a way into `q`.
pub open spec fn edge_done(m: &Maze, dist: Seq<Option<u32>>, prev: Seq<Seq<(State, u32)>>, u: State, q: Pose) -> bool {
    let w = move_cost(m, pose(u), q);
    let i = pose_index(m, q);
    w >= 0 ==> (dval(dist[i]) >= 0 && dval(dist[i]) <= u.cost + w && (dval(dist[i]) == u.cost + w
        ==> prev[i].contains((u, (u.cost + w) as u32))))
}

/// Every move out of `u` has been tried at `u`'s cost.
pub open spec fn settled(m: &Maze, dist: Seq<Option<u32>>, prev: Seq<Seq<(State, u32)>>, u: State) -> bool {
    forall|q: Pose| #[trigger] edge_done(m, dist, prev, u, q)
}

/// A queued state is a reached pose at a cost some route pays.
pub open spec fn queued_ok(m: &Maze, start: Pose, goal: Loc, avoid: bool, dist: Seq<Option<u32>>, h: State) -> bool {
    &&& inside(m, h.loc)
    &&& tile(m, h.loc) != '#'
    &&& 0 <= dval(dist[pose_index(m, pose(h))]) <= h.cost
    &&& reach(m, start, pose(h), h.cost as int, goal, avoid)
}

/// A recorded way into `q` is a real move from a pose reached at its cost.
pub open spec fn way_in_ok(m: &Maze, start: Pose, goal: Loc, avoid: bool, q: Pose, e: (State, u32)) -> bool {
    &&& inside(m, e.0.loc)
    &&& move_cost(m, pose(e.0), q) >= 0
    &&& e.1 == e.0.cost + move_cost(m, pose(e.0), q)
    &&& reach(m, start, pose(e.0), e.0.cost as int, goal, avoid)
    &&& !(avoid && e.0.loc == goal)
}

/// Every reached pose is reached by a route at its recorded cost, which stays
/// below the cap, and is no wall.
#[verifier::opaque]
spec fn inv_reach(m: &Maze, start: Pose, goal: Loc, avoid: bool, dist: Seq<Option<u32>>) -> bool {
    forall|p: Pose|
        inside(m, p.0) && dval(#[trigger] dist[pose_index(m, p)]) >= 0 ==> reach(
            m,
            start,
            p,
            dval(dist[pose_index(m, p)]),
            goal,
            avoid,
        ) && dval(dist[pose_index(m, p)]) <= 1000 * some_count(dist) && tile(m, p.0) != '#'
}

/// Every queued state is sound.
#[verifier::opaque]
spec fn inv_heap(m: &Maze, start: Pose, goal: Loc, avoid: bool, dist: Seq<Option<u32>>, heap: Seq<State>) -> bool {
    forall|j: int| 0 <= j < heap.len() ==> queued_ok(m, start, goal, avoid, dist, #[trigger] heap[j])
}

/// The state of a reached pose at its recorded cost.
pub open spec fn at_cost(dist: Seq<Option<u32>>, m: &Maze, p: Pose) -> State {
    State { loc: p.0, dir: p.1, cost: dist[pose_index(m, p)]->0 }
}

/// Every reached pose (but a goal pose when the goal stops the search, and the
/// one being expanded) has had its moves tried at its cost, or is queued at it.
#[verifier::opaque]
spec fn inv_settled(
    m: &Maze,
    goal: Loc,
    avoid: bool,
    dist: Seq<Option<u32>>,
    prev: Seq<Seq<(State, u32)>>,
    heap: Seq<State>,
    busy: Option<State>,
) -> bool {
    forall|p: Pose|
        inside(m, p.0) && dval(#[trigger] dist[pose_index(m, p)]) >= 0 && !(avoid && p.0 == goal) && busy != Some(
            at_cost(dist, m, p),
        ) ==> settled(m, dist, prev, at_cost(dist, m, p)) || heap.contains(at_cost(dist, m, p))
}

/// Every recorded way in is sound.
#[verifier::opaque]
spec fn inv_ways(m: &Maze, start: Pose, goal: Loc, avoid: bool, prev: Seq<Seq<(State, u32)>>) -> bool {
    forall|q: Pose, k: int|
        inside(m, q.0) && 0 <= k < prev[pose_index(m, q)].len() ==> way_in_ok(
            m,
            start,
            goal,
            avoid,
            q,
            #[trigger] prev[pose_index(m, q)][k],
        )
}

/// What the search keeps while it runs. `busy` is the state being expanded, if
/// any: it is neither settled nor queued until its moves are all tried.
spec fn search_inv(
    m: &Maze,
    start: Pose,
    goal: Loc,
    avoid: bool,
    dist: Seq<Option<u32>>,
    prev: Seq<Seq<(State, u32)>>,
    heap: Seq<State>,
    busy: Option<State>,
) -> bool {
    &&& dist.len() == 4 * tiles(m)
    &&& prev.len() == 4 * tiles(m)
    &&& inside(m, start.0)
    &&& dist[pose_index(m, start)] == Some(0u32)
    &&& some_count(dist) <= 4 * tiles(m)
    &&& inv_reach(m, start, goal, avoid, dist)
    &&& inv_heap(m, start, goal, avoid, dist, heap)
    &&& inv_settled(m, goal, avoid, dist, prev, heap, busy)
    &&& inv_ways(m, start, goal, avoid, prev)
}

proof fn lemma_pose_index(m: &Maze, p: Pose)
    requires
        m.wf(),
        inside(m, p.0),
    ensures
        0 <= pose_index(m, p) < 4 * tiles(m),
{
    lemma_cell_index(m.spec_nrows() as int, m.spec_ncols() as int, p.0.0 as int, p.0.1 as int);
}

proof fn lemma_pose_index_injective(m: &Maze, p: Pose, q: Pose)
    requires
        m.wf(),
        inside(m, p.0),
        inside(m, q.0),
        pose_index(m, p) == pose_index(m, q),
    ensures
        p == q,
{
    let nc = m.spec_ncols() as int;
    let a = cell_index(nc, p.0.0 as int, p.0.1 as int);
    let b = cell_index(nc, q.0.0 as int, q.0.1 as int);
    assert(a == b && dir_index(p.1) == dir_index(q.1));
    lemma_cell_index_injective(nc, p.0.0 as int, p.0.1 as int, q.0.0 as int, q.0.1 as int);
}

proof fn lemma_reach_start(m: &Maze, start: Pose, goal: Loc, avoid: bool)
    ensures
        reach(m, start, start, 0, goal, avoid),
{
    let w = seq![start];
    assert(is_route(m, w));
    assert(route_cost(m, w) == 0);
}

proof fn lemma_reach_step(m: &Maze, start: Pose, u: Pose, q: Pose, c: int, goal: Loc, avoid: bool)
    requires
        reach(m, start, u, c, goal, avoid),
        move_cost(m, u, q) >= 0,
        !(avoid && u.0 == goal),
    ensures
        reach(m, start, q, c + move_cost(m, u, q), goal, avoid),
{
    let w = choose|w: Seq<Pose>|
        #[trigger] is_route(m, w) && w[0] == start && w.last() == u && route_cost(m, w) == c && avoids(w, goal, avoid);
    let w2 = w.push(q);
    assert(w2.drop_last() =~= w);
    assert forall|i: int| 0 <= i < w2.len() - 1 implies #[trigger] route_step(m, w2, i) by {
        if i < w.len() - 1 {
            assert(w2[i] == w[i] && w2[i + 1] == w[i + 1]);
            assert(route_step(m, w, i));
        }
    }
    assert(is_route(m, w2));
    assert(avoids(w2, goal, avoid));
}

/// The only moves are the two turns and the step forward.
proof fn lemma_moves(m: &Maze, u: Pose, q: Pose)
    requires
        move_cost(m, u, q) >= 0,
    ensures
        q == (u.0, dir_cw(u.1)) || q == (u.0, dir_ccw(u.1)) || q == (shifted(u.0, dir_delta(u.1)), u.1),
{
    reveal(move_cost);
}

/// A move costs 1 or 1000, lands inside on an open tile, and changes the pose.
proof fn lemma_move_cost(m: &Maze, u: Pose, q: Pose)
    requires
        move_cost(m, u, q) >= 0,
    ensures
        move_cost(m, u, q) == 1 || move_cost(m, u, q) == 1000,
        inside(m, q.0),
        tile(m, q.0) != '#',
{
    reveal(move_cost);
}

/// No move ends on a wall.
proof fn lemma_wall_no_move(m: &Maze, u: Pose, q: Pose)
    requires
        tile(m, q.0) == '#',
    ensures
        move_cost(m, u, q) < 0,
{
    reveal(move_cost);
}

/// No move leaves a pose where it was.
proof fn lemma_no_self_move(m: &Maze, u: Pose)
    requires
        maze_ok(m),
        inside(m, u.0),
    ensures
        move_cost(m, u, u) < 0,
{
    reveal(move_cost);
}

/// A cheaper cost for `q` through `u`: `q` gets that cost, is queued again,
/// and `u` is recorded as a way in.
#[verifier::spinoff_prover]
proof fn lemma_relax_better(
    m: &Maze,
    start: Pose,
    goal: Loc,
    avoid: bool,
    d: Seq<Option<u32>>,
    prev: Seq<Seq<(State, u32)>>,
    heap: Seq<State>,
    u: State,
    q: Pose,
    nc: u32,
    ways: Seq<(State, u32)>,
)
    requires
        maze_ok(m),
        search_inv(m, start, goal, avoid, d, prev, heap, Some(u)),
        inside(m, u.loc),
        dval(d[pose_index(m, pose(u))]) == u.cost,
        !(avoid && u.loc == goal),
        inside(m, q.0),
        move_cost(m, pose(u), q) >= 0,
        nc == u.cost + move_cost(m, pose(u), q),
        dval(d[pose_index(m, q)]) < 0 || nc < dval(d[pose_index(m, q)]),
        ways.contains((u, nc)),
        forall|e: (State, u32)| #[trigger] ways.contains(e) ==> prev[pose_index(m, q)].contains(e) || e == (u, nc),
        forall|k: int| 0 <= k < prev[pose_index(m, q)].len() ==> ways.contains(#[trigger] prev[pose_index(m, q)][k]),
    ensures
        search_inv(
            m,
            start,
            goal,
            avoid,
            d.update(pose_index(m, q), Some(nc)),
            prev.update(pose_index(m, q), ways),
            heap.push(State { loc: q.0, dir: q.1, cost: nc }),
            Some(u),
        ),
        edge_done(m, d.update(pose_index(m, q), Some(nc)), prev.update(pose_index(m, q), ways), u, q),
        forall|q2: Pose|
            edge_done(m, d, prev, u, q2) ==> #[trigger] edge_done(
                m,
                d.update(pose_index(m, q), Some(nc)),
                prev.update(pose_index(m, q), ways),
                u,
                q2,
            ),
        pot_sum(d.update(pose_index(m, q), Some(nc)), cost_cap(m)) + 1 <= pot_sum(d, cost_cap(m)),
{
    let qi = pose_index(m, q);
    let d2 = d.update(qi, Some(nc));
    let p2 = prev.update(qi, ways);
    let h2 = heap.push(State { loc: q.0, dir: q.1, cost: nc });
    lemma_pose_index(m, q);
    lemma_pose_index(m, pose(u));
    lemma_sums_update(d, cost_cap(m), qi, Some(nc));
    lemma_sums_bounds(d2, cost_cap(m));
    lemma_sums_bounds(d, cost_cap(m));
    lemma_reached_facts(m, start, goal, avoid, d, pose(u));
    assert(u.cost <= 1000 * some_count(d));
    lemma_move_cost(m, pose(u), q);
    assert(move_cost(m, pose(u), q) <= 1000);
    if dval(d[qi]) >= 0 {
        lemma_reached_facts(m, start, goal, avoid, d, q);
        assert(some_count(d2) == some_count(d));
    } else {
        assert(some_count(d2) == some_count(d) + 1);
    }
    assert(nc <= 1000 * some_count(d2));
    lemma_reach_step(m, start, pose(u), q, u.cost as int, goal, avoid);
    lemma_pose_index(m, start);
    assert(qi != pose_index(m, start)) by {
        if qi == pose_index(m, start) {
            assert(dval(d[qi]) == 0);
        }
    }
    lemma_better_reach(m, start, goal, avoid, d, u, q, nc);
    lemma_better_heap(m, start, goal, avoid, d, heap, q, nc);
    lemma_better_settled(m, goal, avoid, d, prev, heap, u, q, nc, ways);
    lemma_new_way(m, start, goal, avoid, prev, u, q, nc, ways);
    lemma_edges_kept(m, d, prev, u, q, nc, ways);
    assert(d2[qi] == Some(nc));
    assert(p2[qi].contains((u, nc)));
    assert(d2.len() == 4 * tiles(m));
    assert(p2.len() == 4 * tiles(m));
    assert(d2[pose_index(m, start)] == Some(0u32));
    assert(some_count(d2) <= 4 * tiles(m));
    assert(inv_reach(m, start, goal, avoid, d2));
    assert(inv_heap(m, start, goal, avoid, d2, h2));
    assert(inv_settled(m, goal, avoid, d2, p2, h2, Some(u)));
    assert(inv_ways(m, start, goal, avoid, p2));
}

proof fn lemma_edges_kept(
    m: &Maze,
    d: Seq<Option<u32>>,
    prev: Seq<Seq<(State, u32)>>,
    u: State,
    q: Pose,
    nc: u32,
    ways: Seq<(State, u32)>,
)
    requires
        m.wf(),
        d.len() == 4 * tiles(m),
        prev.len() == 4 * tiles(m),
        inside(m, q.0),
        dval(d[pose_index(m, q)]) < 0 || nc <= dval(d[pose_index(m, q)]),
        forall|k: int| 0 <= k < prev[pose_index(m, q)].len() ==> ways.contains(#[trigger] prev[pose_index(m, q)][k]),
    ensures
        forall|q2: Pose|
            edge_done(m, d, prev, u, q2) ==> #[trigger] edge_done(
                m,
                d.update(pose_index(m, q), Some(nc)),
                prev.update(pose_index(m, q), ways),
                u,
                q2,
            ),
{
    assert forall|q2: Pose| edge_done(m, d, prev, u, q2) implies #[trigger] edge_done(
        m,
        d.update(pose_index(m, q), Some(nc)),
        prev.update(pose_index(m, q), ways),
        u,
        q2,
    ) by {
        lemma_edge_done_after(m, d, prev, u, q2, q, nc, ways);
    }
}

/// What the search knows of a reached pose.
proof fn lemma_reached_facts(m: &Maze, start: Pose, goal: Loc, avoid: bool, d: Seq<Option<u32>>, p: Pose)
    requires
        inv_reach(m, start, goal, avoid, d),
        inside(m, p.0),
        dval(d[pose_index(m, p)]) >= 0,
    ensures
        reach(m, start, p, dval(d[pose_index(m, p)]), goal, avoid),
        dval(d[pose_index(m, p)]) <= 1000 * some_count(d),
        tile(m, p.0) != '#',
{
    reveal(inv_reach);
}

proof fn lemma_better_reach(
    m: &Maze,
    start: Pose,
    goal: Loc,
    avoid: bool,
    d: Seq<Option<u32>>,
    u: State,
    q: Pose,
    nc: u32,
)
    requires
        maze_ok(m),
        d.len() == 4 * tiles(m),
        inv_reach(m, start, goal, avoid, d),
        inside(m, u.loc),
        dval(d[pose_index(m, pose(u))]) == u.cost,
        !(avoid && u.loc == goal),
        inside(m, q.0),
        move_cost(m, pose(u), q) >= 0,
        nc == u.cost + move_cost(m, pose(u), q),
        nc <= 1000 * some_count(d.update(pose_index(m, q), Some(nc))),
        some_count(d.update(pose_index(m, q), Some(nc))) >= some_count(d),
    ensures
        inv_reach(m, start, goal, avoid, d.update(pose_index(m, q), Some(nc))),
{
    reveal(inv_reach);
    let qi = pose_index(m, q);
    let d2 = d.update(qi, Some(nc));
    lemma_move_cost(m, pose(u), q);
    lemma_pose_index(m, pose(u));
    lemma_reach_step(m, start, pose(u), q, u.cost as int, goal, avoid);
    assert forall|p: Pose| inside(m, p.0) && dval(#[trigger] d2[pose_index(m, p)]) >= 0 implies reach(
        m,
        start,
        p,
        dval(d2[pose_index(m, p)]),
        goal,
        avoid,
    ) && dval(d2[pose_index(m, p)]) <= 1000 * some_count(d2) && tile(m, p.0) != '#' by {
        lemma_pose_index(m, p);
        lemma_pose_index(m, q);
        if pose_index(m, p) == qi {
            lemma_pose_index_injective(m, p, q);
        } else {
            assert(d2[pose_index(m, p)] == d[pose_index(m, p)]);
        }
    }
}

proof fn lemma_better_heap(
    m: &Maze,
    start: Pose,
    goal: Loc,
    avoid: bool,
    d: Seq<Option<u32>>,
    heap: Seq<State>,
    q: Pose,
    nc: u32,
)
    requires
        maze_ok(m),
        d.len() == 4 * tiles(m),
        inv_heap(m, start, goal, avoid, d, heap),
        inside(m, q.0),
        tile(m, q.0) != '#',
        dval(d[pose_index(m, q)]) < 0 || nc < dval(d[pose_index(m, q)]),
        reach(m, start, q, nc as int, goal, avoid),
    ensures
        inv_heap(m, start, goal, avoid, d.update(pose_index(m, q), Some(nc)), heap.push(State { loc: q.0, dir: q.1, cost: nc })),
{
    reveal(inv_heap);
    let qi = pose_index(m, q);
    let d2 = d.update(qi, Some(nc));
    let h2 = heap.push(State { loc: q.0, dir: q.1, cost: nc });
    lemma_pose_index(m, q);
    assert forall|j: int| 0 <= j < h2.len() implies queued_ok(m, start, goal, avoid, d2, #[trigger] h2[j]) by {
        if j < heap.len() {
            assert(h2[j] == heap[j]);
            assert(queued_ok(m, start, goal, avoid, d, heap[j]));
            lemma_pose_index(m, pose(heap[j]));
        }
    }
}

proof fn lemma_better_settled(
    m: &Maze,
    goal: Loc,
    avoid: bool,
    d: Seq<Option<u32>>,
    prev: Seq<Seq<(State, u32)>>,
    heap: Seq<State>,
    u: State,
    q: Pose,
    nc: u32,
    ways: Seq<(State, u32)>,
)
    requires
        maze_ok(m),
        d.len() == 4 * tiles(m),
        prev.len() == 4 * tiles(m),
        inv_settled(m, goal, avoid, d, prev, heap, Some(u)),
        inside(m, q.0),
        dval(d[pose_index(m, q)]) < 0 || nc < dval(d[pose_index(m, q)]),
        forall|k: int| 0 <= k < prev[pose_index(m, q)].len() ==> ways.contains(#[trigger] prev[pose_index(m, q)][k]),
    ensures
        inv_settled(
            m,
            goal,
            avoid,
            d.update(pose_index(m, q), Some(nc)),
            prev.update(pose_index(m, q), ways),
            heap.push(State { loc: q.0, dir: q.1, cost: nc }),
            Some(u),
        ),
{
    reveal(inv_settled);
    let qi = pose_index(m, q);
    let d2 = d.update(qi, Some(nc));
    let p2 = prev.update(qi, ways);
    let h2 = heap.push(State { loc: q.0, dir: q.1, cost: nc });
    lemma_pose_index(m, q);
    assert forall|p: Pose|
        inside(m, p.0) && dval(#[trigger] d2[pose_index(m, p)]) >= 0 && !(avoid && p.0 == goal) && Some(u) != Some(
            at_cost(d2, m, p),
        ) implies settled(m, d2, p2, at_cost(d2, m, p)) || h2.contains(at_cost(d2, m, p)) by {
        lemma_pose_index(m, p);
        let st = at_cost(d2, m, p);
        if pose_index(m, p) == qi {
            lemma_pose_index_injective(m, p, q);
            assert(h2[heap.len() as int] == st);
        } else {
            assert(d2[pose_index(m, p)] == d[pose_index(m, p)]);
            assert(st == at_cost(d, m, p));
            if heap.contains(st) {
                let j = choose|j: int| 0 <= j < heap.len() && heap[j] == st;
                assert(h2[j] == st);
            } else {
                assert(settled(m, d, prev, st));
                assert forall|q2: Pose| #[trigger] edge_done(m, d2, p2, st, q2) by {
                    assert(edge_done(m, d, prev, st, q2));
                    lemma_edge_done_after(m, d, prev, st, q2, q, nc, ways);
                }
            }
        }
    }
}

proof fn lemma_new_way(
    m: &Maze,
    start: Pose,
    goal: Loc,
    avoid: bool,
    prev: Seq<Seq<(State, u32)>>,
    u: State,
    q: Pose,
    nc: u32,
    ways: Seq<(State, u32)>,
)
    requires
        maze_ok(m),
        prev.len() == 4 * tiles(m),
        inv_ways(m, start, goal, avoid, prev),
        inside(m, q.0),
        inside(m, u.loc),
        reach(m, start, pose(u), u.cost as int, goal, avoid),
        !(avoid && u.loc == goal),
        move_cost(m, pose(u), q) >= 0,
        nc == u.cost + move_cost(m, pose(u), q),
        forall|e: (State, u32)| #[trigger] ways.contains(e) ==> prev[pose_index(m, q)].contains(e) || e == (u, nc),
    ensures
        inv_ways(m, start, goal, avoid, prev.update(pose_index(m, q), ways)),
{
    reveal(inv_ways);
    let qi = pose_index(m, q);
    let p2 = prev.update(qi, ways);
    lemma_pose_index(m, q);
    assert forall|q2: Pose, k: int| inside(m, q2.0) && 0 <= k < p2[pose_index(m, q2)].len() implies way_in_ok(
        m,
        start,
        goal,
        avoid,
        q2,
        #[trigger] p2[pose_index(m, q2)][k],
    ) by {
        lemma_pose_index(m, q2);
        if pose_index(m, q2) == qi {
            lemma_pose_index_injective(m, q2, q);
            let e = p2[qi][k];
            assert(ways.contains(e));
            if e != (u, nc) {
                let k2 = choose|k2: int| 0 <= k2 < prev[qi].len() && prev[qi][k2] == e;
            }
        } else {
            assert(p2[pose_index(m, q2)] == prev[pose_index(m, q2)]);
        }
    }
}

/// Lowering the cost of `q` (or recording a way into it) keeps every tried
/// move tried.
proof fn lemma_edge_done_after(
    m: &Maze,
    d: Seq<Option<u32>>,
    prev: Seq<Seq<(State, u32)>>,
    v: State,
    q2: Pose,
    q: Pose,
    nc: u32,
    ways: Seq<(State, u32)>,
)
    requires
        m.wf(),
        d.len() == 4 * tiles(m),
        prev.len() == 4 * tiles(m),
        inside(m, q.0),
        edge_done(m, d, prev, v, q2),
        dval(d[pose_index(m, q)]) < 0 || nc <= dval(d[pose_index(m, q)]),
        forall|k: int| 0 <= k < prev[pose_index(m, q)].len() ==> ways.contains(#[trigger] prev[pose_index(m, q)][k]),
    ensures
        edge_done(m, d.update(pose_index(m, q), Some(nc)), prev.update(pose_index(m, q), ways), v, q2),
{
    let qi = pose_index(m, q);
    let w = move_cost(m, pose(v), q2);
    if w >= 0 {
        lemma_move_cost(m, pose(v), q2);
        let i2 = pose_index(m, q2);
        lemma_pose_index(m, q);
        lemma_pose_index(m, q2);
        if i2 == qi {
            assert(dval(d[qi]) >= 0);
            if nc == v.cost + w {
                assert(dval(d[qi]) == v.cost + w);
                let e = (v, (v.cost + w) as u32);
                let k = choose|k: int| 0 <= k < prev[qi].len() && prev[qi][k] == e;
                assert(ways.contains(prev[qi][k]));
            }
        } else {
            assert(d.update(qi, Some(nc))[i2] == d[i2]);
            assert(prev.update(qi, ways)[i2] == prev[i2]);
        }
    }
}

/// A way into `q` through `u` as cheap as the best known: `u` is recorded.
#[verifier::spinoff_prover]
proof fn lemma_relax_equal(
    m: &Maze,
    start: Pose,
    goal: Loc,
    avoid: bool,
    d: Seq<Option<u32>>,
    prev: Seq<Seq<(State, u32)>>,
    heap: Seq<State>,
    u: State,
    q: Pose,
    nc: u32,
    ways: Seq<(State, u32)>,
)
    requires
        maze_ok(m),
        search_inv(m, start, goal, avoid, d, prev, heap, Some(u)),
        inside(m, u.loc),
        dval(d[pose_index(m, pose(u))]) == u.cost,
        !(avoid && u.loc == goal),
        inside(m, q.0),
        move_cost(m, pose(u), q) >= 0,
        nc == u.cost + move_cost(m, pose(u), q),
        d[pose_index(m, q)] == Some(nc),
        ways.contains((u, nc)),
        forall|e: (State, u32)| #[trigger] ways.contains(e) ==> prev[pose_index(m, q)].contains(e) || e == (u, nc),
        forall|k: int| 0 <= k < prev[pose_index(m, q)].len() ==> ways.contains(#[trigger] prev[pose_index(m, q)][k]),
    ensures
        search_inv(m, start, goal, avoid, d, prev.update(pose_index(m, q), ways), heap, Some(u)),
        edge_done(m, d, prev.update(pose_index(m, q), ways), u, q),
        forall|q2: Pose| edge_done(m, d, prev, u, q2) ==> #[trigger] edge_done(m, d, prev.update(pose_index(m, q), ways), u, q2),
{
    let qi = pose_index(m, q);
    let p2 = prev.update(qi, ways);
    lemma_pose_index(m, q);
    lemma_pose_index(m, start);
    lemma_pose_index(m, pose(u));
    lemma_reached_facts(m, start, goal, avoid, d, pose(u));
    assert(d.update(qi, Some(nc)) =~= d);
    lemma_edges_kept(m, d, prev, u, q, nc, ways);
    lemma_new_way(m, start, goal, avoid, prev, u, q, nc, ways);
    lemma_equal_settled(m, goal, avoid, d, prev, heap, u, q, nc, ways);
    assert(p2[qi].contains((u, nc)));
    assert(inv_ways(m, start, goal, avoid, p2));
    assert(inv_settled(m, goal, avoid, d, p2, heap, Some(u)));
}

proof fn lemma_equal_settled(
    m: &Maze,
    goal: Loc,
    avoid: bool,
    d: Seq<Option<u32>>,
    prev: Seq<Seq<(State, u32)>>,
    heap: Seq<State>,
    u: State,
    q: Pose,
    nc: u32,
    ways: Seq<(State, u32)>,
)
    requires
        maze_ok(m),
        d.len() == 4 * tiles(m),
        prev.len() == 4 * tiles(m),
        inv_settled(m, goal, avoid, d, prev, heap, Some(u)),
        inside(m, q.0),
        d[pose_index(m, q)] == Some(nc),
        forall|k: int| 0 <= k < prev[pose_index(m, q)].len() ==> ways.contains(#[trigger] prev[pose_index(m, q)][k]),
    ensures
        inv_settled(m, goal, avoid, d, prev.update(pose_index(m, q), ways), heap, Some(u)),
{
    reveal(inv_settled);
    let qi = pose_index(m, q);
    let p2 = prev.update(qi, ways);
    lemma_pose_index(m, q);
    assert(d.update(qi, Some(nc)) =~= d);
    assert forall|p: Pose|
        inside(m, p.0) && dval(#[trigger] d[pose_index(m, p)]) >= 0 && !(avoid && p.0 == goal) && Some(u) != Some(
            at_cost(d, m, p),
        ) implies settled(m, d, p2, at_cost(d, m, p)) || heap.contains(at_cost(d, m, p)) by {
        let st = at_cost(d, m, p);
        if !heap.contains(st) {
            assert(settled(m, d, prev, st));
            assert forall|q2: Pose| #[trigger] edge_done(m, d, p2, st, q2) by {
                assert(edge_done(m, d, prev, st, q2));
                lemma_edge_done_after(m, d, prev, st, q2, q, nc, ways);
            }
        }
    }
}

/// The recorded ways in, as sequences.
pub open spec fn ways_view(prev: Seq<Vec<(State, u32)>>) -> Seq<Seq<(State, u32)>> {
    prev.map_values(|v: Vec<(State, u32)>| v@)
}

/// Adds `e` to the ways into a pose unless it is there already.
fn add_way_in(prev: &mut Vec<Vec<(State, u32)>>, qi: usize, e: (State, u32))
    requires
        qi < old(prev)@.len(),
    ensures
        ways_view(final(prev)@) == ways_view(old(prev)@).update(qi as int, ways_view(final(prev)@)[qi as int]),
        ways_view(final(prev)@)[qi as int].contains(e),
        forall|x: (State, u32)|
            #[trigger] ways_view(final(prev)@)[qi as int].contains(x) ==> ways_view(old(prev)@)[qi as int].contains(x)
                || x == e,
        forall|k: int|
            0 <= k < ways_view(old(prev)@)[qi as int].len() ==> ways_view(final(prev)@)[qi as int].contains(
                #[trigger] ways_view(old(prev)@)[qi as int][k],
            ),
{
    let ghost old_prev = prev@;
    let ghost before = prev@[qi as int]@;
    let mut found = false;
    let n = prev[qi].len();
    for k in 0..n
        invariant
            qi < prev@.len(),
            prev@ == old_prev,
            prev@[qi as int]@ == before,
            n == before.len(),
            found ==> before.contains(e),
    {
        let x = prev[qi][k];
        if x.0 == e.0 && x.1 == e.1 {
            assert(before[k as int] == e);
            found = true;
        }
    }
    if !found {
        prev[qi].push(e);
        proof {
            let after = prev@[qi as int]@;
            assert(after == before.push(e));
            assert(after[before.len() as int] == e);
            assert forall|x: (State, u32)| #[trigger] after.contains(x) implies before.contains(x) || x == e by {
                if x != e {
                    let k = choose|k: int| 0 <= k < after.len() && after[k] == x;
                    assert(before[k] == x);
                }
            }
            assert forall|k: int| 0 <= k < before.len() implies after.contains(#[trigger] before[k]) by {
                assert(after[k] == before[k]);
            }
            assert(ways_view(prev@) =~= ways_view(old_prev).update(qi as int, after));
        }
    } else {
        assert forall|k: int| 0 <= k < before.len() implies before.contains(#[trigger] before[k]) by {
        }
        assert(ways_view(prev@) =~= ways_view(old_prev).update(qi as int, before));
    }
}

/// The index of a pose among the `4 * rows * cols` poses.
fn pose_index_of(maze: &Maze, loc: Loc, dir: Dir) -> (r: usize)
    requires
        maze_ok(maze),
        inside(maze, loc),
    ensures
        r == pose_index(maze, (loc, dir)),
        r < 4 * tiles(maze),
{
    let i = maze.u32_to_index(loc.row_u32(), loc.col_u32());
    proof {
        lemma_pose_index(maze, (loc, dir));
    }
    4 * i + dir.index()
}

/// Tries the move from `u` to `next.loc` facing `next.dir`, at the cost
/// `next.cost`: a cheaper way there is taken and queued, one as cheap as the
/// best known is recorded as a way in, and a wall is skipped.
#[verifier::spinoff_prover]
fn relax(
    maze: &Maze,
    dist: &mut Vec<Option<u32>>,
    prev: &mut Vec<Vec<(State, u32)>>,
    heap: &mut Vec<State>,
    u: State,
    next: State,
    Ghost(start): Ghost<Pose>,
    Ghost(goal): Ghost<Loc>,
    Ghost(avoid): Ghost<bool>,
)
    requires
        maze_ok(maze),
        search_inv(maze, start, goal, avoid, old(dist)@, ways_view(old(prev)@), old(heap)@, Some(u)),
        inside(maze, u.loc),
        dval(old(dist)@[pose_index(maze, pose(u))]) == u.cost,
        !(avoid && u.loc == goal),
        inside(maze, next.loc),
        tile(maze, next.loc) != '#' ==> move_cost(maze, pose(u), pose(next)) >= 0 && next.cost == u.cost + move_cost(
            maze,
            pose(u),
            pose(next),
        ),
    ensures
        search_inv(maze, start, goal, avoid, final(dist)@, ways_view(final(prev)@), final(heap)@, Some(u)),
        edge_done(maze, final(dist)@, ways_view(final(prev)@), u, pose(next)),
        forall|q2: Pose|
            edge_done(maze, old(dist)@, ways_view(old(prev)@), u, q2) ==> #[trigger] edge_done(
                maze,
                final(dist)@,
                ways_view(final(prev)@),
                u,
                q2,
            ),
        final(dist)@[pose_index(maze, pose(u))] == old(dist)@[pose_index(maze, pose(u))],
        pot_sum(final(dist)@, cost_cap(maze)) + final(heap)@.len() <= pot_sum(old(dist)@, cost_cap(maze)) + old(
            heap,
        )@.len(),
{
    let ghost d0 = dist@;
    let ghost p0 = ways_view(prev@);
    let ghost h0 = heap@;
    let ghost q = pose(next);
    let qi = pose_index_of(maze, next.loc, next.dir);
    proof {
        lemma_pose_index(maze, pose(u));
        lemma_cell_index(maze.spec_nrows() as int, maze.spec_ncols() as int, next.loc.0 as int, next.loc.1 as int);
    }
    // don't clip through walls
    if *maze.at(next.loc) == '#' {
        proof {
            lemma_wall_no_move(maze, pose(u), q);
        }
        return;
    }
    proof {
        if pose_index(maze, pose(u)) == qi {
            lemma_pose_index_injective(maze, pose(u), q);
            lemma_no_self_move(maze, pose(u));
        }
    }
    let existing = dist[qi];
    let better = match existing {
        None => true,
        Some(e) => next.cost < e,
    };
    if better {
        // add next state to queue
        heap.push(next);
        dist.set(qi, Some(next.cost));
        add_way_in(prev, qi, (u, next.cost));
        proof {
            lemma_relax_better(maze, start, goal, avoid, d0, p0, h0, u, q, next.cost, ways_view(prev@)[qi as int]);
            assert(heap@ == h0.push(State { loc: q.0, dir: q.1, cost: next.cost }));
            assert(ways_view(prev@) == p0.update(qi as int, ways_view(prev@)[qi as int]));
        }
    } else if existing == Some(next.cost) {
        add_way_in(prev, qi, (u, next.cost));
        proof {
            lemma_relax_equal(maze, start, goal, avoid, d0, p0, h0, u, q, next.cost, ways_view(prev@)[qi as int]);
        }
    } else {
        proof {
            lemma_pose_index(maze, q);
            assert forall|q2: Pose| edge_done(maze, d0, p0, u, q2) implies #[trigger] edge_done(maze, d0, p0, u, q2) by {
            }
        }
    }
}

/// Takes out a cheapest queued state.
fn pop_min(heap: &mut Vec<State>) -> (r: State)
    requires
        old(heap)@.len() > 0,
    ensures
        exists|i: int|
            0 <= i < old(heap)@.len() && r == old(heap)@[i] && final(heap)@ == old(heap)@.update(
                i,
                old(heap)@.last(),
            ).drop_last(),
        forall|j: int| 0 <= j < old(heap)@.len() ==> r.cost <= (#[trigger] old(heap)@[j]).cost,
{
    let mut best: usize = 0;
    for i in 1..heap.len()
        invariant
            heap@.len() > 0,
            best < heap@.len(),
            forall|j: int| 0 <= j < i ==> heap@[best as int].cost <= (#[trigger] heap@[j]).cost,
    {
        if heap[i].cost < heap[best].cost {
            best = i;
        }
    }
    heap.swap_remove(best)
}

proof fn lemma_remove_keeps(h: Seq<State>, i: int, x: State)
    requires
        0 <= i < h.len(),
        h.contains(x),
        x != h[i],
    ensures
        h.update(i, h.last()).drop_last().contains(x),
{
    let k = choose|k: int| 0 <= k < h.len() && h[k] == x;
    let t = h.update(i, h.last()).drop_last();
    if k == h.len() - 1 {
        assert(t[i] == x);
    } else {
        assert(k != i);
        assert(t[k] == x);
    }
}

/// Taking a queued state out keeps the invariant, with the state busy when it
/// is to be expanded.
#[verifier::spinoff_prover]
proof fn lemma_pop(
    m: &Maze,
    start: Pose,
    goal: Loc,
    avoid: bool,
    d: Seq<Option<u32>>,
    prev: Seq<Seq<(State, u32)>>,
    heap: Seq<State>,
    i: int,
)
    requires
        maze_ok(m),
        search_inv(m, start, goal, avoid, d, prev, heap, None),
        0 <= i < heap.len(),
    ensures
        queued_ok(m, start, goal, avoid, d, heap[i]),
        ({
            let st = heap[i];
            let h2 = heap.update(i, heap.last()).drop_last();
            if st.cost == dval(d[pose_index(m, pose(st))]) && !(avoid && st.loc == goal) {
                search_inv(m, start, goal, avoid, d, prev, h2, Some(st))
            } else {
                search_inv(m, start, goal, avoid, d, prev, h2, None)
            }
        }),
{
    let st = heap[i];
    let h2 = heap.update(i, heap.last()).drop_last();
    reveal(inv_heap);
    reveal(inv_settled);
    assert(queued_ok(m, start, goal, avoid, d, heap[i]));
    let expand = st.cost == dval(d[pose_index(m, pose(st))]) && !(avoid && st.loc == goal);
    let busy = if expand {
        Some(st)
    } else {
        None
    };
    assert forall|j: int| 0 <= j < h2.len() implies queued_ok(m, start, goal, avoid, d, #[trigger] h2[j]) by {
        if j == i {
            assert(h2[j] == heap[heap.len() - 1]);
        } else {
            assert(h2[j] == heap[j]);
        }
    }
    assert forall|p: Pose|
        inside(m, p.0) && dval(#[trigger] d[pose_index(m, p)]) >= 0 && !(avoid && p.0 == goal) && busy != Some(
            at_cost(d, m, p),
        ) implies settled(m, d, prev, at_cost(d, m, p)) || h2.contains(at_cost(d, m, p)) by {
        let x = at_cost(d, m, p);
        if !settled(m, d, prev, x) {
            assert(heap.contains(x));
            if x == st {
                assert(pose(st) == p);
                assert(st.cost == dval(d[pose_index(m, p)]));
                assert(false);
            }
            lemma_remove_keeps(heap, i, x);
        }
    }
    assert(inv_heap(m, start, goal, avoid, d, h2));
    assert(inv_settled(m, goal, avoid, d, prev, h2, busy));
}

/// Once every move out of `u` is tried, `u` is settled and no longer busy.
#[verifier::spinoff_prover]
proof fn lemma_expanded(
    m: &Maze,
    start: Pose,
    goal: Loc,
    avoid: bool,
    d: Seq<Option<u32>>,
    prev: Seq<Seq<(State, u32)>>,
    heap: Seq<State>,
    u: State,
)
    requires
        maze_ok(m),
        search_inv(m, start, goal, avoid, d, prev, heap, Some(u)),
        inside(m, u.loc),
        dval(d[pose_index(m, pose(u))]) == u.cost,
        edge_done(m, d, prev, u, (u.loc, dir_cw(u.dir))),
        edge_done(m, d, prev, u, (u.loc, dir_ccw(u.dir))),
        edge_done(m, d, prev, u, (shifted(u.loc, dir_delta(u.dir)), u.dir)),
    ensures
        search_inv(m, start, goal, avoid, d, prev, heap, None),
{
    reveal(inv_settled);
    assert forall|q: Pose| #[trigger] edge_done(m, d, prev, u, q) by {
        if move_cost(m, pose(u), q) >= 0 {
            lemma_moves(m, pose(u), q);
        }
    }
    assert(settled(m, d, prev, u));
    assert forall|p: Pose|
        inside(m, p.0) && dval(#[trigger] d[pose_index(m, p)]) >= 0 && !(avoid && p.0 == goal) && None::<State> != Some(
            at_cost(d, m, p),
        ) implies settled(m, d, prev, at_cost(d, m, p)) || heap.contains(at_cost(d, m, p)) by {
        if at_cost(d, m, p) == u {
        } else {
            assert(Some(u) != Some(at_cost(d, m, p)));
        }
    }
}

/// What the finished search gives: every pose it reached with the cost of a
/// route there, every reached pose (but goal poses when the goal stops it)
/// with all its moves tried, and sound ways in.
pub open spec fn search_done(
    m: &Maze,
    start: Pose,
    goal: Loc,
    avoid: bool,
    dist: Seq<Option<u32>>,
    prev: Seq<Seq<(State, u32)>>,
) -> bool {
    &&& dist.len() == 4 * tiles(m)
    &&& prev.len() == 4 * tiles(m)
    &&& dist[pose_index(m, start)] == Some(0u32)
    &&& forall|p: Pose|
        inside(m, p.0) && dval(#[trigger] dist[pose_index(m, p)]) >= 0 ==> reach(
            m,
            start,
            p,
            dval(dist[pose_index(m, p)]),
            goal,
            avoid,
        )
    &&& forall|p: Pose|
        inside(m, p.0) && dval(#[trigger] dist[pose_index(m, p)]) >= 0 && !(avoid && p.0 == goal) ==> settled(
            m,
            dist,
            prev,
            at_cost(dist, m, p),
        )
    &&& forall|q: Pose, k: int|
        inside(m, q.0) && 0 <= k < prev[pose_index(m, q)].len() ==> way_in_ok(
            m,
            start,
            goal,
            avoid,
            q,
            #[trigger] prev[pose_index(m, q)][k],
        )
}

proof fn lemma_none_count(n: int)
    requires
        n >= 0,
    ensures
        some_count(Seq::new(n as nat, |i: int| None::<u32>)) == 0,
    decreases n,
{
    if n > 0 {
        lemma_none_count(n - 1);
        assert(Seq::new(n as nat, |i: int| None::<u32>).drop_last() =~= Seq::new((n - 1) as nat, |i: int| None::<u32>));
    }
}

/// A walled maze keeps a step forward from any open tile inside.
proof fn lemma_step_inside(m: &Maze, l: Loc, d: Dir)
    requires
        maze_ok(m),
        inside(m, l),
        tile(m, l) != '#',
    ensures
        inside(m, shifted(l, dir_delta(d))),
        move_cost(m, (l, d), (l, dir_cw(d))) == 1000,
        move_cost(m, (l, d), (l, dir_ccw(d))) == 1000,
        tile(m, shifted(l, dir_delta(d))) != '#' ==> move_cost(m, (l, d), (shifted(l, dir_delta(d)), d)) == 1,
{
    reveal(move_cost);
}

/// The search starts with only the start pose reached, at no cost, and queued.
#[verifier::spinoff_prover]
proof fn lemma_search_start(
    maze: &Maze,
    sp: Pose,
    goal: Loc,
    avoid: bool,
    d: Seq<Option<u32>>,
    prev: Seq<Seq<(State, u32)>>,
    heap: Seq<State>,
    si: int,
)
    requires
        maze_ok(maze),
        inside(maze, sp.0),
        tile(maze, sp.0) != '#',
        si == pose_index(maze, sp),
        d == Seq::new((4 * tiles(maze)) as nat, |j: int| None::<u32>).update(si, Some(0u32)),
        prev.len() == 4 * tiles(maze),
        forall|j: int| 0 <= j < prev.len() ==> (#[trigger] prev[j]).len() == 0,
        heap == seq![State { loc: sp.0, dir: sp.1, cost: 0 }],
    ensures
        search_inv(maze, sp, goal, avoid, d, prev, heap, None),
{
    reveal(inv_reach);
    reveal(inv_heap);
    reveal(inv_settled);
    reveal(inv_ways);
    lemma_pose_index(maze, sp);
    lemma_none_count(4 * tiles(maze));
    lemma_sums_update(Seq::new((4 * tiles(maze)) as nat, |j: int| None::<u32>), cost_cap(maze), si, Some(0u32));
    lemma_reach_start(maze, sp, goal, avoid);
    assert(some_count(d) == 1);
    assert forall|p: Pose| inside(maze, p.0) && dval(#[trigger] d[pose_index(maze, p)]) >= 0 implies reach(
        maze,
        sp,
        p,
        dval(d[pose_index(maze, p)]),
        goal,
        avoid,
    ) && dval(d[pose_index(maze, p)]) <= 1000 * some_count(d) && tile(maze, p.0) != '#' by {
        lemma_pose_index(maze, p);
        if pose_index(maze, p) != si {
            assert(d[pose_index(maze, p)] == None::<u32>);
        } else {
            lemma_pose_index_injective(maze, p, sp);
        }
    }
    assert(queued_ok(maze, sp, goal, avoid, d, heap[0]));
    assert forall|p: Pose|
        inside(maze, p.0) && dval(#[trigger] d[pose_index(maze, p)]) >= 0 && !(avoid && p.0 == goal) && None::<
            State,
        > != Some(at_cost(d, maze, p)) implies settled(maze, d, prev, at_cost(d, maze, p)) || heap.contains(
        at_cost(d, maze, p),
    ) by {
        lemma_pose_index(maze, p);
        if pose_index(maze, p) != si {
            assert(d[pose_index(maze, p)] == None::<u32>);
        } else {
            lemma_pose_index_injective(maze, p, sp);
            assert(heap[0] == at_cost(d, maze, p));
        }
    }
    assert forall|q: Pose, k: int| inside(maze, q.0) && 0 <= k < prev[pose_index(maze, q)].len() implies way_in_ok(
        maze,
        sp,
        goal,
        avoid,
        q,
        #[trigger] prev[pose_index(maze, q)][k],
    ) by {
        lemma_pose_index(maze, q);
    }
}

/// One round of the search: take out a cheapest queued state and, unless it
/// is stale or on the goal that stops the search, try every move out of it.
#[verifier::spinoff_prover]
fn search_step(
    maze: &Maze,
    dist: &mut Vec<Option<u32>>,
    prev: &mut Vec<Vec<(State, u32)>>,
    heap: &mut Vec<State>,
    goal: Loc,
    stop_at_goal: bool,
    Ghost(sp): Ghost<Pose>,
)
    requires
        maze_ok(maze),
        old(heap)@.len() > 0,
        search_inv(maze, sp, goal, stop_at_goal, old(dist)@, ways_view(old(prev)@), old(heap)@, None),
    ensures
        search_inv(maze, sp, goal, stop_at_goal, final(dist)@, ways_view(final(prev)@), final(heap)@, None),
        pot_sum(final(dist)@, cost_cap(maze)) + final(heap)@.len() < pot_sum(old(dist)@, cost_cap(maze)) + old(
            heap,
        )@.len(),
{
    let ghost avoid = stop_at_goal;
    let ghost h0 = heap@;
    let state = pop_min(heap);
    let ghost i = choose|i: int| 0 <= i < h0.len() && state == h0[i] && heap@ == h0.update(i, h0.last()).drop_last();
    proof {
        lemma_pop(maze, sp, goal, avoid, dist@, ways_view(prev@), h0, i);
        lemma_sums_bounds(dist@, cost_cap(maze));
    }
    let loc = state.loc;
    let dir = state.dir;
    let cost = state.cost;
    // if this is the goal, move on
    if stop_at_goal && loc == goal {
        return;
    }
    let ii = pose_index_of(maze, loc, dir);
    let known = match dist[ii] {
        Some(c) => c,
        None => {
            assert(false);
            0
        },
    };
    // if we already found a better path, move on
    if cost > known {
        return;
    }
    proof {
        lemma_reached_facts(maze, sp, goal, avoid, dist@, pose(state));
        lemma_step_inside(maze, loc, dir);
    }
    // try stepping or turning
    let n1 = State::new(loc, dir.rot_cw(), cost + 1000);
    let n2 = State::new(loc, dir.rot_ccw(), cost + 1000);
    let n3 = State::new(loc + dir.delta(), dir, cost + 1);
    relax(maze, dist, prev, heap, state, n1, Ghost(sp), Ghost(goal), Ghost(avoid));
    relax(maze, dist, prev, heap, state, n2, Ghost(sp), Ghost(goal), Ghost(avoid));
    relax(maze, dist, prev, heap, state, n3, Ghost(sp), Ghost(goal), Ghost(avoid));
    proof {
        lemma_expanded(maze, sp, goal, avoid, dist@, ways_view(prev@), heap@, state);
    }
}

/// The least-cost search over poses from `start` facing right. With
/// `stop_at_goal`, poses on `goal` are reached but not expanded.
#[verifier::spinoff_prover]
pub fn search(maze: &Maze, start: Loc, goal: Loc, stop_at_goal: bool) -> (r: (Vec<Option<u32>>, Vec<Vec<(State, u32)>>))
    requires
        maze_ok(maze),
        inside(maze, start),
        tile(maze, start) != '#',
    ensures
        search_done(maze, (start, Dir::Right), goal, stop_at_goal, r.0@, ways_view(r.1@)),
{
    let ghost sp: Pose = (start, Dir::Right);
    let ghost avoid = stop_at_goal;
    let n = 4 * maze.size();
    let mut dist: Vec<Option<u32>> = Vec::new();
    let mut prev: Vec<Vec<(State, u32)>> = Vec::new();
    for i in 0..n
        invariant
            dist@ == Seq::new(i as nat, |j: int| None::<u32>),
            prev@.len() == i,
            forall|j: int| 0 <= j < i ==> (#[trigger] prev@[j])@.len() == 0,
    {
        dist.push(None);
        prev.push(Vec::new());
        assert(dist@ =~= Seq::new((i + 1) as nat, |j: int| None::<u32>));
    }
    let si = pose_index_of(maze, start, Dir::Right);
    proof {
        lemma_none_count(n as int);
        lemma_sums_update(dist@, cost_cap(maze), si as int, Some(0u32));
        lemma_reach_start(maze, sp, goal, avoid);
    }
    dist.set(si, Some(0));
    let start_state = State::new(start, Dir::Right, 0);
    let mut heap: Vec<State> = Vec::new();
    heap.push(start_state);
    proof {
        assert(heap@ =~= seq![State { loc: sp.0, dir: sp.1, cost: 0 }]);
        assert forall|j: int| 0 <= j < ways_view(prev@).len() implies (#[trigger] ways_view(prev@)[j]).len() == 0 by {
            assert(prev@[j]@.len() == 0);
        }
        lemma_search_start(maze, sp, goal, avoid, dist@, ways_view(prev@), heap@, si as int);
    }
    while heap.len() > 0
        invariant
            maze_ok(maze),
            sp == (start, Dir::Right),
            avoid == stop_at_goal,
            search_inv(maze, sp, goal, avoid, dist@, ways_view(prev@), heap@, None),
        decreases pot_sum(dist@, cost_cap(maze)) + heap@.len(),
    {
        search_step(maze, &mut dist, &mut prev, &mut heap, goal, stop_at_goal, Ghost(sp));
        proof {
            lemma_sums_bounds(dist@, cost_cap(maze));
        }
    }
    proof {
        reveal(inv_reach);
        reveal(inv_settled);
        reveal(inv_ways);
    }
    (dist, prev)
}

/// Every route from the start that passes the goal only at its end (when the
/// goal stops the search) reaches a pose that the search reached, at no more
/// than the route costs.
proof fn lemma_fixpoint(
    m: &Maze,
    sp: Pose,
    goal: Loc,
    avoid: bool,
    dist: Seq<Option<u32>>,
    prev: Seq<Seq<(State, u32)>>,
    w: Seq<Pose>,
)
    requires
        maze_ok(m),
        inside(m, sp.0),
        search_done(m, sp, goal, avoid, dist, prev),
        is_route(m, w),
        w[0] == sp,
        avoids(w, goal, avoid),
    ensures
        inside(m, w.last().0),
        0 <= dval(dist[pose_index(m, w.last())]) <= route_cost(m, w),
    decreases w.len(),
{
    if w.len() == 1 {
        lemma_pose_index(m, sp);
    } else {
        let w1 = w.drop_last();
        assert forall|i: int| 0 <= i < w1.len() - 1 implies #[trigger] route_step(m, w1, i) by {
            assert(w1[i] == w[i] && w1[i + 1] == w[i + 1]);
            assert(route_step(m, w, i));
        }
        assert forall|i: int| 0 <= i < w1.len() - 1 implies (#[trigger] w1[i]).0 != goal || !avoid by {
            assert(w1[i] == w[i]);
        }
        lemma_fixpoint(m, sp, goal, avoid, dist, prev, w1);
        let u = w1.last();
        assert(u == w[w.len() - 2]);
        assert(route_step(m, w, w.len() - 2));
        assert(!(avoid && u.0 == goal)) by {
            if avoid {
                assert(w[w.len() - 2].0 != goal);
            }
        }
        let st = at_cost(dist, m, u);
        assert(settled(m, dist, prev, st));
        assert(edge_done(m, dist, prev, st, w.last()));
        assert(pose(st) == u);
        lemma_move_cost(m, u, w.last());
    }
}

/// The first tile holding `c`, in row-major order.
pub open spec fn first_of(m: &Maze, c: char) -> Loc {
    choose|l: Loc| inside(m, l) && tile(m, l) == c && forall|k: Loc| inside(m, k) && before(k, l) ==> tile(m, k) != c
}

proof fn lemma_first_of(m: &Maze, c: char, l: Loc)
    requires
        inside(m, l),
        tile(m, l) == c,
        forall|k: Loc| inside(m, k) && before(k, l) ==> tile(m, k) != c,
    ensures
        first_of(m, c) == l,
{
    let f = first_of(m, c);
    assert(inside(m, f) && tile(m, f) == c && forall|k: Loc| inside(m, k) && before(k, f) ==> tile(m, k) != c);
    if f != l {
        if before(f, l) {
            assert(tile(m, f) != c);
        } else {
            assert(before(l, f));
        }
    }
}

/// The cheapest cost of the four poses on `goal`, if any is reached.
fn best_at(maze: &Maze, dist: &Vec<Option<u32>>, goal: Loc) -> (r: Option<u32>)
    requires
        maze_ok(maze),
        inside(maze, goal),
        dist@.len() == 4 * tiles(maze),
    ensures
        match r {
            None => forall|d: Dir| dval(#[trigger] dist@[pose_index(maze, (goal, d))]) < 0,
            Some(c) => (exists|d: Dir| dval(#[trigger] dist@[pose_index(maze, (goal, d))]) == c) && forall|d: Dir|
                dval(#[trigger] dist@[pose_index(maze, (goal, d))]) >= 0 ==> c <= dval(dist@[pose_index(maze, (goal, d))]),
        },
{
    let dirs = [Dir::Up, Dir::Down, Dir::Left, Dir::Right];
    let mut best: Option<u32> = None;
    for k in 0..4
        invariant
            maze_ok(maze),
            inside(maze, goal),
            dist@.len() == 4 * tiles(maze),
            dirs@ == seq![Dir::Up, Dir::Down, Dir::Left, Dir::Right],
            match best {
                None => forall|j: int| 0 <= j < k ==> dval(dist@[pose_index(maze, (goal, #[trigger] dirs@[j]))]) < 0,
                Some(c) => (exists|j: int| 0 <= j < k && dval(dist@[pose_index(maze, (goal, #[trigger] dirs@[j]))]) == c)
                    && forall|j: int|
                    0 <= j < k && dval(dist@[pose_index(maze, (goal, #[trigger] dirs@[j]))]) >= 0 ==> c <= dval(
                        dist@[pose_index(maze, (goal, dirs@[j]))],
                    ),
            },
    {
        let d = dirs[k];
        let i = pose_index_of(maze, goal, d);
        match dist[i] {
            Some(c) => {
                match best {
                    None => {
                        best = Some(c);
                    },
                    Some(b) => {
                        if c < b {
                            best = Some(c);
                        }
                    },
                }
            },
            None => {},
        }
    }
    proof {
        assert(dirs@[0] == Dir::Up && dirs@[1] == Dir::Down && dirs@[2] == Dir::Left && dirs@[3] == Dir::Right);
        match best {
            None => {
                assert forall|d: Dir| dval(#[trigger] dist@[pose_index(maze, (goal, d))]) < 0 by {
                    match d {
                        Dir::Up => assert(dirs@[0] == d),
                        Dir::Down => assert(dirs@[1] == d),
                        Dir::Left => assert(dirs@[2] == d),
                        Dir::Right => assert(dirs@[3] == d),
                    }
                }
            },
            Some(c) => {
                let j = choose|j: int| 0 <= j < 4 && dval(dist@[pose_index(maze, (goal, #[trigger] dirs@[j]))]) == c;
                assert(dval(dist@[pose_index(maze, (goal, dirs@[j]))]) == c);
                assert forall|d: Dir| dval(#[trigger] dist@[pose_index(maze, (goal, d))]) >= 0 implies c <= dval(
                    dist@[pose_index(maze, (goal, d))],
                ) by {
                    match d {
                        Dir::Up => assert(dirs@[0] == d),
                        Dir::Down => assert(dirs@[1] == d),
                        Dir::Left => assert(dirs@[2] == d),
                        Dir::Right => assert(dirs@[3] == d),
                    }
                }
            },
        }
    }
    best
}

/// The cheapest cost of a route from `S`, facing right, to `E`.
pub fn part1(maze: &Maze) -> (r: u32)
    requires
        maze_ok(maze),
        exists|l: Loc| inside(maze, l) && tile(maze, l) == 'S',
        exists|l: Loc| inside(maze, l) && tile(maze, l) == 'E',
        exists|w: Seq<Pose>|
            is_route(maze, w) && w[0] == (first_of(maze, 'S'), Dir::Right) && w.last().0 == first_of(maze, 'E'),
    ensures
        exists|w: Seq<Pose>|
            is_route(maze, w) && w[0] == (first_of(maze, 'S'), Dir::Right) && w.last().0 == first_of(maze, 'E')
                && route_cost(maze, w) == r,
        forall|w: Seq<Pose>|
            is_route(maze, w) && w[0] == (first_of(maze, 'S'), Dir::Right) && w.last().0 == first_of(maze, 'E')
                ==> r <= route_cost(maze, w),
{
    let start_loc = match find(maze, 'S') {
        Some(l) => l,
        None => {
            assert(false);
            Loc(0, 0)
        },
    };
    let goal_loc = match find(maze, 'E') {
        Some(l) => l,
        None => {
            assert(false);
            Loc(0, 0)
        },
    };
    proof {
        lemma_first_of(maze, 'S', start_loc);
        lemma_first_of(maze, 'E', goal_loc);
    }
    let ghost sp: Pose = (start_loc, Dir::Right);
    let (dist, _prev) = search(maze, start_loc, goal_loc, false);
    let best = best_at(maze, &dist, goal_loc);
    proof {
        let w0 = choose|w: Seq<Pose>| is_route(maze, w) && w[0] == sp && w.last().0 == goal_loc;
        lemma_fixpoint(maze, sp, goal_loc, false, dist@, ways_view(_prev@), w0);
        assert(dval(dist@[pose_index(maze, (goal_loc, w0.last().1))]) >= 0);
    }
    let r = match best {
        Some(c) => c,
        None => {
            assert(false);
            0
        },
    };
    proof {
        let d = choose|d: Dir| dval(#[trigger] dist@[pose_index(maze, (goal_loc, d))]) == r;
        lemma_pose_index(maze, (goal_loc, d));
        let w = choose|w: Seq<Pose>|
            #[trigger] is_route(maze, w) && w[0] == sp && w.last() == (goal_loc, d) && route_cost(maze, w) == r
                && avoids(w, goal_loc, false);
        assert forall|w2: Seq<Pose>|
            is_route(maze, w2) && w2[0] == sp && w2.last().0 == goal_loc implies r <= route_cost(maze, w2) by {
            lemma_fixpoint(maze, sp, goal_loc, false, dist@, ways_view(_prev@), w2);
            assert(w2.last() == (goal_loc, w2.last().1));
        }
    }
    r
}

/// `c` walks back from a state of `end` through recorded ways in: each next
/// state is a way into the one before at that one's cost.
pub open spec fn back_chain(m: &Maze, prev: Seq<Seq<(State, u32)>>, end: Seq<State>, c: Seq<State>) -> bool {
    &&& c.len() >= 1
    &&& end.contains(c[0])
    &&& forall|k: int|
        0 <= k < c.len() - 1 ==> inside(m, (#[trigger] c[k]).loc) && prev[pose_index(m, pose(c[k]))].contains(
            (c[k + 1], c[k].cost),
        )
}

/// `s` is found walking back from `end`.
pub open spec fn traced(m: &Maze, prev: Seq<Seq<(State, u32)>>, end: Seq<State>, s: State) -> bool {
    exists|c: Seq<State>| #[trigger] back_chain(m, prev, end, c) && c.last() == s
}

spec fn powb(b: nat, e: nat) -> nat
    decreases e,
{
    if e == 0 {
        1
    } else {
        b * powb(b, (e - 1) as nat)
    }
}

proof fn lemma_powb_mono(b: nat, x: nat, y: nat)
    requires
        b >= 1,
        x <= y,
    ensures
        1 <= powb(b, x) <= powb(b, y),
    decreases y,
{
    if y > 0 {
        if x < y {
            lemma_powb_mono(b, x, (y - 1) as nat);
        } else {
            lemma_powb_mono(b, (y - 1) as nat, (y - 1) as nat);
        }
        assert(powb(b, (y - 1) as nat) <= b * powb(b, (y - 1) as nat)) by (nonlinear_arith)
            requires
                b >= 1,
        ;
    }
}

spec fn trace_weight(b: nat, q: Seq<State>) -> nat
    decreases q.len(),
{
    if q.len() == 0 {
        0
    } else {
        powb(b, q[0].cost as nat) + trace_weight(b, q.drop_first())
    }
}

proof fn lemma_trace_weight_push(b: nat, q: Seq<State>, x: State)
    ensures
        trace_weight(b, q.push(x)) == trace_weight(b, q) + powb(b, x.cost as nat),
    decreases q.len(),
{
    let qx = q.push(x);
    if q.len() > 0 {
        assert(qx.drop_first() =~= q.drop_first().push(x));
        assert(qx[0] == q[0]);
        lemma_trace_weight_push(b, q.drop_first(), x);
        assert(trace_weight(b, qx) == powb(b, qx[0].cost as nat) + trace_weight(b, qx.drop_first()));
    } else {
        assert(qx.drop_first() =~= Seq::<State>::empty());
        assert(qx[0] == x);
        assert(trace_weight(b, qx.drop_first()) == 0);
        assert(trace_weight(b, qx) == powb(b, qx[0].cost as nat) + trace_weight(b, qx.drop_first()));
    }
}

/// The longest list of recorded ways in.
spec fn max_ways(prev: Seq<Seq<(State, u32)>>) -> nat
    decreases prev.len(),
{
    if prev.len() == 0 {
        0
    } else {
        let r = max_ways(prev.drop_last());
        if prev.last().len() > r {
            prev.last().len()
        } else {
            r
        }
    }
}

proof fn lemma_max_ways(prev: Seq<Seq<(State, u32)>>, i: int)
    requires
        0 <= i < prev.len(),
    ensures
        prev[i].len() <= max_ways(prev),
    decreases prev.len(),
{
    if i < prev.len() - 1 {
        lemma_max_ways(prev.drop_last(), i);
        assert(prev.drop_last()[i] == prev[i]);
    }
}

/// The recorded ways in are all cheaper than where they lead, and at tiles of
/// the maze.
pub open spec fn ways_ok(m: &Maze, prev: Seq<Seq<(State, u32)>>) -> bool {
    &&& prev.len() == 4 * tiles(m)
    &&& forall|q: Pose, k: int|
        inside(m, q.0) && 0 <= k < prev[pose_index(m, q)].len() ==> (#[trigger] prev[pose_index(m, q)][k]).0.cost
            < prev[pose_index(m, q)][k].1 && inside(m, prev[pose_index(m, q)][k].0.loc)
}

/// Everything found walking back from `end` was taken out of the queue, when
/// the taken states hold `end` and every way into them at their cost.
proof fn lemma_chain_done(m: &Maze, pv: Seq<Seq<(State, u32)>>, end: Seq<State>, done: Seq<State>, c: Seq<State>, k: int)
    requires
        back_chain(m, pv, end, c),
        0 <= k < c.len(),
        forall|j: int| 0 <= j < end.len() ==> done.contains(#[trigger] end[j]),
        forall|s: State, e: (State, u32)|
            done.contains(s) && #[trigger] pv[pose_index(m, pose(s))].contains(e) && e.1 == s.cost ==> done.contains(e.0),
    ensures
        done.contains(c[k]),
    decreases k,
{
    if k == 0 {
        let j = choose|j: int| 0 <= j < end.len() && end[j] == c[0];
    } else {
        lemma_chain_done(m, pv, end, done, c, k - 1);
        assert(inside(m, c[k - 1].loc) && pv[pose_index(m, pose(c[k - 1]))].contains((c[k - 1 + 1], c[k - 1].cost)));
    }
}

/// Extending a walk back by one recorded way in.
proof fn lemma_chain_step(m: &Maze, pv: Seq<Seq<(State, u32)>>, end: Seq<State>, s: State, x: State)
    requires
        traced(m, pv, end, s),
        inside(m, s.loc),
        pv[pose_index(m, pose(s))].contains((x, s.cost)),
    ensures
        traced(m, pv, end, x),
{
    let c = choose|c: Seq<State>| #[trigger] back_chain(m, pv, end, c) && c.last() == s;
    let c2 = c.push(x);
    assert forall|k: int| 0 <= k < c2.len() - 1 implies inside(m, (#[trigger] c2[k]).loc) && pv[pose_index(
        m,
        pose(c2[k]),
    )].contains((c2[k + 1], c2[k].cost)) by {
        if k < c.len() - 1 {
            assert(c2[k] == c[k] && c2[k + 1] == c[k + 1]);
        } else {
            assert(c2[k] == s && c2[k + 1] == x);
        }
    }
    assert(back_chain(m, pv, end, c2));
}

proof fn lemma_end_traced(m: &Maze, pv: Seq<Seq<(State, u32)>>, end: Seq<State>, j: int)
    requires
        0 <= j < end.len(),
    ensures
        traced(m, pv, end, end[j]),
{
    let c = seq![end[j]];
    assert(end.contains(end[j]));
    assert(back_chain(m, pv, end, c));
}

/// Whether `l` is among `v`.
fn contains_loc(v: &Vec<Loc>, l: Loc) -> (r: bool)
    ensures
        r == v@.contains(l),
{
    for i in 0..v.len()
        invariant
            forall|j: int| 0 <= j < i ==> v@[j] != l,
    {
        if v[i] == l {
            return true;
        }
    }
    false
}

/// Queues the states recorded as ways into `state` at its cost.
#[verifier::spinoff_prover]
fn queue_ways_in(
    maze: &Maze,
    prev: &Vec<Vec<(State, u32)>>,
    queue: &mut VecDeque<State>,
    state: State,
    si: usize,
    Ghost(b): Ghost<nat>,
)
    requires
        maze_ok(maze),
        ways_ok(maze, ways_view(prev@)),
        inside(maze, state.loc),
        si == pose_index(maze, pose(state)),
        ways_view(prev@)[si as int].len() < b,
    ensures
        final(queue)@.take(old(queue)@.len() as int) == old(queue)@,
        final(queue)@.len() >= old(queue)@.len(),
        forall|e: (State, u32)|
            #[trigger] ways_view(prev@)[si as int].contains(e) && e.1 == state.cost ==> final(queue)@.contains(e.0),
        forall|j: int|
            old(queue)@.len() <= j < final(queue)@.len() ==> ways_view(prev@)[si as int].contains(
                ((#[trigger] final(queue)@[j]), state.cost),
            ),
        trace_weight(b, final(queue)@) < trace_weight(b, old(queue)@) + powb(b, state.cost as nat),
{
    let ghost pv = ways_view(prev@);
    let ghost ways = pv[si as int];
    let ghost rest = queue@;
    let ghost mut added: Seq<State> = Seq::empty();
    proof {
        lemma_pose_index(maze, pose(state));
        assert(rest + added =~= rest);
        lemma_powb_mono(b, 0, state.cost as nat);
    }
    proof {
        assert(pv[si as int] == prev@[si as int]@);
    }
    let n = prev[si].len();
    for k in 0..n
        invariant
            maze_ok(maze),
            pv == ways_view(prev@),
            ways_ok(maze, pv),
            si == pose_index(maze, pose(state)),
            inside(maze, state.loc),
            ways == pv[si as int],
            si < prev@.len(),
            ways == prev@[si as int]@,
            n == ways.len(),
            n < b,
            queue@ == rest + added,
            added.len() <= k,
            forall|j: int| 0 <= j < added.len() ==> ways.contains(((#[trigger] added[j]), state.cost)),
            forall|j: int| 0 <= j < added.len() ==> (#[trigger] added[j]).cost < state.cost,
            forall|j: int| 0 <= j < k && (#[trigger] ways[j]).1 == state.cost ==> added.contains(ways[j].0),
            added.len() > 0 ==> state.cost >= 1,
            trace_weight(b, queue@) <= trace_weight(b, rest) + added.len() * powb(b, (state.cost - 1) as nat),
    {
        let e = prev[si][k];
        assert(e == ways[k as int]);
        if e.1 == state.cost {
            proof {
                assert(ways[k as int].0.cost < ways[k as int].1);
                lemma_powb_mono(b, e.0.cost as nat, (state.cost - 1) as nat);
                lemma_trace_weight_push(b, queue@, e.0);
                assert(ways.contains((e.0, state.cost)));
                assert((added.len() + 1) * powb(b, (state.cost - 1) as nat) == added.len() * powb(b, (state.cost - 1) as nat)
                    + powb(b, (state.cost - 1) as nat)) by (nonlinear_arith);
            }
            queue.push_back(e.0);
            proof {
                let a0 = added;
                added = added.push(e.0);
                assert(queue@ =~= rest + added);
                assert forall|j: int| 0 <= j < k + 1 && (#[trigger] ways[j]).1 == state.cost implies added.contains(ways[j].0) by {
                    if j < k {
                        let i2 = choose|i2: int| 0 <= i2 < a0.len() && a0[i2] == ways[j].0;
                        assert(added[i2] == ways[j].0);
                    } else {
                        assert(added[a0.len() as int] == ways[j].0);
                    }
                }
            }
        } else {
            proof {
                assert forall|j: int| 0 <= j < k + 1 && (#[trigger] ways[j]).1 == state.cost implies added.contains(ways[j].0) by {
                }
            }
        }
    }
    proof {
        assert(queue@.take(rest.len() as int) =~= rest);
        assert forall|e: (State, u32)| #[trigger] ways.contains(e) && e.1 == state.cost implies queue@.contains(e.0) by {
            let j = choose|j: int| 0 <= j < ways.len() && ways[j] == e;
            assert(added.contains(ways[j].0));
            let i2 = choose|i2: int| 0 <= i2 < added.len() && added[i2] == e.0;
            assert(queue@[rest.len() + i2] == e.0);
        }
        assert forall|j: int| rest.len() <= j < queue@.len() implies ways.contains(((#[trigger] queue@[j]), state.cost)) by {
            assert(queue@[j] == added[j - rest.len()]);
        }
        if added.len() > 0 {
            lemma_powb_mono(b, 0, (state.cost - 1) as nat);
            assert(added.len() * powb(b, (state.cost - 1) as nat) < b * powb(b, (state.cost - 1) as nat)) by (nonlinear_arith)
                requires
                    added.len() < b,
                    powb(b, (state.cost - 1) as nat) >= 1,
            ;
            assert(powb(b, state.cost as nat) == b * powb(b, (state.cost - 1) as nat));
        } else {
            assert(trace_weight(b, queue@) <= trace_weight(b, rest));
        }
    }
}

/// The tiles of every state found walking back from `end` through the
/// recorded ways in, each once.
pub fn trace_all_paths(maze: &Maze, prev: &Vec<Vec<(State, u32)>>, end: Vec<State>) -> (r: Vec<Loc>)
    requires
        maze_ok(maze),
        ways_ok(maze, ways_view(prev@)),
        forall|j: int| 0 <= j < end@.len() ==> inside(maze, (#[trigger] end@[j]).loc),
    ensures
        r@.no_duplicates(),
        forall|l: Loc|
            #[trigger] r@.contains(l) <==> exists|s: State| traced(maze, ways_view(prev@), end@, s) && s.loc == l,
{
    let ghost pv = ways_view(prev@);
    let ghost b: nat = max_ways(pv) + 1;
    let mut out: Vec<Loc> = Vec::new();
    let mut queue: VecDeque<State> = VecDeque::new();
    let ghost mut done: Seq<State> = Seq::empty();
    for j in 0..end.len()
        invariant
            queue@ == end@.take(j as int),
    {
        queue.push_back(end[j]);
        assert(queue@ =~= end@.take(j + 1));
    }
    proof {
        assert(end@.take(end@.len() as int) =~= end@);
        assert forall|j: int| 0 <= j < queue@.len() implies traced(maze, pv, end@, #[trigger] queue@[j]) by {
            lemma_end_traced(maze, pv, end@, j);
        }
        assert forall|j: int| 0 <= j < end@.len() implies done.contains(#[trigger] end@[j]) || queue@.contains(end@[j]) by {
            assert(queue@[j] == end@[j]);
        }
    }
    while queue.len() > 0
        invariant
            maze_ok(maze),
            pv == ways_view(prev@),
            ways_ok(maze, pv),
            b == max_ways(pv) + 1,
            forall|j: int| 0 <= j < end@.len() ==> inside(maze, (#[trigger] end@[j]).loc),
            forall|j: int| 0 <= j < queue@.len() ==> traced(maze, pv, end@, #[trigger] queue@[j]) && inside(maze, queue@[j].loc),
            forall|j: int| 0 <= j < done.len() ==> traced(maze, pv, end@, #[trigger] done[j]),
            forall|j: int| 0 <= j < end@.len() ==> done.contains(#[trigger] end@[j]) || queue@.contains(end@[j]),
            forall|s: State, e: (State, u32)|
                done.contains(s) && #[trigger] pv[pose_index(maze, pose(s))].contains(e) && e.1 == s.cost ==> done.contains(
                    e.0,
                ) || queue@.contains(e.0),
            out@.no_duplicates(),
            forall|l: Loc| #[trigger] out@.contains(l) <==> exists|j: int| 0 <= j < done.len() && (#[trigger] done[j]).loc == l,
        decreases trace_weight(b, queue@),
    {
        let ghost q0 = queue@;
        let state = queue.pop_front().unwrap();
        proof {
            assert(q0 =~= seq![state] + queue@);
            assert(q0[0] == state);
            assert(q0.drop_first() =~= queue@);
            assert(traced(maze, pv, end@, q0[0]) && inside(maze, q0[0].loc));
        }
        let ghost rest = queue@;
        let ghost o0 = out@;
        if !contains_loc(&out, state.loc) {
            out.push(state.loc);
            proof {
                assert forall|a: int, c: int| 0 <= a < c < out@.len() implies out@[a] != out@[c] by {
                    if c == o0.len() {
                        assert(o0.contains(out@[a]));
                    }
                }
            }
        }
        let ghost done0 = done;
        proof {
            done = done.push(state);
            assert(done[done0.len() as int] == state);
            assert forall|l: Loc| #[trigger] out@.contains(l) <==> exists|j: int| 0 <= j < done.len() && (#[trigger] done[j]).loc == l by {
                if out@.contains(l) {
                    if l == state.loc {
                        assert(done[done0.len() as int].loc == l);
                    } else {
                        let i2 = choose|i2: int| 0 <= i2 < out@.len() && out@[i2] == l;
                        if i2 < o0.len() {
                            assert(o0[i2] == l);
                        }
                        assert(o0.contains(l));
                        let j = choose|j: int| 0 <= j < done0.len() && (#[trigger] done0[j]).loc == l;
                        assert(done[j] == done0[j]);
                    }
                }
                if exists|j: int| 0 <= j < done.len() && (#[trigger] done[j]).loc == l {
                    let j = choose|j: int| 0 <= j < done.len() && (#[trigger] done[j]).loc == l;
                    if j < done0.len() {
                        assert(done0[j] == done[j]);
                        assert(o0.contains(l));
                        let i2 = choose|i2: int| 0 <= i2 < o0.len() && o0[i2] == l;
                        assert(out@[i2] == l);
                    } else {
                        assert(l == state.loc);
                        if !o0.contains(l) {
                            assert(out@[o0.len() as int] == l);
                        } else {
                            let i2 = choose|i2: int| 0 <= i2 < o0.len() && o0[i2] == l;
                            assert(out@[i2] == l);
                        }
                    }
                }
            }
        }
        let si = pose_index_of(maze, state.loc, state.dir);
        proof {
            lemma_max_ways(pv, si as int);
        }
        queue_ways_in(maze, prev, &mut queue, state, si, Ghost(b));
        proof {
            assert forall|j: int| 0 <= j < queue@.len() implies traced(maze, pv, end@, #[trigger] queue@[j]) && inside(
                maze,
                queue@[j].loc,
            ) by {
                if j < rest.len() {
                    assert(queue@[j] == queue@.take(rest.len() as int)[j]);
                    assert(queue@[j] == q0[j + 1]);
                } else {
                    assert(pv[si as int].contains((queue@[j], state.cost)));
                    lemma_chain_step(maze, pv, end@, state, queue@[j]);
                    let k = choose|k: int| 0 <= k < pv[si as int].len() && pv[si as int][k] == (queue@[j], state.cost);
                    lemma_pose_index(maze, pose(state));
                }
            }
            assert forall|j: int| 0 <= j < done.len() implies traced(maze, pv, end@, #[trigger] done[j]) by {
                if j < done0.len() {
                    assert(done[j] == done0[j]);
                }
            }
            assert forall|j: int| 0 <= j < end@.len() implies done.contains(#[trigger] end@[j]) || queue@.contains(end@[j]) by {
                if done0.contains(end@[j]) {
                    let i2 = choose|i2: int| 0 <= i2 < done0.len() && done0[i2] == end@[j];
                    assert(done[i2] == end@[j]);
                } else if end@[j] == state {
                } else {
                    assert(q0.contains(end@[j]));
                    let i2 = choose|i2: int| 0 <= i2 < q0.len() && q0[i2] == end@[j];
                    assert(i2 != 0);
                    assert(queue@[i2 - 1] == end@[j]);
                }
            }
            assert forall|s2: State, e: (State, u32)|
                done.contains(s2) && #[trigger] pv[pose_index(maze, pose(s2))].contains(e) && e.1 == s2.cost implies done.contains(
                e.0,
            ) || queue@.contains(e.0) by {
                if s2 == state {
                } else {
                    let i2 = choose|i2: int| 0 <= i2 < done.len() && done[i2] == s2;
                    assert(done0[i2] == s2);
                    assert(done0.contains(s2));
                    if done0.contains(e.0) {
                        let i3 = choose|i3: int| 0 <= i3 < done0.len() && done0[i3] == e.0;
                        assert(done[i3] == e.0);
                    } else if e.0 == state {
                    } else {
                        assert(q0.contains(e.0));
                        let i3 = choose|i3: int| 0 <= i3 < q0.len() && q0[i3] == e.0;
                        assert(i3 != 0);
                        assert(queue@[i3 - 1] == e.0);
                    }
                }
            }
        }
    }
    proof {
        assert forall|l: Loc| #[trigger] out@.contains(l) <==> exists|s: State| traced(maze, pv, end@, s) && s.loc == l by {
            if out@.contains(l) {
                let j = choose|j: int| 0 <= j < done.len() && (#[trigger] done[j]).loc == l;
                assert(traced(maze, pv, end@, done[j]));
            }
            if exists|s: State| traced(maze, pv, end@, s) && s.loc == l {
                let s2 = choose|s2: State| traced(maze, pv, end@, s2) && s2.loc == l;
                let c = choose|c: Seq<State>| #[trigger] back_chain(maze, pv, end@, c) && c.last() == s2;
                lemma_chain_done(maze, pv, end@, done, c, c.len() - 1);
                let j = choose|j: int| 0 <= j < done.len() && done[j] == s2;
                assert(done[j].loc == l);
            }
        }
    }
    out
}

/// Two routes joined by a move are a route costing both and the move.
proof fn lemma_route_join(m: &Maze, a: Seq<Pose>, b: Seq<Pose>)
    requires
        is_route(m, a),
        is_route(m, b),
        move_cost(m, a.last(), b[0]) >= 0,
    ensures
        is_route(m, a + b),
        route_cost(m, a + b) == route_cost(m, a) + move_cost(m, a.last(), b[0]) + route_cost(m, b),
    decreases b.len(),
{
    let ab = a + b;
    assert forall|i: int| 0 <= i < ab.len() - 1 implies #[trigger] route_step(m, ab, i) by {
        if i < a.len() - 1 {
            assert(ab[i] == a[i] && ab[i + 1] == a[i + 1]);
            assert(route_step(m, a, i));
        } else if i == a.len() - 1 {
            assert(ab[i] == a.last() && ab[i + 1] == b[0]);
        } else {
            assert(ab[i] == b[i - a.len()] && ab[i + 1] == b[i - a.len() + 1]);
            assert(route_step(m, b, i - a.len()));
        }
    }
    if b.len() == 1 {
        assert(ab.drop_last() =~= a);
    } else {
        let b1 = b.drop_last();
        assert forall|i: int| 0 <= i < b1.len() - 1 implies #[trigger] route_step(m, b1, i) by {
            assert(b1[i] == b[i] && b1[i + 1] == b[i + 1]);
            assert(route_step(m, b, i));
        }
        lemma_route_join(m, a, b1);
        assert(ab.drop_last() =~= a + b1);
        assert(ab[ab.len() - 2] == b[b.len() - 2]);
    }
}

/// A route splits at any pose into the part up to it and the part from it.
#[verifier::spinoff_prover]
proof fn lemma_route_split(m: &Maze, w: Seq<Pose>, i: int)
    requires
        is_route(m, w),
        0 <= i < w.len(),
    ensures
        is_route(m, w.take(i + 1)),
        is_route(m, w.subrange(i, w.len() as int)),
        route_cost(m, w) == route_cost(m, w.take(i + 1)) + route_cost(m, w.subrange(i, w.len() as int)),
{
    let a = w.take(i + 1);
    let b = w.subrange(i, w.len() as int);
    assert forall|k: int| 0 <= k < a.len() - 1 implies #[trigger] route_step(m, a, k) by {
        assert(a[k] == w[k] && a[k + 1] == w[k + 1]);
        assert(route_step(m, w, k));
    }
    assert forall|k: int| 0 <= k < b.len() - 1 implies #[trigger] route_step(m, b, k) by {
        assert(b[k] == w[i + k] && b[k + 1] == w[i + k + 1]);
        assert(route_step(m, w, i + k));
    }
    if i == w.len() - 1 {
        assert(a =~= w);
        assert(route_cost(m, b) == 0);
    } else {
        let c = w.subrange(i + 1, w.len() as int);
        assert forall|k: int| 0 <= k < c.len() - 1 implies #[trigger] route_step(m, c, k) by {
            assert(c[k] == w[i + 1 + k] && c[k + 1] == w[i + 1 + k + 1]);
            assert(route_step(m, w, i + 1 + k));
        }
        assert(route_step(m, w, i));
        assert(a.last() == w[i] && c[0] == w[i + 1]);
        lemma_route_join(m, a, c);
        assert(a + c =~= w);
        let one = seq![w[i]];
        assert(is_route(m, one));
        assert(route_cost(m, one) == 0);
        lemma_route_join(m, one, c);
        assert(one + c =~= b);
    }
}

/// A route that costs the least of all routes from the start to the goal that
/// pass the goal only at their end.
pub open spec fn best_route(m: &Maze, sp: Pose, goal: Loc, w: Seq<Pose>) -> bool {
    &&& is_route(m, w)
    &&& w[0] == sp
    &&& w.last().0 == goal
    &&& avoids(w, goal, true)
    &&& forall|w2: Seq<Pose>|
        is_route(m, w2) && w2[0] == sp && w2.last().0 == goal && avoids(w2, goal, true) ==> route_cost(m, w) <= route_cost(
            m,
            w2,
        )
}

/// The tiles that some cheapest route crosses.
pub open spec fn best_tiles(m: &Maze, sp: Pose, goal: Loc) -> Set<Loc> {
    Set::new(|l: Loc| exists|w: Seq<Pose>, i: int| best_route(m, sp, goal, w) && 0 <= i < w.len() && w[i].0 == l)
}

/// A state on a cheapest route, at the cost of the route up to it.
spec fn on_best(m: &Maze, sp: Pose, goal: Loc, s: State) -> bool {
    exists|w: Seq<Pose>, i: int|
        best_route(m, sp, goal, w) && 0 <= i < w.len() && w[i] == pose(s) && route_cost(m, w.take(i + 1)) == s.cost
}

/// Every pose of a route from a tile of the maze is a tile of the maze.
proof fn lemma_route_inside(m: &Maze, w: Seq<Pose>, i: int)
    requires
        is_route(m, w),
        inside(m, w[0].0),
        0 <= i < w.len(),
    ensures
        inside(m, w[i].0),
{
    if i > 0 {
        assert(route_step(m, w, i - 1));
        lemma_move_cost(m, w[i - 1], w[i]);
    }
}

/// The search finds each pose of a cheapest route at the cost of the route up
/// to it.
#[verifier::spinoff_prover]
proof fn lemma_prefix_dist(
    m: &Maze,
    sp: Pose,
    goal: Loc,
    dist: Seq<Option<u32>>,
    prev: Seq<Seq<(State, u32)>>,
    w: Seq<Pose>,
    j: int,
)
    requires
        maze_ok(m),
        inside(m, sp.0),
        search_done(m, sp, goal, true, dist, prev),
        best_route(m, sp, goal, w),
        0 <= j < w.len(),
    ensures
        inside(m, w[j].0),
        dval(dist[pose_index(m, w[j])]) == route_cost(m, w.take(j + 1)),
        dval(dist[pose_index(m, w[j])]) >= 0,
{
    lemma_route_inside(m, w, j);
    lemma_route_split(m, w, j);
    let pre = w.take(j + 1);
    assert forall|i: int| 0 <= i < pre.len() - 1 implies (#[trigger] pre[i]).0 != goal by {
        assert(pre[i] == w[i]);
    }
    assert(pre[0] == sp && pre.last() == w[j]);
    lemma_fixpoint(m, sp, goal, true, dist, prev, pre);
    let dv = dval(dist[pose_index(m, w[j])]);
    let r = choose|r: Seq<Pose>|
        #[trigger] is_route(m, r) && r[0] == sp && r.last() == w[j] && route_cost(m, r) == dv && avoids(r, goal, true);
    if j == w.len() - 1 {
        assert(route_cost(m, w) <= route_cost(m, r));
        assert(pre =~= w);
    } else {
        let post = w.subrange(j + 1, w.len() as int);
        lemma_route_split(m, w, j + 1);
        assert(route_step(m, w, j));
        assert(post[0] == w[j + 1]);
        lemma_route_join(m, r, post);
        let joined = r + post;
        assert forall|i: int| 0 <= i < joined.len() - 1 implies (#[trigger] joined[i]).0 != goal by {
            if i < r.len() - 1 {
                assert(joined[i] == r[i]);
            } else if i == r.len() - 1 {
                assert(joined[i] == w[j]);
            } else {
                assert(joined[i] == w[j + 1 + i - r.len()]);
            }
        }
        assert(joined[0] == sp);
        assert(joined.last() == w.last());
        assert(route_cost(m, w) <= route_cost(m, joined));
        let mid = w.subrange(j, w.len() as int);
        let one = seq![w[j]];
        assert(route_cost(m, one) == 0);
        assert(is_route(m, one));
        lemma_route_join(m, one, post);
        assert(one + post =~= mid);
    }
}

/// Each state found walking back from the cheapest goal states lies on a
/// cheapest route, at the cost of the route up to it.
#[verifier::spinoff_prover]
proof fn lemma_traced_on_best(
    m: &Maze,
    sp: Pose,
    goal: Loc,
    dist: Seq<Option<u32>>,
    prev: Seq<Seq<(State, u32)>>,
    end: Seq<State>,
    c: Seq<State>,
    k: int,
)
    requires
        maze_ok(m),
        inside(m, sp.0),
        search_done(m, sp, goal, true, dist, prev),
        forall|j: int|
            0 <= j < end.len() ==> (#[trigger] end[j]).loc == goal && inside(m, end[j].loc) && dist[pose_index(
                m,
                pose(end[j]),
            )] == Some(end[j].cost) && forall|w2: Seq<Pose>|
                is_route(m, w2) && w2[0] == sp && w2.last().0 == goal && avoids(w2, goal, true) ==> end[j].cost
                    <= route_cost(m, w2),
        back_chain(m, prev, end, c),
        0 <= k < c.len(),
    ensures
        on_best(m, sp, goal, c[k]),
    decreases k,
{
    if k == 0 {
        let j = choose|j: int| 0 <= j < end.len() && end[j] == c[0];
        let s = end[j];
        assert(dval(dist[pose_index(m, pose(s))]) == s.cost);
        let w = choose|w: Seq<Pose>|
            #[trigger] is_route(m, w) && w[0] == sp && w.last() == pose(s) && route_cost(m, w) == s.cost && avoids(
                w,
                goal,
                true,
            );
        assert(best_route(m, sp, goal, w));
        assert(w.take(w.len() - 1 + 1) =~= w);
        assert(w[w.len() - 1] == pose(c[0]));
    } else {
        lemma_traced_on_best(m, sp, goal, dist, prev, end, c, k - 1);
        let s = c[k - 1];
        let x = c[k];
        let (w, i) = choose|w: Seq<Pose>, i: int|
            best_route(m, sp, goal, w) && 0 <= i < w.len() && w[i] == pose(s) && route_cost(m, w.take(i + 1)) == s.cost;
        assert(inside(m, s.loc) && prev[pose_index(m, pose(s))].contains((c[k - 1 + 1], s.cost)));
        let kk = choose|kk: int| 0 <= kk < prev[pose_index(m, pose(s))].len() && prev[pose_index(m, pose(s))][kk] == (
            x,
            s.cost,
        );
        assert(way_in_ok(m, sp, goal, true, pose(s), prev[pose_index(m, pose(s))][kk]));
        let wx = choose|wx: Seq<Pose>|
            #[trigger] is_route(m, wx) && wx[0] == sp && wx.last() == pose(x) && route_cost(m, wx) == x.cost && avoids(
                wx,
                goal,
                true,
            );
        lemma_route_split(m, w, i);
        let tail = w.subrange(i, w.len() as int);
        assert(tail[0] == pose(s));
        lemma_route_join(m, wx, tail);
        let w2 = wx + tail;
        assert forall|j: int| 0 <= j < w2.len() - 1 implies (#[trigger] w2[j]).0 != goal by {
            if j < wx.len() - 1 {
                assert(w2[j] == wx[j]);
            } else if j == wx.len() - 1 {
                assert(w2[j] == pose(x));
            } else {
                assert(w2[j] == w[i + j - wx.len()]);
            }
        }
        assert(w2[0] == sp);
        assert(w2.last() == w.last());
        assert(best_route(m, sp, goal, w2));
        let ix = wx.len() - 1;
        assert(w2.take(ix + 1) =~= wx);
        assert(w2[ix] == pose(x));
    }
}

/// Each pose of a cheapest route, at the cost of the route up to it, is found
/// walking back from the cheapest goal states.
#[verifier::spinoff_prover]
proof fn lemma_best_traced(
    m: &Maze,
    sp: Pose,
    goal: Loc,
    dist: Seq<Option<u32>>,
    prev: Seq<Seq<(State, u32)>>,
    end: Seq<State>,
    w: Seq<Pose>,
    j: int,
)
    requires
        maze_ok(m),
        inside(m, sp.0),
        search_done(m, sp, goal, true, dist, prev),
        best_route(m, sp, goal, w),
        forall|d: Dir|
            dist[pose_index(m, (goal, d))] == Some(route_cost(m, w) as u32) ==> #[trigger] end.contains(
                State { loc: goal, dir: d, cost: route_cost(m, w) as u32 },
            ),
        0 <= j < w.len(),
    ensures
        route_cost(m, w.take(j + 1)) <= u32::MAX,
        traced(
            m,
            prev,
            end,
            State { loc: w[j].0, dir: w[j].1, cost: route_cost(m, w.take(j + 1)) as u32 },
        ),
    decreases w.len() - j,
{
    lemma_prefix_dist(m, sp, goal, dist, prev, w, j);
    let pj = route_cost(m, w.take(j + 1));
    let sj = State { loc: w[j].0, dir: w[j].1, cost: pj as u32 };
    assert(dist[pose_index(m, w[j])] is Some);
    assert(dist[pose_index(m, w[j])] == Some(pj as u32));
    if j == w.len() - 1 {
        assert(w.take(j + 1) =~= w);
        let d = w[j].1;
        assert(w[j] == (goal, d));
        assert(dist[pose_index(m, (goal, d))] == Some(route_cost(m, w) as u32));
        assert(end.contains(State { loc: goal, dir: d, cost: route_cost(m, w) as u32 }));
        let k = choose|k: int| 0 <= k < end.len() && end[k] == sj;
        lemma_end_traced(m, prev, end, k);
    } else {
        lemma_best_traced(m, sp, goal, dist, prev, end, w, j + 1);
        lemma_prefix_dist(m, sp, goal, dist, prev, w, j + 1);
        let pj1 = route_cost(m, w.take(j + 2));
        let s1 = State { loc: w[j + 1].0, dir: w[j + 1].1, cost: pj1 as u32 };
        assert(w.take(j + 2).drop_last() =~= w.take(j + 1));
        assert(route_step(m, w, j));
        let mc = move_cost(m, w[j], w[j + 1]);
        assert(pj1 == pj + mc);
        assert(w[j].0 != goal);
        assert(at_cost(dist, m, w[j]) == sj);
        assert(settled(m, dist, prev, sj));
        assert(edge_done(m, dist, prev, sj, w[j + 1]));
        assert(pose(sj) == w[j]);
        assert(prev[pose_index(m, w[j + 1])].contains((sj, pj1 as u32)));
        assert(pose(s1) == w[j + 1]);
        lemma_chain_step(m, prev, end, s1, sj);
    }
}

/// Distinct tiles of the maze number no more than its tiles.
proof fn lemma_locs_bound(m: &Maze, v: Seq<Loc>)
    requires
        m.wf(),
        v.no_duplicates(),
        forall|i: int| 0 <= i < v.len() ==> inside(m, #[trigger] v[i]),
    ensures
        v.len() <= tiles(m),
{
    let nc = m.spec_ncols() as int;
    let t = v.map_values(|l: Loc| cell_index(nc, l.0 as int, l.1 as int));
    assert forall|a: int, b: int| 0 <= a < b < t.len() implies t[a] != t[b] by {
        if t[a] == t[b] {
            lemma_cell_index_injective(nc, v[a].0 as int, v[a].1 as int, v[b].0 as int, v[b].1 as int);
            assert(v[a] == v[b]);
        }
    }
    t.unique_seq_to_set();
    vstd::set_lib::lemma_int_range(0, tiles(m));
    assert forall|x: int| t.to_set().contains(x) implies vstd::set_lib::set_int_range(0, tiles(m)).contains(x) by {
        let i = choose|i: int| 0 <= i < t.len() && t[i] == x;
        lemma_cell_index(m.spec_nrows() as int, nc, v[i].0 as int, v[i].1 as int);
    }
    vstd::set_lib::lemma_len_subset(t.to_set(), vstd::set_lib::set_int_range(0, tiles(m)));
}

/// The number of tiles that some cheapest route from `S`, facing right, to
/// `E` crosses (a route that reaches `E` ends there).
pub fn part2(maze: &Maze) -> (r: u32)
    requires
        maze_ok(maze),
        exists|l: Loc| inside(maze, l) && tile(maze, l) == 'S',
        exists|l: Loc| inside(maze, l) && tile(maze, l) == 'E',
        exists|w: Seq<Pose>|
            is_route(maze, w) && w[0] == (first_of(maze, 'S'), Dir::Right) && w.last().0 == first_of(maze, 'E')
                && avoids(w, first_of(maze, 'E'), true),
    ensures
        r == best_tiles(maze, (first_of(maze, 'S'), Dir::Right), first_of(maze, 'E')).len(),
{
    let start_loc = match find(maze, 'S') {
        Some(l) => l,
        None => {
            assert(false);
            Loc(0, 0)
        },
    };
    let goal_loc = match find(maze, 'E') {
        Some(l) => l,
        None => {
            assert(false);
            Loc(0, 0)
        },
    };
    proof {
        lemma_first_of(maze, 'S', start_loc);
        lemma_first_of(maze, 'E', goal_loc);
    }
    let ghost sp: Pose = (start_loc, Dir::Right);
    let (dist, prev) = search(maze, start_loc, goal_loc, true);
    let ghost pv = ways_view(prev@);
    // find best ending states
    let best = best_at(maze, &dist, goal_loc);
    proof {
        let w0 = choose|w: Seq<Pose>| is_route(maze, w) && w[0] == sp && w.last().0 == goal_loc && avoids(w, goal_loc, true);
        lemma_fixpoint(maze, sp, goal_loc, true, dist@, pv, w0);
        assert(dval(dist@[pose_index(maze, (goal_loc, w0.last().1))]) >= 0);
    }
    let min_cost = match best {
        Some(c) => c,
        None => {
            assert(false);
            0
        },
    };
    proof {
        // the cheapest goal cost is what a cheapest route costs
        assert forall|w2: Seq<Pose>|
            is_route(maze, w2) && w2[0] == sp && w2.last().0 == goal_loc && avoids(w2, goal_loc, true) implies min_cost
            <= route_cost(maze, w2) by {
            lemma_fixpoint(maze, sp, goal_loc, true, dist@, pv, w2);
            assert(w2.last() == (goal_loc, w2.last().1));
        }
    }
    let dirs = [Dir::Up, Dir::Down, Dir::Left, Dir::Right];
    let mut ending: Vec<State> = Vec::new();
    for k in 0..4
        invariant
            maze_ok(maze),
            inside(maze, goal_loc),
            dist@.len() == 4 * tiles(maze),
            dirs@ == seq![Dir::Up, Dir::Down, Dir::Left, Dir::Right],
            forall|j: int|
                0 <= j < ending@.len() ==> (#[trigger] ending@[j]).loc == goal_loc && dist@[pose_index(maze, pose(ending@[j]))]
                    == Some(ending@[j].cost) && ending@[j].cost == min_cost,
            forall|j: int|
                0 <= j < k && dist@[pose_index(maze, (goal_loc, #[trigger] dirs@[j]))] == Some(min_cost) ==> ending@.contains(
                    State { loc: goal_loc, dir: dirs@[j], cost: min_cost },
                ),
    {
        let d = dirs[k];
        let i = pose_index_of(maze, goal_loc, d);
        if dist[i] == Some(min_cost) {
            let ghost e0 = ending@;
            ending.push(State::new(goal_loc, d, min_cost));
            proof {
                assert forall|j: int|
                    0 <= j < k + 1 && dist@[pose_index(maze, (goal_loc, #[trigger] dirs@[j]))] == Some(min_cost) implies ending@.contains(
                    State { loc: goal_loc, dir: dirs@[j], cost: min_cost },
                ) by {
                    if j < k {
                        let x = State { loc: goal_loc, dir: dirs@[j], cost: min_cost };
                        let i2 = choose|i2: int| 0 <= i2 < e0.len() && e0[i2] == x;
                        assert(ending@[i2] == x);
                    } else {
                        assert(ending@[e0.len() as int] == State { loc: goal_loc, dir: dirs@[j], cost: min_cost });
                    }
                }
            }
        }
    }
    proof {
        assert forall|j: int| 0 <= j < ending@.len() implies inside(maze, (#[trigger] ending@[j]).loc) by {
        }
        assert forall|q: Pose, k: int|
            inside(maze, q.0) && 0 <= k < pv[pose_index(maze, q)].len() implies (#[trigger] pv[pose_index(maze, q)][k]).0.cost
            < pv[pose_index(maze, q)][k].1 && inside(maze, pv[pose_index(maze, q)][k].0.loc) by {
            assert(way_in_ok(maze, sp, goal_loc, true, q, pv[pose_index(maze, q)][k]));
            lemma_move_cost(maze, pose(pv[pose_index(maze, q)][k].0), q);
        }
    }
    // find visited locs
    let visited = trace_all_paths(maze, &prev, ending);
    proof {
        let bt = best_tiles(maze, sp, goal_loc);
        assert(dirs@[0] == Dir::Up && dirs@[1] == Dir::Down && dirs@[2] == Dir::Left && dirs@[3] == Dir::Right);
        assert forall|l: Loc| visited@.to_set().contains(l) <==> bt.contains(l) by {
            if visited@.contains(l) {
                let s2 = choose|s2: State| traced(maze, pv, ending@, s2) && s2.loc == l;
                let c = choose|c: Seq<State>| #[trigger] back_chain(maze, pv, ending@, c) && c.last() == s2;
                lemma_traced_on_best(maze, sp, goal_loc, dist@, pv, ending@, c, c.len() - 1);
                let (w, i) = choose|w: Seq<Pose>, i: int|
                    best_route(maze, sp, goal_loc, w) && 0 <= i < w.len() && w[i] == pose(s2) && route_cost(maze, w.take(i + 1))
                        == s2.cost;
                assert(w[i].0 == l);
            }
            if bt.contains(l) {
                let (w, i) = choose|w: Seq<Pose>, i: int| best_route(maze, sp, goal_loc, w) && 0 <= i < w.len() && w[i].0 == l;
                let dlast = w.last().1;
                lemma_fixpoint(maze, sp, goal_loc, true, dist@, pv, w);
                let dstar = choose|d: Dir| dval(#[trigger] dist@[pose_index(maze, (goal_loc, d))]) == min_cost;
                lemma_pose_index(maze, (goal_loc, dstar));
                let rw = choose|rw: Seq<Pose>|
                    #[trigger] is_route(maze, rw) && rw[0] == sp && rw.last() == (goal_loc, dstar) && route_cost(maze, rw)
                        == dval(dist@[pose_index(maze, (goal_loc, dstar))]) && avoids(rw, goal_loc, true);
                assert(route_cost(maze, w) <= route_cost(maze, rw));
                assert(w.last() == (goal_loc, dlast));
                assert(route_cost(maze, w) == min_cost);
                assert forall|d: Dir| dist@[pose_index(maze, (goal_loc, d))] == Some(route_cost(maze, w) as u32) implies #[trigger] ending@.contains(
                    State { loc: goal_loc, dir: d, cost: route_cost(maze, w) as u32 },
                ) by {
                    match d {
                        Dir::Up => assert(dirs@[0] == d),
                        Dir::Down => assert(dirs@[1] == d),
                        Dir::Left => assert(dirs@[2] == d),
                        Dir::Right => assert(dirs@[3] == d),
                    }
                }
                lemma_best_traced(maze, sp, goal_loc, dist@, pv, ending@, w, i);
                let st = State { loc: w[i].0, dir: w[i].1, cost: route_cost(maze, w.take(i + 1)) as u32 };
                assert(traced(maze, pv, ending@, st) && st.loc == l);
                assert(visited@.contains(l));
            }
        }
        assert(visited@.to_set() =~= bt);
        visited@.unique_seq_to_set();
        assert forall|i: int| 0 <= i < visited@.len() implies inside(maze, #[trigger] visited@[i]) by {
            assert(visited@.to_set().contains(visited@[i]));
            let (w, k) = choose|w: Seq<Pose>, k: int| best_route(maze, sp, goal_loc, w) && 0 <= k < w.len() && w[k].0
                == visited@[i];
            lemma_route_inside(maze, w, k);
        }
        lemma_locs_bound(maze, visited@);
    }
    visited.len() as u32
}

/// Turning a quarter clockwise and a quarter counter-clockwise undo each
/// other, four clockwise turns come back, and a clockwise turn rotates the
/// forward step `(dr, dc)` to `(dc, -dr)`.
pub proof fn lemma_turns(d: Dir)
    ensures
        dir_ccw(dir_cw(d)) == d,
        dir_cw(dir_ccw(d)) == d,
        dir_cw(dir_cw(dir_cw(dir_cw(d)))) == d,
        dir_cw(d) != d,
        dir_ccw(d) != d,
        dir_cw(d) != dir_ccw(d),
        dir_delta(dir_cw(d)).0 == dir_delta(d).1,
        dir_delta(dir_cw(d)).1 == -dir_delta(d).0,
        dir_delta(dir_ccw(d)).0 == -dir_delta(d).1,
        dir_delta(dir_ccw(d)).1 == dir_delta(d).0,
{
}

/// Number of moves of `w` that stay on one tile.
pub open spec fn turn_count(w: Seq<Pose>) -> int
    decreases w.len(),
{
    if w.len() <= 1 {
        0
    } else {
        turn_count(w.drop_last()) + if w[w.len() - 2].0 == w.last().0 {
            1int
        } else {
            0int
        }
    }
}

/// A move of non-negative cost is a quarter turn on the spot or one step
/// forward onto a free tile, with no wrap-around of the coordinates.
proof fn lemma_move_shape(m: &Maze, a: Pose, b: Pose)
    requires
        maze_ok(m),
        inside(m, a.0),
        move_cost(m, a, b) >= 0,
    ensures
        inside(m, b.0),
        tile(m, b.0) != '#',
        (b.0 == a.0 && (b.1 == dir_cw(a.1) || b.1 == dir_ccw(a.1))) || (b.1 == a.1 && b.0.0 == a.0.0 + dir_delta(
            a.1,
        ).0 && b.0.1 == a.0.1 + dir_delta(a.1).1),
{
    reveal(move_cost);
    if !(b.0 == a.0 && (b.1 == dir_cw(a.1) || b.1 == dir_ccw(a.1))) {
        assert(b.0 == shifted(a.0, dir_delta(a.1)) && b.1 == a.1);
        let d = dir_delta(a.1);
        assert(-1 <= d.0 <= 1 && -1 <= d.1 <= 1);
        assert(0 <= b.0.0 < m.spec_nrows() && 0 <= b.0.1 < m.spec_ncols());
        assert(b.0.0 == ((a.0.0 + d.0) as i32));
        assert(b.0.1 == ((a.0.1 + d.1) as i32));
    }
}

/// A route from a tile of the maze costs 1000 per move on the spot and 1 per
/// other move.
proof fn lemma_cost_by_turns(m: &Maze, w: Seq<Pose>)
    requires
        maze_ok(m),
        is_route(m, w),
        inside(m, w[0].0),
    ensures
        route_cost(m, w) == 1000 * turn_count(w) + (w.len() - 1 - turn_count(w)),
    decreases w.len(),
{
    if w.len() > 1 {
        let v = w.drop_last();
        assert forall|i: int| 0 <= i < v.len() - 1 implies #[trigger] route_step(m, v, i) by {
            assert(route_step(m, w, i));
        }
        lemma_cost_by_turns(m, v);
        let a = w[w.len() - 2];
        let b = w.last();
        assert(route_step(m, w, w.len() - 2));
        lemma_route_inside(m, w, w.len() - 2);
        lemma_move_shape(m, a, b);
        if b.0 == a.0 {
            assert(move_cost(m, a, b) == 1000) by {
                reveal(move_cost);
            }
        } else {
            assert(move_cost(m, a, b) == 1) by {
                reveal(move_cost);
            }
        }
    }
}

/// Along a route each move is a quarter turn on the spot or one step forward
/// onto a free tile, and the route costs 1000 per quarter turn plus 1 per
/// step forward.
pub proof fn lemma_route_cost_counts(m: &Maze, w: Seq<Pose>)
    requires
        maze_ok(m),
        is_route(m, w),
        inside(m, w[0].0),
    ensures
        route_cost(m, w) == 1000 * turn_count(w) + (w.len() - 1 - turn_count(w)),
        forall|i: int|
            0 <= i < w.len() - 1 ==> {
                let a = #[trigger] w[i];
                let b = w[i + 1];
                &&& inside(m, b.0)
                &&& tile(m, b.0) != '#'
                &&& (b.0 == a.0 && (b.1 == dir_cw(a.1) || b.1 == dir_ccw(a.1))) || (b.1 == a.1 && b.0.0
                    == a.0.0 + dir_delta(a.1).0 && b.0.1 == a.0.1 + dir_delta(a.1).1)
            },
{
    lemma_cost_by_turns(m, w);
    assert forall|i: int| 0 <= i < w.len() - 1 implies {
        let a = #[trigger] w[i];
        let b = w[i + 1];
        &&& inside(m, b.0)
        &&& tile(m, b.0) != '#'
        &&& (b.0 == a.0 && (b.1 == dir_cw(a.1) || b.1 == dir_ccw(a.1))) || (b.1 == a.1 && b.0.0 == a.0.0
            + dir_delta(a.1).0 && b.0.1 == a.0.1 + dir_delta(a.1).1)
    } by {
        assert(route_step(m, w, i));
        lemma_route_inside(m, w, i);
        lemma_move_shape(m, w[i], w[i + 1]);
    }
}

} // verus!
