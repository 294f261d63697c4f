//! The warehouse robot: it walks a walled floor by a list of moves, pushing the
//! boxes in its way, on the plain floor and on one twice as wide.

use std::collections::VecDeque;

use vstd::prelude::*;

use crate::text::{chars_of, find_pair, first_index2, lemma_first_index2, string_from_chars, utf8_len};

use crate::grid::{
    can_shift, cell_index, char_grid_cell, char_grid_fits, grid_lines, lemma_cell_index, lemma_cell_index_injective, lemma_cell_index_join,
    lemma_cell_index_split, shifted, Delta, Grid, Loc,
};

verus! {

/// `l` is a cell of an `nr` x `nc` floor.
pub open spec fn inside(nr: int, nc: int, l: Loc) -> bool {
    0 <= l.0 < nr && 0 <= l.1 < nc
}

/// The cell at `l` of the row-major cells `s` with `nc` columns.
pub open spec fn cell_at(s: Seq<char>, nc: int, l: Loc) -> char {
    s[cell_index(nc, l.0 as int, l.1 as int)]
}

/// `l` lies on the outer ring of the floor.
pub open spec fn on_border(nr: int, nc: int, l: Loc) -> bool {
    l.0 == 0 || l.0 == nr - 1 || l.1 == 0 || l.1 == nc - 1
}

/// A box, or one half of a wide box.
pub open spec fn is_box(c: char) -> bool {
    c == '[' || c == ']' || c == 'O'
}

/// A warehouse floor: walls all round, every `[` with its `]` on the right and
/// every `]` with its `[` on the left, and a robot somewhere.
pub open spec fn warehouse(s: Seq<char>, nr: int, nc: int) -> bool {
    &&& 0 < nr <= i32::MAX
    &&& 0 < nc <= i32::MAX
    &&& nr * nc <= u32::MAX
    &&& s.len() == nr * nc
    &&& forall|l: Loc| inside(nr, nc, l) && on_border(nr, nc, l) ==> #[trigger] cell_at(s, nc, l) == '#'
    &&& forall|l: Loc|
        inside(nr, nc, l) && #[trigger] cell_at(s, nc, l) == '[' ==> cell_at(s, nc, shifted(l, Delta::right())) == ']'
    &&& forall|l: Loc|
        inside(nr, nc, l) && #[trigger] cell_at(s, nc, l) == ']' ==> cell_at(s, nc, shifted(l, Delta::left())) == '['
    &&& exists|i: int| 0 <= i < s.len() && s[i] == '@'
}

/// One of the four moves.
pub open spec fn valid_step(c: char) -> bool {
    c == '^' || c == 'v' || c == '<' || c == '>'
}

/// The direction of a move.
pub open spec fn step_delta(c: char) -> Delta {
    if c == '^' {
        Delta::up()
    } else if c == 'v' {
        Delta::down()
    } else if c == '<' {
        Delta::left()
    } else {
        Delta::right()
    }
}

/// The opposite direction.
pub open spec fn back(d: Delta) -> Delta {
    Delta((-d.0) as i32, (-d.1) as i32)
}

/// Moving `a` by `d` makes `b` move too: `b` is the box just ahead of `a`, or
/// the other half of a wide box just ahead.
pub open spec fn pushes(s: Seq<char>, nc: int, d: Delta, a: Loc, b: Loc) -> bool {
    let n = shifted(a, d);
    let v = cell_at(s, nc, n);
    ||| (b == n && is_box(v))
    ||| (v == '[' && b == shifted(n, Delta::right()) && b != a)
    ||| (v == ']' && b == shifted(n, Delta::left()) && b != a)
}

/// Each cell of `path` pushes the next.
pub open spec fn push_path(s: Seq<char>, nc: int, d: Delta, path: Seq<Loc>) -> bool {
    &&& path.len() >= 1
    &&& forall|i: int| 0 <= i < path.len() - 1 ==> pushes(s, nc, d, #[trigger] path[i], path[i + 1])
}

/// Moving `start` by `d` moves `p`.
pub open spec fn moved(s: Seq<char>, nc: int, d: Delta, start: Loc, p: Loc) -> bool {
    exists|path: Seq<Loc>| #[trigger] push_path(s, nc, d, path) && path[0] == start && path.last() == p
}

/// Something that would move is a wall, or would run into one.
pub open spec fn blocked(s: Seq<char>, nc: int, d: Delta, start: Loc) -> bool {
    exists|p: Loc|
        #[trigger] moved(s, nc, d, start, p) && (cell_at(s, nc, p) == '#' || cell_at(s, nc, shifted(p, d)) == '#')
}

/// The cell at `p` once everything that `start` pushes has moved by `d`.
pub open spec fn moved_value(s: Seq<char>, nc: int, d: Delta, start: Loc, p: Loc) -> char {
    if moved(s, nc, d, start, shifted(p, back(d))) {
        cell_at(s, nc, shifted(p, back(d)))
    } else if moved(s, nc, d, start, p) {
        '.'
    } else {
        cell_at(s, nc, p)
    }
}

/// The index of the first robot in row-major order.
pub open spec fn first_robot(s: Seq<char>) -> int {
    choose|i: int| 0 <= i < s.len() && s[i] == '@' && forall|j: int| 0 <= j < i ==> s[j] != '@'
}

/// Where the first robot stands.
pub open spec fn robot_loc(s: Seq<char>, nc: int) -> Loc {
    Loc((first_robot(s) / nc) as i32, (first_robot(s) % nc) as i32)
}

/// Clears each cell of `cells` to floor.
#[verifier::spinoff_prover]
fn clear_cells(out: &mut Grid<char>, cells: &Vec<Loc>)
    requires
        old(out).wf(),
        forall|j: int|
            0 <= j < cells@.len() ==> inside(
                old(out).spec_nrows() as int,
                old(out).spec_ncols() as int,
                #[trigger] cells@[j],
            ),
    ensures
        final(out).wf(),
        final(out).spec_nrows() == old(out).spec_nrows(),
        final(out).spec_ncols() == old(out).spec_ncols(),
        forall|p: Loc|
            inside(old(out).spec_nrows() as int, old(out).spec_ncols() as int, p) ==> #[trigger] cell_at(
                final(out)@,
                old(out).spec_ncols() as int,
                p,
            ) == if cells@.contains(p) {
                '.'
            } else {
                cell_at(old(out)@, old(out).spec_ncols() as int, p)
            },
{
    let ghost nr = out.spec_nrows() as int;
    let ghost nc = out.spec_ncols() as int;
    let ghost start = out@;
    for i in 0..cells.len()
        invariant
            out.wf(),
            out.spec_nrows() == nr,
            out.spec_ncols() == nc,
            forall|j: int| 0 <= j < cells@.len() ==> inside(nr, nc, #[trigger] cells@[j]),
            forall|p: Loc|
                inside(nr, nc, p) ==> #[trigger] cell_at(out@, nc, p) == if cells@.take(i as int).contains(p) {
                    '.'
                } else {
                    cell_at(start, nc, p)
                },
    {
        let l = cells[i];
        assert(inside(nr, nc, cells@[i as int]));
        proof {
            lemma_cell_index(nr, nc, l.0 as int, l.1 as int);
        }
        let ghost before = out@;
        *out.at_mut(l) = '.';
        proof {
            assert forall|p: Loc| inside(nr, nc, p) implies #[trigger] cell_at(out@, nc, p) == if cells@.take(i + 1).contains(p) {
                '.'
            } else {
                cell_at(start, nc, p)
            } by {
                lemma_cell_index(nr, nc, p.0 as int, p.1 as int);
                lemma_cell_index(nr, nc, l.0 as int, l.1 as int);
                assert(cells@.take(i + 1) =~= cells@.take(i as int).push(l));
                lemma_push_contains(cells@.take(i as int), l, p);
                if p != l {
                    if cell_index(nc, p.0 as int, p.1 as int) == cell_index(nc, l.0 as int, l.1 as int) {
                        lemma_cell_index_injective(nc, p.0 as int, p.1 as int, l.0 as int, l.1 as int);
                    }
                    assert(cell_at(out@, nc, p) == cell_at(before, nc, p));
                }
            }
        }
    }
    assert(cells@.take(cells@.len() as int) =~= cells@);
}

/// Writes into the cell ahead of each cell of `cells` what `grid` holds there.
#[verifier::spinoff_prover]
fn write_ahead(out: &mut Grid<char>, grid: &Grid<char>, cells: &Vec<Loc>, delta: Delta)
    requires
        old(out).wf(),
        grid.wf(),
        old(out).spec_nrows() == grid.spec_nrows(),
        old(out).spec_ncols() == grid.spec_ncols(),
        grid.spec_nrows() <= i32::MAX,
        grid.spec_ncols() <= i32::MAX,
        unit(delta),
        forall|j: int|
            0 <= j < cells@.len() ==> inside(grid.spec_nrows() as int, grid.spec_ncols() as int, #[trigger] cells@[j])
                && inside(grid.spec_nrows() as int, grid.spec_ncols() as int, shifted(cells@[j], delta)),
    ensures
        final(out).wf(),
        final(out).spec_nrows() == old(out).spec_nrows(),
        final(out).spec_ncols() == old(out).spec_ncols(),
        forall|p: Loc|
            inside(grid.spec_nrows() as int, grid.spec_ncols() as int, p) ==> #[trigger] cell_at(
                final(out)@,
                grid.spec_ncols() as int,
                p,
            ) == if cells@.contains(shifted(p, back(delta))) {
                cell_at(grid@, grid.spec_ncols() as int, shifted(p, back(delta)))
            } else {
                cell_at(old(out)@, grid.spec_ncols() as int, p)
            },
{
    let ghost nr = grid.spec_nrows() as int;
    let ghost nc = grid.spec_ncols() as int;
    let ghost start = out@;
    for i in 0..cells.len()
        invariant
            grid.wf(),
            out.wf(),
            out.spec_nrows() == nr,
            out.spec_ncols() == nc,
            nr == grid.spec_nrows(),
            nc == grid.spec_ncols(),
            nr <= i32::MAX,
            nc <= i32::MAX,
            unit(delta),
            forall|j: int|
                0 <= j < cells@.len() ==> inside(nr, nc, #[trigger] cells@[j]) && inside(nr, nc, shifted(cells@[j], delta)),
            forall|p: Loc|
                inside(nr, nc, p) ==> #[trigger] cell_at(out@, nc, p) == if cells@.take(i as int).contains(
                    shifted(p, back(delta)),
                ) {
                    cell_at(grid@, nc, shifted(p, back(delta)))
                } else {
                    cell_at(start, nc, p)
                },
    {
        let l = cells[i];
        assert(inside(nr, nc, cells@[i as int]));
        proof {
            lemma_cell_index(nr, nc, l.0 as int, l.1 as int);
            lemma_back(l, delta);
        }
        let ahead = l + delta;
        assert(shifted(ahead, back(delta)) == l);
        proof {
            lemma_cell_index(nr, nc, ahead.0 as int, ahead.1 as int);
        }
        let ghost before = out@;
        let v = *grid.at(l);
        *out.at_mut(ahead) = v;
        proof {
            assert forall|p: Loc| inside(nr, nc, p) implies #[trigger] cell_at(out@, nc, p) == if cells@.take(i + 1).contains(
                shifted(p, back(delta)),
            ) {
                cell_at(grid@, nc, shifted(p, back(delta)))
            } else {
                cell_at(start, nc, p)
            } by {
                lemma_cell_index(nr, nc, p.0 as int, p.1 as int);
                lemma_cell_index(nr, nc, ahead.0 as int, ahead.1 as int);
                assert(cells@.take(i + 1) =~= cells@.take(i as int).push(l));
                lemma_push_contains(cells@.take(i as int), l, shifted(p, back(delta)));
                if p != ahead {
                    if cell_index(nc, p.0 as int, p.1 as int) == cell_index(nc, ahead.0 as int, ahead.1 as int) {
                        lemma_cell_index_injective(nc, p.0 as int, p.1 as int, ahead.0 as int, ahead.1 as int);
                    }
                    assert(cell_at(out@, nc, p) == cell_at(before, nc, p));
                    lemma_back(p, delta);
                    assert(shifted(p, back(delta)) != l);
                }
            }
        }
    }
    assert(cells@.take(cells@.len() as int) =~= cells@);
}

/// The floor after the robot tries the move `step`: unchanged when blocked,
/// else with everything it pushes shifted one cell.
pub open spec fn step_cells(s: Seq<char>, nc: int, step: char) -> Seq<char> {
    let d = step_delta(step);
    let start = robot_loc(s, nc);
    if blocked(s, nc, d, start) {
        s
    } else {
        after_move(s, nc, d, start)
    }
}

/// How far along `d` the cell `p` lies.
spec fn level(d: Delta, p: Loc) -> int {
    if d == Delta::up() {
        -p.0
    } else if d == Delta::down() {
        p.0 as int
    } else if d == Delta::left() {
        -p.1
    } else {
        p.1 as int
    }
}

spec fn pow3(n: nat) -> nat
    decreases n,
{
    if n == 0 {
        1
    } else {
        3 * pow3((n - 1) as nat)
    }
}

proof fn lemma_pow3_mono(a: nat, b: nat)
    requires
        a <= b,
    ensures
        1 <= pow3(a) <= pow3(b),
    decreases b,
{
    if b > 0 {
        if a < b {
            lemma_pow3_mono(a, (b - 1) as nat);
        } else {
            lemma_pow3_mono((b - 1) as nat, (b - 1) as nat);
        }
    }
}

/// The weight of a queued cell: three times that of any cell it pushes.
spec fn weight(d: Delta, bound: int, p: Loc) -> nat {
    pow3((bound - level(d, p)) as nat)
}

spec fn queue_weight(d: Delta, bound: int, q: Seq<Loc>) -> nat
    decreases q.len(),
{
    if q.len() == 0 {
        0
    } else {
        weight(d, bound, q[0]) + queue_weight(d, bound, q.drop_first())
    }
}

proof fn lemma_queue_weight_push(d: Delta, bound: int, q: Seq<Loc>, x: Loc)
    ensures
        queue_weight(d, bound, q.push(x)) == queue_weight(d, bound, q) + weight(d, bound, x),
    decreases q.len(),
{
    if q.len() > 0 {
        let qx = q.push(x);
        assert(qx.drop_first() =~= q.drop_first().push(x));
        assert(qx[0] == q[0]);
        lemma_queue_weight_push(d, bound, q.drop_first(), x);
        assert(queue_weight(d, bound, qx) == weight(d, bound, qx[0]) + queue_weight(d, bound, qx.drop_first()));
        assert(queue_weight(d, bound, q) == weight(d, bound, q[0]) + queue_weight(d, bound, q.drop_first()));
    } else {
        let qx = q.push(x);
        assert(qx.drop_first() =~= Seq::<Loc>::empty());
        assert(qx[0] == x);
        assert(queue_weight(d, bound, qx.drop_first()) == 0);
        assert(queue_weight(d, bound, qx) == weight(d, bound, qx[0]) + queue_weight(d, bound, qx.drop_first()));
    }
}

proof fn lemma_moved_self(s: Seq<char>, nc: int, d: Delta, start: Loc)
    ensures
        moved(s, nc, d, start, start),
{
    assert(push_path(s, nc, d, seq![start]));
}

proof fn lemma_moved_step(s: Seq<char>, nc: int, d: Delta, start: Loc, a: Loc, b: Loc)
    requires
        moved(s, nc, d, start, a),
        pushes(s, nc, d, a, b),
    ensures
        moved(s, nc, d, start, b),
{
    let path = choose|path: Seq<Loc>| #[trigger] push_path(s, nc, d, path) && path[0] == start && path.last() == a;
    let longer = path.push(b);
    assert forall|i: int| 0 <= i < longer.len() - 1 implies pushes(s, nc, d, #[trigger] longer[i], longer[i + 1]) by {
        if i < path.len() - 1 {
            assert(longer[i] == path[i] && longer[i + 1] == path[i + 1]);
        }
    }
    assert(push_path(s, nc, d, longer));
}

/// A direction is one of the four unit steps.
pub open spec fn unit(d: Delta) -> bool {
    d == Delta::up() || d == Delta::down() || d == Delta::left() || d == Delta::right()
}

proof fn lemma_push_contains(s: Seq<Loc>, x: Loc, y: Loc)
    ensures
        s.push(x).contains(y) <==> (s.contains(y) || y == x),
{
    if s.contains(y) {
        let j = choose|j: int| 0 <= j < s.len() && s[j] == y;
        assert(s.push(x)[j] == y);
    }
    if y == x {
        assert(s.push(x)[s.len() as int] == y);
    }
    if s.push(x).contains(y) && y != x {
        let j = choose|j: int| 0 <= j < s.push(x).len() && s.push(x)[j] == y;
        assert(j < s.len());
        assert(s[j] == y);
    }
}

/// A step along `d` and one back cancel out, away from the `i32` limits.
proof fn lemma_back(p: Loc, d: Delta)
    requires
        unit(d),
        i32::MIN < p.0 < i32::MAX,
        i32::MIN < p.1 < i32::MAX,
    ensures
        shifted(shifted(p, back(d)), d) == p,
        shifted(shifted(p, d), back(d)) == p,
        can_shift(p, d),
        can_shift(p, back(d)),
{
}

/// In a warehouse, the robot and everything it pushes stay off the walls and
/// the outer ring.
proof fn lemma_moved_inside(s: Seq<char>, nr: int, nc: int, d: Delta, start: Loc, p: Loc)
    requires
        warehouse(s, nr, nc),
        unit(d),
        inside(nr, nc, start),
        cell_at(s, nc, start) == '@',
        moved(s, nc, d, start, p),
    ensures
        inside(nr, nc, p),
        !on_border(nr, nc, p),
        p == start || is_box(cell_at(s, nc, p)),
{
    let path = choose|path: Seq<Loc>| #[trigger] push_path(s, nc, d, path) && path[0] == start && path.last() == p;
    lemma_path_inside(s, nr, nc, d, start, path, path.len() - 1);
}

#[verifier::spinoff_prover]
proof fn lemma_path_inside(s: Seq<char>, nr: int, nc: int, d: Delta, start: Loc, path: Seq<Loc>, k: int)
    requires
        warehouse(s, nr, nc),
        unit(d),
        inside(nr, nc, start),
        cell_at(s, nc, start) == '@',
        push_path(s, nc, d, path),
        path[0] == start,
        0 <= k < path.len(),
    ensures
        inside(nr, nc, path[k]),
        !on_border(nr, nc, path[k]),
        path[k] == start || is_box(cell_at(s, nc, path[k])),
    decreases k,
{
    if k == 0 {
        if on_border(nr, nc, start) {
            assert(cell_at(s, nc, start) == '#');
        }
    } else {
        lemma_path_inside(s, nr, nc, d, start, path, k - 1);
        let a = path[k - 1];
        let b = path[k];
        assert(pushes(s, nc, d, path[k - 1], path[k - 1 + 1]));
        let n = shifted(a, d);
        assert(inside(nr, nc, n));
        let v = cell_at(s, nc, n);
        if b == n && is_box(v) {
            if on_border(nr, nc, n) {
                assert(cell_at(s, nc, n) == '#');
            }
        } else if v == '[' && b == shifted(n, Delta::right()) {
            if on_border(nr, nc, n) {
                assert(cell_at(s, nc, n) == '#');
            }
            assert(cell_at(s, nc, b) == ']');
            if on_border(nr, nc, b) {
                assert(cell_at(s, nc, b) == '#');
            }
        } else {
            assert(v == ']' && b == shifted(n, Delta::left()));
            if on_border(nr, nc, n) {
                assert(cell_at(s, nc, n) == '#');
            }
            assert(cell_at(s, nc, b) == '[');
            if on_border(nr, nc, b) {
                assert(cell_at(s, nc, b) == '#');
            }
        }
    }
}

/// A cell pushed by a moving cell lies further along the move, and weighs at
/// most a third as much.
proof fn lemma_push_weight(s: Seq<char>, nr: int, nc: int, d: Delta, start: Loc, a: Loc, b: Loc, bound: int)
    requires
        warehouse(s, nr, nc),
        unit(d),
        inside(nr, nc, start),
        cell_at(s, nc, start) == '@',
        moved(s, nc, d, start, a),
        pushes(s, nc, d, a, b),
        bound == nr + nc,
    ensures
        moved(s, nc, d, start, b),
        inside(nr, nc, b),
        3 * weight(d, bound, b) <= weight(d, bound, a),
{
    lemma_moved_step(s, nc, d, start, a, b);
    lemma_moved_inside(s, nr, nc, d, start, a);
    lemma_moved_inside(s, nr, nc, d, start, b);
    assert(level(d, b) >= level(d, a) + 1);
    let ea = (bound - level(d, a)) as nat;
    let eb = (bound - level(d, b)) as nat;
    assert(ea >= 1 && eb <= ea - 1);
    lemma_pow3_mono(eb, (ea - 1) as nat);
    assert(pow3(ea) == 3 * pow3((ea - 1) as nat));
}

/// A set of cells that holds `start` and everything its cells push holds every
/// cell that moves.
proof fn lemma_closed(s: Seq<char>, nc: int, d: Delta, start: Loc, tm: Seq<Loc>, path: Seq<Loc>, k: int)
    requires
        tm.contains(start),
        forall|x: Loc, y: Loc| tm.contains(x) && #[trigger] pushes(s, nc, d, x, y) ==> tm.contains(y),
        push_path(s, nc, d, path),
        path[0] == start,
        0 <= k < path.len(),
    ensures
        tm.contains(path[k]),
    decreases k,
{
    if k > 0 {
        lemma_closed(s, nc, d, start, tm, path, k - 1);
        assert(pushes(s, nc, d, path[k - 1], path[k - 1 + 1]));
    }
}

/// Queues what `loc` pushes when it moves by `delta`; `v` is the cell ahead.
#[verifier::spinoff_prover]
fn queue_pushed(
    grid: &Grid<char>,
    queue: &mut VecDeque<Loc>,
    loc: Loc,
    next_loc: Loc,
    v: char,
    delta: Delta,
    Ghost(start): Ghost<Loc>,
    Ghost(bound): Ghost<int>,
)
    requires
        warehouse(grid@, grid.spec_nrows() as int, grid.spec_ncols() as int),
        unit(delta),
        inside(grid.spec_nrows() as int, grid.spec_ncols() as int, start),
        cell_at(grid@, grid.spec_ncols() as int, start) == '@',
        moved(grid@, grid.spec_ncols() as int, delta, start, loc),
        inside(grid.spec_nrows() as int, grid.spec_ncols() as int, loc),
        !on_border(grid.spec_nrows() as int, grid.spec_ncols() as int, loc),
        can_shift(loc, delta),
        next_loc == shifted(loc, delta),
        v == cell_at(grid@, grid.spec_ncols() as int, next_loc),
        bound == grid.spec_nrows() + grid.spec_ncols(),
    ensures
        final(queue)@.len() >= old(queue)@.len(),
        final(queue)@.take(old(queue)@.len() as int) == old(queue)@,
        forall|y: Loc|
            #[trigger] pushes(grid@, grid.spec_ncols() as int, delta, loc, y) <==> final(queue)@.skip(
                old(queue)@.len() as int,
            ).contains(y),
        queue_weight(delta, bound, final(queue)@) < queue_weight(delta, bound, old(queue)@) + weight(delta, bound, loc),
{
    let ghost s = grid@;
    let ghost nr = grid.spec_nrows() as int;
    let ghost nc = grid.spec_ncols() as int;
    let ghost rest = queue@;
    let ghost mut added: Seq<Loc> = Seq::empty();
    proof {
        assert(rest + added =~= rest);
    }
        if v == '[' {
            let ghost q0 = queue@;
            queue.push_back(next_loc);
            proof {
                assert(pushes(s, nc, delta, loc, next_loc));
                lemma_push_weight(s, nr, nc, delta, start, loc, next_loc, bound);
                lemma_queue_weight_push(delta, bound, q0, next_loc);
                added = added.push(next_loc);
            }
            let other = next_loc + Delta::right();
            if other != loc {
                let ghost q1 = queue@;
                queue.push_back(other);
                proof {
                    assert(pushes(s, nc, delta, loc, other));
                    lemma_push_weight(s, nr, nc, delta, start, loc, other, bound);
                    lemma_queue_weight_push(delta, bound, q1, other);
                    added = added.push(other);
                }
            }
        }
        if v == ']' {
            let ghost q0 = queue@;
            queue.push_back(next_loc);
            proof {
                assert(pushes(s, nc, delta, loc, next_loc));
                lemma_push_weight(s, nr, nc, delta, start, loc, next_loc, bound);
                lemma_queue_weight_push(delta, bound, q0, next_loc);
                added = added.push(next_loc);
            }
            let other = next_loc + Delta::left();
            if other != loc {
                let ghost q1 = queue@;
                queue.push_back(other);
                proof {
                    assert(pushes(s, nc, delta, loc, other));
                    lemma_push_weight(s, nr, nc, delta, start, loc, other, bound);
                    lemma_queue_weight_push(delta, bound, q1, other);
                    added = added.push(other);
                }
            }
        }
        if v == 'O' {
            let ghost q0 = queue@;
            queue.push_back(next_loc);
            proof {
                assert(pushes(s, nc, delta, loc, next_loc));
                lemma_push_weight(s, nr, nc, delta, start, loc, next_loc, bound);
                lemma_queue_weight_push(delta, bound, q0, next_loc);
                added = added.push(next_loc);
            }
        }
    proof {
        assert(queue@ =~= rest + added);
        assert(queue@.take(rest.len() as int) =~= rest);
        assert(queue@.skip(rest.len() as int) =~= added);
        assert(added.len() <= 2);
        assert forall|y: Loc| #[trigger] pushes(s, nc, delta, loc, y) implies added.contains(y) by {
            if y == next_loc {
                assert(added[0] == y);
            } else {
                assert(added.len() == 2 && added[1] == y);
            }
        }
        lemma_pow3_mono(0, (bound - level(delta, loc)) as nat);
    }
}

/// The cells that move when `start` moves by `delta`, each listed at least
/// once, or `None` when one of them is a wall.
#[verifier::spinoff_prover]
#[verifier::rlimit(80)]
fn moving_cells(grid: &Grid<char>, start: Loc, delta: Delta) -> (r: Option<Vec<Loc>>)
    requires
        grid.wf(),
        warehouse(grid@, grid.spec_nrows() as int, grid.spec_ncols() as int),
        unit(delta),
        inside(grid.spec_nrows() as int, grid.spec_ncols() as int, start),
        cell_at(grid@, grid.spec_ncols() as int, start) == '@',
    ensures
        match r {
            None => exists|p: Loc|
                #[trigger] moved(grid@, grid.spec_ncols() as int, delta, start, p) && cell_at(
                    grid@,
                    grid.spec_ncols() as int,
                    p,
                ) == '#',
            Some(v) => (forall|p: Loc|
                #[trigger] v@.contains(p) <==> moved(grid@, grid.spec_ncols() as int, delta, start, p)) && (forall|p: Loc|
                #[trigger] moved(grid@, grid.spec_ncols() as int, delta, start, p) ==> cell_at(
                    grid@,
                    grid.spec_ncols() as int,
                    p,
                ) != '#'),
        },
{
    let ghost s = grid@;
    let ghost nr = grid.spec_nrows() as int;
    let ghost nc = grid.spec_ncols() as int;
    let ghost bound = nr + nc;
    let mut to_move: Vec<Loc> = Vec::new();
    let mut queue: VecDeque<Loc> = VecDeque::new();
    queue.push_back(start);
    proof {
        lemma_moved_self(s, nc, delta, start);
        assert(queue@[0] == start);
    }
    while queue.len() > 0
        invariant
            s == grid@,
            grid.wf(),
            nr == grid.spec_nrows(),
            nc == grid.spec_ncols(),
            bound == nr + nc,
            warehouse(s, nr, nc),
            unit(delta),
            inside(nr, nc, start),
            cell_at(s, nc, start) == '@',
            forall|j: int| 0 <= j < queue@.len() ==> moved(s, nc, delta, start, #[trigger] queue@[j]),
            forall|j: int| 0 <= j < to_move@.len() ==> moved(s, nc, delta, start, #[trigger] to_move@[j]),
            forall|j: int| 0 <= j < to_move@.len() ==> cell_at(s, nc, #[trigger] to_move@[j]) != '#',
            forall|x: Loc, y: Loc|
                to_move@.contains(x) && #[trigger] pushes(s, nc, delta, x, y) ==> to_move@.contains(y)
                    || queue@.contains(y),
            to_move@.contains(start) || queue@.contains(start),
        decreases queue_weight(delta, bound, queue@),
    {
        let ghost before = queue@;
        let ghost moved_before = to_move@;
        // handle this one
        let loc = queue.pop_front().unwrap();
        proof {
            assert(before =~= seq![loc] + queue@);
            assert(before[0] == loc);
            assert(before.drop_first() =~= queue@);
            lemma_moved_inside(s, nr, nc, delta, start, loc);
            lemma_cell_index(nr, nc, loc.0 as int, loc.1 as int);
        }
        if *grid.at(loc) == '#' {
            return None;
        }
        to_move.push(loc);
        // handle next
        let next_loc = loc + delta;
        proof {
            assert(inside(nr, nc, next_loc));
        }
        let v = *grid.at(next_loc);
        let ghost rest = queue@;
        queue_pushed(grid, &mut queue, loc, next_loc, v, delta, Ghost(start), Ghost(bound));
        let ghost added = queue@.skip(rest.len() as int);
        proof {
            assert(queue@ =~= rest + added);
            assert forall|j: int| 0 <= j < queue@.len() implies moved(s, nc, delta, start, #[trigger] queue@[j]) by {
                if j < rest.len() {
                    assert(queue@[j] == before[j + 1]);
                } else {
                    assert(queue@[j] == added[j - rest.len()]);
                    lemma_moved_step(s, nc, delta, start, loc, added[j - rest.len()]);
                }
            }
            assert forall|x: Loc, y: Loc| to_move@.contains(x) && #[trigger] pushes(s, nc, delta, x, y) implies to_move@.contains(y)
                || queue@.contains(y) by {
                if x == loc {
                    let j = choose|j: int| 0 <= j < added.len() && added[j] == y;
                    assert(queue@[rest.len() + j] == y);
                } else {
                    assert(moved_before.contains(x));
                    if y == loc {
                        assert(to_move@[to_move@.len() - 1] == y);
                    } else if moved_before.contains(y) {
                        let j = choose|j: int| 0 <= j < moved_before.len() && moved_before[j] == y;
                        assert(to_move@[j] == y);
                    } else {
                        assert(before.contains(y));
                        let j = choose|j: int| 0 <= j < before.len() && before[j] == y;
                        assert(j != 0);
                        assert(queue@[j - 1] == y);
                    }
                }
            }
            if !queue@.contains(start) && !moved_before.contains(start) {
                assert(before.contains(start));
                let j = choose|j: int| 0 <= j < before.len() && before[j] == start;
                if j == 0 {
                    assert(to_move@[to_move@.len() - 1] == start);
                } else {
                    assert(queue@[j - 1] == start);
                }
            } else if moved_before.contains(start) {
                let j = choose|j: int| 0 <= j < moved_before.len() && moved_before[j] == start;
                assert(to_move@[j] == start);
            }
            assert(queue_weight(delta, bound, before) == weight(delta, bound, loc) + queue_weight(delta, bound, rest));
        }
    }
    proof {
        assert forall|p: Loc| #[trigger] to_move@.contains(p) <==> moved(s, nc, delta, start, p) by {
            if to_move@.contains(p) {
                let j = choose|j: int| 0 <= j < to_move@.len() && to_move@[j] == p;
            }
            if moved(s, nc, delta, start, p) {
                let path = choose|path: Seq<Loc>| #[trigger] push_path(s, nc, delta, path) && path[0] == start && path.last() == p;
                lemma_closed(s, nc, delta, start, to_move@, path, path.len() - 1);
            }
        }
        assert forall|p: Loc| #[trigger] moved(s, nc, delta, start, p) implies cell_at(s, nc, p) != '#' by {
            assert(to_move@.contains(p));
            let j = choose|j: int| 0 <= j < to_move@.len() && to_move@[j] == p;
        }
    }
    Some(to_move)
}

/// What pushed a moving cell other than the robot was itself moving.
proof fn lemma_pushed_by(s: Seq<char>, nc: int, d: Delta, start: Loc, q: Loc) -> (a: Loc)
    requires
        moved(s, nc, d, start, q),
        q != start,
    ensures
        moved(s, nc, d, start, a),
        pushes(s, nc, d, a, q),
{
    let path = choose|path: Seq<Loc>| #[trigger] push_path(s, nc, d, path) && path[0] == start && path.last() == q;
    let n = path.len() - 1;
    assert(n >= 1);
    let prefix = path.take(n);
    assert forall|i: int| 0 <= i < prefix.len() - 1 implies pushes(s, nc, d, #[trigger] prefix[i], prefix[i + 1]) by {
        assert(prefix[i] == path[i] && prefix[i + 1] == path[i + 1]);
    }
    assert(push_path(s, nc, d, prefix));
    assert(pushes(s, nc, d, path[n - 1], path[n - 1 + 1]));
    path[n - 1]
}

/// The two halves of a wide box move together.
#[verifier::spinoff_prover]
proof fn lemma_partner(s: Seq<char>, nr: int, nc: int, d: Delta, start: Loc, q: Loc)
    requires
        warehouse(s, nr, nc),
        unit(d),
        inside(nr, nc, start),
        cell_at(s, nc, start) == '@',
        moved(s, nc, d, start, q),
    ensures
        cell_at(s, nc, q) == '[' ==> moved(s, nc, d, start, shifted(q, Delta::right())),
        cell_at(s, nc, q) == ']' ==> moved(s, nc, d, start, shifted(q, Delta::left())),
{
    if q != start {
        let a = lemma_pushed_by(s, nc, d, start, q);
        lemma_moved_inside(s, nr, nc, d, start, a);
        lemma_moved_inside(s, nr, nc, d, start, q);
        let n = shifted(a, d);
        let v = cell_at(s, nc, n);
        if q == n && is_box(v) {
            if v == '[' {
                let b = shifted(n, Delta::right());
                if b != a {
                    assert(pushes(s, nc, d, a, b));
                    lemma_moved_step(s, nc, d, start, a, b);
                }
            } else if v == ']' {
                let b = shifted(n, Delta::left());
                if b != a {
                    assert(pushes(s, nc, d, a, b));
                    lemma_moved_step(s, nc, d, start, a, b);
                }
            }
        } else if v == '[' && q == shifted(n, Delta::right()) {
            assert(inside(nr, nc, n));
            assert(cell_at(s, nc, q) == ']');
            assert(shifted(q, Delta::left()) == n);
            assert(pushes(s, nc, d, a, n));
            lemma_moved_step(s, nc, d, start, a, n);
        } else {
            assert(v == ']' && q == shifted(n, Delta::left()));
            assert(inside(nr, nc, n));
            assert(cell_at(s, nc, q) == '[');
            assert(shifted(q, Delta::right()) == n);
            assert(pushes(s, nc, d, a, n));
            lemma_moved_step(s, nc, d, start, a, n);
        }
    }
}

/// A box just ahead of a moving cell moves too.
proof fn lemma_ahead(s: Seq<char>, nc: int, d: Delta, start: Loc, a: Loc)
    requires
        moved(s, nc, d, start, a),
        is_box(cell_at(s, nc, shifted(a, d))),
    ensures
        moved(s, nc, d, start, shifted(a, d)),
{
    assert(pushes(s, nc, d, a, shifted(a, d)));
    lemma_moved_step(s, nc, d, start, a, shifted(a, d));
}

/// The floor after an unblocked move, cell by cell.
pub open spec fn after_move(s: Seq<char>, nc: int, d: Delta, start: Loc) -> Seq<char> {
    Seq::new(s.len(), |i: int| moved_value(s, nc, d, start, Loc((i / nc) as i32, (i % nc) as i32)))
}

proof fn lemma_after_cell(s: Seq<char>, nr: int, nc: int, d: Delta, start: Loc, p: Loc)
    requires
        0 < nc,
        s.len() == nr * nc,
        inside(nr, nc, p),
    ensures
        cell_at(after_move(s, nc, d, start), nc, p) == moved_value(s, nc, d, start, p),
{
    lemma_cell_index(nr, nc, p.0 as int, p.1 as int);
    lemma_cell_index_join(nc, p.0 as int, p.1 as int);
}

/// A move that is not blocked leaves the walls where they are: a cell is a wall
/// afterwards exactly when it was one before.
pub proof fn lemma_step_keeps_walls(s: Seq<char>, nr: int, nc: int, d: Delta, start: Loc, p: Loc)
    requires
        warehouse(s, nr, nc),
        unit(d),
        inside(nr, nc, start),
        cell_at(s, nc, start) == '@',
        !blocked(s, nc, d, start),
        inside(nr, nc, p),
    ensures
        (cell_at(after_move(s, nc, d, start), nc, p) == '#') <==> (cell_at(s, nc, p) == '#'),
{
    lemma_after_cell(s, nr, nc, d, start, p);
    lemma_back(p, d);
    let q = shifted(p, back(d));
    if moved(s, nc, d, start, q) {
        lemma_moved_inside(s, nr, nc, d, start, q);
        assert(shifted(q, d) == p);
        assert(!(cell_at(s, nc, q) == '#' || cell_at(s, nc, shifted(q, d)) == '#'));
    } else if moved(s, nc, d, start, p) {
        assert(!(cell_at(s, nc, p) == '#' || cell_at(s, nc, shifted(p, d)) == '#'));
    }
}

/// A move that is not blocked takes the one robot one step: afterwards the
/// robot stands exactly at the cell ahead of where it stood.
pub proof fn lemma_step_moves_robot(s: Seq<char>, nr: int, nc: int, d: Delta, start: Loc, p: Loc)
    requires
        warehouse(s, nr, nc),
        unit(d),
        inside(nr, nc, start),
        forall|l: Loc| inside(nr, nc, l) && #[trigger] cell_at(s, nc, l) == '@' ==> l == start,
        cell_at(s, nc, start) == '@',
        !blocked(s, nc, d, start),
        inside(nr, nc, p),
    ensures
        inside(nr, nc, shifted(start, d)),
        (cell_at(after_move(s, nc, d, start), nc, p) == '@') <==> (p == shifted(start, d)),
{
    assert(push_path(s, nc, d, seq![start]));
    assert(moved(s, nc, d, start, start));
    lemma_moved_inside(s, nr, nc, d, start, start);
    lemma_back(start, d);
    lemma_after_cell(s, nr, nc, d, start, p);
    lemma_back(p, d);
    let q = shifted(p, back(d));
    if p == shifted(start, d) {
        assert(q == start);
    } else if moved(s, nc, d, start, q) {
        lemma_moved_inside(s, nr, nc, d, start, q);
        if cell_at(s, nc, q) == '@' {
            assert(q == start);
            assert(shifted(q, d) == p);
        }
    }
}

/// An unblocked move keeps a warehouse a warehouse: walls stay put, wide boxes
/// stay whole, and the robot is still there.
#[verifier::spinoff_prover]
pub proof fn lemma_step_keeps_warehouse(s: Seq<char>, nr: int, nc: int, d: Delta, start: Loc)
    requires
        warehouse(s, nr, nc),
        unit(d),
        inside(nr, nc, start),
        cell_at(s, nc, start) == '@',
        !blocked(s, nc, d, start),
    ensures
        warehouse(after_move(s, nc, d, start), nr, nc),
{
    let t = after_move(s, nc, d, start);
    assert forall|p: Loc| inside(nr, nc, p) && on_border(nr, nc, p) implies #[trigger] cell_at(t, nc, p) == '#' by {
        lemma_after_cell(s, nr, nc, d, start, p);
        let q = shifted(p, back(d));
        if moved(s, nc, d, start, q) {
            lemma_moved_inside(s, nr, nc, d, start, q);
            assert(shifted(q, d) == p);
            assert(cell_at(s, nc, p) == '#');
            assert(!blocked(s, nc, d, start));
        }
        if moved(s, nc, d, start, p) {
            assert(cell_at(s, nc, p) == '#');
        }
    }
    assert forall|p: Loc| inside(nr, nc, p) && #[trigger] cell_at(t, nc, p) == '[' implies cell_at(
        t,
        nc,
        shifted(p, Delta::right()),
    ) == ']' by {
        lemma_wide_box_kept(s, nr, nc, d, start, p, true);
    }
    assert forall|p: Loc| inside(nr, nc, p) && #[trigger] cell_at(t, nc, p) == ']' implies cell_at(
        t,
        nc,
        shifted(p, Delta::left()),
    ) == '[' by {
        lemma_wide_box_kept(s, nr, nc, d, start, p, false);
    }
    lemma_moved_self(s, nc, d, start);
    lemma_moved_inside(s, nr, nc, d, start, start);
    let p = shifted(start, d);
    assert(shifted(p, back(d)) == start);
    lemma_after_cell(s, nr, nc, d, start, p);
    lemma_cell_index(nr, nc, p.0 as int, p.1 as int);
    assert(t[cell_index(nc, p.0 as int, p.1 as int)] == '@');
}

/// After an unblocked move, a wide box half at `p` still has its other half
/// beside it (the left half when `left` holds, else the right half).
#[verifier::spinoff_prover]
proof fn lemma_wide_box_kept(s: Seq<char>, nr: int, nc: int, d: Delta, start: Loc, p: Loc, left: bool)
    requires
        warehouse(s, nr, nc),
        unit(d),
        inside(nr, nc, start),
        cell_at(s, nc, start) == '@',
        !blocked(s, nc, d, start),
        inside(nr, nc, p),
        cell_at(after_move(s, nc, d, start), nc, p) == (if left { '[' } else { ']' }),
    ensures
        cell_at(after_move(s, nc, d, start), nc, shifted(p, if left { Delta::right() } else { Delta::left() }))
            == (if left { ']' } else { '[' }),
{
    let t = after_move(s, nc, d, start);
    let side = if left { Delta::right() } else { Delta::left() };
    let mine = if left { '[' } else { ']' };
    let theirs = if left { ']' } else { '[' };
    lemma_after_cell(s, nr, nc, d, start, p);
    let q = shifted(p, back(d));
    let p2 = shifted(p, side);
    let q2 = shifted(p2, back(d));
    if moved(s, nc, d, start, q) {
        // the half came from `q`, and its partner came along from beside `q`
        lemma_moved_inside(s, nr, nc, d, start, q);
        assert(cell_at(s, nc, q) == mine);
        lemma_partner(s, nr, nc, d, start, q);
        let r2 = shifted(q, side);
        assert(moved(s, nc, d, start, r2));
        lemma_moved_inside(s, nr, nc, d, start, r2);
        assert(cell_at(s, nc, r2) == theirs);
        if cell_at(s, nc, shifted(r2, d)) == '#' {
            assert(blocked(s, nc, d, start));
        }
        assert(r2 == q2);
        assert(shifted(q2, d) == p2);
        assert(inside(nr, nc, p2));
        lemma_after_cell(s, nr, nc, d, start, p2);
    } else if moved(s, nc, d, start, p) {
        assert(false);
    } else {
        // the half stayed put, and so did its partner
        assert(cell_at(s, nc, p) == mine);
        if on_border(nr, nc, p) {
            assert(false);
        }
        assert(inside(nr, nc, p2));
        assert(cell_at(s, nc, p2) == theirs);
        if moved(s, nc, d, start, p2) {
            lemma_partner(s, nr, nc, d, start, p2);
            assert(shifted(p2, if left { Delta::left() } else { Delta::right() }) == p);
        }
        if moved(s, nc, d, start, q2) {
            assert(shifted(q2, d) == p2);
            lemma_ahead(s, nc, d, start, q2);
        }
        lemma_after_cell(s, nr, nc, d, start, p2);
    }
}

/// Where the first robot stands, in row-major order.
fn find_robot(grid: &Grid<char>) -> (r: Loc)
    requires
        grid.wf(),
        warehouse(grid@, grid.spec_nrows() as int, grid.spec_ncols() as int),
    ensures
        r == robot_loc(grid@, grid.spec_ncols() as int),
        inside(grid.spec_nrows() as int, grid.spec_ncols() as int, r),
        cell_at(grid@, grid.spec_ncols() as int, r) == '@',
{
    let data = grid.raw_data();
    let ncols = grid.ncols();
    let ghost s = grid@;
    let mut i: usize = 0;
    while i < data.len()
        invariant
            data@ == s,
            i <= data@.len(),
            forall|j: int| 0 <= j < i ==> s[j] != '@',
            exists|k: int| 0 <= k < s.len() && s[k] == '@',
        ensures
            i < data@.len(),
            s[i as int] == '@',
            forall|j: int| 0 <= j < i ==> s[j] != '@',
        decreases data@.len() - i,
    {
        if data[i] == '@' {
            break;
        }
        i = i + 1;
    }
    proof {
        let c = first_robot(s);
        assert(0 <= i < s.len() && s[i as int] == '@' && forall|j: int| 0 <= j < i ==> s[j] != '@');
        if c < i {
            assert(s[c] != '@');
        }
        if c > i {
            assert(s[i as int] != '@');
        }
        assert(c == i);
        lemma_cell_index_split(grid.spec_nrows() as int, ncols as int, i as int);
    }
    let row = (i as u32) / ncols;
    let col = (i as u32) % ncols;
    Loc::from_u32(row, col)
}

/// The direction of a move.
fn delta_of(step: char) -> (r: Delta)
    requires
        valid_step(step),
    ensures
        r == step_delta(step),
        unit(r),
{
    if step == '^' {
        Delta::up()
    } else if step == 'v' {
        Delta::down()
    } else if step == '<' {
        Delta::left()
    } else {
        Delta::right()
    }
}

/// The floor after the robot tries the move `step`: when nothing it would push
/// meets a wall, the robot and every box in the chain shift one cell.
#[verifier::spinoff_prover]
pub fn try_step(grid: &Grid<char>, step: char) -> (r: Grid<char>)
    requires
        grid.wf(),
        warehouse(grid@, grid.spec_nrows() as int, grid.spec_ncols() as int),
        valid_step(step),
    ensures
        r.wf(),
        r.spec_nrows() == grid.spec_nrows(),
        r.spec_ncols() == grid.spec_ncols(),
        r@ == step_cells(grid@, grid.spec_ncols() as int, step),
        warehouse(r@, grid.spec_nrows() as int, grid.spec_ncols() as int),
{
    let ghost s = grid@;
    let ghost nr = grid.spec_nrows() as int;
    let ghost nc = grid.spec_ncols() as int;
    let loc = find_robot(grid);
    let delta = delta_of(step);
    // find what moves
    let found = moving_cells(grid, loc, delta);
    let to_move = match found {
        None => {
            let same = grid.clone();
            assert(same@ =~= s);
            return same;
        },
        Some(v) => v,
    };
    proof {
        assert forall|j: int| 0 <= j < to_move@.len() implies inside(nr, nc, #[trigger] to_move@[j]) && !on_border(
            nr,
            nc,
            to_move@[j],
        ) by {
            assert(to_move@.contains(to_move@[j]));
            lemma_moved_inside(s, nr, nc, delta, loc, to_move@[j]);
        }
    }
    // a wall ahead of anything that moves stops the whole move
    let mut hit_wall = false;
    for i in 0..to_move.len()
        invariant
            s == grid@,
            grid.wf(),
            nr == grid.spec_nrows(),
            nc == grid.spec_ncols(),
            nr <= i32::MAX,
            nc <= i32::MAX,
            unit(delta),
            forall|j: int| 0 <= j < to_move@.len() ==> inside(nr, nc, #[trigger] to_move@[j]) && !on_border(nr, nc, to_move@[j]),
            !hit_wall ==> forall|j: int| 0 <= j < i ==> cell_at(s, nc, shifted(#[trigger] to_move@[j], delta)) != '#',
            hit_wall ==> blocked(s, nc, delta, loc),
            forall|p: Loc| #[trigger] to_move@.contains(p) <==> moved(s, nc, delta, loc, p),
    {
        let l = to_move[i];
        assert(inside(nr, nc, to_move@[i as int]) && !on_border(nr, nc, to_move@[i as int]));
        let next_loc = l + delta;
        proof {
            assert(inside(nr, nc, next_loc));
            lemma_cell_index(nr, nc, next_loc.0 as int, next_loc.1 as int);
        }
        if *grid.at(next_loc) == '#' {
            proof {
                assert(to_move@.contains(l));
                assert(blocked(s, nc, delta, loc));
            }
            hit_wall = true;
        }
    }
    if hit_wall {
        let same = grid.clone();
        assert(same@ =~= s);
        return same;
    }
    proof {
        assert(!blocked(s, nc, delta, loc)) by {
            assert forall|p: Loc| #[trigger] moved(s, nc, delta, loc, p) implies !(cell_at(s, nc, p) == '#' || cell_at(
                s,
                nc,
                shifted(p, delta),
            ) == '#') by {
                assert(to_move@.contains(p));
                let j = choose|j: int| 0 <= j < to_move@.len() && to_move@[j] == p;
            }
        }
        lemma_step_keeps_warehouse(s, nr, nc, delta, loc);
    }
    // move them: clear every moving cell, then write each one ahead
    let mut out = grid.clone();
    assert(out@ =~= s);
    proof {
        assert forall|j: int| 0 <= j < to_move@.len() implies inside(nr, nc, #[trigger] to_move@[j]) && inside(
            nr,
            nc,
            shifted(to_move@[j], delta),
        ) by {
            assert(inside(nr, nc, to_move@[j]) && !on_border(nr, nc, to_move@[j]));
        }
    }
    let ghost cleared_from = out@;
    clear_cells(&mut out, &to_move);
    let ghost cleared = out@;
    write_ahead(&mut out, grid, &to_move, delta);
    proof {
        let t = after_move(s, nc, delta, loc);
        assert(to_move@.take(to_move@.len() as int) =~= to_move@);
        assert forall|i: int| 0 <= i < s.len() implies out@[i] == t[i] by {
            lemma_cell_index_split(nr, nc, i);
            let p = Loc((i / nc) as i32, (i % nc) as i32);
            assert(inside(nr, nc, p));
            assert(cell_index(nc, p.0 as int, p.1 as int) == i);
            assert(cell_at(cleared, nc, p) == if to_move@.contains(p) { '.' } else { cell_at(s, nc, p) });
            assert(cell_at(out@, nc, p) == moved_value(s, nc, delta, loc, p));
        }
        assert(out@ =~= t);
    }
    out
}

/// The GPS coordinate that the cell at row-major index `i` adds: `100 * row +
/// col` for a box or the left half of a wide box, else nothing.
pub open spec fn gps_value(s: Seq<char>, nc: int, i: int) -> int {
    if s[i] == 'O' || s[i] == '[' {
        100 * (i / nc) + i % nc
    } else {
        0
    }
}

/// The sum of the GPS coordinates of the first `n` cells.
pub open spec fn gps_upto(s: Seq<char>, nc: int, n: int) -> int
    decreases n,
{
    if n <= 0 {
        0
    } else {
        gps_upto(s, nc, n - 1) + gps_value(s, nc, n - 1)
    }
}

/// The sum of the GPS coordinates of all boxes.
pub open spec fn gps(s: Seq<char>, nc: int) -> int {
    gps_upto(s, nc, s.len() as int)
}

proof fn lemma_gps_mono(s: Seq<char>, nc: int, n: int, m: int)
    requires
        0 < nc,
        0 <= n <= m,
    ensures
        gps_upto(s, nc, n) <= gps_upto(s, nc, m),
    decreases m - n,
{
    if n < m {
        lemma_gps_mono(s, nc, n, m - 1);
        assert((m - 1) / nc >= 0) by (nonlinear_arith)
            requires
                m - 1 >= 0,
                nc > 0,
        ;
        vstd::arithmetic::div_mod::lemma_mod_pos_bound(m - 1, nc);
    }
}

/// The sum of the GPS coordinates of the boxes on the floor.
pub fn sum_gps(grid: &Grid<char>) -> (r: u32)
    requires
        grid.wf(),
        gps(grid@, grid.spec_ncols() as int) <= u32::MAX,
    ensures
        r == gps(grid@, grid.spec_ncols() as int),
{
    let data = grid.raw_data();
    let ncols = grid.ncols();
    let ghost s = grid@;
    let ghost nc = ncols as int;
    let mut sum: u32 = 0;
    for i in 0..data.len()
        invariant
            data@ == s,
            nc == grid.spec_ncols(),
            ncols == nc,
            s.len() == grid.spec_nrows() * grid.spec_ncols(),
            s.len() <= u32::MAX,
            gps(s, nc) <= u32::MAX,
            sum == gps_upto(s, nc, i as int),
    {
        let v = data[i];
        if v == 'O' || v == '[' {
            proof {
                assert(nc > 0) by (nonlinear_arith)
                    requires
                        s.len() == grid.spec_nrows() * nc,
                        i < s.len(),
                        nc >= 0,
                ;
                lemma_gps_mono(s, nc, i + 1, s.len() as int);
                assert(gps_upto(s, nc, i + 1) == sum + gps_value(s, nc, i as int));
            }
            let row = (i as u32) / ncols;
            let col = (i as u32) % ncols;
            sum = sum + (row * 100 + col);
        }
    }
    sum
}

/// A floor cell and the two cells that it becomes on the wide floor.
pub open spec fn widen(v: char) -> (char, char) {
    if v == 'O' {
        ('[', ']')
    } else if v == '@' {
        ('@', '.')
    } else {
        (v, v)
    }
}

/// The wide floor: each cell of `s` (with `nc` columns) doubled as `widen` says.
pub open spec fn wide_cells(s: Seq<char>, nc: int) -> Seq<char> {
    Seq::new(
        (2 * s.len()) as nat,
        |i: int|
            {
                let row = i / (2 * nc);
                let c = i % (2 * nc);
                let v = s[cell_index(nc, row, c / 2)];
                if c % 2 == 0 {
                    widen(v).0
                } else {
                    widen(v).1
                }
            },
    )
}

/// The floor twice as wide: boxes become `[]`, the robot `@.`, and every other
/// cell is doubled.
pub fn inflate(grid: &Grid<char>) -> (r: Grid<char>)
    requires
        grid.wf(),
        grid.spec_nrows() <= i32::MAX,
        2 * grid.spec_ncols() <= i32::MAX,
        grid.spec_nrows() * (2 * grid.spec_ncols()) <= u32::MAX,
    ensures
        r.wf(),
        r.spec_nrows() == grid.spec_nrows(),
        r.spec_ncols() == 2 * grid.spec_ncols(),
        r@ == wide_cells(grid@, grid.spec_ncols() as int),
{
    let nrows = grid.nrows();
    let ncols = grid.ncols();
    let ghost nr = nrows as int;
    let ghost nc = ncols as int;
    let ghost w = 2 * nc;
    let mut out: Grid<char> = Grid::new(nrows, ncols * 2);
    for row in 0..nrows
        invariant
            grid.wf(),
            nr == grid.spec_nrows(),
            nc == grid.spec_ncols(),
            nrows == nr,
            ncols == nc,
            nr <= i32::MAX,
            w == 2 * nc,
            w <= i32::MAX,
            nr * w <= u32::MAX,
            out.wf(),
            out.spec_nrows() == nr,
            out.spec_ncols() == w,
            forall|r2: int, c2: int|
                0 <= r2 < row && 0 <= c2 < nc ==> out.cell(r2, 2 * c2) == widen(#[trigger] grid.cell(r2, c2)).0
                    && out.cell(r2, 2 * c2 + 1) == widen(grid.cell(r2, c2)).1,
    {
        for col in 0..ncols
            invariant
                grid.wf(),
                nr == grid.spec_nrows(),
                nc == grid.spec_ncols(),
                nrows == nr,
                ncols == nc,
                nr <= i32::MAX,
                w == 2 * nc,
                w <= i32::MAX,
                nr * w <= u32::MAX,
                row < nr,
                out.wf(),
                out.spec_nrows() == nr,
                out.spec_ncols() == w,
                forall|r2: int, c2: int|
                    0 <= r2 < nr && 0 <= c2 < nc && (r2 < row || (r2 == row && c2 < col)) ==> out.cell(r2, 2 * c2)
                        == widen(#[trigger] grid.cell(r2, c2)).0 && out.cell(r2, 2 * c2 + 1) == widen(grid.cell(r2, c2)).1,
        {
            let val = *grid.at_u32(row, col);
            let dest1 = Loc::from_u32(row, 2 * col);
            let dest2 = dest1 + Delta::right();
            let ghost before = out@;
            let (a, b) = if val == 'O' {
                ('[', ']')
            } else if val == '@' {
                (val, '.')
            } else {
                (val, val)
            };
            proof {
                lemma_cell_index(nr, w, row as int, 2 * col);
                lemma_cell_index(nr, w, row as int, 2 * col + 1);
            }
            *out.at_mut(dest1) = a;
            let ghost mid = out@;
            *out.at_mut(dest2) = b;
            proof {
                assert forall|r2: int, c2: int|
                    0 <= r2 < nr && 0 <= c2 < nc && (r2 < row || (r2 == row && c2 < col + 1)) implies out.cell(r2, 2 * c2)
                        == widen(#[trigger] grid.cell(r2, c2)).0 && out.cell(r2, 2 * c2 + 1) == widen(grid.cell(r2, c2)).1 by {
                    if !(r2 == row && c2 == col) {
                        lemma_cell_index(nr, w, r2, 2 * c2);
                        lemma_cell_index(nr, w, r2, 2 * c2 + 1);
                        let i1 = cell_index(w, r2, 2 * c2);
                        let i2 = cell_index(w, r2, 2 * c2 + 1);
                        let j1 = cell_index(w, row as int, 2 * col);
                        let j2 = cell_index(w, row as int, 2 * col + 1);
                        if i1 == j1 {
                            lemma_cell_index_injective(w, r2, 2 * c2, row as int, 2 * col);
                        }
                        if i1 == j2 {
                            lemma_cell_index_injective(w, r2, 2 * c2, row as int, 2 * col + 1);
                        }
                        if i2 == j1 {
                            lemma_cell_index_injective(w, r2, 2 * c2 + 1, row as int, 2 * col);
                        }
                        if i2 == j2 {
                            lemma_cell_index_injective(w, r2, 2 * c2 + 1, row as int, 2 * col + 1);
                        }
                        assert(out@[i1] == before[i1]);
                        assert(out@[i2] == before[i2]);
                    }
                }
            }
        }
    }
    proof {
        let t = wide_cells(grid@, nc);
        assert(nr * w == 2 * (nr * nc)) by (nonlinear_arith)
            requires
                w == 2 * nc,
        ;
        assert forall|i: int| 0 <= i < out@.len() implies out@[i] == t[i] by {
            assert(w > 0);
            lemma_cell_index_split(nr, w, i);
            let row = i / w;
            let c = i % w;
            let col = c / 2;
            assert(0 <= col < nc);
            assert(c == 2 * col || c == 2 * col + 1);
            assert(out.cell(row, c) == out@[i]);
            lemma_cell_index(nr, nc, row, col);
            assert(grid.cell(row, col) == grid@[cell_index(nc, row, col)]);
        }
        assert(out@ =~= t);
    }
    out
}

proof fn lemma_wide_cell(s: Seq<char>, nr: int, nc: int, l: Loc)
    requires
        0 < nc,
        s.len() == nr * nc,
        inside(nr, 2 * nc, l),
    ensures
        cell_at(wide_cells(s, nc), 2 * nc, l) == (if l.1 % 2 == 0 {
            widen(cell_at(s, nc, Loc(l.0, (l.1 / 2) as i32))).0
        } else {
            widen(cell_at(s, nc, Loc(l.0, (l.1 / 2) as i32))).1
        }),
        inside(nr, nc, Loc(l.0, (l.1 / 2) as i32)),
{
    lemma_cell_index(nr, 2 * nc, l.0 as int, l.1 as int);
    assert(nr * (2 * nc) == 2 * (nr * nc)) by (nonlinear_arith);
    lemma_cell_index_join(2 * nc, l.0 as int, l.1 as int);
}

/// Widening a warehouse without wide boxes gives a warehouse.
pub proof fn lemma_wide_warehouse(s: Seq<char>, nr: int, nc: int)
    requires
        warehouse(s, nr, nc),
        forall|i: int| 0 <= i < s.len() ==> #[trigger] s[i] != '[' && s[i] != ']',
        2 * nc <= i32::MAX,
        nr * (2 * nc) <= u32::MAX,
    ensures
        warehouse(wide_cells(s, nc), nr, 2 * nc),
{
    let t = wide_cells(s, nc);
    let w = 2 * nc;
    assert(nr * w == 2 * (nr * nc)) by (nonlinear_arith)
        requires
            w == 2 * nc,
    ;
    assert forall|l: Loc| inside(nr, w, l) && on_border(nr, w, l) implies #[trigger] cell_at(t, w, l) == '#' by {
        lemma_wide_cell(s, nr, nc, l);
        let o = Loc(l.0, (l.1 / 2) as i32);
        assert(on_border(nr, nc, o));
    }
    assert forall|l: Loc| inside(nr, w, l) && #[trigger] cell_at(t, w, l) == '[' implies cell_at(
        t,
        w,
        shifted(l, Delta::right()),
    ) == ']' by {
        lemma_wide_cell(s, nr, nc, l);
        let o = Loc(l.0, (l.1 / 2) as i32);
        lemma_cell_index(nr, nc, o.0 as int, o.1 as int);
        let r = shifted(l, Delta::right());
        assert(l.1 % 2 == 0);
        assert(inside(nr, w, r));
        lemma_wide_cell(s, nr, nc, r);
    }
    assert forall|l: Loc| inside(nr, w, l) && #[trigger] cell_at(t, w, l) == ']' implies cell_at(
        t,
        w,
        shifted(l, Delta::left()),
    ) == '[' by {
        lemma_wide_cell(s, nr, nc, l);
        let o = Loc(l.0, (l.1 / 2) as i32);
        lemma_cell_index(nr, nc, o.0 as int, o.1 as int);
        let r = shifted(l, Delta::left());
        assert(l.1 % 2 == 1);
        assert(inside(nr, w, r));
        lemma_wide_cell(s, nr, nc, r);
    }
    let i = choose|i: int| 0 <= i < s.len() && s[i] == '@';
    lemma_cell_index_split(nr, nc, i);
    let l = Loc((i / nc) as i32, (2 * (i % nc)) as i32);
    assert(inside(nr, w, l));
    lemma_wide_cell(s, nr, nc, l);
    lemma_cell_index(nr, w, l.0 as int, l.1 as int);
    assert(t[cell_index(w, l.0 as int, l.1 as int)] == '@');
}

/// The input is two paragraphs, split by its one blank line.
pub open spec fn two_paragraphs(s: Seq<char>) -> bool {
    let p = first_index2(s, '\n', '\n');
    p >= 0 && first_index2(s.subrange(p + 2, s.len() as int), '\n', '\n') == -1
}

/// The first paragraph: the floor.
pub open spec fn floor_text(s: Seq<char>) -> Seq<char> {
    s.subrange(0, first_index2(s, '\n', '\n'))
}

/// The second paragraph without its line breaks: the moves.
pub open spec fn moves_text(s: Seq<char>) -> Seq<char> {
    s.subrange(first_index2(s, '\n', '\n') + 2, s.len() as int).filter(|c: char| c != '\n')
}

/// The number of rows of the floor drawn in `text`.
pub open spec fn floor_rows(text: Seq<char>) -> int {
    grid_lines(text).len() as int
}

/// The number of columns of the floor drawn in `text`.
pub open spec fn floor_cols(text: Seq<char>) -> int {
    utf8_len(grid_lines(text)[0]) as int
}

/// The cells of the floor drawn in `text`, row by row.
pub open spec fn floor_cells(text: Seq<char>) -> Seq<char> {
    let nc = floor_cols(text);
    Seq::new(
        (floor_rows(text) * nc) as nat,
        |i: int| char_grid_cell(grid_lines(text), i / nc, i % nc),
    )
}

/// Splits the input into the floor and the moves.
pub fn parse(input: &str) -> (r: (Grid<char>, String))
    requires
        two_paragraphs(input@),
        char_grid_fits(floor_text(input@)),
    ensures
        r.0.wf(),
        r.0.spec_nrows() == floor_rows(floor_text(input@)),
        r.0.spec_ncols() == floor_cols(floor_text(input@)),
        r.0@ == floor_cells(floor_text(input@)),
        r.1@ == moves_text(input@),
{
    let chars = chars_of(input);
    let n = chars.len();
    let ghost s = input@;
    assert(chars@.subrange(0, n as int) =~= s);
    let found = find_pair(chars.as_slice(), 0, n, '\n', '\n');
    let p = match found {
        Some(p) => p,
        None => {
            assert(false);
            0
        },
    };
    proof {
        lemma_first_index2(s, '\n', '\n');
    }
    let mut floor: Vec<char> = Vec::new();
    for i in 0..p
        invariant
            p + 1 < n,
            n == chars@.len(),
            floor@ == chars@.subrange(0, i as int),
    {
        floor.push(chars[i]);
        assert(floor@ =~= chars@.subrange(0, i + 1));
    }
    let floor_str = string_from_chars(&floor);
    let grid = Grid::parse_char_grid(floor_str.as_str());
    let mut steps: Vec<char> = Vec::new();
    let ghost tail = s.subrange(p + 2, n as int);
    let ghost keep = |c: char| c != '\n';
    for i in p + 2..n
        invariant
            n == chars@.len(),
            chars@ == s,
            p + 2 <= n,
            tail == s.subrange(p + 2, n as int),
            keep == (|c: char| c != '\n'),
            steps@ == s.subrange(p + 2, i as int).filter(keep),
    {
        let c = chars[i];
        proof {
            assert(s.subrange(p + 2, i + 1) =~= s.subrange(p + 2, i as int).push(c));
            s.subrange(p + 2, i as int).lemma_filter_push(c, keep);
        }
        if c != '\n' {
            steps.push(c);
        }
    }
    let moves = string_from_chars(&steps);
    proof {
        let ft = floor_text(s);
        let nc = floor_cols(ft);
        let nr = floor_rows(ft);
        assert(grid@.len() == nr * nc);
        assert forall|i: int| 0 <= i < grid@.len() implies grid@[i] == floor_cells(ft)[i] by {
            if nc > 0 {
                lemma_cell_index_split(nr, nc, i);
                assert(grid.cell(i / nc, i % nc) == grid@[i]);
            } else {
                assert(nr * nc == 0) by (nonlinear_arith)
                    requires
                        nc == 0,
                ;
            }
        }
        assert(grid@ =~= floor_cells(ft));
        assert(moves@ =~= moves_text(s));
    }
    (grid, moves)
}

/// The floor after the moves `steps`, taken in order.
pub open spec fn run_steps(s: Seq<char>, nc: int, steps: Seq<char>) -> Seq<char>
    decreases steps.len(),
{
    if steps.len() == 0 {
        s
    } else {
        step_cells(run_steps(s, nc, steps.drop_last()), nc, steps.last())
    }
}

/// The input is a walled warehouse and a list of moves.
pub open spec fn puzzle_ok(s: Seq<char>) -> bool {
    &&& two_paragraphs(s)
    &&& char_grid_fits(floor_text(s))
    &&& warehouse(floor_cells(floor_text(s)), floor_rows(floor_text(s)), floor_cols(floor_text(s)))
    &&& forall|i: int| 0 <= i < moves_text(s).len() ==> valid_step(#[trigger] moves_text(s)[i])
}

/// Runs the moves on `grid`, one after another.
#[verifier::spinoff_prover]
#[verifier::rlimit(50)]
fn run(grid: Grid<char>, moves: &Vec<char>) -> (r: Grid<char>)
    requires
        grid.wf(),
        warehouse(grid@, grid.spec_nrows() as int, grid.spec_ncols() as int),
        forall|i: int| 0 <= i < moves@.len() ==> valid_step(#[trigger] moves@[i]),
    ensures
        r.wf(),
        r.spec_nrows() == grid.spec_nrows(),
        r.spec_ncols() == grid.spec_ncols(),
        r@ == run_steps(grid@, grid.spec_ncols() as int, moves@),
{
    let ghost s0 = grid@;
    let ghost nr = grid.spec_nrows() as int;
    let ghost nc = grid.spec_ncols() as int;
    let mut grid = grid;
    assert(moves@.take(0) =~= Seq::<char>::empty());
    for i in 0..moves.len()
        invariant
            grid.wf(),
            grid.spec_nrows() == nr,
            grid.spec_ncols() == nc,
            warehouse(grid@, nr, nc),
            forall|i: int| 0 <= i < moves@.len() ==> valid_step(#[trigger] moves@[i]),
            grid@ == run_steps(s0, nc, moves@.take(i as int)),
    {
        assert(valid_step(moves@[i as int]));
        grid = try_step(&grid, moves[i]);
        proof {
            let t = moves@.take(i + 1);
            assert(t.drop_last() =~= moves@.take(i as int));
            assert(t.last() == moves@[i as int]);
        }
    }
    assert(moves@.take(moves@.len() as int) =~= moves@);
    grid
}

/// The sum of the boxes' GPS coordinates after the robot's moves.
pub fn part1(input: &str) -> (r: u32)
    requires
        puzzle_ok(input@),
        gps(
            run_steps(floor_cells(floor_text(input@)), floor_cols(floor_text(input@)), moves_text(input@)),
            floor_cols(floor_text(input@)),
        ) <= u32::MAX,
    ensures
        r == gps(
            run_steps(floor_cells(floor_text(input@)), floor_cols(floor_text(input@)), moves_text(input@)),
            floor_cols(floor_text(input@)),
        ),
{
    let (grid, steps) = parse(input);
    let moves = chars_of(steps.as_str());
    let grid = run(grid, &moves);
    sum_gps(&grid)
}

/// The sum of the wide boxes' GPS coordinates after the robot's moves on the
/// floor twice as wide.
pub fn part2(input: &str) -> (r: u32)
    requires
        puzzle_ok(input@),
        forall|i: int|
            0 <= i < floor_cells(floor_text(input@)).len() ==> #[trigger] floor_cells(floor_text(input@))[i] != '['
                && floor_cells(floor_text(input@))[i] != ']',
        2 * floor_cols(floor_text(input@)) <= i32::MAX,
        floor_rows(floor_text(input@)) * (2 * floor_cols(floor_text(input@))) <= u32::MAX,
        gps(
            run_steps(
                wide_cells(floor_cells(floor_text(input@)), floor_cols(floor_text(input@))),
                2 * floor_cols(floor_text(input@)),
                moves_text(input@),
            ),
            2 * floor_cols(floor_text(input@)),
        ) <= u32::MAX,
    ensures
        r == gps(
            run_steps(
                wide_cells(floor_cells(floor_text(input@)), floor_cols(floor_text(input@))),
                2 * floor_cols(floor_text(input@)),
                moves_text(input@),
            ),
            2 * floor_cols(floor_text(input@)),
        ),
{
    let (grid, steps) = parse(input);
    let grid = inflate(&grid);
    proof {
        let ft = floor_text(input@);
        lemma_wide_warehouse(floor_cells(ft), floor_rows(ft), floor_cols(ft));
    }
    let moves = chars_of(steps.as_str());
    let grid = run(grid, &moves);
    sum_gps(&grid)
}

/// The cells of the floor that hold `c`.
pub open spec fn cells_holding(s: Seq<char>, nr: int, nc: int, c: char) -> Set<Loc> {
    Set::new(|p: Loc| inside(nr, nc, p) && cell_at(s, nc, p) == c)
}

/// The cells of an `nr` x `nc` floor, as a finite set.
spec fn floor_locs(nr: int, nc: int) -> Set<Loc> {
    Seq::new((nr * nc) as nat, |i: int| Loc((i / nc) as i32, (i % nc) as i32)).to_set()
}

proof fn lemma_floor_locs(nr: int, nc: int, p: Loc)
    requires
        0 < nr,
        0 < nc,
        nr * nc >= 0,
        inside(nr, nc, p),
    ensures
        floor_locs(nr, nc).finite(),
        floor_locs(nr, nc).contains(p),
{
    let sq = Seq::new((nr * nc) as nat, |i: int| Loc((i / nc) as i32, (i % nc) as i32));
    sq.lemma_cardinality_of_set();
    lemma_cell_index(nr, nc, p.0 as int, p.1 as int);
    lemma_cell_index_join(nc, p.0 as int, p.1 as int);
    let i = cell_index(nc, p.0 as int, p.1 as int);
    assert(sq[i] == p);
}

/// An unblocked move keeps every kind of box: a floor holds as many boxes
/// (and as many halves of each side of a wide box) afterwards as before.
/// The boxes that move all move one cell, and none is lost or made.
pub proof fn lemma_step_keeps_boxes(s: Seq<char>, nr: int, nc: int, d: Delta, start: Loc, c: char)
    requires
        warehouse(s, nr, nc),
        unit(d),
        inside(nr, nc, start),
        cell_at(s, nc, start) == '@',
        !blocked(s, nc, d, start),
        is_box(c),
    ensures
        cells_holding(after_move(s, nc, d, start), nr, nc, c).len() == cells_holding(s, nr, nc, c).len(),
        cells_holding(s, nr, nc, c).finite(),
{
    let t = after_move(s, nc, d, start);
    let sc = cells_holding(s, nr, nc, c);
    let tc = cells_holding(t, nr, nc, c);
    let mv = Set::new(|p: Loc| moved(s, nc, d, start, p));
    let stay = sc.difference(mv);
    let go = sc.intersect(mv);
    let f = |q: Loc| shifted(q, d);
    let arrive = go.map(f);
    assert(floor_locs(nr, nc).finite()) by {
        lemma_floor_locs(nr, nc, start);
    }
    assert(sc.subset_of(floor_locs(nr, nc))) by {
        assert forall|p: Loc| #[trigger] sc.contains(p) implies floor_locs(nr, nc).contains(p) by {
            lemma_floor_locs(nr, nc, p);
        }
    }
    vstd::set_lib::lemma_len_subset(sc, floor_locs(nr, nc));
    vstd::set_lib::lemma_len_subset(stay, sc);
    vstd::set_lib::lemma_len_subset(go, sc);
    assert(vstd::relations::injective_on(f, go)) by {
        assert forall|a: Loc, b: Loc| go.contains(a) && go.contains(b) && #[trigger] f(a) == #[trigger] f(b) implies a
            == b by {
            lemma_moved_inside(s, nr, nc, d, start, a);
            lemma_moved_inside(s, nr, nc, d, start, b);
            lemma_back(a, d);
            lemma_back(b, d);
        }
    }
    vstd::set_lib::lemma_map_size(go, arrive, f);
    assert(stay.disjoint(go));
    assert(stay + go =~= sc);
    vstd::set_lib::lemma_set_disjoint_lens(stay, go);
    // a box that moves into a cell pushes what was there, so no box that stays
    // sits where a moving box arrives
    assert(stay.disjoint(arrive)) by {
        assert forall|p: Loc| #[trigger] arrive.contains(p) implies !stay.contains(p) by {
            let q = choose|q: Loc| go.contains(q) && f(q) == p;
            if stay.contains(p) {
                assert(pushes(s, nc, d, q, p));
                lemma_moved_step(s, nc, d, start, q, p);
            }
        }
    }
    vstd::set_lib::lemma_set_disjoint_lens(stay, arrive);
    assert forall|p: Loc| #[trigger] tc.contains(p) <==> (stay + arrive).contains(p) by {
        if inside(nr, nc, p) {
            lemma_after_cell(s, nr, nc, d, start, p);
            lemma_back(p, d);
            let q = shifted(p, back(d));
            if moved(s, nc, d, start, q) {
                lemma_moved_inside(s, nr, nc, d, start, q);
                if tc.contains(p) {
                    assert(go.contains(q));
                    assert(f(q) == p);
                }
                if stay.contains(p) {
                    assert(pushes(s, nc, d, q, p));
                    lemma_moved_step(s, nc, d, start, q, p);
                }
                if arrive.contains(p) {
                    let q2 = choose|q2: Loc| go.contains(q2) && f(q2) == p;
                    lemma_moved_inside(s, nr, nc, d, start, q2);
                    lemma_back(q2, d);
                }
            } else {
                if arrive.contains(p) {
                    let q2 = choose|q2: Loc| go.contains(q2) && f(q2) == p;
                    lemma_moved_inside(s, nr, nc, d, start, q2);
                    lemma_back(q2, d);
                }
            }
        } else {
            if arrive.contains(p) {
                let q2 = choose|q2: Loc| go.contains(q2) && f(q2) == p;
                lemma_moved_inside(s, nr, nc, d, start, q2);
                lemma_back(q2, d);
                assert(!on_border(nr, nc, q2));
            }
        }
    }
    assert(tc =~= stay + arrive);
}

} // verus!
