//! Garden plots: the regions of equal letters, their areas, perimeters and
//! numbers of sides, and the fence prices made from them.

use std::collections::VecDeque;

use vstd::prelude::*;

use crate::grid::{
    can_advance, can_diff, can_shift, cell_index, diff, lemma_cell_index, shifted, spec_edge_between, spec_edge_next, Delta, Edge,
    Grid, Loc,
};

verus! {

/// A region: a set of locations, each listed once.
pub type Block = Vec<Loc>;

/// Two locations share a side.
pub open spec fn adjacent(a: Loc, b: Loc) -> bool {
    ||| (a.0 == b.0 && (a.1 - b.1 == 1 || b.1 - a.1 == 1))
    ||| (a.1 == b.1 && (a.0 - b.0 == 1 || b.0 - a.0 == 1))
}

/// `path` walks through `p` from side to side.
pub open spec fn is_path(p: Set<Loc>, path: Seq<Loc>) -> bool {
    &&& path.len() >= 1
    &&& forall|i: int| 0 <= i < path.len() ==> p.contains(#[trigger] path[i])
    &&& forall|i: int| 0 <= i < path.len() - 1 ==> adjacent(#[trigger] path[i], path[i + 1])
}

/// A walk through `p` leads from `a` to `b`.
pub open spec fn connected(p: Set<Loc>, a: Loc, b: Loc) -> bool {
    exists|path: Seq<Loc>| #[trigger] is_path(p, path) && path[0] == a && path.last() == b
}

/// `b` is a region of `p`: every part of it is reached from one root within
/// `p`, and no location of `p` beside it is left out.
pub open spec fn is_component(p: Set<Loc>, b: Set<Loc>) -> bool {
    &&& b.subset_of(p)
    &&& exists|root: Loc| #[trigger] b.contains(root) && forall|x: Loc| #[trigger] b.contains(x) ==> connected(p, root, x)
    &&& forall|x: Loc, y: Loc| b.contains(x) && p.contains(y) && #[trigger] adjacent(x, y) ==> b.contains(y)
}

/// `bs` splits `p` into its regions, each listed once with no location repeated.
pub open spec fn partitions(p: Set<Loc>, bs: Seq<Seq<Loc>>) -> bool {
    &&& forall|i: int|
        0 <= i < bs.len() ==> (#[trigger] bs[i]).no_duplicates() && bs[i].len() > 0 && is_component(
            p,
            bs[i].to_set(),
        )
    &&& forall|i: int, j: int|
        0 <= i < j < bs.len() ==> (#[trigger] bs[i]).to_set().disjoint(#[trigger] bs[j].to_set())
    &&& forall|x: Loc| p.contains(x) ==> exists|i: int| 0 <= i < bs.len() && #[trigger] bs[i].contains(x)
}

/// The neighbour of `l` in direction `k` (down, right, up, left).
pub open spec fn neighbour(l: Loc, k: int) -> Loc {
    if k == 0 {
        Loc((l.0 + 1) as i32, l.1)
    } else if k == 1 {
        Loc(l.0, (l.1 + 1) as i32)
    } else if k == 2 {
        Loc((l.0 - 1) as i32, l.1)
    } else {
        Loc(l.0, (l.1 - 1) as i32)
    }
}

/// Coordinates far enough from the `i32` limits to step in every direction.
pub open spec fn roomy(l: Loc) -> bool {
    i32::MIN < l.0 < i32::MAX && i32::MIN < l.1 < i32::MAX
}

proof fn lemma_neighbours(l: Loc, y: Loc)
    requires
        roomy(l),
    ensures
        adjacent(l, y) <==> exists|k: int| 0 <= k < 4 && y == #[trigger] neighbour(l, k),
{
    if adjacent(l, y) {
        if y.0 == l.0 + 1 {
            assert(y == neighbour(l, 0));
        } else if y.1 == l.1 + 1 {
            assert(y == neighbour(l, 1));
        } else if y.0 == l.0 - 1 {
            assert(y == neighbour(l, 2));
        } else {
            assert(y == neighbour(l, 3));
        }
    }
}

/// Whether `l` is among `v`.
fn contains_loc(v: &Vec<Loc>, l: Loc) -> (r: bool)
    ensures
        r == v@.contains(l),
{
    for i in 0..v.len()
        invariant
            forall|j: int| 0 <= j < i ==> v@[j] != l,
    {
        if v[i] == l {
            return true;
        }
    }
    false
}

/// Removes `l`, which occurs once, from `v`.
fn remove_loc(v: &mut Vec<Loc>, l: Loc)
    requires
        old(v)@.no_duplicates(),
        old(v)@.contains(l),
    ensures
        final(v)@.no_duplicates(),
        final(v)@.to_set() == old(v)@.to_set().remove(l),
        final(v)@.len() == old(v)@.len() - 1,
{
    let ghost before = v@;
    let mut i: usize = 0;
    while i < v.len()
        invariant
            v@ == before,
            before.contains(l),
            forall|j: int| 0 <= j < i ==> before[j] != l,
        ensures
            i < before.len(),
            before[i as int] == l,
        decreases before.len() - i,
    {
        if v[i] == l {
            break;
        }
        i = i + 1;
    }
    assert(i < before.len() && before[i as int] == l);
    v.remove(i);
    assert(v@ =~= before.take(i as int) + before.skip(i + 1));
    assert(v@.to_set() =~= before.to_set().remove(l)) by {
        assert forall|x: Loc| v@.to_set().contains(x) implies before.to_set().remove(l).contains(x) by {
            let j = choose|j: int| 0 <= j < v@.len() && v@[j] == x;
            if j < i {
                assert(before[j] == x);
            } else {
                assert(before[j + 1] == x);
            }
        }
        assert forall|x: Loc| before.to_set().remove(l).contains(x) implies v@.to_set().contains(x) by {
            let j = choose|j: int| 0 <= j < before.len() && before[j] == x;
            if j < i {
                assert(v@[j] == x);
            } else {
                assert(j != i);
                assert(v@[j - 1] == x);
            }
        }
    }
}

/// The first location in row-major order.
/// `a` comes no later than `b` in row-major order (the derived order of `Loc`).
pub open spec fn loc_le(a: Loc, b: Loc) -> bool {
    a.0 < b.0 || (a.0 == b.0 && a.1 <= b.1)
}

fn min_loc(v: &Vec<Loc>) -> (r: Loc)
    requires
        v@.len() > 0,
    ensures
        v@.contains(r),
        forall|i: int| 0 <= i < v@.len() ==> r.0 < (#[trigger] v@[i]).0 || (r.0 == v@[i].0 && r.1 <= v@[i].1),
{
    let mut best = v[0];
    for i in 1..v.len()
        invariant
            v@.len() > 0,
            v@.contains(best),
            forall|j: int| 0 <= j < i ==> best.0 < (#[trigger] v@[j]).0 || (best.0 == v@[j].0 && best.1 <= v@[j].1),
    {
        let l = v[i];
        if l.0 < best.0 || (l.0 == best.0 && l.1 < best.1) {
            best = l;
        }
    }
    best
}

proof fn lemma_connected_self(p: Set<Loc>, a: Loc)
    requires
        p.contains(a),
    ensures
        connected(p, a, a),
{
    let path = seq![a];
    assert(is_path(p, path));
}

proof fn lemma_connected_step(p: Set<Loc>, a: Loc, x: Loc, y: Loc)
    requires
        connected(p, a, x),
        p.contains(y),
        adjacent(x, y),
    ensures
        connected(p, a, y),
{
    let path = choose|path: Seq<Loc>| #[trigger] is_path(p, path) && path[0] == a && path.last() == x;
    let longer = path.push(y);
    assert forall|i: int| 0 <= i < longer.len() - 1 implies adjacent(#[trigger] longer[i], longer[i + 1]) by {
        if i < path.len() - 1 {
            assert(longer[i] == path[i] && longer[i + 1] == path[i + 1]);
        }
    }
    assert(is_path(p, longer));
}

/// The four directions a region grows in, in the order they are tried.
fn direction(k: usize) -> (r: Delta)
    requires
        k < 4,
    ensures
        r.0 == neighbour(Loc(0, 0), k as int).0,
        r.1 == neighbour(Loc(0, 0), k as int).1,
{
    if k == 0 {
        Delta::down()
    } else if k == 1 {
        Delta::right()
    } else if k == 2 {
        Delta::up()
    } else {
        Delta::left()
    }
}

/// What a flood fill from `start` keeps while it runs: `done` holds the regions
/// already found, `block` the part of the current one taken so far, `rem` what
/// is left, and `queue` every untaken neighbour of `block`.
spec fn fill_inv(
    pset: Set<Loc>,
    done: Set<Loc>,
    start: Loc,
    rem: Seq<Loc>,
    block: Seq<Loc>,
    queue: Seq<Loc>,
) -> bool {
    &&& !done.contains(start)
    &&& pset.contains(start)
    &&& rem.no_duplicates()
    &&& block.no_duplicates()
    &&& rem.to_set().subset_of(pset)
    &&& block.to_set().subset_of(pset)
    &&& done.disjoint(rem.to_set())
    &&& done.disjoint(block.to_set())
    &&& block.to_set().disjoint(rem.to_set())
    &&& forall|l: Loc|
        pset.contains(l) ==> (#[trigger] done.contains(l) || rem.to_set().contains(l) || block.to_set().contains(l))
    &&& done.subset_of(pset)
    &&& forall|x: Loc, y: Loc| done.contains(x) && pset.contains(y) && #[trigger] adjacent(x, y) ==> done.contains(y)
    &&& forall|x: Loc| #[trigger] block.contains(x) ==> connected(pset, start, x)
    &&& forall|j: int| 0 <= j < queue.len() ==> connected(pset, start, #[trigger] queue[j])
    &&& forall|x: Loc, y: Loc| block.contains(x) && rem.contains(y) && #[trigger] adjacent(x, y) ==> queue.contains(y)
    &&& rem.contains(start) ==> queue.contains(start)
    &&& block.len() > 0 || rem.contains(start)
}

/// Dropping a queued location that was already taken keeps the fill's invariant.
proof fn lemma_skip(
    pset: Set<Loc>,
    done: Set<Loc>,
    start: Loc,
    rem: Seq<Loc>,
    block: Seq<Loc>,
    loc: Loc,
    queue: Seq<Loc>,
)
    requires
        fill_inv(pset, done, start, rem, block, seq![loc] + queue),
        !rem.contains(loc),
    ensures
        fill_inv(pset, done, start, rem, block, queue),
{
    let full = seq![loc] + queue;
    assert forall|j: int| 0 <= j < queue.len() implies connected(pset, start, #[trigger] queue[j]) by {
        assert(full[j + 1] == queue[j]);
    }
    assert forall|x: Loc, y: Loc| block.contains(x) && rem.contains(y) && #[trigger] adjacent(x, y) implies queue.contains(y) by {
        let j = choose|j: int| 0 <= j < full.len() && full[j] == y;
        assert(j != 0);
        assert(queue[j - 1] == y);
    }
    if rem.contains(start) {
        let j = choose|j: int| 0 <= j < full.len() && full[j] == start;
        assert(j != 0);
        assert(queue[j - 1] == start);
    }
}

/// Takes `loc`, just popped from the queue and still untaken, into `block`, and
/// queues its untaken neighbours.
#[verifier::spinoff_prover]
#[verifier::rlimit(40)]
fn absorb(
    rem: &mut Vec<Loc>,
    block: &mut Block,
    queue: &mut VecDeque<Loc>,
    loc: Loc,
    Ghost(pset): Ghost<Set<Loc>>,
    Ghost(done): Ghost<Set<Loc>>,
    Ghost(start): Ghost<Loc>,
)
    requires
        forall|l: Loc| #[trigger] pset.contains(l) ==> roomy(l),
        fill_inv(pset, done, start, old(rem)@, old(block)@, seq![loc] + old(queue)@),
        old(rem)@.contains(loc),
    ensures
        fill_inv(pset, done, start, final(rem)@, final(block)@, final(queue)@),
        final(rem)@.len() == old(rem)@.len() - 1,
        final(block)@.len() == old(block)@.len() + 1,
        final(block)@ == old(block)@.push(loc),
        forall|y: Loc| #[trigger] final(rem)@.contains(y) ==> old(rem)@.contains(y),
{
    let ghost block0 = block@;
    let ghost remv0 = rem@;
    let ghost queue0 = queue@;
    let ghost full = seq![loc] + queue0;
    proof {
        assert(full[0] == loc);
        assert(connected(pset, start, loc));
        assert(remv0.to_set().contains(loc));
        assert(pset.contains(loc));
    }
    block.push(loc);
    remove_loc(rem, loc);
    assert forall|y: Loc| #[trigger] rem@.contains(y) implies remv0.contains(y) by {
        assert(rem@.to_set().contains(y));
        assert(remv0.to_set().contains(y));
    }
    proof {
        assert(block@ == block0.push(loc));
        assert(!block0.to_set().contains(loc));
        assert(!block0.contains(loc));
        assert forall|x: Loc| block@.to_set().contains(x) <==> block0.to_set().insert(loc).contains(x) by {
            if block@.to_set().contains(x) {
                let j = choose|j: int| 0 <= j < block@.len() && block@[j] == x;
                if j < block0.len() {
                    assert(block0[j] == x);
                }
            }
            if block0.to_set().contains(x) {
                let j = choose|j: int| 0 <= j < block0.len() && block0[j] == x;
                assert(block@[j] == x);
            }
            if x == loc {
                assert(block@[block0.len() as int] == loc);
            }
        }
        assert(block@.to_set() =~= block0.to_set().insert(loc));
        assert forall|a: int, b: int| 0 <= a < b < block@.len() implies block@[a] != block@[b] by {
            if b == block@.len() - 1 {
                assert(block0.contains(block@[a]));
            }
        }
        assert forall|j: int| 0 <= j < queue0.len() implies connected(pset, start, #[trigger] queue0[j]) by {
            assert(full[j + 1] == queue0[j]);
        }
    }
    let mut k: usize = 0;
    while k < 4
        invariant
            k <= 4,
            forall|l: Loc| #[trigger] pset.contains(l) ==> roomy(l),
            pset.contains(loc),
            rem@.to_set().subset_of(pset),
            connected(pset, start, loc),
            forall|j: int| 0 <= j < queue0.len() ==> queue@[j] == queue0[j],
            queue@.len() >= queue0.len(),
            forall|j: int| 0 <= j < queue@.len() ==> connected(pset, start, #[trigger] queue@[j]),
            forall|m: int|
                0 <= m < k && rem@.contains(#[trigger] neighbour(loc, m)) ==> queue@.contains(neighbour(loc, m)),
        decreases 4 - k,
    {
        let d = direction(k);
        let maybe = loc + d;
        assert(maybe == neighbour(loc, k as int));
        if contains_loc(rem, maybe) {
            let ghost q1 = queue@;
            assert(rem@.to_set().contains(maybe));
            queue.push_back(maybe);
            proof {
                assert(adjacent(loc, maybe));
                lemma_connected_step(pset, start, loc, maybe);
                assert forall|m: int| 0 <= m < k + 1 && rem@.contains(#[trigger] neighbour(loc, m)) implies queue@.contains(
                    neighbour(loc, m),
                ) by {
                    if m < k {
                        let j = choose|j: int| 0 <= j < q1.len() && q1[j] == neighbour(loc, m);
                        assert(queue@[j] == neighbour(loc, m));
                    } else {
                        assert(queue@[queue@.len() - 1] == maybe);
                    }
                }
            }
        }
        k = k + 1;
    }
    proof {
        assert forall|x: Loc, y: Loc| block@.contains(x) && rem@.contains(y) && #[trigger] adjacent(x, y) implies queue@.contains(y) by {
            assert(rem@.to_set().contains(y));
            if x == loc {
                lemma_neighbours(loc, y);
                let m = choose|m: int| 0 <= m < 4 && y == #[trigger] neighbour(loc, m);
            } else {
                assert(block0.contains(x));
                assert(remv0.to_set().contains(y));
                assert(remv0.contains(y));
                assert(full.contains(y));
                let j = choose|j: int| 0 <= j < full.len() && full[j] == y;
                assert(j != 0);
                assert(queue@[j - 1] == y);
            }
        }
        assert forall|x: Loc| #[trigger] block@.contains(x) implies connected(pset, start, x) by {
            if x != loc {
                assert(block0.contains(x));
            }
        }
        if rem@.contains(start) {
            assert(rem@.to_set().contains(start));
            assert(start != loc);
            assert(remv0.contains(start));
            let j = choose|j: int| 0 <= j < full.len() && full[j] == start;
            assert(j != 0);
            assert(queue@[j - 1] == start);
        }
    }
}

/// Flood-fills `points` into its regions, each started from its first location
/// in row-major order.
pub fn get_blocks(points: &Vec<Loc>) -> (r: Vec<Block>)
    requires
        points@.no_duplicates(),
        forall|i: int| 0 <= i < points@.len() ==> roomy(#[trigger] points@[i]),
    ensures
        partitions(points@.to_set(), r@.map_values(|b: Block| b@)),
        forall|i: int| 0 <= i < r@.len() ==> (#[trigger] r@[i])@.len() <= points@.len(),
        forall|i: int, k: int| 0 <= i < r@.len() && 0 <= k < r@[i]@.len() ==> loc_le(r@[i]@[0], #[trigger] r@[i]@[k]),
        forall|i: int, j: int| 0 <= i < j < r@.len() ==> (#[trigger] r@[i])@[0] != (#[trigger] r@[j])@[0] && loc_le(
            r@[i]@[0],
            r@[j]@[0],
        ),
{
    let ghost pset = points@.to_set();
    let mut rem = points.clone();
    assert(rem@ =~= points@);
    let mut blocks: Vec<Block> = Vec::new();
    let ghost mut done: Set<Loc> = Set::empty();
    proof {
        assert forall|l: Loc| #[trigger] pset.contains(l) implies roomy(l) by {
            let j = choose|j: int| 0 <= j < points@.len() && points@[j] == l;
        }
    }
    // do as many flood fills as we need to
    while rem.len() > 0
        invariant
            forall|l: Loc| #[trigger] pset.contains(l) ==> roomy(l),
            rem@.no_duplicates(),
            rem@.to_set().subset_of(pset),
            done.disjoint(rem@.to_set()),
            forall|l: Loc| pset.contains(l) ==> (#[trigger] done.contains(l) || rem@.to_set().contains(l)),
            done.subset_of(pset),
            forall|x: Loc, y: Loc| done.contains(x) && pset.contains(y) && #[trigger] adjacent(x, y) ==> done.contains(y),
            forall|i: int|
                0 <= i < blocks@.len() ==> (#[trigger] blocks@[i])@.no_duplicates() && blocks@[i]@.len() > 0
                    && is_component(pset, blocks@[i]@.to_set()) && blocks@[i]@.to_set().subset_of(done),
            forall|i: int, j: int|
                0 <= i < j < blocks@.len() ==> (#[trigger] blocks@[i])@.to_set().disjoint(#[trigger] blocks@[j]@.to_set()),
            forall|x: Loc| done.contains(x) ==> exists|i: int| 0 <= i < blocks@.len() && #[trigger] blocks@[i]@.contains(x),
            rem@.len() <= points@.len(),
            forall|i: int| 0 <= i < blocks@.len() ==> (#[trigger] blocks@[i])@.len() <= points@.len(),
            forall|i: int, k: int|
                0 <= i < blocks@.len() && 0 <= k < blocks@[i]@.len() ==> loc_le(blocks@[i]@[0], #[trigger] blocks@[i]@[k]),
            forall|i: int, y: Loc|
                0 <= i < blocks@.len() && #[trigger] rem@.contains(y) ==> (#[trigger] blocks@[i])@[0] != y && loc_le(
                    blocks@[i]@[0],
                    y,
                ),
            forall|i: int, j: int| 0 <= i < j < blocks@.len() ==> (#[trigger] blocks@[i])@[0] != (#[trigger] blocks@[j])@[0]
                && loc_le(blocks@[i]@[0], blocks@[j]@[0]),
        decreases rem@.len(),
    {
        // arbitrarily start at upper left
        let start = min_loc(&rem);
        let mut queue: VecDeque<Loc> = VecDeque::new();
        queue.push_back(start);
        let mut block: Block = Vec::new();
        let ghost len0 = rem@.len();
        let ghost rem0 = rem@;
        proof {
            assert(rem@.contains(start));
            assert(rem@.to_set().contains(start));
            lemma_connected_self(pset, start);
            assert(queue@[0] == start);
            assert(block@.to_set() =~= Set::<Loc>::empty());
        }
        while queue.len() > 0
            invariant
                forall|l: Loc| #[trigger] pset.contains(l) ==> roomy(l),
                fill_inv(pset, done, start, rem@, block@, queue@),
                rem@.len() + block@.len() == len0,
                rem0.contains(start),
                forall|y: Loc| #[trigger] rem@.contains(y) ==> rem0.contains(y),
                forall|k: int| 0 <= k < block@.len() ==> rem0.contains(#[trigger] block@[k]),
                block@.len() > 0 ==> block@[0] == start,
                block@.len() == 0 ==> queue@.len() > 0 && queue@[0] == start,
            decreases rem@.len(), queue@.len(),
        {
            let ghost before = queue@;
            let ghost block_before = block@;
            let ghost rem_before = rem@;
            let loc = queue.pop_front().unwrap();
            assert(before =~= seq![loc] + queue@);
            if contains_loc(&rem, loc) {
                absorb(&mut rem, &mut block, &mut queue, loc, Ghost(pset), Ghost(done), Ghost(start));
                proof {
                    assert forall|k: int| 0 <= k < block@.len() implies rem0.contains(#[trigger] block@[k]) by {
                        if k < block_before.len() {
                            assert(block@[k] == block_before[k]);
                        }
                    }
                    if block_before.len() > 0 {
                        assert(block@[0] == block_before[0]);
                    }
                }
            } else {
                proof {
                    if block@.len() == 0 {
                        assert(rem@.contains(start));
                    }
                    lemma_skip(pset, done, start, rem@, block@, loc, queue@);
                }
            }
        }
        let ghost b = block@.to_set();
        proof {
            assert(!rem@.contains(start));
            assert(block@.contains(start));
            assert forall|x: Loc, y: Loc| b.contains(x) && pset.contains(y) && #[trigger] adjacent(x, y)
                implies b.contains(y) by {
                assert(block@.contains(x));
                if done.contains(y) {
                    assert(adjacent(y, x));
                    assert(done.contains(x));
                }
                if rem@.to_set().contains(y) {
                    assert(rem@.contains(y));
                }
            }
            assert(b.contains(start));
            assert(is_component(pset, b));
        }
        let ghost blocks0 = blocks@;
        let ghost done0 = done;
        let ghost nb = block@;
        proof {
            assert(nb.len() > 0);
            assert forall|k: int| 0 <= k < nb.len() implies loc_le(nb[0], #[trigger] nb[k]) by {
                assert(rem0.contains(nb[k]));
            }
            assert forall|y: Loc| #[trigger] rem@.contains(y) implies nb[0] != y && loc_le(nb[0], y) by {
                assert(rem0.contains(y));
            }
        }
        blocks.push(block);
        proof {
            assert(blocks@[blocks0.len() as int]@ == nb);
            assert forall|i: int, k: int|
                0 <= i < blocks@.len() && 0 <= k < blocks@[i]@.len() implies loc_le(blocks@[i]@[0], #[trigger] blocks@[i]@[k]) by {
                if i < blocks0.len() {
                    assert(blocks@[i] == blocks0[i]);
                }
            }
            assert forall|i: int, y: Loc|
                0 <= i < blocks@.len() && #[trigger] rem@.contains(y) implies (#[trigger] blocks@[i])@[0] != y && loc_le(
                    blocks@[i]@[0],
                    y,
                ) by {
                if i < blocks0.len() {
                    assert(blocks@[i] == blocks0[i]);
                    assert(rem0.contains(y));
                }
            }
            assert forall|i: int, j: int| 0 <= i < j < blocks@.len() implies (#[trigger] blocks@[i])@[0] != (
            #[trigger] blocks@[j])@[0] && loc_le(blocks@[i]@[0], blocks@[j]@[0]) by {
                assert(blocks@[i] == blocks0[i]);
                if j < blocks0.len() {
                    assert(blocks@[j] == blocks0[j]);
                } else {
                    assert(rem0.contains(start));
                }
            }
            done = done.union(b);
            assert(blocks@[blocks0.len() as int]@.to_set() == b);
            assert forall|i: int| 0 <= i < blocks@.len() implies (#[trigger] blocks@[i])@.no_duplicates()
                && blocks@[i]@.len() > 0 && is_component(pset, blocks@[i]@.to_set())
                && blocks@[i]@.to_set().subset_of(done) by {
                if i < blocks0.len() {
                    assert(blocks@[i] == blocks0[i]);
                }
            }
            assert forall|i: int| 0 <= i < blocks@.len() implies (#[trigger] blocks@[i])@.len() <= points@.len() by {
                if i < blocks0.len() {
                    assert(blocks@[i] == blocks0[i]);
                }
            }
            assert forall|i: int, j: int| 0 <= i < j < blocks@.len() implies (#[trigger] blocks@[i])@.to_set().disjoint(
                #[trigger] blocks@[j]@.to_set(),
            ) by {
                assert(blocks@[i] == blocks0[i]);
                if j < blocks0.len() {
                    assert(blocks@[j] == blocks0[j]);
                } else {
                    assert(blocks0[i]@.to_set().subset_of(done0));
                }
            }
            assert forall|x: Loc| done.contains(x) implies exists|i: int| 0 <= i < blocks@.len() && #[trigger] blocks@[i]@.contains(x) by {
                if done0.contains(x) {
                    let i = choose|i: int| 0 <= i < blocks0.len() && #[trigger] blocks0[i]@.contains(x);
                    assert(blocks@[i] == blocks0[i]);
                } else {
                    assert(b.contains(x));
                    assert(blocks@[blocks0.len() as int]@.contains(x));
                }
            }
        }
    }
    proof {
        let bs = blocks@.map_values(|b: Block| b@);
        assert(rem@.to_set() =~= Set::<Loc>::empty());
        assert forall|x: Loc| pset.contains(x) implies exists|i: int| 0 <= i < bs.len() && #[trigger] bs[i].contains(x) by {
            assert(!rem@.to_set().contains(x));
            assert(done.contains(x));
            let i = choose|i: int| 0 <= i < blocks@.len() && #[trigger] blocks@[i]@.contains(x);
            assert(bs[i] == blocks@[i]@);
        }
    }
    blocks
}

/// The four edges of the cell `l`: left, right, top and bottom.
pub open spec fn cell_edges(l: Loc) -> Set<Edge> {
    set![
        Edge::Vertical(l),
        Edge::Vertical(shifted(l, Delta::right())),
        Edge::Horizontal(l),
        Edge::Horizontal(shifted(l, Delta::down())),
    ]
}

/// Every edge of a cell of `b`.
pub open spec fn all_edges(b: Set<Loc>) -> Set<Edge> {
    Set::new(|e: Edge| exists|l: Loc| b.contains(l) && #[trigger] cell_edges(l).contains(e))
}

/// Every edge shared by two cells of `b`.
pub open spec fn internal_edges(b: Set<Loc>) -> Set<Edge> {
    Set::new(
        |e: Edge|
            exists|x: Loc, y: Loc|
                b.contains(x) && b.contains(y) && #[trigger] spec_edge_between(x, y, diff(y, x)) == Some(e),
    )
}

/// The fence around `b`: its edges that no two of its cells share.
pub open spec fn boundary(b: Set<Loc>) -> Set<Edge> {
    all_edges(b).difference(internal_edges(b))
}

/// Any two locations of `s` differ by an `i32` offset.
pub open spec fn diffs_fit(s: Seq<Loc>) -> bool {
    forall|i: int, j: int| 0 <= i < s.len() && 0 <= j < s.len() ==> can_diff(#[trigger] s[i], #[trigger] s[j])
}

/// Whether `e` is among `v`.
fn contains_edge(v: &Vec<Edge>, e: Edge) -> (r: bool)
    ensures
        r == v@.contains(e),
{
    for i in 0..v.len()
        invariant
            forall|j: int| 0 <= j < i ==> v@[j] != e,
    {
        if v[i] == e {
            return true;
        }
    }
    false
}

/// Adds `e` to `v` unless it is there already.
fn insert_edge(v: &mut Vec<Edge>, e: Edge)
    requires
        old(v)@.no_duplicates(),
    ensures
        final(v)@.no_duplicates(),
        final(v)@.to_set() == old(v)@.to_set().insert(e),
        final(v)@.len() <= old(v)@.len() + 1,
{
    if !contains_edge(v, e) {
        let ghost before = v@;
        v.push(e);
        proof {
            assert forall|a: int, b: int| 0 <= a < b < v@.len() implies v@[a] != v@[b] by {
                if b == before.len() {
                    assert(before.contains(v@[a]));
                }
            }
            assert forall|x: Edge| v@.to_set().contains(x) <==> before.to_set().insert(e).contains(x) by {
                if v@.to_set().contains(x) {
                    let j = choose|j: int| 0 <= j < v@.len() && v@[j] == x;
                    if j < before.len() {
                        assert(before[j] == x);
                    }
                }
                if before.to_set().contains(x) {
                    let j = choose|j: int| 0 <= j < before.len() && before[j] == x;
                    assert(v@[j] == x);
                }
                if x == e {
                    assert(v@[before.len() as int] == e);
                }
            }
            assert(v@.to_set() =~= before.to_set().insert(e));
        }
    } else {
        assert(v@.to_set() =~= v@.to_set().insert(e));
    }
}

/// The number of plots in a region.
pub fn get_area(block: &Block) -> (r: u32)
    requires
        block@.len() <= u32::MAX,
    ensures
        r == block@.len(),
{
    block.len() as u32
}

/// Every edge of every plot of the region, each once.
pub fn get_all_edges(block: &Block) -> (r: Vec<Edge>)
    requires
        forall|i: int| 0 <= i < block@.len() ==> roomy(#[trigger] block@[i]),
    ensures
        r@.no_duplicates(),
        r@.to_set() == all_edges(block@.to_set()),
        r@.len() <= 4 * block@.len(),
{
    let mut edges: Vec<Edge> = Vec::new();
    for i in 0..block.len()
        invariant
            forall|i: int| 0 <= i < block@.len() ==> roomy(#[trigger] block@[i]),
            edges@.no_duplicates(),
            edges@.to_set() == all_edges(block@.take(i as int).to_set()),
            edges@.len() <= 4 * i,
    {
        let loc0 = block[i];
        assert(roomy(block@[i as int]));
        let loc_right = loc0 + Delta::right();
        let loc_down = loc0 + Delta::down();
        let ghost before = edges@.to_set();
        insert_edge(&mut edges, Edge::Vertical(loc0));
        insert_edge(&mut edges, Edge::Vertical(loc_right));
        insert_edge(&mut edges, Edge::Horizontal(loc0));
        insert_edge(&mut edges, Edge::Horizontal(loc_down));
        proof {
            let prev = block@.take(i as int).to_set();
            let next = block@.take(i + 1).to_set();
            assert(next =~= prev.insert(loc0)) by {
                assert(block@.take(i + 1) =~= block@.take(i as int).push(loc0));
                block@.take(i as int).lemma_push_to_set_commute(loc0);
            }
            assert(edges@.to_set() =~= before.union(cell_edges(loc0)));
            assert forall|e: Edge| all_edges(next).contains(e) <==> before.union(cell_edges(loc0)).contains(e) by {
                if all_edges(next).contains(e) {
                    let l = choose|l: Loc| next.contains(l) && #[trigger] cell_edges(l).contains(e);
                    if l != loc0 {
                        assert(prev.contains(l));
                        assert(all_edges(prev).contains(e));
                    }
                }
                if before.contains(e) {
                    let l = choose|l: Loc| prev.contains(l) && #[trigger] cell_edges(l).contains(e);
                    assert(next.contains(l));
                }
                if cell_edges(loc0).contains(e) {
                    assert(next.contains(loc0));
                }
            }
            assert(all_edges(next) =~= before.union(cell_edges(loc0)));
        }
    }
    assert(block@.take(block@.len() as int) =~= block@);
    edges
}

/// The edges shared by the pairs `(s[a], s[b])` with `a <= b` that come before
/// `(i, j)`: every pair whose first index is below `i`, and those of `i` itself
/// whose second index is below `j`.
spec fn pair_edges(s: Seq<Loc>, i: int, j: int) -> Set<Edge> {
    Set::new(
        |e: Edge|
            exists|a: int, b: int|
                ((0 <= a < i && a <= b < s.len()) || (a == i && i <= b < j)) && #[trigger] spec_edge_between(
                    s[a],
                    s[b],
                    diff(s[b], s[a]),
                ) == Some(e),
    )
}

/// Two cells share the same edge whichever of them is taken first.
proof fn lemma_edge_symmetric(x: Loc, y: Loc)
    requires
        can_diff(y, x),
        can_diff(x, y),
    ensures
        spec_edge_between(x, y, diff(y, x)) == spec_edge_between(y, x, diff(x, y)),
{
}

/// Every edge shared by two plots of the region, each once.
pub fn get_internal_edges(block: &Block) -> (r: Vec<Edge>)
    requires
        diffs_fit(block@),
    ensures
        r@.no_duplicates(),
        r@.to_set() == internal_edges(block@.to_set()),
{
    let n = block.len();
    let mut edges: Vec<Edge> = Vec::new();
    proof {
        assert(edges@.to_set() =~= pair_edges(block@, 0, 0));
    }
    for i in 0..n
        invariant
            n == block@.len(),
            diffs_fit(block@),
            edges@.no_duplicates(),
            edges@.to_set() == pair_edges(block@, i as int, i as int),
    {
        for j in i..n
            invariant
                n == block@.len(),
                i < n,
                diffs_fit(block@),
                edges@.no_duplicates(),
                edges@.to_set() == pair_edges(block@, i as int, j as int),
        {
            let ghost before = edges@.to_set();
            let a = block[i];
            let b = block[j];
            assert(can_diff(block@[j as int], block@[i as int]));
            let found = Edge::between(a, b);
            if let Ok(edge) = found {
                insert_edge(&mut edges, edge);
                proof {
                    assert(spec_edge_between(a, b, diff(b, a)) == Some(edge));
                    assert forall|e: Edge| pair_edges(block@, i as int, j + 1).contains(e) <==> before.insert(edge).contains(e) by {
                        if pair_edges(block@, i as int, j + 1).contains(e) {
                            let (x, y) = choose|x: int, y: int|
                                ((0 <= x < i && x <= y < block@.len()) || (x == i && i <= y < j + 1)) && #[trigger] spec_edge_between(
                                    block@[x],
                                    block@[y],
                                    diff(block@[y], block@[x]),
                                ) == Some(e);
                            if !(x == i && y == j) {
                                assert(pair_edges(block@, i as int, j as int).contains(e));
                            }
                        }
                        if before.contains(e) {
                            let (x, y) = choose|x: int, y: int|
                                ((0 <= x < i && x <= y < block@.len()) || (x == i && i <= y < j)) && #[trigger] spec_edge_between(
                                    block@[x],
                                    block@[y],
                                    diff(block@[y], block@[x]),
                                ) == Some(e);
                            assert(spec_edge_between(block@[x], block@[y], diff(block@[y], block@[x])) == Some(e));
                        }
                        if e == edge {
                            assert(spec_edge_between(block@[i as int], block@[j as int], diff(block@[j as int], block@[i as int])) == Some(e));
                        }
                    }
                    assert(edges@.to_set() =~= pair_edges(block@, i as int, j + 1));
                }
            } else {
                proof {
                    assert(spec_edge_between(a, b, diff(b, a)) is None);
                    assert forall|e: Edge| pair_edges(block@, i as int, j + 1).contains(e) <==> before.contains(e) by {
                        if pair_edges(block@, i as int, j + 1).contains(e) {
                            let (x, y) = choose|x: int, y: int|
                                ((0 <= x < i && x <= y < block@.len()) || (x == i && i <= y < j + 1)) && #[trigger] spec_edge_between(
                                    block@[x],
                                    block@[y],
                                    diff(block@[y], block@[x]),
                                ) == Some(e);
                            assert(pair_edges(block@, i as int, j as int).contains(e));
                        }
                        if before.contains(e) {
                            let (x, y) = choose|x: int, y: int|
                                ((0 <= x < i && x <= y < block@.len()) || (x == i && i <= y < j)) && #[trigger] spec_edge_between(
                                    block@[x],
                                    block@[y],
                                    diff(block@[y], block@[x]),
                                ) == Some(e);
                            assert(spec_edge_between(block@[x], block@[y], diff(block@[y], block@[x])) == Some(e));
                        }
                    }
                    assert(edges@.to_set() =~= pair_edges(block@, i as int, j + 1));
                }
            }
        }
        proof {
            assert forall|e: Edge| pair_edges(block@, i as int, n as int).contains(e) <==> pair_edges(block@, i + 1, i + 1).contains(e) by {
                if pair_edges(block@, i as int, n as int).contains(e) {
                    let (x, y) = choose|x: int, y: int|
                        ((0 <= x < i && x <= y < block@.len()) || (x == i && i <= y < n)) && #[trigger] spec_edge_between(
                            block@[x],
                            block@[y],
                            diff(block@[y], block@[x]),
                        ) == Some(e);
                    assert(spec_edge_between(block@[x], block@[y], diff(block@[y], block@[x])) == Some(e));
                }
                if pair_edges(block@, i + 1, i + 1).contains(e) {
                    let (x, y) = choose|x: int, y: int|
                        ((0 <= x < i + 1 && x <= y < block@.len()) || (x == i + 1 && i + 1 <= y < i + 1)) && #[trigger] spec_edge_between(
                            block@[x],
                            block@[y],
                            diff(block@[y], block@[x]),
                        ) == Some(e);
                    assert(spec_edge_between(block@[x], block@[y], diff(block@[y], block@[x])) == Some(e));
                }
            }
            assert(edges@.to_set() =~= pair_edges(block@, i + 1, i + 1));
        }
    }
    proof {
        let bs = block@.to_set();
        assert forall|e: Edge| pair_edges(block@, n as int, n as int).contains(e) <==> internal_edges(bs).contains(e) by {
            if pair_edges(block@, n as int, n as int).contains(e) {
                let (x, y) = choose|x: int, y: int|
                    ((0 <= x < n && x <= y < block@.len()) || (x == n && n <= y < n)) && #[trigger] spec_edge_between(
                        block@[x],
                        block@[y],
                        diff(block@[y], block@[x]),
                    ) == Some(e);
                assert(bs.contains(block@[x]) && bs.contains(block@[y]));
            }
            if internal_edges(bs).contains(e) {
                let (x, y) = choose|x: Loc, y: Loc|
                    bs.contains(x) && bs.contains(y) && #[trigger] spec_edge_between(x, y, diff(y, x)) == Some(e);
                let a = choose|a: int| 0 <= a < block@.len() && block@[a] == x;
                let b = choose|b: int| 0 <= b < block@.len() && block@[b] == y;
                assert(can_diff(block@[a], block@[b]) && can_diff(block@[b], block@[a]));
                if a <= b {
                    assert(spec_edge_between(block@[a], block@[b], diff(block@[b], block@[a])) == Some(e));
                } else {
                    lemma_edge_symmetric(x, y);
                    assert(spec_edge_between(block@[b], block@[a], diff(block@[a], block@[b])) == Some(e));
                }
            }
        }
        assert(edges@.to_set() =~= internal_edges(bs));
    }
    edges
}

/// The region's fence: its edges that no two of its plots share, each once.
pub fn get_boundary(block: &Block) -> (r: Vec<Edge>)
    requires
        forall|i: int| 0 <= i < block@.len() ==> roomy(#[trigger] block@[i]),
        diffs_fit(block@),
    ensures
        r@.no_duplicates(),
        r@.to_set() == boundary(block@.to_set()),
        r@.len() <= 4 * block@.len(),
{
    let all = get_all_edges(block);
    let internal = get_internal_edges(block);
    let mut out: Vec<Edge> = Vec::new();
    for i in 0..all.len()
        invariant
            all@.no_duplicates(),
            all@.len() <= 4 * block@.len(),
            internal@.to_set() == internal_edges(block@.to_set()),
            out@.no_duplicates(),
            out@.len() <= i,
            forall|e: Edge| #[trigger] out@.contains(e) <==> (all@.take(i as int).contains(e) && !internal@.contains(e)),
    {
        let e = all[i];
        let ghost before = out@;
        if !contains_edge(&internal, e) {
            out.push(e);
            proof {
                assert forall|a: int, b: int| 0 <= a < b < out@.len() implies out@[a] != out@[b] by {
                    if b == before.len() {
                        assert(before.contains(out@[a]));
                        let k = choose|k: int| 0 <= k < i && all@.take(i as int)[k] == out@[a];
                        assert(all@[k] == out@[a]);
                        assert(all@[k] != all@[i as int]);
                    }
                }
            }
        }
        proof {
            assert forall|x: Edge| #[trigger] out@.contains(x) <==> (all@.take(i + 1).contains(x) && !internal@.contains(x)) by {
                if out@.contains(x) && x != e {
                    let k = choose|k: int| 0 <= k < out@.len() && out@[k] == x;
                    assert(before[k] == x);
                    assert(before.contains(x));
                    let m = choose|m: int| 0 <= m < i && all@.take(i as int)[m] == x;
                    assert(all@.take(i + 1)[m] == x);
                }
                if out@.contains(x) && x == e {
                    assert(all@.take(i + 1)[i as int] == x);
                }
                if all@.take(i + 1).contains(x) && !internal@.contains(x) {
                    let t1 = all@.take(i + 1);
                    let m = choose|m: int| 0 <= m < t1.len() && t1[m] == x;
                    if m < i {
                        assert(all@.take(i as int)[m] == x);
                        assert(before.contains(x));
                        let k = choose|k: int| 0 <= k < before.len() && before[k] == x;
                        assert(out@[k] == x);
                    } else {
                        assert(out@[out@.len() - 1] == e);
                    }
                }
            }
        }
    }
    proof {
        assert(all@.take(all@.len() as int) =~= all@);
        assert(out@.to_set() =~= boundary(block@.to_set()));
    }
    out
}

/// The length of the region's fence.
pub fn get_perimeter(block: &Block) -> (r: u32)
    requires
        forall|i: int| 0 <= i < block@.len() ==> roomy(#[trigger] block@[i]),
        diffs_fit(block@),
    ensures
        r == boundary(block@.to_set()).len() as u32,
{
    let b = get_boundary(block);
    proof {
        b@.unique_seq_to_set();
    }
    b.len() as u32
}

/// Coordinates of the edge's cell, loose enough to step along or across it.
pub open spec fn edge_room(e: Edge) -> bool {
    match e {
        Edge::Horizontal(l) => i32::MIN < l.0 && i32::MIN < l.1 < i32::MAX,
        Edge::Vertical(l) => i32::MIN < l.0 < i32::MAX && i32::MIN < l.1,
    }
}

/// The two edges that meet `e` and the next edge along its line where they touch.
pub open spec fn crossing(e: Edge) -> (Edge, Edge) {
    match e {
        Edge::Horizontal(l) => (
            Edge::Vertical(shifted(l, Delta::right())),
            Edge::Vertical(shifted(shifted(l, Delta::right()), Delta::up())),
        ),
        Edge::Vertical(l) => (
            Edge::Horizontal(shifted(l, Delta::down())),
            Edge::Horizontal(shifted(shifted(l, Delta::down()), Delta::left())),
        ),
    }
}

/// `e` and the next edge along its line lie on one side of the fence `bd`: the
/// next edge is in the fence, and no pair of fence edges crosses between them.
pub open spec fn continues(bd: Set<Edge>, e: Edge) -> bool {
    bd.contains(spec_edge_next(e)) && !(bd.contains(crossing(e).0) && bd.contains(crossing(e).1))
}

/// The number of straight sides of the fence around `b`: its edges, less those
/// that carry on a side begun before them.
pub open spec fn num_sides(b: Set<Loc>) -> int {
    boundary(b).len() - boundary(b).filter(|e: Edge| continues(boundary(b), e)).len()
}

/// Edges of roomy cells leave room to step along and across them.
proof fn lemma_edge_room(b: Set<Loc>, e: Edge)
    requires
        forall|l: Loc| #[trigger] b.contains(l) ==> roomy(l),
        all_edges(b).contains(e),
    ensures
        edge_room(e),
        can_advance(e),
{
    let l = choose|l: Loc| b.contains(l) && #[trigger] cell_edges(l).contains(e);
    assert(roomy(l));
}

/// The two edges that cross the line of `e` just past it.
fn crossing_of(e: Edge) -> (r: (Edge, Edge))
    requires
        edge_room(e),
    ensures
        r == crossing(e),
{
    match e {
        Edge::Horizontal(loc) => {
            let right = loc + Delta::right();
            (Edge::Vertical(right), Edge::Vertical(right + Delta::up()))
        },
        Edge::Vertical(loc) => {
            let down = loc + Delta::down();
            (Edge::Horizontal(down), Edge::Horizontal(down + Delta::left()))
        },
    }
}

/// The number of straight sides of the region's fence.
pub fn get_num_sides(block: &Block) -> (r: u32)
    requires
        forall|i: int| 0 <= i < block@.len() ==> roomy(#[trigger] block@[i]),
        diffs_fit(block@),
        boundary(block@.to_set()).len() <= u32::MAX,
    ensures
        r == num_sides(block@.to_set()),
{
    let ghost bset = boundary(block@.to_set());
    let ghost pred = |e: Edge| continues(bset, e);
    let fence = get_boundary(block);
    proof {
        fence@.unique_seq_to_set();
        assert forall|l: Loc| #[trigger] block@.to_set().contains(l) implies roomy(l) by {
            let j = choose|j: int| 0 <= j < block@.len() && block@[j] == l;
        }
    }
    let len_boundary = fence.len() as u32;
    let mut num_shared: u32 = 0;
    let ghost mut shared: Seq<Edge> = Seq::empty();
    for i in 0..fence.len()
        invariant
            fence@.no_duplicates(),
            fence@.to_set() == bset,
            bset == boundary(block@.to_set()),
            fence@.len() <= u32::MAX,
            forall|l: Loc| #[trigger] block@.to_set().contains(l) ==> roomy(l),
            num_shared == shared.len(),
            num_shared <= i,
            shared.no_duplicates(),
            forall|e: Edge| #[trigger] shared.contains(e) <==> (fence@.take(i as int).contains(e) && continues(bset, e)),
    {
        let edge = fence[i];
        proof {
            assert(bset.contains(edge));
            lemma_edge_room(block@.to_set(), edge);
        }
        let ghost before = shared;
        let next = edge.next();
        let mut counted = false;
        if contains_edge(&fence, next) {
            // otherwise, check for perpendicular bisector
            let (test0, test1) = crossing_of(edge);
            if !(contains_edge(&fence, test0) && contains_edge(&fence, test1)) {
                num_shared += 1;
                counted = true;
                proof {
                    if before.contains(edge) {
                        let m = choose|m: int| 0 <= m < i && fence@.take(i as int)[m] == edge;
                        assert(fence@[m] == fence@[i as int]);
                    }
                    shared = shared.push(edge);
                    assert forall|a: int, b: int| 0 <= a < b < shared.len() implies shared[a] != shared[b] by {
                        if b == before.len() {
                            assert(before.contains(shared[a]));
                        }
                    }
                }
            }
        }
        proof {
            assert(counted == continues(bset, edge));
            assert forall|x: Edge| #[trigger] shared.contains(x) <==> (fence@.take(i + 1).contains(x) && continues(bset, x)) by {
                let t1 = fence@.take(i + 1);
                if shared.contains(x) {
                    let k = choose|k: int| 0 <= k < shared.len() && shared[k] == x;
                    if k < before.len() {
                        assert(before[k] == x);
                        assert(before.contains(x));
                        let m = choose|m: int| 0 <= m < i && fence@.take(i as int)[m] == x;
                        assert(t1[m] == x);
                    } else {
                        assert(t1[i as int] == x);
                    }
                }
                if t1.contains(x) && continues(bset, x) {
                    let m = choose|m: int| 0 <= m < t1.len() && t1[m] == x;
                    if m < i {
                        assert(fence@.take(i as int)[m] == x);
                        assert(before.contains(x));
                        let k = choose|k: int| 0 <= k < before.len() && before[k] == x;
                        assert(shared[k] == x);
                    } else {
                        assert(x == edge);
                        assert(shared[shared.len() - 1] == edge);
                    }
                }
            }
        }
    }
    proof {
        assert(fence@.take(fence@.len() as int) =~= fence@);
        assert(shared.to_set() =~= bset.filter(pred));
        shared.unique_seq_to_set();
    }
    len_boundary - num_shared
}

/// The first fence price: area times perimeter.
pub open spec fn price1(b: Seq<Loc>) -> int {
    (b.len() * boundary(b.to_set()).len()) as int
}

/// The second fence price: area times number of sides.
pub open spec fn price2(b: Seq<Loc>) -> int {
    b.len() * num_sides(b.to_set())
}

/// A region's plots are listed once each and leave room for the fence arithmetic.
pub open spec fn block_ok(b: Seq<Loc>) -> bool {
    &&& b.no_duplicates()
    &&& forall|i: int| 0 <= i < b.len() ==> roomy(#[trigger] b[i])
    &&& diffs_fit(b)
    &&& b.len() <= u32::MAX
    &&& boundary(b.to_set()).len() <= u32::MAX
}

/// The region's price by area and perimeter.
pub fn part1_price(block: &Block) -> (r: u32)
    requires
        block_ok(block@),
        price1(block@) <= u32::MAX,
    ensures
        r == price1(block@),
{
    let area = get_area(block);
    let perimeter = get_perimeter(block);
    area * perimeter
}

/// The region's price by area and number of sides.
pub fn part2_price(block: &Block) -> (r: u32)
    requires
        block_ok(block@),
        price2(block@) <= u32::MAX,
    ensures
        r == price2(block@),
{
    let area = get_area(block);
    let sides = get_num_sides(block);
    area * sides
}

/// The plots of the garden that grow `c`.
pub open spec fn letter_set(g: &Grid<char>, c: char) -> Set<Loc> {
    Set::new(|l: Loc| g.in_bounds(l.0 as int, l.1 as int) && g.cell(l.0 as int, l.1 as int) == c)
}

/// `ps` lists each letter of the garden once, with all its plots, each once.
pub open spec fn letter_sets(g: &Grid<char>, ps: Seq<(char, Vec<Loc>)>) -> bool {
    &&& forall|k: int|
        0 <= k < ps.len() ==> (#[trigger] ps[k]).1@.no_duplicates() && ps[k].1@.to_set() == letter_set(g, ps[k].0)
            && 0 < ps[k].1@.len() <= g@.len()
    &&& forall|k1: int, k2: int| 0 <= k1 < k2 < ps.len() ==> (#[trigger] ps[k1]).0 != (#[trigger] ps[k2]).0
    &&& forall|row: int, col: int|
        g.in_bounds(row, col) ==> exists|k: int| 0 <= k < ps.len() && (#[trigger] ps[k]).0 == g.cell(row, col)
}

/// A garden small enough that every plot, and every plot's fence, has `i32`
/// coordinates.
pub open spec fn garden_fits(g: &Grid<char>) -> bool {
    &&& g.wf()
    &&& g.spec_nrows() <= i32::MAX
    &&& g.spec_ncols() <= i32::MAX
}

/// The plots taken so far when a row-major walk stands at `(row, col)`.
pub open spec fn walked(l: Loc, row: int, col: int) -> bool {
    l.0 < row || (l.0 == row && l.1 < col)
}

/// Groups the garden's plots by the letter they grow, letters in the order they
/// first appear.
pub fn get_point_sets_by_letter(grid: &Grid<char>) -> (r: Vec<(char, Vec<Loc>)>)
    requires
        garden_fits(grid),
    ensures
        letter_sets(grid, r@),
{
    let nrows = grid.nrows();
    let ncols = grid.ncols();
    let mut out: Vec<(char, Vec<Loc>)> = Vec::new();
    let mut count: u32 = 0;
    assert(cell_index(ncols as int, 0, 0) == 0);
    for row in 0..nrows
        invariant
            garden_fits(grid),
            nrows == grid.spec_nrows(),
            ncols == grid.spec_ncols(),
            count == cell_index(ncols as int, row as int, 0),
            count <= grid@.len(),
            forall|k: int|
                0 <= k < out@.len() ==> (#[trigger] out@[k]).1@.no_duplicates() && 0 < out@[k].1@.len() <= count
                    && forall|l: Loc| #[trigger] out@[k].1@.contains(l) <==> (letter_set(grid, out@[k].0).contains(l) && walked(l, row as int, 0)),
            forall|k1: int, k2: int| 0 <= k1 < k2 < out@.len() ==> (#[trigger] out@[k1]).0 != (#[trigger] out@[k2]).0,
            forall|r2: int, c2: int|
                grid.in_bounds(r2, c2) && r2 < row ==> exists|k: int| 0 <= k < out@.len() && (#[trigger] out@[k]).0 == grid.cell(r2, c2),
    {
        for col in 0..ncols
            invariant
                garden_fits(grid),
                nrows == grid.spec_nrows(),
                ncols == grid.spec_ncols(),
                row < nrows,
                count == cell_index(ncols as int, row as int, col as int),
                forall|k: int|
                    0 <= k < out@.len() ==> (#[trigger] out@[k]).1@.no_duplicates() && 0 < out@[k].1@.len() <= count
                        && forall|l: Loc| #[trigger] out@[k].1@.contains(l) <==> (letter_set(grid, out@[k].0).contains(l) && walked(l, row as int, col as int)),
                forall|k1: int, k2: int| 0 <= k1 < k2 < out@.len() ==> (#[trigger] out@[k1]).0 != (#[trigger] out@[k2]).0,
                forall|r2: int, c2: int|
                    grid.in_bounds(r2, c2) && walked(Loc(r2 as i32, c2 as i32), row as int, col as int) ==> exists|k: int|
                        0 <= k < out@.len() && (#[trigger] out@[k]).0 == grid.cell(r2, c2),
        {
            proof {
                lemma_cell_index(nrows as int, ncols as int, row as int, col as int);
            }
            let value = *grid.at_u32(row, col);
            let loc = Loc::from_u32(row, col);
            let ghost before = out@;
            // find the letter's set, or start one
            let mut idx: usize = 0;
            while idx < out.len()
                invariant
                    out@ == before,
                    idx <= out@.len(),
                    forall|k: int| 0 <= k < idx ==> (#[trigger] before[k]).0 != value,
                ensures
                    out@ == before,
                    idx <= out@.len(),
                    forall|k: int| 0 <= k < idx ==> (#[trigger] before[k]).0 != value,
                    idx == out@.len() || before[idx as int].0 == value,
                decreases out@.len() - idx,
            {
                if out[idx].0 == value {
                    break;
                }
                idx = idx + 1;
            }
            if idx == out.len() {
                out.push((value, Vec::new()));
            }
            let ghost mid = out@;
            proof {
                assert(mid[idx as int].0 == value);
                assert forall|k: int| 0 <= k < mid.len() && k != idx implies (#[trigger] mid[k]).0 != value by {
                    if idx < before.len() {
                        assert(mid[k] == before[k]);
                        assert(mid[idx as int] == before[idx as int]);
                        if k < idx {
                            assert(before[k].0 != value);
                        } else {
                            assert(before[idx as int].0 != before[k].0);
                        }
                    } else {
                        assert(mid[k] == before[k]);
                    }
                }
            }
            out[idx].1.push(loc);
            count = count + 1;
            proof {
                assert(loc == Loc(row as i32, col as i32));
                assert(letter_set(grid, value).contains(loc));
                assert forall|k: int| 0 <= k < out@.len() implies (#[trigger] out@[k]).1@.no_duplicates()
                    && 0 < out@[k].1@.len() <= count
                    && forall|l: Loc| #[trigger] out@[k].1@.contains(l) <==> (letter_set(grid, out@[k].0).contains(l) && walked(l, row as int, col + 1)) by {
                    if k != idx {
                        assert(out@[k] == mid[k]);
                        assert(mid[k] == before[k]);
                        assert forall|l: Loc| #[trigger] out@[k].1@.contains(l) <==> (letter_set(grid, out@[k].0).contains(l) && walked(l, row as int, col + 1)) by {
                            if l == loc {
                                assert(mid[k].0 != value);
                                assert(!letter_set(grid, out@[k].0).contains(l));
                            }
                        }
                    } else {
                        let old_set = mid[k].1@;
                        assert(out@[k].1@ == old_set.push(loc));
                        assert(out@[k].0 == value);
                        if idx < before.len() {
                            assert(mid[k] == before[k]);
                        }
                        assert(!old_set.contains(loc));
                        assert forall|a: int, b: int| 0 <= a < b < out@[k].1@.len() implies out@[k].1@[a] != out@[k].1@[b] by {
                            if b == old_set.len() {
                                assert(old_set.contains(out@[k].1@[a]));
                            }
                        }
                        assert forall|l: Loc| #[trigger] out@[k].1@.contains(l) <==> (letter_set(grid, out@[k].0).contains(l) && walked(l, row as int, col + 1)) by {
                            if out@[k].1@.contains(l) && l != loc {
                                let j = choose|j: int| 0 <= j < out@[k].1@.len() && out@[k].1@[j] == l;
                                assert(old_set[j] == l);
                                assert(old_set.contains(l));
                            }
                            if letter_set(grid, out@[k].0).contains(l) && walked(l, row as int, col + 1) {
                                if l != loc {
                                    assert(walked(l, row as int, col as int));
                                    if idx == before.len() {
                                        assert(grid.in_bounds(l.0 as int, l.1 as int));
                                        assert(Loc((l.0 as int) as i32, (l.1 as int) as i32) == l);
                                        let k2 = choose|k2: int| 0 <= k2 < before.len() && (#[trigger] before[k2]).0 == grid.cell(l.0 as int, l.1 as int);
                                        assert(false);
                                    }
                                    assert(old_set.contains(l));
                                    let j = choose|j: int| 0 <= j < old_set.len() && old_set[j] == l;
                                    assert(out@[k].1@[j] == l);
                                } else {
                                    assert(out@[k].1@[old_set.len() as int] == l);
                                }
                            }
                        }
                    }
                }
                assert forall|k1: int, k2: int| 0 <= k1 < k2 < out@.len() implies (#[trigger] out@[k1]).0 != (#[trigger] out@[k2]).0 by {
                    assert(out@[k1].0 == mid[k1].0);
                    assert(out@[k2].0 == mid[k2].0);
                    if k2 == before.len() {
                        assert(mid[k1] == before[k1]);
                    } else {
                        assert(mid[k1] == before[k1]);
                        assert(mid[k2] == before[k2]);
                    }
                }
                assert forall|r2: int, c2: int|
                    grid.in_bounds(r2, c2) && walked(Loc(r2 as i32, c2 as i32), row as int, col + 1) implies exists|k: int|
                        0 <= k < out@.len() && (#[trigger] out@[k]).0 == grid.cell(r2, c2) by {
                    if r2 == row && c2 == col {
                        assert(out@[idx as int].0 == grid.cell(r2, c2));
                    } else {
                        assert(walked(Loc(r2 as i32, c2 as i32), row as int, col as int));
                        let k = choose|k: int| 0 <= k < before.len() && (#[trigger] before[k]).0 == grid.cell(r2, c2);
                        assert(out@[k].0 == mid[k].0);
                        assert(mid[k] == before[k]);
                    }
                }
            }
        }
        proof {
            assert(cell_index(ncols as int, row + 1, 0) == cell_index(ncols as int, row as int, ncols as int)) by (nonlinear_arith);
            assert(cell_index(ncols as int, row + 1, 0) <= nrows * ncols) by (nonlinear_arith)
                requires
                    row + 1 <= nrows,
            ;
            assert forall|k: int| #![trigger out@[k]] 0 <= k < out@.len() implies forall|l: Loc| #[trigger] out@[k].1@.contains(l) <==> (letter_set(grid, out@[k].0).contains(l) && walked(l, row + 1, 0)) by {
                assert forall|l: Loc| #[trigger] out@[k].1@.contains(l) <==> (letter_set(grid, out@[k].0).contains(l) && walked(l, row + 1, 0)) by {
                    if letter_set(grid, out@[k].0).contains(l) {
                        assert(l.1 < ncols);
                    }
                }
            }
            assert forall|r2: int, c2: int| grid.in_bounds(r2, c2) && r2 < row + 1 implies exists|k: int| 0 <= k < out@.len() && (#[trigger] out@[k]).0 == grid.cell(r2, c2) by {
                assert(walked(Loc(r2 as i32, c2 as i32), row as int, ncols as int));
            }
        }
    }
    proof {
        assert forall|k: int| 0 <= k < out@.len() implies (#[trigger] out@[k]).1@.to_set() == letter_set(grid, out@[k].0) by {
            assert forall|l: Loc| out@[k].1@.to_set().contains(l) <==> letter_set(grid, out@[k].0).contains(l) by {
                if letter_set(grid, out@[k].0).contains(l) {
                    assert(out@[k].1@.contains(l));
                }
            }
            assert(out@[k].1@.to_set() =~= letter_set(grid, out@[k].0));
        }
    }
    out
}

/// Splits each set of `point_sets` into its regions, one list for them all.
#[verifier::spinoff_prover]
#[verifier::rlimit(40)]
pub fn get_all_blocks(point_sets: &Vec<(char, Vec<Loc>)>) -> (r: Vec<Block>)
    requires
        forall|k: int|
            0 <= k < point_sets@.len() ==> (#[trigger] point_sets@[k]).1@.no_duplicates() && forall|j: int|
                0 <= j < point_sets@[k].1@.len() ==> roomy(#[trigger] point_sets@[k].1@[j]),
        forall|k1: int, k2: int|
            0 <= k1 < k2 < point_sets@.len() ==> (#[trigger] point_sets@[k1]).1@.to_set().disjoint(
                (#[trigger] point_sets@[k2]).1@.to_set(),
            ),
    ensures
        forall|i: int|
            0 <= i < r@.len() ==> (#[trigger] r@[i])@.no_duplicates() && r@[i]@.len() > 0 && exists|k: int|
                0 <= k < point_sets@.len() && is_component((#[trigger] point_sets@[k]).1@.to_set(), r@[i]@.to_set())
                    && r@[i]@.len() <= point_sets@[k].1@.len(),
        forall|i: int, j: int| 0 <= i < j < r@.len() ==> (#[trigger] r@[i])@.to_set().disjoint((#[trigger] r@[j])@.to_set()),
        forall|k: int, x: Loc|
            0 <= k < point_sets@.len() && #[trigger] point_sets@[k].1@.contains(x) ==> exists|i: int|
                0 <= i < r@.len() && (#[trigger] r@[i])@.contains(x),
{
    let ghost ps = point_sets@;
    let mut blocks: Vec<Block> = Vec::new();
    for k in 0..point_sets.len()
        invariant
            ps == point_sets@,
            forall|k: int|
                0 <= k < ps.len() ==> (#[trigger] ps[k]).1@.no_duplicates() && forall|j: int|
                    0 <= j < ps[k].1@.len() ==> roomy(#[trigger] ps[k].1@[j]),
            forall|k1: int, k2: int|
                0 <= k1 < k2 < ps.len() ==> (#[trigger] ps[k1]).1@.to_set().disjoint((#[trigger] ps[k2]).1@.to_set()),
            forall|i: int|
                0 <= i < blocks@.len() ==> (#[trigger] blocks@[i])@.no_duplicates() && blocks@[i]@.len() > 0 && exists|k2: int|
                    0 <= k2 < k && is_component((#[trigger] ps[k2]).1@.to_set(), blocks@[i]@.to_set())
                        && blocks@[i]@.len() <= ps[k2].1@.len(),
            forall|i: int, j: int|
                0 <= i < j < blocks@.len() ==> (#[trigger] blocks@[i])@.to_set().disjoint((#[trigger] blocks@[j])@.to_set()),
            forall|k2: int, x: Loc|
                0 <= k2 < k && #[trigger] ps[k2].1@.contains(x) ==> exists|i: int|
                    0 <= i < blocks@.len() && (#[trigger] blocks@[i])@.contains(x),
    {
        let points = &point_sets[k];
        let mut bs = get_blocks(&points.1);
        let ghost old_blocks = blocks@;
        let ghost new_blocks = bs@;
        let ghost pset = ps[k as int].1@.to_set();
        blocks.append(&mut bs);
        proof {
            let nb = new_blocks.map_values(|b: Block| b@);
            assert forall|i: int| 0 <= i < new_blocks.len() implies (#[trigger] new_blocks[i])@.no_duplicates()
                && new_blocks[i]@.len() > 0 && is_component(pset, new_blocks[i]@.to_set())
                && new_blocks[i]@.len() <= ps[k as int].1@.len() by {
                assert(nb[i] == new_blocks[i]@);
            }
            assert forall|i: int| 0 <= i < blocks@.len() implies (#[trigger] blocks@[i])@.no_duplicates()
                && blocks@[i]@.len() > 0 && exists|k2: int|
                    0 <= k2 < k + 1 && is_component((#[trigger] ps[k2]).1@.to_set(), blocks@[i]@.to_set())
                        && blocks@[i]@.len() <= ps[k2].1@.len() by {
                if i < old_blocks.len() {
                    assert(blocks@[i] == old_blocks[i]);
                } else {
                    assert(blocks@[i] == new_blocks[i - old_blocks.len()]);
                    assert(new_blocks[i - old_blocks.len()]@.no_duplicates());
                }
            }
            assert forall|i: int, j: int| 0 <= i < j < blocks@.len() implies (#[trigger] blocks@[i])@.to_set().disjoint(
                (#[trigger] blocks@[j])@.to_set(),
            ) by {
                if j < old_blocks.len() {
                    assert(blocks@[i] == old_blocks[i]);
                    assert(blocks@[j] == old_blocks[j]);
                } else if i >= old_blocks.len() {
                    assert(blocks@[i] == new_blocks[i - old_blocks.len()]);
                    assert(blocks@[j] == new_blocks[j - old_blocks.len()]);
                    assert(nb[i - old_blocks.len()] == new_blocks[i - old_blocks.len()]@);
                    assert(nb[j - old_blocks.len()] == new_blocks[j - old_blocks.len()]@);
                } else {
                    assert(blocks@[i] == old_blocks[i]);
                    assert(blocks@[j] == new_blocks[j - old_blocks.len()]);
                    let k2 = choose|k2: int|
                        0 <= k2 < k && is_component((#[trigger] ps[k2]).1@.to_set(), old_blocks[i]@.to_set())
                            && old_blocks[i]@.len() <= ps[k2].1@.len();
                    assert(ps[k2].1@.to_set().disjoint(pset));
                    assert(is_component(pset, new_blocks[j - old_blocks.len()]@.to_set()));
                }
            }
            assert forall|k2: int, x: Loc| 0 <= k2 < k + 1 && #[trigger] ps[k2].1@.contains(x) implies exists|i: int|
                0 <= i < blocks@.len() && (#[trigger] blocks@[i])@.contains(x) by {
                if k2 < k {
                    let i = choose|i: int| 0 <= i < old_blocks.len() && (#[trigger] old_blocks[i])@.contains(x);
                    assert(blocks@[i] == old_blocks[i]);
                } else {
                    assert(pset.contains(x));
                    let i = choose|i: int| 0 <= i < nb.len() && #[trigger] nb[i].contains(x);
                    assert(nb[i] == new_blocks[i]@);
                    assert(blocks@[old_blocks.len() + i] == new_blocks[i]);
                }
            }
        }
    }
    blocks
}

/// `bs` lists the garden's regions: each a non-empty, maximal patch of one
/// letter whose plots connect side to side, no plot in two regions and none
/// left out.
pub open spec fn regions(g: &Grid<char>, bs: Seq<Seq<Loc>>) -> bool {
    &&& forall|i: int|
        0 <= i < bs.len() ==> (#[trigger] bs[i]).no_duplicates() && bs[i].len() > 0 && exists|c: char|
            is_component(#[trigger] letter_set(g, c), bs[i].to_set())
    &&& forall|i: int, j: int| 0 <= i < j < bs.len() ==> (#[trigger] bs[i]).to_set().disjoint((#[trigger] bs[j]).to_set())
    &&& forall|row: int, col: int|
        g.in_bounds(row, col) ==> exists|i: int| 0 <= i < bs.len() && (#[trigger] bs[i]).contains(Loc(row as i32, col as i32))
}

/// The sum of the first prices of the regions `bs`.
pub open spec fn total_price1(bs: Seq<Seq<Loc>>) -> int
    decreases bs.len(),
{
    if bs.len() == 0 {
        0
    } else {
        total_price1(bs.drop_last()) + price1(bs.last())
    }
}

/// The sum of the second prices of the regions `bs`.
pub open spec fn total_price2(bs: Seq<Seq<Loc>>) -> int
    decreases bs.len(),
{
    if bs.len() == 0 {
        0
    } else {
        total_price2(bs.drop_last()) + price2(bs.last())
    }
}

/// A walk read backwards is a walk.
proof fn lemma_path_reverse(p: Set<Loc>, path: Seq<Loc>)
    requires
        is_path(p, path),
    ensures
        is_path(p, path.reverse()),
        path.reverse()[0] == path.last(),
        path.reverse().last() == path[0],
{
    let r = path.reverse();
    assert forall|i: int| 0 <= i < r.len() - 1 implies adjacent(#[trigger] r[i], r[i + 1]) by {
        let k = path.len() - 2 - i;
        assert(r[i] == path[k + 1] && r[i + 1] == path[k]);
        assert(adjacent(path[k], path[k + 1]));
    }
    assert forall|i: int| 0 <= i < r.len() implies p.contains(#[trigger] r[i]) by {
        assert(r[i] == path[path.len() - 1 - i]);
    }
}

/// A walk through `p` that starts in a region of `p` stays in it.
proof fn lemma_path_stays(p: Set<Loc>, b: Set<Loc>, path: Seq<Loc>, k: int)
    requires
        is_component(p, b),
        is_path(p, path),
        b.contains(path[0]),
        0 <= k < path.len(),
    ensures
        b.contains(path[k]),
    decreases k,
{
    if k > 0 {
        lemma_path_stays(p, b, path, k - 1);
        assert(adjacent(path[k - 1], path[k]));
    }
}

/// Two regions of `p` that share a plot are the same region.
proof fn lemma_component_unique(p: Set<Loc>, b1: Set<Loc>, b2: Set<Loc>, x: Loc)
    requires
        is_component(p, b1),
        is_component(p, b2),
        b1.contains(x),
        b2.contains(x),
    ensures
        b1 == b2,
{
    assert forall|y: Loc| b1.contains(y) implies b2.contains(y) by {
        lemma_component_covers(p, b1, b2, x, y);
    }
    assert forall|y: Loc| b2.contains(y) implies b1.contains(y) by {
        lemma_component_covers(p, b2, b1, x, y);
    }
    assert(b1 =~= b2);
}

/// Every plot of a region is in any region of the same set that shares a plot
/// with it.
proof fn lemma_component_covers(p: Set<Loc>, b1: Set<Loc>, b2: Set<Loc>, x: Loc, y: Loc)
    requires
        is_component(p, b1),
        is_component(p, b2),
        b1.contains(x),
        b2.contains(x),
        b1.contains(y),
    ensures
        b2.contains(y),
{
    let root = choose|root: Loc| #[trigger] b1.contains(root) && forall|z: Loc| #[trigger] b1.contains(z) ==> connected(p, root, z);
    assert(connected(p, root, x));
    assert(connected(p, root, y));
    let to_x = choose|path: Seq<Loc>| #[trigger] is_path(p, path) && path[0] == root && path.last() == x;
    let to_y = choose|path: Seq<Loc>| #[trigger] is_path(p, path) && path[0] == root && path.last() == y;
    lemma_path_reverse(p, to_x);
    lemma_path_stays(p, b2, to_x.reverse(), to_x.len() - 1);
    lemma_path_stays(p, b2, to_y, to_y.len() - 1);
}

/// Taking one region out of the list takes its price out of the totals.
proof fn lemma_total_remove(bs: Seq<Seq<Loc>>, j: int)
    requires
        0 <= j < bs.len(),
    ensures
        total_price1(bs) == total_price1(bs.remove(j)) + price1(bs[j]),
        total_price2(bs) == total_price2(bs.remove(j)) + price2(bs[j]),
    decreases bs.len(),
{
    if j == bs.len() - 1 {
        assert(bs.remove(j) =~= bs.drop_last());
    } else {
        let t = bs.drop_last();
        lemma_total_remove(t, j);
        assert(bs.remove(j) =~= t.remove(j).push(bs.last()));
        assert(bs.remove(j).drop_last() =~= t.remove(j));
    }
}

/// Every list entry is listed once each, is not empty, and shares no plot with
/// another entry.
pub open spec fn parts_ok(bs: Seq<Seq<Loc>>) -> bool {
    &&& forall|i: int| 0 <= i < bs.len() ==> (#[trigger] bs[i]).no_duplicates() && bs[i].len() > 0
    &&& forall|i: int, j: int| 0 <= i < j < bs.len() ==> (#[trigger] bs[i]).to_set().disjoint((#[trigger] bs[j]).to_set())
}

/// Entry `i` of `bs1` has the plots of some entry of `bs2`.
pub open spec fn found_in(bs1: Seq<Seq<Loc>>, bs2: Seq<Seq<Loc>>, i: int) -> bool {
    exists|j: int| 0 <= j < bs2.len() && bs1[i].to_set() == (#[trigger] bs2[j]).to_set()
}

/// Every entry of `bs1` has the plots of some entry of `bs2`.
pub open spec fn all_found(bs1: Seq<Seq<Loc>>, bs2: Seq<Seq<Loc>>) -> bool {
    forall|i: int| 0 <= i < bs1.len() ==> #[trigger] found_in(bs1, bs2, i)
}

/// Dropping entries keeps the entries apart.
proof fn lemma_parts_remove(bs: Seq<Seq<Loc>>, j: int)
    requires
        parts_ok(bs),
        0 <= j < bs.len(),
    ensures
        parts_ok(bs.remove(j)),
{
    let t = bs.remove(j);
    assert forall|k: int| 0 <= k < t.len() implies (#[trigger] t[k]).no_duplicates() && t[k].len() > 0 by {
        let k2 = if k < j { k } else { k + 1 };
        assert(t[k] == bs[k2]);
    }
    assert forall|a: int, b: int| 0 <= a < b < t.len() implies (#[trigger] t[a]).to_set().disjoint(
        (#[trigger] t[b]).to_set(),
    ) by {
        let a2 = if a < j { a } else { a + 1 };
        let b2 = if b < j { b } else { b + 1 };
        assert(t[a] == bs[a2] && t[b] == bs[b2]);
    }
}

/// Two disjoint non-empty entries never have the same plots.
proof fn lemma_parts_distinct(bs: Seq<Seq<Loc>>, a: int, b: int)
    requires
        parts_ok(bs),
        0 <= a < bs.len(),
        0 <= b < bs.len(),
        a != b,
    ensures
        bs[a].to_set() != bs[b].to_set(),
{
    assert(bs[a].to_set().contains(bs[a][0]));
    if a < b {
        assert(bs[a].to_set().disjoint(bs[b].to_set()));
    } else {
        assert(bs[b].to_set().disjoint(bs[a].to_set()));
    }
}

/// Taking from both lists entries with the same plots keeps every other entry
/// matched.
proof fn lemma_found_after(bs1: Seq<Seq<Loc>>, i0: int, bs2: Seq<Seq<Loc>>, j0: int)
    requires
        parts_ok(bs1),
        parts_ok(bs2),
        all_found(bs1, bs2),
        0 <= i0 < bs1.len(),
        0 <= j0 < bs2.len(),
        bs1[i0].to_set() == bs2[j0].to_set(),
    ensures
        all_found(bs1.remove(i0), bs2.remove(j0)),
{
    let t1 = bs1.remove(i0);
    let t2 = bs2.remove(j0);
    assert forall|i: int| 0 <= i < t1.len() implies #[trigger] found_in(t1, t2, i) by {
        let i2 = if i < i0 { i } else { i + 1 };
        assert(t1[i] == bs1[i2]);
        assert(found_in(bs1, bs2, i2));
        let k = choose|k: int| 0 <= k < bs2.len() && bs1[i2].to_set() == (#[trigger] bs2[k]).to_set();
        if k == j0 {
            lemma_parts_distinct(bs1, i2, i0);
        }
        if k < j0 {
            assert(t2[k] == bs2[k]);
        } else {
            assert(t2[k - 1] == bs2[k]);
        }
    }
}

/// Two lists of the same non-empty, pairwise disjoint plot sets have the same
/// totals, whatever their order.
proof fn lemma_totals_match(bs1: Seq<Seq<Loc>>, bs2: Seq<Seq<Loc>>)
    requires
        parts_ok(bs1),
        parts_ok(bs2),
        all_found(bs1, bs2),
        all_found(bs2, bs1),
    ensures
        total_price1(bs1) == total_price1(bs2),
        total_price2(bs1) == total_price2(bs2),
    decreases bs1.len(),
{
    if bs1.len() == 0 {
        if bs2.len() > 0 {
            assert(found_in(bs2, bs1, 0));
        }
    } else {
        let n = bs1.len() - 1;
        assert(found_in(bs1, bs2, n));
        let j = choose|j: int| 0 <= j < bs2.len() && bs1[n].to_set() == (#[trigger] bs2[j]).to_set();
        lemma_parts_remove(bs1, n);
        lemma_parts_remove(bs2, j);
        lemma_found_after(bs1, n, bs2, j);
        lemma_found_after(bs2, j, bs1, n);
        lemma_totals_match(bs1.remove(n), bs2.remove(j));
        lemma_total_remove(bs2, j);
        lemma_total_remove(bs1, n);
        let last = bs1[n];
        let other = bs2[j];
        last.unique_seq_to_set();
        other.unique_seq_to_set();
        assert(last.len() == other.len());
        assert(price1(last) == price1(other));
        assert(price2(last) == price2(other));
    }
}

/// The garden splits into its regions in only one way, up to order: both
/// totals are the same for every list of its regions, so `part1` and `part2`
/// give one answer per garden.
pub proof fn lemma_region_totals_unique(g: &Grid<char>, bs1: Seq<Seq<Loc>>, bs2: Seq<Seq<Loc>>)
    requires
        regions(g, bs1),
        regions(g, bs2),
    ensures
        total_price1(bs1) == total_price1(bs2),
        total_price2(bs1) == total_price2(bs2),
{
    assert forall|i: int| 0 <= i < bs1.len() implies #[trigger] found_in(bs1, bs2, i) by {
        lemma_region_found(g, bs1, bs2, i);
    }
    assert forall|j: int| 0 <= j < bs2.len() implies #[trigger] found_in(bs2, bs1, j) by {
        lemma_region_found(g, bs2, bs1, j);
    }
    lemma_totals_match(bs1, bs2);
}

/// A region of one list of the garden's regions is also in any other list.
proof fn lemma_region_found(g: &Grid<char>, bs1: Seq<Seq<Loc>>, bs2: Seq<Seq<Loc>>, i: int)
    requires
        regions(g, bs1),
        regions(g, bs2),
        0 <= i < bs1.len(),
    ensures
        found_in(bs1, bs2, i),
{
    let b1 = bs1[i];
    let x = b1[0];
    assert(b1.to_set().contains(x));
    let c1 = choose|c: char| is_component(#[trigger] letter_set(g, c), b1.to_set());
    assert(letter_set(g, c1).contains(x));
    assert(g.in_bounds(x.0 as int, x.1 as int));
    assert(Loc(x.0 as i32, x.1 as i32) == x);
    let j = choose|j: int| 0 <= j < bs2.len() && (#[trigger] bs2[j]).contains(Loc(x.0 as i32, x.1 as i32));
    let b2 = bs2[j];
    assert(b2.to_set().contains(x));
    let c2 = choose|c: char| is_component(#[trigger] letter_set(g, c), b2.to_set());
    assert(letter_set(g, c2).contains(x));
    assert(c1 == c2);
    lemma_component_unique(letter_set(g, c1), b1.to_set(), b2.to_set(), x);
    assert(b1.to_set() == bs2[j].to_set());
}

/// The first price of a region is never negative.
proof fn lemma_price1_nonneg(b: Seq<Loc>)
    ensures
        price1(b) >= 0,
{
    assert(b.len() * boundary(b.to_set()).len() >= 0) by (nonlinear_arith);
}

/// Adding a cell adds its four edges.
proof fn lemma_all_edges_push(s: Seq<Loc>, l: Loc)
    ensures
        all_edges(s.push(l).to_set()) == all_edges(s.to_set()).union(cell_edges(l)),
{
    let prev = s.to_set();
    let next = s.push(l).to_set();
    s.lemma_push_to_set_commute(l);
    assert(next =~= prev.insert(l));
    assert forall|e: Edge| all_edges(next).contains(e) <==> all_edges(prev).union(cell_edges(l)).contains(e) by {
        if all_edges(next).contains(e) {
            let m = choose|m: Loc| next.contains(m) && #[trigger] cell_edges(m).contains(e);
            if m != l {
                assert(prev.contains(m));
            }
        }
        if all_edges(prev).contains(e) {
            let m = choose|m: Loc| prev.contains(m) && #[trigger] cell_edges(m).contains(e);
            assert(next.contains(m));
        }
        if cell_edges(l).contains(e) {
            assert(next.contains(l));
        }
    }
    assert(all_edges(next) =~= all_edges(prev).union(cell_edges(l)));
}

/// Finitely many cells have finitely many edges.
proof fn lemma_all_edges_finite(s: Seq<Loc>)
    ensures
        all_edges(s.to_set()).finite(),
    decreases s.len(),
{
    if s.len() == 0 {
        assert(all_edges(s.to_set()) =~= Set::<Edge>::empty());
    } else {
        let rest = s.drop_last();
        lemma_all_edges_finite(rest);
        assert(s =~= rest.push(s.last()));
        lemma_all_edges_push(rest, s.last());
    }
}

/// A region has no more sides than fence edges, and no fewer than none.
proof fn lemma_num_sides_bounds(s: Seq<Loc>)
    ensures
        boundary(s.to_set()).finite(),
        0 <= num_sides(s.to_set()) <= boundary(s.to_set()).len(),
{
    let b = s.to_set();
    let bd = boundary(b);
    lemma_all_edges_finite(s);
    vstd::set_lib::lemma_len_subset(bd, all_edges(b));
    let f = bd.filter(|e: Edge| continues(bd, e));
    vstd::set_lib::lemma_len_subset(f, bd);
}

/// The bulk discount never costs more: each region has no more sides than
/// fence edges, so the second total is at most the first.
pub proof fn lemma_sides_cost_at_most_fence(bs: Seq<Seq<Loc>>)
    ensures
        total_price2(bs) <= total_price1(bs),
    decreases bs.len(),
{
    if bs.len() > 0 {
        lemma_sides_cost_at_most_fence(bs.drop_last());
        let b = bs.last();
        lemma_num_sides_bounds(b);
        let n = b.len() as int;
        let sides = num_sides(b.to_set());
        let fence = boundary(b.to_set()).len() as int;
        assert(n * sides <= n * fence) by (nonlinear_arith)
            requires
                0 <= n,
                sides <= fence,
        ;
    }
}

/// The sum over a prefix of the regions grows by one price per region and
/// never passes the whole sum.
proof fn lemma_total_prefix(bs: Seq<Seq<Loc>>, i: int)
    requires
        0 <= i < bs.len(),
    ensures
        total_price1(bs.take(i + 1)) == total_price1(bs.take(i)) + price1(bs[i]),
        total_price2(bs.take(i + 1)) == total_price2(bs.take(i)) + price2(bs[i]),
{
    assert(bs.take(i + 1).drop_last() =~= bs.take(i));
}

/// No prefix of the regions costs more than all of them.
proof fn lemma_total_monotone(bs: Seq<Seq<Loc>>, i: int)
    requires
        0 <= i <= bs.len(),
    ensures
        total_price1(bs.take(i)) <= total_price1(bs),
        total_price2(bs.take(i)) <= total_price2(bs),
    decreases bs.len(),
{
    if i == bs.len() {
        assert(bs.take(i) =~= bs);
    } else {
        let rest = bs.drop_last();
        lemma_total_monotone(rest, i);
        assert(rest.take(i) =~= bs.take(i));
        lemma_price1_nonneg(bs.last());
        lemma_num_sides_bounds(bs.last());
        let n = num_sides(bs.last().to_set());
        assert(bs.last().len() * n >= 0) by (nonlinear_arith)
            requires
                n >= 0,
        ;
    }
}

/// Plots of the garden leave room for the fence arithmetic.
proof fn lemma_plots_fit(g: &Grid<char>, b: Seq<Loc>, c: char)
    requires
        garden_fits(g),
        b.to_set().subset_of(letter_set(g, c)),
    ensures
        forall|i: int| 0 <= i < b.len() ==> roomy(#[trigger] b[i]),
        diffs_fit(b),
{
    assert forall|i: int| 0 <= i < b.len() implies roomy(#[trigger] b[i]) by {
        assert(b.to_set().contains(b[i]));
    }
    assert forall|i: int, j: int| 0 <= i < b.len() && 0 <= j < b.len() implies can_diff(#[trigger] b[i], #[trigger] b[j]) by {
        assert(b.to_set().contains(b[i]));
        assert(b.to_set().contains(b[j]));
    }
}

/// The regions of the garden, each small enough for the fence arithmetic.
fn garden_regions(data: &Grid<char>) -> (r: Vec<Block>)
    requires
        garden_fits(data),
    ensures
        regions(data, r@.map_values(|b: Block| b@)),
        forall|i: int| 0 <= i < r@.len() ==> (#[trigger] r@[i])@.len() <= u32::MAX,
{
    let point_sets = get_point_sets_by_letter(data);
    let ghost ps = point_sets@;
    proof {
        assert forall|k: int| 0 <= k < ps.len() implies (#[trigger] ps[k]).1@.no_duplicates() && forall|j: int|
            0 <= j < ps[k].1@.len() ==> roomy(#[trigger] ps[k].1@[j]) by {
            lemma_plots_fit(data, ps[k].1@, ps[k].0);
        }
        assert forall|k1: int, k2: int| 0 <= k1 < k2 < ps.len() implies (#[trigger] ps[k1]).1@.to_set().disjoint(
            (#[trigger] ps[k2]).1@.to_set(),
        ) by {
            assert(ps[k1].0 != ps[k2].0);
        }
    }
    let blocks = get_all_blocks(&point_sets);
    proof {
        let bs = blocks@.map_values(|b: Block| b@);
        assert forall|i: int| 0 <= i < bs.len() implies (#[trigger] bs[i]).no_duplicates() && bs[i].len() > 0 && exists|c: char|
            is_component(#[trigger] letter_set(data, c), bs[i].to_set()) by {
            assert(bs[i] == blocks@[i]@);
            let k = choose|k: int|
                0 <= k < ps.len() && is_component((#[trigger] ps[k]).1@.to_set(), blocks@[i]@.to_set())
                    && blocks@[i]@.len() <= ps[k].1@.len();
            assert(letter_set(data, ps[k].0) == ps[k].1@.to_set());
        }
        assert forall|i: int, j: int| 0 <= i < j < bs.len() implies (#[trigger] bs[i]).to_set().disjoint((#[trigger] bs[j]).to_set()) by {
            assert(bs[i] == blocks@[i]@);
            assert(bs[j] == blocks@[j]@);
        }
        assert forall|row: int, col: int| data.in_bounds(row, col) implies exists|i: int|
            0 <= i < bs.len() && (#[trigger] bs[i]).contains(Loc(row as i32, col as i32)) by {
            let k = choose|k: int| 0 <= k < ps.len() && (#[trigger] ps[k]).0 == data.cell(row, col);
            let l = Loc(row as i32, col as i32);
            assert(letter_set(data, ps[k].0).contains(l));
            assert(ps[k].1@.to_set().contains(l));
            assert(ps[k].1@.contains(l));
            let i = choose|i: int| 0 <= i < blocks@.len() && (#[trigger] blocks@[i])@.contains(l);
            assert(bs[i] == blocks@[i]@);
        }
        assert forall|i: int| 0 <= i < blocks@.len() implies (#[trigger] blocks@[i])@.len() <= u32::MAX by {
            let k = choose|k: int|
                0 <= k < ps.len() && is_component((#[trigger] ps[k]).1@.to_set(), blocks@[i]@.to_set())
                    && blocks@[i]@.len() <= ps[k].1@.len();
        }
    }
    blocks
}

/// The total fence price by area and perimeter.
pub fn part1(data: &Grid<char>) -> (r: u32)
    requires
        garden_fits(data),
        forall|bs: Seq<Seq<Loc>>| regions(data, bs) ==> total_price1(bs) <= u32::MAX,
    ensures
        exists|bs: Seq<Seq<Loc>>| regions(data, bs) && r == total_price1(bs),
{
    let blocks = garden_regions(data);
    let ghost bs = blocks@.map_values(|b: Block| b@);
    let mut sum: u32 = 0;
    for i in 0..blocks.len()
        invariant
            garden_fits(data),
            bs == blocks@.map_values(|b: Block| b@),
            regions(data, bs),
            total_price1(bs) <= u32::MAX,
            forall|i: int| 0 <= i < blocks@.len() ==> (#[trigger] blocks@[i])@.len() <= u32::MAX,
            sum == total_price1(bs.take(i as int)),
    {
        proof {
            let b = blocks@[i as int]@;
            assert(bs[i as int] == b);
            let c = choose|c: char| is_component(#[trigger] letter_set(data, c), b.to_set());
            lemma_plots_fit(data, b, c);
            lemma_total_prefix(bs, i as int);
            lemma_total_monotone(bs, i + 1);
            lemma_price1_nonneg(b);
            let n = boundary(b.to_set()).len();
            assert(n <= u32::MAX) by (nonlinear_arith)
                requires
                    b.len() >= 1,
                    b.len() * n <= u32::MAX,
            ;
        }
        sum = sum + part1_price(&blocks[i]);
    }
    proof {
        assert(bs.take(bs.len() as int) =~= bs);
    }
    sum
}

/// The total fence price by area and number of sides.
pub fn part2(data: &Grid<char>) -> (r: u32)
    requires
        garden_fits(data),
        forall|bs: Seq<Seq<Loc>>|
            regions(data, bs) ==> total_price2(bs) <= u32::MAX && forall|i: int|
                0 <= i < bs.len() ==> boundary((#[trigger] bs[i]).to_set()).len() <= u32::MAX,
    ensures
        exists|bs: Seq<Seq<Loc>>| regions(data, bs) && r == total_price2(bs),
{
    let blocks = garden_regions(data);
    let ghost bs = blocks@.map_values(|b: Block| b@);
    let mut sum: u32 = 0;
    for i in 0..blocks.len()
        invariant
            garden_fits(data),
            bs == blocks@.map_values(|b: Block| b@),
            regions(data, bs),
            total_price2(bs) <= u32::MAX,
            forall|i: int| 0 <= i < bs.len() ==> boundary((#[trigger] bs[i]).to_set()).len() <= u32::MAX,
            forall|i: int| 0 <= i < blocks@.len() ==> (#[trigger] blocks@[i])@.len() <= u32::MAX,
            sum == total_price2(bs.take(i as int)),
    {
        proof {
            let b = blocks@[i as int]@;
            assert(bs[i as int] == b);
            let c = choose|c: char| is_component(#[trigger] letter_set(data, c), b.to_set());
            lemma_plots_fit(data, b, c);
            lemma_total_prefix(bs, i as int);
            lemma_total_monotone(bs, i + 1);
            lemma_num_sides_bounds(b);
            let n = num_sides(b.to_set());
            assert(b.len() * n >= 0) by (nonlinear_arith)
                requires
                    n >= 0,
            ;
        }
        sum = sum + part2_price(&blocks[i]);
    }
    proof {
        assert(bs.take(bs.len() as int) =~= bs);
    }
    sum
}

/// A region of a single plot has a fence of four edges, on four sides.
pub proof fn lemma_single_plot_fence(l: Loc)
    requires
        roomy(l),
    ensures
        boundary(set![l]).len() == 4,
        num_sides(set![l]) == 4,
{
    let b = set![l];
    let ce = cell_edges(l);
    assert(all_edges(b) =~= ce) by {
        assert forall|e: Edge| ce.contains(e) implies all_edges(b).contains(e) by {
            assert(b.contains(l));
        }
    }
    assert(internal_edges(b) =~= Set::<Edge>::empty()) by {
        assert forall|e: Edge| !internal_edges(b).contains(e) by {
            if internal_edges(b).contains(e) {
                let (x, y) = choose|x: Loc, y: Loc|
                    b.contains(x) && b.contains(y) && #[trigger] spec_edge_between(x, y, diff(y, x)) == Some(e);
                assert(x == l && y == l);
                assert(diff(l, l) == Delta(0i32, 0i32));
            }
        }
    }
    assert(boundary(b) =~= ce);
    let e1 = Edge::Vertical(l);
    let e2 = Edge::Vertical(shifted(l, Delta::right()));
    let e3 = Edge::Horizontal(l);
    let e4 = Edge::Horizontal(shifted(l, Delta::down()));
    assert(e1 != e2);
    assert(e3 != e4);
    assert(ce =~= Set::<Edge>::empty().insert(e4).insert(e3).insert(e2).insert(e1));
    assert(Set::<Edge>::empty().insert(e4).len() == 1);
    assert(Set::<Edge>::empty().insert(e4).insert(e3).len() == 2);
    assert(Set::<Edge>::empty().insert(e4).insert(e3).insert(e2).len() == 3);
    assert(ce.len() == 4);
    let bd = boundary(b);
    let cont = bd.filter(|e: Edge| continues(bd, e));
    assert(cont =~= Set::<Edge>::empty()) by {
        assert forall|e: Edge| !(#[trigger] cont.contains(e)) by {
            if bd.contains(e) {
                assert(!bd.contains(spec_edge_next(e)));
            }
        }
    }
}

} // verus!
