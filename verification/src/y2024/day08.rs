//! Antennas on a map: antinodes where two antennas of one frequency line up,
//! at twice the distance, and then anywhere on the line through them.

use vstd::prelude::*;

use crate::grid::{cell_index, lemma_cell_index, lemma_cell_index_split, Grid};
use crate::text::utf8_len;
use crate::y2024::matrix::{map_lines, map_text_ok, read_matrix};
use num::Integer;

verus! {

/// A location (row, col).
#[derive(Clone, Copy, Debug, PartialEq, Eq, Hash, Structural)]
pub struct Loc(pub i32, pub i32);

impl Loc {
    /// The row.
    pub fn row(&self) -> (r: i32)
        ensures
            r == self.0,
    {
        self.0
    }

    /// The row as `usize` (sign-extended when negative).
    pub fn row_usize(&self) -> (r: usize)
        ensures
            r == self.0 as usize,
    {
        self.0 as usize
    }

    /// The column.
    pub fn col(&self) -> (r: i32)
        ensures
            r == self.1,
    {
        self.1
    }

    /// The column as `usize` (sign-extended when negative).
    pub fn col_usize(&self) -> (r: usize)
        ensures
            r == self.1 as usize,
    {
        self.1 as usize
    }
}

/// A map of the territory.
#[derive(Debug)]
pub struct Layout(pub Grid<char>);

/// The map is well formed and no side is longer than 2^30, so the antinode
/// arithmetic (up to twice a coordinate) stays within `i32`.
pub open spec fn layout_ok(m: &Layout) -> bool {
    &&& m.0.wf()
    &&& m.0.spec_nrows() <= 0x4000_0000
    &&& m.0.spec_ncols() <= 0x4000_0000
}

/// `l` is a location of the map.
pub open spec fn on_map(m: &Layout, l: Loc) -> bool {
    m.0.in_bounds(l.0 as int, l.1 as int)
}

/// The character at `l`.
pub open spec fn at(m: &Layout, l: Loc) -> char {
    m.0.cell(l.0 as int, l.1 as int)
}

/// The map's locations, row by row.
pub open spec fn all_locs(m: &Layout) -> Seq<Loc> {
    let nc = m.0.spec_ncols() as int;
    Seq::new(m.0.spec_nrows() * m.0.spec_ncols(), |i: int| Loc((i / nc) as i32, (i % nc) as i32))
}

/// The frequencies among `s`: its characters but `.`, each once, in the order
/// they first appear.
pub open spec fn uniq(s: Seq<char>) -> Seq<char>
    decreases s.len(),
{
    if s.len() == 0 {
        Seq::empty()
    } else {
        let u = uniq(s.drop_last());
        if s.last() != '.' && !u.contains(s.last()) {
            u.push(s.last())
        } else {
            u
        }
    }
}

/// The locations, row by row, where the map shows `c`.
pub open spec fn locs_of(m: &Layout, c: char) -> Seq<Loc> {
    all_locs(m).filter(|l: Loc| at(m, l) == c)
}

impl Layout {
    /// Make a map from an input string like in the input file.
    pub fn from_text(input: &str) -> (r: Self)
        requires
            map_text_ok(input@),
        ensures
            r.0.wf(),
            r.0.spec_nrows() == map_lines(input@).len(),
            r.0.spec_ncols() == utf8_len(map_lines(input@)[0]),
            forall|row: int, col: int|
                r.0.in_bounds(row, col) ==> #[trigger] r.0.cell(row, col) == map_lines(input@)[row][col],
    {
        Self(read_matrix(input))
    }

    /// Number of rows.
    pub fn nrows(&self) -> (r: i32)
        requires
            layout_ok(self),
        ensures
            r == self.0.spec_nrows(),
    {
        self.0.nrows() as i32
    }

    /// Number of columns.
    pub fn ncols(&self) -> (r: i32)
        requires
            layout_ok(self),
        ensures
            r == self.0.spec_ncols(),
    {
        self.0.ncols() as i32
    }

    /// The locations of the map, row by row.
    pub fn locs(&self) -> (r: Vec<Loc>)
        requires
            layout_ok(self),
        ensures
            r@ == all_locs(self),
    {
        let nrows = self.nrows();
        let ncols = self.ncols();
        let ghost nc = ncols as int;
        let mut out: Vec<Loc> = Vec::new();
        assert(0 * nc == 0);
        for row in 0..nrows
            invariant
                layout_ok(self),
                nrows == self.0.spec_nrows(),
                ncols == self.0.spec_ncols(),
                nc == ncols,
                out@.len() == row * nc,
                forall|i: int| 0 <= i < out@.len() ==> #[trigger] out@[i] == Loc((i / nc) as i32, (i % nc) as i32),
        {
            for col in 0..ncols
                invariant
                    layout_ok(self),
                    nrows == self.0.spec_nrows(),
                    ncols == self.0.spec_ncols(),
                    nc == ncols,
                    0 <= row < nrows,
                    out@.len() == row * nc + col,
                    forall|i: int| 0 <= i < out@.len() ==> #[trigger] out@[i] == Loc((i / nc) as i32, (i % nc) as i32),
            {
                proof {
                    crate::grid::lemma_cell_index_join(nc, row as int, col as int);
                }
                out.push(Loc(row, col));
            }
            proof {
                assert((row + 1) * nc == row * nc + nc) by (nonlinear_arith);
            }
        }
        proof {
            assert(nrows * nc == self.0.spec_nrows() * self.0.spec_ncols());
        }
        out
    }

    /// Whether a location is on the map.
    pub fn is_inbounds(&self, loc: &Loc) -> (r: bool)
        requires
            layout_ok(self),
        ensures
            r == on_map(self, *loc),
    {
        let nrows = self.nrows();
        let ncols = self.ncols();
        0 <= loc.0 && loc.0 < nrows && 0 <= loc.1 && loc.1 < ncols
    }

    /// The frequencies on the map: every character but `.`, each once, in the
    /// order they first appear row by row.
    pub fn uniq_freqs(&self) -> (r: Vec<char>)
        requires
            layout_ok(self),
        ensures
            r@ == uniq(self.0@),
    {
        let locs = self.locs();
        let ghost s = self.0@;
        let ghost nc = self.0.spec_ncols() as int;
        let mut freqs: Vec<char> = Vec::new();
        assert(s.take(0) =~= Seq::<char>::empty());
        for i in 0..locs.len()
            invariant
                layout_ok(self),
                s == self.0@,
                nc == self.0.spec_ncols(),
                locs@ == all_locs(self),
                s.len() == locs@.len(),
                freqs@ == uniq(s.take(i as int)),
        {
            let loc = locs[i];
            proof {
                lemma_cell_index_split(self.0.spec_nrows() as int, nc, i as int);
                lemma_cell_index(self.0.spec_nrows() as int, nc, (i as int) / nc, (i as int) % nc);
                assert(s.take(i + 1).drop_last() =~= s.take(i as int));
                assert(s.take(i + 1).last() == s[i as int]);
            }
            let c = *self.0.at_i32(loc.0, loc.1);
            if c != '.' && !contains_char(&freqs, c) {
                freqs.push(c);
            }
        }
        assert(s.take(s.len() as int) =~= s);
        freqs
    }

    /// The locations of each frequency, row by row, frequencies in the order
    /// of `uniq_freqs`.
    pub fn freq_locs(&self) -> (r: Vec<(char, Vec<Loc>)>)
        requires
            layout_ok(self),
        ensures
            r@.len() == uniq(self.0@).len(),
            forall|k: int|
                0 <= k < r@.len() ==> (#[trigger] r@[k]).0 == uniq(self.0@)[k] && r@[k].1@ == locs_of(self, r@[k].0),
    {
        let freqs = self.uniq_freqs();
        let locs = self.locs();
        let mut out: Vec<(char, Vec<Loc>)> = Vec::new();
        for k in 0..freqs.len()
            invariant
                layout_ok(self),
                freqs@ == uniq(self.0@),
                locs@ == all_locs(self),
                out@.len() == k,
                forall|j: int| 0 <= j < k ==> (#[trigger] out@[j]).0 == freqs@[j] && out@[j].1@ == locs_of(self, out@[j].0),
        {
            let freq = freqs[k];
            let ghost pred = |l: Loc| at(self, l) == freq;
            let mut found: Vec<Loc> = Vec::new();
            assert(locs@.take(0).filter(pred) =~= Seq::<Loc>::empty());
            for i in 0..locs.len()
                invariant
                    layout_ok(self),
                    locs@ == all_locs(self),
                    pred == (|l: Loc| at(self, l) == freq),
                    found@ == locs@.take(i as int).filter(pred),
            {
                let loc = locs[i];
                proof {
                    let nc = self.0.spec_ncols() as int;
                    lemma_cell_index_split(self.0.spec_nrows() as int, nc, i as int);
                    assert(locs@.take(i + 1) =~= locs@.take(i as int).push(loc));
                    locs@.take(i as int).lemma_filter_push(loc, pred);
                }
                if *self.0.at_i32(loc.0, loc.1) == freq {
                    found.push(loc);
                }
            }
            assert(locs@.take(locs@.len() as int) =~= locs@);
            out.push((freq, found));
        }
        out
    }
}

/// Whether `c` is among `v`.
fn contains_char(v: &Vec<char>, c: char) -> (r: bool)
    ensures
        r == v@.contains(c),
{
    for i in 0..v.len()
        invariant
            forall|j: int| 0 <= j < i ==> v@[j] != c,
    {
        if v[i] == c {
            return true;
        }
    }
    false
}

proof fn lemma_filter_facts(s: Seq<Loc>, pred: spec_fn(Loc) -> bool)
    requires
        s.no_duplicates(),
    ensures
        s.filter(pred).no_duplicates(),
        forall|x: Loc| #[trigger] s.filter(pred).contains(x) <==> s.contains(x) && pred(x),
    decreases s.len(),
{
    reveal(Seq::filter);
    if s.len() > 0 {
        let t = s.drop_last();
        assert forall|a: int, b: int| 0 <= a < b < t.len() implies t[a] != t[b] by {
            assert(t[a] == s[a] && t[b] == s[b]);
        }
        lemma_filter_facts(t, pred);
        let f = t.filter(pred);
        assert forall|x: Loc| #[trigger] s.contains(x) <==> t.contains(x) || x == s.last() by {
            if s.contains(x) && x != s.last() {
                let i = choose|i: int| 0 <= i < s.len() && s[i] == x;
                assert(t[i] == x);
            }
            if t.contains(x) {
                let i = choose|i: int| 0 <= i < t.len() && t[i] == x;
                assert(s[i] == x);
            }
            if x == s.last() {
                assert(s[s.len() - 1] == x);
            }
        }
        if pred(s.last()) {
            assert(!t.contains(s.last())) by {
                if t.contains(s.last()) {
                    let i = choose|i: int| 0 <= i < t.len() && t[i] == s.last();
                    assert(s[i] == s[s.len() - 1]);
                }
            }
            let g = f.push(s.last());
            assert forall|a: int, b: int| 0 <= a < b < g.len() implies g[a] != g[b] by {
                if b == f.len() {
                    assert(f.contains(g[a]));
                }
            }
            assert forall|x: Loc| #[trigger] g.contains(x) <==> f.contains(x) || x == s.last() by {
                if g.contains(x) && x != s.last() {
                    let i = choose|i: int| 0 <= i < g.len() && g[i] == x;
                    assert(f[i] == x);
                }
                if f.contains(x) {
                    let i = choose|i: int| 0 <= i < f.len() && f[i] == x;
                    assert(g[i] == x);
                }
                if x == s.last() {
                    assert(g[f.len() as int] == x);
                }
            }
        }
    }
}

/// Every location of the map is listed once in `all_locs`.
proof fn lemma_all_locs(m: &Layout)
    requires
        layout_ok(m),
    ensures
        all_locs(m).no_duplicates(),
        forall|l: Loc| #[trigger] all_locs(m).contains(l) <==> on_map(m, l),
{
    let nr = m.0.spec_nrows() as int;
    let nc = m.0.spec_ncols() as int;
    let s = all_locs(m);
    assert forall|a: int, b: int| 0 <= a < b < s.len() implies s[a] != s[b] by {
        lemma_cell_index_split(nr, nc, a);
        lemma_cell_index_split(nr, nc, b);
    }
    assert forall|l: Loc| #[trigger] s.contains(l) <==> on_map(m, l) by {
        if s.contains(l) {
            let i = choose|i: int| 0 <= i < s.len() && s[i] == l;
            lemma_cell_index_split(nr, nc, i);
        }
        if on_map(m, l) {
            lemma_cell_index(nr, nc, l.0 as int, l.1 as int);
            crate::grid::lemma_cell_index_join(nc, l.0 as int, l.1 as int);
            let i = cell_index(nc, l.0 as int, l.1 as int);
            assert(s[i] == l);
        }
    }
}

/// The locations of a frequency are listed once each, and are exactly its
/// locations.
proof fn lemma_locs_of(m: &Layout, c: char)
    requires
        layout_ok(m),
    ensures
        locs_of(m, c).no_duplicates(),
        forall|l: Loc| #[trigger] locs_of(m, c).contains(l) <==> on_map(m, l) && at(m, l) == c,
{
    lemma_all_locs(m);
    lemma_filter_facts(all_locs(m), |l: Loc| at(m, l) == c);
}

/// The frequencies are listed once each, and are exactly the characters of the
/// map but `.`.
proof fn lemma_uniq(s: Seq<char>)
    ensures
        uniq(s).no_duplicates(),
        forall|c: char| #[trigger] uniq(s).contains(c) <==> c != '.' && s.contains(c),
    decreases s.len(),
{
    if s.len() > 0 {
        let t = s.drop_last();
        lemma_uniq(t);
        let u = uniq(t);
        assert forall|c: char| #[trigger] s.contains(c) <==> t.contains(c) || c == s.last() by {
            if s.contains(c) && c != s.last() {
                let i = choose|i: int| 0 <= i < s.len() && s[i] == c;
                assert(t[i] == c);
            }
            if t.contains(c) {
                let i = choose|i: int| 0 <= i < t.len() && t[i] == c;
                assert(s[i] == c);
            }
            if c == s.last() {
                assert(s[s.len() - 1] == c);
            }
        }
        if s.last() != '.' && !u.contains(s.last()) {
            let g = u.push(s.last());
            assert forall|a: int, b: int| 0 <= a < b < g.len() implies g[a] != g[b] by {
                if b == u.len() {
                    assert(u.contains(g[a]));
                }
            }
            assert forall|c: char| #[trigger] g.contains(c) <==> u.contains(c) || c == s.last() by {
                if g.contains(c) && c != s.last() {
                    let i = choose|i: int| 0 <= i < g.len() && g[i] == c;
                    assert(u[i] == c);
                }
                if u.contains(c) {
                    let i = choose|i: int| 0 <= i < u.len() && u[i] == c;
                    assert(g[i] == c);
                }
                if c == s.last() {
                    assert(g[u.len() as int] == c);
                }
            }
        }
    }
}

/// `a` and `b` are two antennas of one frequency.
pub open spec fn antenna_pair(m: &Layout, a: Loc, b: Loc) -> bool {
    on_map(m, a) && on_map(m, b) && a != b && at(m, a) == at(m, b) && at(m, a) != '.'
}

/// The point as far beyond `a` as `b` is on the other side.
pub open spec fn mirror(a: Loc, b: Loc) -> Loc {
    Loc((2 * a.0 - b.0) as i32, (2 * a.1 - b.1) as i32)
}

/// The antinodes: points of the map twice as far from one antenna as from
/// another of the same frequency, in line with both.
pub open spec fn antinodes(m: &Layout) -> Set<Loc> {
    Set::new(|l: Loc| on_map(m, l) && exists|a: Loc, b: Loc| #[trigger] antenna_pair(m, a, b) && l == mirror(a, b))
}

/// The antinodes of the pairs of `ls` taken so far: index pairs `x < y` with
/// `x` before `i`, or `x == i` and `y` before `j`.
pub open spec fn group_upto(m: &Layout, ls: Seq<Loc>, i: int, j: int, l: Loc) -> bool {
    on_map(m, l) && exists|x: int, y: int|
        0 <= x < y < ls.len() && (x < i || (x == i && y < j)) && (l == mirror(#[trigger] ls[x], #[trigger] ls[y])
            || l == mirror(ls[y], ls[x]))
}

/// Adds `l` to `v` unless it is there already.
fn insert_loc(v: &mut Vec<Loc>, l: Loc)
    requires
        old(v)@.no_duplicates(),
    ensures
        final(v)@.no_duplicates(),
        forall|x: Loc| #[trigger] final(v)@.contains(x) <==> old(v)@.contains(x) || x == l,
{
    let ghost before = v@;
    let mut found = false;
    for i in 0..v.len()
        invariant
            v@ == before,
            found <==> exists|j: int| 0 <= j < i && before[j] == l,
    {
        if v[i] == l {
            found = true;
        }
    }
    if !found {
        v.push(l);
        proof {
            assert forall|a: int, b: int| 0 <= a < b < v@.len() implies v@[a] != v@[b] by {
                if b == before.len() {
                    assert(before.contains(v@[a]));
                }
            }
            assert forall|x: Loc| #[trigger] v@.contains(x) <==> before.contains(x) || x == l by {
                if v@.contains(x) && x != l {
                    let j = choose|j: int| 0 <= j < v@.len() && v@[j] == x;
                    assert(before[j] == x);
                }
                if before.contains(x) {
                    let j = choose|j: int| 0 <= j < before.len() && before[j] == x;
                    assert(v@[j] == x);
                }
                if x == l {
                    assert(v@[before.len() as int] == l);
                }
            }
        }
    } else {
        proof {
            let j = choose|j: int| 0 <= j < before.len() && before[j] == l;
            assert(before.contains(l));
        }
    }
}

/// A group's antennas are distinct map locations of one frequency, far enough
/// inside `i32` for the antinode arithmetic.
pub open spec fn group_ok(m: &Layout, ls: Seq<Loc>) -> bool {
    &&& ls.no_duplicates()
    &&& forall|x: int| 0 <= x < ls.len() ==> on_map(m, #[trigger] ls[x])
}

/// Adds the antinodes of every pair of `ls` to `out`.
fn add_group_antinodes(data: &Layout, out: &mut Vec<Loc>, ls: &Vec<Loc>)
    requires
        layout_ok(data),
        group_ok(data, ls@),
        old(out)@.no_duplicates(),
    ensures
        final(out)@.no_duplicates(),
        forall|l: Loc| #[trigger] final(out)@.contains(l) <==> old(out)@.contains(l) || group_upto(data, ls@, ls@.len() as int, 0, l),
{
    let ghost before = out@;
    let n = ls.len();
    for i in 0..n
        invariant
            layout_ok(data),
            group_ok(data, ls@),
            n == ls@.len(),
            out@.no_duplicates(),
            forall|l: Loc| #[trigger] out@.contains(l) <==> before.contains(l) || group_upto(data, ls@, i as int, 0, l),
    {
        for j in i + 1..n
            invariant
                layout_ok(data),
                group_ok(data, ls@),
                n == ls@.len(),
                i < n,
                out@.no_duplicates(),
                forall|l: Loc| #[trigger] out@.contains(l) <==> before.contains(l) || group_upto(data, ls@, i as int, j as int, l),
        {
            let node0 = ls[i];
            let node1 = ls[j];
            assert(on_map(data, ls@[i as int]) && on_map(data, ls@[j as int]));
            let drow = node1.row() - node0.row();
            let dcol = node1.col() - node0.col();
            let an0 = Loc(node0.row() - drow, node0.col() - dcol);
            let an1 = Loc(node1.row() + drow, node1.col() + dcol);
            assert(an0 == mirror(node0, node1));
            assert(an1 == mirror(node1, node0));
            let ghost o0 = out@;
            if data.is_inbounds(&an0) {
                insert_loc(out, an0);
            }
            let ghost o1 = out@;
            if data.is_inbounds(&an1) {
                insert_loc(out, an1);
            }
            proof {
                assert forall|l: Loc| #[trigger] out@.contains(l) <==> before.contains(l) || group_upto(
                    data,
                    ls@,
                    i as int,
                    j + 1,
                    l,
                ) by {
                    if group_upto(data, ls@, i as int, j + 1, l) && !group_upto(data, ls@, i as int, j as int, l) {
                        let (x, y) = choose|x: int, y: int|
                            0 <= x < y < ls@.len() && (x < i || (x == i && y < j + 1)) && (l == mirror(
                                #[trigger] ls@[x],
                                #[trigger] ls@[y],
                            ) || l == mirror(ls@[y], ls@[x]));
                        assert(x == i && y == j);
                    }
                    if group_upto(data, ls@, i as int, j as int, l) {
                        let (x, y) = choose|x: int, y: int|
                            0 <= x < y < ls@.len() && (x < i || (x == i && y < j)) && (l == mirror(
                                #[trigger] ls@[x],
                                #[trigger] ls@[y],
                            ) || l == mirror(ls@[y], ls@[x]));
                        assert(0 <= x < y < ls@.len() && (x < i || (x == i && y < j + 1)));
                    }
                    if (l == an0 || l == an1) && on_map(data, l) {
                        assert(ls@[i as int] == node0 && ls@[j as int] == node1);
                        assert(0 <= i < j < ls@.len() && (i < i || (i == i && j < j + 1)));
                    }
                }
            }
        }
        proof {
            assert forall|l: Loc| #[trigger] out@.contains(l) <==> before.contains(l) || group_upto(data, ls@, i + 1, 0, l) by {
                if group_upto(data, ls@, i + 1, 0, l) {
                    let (x, y) = choose|x: int, y: int|
                        0 <= x < y < ls@.len() && (x < i + 1 || (x == i + 1 && y < 0)) && (l == mirror(
                            #[trigger] ls@[x],
                            #[trigger] ls@[y],
                        ) || l == mirror(ls@[y], ls@[x]));
                    assert(x < i || (x == i && y < n));
                }
                if group_upto(data, ls@, i as int, n as int, l) {
                    let (x, y) = choose|x: int, y: int|
                        0 <= x < y < ls@.len() && (x < i || (x == i && y < n)) && (l == mirror(
                            #[trigger] ls@[x],
                            #[trigger] ls@[y],
                        ) || l == mirror(ls@[y], ls@[x]));
                    assert(x < i + 1);
                }
            }
        }
    }
    proof {
        assert forall|l: Loc| #[trigger] out@.contains(l) <==> before.contains(l) || group_upto(data, ls@, n as int, 0, l) by {
        }
    }
}

/// The antinodes of the pairs of the first `k` frequencies.
pub open spec fn groups_upto(m: &Layout, k: int, l: Loc) -> bool {
    exists|j: int|
        0 <= j < k && #[trigger] group_upto(
            m,
            locs_of(m, uniq(m.0@)[j]),
            locs_of(m, uniq(m.0@)[j]).len() as int,
            0,
            l,
        )
}

/// The antinodes are those of the pairs within each frequency.
proof fn lemma_antinodes_groups(m: &Layout)
    requires
        layout_ok(m),
    ensures
        forall|l: Loc| #[trigger] antinodes(m).contains(l) <==> groups_upto(m, uniq(m.0@).len() as int, l),
{
    let u = uniq(m.0@);
    let nr = m.0.spec_nrows() as int;
    let nc = m.0.spec_ncols() as int;
    lemma_uniq(m.0@);
    assert forall|l: Loc| #[trigger] antinodes(m).contains(l) <==> groups_upto(m, u.len() as int, l) by {
        if antinodes(m).contains(l) {
            let (a, b) = choose|a: Loc, b: Loc| #[trigger] antenna_pair(m, a, b) && l == mirror(a, b);
            let c = at(m, a);
            lemma_cell_index(nr, nc, a.0 as int, a.1 as int);
            assert(m.0@[cell_index(nc, a.0 as int, a.1 as int)] == c);
            assert(m.0@.contains(c));
            assert(u.contains(c));
            let j = choose|j: int| 0 <= j < u.len() && u[j] == c;
            let ls = locs_of(m, c);
            lemma_locs_of(m, c);
            assert(ls.contains(a));
            assert(ls.contains(b));
            let xa = choose|x: int| 0 <= x < ls.len() && ls[x] == a;
            let xb = choose|x: int| 0 <= x < ls.len() && ls[x] == b;
            if xa < xb {
                assert(l == mirror(ls[xa], ls[xb]));
            } else {
                assert(l == mirror(ls[xa], ls[xb]));
                assert(xb < xa);
            }
            assert(group_upto(m, ls, ls.len() as int, 0, l));
            assert(group_upto(m, locs_of(m, u[j]), locs_of(m, u[j]).len() as int, 0, l));
        }
        if groups_upto(m, u.len() as int, l) {
            let j = choose|j: int|
                0 <= j < u.len() && #[trigger] group_upto(
                    m,
                    locs_of(m, u[j]),
                    locs_of(m, u[j]).len() as int,
                    0,
                    l,
                );
            let c = u[j];
            let ls = locs_of(m, c);
            lemma_locs_of(m, c);
            assert(u.contains(c));
            let (x, y) = choose|x: int, y: int|
                0 <= x < y < ls.len() && (x < ls.len() || (x == ls.len() && y < 0)) && (l == mirror(
                    #[trigger] ls[x],
                    #[trigger] ls[y],
                ) || l == mirror(ls[y], ls[x]));
            assert(ls.contains(ls[x]));
            assert(ls.contains(ls[y]));
            assert(antenna_pair(m, ls[x], ls[y]));
            assert(antenna_pair(m, ls[y], ls[x]));
        }
    }
}

/// Part 1: the number of distinct antinodes on the map.
pub fn part1(data: &Layout) -> (r: usize)
    requires
        layout_ok(data),
    ensures
        r == antinodes(data).len(),
{
    let groups = data.freq_locs();
    let mut out: Vec<Loc> = Vec::new();
    for k in 0..groups.len()
        invariant
            layout_ok(data),
            groups@.len() == uniq(data.0@).len(),
            forall|j: int|
                0 <= j < groups@.len() ==> (#[trigger] groups@[j]).0 == uniq(data.0@)[j] && groups@[j].1@
                    == locs_of(data, groups@[j].0),
            out@.no_duplicates(),
            forall|l: Loc| #[trigger] out@.contains(l) <==> groups_upto(data, k as int, l),
    {
        let ghost ls = groups@[k as int].1@;
        proof {
            lemma_locs_of(data, groups@[k as int].0);
            assert forall|x: int| 0 <= x < ls.len() implies on_map(data, #[trigger] ls[x]) by {
                assert(ls.contains(ls[x]));
            }
        }
        add_group_antinodes(data, &mut out, &groups[k].1);
        proof {
            assert forall|l: Loc| #[trigger] out@.contains(l) <==> groups_upto(data, k + 1, l) by {
                let u = uniq(data.0@);
                if groups_upto(data, k + 1, l) {
                    let j = choose|j: int|
                        0 <= j < k + 1 && #[trigger] group_upto(
                            data,
                            locs_of(data, u[j]),
                            locs_of(data, u[j]).len() as int,
                            0,
                            l,
                        );
                    if j < k {
                        assert(groups_upto(data, k as int, l));
                    }
                }
                if group_upto(data, ls, ls.len() as int, 0, l) {
                    assert(group_upto(data, locs_of(data, u[k as int]), locs_of(data, u[k as int]).len() as int, 0, l));
                }
                if groups_upto(data, k as int, l) {
                    let j = choose|j: int|
                        0 <= j < k && #[trigger] group_upto(
                            data,
                            locs_of(data, u[j]),
                            locs_of(data, u[j]).len() as int,
                            0,
                            l,
                        );
                    assert(0 <= j < k + 1);
                }
            }
        }
    }
    proof {
        lemma_antinodes_groups(data);
        assert(out@.to_set() =~= antinodes(data));
        out@.unique_seq_to_set();
    }
    out.len()
}

/// Size of `x`, whatever its sign.
pub open spec fn magnitude(x: int) -> nat {
    if x < 0 {
        (-x) as nat
    } else {
        x as nat
    }
}

/// Greatest common divisor, by Euclid's algorithm; `gcd_nat(0, 0) == 0`.
pub open spec fn gcd_nat(a: nat, b: nat) -> nat
    decreases b,
{
    if b == 0 {
        a
    } else {
        gcd_nat(b, a % b)
    }
}

/// `num::Integer::gcd` on `i32`: the greatest common divisor of the two
/// magnitudes, never negative, and 0 for (0, 0). `i32::MIN` is left out: the
/// crate takes `abs` of it on some paths.
#[verifier::external_body]
fn gcd_i32(a: i32, b: i32) -> (r: i32)
    requires
        a != i32::MIN,
        b != i32::MIN,
    ensures
        r as int == gcd_nat(magnitude(a as int), magnitude(b as int)) as int,
{
    a.gcd(&b)
}

/// The gcd of two numbers, not both 0, is positive and divides both.
proof fn lemma_gcd(a: nat, b: nat)
    requires
        a > 0 || b > 0,
    ensures
        gcd_nat(a, b) > 0,
        a % gcd_nat(a, b) == 0,
        b % gcd_nat(a, b) == 0,
    decreases b,
{
    if b == 0 {
        vstd::arithmetic::div_mod::lemma_mod_self_0(a as int);
    } else {
        let r = a % b;
        lemma_gcd(b, r);
        let g = gcd_nat(b, r) as int;
        vstd::arithmetic::div_mod::lemma_fundamental_div_mod(a as int, b as int);
        vstd::arithmetic::div_mod::lemma_fundamental_div_mod(b as int, g);
        vstd::arithmetic::div_mod::lemma_fundamental_div_mod(r as int, g);
        let q = (b as int / g) * (a as int / b as int) + (r as int) / g;
        assert(a == q * g) by (nonlinear_arith)
            requires
                a == b * (a as int / b as int) + r,
                b == g * (b as int / g) + 0,
                r == g * (r as int / g) + 0,
                q == (b as int / g) * (a as int / b as int) + (r as int) / g,
        ;
        vstd::arithmetic::div_mod::lemma_mod_multiples_basic(q, g);
    }
}

/// Dividing by a positive divisor of the magnitude is exact, keeps the sign,
/// and does not grow.
proof fn lemma_exact_div(x: int, g: int)
    requires
        g > 0,
        (magnitude(x) as int) % g == 0,
    ensures
        x == g * (x / g),
        magnitude(x / g) <= magnitude(x),
        x != 0 ==> x / g != 0,
        (-x) / g == -(x / g),
{
    let m = magnitude(x) as int;
    vstd::arithmetic::div_mod::lemma_fundamental_div_mod(m, g);
    let q = m / g;
    assert(m == g * q);
    assert(0 <= q <= g * q) by (nonlinear_arith)
        requires
            g > 0,
            m == g * q,
            m >= 0,
    ;
    vstd::arithmetic::div_mod::lemma_div_multiples_vanish(q, g);
    vstd::arithmetic::div_mod::lemma_div_multiples_vanish(-q, g);
    assert(g * (-q) == -(g * q)) by (nonlinear_arith);
    if x >= 0 {
        assert(x == g * q);
        assert((-x) == g * (-q));
    } else {
        assert(x == g * (-q));
        assert((-x) == g * q);
    }
}

/// `l` is `k` steps of `(dr, dc)` from `a`.
pub open spec fn at_step(a: Loc, dr: int, dc: int, k: int, l: Loc) -> bool {
    l.0 == a.0 + k * dr && l.1 == a.1 + k * dc
}

/// `l` is some number of steps of `(dr, dc)` from `a`, forward or back.
pub open spec fn on_grid_line(a: Loc, dr: int, dc: int, l: Loc) -> bool {
    exists|k: int| #[trigger] at_step(a, dr, dc, k, l)
}

/// `l` is a whole number of steps of `(dr, dc)` ahead of `a`.
pub open spec fn ray_hit(a: Loc, dr: int, dc: int, l: Loc) -> bool {
    exists|k: int| k >= 0 && #[trigger] at_step(a, dr, dc, k, l)
}

/// The smallest whole step from `a` toward `b`: their difference divided by
/// the gcd of its parts.
pub open spec fn unit_step(a: Loc, b: Loc) -> (int, int) {
    let g = gcd_nat(magnitude(b.0 - a.0), magnitude(b.1 - a.1)) as int;
    ((b.0 - a.0) / g, (b.1 - a.1) / g)
}

/// `l` is a grid point on the line through `a` and `b`.
pub open spec fn in_line(a: Loc, b: Loc, l: Loc) -> bool {
    on_grid_line(a, unit_step(a, b).0, unit_step(a, b).1, l)
}

/// The antinodes with resonance: every point of the map in line with two
/// antennas of one frequency.
pub open spec fn resonant_antinodes(m: &Layout) -> Set<Loc> {
    Set::new(|l: Loc| on_map(m, l) && exists|a: Loc, b: Loc| #[trigger] antenna_pair(m, a, b) && in_line(a, b, l))
}

/// A point between the start and an in-range point of a line is in range.
proof fn lemma_between(x0: int, d: int, i: int, k: int, n: int)
    requires
        0 <= x0 < n,
        0 <= i <= k,
        0 <= x0 + k * d < n,
    ensures
        0 <= x0 + i * d < n,
{
    if d >= 0 {
        assert(0 <= i * d <= k * d) by (nonlinear_arith)
            requires
                0 <= i <= k,
                d >= 0,
        ;
    } else {
        assert(k * d <= i * d <= 0) by (nonlinear_arith)
            requires
                0 <= i <= k,
                d < 0,
        ;
    }
}

/// After `n` or more nonzero steps a line has left a range of length `n`.
proof fn lemma_far(x0: int, d: int, k: int, n: int)
    requires
        0 <= x0 < n,
        d != 0,
        k >= n,
    ensures
        !(0 <= x0 + k * d < n),
{
    if d > 0 {
        assert(k * d >= k) by (nonlinear_arith)
            requires
                d >= 1,
                k >= 0,
        ;
    } else {
        assert(k * d <= -k) by (nonlinear_arith)
            requires
                d <= -1,
                k >= 0,
        ;
    }
}

/// One step past an in-range point stays well inside `i32`.
proof fn lemma_ray_bound(x0: int, d: int, i: int, n: int)
    requires
        0 <= x0 < n <= 0x4000_0000,
        -0x3fff_ffff <= d <= 0x3fff_ffff,
        0 <= i,
        i == 0 || 0 <= x0 + (i - 1) * d < n,
    ensures
        i32::MIN <= i * d <= i32::MAX,
        i32::MIN <= x0 + i * d <= i32::MAX,
{
    assert(i * d == (i - 1) * d + d) by (nonlinear_arith);
}

/// Walks from `a` in steps of `(dr, dc)`, adding each point to `out`, until
/// the walk leaves the map or has taken `max_iter` steps.
fn add_ray(data: &Layout, out: &mut Vec<Loc>, a: Loc, dr: i32, dc: i32, max_iter: i32)
    requires
        layout_ok(data),
        on_map(data, a),
        dr != 0 || dc != 0,
        -0x3fff_ffff <= dr <= 0x3fff_ffff,
        -0x3fff_ffff <= dc <= 0x3fff_ffff,
        max_iter == (if data.0.spec_nrows() >= data.0.spec_ncols() {
            data.0.spec_nrows()
        } else {
            data.0.spec_ncols()
        }),
        old(out)@.no_duplicates(),
    ensures
        final(out)@.no_duplicates(),
        forall|l: Loc| #[trigger]
            final(out)@.contains(l) <==> old(out)@.contains(l) || (on_map(data, l) && ray_hit(
                a,
                dr as int,
                dc as int,
                l,
            )),
{
    let ghost before = out@;
    let ghost nr = data.0.spec_nrows() as int;
    let ghost nc = data.0.spec_ncols() as int;
    let mut i: i32 = 0;
    while i < max_iter
        invariant
            layout_ok(data),
            on_map(data, a),
            nr == data.0.spec_nrows(),
            nc == data.0.spec_ncols(),
            -0x3fff_ffff <= dr <= 0x3fff_ffff,
            -0x3fff_ffff <= dc <= 0x3fff_ffff,
            max_iter == (if nr >= nc {
                nr
            } else {
                nc
            }),
            0 <= i <= max_iter,
            i > 0 ==> (0 <= a.0 + (i - 1) * dr < nr && 0 <= a.1 + (i - 1) * dc < nc),
            out@.no_duplicates(),
            forall|l: Loc| #[trigger]
                out@.contains(l) <==> before.contains(l) || (on_map(data, l) && exists|k: int|
                    0 <= k < i && #[trigger] at_step(a, dr as int, dc as int, k, l)),
        ensures
            0 <= i <= max_iter,
            out@.no_duplicates(),
            forall|l: Loc| #[trigger]
                out@.contains(l) <==> before.contains(l) || (on_map(data, l) && exists|k: int|
                    0 <= k < i && #[trigger] at_step(a, dr as int, dc as int, k, l)),
            i == max_iter || !(0 <= a.0 + i * dr < nr && 0 <= a.1 + i * dc < nc),
        decreases max_iter - i,
    {
        proof {
            lemma_ray_bound(a.0 as int, dr as int, i as int, nr);
            lemma_ray_bound(a.1 as int, dc as int, i as int, nc);
        }
        let an = Loc(a.0 + i * dr, a.1 + i * dc);
        if data.is_inbounds(&an) {
            let ghost o = out@;
            insert_loc(out, an);
            proof {
                assert(at_step(a, dr as int, dc as int, i as int, an));
                assert forall|l: Loc| #[trigger]
                    out@.contains(l) <==> before.contains(l) || (on_map(data, l) && exists|k: int|
                        0 <= k < i + 1 && #[trigger] at_step(a, dr as int, dc as int, k, l)) by {
                    if on_map(data, l) && exists|k: int| 0 <= k < i + 1 && #[trigger] at_step(a, dr as int, dc as int, k, l) {
                        let k = choose|k: int| 0 <= k < i + 1 && #[trigger] at_step(a, dr as int, dc as int, k, l);
                        if k == i {
                            assert(l == an);
                        }
                    }
                }
            }
            i = i + 1;
        } else {
            break;
        }
    }
    proof {
        assert forall|l: Loc| #[trigger]
            out@.contains(l) <==> before.contains(l) || (on_map(data, l) && ray_hit(a, dr as int, dc as int, l)) by {
            if on_map(data, l) && ray_hit(a, dr as int, dc as int, l) {
                let k = choose|k: int| k >= 0 && #[trigger] at_step(a, dr as int, dc as int, k, l);
                if k >= i {
                    if i == max_iter {
                        if dr != 0 {
                            lemma_far(a.0 as int, dr as int, k, nr);
                        } else {
                            lemma_far(a.1 as int, dc as int, k, nc);
                        }
                    } else {
                        lemma_between(a.0 as int, dr as int, i as int, k, nr);
                        lemma_between(a.1 as int, dc as int, i as int, k, nc);
                    }
                }
                assert(0 <= k < i);
            }
        }
    }
}

/// Walking back is walking forward a negative number of steps.
proof fn lemma_two_rays(a: Loc, dr: int, dc: int)
    ensures
        forall|l: Loc|
            (ray_hit(a, -dr, -dc, l) || ray_hit(a, dr, dc, l)) <==> #[trigger] on_grid_line(a, dr, dc, l),
{
    assert forall|k: int, l: Loc| #[trigger] at_step(a, -dr, -dc, k, l) <==> at_step(a, dr, dc, -k, l) by {
        assert(k * (-dr) == (-k) * dr) by (nonlinear_arith);
        assert(k * (-dc) == (-k) * dc) by (nonlinear_arith);
    }
    assert forall|l: Loc|
        (ray_hit(a, -dr, -dc, l) || ray_hit(a, dr, dc, l)) <==> #[trigger] on_grid_line(a, dr, dc, l) by {
        if ray_hit(a, -dr, -dc, l) {
            let k = choose|k: int| k >= 0 && #[trigger] at_step(a, -dr, -dc, k, l);
            assert(at_step(a, dr, dc, -k, l));
        }
        if on_grid_line(a, dr, dc, l) {
            let k = choose|k: int| #[trigger] at_step(a, dr, dc, k, l);
            if k < 0 {
                assert(at_step(a, -dr, -dc, -k, l));
            }
        }
    }
}

/// The line through two distinct points is the same from either end.
proof fn lemma_in_line_sym(a: Loc, b: Loc, l: Loc)
    requires
        a != b,
        in_line(a, b, l),
    ensures
        in_line(b, a, l),
{
    let x = b.0 - a.0;
    let y = b.1 - a.1;
    assert(magnitude(a.0 - b.0) == magnitude(x));
    assert(magnitude(a.1 - b.1) == magnitude(y));
    assert(x != 0 || y != 0);
    lemma_gcd(magnitude(x), magnitude(y));
    let g = gcd_nat(magnitude(x), magnitude(y)) as int;
    lemma_exact_div(x, g);
    lemma_exact_div(y, g);
    assert(a.0 - b.0 == -x);
    assert(a.1 - b.1 == -y);
    let sr = x / g;
    let sc = y / g;
    assert(unit_step(b, a) == (-sr, -sc));
    let k = choose|k: int| #[trigger] at_step(a, sr, sc, k, l);
    assert(b.0 + (g - k) * (-sr) == a.0 + k * sr) by (nonlinear_arith)
        requires
            x == g * sr,
            x == b.0 - a.0,
    ;
    assert(b.1 + (g - k) * (-sc) == a.1 + k * sc) by (nonlinear_arith)
        requires
            y == g * sc,
            y == b.1 - a.1,
    ;
    assert(at_step(b, -sr, -sc, g - k, l));
}

/// The resonant antinodes of the pairs of `ls` taken so far: index pairs
/// `x < y` with `x` before `i`, or `x == i` and `y` before `j`.
pub open spec fn line_group_upto(m: &Layout, ls: Seq<Loc>, i: int, j: int, l: Loc) -> bool {
    on_map(m, l) && exists|x: int, y: int|
        0 <= x < y < ls.len() && (x < i || (x == i && y < j)) && in_line(#[trigger] ls[x], #[trigger] ls[y], l)
}

/// Adds every map point in line with a pair of `ls` to `out`.
fn add_group_lines(data: &Layout, out: &mut Vec<Loc>, ls: &Vec<Loc>, max_iter: i32)
    requires
        layout_ok(data),
        group_ok(data, ls@),
        max_iter == (if data.0.spec_nrows() >= data.0.spec_ncols() {
            data.0.spec_nrows()
        } else {
            data.0.spec_ncols()
        }),
        old(out)@.no_duplicates(),
    ensures
        final(out)@.no_duplicates(),
        forall|l: Loc| #[trigger]
            final(out)@.contains(l) <==> old(out)@.contains(l) || line_group_upto(data, ls@, ls@.len() as int, 0, l),
{
    let ghost before = out@;
    let n = ls.len();
    for i in 0..n
        invariant
            layout_ok(data),
            group_ok(data, ls@),
            max_iter == (if data.0.spec_nrows() >= data.0.spec_ncols() {
                data.0.spec_nrows()
            } else {
                data.0.spec_ncols()
            }),
            n == ls@.len(),
            out@.no_duplicates(),
            forall|l: Loc| #[trigger] out@.contains(l) <==> before.contains(l) || line_group_upto(data, ls@, i as int, 0, l),
    {
        for j in i + 1..n
            invariant
                layout_ok(data),
                group_ok(data, ls@),
                max_iter == (if data.0.spec_nrows() >= data.0.spec_ncols() {
                    data.0.spec_nrows()
                } else {
                    data.0.spec_ncols()
                }),
                n == ls@.len(),
                i < n,
                out@.no_duplicates(),
                forall|l: Loc| #[trigger]
                    out@.contains(l) <==> before.contains(l) || line_group_upto(data, ls@, i as int, j as int, l),
        {
            let node0 = ls[i];
            let node1 = ls[j];
            assert(on_map(data, ls@[i as int]) && on_map(data, ls@[j as int]));
            assert(node0 != node1);
            let drow = node1.row() - node0.row();
            let dcol = node1.col() - node0.col();
            let g = gcd_i32(drow, dcol);
            proof {
                assert(drow != 0 || dcol != 0);
                lemma_gcd(magnitude(drow as int), magnitude(dcol as int));
                lemma_exact_div(drow as int, g as int);
                lemma_exact_div(dcol as int, g as int);
            }
            let dr = drow.checked_div_euclid(g).unwrap();
            let dc = dcol.checked_div_euclid(g).unwrap();
            assert(unit_step(node0, node1) == (dr as int, dc as int));
            let ghost o0 = out@;
            add_ray(data, out, node0, -dr, -dc, max_iter);
            add_ray(data, out, node0, dr, dc, max_iter);
            proof {
                lemma_two_rays(node0, dr as int, dc as int);
                assert forall|l: Loc| #[trigger]
                    out@.contains(l) <==> before.contains(l) || line_group_upto(data, ls@, i as int, j + 1, l) by {
                    if line_group_upto(data, ls@, i as int, j + 1, l) && !line_group_upto(data, ls@, i as int, j as int, l) {
                        let (x, y) = choose|x: int, y: int|
                            0 <= x < y < ls@.len() && (x < i || (x == i && y < j + 1)) && in_line(
                                #[trigger] ls@[x],
                                #[trigger] ls@[y],
                                l,
                            );
                        assert(x == i && y == j);
                        assert(on_grid_line(node0, dr as int, dc as int, l));
                    }
                    if line_group_upto(data, ls@, i as int, j as int, l) {
                        let (x, y) = choose|x: int, y: int|
                            0 <= x < y < ls@.len() && (x < i || (x == i && y < j)) && in_line(
                                #[trigger] ls@[x],
                                #[trigger] ls@[y],
                                l,
                            );
                        assert(0 <= x < y < ls@.len() && (x < i || (x == i && y < j + 1)));
                    }
                    if on_map(data, l) && on_grid_line(node0, dr as int, dc as int, l) {
                        assert(ls@[i as int] == node0 && ls@[j as int] == node1);
                        assert(in_line(ls@[i as int], ls@[j as int], l));
                        assert(0 <= i < j < ls@.len() && (i < i || (i == i && j < j + 1)));
                    }
                }
            }
        }
        proof {
            assert forall|l: Loc| #[trigger]
                out@.contains(l) <==> before.contains(l) || line_group_upto(data, ls@, i + 1, 0, l) by {
                if line_group_upto(data, ls@, i + 1, 0, l) {
                    let (x, y) = choose|x: int, y: int|
                        0 <= x < y < ls@.len() && (x < i + 1 || (x == i + 1 && y < 0)) && in_line(
                            #[trigger] ls@[x],
                            #[trigger] ls@[y],
                            l,
                        );
                    assert(x < i || (x == i && y < n));
                }
                if line_group_upto(data, ls@, i as int, n as int, l) {
                    let (x, y) = choose|x: int, y: int|
                        0 <= x < y < ls@.len() && (x < i || (x == i && y < n)) && in_line(
                            #[trigger] ls@[x],
                            #[trigger] ls@[y],
                            l,
                        );
                    assert(x < i + 1);
                }
            }
        }
    }
}

/// The resonant antinodes of the pairs of the first `k` frequencies.
pub open spec fn line_groups_upto(m: &Layout, k: int, l: Loc) -> bool {
    exists|j: int|
        0 <= j < k && #[trigger] line_group_upto(
            m,
            locs_of(m, uniq(m.0@)[j]),
            locs_of(m, uniq(m.0@)[j]).len() as int,
            0,
            l,
        )
}

/// The resonant antinodes are those of the pairs within each frequency.
proof fn lemma_resonant_groups(m: &Layout)
    requires
        layout_ok(m),
    ensures
        forall|l: Loc| #[trigger] resonant_antinodes(m).contains(l) <==> line_groups_upto(m, uniq(m.0@).len() as int, l),
{
    let u = uniq(m.0@);
    let nr = m.0.spec_nrows() as int;
    let nc = m.0.spec_ncols() as int;
    lemma_uniq(m.0@);
    assert forall|l: Loc| #[trigger] resonant_antinodes(m).contains(l) <==> line_groups_upto(m, u.len() as int, l) by {
        if resonant_antinodes(m).contains(l) {
            let (a, b) = choose|a: Loc, b: Loc| #[trigger] antenna_pair(m, a, b) && in_line(a, b, l);
            let c = at(m, a);
            lemma_cell_index(nr, nc, a.0 as int, a.1 as int);
            assert(m.0@[cell_index(nc, a.0 as int, a.1 as int)] == c);
            assert(m.0@.contains(c));
            assert(u.contains(c));
            let j = choose|j: int| 0 <= j < u.len() && u[j] == c;
            let ls = locs_of(m, c);
            lemma_locs_of(m, c);
            assert(ls.contains(a));
            assert(ls.contains(b));
            let xa = choose|x: int| 0 <= x < ls.len() && ls[x] == a;
            let xb = choose|x: int| 0 <= x < ls.len() && ls[x] == b;
            if xa < xb {
                assert(in_line(ls[xa], ls[xb], l));
            } else {
                lemma_in_line_sym(a, b, l);
                assert(in_line(ls[xb], ls[xa], l));
                assert(xb < xa);
            }
            assert(line_group_upto(m, ls, ls.len() as int, 0, l));
            assert(line_group_upto(m, locs_of(m, u[j]), locs_of(m, u[j]).len() as int, 0, l));
        }
        if line_groups_upto(m, u.len() as int, l) {
            let j = choose|j: int|
                0 <= j < u.len() && #[trigger] line_group_upto(
                    m,
                    locs_of(m, u[j]),
                    locs_of(m, u[j]).len() as int,
                    0,
                    l,
                );
            let c = u[j];
            let ls = locs_of(m, c);
            lemma_locs_of(m, c);
            assert(u.contains(c));
            let (x, y) = choose|x: int, y: int|
                0 <= x < y < ls.len() && (x < ls.len() || (x == ls.len() && y < 0)) && in_line(
                    #[trigger] ls[x],
                    #[trigger] ls[y],
                    l,
                );
            assert(ls.contains(ls[x]));
            assert(ls.contains(ls[y]));
            assert(antenna_pair(m, ls[x], ls[y]));
        }
    }
}

/// Part 2: the number of distinct map points in line with two antennas of one
/// frequency.
pub fn part2(data: &Layout) -> (r: usize)
    requires
        layout_ok(data),
    ensures
        r == resonant_antinodes(data).len(),
{
    let nrows = data.nrows();
    let ncols = data.ncols();
    let max_iter = if nrows >= ncols {
        nrows
    } else {
        ncols
    };
    let groups = data.freq_locs();
    let mut out: Vec<Loc> = Vec::new();
    for k in 0..groups.len()
        invariant
            layout_ok(data),
            max_iter == (if data.0.spec_nrows() >= data.0.spec_ncols() {
                data.0.spec_nrows()
            } else {
                data.0.spec_ncols()
            }),
            groups@.len() == uniq(data.0@).len(),
            forall|j: int|
                0 <= j < groups@.len() ==> (#[trigger] groups@[j]).0 == uniq(data.0@)[j] && groups@[j].1@
                    == locs_of(data, groups@[j].0),
            out@.no_duplicates(),
            forall|l: Loc| #[trigger] out@.contains(l) <==> line_groups_upto(data, k as int, l),
    {
        let ghost ls = groups@[k as int].1@;
        proof {
            lemma_locs_of(data, groups@[k as int].0);
            assert forall|x: int| 0 <= x < ls.len() implies on_map(data, #[trigger] ls[x]) by {
                assert(ls.contains(ls[x]));
            }
        }
        add_group_lines(data, &mut out, &groups[k].1, max_iter);
        proof {
            assert forall|l: Loc| #[trigger] out@.contains(l) <==> line_groups_upto(data, k + 1, l) by {
                let u = uniq(data.0@);
                if line_groups_upto(data, k + 1, l) {
                    let j = choose|j: int|
                        0 <= j < k + 1 && #[trigger] line_group_upto(
                            data,
                            locs_of(data, u[j]),
                            locs_of(data, u[j]).len() as int,
                            0,
                            l,
                        );
                    if j < k {
                        assert(line_groups_upto(data, k as int, l));
                    }
                }
                if line_group_upto(data, ls, ls.len() as int, 0, l) {
                    assert(line_group_upto(
                        data,
                        locs_of(data, u[k as int]),
                        locs_of(data, u[k as int]).len() as int,
                        0,
                        l,
                    ));
                }
                if line_groups_upto(data, k as int, l) {
                    let j = choose|j: int|
                        0 <= j < k && #[trigger] line_group_upto(
                            data,
                            locs_of(data, u[j]),
                            locs_of(data, u[j]).len() as int,
                            0,
                            l,
                        );
                    assert(0 <= j < k + 1);
                }
            }
        }
    }
    proof {
        lemma_resonant_groups(data);
        assert(out@.to_set() =~= resonant_antinodes(data));
        out@.unique_seq_to_set();
    }
    out.len()
}

/// The antinodes are exactly the map points `l` with two antennas `a`, `b` of
/// one frequency in line with `l`, `b` twice as far from `l` as `a` is, on the
/// same side: `l - b == 2 * (l - a)`.
pub proof fn lemma_antinode_distances(m: &Layout, l: Loc)
    requires
        layout_ok(m),
    ensures
        antinodes(m).contains(l) <==> on_map(m, l) && exists|a: Loc, b: Loc|
            #[trigger] antenna_pair(m, a, b) && l.0 - b.0 == 2 * (l.0 - a.0) && l.1 - b.1 == 2 * (l.1 - a.1),
{
    if antinodes(m).contains(l) {
        let (a, b) = choose|a: Loc, b: Loc| #[trigger] antenna_pair(m, a, b) && l == mirror(a, b);
        assert(antenna_pair(m, a, b));
        assert(l.0 - b.0 == 2 * (l.0 - a.0) && l.1 - b.1 == 2 * (l.1 - a.1));
    }
    if on_map(m, l) && exists|a: Loc, b: Loc|
        #[trigger] antenna_pair(m, a, b) && l.0 - b.0 == 2 * (l.0 - a.0) && l.1 - b.1 == 2 * (l.1 - a.1) {
        let (a, b) = choose|a: Loc, b: Loc|
            #[trigger] antenna_pair(m, a, b) && l.0 - b.0 == 2 * (l.0 - a.0) && l.1 - b.1 == 2 * (l.1 - a.1);
        assert(l == mirror(a, b));
        assert(antinodes(m).contains(l));
    }
}

/// Every antinode is an antinode with resonance too: the point beyond `a`
/// at `b`'s distance lies on the line through `a` and `b`. And every antenna
/// that shares its frequency with another is itself such an antinode.
pub proof fn lemma_antinodes_resonate(m: &Layout)
    requires
        layout_ok(m),
    ensures
        antinodes(m).subset_of(resonant_antinodes(m)),
        forall|a: Loc, b: Loc| #[trigger] antenna_pair(m, a, b) ==> resonant_antinodes(m).contains(a),
{
    assert forall|l: Loc| antinodes(m).contains(l) implies resonant_antinodes(m).contains(l) by {
        let (a, b) = choose|a: Loc, b: Loc| #[trigger] antenna_pair(m, a, b) && l == mirror(a, b);
        let x = b.0 - a.0;
        let y = b.1 - a.1;
        assert(x != 0 || y != 0);
        lemma_gcd(magnitude(x), magnitude(y));
        let g = gcd_nat(magnitude(x), magnitude(y)) as int;
        lemma_exact_div(x, g);
        lemma_exact_div(y, g);
        let sr = x / g;
        let sc = y / g;
        assert(unit_step(a, b) == (sr, sc));
        assert(l.0 == a.0 + (-g) * sr) by (nonlinear_arith)
            requires
                x == g * sr,
                x == b.0 - a.0,
                l.0 == 2 * a.0 - b.0,
        ;
        assert(l.1 == a.1 + (-g) * sc) by (nonlinear_arith)
            requires
                y == g * sc,
                y == b.1 - a.1,
                l.1 == 2 * a.1 - b.1,
        ;
        assert(at_step(a, sr, sc, -g, l));
        assert(in_line(a, b, l));
    }
    assert forall|a: Loc, b: Loc| #[trigger] antenna_pair(m, a, b) implies resonant_antinodes(m).contains(a) by {
        let u = unit_step(a, b);
        assert(at_step(a, u.0, u.1, 0, a));
        assert(in_line(a, b, a));
    }
}

} // verus!
