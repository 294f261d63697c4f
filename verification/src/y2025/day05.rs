//! Fresh ingredient ids: which ids fall in some range, and how many ids the
//! ranges cover once overlapping ranges are merged.

use vstd::prelude::*;

use crate::text::{
    chars_of, first_index2, find_pair, lemma_first_index2, parse_u64, parse_unsigned,
    parses_unsigned_within, split, trim, trim_bounds, trimmed_split, views,
};
use crate::y2025::day02::{parse_range_chars, range_bounds, valid_range_text};

verus! {

/// A range of "recipe" ids.
pub type IDRange = core::ops::RangeInclusive<u64>;

/// The lower bound of a range that has not been iterated.
#[verifier::external_body]
fn range_start(r: &IDRange) -> (s: u64)
    requires
        !r@.exhausted,
    ensures
        s == r@.start,
{
    *r.start()
}

/// The upper bound of a range that has not been iterated.
#[verifier::external_body]
fn range_end(r: &IDRange) -> (e: u64)
    requires
        !r@.exhausted,
    ensures
        e == r@.end,
{
    *r.end()
}

/// The bounds of a range.
pub open spec fn rb(r: IDRange) -> (int, int) {
    (r@.start as int, r@.end as int)
}

/// The bounds of each range.
pub open spec fn bounds(rs: Seq<IDRange>) -> Seq<(int, int)> {
    rs.map_values(|r: IDRange| rb(r))
}

/// The bounds of each range of a queue of references.
pub open spec fn qbounds(rs: Seq<&IDRange>) -> Seq<(int, int)> {
    rs.map_values(|r: &IDRange| rb(*r))
}

/// No range of a queue of references has been iterated.
pub open spec fn qfresh(rs: Seq<&IDRange>) -> bool {
    forall|i: int| 0 <= i < rs.len() ==> !(#[trigger] rs[i])@.exhausted
}

/// No range has been iterated.
pub open spec fn all_fresh(rs: Seq<IDRange>) -> bool {
    forall|i: int| 0 <= i < rs.len() ==> !(#[trigger] rs[i])@.exhausted
}

/// The problem components: range list and id list.
#[derive(Debug)]
pub struct Problem {
    pub ranges: Vec<IDRange>,
    pub ids: Vec<u64>,
}

/// The two paragraphs of the input: the trimmed text split at the first blank line.
pub open spec fn paragraphs(text: Seq<char>) -> (Seq<char>, Seq<char>) {
    let t = trim(text);
    let i = first_index2(t, '\n', '\n');
    (t.take(i), t.skip(i + 2))
}

/// The range lines of the input.
pub open spec fn range_lines(text: Seq<char>) -> Seq<Seq<char>> {
    split(trim(paragraphs(text).0), '\n')
}

/// The id lines of the input.
pub open spec fn id_lines(text: Seq<char>) -> Seq<Seq<char>> {
    split(trim(paragraphs(text).1), '\n')
}

/// The input has a blank line, every range line is two `u64` numbers joined by `-`,
/// and every id line is a `u64` number.
pub open spec fn problem_text_ok(text: Seq<char>) -> bool {
    &&& first_index2(trim(text), '\n', '\n') >= 0
    &&& forall|i: int|
        0 <= i < range_lines(text).len() ==> valid_range_text(#[trigger] range_lines(text)[i])
    &&& forall|i: int|
        0 <= i < id_lines(text).len() ==> parses_unsigned_within(
            #[trigger] id_lines(text)[i],
            u64::MAX as int,
        )
}

impl Problem {
    /// Creates a Problem from a text block.
    pub fn from_text(text: &str) -> (r: Self)
        requires
            problem_text_ok(text@),
        ensures
            all_fresh(r.ranges@),
            r.ranges@.len() == range_lines(text@).len(),
            forall|i: int|
                0 <= i < r.ranges@.len() ==> #[trigger] rb(r.ranges@[i]) == (
                    range_bounds(range_lines(text@)[i]).0 as int,
                    range_bounds(range_lines(text@)[i]).1 as int,
                ),
            r.ids@.len() == id_lines(text@).len(),
            forall|i: int|
                0 <= i < r.ids@.len() ==> #[trigger] r.ids@[i] == parse_unsigned(id_lines(text@)[i])->0,
    {
        let chars = chars_of(text);
        let (start, end) = trim_bounds(chars.as_slice());
        let ghost t = trim(text@);
        proof {
            lemma_first_index2(t, '\n', '\n');
        }
        let i = find_pair(chars.as_slice(), start, end, '\n', '\n').unwrap();
        let mid = start + i;
        let ranges_para = &chars.as_slice()[start..mid];
        let ids_para = &chars.as_slice()[mid + 2..end];
        assert(ranges_para@ =~= paragraphs(text@).0);
        assert(ids_para@ =~= paragraphs(text@).1);
        let range_texts = trimmed_split(ranges_para, '\n');
        let ghost rl = range_lines(text@);
        let mut ranges: Vec<IDRange> = Vec::new();
        for k in 0..range_texts.len()
            invariant
                views(range_texts@) == rl,
                rl == range_lines(text@),
                forall|j: int| 0 <= j < rl.len() ==> valid_range_text(#[trigger] rl[j]),
                ranges@.len() == k,
                all_fresh(ranges@),
                forall|j: int|
                    0 <= j < k ==> #[trigger] rb(ranges@[j]) == (
                        range_bounds(rl[j]).0 as int,
                        range_bounds(rl[j]).1 as int,
                    ),
        {
            assert(range_texts@[k as int]@ == rl[k as int]);
            ranges.push(parse_range_chars(&range_texts[k]));
        }
        let id_texts = trimmed_split(ids_para, '\n');
        let ghost il = id_lines(text@);
        let mut ids: Vec<u64> = Vec::new();
        for k in 0..id_texts.len()
            invariant
                views(id_texts@) == il,
                il == id_lines(text@),
                forall|j: int| 0 <= j < il.len() ==> parses_unsigned_within(#[trigger] il[j], u64::MAX as int),
                ids@.len() == k,
                forall|j: int| 0 <= j < k ==> #[trigger] ids@[j] == parse_unsigned(il[j])->0,
        {
            assert(id_texts@[k as int]@ == il[k as int]);
            ids.push(parse_u64(id_texts[k].as_slice()).unwrap());
        }
        Self { ranges, ids }
    }
}

/// Whether two ranges overlap.
pub open spec fn overlap(a: (int, int), b: (int, int)) -> bool {
    !(a.0 > b.1 || b.0 > a.1)
}

/// The smallest range that includes two given ranges.
pub open spec fn coalesce(a: (int, int), b: (int, int)) -> (int, int) {
    (
        if a.0 <= b.0 {
            a.0
        } else {
            b.0
        },
        if a.1 >= b.1 {
            a.1
        } else {
            b.1
        },
    )
}

/// Whether two ranges overlap.
pub fn ranges_overlap(r1: &IDRange, r2: &IDRange) -> (r: bool)
    requires
        !r1@.exhausted,
        !r2@.exhausted,
    ensures
        r == overlap(rb(*r1), rb(*r2)),
{
    !((range_start(r1) > range_end(r2)) || (range_start(r2) > range_end(r1)))
}

/// Range that includes two given ranges.
pub fn coalesce_ranges(r1: &IDRange, r2: &IDRange) -> (r: IDRange)
    requires
        !r1@.exhausted,
        !r2@.exhausted,
    ensures
        rb(r) == coalesce(rb(*r1), rb(*r2)),
        !r@.exhausted,
{
    let (s1, s2) = (range_start(r1), range_start(r2));
    let (e1, e2) = (range_end(r1), range_end(r2));
    let mi = if s1 <= s2 {
        s1
    } else {
        s2
    };
    let ma = if e1 >= e2 {
        e1
    } else {
        e2
    };
    core::ops::RangeInclusive::new(mi, ma)
}

/// One range absorbing, left to right, every later range that overlaps it as it
/// grows: the grown range, the ranges kept, the number absorbed, and the merge
/// tally (the number of merges made).
pub open spec fn absorb(r: (int, int), others: Seq<(int, int)>, k: int) -> ((int, int), Seq<(int, int)>, nat, nat)
    decreases k,
{
    if k <= 0 {
        (r, Seq::empty(), 0, 0)
    } else {
        let prev = absorb(r, others, k - 1);
        let o = others[k - 1];
        if overlap(prev.0, o) {
            (coalesce(prev.0, o), prev.1, prev.2 + 1, prev.3 + 1)
        } else {
            (prev.0, prev.1.push(o), prev.2, prev.3)
        }
    }
}

pub proof fn lemma_absorb(r: (int, int), others: Seq<(int, int)>, k: int)
    requires
        0 <= k <= others.len(),
    ensures
        absorb(r, others, k).1.len() + absorb(r, others, k).2 == k,
    decreases k,
{
    if k > 0 {
        lemma_absorb(r, others, k - 1);
    }
}

/// One pass of the merging algorithm: the merged list and the merge tally.
pub open spec fn merge_once(list: Seq<(int, int)>) -> (Seq<(int, int)>, nat)
    decreases list.len(),
{
    if list.len() == 0 {
        (Seq::empty(), 0)
    } else {
        let a = absorb(list[0], list.drop_first(), list.len() - 1);
        proof {
            lemma_absorb(list[0], list.drop_first(), list.len() - 1);
        }
        let rest = merge_once(a.1);
        (seq![a.0] + rest.0, a.3 + rest.1)
    }
}

/// Repeated passes, at most `k` of them, until a pass merges nothing; `None` when
/// that does not happen within `k` passes.
pub open spec fn merge_rounds(list: Seq<(int, int)>, k: nat) -> Option<Seq<(int, int)>>
    decreases k,
{
    if k == 0 {
        None
    } else {
        let m = merge_once(list);
        if m.1 == 0 {
            Some(list)
        } else {
            merge_rounds(m.0, (k - 1) as nat)
        }
    }
}

/// `x` lies in the range `r`.
pub open spec fn covers(r: (int, int), x: int) -> bool {
    r.0 <= x <= r.1
}

/// Growing a range by the later ranges it overlaps loses and gains no id: the
/// grown range and the ranges kept cover what the range and the ranges looked
/// at covered.
proof fn lemma_absorb_covers(r: (int, int), others: Seq<(int, int)>, k: int, x: int)
    requires
        0 <= k <= others.len(),
    ensures
        covers(absorb(r, others, k).0, x) || in_some_range(absorb(r, others, k).1, x) <==> covers(r, x)
            || in_some_range(others.take(k), x),
    decreases k,
{
    if k == 0 {
        assert(others.take(0) =~= Seq::<(int, int)>::empty());
    } else {
        lemma_absorb_covers(r, others, k - 1, x);
        let prev = absorb(r, others, k - 1);
        let o = others[k - 1];
        let t = others.take(k - 1);
        assert(others.take(k) =~= t.push(o));
        assert(in_some_range(t.push(o), x) <==> in_some_range(t, x) || covers(o, x)) by {
            if in_some_range(t.push(o), x) {
                let i = choose|i: int| 0 <= i < t.push(o).len() && (#[trigger] t.push(o)[i]).0 <= x <= t.push(o)[i].1;
                if i < t.len() {
                    assert(t[i] == t.push(o)[i]);
                }
            }
            if in_some_range(t, x) {
                let i = choose|i: int| 0 <= i < t.len() && (#[trigger] t[i]).0 <= x <= t[i].1;
                assert(t.push(o)[i] == t[i]);
            }
            if covers(o, x) {
                assert(t.push(o)[t.len() as int] == o);
            }
        }
        if !overlap(prev.0, o) {
            let kept = prev.1;
            assert(in_some_range(kept.push(o), x) <==> in_some_range(kept, x) || covers(o, x)) by {
                if in_some_range(kept.push(o), x) {
                    let i = choose|i: int|
                        0 <= i < kept.push(o).len() && (#[trigger] kept.push(o)[i]).0 <= x <= kept.push(o)[i].1;
                    if i < kept.len() {
                        assert(kept[i] == kept.push(o)[i]);
                    }
                }
                if in_some_range(kept, x) {
                    let i = choose|i: int| 0 <= i < kept.len() && (#[trigger] kept[i]).0 <= x <= kept[i].1;
                    assert(kept.push(o)[i] == kept[i]);
                }
                if covers(o, x) {
                    assert(kept.push(o)[kept.len() as int] == o);
                }
            }
        }
    }
}

/// A merge pass keeps the ids covered: an id lies in a merged range exactly
/// when it lies in one of the ranges merged.
pub proof fn lemma_merge_once_covers(list: Seq<(int, int)>, x: int)
    ensures
        in_some_range(merge_once(list).0, x) <==> in_some_range(list, x),
    decreases list.len(),
{
    if list.len() > 0 {
        let rest = list.drop_first();
        let a = absorb(list[0], rest, list.len() - 1);
        lemma_absorb(list[0], rest, list.len() - 1);
        lemma_absorb_covers(list[0], rest, list.len() - 1, x);
        assert(rest.take(list.len() - 1) =~= rest);
        lemma_merge_once_covers(a.1, x);
        let m = merge_once(a.1).0;
        assert(merge_once(list).0 == seq![a.0] + m);
        let s = seq![a.0] + m;
        assert(in_some_range(s, x) <==> covers(a.0, x) || in_some_range(m, x)) by {
            if in_some_range(s, x) {
                let i = choose|i: int| 0 <= i < s.len() && (#[trigger] s[i]).0 <= x <= s[i].1;
                if i > 0 {
                    assert(m[i - 1] == s[i]);
                }
            }
            if in_some_range(m, x) {
                let i = choose|i: int| 0 <= i < m.len() && (#[trigger] m[i]).0 <= x <= m[i].1;
                assert(s[i + 1] == m[i]);
            }
            if covers(a.0, x) {
                assert(s[0] == a.0);
            }
        }
        assert(in_some_range(list, x) <==> covers(list[0], x) || in_some_range(rest, x)) by {
            if in_some_range(list, x) {
                let i = choose|i: int| 0 <= i < list.len() && (#[trigger] list[i]).0 <= x <= list[i].1;
                if i > 0 {
                    assert(rest[i - 1] == list[i]);
                }
            }
            if in_some_range(rest, x) {
                let i = choose|i: int| 0 <= i < rest.len() && (#[trigger] rest[i]).0 <= x <= rest[i].1;
                assert(list[i + 1] == rest[i]);
            }
            if covers(list[0], x) {
                assert(list[0] == list[0]);
            }
        }
    }
}

/// Merging to completion keeps the ids covered.
pub proof fn lemma_merge_rounds_covers(list: Seq<(int, int)>, k: nat, x: int)
    requires
        merge_rounds(list, k) is Some,
    ensures
        in_some_range(merge_rounds(list, k)->0, x) <==> in_some_range(list, x),
    decreases k,
{
    if k > 0 {
        let m = merge_once(list);
        if m.1 != 0 {
            lemma_merge_once_covers(list, x);
            lemma_merge_rounds_covers(m.0, (k - 1) as nat, x);
        }
    }
}

/// The ranges as a queue of references, for one merge pass.
fn queue_of(ranges: &[IDRange]) -> (r: std::collections::VecDeque<&IDRange>)
    requires
        all_fresh(ranges@),
    ensures
        qbounds(r@) == bounds(ranges@),
        qfresh(r@),
{
    let mut q: std::collections::VecDeque<&IDRange> = std::collections::VecDeque::new();
    for i in 0..ranges.len()
        invariant
            all_fresh(ranges@),
            qbounds(q@) == bounds(ranges@.take(i as int)),
            qfresh(q@),
    {
        let ghost old_q = q@;
        q.push_back(&ranges[i]);
        assert(qbounds(q@) =~= qbounds(old_q).push(rb(ranges@[i as int])));
        assert(bounds(ranges@.take(i + 1)) =~= bounds(ranges@.take(i as int)).push(rb(ranges@[i as int])));
    }
    assert(ranges@.take(ranges@.len() as int) =~= ranges@);
    q
}

/// A fresh copy of a range.
fn copy_range(r: &IDRange) -> (c: IDRange)
    requires
        !r@.exhausted,
    ensures
        rb(c) == rb(*r),
        !c@.exhausted,
{
    core::ops::RangeInclusive::new(range_start(r), range_end(r))
}

/// Run a single pass of the range merging algorithm.
pub fn merge_ranges_once(ranges: &[IDRange]) -> (r: (Vec<IDRange>, usize))
    requires
        all_fresh(ranges@),
        merge_once(bounds(ranges@)).1 <= usize::MAX,
    ensures
        all_fresh(r.0@),
        bounds(r.0@) == merge_once(bounds(ranges@)).0,
        r.1 == merge_once(bounds(ranges@)).1,
{
    let mut ranges = queue_of(ranges);
    let mut merged: Vec<IDRange> = Vec::new();
    let mut num_merges: usize = 0;
    let ghost total = merge_once(qbounds(ranges@));
    while ranges.len() > 0
        invariant
            qfresh(ranges@),
            all_fresh(merged@),
            total.1 <= usize::MAX,
            bounds(merged@) + merge_once(qbounds(ranges@)).0 == total.0,
            num_merges + merge_once(qbounds(ranges@)).1 == total.1,
        decreases ranges@.len(),
    {
        let ghost before = ranges@;
        let ghost list = qbounds(before);
        // split into first and the rest
        let first = ranges.pop_front().unwrap();
        let mut range = copy_range(first);
        let others = ranges.clone();
        let ghost rest = qbounds(others@);
        assert(rest =~= list.drop_first());
        let mut this_num_merges: usize = 0;
        let ghost base = num_merges;
        proof {
            lemma_absorb(list[0], rest, rest.len() as int);
            lemma_absorb_tally_mono(list[0], rest, 0, rest.len() as int);
        }
        let ghost whole = absorb(list[0], rest, rest.len() as int);
        assert(merge_once(list) == (seq![whole.0] + merge_once(whole.1).0, whole.3 + merge_once(whole.1).1));
        // loop over others, keeping track of how many merges occur
        for i in 0..others.len()
            invariant
                others@.len() == rest.len(),
                rest == qbounds(others@),
                qfresh(others@),
                !range@.exhausted,
                whole == absorb(list[0], rest, rest.len() as int),
                base + whole.3 + merge_once(whole.1).1 <= usize::MAX,
                ({
                    let a = absorb(list[0], rest, i as int);
                    &&& rb(range) == a.0
                    &&& this_num_merges == a.2
                    &&& qbounds(ranges@) == a.1 + rest.skip(i as int)
                    &&& qfresh(ranges@)
                    &&& num_merges == base + a.3
                    &&& a.1.len() + a.2 == i
                }),
        {
            let ghost a = absorb(list[0], rest, i as int);
            let other = others[i];
            proof {
                lemma_absorb(list[0], rest, i + 1);
                lemma_absorb_tally_mono(list[0], rest, i + 1, rest.len() as int);
            }
            if ranges_overlap(&range, other) {
                // if they overlap, the first eats the other
                // index of other depends on how many times first already merged with others
                let removal_index = i - this_num_merges;
                let ghost q = ranges@;
                assert(q.len() == qbounds(q).len());
                assert(removal_index < q.len());
                ranges.remove(removal_index);
                assert(qbounds(ranges@) =~= a.1 + rest.skip(i + 1)) by {
                    assert(qbounds(q) == a.1 + rest.skip(i as int));
                    assert(ranges@ == q.remove(removal_index as int));
                    assert(qbounds(ranges@) =~= qbounds(q).remove(removal_index as int));
                    assert((a.1 + rest.skip(i as int)).remove(removal_index as int) =~= a.1 + rest.skip(i + 1));
                }
                range = coalesce_ranges(&range, other);
                this_num_merges += 1;
                num_merges += 1;
            } else {
                assert(rest.skip(i as int) =~= seq![rest[i as int]] + rest.skip(i + 1));
                assert(a.1.push(rest[i as int]) + rest.skip(i + 1) =~= a.1 + rest.skip(i as int));
            }
        }
        assert(rest.skip(rest.len() as int) =~= Seq::<(int, int)>::empty());
        assert(qbounds(ranges@) =~= whole.1);
        merged.push(range);
        assert(bounds(merged@) =~= bounds(merged@.drop_last()).push(whole.0));
    }
    assert(qbounds(ranges@) =~= Seq::<(int, int)>::empty());
    assert(bounds(merged@) =~= total.0);
    (merged, num_merges)
}


/// Every pass that `merge_rounds` runs within `k` passes has a tally that fits in a `usize`.
pub open spec fn tallies_fit(list: Seq<(int, int)>, k: nat) -> bool
    decreases k,
{
    if k == 0 {
        true
    } else {
        let m = merge_once(list);
        m.1 <= usize::MAX && (m.1 == 0 || tallies_fit(m.0, (k - 1) as nat))
    }
}

/// Run the merging algorithm to completion (at most ten passes).
pub fn merge_ranges(ranges: Vec<IDRange>) -> (r: Vec<IDRange>)
    requires
        all_fresh(ranges@),
        merge_rounds(bounds(ranges@), 10) is Some,
        tallies_fit(bounds(ranges@), 10),
    ensures
        all_fresh(r@),
        bounds(r@) == merge_rounds(bounds(ranges@), 10)->0,
{
    let ghost goal = merge_rounds(bounds(ranges@), 10);
    let mut cur = ranges;
    let maxiter: usize = 10;
    for it in 0..maxiter
        invariant
            maxiter == 10,
            all_fresh(cur@),
            merge_rounds(bounds(cur@), (10 - it) as nat) == goal,
            goal == merge_rounds(bounds(ranges@), 10),
            goal is Some,
            tallies_fit(bounds(cur@), (10 - it) as nat),
    {
        let (these_ranges, num_merges) = merge_ranges_once(&cur);
        if num_merges == 0 {
            assert(merge_once(bounds(cur@)).1 == 0);
            assert(merge_rounds(bounds(cur@), (10 - it) as nat) == Some(bounds(cur@)));
            return cur;
        }
        cur = these_ranges;
    }
    proof {
        assert(merge_rounds(bounds(cur@), 0) is None);
    }
    cur
}

/// Whether some range holds `id`.
pub open spec fn in_some_range(rs: Seq<(int, int)>, id: int) -> bool {
    exists|i: int| 0 <= i < rs.len() && (#[trigger] rs[i]).0 <= id <= rs[i].1
}

/// Number of ids held by some range.
pub open spec fn fresh_count(rs: Seq<(int, int)>, ids: Seq<u64>) -> nat
    decreases ids.len(),
{
    if ids.len() == 0 {
        0
    } else {
        fresh_count(rs, ids.drop_last()) + if in_some_range(rs, ids.last() as int) {
            1nat
        } else {
            0nat
        }
    }
}

/// The ranges and ids that the input lists.
pub open spec fn problem_of(text: Seq<char>) -> (Seq<(int, int)>, Seq<u64>) {
    (
        range_lines(text).map_values(
            |l: Seq<char>| (range_bounds(l).0 as int, range_bounds(l).1 as int),
        ),
        id_lines(text).map_values(|l: Seq<char>| parse_unsigned(l)->0 as u64),
    )
}

fn read_problem(text: &str) -> (p: Problem)
    requires
        problem_text_ok(text@),
    ensures
        all_fresh(p.ranges@),
        bounds(p.ranges@) == problem_of(text@).0,
        p.ids@ == problem_of(text@).1,
{
    let p = Problem::from_text(text);
    assert(bounds(p.ranges@) =~= problem_of(text@).0);
    assert(p.ids@ =~= problem_of(text@).1);
    p
}

fn in_any_range(ranges: &Vec<IDRange>, id: u64) -> (found: bool)
    requires
        all_fresh(ranges@),
    ensures
        found == in_some_range(bounds(ranges@), id as int),
{
    let ghost rs = bounds(ranges@);
    for j in 0..ranges.len()
        invariant
            rs == bounds(ranges@),
            all_fresh(ranges@),
            forall|m: int| 0 <= m < j ==> !((#[trigger] rs[m]).0 <= id <= rs[m].1),
    {
        let r = &ranges[j];
        if r.contains(&id) {
            assert(rs[j as int].0 <= id <= rs[j as int].1);
            return true;
        }
    }
    false
}

/// Returns the part1 result: the number of ids that lie in some range.
pub fn part1(text: &str) -> (r: u64)
    requires
        problem_text_ok(text@),
    ensures
        r == fresh_count(problem_of(text@).0, problem_of(text@).1),
{
    let p = read_problem(text);
    let ghost rs = bounds(p.ranges@);
    let mut out: u64 = 0;
    assert(p.ids@.take(0) =~= Seq::<u64>::empty());
    for k in 0..p.ids.len()
        invariant
            rs == bounds(p.ranges@),
            all_fresh(p.ranges@),
            out == fresh_count(rs, p.ids@.take(k as int)),
            out <= k,
    {
        let id = p.ids[k];
        let found = in_any_range(&p.ranges, id);
        assert(found == in_some_range(rs, id as int));
        assert(p.ids@.take(k + 1).drop_last() =~= p.ids@.take(k as int));
        if found {
            out += 1;
        }
    }
    assert(p.ids@.take(p.ids@.len() as int) =~= p.ids@);
    out
}

/// Total number of ids in the ranges, each counted once per range.
pub open spec fn total_size(rs: Seq<(int, int)>) -> int
    decreases rs.len(),
{
    if rs.len() == 0 {
        0
    } else {
        total_size(rs.drop_last()) + rs.last().1 - rs.last().0 + 1
    }
}

/// The merged ranges of the input.
pub open spec fn merged_of(text: Seq<char>) -> Seq<(int, int)> {
    merge_rounds(problem_of(text).0, 10)->0
}

/// Every range is non-empty and their sizes, added up, fit in a `u64`.
pub open spec fn sizes_fit(rs: Seq<(int, int)>) -> bool {
    &&& forall|i: int| 0 <= i < rs.len() ==> (#[trigger] rs[i]).0 <= rs[i].1
    &&& forall|k: int| 0 <= k <= rs.len() ==> #[trigger] total_size(rs.take(k)) <= u64::MAX
}

/// Returns the part2 result: the number of ids the merged ranges cover.
pub fn part2(text: &str) -> (r: u64)
    requires
        problem_text_ok(text@),
        merge_rounds(problem_of(text@).0, 10) is Some,
        tallies_fit(problem_of(text@).0, 10),
        sizes_fit(merged_of(text@)),
    ensures
        r == total_size(merged_of(text@)),
{
    let p = read_problem(text);
    let ranges = merge_ranges(p.ranges);
    let ghost rs = bounds(ranges@);
    let mut out: u64 = 0;
    assert(rs.take(0) =~= Seq::<(int, int)>::empty());
    for k in 0..ranges.len()
        invariant
            rs == bounds(ranges@),
            rs == merged_of(text@),
            all_fresh(ranges@),
            sizes_fit(rs),
            out == total_size(rs.take(k as int)),
    {
        let r = &ranges[k];
        assert(rs.take(k + 1).drop_last() =~= rs.take(k as int));
        assert(total_size(rs.take(k + 1)) <= u64::MAX);
        assert(rs[k as int] == rb(ranges@[k as int]));
        out += range_end(r) - range_start(r) + 1;
    }
    assert(rs.take(rs.len() as int) =~= rs);
    out
}

proof fn lemma_absorb_tally_mono(r: (int, int), others: Seq<(int, int)>, k: int, k2: int)
    requires
        0 <= k <= k2,
    ensures
        absorb(r, others, k).3 <= absorb(r, others, k2).3,
    decreases k2 - k,
{
    if k < k2 {
        lemma_absorb_tally_mono(r, others, k, k2 - 1);
    }
}

proof fn lemma_absorb_none(r: (int, int), others: Seq<(int, int)>, k: int)
    requires
        0 <= k <= others.len(),
        absorb(r, others, k).3 == 0,
    ensures
        absorb(r, others, k).0 == r,
        absorb(r, others, k).1 == others.take(k),
        forall|i: int| 0 <= i < k ==> !overlap(r, #[trigger] others[i]),
    decreases k,
{
    if k > 0 {
        let prev = absorb(r, others, k - 1);
        assert(prev.3 == 0);
        lemma_absorb_none(r, others, k - 1);
        assert(others.take(k) =~= others.take(k - 1).push(others[k - 1]));
    } else {
        assert(others.take(0) =~= Seq::<(int, int)>::empty());
    }
}

/// A pass that merges nothing leaves the list as it is, and then no two of its
/// ranges overlap.
proof fn lemma_merge_once_none(list: Seq<(int, int)>)
    requires
        merge_once(list).1 == 0,
    ensures
        merge_once(list).0 == list,
        forall|i: int, j: int| 0 <= i < j < list.len() ==> !overlap(#[trigger] list[i], #[trigger] list[j]),
    decreases list.len(),
{
    if list.len() > 0 {
        let others = list.drop_first();
        let a = absorb(list[0], others, list.len() - 1);
        lemma_absorb(list[0], others, list.len() - 1);
        lemma_absorb_none(list[0], others, list.len() - 1);
        assert(others.take(list.len() - 1) =~= others);
        lemma_merge_once_none(others);
        assert(seq![list[0]] + others =~= list);
        assert forall|i: int, j: int| 0 <= i < j < list.len() implies !overlap(#[trigger] list[i], #[trigger] list[j]) by {
            if i == 0 {
                assert(list[j] == others[j - 1]);
            } else {
                assert(list[i] == others[i - 1] && list[j] == others[j - 1]);
            }
        }
    }
}

/// The merging ends, when it ends, with ranges no two of which overlap.
pub proof fn lemma_merged_apart(list: Seq<(int, int)>, k: nat)
    requires
        merge_rounds(list, k) is Some,
    ensures
        forall|i: int, j: int|
            0 <= i < j < merge_rounds(list, k)->0.len() ==> !overlap(
                #[trigger] merge_rounds(list, k)->0[i],
                #[trigger] merge_rounds(list, k)->0[j],
            ),
    decreases k,
{
    let m = merge_once(list);
    if m.1 == 0 {
        lemma_merge_once_none(list);
    } else {
        lemma_merged_apart(m.0, (k - 1) as nat);
    }
}

/// The ids that some range holds.
pub open spec fn covered(rs: Seq<(int, int)>) -> Set<int> {
    Set::new(|x: int| in_some_range(rs, x))
}

/// Ranges that are non-empty and pairwise apart hold, all together, as many
/// ids as their sizes add up to.
proof fn lemma_covered_size(rs: Seq<(int, int)>)
    requires
        forall|i: int| 0 <= i < rs.len() ==> (#[trigger] rs[i]).0 <= rs[i].1,
        forall|i: int, j: int| 0 <= i < j < rs.len() ==> !overlap(#[trigger] rs[i], #[trigger] rs[j]),
    ensures
        covered(rs).finite(),
        covered(rs).len() == total_size(rs),
    decreases rs.len(),
{
    if rs.len() == 0 {
        assert(covered(rs) =~= Set::<int>::empty());
    } else {
        let front = rs.drop_last();
        let r = rs.last();
        lemma_covered_size(front);
        let span = vstd::set_lib::set_int_range(r.0, r.1 + 1);
        vstd::set_lib::lemma_int_range(r.0, r.1 + 1);
        assert(covered(rs) =~= covered(front) + span) by {
            assert forall|x: int| covered(rs).contains(x) implies (covered(front) + span).contains(x) by {
                let i = choose|i: int| 0 <= i < rs.len() && (#[trigger] rs[i]).0 <= x <= rs[i].1;
                if i < front.len() {
                    assert(front[i] == rs[i]);
                }
            }
            assert forall|x: int| (covered(front) + span).contains(x) implies covered(rs).contains(x) by {
                if covered(front).contains(x) {
                    let i = choose|i: int| 0 <= i < front.len() && (#[trigger] front[i]).0 <= x <= front[i].1;
                    assert(rs[i] == front[i]);
                } else {
                    assert(rs[rs.len() - 1] == r);
                }
            }
        }
        assert(covered(front).disjoint(span)) by {
            assert forall|x: int| covered(front).contains(x) implies !span.contains(x) by {
                let i = choose|i: int| 0 <= i < front.len() && (#[trigger] front[i]).0 <= x <= front[i].1;
                assert(rs[i] == front[i]);
                assert(!overlap(rs[i], rs[rs.len() - 1]));
            }
        }
        vstd::set_lib::lemma_set_disjoint_lens(covered(front), span);
    }
}

/// Part 2 counts each fresh id once: when merging ends, the merged ranges'
/// sizes add up to the number of ids that some listed range holds.
pub proof fn lemma_merged_size_counts_ids(list: Seq<(int, int)>, k: nat)
    requires
        merge_rounds(list, k) is Some,
        forall|i: int| 0 <= i < list.len() ==> (#[trigger] list[i]).0 <= list[i].1,
    ensures
        covered(list).finite(),
        total_size(merge_rounds(list, k)->0) == covered(list).len(),
{
    let out = merge_rounds(list, k)->0;
    lemma_merged_apart(list, k);
    lemma_merge_rounds_nonempty(list, k);
    lemma_covered_size(out);
    assert forall|x: int| covered(out).contains(x) <==> covered(list).contains(x) by {
        lemma_merge_rounds_covers(list, k, x);
    }
    assert(covered(out) =~= covered(list));
}

proof fn lemma_absorb_nonempty(r: (int, int), others: Seq<(int, int)>, k: int)
    requires
        0 <= k <= others.len(),
        r.0 <= r.1,
        forall|i: int| 0 <= i < others.len() ==> (#[trigger] others[i]).0 <= others[i].1,
    ensures
        absorb(r, others, k).0.0 <= absorb(r, others, k).0.1,
        forall|i: int|
            0 <= i < absorb(r, others, k).1.len() ==> (#[trigger] absorb(r, others, k).1[i]).0 <= absorb(
                r,
                others,
                k,
            ).1[i].1,
    decreases k,
{
    if k > 0 {
        lemma_absorb_nonempty(r, others, k - 1);
        let prev = absorb(r, others, k - 1);
        let o = others[k - 1];
        if !overlap(prev.0, o) {
            let p2 = prev.1.push(o);
            assert forall|i: int| 0 <= i < p2.len() implies (#[trigger] p2[i]).0 <= p2[i].1 by {
                if i < prev.1.len() {
                    assert(p2[i] == prev.1[i]);
                }
            }
        }
    }
}

proof fn lemma_merge_once_nonempty(list: Seq<(int, int)>)
    requires
        forall|i: int| 0 <= i < list.len() ==> (#[trigger] list[i]).0 <= list[i].1,
    ensures
        forall|i: int| 0 <= i < merge_once(list).0.len() ==> (#[trigger] merge_once(list).0[i]).0 <= merge_once(list).0[i].1,
    decreases list.len(),
{
    if list.len() > 0 {
        let others = list.drop_first();
        assert forall|i: int| 0 <= i < others.len() implies (#[trigger] others[i]).0 <= others[i].1 by {
            assert(others[i] == list[i + 1]);
        }
        lemma_absorb(list[0], others, list.len() - 1);
        lemma_absorb_nonempty(list[0], others, list.len() - 1);
        let a = absorb(list[0], others, list.len() - 1);
        lemma_merge_once_nonempty(a.1);
        let s2 = seq![a.0] + merge_once(a.1).0;
        assert forall|i: int| 0 <= i < s2.len() implies (#[trigger] s2[i]).0 <= s2[i].1 by {
            if i > 0 {
                assert(s2[i] == merge_once(a.1).0[i - 1]);
            }
        }
    }
}

proof fn lemma_merge_rounds_nonempty(list: Seq<(int, int)>, k: nat)
    requires
        merge_rounds(list, k) is Some,
        forall|i: int| 0 <= i < list.len() ==> (#[trigger] list[i]).0 <= list[i].1,
    ensures
        forall|i: int|
            0 <= i < merge_rounds(list, k)->0.len() ==> (#[trigger] merge_rounds(list, k)->0[i]).0 <= merge_rounds(
                list,
                k,
            )->0[i].1,
    decreases k,
{
    let m = merge_once(list);
    if m.1 != 0 {
        lemma_merge_once_nonempty(list);
        lemma_merge_rounds_nonempty(m.0, (k - 1) as nat);
    }
}

} // verus!
