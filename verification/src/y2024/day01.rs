//! Two columns of location ids: the distance between the sorted columns, and a
//! similarity score from how often each left id appears on the right.

use std::collections::HashMap;

use itertools::Itertools;
use vstd::prelude::*;
use vstd::relations::sorted_by;

use crate::y2024::rows::{int_rows, int_rows_ok, read_int_rows};

verus! {

broadcast use vstd::std_specs::hash::group_hash_axioms;

/// Every line holds at least two numbers, and every word parses as an `i32`.
pub open spec fn columns_ok(text: Seq<char>) -> bool {
    &&& int_rows_ok(text)
    &&& forall|i: int| 0 <= i < int_rows(text).len() ==> (#[trigger] int_rows(text)[i]).len() >= 2
}

/// Read input into column Vecs: the first and second number of each line.
pub fn parse(input: &str) -> (r: (Vec<i32>, Vec<i32>))
    requires
        columns_ok(input@),
    ensures
        r.0@ == int_rows(input@).map_values(|row: Seq<i32>| row[0]),
        r.1@ == int_rows(input@).map_values(|row: Seq<i32>| row[1]),
{
    let rows = read_int_rows(input);
    let ghost want = int_rows(input@);
    let mut o1: Vec<i32> = Vec::new();
    let mut o2: Vec<i32> = Vec::new();
    for i in 0..rows.len()
        invariant
            rows@.len() == want.len(),
            want == int_rows(input@),
            columns_ok(input@),
            forall|k: int| 0 <= k < rows@.len() ==> #[trigger] rows@[k]@ == want[k],
            o1@ == want.take(i as int).map_values(|row: Seq<i32>| row[0]),
            o2@ == want.take(i as int).map_values(|row: Seq<i32>| row[1]),
    {
        assert(rows@[i as int]@ == want[i as int]);
        assert(want[i as int].len() >= 2);
        o1.push(rows[i][0]);
        o2.push(rows[i][1]);
        assert(want.take(i + 1) =~= want.take(i as int).push(want[i as int]));
        assert(o1@ =~= want.take(i + 1).map_values(|row: Seq<i32>| row[0]));
        assert(o2@ =~= want.take(i + 1).map_values(|row: Seq<i32>| row[1]));
    }
    assert(want.take(rows@.len() as int) =~= want);
    (o1, o2)
}

/// The values in ascending order.
pub open spec fn ascending(v: Seq<i32>) -> Seq<i32> {
    v.sort_by(|a: i32, b: i32| a <= b)
}

/// `Itertools::sorted`: the same values in ascending order.
#[verifier::external_body]
fn sorted_values(v: &[i32]) -> (r: Vec<i32>)
    ensures
        r@.to_multiset() == v@.to_multiset(),
        sorted_by(r@, |a: i32, b: i32| a <= b),
{
    v.iter().copied().sorted().collect()
}

/// `Itertools::counts`: each value that occurs, mapped to how often it occurs.
#[verifier::external_body]
fn value_counts(v: &[i32]) -> (r: HashMap<i32, usize>)
    ensures
        forall|k: i32| #[trigger] r@.contains_key(k) <==> v@.contains(k),
        forall|k: i32| r@.contains_key(k) ==> r@[k] == v@.to_multiset().count(k),
{
    v.iter().copied().counts()
}

/// The sorted values, as the specification of sorting gives them.
fn sorted_ascending(v: &[i32]) -> (r: Vec<i32>)
    ensures
        r@ == ascending(v@),
{
    let r = sorted_values(v);
    proof {
        let leq = |a: i32, b: i32| a <= b;
        v@.lemma_sort_by_ensures(leq);
        vstd::seq_lib::lemma_sorted_unique(r@, ascending(v@), leq);
    }
    r
}

/// The distance between two lists does not depend on which is taken first, is
/// never negative, is zero exactly when the lists agree up to `k`, and each
/// pair adds the size of its difference whichever of the two is larger.
pub proof fn lemma_distance_laws(a: Seq<i32>, b: Seq<i32>, k: int)
    requires
        0 <= k <= a.len(),
        k <= b.len(),
    ensures
        abs_diff_sum(a, b, k) == abs_diff_sum(b, a, k),
        abs_diff_sum(a, b, k) >= 0,
        abs_diff_sum(a, b, k) == 0 <==> a.take(k) == b.take(k),
        k > 0 ==> abs_diff_sum(a, b, k) - abs_diff_sum(a, b, k - 1) >= b[k - 1] - a[k - 1],
        k > 0 ==> abs_diff_sum(a, b, k) - abs_diff_sum(a, b, k - 1) >= a[k - 1] - b[k - 1],
        k > 0 ==> (abs_diff_sum(a, b, k) - abs_diff_sum(a, b, k - 1) == b[k - 1] - a[k - 1]
            || abs_diff_sum(a, b, k) - abs_diff_sum(a, b, k - 1) == a[k - 1] - b[k - 1]),
    decreases k,
{
    if k > 0 {
        lemma_distance_laws(a, b, k - 1);
        if a.take(k) == b.take(k) {
            assert(a.take(k - 1) =~= a.take(k).take(k - 1));
            assert(b.take(k - 1) =~= b.take(k).take(k - 1));
            assert(a.take(k)[k - 1] == b.take(k)[k - 1]);
        }
        if abs_diff_sum(a, b, k) == 0 {
            assert(a.take(k) =~= a.take(k - 1).push(a[k - 1]));
            assert(b.take(k) =~= b.take(k - 1).push(b[k - 1]));
        }
    } else {
        assert(a.take(0) =~= b.take(0));
    }
}

/// Part 1 is symmetric: swapping the two lists gives the same total distance.
pub proof fn lemma_part1_symmetric(v1: Seq<i32>, v2: Seq<i32>)
    ensures
        abs_diff_sum(ascending(v1), ascending(v2), min_len(v1.len(), v2.len())) == abs_diff_sum(
            ascending(v2),
            ascending(v1),
            min_len(v2.len(), v1.len()),
        ),
{
    let leq = |x: i32, y: i32| x <= y;
    v1.lemma_sort_by_ensures(leq);
    v2.lemma_sort_by_ensures(leq);
    v1.to_multiset_ensures();
    v2.to_multiset_ensures();
    ascending(v1).to_multiset_ensures();
    ascending(v2).to_multiset_ensures();
    lemma_distance_laws(ascending(v1), ascending(v2), min_len(v1.len(), v2.len()));
}

/// Sorting forgets the order: two lists with the same entries sort the same,
/// so part 1 does not depend on the order of either list.
pub proof fn lemma_ascending_order_free(a: Seq<i32>, b: Seq<i32>)
    requires
        a.to_multiset() == b.to_multiset(),
    ensures
        ascending(a) == ascending(b),
{
    let leq = |x: i32, y: i32| x <= y;
    a.lemma_sort_by_ensures(leq);
    b.lemma_sort_by_ensures(leq);
    assert(vstd::relations::total_ordering(leq));
    vstd::seq_lib::lemma_sorted_unique(ascending(a), ascending(b), leq);
}

/// Sum of `|b[j] - a[j]|` over `j < k`.
pub open spec fn abs_diff_sum(a: Seq<i32>, b: Seq<i32>, k: int) -> int
    decreases k,
{
    if k <= 0 {
        0
    } else {
        let d = b[k - 1] - a[k - 1];
        abs_diff_sum(a, b, k - 1) + if d < 0 {
            -d
        } else {
            d
        }
    }
}

/// The paired differences, their absolute values and every partial sum fit in an `i32`.
pub open spec fn distance_fits(a: Seq<i32>, b: Seq<i32>, n: int) -> bool {
    &&& forall|j: int| 0 <= j < n ==> i32::MIN < #[trigger] (b[j] - a[j]) <= i32::MAX
    &&& forall|k: int| 0 <= k <= n ==> #[trigger] abs_diff_sum(a, b, k) <= i32::MAX
}

/// The smaller of two lengths.
pub open spec fn min_len(a: nat, b: nat) -> int {
    if a <= b {
        a as int
    } else {
        b as int
    }
}

/// Solve part 1: sort each column, then sum the distances of paired entries.
pub fn part1(v1: &[i32], v2: &[i32]) -> (r: i32)
    requires
        distance_fits(ascending(v1@), ascending(v2@), min_len(v1@.len(), v2@.len())),
    ensures
        r == abs_diff_sum(ascending(v1@), ascending(v2@), min_len(v1@.len(), v2@.len())),
{
    let s1 = sorted_ascending(v1);
    let s2 = sorted_ascending(v2);
    proof {
        v1@.lemma_sort_by_ensures(|a: i32, b: i32| a <= b);
        v2@.lemma_sort_by_ensures(|a: i32, b: i32| a <= b);
        v1@.to_multiset_ensures();
        v2@.to_multiset_ensures();
        s1@.to_multiset_ensures();
        s2@.to_multiset_ensures();
    }
    let n = if s1.len() <= s2.len() {
        s1.len()
    } else {
        s2.len()
    };
    assert(n == min_len(v1@.len(), v2@.len()));
    let mut out: i32 = 0;
    for i in 0..n
        invariant
            n <= s1@.len(),
            n <= s2@.len(),
            distance_fits(s1@, s2@, n as int),
            out == abs_diff_sum(s1@, s2@, i as int),
    {
        assert(abs_diff_sum(s1@, s2@, i + 1) <= i32::MAX);
        assert(i32::MIN < s2@[i as int] - s1@[i as int] <= i32::MAX);
        let d = s2[i] - s1[i];
        let dist = if d < 0 {
            -d
        } else {
            d
        };
        out += dist;
    }
    out
}

/// Sum of `a[j]` times the number of times it occurs in `b`, over `j < k`.
pub open spec fn similarity(a: Seq<i32>, b: Seq<i32>, k: int) -> int
    decreases k,
{
    if k <= 0 {
        0
    } else {
        similarity(a, b, k - 1) + a[k - 1] * (b.to_multiset().count(a[k - 1]) as i32)
    }
}

/// Every product and partial sum of the similarity score fits in an `i32`.
pub open spec fn similarity_fits(a: Seq<i32>, b: Seq<i32>) -> bool {
    &&& forall|j: int|
        0 <= j < a.len() ==> i32::MIN <= #[trigger] a[j] * (b.to_multiset().count(a[j]) as i32)
            <= i32::MAX
    &&& forall|k: int| 0 <= k <= a.len() ==> i32::MIN <= #[trigger] similarity(a, b, k) <= i32::MAX
}

/// Solve part 2: sum each left entry times how often it appears on the right.
pub fn part2(v1: &[i32], v2: &[i32]) -> (r: i32)
    requires
        similarity_fits(v1@, v2@),
    ensures
        r == similarity(v1@, v2@, v1@.len() as int),
{
    let counts = value_counts(v2);
    let mut out: i32 = 0;
    for k in 0..v1.len()
        invariant
            similarity_fits(v1@, v2@),
            forall|x: i32| #[trigger] counts@.contains_key(x) <==> v2@.contains(x),
            forall|x: i32| counts@.contains_key(x) ==> counts@[x] == v2@.to_multiset().count(x),
            out == similarity(v1@, v2@, k as int),
    {
        let i = v1[k];
        let c: usize = match counts.get(&i) {
            Some(c) => *c,
            None => 0,
        };
        proof {
            v2@.to_multiset_ensures();
            if !counts@.contains_key(i) {
                assert(!v2@.contains(i));
                assert(v2@.to_multiset().count(i) == 0);
            }
        }
        let mult = c as i32;
        assert(i32::MIN <= v1@[k as int] * (v2@.to_multiset().count(v1@[k as int]) as i32) <= i32::MAX);
        assert(similarity(v1@, v2@, k + 1) <= i32::MAX);
        out += i * mult;
    }
    out
}

} // verus!
