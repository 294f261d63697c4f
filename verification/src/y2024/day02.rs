//! Reports of levels: safe when the levels move steadily in one direction, and
//! the problem dampener that tolerates one bad level.

use vstd::prelude::*;

use crate::y2024::rows::{int_rows, int_rows_ok, read_int_rows};

verus! {

/// Parse rows.
pub fn parse(input: &str) -> (r: Vec<Vec<i32>>)
    requires
        int_rows_ok(input@),
    ensures
        r@.len() == int_rows(input@).len(),
        forall|i: int| 0 <= i < r@.len() ==> #[trigger] r@[i]@ == int_rows(input@)[i],
{
    read_int_rows(input)
}

/// Every difference of neighbours fits in an `i32`.
pub open spec fn diffs_fit(row: Seq<i32>) -> bool {
    forall|i: int|
        0 <= i < row.len() - 1 ==> i32::MIN <= #[trigger] row[i + 1] - row[i] <= i32::MAX
}

/// The levels rise by 1 to 3 at every step, or fall by 1 to 3 at every step.
pub open spec fn safe(row: Seq<i32>) -> bool {
    ||| forall|i: int| 0 <= i < row.len() - 1 ==> 1 <= #[trigger] row[i + 1] - row[i] <= 3
    ||| forall|i: int| 0 <= i < row.len() - 1 ==> -3 <= #[trigger] row[i + 1] - row[i] <= -1
}

/// The row without its `i`-th level.
pub open spec fn without(row: Seq<i32>, i: int) -> Seq<i32> {
    row.take(i) + row.skip(i + 1)
}

/// Check if a row is valid.
pub fn check_one(row: &[i32]) -> (r: bool)
    requires
        diffs_fit(row@),
    ensures
        r == safe(row@),
{
    let mut diff: Vec<i32> = Vec::new();
    let n = row.len();
    let mut k: usize = 0;
    while k < n && k < n - 1
        invariant
            n == row@.len(),
            n >= 1 ==> k <= n - 1,
            n == 0 ==> k == 0,
            diffs_fit(row@),
            diff@.len() == k,
            k <= n,
            forall|j: int| 0 <= j < k ==> #[trigger] diff@[j] == row@[j + 1] - row@[j],
        decreases n - k,
    {
        assert(i32::MIN <= row@[k + 1] - row@[k as int] <= i32::MAX);
        diff.push(row[k + 1] - row[k]);
        k = k + 1;
    }
    assert(n >= 1 ==> diff@.len() == n - 1);
    let mut up = true;
    let mut down = true;
    for j in 0..diff.len()
        invariant
            up == forall|m: int| 0 <= m < j ==> 1 <= #[trigger] diff@[m] <= 3,
            down == forall|m: int| 0 <= m < j ==> -3 <= #[trigger] diff@[m] <= -1,
    {
        let x = diff[j];
        if !(1 <= x && x <= 3) {
            up = false;
        }
        if !(-3 <= x && x <= -1) {
            down = false;
        }
    }
    proof {
        if up {
            assert forall|i: int| 0 <= i < row@.len() - 1 implies 1 <= #[trigger] row@[i + 1] - row@[i]
                <= 3 by {
                assert(diff@[i] == row@[i + 1] - row@[i]);
            }
        }
        if down {
            assert forall|i: int| 0 <= i < row@.len() - 1 implies -3 <= #[trigger] row@[i + 1] - row@[i]
                <= -1 by {
                assert(diff@[i] == row@[i + 1] - row@[i]);
            }
        }
        if safe(row@) {
            if forall|i: int| 0 <= i < row@.len() - 1 ==> 1 <= #[trigger] row@[i + 1] - row@[i] <= 3 {
                assert forall|m: int| 0 <= m < diff@.len() implies 1 <= #[trigger] diff@[m] <= 3 by {
                    assert(diff@[m] == row@[m + 1] - row@[m]);
                }
            } else {
                assert forall|m: int| 0 <= m < diff@.len() implies -3 <= #[trigger] diff@[m] <= -1 by {
                    assert(diff@[m] == row@[m + 1] - row@[m]);
                }
            }
        }
    }
    up || down
}

/// Number of safe rows among the first `k`.
pub open spec fn safe_count(rows: Seq<Seq<i32>>, k: int) -> int
    decreases k,
{
    if k <= 0 {
        0
    } else {
        safe_count(rows, k - 1) + if safe(rows[k - 1]) {
            1int
        } else {
            0int
        }
    }
}

proof fn lemma_safe_count_le(rows: Seq<Seq<i32>>, k: int)
    requires
        0 <= k,
    ensures
        0 <= safe_count(rows, k) <= k,
    decreases k,
{
    if k > 0 {
        lemma_safe_count_le(rows, k - 1);
    }
}

/// Count valid rows.
pub fn part1(rows: &[Vec<i32>]) -> (r: i32)
    requires
        forall|i: int| 0 <= i < rows@.len() ==> diffs_fit(#[trigger] rows@[i]@),
    ensures
        r == safe_count(rows@.map_values(|v: Vec<i32>| v@), rows@.len() as int) as i32,
{
    let ghost vs = rows@.map_values(|v: Vec<i32>| v@);
    let mut count: usize = 0;
    for i in 0..rows.len()
        invariant
            vs == rows@.map_values(|v: Vec<i32>| v@),
            forall|j: int| 0 <= j < rows@.len() ==> diffs_fit(#[trigger] rows@[j]@),
            count == safe_count(vs, i as int),
    {
        proof {
            lemma_safe_count_le(vs, i as int);
        }
        assert(vs[i as int] == rows@[i as int]@);
        if check_one(rows[i].as_slice()) {
            count += 1;
        }
    }
    count as i32
}

/// The row is safe, or safe once one level is removed.
pub open spec fn tolerably_safe(row: Seq<i32>) -> bool {
    safe(row) || exists|i: int| 0 <= i < row.len() && safe(#[trigger] without(row, i))
}

/// Number of tolerably safe rows among the first `k`.
pub open spec fn tolerable_count(rows: Seq<Seq<i32>>, k: int) -> int
    decreases k,
{
    if k <= 0 {
        0
    } else {
        tolerable_count(rows, k - 1) + if tolerably_safe(rows[k - 1]) {
            1int
        } else {
            0int
        }
    }
}

proof fn lemma_tolerable_count_le(rows: Seq<Seq<i32>>, k: int)
    requires
        0 <= k,
    ensures
        0 <= tolerable_count(rows, k) <= k,
    decreases k,
{
    if k > 0 {
        lemma_tolerable_count_le(rows, k - 1);
    }
}

/// The problem dampener only adds rows: every row part 1 counts, part 2
/// counts too.
pub proof fn lemma_dampener_only_adds(rows: Seq<Seq<i32>>, k: int)
    ensures
        safe_count(rows, k) <= tolerable_count(rows, k),
    decreases k,
{
    if k > 0 {
        lemma_dampener_only_adds(rows, k - 1);
    }
}

/// The differences of the row, and of the row with any one level removed, fit
/// in an `i32`.
pub open spec fn dampened_fit(row: Seq<i32>) -> bool {
    &&& diffs_fit(row)
    &&& forall|i: int| 0 <= i < row.len() ==> diffs_fit(#[trigger] without(row, i))
}

/// Count valid rows, removing up to one problem entry before the check.
pub fn part2(rows: &[Vec<i32>]) -> (r: i32)
    requires
        rows@.len() <= i32::MAX,
        forall|i: int| 0 <= i < rows@.len() ==> dampened_fit(#[trigger] rows@[i]@),
    ensures
        r == tolerable_count(rows@.map_values(|v: Vec<i32>| v@), rows@.len() as int),
{
    let ghost vs = rows@.map_values(|v: Vec<i32>| v@);
    let mut count: i32 = 0;
    for k in 0..rows.len()
        invariant
            rows@.len() <= i32::MAX,
            vs == rows@.map_values(|v: Vec<i32>| v@),
            forall|j: int| 0 <= j < rows@.len() ==> dampened_fit(#[trigger] rows@[j]@),
            count == tolerable_count(vs, k as int),
    {
        proof {
            lemma_tolerable_count_le(vs, k as int);
        }
        let row = &rows[k];
        assert(vs[k as int] == row@);
        assert(dampened_fit(row@));
        if check_one(row.as_slice()) {
            count += 1;
        } else {
            let mut found = false;
            let mut i: usize = 0;
            while i < row.len()
                invariant
                    dampened_fit(row@),
                    !safe(row@),
                    i <= row@.len(),
                    found ==> tolerably_safe(row@),
                    !found ==> forall|m: int| 0 <= m < i ==> !safe(#[trigger] without(row@, m)),
                ensures
                    found == tolerably_safe(row@),
                decreases row@.len() - i,
            {
                let mut xrow: Vec<i32> = Vec::new();
                xrow.extend_from_slice(&row.as_slice()[0..i]);
                let next = i + 1;
                xrow.extend_from_slice(&row.as_slice()[next..row.len()]);
                assert(xrow@ =~= without(row@, i as int));
                if check_one(xrow.as_slice()) {
                    found = true;
                    break;
                }
                i = i + 1;
            }
            if found {
                count += 1;
            }
        }
    }
    count
}

/// Every level is above all levels before it.
pub open spec fn strictly_rising(row: Seq<i32>) -> bool {
    forall|i: int, j: int| 0 <= i < j < row.len() ==> #[trigger] row[i] < #[trigger] row[j]
}

/// Every level is below all levels before it.
pub open spec fn strictly_falling(row: Seq<i32>) -> bool {
    forall|i: int, j: int| 0 <= i < j < row.len() ==> #[trigger] row[i] > #[trigger] row[j]
}

proof fn lemma_steps_chain(row: Seq<i32>, up: bool, i: int, j: int)
    requires
        0 <= i < j < row.len(),
        up ==> forall|k: int| 0 <= k < row.len() - 1 ==> #[trigger] row[k + 1] - row[k] >= 1,
        !up ==> forall|k: int| 0 <= k < row.len() - 1 ==> #[trigger] row[k + 1] - row[k] <= -1,
    ensures
        up ==> row[i] < row[j],
        !up ==> row[i] > row[j],
    decreases j - i,
{
    if j > i + 1 {
        lemma_steps_chain(row, up, i + 1, j);
    }
    if up {
        assert(row[i + 1] - row[i] >= 1);
    } else {
        assert(row[i + 1] - row[i] <= -1);
    }
}

/// A row is safe exactly when its levels all rise or all fall, and no two
/// neighbours are more than 3 apart.
pub proof fn lemma_safe_is_monotone_and_gentle(row: Seq<i32>)
    ensures
        safe(row) <==> (strictly_rising(row) || strictly_falling(row)) && forall|i: int|
            0 <= i < row.len() - 1 ==> -3 <= #[trigger] row[i + 1] - row[i] <= 3,
{
    if forall|i: int| 0 <= i < row.len() - 1 ==> 1 <= #[trigger] row[i + 1] - row[i] <= 3 {
        assert forall|i: int, j: int| 0 <= i < j < row.len() implies #[trigger] row[i] < #[trigger] row[j] by {
            lemma_steps_chain(row, true, i, j);
        }
    }
    if forall|i: int| 0 <= i < row.len() - 1 ==> -3 <= #[trigger] row[i + 1] - row[i] <= -1 {
        assert forall|i: int, j: int| 0 <= i < j < row.len() implies #[trigger] row[i] > #[trigger] row[j] by {
            lemma_steps_chain(row, false, i, j);
        }
    }
    if strictly_rising(row) {
        assert forall|i: int| 0 <= i < row.len() - 1 implies #[trigger] row[i + 1] - row[i] >= 1 by {
            assert(row[i] < row[i + 1]);
        }
    }
    if strictly_falling(row) {
        assert forall|i: int| 0 <= i < row.len() - 1 implies #[trigger] row[i + 1] - row[i] <= -1 by {
            assert(row[i] > row[i + 1]);
        }
    }
}

/// Reading a row backwards does not change whether it is safe.
pub proof fn lemma_safe_reversed(row: Seq<i32>)
    ensures
        safe(row.reverse()) == safe(row),
{
    let v = row.reverse();
    assert(v.len() == row.len());
    assert forall|i: int| 0 <= i < v.len() - 1 implies #[trigger] v[i + 1] - v[i] == -(row[row.len() - 1 - i]
        - row[row.len() - 2 - i]) by {
    }
    if forall|i: int| 0 <= i < row.len() - 1 ==> 1 <= #[trigger] row[i + 1] - row[i] <= 3 {
        assert forall|i: int| 0 <= i < v.len() - 1 implies -3 <= #[trigger] v[i + 1] - v[i] <= -1 by {
            assert(row[row.len() - 1 - i] - row[row.len() - 2 - i] == row[(row.len() - 2 - i) + 1] - row[row.len() - 2 - i]);
        }
    }
    if forall|i: int| 0 <= i < row.len() - 1 ==> -3 <= #[trigger] row[i + 1] - row[i] <= -1 {
        assert forall|i: int| 0 <= i < v.len() - 1 implies 1 <= #[trigger] v[i + 1] - v[i] <= 3 by {
            assert(row[row.len() - 1 - i] - row[row.len() - 2 - i] == row[(row.len() - 2 - i) + 1] - row[row.len() - 2 - i]);
        }
    }
    if forall|i: int| 0 <= i < v.len() - 1 ==> 1 <= #[trigger] v[i + 1] - v[i] <= 3 {
        assert forall|i: int| 0 <= i < row.len() - 1 implies -3 <= #[trigger] row[i + 1] - row[i] <= -1 by {
            let k = row.len() - 2 - i;
            assert(v[k + 1] - v[k] == -(row[row.len() - 1 - k] - row[row.len() - 2 - k]));
        }
    }
    if forall|i: int| 0 <= i < v.len() - 1 ==> -3 <= #[trigger] v[i + 1] - v[i] <= -1 {
        assert forall|i: int| 0 <= i < row.len() - 1 implies 1 <= #[trigger] row[i + 1] - row[i] <= 3 by {
            let k = row.len() - 2 - i;
            assert(v[k + 1] - v[k] == -(row[row.len() - 1 - k] - row[row.len() - 2 - k]));
        }
    }
}

} // verus!
