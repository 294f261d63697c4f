//! Battery banks: pick digits in order to make the largest number.

use vstd::prelude::*;

use crate::text::{all_digits, chars_of, decimal_value, digits_to_u64, split, trim, trimmed_lines, views};

verus! {

/// A bank of batteries, one digit each.
pub type Bank = Vec<char>;

/// The first position of the largest character among `s[0..k]` (0 when `k <= 1`).
pub open spec fn best_index(s: Seq<char>, k: int) -> int
    decreases k,
{
    if k <= 1 {
        0
    } else {
        let j = best_index(s, k - 1);
        if (s[k - 1] as u32) > (s[j] as u32) {
            k - 1
        } else {
            j
        }
    }
}

/// The digits chosen greedily: the first largest digit that still leaves room for
/// the rest, then the best choice from what follows it.
pub open spec fn max_digits(s: Seq<char>, n: nat) -> Seq<char>
    decreases n,
{
    if n == 0 || s.len() < n {
        Seq::empty()
    } else {
        let i = best_index(s, s.len() - n + 1);
        seq![s[i]] + max_digits(s.skip(i + 1), (n - 1) as nat)
    }
}

proof fn lemma_best_index(s: Seq<char>, k: int)
    requires
        1 <= k <= s.len(),
    ensures
        0 <= best_index(s, k) < k,
        forall|j: int| 0 <= j < k ==> (#[trigger] s[j] as u32) <= (s[best_index(s, k)] as u32),
        forall|j: int| 0 <= j < best_index(s, k) ==> (#[trigger] s[j] as u32) < (s[best_index(s, k)] as u32),
    decreases k,
{
    if k > 1 {
        lemma_best_index(s, k - 1);
    }
}

/// Reads one bank.
pub fn parse_bank(line: &str) -> (r: Bank)
    ensures
        r@ == line@,
{
    chars_of(line)
}

/// The banks of the input, one per line: `text.trim().split('\n')`.
pub open spec fn bank_lines(text: Seq<char>) -> Seq<Seq<char>> {
    split(trim(text), '\n')
}

/// Reads all banks.
pub fn parse_banks(text: &str) -> (r: Vec<Bank>)
    ensures
        views(r@) == bank_lines(text@),
{
    trimmed_lines(text)
}

/// The largest `num_digits`-digit sequence that can be picked from the bank in order.
pub fn max_joltage_digits(bank: &Bank, num_digits: usize) -> (r: Bank)
    requires
        num_digits <= bank@.len(),
    ensures
        r@ == max_digits(bank@, num_digits as nat),
        r@.len() == num_digits,
    decreases num_digits,
{
    if num_digits == 0 {
        return vec![];
    }
    let total_digits = bank.len();
    let search_digits = total_digits - num_digits + 1;
    let mut i_best: usize = 0;
    let mut best = '\0';
    for i in 0..search_digits
        invariant
            search_digits <= bank@.len(),
            1 <= search_digits,
            i == 0 ==> i_best == 0 && best == '\0',
            i > 0 ==> i_best == best_index(bank@, i as int) && (best as u32) == (
            bank@[i_best as int] as u32),
            i_best < search_digits,
    {
        let c = bank[i];
        if (c as u32) > (best as u32) {
            i_best = i;
            best = c;
        }
    }
    proof {
        lemma_best_index(bank@, search_digits as int);
    }
    let rest = vstd::slice::slice_to_vec(&bank.as_slice()[i_best + 1..total_digits]);
    assert(rest@ =~= bank@.skip(i_best + 1));
    let more_digits = max_joltage_digits(&rest, num_digits - 1);
    let mut best_digits = vec![bank[i_best]];
    let mut more = more_digits;
    best_digits.append(&mut more);
    assert(best_digits@ =~= max_digits(bank@, num_digits as nat));
    best_digits
}

/// The largest number of `num_digits` digits that the bank can make.
pub fn max_joltage(bank: &Bank, num_digits: usize) -> (r: u64)
    requires
        1 <= num_digits <= bank@.len(),
        all_digits(max_digits(bank@, num_digits as nat)),
        decimal_value(max_digits(bank@, num_digits as nat)) <= u64::MAX,
    ensures
        r == decimal_value(max_digits(bank@, num_digits as nat)),
{
    let digits = max_joltage_digits(bank, num_digits);
    assert(digits@.subrange(0, digits@.len() as int) =~= digits@);
    digits_to_u64(digits.as_slice(), 0, digits.len())
}

/// A bank can be read as a `n`-digit number of at most `u64::MAX`.
pub open spec fn bank_ok(b: Seq<char>, n: nat) -> bool {
    &&& 1 <= n <= b.len()
    &&& all_digits(max_digits(b, n))
    &&& decimal_value(max_digits(b, n)) <= u64::MAX
}

/// Sum over the banks of their largest `n`-digit numbers.
pub open spec fn joltage_sum(banks: Seq<Seq<char>>, n: nat) -> nat
    decreases banks.len(),
{
    if banks.len() == 0 {
        0
    } else {
        joltage_sum(banks.drop_last(), n) + decimal_value(max_digits(banks.last(), n))
    }
}

proof fn lemma_joltage_sum_prefix(banks: Seq<Seq<char>>, k: int, n: nat)
    requires
        0 <= k <= banks.len(),
    ensures
        joltage_sum(banks.take(k), n) <= joltage_sum(banks, n),
    decreases banks.len() - k,
{
    if k < banks.len() {
        lemma_joltage_sum_prefix(banks, k + 1, n);
        assert(banks.take(k + 1).drop_last() =~= banks.take(k));
    } else {
        assert(banks.take(k) =~= banks);
    }
}

fn total_joltage(text: &str, n: usize) -> (r: u64)
    requires
        forall|i: int| 0 <= i < bank_lines(text@).len() ==> bank_ok(#[trigger] bank_lines(text@)[i], n as nat),
        joltage_sum(bank_lines(text@), n as nat) <= u64::MAX,
    ensures
        r == joltage_sum(bank_lines(text@), n as nat),
{
    let banks = parse_banks(text);
    let ghost bs = bank_lines(text@);
    let mut sum: u64 = 0;
    assert(bs.take(0) =~= Seq::<Seq<char>>::empty());
    for i in 0..banks.len()
        invariant
            views(banks@) == bs,
            bs == bank_lines(text@),
            forall|j: int| 0 <= j < bs.len() ==> bank_ok(#[trigger] bs[j], n as nat),
            joltage_sum(bs, n as nat) <= u64::MAX,
            sum == joltage_sum(bs.take(i as int), n as nat),
    {
        let ghost next = bs.take(i + 1);
        assert(next.drop_last() =~= bs.take(i as int));
        assert(banks@[i as int]@ == bs[i as int]);
        proof {
            lemma_joltage_sum_prefix(bs, i + 1, n as nat);
        }
        sum = sum + max_joltage(&banks[i], n);
    }
    assert(bs.take(bs.len() as int) =~= bs);
    sum
}

/// Returns the part1 result: the banks' largest two-digit numbers, summed.
pub fn part1(text: &str) -> (r: u64)
    requires
        forall|i: int| 0 <= i < bank_lines(text@).len() ==> bank_ok(#[trigger] bank_lines(text@)[i], 2),
        joltage_sum(bank_lines(text@), 2) <= u64::MAX,
    ensures
        r == joltage_sum(bank_lines(text@), 2),
{
    total_joltage(text, 2)
}

/// Returns the part2 result: the banks' largest twelve-digit numbers, summed.
pub fn part2(text: &str) -> (r: u64)
    requires
        forall|i: int| 0 <= i < bank_lines(text@).len() ==> bank_ok(#[trigger] bank_lines(text@)[i], 12),
        joltage_sum(bank_lines(text@), 12) <= u64::MAX,
    ensures
        r == joltage_sum(bank_lines(text@), 12),
{
    total_joltage(text, 12)
}


/// `t` is made of the characters of `s` at the strictly increasing positions `idx`.
pub open spec fn picks(s: Seq<char>, idx: Seq<int>, t: Seq<char>) -> bool {
    &&& idx.len() == t.len()
    &&& forall|m: int| 0 <= m < idx.len() ==> 0 <= #[trigger] idx[m] < s.len() && s[idx[m]] == t[m]
    &&& forall|m: int, p: int| 0 <= m < p < idx.len() ==> #[trigger] idx[m] < #[trigger] idx[p]
}

/// `a` comes no later than `b` in dictionary order of character codes (for digit
/// strings of one length, numeric order).
pub open spec fn lex_le(a: Seq<char>, b: Seq<char>) -> bool
    decreases a.len(),
{
    ||| a.len() == 0
    ||| b.len() == 0
    ||| (a[0] as u32) < (b[0] as u32)
    ||| ((a[0] as u32) == (b[0] as u32) && lex_le(a.drop_first(), b.drop_first()))
}

proof fn lemma_increasing_spread(idx: Seq<int>, m: int)
    requires
        0 <= m < idx.len(),
        forall|a: int, b: int| 0 <= a < b < idx.len() ==> #[trigger] idx[a] < #[trigger] idx[b],
    ensures
        idx[m] >= idx[0] + m,
    decreases m,
{
    if m > 0 {
        lemma_increasing_spread(idx, m - 1);
        assert(idx[m - 1] < idx[m]);
    }
}

/// The greedy choice is made of the bank's digits, in order.
pub proof fn lemma_max_digits_picks(s: Seq<char>, n: nat) -> (idx: Seq<int>)
    requires
        n <= s.len(),
    ensures
        picks(s, idx, max_digits(s, n)),
        max_digits(s, n).len() == n,
    decreases n,
{
    if n == 0 {
        Seq::empty()
    } else {
        let k = s.len() - n + 1;
        lemma_best_index(s, k);
        let i = best_index(s, k);
        let rest = s.skip(i + 1);
        let sub = lemma_max_digits_picks(rest, (n - 1) as nat);
        let idx = seq![i] + sub.map(|m: int, x: int| x + i + 1);
        let t = max_digits(s, n);
        assert(t == seq![s[i]] + max_digits(rest, (n - 1) as nat));
        assert forall|m: int| 0 <= m < idx.len() implies 0 <= #[trigger] idx[m] < s.len() && s[idx[m]]
            == t[m] by {
            if m > 0 {
                assert(idx[m] == sub[m - 1] + i + 1);
                assert(rest[sub[m - 1]] == s[sub[m - 1] + i + 1]);
            }
        }
        assert forall|a: int, b: int| 0 <= a < b < idx.len() implies #[trigger] idx[a] < #[trigger] idx[b] by {
            if a > 0 {
                assert(sub[a - 1] < sub[b - 1]);
            } else {
                assert(idx[b] == sub[b - 1] + i + 1);
            }
        }
        idx
    }
}

/// The greedy choice is the largest: every way of picking `n` of the bank's digits
/// in order gives a sequence that comes no later than it.
pub proof fn lemma_max_digits_is_largest(s: Seq<char>, n: nat, idx: Seq<int>, t: Seq<char>)
    requires
        n <= s.len(),
        t.len() == n,
        picks(s, idx, t),
    ensures
        lex_le(t, max_digits(s, n)),
    decreases n,
{
    if n > 0 {
        let k = s.len() - n + 1;
        lemma_best_index(s, k);
        let i = best_index(s, k);
        let rest = s.skip(i + 1);
        let best = max_digits(s, n);
        assert(best == seq![s[i]] + max_digits(rest, (n - 1) as nat));
        let j0 = idx[0];
        lemma_increasing_spread(idx, n - 1);
        assert(j0 < k);
        assert(t[0] == s[j0]);
        if (t[0] as u32) < (s[i] as u32) {
        } else {
            assert((s[j0] as u32) <= (s[i] as u32));
            assert(j0 >= i) by {
                if j0 < i {
                    assert((s[j0] as u32) < (s[i] as u32));
                }
            }
            let idx2 = idx.drop_first().map(|m: int, x: int| x - (i + 1));
            let t2 = t.drop_first();
            assert forall|m: int| 0 <= m < idx2.len() implies 0 <= #[trigger] idx2[m] < rest.len()
                && rest[idx2[m]] == t2[m] by {
                assert(idx[0] < idx[m + 1]);
                assert(rest[idx2[m]] == s[idx[m + 1]]);
            }
            assert forall|a: int, b: int| 0 <= a < b < idx2.len() implies #[trigger] idx2[a]
                < #[trigger] idx2[b] by {
                assert(idx[a + 1] < idx[b + 1]);
            }
            lemma_max_digits_is_largest(rest, (n - 1) as nat, idx2, t2);
            assert(best.drop_first() =~= max_digits(rest, (n - 1) as nat));
        }
    }
}

} // verus!
