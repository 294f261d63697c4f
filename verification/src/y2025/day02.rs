//! Product ids in ranges: sum the ids whose digits are one block repeated.

use vstd::prelude::*;

use crate::text::{
    chars_of, decimal, decimal_digits, find_char, first_index, lemma_first_index, parse_u64,
    parse_unsigned, parses_unsigned_within, split, split_range, trim, trim_bounds, views,
};

verus! {

/// A range of IDs.
pub type IdRange = core::ops::RangeInclusive<u64>;

/// The lower bound of a range that has not been iterated.
#[verifier::external_body]
fn range_start(r: &IdRange) -> (s: u64)
    requires
        !r@.exhausted,
    ensures
        s == r@.start,
{
    *r.start()
}

/// The upper bound of a range that has not been iterated.
#[verifier::external_body]
fn range_end(r: &IdRange) -> (e: u64)
    requires
        !r@.exhausted,
    ensures
        e == r@.end,
{
    *r.end()
}

/// The text before and after the first `-` of a range such as `11-22`.
pub open spec fn range_parts(s: Seq<char>) -> (Seq<char>, Seq<char>) {
    let i = first_index(s, '-');
    (s.take(i), s.skip(i + 1))
}

/// A range is two `u64` numbers joined by the first `-`.
pub open spec fn valid_range_text(s: Seq<char>) -> bool {
    &&& first_index(s, '-') >= 0
    &&& parses_unsigned_within(range_parts(s).0, u64::MAX as int)
    &&& parses_unsigned_within(range_parts(s).1, u64::MAX as int)
}

/// The bounds written in a range's text.
pub open spec fn range_bounds(s: Seq<char>) -> (nat, nat) {
    (parse_unsigned(range_parts(s).0)->0, parse_unsigned(range_parts(s).1)->0)
}

/// Parse one range.
pub fn parse_range(s: &str) -> (r: IdRange)
    requires
        valid_range_text(s@),
    ensures
        r@.start == range_bounds(s@).0,
        r@.end == range_bounds(s@).1,
        !r@.exhausted,
{
    let chars = chars_of(s);
    parse_range_chars(&chars)
}

pub(crate) fn parse_range_chars(s: &Vec<char>) -> (r: IdRange)
    requires
        valid_range_text(s@),
    ensures
        r@.start == range_bounds(s@).0,
        r@.end == range_bounds(s@).1,
        !r@.exhausted,
{
    proof {
        lemma_first_index(s@, '-');
    }
    let i = find_char(s.as_slice(), '-').unwrap();
    let n = s.len();
    assert(i < n);
    let j = i + 1;
    let a = &s.as_slice()[0..i];
    let b = &s.as_slice()[j..n];
    assert(a@ =~= range_parts(s@).0);
    assert(b@ =~= range_parts(s@).1);
    let i1 = parse_u64(a).unwrap();
    let i2 = parse_u64(b).unwrap();
    core::ops::RangeInclusive::new(i1, i2)
}

/// The comma-separated ranges of the input: `text.trim().split(',')`.
pub open spec fn range_texts(text: Seq<char>) -> Seq<Seq<char>> {
    split(trim(text), ',')
}

/// Every comma-separated piece of the input is a valid range.
pub open spec fn valid_ranges_text(text: Seq<char>) -> bool {
    forall|i: int| 0 <= i < range_texts(text).len() ==> valid_range_text(#[trigger] range_texts(text)[i])
}

/// Parse many ranges.
pub fn parse_ranges(text: &str) -> (r: Vec<IdRange>)
    requires
        valid_ranges_text(text@),
    ensures
        r@.len() == range_texts(text@).len(),
        forall|i: int|
            0 <= i < r@.len() ==> {
                &&& (#[trigger] r@[i])@.start == range_bounds(range_texts(text@)[i]).0
                &&& r@[i]@.end == range_bounds(range_texts(text@)[i]).1
                &&& !r@[i]@.exhausted
            },
{
    let chars = chars_of(text);
    let (start, end) = trim_bounds(chars.as_slice());
    let pieces = split_range(chars.as_slice(), start, end, ',');
    let ghost ps = range_texts(text@);
    assert(views(pieces@) == ps);
    let mut out: Vec<IdRange> = Vec::new();
    for i in 0..pieces.len()
        invariant
            views(pieces@) == ps,
            ps == range_texts(text@),
            valid_ranges_text(text@),
            out@.len() == i,
            forall|j: int|
                0 <= j < i ==> {
                    &&& (#[trigger] out@[j])@.start == range_bounds(ps[j]).0
                    &&& out@[j]@.end == range_bounds(ps[j]).1
                    &&& !out@[j]@.exhausted
                },
    {
        assert(pieces@[i as int]@ == ps[i as int]);
        out.push(parse_range_chars(&pieces[i]));
    }
    out
}

/// `d` repeats with period `k`: every digit equals the one `k` places earlier.
pub open spec fn has_period(d: Seq<char>, k: int) -> bool {
    forall|i: int| k <= i < d.len() ==> #[trigger] d[i] == d[i - k]
}

/// `d` is made of equal blocks of `k` digits: at least two of them, and exactly two
/// unless `multi` allows more.
pub open spec fn repeats_with(d: Seq<char>, k: int, multi: bool) -> bool {
    &&& 1 <= k <= d.len() / 2
    &&& (d.len() as int) % k == 0
    &&& (multi || (d.len() as int) / k == 2)
    &&& has_period(d, k)
}

/// An id is valid when its decimal digits are not one block repeated.
pub open spec fn id_is_valid(n: nat, multi: bool) -> bool {
    !exists|k: int| repeats_with(decimal(n), k, multi)
}

fn check_period(d: &Vec<char>, k: usize) -> (r: bool)
    requires
        1 <= k,
    ensures
        r == has_period(d@, k as int),
{
    let n = d.len();
    let mut i = k;
    while i < n
        invariant
            k <= i,
            n == d@.len(),
            forall|j: int| k <= j < i ==> #[trigger] d@[j] == d@[j - k],
        decreases n - i,
    {
        if d[i] != d[i - k] {
            return false;
        }
        i = i + 1;
    }
    true
}

/// Check whether an id is valid.
pub fn is_valid(n: u64, multi: bool) -> (r: bool)
    ensures
        r == id_is_valid(n as nat, multi),
{
    let digits = decimal_digits(n);
    let num_digits = digits.len();
    for chunksize in 1..num_digits / 2 + 1
        invariant
            digits@ == decimal(n as nat),
            num_digits == digits@.len(),
            forall|k: int| 1 <= k < chunksize ==> !repeats_with(digits@, k, multi),
    {
        // need an even subdivision, and exactly two chunks unless `multi`
        if num_digits % chunksize == 0 && (multi || num_digits / chunksize == 2) {
            if check_period(&digits, chunksize) {
                assert(repeats_with(digits@, chunksize as int, multi));
                return false;
            }
        }
    }
    assert forall|k: int| !repeats_with(decimal(n as nat), k, multi) by {
        if 1 <= k <= num_digits / 2 {
        }
    }
    true
}

/// Sum of the invalid ids in `[lo, hi]`.
pub open spec fn invalid_sum_in(lo: int, hi: int, multi: bool) -> nat
    decreases hi + 1 - lo,
{
    if hi < lo {
        0
    } else {
        invalid_sum_in(lo, hi - 1, multi) + if !id_is_valid(hi as nat, multi) {
            hi as nat
        } else {
            0nat
        }
    }
}

/// Sum of the invalid ids over all the ranges written in `ps`.
pub open spec fn invalid_sum(ps: Seq<Seq<char>>, multi: bool) -> nat
    decreases ps.len(),
{
    if ps.len() == 0 {
        0
    } else {
        invalid_sum(ps.drop_last(), multi) + invalid_sum_in(
            range_bounds(ps.last()).0 as int,
            range_bounds(ps.last()).1 as int,
            multi,
        )
    }
}

proof fn lemma_invalid_sum_in_mono(lo: int, hi: int, hi2: int, multi: bool)
    requires
        hi <= hi2,
    ensures
        invalid_sum_in(lo, hi, multi) <= invalid_sum_in(lo, hi2, multi),
    decreases hi2 - hi,
{
    if hi < hi2 {
        lemma_invalid_sum_in_mono(lo, hi, hi2 - 1, multi);
    }
}

proof fn lemma_invalid_sum_prefix(ps: Seq<Seq<char>>, k: int, multi: bool)
    requires
        0 <= k <= ps.len(),
    ensures
        invalid_sum(ps.take(k), multi) <= invalid_sum(ps, multi),
    decreases ps.len() - k,
{
    if k < ps.len() {
        lemma_invalid_sum_prefix(ps, k + 1, multi);
        assert(ps.take(k + 1).drop_last() =~= ps.take(k));
    } else {
        assert(ps.take(k) =~= ps);
    }
}

fn sum_invalid_ids(text: &str, multi: bool) -> (r: u64)
    requires
        valid_ranges_text(text@),
        invalid_sum(range_texts(text@), multi) <= u64::MAX,
    ensures
        r == invalid_sum(range_texts(text@), multi),
{
    let mut result: u64 = 0;
    let ranges = parse_ranges(text);
    let ghost ps = range_texts(text@);
    assert(ps.take(0) =~= Seq::<Seq<char>>::empty());
    for i in 0..ranges.len()
        invariant
            ps == range_texts(text@),
            invalid_sum(ps, multi) <= u64::MAX,
            ranges@.len() == ps.len(),
            forall|j: int|
                0 <= j < ranges@.len() ==> {
                    &&& (#[trigger] ranges@[j])@.start == range_bounds(ps[j]).0
                    &&& ranges@[j]@.end == range_bounds(ps[j]).1
                    &&& !ranges@[j]@.exhausted
                },
            result == invalid_sum(ps.take(i as int), multi),
    {
        let ghost next = ps.take(i + 1);
        assert(next.drop_last() =~= ps.take(i as int));
        proof {
            lemma_invalid_sum_prefix(ps, i + 1, multi);
        }
        let lo = range_start(&ranges[i]);
        let hi = range_end(&ranges[i]);
        let ghost base = result;
        if lo <= hi {
            let mut n = lo;
            loop
                invariant_except_break
                    lo <= n <= hi,
                    base + invalid_sum_in(lo as int, hi as int, multi) <= u64::MAX,
                    result == base + invalid_sum_in(lo as int, n - 1, multi),
                ensures
                    result == base + invalid_sum_in(lo as int, hi as int, multi),
                decreases hi - n,
            {
                proof {
                    lemma_invalid_sum_in_mono(lo as int, n as int, hi as int, multi);
                }
                if !is_valid(n, multi) {
                    result += n;
                }
                if n == hi {
                    break;
                }
                n += 1;
            }
        }
    }
    assert(ps.take(ps.len() as int) =~= ps);
    result
}

/// Returns the part1 result: the sum of ids made of one block written twice.
pub fn part1(text: &str) -> (r: u64)
    requires
        valid_ranges_text(text@),
        invalid_sum(range_texts(text@), false) <= u64::MAX,
    ensures
        r == invalid_sum(range_texts(text@), false),
{
    sum_invalid_ids(text, false)
}

/// Returns the part2 result: the sum of ids made of one block written two or more times.
pub fn part2(text: &str) -> (r: u64)
    requires
        valid_ranges_text(text@),
        invalid_sum(range_texts(text@), true) <= u64::MAX,
    ensures
        r == invalid_sum(range_texts(text@), true),
{
    sum_invalid_ids(text, true)
}

/// An id made of one block repeated twice is made of a repeated block.
proof fn lemma_twice_is_repeated(n: nat)
    ensures
        !id_is_valid(n, false) ==> !id_is_valid(n, true),
{
    if !id_is_valid(n, false) {
        let k = choose|k: int| repeats_with(decimal(n), k, false);
        assert(repeats_with(decimal(n), k, true));
    }
}

/// Within one range, part 2 finds every invalid id part 1 finds.
proof fn lemma_range_sum_le(lo: int, hi: int)
    ensures
        invalid_sum_in(lo, hi, false) <= invalid_sum_in(lo, hi, true),
    decreases hi + 1 - lo,
{
    if hi >= lo {
        lemma_range_sum_le(lo, hi - 1);
        lemma_twice_is_repeated(hi as nat);
    }
}

/// Every id part 1 counts as invalid, part 2 counts too: the part 2 sum is at
/// least the part 1 sum.
pub proof fn lemma_repeats_only_add(ps: Seq<Seq<char>>)
    ensures
        invalid_sum(ps, false) <= invalid_sum(ps, true),
    decreases ps.len(),
{
    if ps.len() > 0 {
        lemma_repeats_only_add(ps.drop_last());
        lemma_range_sum_le(range_bounds(ps.last()).0 as int, range_bounds(ps.last()).1 as int);
    }
}

/// Without repeats beyond two, an id is invalid exactly when its decimal
/// digits are some non-empty block written twice.
pub proof fn lemma_invalid_is_doubled(n: nat)
    ensures
        !id_is_valid(n, false) <==> exists|b: Seq<char>| b.len() >= 1 && decimal(n) == #[trigger] (b + b),
{
    let d = decimal(n);
    if !id_is_valid(n, false) {
        let k = choose|k: int| repeats_with(d, k, false);
        let b = d.take(k);
        assert(d.len() == 2 * k) by {
            vstd::arithmetic::div_mod::lemma_fundamental_div_mod(d.len() as int, k);
        }
        assert forall|i: int| 0 <= i < d.len() implies d[i] == (b + b)[i] by {
            if i >= k {
                assert(d[i] == d[i - k]);
            }
        }
        assert(d =~= b + b);
    }
    if exists|b: Seq<char>| b.len() >= 1 && decimal(n) == #[trigger] (b + b) {
        let b = choose|b: Seq<char>| b.len() >= 1 && decimal(n) == #[trigger] (b + b);
        let k = b.len() as int;
        assert(d.len() == 2 * k);
        assert((d.len() as int) % k == 0 && (d.len() as int) / k == 2) by {
            vstd::arithmetic::div_mod::lemma_fundamental_div_mod_converse(d.len() as int, k, 2, 0);
        }
        assert forall|i: int| k <= i < d.len() implies #[trigger] d[i] == d[i - k] by {
            assert(d[i] == b[i - k]);
            assert(d[i - k] == b[i - k]);
        }
        assert(repeats_with(d, k, false));
    }
}

/// `t` copies of the block `b`, one after another.
pub open spec fn copies(b: Seq<char>, t: nat) -> Seq<char> {
    Seq::new(t * b.len(), |i: int| b[i % (b.len() as int)])
}

proof fn lemma_period_copies(d: Seq<char>, k: int, i: int)
    requires
        1 <= k,
        has_period(d, k),
        0 <= i < d.len(),
    ensures
        d[i] == d[i % k],
    decreases i,
{
    if i >= k {
        lemma_period_copies(d, k, i - k);
        vstd::arithmetic::div_mod::lemma_mod_sub_multiples_vanish(i, k);
    } else {
        vstd::arithmetic::div_mod::lemma_small_mod(i as nat, k as nat);
    }
}

/// With any number of repeats allowed, an id is invalid exactly when its
/// decimal digits are two or more copies of some non-empty block.
pub proof fn lemma_invalid_is_repeated(n: nat)
    ensures
        !id_is_valid(n, true) <==> exists|b: Seq<char>, t: nat| b.len() >= 1 && t >= 2 && decimal(n) == #[trigger] copies(b, t),
{
    let d = decimal(n);
    if !id_is_valid(n, true) {
        let k = choose|k: int| repeats_with(d, k, true);
        let b = d.take(k);
        let t = (d.len() as int / k) as nat;
        vstd::arithmetic::div_mod::lemma_fundamental_div_mod(d.len() as int, k);
        assert(t >= 2) by {
            vstd::arithmetic::div_mod::lemma_div_is_ordered(2 * k, d.len() as int, k);
            vstd::arithmetic::div_mod::lemma_div_multiples_vanish(2, k);
            assert(2 * k == k * 2);
        }
        assert(t * k == d.len()) by (nonlinear_arith)
            requires d.len() == k * (d.len() as int / k), t == d.len() as int / k;
        assert forall|i: int| 0 <= i < d.len() implies d[i] == copies(b, t)[i] by {
            lemma_period_copies(d, k, i);
            vstd::arithmetic::div_mod::lemma_mod_bound(i, k);
        }
        assert(d =~= copies(b, t));
    }
    if exists|b: Seq<char>, t: nat| b.len() >= 1 && t >= 2 && decimal(n) == #[trigger] copies(b, t) {
        let (b, t) = choose|b: Seq<char>, t: nat| b.len() >= 1 && t >= 2 && decimal(n) == #[trigger] copies(b, t);
        let k = b.len() as int;
        assert(d.len() == t * k);
        assert((d.len() as int) % k == 0) by {
            vstd::arithmetic::div_mod::lemma_mod_multiples_basic(t as int, k);
        }
        assert(k <= d.len() / 2) by {
            assert(t * k >= 2 * k) by (nonlinear_arith)
                requires t >= 2, k >= 1;
            vstd::arithmetic::div_mod::lemma_div_is_ordered(2 * k, d.len() as int, 2);
            vstd::arithmetic::div_mod::lemma_div_multiples_vanish(k, 2);
            assert(2 * k == 2 * k);
        }
        assert forall|i: int| k <= i < d.len() implies #[trigger] d[i] == d[i - k] by {
            vstd::arithmetic::div_mod::lemma_mod_sub_multiples_vanish(i, k);
        }
        assert(repeats_with(d, k, true));
    }
}

} // verus!
