//! Stones that change on every blink: 0 becomes 1, a number with an even count
//! of digits splits into its two halves, any other number is multiplied by 2024.

use std::collections::HashMap;

use vstd::prelude::*;

use crate::text::{
    append_chars, decimal, decimal_digits, decimal_value, digits_to_u64, join, lemma_decimal,
    lemma_decimal_concat, parse_u64, parse_unsigned, parses_unsigned_within, split_words,
    string_from_chars, words, chars_of, views,
};

verus! {

broadcast use vstd::std_specs::hash::group_hash_axioms;

/// A row of stones, in order.
#[derive(Clone, Debug, Eq, PartialEq)]
pub struct Array(pub Vec<u64>);

/// What one stone becomes after a blink.
pub open spec fn blink_one(v: u64) -> Seq<u64> {
    let ds = decimal(v as nat);
    let h = ds.len() / 2;
    if v == 0 {
        seq![1]
    } else if ds.len() % 2 == 0 {
        seq![decimal_value(ds.take(h as int)) as u64, decimal_value(ds.skip(h as int)) as u64]
    } else {
        seq![(v * 2024) as u64]
    }
}

/// Digits `s` make a number below `10^len`.
proof fn lemma_digits_below(s: Seq<char>)
    requires
        forall|i: int| 0 <= i < s.len() ==> crate::text::is_digit(#[trigger] s[i]),
    ensures
        decimal_value(s) < vstd::arithmetic::power::pow(10, s.len()),
    decreases s.len(),
{
    reveal(vstd::arithmetic::power::pow);
    if s.len() > 0 {
        let t = s.drop_last();
        assert forall|i: int| 0 <= i < t.len() implies crate::text::is_digit(#[trigger] t[i]) by {
            assert(t[i] == s[i]);
        }
        lemma_digits_below(t);
        assert(crate::text::is_digit(s[s.len() - 1]));
        let p = vstd::arithmetic::power::pow(10, t.len());
        assert(decimal_value(t) * 10 + crate::text::digit_value(s.last()) < 10 * p) by (nonlinear_arith)
            requires
                decimal_value(t) < p,
                crate::text::digit_value(s.last()) < 10,
        ;
    }
}

/// What a blink does to one stone: 0 becomes 1; a number with an even count of
/// digits splits into a left and a right half, the left shifted by the right's
/// digit count and added to the right giving back the number; any other number
/// is multiplied by 2024.
pub proof fn lemma_blink_one_laws(v: u64)
    ensures
        v == 0 ==> blink_one(v) == seq![1u64],
        v != 0 && decimal(v as nat).len() % 2 == 0 ==> {
            let h = decimal(v as nat).len() / 2;
            let r = blink_one(v);
            &&& r.len() == 2
            &&& r[0] * vstd::arithmetic::power::pow(10, h) + r[1] == v
            &&& r[1] < vstd::arithmetic::power::pow(10, h)
        },
        v != 0 && decimal(v as nat).len() % 2 == 1 ==> blink_one(v).len() == 1 && blink_one(v)[0] as int == (v
            * 2024) % 0x1_0000_0000_0000_0000,
{
    let ds = decimal(v as nat);
    lemma_decimal(v as nat);
    if v != 0 && ds.len() % 2 == 0 {
        let h = ds.len() / 2;
        let x = ds.take(h as int);
        let y = ds.skip(h as int);
        assert(ds =~= x + y);
        lemma_decimal_concat(x, y);
        assert forall|i: int| 0 <= i < y.len() implies crate::text::is_digit(#[trigger] y[i]) by {
            assert(y[i] == ds[i + h]);
        }
        lemma_digits_below(y);
        vstd::arithmetic::power::lemma_pow_positive(10, y.len());
        let w = vstd::arithmetic::power::pow(10, y.len());
        assert(decimal_value(x) <= decimal_value(x) * w) by (nonlinear_arith)
            requires
                w >= 1,
        ;
        assert(y.len() == h);
    }
    if v != 0 && ds.len() % 2 == 1 {
        assert((v * 2024) as u64 as int == (v * 2024) % 0x1_0000_0000_0000_0000) by (bit_vector);
    }
}

/// A stone can blink without overflow: a stone that is multiplied stays within a `u64`.
pub open spec fn blink_ok(v: u64) -> bool {
    v == 0 || decimal(v as nat).len() % 2 == 0 || v * 2024 <= u64::MAX
}

/// The stones after one blink.
pub open spec fn blink_seq(s: Seq<u64>) -> Seq<u64>
    decreases s.len(),
{
    if s.len() == 0 {
        Seq::empty()
    } else {
        blink_seq(s.drop_last()) + blink_one(s.last())
    }
}

/// The stones after `n` blinks.
pub open spec fn blinks(s: Seq<u64>, n: nat) -> Seq<u64>
    decreases n,
{
    if n == 0 {
        s
    } else {
        blink_seq(blinks(s, (n - 1) as nat))
    }
}

/// Every stone can blink without overflow for each of the first `n` blinks.
pub open spec fn blinks_ok(s: Seq<u64>, n: nat) -> bool {
    forall|k: nat, i: int|
        k < n && 0 <= i < blinks(s, k).len() ==> blink_ok(#[trigger] blinks(s, k)[i])
}

/// The stones one stone becomes after a blink.
fn blink_value(value: u64) -> (r: Vec<u64>)
    requires
        blink_ok(value),
    ensures
        r@ == blink_one(value),
{
    let mut out: Vec<u64> = Vec::new();
    // handle 0
    if value == 0 {
        out.push(1);
        assert(out@ =~= blink_one(value));
        return out;
    }
    // handle even number of digits
    let str_value = decimal_digits(value);
    let num_digits = str_value.len();
    if num_digits % 2 == 0 {
        let half_digits = num_digits / 2;
        let ghost ds = str_value@;
        proof {
            lemma_decimal(value as nat);
            assert(ds =~= ds.take(half_digits as int) + ds.skip(half_digits as int));
            lemma_decimal_concat(ds.take(half_digits as int), ds.skip(half_digits as int));
            vstd::arithmetic::power::lemma_pow_positive(10, ds.skip(half_digits as int).len());
            let a = decimal_value(ds.take(half_digits as int));
            let w = vstd::arithmetic::power::pow(10, ds.skip(half_digits as int).len());
            assert(a <= a * w) by (nonlinear_arith)
                requires
                    w >= 1,
            ;
            assert(ds.subrange(0, half_digits as int) =~= ds.take(half_digits as int));
            assert(ds.subrange(half_digits as int, num_digits as int) =~= ds.skip(half_digits as int));
        }
        out.push(digits_to_u64(str_value.as_slice(), 0, half_digits));
        out.push(digits_to_u64(str_value.as_slice(), half_digits, num_digits));
        assert(out@ =~= blink_one(value));
        return out;
    }
    // handle others
    out.push(value * 2024);
    assert(out@ =~= blink_one(value));
    out
}

/// The whitespace-separated words of the text parse as `u64` values.
pub open spec fn stones_text_ok(text: Seq<char>) -> bool {
    forall|i: int|
        0 <= i < words(text).len() ==> parses_unsigned_within(
            #[trigger] words(text)[i],
            u64::MAX as int,
        )
}

/// The values of the whitespace-separated words of the text.
pub open spec fn stones_of(text: Seq<char>) -> Seq<u64> {
    words(text).map_values(|w: Seq<char>| parse_unsigned(w)->0 as u64)
}

/// The values of the whitespace-separated words of `text`.
fn parse_stones(text: &str) -> (r: Vec<u64>)
    requires
        stones_text_ok(text@),
    ensures
        r@ == stones_of(text@),
{
    let chars = chars_of(text);
    let ws = split_words(chars.as_slice());
    let mut out: Vec<u64> = Vec::new();
    for i in 0..ws.len()
        invariant
            views(ws@) == words(text@),
            stones_text_ok(text@),
            out@ == stones_of(text@).take(i as int),
    {
        assert(ws@[i as int]@ == words(text@)[i as int]);
        let v = match parse_u64(ws[i].as_slice()) {
            Some(v) => v,
            None => 0,
        };
        out.push(v);
        assert(out@ =~= stones_of(text@).take(i + 1));
    }
    assert(stones_of(text@).take(ws@.len() as int) =~= stones_of(text@));
    out
}

impl Array {
    /// Reads the stones from the text.
    pub fn new(text: &str) -> (r: Self)
        requires
            stones_text_ok(text@),
        ensures
            r.0@ == stones_of(text@),
    {
        Array(parse_stones(text))
    }

    /// The stones after one blink.
    pub fn blink(&self) -> (r: Self)
        requires
            forall|i: int| 0 <= i < self.0@.len() ==> blink_ok(#[trigger] self.0@[i]),
        ensures
            r.0@ == blink_seq(self.0@),
    {
        let mut out: Vec<u64> = Vec::new();
        for i in 0..self.0.len()
            invariant
                forall|j: int| 0 <= j < self.0@.len() ==> blink_ok(#[trigger] self.0@[j]),
                out@ == blink_seq(self.0@.take(i as int)),
        {
            let more = blink_value(self.0[i]);
            for k in 0..more.len()
                invariant
                    out@ == blink_seq(self.0@.take(i as int)) + more@.take(k as int),
            {
                out.push(more[k]);
                assert(more@.take(k + 1) =~= more@.take(k as int).push(more@[k as int]));
            }
            assert(more@.take(more@.len() as int) =~= more@);
            assert(self.0@.take(i + 1).drop_last() =~= self.0@.take(i as int));
        }
        assert(self.0@.take(self.0@.len() as int) =~= self.0@);
        Array(out)
    }

    /// The stones as text: the numbers separated by single spaces.
    pub fn to_string(&self) -> (r: String)
        ensures
            r@ == join(self.0@.map_values(|v: u64| decimal(v as nat)), " "@),
    {
        let ghost pieces = self.0@.map_values(|v: u64| decimal(v as nat));
        let mut buf: Vec<char> = Vec::new();
        let space = chars_of(" ");
        for i in 0..self.0.len()
            invariant
                space@ == " "@,
                pieces.len() == self.0@.len(),
                forall|k: int| 0 <= k < pieces.len() ==> #[trigger] pieces[k] == decimal(self.0@[k] as nat),
                buf@ == join(pieces.take(i as int), " "@),
        {
            let ghost before = buf@;
            if i > 0 {
                append_chars(&mut buf, &space);
            }
            let d = decimal_digits(self.0[i]);
            append_chars(&mut buf, &d);
            proof {
                assert(pieces.take(i + 1).drop_last() =~= pieces.take(i as int));
                if i > 0 {
                    assert(buf@ =~= before + " "@ + pieces[i as int]);
                } else {
                    assert(buf@ =~= pieces[i as int]);
                }
            }
        }
        assert(pieces.take(pieces.len() as int) =~= pieces);
        string_from_chars(&buf)
    }
}

/// Returns the part1 result: the number of stones after 25 blinks.
pub fn part1(data: &Array) -> (r: usize)
    requires
        blinks_ok(data.0@, 25),
    ensures
        r == blinks(data.0@, 25).len(),
{
    let mut data = Array(data.0.clone());
    let ghost s0 = data.0@;
    assert(data.0@ =~= blinks(s0, 0));
    let mut k: usize = 0;
    while k < 25
        invariant
            k <= 25,
            blinks_ok(s0, 25),
            data.0@ == blinks(s0, k as nat),
        decreases 25 - k,
    {
        assert forall|i: int| 0 <= i < data.0@.len() implies blink_ok(#[trigger] data.0@[i]) by {
            assert(blink_ok(blinks(s0, k as nat)[i]));
        }
        data = data.blink();
        k = k + 1;
    }
    data.0.len()
}

/// Stone values with how many stones carry each.
#[derive(Clone, Debug)]
pub struct ArrayCounts(pub HashMap<u64, usize>);

impl ArrayCounts {
    /// Reads the stones from the text and counts each value.
    pub fn new(text: &str) -> (r: Self)
        requires
            stones_text_ok(text@),
        ensures
            forall|k: u64| #[trigger] r.0@.contains_key(k) <==> stones_of(text@).contains(k),
            forall|k: u64| r.0@.contains_key(k) ==> r.0@[k] == stones_of(text@).to_multiset().count(k),
            r.0@ == tally(stones_of(text@)),
    {
        let stones = parse_stones(text);
        let mut out: HashMap<u64, usize> = HashMap::new();
        for i in 0..stones.len()
            invariant
                forall|k: u64| #[trigger] out@.contains_key(k) <==> stones@.take(i as int).contains(k),
                forall|k: u64|
                    out@.contains_key(k) ==> out@[k] == stones@.take(i as int).to_multiset().count(k),
                forall|k: u64| out@.contains_key(k) ==> out@[k] <= i,
        {
            let num = stones[i];
            let c: usize = match out.get(&num) {
                Some(c) => *c,
                None => 0,
            };
            proof {
                stones@.take(i as int).to_multiset_ensures();
                stones@.take(i + 1).to_multiset_ensures();
                assert(stones@.take(i + 1) =~= stones@.take(i as int).push(num));
                if !out@.contains_key(num) {
                    assert(!stones@.take(i as int).contains(num));
                }
            }
            out.insert(num, c + 1);
            proof {
                assert forall|k: u64| #[trigger] out@.contains_key(k) <==> stones@.take(i + 1).contains(
                    k,
                ) by {
                    if k == num {
                        assert(stones@.take(i + 1)[i as int] == num);
                    } else if stones@.take(i + 1).contains(k) {
                        let j = choose|j: int| 0 <= j < i + 1 && #[trigger] stones@.take(i + 1)[j] == k;
                        assert(stones@.take(i as int)[j] == k);
                    }
                }
            }
        }
        assert(stones@.take(stones@.len() as int) =~= stones@);
        assert(out@ =~= tally(stones@));
        ArrayCounts(out)
    }
}

/// How many stones of value `x` one stone of value `k` becomes after a blink.
pub open spec fn produces(k: u64, x: u64) -> nat {
    count_in(blink_one(k), x)
}

/// How many entries of `s` equal `x`.
pub open spec fn count_in(s: Seq<u64>, x: u64) -> nat
    decreases s.len(),
{
    if s.len() == 0 {
        0
    } else {
        count_in(s.drop_last(), x) + if s.last() == x {
            1nat
        } else {
            0nat
        }
    }
}

proof fn lemma_count_in_pos(s: Seq<u64>, x: u64)
    ensures
        count_in(s, x) > 0 <==> s.contains(x),
    decreases s.len(),
{
    if s.len() > 0 {
        lemma_count_in_pos(s.drop_last(), x);
        if s.drop_last().contains(x) {
            let j = choose|j: int| 0 <= j < s.drop_last().len() && #[trigger] s.drop_last()[j] == x;
            assert(s[j] == x);
        }
        if s.contains(x) {
            let j = choose|j: int| 0 <= j < s.len() && #[trigger] s[j] == x;
            if j < s.len() - 1 {
                assert(s.drop_last()[j] == x);
            }
        }
    }
}

proof fn lemma_count_in_le(s: Seq<u64>, x: u64, k: int)
    requires
        0 <= k <= s.len(),
    ensures
        count_in(s.take(k), x) <= count_in(s, x),
    decreases s.len() - k,
{
    if k < s.len() {
        lemma_count_in_le(s, x, k + 1);
        assert(s.take(k + 1).drop_last() =~= s.take(k));
    } else {
        assert(s.take(k) =~= s);
    }
}

/// A value is produced by a stone exactly when it is among what the stone becomes.
proof fn lemma_count_in_pos_all(k: u64)
    ensures
        forall|x: u64| #[trigger] produces(k, x) > 0 <==> blink_one(k).contains(x),
{
    assert forall|x: u64| #[trigger] produces(k, x) > 0 <==> blink_one(k).contains(x) by {
        lemma_count_in_pos(blink_one(k), x);
    }
}

/// The sum of `m[k] * f(k)` over the keys `k` of `m`.
pub open spec fn weighted(m: Map<u64, usize>, f: spec_fn(u64) -> int) -> int
    decreases m.dom().len(),
{
    if m.dom().finite() && m.dom().len() > 0 {
        let k = m.dom().choose();
        proof {
            assert(m.remove(k).dom() =~= m.dom().remove(k));
        }
        m[k] * f(k) + weighted(m.remove(k), f)
    } else {
        0
    }
}

/// The sum does not depend on which key is taken first.
pub proof fn lemma_weighted_remove(m: Map<u64, usize>, f: spec_fn(u64) -> int, k0: u64)
    requires
        m.dom().finite(),
        m.contains_key(k0),
    ensures
        weighted(m, f) == m[k0] * f(k0) + weighted(m.remove(k0), f),
    decreases m.dom().len(),
{
    let k = m.dom().choose();
    assert(m.remove(k).dom() =~= m.dom().remove(k));
    assert(m.remove(k0).dom() =~= m.dom().remove(k0));
    if k != k0 {
        lemma_weighted_remove(m.remove(k), f, k0);
        lemma_weighted_remove(m.remove(k0), f, k);
        assert(m.remove(k).remove(k0) =~= m.remove(k0).remove(k));
    }
}

/// With non-negative terms every sum is non-negative.
pub proof fn lemma_weighted_nonneg(m: Map<u64, usize>, f: spec_fn(u64) -> int)
    requires
        forall|k: u64| #[trigger] f(k) >= 0,
    ensures
        weighted(m, f) >= 0,
    decreases m.dom().len(),
{
    if m.dom().finite() && m.dom().len() > 0 {
        let k = m.dom().choose();
        assert(m.remove(k).dom() =~= m.dom().remove(k));
        lemma_weighted_nonneg(m.remove(k), f);
        assert(m[k] * f(k) >= 0) by (nonlinear_arith)
            requires
                f(k) >= 0,
        ;
    }
}

/// How many stones of value `x` the counted stones become after a blink.
pub open spec fn produced(m: Map<u64, usize>, x: u64) -> int {
    weighted(m, produce_fn(x))
}

/// The number of stones of value `x` each value becomes.
pub open spec fn produce_fn(x: u64) -> spec_fn(u64) -> int {
    |k: u64| produces(k, x) as int
}

/// Every value stands for one stone.
pub open spec fn unit_fn() -> spec_fn(u64) -> int {
    |k: u64| 1int
}

/// The count of `x`, or 0 where `x` is not counted.
pub open spec fn count_of(m: Map<u64, usize>, x: u64) -> int {
    if m.contains_key(x) {
        m[x] as int
    } else {
        0
    }
}

/// The number of stones the counts stand for.
pub open spec fn stone_total(m: Map<u64, usize>) -> int {
    weighted(m, unit_fn())
}

/// The counts after one blink: each value that some counted value produces,
/// with the number of stones of that value produced.
pub open spec fn blink_map(m: Map<u64, usize>) -> Map<u64, usize> {
    Map::new(
        |x: u64| exists|k: u64| m.contains_key(k) && #[trigger] produces(k, x) > 0,
        |x: u64| produced(m, x) as usize,
    )
}

/// The counts can blink: every value blinks without overflow, and every
/// produced count fits in a `usize`.
pub open spec fn counts_ok(m: Map<u64, usize>) -> bool {
    &&& forall|k: u64| m.contains_key(k) ==> #[trigger] blink_ok(k)
    &&& forall|x: u64| #[trigger] produced(m, x) <= usize::MAX
}

/// The counts after `n` blinks.
pub open spec fn counts_after(m: Map<u64, usize>, n: nat) -> Map<u64, usize>
    decreases n,
{
    if n == 0 {
        m
    } else {
        blink_map(counts_after(m, (n - 1) as nat))
    }
}

impl ArrayCounts {
    /// The counts after one blink.
    pub fn blink(&self) -> (r: Self)
        requires
            counts_ok(self.0@),
        ensures
            r.0@ == blink_map(self.0@),
    {
        let ghost m = self.0@;
        let ghost mut rest = m;
        let mut out: HashMap<u64, usize> = HashMap::new();
        for pair in it: self.0.iter()
            invariant
                m == self.0@,
                counts_ok(m),
                rest.dom().finite(),
                rest <= m,
                forall|j: int|
                    it.index() <= j < it.seq().len() ==> rest.contains_key(*(#[trigger] it.seq()[j]).0),
                forall|k: u64| rest.contains_key(k) ==> exists|j: int|
                    it.index() <= j < it.seq().len() && *(#[trigger] it.seq()[j]).0 == k,
                it.seq().no_duplicates(),
                forall|j: int| 0 <= j < it.seq().len() ==> m.contains_key(*(#[trigger] it.seq()[j]).0)
                    && m[*it.seq()[j].0] == *it.seq()[j].1,
                forall|x: u64|
                    count_of(out@, x) + produced(rest, x) == #[trigger] produced(m, x),
                forall|x: u64| #[trigger]
                    out@.contains_key(x) ==> exists|k: u64| m.contains_key(k) && !rest.contains_key(k) && #[trigger] produces(
                        k,
                        x,
                    ) > 0,
                forall|k: u64, x: u64|
                    m.contains_key(k) && !rest.contains_key(k) && #[trigger] produces(k, x) > 0
                        ==> out@.contains_key(x),
        {
            let num = *pair.0;
            let count = *pair.1;
            let ghost before = out@;
            let ghost rest0 = rest;
            assert(rest.contains_key(num));
            assert(rest0[num] == count);
            proof {
                rest = rest.remove(num);
                assert forall|x: u64| #[trigger] produced(rest0, x) == count * produces(num, x) + produced(rest, x) by {
                    lemma_weighted_remove(rest0, produce_fn(x), num);
                }
                assert forall|x: u64| #[trigger] produced(rest, x) >= 0 by {
                    lemma_weighted_nonneg(rest, produce_fn(x));
                }
            }
            let more = blink_value(num);
            assert(more@.take(0) =~= Seq::<u64>::empty());
            assert forall|x: u64|
                #[trigger] count_of(out@, x) == count_of(before, x) + count * count_in(more@.take(0), x) by {
                assert(count_in(more@.take(0), x) == 0);
            }
            let mut t: usize = 0;
            while t < more.len()
                invariant
                    t <= more@.len(),
                    more@ == blink_one(num),
                    counts_ok(m),
                    forall|x: u64| #[trigger] produced(rest0, x) == count * produces(num, x) + produced(rest, x),
                    forall|x: u64| #[trigger] produced(rest, x) >= 0,
                    forall|x: u64|
                        count_of(before, x) + produced(rest0, x) == #[trigger] produced(m, x),
                    forall|x: u64|
                        #[trigger] count_of(out@, x) == count_of(before, x) + count * count_in(more@.take(t as int), x),
                    forall|x: u64| #[trigger] out@.contains_key(x) <==> (before.contains_key(x) || more@.take(
                        t as int,
                    ).contains(x)),
                decreases more@.len() - t,
            {
                let x = more[t];
                let c: usize = match out.get(&x) {
                    Some(c) => *c,
                    None => 0,
                };
                proof {
                    assert(more@.take(t + 1).drop_last() =~= more@.take(t as int));
                    assert(more@.take(t + 1).last() == x);
                    lemma_count_in_le(more@, x, t + 1);
                    let a = count_in(more@.take(t as int), x);
                    assert(count_in(more@.take(t + 1), x) == a + 1);
                    assert(count * (a + 1) <= count * produces(num, x)) by (nonlinear_arith)
                        requires
                            a + 1 <= produces(num, x),
                    ;
                    assert(count * (a + 1) == count * a + count) by (nonlinear_arith);
                    assert(count_of(out@, x) == c);
                    assert(c == count_of(before, x) + count * a);
                    assert(produced(rest0, x) == count * produces(num, x) + produced(rest, x));
                    assert(produced(rest, x) >= 0);
                    assert(count_of(before, x) + produced(rest0, x) == produced(m, x));
                    assert(produced(m, x) <= usize::MAX);
                }
                let ghost out0 = out@;
                out.insert(x, c + count);
                proof {
                    assert forall|y: u64|
                        #[trigger] count_of(out@, y) == count_of(before, y) + count * count_in(
                            more@.take(t + 1),
                            y,
                        ) by {
                        let a = count_in(more@.take(t as int), y);
                        if y == x {
                            assert(count_in(more@.take(t + 1), y) == a + 1);
                            assert(count * (a + 1) == count * a + count) by (nonlinear_arith);
                        } else {
                            assert(count_in(more@.take(t + 1), y) == a);
                            assert(count_of(out@, y) == count_of(out0, y));
                        }
                    }
                    assert forall|y: u64| #[trigger] out@.contains_key(y) <==> (before.contains_key(y)
                        || more@.take(t + 1).contains(y)) by {
                        if more@.take(t as int).contains(y) {
                            let j = choose|j: int| 0 <= j < t && #[trigger] more@.take(t as int)[j] == y;
                            assert(more@.take(t + 1)[j] == y);
                        }
                        if more@.take(t + 1).contains(y) && y != x {
                            let j = choose|j: int| 0 <= j < t + 1 && #[trigger] more@.take(t + 1)[j] == y;
                            assert(more@.take(t as int)[j] == y);
                        }
                        if y == x {
                            assert(more@.take(t + 1)[t as int] == x);
                        }
                    }
                }
                t = t + 1;
            }
            proof {
                assert(more@.take(more@.len() as int) =~= more@);
                lemma_count_in_pos_all(num);
                assert forall|x: u64| #[trigger] out@.contains_key(x) implies exists|k: u64|
                    m.contains_key(k) && !rest.contains_key(k) && #[trigger] produces(k, x) > 0 by {
                    if !before.contains_key(x) {
                        assert(more@.contains(x));
                        assert(produces(num, x) > 0);
                    } else {
                        let k = choose|k: u64|
                            m.contains_key(k) && !rest0.contains_key(k) && #[trigger] produces(k, x) > 0;
                        assert(!rest.contains_key(k));
                    }
                }
                assert forall|k: u64, x: u64|
                    m.contains_key(k) && !rest.contains_key(k) && #[trigger] produces(k, x) > 0
                        implies out@.contains_key(x) by {
                    if k == num {
                        assert(more@.contains(x));
                    } else {
                        assert(!rest0.contains_key(k));
                        assert(before.contains_key(x));
                    }
                }
            }
        }
        proof {
            assert(rest.dom() =~= Set::<u64>::empty());
            assert forall|x: u64| #[trigger] produced(rest, x) == 0 by {
                assert(rest.dom().len() == 0);
            }
            assert forall|x: u64| #[trigger] out@.contains_key(x) implies out@[x] == produced(m, x) as usize by {
                assert(produced(rest, x) == 0);
            }
            assert(out@ =~= blink_map(m));
        }
        ArrayCounts(out)
    }
}

impl ArrayCounts {
    /// The number of stones: the sum of the counts.
    pub fn count(&self) -> (r: usize)
        requires
            stone_total(self.0@) <= usize::MAX,
        ensures
            r == stone_total(self.0@),
    {
        let ghost m = self.0@;
        let ghost mut rest = m;
        let mut total: usize = 0;
        proof {
            assert(m.dom().finite());
        }
        for pair in it: self.0.iter()
            invariant
                m == self.0@,
                stone_total(m) <= usize::MAX,
                rest.dom().finite(),
                rest <= m,
                forall|j: int|
                    it.index() <= j < it.seq().len() ==> rest.contains_key(*(#[trigger] it.seq()[j]).0),
                forall|k: u64| rest.contains_key(k) ==> exists|j: int|
                    it.index() <= j < it.seq().len() && *(#[trigger] it.seq()[j]).0 == k,
                it.seq().no_duplicates(),
                forall|j: int| 0 <= j < it.seq().len() ==> m.contains_key(*(#[trigger] it.seq()[j]).0)
                    && m[*it.seq()[j].0] == *it.seq()[j].1,
                total + stone_total(rest) == stone_total(m),
        {
            let num = *pair.0;
            let count = *pair.1;
            let ghost rest0 = rest;
            assert(rest.contains_key(num));
            proof {
                rest = rest.remove(num);
                lemma_weighted_remove(rest0, unit_fn(), num);
                lemma_weighted_nonneg(rest, unit_fn());
                assert(stone_total(rest0) == count + stone_total(rest));
            }
            total = total + count;
        }
        proof {
            assert(rest.dom() =~= Set::<u64>::empty());
        }
        total
    }
}

/// Returns the part1 result, counted per value: the number of stones after 25 blinks.
pub fn part1b(data: &ArrayCounts) -> (r: usize)
    requires
        forall|k: nat| k < 25 ==> #[trigger] counts_ok(counts_after(data.0@, k)),
        stone_total(counts_after(data.0@, 25)) <= usize::MAX,
    ensures
        r == stone_total(counts_after(data.0@, 25)),
{
    blink_counts(data, 25)
}

/// Returns the part2 result: the number of stones after 75 blinks.
pub fn part2(data: &ArrayCounts) -> (r: usize)
    requires
        forall|k: nat| k < 75 ==> #[trigger] counts_ok(counts_after(data.0@, k)),
        stone_total(counts_after(data.0@, 75)) <= usize::MAX,
    ensures
        r == stone_total(counts_after(data.0@, 75)),
{
    blink_counts(data, 75)
}

/// The number of stones after `n` blinks, counted per value.
fn blink_counts(data: &ArrayCounts, n: usize) -> (r: usize)
    requires
        forall|k: nat| k < n ==> #[trigger] counts_ok(counts_after(data.0@, k)),
        stone_total(counts_after(data.0@, n as nat)) <= usize::MAX,
    ensures
        r == stone_total(counts_after(data.0@, n as nat)),
{
    let mut cur = ArrayCounts(data.0.clone());
    let ghost m0 = data.0@;
    let mut k: usize = 0;
    while k < n
        invariant
            k <= n,
            forall|j: nat| j < n ==> #[trigger] counts_ok(counts_after(m0, j)),
            cur.0@ == counts_after(m0, k as nat),
        decreases n - k,
    {
        assert(counts_ok(counts_after(m0, k as nat)));
        cur = cur.blink();
        k = k + 1;
    }
    cur.count()
}

/// The counts of a row of stones: each value in the row with the number of
/// stones that carry it.
pub open spec fn tally(s: Seq<u64>) -> Map<u64, usize> {
    Map::new(|x: u64| s.contains(x), |x: u64| s.to_multiset().count(x) as usize)
}

/// The sum of `f` over the stones of a row.
pub open spec fn sum_over(s: Seq<u64>, f: spec_fn(u64) -> int) -> int
    decreases s.len(),
{
    if s.len() == 0 {
        0
    } else {
        sum_over(s.drop_last(), f) + f(s.last())
    }
}

/// `count_in` is the multiplicity in the row's multiset.
proof fn lemma_count_in_multiset(s: Seq<u64>, x: u64)
    ensures
        count_in(s, x) == s.to_multiset().count(x),
        count_in(s, x) <= s.len(),
    decreases s.len(),
{
    broadcast use vstd::multiset::group_multiset_axioms;
    if s.len() == 0 {
        s.to_multiset_ensures();
    } else {
        let t = s.drop_last();
        lemma_count_in_multiset(t, x);
        assert(t.push(s.last()) =~= s);
        t.to_multiset_ensures();
    }
}

/// Counting over two rows side by side adds up.
proof fn lemma_count_in_concat(a: Seq<u64>, b: Seq<u64>, x: u64)
    ensures
        count_in(a + b, x) == count_in(a, x) + count_in(b, x),
    decreases b.len(),
{
    if b.len() > 0 {
        lemma_count_in_concat(a, b.drop_last(), x);
        assert((a + b).drop_last() =~= a + b.drop_last());
    }
}

/// The weighted sum over the counts of a row is the sum over its stones.
#[verifier::spinoff_prover]
proof fn lemma_tally_weighted(s: Seq<u64>, f: spec_fn(u64) -> int)
    requires
        s.len() <= usize::MAX,
    ensures
        tally(s).dom().finite(),
        weighted(tally(s), f) == sum_over(s, f),
    decreases s.len(),
{
    broadcast use vstd::multiset::group_multiset_axioms;
    let m = tally(s);
    if s.len() == 0 {
        assert(m.dom() =~= Set::<u64>::empty());
    } else {
        let t = s.drop_last();
        let v = s.last();
        let mt = tally(t);
        lemma_tally_weighted(t, f);
        assert(t.push(v) =~= s);
        t.to_multiset_ensures();
        assert forall|x: u64| #[trigger] s.contains(x) <==> t.contains(x) || x == v by {
            if s.contains(x) && x != v {
                let j = choose|j: int| 0 <= j < s.len() && #[trigger] s[j] == x;
                assert(t[j] == x);
            }
            if t.contains(x) {
                let j = choose|j: int| 0 <= j < t.len() && #[trigger] t[j] == x;
                assert(s[j] == x);
            }
            if x == v {
                assert(s[s.len() - 1] == x);
            }
        }
        assert(m.dom() =~= mt.dom().insert(v));
        lemma_count_in_multiset(s, v);
        lemma_count_in_multiset(t, v);
        lemma_weighted_remove(m, f, v);
        assert forall|x: u64| x != v && #[trigger] m.contains_key(x) implies m[x] == mt[x] by {
            lemma_count_in_multiset(s, x);
            lemma_count_in_multiset(t, x);
        }
        assert(weighted(m, f) == m[v] * f(v) + weighted(m.remove(v), f));
        assert(sum_over(s, f) == sum_over(t, f) + f(v));
        if mt.contains_key(v) {
            lemma_weighted_remove(mt, f, v);
            assert(m.remove(v) =~= mt.remove(v));
            let c = mt[v] as int;
            assert(m[v] == c + 1);
            assert((c + 1) * f(v) == c * f(v) + f(v)) by (nonlinear_arith);
            assert(weighted(mt, f) == c * f(v) + weighted(mt.remove(v), f));
            assert(weighted(m, f) == weighted(mt, f) + f(v));
        } else {
            assert(!t.contains(v));
            assert(m.remove(v) =~= mt);
            assert(t.to_multiset().count(v) == 0);
            assert(m[v] == 1);
            assert(m[v] * f(v) == f(v)) by (nonlinear_arith)
                requires
                    m[v] == 1,
            ;
            assert(weighted(m, f) == weighted(mt, f) + f(v));
        }
    }
}

/// Summing what each stone produces counts the values of the blinked row.
proof fn lemma_sum_produces(s: Seq<u64>, x: u64)
    ensures
        sum_over(s, produce_fn(x)) == count_in(blink_seq(s), x),
    decreases s.len(),
{
    if s.len() > 0 {
        lemma_sum_produces(s.drop_last(), x);
        lemma_count_in_concat(blink_seq(s.drop_last()), blink_one(s.last()), x);
    }
}

/// One stone per position.
proof fn lemma_sum_unit(s: Seq<u64>)
    ensures
        sum_over(s, unit_fn()) == s.len(),
    decreases s.len(),
{
    if s.len() > 0 {
        lemma_sum_unit(s.drop_last());
    }
}

/// A value is in the blinked row exactly when some stone of the row produces it.
proof fn lemma_blink_seq_contains(s: Seq<u64>, x: u64)
    ensures
        blink_seq(s).contains(x) <==> exists|k: u64| s.contains(k) && #[trigger] produces(k, x) > 0,
    decreases s.len(),
{
    if s.len() > 0 {
        let t = s.drop_last();
        let v = s.last();
        lemma_blink_seq_contains(t, x);
        assert(blink_seq(s) == blink_seq(t) + blink_one(v));
        lemma_count_in_concat(blink_seq(t), blink_one(v), x);
        lemma_count_in_pos(blink_seq(s), x);
        lemma_count_in_pos(blink_seq(t), x);
        assert(count_in(blink_seq(s), x) == count_in(blink_seq(t), x) + produces(v, x));
        if produces(v, x) > 0 {
            assert(s[s.len() - 1] == v);
            assert(s.contains(v));
        }
        if exists|k: u64| t.contains(k) && #[trigger] produces(k, x) > 0 {
            let k = choose|k: u64| t.contains(k) && #[trigger] produces(k, x) > 0;
            let j = choose|j: int| 0 <= j < t.len() && t[j] == k;
            assert(s[j] == k);
        }
        if exists|k: u64| s.contains(k) && #[trigger] produces(k, x) > 0 {
            let k = choose|k: u64| s.contains(k) && #[trigger] produces(k, x) > 0;
            let j = choose|j: int| 0 <= j < s.len() && s[j] == k;
            if j < t.len() {
                assert(t[j] == k);
            }
        }
    }
}

/// The counts of a row, blinked, are the counts of the blinked row.
proof fn lemma_blink_tally(s: Seq<u64>)
    requires
        s.len() <= usize::MAX,
        blink_seq(s).len() <= usize::MAX,
    ensures
        blink_map(tally(s)) == tally(blink_seq(s)),
{
    let b = blink_seq(s);
    assert forall|x: u64| #[trigger] blink_map(tally(s)).contains_key(x) <==> b.contains(x) by {
        lemma_blink_seq_contains(s, x);
    }
    assert forall|x: u64| b.contains(x) implies #[trigger] blink_map(tally(s))[x] == tally(b)[x] by {
        lemma_blink_seq_contains(s, x);
        lemma_tally_weighted(s, produce_fn(x));
        lemma_sum_produces(s, x);
        lemma_count_in_multiset(b, x);
        assert(blink_map(tally(s))[x] == produced(tally(s), x) as usize);
    }
    assert(blink_map(tally(s)) =~= tally(b));
}

/// One blink of the counts of a row: the counts can blink (so
/// `ArrayCounts::blink` may be called on them), every counted value has a
/// positive count, the blinked counts are those of the blinked row, and they
/// add up to its length.
pub proof fn lemma_counts_blink_like_row(s: Seq<u64>)
    requires
        forall|i: int| 0 <= i < s.len() ==> blink_ok(#[trigger] s[i]),
        s.len() <= usize::MAX,
        blink_seq(s).len() <= usize::MAX,
    ensures
        counts_ok(tally(s)),
        forall|x: u64| #[trigger] tally(s).contains_key(x) ==> tally(s)[x] > 0,
        blink_map(tally(s)) == tally(blink_seq(s)),
        stone_total(tally(blink_seq(s))) == blink_seq(s).len(),
{
    broadcast use vstd::multiset::group_multiset_axioms;
    assert forall|k: u64| tally(s).contains_key(k) implies #[trigger] blink_ok(k) by {
        let i = choose|i: int| 0 <= i < s.len() && s[i] == k;
    }
    assert forall|x: u64| #[trigger] produced(tally(s), x) <= usize::MAX by {
        lemma_tally_weighted(s, produce_fn(x));
        lemma_sum_produces(s, x);
        lemma_count_in_multiset(blink_seq(s), x);
    }
    assert forall|x: u64| #[trigger] tally(s).contains_key(x) implies tally(s)[x] > 0 by {
        lemma_count_in_multiset(s, x);
        lemma_count_in_pos(s, x);
    }
    lemma_blink_tally(s);
    lemma_tally_weighted(blink_seq(s), unit_fn());
    lemma_sum_unit(blink_seq(s));
}

/// Counting stones per value follows the row of stones: after any number of
/// blinks the counts are those of the blinked row, and they add up to its
/// length, so `part1b` and `part1` give the same number.
pub proof fn lemma_counts_follow_row(s: Seq<u64>, n: nat)
    requires
        forall|k: nat| k <= n ==> #[trigger] blinks(s, k).len() <= usize::MAX,
    ensures
        counts_after(tally(s), n) == tally(blinks(s, n)),
        stone_total(counts_after(tally(s), n)) == blinks(s, n).len(),
    decreases n,
{
    if n > 0 {
        let p = (n - 1) as nat;
        assert(blinks(s, p).len() <= usize::MAX);
        assert(blinks(s, n).len() <= usize::MAX);
        lemma_counts_follow_row(s, p);
        lemma_blink_tally(blinks(s, p));
    }
    assert(blinks(s, n).len() <= usize::MAX);
    lemma_tally_weighted(blinks(s, n), unit_fn());
    lemma_sum_unit(blinks(s, n));
}

} // verus!
