//! Calibration equations: can the operators `+`, `*` (and, in part 2, digit
//! concatenation), applied left to right, make the values produce the result?

use vstd::prelude::*;

use crate::text::{
    chars_of, decimal, decimal_digits, decimal_value, lemma_decimal, parse_u64, parse_unsigned,
    parses_unsigned_within, split, split_range, split_words, trim, trim_bounds, trimmed_lines,
    views, words,
};

verus! {

/// Allowed operations (Concat only for part 2).
#[derive(Clone, Copy, Debug, PartialEq, Eq, Structural)]
pub enum Op {
    Mul,
    Add,
    Concat,
}

/// A result and the numbers that might lead you there.
#[derive(Clone, Debug, PartialEq, Eq)]
pub struct Equation {
    pub result: u64,
    pub values: Vec<u64>,
}

/// The digits of `a` followed by the digits of `b`, as a number.
pub open spec fn concat_value(a: u64, b: u64) -> nat {
    decimal_value(decimal(a as nat) + decimal(b as nat))
}

/// `n` has `k` decimal digits: `10^(k-1) <= n < 10^k`, with 0 taking one digit.
pub open spec fn has_digits(n: nat, k: nat) -> bool {
    &&& k >= 1
    &&& n < vstd::arithmetic::power::pow(10, k)
    &&& (k > 1 ==> vstd::arithmetic::power::pow(10, (k - 1) as nat) <= n)
}

/// The decimal form of `n` has as many digits as `n` has.
proof fn lemma_decimal_digit_count(n: nat)
    ensures
        has_digits(n, decimal(n).len()),
    decreases n,
{
    reveal(vstd::arithmetic::power::pow);
    if n >= 10 {
        lemma_decimal_digit_count(n / 10);
        let k = decimal(n / 10).len();
        assert(decimal(n).len() == k + 1);
        let p = vstd::arithmetic::power::pow(10, k);
        assert(vstd::arithmetic::power::pow(10, k + 1) == 10 * p);
        assert(n < 10 * p) by (nonlinear_arith)
            requires
                n / 10 < p,
                n >= 0,
        ;
        if k > 1 {
            let q = vstd::arithmetic::power::pow(10, (k - 1) as nat);
            assert(p == 10 * q);
            assert(10 * q <= n) by (nonlinear_arith)
                requires
                    q <= n / 10,
                    n >= 0,
            ;
        } else {
            assert(p == 10) by {
                assert(vstd::arithmetic::power::pow(10, 0) == 1);
            }
            assert(10 <= n);
        }
    } else {
        assert(vstd::arithmetic::power::pow(10, 1) == 10) by {
            assert(vstd::arithmetic::power::pow(10, 0) == 1);
        }
    }
}

/// Concatenating `a` and `b` shifts `a` left by as many decimal places as `b`
/// has digits, then adds `b`: `a * 10^k + b` where `b` has `k` digits.
pub proof fn lemma_concat_value(a: u64, b: u64)
    ensures
        exists|k: nat| has_digits(b as nat, k) && concat_value(a, b) == a * vstd::arithmetic::power::pow(10, k) + b,
{
    lemma_decimal(a as nat);
    lemma_decimal(b as nat);
    crate::text::lemma_decimal_concat(decimal(a as nat), decimal(b as nat));
    lemma_decimal_digit_count(b as nat);
    let k = decimal(b as nat).len();
    assert(has_digits(b as nat, k));
}

/// The value of `tally op value`, as a mathematical integer.
pub open spec fn apply(op: Op, tally: u64, value: u64) -> int {
    match op {
        Op::Add => tally + value,
        Op::Mul => tally * value,
        Op::Concat => concat_value(tally, value) as int,
    }
}

/// Applying `ops` in turn, left to right, to `tally` and the values `rest`
/// reaches `result`, giving up as soon as the tally passes the result.
pub open spec fn valid_from(result: u64, tally: u64, rest: Seq<u64>, ops: Seq<Op>) -> bool
    decreases rest.len(),
{
    if rest.len() == 0 || ops.len() == 0 {
        tally == result
    } else {
        let next = apply(ops[0], tally, rest[0]);
        next <= result && valid_from(result, next as u64, rest.drop_first(), ops.drop_first())
    }
}

/// Some choice of operators among `ops`, one per value of `rest`, reaches `result`
/// from `tally` (giving up once the tally passes the result).
pub open spec fn reachable(result: u64, tally: u64, rest: Seq<u64>, ops: Seq<Op>) -> bool
    decreases rest.len(),
{
    if rest.len() == 0 {
        tally == result
    } else {
        exists|j: int|
            0 <= j < ops.len() && apply(#[trigger] ops[j], tally, rest[0]) <= result && reachable(
                result,
                apply(ops[j], tally, rest[0]) as u64,
                rest.drop_first(),
                ops,
            )
    }
}

/// No operator of `ops` overflows a `u64` on any path that has not yet passed
/// the result.
pub open spec fn no_overflow(result: u64, tally: u64, rest: Seq<u64>, ops: Seq<Op>) -> bool
    decreases rest.len(),
{
    if rest.len() == 0 {
        true
    } else {
        forall|j: int|
            0 <= j < ops.len() ==> apply(#[trigger] ops[j], tally, rest[0]) <= u64::MAX && (apply(
                ops[j],
                tally,
                rest[0],
            ) <= result ==> no_overflow(
                result,
                apply(ops[j], tally, rest[0]) as u64,
                rest.drop_first(),
                ops,
            ))
    }
}

/// The equation holds for some choice of operators among `ops`.
pub open spec fn maybe_valid(eq_result: u64, values: Seq<u64>, ops: Seq<Op>) -> bool {
    reachable(eq_result, values[0], values.drop_first(), ops)
}

/// The digits of `a` followed by the digits of `b`, read as a number.
fn concat(a: u64, b: u64) -> (r: u64)
    requires
        concat_value(a, b) <= u64::MAX,
    ensures
        r == concat_value(a, b),
{
    let mut digits = decimal_digits(a);
    let more = decimal_digits(b);
    crate::text::append_chars(&mut digits, &more);
    proof {
        lemma_decimal(a as nat);
        lemma_decimal(b as nat);
        assert forall|i: int| 0 <= i < digits@.len() implies crate::text::is_digit(#[trigger] digits@[i]) by {
            if i >= decimal(a as nat).len() {
                assert(digits@[i] == decimal(b as nat)[i - decimal(a as nat).len()]);
            }
        }
    }
    let n = digits.len();
    assert(digits@.subrange(0, n as int) =~= digits@);
    crate::text::digits_to_u64(digits.as_slice(), 0, n)
}

/// `tally op value`.
fn apply_op(op: Op, tally: u64, value: u64) -> (r: u64)
    requires
        apply(op, tally, value) <= u64::MAX,
    ensures
        r == apply(op, tally, value),
{
    match op {
        Op::Add => tally + value,
        Op::Mul => tally * value,
        Op::Concat => concat(tally, value),
    }
}

impl Equation {
    /// Determine if a specific op set makes the equation valid.
    pub fn is_valid(&self, ops: &[&Op]) -> (r: bool)
        requires
            self.values@.len() >= 1,
            no_overflow(
                self.result,
                self.values@[0],
                self.values@.drop_first(),
                ops@.map_values(|o: &Op| *o),
            ),
        ensures
            r == valid_from(
                self.result,
                self.values@[0],
                self.values@.drop_first(),
                ops@.map_values(|o: &Op| *o),
            ),
    {
        let ghost all = ops@.map_values(|o: &Op| *o);
        let mut tally = self.values[0];
        let n = if ops.len() < self.values.len() - 1 {
            ops.len()
        } else {
            self.values.len() - 1
        };
        let mut i: usize = 0;
        assert(self.values@.drop_first() =~= self.values@.skip(1));
        assert(all =~= all.skip(0));
        while i < n
            invariant
                n <= ops@.len(),
                n <= self.values@.len() - 1,
                i <= n,
                all == ops@.map_values(|o: &Op| *o),
                valid_from(self.result, self.values@[0], self.values@.drop_first(), all)
                    == valid_from(self.result, tally, self.values@.skip(i + 1), all.skip(i as int)),
                no_overflow(self.result, tally, self.values@.skip(i + 1), all),
            decreases n - i,
        {
            let op = *ops[i];
            let value = self.values[i + 1];
            assert(all.skip(i as int)[0] == op);
            assert(self.values@.skip(i + 1)[0] == value);
            assert(all[i as int] == op);
            tally = apply_op(op, tally, value);
            assert(self.values@.skip(i + 1).drop_first() =~= self.values@.skip(i + 2));
            assert(all.skip(i as int).drop_first() =~= all.skip(i + 1));
            if tally > self.result {
                return false;
            }
            i = i + 1;
        }
        assert(self.values@.drop_first() =~= self.values@.skip(1));
        assert(all =~= all.skip(0));
        assert(self.values@.skip(i + 1).len() == 0 || all.skip(i as int).len() == 0);
        tally == self.result
    }

    /// Whether some choice of operators among `ops` from the values `rest`
    /// (starting at index `k`) reaches the result from `tally`.
    fn search(&self, ops: &[Op], tally: u64, k: usize) -> (r: bool)
        requires
            1 <= k <= self.values@.len(),
            no_overflow(self.result, tally, self.values@.skip(k as int), ops@),
        ensures
            r == reachable(self.result, tally, self.values@.skip(k as int), ops@),
        decreases self.values@.len() - k,
    {
        let ghost rest = self.values@.skip(k as int);
        if k == self.values.len() {
            return tally == self.result;
        }
        assert(rest[0] == self.values@[k as int]);
        assert(rest.drop_first() =~= self.values@.skip(k + 1));
        let value = self.values[k];
        let nv = self.values.len();
        for j in 0..ops.len()
            invariant
                nv == self.values@.len(),
                1 <= k < self.values@.len(),
                rest == self.values@.skip(k as int),
                rest[0] == value,
                rest.drop_first() == self.values@.skip(k + 1),
                no_overflow(self.result, tally, rest, ops@),
                forall|m: int|
                    0 <= m < j ==> !(apply(#[trigger] ops@[m], tally, value) <= self.result
                        && reachable(
                        self.result,
                        apply(ops@[m], tally, value) as u64,
                        rest.drop_first(),
                        ops@,
                    )),
        {
            let next = apply_op(ops[j], tally, value);
            if next <= self.result {
                if self.search(ops, next, k + 1) {
                    return true;
                }
            }
        }
        false
    }

    /// Determine whether any op sets make the equation valid.
    pub fn is_maybe_valid(&self, ops: &[Op]) -> (r: bool)
        requires
            self.values@.len() >= 1,
            no_overflow(self.result, self.values@[0], self.values@.drop_first(), ops@),
        ensures
            r == maybe_valid(self.result, self.values@, ops@),
    {
        assert(self.values@.drop_first() =~= self.values@.skip(1));
        self.search(ops, self.values[0], 1)
    }
}

// ---------------------------------------------------------------------------
// Reading equations

/// The two sides of an equation's line, split at the colons.
pub open spec fn sides(line: Seq<char>) -> Seq<Seq<char>> {
    split(trim(line), ':')
}

/// The line reads as an equation: a result before the first colon and values
/// after it, all of them `u64`.
pub open spec fn equation_text_ok(line: Seq<char>) -> bool {
    let p = sides(line);
    &&& p.len() >= 2
    &&& parses_unsigned_within(p[0], u64::MAX as int)
    &&& forall|i: int| 0 <= i < words(p[1]).len() ==> parses_unsigned_within(#[trigger] words(p[1])[i], u64::MAX as int)
}

/// The result an equation line states.
pub open spec fn result_of(line: Seq<char>) -> u64 {
    parse_unsigned(sides(line)[0])->0 as u64
}

/// The values an equation line lists.
pub open spec fn values_of(line: Seq<char>) -> Seq<u64> {
    words(sides(line)[1]).map_values(|w: Seq<char>| parse_unsigned(w)->0 as u64)
}

/// Reads an equation from an input line.
fn equation_from_chars(line: &Vec<char>) -> (r: Equation)
    requires
        equation_text_ok(line@),
    ensures
        r.result == result_of(line@),
        r.values@ == values_of(line@),
{
    let (start, end) = trim_bounds(line.as_slice());
    let parts = split_range(line.as_slice(), start, end, ':');
    let ghost p = sides(line@);
    assert(views(parts@) == p);
    assert(parts@[0]@ == p[0]);
    assert(parts@[1]@ == p[1]);
    let result = match parse_u64(parts[0].as_slice()) {
        Some(v) => v,
        None => 0,
    };
    let ws = split_words(parts[1].as_slice());
    let mut values: Vec<u64> = Vec::new();
    for i in 0..ws.len()
        invariant
            views(ws@) == words(p[1]),
            p == sides(line@),
            equation_text_ok(line@),
            values@ == values_of(line@).take(i as int),
    {
        assert(ws@[i as int]@ == words(p[1])[i as int]);
        let v = match parse_u64(ws[i].as_slice()) {
            Some(v) => v,
            None => 0,
        };
        values.push(v);
        assert(values@ =~= values_of(line@).take(i + 1));
    }
    assert(values_of(line@).take(ws@.len() as int) =~= values_of(line@));
    Equation { result, values }
}

impl Equation {
    /// Parse an equation from an input line.
    pub fn from_text(text: &str) -> (r: Self)
        requires
            equation_text_ok(text@),
        ensures
            r.result == result_of(text@),
            r.values@ == values_of(text@),
    {
        let chars = chars_of(text);
        equation_from_chars(&chars)
    }
}

/// The lines of the input.
pub open spec fn equation_lines(input: Seq<char>) -> Seq<Seq<char>> {
    split(trim(input), '\n')
}

/// Parse all input lines into Equations.
pub fn parse(input: &str) -> (r: Vec<Equation>)
    requires
        forall|i: int| 0 <= i < equation_lines(input@).len() ==> equation_text_ok(#[trigger] equation_lines(input@)[i]),
    ensures
        r@.len() == equation_lines(input@).len(),
        forall|i: int|
            0 <= i < r@.len() ==> (#[trigger] r@[i]).result == result_of(equation_lines(input@)[i])
                && r@[i].values@ == values_of(equation_lines(input@)[i]),
{
    let lines = trimmed_lines(input);
    let ghost ls = equation_lines(input@);
    let mut out: Vec<Equation> = Vec::new();
    for i in 0..lines.len()
        invariant
            views(lines@) == ls,
            ls == equation_lines(input@),
            forall|j: int| 0 <= j < ls.len() ==> equation_text_ok(#[trigger] ls[j]),
            out@.len() == i,
            forall|j: int|
                0 <= j < i ==> (#[trigger] out@[j]).result == result_of(ls[j]) && out@[j].values@
                    == values_of(ls[j]),
    {
        assert(lines@[i as int]@ == ls[i as int]);
        out.push(equation_from_chars(&lines[i]));
    }
    out
}

/// The sum of the results of the first `k` equations that some operators make valid.
pub open spec fn valid_sum(eqs: Seq<Equation>, ops: Seq<Op>, k: int) -> int
    decreases k,
{
    if k <= 0 {
        0
    } else {
        valid_sum(eqs, ops, k - 1) + if maybe_valid(eqs[k - 1].result, eqs[k - 1].values@, ops) {
            eqs[k - 1].result as int
        } else {
            0
        }
    }
}

/// Every equation can be searched, and every partial sum fits in a `u64`.
pub open spec fn sum_valid_ok(eqs: Seq<Equation>, ops: Seq<Op>) -> bool {
    &&& forall|i: int|
        0 <= i < eqs.len() ==> (#[trigger] eqs[i]).values@.len() >= 1 && no_overflow(
            eqs[i].result,
            eqs[i].values@[0],
            eqs[i].values@.drop_first(),
            ops,
        )
    &&& forall|k: int| 0 <= k <= eqs.len() ==> #[trigger] valid_sum(eqs, ops, k) <= u64::MAX
}

/// Sum the results of maybe-valid equations.
pub fn sum_valid(eqs: &[Equation], ops: &[Op]) -> (r: u64)
    requires
        sum_valid_ok(eqs@, ops@),
    ensures
        r == valid_sum(eqs@, ops@, eqs@.len() as int),
{
    let mut out: u64 = 0;
    for i in 0..eqs.len()
        invariant
            sum_valid_ok(eqs@, ops@),
            out == valid_sum(eqs@, ops@, i as int),
    {
        assert(valid_sum(eqs@, ops@, i + 1) <= u64::MAX);
        let eq = &eqs[i];
        assert(eq.values@.len() >= 1);
        if eq.is_maybe_valid(ops) {
            out = out + eq.result;
        }
    }
    out
}

/// The operators of part 1.
pub open spec fn ops1() -> Seq<Op> {
    seq![Op::Add, Op::Mul]
}

/// The operators of part 2.
pub open spec fn ops2() -> Seq<Op> {
    seq![Op::Add, Op::Mul, Op::Concat]
}

/// Get sum_valid() for only + and *.
pub fn part1(eqs: &[Equation]) -> (r: u64)
    requires
        sum_valid_ok(eqs@, ops1()),
    ensures
        r == valid_sum(eqs@, ops1(), eqs@.len() as int),
{
    let ops = vec![Op::Add, Op::Mul];
    assert(ops@ =~= ops1());
    sum_valid(eqs, &ops)
}

/// Get sum_valid() for + or * or ||.
pub fn part2(eqs: &[Equation]) -> (r: u64)
    requires
        sum_valid_ok(eqs@, ops2()),
    ensures
        r == valid_sum(eqs@, ops2(), eqs@.len() as int),
{
    let ops = vec![Op::Add, Op::Mul, Op::Concat];
    assert(ops@ =~= ops2());
    sum_valid(eqs, &ops)
}

/// Offering more operators never loses a way to reach the result.
proof fn lemma_reachable_more_ops(result: u64, tally: u64, rest: Seq<u64>, a: Seq<Op>, b: Seq<Op>)
    requires
        reachable(result, tally, rest, a),
        forall|j: int| 0 <= j < a.len() ==> b.contains(#[trigger] a[j]),
    ensures
        reachable(result, tally, rest, b),
    decreases rest.len(),
{
    if rest.len() > 0 {
        let j = choose|j: int|
            0 <= j < a.len() && apply(#[trigger] a[j], tally, rest[0]) <= result && reachable(
                result,
                apply(a[j], tally, rest[0]) as u64,
                rest.drop_first(),
                a,
            );
        lemma_reachable_more_ops(result, apply(a[j], tally, rest[0]) as u64, rest.drop_first(), a, b);
        assert(b.contains(a[j]));
        let j2 = choose|j2: int| 0 <= j2 < b.len() && b[j2] == a[j];
        assert(apply(b[j2], tally, rest[0]) <= result);
    }
}

/// Concatenation only adds: every equation part 1 counts, part 2 counts too,
/// so the part 2 sum is at least the part 1 sum.
pub proof fn lemma_concat_only_adds(eqs: Seq<Equation>, k: int)
    ensures
        valid_sum(eqs, ops1(), k) <= valid_sum(eqs, ops2(), k),
    decreases k,
{
    if k > 0 {
        lemma_concat_only_adds(eqs, k - 1);
        let e = eqs[k - 1];
        if maybe_valid(e.result, e.values@, ops1()) {
            assert forall|j: int| 0 <= j < ops1().len() implies ops2().contains(#[trigger] ops1()[j]) by {
                assert(ops2()[j] == ops1()[j]);
            }
            lemma_reachable_more_ops(e.result, e.values@[0], e.values@.drop_first(), ops1(), ops2());
        }
    }
}

/// Some choice of one operator of `ops` per value makes the equation hold, as
/// `is_valid` checks a single choice.
pub open spec fn some_choice_valid(result: u64, tally: u64, rest: Seq<u64>, ops: Seq<Op>) -> bool {
    exists|choice: Seq<Op>|
        choice.len() == rest.len() && (forall|i: int| 0 <= i < choice.len() ==> ops.contains(#[trigger] choice[i]))
            && #[trigger] valid_from(result, tally, rest, choice)
}

/// The search behind `is_maybe_valid` finds a way exactly when one of the
/// operator choices that `is_valid` checks makes the equation hold.
pub proof fn lemma_search_tries_every_choice(result: u64, tally: u64, rest: Seq<u64>, ops: Seq<Op>)
    ensures
        reachable(result, tally, rest, ops) <==> some_choice_valid(result, tally, rest, ops),
    decreases rest.len(),
{
    if rest.len() == 0 {
        let c = Seq::<Op>::empty();
        if tally == result {
            assert(valid_from(result, tally, rest, c));
        }
    } else {
        if reachable(result, tally, rest, ops) {
            let j = choose|j: int|
                0 <= j < ops.len() && apply(#[trigger] ops[j], tally, rest[0]) <= result && reachable(
                    result,
                    apply(ops[j], tally, rest[0]) as u64,
                    rest.drop_first(),
                    ops,
                );
            let next = apply(ops[j], tally, rest[0]) as u64;
            lemma_search_tries_every_choice(result, next, rest.drop_first(), ops);
            let c1 = choose|c: Seq<Op>|
                c.len() == rest.drop_first().len() && (forall|i: int| 0 <= i < c.len() ==> ops.contains(#[trigger] c[i]))
                    && #[trigger] valid_from(result, next, rest.drop_first(), c);
            let c = seq![ops[j]] + c1;
            assert(c.drop_first() =~= c1);
            assert forall|i: int| 0 <= i < c.len() implies ops.contains(#[trigger] c[i]) by {
                if i == 0 {
                    assert(ops[j] == c[0]);
                } else {
                    assert(c[i] == c1[i - 1]);
                }
            }
            assert(valid_from(result, tally, rest, c));
        }
        if some_choice_valid(result, tally, rest, ops) {
            let c = choose|c: Seq<Op>|
                c.len() == rest.len() && (forall|i: int| 0 <= i < c.len() ==> ops.contains(#[trigger] c[i]))
                    && #[trigger] valid_from(result, tally, rest, c);
            let next = apply(c[0], tally, rest[0]);
            assert(ops.contains(c[0]));
            let j = choose|j: int| 0 <= j < ops.len() && ops[j] == c[0];
            let c1 = c.drop_first();
            assert forall|i: int| 0 <= i < c1.len() implies ops.contains(#[trigger] c1[i]) by {
                assert(c1[i] == c[i + 1]);
            }
            assert(valid_from(result, next as u64, rest.drop_first(), c1));
            lemma_search_tries_every_choice(result, next as u64, rest.drop_first(), ops);
            assert(apply(ops[j], tally, rest[0]) <= result);
        }
    }
}

} // verus!
