//! Corrupted memory: sum the products of the `mul(a,b)` instructions (with one
//! to three digits per number), and in part 2 only while enabled by `do()` and
//! not disabled by `don't()`.

use vstd::prelude::*;

use crate::text::{
    chars_of, decimal_value, digits_to_u64, is_digit, lemma_run_len, lit_at, lit_at_exec, run_len,
    run_len_exec,
};

verus! {

/// The numbers and the end of a `mul(a,b)` instruction that starts at `i`, if one does.
pub open spec fn mul_at(s: Seq<char>, i: int) -> Option<(nat, nat, int)> {
    let a0 = i + "mul("@.len();
    let la = run_len(s, a0, false);
    let b0 = a0 + la + ","@.len();
    let lb = run_len(s, b0, false);
    if lit_at(s, i, "mul("@) && 1 <= la <= 3 && lit_at(s, a0 + la, ","@) && 1 <= lb <= 3 && lit_at(
        s,
        b0 + lb,
        ")"@,
    ) {
        Some(
            (
                decimal_value(s.subrange(a0, a0 + la)),
                decimal_value(s.subrange(b0, b0 + lb)),
                b0 + lb + ")"@.len(),
            ),
        )
    } else {
        None
    }
}

/// The sum of the products of the `mul` instructions found scanning from `i`,
/// each match resuming the scan after its end.
pub open spec fn mul_sum(s: Seq<char>, i: int) -> int
    decreases s.len() - i,
{
    if i < 0 || i >= s.len() {
        0
    } else {
        match mul_at(s, i) {
            Some(m) => if i < m.2 <= s.len() {
                m.0 * m.1 + mul_sum(s, m.2)
            } else {
                0
            },
            None => mul_sum(s, i + 1),
        }
    }
}

/// The sum of the products of the enabled `mul` instructions found scanning from
/// `i`, `doing` telling whether they are enabled there.
pub open spec fn toggled_sum(s: Seq<char>, i: int, doing: bool) -> int
    decreases s.len() - i,
{
    if i < 0 || i >= s.len() {
        0
    } else {
        match mul_at(s, i) {
            Some(m) => if i < m.2 <= s.len() {
                (if doing {
                    m.0 * m.1
                } else {
                    0
                }) + toggled_sum(s, m.2, doing)
            } else {
                0
            },
            None => if lit_at(s, i, "do()"@) && "do()"@.len() > 0 {
                toggled_sum(s, i + "do()"@.len(), true)
            } else if lit_at(s, i, "don't()"@) && "don't()"@.len() > 0 {
                toggled_sum(s, i + "don't()"@.len(), false)
            } else {
                toggled_sum(s, i + 1, doing)
            },
        }
    }
}

/// The `mul` instruction at `i`: its numbers and where it ends.
fn mul_at_exec(s: &[char], i: usize) -> (r: Option<(i32, i32, usize)>)
    requires
        i <= s@.len(),
    ensures
        match r {
            Some(m) => mul_at(s@, i as int) == Some((m.0 as nat, m.1 as nat, m.2 as int)) && i < m.2
                <= s@.len() && m.0 <= 999 && m.1 <= 999 && 0 <= m.0 && 0 <= m.1,
            None => mul_at(s@, i as int) is None,
        },
{
    let n = s.len();
    proof {
        reveal_strlit("mul(");
        reveal_strlit(",");
        reveal_strlit(")");
    }
    if !lit_at_exec(s, i, "mul(") {
        return None;
    }
    let a0 = i + "mul(".unicode_len();
    let la = run_len_exec(s, a0, false);
    if la < 1 || la > 3 {
        return None;
    }
    let comma = a0 + la;
    if !lit_at_exec(s, comma, ",") {
        return None;
    }
    let b0 = comma + 1;
    let lb = run_len_exec(s, b0, false);
    if lb < 1 || lb > 3 {
        return None;
    }
    let close = b0 + lb;
    if !lit_at_exec(s, close, ")") {
        return None;
    }
    proof {
        lemma_run_len(s@, a0 as int, false);
        lemma_run_len(s@, b0 as int, false);
        lemma_small_digits(s@.subrange(a0 as int, a0 + la));
        lemma_small_digits(s@.subrange(b0 as int, b0 + lb));
    }
    let a = digits_to_u64(s, a0, a0 + la);
    let b = digits_to_u64(s, b0, b0 + lb);
    Some((a as i32, b as i32, close + 1))
}

/// At most three digits make a number below 1000.
proof fn lemma_small_digits(s: Seq<char>)
    requires
        s.len() <= 3,
        forall|i: int| 0 <= i < s.len() ==> is_digit(#[trigger] s[i]),
    ensures
        decimal_value(s) <= 999,
        s.len() <= 2 ==> decimal_value(s) <= 99,
        s.len() <= 1 ==> decimal_value(s) <= 9,
    decreases s.len(),
{
    if s.len() > 0 {
        lemma_small_digits(s.drop_last());
    }
}

/// The sum of the products fits in an `i32`.
pub open spec fn part1_fits(s: Seq<char>) -> bool {
    mul_sum(s, 0) <= i32::MAX
}

proof fn lemma_mul_sum_nonneg(s: Seq<char>, i: int)
    ensures
        mul_sum(s, i) >= 0,
    decreases s.len() - i,
{
    if 0 <= i < s.len() {
        match mul_at(s, i) {
            Some(m) => if i < m.2 <= s.len() {
                lemma_mul_sum_nonneg(s, m.2);
                assert(m.0 * m.1 >= 0) by (nonlinear_arith);
            },
            None => lemma_mul_sum_nonneg(s, i + 1),
        }
    }
}

proof fn lemma_toggled_sum_nonneg(s: Seq<char>, i: int, doing: bool)
    ensures
        toggled_sum(s, i, doing) >= 0,
    decreases s.len() - i,
{
    if 0 <= i < s.len() {
        match mul_at(s, i) {
            Some(m) => if i < m.2 <= s.len() {
                lemma_toggled_sum_nonneg(s, m.2, doing);
                assert(m.0 * m.1 >= 0) by (nonlinear_arith);
            },
            None => if lit_at(s, i, "do()"@) && "do()"@.len() > 0 {
                lemma_toggled_sum_nonneg(s, i + "do()"@.len(), true);
            } else if lit_at(s, i, "don't()"@) && "don't()"@.len() > 0 {
                lemma_toggled_sum_nonneg(s, i + "don't()"@.len(), false);
            } else {
                lemma_toggled_sum_nonneg(s, i + 1, doing);
            },
        }
    }
}

/// A `mul` instruction starts with `m`.
proof fn lemma_mul_starts_with_m(s: Seq<char>, i: int)
    requires
        mul_at(s, i) is Some,
    ensures
        s[i] == 'm',
{
    reveal_strlit("mul(");
    assert(s.subrange(i, i + 4)[0] == 'm');
}

/// Scanning past characters that are not `m` finds no `mul` instruction.
proof fn lemma_skip_no_m(s: Seq<char>, i: int, n: int)
    requires
        0 <= i,
        0 <= n,
        i + n <= s.len(),
        forall|j: int| i <= j < i + n ==> s[j] != 'm',
    ensures
        mul_sum(s, i) == mul_sum(s, i + n),
    decreases n,
{
    if n > 0 {
        if mul_at(s, i) is Some {
            lemma_mul_starts_with_m(s, i);
        }
        lemma_skip_no_m(s, i + 1, n - 1);
    }
}

/// From any point of the scan, the enabled products add up to no more than all
/// of them.
proof fn lemma_toggled_le(s: Seq<char>, i: int, doing: bool)
    ensures
        toggled_sum(s, i, doing) <= mul_sum(s, i),
    decreases s.len() - i,
{
    if 0 <= i < s.len() {
        match mul_at(s, i) {
            Some(m) => if i < m.2 <= s.len() {
                lemma_toggled_le(s, m.2, doing);
                assert(m.0 * m.1 >= 0) by (nonlinear_arith);
            },
            None => {
                reveal_strlit("do()");
                reveal_strlit("don't()");
                if lit_at(s, i, "do()"@) && "do()"@.len() > 0 {
                    assert forall|j: int| i <= j < i + 4 implies s[j] != 'm' by {
                        assert(s.subrange(i, i + 4)[j - i] == s[j]);
                    }
                    lemma_skip_no_m(s, i, 4);
                    lemma_toggled_le(s, i + 4, true);
                } else if lit_at(s, i, "don't()"@) && "don't()"@.len() > 0 {
                    assert forall|j: int| i <= j < i + 7 implies s[j] != 'm' by {
                        assert(s.subrange(i, i + 7)[j - i] == s[j]);
                    }
                    lemma_skip_no_m(s, i, 7);
                    lemma_toggled_le(s, i + 7, false);
                } else {
                    lemma_toggled_le(s, i + 1, doing);
                }
            },
        }
    }
}

/// No `do()` stands in `s` at `j` or later.
pub open spec fn no_do_from(s: Seq<char>, j: int) -> bool {
    forall|k: int| j <= k ==> !lit_at(s, k, "do()"@)
}

/// No `don't()` stands in `s` at `j` or later.
pub open spec fn no_dont_from(s: Seq<char>, j: int) -> bool {
    forall|k: int| j <= k ==> !lit_at(s, k, "don't()"@)
}

/// `do()` and `don't()` do not overlap a `mul`, nor each other.
proof fn lemma_toggles_start(s: Seq<char>, i: int)
    ensures
        lit_at(s, i, "do()"@) ==> mul_at(s, i) is None && s[i] == 'd' && s[i + 2] == '(',
        lit_at(s, i, "don't()"@) ==> mul_at(s, i) is None && s[i] == 'd' && s[i + 2] == 'n',
{
    reveal_strlit("do()");
    reveal_strlit("don't()");
    if lit_at(s, i, "do()"@) {
        assert(s.subrange(i, i + 4)[0] == s[i]);
        assert(s.subrange(i, i + 4)[2] == s[i + 2]);
        if mul_at(s, i) is Some {
            lemma_mul_starts_with_m(s, i);
        }
    }
    if lit_at(s, i, "don't()"@) {
        assert(s.subrange(i, i + 7)[0] == s[i]);
        assert(s.subrange(i, i + 7)[2] == s[i + 2]);
        if mul_at(s, i) is Some {
            lemma_mul_starts_with_m(s, i);
        }
    }
}

/// While products are switched off and no `do()` follows, nothing is added.
pub proof fn lemma_disabled_adds_nothing(s: Seq<char>, i: int)
    requires
        no_do_from(s, i),
    ensures
        toggled_sum(s, i, false) == 0,
    decreases s.len() - i,
{
    if 0 <= i < s.len() {
        lemma_toggles_start(s, i);
        assert(!lit_at(s, i, "do()"@));
        reveal_strlit("don't()");
        match mul_at(s, i) {
            Some(m) => if i < m.2 <= s.len() {
                lemma_disabled_adds_nothing(s, m.2);
            },
            None => if lit_at(s, i, "don't()"@) {
                lemma_disabled_adds_nothing(s, i + 7);
            } else {
                lemma_disabled_adds_nothing(s, i + 1);
            },
        }
    }
}

/// A `don't()` switches products off whatever the state before it, and a
/// `do()` switches them on whatever the state before it: the sum from either
/// does not depend on the state it is reached in. After a `don't()` with no
/// later `do()`, nothing more is added.
pub proof fn lemma_toggle_sets_state(s: Seq<char>, i: int)
    ensures
        lit_at(s, i, "don't()"@) ==> toggled_sum(s, i, true) == toggled_sum(s, i, false),
        lit_at(s, i, "do()"@) ==> toggled_sum(s, i, true) == toggled_sum(s, i, false),
        lit_at(s, i, "don't()"@) && no_do_from(s, i) ==> toggled_sum(s, i, true) == 0,
{
    lemma_toggles_start(s, i);
    reveal_strlit("do()");
    reveal_strlit("don't()");
    if lit_at(s, i, "don't()"@) {
        assert(!lit_at(s, i, "do()"@));
        if no_do_from(s, i) {
            lemma_disabled_adds_nothing(s, i + 7);
        }
    }
}

/// With no `don't()` in the text, `do()` changes nothing: every product is
/// added, so part 2 equals part 1.
pub proof fn lemma_no_dont_adds_all(s: Seq<char>, i: int)
    requires
        no_dont_from(s, i),
    ensures
        toggled_sum(s, i, true) == mul_sum(s, i),
    decreases s.len() - i,
{
    if 0 <= i < s.len() {
        lemma_toggles_start(s, i);
        reveal_strlit("do()");
        match mul_at(s, i) {
            Some(m) => if i < m.2 <= s.len() {
                lemma_no_dont_adds_all(s, m.2);
            },
            None => if lit_at(s, i, "do()"@) {
                assert forall|j: int| i <= j < i + 4 implies s[j] != 'm' by {
                    assert(s.subrange(i, i + 4)[j - i] == s[j]);
                }
                lemma_skip_no_m(s, i, 4);
                lemma_no_dont_adds_all(s, i + 4);
            } else {
                assert(!lit_at(s, i, "don't()"@));
                lemma_no_dont_adds_all(s, i + 1);
            },
        }
    }
}

/// Part 2 never exceeds part 1: switching instructions off only drops products.
pub proof fn lemma_enabled_at_most_all(s: Seq<char>)
    ensures
        toggled_sum(s, 0, true) <= mul_sum(s, 0),
{
    lemma_toggled_le(s, 0, true);
}

/// Get the sum of all mul() results.
pub fn part1(text: &str) -> (r: i32)
    requires
        part1_fits(text@),
    ensures
        r == mul_sum(text@, 0),
{
    let s = chars_of(text);
    let n = s.len();
    let mut out: i32 = 0;
    let mut i: usize = 0;
    while i < n
        invariant
            n == s@.len(),
            s@ == text@,
            i <= n,
            part1_fits(text@),
            out + mul_sum(s@, i as int) == mul_sum(s@, 0),
            out >= 0,
        decreases n - i,
    {
        match mul_at_exec(s.as_slice(), i) {
            Some((a, b, end)) => {
                proof {
                    lemma_mul_sum_nonneg(s@, end as int);
                    lemma_mul_sum_nonneg(s@, 0);
                }
                assert(a * b <= 999 * 999) by (nonlinear_arith)
                    requires
                        0 <= a <= 999,
                        0 <= b <= 999,
                ;
                assert(a * b >= 0) by (nonlinear_arith)
                    requires
                        0 <= a,
                        0 <= b,
                ;
                out = out + a * b;
                i = end;
            },
            None => {
                i = i + 1;
            },
        }
    }
    out
}

/// The sum of the enabled products fits in an `i32`.
pub open spec fn part2_fits(s: Seq<char>) -> bool {
    toggled_sum(s, 0, true) <= i32::MAX
}

/// Get the sum of all mul() results following do() (but not don't()).
pub fn part2(text: &str) -> (r: i32)
    requires
        part2_fits(text@),
    ensures
        r == toggled_sum(text@, 0, true),
{
    let s = chars_of(text);
    let n = s.len();
    let mut is_doing = true;
    let mut out: i32 = 0;
    let mut i: usize = 0;
    while i < n
        invariant
            n == s@.len(),
            s@ == text@,
            i <= n,
            part2_fits(text@),
            out + toggled_sum(s@, i as int, is_doing) == toggled_sum(s@, 0, true),
            out >= 0,
        decreases n - i,
    {
        match mul_at_exec(s.as_slice(), i) {
            Some((a, b, end)) => {
                proof {
                    lemma_toggled_sum_nonneg(s@, end as int, is_doing);
                    lemma_toggled_sum_nonneg(s@, 0, true);
                }
                assert(a * b <= 999 * 999) by (nonlinear_arith)
                    requires
                        0 <= a <= 999,
                        0 <= b <= 999,
                ;
                assert(a * b >= 0) by (nonlinear_arith)
                    requires
                        0 <= a,
                        0 <= b,
                ;
                if is_doing {
                    out = out + a * b;
                }
                i = end;
            },
            None => {
                proof {
                    reveal_strlit("do()");
                    reveal_strlit("don't()");
                }
                if lit_at_exec(s.as_slice(), i, "do()") {
                    is_doing = true;
                    i = i + 4;
                } else if lit_at_exec(s.as_slice(), i, "don't()") {
                    is_doing = false;
                    i = i + 7;
                } else {
                    i = i + 1;
                }
            },
        }
    }
    out
}

} // verus!
