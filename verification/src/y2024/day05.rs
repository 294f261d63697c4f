//! Page ordering rules "a|b" (a must come before b) and page updates: which
//! updates follow the rules, and the middle page of each once ordered.

use core::cmp::Ordering;

use vstd::prelude::*;

use crate::text::{
    chars_of, find_pair, first_index2, lemma_first_index2, parse_i32, parse_signed,
    parses_signed_within, split, split_range, trim, trim_bounds, views,
};

verus! {

/// A rule "a|b": page a must come before page b.
#[derive(Clone, Copy, Debug, PartialEq, Eq)]
pub struct Rule(pub (i32, i32));

/// The pieces of a line split at '|'.
pub open spec fn rule_pieces(line: Seq<char>) -> Seq<Seq<char>> {
    split(line, '|')
}

/// The line is a rule: two integers separated by one '|'.
pub open spec fn rule_text_ok(line: Seq<char>) -> bool {
    let p = rule_pieces(line);
    &&& p.len() == 2
    &&& parses_signed_within(p[0], i32::MIN as int, i32::MAX as int)
    &&& parses_signed_within(p[1], i32::MIN as int, i32::MAX as int)
}

/// The pages a rule line names.
pub open spec fn rule_of(line: Seq<char>) -> (i32, i32) {
    (parse_signed(rule_pieces(line)[0])->0 as i32, parse_signed(rule_pieces(line)[1])->0 as i32)
}

/// Reads a rule from a line of characters.
fn rule_from_chars(line: &[char]) -> (r: Rule)
    requires
        rule_text_ok(line@),
    ensures
        r.0 == rule_of(line@),
{
    let parts = split_range(line, 0, line.len(), '|');
    assert(line@.subrange(0, line@.len() as int) =~= line@);
    assert(parts@[0]@ == rule_pieces(line@)[0]);
    assert(parts@[1]@ == rule_pieces(line@)[1]);
    let a = match parse_i32(parts[0].as_slice()) {
        Some(v) => v,
        None => 0,
    };
    let b = match parse_i32(parts[1].as_slice()) {
        Some(v) => v,
        None => 0,
    };
    Rule((a, b))
}

impl Rule {
    /// Reads a rule of the form "<i0>|<i1>".
    pub fn new(line: &str) -> (r: Self)
        requires
            rule_text_ok(line@),
        ensures
            r.0 == rule_of(line@),
    {
        let chars = chars_of(line);
        rule_from_chars(chars.as_slice())
    }
}

/// The trimmed input splits at "\n\n" into exactly two paragraphs: the rules and the updates.
pub open spec fn paragraphs_ok(input: Seq<char>) -> bool {
    let t = trim(input);
    let i = first_index2(t, '\n', '\n');
    i >= 0 && first_index2(t.skip(i + 2), '\n', '\n') < 0
}

/// The lines of the rules paragraph.
pub open spec fn rule_lines(input: Seq<char>) -> Seq<Seq<char>> {
    let t = trim(input);
    split(t.take(first_index2(t, '\n', '\n')), '\n')
}

/// The lines of the updates paragraph.
pub open spec fn update_lines(input: Seq<char>) -> Seq<Seq<char>> {
    let t = trim(input);
    split(t.skip(first_index2(t, '\n', '\n') + 2), '\n')
}

/// The line is an update: integers separated by commas.
pub open spec fn update_text_ok(line: Seq<char>) -> bool {
    forall|k: int|
        0 <= k < split(line, ',').len() ==> parses_signed_within(
            #[trigger] split(line, ',')[k],
            i32::MIN as int,
            i32::MAX as int,
        )
}

/// The pages an update line lists.
pub open spec fn update_of(line: Seq<char>) -> Seq<i32> {
    split(line, ',').map_values(|w: Seq<char>| parse_signed(w)->0 as i32)
}

/// The input holds rules and updates that `parse` reads.
pub open spec fn input_ok(input: Seq<char>) -> bool {
    &&& paragraphs_ok(input)
    &&& forall|i: int| 0 <= i < rule_lines(input).len() ==> rule_text_ok(#[trigger] rule_lines(input)[i])
    &&& forall|i: int| 0 <= i < update_lines(input).len() ==> update_text_ok(#[trigger] update_lines(input)[i])
}

/// Parse rules and updates.
pub fn parse(input: &str) -> (r: (Vec<Rule>, Vec<Vec<i32>>))
    requires
        input_ok(input@),
    ensures
        r.0@.len() == rule_lines(input@).len(),
        forall|i: int| 0 <= i < r.0@.len() ==> (#[trigger] r.0@[i]).0 == rule_of(rule_lines(input@)[i]),
        r.1@.len() == update_lines(input@).len(),
        forall|i: int| 0 <= i < r.1@.len() ==> (#[trigger] r.1@[i])@ == update_of(update_lines(input@)[i]),
{
    let chars = chars_of(input);
    let (start, end) = trim_bounds(chars.as_slice());
    let ghost t = trim(input@);
    assert(chars@.subrange(start as int, end as int) == t);
    let i = match find_pair(chars.as_slice(), start, end, '\n', '\n') {
        Some(i) => i,
        None => 0,
    };
    proof {
        lemma_first_index2(t, '\n', '\n');
    }
    let mid = start + i;
    let mid2 = mid + 2;
    let rule_ls = split_range(chars.as_slice(), start, mid, '\n');
    let update_ls = split_range(chars.as_slice(), mid2, end, '\n');
    assert(chars@.subrange(start as int, mid as int) =~= t.take(i as int));
    assert(chars@.subrange(mid2 as int, end as int) =~= t.skip(i + 2));
    let ghost rl = rule_lines(input@);
    let ghost ul = update_lines(input@);
    let mut rules: Vec<Rule> = Vec::new();
    for k in 0..rule_ls.len()
        invariant
            views(rule_ls@) == rl,
            rl == rule_lines(input@),
            input_ok(input@),
            rules@.len() == k,
            forall|j: int| 0 <= j < k ==> (#[trigger] rules@[j]).0 == rule_of(rl[j]),
    {
        assert(rule_ls@[k as int]@ == rl[k as int]);
        rules.push(rule_from_chars(rule_ls[k].as_slice()));
    }
    let mut updates: Vec<Vec<i32>> = Vec::new();
    for k in 0..update_ls.len()
        invariant
            views(update_ls@) == ul,
            ul == update_lines(input@),
            input_ok(input@),
            updates@.len() == k,
            forall|j: int| 0 <= j < k ==> (#[trigger] updates@[j])@ == update_of(ul[j]),
    {
        let line = &update_ls[k];
        assert(line@ == ul[k as int]);
        let pieces = split_range(line.as_slice(), 0, line.len(), ',');
        assert(line@.subrange(0, line@.len() as int) =~= line@);
        let mut vals: Vec<i32> = Vec::new();
        for m in 0..pieces.len()
            invariant
                views(pieces@) == split(line@, ','),
                line@ == ul[k as int],
                update_text_ok(line@),
                vals@ == update_of(line@).take(m as int),
        {
            assert(pieces@[m as int]@ == split(line@, ',')[m as int]);
            let v = match parse_i32(pieces[m].as_slice()) {
                Some(v) => v,
                None => 0,
            };
            vals.push(v);
            assert(vals@ =~= update_of(line@).take(m + 1));
        }
        assert(update_of(line@).take(pieces@.len() as int) =~= update_of(line@));
        updates.push(vals);
    }
    (rules, updates)
}

/// The pages of the rules, as plain pairs.
pub open spec fn rule_pairs(rules: Seq<Rule>) -> Seq<(i32, i32)> {
    rules.map_values(|r: Rule| r.0)
}

/// Index of the first occurrence of `v` in `s` (or `s.len()` when absent).
pub open spec fn first_pos(s: Seq<i32>, v: i32) -> int
    decreases s.len(),
{
    if s.len() == 0 {
        0
    } else if s[0] == v {
        0
    } else {
        1 + first_pos(s.drop_first(), v)
    }
}

proof fn lemma_first_pos(s: Seq<i32>, v: i32)
    ensures
        0 <= first_pos(s, v) <= s.len(),
        first_pos(s, v) < s.len() <==> s.contains(v),
        first_pos(s, v) < s.len() ==> s[first_pos(s, v)] == v,
        forall|j: int| 0 <= j < first_pos(s, v) ==> s[j] != v,
    decreases s.len(),
{
    if s.len() > 0 && s[0] != v {
        lemma_first_pos(s.drop_first(), v);
        assert forall|j: int| 0 <= j < first_pos(s, v) implies s[j] != v by {
            if j > 0 {
                assert(s[j] == s.drop_first()[j - 1]);
            }
        }
        if s.contains(v) {
            let j = choose|j: int| 0 <= j < s.len() && #[trigger] s[j] == v;
            assert(s.drop_first()[j - 1] == v);
        }
        if s.drop_first().contains(v) {
            let j = choose|j: int| 0 <= j < s.drop_first().len() && #[trigger] s.drop_first()[j] == v;
            assert(s[j + 1] == v);
        }
    }
}

/// Every rule whose two pages both appear is respected: the first page's first
/// occurrence comes no later than the second page's.
pub open spec fn ordered(update: Seq<i32>, rules: Seq<(i32, i32)>) -> bool {
    forall|k: int|
        0 <= k < rules.len() && update.contains(#[trigger] rules[k].0) && update.contains(rules[k].1)
            ==> first_pos(update, rules[k].0) <= first_pos(update, rules[k].1)
}

/// The index of the first occurrence of `v`, which occurs.
fn position(update: &[i32], v: i32) -> (r: usize)
    requires
        update@.contains(v),
    ensures
        r == first_pos(update@, v),
{
    proof {
        lemma_first_pos(update@, v);
    }
    let mut i: usize = 0;
    while i < update.len()
        invariant
            i <= first_pos(update@, v) < update@.len(),
            forall|j: int| 0 <= j < first_pos(update@, v) ==> update@[j] != v,
            update@[first_pos(update@, v)] == v,
        decreases update@.len() - i,
    {
        if update[i] == v {
            return i;
        }
        i = i + 1;
    }
    i
}

/// Whether `v` occurs in `update`.
fn contains_value(update: &[i32], v: i32) -> (r: bool)
    ensures
        r == update@.contains(v),
{
    for i in 0..update.len()
        invariant
            forall|j: int| 0 <= j < i ==> update@[j] != v,
    {
        if update[i] == v {
            return true;
        }
    }
    false
}

/// Check if an update is "ordered" according to the Rules.
pub fn is_ordered(update: &[i32], rules: &Vec<Rule>) -> (r: bool)
    ensures
        r == ordered(update@, rule_pairs(rules@)),
{
    let ghost rs = rule_pairs(rules@);
    for k in 0..rules.len()
        invariant
            rs == rule_pairs(rules@),
            forall|m: int|
                0 <= m < k && update@.contains(#[trigger] rs[m].0) && update@.contains(rs[m].1)
                    ==> first_pos(update@, rs[m].0) <= first_pos(update@, rs[m].1),
    {
        let (value0, value1) = rules[k].0;
        assert(rs[k as int] == (value0, value1));
        if !(contains_value(update, value0) && contains_value(update, value1)) {
        } else {
            let i0 = position(update, value0);
            let i1 = position(update, value1);
            if i0 > i1 {
                return false;
            }
        }
    }
    true
}

/// Get the middle element in an odd-len array.
pub fn get_mid_elem(arr: &[i32]) -> (r: i32)
    requires
        arr@.len() >= 1,
    ensures
        r == arr@[(arr@.len() / 2) as int],
{
    let n = arr.len();
    arr[n / 2]
}

/// How the rules order `a` before or after `b`: the first rule naming the pair
/// decides; with no such rule they compare equal.
pub open spec fn rule_order(a: i32, b: i32, rules: Seq<(i32, i32)>) -> Ordering
    decreases rules.len(),
{
    if rules.len() == 0 {
        Ordering::Equal
    } else if (a, b) == rules[0] {
        Ordering::Less
    } else if (b, a) == rules[0] {
        Ordering::Greater
    } else {
        rule_order(a, b, rules.drop_first())
    }
}

/// The pair of pages a rule names, in either order.
pub open spec fn names_pair(r: (i32, i32), a: i32, b: i32) -> bool {
    r == (a, b) || r == (b, a)
}

/// Index of the first rule naming the pages `a` and `b`, or -1.
pub open spec fn first_rule(a: i32, b: i32, rules: Seq<(i32, i32)>) -> int
    decreases rules.len(),
{
    if rules.len() == 0 {
        -1
    } else if names_pair(rules[0], a, b) {
        0
    } else {
        let r = first_rule(a, b, rules.drop_first());
        if r < 0 {
            -1
        } else {
            r + 1
        }
    }
}

proof fn lemma_first_rule(a: i32, b: i32, rules: Seq<(i32, i32)>)
    ensures
        -1 <= first_rule(a, b, rules) < rules.len(),
        first_rule(a, b, rules) >= 0 ==> names_pair(rules[first_rule(a, b, rules)], a, b),
        forall|j: int|
            0 <= j < rules.len() && (first_rule(a, b, rules) < 0 || j < first_rule(a, b, rules))
                ==> !names_pair(#[trigger] rules[j], a, b),
    decreases rules.len(),
{
    if rules.len() > 0 && !names_pair(rules[0], a, b) {
        lemma_first_rule(a, b, rules.drop_first());
        assert forall|j: int|
            0 <= j < rules.len() && (first_rule(a, b, rules) < 0 || j < first_rule(a, b, rules))
                implies !names_pair(#[trigger] rules[j], a, b) by {
            if j > 0 {
                assert(rules[j] == rules.drop_first()[j - 1]);
            }
        }
    }
}

/// The rules order a pair as their first rule naming it says.
proof fn lemma_rule_order(a: i32, b: i32, rules: Seq<(i32, i32)>)
    ensures
        first_rule(a, b, rules) < 0 ==> rule_order(a, b, rules) == Ordering::Equal,
        first_rule(a, b, rules) >= 0 && rules[first_rule(a, b, rules)] == (a, b) ==> rule_order(
            a,
            b,
            rules,
        ) == Ordering::Less,
        first_rule(a, b, rules) >= 0 && rules[first_rule(a, b, rules)] != (a, b) ==> rule_order(
            a,
            b,
            rules,
        ) == Ordering::Greater,
    decreases rules.len(),
{
    if rules.len() > 0 && !names_pair(rules[0], a, b) {
        lemma_rule_order(a, b, rules.drop_first());
        let r = first_rule(a, b, rules.drop_first());
        lemma_first_rule(a, b, rules.drop_first());
        if r >= 0 {
            assert(rules[r + 1] == rules.drop_first()[r]);
        }
    }
}

/// The index of the first rule naming the pages `a` and `b`.
fn find_rule(a: i32, b: i32, rules: &Vec<Rule>) -> (r: Option<usize>)
    ensures
        match r {
            Some(i) => first_rule(a, b, rule_pairs(rules@)) == i && i < rules@.len() && rules@[i as int].0
                == rule_pairs(rules@)[i as int],
            None => first_rule(a, b, rule_pairs(rules@)) < 0,
        },
{
    let ghost rs = rule_pairs(rules@);
    proof {
        lemma_first_rule(a, b, rs);
    }
    for k in 0..rules.len()
        invariant
            rs == rule_pairs(rules@),
            -1 <= first_rule(a, b, rs) < rs.len(),
            first_rule(a, b, rs) >= 0 ==> names_pair(rs[first_rule(a, b, rs)], a, b),
            forall|j: int|
                0 <= j < rs.len() && (first_rule(a, b, rs) < 0 || j < first_rule(a, b, rs))
                    ==> !names_pair(#[trigger] rs[j], a, b),
            forall|j: int| 0 <= j < k ==> !names_pair(#[trigger] rs[j], a, b),
    {
        let (value0, value1) = rules[k].0;
        assert(rs[k as int] == (value0, value1));
        if (a == value0 && b == value1) || (a == value1 && b == value0) {
            return Some(k);
        }
    }
    None
}

/// Facilitate sorting according to the Rules.
pub fn rules_cmp(a: i32, b: i32, rules: &Vec<Rule>) -> (r: Ordering)
    ensures
        r == rule_order(a, b, rule_pairs(rules@)),
{
    proof {
        lemma_rule_order(a, b, rule_pairs(rules@));
    }
    match find_rule(a, b, rules) {
        None => Ordering::Equal,
        Some(i) => {
            let (value0, value1) = rules[i].0;
            if a == value0 && b == value1 {
                Ordering::Less
            } else {
                Ordering::Greater
            }
        },
    }
}

/// The ordering seen from the other side.
pub open spec fn flipped(o: Ordering) -> Ordering {
    match o {
        Ordering::Less => Ordering::Greater,
        Ordering::Equal => Ordering::Equal,
        Ordering::Greater => Ordering::Less,
    }
}

/// On the pages of `update` the rules give a total order: swapping a pair flips
/// its order, and "not after" is transitive.
pub open spec fn consistent(update: Seq<i32>, rules: Seq<(i32, i32)>) -> bool {
    &&& forall|x: i32, y: i32|
        update.contains(x) && update.contains(y) ==> #[trigger] rule_order(x, y, rules) == flipped(
            rule_order(y, x, rules),
        )
    &&& forall|x: i32, y: i32, z: i32|
        update.contains(x) && update.contains(y) && update.contains(z) && #[trigger] rule_order(
            x,
            y,
            rules,
        ) != Ordering::Greater && #[trigger] rule_order(y, z, rules) != Ordering::Greater
            ==> rule_order(x, z, rules) != Ordering::Greater
}

/// `s` holds the pages of `update`, each page no later in the order than the pages after it.
pub open spec fn is_sorted_perm(s: Seq<i32>, update: Seq<i32>, rules: Seq<(i32, i32)>) -> bool {
    &&& s.to_multiset() == update.to_multiset()
    &&& forall|i: int, j: int|
        0 <= i < j < s.len() ==> rule_order(#[trigger] s[i], #[trigger] s[j], rules) != Ordering::Greater
}

/// `slice::sort_by` with `rules_cmp` as the comparison: the same pages, sorted by
/// the order of the rules.
#[verifier::external_body]
fn sort_by_rules(update: &Vec<i32>, rules: &Vec<Rule>) -> (r: Vec<i32>)
    requires
        consistent(update@, rule_pairs(rules@)),
    ensures
        is_sorted_perm(r@, update@, rule_pairs(rules@)),
{
    let mut sorted = update.clone();
    sorted.sort_by(|a, b| rules_cmp(*a, *b, rules));
    sorted
}

/// The middle page of each of the first `k` updates that follow the rules, summed.
pub open spec fn ordered_mid_sum(updates: Seq<Seq<i32>>, rules: Seq<(i32, i32)>, k: int) -> int
    decreases k,
{
    if k <= 0 {
        0
    } else {
        ordered_mid_sum(updates, rules, k - 1) + if ordered(updates[k - 1], rules) {
            updates[k - 1][(updates[k - 1].len() / 2) as int] as int
        } else {
            0
        }
    }
}

/// The updates as plain sequences.
pub open spec fn update_seqs(updates: Seq<Vec<i32>>) -> Seq<Seq<i32>> {
    updates.map_values(|u: Vec<i32>| u@)
}

/// Sum middle elements of ordered updates.
pub fn part1(updates: &[Vec<i32>], rules: &Vec<Rule>) -> (r: i32)
    requires
        forall|i: int| 0 <= i < updates@.len() ==> (#[trigger] updates@[i])@.len() >= 1,
        forall|k: int|
            0 <= k <= updates@.len() ==> i32::MIN <= #[trigger] ordered_mid_sum(
                update_seqs(updates@),
                rule_pairs(rules@),
                k,
            ) <= i32::MAX,
    ensures
        r == ordered_mid_sum(update_seqs(updates@), rule_pairs(rules@), updates@.len() as int),
{
    let ghost us = update_seqs(updates@);
    let ghost rs = rule_pairs(rules@);
    let mut out: i32 = 0;
    for k in 0..updates.len()
        invariant
            us == update_seqs(updates@),
            rs == rule_pairs(rules@),
            forall|i: int| 0 <= i < updates@.len() ==> (#[trigger] updates@[i])@.len() >= 1,
            forall|j: int| 0 <= j <= updates@.len() ==> i32::MIN <= #[trigger] ordered_mid_sum(us, rs, j) <= i32::MAX,
            out == ordered_mid_sum(us, rs, k as int),
    {
        let update = &updates[k];
        assert(us[k as int] == update@);
        assert(ordered_mid_sum(us, rs, k + 1) <= i32::MAX);
        assert(i32::MIN <= ordered_mid_sum(us, rs, k + 1));
        if is_ordered(update.as_slice(), rules) {
            out += get_mid_elem(update.as_slice());
        }
    }
    out
}

/// The middle page of each of the first `k` updates that break the rules, once
/// sorted as `sorted` gives them, summed.
pub open spec fn unordered_mid_sum(
    updates: Seq<Seq<i32>>,
    sorted: Seq<Seq<i32>>,
    rules: Seq<(i32, i32)>,
    k: int,
) -> int
    decreases k,
{
    if k <= 0 {
        0
    } else {
        unordered_mid_sum(updates, sorted, rules, k - 1) + if !ordered(updates[k - 1], rules) {
            sorted[k - 1][(sorted[k - 1].len() / 2) as int] as int
        } else {
            0
        }
    }
}

/// Every update is not empty and its pages are totally ordered by the rules.
pub open spec fn part2_ok(updates: Seq<Seq<i32>>, rules: Seq<(i32, i32)>) -> bool {
    forall|i: int| 0 <= i < updates.len() ==> (#[trigger] updates[i]).len() >= 1 && consistent(updates[i], rules)
}

/// Whatever sorted pages the updates that break the rules get, every partial
/// sum of their middle pages fits in an `i32`.
pub open spec fn part2_fits(us: Seq<Seq<i32>>, rs: Seq<(i32, i32)>) -> bool {
    forall|ss: Seq<Seq<i32>>, k: int|
        ss.len() == us.len() && 0 <= k <= us.len() && (forall|i: int|
            0 <= i < k && !ordered(us[i], rs) ==> is_sorted_perm(#[trigger] ss[i], us[i], rs)) ==> i32::MIN
            <= #[trigger] unordered_mid_sum(us, ss, rs, k) <= i32::MAX
}

/// Sum middle elements of un-ordered updates, after ordering them.
pub fn part2(updates: &[Vec<i32>], rules: &Vec<Rule>) -> (r: i32)
    requires
        part2_ok(update_seqs(updates@), rule_pairs(rules@)),
        part2_fits(update_seqs(updates@), rule_pairs(rules@)),
    ensures
        exists|ss: Seq<Seq<i32>>|
            ss.len() == updates@.len() && (forall|i: int|
                0 <= i < ss.len() && !ordered(updates@[i]@, rule_pairs(rules@)) ==> is_sorted_perm(
                    #[trigger] ss[i],
                    updates@[i]@,
                    rule_pairs(rules@),
                )) && r == unordered_mid_sum(
                update_seqs(updates@),
                ss,
                rule_pairs(rules@),
                updates@.len() as int,
            ),
{
    let ghost us = update_seqs(updates@);
    let ghost rs = rule_pairs(rules@);
    let ghost mut ss: Seq<Seq<i32>> = us;
    let mut out: i32 = 0;
    for k in 0..updates.len()
        invariant
            us == update_seqs(updates@),
            rs == rule_pairs(rules@),
            part2_ok(us, rs),
            part2_fits(us, rs),
            ss.len() == updates@.len(),
            forall|i: int| k <= i < ss.len() ==> #[trigger] ss[i] == us[i],
            forall|i: int|
                0 <= i < k && !ordered(us[i], rs) ==> is_sorted_perm(#[trigger] ss[i], us[i], rs),
            forall|i: int| 0 <= i < updates@.len() ==> #[trigger] us[i] == updates@[i]@,
            out == unordered_mid_sum(us, ss, rs, k as int),
    {
        let update = &updates[k];
        assert(us[k as int] == update@);
        if !is_ordered(update.as_slice(), rules) {
            assert(update@.len() >= 1 && consistent(update@, rs));
            let sorted = sort_by_rules(update, rules);
            proof {
                update@.to_multiset_ensures();
                sorted@.to_multiset_ensures();
                assert(sorted@.len() == update@.len());
            }
            let mid = get_mid_elem(sorted.as_slice());
            proof {
                let old_ss = ss;
                ss = ss.update(k as int, sorted@);
                lemma_unordered_mid_sum_frame(us, old_ss, ss, rs, k as int);
                assert(forall|i: int|
                    0 <= i < k + 1 && !ordered(us[i], rs) ==> is_sorted_perm(#[trigger] ss[i], us[i], rs));
                assert(i32::MIN <= unordered_mid_sum(us, ss, rs, k + 1) <= i32::MAX);
            }
            out += mid;
        }
    }
    out
}

/// The sum over the first `k` updates does not look at later sorted updates.
proof fn lemma_unordered_mid_sum_frame(
    us: Seq<Seq<i32>>,
    s1: Seq<Seq<i32>>,
    s2: Seq<Seq<i32>>,
    rs: Seq<(i32, i32)>,
    k: int,
)
    requires
        forall|i: int| 0 <= i < k ==> s1[i] == s2[i],
    ensures
        unordered_mid_sum(us, s1, rs, k) == unordered_mid_sum(us, s2, rs, k),
    decreases k,
{
    if k > 0 {
        lemma_unordered_mid_sum_frame(us, s1, s2, rs, k - 1);
    }
}

/// The rules order every two different pages of the update.
pub open spec fn decides_all(update: Seq<i32>, rules: Seq<(i32, i32)>) -> bool {
    forall|x: i32, y: i32|
        update.contains(x) && update.contains(y) && x != y ==> #[trigger] rule_order(x, y, rules)
            != Ordering::Equal
}

/// When the rules are consistent and order every two different pages of an
/// update, the update has only one sorted order: the middle page `part2`
/// adds for it is determined.
pub proof fn lemma_sorted_pages_unique(s1: Seq<i32>, s2: Seq<i32>, update: Seq<i32>, rules: Seq<(i32, i32)>)
    requires
        consistent(update, rules),
        decides_all(update, rules),
        is_sorted_perm(s1, update, rules),
        is_sorted_perm(s2, update, rules),
    ensures
        s1 == s2,
    decreases s1.len(),
{
    broadcast use vstd::multiset::group_multiset_axioms;
    s1.to_multiset_ensures();
    s2.to_multiset_ensures();
    update.to_multiset_ensures();
    if s1.len() == 0 {
        assert(s2.len() == 0);
        assert(s1 =~= s2);
    } else {
        assert(s2.len() == s1.len());
        let a = s1[0];
        let b = s2[0];
        assert(s1.contains(a));
        assert(s2.contains(b));
        assert(s1.to_multiset().count(a) > 0);
        assert(update.to_multiset().count(a) > 0);
        assert(s2.to_multiset().count(b) > 0);
        assert(update.to_multiset().count(b) > 0);
        assert(update.contains(a));
        assert(update.contains(b));
        if a != b {
            assert(s1.to_multiset().count(b) > 0);
            assert(s2.to_multiset().count(a) > 0);
            assert(s1.contains(b));
            let p = choose|p: int| 0 <= p < s1.len() && s1[p] == b;
            assert(s2.contains(a));
            let q = choose|q: int| 0 <= q < s2.len() && s2[q] == a;
            assert(rule_order(s1[0], s1[p], rules) != Ordering::Greater);
            assert(rule_order(s2[0], s2[q], rules) != Ordering::Greater);
            assert(rule_order(a, b, rules) == flipped(rule_order(b, a, rules)));
            assert(rule_order(a, b, rules) != Ordering::Equal);
        }
        let t1 = s1.drop_first();
        let t2 = s2.drop_first();
        assert(s1.remove(0) =~= t1);
        assert(s2.remove(0) =~= t2);
        assert(t1.to_multiset() =~= t2.to_multiset());
        t1.to_multiset_ensures();
        t2.to_multiset_ensures();
        assert(forall|x: i32| t1.contains(x) ==> update.contains(x)) by {
            assert forall|x: i32| t1.contains(x) implies update.contains(x) by {
                let i = choose|i: int| 0 <= i < t1.len() && t1[i] == x;
                assert(s1[i + 1] == x);
                assert(s1.contains(x));
                assert(s1.to_multiset().count(x) > 0);
                assert(update.to_multiset().count(x) > 0);
            }
        }
        let sub = t1;
        assert(is_sorted_perm(t1, sub, rules)) by {
            assert forall|i: int, j: int| 0 <= i < j < t1.len() implies rule_order(#[trigger] t1[i], #[trigger] t1[j], rules)
                != Ordering::Greater by {
                assert(t1[i] == s1[i + 1] && t1[j] == s1[j + 1]);
            }
        }
        assert(is_sorted_perm(t2, sub, rules)) by {
            assert forall|i: int, j: int| 0 <= i < j < t2.len() implies rule_order(#[trigger] t2[i], #[trigger] t2[j], rules)
                != Ordering::Greater by {
                assert(t2[i] == s2[i + 1] && t2[j] == s2[j + 1]);
            }
        }
        assert(consistent(sub, rules));
        assert(decides_all(sub, rules));
        lemma_sorted_pages_unique(t1, t2, sub, rules);
        assert(s1 =~= seq![a] + t1);
        assert(s2 =~= seq![b] + t2);
    }
}

/// An update with no page twice respects the rules exactly when no rule names
/// a page of it together with an earlier page, in that order: no rule
/// `(later, earlier)`.
pub proof fn lemma_ordered_means_no_rule_broken(update: Seq<i32>, rules: Seq<(i32, i32)>)
    requires
        update.no_duplicates(),
    ensures
        ordered(update, rules) <==> !exists|i: int, j: int, k: int|
            0 <= i < j < update.len() && 0 <= k < rules.len() && #[trigger] rules[k] == (
            #[trigger] update[j],
            #[trigger] update[i],
        ),
{
    if ordered(update, rules) {
        if exists|i: int, j: int, k: int|
            0 <= i < j < update.len() && 0 <= k < rules.len() && #[trigger] rules[k] == (
            #[trigger] update[j],
            #[trigger] update[i],
        ) {
            let (i, j, k) = choose|i: int, j: int, k: int|
                0 <= i < j < update.len() && 0 <= k < rules.len() && #[trigger] rules[k] == (
                #[trigger] update[j],
                #[trigger] update[i],
            );
            lemma_first_pos_distinct(update, i);
            lemma_first_pos_distinct(update, j);
            assert(update.contains(rules[k].0) && update.contains(rules[k].1));
        }
    }
    if !ordered(update, rules) {
        let k = choose|k: int|
            !(0 <= k < rules.len() && update.contains(#[trigger] rules[k].0) && update.contains(rules[k].1)
                ==> first_pos(update, rules[k].0) <= first_pos(update, rules[k].1));
        lemma_first_pos(update, rules[k].0);
        lemma_first_pos(update, rules[k].1);
        let j = first_pos(update, rules[k].0);
        let i = first_pos(update, rules[k].1);
        assert(rules[k] == (update[j], update[i]));
    }
}

proof fn lemma_first_pos_distinct(update: Seq<i32>, i: int)
    requires
        update.no_duplicates(),
        0 <= i < update.len(),
    ensures
        first_pos(update, update[i]) == i,
        update.contains(update[i]),
{
    lemma_first_pos(update, update[i]);
    assert(update[i] == update[i]);
}

} // verus!
