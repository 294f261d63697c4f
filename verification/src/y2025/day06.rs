//! Columns of numbers combined by `+` or `*`, read two ways: by whitespace
//! separated words, and column by column ("cephalopod math").

use vstd::prelude::*;
use vstd::string::StrSliceExecFns;

use crate::text::{
    chars_of, parse_u64, parse_unsigned, parses_unsigned_within, split, split_words, trim,
    trim_bounds, trimmed_lines, utf8_len, views, words,
};
use crate::y2025::grid::{has_mismatched_line, lines_fit, text_lines, Grid};

verus! {

/// How the numbers of a task are combined.
#[derive(Clone, Copy, Debug, PartialEq, Eq, Structural)]
pub enum Op {
    Add,
    Mul,
}

/// One addition or multiplication task.
#[derive(Clone, Debug)]
pub struct Task {
    pub nums: Vec<u64>,
    pub op: Op,
}

/// The operator a character stands for.
pub open spec fn op_of_char(c: char) -> Option<Op> {
    if c == '+' {
        Some(Op::Add)
    } else if c == '*' {
        Some(Op::Mul)
    } else {
        None
    }
}

/// The operator a word stands for.
pub open spec fn op_of_word(s: Seq<char>) -> Option<Op> {
    if s.len() == 1 {
        op_of_char(s[0])
    } else {
        None
    }
}

/// Either char or str is maybe convertible to an `Op`.
pub trait ToOp {
    /// The operator `self` stands for.
    spec fn op_spec(&self) -> Option<Op>;

    /// Get Some(Add), Some(Mul), or None.
    fn maybe_op(&self) -> (r: Option<Op>)
        ensures
            r == self.op_spec(),
    ;
}

impl ToOp for char {
    open spec fn op_spec(&self) -> Option<Op> {
        op_of_char(*self)
    }

    fn maybe_op(&self) -> (r: Option<Op>) {
        if *self == '+' {
            Some(Op::Add)
        } else if *self == '*' {
            Some(Op::Mul)
        } else {
            None
        }
    }
}

impl ToOp for str {
    open spec fn op_spec(&self) -> Option<Op> {
        op_of_word(self@)
    }

    fn maybe_op(&self) -> (r: Option<Op>) {
        if self.unicode_len() == 1 {
            self.get_char(0).maybe_op()
        } else {
            None
        }
    }
}

/// The operator a word of characters stands for.
fn word_op(w: &[char]) -> (r: Option<Op>)
    ensures
        r == op_of_word(w@),
{
    if w.len() == 1 {
        w[0].maybe_op()
    } else {
        None
    }
}

/// `nums` combined by `op`, from the left.
pub open spec fn fold_op(op: Op, nums: Seq<u64>) -> int
    decreases nums.len(),
{
    if nums.len() == 0 {
        match op {
            Op::Add => 0,
            Op::Mul => 1,
        }
    } else {
        match op {
            Op::Add => fold_op(op, nums.drop_last()) + nums.last(),
            Op::Mul => fold_op(op, nums.drop_last()) * nums.last(),
        }
    }
}

/// Every partial result of combining `nums` fits in a `u64`.
pub open spec fn fold_fits(op: Op, nums: Seq<u64>) -> bool {
    forall|k: int| 0 <= k <= nums.len() ==> #[trigger] fold_op(op, nums.take(k)) <= u64::MAX
}

/// A task as plain values: its operator and its numbers.
pub open spec fn task_views(ts: Seq<Task>) -> Seq<(Op, Seq<u64>)> {
    ts.map_values(|t: Task| (t.op, t.nums@))
}

/// The sum of the results of the tasks.
pub open spec fn total(ts: Seq<(Op, Seq<u64>)>) -> int
    decreases ts.len(),
{
    if ts.len() == 0 {
        0
    } else {
        total(ts.drop_last()) + fold_op(ts.last().0, ts.last().1)
    }
}

/// Each task's partial results, and each partial sum of results, fit in a `u64`.
pub open spec fn tasks_fit(ts: Seq<(Op, Seq<u64>)>) -> bool {
    &&& forall|i: int| 0 <= i < ts.len() ==> fold_fits(#[trigger] ts[i].0, ts[i].1)
    &&& forall|k: int| 0 <= k <= ts.len() ==> #[trigger] total(ts.take(k)) <= u64::MAX
}

impl Task {
    /// Execute the task.
    pub fn result(&self) -> (r: u64)
        requires
            fold_fits(self.op, self.nums@),
        ensures
            r == fold_op(self.op, self.nums@),
    {
        let mut acc: u64 = match self.op {
            Op::Add => 0,
            Op::Mul => 1,
        };
        assert(self.nums@.take(0) =~= Seq::<u64>::empty());
        for i in 0..self.nums.len()
            invariant
                fold_fits(self.op, self.nums@),
                acc == fold_op(self.op, self.nums@.take(i as int)),
        {
            assert(self.nums@.take(i + 1).drop_last() =~= self.nums@.take(i as int));
            assert(fold_op(self.op, self.nums@.take(i + 1)) <= u64::MAX);
            match self.op {
                Op::Add => {
                    acc = acc + self.nums[i];
                },
                Op::Mul => {
                    acc = acc * self.nums[i];
                },
            }
        }
        assert(self.nums@.take(self.nums@.len() as int) =~= self.nums@);
        acc
    }
}

/// Sum of the results of all tasks.
fn sum_results(tasks: &Vec<Task>) -> (r: u64)
    requires
        tasks_fit(task_views(tasks@)),
    ensures
        r == total(task_views(tasks@)),
{
    let ghost ts = task_views(tasks@);
    let mut out: u64 = 0;
    assert(ts.take(0) =~= Seq::<(Op, Seq<u64>)>::empty());
    for i in 0..tasks.len()
        invariant
            ts == task_views(tasks@),
            tasks_fit(ts),
            out == total(ts.take(i as int)),
    {
        assert(ts.take(i + 1).drop_last() =~= ts.take(i as int));
        assert(total(ts.take(i + 1)) <= u64::MAX);
        assert(fold_fits(ts[i as int].0, ts[i as int].1));
        let v = tasks[i].result();
        out = out + v;
    }
    assert(ts.take(ts.len() as int) =~= ts);
    out
}

/// The lines of the text read the oblivious way.
pub open spec fn lines1(text: Seq<char>) -> Seq<Seq<char>> {
    split(trim(text), '\n')
}

/// The operator words, from the last line.
pub open spec fn op_words(text: Seq<char>) -> Seq<Seq<char>> {
    words(lines1(text).last())
}

/// The lines of numbers, all lines but the last.
pub open spec fn num_lines(text: Seq<char>) -> Seq<Seq<char>> {
    lines1(text).drop_last()
}

/// The text can be read the oblivious way: every operator word is `+` or `*`, and
/// every line of numbers has, for each operator, a word that parses as a `u64`.
pub open spec fn part1_ok(text: Seq<char>) -> bool {
    &&& forall|i: int|
        0 <= i < op_words(text).len() ==> #[trigger] op_of_word(op_words(text)[i]) is Some
    &&& forall|j: int, i: int|
        #![trigger words(num_lines(text)[j])[i]]
        0 <= j < num_lines(text).len() && 0 <= i < op_words(text).len() ==> i < words(
            num_lines(text)[j],
        ).len() && parses_unsigned_within(words(num_lines(text)[j])[i], u64::MAX as int)
}

/// The tasks read the oblivious way: task `i` has the `i`-th operator and the
/// `i`-th number of each line.
pub open spec fn tasks_of(text: Seq<char>) -> Seq<(Op, Seq<u64>)> {
    let ops = op_words(text);
    let nl = num_lines(text);
    Seq::new(
        ops.len(),
        |i: int|
            (
                op_of_word(ops[i])->0,
                Seq::new(nl.len(), |j: int| parse_unsigned(words(nl[j])[i])->0 as u64),
            ),
    )
}

/// Read the oblivious way, there is one task per operator word of the last line,
/// with that word's operator; and task `i` holds exactly one number from every
/// line above the last, in order: from line `j`, its `i`-th word read in
/// decimal.
pub proof fn lemma_tasks_take_every_line(text: Seq<char>)
    requires
        part1_ok(text),
    ensures
        tasks_of(text).len() == words(lines1(text).last()).len(),
        forall|i: int|
            0 <= i < tasks_of(text).len() ==> {
                let t = #[trigger] tasks_of(text)[i];
                &&& Some(t.0) == op_of_word(words(lines1(text).last())[i])
                &&& t.1.len() == lines1(text).len() - 1
                &&& forall|j: int|
                    0 <= j < lines1(text).len() - 1 ==> t.1[j] as nat == parse_unsigned(
                        words(lines1(text)[j])[i],
                    )->0
            },
{
    let ls = lines1(text);
    crate::text::lemma_split_nonempty(trim(text), '\n');
    assert forall|i: int| 0 <= i < tasks_of(text).len() implies {
        let t = #[trigger] tasks_of(text)[i];
        &&& Some(t.0) == op_of_word(words(ls.last())[i])
        &&& t.1.len() == ls.len() - 1
        &&& forall|j: int|
            0 <= j < ls.len() - 1 ==> t.1[j] as nat == parse_unsigned(words(ls[j])[i])->0
    } by {
        assert(op_of_word(op_words(text)[i]) is Some);
        assert forall|j: int| 0 <= j < ls.len() - 1 implies tasks_of(text)[i].1[j] as nat == parse_unsigned(
            words(ls[j])[i],
        )->0 by {
            assert(num_lines(text)[j] == ls[j]);
            assert(parses_unsigned_within(words(num_lines(text)[j])[i], u64::MAX as int));
        }
    }
}

/// Parse the text the oblivious way.
///
/// This is for part1, before we learn the orientation of "cephalopod math".
pub fn tasks_from_text(text: &str) -> (r: Vec<Task>)
    requires
        part1_ok(text@),
    ensures
        task_views(r@) == tasks_of(text@),
{
    let mut lines = trimmed_lines(text);
    let ghost ls = views(lines@);
    let last = lines.pop().unwrap();
    assert(views(lines@) =~= ls.drop_last());
    let ops = split_words(last.as_slice());
    let ghost nl = num_lines(text@);
    let mut all_nums: Vec<Vec<Vec<char>>> = Vec::new();
    for j in 0..lines.len()
        invariant
            views(lines@) == nl,
            all_nums@.len() == j,
            forall|k: int| 0 <= k < j ==> views(#[trigger] all_nums@[k]@) == words(nl[k]),
    {
        all_nums.push(split_words(lines[j].as_slice()));
    }
    let ghost want = tasks_of(text@);
    let mut out: Vec<Task> = Vec::new();
    for i in 0..ops.len()
        invariant
            part1_ok(text@),
            views(ops@) == op_words(text@),
            nl == num_lines(text@),
            all_nums@.len() == nl.len(),
            forall|k: int| 0 <= k < nl.len() ==> views(#[trigger] all_nums@[k]@) == words(nl[k]),
            want == tasks_of(text@),
            task_views(out@) == want.take(i as int),
    {
        let op_opt = word_op(ops[i].as_slice());
        assert(op_of_word(op_words(text@)[i as int]) is Some);
        let op = match op_opt {
            Some(o) => o,
            None => {
                return out;
            },
        };
        let mut nums: Vec<u64> = Vec::new();
        for j in 0..all_nums.len()
            invariant
                part1_ok(text@),
                i < ops@.len(),
                views(ops@) == op_words(text@),
                nl == num_lines(text@),
                all_nums@.len() == nl.len(),
                forall|k: int|
                    0 <= k < nl.len() ==> views(#[trigger] all_nums@[k]@) == words(nl[k]),
                nums@.len() == j,
                forall|k: int|
                    0 <= k < j ==> #[trigger] nums@[k] == parse_unsigned(words(nl[k])[i as int])->0
                        as u64,
        {
            assert(views(all_nums@[j as int]@) == words(nl[j as int]));
            assert(i < op_words(text@).len());
            assert(j < num_lines(text@).len());
            assert(words(num_lines(text@)[j as int])[i as int] == words(nl[j as int])[i as int]);
            assert(i < words(nl[j as int]).len() && parses_unsigned_within(
                words(nl[j as int])[i as int],
                u64::MAX as int,
            ));
            let word = &all_nums[j][i];
            assert(word@ == words(nl[j as int])[i as int]);
            let v = match parse_u64(word.as_slice()) {
                Some(v) => v,
                None => 0,
            };
            nums.push(v);
        }
        let ghost prev = out@;
        out.push(Task { nums, op });
        assert(task_views(out@) =~= want.take(i + 1)) by {
            assert(task_views(out@) =~= task_views(prev).push((op, nums@)));
            assert(nums@ =~= want[i as int].1);
        }
    }
    assert(want.take(ops@.len() as int) =~= want);
    out
}

/// The characters of column `col` above the operator row.
pub open spec fn column(ls: Seq<Seq<char>>, col: int) -> Seq<char> {
    Seq::new((ls.len() - 1) as nat, |row: int| ls[row][col])
}

/// The state after reading the first `c` columns: the finished tasks, the numbers
/// of the task under way, and its operator.
pub open spec fn scan_columns(ls: Seq<Seq<char>>, c: int) -> (Seq<(Op, Seq<u64>)>, Seq<u64>, Op)
    decreases c,
{
    let h = ls.len();
    let w = ls[0].len();
    if c <= 0 {
        (Seq::empty(), Seq::empty(), op_of_char(ls[h - 1][0])->0)
    } else {
        let prev = scan_columns(ls, c - 1);
        let col = c - 1;
        let op = match op_of_char(ls[h - 1][col]) {
            Some(o) => o,
            None => prev.2,
        };
        let d = trim(column(ls, col));
        let nums = if d.len() > 0 {
            prev.1.push(parse_unsigned(d)->0 as u64)
        } else {
            prev.1
        };
        if d.len() == 0 || col == w - 1 {
            (prev.0.push((op, nums)), Seq::empty(), op)
        } else {
            (prev.0, nums, op)
        }
    }
}

/// How many of the first `c` columns hold digits above the operator row.
pub open spec fn digit_columns(ls: Seq<Seq<char>>, c: int) -> nat
    decreases c,
{
    if c <= 0 {
        0
    } else {
        digit_columns(ls, c - 1) + if trim(column(ls, c - 1)).len() > 0 {
            1nat
        } else {
            0nat
        }
    }
}

/// How many of the first `c` columns end a task: the blank ones, and the last.
pub open spec fn ending_columns(ls: Seq<Seq<char>>, c: int) -> nat
    decreases c,
{
    if c <= 0 {
        0
    } else {
        ending_columns(ls, c - 1) + if trim(column(ls, c - 1)).len() == 0 || c - 1 == ls[0].len() - 1 {
            1nat
        } else {
            0nat
        }
    }
}

/// The number of numbers in the tasks `ts`.
pub open spec fn number_count(ts: Seq<(Op, Seq<u64>)>) -> nat
    decreases ts.len(),
{
    if ts.len() == 0 {
        0
    } else {
        number_count(ts.drop_last()) + ts.last().1.len()
    }
}

/// Reading column by column, every column with digits gives exactly one number
/// to exactly one task, and a task ends at each blank column and at the last
/// column: after `c` columns the finished tasks and the task under way hold one
/// number per digit column, and there is one finished task per ending column.
pub proof fn lemma_columns_give_numbers(ls: Seq<Seq<char>>, c: int)
    requires
        0 <= c,
    ensures
        number_count(scan_columns(ls, c).0) + scan_columns(ls, c).1.len() == digit_columns(ls, c),
        scan_columns(ls, c).0.len() == ending_columns(ls, c),
    decreases c,
{
    if c > 0 {
        lemma_columns_give_numbers(ls, c - 1);
        let prev = scan_columns(ls, c - 1);
        let cur = scan_columns(ls, c);
        if cur.0.len() > prev.0.len() {
            assert(cur.0.drop_last() =~= prev.0);
        }
    }
}

/// Read column by column, the tasks hold exactly one number per column that
/// has digits, and there is one task per blank column plus one for the last.
pub proof fn lemma_tasks2_count(text: Seq<char>)
    ensures
        number_count(tasks2_of(text)) == digit_columns(text_lines(text), text_lines(text)[0].len() as int),
        tasks2_of(text).len() == ending_columns(text_lines(text), text_lines(text)[0].len() as int),
{
    let ls = text_lines(text);
    let w = ls[0].len() as int;
    lemma_columns_give_numbers(ls, w);
    if w > 0 {
        assert(scan_columns(ls, w).1.len() == 0);
    }
}

/// The tasks read column by column.
pub open spec fn tasks2_of(text: Seq<char>) -> Seq<(Op, Seq<u64>)> {
    let ls = text_lines(text);
    scan_columns(ls, ls[0].len() as int).0
}

/// The lines can be read column by column: they form a grid of single-byte
/// characters whose sides fit in an `i32`, an operator stands in the bottom-left
/// corner, and each column's digits above the operator row, trimmed, parse as a
/// `u64` where there are any.
pub open spec fn columns_ok(ls: Seq<Seq<char>>) -> bool {
    &&& lines_fit(ls)
    &&& utf8_len(ls[0]) > 0
    &&& !has_mismatched_line(ls)
    &&& forall|i: int| 0 <= i < ls.len() ==> (#[trigger] ls[i]).len() == utf8_len(ls[i])
    &&& ls.len() <= i32::MAX
    &&& utf8_len(ls[0]) <= i32::MAX
    &&& op_of_char(ls[ls.len() - 1][0]) is Some
    &&& forall|c: int|
        0 <= c < ls[0].len() ==> trim(#[trigger] column(ls, c)).len() > 0 ==> parses_unsigned_within(
            trim(column(ls, c)),
            u64::MAX as int,
        )
}

/// The text can be read column by column.
pub open spec fn part2_ok(text: Seq<char>) -> bool {
    columns_ok(text_lines(text))
}

/// Flattening lines of one length `w` puts line `r`, column `c` at `r * w + c`.
proof fn lemma_flatten_uniform(ls: Seq<Seq<char>>, w: int)
    requires
        w >= 0,
        forall|i: int| 0 <= i < ls.len() ==> (#[trigger] ls[i]).len() == w,
    ensures
        ls.flatten().len() == ls.len() * w,
        forall|r: int, c: int|
            0 <= r < ls.len() && 0 <= c < w ==> ls.flatten()[r * w + c] == #[trigger] ls[r][c],
    decreases ls.len(),
{
    if ls.len() > 0 {
        let rest = ls.drop_first();
        lemma_flatten_uniform(rest, w);
        assert(ls.flatten() == ls[0] + rest.flatten());
        assert(ls.len() * w == w + rest.len() * w) by (nonlinear_arith)
            requires
                rest.len() == ls.len() - 1,
        ;
        assert forall|r: int, c: int| 0 <= r < ls.len() && 0 <= c < w implies ls.flatten()[r * w
            + c] == #[trigger] ls[r][c] by {
            if r > 0 {
                assert(r * w + c == w + ((r - 1) * w + c)) by (nonlinear_arith);
                assert(0 <= (r - 1) * w + c < rest.len() * w) by (nonlinear_arith)
                    requires
                        0 <= r - 1 < rest.len(),
                        0 <= c < w,
                ;
                assert(rest[r - 1] == ls[r]);
            } else {
                assert(r * w + c == c) by (nonlinear_arith)
                    requires
                        r == 0,
                ;
            }
        }
    }
}

/// Parse the text following "cephalopod math" rules.
pub fn tasks_from_text_part2(text: &str) -> (r: Vec<Task>)
    requires
        part2_ok(text@),
    ensures
        task_views(r@) == tasks2_of(text@),
{
    let ghost ls = text_lines(text@);
    let grid = match Grid::new_char(text) {
        Ok(g) => g,
        Err(_) => {
            return Vec::new();
        },
    };
    let ghost w = ls[0].len() as int;
    proof {
        crate::text::lemma_split_nonempty(crate::text::trim_char(text@, '\n'), '\n');
        assert forall|i: int| 0 <= i < ls.len() implies (#[trigger] ls[i]).len() == w by {
            if i > 0 {
                assert(!(utf8_len(ls[i]) != utf8_len(ls[0])));
            }
        }
        lemma_flatten_uniform(ls, w);
        grid.lemma_full_grid_wf();
    }
    let height = grid.height();
    let width = grid.width();
    assert(grid.spec_height() == ls.len());
    assert(grid.spec_width() == utf8_len(ls[0]));
    assert(ls[0].len() == utf8_len(ls[0]));
    assert(height == ls.len());
    assert(width == w);
    let op_row = height - 1;
    let mut op = match grid.at(op_row, 0) {
        Ok(c) => match c.maybe_op() {
            Some(o) => o,
            None => Op::Add,
        },
        Err(_) => Op::Add,
    };
    assert(ls.flatten()[(ls.len() - 1) * w + 0] == ls[ls.len() - 1][0]);
    let mut nums: Vec<u64> = Vec::new();
    let mut out: Vec<Task> = Vec::new();
    let mut col: i32 = 0;
    while col < width
        invariant
            0 <= col <= width,
            ls.len() >= 1,
            w == ls[0].len(),
            width == w,
            height == ls.len(),
            op_row == height - 1,
            ls == text_lines(text@),
            columns_ok(ls),
            grid.wf(),
            grid.spec_width() == w,
            grid.spec_height() == ls.len(),
            grid.spec_elems() == ls.flatten(),
            forall|r: int, c: int|
                0 <= r < ls.len() && 0 <= c < w ==> ls.flatten()[r * w + c] == #[trigger] ls[r][c],
            task_views(out@) == scan_columns(ls, col as int).0,
            nums@ == scan_columns(ls, col as int).1,
            op == scan_columns(ls, col as int).2,
        decreases width - col,
    {
        let ghost prev = scan_columns(ls, col as int);
        // check the op first in case we're starting a new one
        let bottom = match grid.at(op_row, col) {
            Ok(c) => *c,
            Err(_) => ' ',
        };
        assert(bottom == ls[ls.len() - 1][col as int]);
        if let Some(o) = bottom.maybe_op() {
            op = o;
        }
        // now collect any digits present in this col
        let mut digits: Vec<char> = Vec::new();
        let mut row: i32 = 0;
        while row < op_row
            invariant
                0 <= row <= op_row,
                0 <= col < width,
                ls.len() >= 1,
                w == ls[0].len(),
                columns_ok(ls),
                width == w,
                op_row == ls.len() - 1,
                grid.wf(),
                grid.spec_width() == w,
                grid.spec_height() == ls.len(),
                grid.spec_elems() == ls.flatten(),
                forall|r: int, c: int|
                    0 <= r < ls.len() && 0 <= c < w ==> ls.flatten()[r * w + c]
                        == #[trigger] ls[r][c],
                digits@ == column(ls, col as int).take(row as int),
            decreases op_row - row,
        {
            let ch = match grid.at(row, col) {
                Ok(c) => *c,
                Err(_) => ' ',
            };
            assert(ch == ls[row as int][col as int]);
            digits.push(ch);
            assert(digits@ =~= column(ls, col as int).take(row + 1));
            row = row + 1;
        }
        assert(digits@ =~= column(ls, col as int));
        let (start, end) = trim_bounds(digits.as_slice());
        let ghost d = trim(column(ls, col as int));
        // if we got digits, add them to the nums for the current task
        if start < end {
            let piece = &digits.as_slice()[start..end];
            assert(piece@ == d);
            let v = match parse_u64(piece) {
                Some(v) => v,
                None => 0,
            };
            nums.push(v);
        }
        // if we're on an empty col or the last col, finalize the current task
        if start == end || col == width - 1 {
            let ghost before = out@;
            out.push(Task { nums, op });
            assert(task_views(out@) =~= task_views(before).push((op, nums@)));
            nums = Vec::new();
            assert(nums@ =~= Seq::<u64>::empty());
        }
        col = col + 1;
    }
    out
}

/// Returns the part1 result.
pub fn part1(text: &str) -> (r: u64)
    requires
        part1_ok(text@),
        tasks_fit(tasks_of(text@)),
    ensures
        r == total(tasks_of(text@)),
{
    let tasks = tasks_from_text(text);
    sum_results(&tasks)
}

/// Returns the part2 result.
pub fn part2(text: &str) -> (r: u64)
    requires
        part2_ok(text@),
        tasks_fit(tasks2_of(text@)),
    ensures
        r == total(tasks2_of(text@)),
{
    let tasks = tasks_from_text_part2(text);
    sum_results(&tasks)
}

} // verus!
