//! A 2D grid read from text, one entry per character.

use vstd::prelude::*;

use crate::text::{
    chars_of, signed_decimal, decimal, split, split_range, trim_char, trim_char_bounds,
    utf8_byte_len, utf8_len, views, string_from_chars,
};

verus! {

/// A 2D grid of char, u8, or whatever.
#[derive(Debug)]
pub struct Grid<T> where T: Copy {
    width: usize,
    height: usize,
    elems: Vec<T>,
}

/// A position outside the grid was asked for.
#[derive(Debug, Clone)]
pub struct BoundsError(pub String);

/// The text does not describe a grid.
#[derive(Debug, Clone)]
pub struct ParseError(pub String);

/// The lines of a grid's text: `text.trim_matches('\n').split('\n')`.
pub open spec fn text_lines(text: Seq<char>) -> Seq<Seq<char>> {
    split(trim_char(text, '\n'), '\n')
}

/// Every line's encoding fits in memory (true of any text that exists).
pub open spec fn lines_fit(ls: Seq<Seq<char>>) -> bool {
    forall|i: int| 0 <= i < ls.len() ==> utf8_len(#[trigger] ls[i]) <= usize::MAX
}

/// The first line in `ls[1..]` whose byte length differs from the first line's, if any.
pub open spec fn has_mismatched_line(ls: Seq<Seq<char>>) -> bool {
    exists|i: int| 1 <= i < ls.len() && utf8_len(#[trigger] ls[i]) != utf8_len(ls[0])
}

/// The text that `BoundsError` carries for (row, col) on a `height` x `width` grid.
pub open spec fn bounds_message(row: i32, col: i32, height: usize, width: usize) -> Seq<char> {
    seq!['('] + signed_decimal(row as int) + seq![',', ' '] + signed_decimal(col as int)
        + " is not in bounds for "@ + decimal(height as nat) + seq!['x'] + decimal(width as nat)
        + " grid"@
}

/// Formats the message of a `BoundsError`.
#[verifier::external_body]
fn format_bounds_message(row: i32, col: i32, height: usize, width: usize) -> (r: String)
    ensures
        r@ == bounds_message(row, col, height, width),
{
    format!("({row}, {col}) is not in bounds for {}x{} grid", height, width)
}

/// `n` spaces.
pub open spec fn spaces(n: nat) -> Seq<char> {
    Seq::new(n, |i: int| ' ')
}

/// `t` in a field of at least `width` characters, filled with spaces on the
/// left (`right`) or on the right, as `format!("{:width$}", ..)` lays it out.
pub open spec fn pad_field(t: Seq<char>, width: nat, right: bool) -> Seq<char> {
    if t.len() >= width {
        t
    } else if right {
        spaces((width - t.len()) as nat) + t
    } else {
        t + spaces((width - t.len()) as nat)
    }
}

/// Each entry's text in a field of `width` characters.
pub open spec fn entry_pieces<T: Entry>(elems: Seq<T>, width: nat) -> Seq<Seq<char>> {
    elems.map_values(|e: T| pad_field(e.text(), width, e.right_aligned()))
}

/// An entry the grid can write in a padded field.
pub trait Entry: Copy {
    /// The entry's text, as its `Display` impl writes it.
    spec fn text(&self) -> Seq<char>;

    /// Whether a wider field puts the spaces before the text (numbers) or
    /// after it (characters).
    spec fn right_aligned(&self) -> bool;

    /// The entry in a field of `width` characters.
    fn padded(&self, width: usize) -> (r: String)
        ensures
            r@ == pad_field(self.text(), width as nat, self.right_aligned()),
    ;
}

/// `t` in a field of at least `width` characters.
fn pad_chars(t: &Vec<char>, width: usize, right: bool) -> (r: String)
    ensures
        r@ == pad_field(t@, width as nat, right),
{
    let n = t.len();
    let mut out: Vec<char> = Vec::new();
    if !right {
        for i in 0..n
            invariant
                n == t@.len(),
                out@ == t@.take(i as int),
        {
            out.push(t[i]);
            assert(out@ =~= t@.take(i + 1));
        }
        assert(t@.take(n as int) =~= t@);
    }
    let ghost base = out@;
    if n < width {
        for k in 0..width - n
            invariant
                out@ == base + spaces(k as nat),
        {
            out.push(' ');
            assert(out@ =~= base + spaces((k + 1) as nat));
        }
    }
    let ghost mid = out@;
    if right {
        for i in 0..n
            invariant
                n == t@.len(),
                out@ == mid + t@.take(i as int),
        {
            out.push(t[i]);
            assert(out@ =~= mid + t@.take(i + 1));
        }
        assert(t@.take(n as int) =~= t@);
    }
    proof {
        if n >= width {
            assert(out@ =~= t@);
        } else if right {
            assert(out@ =~= spaces((width - n) as nat) + t@);
        } else {
            assert(out@ =~= t@ + spaces((width - n) as nat));
        }
    }
    string_from_chars(&out)
}

impl Entry for u8 {
    open spec fn text(&self) -> Seq<char> {
        decimal(*self as nat)
    }

    open spec fn right_aligned(&self) -> bool {
        true
    }

    fn padded(&self, width: usize) -> (r: String) {
        let digits = crate::text::decimal_digits(*self as u64);
        pad_chars(&digits, width, true)
    }
}

impl Entry for char {
    open spec fn text(&self) -> Seq<char> {
        seq![*self]
    }

    open spec fn right_aligned(&self) -> bool {
        false
    }

    fn padded(&self, width: usize) -> (r: String) {
        let mut one: Vec<char> = Vec::new();
        one.push(*self);
        assert(one@ =~= seq![*self]);
        pad_chars(&one, width, false)
    }
}



impl<T> Clone for Grid<T> where T: Copy {
    fn clone(&self) -> (r: Self)
        ensures
            r.spec_width() == self.spec_width(),
            r.spec_height() == self.spec_height(),
            r.spec_elems() == self.spec_elems(),
    {
        let mut elems: Vec<T> = Vec::new();
        for i in 0..self.elems.len()
            invariant
                elems@ == self.elems@.take(i as int),
        {
            elems.push(self.elems[i]);
            assert(elems@ =~= self.elems@.take(i + 1));
        }
        assert(elems@ =~= self.elems@);
        Grid { width: self.width, height: self.height, elems }
    }
}

impl<T> Grid<T> where T: Copy {
    /// The entries fit in memory.
    pub proof fn lemma_elems_len(&self)
        ensures
            self.spec_elems().len() <= usize::MAX,
    {
        assert(self.elems.len() == self.elems@.len());
    }

    /// A grid holding exactly one entry per position is well formed.
    pub proof fn lemma_full_grid_wf(&self)
        requires
            self.spec_elems().len() == self.spec_width() * self.spec_height(),
        ensures
            self.wf(),
    {
        self.lemma_elems_len();
        assert forall|row: int, col: int| self.spec_inbounds(row, col) implies #[trigger] self.spec_index(
            row,
            col,
        ) < self.spec_elems().len() by {
            lemma_index_bounds(self.spec_width() as int, self.spec_height() as int, row, col);
        }
    }
}

/// `n` newline characters.
pub open spec fn newlines(n: nat) -> Seq<char> {
    Seq::new(n, |i: int| '\n')
}

/// Row `row` of a text made of `width` pieces per row, followed by `nl` newlines.
pub open spec fn padded_row(pieces: Seq<Seq<char>>, width: nat, nl: nat, row: int) -> Seq<char> {
    pieces.subrange(row * width, row * width + width).flatten() + newlines(nl)
}

/// `height` rows of `width` pieces each, every row followed by `nl` newlines.
pub open spec fn padded_text(pieces: Seq<Seq<char>>, width: nat, height: nat, nl: nat) -> Seq<char> {
    Seq::new(height, |row: int| padded_row(pieces, width, nl, row)).flatten()
}

impl<T> Grid<T> where T: Copy {
    pub closed spec fn spec_width(&self) -> nat {
        self.width as nat
    }

    pub closed spec fn spec_height(&self) -> nat {
        self.height as nat
    }

    pub closed spec fn spec_elems(&self) -> Seq<T> {
        self.elems@
    }

    /// True when (row, col) is inside the grid.
    pub open spec fn spec_inbounds(&self, row: int, col: int) -> bool {
        0 <= row < self.spec_height() && 0 <= col < self.spec_width()
    }

    /// Row-major index of (row, col).
    pub open spec fn spec_index(&self, row: int, col: int) -> int {
        row * self.spec_width() + col
    }

    /// The cell count fits in a `usize`, and each in-bounds position names a stored entry.
    pub open spec fn wf(&self) -> bool {
        &&& self.spec_width() * self.spec_height() <= usize::MAX
        &&& forall|row: int, col: int|
            self.spec_inbounds(row, col) ==> #[trigger] self.spec_index(row, col)
                < self.spec_elems().len()
    }
}

/// A value written at one position is read back there, and every other
/// position keeps its value.
pub proof fn lemma_write_then_read<T: Copy>(g: Grid<T>, after: Grid<T>, row: int, col: int, v: T)
    requires
        g.wf(),
        g.spec_inbounds(row, col),
        after.spec_width() == g.spec_width(),
        after.spec_height() == g.spec_height(),
        after.spec_elems() == g.spec_elems().update(g.spec_index(row, col), v),
    ensures
        after.wf(),
        after.spec_elems()[after.spec_index(row, col)] == v,
        forall|r: int, c: int|
            g.spec_inbounds(r, c) && (r != row || c != col) ==> after.spec_elems()[#[trigger] after.spec_index(r, c)]
                == g.spec_elems()[g.spec_index(r, c)],
{
    let w = g.spec_width() as int;
    assert(g.spec_index(row, col) < g.spec_elems().len());
    assert forall|r: int, c: int| after.spec_inbounds(r, c) implies #[trigger] after.spec_index(r, c)
        < after.spec_elems().len() by {
        assert(g.spec_index(r, c) < g.spec_elems().len());
    }
    assert forall|r: int, c: int|
        g.spec_inbounds(r, c) && (r != row || c != col) implies after.spec_elems()[#[trigger] after.spec_index(r, c)]
            == g.spec_elems()[g.spec_index(r, c)] by {
        assert(g.spec_index(r, c) < g.spec_elems().len());
        if r < row {
            assert(r * w + w <= row * w) by (nonlinear_arith)
                requires
                    r + 1 <= row,
                    0 <= w,
            ;
        } else if row < r {
            assert(row * w + w <= r * w) by (nonlinear_arith)
                requires
                    row + 1 <= r,
                    0 <= w,
            ;
        }
    }
}

/// Every character of every line is ASCII.
pub open spec fn ascii_lines(ls: Seq<Seq<char>>) -> bool {
    forall|i: int, k: int| 0 <= i < ls.len() && 0 <= k < ls[i].len() ==> (#[trigger] ls[i][k] as u32) < 0x80
}

/// An ASCII line takes one byte per character.
proof fn lemma_ascii_len(l: Seq<char>)
    requires
        forall|k: int| 0 <= k < l.len() ==> (#[trigger] l[k] as u32) < 0x80,
    ensures
        utf8_len(l) == l.len(),
    decreases l.len(),
{
    if l.len() > 0 {
        lemma_ascii_len(l.drop_last());
    }
}

/// ASCII lines of one length hold `lines * length` characters.
proof fn lemma_ascii_flatten_len(ls: Seq<Seq<char>>, n: nat)
    requires
        ascii_lines(ls),
        forall|i: int| 0 <= i < ls.len() ==> utf8_len(#[trigger] ls[i]) == n,
    ensures
        ls.flatten().len() == ls.len() * n,
    decreases ls.len(),
{
    if ls.len() == 0 {
        assert(ls.flatten() =~= Seq::<char>::empty());
    } else {
        let t = ls.drop_last();
        assert forall|i: int, k: int| 0 <= i < t.len() && 0 <= k < t[i].len() implies (#[trigger] t[i][k] as u32)
            < 0x80 by {
            assert(t[i] == ls[i]);
        }
        assert forall|i: int| 0 <= i < t.len() implies utf8_len(#[trigger] t[i]) == n by {
            assert(t[i] == ls[i]);
        }
        lemma_ascii_flatten_len(t, n);
        assert(ls =~= t.push(ls.last()));
        t.lemma_flatten_push(ls.last());
        let l = ls.last();
        assert forall|k: int| 0 <= k < l.len() implies (#[trigger] l[k] as u32) < 0x80 by {
            assert(ls[ls.len() - 1][k] == l[k]);
        }
        lemma_ascii_len(l);
        assert(utf8_len(ls[ls.len() - 1]) == n);
        assert(l.len() == n);
        assert(ls.flatten() == t.flatten() + l);
        assert(t.len() * n + n == ls.len() * n) by (nonlinear_arith)
            requires
                t.len() + 1 == ls.len(),
        ;
    }
}

/// A grid read from ASCII text is full: it holds `width * height` entries, so
/// `capacity()` is the number of entries. Writes through `at_mut` keep this,
/// as they keep the width, the height and the number of entries.
pub proof fn lemma_ascii_grid_full<T: Copy>(g: Grid<T>, text: Seq<char>)
    requires
        ascii_lines(text_lines(text)),
        !has_mismatched_line(text_lines(text)),
        g.spec_width() == utf8_len(text_lines(text)[0]),
        g.spec_height() == text_lines(text).len(),
        g.spec_elems().len() == text_lines(text).flatten().len(),
    ensures
        g.spec_elems().len() == g.spec_width() * g.spec_height(),
{
    let ls = text_lines(text);
    let n = utf8_len(ls[0]);
    assert forall|i: int| 0 <= i < ls.len() implies utf8_len(#[trigger] ls[i]) == n by {
        if i >= 1 {
            assert(!(utf8_len(ls[i]) != utf8_len(ls[0])));
        }
    }
    lemma_ascii_flatten_len(ls, n);
    assert(ls.len() * n == n * ls.len()) by (nonlinear_arith);
}

/// In lines of one length `n`, character `c` of line `r` sits at `r * n + c`
/// of their concatenation.
proof fn lemma_flatten_index(ls: Seq<Seq<char>>, n: int, r: int, c: int)
    requires
        forall|i: int| 0 <= i < ls.len() ==> (#[trigger] ls[i]).len() == n,
        0 <= r < ls.len(),
        0 <= c < n,
    ensures
        r * n + c < ls.flatten().len(),
        ls.flatten()[r * n + c] == ls[r][c],
    decreases ls.len(),
{
    let t = ls.drop_last();
    assert(ls =~= t.push(ls.last()));
    t.lemma_flatten_push(ls.last());
    lemma_lines_flatten_len(t, n);
    assert(ls[ls.len() - 1].len() == n);
    if r < ls.len() - 1 {
        assert(forall|i: int| 0 <= i < t.len() ==> (#[trigger] t[i]) == ls[i]);
        lemma_flatten_index(t, n, r, c);
        assert(r * n + c < t.len() * n) by (nonlinear_arith)
            requires
                r + 1 <= t.len(),
                0 <= c < n,
        ;
    } else {
        assert(r * n == t.len() * n);
    }
}

/// Lines of one length `n` hold `lines * n` characters.
proof fn lemma_lines_flatten_len(ls: Seq<Seq<char>>, n: int)
    requires
        forall|i: int| 0 <= i < ls.len() ==> (#[trigger] ls[i]).len() == n,
    ensures
        ls.flatten().len() == ls.len() * n,
    decreases ls.len(),
{
    if ls.len() == 0 {
        assert(ls.flatten() =~= Seq::<char>::empty());
    } else {
        let t = ls.drop_last();
        assert(ls =~= t.push(ls.last()));
        t.lemma_flatten_push(ls.last());
        assert(forall|i: int| 0 <= i < t.len() ==> (#[trigger] t[i]) == ls[i]);
        lemma_lines_flatten_len(t, n);
        assert(ls[ls.len() - 1].len() == n);
        assert(t.len() * n + n == ls.len() * n) by (nonlinear_arith)
            requires
                t.len() + 1 == ls.len(),
        ;
    }
}

/// One-character pieces join to their characters.
proof fn lemma_flatten_singletons(q: Seq<Seq<char>>)
    requires
        forall|i: int| 0 <= i < q.len() ==> (#[trigger] q[i]).len() == 1,
    ensures
        q.flatten() == Seq::new(q.len(), |i: int| q[i][0]),
    decreases q.len(),
{
    if q.len() == 0 {
        assert(q.flatten() =~= Seq::new(q.len(), |i: int| q[i][0]));
    } else {
        let t = q.drop_last();
        assert(q =~= t.push(q.last()));
        t.lemma_flatten_push(q.last());
        assert(forall|i: int| 0 <= i < t.len() ==> (#[trigger] t[i]) == q[i]);
        lemma_flatten_singletons(t);
        assert(q[q.len() - 1].len() == 1);
        assert(q.flatten() =~= Seq::new(q.len(), |i: int| q[i][0]));
    }
}

/// A character grid read from ASCII text writes back, one character per entry,
/// as the text's lines, each followed by a newline.
pub proof fn lemma_dense_round_trip(g: Grid<char>, text: Seq<char>)
    requires
        ascii_lines(text_lines(text)),
        !has_mismatched_line(text_lines(text)),
        g.spec_width() == utf8_len(text_lines(text)[0]),
        g.spec_height() == text_lines(text).len(),
        g.spec_elems() == text_lines(text).flatten(),
    ensures
        padded_text(
            entry_pieces(g.spec_elems(), 1).take((g.spec_width() * g.spec_height()) as int),
            g.spec_width(),
            g.spec_height(),
            1,
        ) == Seq::new(text_lines(text).len(), |r: int| text_lines(text)[r] + newlines(1)).flatten(),
{
    let ls = text_lines(text);
    let n = g.spec_width() as int;
    let h = g.spec_height() as int;
    assert forall|i: int| 0 <= i < ls.len() implies (#[trigger] ls[i]).len() == n by {
        if i >= 1 {
            assert(!(utf8_len(ls[i]) != utf8_len(ls[0])));
        }
        assert forall|k: int| 0 <= k < ls[i].len() implies (#[trigger] ls[i][k] as u32) < 0x80 by {
        }
        lemma_ascii_len(ls[i]);
    }
    lemma_lines_flatten_len(ls, n);
    let e = g.spec_elems();
    assert(n * h == h * n) by (nonlinear_arith);
    let p = entry_pieces(e, 1).take(n * h);
    let rows = Seq::new(h as nat, |r: int| padded_row(p, n as nat, 1, r));
    let want = Seq::new(ls.len(), |r: int| ls[r] + newlines(1));
    assert forall|r: int| 0 <= r < h implies #[trigger] rows[r] == want[r] by {
        let q = p.subrange(r * n, r * n + n);
        assert(r * n + n <= h * n) by (nonlinear_arith)
            requires
                r + 1 <= h,
                0 <= n,
        ;
        assert(0 <= r * n) by (nonlinear_arith)
            requires
                0 <= r,
                0 <= n,
        ;
        assert forall|c: int| 0 <= c < q.len() implies (#[trigger] q[c]) == seq![ls[r][c]] by {
            lemma_flatten_index(ls, n, r, c);
            assert(q[c] == p[r * n + c]);
            assert(p[r * n + c] == pad_field(seq![e[r * n + c]], 1, false));
        }
        lemma_flatten_singletons(q);
        assert(q.flatten() =~= ls[r]);
    }
    assert(rows =~= want);
}

proof fn lemma_index_bounds(width: int, height: int, row: int, col: int)
    requires
        0 <= row < height,
        0 <= col < width,
    ensures
        0 <= row * width + col < width * height,
{
    assert((row + 1) * width <= height * width) by (nonlinear_arith)
        requires
            row + 1 <= height,
            0 <= width,
    ;
    assert(0 <= row * width) by (nonlinear_arith)
        requires
            0 <= row,
            0 <= width,
    ;
    assert(width * height == height * width) by (nonlinear_arith);
    assert((row + 1) * width == row * width + width) by (nonlinear_arith);
}

/// The flattening of the first `j` pieces is a prefix of the whole flattening.
proof fn lemma_flatten_prefix(ls: Seq<Seq<char>>, j: int)
    requires
        0 <= j <= ls.len(),
    ensures
        ls.take(j).flatten().len() <= ls.flatten().len(),
        forall|k: int|
            0 <= k < ls.take(j).flatten().len() ==> ls.flatten()[k] == #[trigger] ls.take(j).flatten()[k],
{
    assert(ls =~= ls.take(j) + ls.skip(j));
    vstd::seq_lib::lemma_flatten_concat(ls.take(j), ls.skip(j));
}

impl<T> Grid<T> where T: Copy + core::fmt::Display {
    /// Creates a `Grid` from a text representation, mapping each character through `f`.
    pub fn from_text<F: Fn(char) -> T>(text: &str, f: F) -> (r: Result<Self, ParseError>)
        requires
            lines_fit(text_lines(text@)),
            forall|c: char| text_lines(text@).flatten().contains(c) ==> call_requires(f, (c,)),
        ensures
            ({
                let ls = text_lines(text@);
                match r {
                    Ok(g) => {
                        &&& utf8_len(ls[0]) > 0
                        &&& !has_mismatched_line(ls)
                        &&& g.spec_width() == utf8_len(ls[0])
                        &&& g.spec_height() == ls.len()
                        &&& g.spec_elems().len() == ls.flatten().len()
                        &&& forall|k: int|
                            0 <= k < ls.flatten().len() ==> call_ensures(
                                f,
                                (ls.flatten()[k],),
                                #[trigger] g.spec_elems()[k],
                            )
                    },
                    Err(e) => {
                        ||| utf8_len(ls[0]) == 0 && e.0@ == "found zero columns in input"@
                        ||| utf8_len(ls[0]) > 0 && has_mismatched_line(ls) && e.0@
                            == "found mismatched line lengths in input"@
                    },
                }
            }),
    {
        let chars = chars_of(text);
        let (start, end) = trim_char_bounds(chars.as_slice(), '\n');
        let lines = split_range(chars.as_slice(), start, end, '\n');
        let ghost ls = text_lines(text@);
        assert(views(lines@) == ls);
        proof {
            crate::text::lemma_split_nonempty(trim_char(text@, '\n'), '\n');
        }
        let height = lines.len();
        if height == 0 {
            return Err(ParseError("found zero lines in input".to_string()));
        }
        assert(lines@[0]@ == ls[0]);
        let width = utf8_byte_len(lines[0].as_slice());
        if width == 0 {
            return Err(ParseError("found zero columns in input".to_string()));
        }
        let mut li: usize = 1;
        while li < height
            invariant
                1 <= li <= height,
                height == lines@.len(),
                views(lines@) == ls,
                ls == text_lines(text@),
                lines_fit(ls),
                width == utf8_len(ls[0]),
                width > 0,
                forall|i: int| 1 <= i < li ==> utf8_len(#[trigger] ls[i]) == utf8_len(ls[0]),
            decreases height - li,
        {
            assert(lines@[li as int]@ == ls[li as int]);
            if utf8_byte_len(lines[li].as_slice()) != width {
                assert(utf8_len(ls[li as int]) != utf8_len(ls[0]));
                assert(has_mismatched_line(ls));
                let msg = "found mismatched line lengths in input".to_string();
                assert(msg@ == "found mismatched line lengths in input"@);
                return Err(ParseError(msg));
            }
            li = li + 1;
        }
        let mut elems: Vec<T> = Vec::new();
        let ghost flat = ls.flatten();
        for row in 0..height
            invariant
                height == lines@.len(),
                views(lines@) == ls,
                flat == ls.flatten(),
                forall|c: char| flat.contains(c) ==> call_requires(f, (c,)),
                elems@.len() == ls.take(row as int).flatten().len(),
                forall|k: int|
                    0 <= k < elems@.len() ==> call_ensures(
                        f,
                        (ls.take(row as int).flatten()[k],),
                        #[trigger] elems@[k],
                    ),
        {
            let line = &lines[row];
            assert(line@ == ls[row as int]);
            let ghost prefix = ls.take(row as int).flatten();
            let ghost done = elems@.len();
            for ci in 0..line.len()
                invariant
                    height == lines@.len(),
                    row < height,
                    views(lines@) == ls,
                    flat == ls.flatten(),
                    line@ == ls[row as int],
                    forall|c: char| flat.contains(c) ==> call_requires(f, (c,)),
                    prefix == ls.take(row as int).flatten(),
                    done == prefix.len(),
                    elems@.len() == done + ci,
                    forall|k: int|
                        0 <= k < done ==> call_ensures(f, (prefix[k],), #[trigger] elems@[k]),
                    forall|k: int|
                        0 <= k < ci ==> call_ensures(f, (line@[k],), #[trigger] elems@[done + k]),
            {
                let c = line[ci];
                proof {
                    assert(ls.take(row + 1).flatten() == prefix + ls[row as int]) by {
                        ls.take(row as int).lemma_flatten_push(ls[row as int]);
                        assert(ls.take(row as int).push(ls[row as int]) =~= ls.take(row + 1));
                    }
                    lemma_flatten_prefix(ls, row + 1);
                    assert((prefix + ls[row as int])[done + ci] == c);
                    assert(flat[done + ci] == c);
                    assert(flat.contains(c));
                }
                let v = f(c);
                elems.push(v);
            }
            proof {
                ls.take(row as int).lemma_flatten_push(ls[row as int]);
                assert(ls.take(row as int).push(ls[row as int]) =~= ls.take(row + 1));
                let next = ls.take(row + 1).flatten();
                assert(next == prefix + line@);
                assert forall|k: int| 0 <= k < elems@.len() implies call_ensures(
                    f,
                    (next[k],),
                    #[trigger] elems@[k],
                ) by {
                    if k < done {
                        assert(next[k] == prefix[k]);
                    } else {
                        assert(next[k] == line@[k - done]);
                        assert(elems@[done + (k - done)] == elems@[k]);
                    }
                }
            }
        }
        assert(ls.take(height as int) =~= ls);
        let g = Self { width, height, elems };
        Ok(g)
    }


    /// Creates a String representation of the grid with horizontal and vertical padding:
    /// each entry is written in a field of `w + 1` characters, and each row is followed
    /// by `h + 1` newlines.
    pub fn as_padded_string(&self, w: usize, h: usize) -> (r: String) where T: Entry
        requires
            self.wf(),
            w < usize::MAX,
            h < usize::MAX,
            self.spec_height() <= i32::MAX,
            self.spec_width() <= i32::MAX,
        ensures
            r@ == padded_text(
                entry_pieces(self.spec_elems(), (w + 1) as nat).take(
                    (self.spec_width() * self.spec_height()) as int,
                ),
                self.spec_width(),
                self.spec_height(),
                (h + 1) as nat,
            ),
    {
        let w = w + 1;
        let h = h + 1;
        let ghost wn = w as nat;
        let mut out: Vec<char> = Vec::new();
        let ghost width = self.spec_width();
        let ghost nl = h as nat;
        let ghost mut pieces: Seq<Seq<char>> = Seq::empty();
        let ghost mut rows: Seq<Seq<char>> = Seq::empty();
        let height = self.height as i32;
        let wid = self.width as i32;
        assert(0 * width == 0);
        for row in 0..height
            invariant
                self.wf(),
                height == self.spec_height(),
                wid == self.spec_width(),
                width == self.spec_width(),
                nl == h,
                w as nat == wn,
                pieces.len() == row * width,
                pieces.len() <= self.spec_elems().len(),
                forall|k: int| 0 <= k < pieces.len() ==> #[trigger] pieces[k] == entry_pieces(self.spec_elems(), wn)[k],
                rows.len() == row,
                forall|i: int| 0 <= i < row ==> #[trigger] rows[i] == padded_row(pieces, width, nl, i),
                out@ == rows.flatten(),
        {
            let ghost row_start = out@.len();
            let ghost prefix = pieces;
            for col in 0..wid
                invariant
                    self.wf(),
                    height == self.spec_height(),
                    wid == self.spec_width(),
                    width == self.spec_width(),
                    0 <= row < height,
                    w as nat == wn,
                    pieces.len() == row * width + col,
                    pieces.len() <= self.spec_elems().len(),
                    forall|k: int| 0 <= k < pieces.len() ==> #[trigger] pieces[k] == entry_pieces(self.spec_elems(), wn)[k],
                    prefix.len() == row * width,
                    pieces.subrange(0, row * width) == prefix,
                    out@ == rows.flatten() + pieces.subrange(row * width, row * width + col).flatten(),
            {
                let v = self.at(row, col);
                proof {
                    assert(self.spec_inbounds(row as int, col as int));
                    assert(self.spec_index(row as int, col as int) < self.spec_elems().len());
                    assert(self.spec_index(row as int, col as int) == pieces.len());
                }
                let piece = v.unwrap().padded(w);
                let mut chars = chars_of(piece.as_str());
                let ghost before = pieces;
                out.append(&mut chars);
                proof {
                    pieces = pieces.push(piece@);
                    assert(pieces.subrange(0, row * width) =~= before.subrange(0, row * width));
                    let seg = pieces.subrange(row * width, row * width + col + 1);
                    assert(seg =~= before.subrange(row * width, row * width + col).push(piece@));
                    before.subrange(row * width, row * width + col).lemma_flatten_push(piece@);
                    assert(out@ =~= rows.flatten() + seg.flatten());
                }
            }
            let ghost body = out@;
            for _k in 0..h
                invariant
                    out@ == body + newlines(_k as nat),
            {
                out.push('\n');
                assert(out@ =~= body + newlines((_k + 1) as nat));
            }
            proof {
                assert((row + 1) * width == row * width + width) by (nonlinear_arith);
                let new_row = padded_row(pieces, width, nl, row as int);
                assert(pieces.subrange(row * width, row * width + width) == pieces.subrange(
                    row * width,
                    row * width + wid,
                ));
                assert(out@ =~= rows.flatten() + new_row);
                rows.lemma_flatten_push(new_row);
                let old_rows = rows;
                rows = rows.push(new_row);
                assert forall|i: int| 0 <= i < row + 1 implies #[trigger] rows[i] == padded_row(
                    pieces,
                    width,
                    nl,
                    i,
                ) by {
                    if i < row {
                        assert(i * width + width <= row * width) by (nonlinear_arith)
                            requires
                                i < row,
                                0 <= width,
                        ;
                        assert(0 <= i * width) by (nonlinear_arith)
                            requires
                                0 <= i,
                                0 <= width,
                        ;
                        assert(pieces.subrange(i * width, i * width + width) =~= prefix.subrange(
                            i * width,
                            i * width + width,
                        ));
                    }
                }
            }
        }
        proof {
            assert(rows =~= Seq::new(
                self.spec_height(),
                |row: int| padded_row(pieces, width, nl, row),
            ));
            assert(pieces.len() == width * self.spec_height()) by (nonlinear_arith)
                requires
                    pieces.len() == self.spec_height() * width,
            ;
            assert(pieces =~= entry_pieces(self.spec_elems(), wn).take((width * self.spec_height()) as int));
        }
        string_from_chars(&out)
    }

    /// String representation of the grid using one character per entry.
    pub fn as_dense_string(&self) -> (r: String) where T: Entry
        requires
            self.wf(),
            self.spec_height() <= i32::MAX,
            self.spec_width() <= i32::MAX,
        ensures
            r@ == padded_text(
                entry_pieces(self.spec_elems(), 1).take((self.spec_width() * self.spec_height()) as int),
                self.spec_width(),
                self.spec_height(),
                1,
            ),
    {
        self.as_padded_string(0, 0)
    }

    /// Ref to the value at some (row, col).
    pub fn at(&self, row: i32, col: i32) -> (r: Result<&T, BoundsError>)
        requires
            self.wf(),
        ensures
            match r {
                Ok(v) => self.spec_inbounds(row as int, col as int) && *v == self.spec_elems()[self.spec_index(
                    row as int,
                    col as int,
                )],
                Err(e) => !self.spec_inbounds(row as int, col as int) && e.0@ == bounds_message(
                    row,
                    col,
                    self.spec_height() as usize,
                    self.spec_width() as usize,
                ),
            },
    {
        let index = self.position_to_index(row, col)?;
        Ok(&self.elems[index])
    }

    /// Mutable ref to the value at some (row, col).
    pub fn at_mut(&mut self, row: i32, col: i32) -> (r: Result<&mut T, BoundsError>)
        requires
            old(self).wf(),
        ensures
            final(self).spec_width() == old(self).spec_width(),
            final(self).spec_height() == old(self).spec_height(),
            match r {
                Ok(v) => {
                    &&& old(self).spec_inbounds(row as int, col as int)
                    &&& *v == old(self).spec_elems()[old(self).spec_index(row as int, col as int)]
                    &&& final(self).spec_elems() == old(self).spec_elems().update(
                        old(self).spec_index(row as int, col as int),
                        *final(v),
                    )
                },
                Err(e) => {
                    &&& !old(self).spec_inbounds(row as int, col as int)
                    &&& e.0@ == bounds_message(
                        row,
                        col,
                        old(self).spec_height() as usize,
                        old(self).spec_width() as usize,
                    )
                    &&& final(self).spec_elems() == old(self).spec_elems()
                },
            },
    {
        let index = self.position_to_index(row, col)?;
        Ok(&mut self.elems[index])
    }

    /// Whether (row, col) are in bounds.
    pub fn is_inbounds(&self, row: i32, col: i32) -> (r: bool)
        ensures
            r == self.spec_inbounds(row as int, col as int),
    {
        0 <= row && (row as usize) < self.height && 0 <= col && (col as usize) < self.width
    }

    /// 1D index corresponding to a position (row, col).
    pub fn position_to_index(&self, row: i32, col: i32) -> (r: Result<usize, BoundsError>)
        requires
            self.wf(),
        ensures
            match r {
                Ok(i) => self.spec_inbounds(row as int, col as int) && i == self.spec_index(
                    row as int,
                    col as int,
                ),
                Err(e) => !self.spec_inbounds(row as int, col as int) && e.0@ == bounds_message(
                    row,
                    col,
                    self.spec_height() as usize,
                    self.spec_width() as usize,
                ),
            },
    {
        if !self.is_inbounds(row, col) {
            return Err(BoundsError(format_bounds_message(row, col, self.height, self.width)));
        }
        let row = row as usize;
        let col = col as usize;
        proof {
            lemma_index_bounds(self.width as int, self.height as int, row as int, col as int);
        }
        Ok(row * self.width + col)
    }

    /// Capacity of the grid (width x height).
    pub fn capacity(&self) -> (r: usize)
        requires
            self.wf(),
        ensures
            r == self.spec_width() * self.spec_height(),
    {
        self.width * self.height
    }

    /// Height of the grid.
    pub fn height(&self) -> (r: i32)
        ensures
            r == self.spec_height() as i32,
    {
        self.height as i32
    }

    /// Width of the grid.
    pub fn width(&self) -> (r: i32)
        ensures
            r == self.spec_width() as i32,
    {
        self.width as i32
    }

    /// Elements of the grid.
    pub fn elems(&self) -> (r: &Vec<T>)
        ensures
            r@ == self.spec_elems(),
    {
        &self.elems
    }
}

/// The identity map on characters.
fn same_char(c: char) -> (r: char)
    ensures
        r == c,
{
    c
}

/// The digit a character spells; only called on decimal digits.
fn char_digit(c: char) -> (r: u8)
    requires
        crate::text::is_digit(c),
    ensures
        r == crate::text::digit_value(c),
{
    (c as u32 - '0' as u32) as u8
}

impl Grid<char> {
    /// Creates a `Grid<char>` from a text representation.
    pub fn new_char(text: &str) -> (r: Result<Self, ParseError>)
        requires
            lines_fit(text_lines(text@)),
        ensures
            ({
                let ls = text_lines(text@);
                match r {
                    Ok(g) => {
                        &&& utf8_len(ls[0]) > 0
                        &&& !has_mismatched_line(ls)
                        &&& g.spec_width() == utf8_len(ls[0])
                        &&& g.spec_height() == ls.len()
                        &&& g.spec_elems() == ls.flatten()
                    },
                    Err(e) => {
                        ||| utf8_len(ls[0]) == 0 && e.0@ == "found zero columns in input"@
                        ||| utf8_len(ls[0]) > 0 && has_mismatched_line(ls) && e.0@
                            == "found mismatched line lengths in input"@
                    },
                }
            }),
    {
        let r = Self::from_text(text, same_char);
        proof {
            if r is Ok {
                assert(r->Ok_0.spec_elems() =~= text_lines(text@).flatten());
            }
        }
        r
    }
}

impl Grid<u8> {
    /// Creates a `Grid<u8>` from a text representation whose characters are all digits.
    pub fn new_u8(text: &str) -> (r: Result<Self, ParseError>)
        requires
            lines_fit(text_lines(text@)),
            forall|c: char| text_lines(text@).flatten().contains(c) ==> crate::text::is_digit(c),
        ensures
            ({
                let ls = text_lines(text@);
                match r {
                    Ok(g) => {
                        &&& utf8_len(ls[0]) > 0
                        &&& !has_mismatched_line(ls)
                        &&& g.spec_width() == utf8_len(ls[0])
                        &&& g.spec_height() == ls.len()
                        &&& g.spec_elems().len() == ls.flatten().len()
                        &&& forall|k: int|
                            0 <= k < ls.flatten().len() ==> #[trigger] g.spec_elems()[k]
                                == crate::text::digit_value(ls.flatten()[k])
                    },
                    Err(e) => {
                        ||| utf8_len(ls[0]) == 0 && e.0@ == "found zero columns in input"@
                        ||| utf8_len(ls[0]) > 0 && has_mismatched_line(ls) && e.0@
                            == "found mismatched line lengths in input"@
                    },
                }
            }),
    {
        Self::from_text(text, char_digit)
    }
}

} // verus!
