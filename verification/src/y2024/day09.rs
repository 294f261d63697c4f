//! A disk map: alternating file and free-space lengths, compacted block by
//! block or file by file, and a checksum of the result.

use core::ops::Range;

use vstd::prelude::*;

use crate::text::{chars_of, digit_value, is_digit, string_from_chars, trim, trim_bounds};

verus! {

/// Representation of a disk: each block holds a file id, or nothing.
#[derive(Debug)]
pub struct Disk(pub Vec<Option<u64>>);

/// `n` copies of `x`.
pub open spec fn repeat(x: Option<u64>, n: nat) -> Seq<Option<u64>> {
    Seq::new(n, |i: int| x)
}

/// The blocks the first `k` digits describe: digit `2f` is the length of file
/// `f`, digit `2f + 1` the free space after it.
pub open spec fn expand(ds: Seq<nat>, k: int) -> Seq<Option<u64>>
    decreases k,
{
    if k <= 0 {
        Seq::empty()
    } else {
        expand(ds, k - 1) + if (k - 1) % 2 == 0 {
            repeat(Some(((k - 1) / 2) as u64), ds[k - 1])
        } else {
            repeat(None, ds[k - 1])
        }
    }
}

/// Sum of the first `k` digits.
pub open spec fn digit_sum(ds: Seq<nat>, k: int) -> nat
    decreases k,
{
    if k <= 0 {
        0
    } else {
        digit_sum(ds, k - 1) + ds[k - 1]
    }
}

proof fn lemma_expand_len(ds: Seq<nat>, k: int)
    requires
        0 <= k <= ds.len(),
    ensures
        expand(ds, k).len() == digit_sum(ds, k),
    decreases k,
{
    if k > 0 {
        lemma_expand_len(ds, k - 1);
    }
}

proof fn lemma_digit_sum_mono(ds: Seq<nat>, k1: int, k2: int)
    requires
        0 <= k1 <= k2,
    ensures
        digit_sum(ds, k1) <= digit_sum(ds, k2),
    decreases k2,
{
    if k2 > k1 {
        lemma_digit_sum_mono(ds, k1, k2 - 1);
    }
}

/// The digits of the trimmed text.
pub open spec fn disk_digits(text: Seq<char>) -> Seq<nat> {
    trim(text).map_values(|c: char| digit_value(c))
}

/// The text is a disk map: every character of the trimmed text is a digit, and
/// the total length fits in a `usize`.
pub open spec fn disk_text_ok(text: Seq<char>) -> bool {
    &&& forall|i: int| 0 <= i < trim(text).len() ==> is_digit(#[trigger] trim(text)[i])
    &&& digit_sum(disk_digits(text), disk_digits(text).len() as int) <= usize::MAX
}

impl Disk {
    /// Parse disk from puzzle input.
    pub fn from_text(text: &str) -> (r: Self)
        requires
            disk_text_ok(text@),
        ensures
            r.0@ == expand(disk_digits(text@), disk_digits(text@).len() as int),
    {
        let chars = chars_of(text);
        let (start, end) = trim_bounds(chars.as_slice());
        let ghost t = trim(text@);
        let ghost ds = disk_digits(text@);
        let n = end - start;
        let mut digits: Vec<usize> = Vec::new();
        for k in 0..n
            invariant
                n == end - start,
                start <= end <= chars@.len(),
                chars@.subrange(start as int, end as int) == t,
                t == trim(text@),
                ds == disk_digits(text@),
                disk_text_ok(text@),
                digits@.len() == k,
                forall|j: int| 0 <= j < k ==> #[trigger] digits@[j] == ds[j],
        {
            assert(chars@[start + k] == t[k as int]);
            assert(is_digit(t[k as int]));
            let c = chars[start + k];
            digits.push((c as u32 - '0' as u32) as usize);
        }
        let mut data: Vec<Option<u64>> = Vec::new();
        let mut k: usize = 0;
        while k < n
            invariant
                k <= n,
                n == ds.len(),
                digits@.len() == n,
                forall|j: int| 0 <= j < n ==> #[trigger] digits@[j] == ds[j],
                ds == disk_digits(text@),
                digit_sum(ds, n as int) <= usize::MAX,
                data@ == expand(ds, k as int),
            decreases n - k,
        {
            proof {
                lemma_expand_len(ds, k + 1);
                lemma_digit_sum_mono(ds, k + 1, n as int);
                lemma_expand_len(ds, k as int);
            }
            let len = digits[k];
            let value: Option<u64> = if k % 2 == 0 {
                Some((k / 2) as u64)
            } else {
                None
            };
            let ghost before = data@;
            let mut i: usize = 0;
            while i < len
                invariant
                    i <= len,
                    data@ == before + repeat(value, i as nat),
                    before.len() + len <= usize::MAX,
                decreases len - i,
            {
                data.push(value);
                assert(data@ =~= before + repeat(value, (i + 1) as nat));
                i = i + 1;
            }
            assert(data@ =~= expand(ds, k + 1));
            k = k + 1;
        }
        Disk(data)
    }

    /// Access the data.
    pub fn data(&self) -> (r: &Vec<Option<u64>>)
        ensures
            r@ == self.0@,
    {
        &self.0
    }

    /// Calculate puzzle output: the sum of each block's index times its file id.
    pub fn checksum(&self) -> (r: u64)
        requires
            forall|k: int| 0 <= k <= self.0@.len() ==> #[trigger] checksum_of(self.0@, k) <= u64::MAX,
        ensures
            r == checksum_of(self.0@, self.0@.len() as int),
    {
        let mut out: u64 = 0;
        for i in 0..self.0.len()
            invariant
                forall|k: int| 0 <= k <= self.0@.len() ==> #[trigger] checksum_of(self.0@, k) <= u64::MAX,
                out == checksum_of(self.0@, i as int),
        {
            let x: u64 = match self.0[i] {
                Some(v) => v,
                None => 0,
            };
            assert(checksum_of(self.0@, i + 1) <= u64::MAX);
            assert(checksum_of(self.0@, i + 1) == out + i * x);
            assert((i as u64) * x <= u64::MAX);
            out = out + (i as u64) * x;
        }
        out
    }

    /// Write disk in short form: '.' for free space, the digit of the file id
    /// (shifted from '0') otherwise.
    pub fn to_brief(&self) -> (r: String)
        requires
            forall|i: int| 0 <= i < self.0@.len() ==> brief_ok(#[trigger] self.0@[i]),
        ensures
            r@ == self.0@.map_values(|x: Option<u64>| brief_char(x)),
    {
        let mut out: Vec<char> = Vec::new();
        for i in 0..self.0.len()
            invariant
                forall|j: int| 0 <= j < self.0@.len() ==> brief_ok(#[trigger] self.0@[j]),
                out@ == self.0@.take(i as int).map_values(|x: Option<u64>| brief_char(x)),
        {
            let c = match self.0[i] {
                Some(v) => char_of_code(v as u32 + '0' as u32),
                None => '.',
            };
            out.push(c);
            assert(self.0@.take(i + 1) =~= self.0@.take(i as int).push(self.0@[i as int]));
            assert(out@ =~= self.0@.take(i + 1).map_values(|x: Option<u64>| brief_char(x)));
        }
        assert(self.0@.take(self.0@.len() as int) =~= self.0@);
        string_from_chars(&out)
    }
}

/// The character with code point `code`, which is one.
#[verifier::external_body]
fn char_of_code(code: u32) -> (r: char)
    requires
        code < 0xD800 || (0xE000 <= code && code <= 0x10FFFF),
    ensures
        r == code as char,
{
    char::from_u32(code).unwrap()
}

/// A block's file id (its low 32 bits) shifted from '0' is a character.
pub open spec fn brief_ok(x: Option<u64>) -> bool {
    match x {
        Some(v) => {
            let c = (v as u32) + ('0' as u32);
            c < 0xD800 || (0xE000 <= c && c <= 0x10FFFF)
        },
        None => true,
    }
}

/// The character of a block in the short form.
pub open spec fn brief_char(x: Option<u64>) -> char {
    match x {
        Some(v) => ((v as u32 + '0' as u32) as u32) as char,
        None => '.',
    }
}

/// Sum of index times file id over the first `k` blocks.
pub open spec fn checksum_of(d: Seq<Option<u64>>, k: int) -> int
    decreases k,
{
    if k <= 0 {
        0
    } else {
        checksum_of(d, k - 1) + (k - 1) * match d[k - 1] {
            Some(v) => v as int,
            None => 0,
        }
    }
}


/// A copy of the blocks.
fn copy_blocks(d: &Vec<Option<u64>>) -> (r: Vec<Option<u64>>)
    ensures
        r@ == d@,
{
    let mut r: Vec<Option<u64>> = Vec::new();
    for i in 0..d.len()
        invariant
            r@ == d@.take(i as int),
    {
        r.push(d[i]);
        assert(r@ =~= d@.take(i + 1));
    }
    assert(r@ =~= d@);
    r
}

// ---------------------------------------------------------------------------
// Runs of one file id

/// The blocks hold each file id from 0 to the id of the last block, in one
/// contiguous run each, in increasing order.
pub open spec fn ordered_layout(d: Seq<Option<u64>>) -> bool {
    &&& d.len() > 0
    &&& d.last() is Some
    &&& forall|i: int, j: int|
        0 <= i < j < d.len() && #[trigger] d[i] is Some && #[trigger] d[j] is Some ==> d[i]->0 <= d[j]->0
    &&& forall|v: u64| v <= d.last()->0 ==> #[trigger] holds_value(d, v)
    &&& forall|i: int, j: int, k: int|
        0 <= i < j < k < d.len() && #[trigger] d[i] is Some && d[i] == #[trigger] d[k] ==> #[trigger] d[j]
            == d[i]
}

/// Some block holds `v`.
pub open spec fn holds_value(d: Seq<Option<u64>>, v: u64) -> bool {
    exists|i: int| 0 <= i < d.len() && #[trigger] d[i] == Some(v)
}

/// `r` is the whole run of blocks holding `v`.
pub open spec fn is_run(d: Seq<Option<u64>>, v: u64, r: Range<usize>) -> bool {
    &&& r.start < r.end <= d.len()
    &&& forall|i: int| r.start <= i < r.end ==> #[trigger] d[i] == Some(v)
    &&& (r.start == 0 || d[r.start - 1] != Some(v))
    &&& (r.end == d.len() || d[r.end as int] != Some(v))
}

/// Find all ranges of constant Some(value) in `data`.
pub fn value_ranges(data: &[Option<u64>]) -> (r: Vec<Range<usize>>)
    requires
        ordered_layout(data@),
    ensures
        r@.len() == data@.last()->0 + 1,
        forall|v: int| 0 <= v < r@.len() ==> is_run(data@, v as u64, #[trigger] r@[v]),
        bounds_of(r@) == runs(data@),
{
    let ghost d = data@;
    let n = data.len();
    let last: u64 = match data[n - 1] {
        Some(v) => v,
        None => 0,
    };
    let mut out: Vec<Range<usize>> = Vec::new();
    let mut scanned: usize = 0;
    let mut value: u64 = 0;
    loop
        invariant_except_break
            out@.len() == value,
            forall|v: int| 0 <= v < value ==> is_run(d, v as u64, #[trigger] out@[v]),
            forall|i: int| 0 <= i < scanned ==> (#[trigger] d[i] is None || d[i]->0 < value),
        invariant
            d == data@,
            n == d.len(),
            ordered_layout(d),
            last == d.last()->0,
            value <= last,
            scanned <= n,
        ensures
            out@.len() == last + 1,
            forall|v: int| 0 <= v < out@.len() ==> is_run(d, v as u64, #[trigger] out@[v]),
        decreases last + 1 - value,
    {
        if value > last {
            break;
        }
        assert(holds_value(d, value));
        let ghost q = choose|i: int| 0 <= i < d.len() && #[trigger] d[i] == Some(value);
        // search for value
        while data[scanned].is_none() || data[scanned].unwrap() < value
            invariant
                d == data@,
                n == d.len(),
                ordered_layout(d),
                0 <= q < n,
                d[q] == Some(value),
                scanned <= q,
                forall|i: int| 0 <= i < scanned ==> (#[trigger] d[i] is None || d[i]->0 < value),
            decreases q - scanned,
        {
            assert(scanned != q);
            scanned += 1;
        }
        assert(d[scanned as int] == Some(value)) by {
            if scanned < q {
                assert(d[scanned as int] is Some && d[q] is Some);
            }
        }
        // note first appearance
        let i_start = scanned;
        // search for last appearance
        loop
            invariant_except_break
                i_start <= scanned < n,
                forall|i: int| i_start <= i <= scanned ==> #[trigger] d[i] == Some(value),
            invariant
                d == data@,
                n == d.len(),
                ordered_layout(d),
                d[i_start as int] == Some(value),
            ensures
                i_start < scanned <= n,
                forall|i: int| i_start <= i < scanned ==> #[trigger] d[i] == Some(value),
                scanned == n || d[scanned as int] != Some(value),
            decreases n - scanned,
        {
            scanned += 1;
            if scanned == n || data[scanned].is_none() || data[scanned].unwrap() > value {
                break;
            }
            assert(d[scanned as int] is Some && d[i_start as int] is Some);
        }
        // note last appearance
        let i_end = scanned;
        proof {
            if i_start > 0 {
                assert(d[i_start - 1] is None || d[i_start - 1]->0 < value);
            }
            assert forall|i: int| 0 <= i < scanned implies (#[trigger] d[i] is None || d[i]->0 < value
                + 1) by {
                if i >= i_start {
                    assert(d[i] == Some(value));
                } else {
                    assert(d[i] is None || d[i]->0 < value);
                }
            }
        }
        // record range
        out.push(Range { start: i_start, end: i_end });
        assert(is_run(d, value, out@[value as int]));
        if value == last {
            break;
        }
        value = value + 1;
    }
    proof {
        assert forall|v: int| 0 <= v < out@.len() implies bounds_of(out@)[v] == runs(d)[v] by {
            lemma_run_unique(d, v as u64, out@[v], run_of(d, v as u64));
        }
        assert(bounds_of(out@) =~= runs(d));
    }
    out
}

/// The run of `v`, where there is one.
pub open spec fn run_of(d: Seq<Option<u64>>, v: u64) -> Range<usize> {
    choose|r: Range<usize>| is_run(d, v, r)
}

/// The runs of the file ids 0 to the last block's id, as pairs of bounds.
pub open spec fn runs(d: Seq<Option<u64>>) -> Seq<(int, int)> {
    Seq::new(
        (d.last()->0 + 1) as nat,
        |v: int| (run_of(d, v as u64).start as int, run_of(d, v as u64).end as int),
    )
}

/// In an ordered layout a file id has one run at most.
proof fn lemma_run_unique(d: Seq<Option<u64>>, v: u64, r1: Range<usize>, r2: Range<usize>)
    requires
        ordered_layout(d),
        is_run(d, v, r1),
    ensures
        is_run(d, v, run_of(d, v)),
        is_run(d, v, r2) ==> r1 == r2,
{
    assert(is_run(d, v, r1));
    if is_run(d, v, r2) {
        if r1.start < r2.start {
            let p = (r2.start - 1) as int;
            if p >= r1.end {
                assert(d[r1.start as int] == Some(v) && d[r2.start as int] == Some(v));
                assert(d[r1.start as int] is Some);
                assert(d[r1.end as int] == d[r1.start as int]);
            } else {
                assert(d[p] == Some(v));
            }
        } else if r2.start < r1.start {
            let p = (r1.start - 1) as int;
            if p >= r2.end {
                assert(d[r2.start as int] is Some);
                assert(d[r2.end as int] == d[r2.start as int]);
            } else {
                assert(d[p] == Some(v));
            }
        }
        if r1.end < r2.end {
            assert(d[r1.end as int] == Some(v));
        } else if r2.end < r1.end {
            assert(d[r2.end as int] == Some(v));
        }
    }
}

// ---------------------------------------------------------------------------
// Runs of free space

/// The free-space ranges found among the first `k` neighbouring pairs, and the
/// start of the current free run: a run starts after a file block and is
/// recorded when a file block follows it.
pub open spec fn gap_scan(d: Seq<Option<u64>>, k: int) -> (Seq<(int, int)>, int)
    decreases k,
{
    if k <= 0 {
        (Seq::empty(), 0)
    } else {
        let prev = gap_scan(d, k - 1);
        let i = k - 1;
        let start = if d[i] is Some && d[i + 1] is None {
            i + 1
        } else {
            prev.1
        };
        let rs = if d[i] is None && d[i + 1] is Some {
            prev.0.push((start, i + 1))
        } else {
            prev.0
        };
        (rs, start)
    }
}

/// The free-space ranges of the blocks.
pub open spec fn gaps_of(d: Seq<Option<u64>>) -> Seq<(int, int)> {
    if d.len() == 0 {
        Seq::empty()
    } else {
        gap_scan(d, d.len() - 1).0
    }
}

/// The ranges as pairs of bounds.
pub open spec fn bounds_of(rs: Seq<Range<usize>>) -> Seq<(int, int)> {
    rs.map_values(|r: Range<usize>| (r.start as int, r.end as int))
}

proof fn lemma_gap_scan_bounds(d: Seq<Option<u64>>, k: int)
    requires
        0 <= k < d.len(),
    ensures
        0 <= gap_scan(d, k).1 <= k,
        forall|j: int|
            0 <= j < gap_scan(d, k).0.len() ==> 0 <= (#[trigger] gap_scan(d, k).0[j]).0 <= gap_scan(
                d,
                k,
            ).0[j].1 <= k,
    decreases k,
{
    if k > 0 {
        lemma_gap_scan_bounds(d, k - 1);
    }
}

/// Find all ranges of None in `data`.
pub fn gap_ranges(data: &[Option<u64>]) -> (r: Vec<Range<usize>>)
    ensures
        bounds_of(r@) == gaps_of(data@),
{
    let ghost d = data@;
    let mut out: Vec<Range<usize>> = Vec::new();
    let n = data.len();
    if n == 0 {
        assert(bounds_of(out@) =~= gaps_of(d));
        return out;
    }
    let mut i_start: usize = 0;
    let mut i: usize = 0;
    while i + 1 < n
        invariant
            d == data@,
            n == d.len(),
            n >= 1,
            i + 1 <= n,
            bounds_of(out@) == gap_scan(d, i as int).0,
            i_start == gap_scan(d, i as int).1,
        decreases n - i,
    {
        proof {
            lemma_gap_scan_bounds(d, i as int);
        }
        let i1 = i + 1;
        let v0 = data[i];
        let v1 = data[i1];
        if v0.is_some() && v1.is_none() {
            i_start = i1;
        }
        if v0.is_none() && v1.is_some() {
            out.push(Range { start: i_start, end: i1 });
        }
        assert(bounds_of(out@) =~= gap_scan(d, i + 1).0);
        i = i + 1;
    }
    out
}

// ---------------------------------------------------------------------------
// Compaction

/// Indices of the first `k` blocks that are free (`free`) or hold a file (`!free`).
pub open spec fn positions(d: Seq<Option<u64>>, free: bool, k: int) -> Seq<int>
    decreases k,
{
    if k <= 0 {
        Seq::empty()
    } else {
        let prev = positions(d, free, k - 1);
        if (d[k - 1] is None) == free {
            prev.push(k - 1)
        } else {
            prev
        }
    }
}

proof fn lemma_positions(d: Seq<Option<u64>>, free: bool, k: int)
    requires
        0 <= k <= d.len(),
    ensures
        forall|j: int|
            0 <= j < positions(d, free, k).len() ==> 0 <= #[trigger] positions(d, free, k)[j] < k
                && (d[positions(d, free, k)[j]] is None) == free,
        forall|a: int, b: int|
            0 <= a < b < positions(d, free, k).len() ==> #[trigger] positions(d, free, k)[a]
                < #[trigger] positions(d, free, k)[b],
        positions(d, free, k).len() <= k,
    decreases k,
{
    if k > 0 {
        lemma_positions(d, free, k - 1);
    }
}

/// Indices of the blocks that are free (`free`) or hold a file (`!free`).
fn block_positions(data: &Vec<Option<u64>>, free: bool) -> (r: Vec<usize>)
    ensures
        r@.map_values(|i: usize| i as int) == positions(data@, free, data@.len() as int),
{
    let mut r: Vec<usize> = Vec::new();
    for i in 0..data.len()
        invariant
            r@.map_values(|j: usize| j as int) == positions(data@, free, i as int),
    {
        if data[i].is_none() == free {
            r.push(i);
        }
        assert(r@.map_values(|j: usize| j as int) =~= positions(data@, free, i + 1));
    }
    r
}

/// The blocks after the first `j` moves of part 1, starting from `cur`: move
/// `j` takes the `j`-th file block from the end into the `j`-th free block from
/// the start, as long as the free block lies before the file block.
pub open spec fn compress_from(cur: Seq<Option<u64>>, dest: Seq<int>, src: Seq<int>, j: int) -> Seq<
    Option<u64>,
>
    decreases dest.len() - j,
{
    if j < 0 || j >= dest.len() || j >= src.len() || dest[j] >= src[j] {
        cur
    } else {
        compress_from(cur.update(dest[j], cur[src[j]]).update(src[j], None), dest, src, j + 1)
    }
}

/// The blocks compacted as in part 1.
pub open spec fn compressed(d: Seq<Option<u64>>) -> Seq<Option<u64>> {
    compress_from(
        d,
        positions(d, true, d.len() as int),
        positions(d, false, d.len() as int).reverse(),
        0,
    )
}

/// Every block of the kind asked for, before `k`, is listed.
proof fn lemma_positions_complete(d: Seq<Option<u64>>, free: bool, k: int, p: int)
    requires
        0 <= p < k <= d.len(),
        (d[p] is None) == free,
    ensures
        positions(d, free, k).contains(p),
    decreases k,
{
    if p < k - 1 {
        lemma_positions_complete(d, free, k - 1, p);
        let prev = positions(d, free, k - 1);
        let i = choose|i: int| 0 <= i < prev.len() && #[trigger] prev[i] == p;
        assert(positions(d, free, k)[i] == p);
    } else {
        let prev = positions(d, free, k - 1);
        assert(positions(d, free, k)[prev.len() as int] == p);
    }
}

/// `p` is among the first `j` entries of `s`.
pub open spec fn in_prefix(s: Seq<int>, j: int, p: int) -> bool {
    exists|i: int| 0 <= i < j && #[trigger] s[i] == p
}

/// The index at which the part 1 moves stop.
pub open spec fn stop_at(dest: Seq<int>, src: Seq<int>, j: int) -> int
    decreases dest.len() - j,
{
    if j < 0 || j >= dest.len() || j >= src.len() || dest[j] >= src[j] {
        j
    } else {
        stop_at(dest, src, j + 1)
    }
}

/// After the first `j` moves a block is free exactly when it was free and has
/// not received a file block, or it gave its file block away.
pub open spec fn free_after(d: Seq<Option<u64>>, cur: Seq<Option<u64>>, dest: Seq<int>, src: Seq<int>, j: int) -> bool {
    &&& cur.len() == d.len()
    &&& forall|p: int|
        0 <= p < d.len() ==> ((#[trigger] cur[p] is None) <==> ((d[p] is None && !in_prefix(dest, j, p))
            || in_prefix(src, j, p)))
}

/// The moves run from `j` to the stop index, each with its free block before
/// its file block; at the stop the next free block is not before the next
/// file block.
proof fn lemma_stop_at(dest: Seq<int>, src: Seq<int>, j: int)
    requires
        0 <= j <= dest.len(),
        j <= src.len(),
    ensures
        j <= stop_at(dest, src, j) <= dest.len(),
        stop_at(dest, src, j) <= src.len(),
        stop_at(dest, src, j) < dest.len() && stop_at(dest, src, j) < src.len() ==> dest[stop_at(dest, src, j)]
            >= src[stop_at(dest, src, j)],
        forall|i: int| j <= i < stop_at(dest, src, j) ==> #[trigger] dest[i] < src[i],
    decreases dest.len() - j,
{
    if !(j >= dest.len() || j >= src.len() || dest[j] >= src[j]) {
        lemma_stop_at(dest, src, j + 1);
    }
}

/// The part 1 moves, from move `j` on, leave free exactly the blocks that were
/// free and received nothing, and the blocks that gave their file block away.
proof fn lemma_compress_shape(d: Seq<Option<u64>>, cur: Seq<Option<u64>>, dest: Seq<int>, src: Seq<int>, j: int)
    requires
        0 <= j <= dest.len(),
        j <= src.len(),
        forall|i: int| 0 <= i < dest.len() ==> 0 <= #[trigger] dest[i] < d.len() && d[dest[i]] is None,
        forall|i: int| 0 <= i < src.len() ==> 0 <= #[trigger] src[i] < d.len() && d[src[i]] is Some,
        forall|a: int, b: int| 0 <= a < b < src.len() ==> #[trigger] src[a] > #[trigger] src[b],
        forall|a: int, b: int| 0 <= a < b < dest.len() ==> #[trigger] dest[a] < #[trigger] dest[b],
        free_after(d, cur, dest, src, j),
    ensures
        free_after(d, compress_from(cur, dest, src, j), dest, src, stop_at(dest, src, j)),
        forall|x: Option<u64>| #[trigger] block_count(compress_from(cur, dest, src, j), x) == block_count(cur, x),
    decreases dest.len() - j,
{
    if !(j >= dest.len() || j >= src.len() || dest[j] >= src[j]) {
        let f = dest[j];
        let t = src[j];
        let next = cur.update(f, cur[t]).update(t, None);
        assert(!in_prefix(dest, j, f)) by {
            if in_prefix(dest, j, f) {
                let i = choose|i: int| 0 <= i < j && #[trigger] dest[i] == f;
                assert(dest[i] < dest[j]);
            }
        }
        assert(!in_prefix(src, j, f)) by {
            if in_prefix(src, j, f) {
                let i = choose|i: int| 0 <= i < j && #[trigger] src[i] == f;
                assert(d[src[i]] is Some);
            }
        }
        assert(cur[f] is None);
        assert forall|x: Option<u64>| #[trigger] block_count(next, x) == block_count(cur, x) by {
            lemma_block_count_update(cur, f, cur[t], x);
            lemma_block_count_update(cur.update(f, cur[t]), t, None, x);
        }
        assert(!in_prefix(src, j, t)) by {
            if in_prefix(src, j, t) {
                let i = choose|i: int| 0 <= i < j && #[trigger] src[i] == t;
                assert(src[i] > src[j]);
            }
        }
        assert(cur[t] is Some);
        assert forall|p: int| 0 <= p < d.len() implies ((#[trigger] next[p] is None) <==> ((d[p] is None
            && !in_prefix(dest, j + 1, p)) || in_prefix(src, j + 1, p))) by {
            if p == t {
                assert(src[j] == p);
            } else if p == f {
                assert(dest[j] == p);
                assert(!in_prefix(src, j + 1, p)) by {
                    if in_prefix(src, j + 1, p) {
                        let i = choose|i: int| 0 <= i < j + 1 && #[trigger] src[i] == p;
                        assert(d[src[i]] is Some);
                    }
                }
            } else {
                assert(in_prefix(dest, j + 1, p) == in_prefix(dest, j, p)) by {
                    if in_prefix(dest, j + 1, p) {
                        let i = choose|i: int| 0 <= i < j + 1 && #[trigger] dest[i] == p;
                        assert(i < j);
                    }
                }
                assert(in_prefix(src, j + 1, p) == in_prefix(src, j, p)) by {
                    if in_prefix(src, j + 1, p) {
                        let i = choose|i: int| 0 <= i < j + 1 && #[trigger] src[i] == p;
                        assert(i < j);
                    }
                }
            }
        }
        lemma_compress_shape(d, next, dest, src, j + 1);
    }
}

/// Part 1 compaction keeps the disk's length and leaves no free block before a
/// file block.
pub proof fn lemma_compressed_no_gaps(d: Seq<Option<u64>>)
    ensures
        compressed(d).len() == d.len(),
        forall|p: int, q: int|
            0 <= p < q < d.len() && #[trigger] compressed(d)[p] is None ==> #[trigger] compressed(d)[q] is None,
{
    let n = d.len() as int;
    let dest = positions(d, true, n);
    let fw = positions(d, false, n);
    let src = fw.reverse();
    lemma_positions(d, true, n);
    lemma_positions(d, false, n);
    assert forall|i: int| 0 <= i < src.len() implies 0 <= #[trigger] src[i] < d.len() && d[src[i]] is Some by {
        assert(src[i] == fw[fw.len() - 1 - i]);
    }
    assert forall|a: int, b: int| 0 <= a < b < src.len() implies #[trigger] src[a] > #[trigger] src[b] by {
        assert(src[a] == fw[fw.len() - 1 - a]);
        assert(src[b] == fw[fw.len() - 1 - b]);
    }
    assert forall|i: int| 0 <= i < dest.len() implies 0 <= #[trigger] dest[i] < d.len() && d[dest[i]] is None by {
    }
    assert(free_after(d, d, dest, src, 0));
    lemma_compress_shape(d, d, dest, src, 0);
    lemma_stop_at(dest, src, 0);
    let c = compressed(d);
    let jj = stop_at(dest, src, 0);
    assert forall|p: int, q: int| 0 <= p < q < d.len() && #[trigger] c[p] is None implies #[trigger] c[q] is None by {
        if c[q] is Some {
            // where `q`'s file block came from, and why `p` is free
            if in_prefix(src, jj, p) {
                let a = choose|a: int| 0 <= a < jj && #[trigger] src[a] == p;
                if in_prefix(dest, jj, q) {
                    let b = choose|b: int| 0 <= b < jj && #[trigger] dest[b] == q;
                    if b >= a {
                        if b > a {
                            assert(src[a] > src[b]);
                        }
                        assert(dest[b] < src[b]);
                    } else {
                        assert(dest[b] < dest[a]);
                        assert(dest[a] < src[a]);
                    }
                } else {
                    assert(d[q] is Some);
                    lemma_positions_complete(d, false, n, q);
                    let t = choose|t: int| 0 <= t < fw.len() && #[trigger] fw[t] == q;
                    let c2 = fw.len() - 1 - t;
                    assert(src[c2] == q);
                    assert(!in_prefix(src, jj, q));
                    assert(c2 >= jj);
                    if c2 > a {
                        assert(src[a] > src[c2]);
                    }
                }
            } else {
                assert(d[p] is None && !in_prefix(dest, jj, p));
                lemma_positions_complete(d, true, n, p);
                let a = choose|a: int| 0 <= a < dest.len() && #[trigger] dest[a] == p;
                assert(a >= jj);
                if in_prefix(dest, jj, q) {
                    let b = choose|b: int| 0 <= b < jj && #[trigger] dest[b] == q;
                    assert(dest[b] < dest[a]);
                } else {
                    assert(d[q] is Some);
                    lemma_positions_complete(d, false, n, q);
                    let t = choose|t: int| 0 <= t < fw.len() && #[trigger] fw[t] == q;
                    let c2 = fw.len() - 1 - t;
                    assert(src[c2] == q);
                    assert(!in_prefix(src, jj, q));
                    assert(c2 >= jj);
                    assert(jj < dest.len() && jj < src.len());
                    assert(dest[jj] >= src[jj]);
                    if a > jj {
                        assert(dest[jj] < dest[a]);
                    }
                    if c2 > jj {
                        assert(src[jj] > src[c2]);
                    }
                }
            }
        }
    }
}

impl Disk {
    /// Compress the disk as in part 1.
    pub fn compress(&self) -> (r: Self)
        ensures
            r.0@ == compressed(self.0@),
    {
        let mut data = copy_blocks(&self.0);
        let i_dest = block_positions(&self.0, true);
        let i_src = block_positions(&self.0, false);
        let ghost d0 = self.0@;
        let ghost dest = positions(d0, true, d0.len() as int);
        let ghost src = positions(d0, false, d0.len() as int).reverse();
        proof {
            lemma_positions(d0, true, d0.len() as int);
            lemma_positions(d0, false, d0.len() as int);
        }
        let n = if i_dest.len() <= i_src.len() {
            i_dest.len()
        } else {
            i_src.len()
        };
        let mut j: usize = 0;
        while j < n
            invariant
                n <= i_dest@.len(),
                n <= i_src@.len(),
                n == i_dest@.len() || n == i_src@.len(),
                i_dest@.len() == dest.len(),
                i_src@.len() == src.len(),
                forall|k: int| 0 <= k < dest.len() ==> #[trigger] dest[k] == i_dest@[k] as int,
                forall|k: int| 0 <= k < src.len() ==> #[trigger] src[k] == i_src@[src.len() - 1 - k] as int,
                forall|k: int| 0 <= k < dest.len() ==> 0 <= #[trigger] dest[k] < d0.len(),
                forall|k: int| 0 <= k < src.len() ==> 0 <= #[trigger] src[k] < d0.len(),
                data@.len() == d0.len(),
                compress_from(data@, dest, src, j as int) == compress_from(d0, dest, src, 0),
                j <= n,
            ensures
                data@ == compress_from(d0, dest, src, 0),
            decreases n - j,
        {
            let di = i_dest[j];
            let si = i_src[i_src.len() - 1 - j];
            assert(dest[j as int] == di && src[j as int] == si);
            if di >= si {
                assert(compress_from(data@, dest, src, j as int) == data@);
                break;
            }
            let moved = data[si];
            data.set(di, moved);
            data.set(si, None);
            j = j + 1;
        }
        Disk(data)
    }
}

/// The blocks with the run `r` moved to the start of gap `g` (which lies before it
/// and is long enough), its old place freed; only the first `m` blocks moved.
pub open spec fn moved(cur: Seq<Option<u64>>, r: (int, int), g: (int, int), m: int) -> Seq<Option<u64>> {
    Seq::new(
        cur.len(),
        |p: int|
            if g.0 <= p < g.0 + m {
                cur[r.0 + (p - g.0)]
            } else if r.0 <= p < r.0 + m {
                None
            } else {
                cur[p]
            },
    )
}

/// The blocks after trying the gaps `gaps[k..]` in order for the run `r`: every
/// gap before a gap that reaches past the run's start, and long enough for the
/// run, receives it.
pub open spec fn apply_gaps(cur: Seq<Option<u64>>, r: (int, int), gaps: Seq<(int, int)>, k: int) -> Seq<
    Option<u64>,
>
    decreases gaps.len() - k,
{
    if k < 0 || k >= gaps.len() || gaps[k].1 > r.0 {
        cur
    } else {
        let next = if r.1 - r.0 <= gaps[k].1 - gaps[k].0 {
            moved(cur, r, gaps[k], r.1 - r.0)
        } else {
            cur
        };
        apply_gaps(next, r, gaps, k + 1)
    }
}

/// The blocks after handling the last `t` runs of `rs`, the last run first.
pub open spec fn defrag_steps(d: Seq<Option<u64>>, rs: Seq<(int, int)>, t: int) -> Seq<Option<u64>>
    decreases t,
{
    if t <= 0 {
        d
    } else {
        let cur = defrag_steps(d, rs, t - 1);
        apply_gaps(cur, rs[rs.len() - t], gaps_of(cur), 0)
    }
}

/// The blocks compacted file by file as in part 2.
pub open spec fn defragged(d: Seq<Option<u64>>) -> Seq<Option<u64>> {
    defrag_steps(d, runs(d), runs(d).len() as int)
}

proof fn lemma_gaps_bounds(d: Seq<Option<u64>>)
    ensures
        forall|j: int|
            0 <= j < gaps_of(d).len() ==> 0 <= (#[trigger] gaps_of(d)[j]).0 <= gaps_of(d)[j].1 <= d.len(),
{
    if d.len() > 0 {
        lemma_gap_scan_bounds(d, d.len() - 1);
    }
}

impl Disk {
    /// Compress the disk in defragmented way, as in part 2.
    pub fn compress_defrag(&self) -> (r: Self)
        requires
            ordered_layout(self.0@),
        ensures
            r.0@ == defragged(self.0@),
    {
        let ghost d0 = self.0@;
        let mut data = copy_blocks(&self.0);
        let ranges = value_ranges(self.0.as_slice());
        let ghost rs = runs(d0);
        let nr = ranges.len();
        let mut t: usize = 0;
        while t < nr
            invariant
                nr == ranges@.len(),
                rs == runs(d0),
                rs == bounds_of(ranges@),
                t <= nr,
                forall|v: int| 0 <= v < nr ==> is_run(d0, v as u64, #[trigger] ranges@[v]),
                data@.len() == d0.len(),
                data@ == defrag_steps(d0, rs, t as int),
            decreases nr - t,
        {
            let range = &ranges[nr - 1 - t];
            assert(is_run(d0, (nr - 1 - t) as u64, ranges@[nr - 1 - t]));
            let rstart = range.start;
            let rend = range.end;
            let need = rend - rstart;
            let ghost r = (rstart as int, rend as int);
            assert(rs[rs.len() - (t + 1)] == r);
            let ghost start_data = data@;
            let gaps = gap_ranges(data.as_slice());
            let ghost gs = gaps_of(start_data);
            proof {
                lemma_gaps_bounds(start_data);
            }
            let mut k: usize = 0;
            while k < gaps.len()
                invariant
                    bounds_of(gaps@) == gs,
                    gs == gaps_of(start_data),
                    forall|j: int| 0 <= j < gs.len() ==> 0 <= (#[trigger] gs[j]).0 <= gs[j].1 <= start_data.len(),
                    r == (rstart as int, rend as int),
                    need == rend - rstart,
                    rstart < rend <= data@.len(),
                    data@.len() == start_data.len(),
                    k <= gaps@.len(),
                    apply_gaps(data@, r, gs, k as int) == apply_gaps(start_data, r, gs, 0),
                ensures
                    data@ == apply_gaps(start_data, r, gs, 0),
                decreases gaps@.len() - k,
            {
                let gstart = gaps[k].start;
                let gend = gaps[k].end;
                assert(gs[k as int] == (gstart as int, gend as int));
                if gend > rstart {
                    break;
                }
                let avail = gend - gstart;
                if need <= avail {
                    let ghost before = data@;
                    let mut m: usize = 0;
                    while m < need
                        invariant
                            m <= need,
                            need == rend - rstart,
                            gstart + need <= gend <= rstart < rend <= before.len(),
                            data@ == moved(before, r, (gstart as int, gend as int), m as int),
                            r == (rstart as int, rend as int),
                        decreases need - m,
                    {
                        let v = data[rstart + m];
                        assert(v == before[rstart + m]);
                        data.set(gstart + m, v);
                        data.set(rstart + m, None);
                        assert(data@ =~= moved(before, r, (gstart as int, gend as int), m + 1));
                        m = m + 1;
                    }
                }
                k = k + 1;
            }
            t = t + 1;
        }
        Disk(data)
    }
}

/// Returns the part1 result: the checksum of the disk compacted block by block.
pub fn part1(disk: &Disk) -> (r: u64)
    requires
        forall|k: int|
            0 <= k <= compressed(disk.0@).len() ==> #[trigger] checksum_of(compressed(disk.0@), k)
                <= u64::MAX,
    ensures
        r == checksum_of(compressed(disk.0@), compressed(disk.0@).len() as int),
{
    disk.compress().checksum()
}

/// Returns the part2 result: the checksum of the disk compacted file by file.
pub fn part2(disk: &Disk) -> (r: u64)
    requires
        ordered_layout(disk.0@),
        forall|k: int|
            0 <= k <= defragged(disk.0@).len() ==> #[trigger] checksum_of(defragged(disk.0@), k)
                <= u64::MAX,
    ensures
        r == checksum_of(defragged(disk.0@), defragged(disk.0@).len() as int),
{
    disk.compress_defrag().checksum()
}

/// The value a block adds to the checksum per unit of its index.
pub open spec fn block_id(x: Option<u64>) -> int {
    match x {
        Some(v) => v as int,
        None => 0,
    }
}

/// Freeing the block at `i` lowers the checksum by exactly `i` times its file
/// id: each block counts once, by its own index, and free blocks count nothing.
pub proof fn lemma_checksum_free_block(d: Seq<Option<u64>>, i: int)
    requires
        0 <= i < d.len(),
    ensures
        checksum_of(d, d.len() as int) == checksum_of(d.update(i, None), d.len() as int) + i * block_id(d[i]),
{
    lemma_checksum_free_upto(d, i, d.len() as int);
}

proof fn lemma_checksum_free_upto(d: Seq<Option<u64>>, i: int, k: int)
    requires
        0 <= i < d.len(),
        0 <= k <= d.len(),
    ensures
        checksum_of(d, k) == checksum_of(d.update(i, None), k) + if i < k {
            i * block_id(d[i])
        } else {
            0
        },
    decreases k,
{
    if k > 0 {
        lemma_checksum_free_upto(d, i, k - 1);
    }
}

/// Where the disk map puts each block: the `j`-th block of the part that digit
/// `t` describes, after the blocks of the digits before it, belongs to file
/// `t / 2` when `t` is even and is free when `t` is odd.
pub proof fn lemma_expand_places(ds: Seq<nat>, k: int, t: int, j: int)
    requires
        0 <= t < k <= ds.len(),
        0 <= j < ds[t],
    ensures
        digit_sum(ds, t) + j < expand(ds, k).len(),
        expand(ds, k)[digit_sum(ds, t) + j] == if t % 2 == 0 {
            Some((t / 2) as u64)
        } else {
            None
        },
    decreases k,
{
    lemma_expand_len(ds, k);
    lemma_expand_len(ds, k - 1);
    if t < k - 1 {
        lemma_expand_places(ds, k - 1, t, j);
    } else {
        assert(t == k - 1);
    }
    lemma_digit_sum_mono(ds, t + 1, k);
}

/// Number of blocks that hold `x`.
pub open spec fn block_count(s: Seq<Option<u64>>, x: Option<u64>) -> nat
    decreases s.len(),
{
    if s.len() == 0 {
        0
    } else {
        block_count(s.drop_last(), x) + if s.last() == x {
            1nat
        } else {
            0nat
        }
    }
}

proof fn lemma_block_count_update(s: Seq<Option<u64>>, i: int, y: Option<u64>, x: Option<u64>)
    requires
        0 <= i < s.len(),
    ensures
        block_count(s.update(i, y), x) == block_count(s, x) - (if s[i] == x {
            1int
        } else {
            0int
        }) + (if y == x {
            1int
        } else {
            0int
        }),
    decreases s.len(),
{
    let u = s.update(i, y);
    if i == s.len() - 1 {
        assert(u.drop_last() =~= s.drop_last());
    } else {
        assert(u.drop_last() =~= s.drop_last().update(i, y));
        lemma_block_count_update(s.drop_last(), i, y, x);
    }
}

/// Part 1 compaction only moves file blocks: each file id is held by as many
/// blocks afterwards as before, and so is free space.
pub proof fn lemma_compressed_keeps_blocks(d: Seq<Option<u64>>, x: Option<u64>)
    ensures
        block_count(compressed(d), x) == block_count(d, x),
{
    let n = d.len() as int;
    let dest = positions(d, true, n);
    let fw = positions(d, false, n);
    let src = fw.reverse();
    lemma_positions(d, true, n);
    lemma_positions(d, false, n);
    assert forall|i: int| 0 <= i < src.len() implies 0 <= #[trigger] src[i] < d.len() && d[src[i]] is Some by {
        assert(src[i] == fw[fw.len() - 1 - i]);
    }
    assert forall|a: int, b: int| 0 <= a < b < src.len() implies #[trigger] src[a] > #[trigger] src[b] by {
        assert(src[a] == fw[fw.len() - 1 - a]);
        assert(src[b] == fw[fw.len() - 1 - b]);
    }
    assert forall|i: int| 0 <= i < dest.len() implies 0 <= #[trigger] dest[i] < d.len() && d[dest[i]] is None by {
    }
    assert(free_after(d, d, dest, src, 0));
    lemma_compress_shape(d, d, dest, src, 0);
    assert(block_count(compress_from(d, dest, src, 0), x) == block_count(d, x));
}

/// What the scan of free space has found by `k`: ranges within `0..=k`, in
/// order and apart, all free, and the current run start with everything from
/// it to `k` free when `k` itself is.
spec fn gap_scan_facts(d: Seq<Option<u64>>, k: int) -> bool {
    let (gs, st) = gap_scan(d, k);
    &&& forall|j: int| 0 <= j < gs.len() ==> 0 <= (#[trigger] gs[j]).0 <= gs[j].1 <= k
    &&& forall|j: int, p: int| 0 <= j < gs.len() && (#[trigger] gs[j]).0 <= p < gs[j].1 ==> (#[trigger] d[p]) is None
    &&& forall|j1: int, j2: int| 0 <= j1 < j2 < gs.len() ==> (#[trigger] gs[j1]).1 <= (#[trigger] gs[j2]).0
    &&& 0 <= st <= k
    &&& d[k] is None ==> (forall|p: int| st <= p <= k ==> d[p] is None) && forall|j: int|
        0 <= j < gs.len() ==> (#[trigger] gs[j]).1 <= st
}

proof fn lemma_gap_scan_facts(d: Seq<Option<u64>>, k: int)
    requires
        0 <= k < d.len(),
    ensures
        gap_scan_facts(d, k),
    decreases k,
{
    if k > 0 {
        lemma_gap_scan_facts(d, k - 1);
        let (g0, s0) = gap_scan(d, k - 1);
        let (g1, s1) = gap_scan(d, k);
        if d[k - 1] is None && d[k] is Some {
            assert(g1 == g0.push((s0, k)));
            assert forall|j: int, p: int| 0 <= j < g1.len() && (#[trigger] g1[j]).0 <= p < g1[j].1 implies (#[trigger] d[p]) is None by {
                if j < g0.len() {
                    assert(g1[j] == g0[j]);
                }
            }
            assert forall|j1: int, j2: int| 0 <= j1 < j2 < g1.len() implies (#[trigger] g1[j1]).1 <= (
            #[trigger] g1[j2]).0 by {
                assert(g1[j1] == g0[j1]);
                if j2 < g0.len() {
                    assert(g1[j2] == g0[j2]);
                }
            }
            assert forall|j: int| 0 <= j < g1.len() implies 0 <= (#[trigger] g1[j]).0 <= g1[j].1 <= k by {
                if j < g0.len() {
                    assert(g1[j] == g0[j]);
                }
            }
        } else {
            assert(g1 == g0);
        }
    }
}

/// The free ranges of `d`: in bounds, in order and apart, and all free.
proof fn lemma_gaps_free(d: Seq<Option<u64>>)
    ensures
        forall|j: int| 0 <= j < gaps_of(d).len() ==> 0 <= (#[trigger] gaps_of(d)[j]).0 <= gaps_of(d)[j].1 <= d.len(),
        forall|j: int, p: int|
            0 <= j < gaps_of(d).len() && (#[trigger] gaps_of(d)[j]).0 <= p < gaps_of(d)[j].1 ==> (#[trigger] d[p]) is None,
        forall|j1: int, j2: int|
            0 <= j1 < j2 < gaps_of(d).len() ==> (#[trigger] gaps_of(d)[j1]).1 <= (#[trigger] gaps_of(d)[j2]).0,
{
    if d.len() > 0 {
        lemma_gap_scan_facts(d, d.len() - 1);
    }
}

/// Moving a run of `m` blocks into free blocks before it keeps every count.
proof fn lemma_moved_counts(cur: Seq<Option<u64>>, r: (int, int), g: (int, int), m: int, x: Option<u64>)
    requires
        0 <= m,
        0 <= g.0,
        g.0 + m <= r.0,
        r.0 + m <= cur.len(),
        forall|p: int| g.0 <= p < g.0 + m ==> cur[p] is None,
    ensures
        block_count(moved(cur, r, g, m), x) == block_count(cur, x),
    decreases m,
{
    if m == 0 {
        assert(moved(cur, r, g, 0) =~= cur);
    } else {
        lemma_moved_counts(cur, r, g, m - 1, x);
        let prev = moved(cur, r, g, m - 1);
        let a = g.0 + m - 1;
        let b = r.0 + m - 1;
        assert(prev[a] is None);
        assert(prev[b] == cur[b]);
        assert(moved(cur, r, g, m) =~= prev.update(a, cur[b]).update(b, None));
        lemma_block_count_update(prev, a, cur[b], x);
        lemma_block_count_update(prev.update(a, cur[b]), b, None, x);
    }
}

proof fn lemma_apply_gaps_counts(cur: Seq<Option<u64>>, r: (int, int), gaps: Seq<(int, int)>, k: int, x: Option<u64>)
    requires
        0 <= k,
        0 <= r.0 <= r.1 <= cur.len(),
        forall|j: int| 0 <= j < gaps.len() ==> 0 <= (#[trigger] gaps[j]).0 <= gaps[j].1 <= cur.len(),
        forall|j1: int, j2: int| 0 <= j1 < j2 < gaps.len() ==> (#[trigger] gaps[j1]).1 <= (#[trigger] gaps[j2]).0,
        forall|j: int, p: int|
            k <= j < gaps.len() && (#[trigger] gaps[j]).0 <= p < gaps[j].1 && gaps[j].1 <= r.0 ==> (#[trigger] cur[p]) is None,
    ensures
        block_count(apply_gaps(cur, r, gaps, k), x) == block_count(cur, x),
        apply_gaps(cur, r, gaps, k).len() == cur.len(),
    decreases gaps.len() - k,
{
    if !(k >= gaps.len() || gaps[k].1 > r.0) {
        let g = gaps[k];
        let m = r.1 - r.0;
        let next = if m <= g.1 - g.0 {
            moved(cur, r, g, m)
        } else {
            cur
        };
        if m <= g.1 - g.0 {
            lemma_moved_counts(cur, r, g, m, x);
            assert forall|j: int, p: int|
                k + 1 <= j < gaps.len() && (#[trigger] gaps[j]).0 <= p < gaps[j].1 && gaps[j].1 <= r.0 implies (#[trigger] next[p]) is None by {
                assert(gaps[k].1 <= gaps[j].0);
            }
        }
        lemma_apply_gaps_counts(next, r, gaps, k + 1, x);
    }
}

/// In an ordered layout each file id up to the last has a run.
proof fn lemma_run_exists(d: Seq<Option<u64>>, v: u64)
    requires
        ordered_layout(d),
        d.len() <= usize::MAX,
        v <= d.last()->0,
    ensures
        is_run(d, v, run_of(d, v)),
{
    assert(holds_value(d, v));
    let i = choose|i: int| 0 <= i < d.len() && #[trigger] d[i] == Some(v);
    let lo = lemma_run_left(d, v, i, i);
    let hi = lemma_run_right(d, v, i, i);
    let r = (lo as usize)..((hi + 1) as usize);
    assert forall|p: int| r.start <= p < r.end implies #[trigger] d[p] == Some(v) by {
        if p < i {
        } else if p > i {
        }
    }
    lemma_run_unique(d, v, r, r);
}

proof fn lemma_run_left(d: Seq<Option<u64>>, v: u64, i: int, j: int) -> (lo: int)
    requires
        0 <= j <= i < d.len(),
        forall|p: int| j <= p <= i ==> #[trigger] d[p] == Some(v),
    ensures
        0 <= lo <= j,
        forall|p: int| lo <= p <= i ==> #[trigger] d[p] == Some(v),
        lo == 0 || d[lo - 1] != Some(v),
    decreases j,
{
    if j > 0 && d[j - 1] == Some(v) {
        lemma_run_left(d, v, i, j - 1)
    } else {
        j
    }
}

proof fn lemma_run_right(d: Seq<Option<u64>>, v: u64, i: int, j: int) -> (hi: int)
    requires
        0 <= i <= j < d.len(),
        forall|p: int| i <= p <= j ==> #[trigger] d[p] == Some(v),
    ensures
        j <= hi < d.len(),
        forall|p: int| i <= p <= hi ==> #[trigger] d[p] == Some(v),
        hi + 1 == d.len() || d[hi + 1] != Some(v),
    decreases d.len() - j,
{
    if j + 1 < d.len() && d[j + 1] == Some(v) {
        lemma_run_right(d, v, i, j + 1)
    } else {
        j
    }
}

proof fn lemma_defrag_steps_counts(d: Seq<Option<u64>>, rs: Seq<(int, int)>, t: int, x: Option<u64>)
    requires
        0 <= t <= rs.len(),
        forall|j: int| 0 <= j < rs.len() ==> 0 <= (#[trigger] rs[j]).0 <= rs[j].1 <= d.len(),
    ensures
        block_count(defrag_steps(d, rs, t), x) == block_count(d, x),
        defrag_steps(d, rs, t).len() == d.len(),
    decreases t,
{
    if t > 0 {
        lemma_defrag_steps_counts(d, rs, t - 1, x);
        let cur = defrag_steps(d, rs, t - 1);
        lemma_gaps_free(cur);
        let r = rs[rs.len() - t];
        lemma_apply_gaps_counts(cur, r, gaps_of(cur), 0, x);
    }
}

/// Part 2 compaction only moves whole files: each file id is held by as many
/// blocks afterwards as before, and so is free space.
pub proof fn lemma_defragged_keeps_blocks(d: Seq<Option<u64>>, x: Option<u64>)
    requires
        ordered_layout(d),
        d.len() <= usize::MAX,
    ensures
        block_count(defragged(d), x) == block_count(d, x),
{
    let rs = runs(d);
    assert forall|j: int| 0 <= j < rs.len() implies 0 <= (#[trigger] rs[j]).0 <= rs[j].1 <= d.len() by {
        lemma_run_exists(d, j as u64);
    }
    lemma_defrag_steps_counts(d, rs, rs.len() as int, x);
}

} // verus!
