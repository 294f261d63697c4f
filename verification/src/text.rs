//! Character-level text handling shared by the puzzle parsers: trimming,
//! splitting into lines and words, and decimal numbers.

use vstd::prelude::*;
use vstd::string::StrSliceExecFns;

verus! {

/// Unicode `White_Space`, the set that `char::is_whitespace` and `str::trim` use.
pub open spec fn is_ws(c: char) -> bool {
    ||| ('\t' <= c && c <= '\r')
    ||| c == ' '
    ||| c == '\u{85}'
    ||| c == '\u{a0}'
    ||| c == '\u{1680}'
    ||| ('\u{2000}' <= c && c <= '\u{200a}')
    ||| c == '\u{2028}'
    ||| c == '\u{2029}'
    ||| c == '\u{202f}'
    ||| c == '\u{205f}'
    ||| c == '\u{3000}'
}

/// Whether `c` is Unicode white space.
pub fn is_whitespace(c: char) -> (r: bool)
    ensures
        r == is_ws(c),
{
    ('\t' <= c && c <= '\r') || c == ' ' || c == '\u{85}' || c == '\u{a0}' || c == '\u{1680}' || (
    '\u{2000}' <= c && c <= '\u{200a}') || c == '\u{2028}' || c == '\u{2029}' || c == '\u{202f}'
        || c == '\u{205f}' || c == '\u{3000}'
}

/// The characters of `s`.
pub fn chars_of(s: &str) -> (r: Vec<char>)
    ensures
        r@ == s@,
{
    let mut out: Vec<char> = Vec::new();
    for c in iter: s.chars()
        invariant
            out@ == iter.seq().take(iter.index() as int),
            iter.seq() == s@,
    {
        out.push(c);
    }
    out
}


/// `s` without leading white space.
pub open spec fn trim_start(s: Seq<char>) -> Seq<char>
    decreases s.len(),
{
    if s.len() > 0 && is_ws(s[0]) {
        trim_start(s.drop_first())
    } else {
        s
    }
}

/// `s` without trailing white space.
pub open spec fn trim_end(s: Seq<char>) -> Seq<char>
    decreases s.len(),
{
    if s.len() > 0 && is_ws(s.last()) {
        trim_end(s.drop_last())
    } else {
        s
    }
}

/// `s` without leading or trailing white space, as `str::trim` gives it.
pub open spec fn trim(s: Seq<char>) -> Seq<char> {
    trim_end(trim_start(s))
}

/// `s` without leading or trailing `c`, as `str::trim_matches(c)` gives it.
pub open spec fn trim_char(s: Seq<char>, c: char) -> Seq<char>
    decreases s.len(),
{
    if s.len() > 0 && s[0] == c {
        trim_char(s.drop_first(), c)
    } else if s.len() > 0 && s.last() == c {
        trim_char(s.drop_last(), c)
    } else {
        s
    }
}

/// The bounds `[start, end)` of `s` with leading and trailing white space removed.
pub fn trim_bounds(s: &[char]) -> (r: (usize, usize))
    ensures
        r.0 <= r.1 <= s@.len(),
        s@.subrange(r.0 as int, r.1 as int) == trim(s@),
{
    let n = s.len();
    let mut i: usize = 0;
    assert(s@.subrange(0, n as int) =~= s@);
    while i < n && is_whitespace(s[i])
        invariant
            i <= n,
            n == s@.len(),
            trim_start(s@) == trim_start(s@.subrange(i as int, n as int)),
        decreases n - i,
    {
        assert(s@.subrange(i as int, n as int).drop_first() =~= s@.subrange(i + 1, n as int));
        i = i + 1;
    }
    proof {
        if i == n {
            assert(s@.subrange(i as int, n as int) =~= Seq::<char>::empty());
        }
    }
    let ghost front = s@.subrange(i as int, n as int);
    assert(trim_start(s@) == front);
    assert(front == s@.subrange(i as int, n as int));
    let mut j: usize = n;
    while j > i && is_whitespace(s[j - 1])
        invariant
            i <= j <= n,
            n == s@.len(),
            front == s@.subrange(i as int, n as int),
            trim_end(front) == trim_end(s@.subrange(i as int, j as int)),
        decreases j,
    {
        assert(s@.subrange(i as int, j as int).drop_last() =~= s@.subrange(i as int, j - 1));
        j = j - 1;
    }
    (i, j)
}

/// The pieces of `s` between occurrences of `sep`, as `str::split(sep)` gives them.
pub open spec fn split(s: Seq<char>, sep: char) -> Seq<Seq<char>>
    decreases s.len(),
{
    if s.len() == 0 {
        seq![Seq::<char>::empty()]
    } else {
        let prev = split(s.drop_last(), sep);
        if s.last() == sep {
            prev.push(Seq::<char>::empty())
        } else {
            prev.update(prev.len() - 1, prev.last().push(s.last()))
        }
    }
}

/// `split` always yields at least one piece.
pub proof fn lemma_split_nonempty(s: Seq<char>, sep: char)
    ensures
        split(s, sep).len() >= 1,
    decreases s.len(),
{
    if s.len() > 0 {
        lemma_split_nonempty(s.drop_last(), sep);
    }
}

/// The character sequences held by a vector of character vectors.
pub open spec fn views(v: Seq<Vec<char>>) -> Seq<Seq<char>> {
    v.map_values(|x: Vec<char>| x@)
}

/// The pieces of `s[start..end]` between occurrences of `sep`.
pub fn split_range(s: &[char], start: usize, end: usize, sep: char) -> (r: Vec<Vec<char>>)
    requires
        start <= end <= s@.len(),
    ensures
        views(r@) == split(s@.subrange(start as int, end as int), sep),
{
    let mut out: Vec<Vec<char>> = Vec::new();
    out.push(Vec::new());
    let mut i = start;
    assert(s@.subrange(start as int, start as int) =~= Seq::<char>::empty());
    assert(views(out@) =~= seq![Seq::<char>::empty()]);
    while i < end
        invariant
            start <= i <= end,
            end <= s@.len(),
            views(out@) == split(s@.subrange(start as int, i as int), sep),
        decreases end - i,
    {
        let ghost sub = s@.subrange(start as int, i + 1);
        assert(sub.drop_last() =~= s@.subrange(start as int, i as int));
        proof {
            lemma_split_nonempty(sub.drop_last(), sep);
        }
        let c = s[i];
        if c == sep {
            out.push(Vec::new());
            assert(views(out@) =~= split(sub, sep));
        } else {
            let last = out.len() - 1;
            let mut piece = out.pop().unwrap();
            piece.push(c);
            out.push(piece);
            assert(views(out@) =~= split(sub, sep));
        }
        i = i + 1;
    }
    out
}

/// The lines of `text` after trimming it: `text.trim().split('\n')`.
pub fn trimmed_lines(text: &str) -> (r: Vec<Vec<char>>)
    ensures
        views(r@) == split(trim(text@), '\n'),
        r@.len() >= 1,
{
    let chars = chars_of(text);
    let (start, end) = trim_bounds(chars.as_slice());
    let r = split_range(chars.as_slice(), start, end, '\n');
    proof {
        lemma_split_nonempty(trim(text@), '\n');
    }
    r
}

/// The white-space separated words of `s`, as `str::split_whitespace` gives them.
pub open spec fn words(s: Seq<char>) -> Seq<Seq<char>>
    decreases s.len(),
{
    if s.len() == 0 {
        Seq::<Seq<char>>::empty()
    } else {
        let prev = words(s.drop_last());
        let c = s.last();
        if is_ws(c) {
            prev
        } else if s.len() >= 2 && !is_ws(s[s.len() - 2]) {
            prev.update(prev.len() - 1, prev.last().push(c))
        } else {
            prev.push(seq![c])
        }
    }
}

/// When `s` ends inside a word, there is at least one word.
pub proof fn lemma_words_nonempty(s: Seq<char>)
    requires
        s.len() > 0,
        !is_ws(s.last()),
    ensures
        words(s).len() >= 1,
    decreases s.len(),
{
    if s.len() >= 2 && !is_ws(s[s.len() - 2]) {
        lemma_words_nonempty(s.drop_last());
    }
}

/// The white-space separated words of `s`.
pub fn split_words(s: &[char]) -> (r: Vec<Vec<char>>)
    ensures
        views(r@) == words(s@),
{
    let mut out: Vec<Vec<char>> = Vec::new();
    let n = s.len();
    let mut i: usize = 0;
    assert(s@.subrange(0, 0) =~= Seq::<char>::empty());
    while i < n
        invariant
            i <= n,
            n == s@.len(),
            views(out@) == words(s@.subrange(0, i as int)),
        decreases n - i,
    {
        let ghost sub = s@.subrange(0, i + 1);
        assert(sub.drop_last() =~= s@.subrange(0, i as int));
        let c = s[i];
        if is_whitespace(c) {
        } else if i >= 1 && !is_whitespace(s[i - 1]) {
            proof {
                lemma_words_nonempty(s@.subrange(0, i as int));
            }
            let mut piece = out.pop().unwrap();
            piece.push(c);
            out.push(piece);
        } else {
            let mut piece = Vec::new();
            piece.push(c);
            out.push(piece);
            assert(piece@ =~= seq![c]);
        }
        assert(views(out@) =~= words(sub));
        i = i + 1;
    }
    assert(s@.subrange(0, n as int) =~= s@);
    out
}

/// Whether `c` is an ASCII decimal digit.
pub open spec fn is_digit(c: char) -> bool {
    '0' <= c && c <= '9'
}

/// The value of a decimal digit.
pub open spec fn digit_value(c: char) -> nat {
    (c as int - '0' as int) as nat
}

/// True when `s` is a non-empty run of decimal digits.
pub open spec fn all_digits(s: Seq<char>) -> bool {
    s.len() > 0 && forall|i: int| 0 <= i < s.len() ==> is_digit(#[trigger] s[i])
}

/// The value of the decimal digits `s` (most significant first).
pub open spec fn decimal_value(s: Seq<char>) -> nat
    decreases s.len(),
{
    if s.len() == 0 {
        0
    } else {
        decimal_value(s.drop_last()) * 10 + digit_value(s.last())
    }
}

/// What `str::parse` gives for an unsigned integer: an optional `+` and digits.
pub open spec fn parse_unsigned(s: Seq<char>) -> Option<nat> {
    let body = if s.len() > 0 && s[0] == '+' {
        s.drop_first()
    } else {
        s
    };
    if all_digits(body) {
        Some(decimal_value(body))
    } else {
        None
    }
}

/// What `str::parse` gives for a signed integer: an optional sign and digits.
pub open spec fn parse_signed(s: Seq<char>) -> Option<int> {
    if s.len() > 0 && s[0] == '-' {
        if all_digits(s.drop_first()) {
            Some(-decimal_value(s.drop_first()))
        } else {
            None
        }
    } else {
        match parse_unsigned(s) {
            Some(v) => Some(v as int),
            None => None,
        }
    }
}

/// True when `s` parses as an unsigned integer no larger than `max`.
pub open spec fn parses_unsigned_within(s: Seq<char>, max: int) -> bool {
    parse_unsigned(s) is Some && parse_unsigned(s)->0 <= max
}

/// Digits past the first only make a number larger.
pub proof fn lemma_decimal_prefix_le(s: Seq<char>, k: int)
    requires
        0 <= k <= s.len(),
    ensures
        decimal_value(s.subrange(0, k)) <= decimal_value(s),
    decreases s.len() - k,
{
    if k < s.len() {
        lemma_decimal_prefix_le(s, k + 1);
        assert(s.subrange(0, k + 1).drop_last() =~= s.subrange(0, k));
    } else {
        assert(s.subrange(0, k) =~= s);
    }
}

/// The value of the digits `s[start..end]`, which must fit in a `u64`.
pub fn digits_to_u64(s: &[char], start: usize, end: usize) -> (r: u64)
    requires
        start <= end <= s@.len(),
        forall|i: int| start <= i < end ==> is_digit(#[trigger] s@[i]),
        decimal_value(s@.subrange(start as int, end as int)) <= u64::MAX,
    ensures
        r == decimal_value(s@.subrange(start as int, end as int)),
{
    let ghost whole = s@.subrange(start as int, end as int);
    let mut v: u64 = 0;
    let mut i = start;
    assert(s@.subrange(start as int, start as int) =~= Seq::<char>::empty());
    while i < end
        invariant
            start <= i <= end,
            end <= s@.len(),
            whole == s@.subrange(start as int, end as int),
            forall|j: int| start <= j < end ==> is_digit(#[trigger] s@[j]),
            decimal_value(whole) <= u64::MAX,
            v == decimal_value(s@.subrange(start as int, i as int)),
        decreases end - i,
    {
        let ghost next = s@.subrange(start as int, i + 1);
        assert(next.drop_last() =~= s@.subrange(start as int, i as int));
        assert(next =~= whole.subrange(0, i + 1 - start));
        proof {
            lemma_decimal_prefix_le(whole, i + 1 - start);
        }
        let d = (s[i] as u32 - '0' as u32) as u64;
        v = v * 10 + d;
        i = i + 1;
    }
    v
}

/// `s` parsed as a `u64`, or `None` where `str::parse::<u64>` fails.
pub fn parse_u64(s: &[char]) -> (r: Option<u64>)
    ensures
        match r {
            Some(v) => parses_unsigned_within(s@, u64::MAX as int) && v == parse_unsigned(s@)->0,
            None => !parses_unsigned_within(s@, u64::MAX as int),
        },
{
    let n = s.len();
    let start: usize = if n > 0 && s[0] == '+' {
        1
    } else {
        0
    };
    let ghost body = s@.subrange(start as int, n as int);
    assert(start == 1 ==> body =~= s@.drop_first());
    assert(start == 0 ==> body =~= s@);
    if start == n {
        return None;
    }
    let mut i = start;
    while i < n
        invariant
            start <= i <= n,
            n == s@.len(),
            body == s@.subrange(start as int, n as int),
            start == 1 ==> body == s@.drop_first(),
            start == 0 ==> body == s@,
            (start == 1) == (n > 0 && s@[0] == '+'),
            start <= 1,
            forall|j: int| start <= j < i ==> is_digit(#[trigger] s@[j]),
        decreases n - i,
    {
        if !(s[i] >= '0' && s[i] <= '9') {
            assert(!all_digits(body)) by {
                assert(body[i - start] == s@[i as int]);
            }
            return None;
        }
        i = i + 1;
    }
    assert(all_digits(body)) by {
        assert forall|j: int| 0 <= j < body.len() implies is_digit(#[trigger] body[j]) by {
            assert(body[j] == s@[j + start]);
        }
    }
    // Accumulate with an overflow check at every digit.
    let mut v: u64 = 0;
    let mut k = start;
    assert(s@.subrange(start as int, start as int) =~= Seq::<char>::empty());
    while k < n
        invariant
            start <= k <= n,
            n == s@.len(),
            body == s@.subrange(start as int, n as int),
            start == 1 ==> body == s@.drop_first(),
            start == 0 ==> body == s@,
            (start == 1) == (n > 0 && s@[0] == '+'),
            start <= 1,
            all_digits(body),
            forall|j: int| start <= j < n ==> is_digit(#[trigger] s@[j]),
            v == decimal_value(s@.subrange(start as int, k as int)),
        decreases n - k,
    {
        let ghost next = s@.subrange(start as int, k + 1);
        assert(next.drop_last() =~= s@.subrange(start as int, k as int));
        assert(next =~= body.subrange(0, k + 1 - start));
        let d = (s[k] as u32 - '0' as u32) as u64;
        if v > (u64::MAX - d) / 10 {
            proof {
                lemma_decimal_prefix_le(body, k + 1 - start);
                assert(v * 10 + d > u64::MAX) by (nonlinear_arith)
                    requires
                        v > (u64::MAX - d) / 10,
                        d <= 9,
                ;
                assert(decimal_value(next) == v * 10 + d);
            }
            return None;
        }
        v = v * 10 + d;
        k = k + 1;
    }
    assert(s@.subrange(start as int, n as int) == body);
    Some(v)
}


/// Number of bytes in the UTF-8 encoding of `c`.
pub open spec fn char_utf8_len(c: char) -> nat {
    if (c as u32) < 0x80 {
        1
    } else if (c as u32) < 0x800 {
        2
    } else if (c as u32) < 0x10000 {
        3
    } else {
        4
    }
}

/// Number of bytes in the UTF-8 encoding of `s`, which is what `str::len` reports.
pub open spec fn utf8_len(s: Seq<char>) -> nat
    decreases s.len(),
{
    if s.len() == 0 {
        0
    } else {
        utf8_len(s.drop_last()) + char_utf8_len(s.last())
    }
}

/// The encoding of a prefix is no longer than that of the whole.
pub proof fn lemma_utf8_len_prefix(s: Seq<char>, k: int)
    requires
        0 <= k <= s.len(),
    ensures
        utf8_len(s.subrange(0, k)) <= utf8_len(s),
    decreases s.len() - k,
{
    if k < s.len() {
        lemma_utf8_len_prefix(s, k + 1);
        assert(s.subrange(0, k + 1).drop_last() =~= s.subrange(0, k));
    } else {
        assert(s.subrange(0, k) =~= s);
    }
}

/// Number of bytes in the UTF-8 encoding of `s`.
pub fn utf8_byte_len(s: &[char]) -> (r: usize)
    requires
        utf8_len(s@) <= usize::MAX,
    ensures
        r == utf8_len(s@),
{
    let n = s.len();
    let mut total: usize = 0;
    let mut i: usize = 0;
    assert(s@.subrange(0, 0) =~= Seq::<char>::empty());
    while i < n
        invariant
            i <= n,
            n == s@.len(),
            utf8_len(s@) <= usize::MAX,
            total == utf8_len(s@.subrange(0, i as int)),
        decreases n - i,
    {
        proof {
            lemma_utf8_len_prefix(s@, i + 1);
            assert(s@.subrange(0, i + 1).drop_last() =~= s@.subrange(0, i as int));
        }
        let c = s[i] as u32;
        let w: usize = if c < 0x80 {
            1
        } else if c < 0x800 {
            2
        } else if c < 0x10000 {
            3
        } else {
            4
        };
        total = total + w;
        i = i + 1;
    }
    assert(s@.subrange(0, n as int) =~= s@);
    total
}


/// The bounds `[start, end)` of `s` with leading and trailing `c` removed.
pub fn trim_char_bounds(s: &[char], c: char) -> (r: (usize, usize))
    ensures
        r.0 <= r.1 <= s@.len(),
        s@.subrange(r.0 as int, r.1 as int) == trim_char(s@, c),
{
    let n = s.len();
    let mut i: usize = 0;
    assert(s@.subrange(0, n as int) =~= s@);
    while i < n && s[i] == c
        invariant
            i <= n,
            n == s@.len(),
            trim_char(s@, c) == trim_char(s@.subrange(i as int, n as int), c),
        decreases n - i,
    {
        assert(s@.subrange(i as int, n as int).drop_first() =~= s@.subrange(i + 1, n as int));
        i = i + 1;
    }
    let mut j: usize = n;
    while j > i && s[j - 1] == c
        invariant
            i <= j <= n,
            n == s@.len(),
            i < n ==> s@[i as int] != c,
            trim_char(s@, c) == trim_char(s@.subrange(i as int, j as int), c),
        decreases j,
    {
        let ghost sub = s@.subrange(i as int, j as int);
        assert(sub.drop_last() =~= s@.subrange(i as int, j - 1));
        assert(sub[0] == s@[i as int]);
        j = j - 1;
    }
    proof {
        let sub = s@.subrange(i as int, j as int);
        if sub.len() > 0 {
            assert(sub[0] == s@[i as int]);
            assert(sub.last() == s@[j - 1]);
        } else {
            assert(sub =~= Seq::<char>::empty());
        }
    }
    (i, j)
}

/// The decimal digits of `n`, most significant first, as `Display` writes them.
pub open spec fn decimal(n: nat) -> Seq<char>
    decreases n,
{
    if n < 10 {
        seq![('0' as u8 + n as u8) as char]
    } else {
        decimal(n / 10).push(('0' as u8 + (n % 10) as u8) as char)
    }
}

/// An integer as `Display` writes it: a minus sign for negatives, then the digits.
pub open spec fn signed_decimal(n: int) -> Seq<char> {
    if n < 0 {
        seq!['-'] + decimal((-n) as nat)
    } else {
        decimal(n as nat)
    }
}


/// True when `s` parses as a signed integer within `[min, max]`.
pub open spec fn parses_signed_within(s: Seq<char>, min: int, max: int) -> bool {
    parse_signed(s) is Some && min <= parse_signed(s)->0 <= max
}

/// `s` parsed as an `i64`, or `None` where `str::parse::<i64>` fails.
pub fn parse_i64(s: &[char]) -> (r: Option<i64>)
    ensures
        match r {
            Some(v) => parses_signed_within(s@, i64::MIN as int, i64::MAX as int) && v == parse_signed(
                s@,
            )->0,
            None => !parses_signed_within(s@, i64::MIN as int, i64::MAX as int),
        },
{
    let n = s.len();
    if n > 0 && s[0] == '-' {
        if n == 1 || s[1] == '+' {
            proof {
                if n > 1 {
                    assert(!is_digit(s@.drop_first()[0]));
                }
            }
            return None;
        }
        let rest = &s[1..n];
        assert(rest@ =~= s@.drop_first());
        match parse_u64(rest) {
            Some(m) => {
                assert(parse_unsigned(rest@) == Some(decimal_value(rest@)));
                if m <= 0x8000_0000_0000_0000 {
                    let v: i64 = if m == 0x8000_0000_0000_0000 {
                        i64::MIN
                    } else {
                        -(m as i64)
                    };
                    Some(v)
                } else {
                    None
                }
            },
            None => {
                proof {
                    if all_digits(s@.drop_first()) {
                        assert(parse_unsigned(rest@) == Some(decimal_value(rest@)));
                    }
                }
                None
            },
        }
    } else {
        match parse_u64(s) {
            Some(m) => {
                if m <= i64::MAX as u64 {
                    Some(m as i64)
                } else {
                    None
                }
            },
            None => None,
        }
    }
}

/// `s` parsed as an `i32`, or `None` where `str::parse::<i32>` fails.
pub fn parse_i32(s: &[char]) -> (r: Option<i32>)
    ensures
        match r {
            Some(v) => parses_signed_within(s@, i32::MIN as int, i32::MAX as int) && v == parse_signed(
                s@,
            )->0,
            None => !parses_signed_within(s@, i32::MIN as int, i32::MAX as int),
        },
{
    match parse_i64(s) {
        Some(v) => {
            if i32::MIN as i64 <= v && v <= i32::MAX as i64 {
                Some(v as i32)
            } else {
                None
            }
        },
        None => None,
    }
}


/// Index of the first `c` in `s`, or -1 when there is none.
pub open spec fn first_index(s: Seq<char>, c: char) -> int
    decreases s.len(),
{
    if s.len() == 0 {
        -1
    } else if s[0] == c {
        0
    } else {
        let r = first_index(s.drop_first(), c);
        if r < 0 {
            -1
        } else {
            r + 1
        }
    }
}

/// `first_index` finds the earliest occurrence, and -1 means there is none.
pub proof fn lemma_first_index(s: Seq<char>, c: char)
    ensures
        -1 <= first_index(s, c) < s.len(),
        first_index(s, c) >= 0 ==> s[first_index(s, c)] == c,
        forall|j: int| 0 <= j < s.len() && (first_index(s, c) < 0 || j < first_index(s, c)) ==> s[j] != c,
    decreases s.len(),
{
    if s.len() > 0 && s[0] != c {
        lemma_first_index(s.drop_first(), c);
        assert forall|j: int| 0 <= j < s.len() && (first_index(s, c) < 0 || j < first_index(s, c)) implies s[j] != c by {
            if j > 0 {
                assert(s[j] == s.drop_first()[j - 1]);
            }
        }
    }
}

/// The position of the first `c` in `s`.
pub fn find_char(s: &[char], c: char) -> (r: Option<usize>)
    ensures
        match r {
            Some(i) => i == first_index(s@, c),
            None => first_index(s@, c) == -1,
        },
{
    proof {
        lemma_first_index(s@, c);
    }
    let n = s.len();
    let mut i: usize = 0;
    while i < n
        invariant
            i <= n,
            n == s@.len(),
            forall|j: int| 0 <= j < i ==> s@[j] != c,
        decreases n - i,
    {
        if s[i] == c {
            proof {
                lemma_first_index(s@, c);
            }
            return Some(i);
        }
        i = i + 1;
    }
    proof {
        lemma_first_index(s@, c);
    }
    None
}

/// The pieces joined with `sep` between neighbours.
pub open spec fn join(pieces: Seq<Seq<char>>, sep: Seq<char>) -> Seq<char>
    decreases pieces.len(),
{
    if pieces.len() == 0 {
        Seq::empty()
    } else if pieces.len() == 1 {
        pieces[0]
    } else {
        join(pieces.drop_last(), sep) + sep + pieces.last()
    }
}

/// Appends `more` to `buf`.
pub fn append_chars(buf: &mut Vec<char>, more: &Vec<char>)
    ensures
        final(buf)@ == old(buf)@ + more@,
{
    for i in 0..more.len()
        invariant
            buf@ == old(buf)@ + more@.take(i as int),
    {
        buf.push(more[i]);
        assert(more@.take(i + 1) =~= more@.take(i as int).push(more@[i as int]));
    }
    assert(more@.take(more@.len() as int) =~= more@);
}


/// The decimal digits of `n` are digits, and they spell `n`.
pub proof fn lemma_decimal(n: nat)
    ensures
        decimal(n).len() >= 1,
        forall|i: int| 0 <= i < decimal(n).len() ==> is_digit(#[trigger] decimal(n)[i]),
        decimal_value(decimal(n)) == n,
    decreases n,
{
    if n >= 10 {
        lemma_decimal(n / 10);
        let s = decimal(n);
        assert(s.drop_last() =~= decimal(n / 10));
        let d = (n % 10) as u8;
        assert(('0' as u8 + d) as u8 == 48 + d);
        assert((('0' as u8 + d) as u8 as char) as int == 48 + d);
        assert(digit_value(s.last()) == n % 10);
        assert(n == (n / 10) * 10 + n % 10);
        assert(decimal_value(s) == decimal_value(s.drop_last()) * 10 + digit_value(s.last()));
    } else {
        let s = decimal(n);
        assert(s.drop_last() =~= Seq::<char>::empty());
        let d = n as u8;
        assert((('0' as u8 + d) as u8 as char) as int == 48 + d);
        assert(digit_value(s.last()) == n);
        assert(decimal_value(s) == decimal_value(s.drop_last()) * 10 + digit_value(s.last()));
    }
}

/// The value of digits followed by more digits.
pub proof fn lemma_decimal_concat(p: Seq<char>, q: Seq<char>)
    ensures
        decimal_value(p + q) == decimal_value(p) * vstd::arithmetic::power::pow(10, q.len()) + decimal_value(q),
    decreases q.len(),
{
    if q.len() == 0 {
        assert(p + q =~= p);
        vstd::arithmetic::power::lemma_pow0(10);
    } else {
        let q1 = q.drop_last();
        lemma_decimal_concat(p, q1);
        assert((p + q).drop_last() =~= p + q1);
        assert((p + q).last() == q.last());
        vstd::arithmetic::power::lemma_pow1(10);
        vstd::arithmetic::power::lemma_pow_adds(10, q1.len(), 1);
        let a = decimal_value(p);
        let b = decimal_value(q1);
        let w = vstd::arithmetic::power::pow(10, q1.len());
        assert((a * w + b) * 10 + digit_value(q.last()) == a * (w * 10) + (b * 10 + digit_value(
            q.last(),
        ))) by (nonlinear_arith);
    }
}

/// Length of the run of digits (or, with `commas`, digits and commas) at `i`.
pub open spec fn run_len(s: Seq<char>, i: int, commas: bool) -> nat
    decreases s.len() - i,
{
    if 0 <= i < s.len() && (is_digit(s[i]) || (commas && s[i] == ',')) {
        1 + run_len(s, i + 1, commas)
    } else {
        0
    }
}

/// `lit` stands in `s` at `i`.
pub open spec fn lit_at(s: Seq<char>, i: int, lit: Seq<char>) -> bool {
    0 <= i && i + lit.len() <= s.len() && s.subrange(i, i + lit.len()) == lit
}

/// Whether `lit` stands in `s` at `i`.
pub fn lit_at_exec(s: &[char], i: usize, lit: &str) -> (r: bool)
    ensures
        r == lit_at(s@, i as int, lit@),
{
    let n = lit.unicode_len();
    if i > s.len() || n > s.len() - i {
        return false;
    }
    let mut k: usize = 0;
    while k < n
        invariant
            k <= n,
            n == lit@.len(),
            i + n <= s@.len(),
            s@.len() <= usize::MAX,
            forall|j: int| 0 <= j < k ==> s@[i + j] == lit@[j],
        decreases n - k,
    {
        let idx = i + k;
        if s[idx] != lit.get_char(k) {
            assert(s@.subrange(i as int, i + n)[k as int] != lit@[k as int]);
            return false;
        }
        k = k + 1;
    }
    assert(s@.subrange(i as int, i + n) =~= lit@);
    true
}

/// Length of the run of digits (or digits and commas) at `i`.
pub fn run_len_exec(s: &[char], i: usize, commas: bool) -> (r: usize)
    requires
        i <= s@.len(),
    ensures
        r == run_len(s@, i as int, commas),
        i + r <= s@.len(),
{
    let mut j = i;
    while j < s.len() && ((s[j] >= '0' && s[j] <= '9') || (commas && s[j] == ','))
        invariant
            i <= j <= s@.len(),
            run_len(s@, i as int, commas) == (j - i) + run_len(s@, j as int, commas),
        decreases s@.len() - j,
    {
        j = j + 1;
    }
    j - i
}

/// Every character of a run is a digit, or a comma where commas are allowed.
pub proof fn lemma_run_len(s: Seq<char>, i: int, commas: bool)
    requires
        0 <= i,
    ensures
        i + run_len(s, i, commas) <= s.len() || run_len(s, i, commas) == 0,
        forall|j: int|
            i <= j < i + run_len(s, i, commas) ==> is_digit(#[trigger] s[j]) || (commas && s[j]
                == ','),
    decreases s.len() - i,
{
    if 0 <= i < s.len() && (is_digit(s[i]) || (commas && s[i] == ',')) {
        lemma_run_len(s, i + 1, commas);
    }
}

/// Gathers characters into a `String` (std's `FromIterator<char>` for `String`).
#[verifier::external_body]
pub(crate) fn string_from_chars(chars: &Vec<char>) -> (r: String)
    ensures
        r@ == chars@,
{
    chars.iter().collect()
}

/// The decimal digits of `n`.
pub fn decimal_digits(n: u64) -> (r: Vec<char>)
    ensures
        r@ == decimal(n as nat),
        r@.len() >= 1,
    decreases n,
{
    if n < 10 {
        let mut v = Vec::new();
        v.push(('0' as u8 + n as u8) as char);
        assert(v@ =~= decimal(n as nat));
        v
    } else {
        let mut v = decimal_digits(n / 10);
        v.push(('0' as u8 + (n % 10) as u8) as char);
        v
    }
}


/// Index of the first place where `a` is directly followed by `b` in `s`, or -1.
pub open spec fn first_index2(s: Seq<char>, a: char, b: char) -> int
    decreases s.len(),
{
    if s.len() < 2 {
        -1
    } else if s[0] == a && s[1] == b {
        0
    } else {
        let r = first_index2(s.drop_first(), a, b);
        if r < 0 {
            -1
        } else {
            r + 1
        }
    }
}

/// `first_index2` finds the earliest occurrence of the pair, and -1 means there is none.
pub proof fn lemma_first_index2(s: Seq<char>, a: char, b: char)
    ensures
        -1 <= first_index2(s, a, b) < s.len() - 1 || first_index2(s, a, b) == -1,
        first_index2(s, a, b) >= 0 ==> s[first_index2(s, a, b)] == a && s[first_index2(s, a, b) + 1] == b,
        forall|j: int|
            0 <= j < s.len() - 1 && (first_index2(s, a, b) < 0 || j < first_index2(s, a, b)) ==> !(
            #[trigger] s[j] == a && s[j + 1] == b),
    decreases s.len(),
{
    if s.len() >= 2 && !(s[0] == a && s[1] == b) {
        lemma_first_index2(s.drop_first(), a, b);
        assert forall|j: int|
            0 <= j < s.len() - 1 && (first_index2(s, a, b) < 0 || j < first_index2(s, a, b)) implies !(
            #[trigger] s[j] == a && s[j + 1] == b) by {
            if j > 0 {
                assert(s[j] == s.drop_first()[j - 1]);
                assert(s[j + 1] == s.drop_first()[j]);
            }
        }
    }
}

/// The position of the first `a` directly followed by `b` in `s[start..end]`, relative to `start`.
pub fn find_pair(s: &[char], start: usize, end: usize, a: char, b: char) -> (r: Option<usize>)
    requires
        start <= end <= s@.len(),
    ensures
        match r {
            Some(i) => i == first_index2(s@.subrange(start as int, end as int), a, b),
            None => first_index2(s@.subrange(start as int, end as int), a, b) == -1,
        },
{
    let ghost sub = s@.subrange(start as int, end as int);
    proof {
        lemma_first_index2(sub, a, b);
    }
    let mut i: usize = start;
    while end - i > 1
        invariant
            start <= i <= end,
            end <= s@.len(),
            sub == s@.subrange(start as int, end as int),
            forall|j: int| 0 <= j < i - start ==> !(#[trigger] sub[j] == a && sub[j + 1] == b),
        decreases end - i,
    {
        if s[i] == a && s[i + 1] == b {
            assert(sub[i - start] == a && sub[i - start + 1] == b);
            proof {
                lemma_first_index2(sub, a, b);
            }
            return Some(i - start);
        }
        i = i + 1;
    }
    proof {
        lemma_first_index2(sub, a, b);
    }
    None
}


/// The pieces of `s` after trimming it: `s.trim().split(sep)`.
pub fn trimmed_split(s: &[char], sep: char) -> (r: Vec<Vec<char>>)
    ensures
        views(r@) == split(trim(s@), sep),
        r@.len() >= 1,
{
    let (start, end) = trim_bounds(s);
    let r = split_range(s, start, end, sep);
    proof {
        lemma_split_nonempty(trim(s@), sep);
    }
    r
}

/// Parsing what `Display` writes gives the number back, signed or not.
pub proof fn lemma_parse_display_round_trip(n: nat, x: int)
    ensures
        parse_unsigned(decimal(n)) == Some(n),
        parse_signed(signed_decimal(x)) == Some(x),
{
    lemma_decimal(n);
    assert(is_digit(decimal(n)[0]));
    if x < 0 {
        let m = (-x) as nat;
        lemma_decimal(m);
        assert((seq!['-'] + decimal(m)).drop_first() =~= decimal(m));
    } else {
        lemma_decimal(x as nat);
        assert(is_digit(decimal(x as nat)[0]));
    }
}

} // verus!
