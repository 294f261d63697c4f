//! Reading lines of white-space separated integers.

use vstd::prelude::*;

use crate::text::{parse_i32, parse_signed, parses_signed_within, split, split_words, trim, trimmed_lines, views, words};

verus! {

/// The lines of the trimmed text.
pub open spec fn row_lines(text: Seq<char>) -> Seq<Seq<char>> {
    split(trim(text), '\n')
}

/// Every word of every line parses as an `i32`.
pub open spec fn int_rows_ok(text: Seq<char>) -> bool {
    forall|i: int, j: int|
        #![trigger words(row_lines(text)[i])[j]]
        0 <= i < row_lines(text).len() && 0 <= j < words(row_lines(text)[i]).len()
            ==> parses_signed_within(words(row_lines(text)[i])[j], i32::MIN as int, i32::MAX as int)
}

/// The integers of each line.
pub open spec fn int_rows(text: Seq<char>) -> Seq<Seq<i32>> {
    row_lines(text).map_values(
        |l: Seq<char>| words(l).map_values(|w: Seq<char>| parse_signed(w)->0 as i32),
    )
}

/// The integers of each line of `input`, one vector per line.
pub fn read_int_rows(input: &str) -> (r: Vec<Vec<i32>>)
    requires
        int_rows_ok(input@),
    ensures
        r@.len() == int_rows(input@).len(),
        forall|i: int| 0 <= i < r@.len() ==> #[trigger] r@[i]@ == int_rows(input@)[i],
{
    let lines = trimmed_lines(input);
    let ghost ls = row_lines(input@);
    let mut out: Vec<Vec<i32>> = Vec::new();
    for i in 0..lines.len()
        invariant
            views(lines@) == ls,
            ls == row_lines(input@),
            int_rows_ok(input@),
            out@.len() == i,
            forall|k: int| 0 <= k < i ==> #[trigger] out@[k]@ == int_rows(input@)[k],
    {
        assert(lines@[i as int]@ == ls[i as int]);
        let ws = split_words(lines[i].as_slice());
        let ghost wl = words(ls[i as int]);
        let mut parts: Vec<i32> = Vec::new();
        for j in 0..ws.len()
            invariant
                views(ws@) == wl,
                wl == words(ls[i as int]),
                ls == row_lines(input@),
                i < ls.len(),
                int_rows_ok(input@),
                parts@.len() == j,
                forall|k: int| 0 <= k < j ==> #[trigger] parts@[k] == parse_signed(wl[k])->0 as i32,
        {
            assert(ws@[j as int]@ == wl[j as int]);
            assert(parses_signed_within(words(row_lines(input@)[i as int])[j as int], i32::MIN as int, i32::MAX as int));
            let v = match parse_i32(ws[j].as_slice()) {
                Some(v) => v,
                None => 0,
            };
            parts.push(v);
        }
        assert(parts@ =~= int_rows(input@)[i as int]);
        out.push(parts);
    }
    out
}

} // verus!
