//! A dial with positions 0..=99 turned left and right: count how often it
//! rests on 0, and how often it passes 0.

use vstd::prelude::*;

use crate::grid::fits_i32;
use crate::text::{chars_of, parse_i32, parse_signed, parses_signed_within, split, trim, trimmed_lines, views};

verus! {

/// A move: rotating the dial left (negative) or right (positive).
#[derive(Debug, Clone, PartialEq, Eq, Structural)]
pub struct Move(pub i32);

/// A position: a dial state that can be normalized to the range [0, 99].
#[derive(Debug, Clone, PartialEq, Eq, Structural)]
pub struct Position(pub i32);

/// The signed amount a move line such as `L68` or `R48` turns the dial.
pub open spec fn move_value(line: Seq<char>) -> int {
    let n = parse_signed(line.drop_first())->0;
    if line[0] == 'L' {
        -n
    } else {
        n
    }
}

/// A move line is `L` or `R` followed by an `i32`, and the signed amount fits in an `i32`.
pub open spec fn valid_move_line(line: Seq<char>) -> bool {
    &&& line.len() >= 1
    &&& (line[0] == 'L' || line[0] == 'R')
    &&& parses_signed_within(line.drop_first(), i32::MIN as int, i32::MAX as int)
    &&& fits_i32(move_value(line))
}

impl Move {
    /// Creates a Move based on an input line.
    pub fn from_line(line: &str) -> (r: Self)
        requires
            valid_move_line(line@),
        ensures
            r.0 == move_value(line@),
    {
        let chars = chars_of(line);
        Self::from_chars(&chars)
    }

    fn from_chars(line: &Vec<char>) -> (r: Self)
        requires
            valid_move_line(line@),
        ensures
            r.0 == move_value(line@),
    {
        let dir = line[0];
        let rest = &line.as_slice()[1..line.len()];
        assert(rest@ =~= line@.drop_first());
        let n = parse_i32(rest).unwrap();
        if dir == 'L' {
            Move(-n)
        } else {
            Move(n)
        }
    }
}

/// The zero crossings of a move from `p0` by `m`: for a right turn the number of
/// multiples of 100 in `(p0, p0 + m]`, for a left turn the number in `[p0 + m, p0)`,
/// both counted by Euclidean division.
pub open spec fn clicks(p0: int, m: int) -> nat {
    let p1 = p0 + m;
    let d = if m >= 0 {
        p1 / 100 - p0 / 100
    } else {
        (-p0) / 100 - (-p1) / 100
    };
    if d < 0 {
        (-d) as nat
    } else {
        d as nat
    }
}

impl Position {
    /// Creates a new Position by applying a Move.
    pub fn apply(&self, m: &Move) -> (r: Position)
        requires
            fits_i32(self.0 + m.0),
        ensures
            r.0 == self.0 + m.0,
    {
        Position(self.0 + m.0)
    }

    /// Creates a new Position by applying a Move while counting clicks at 0.
    pub fn apply_counted(&self, m: &Move) -> (r: (Position, u32))
        requires
            fits_i32(self.0 + m.0),
            self.0 != i32::MIN,
            self.0 + m.0 != i32::MIN,
        ensures
            r.0.0 == self.0 + m.0,
            r.1 == clicks(self.0 as int, m.0 as int),
    {
        let pos0 = self.0;
        let pos1 = self.0 + m.0;
        let (a, b) = if m.0 >= 0 {
            (pos1, pos0)
        } else {
            (-pos0, -pos1)
        };
        let qa = a.checked_div_euclid(100).unwrap();
        let qb = b.checked_div_euclid(100).unwrap();
        let d = qa - qb;
        let delta_zeros: u32 = if d < 0 {
            (-(d as i64)) as u32
        } else {
            d as u32
        };
        (Position(pos1), delta_zeros)
    }

    /// The position normalized to the range [0, 99].
    pub fn pos(&self) -> (r: i32)
        ensures
            r == self.0 % 100,
            0 <= r < 100,
    {
        self.0.checked_rem_euclid(100).unwrap()
    }
}

/// The lines of a move list: `text.trim().split('\n')`.
pub open spec fn move_lines(text: Seq<char>) -> Seq<Seq<char>> {
    split(trim(text), '\n')
}

/// Reads input text into a `Vec<Move>`.
pub fn parse_moves(text: &str) -> (r: Vec<Move>)
    requires
        forall|i: int| 0 <= i < move_lines(text@).len() ==> valid_move_line(#[trigger] move_lines(text@)[i]),
    ensures
        r@.len() == move_lines(text@).len(),
        forall|i: int| 0 <= i < r@.len() ==> (#[trigger] r@[i]).0 == move_value(move_lines(text@)[i]),
{
    let lines = trimmed_lines(text);
    let ghost ls = move_lines(text@);
    let mut out: Vec<Move> = Vec::new();
    for i in 0..lines.len()
        invariant
            views(lines@) == ls,
            ls == move_lines(text@),
            forall|j: int| 0 <= j < ls.len() ==> valid_move_line(#[trigger] ls[j]),
            out@.len() == i,
            forall|j: int| 0 <= j < i ==> (#[trigger] out@[j]).0 == move_value(ls[j]),
    {
        assert(lines@[i as int]@ == ls[i as int]);
        out.push(Move::from_chars(&lines[i]));
    }
    out
}

/// The dial position (not normalized) after the moves, starting from `start`.
pub open spec fn dial_after(start: int, moves: Seq<Move>) -> int
    decreases moves.len(),
{
    if moves.len() == 0 {
        start
    } else {
        dial_after(start, moves.drop_last()) + moves.last().0
    }
}

/// Every intermediate dial position fits in an `i32` and is not `i32::MIN`.
pub open spec fn dial_fits(start: int, moves: Seq<Move>) -> bool {
    forall|k: int|
        0 <= k <= moves.len() ==> i32::MIN < #[trigger] dial_after(start, moves.take(k)) <= i32::MAX
}

/// Number of moves after which the dial rests on 0.
pub open spec fn zero_landings(start: int, moves: Seq<Move>) -> nat
    decreases moves.len(),
{
    if moves.len() == 0 {
        0
    } else {
        zero_landings(start, moves.drop_last()) + if dial_after(start, moves) % 100 == 0 {
            1nat
        } else {
            0nat
        }
    }
}

/// Total zero crossings over all the moves.
pub open spec fn total_clicks(start: int, moves: Seq<Move>) -> nat
    decreases moves.len(),
{
    if moves.len() == 0 {
        0
    } else {
        total_clicks(start, moves.drop_last()) + clicks(
            dial_after(start, moves.drop_last()),
            moves.last().0 as int,
        )
    }
}

/// Returns the part1 result: how often the dial, starting at 50, rests on 0.
pub fn part1(moves: &Vec<Move>) -> (r: u32)
    requires
        dial_fits(50, moves@),
        moves@.len() <= u32::MAX,
    ensures
        r == zero_landings(50, moves@),
{
    let mut position = Position(50);
    let mut num_zeros: u32 = 0;
    assert(moves@.take(0) =~= Seq::<Move>::empty());
    for i in 0..moves.len()
        invariant
            dial_fits(50, moves@),
            moves@.len() <= u32::MAX,
            position.0 == dial_after(50, moves@.take(i as int)),
            num_zeros == zero_landings(50, moves@.take(i as int)),
            num_zeros <= i,
    {
        let ghost next = moves@.take(i + 1);
        assert(next.drop_last() =~= moves@.take(i as int));
        assert(i32::MIN < dial_after(50, next) <= i32::MAX);
        position = position.apply(&moves[i]);
        if position.pos() == 0 {
            num_zeros += 1;
        }
    }
    assert(moves@.take(moves@.len() as int) =~= moves@);
    num_zeros
}

/// Returns the part2 result: how often the dial, starting at 50, passes or lands on 0.
pub fn part2(moves: &Vec<Move>) -> (r: u32)
    requires
        dial_fits(50, moves@),
        total_clicks(50, moves@) <= u32::MAX,
    ensures
        r == total_clicks(50, moves@),
{
    let mut position = Position(50);
    let mut num_zeros: u32 = 0;
    assert(moves@.take(0) =~= Seq::<Move>::empty());
    for i in 0..moves.len()
        invariant
            dial_fits(50, moves@),
            total_clicks(50, moves@) <= u32::MAX,
            position.0 == dial_after(50, moves@.take(i as int)),
            num_zeros == total_clicks(50, moves@.take(i as int)),
    {
        let ghost next = moves@.take(i + 1);
        assert(next.drop_last() =~= moves@.take(i as int));
        assert(i32::MIN < dial_after(50, next) <= i32::MAX);
        assert(i32::MIN < dial_after(50, moves@.take(i as int)) <= i32::MAX);
        proof {
            lemma_total_clicks_prefix(50, moves@, i + 1);
        }
        let (new_position, n) = position.apply_counted(&moves[i]);
        position = new_position;
        num_zeros += n;
    }
    assert(moves@.take(moves@.len() as int) =~= moves@);
    num_zeros
}

/// The clicks of a prefix of the moves are no more than those of all of them.
proof fn lemma_total_clicks_prefix(start: int, moves: Seq<Move>, k: int)
    requires
        0 <= k <= moves.len(),
    ensures
        total_clicks(start, moves.take(k)) <= total_clicks(start, moves),
    decreases moves.len() - k,
{
    if k < moves.len() {
        lemma_total_clicks_prefix(start, moves, k + 1);
        assert(moves.take(k + 1).drop_last() =~= moves.take(k));
    } else {
        assert(moves.take(k) =~= moves);
    }
}

/// Number of multiples of 100 in `(lo, hi]`, counted one position at a time.
pub open spec fn multiples_in(lo: int, hi: int) -> nat
    decreases hi - lo,
{
    if hi <= lo {
        0
    } else {
        multiples_in(lo, hi - 1) + if hi % 100 == 0 {
            1nat
        } else {
            0nat
        }
    }
}

proof fn lemma_multiples_in_div(lo: int, hi: int)
    requires
        lo <= hi,
    ensures
        multiples_in(lo, hi) == hi / 100 - lo / 100,
    decreases hi - lo,
{
    if hi > lo {
        lemma_multiples_in_div(lo, hi - 1);
        vstd::arithmetic::div_mod::lemma_fundamental_div_mod(hi, 100);
        vstd::arithmetic::div_mod::lemma_fundamental_div_mod(hi - 1, 100);
        vstd::arithmetic::div_mod::lemma_mod_bound(hi, 100);
        vstd::arithmetic::div_mod::lemma_mod_bound(hi - 1, 100);
    }
}

/// A move's clicks are exactly the multiples of 100 it reaches: those in
/// `(p0, p0 + m]` when turning right, and in `[p0 + m, p0)` when turning left.
pub proof fn lemma_clicks_count_zeros(p0: int, m: int)
    ensures
        m >= 0 ==> clicks(p0, m) == multiples_in(p0, p0 + m),
        m < 0 ==> clicks(p0, m) == multiples_in(-p0, -(p0 + m)),
{
    if m >= 0 {
        lemma_multiples_in_div(p0, p0 + m);
    } else {
        lemma_multiples_in_div(-p0, -(p0 + m));
    }
}

} // verus!
