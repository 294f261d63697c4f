//! A three-bit computer: registers A, B and C, a program of opcode/operand
//! pairs, and an output list.

use vstd::arithmetic::power2::{lemma_pow2_pos, pow2};
use vstd::prelude::*;
use vstd::string::StrSliceExecFns;

use crate::text::{
    append_chars, chars_of, decimal, decimal_digits, decimal_value, digits_to_u64, is_digit, join,
    lemma_run_len, lit_at, lit_at_exec, parse_u64, parse_unsigned, run_len, run_len_exec, split,
    split_range, string_from_chars, views,
};

verus! {

/// The eight instructions of the machine.
#[derive(Clone, Copy, Debug, PartialEq, Eq, Structural)]
pub enum Opcode {
    Adv,
    Bxl,
    Bst,
    Jnz,
    Bxc,
    Out,
    Bdv,
    Cdv,
}

/// The opcode numbered `c`.
pub open spec fn opcode_of(c: int) -> Opcode {
    if c == 0 {
        Opcode::Adv
    } else if c == 1 {
        Opcode::Bxl
    } else if c == 2 {
        Opcode::Bst
    } else if c == 3 {
        Opcode::Jnz
    } else if c == 4 {
        Opcode::Bxc
    } else if c == 5 {
        Opcode::Out
    } else if c == 6 {
        Opcode::Bdv
    } else {
        Opcode::Cdv
    }
}

/// The number of an opcode.
pub open spec fn opcode_number(op: Opcode) -> u8 {
    match op {
        Opcode::Adv => 0,
        Opcode::Bxl => 1,
        Opcode::Bst => 2,
        Opcode::Jnz => 3,
        Opcode::Bxc => 4,
        Opcode::Out => 5,
        Opcode::Bdv => 6,
        Opcode::Cdv => 7,
    }
}

/// The name of an opcode.
pub open spec fn opcode_name(op: Opcode) -> Seq<char> {
    match op {
        Opcode::Adv => "Adv"@,
        Opcode::Bxl => "Bxl"@,
        Opcode::Bst => "Bst"@,
        Opcode::Jnz => "Jnz"@,
        Opcode::Bxc => "Bxc"@,
        Opcode::Out => "Out"@,
        Opcode::Bdv => "Bdv"@,
        Opcode::Cdv => "Cdv"@,
    }
}

impl Opcode {
    /// The opcode numbered `c`, which is below 8.
    pub fn from_u8(c: u8) -> (r: Self)
        requires
            c < 8,
        ensures
            r == opcode_of(c as int),
    {
        if c == 0 {
            Opcode::Adv
        } else if c == 1 {
            Opcode::Bxl
        } else if c == 2 {
            Opcode::Bst
        } else if c == 3 {
            Opcode::Jnz
        } else if c == 4 {
            Opcode::Bxc
        } else if c == 5 {
            Opcode::Out
        } else if c == 6 {
            Opcode::Bdv
        } else {
            Opcode::Cdv
        }
    }

    /// The number of this opcode.
    pub fn as_digit(&self) -> (r: u8)
        ensures
            r == opcode_number(*self),
    {
        match self {
            Opcode::Adv => 0,
            Opcode::Bxl => 1,
            Opcode::Bst => 2,
            Opcode::Jnz => 3,
            Opcode::Bxc => 4,
            Opcode::Out => 5,
            Opcode::Bdv => 6,
            Opcode::Cdv => 7,
        }
    }

    /// The name of this opcode, as text.
    pub fn to_string(&self) -> (r: String)
        ensures
            r@ == opcode_name(*self),
    {
        let name = match self {
            Opcode::Adv => "Adv",
            Opcode::Bxl => "Bxl",
            Opcode::Bst => "Bst",
            Opcode::Jnz => "Jnz",
            Opcode::Bxc => "Bxc",
            Opcode::Out => "Out",
            Opcode::Bdv => "Bdv",
            Opcode::Cdv => "Cdv",
        };
        String::from_str(name)
    }
}

/// An operand: a value below 8.
#[derive(Clone, Copy, Debug, PartialEq, Eq, Structural)]
pub struct Operand(pub u8);

/// An opcode and its operand.
#[derive(Clone, Copy, Debug, PartialEq, Eq, Structural)]
pub struct Instruction {
    pub opcode: Opcode,
    pub operand: Operand,
}

/// The machine: registers, program, instruction pointer and output.
#[derive(Debug)]
pub struct Computer {
    pub a: u64,
    pub b: u64,
    pub c: u64,
    pub prog: Vec<Instruction>,
    pub ptr: usize,
    pub out: Vec<u64>,
}

/// The state of a machine as plain values.
pub struct Machine {
    pub a: u64,
    pub b: u64,
    pub c: u64,
    pub prog: Seq<Instruction>,
    pub ptr: usize,
    pub out: Seq<u64>,
}

impl View for Computer {
    type V = Machine;

    open spec fn view(&self) -> Machine {
        Machine {
            a: self.a,
            b: self.b,
            c: self.c,
            prog: self.prog@,
            ptr: self.ptr,
            out: self.out@,
        }
    }
}

/// The value of a combo operand: 0 to 3 themselves, 4 to 6 the registers A to C.
pub open spec fn combo(v: u8, m: Machine) -> u64 {
    if v <= 3 {
        v as u64
    } else if v == 4 {
        m.a
    } else if v == 5 {
        m.b
    } else {
        m.c
    }
}

/// The machine has run off the end of its program.
pub open spec fn halted(m: Machine) -> bool {
    m.ptr >= m.prog.len()
}

/// The current instruction can be executed: a combo operand is below 7 and a
/// shift amount, taken as a `u32`, is below 64.
pub open spec fn step_ok(m: Machine) -> bool {
    halted(m) || {
        let ins = m.prog[m.ptr as int];
        let v = ins.operand.0;
        match ins.opcode {
            Opcode::Adv | Opcode::Bdv | Opcode::Cdv => v < 7 && (combo(v, m) as u32) < 64,
            Opcode::Bst | Opcode::Out => v < 7,
            _ => true,
        }
    }
}

/// `a` divided by two to the power of the combo operand.
pub open spec fn shifted_a(v: u8, m: Machine) -> u64 {
    (m.a / (pow2((combo(v, m) as u32) as nat) as u64)) as u64
}

/// The machine after executing its current instruction.
pub open spec fn step_machine(m: Machine) -> Machine {
    let ins = m.prog[m.ptr as int];
    let v = ins.operand.0;
    let next = (m.ptr + 1) as usize;
    match ins.opcode {
        Opcode::Adv => Machine { a: shifted_a(v, m), ptr: next, ..m },
        Opcode::Bxl => Machine { b: m.b ^ (v as u64), ptr: next, ..m },
        Opcode::Bst => Machine { b: combo(v, m) % 8, ptr: next, ..m },
        Opcode::Jnz => Machine {
            ptr: if m.a != 0 {
                v as usize
            } else {
                next
            },
            ..m
        },
        Opcode::Bxc => Machine { b: m.b ^ m.c, ptr: next, ..m },
        Opcode::Out => Machine { out: m.out.push(combo(v, m) % 8), ptr: next, ..m },
        Opcode::Bdv => Machine { b: shifted_a(v, m), ptr: next, ..m },
        Opcode::Cdv => Machine { c: shifted_a(v, m), ptr: next, ..m },
    }
}

/// What one instruction does. With `x` the value of the combo operand (0 to 3
/// itself, 4 to 6 registers A to C) and `2^x` taken with `x` cut to 32 bits:
/// `adv`, `bdv` and `cdv` write A divided by `2^x` into A, B and C
/// respectively; `bxl` writes B xor the literal operand into B; `bst` writes
/// `x` mod 8 into B; `bxc` writes B xor C into B; `out` appends `x` mod 8 to
/// the output; `jnz` jumps to the literal operand when A is not zero. Every
/// other register, the output and the program stay as they were, and every
/// instruction but a taken jump moves on to the next instruction.
pub proof fn lemma_instruction_effects(m: Machine)
    requires
        !halted(m),
        step_ok(m),
        m.prog.len() <= usize::MAX,
    ensures
        ({
            let ins = m.prog[m.ptr as int];
            let v = ins.operand.0;
            let x: u64 = if v <= 3 {
                v as u64
            } else if v == 4 {
                m.a
            } else if v == 5 {
                m.b
            } else {
                m.c
            };
            let n = step_machine(m);
            let div = m.a as int / pow2((x as u32) as nat) as int;
            &&& n.prog == m.prog
            &&& (ins.opcode != Opcode::Jnz || m.a == 0) ==> n.ptr == m.ptr + 1
            &&& (ins.opcode == Opcode::Jnz && m.a != 0) ==> n.ptr == v
            &&& ins.opcode != Opcode::Out ==> n.out == m.out
            &&& ins.opcode == Opcode::Out ==> n.out == m.out.push(x % 8)
            &&& (ins.opcode == Opcode::Adv ==> n.a == div && n.b == m.b && n.c == m.c)
            &&& (ins.opcode == Opcode::Bdv ==> n.b == div && n.a == m.a && n.c == m.c)
            &&& (ins.opcode == Opcode::Cdv ==> n.c == div && n.a == m.a && n.b == m.b)
            &&& (ins.opcode == Opcode::Bxl ==> n.b == m.b ^ (v as u64) && n.a == m.a && n.c == m.c)
            &&& (ins.opcode == Opcode::Bst ==> n.b == x % 8 && n.a == m.a && n.c == m.c)
            &&& (ins.opcode == Opcode::Bxc ==> n.b == m.b ^ m.c && n.a == m.a && n.c == m.c)
            &&& (ins.opcode == Opcode::Jnz || ins.opcode == Opcode::Out) ==> n.a == m.a && n.b == m.b
                && n.c == m.c
        }),
{
    let ins = m.prog[m.ptr as int];
    let v = ins.operand.0;
    if ins.opcode == Opcode::Adv || ins.opcode == Opcode::Bdv || ins.opcode == Opcode::Cdv {
        let e = (combo(v, m) as u32) as nat;
        vstd::arithmetic::power2::lemma2_to64_rest();
        vstd::arithmetic::power2::lemma_pow2_strictly_increases(e, 64);
        lemma_pow2_pos(e);
        let p = pow2(e);
        assert(m.a as int / p as int <= m.a) by {
            vstd::arithmetic::div_mod::lemma_div_is_ordered_by_denominator(m.a as int, 1, p as int);
        }
        assert((p as u64) as nat == p);
        assert(0 <= m.a as int / p as int);
    }
}

/// From `m`, the machine halts within `n` steps, and no step fails on the way.
pub open spec fn halts_in(m: Machine, n: nat) -> bool
    decreases n,
{
    if halted(m) {
        true
    } else if n == 0 {
        false
    } else {
        step_ok(m) && halts_in(step_machine(m), (n - 1) as nat)
    }
}

/// The machine after at most `n` steps, stopping where it halts.
pub open spec fn run_for(m: Machine, n: nat) -> Machine
    decreases n,
{
    if halted(m) || n == 0 {
        m
    } else {
        run_for(step_machine(m), (n - 1) as nat)
    }
}

/// The machine once it has halted.
pub open spec fn run_result(m: Machine) -> Machine {
    run_for(m, choose|n: nat| halts_in(m, n))
}

/// Running long enough to halt gives the same machine whatever the bound.
pub proof fn lemma_run_for_unique(m: Machine, n1: nat, n2: nat)
    requires
        halts_in(m, n1),
        halts_in(m, n2),
    ensures
        run_for(m, n1) == run_for(m, n2),
        halted(run_for(m, n1)),
    decreases n1,
{
    if !halted(m) {
        lemma_run_for_unique(step_machine(m), (n1 - 1) as nat, (n2 - 1) as nat);
    }
}

/// Two to the power `o`, for `o` below 64.
fn two_pow(o: u32) -> (r: u64)
    requires
        o < 64,
    ensures
        r == pow2(o as nat),
{
    let mut r: u64 = 1;
    let mut i: u32 = 0;
    proof {
        vstd::arithmetic::power2::lemma2_to64();
        vstd::arithmetic::power2::lemma2_to64_rest();
    }
    while i < o
        invariant
            i <= o,
            o < 64,
            r == pow2(i as nat),
            pow2(64) == 0x1_0000_0000_0000_0000,
        decreases o - i,
    {
        proof {
            vstd::arithmetic::power2::lemma_pow2_unfold((i + 1) as nat);
            vstd::arithmetic::power2::lemma_pow2_strictly_increases((i + 1) as nat, 64);
        }
        r = r * 2;
        i = i + 1;
    }
    r
}

impl Operand {
    /// An operand, from a value below 8.
    pub fn from_u8(value: u8) -> (r: Self)
        requires
            value < 8,
        ensures
            r.0 == value,
    {
        Operand(value)
    }

    /// The operand as a literal.
    pub fn as_lit(&self) -> (r: u64)
        ensures
            r == self.0,
    {
        self.0 as u64
    }

    /// The operand as a combo operand, for values below 7.
    pub fn as_combo(&self, comp: &Computer) -> (r: u64)
        requires
            self.0 < 7,
        ensures
            r == combo(self.0, comp@),
    {
        if self.0 <= 3 {
            self.0 as u64
        } else if self.0 == 4 {
            comp.a
        } else if self.0 == 5 {
            comp.b
        } else {
            comp.c
        }
    }
}

impl Instruction {
    /// An instruction from its opcode and operand numbers, both below 8.
    pub fn new(opcode_u8: u8, operand_u8: u8) -> (r: Self)
        requires
            opcode_u8 < 8,
            operand_u8 < 8,
        ensures
            r.opcode == opcode_of(opcode_u8 as int),
            r.operand.0 == operand_u8,
    {
        let opcode = Opcode::from_u8(opcode_u8);
        let operand = Operand::from_u8(operand_u8);
        Instruction { opcode, operand }
    }
}

impl Default for Computer {
    fn default() -> (r: Self)
        ensures
            r.a == 0 && r.b == 0 && r.c == 0 && r.ptr == 0,
            r.prog@ == Seq::<Instruction>::empty(),
            r.out@ == Seq::<u64>::empty(),
    {
        Computer { a: 0, b: 0, c: 0, prog: Vec::new(), ptr: 0, out: Vec::new() }
    }
}

impl Clone for Computer {
    fn clone(&self) -> (r: Self)
        ensures
            r@ == self@,
    {
        let mut prog: Vec<Instruction> = Vec::new();
        for i in 0..self.prog.len()
            invariant
                prog@ == self.prog@.take(i as int),
        {
            prog.push(self.prog[i]);
            assert(prog@ =~= self.prog@.take(i + 1));
        }
        let mut out: Vec<u64> = Vec::new();
        for i in 0..self.out.len()
            invariant
                out@ == self.out@.take(i as int),
        {
            out.push(self.out[i]);
            assert(out@ =~= self.out@.take(i + 1));
        }
        assert(prog@ =~= self.prog@);
        assert(out@ =~= self.out@);
        Computer { a: self.a, b: self.b, c: self.c, prog, ptr: self.ptr, out }
    }
}

// ---------------------------------------------------------------------------
// Reading a machine from text

/// Where a field follows the literal `lit` at `i`: the bounds of its run, if the
/// literal is there and the run is not empty.
pub open spec fn field_after(s: Seq<char>, i: int, lit: Seq<char>, commas: bool) -> Option<(int, int)> {
    let start = i + lit.len();
    if lit_at(s, i, lit) && run_len(s, start, commas) > 0 {
        Some((start, start + run_len(s, start, commas)))
    } else {
        None
    }
}

/// The bounds of the four fields of a machine description starting at `i`:
/// `Register A: <digits>\nRegister B: <digits>\nRegister C: <digits>\n\nProgram: <digits and commas>`.
pub open spec fn capture_at(s: Seq<char>, i: int) -> Option<Seq<(int, int)>> {
    match field_after(s, i, "Register A: "@, false) {
        None => None,
        Some(fa) => match field_after(s, fa.1, "\nRegister B: "@, false) {
            None => None,
            Some(fb) => match field_after(s, fb.1, "\nRegister C: "@, false) {
                None => None,
                Some(fc) => match field_after(s, fc.1, "\n\nProgram: "@, true) {
                    None => None,
                    Some(fp) => Some(seq![fa, fb, fc, fp]),
                },
            },
        },
    }
}

/// The first position at or after `i` where a machine description starts, or -1.
pub open spec fn first_capture(s: Seq<char>, i: int) -> int
    decreases s.len() + 1 - i,
{
    if i < 0 || i > s.len() {
        -1
    } else if capture_at(s, i) is Some {
        i
    } else {
        first_capture(s, i + 1)
    }
}

/// The four fields of the first machine description in `s`.
pub open spec fn fields(s: Seq<char>) -> Seq<Seq<char>> {
    let b = capture_at(s, first_capture(s, 0))->0;
    Seq::new(4, |k: int| s.subrange(b[k].0, b[k].1))
}

/// The numbers of the program field.
pub open spec fn prog_values(s: Seq<char>) -> Seq<nat> {
    split(fields(s)[3], ',').map_values(|p: Seq<char>| parse_unsigned(p)->0)
}

/// The text describes a machine that `Computer::new` accepts: a description is
/// found, the registers fit in a `u64`, every program value parses as a `u8`, and
/// every value that is paired into an instruction is below 8.
pub open spec fn machine_text_ok(s: Seq<char>) -> bool {
    let f = fields(s);
    let pieces = split(f[3], ',');
    let vals = prog_values(s);
    &&& first_capture(s, 0) >= 0
    &&& decimal_value(f[0]) <= u64::MAX
    &&& decimal_value(f[1]) <= u64::MAX
    &&& decimal_value(f[2]) <= u64::MAX
    &&& forall|k: int|
        0 <= k < pieces.len() ==> #[trigger] parse_unsigned(pieces[k]) is Some
            && parse_unsigned(pieces[k])->0 <= 255
    &&& forall|k: int| 0 <= k < vals.len() / 2 * 2 ==> #[trigger] vals[k] < 8
}

/// The program that the program values describe: pairs of opcode and operand,
/// a trailing odd value dropped.
pub open spec fn program_of(vals: Seq<nat>) -> Seq<Instruction> {
    Seq::new(
        vals.len() / 2,
        |k: int|
            Instruction { opcode: opcode_of(vals[2 * k] as int), operand: Operand(vals[2 * k + 1] as u8) },
    )
}

/// The bounds of the field that follows `lit` at `i`.
fn field_after_exec(s: &[char], i: usize, lit: &str, commas: bool) -> (r: Option<(usize, usize)>)
    requires
        i <= s@.len(),
    ensures
        match r {
            Some(f) => field_after(s@, i as int, lit@, commas) == Some((f.0 as int, f.1 as int))
                && f.0 < f.1 <= s@.len() && forall|j: int|
                f.0 <= j < f.1 ==> is_digit(#[trigger] s@[j]) || (commas && s@[j] == ','),
            None => field_after(s@, i as int, lit@, commas) is None,
        },
{
    if !lit_at_exec(s, i, lit) {
        return None;
    }
    let n = lit.unicode_len();
    let slen = s.len();
    assert(i + n <= slen);
    let start = i + n;
    let len = run_len_exec(s, start, commas);
    if len == 0 {
        None
    } else {
        proof {
            lemma_run_len(s@, start as int, commas);
        }
        Some((start, start + len))
    }
}

/// The bounds of the four fields of a machine description at `i`.
fn capture_at_exec(s: &[char], i: usize) -> (r: Option<Vec<(usize, usize)>>)
    requires
        i <= s@.len(),
    ensures
        match r {
            Some(v) => capture_at(s@, i as int) is Some && v@.len() == 4 && forall|k: int|
                0 <= k < 4 ==> capture_at(s@, i as int)->0[k] == (
                #[trigger] v@[k].0 as int,
                v@[k].1 as int,
            ) && v@[k].0 <= v@[k].1 <= s@.len() && (k < 3 ==> forall|j: int|
                v@[k].0 <= j < v@[k].1 ==> is_digit(#[trigger] s@[j])),
            None => capture_at(s@, i as int) is None,
        },
{
    let fa = match field_after_exec(s, i, "Register A: ", false) {
        Some(f) => f,
        None => return None,
    };
    let fb = match field_after_exec(s, fa.1, "\nRegister B: ", false) {
        Some(f) => f,
        None => return None,
    };
    let fc = match field_after_exec(s, fb.1, "\nRegister C: ", false) {
        Some(f) => f,
        None => return None,
    };
    let fp = match field_after_exec(s, fc.1, "\n\nProgram: ", true) {
        Some(f) => f,
        None => return None,
    };
    let mut v: Vec<(usize, usize)> = Vec::new();
    v.push(fa);
    v.push(fb);
    v.push(fc);
    v.push(fp);
    Some(v)
}

/// The bounds of the fields of the first machine description in `s`.
fn find_capture(s: &[char]) -> (r: Option<Vec<(usize, usize)>>)
    ensures
        match r {
            Some(v) => first_capture(s@, 0) >= 0 && v@.len() == 4 && forall|k: int|
                0 <= k < 4 ==> capture_at(s@, first_capture(s@, 0))->0[k] == (
                #[trigger] v@[k].0 as int,
                v@[k].1 as int,
            ) && v@[k].0 <= v@[k].1 <= s@.len() && (k < 3 ==> forall|j: int|
                v@[k].0 <= j < v@[k].1 ==> is_digit(#[trigger] s@[j])),
            None => first_capture(s@, 0) == -1,
        },
{
    let mut i: usize = 0;
    loop
        invariant
            i <= s@.len(),
            first_capture(s@, 0) == first_capture(s@, i as int),
        decreases s@.len() - i,
    {
        match capture_at_exec(s, i) {
            Some(v) => {
                return Some(v);
            },
            None => {},
        }
        if i == s.len() {
            assert(first_capture(s@, i + 1) == -1);
            return None;
        }
        i = i + 1;
    }
}

impl Computer {
    /// Reads a machine from its description in `text`.
    pub fn new(text: &str) -> (r: Self)
        requires
            machine_text_ok(text@),
        ensures
            r.a == decimal_value(fields(text@)[0]),
            r.b == decimal_value(fields(text@)[1]),
            r.c == decimal_value(fields(text@)[2]),
            r.prog@ == program_of(prog_values(text@)),
            r.ptr == 0,
            r.out@ == Seq::<u64>::empty(),
    {
        let s = chars_of(text);
        let ghost t = text@;
        let bounds = match find_capture(s.as_slice()) {
            Some(v) => v,
            None => {
                return Computer::default();
            },
        };
        let ghost f = fields(t);
        assert(bounds@[0].0 <= bounds@[0].1);
        assert(bounds@[1].0 <= bounds@[1].1);
        assert(bounds@[2].0 <= bounds@[2].1);
        let a = digits_to_u64(s.as_slice(), bounds[0].0, bounds[0].1);
        let b = digits_to_u64(s.as_slice(), bounds[1].0, bounds[1].1);
        let c = digits_to_u64(s.as_slice(), bounds[2].0, bounds[2].1);
        let pieces = split_range(s.as_slice(), bounds[3].0, bounds[3].1, ',');
        let ghost ps = split(f[3], ',');
        let ghost vals = prog_values(t);
        let mut prog_vals: Vec<u8> = Vec::new();
        for k in 0..pieces.len()
            invariant
                views(pieces@) == ps,
                ps == split(fields(t)[3], ','),
                vals == prog_values(t),
                t == text@,
                machine_text_ok(t),
                prog_vals@.len() == k,
                forall|j: int| 0 <= j < k ==> #[trigger] prog_vals@[j] == vals[j],
        {
            assert(pieces@[k as int]@ == ps[k as int]);
            assert(parse_unsigned(ps[k as int]) is Some && parse_unsigned(ps[k as int])->0 <= 255);
            let v = match parse_u64(pieces[k].as_slice()) {
                Some(v) => v,
                None => 0,
            };
            prog_vals.push(v as u8);
        }
        let mut prog: Vec<Instruction> = Vec::new();
        let npairs = prog_vals.len() / 2;
        for k in 0..npairs
            invariant
                npairs == prog_vals@.len() / 2,
                prog_vals@.len() == vals.len(),
                vals == prog_values(t),
                t == text@,
                machine_text_ok(t),
                forall|j: int| 0 <= j < vals.len() ==> #[trigger] prog_vals@[j] == vals[j],
                prog@ == program_of(vals).take(k as int),
        {
            let plen = prog_vals.len();
            assert(2 * k + 1 < prog_vals@.len()) by (nonlinear_arith)
                requires
                    k < npairs,
                    npairs == prog_vals@.len() / 2,
            ;
            assert(2 * k + 1 < vals.len() / 2 * 2) by (nonlinear_arith)
                requires
                    k < vals.len() / 2,
            ;
            assert(vals[2 * k as int] < 8 && vals[2 * k + 1] < 8);
            let ins = Instruction::new(prog_vals[2 * k], prog_vals[2 * k + 1]);
            prog.push(ins);
            assert(prog@ =~= program_of(vals).take(k + 1));
        }
        assert(prog@ =~= program_of(vals));
        Computer { a, b, c, prog, ..Default::default() }
    }

    /// Executes the current instruction; false, with nothing changed, once the
    /// instruction pointer has left the program.
    pub fn step(&mut self) -> (r: bool)
        requires
            step_ok(old(self)@),
        ensures
            r == !halted(old(self)@),
            final(self)@ == if r {
                step_machine(old(self)@)
            } else {
                old(self)@
            },
    {
        if self.ptr >= self.prog.len() {
            return false;
        }
        let ins = self.prog[self.ptr];
        let opcode = ins.opcode;
        let operand = ins.operand;
        match opcode {
            Opcode::Adv => {
                let o = operand.as_combo(self) as u32;
                let denom = two_pow(o);
                proof {
                    lemma_pow2_pos(o as nat);
                }
                self.a = self.a / denom;
            },
            Opcode::Bxl => {
                let o = operand.as_lit();
                self.b = self.b ^ o;
            },
            Opcode::Bst => {
                let o = operand.as_combo(self);
                self.b = o % 8;
            },
            Opcode::Jnz => {
                if self.a != 0 {
                    let o = operand.as_lit() as usize;
                    self.ptr = o.wrapping_sub(1);
                }
            },
            Opcode::Bxc => {
                self.b = self.b ^ self.c;
            },
            Opcode::Out => {
                let o = operand.as_combo(self);
                let value = o % 8;
                self.out.push(value);
            },
            Opcode::Bdv => {
                let o = operand.as_combo(self) as u32;
                let denom = two_pow(o);
                proof {
                    lemma_pow2_pos(o as nat);
                }
                self.b = self.a / denom;
            },
            Opcode::Cdv => {
                let o = operand.as_combo(self) as u32;
                let denom = two_pow(o);
                proof {
                    lemma_pow2_pos(o as nat);
                }
                self.c = self.a / denom;
            },
        }
        self.ptr = self.ptr.wrapping_add(1);
        true
    }

    /// The machine after running until it halts.
    pub fn run(&self) -> (r: Self)
        requires
            exists|n: nat| halts_in(self@, n),
        ensures
            r@ == run_result(self@),
            halted(r@),
    {
        let ghost n0 = choose|n: nat| halts_in(self@, n);
        let ghost mut fuel: nat = n0;
        let mut out = self.clone();
        proof {
            lemma_run_for_unique(self@, n0, n0);
        }
        loop
            invariant
                halts_in(out@, fuel),
                run_for(out@, fuel) == run_result(self@),
                run_result(self@) == run_for(self@, n0),
                halts_in(self@, n0),
            ensures
                halted(out@),
                run_for(out@, fuel) == run_result(self@),
            decreases fuel,
        {
            let ghost before = out@;
            if !out.step() {
                break;
            }
            proof {
                fuel = (fuel - 1) as nat;
            }
        }
        proof {
            lemma_run_for_unique(self@, n0, n0);
        }
        out
    }

    /// The program as text: each instruction's opcode number, `sep` and operand,
    /// and the instructions joined by `sep`.
    pub fn progstr(&self, sep: &str) -> (r: String)
        ensures
            r@ == join(
                self.prog@.map_values(
                    |ins: Instruction|
                        decimal(opcode_number(ins.opcode) as nat) + sep@ + decimal(
                            ins.operand.0 as nat,
                        ),
                ),
                sep@,
            ),
    {
        let sep_chars = chars_of(sep);
        let ghost pieces = self.prog@.map_values(
            |ins: Instruction|
                decimal(opcode_number(ins.opcode) as nat) + sep@ + decimal(ins.operand.0 as nat),
        );
        let mut buf: Vec<char> = Vec::new();
        for i in 0..self.prog.len()
            invariant
                sep_chars@ == sep@,
                pieces.len() == self.prog@.len(),
                forall|k: int|
                    0 <= k < pieces.len() ==> #[trigger] pieces[k] == decimal(
                        opcode_number(self.prog@[k].opcode) as nat,
                    ) + sep@ + decimal(self.prog@[k].operand.0 as nat),
                buf@ == join(pieces.take(i as int), sep@),
        {
            let ghost before = buf@;
            if i > 0 {
                append_chars(&mut buf, &sep_chars);
            }
            let ins = self.prog[i];
            let d1 = decimal_digits(ins.opcode.as_digit() as u64);
            let d2 = decimal_digits(ins.operand.0 as u64);
            append_chars(&mut buf, &d1);
            append_chars(&mut buf, &sep_chars);
            append_chars(&mut buf, &d2);
            proof {
                assert(pieces.take(i + 1).drop_last() =~= pieces.take(i as int));
                if i > 0 {
                    assert(buf@ =~= before + sep@ + pieces[i as int]);
                } else {
                    assert(buf@ =~= pieces[i as int]);
                }
            }
        }
        assert(pieces.take(pieces.len() as int) =~= pieces);
        string_from_chars(&buf)
    }

    /// The output as text: the values joined by commas.
    pub fn outstr(&self) -> (r: String)
        ensures
            r@ == join(self.out@.map_values(|v: u64| decimal(v as nat)), ","@),
    {
        let ghost pieces = self.out@.map_values(|v: u64| decimal(v as nat));
        let mut buf: Vec<char> = Vec::new();
        let comma = chars_of(",");
        for i in 0..self.out.len()
            invariant
                comma@ == ","@,
                pieces.len() == self.out@.len(),
                forall|k: int| 0 <= k < pieces.len() ==> #[trigger] pieces[k] == decimal(self.out@[k] as nat),
                buf@ == join(pieces.take(i as int), ","@),
        {
            let ghost before = buf@;
            if i > 0 {
                append_chars(&mut buf, &comma);
            }
            let d = decimal_digits(self.out[i]);
            append_chars(&mut buf, &d);
            proof {
                assert(pieces.take(i + 1).drop_last() =~= pieces.take(i as int));
                if i > 0 {
                    assert(buf@ =~= before + ","@ + pieces[i as int]);
                } else {
                    assert(buf@ =~= pieces[i as int]);
                }
            }
        }
        assert(pieces.take(pieces.len() as int) =~= pieces);
        string_from_chars(&buf)
    }
}

/// Returns the part1 result: the output of the halted machine, as text.
pub fn part1(comp: &Computer) -> (r: String)
    requires
        exists|n: nat| halts_in(comp@, n),
    ensures
        r@ == join(run_result(comp@).out.map_values(|v: u64| decimal(v as nat)), ","@),
{
    let comp = comp.run();
    comp.outstr()
}

/// The program's numbers in order: each instruction's opcode number, then its operand.
pub open spec fn prog_digits(prog: Seq<Instruction>) -> Seq<u8> {
    Seq::new(
        2 * prog.len(),
        |k: int|
            if k % 2 == 0 {
                opcode_number(prog[k / 2].opcode)
            } else {
                prog[k / 2].operand.0
            },
    )
}

/// The value of base-8 digits, most significant first.
pub open spec fn octal_value(ds: Seq<u8>) -> nat
    decreases ds.len(),
{
    if ds.len() == 0 {
        0
    } else {
        octal_value(ds.drop_last()) * 8 + ds.last() as nat
    }
}

/// The value of the program's numbers read backwards as base-8 digits, with a
/// final 0 digit appended.
pub open spec fn part2_value(prog: Seq<Instruction>) -> nat {
    octal_value(prog_digits(prog).reverse().push(0))
}

/// Returns the part2 result: the program's numbers, reversed, read as an octal
/// number with a 0 digit appended.
pub fn part2(comp: &Computer) -> (r: u64)
    requires
        forall|k: int| 0 <= k < comp.prog@.len() ==> (#[trigger] comp.prog@[k]).operand.0 < 8,
        part2_value(comp.prog@) <= u64::MAX,
    ensures
        r == part2_value(comp.prog@),
{
    let ghost ds = prog_digits(comp.prog@).reverse().push(0);
    let n = comp.prog.len();
    let mut v: u64 = 0;
    let mut k: usize = 0;
    assert(ds.take(0) =~= Seq::<u8>::empty());
    while k < n
        invariant
            n == comp.prog@.len(),
            k <= n,
            ds == prog_digits(comp.prog@).reverse().push(0),
            ds.len() == 2 * n + 1,
            forall|j: int| 0 <= j < n ==> (#[trigger] comp.prog@[j]).operand.0 < 8,
            octal_value(ds) <= u64::MAX,
            v == octal_value(ds.take(2 * k)),
        decreases n - k,
    {
        let ins = comp.prog[n - 1 - k];
        let hi = ins.operand.0;
        let lo = ins.opcode.as_digit();
        assert(ds[2 * k as int] == hi);
        assert(ds[2 * k + 1] == lo);
        assert(ds.take(2 * k + 1).drop_last() =~= ds.take(2 * k as int));
        assert(ds.take(2 * k + 2).drop_last() =~= ds.take(2 * k + 1));
        proof {
            lemma_octal_prefix_le(ds, 2 * k + 1);
            lemma_octal_prefix_le(ds, 2 * k + 2);
        }
        v = v * 8 + hi as u64;
        v = v * 8 + lo as u64;
        k = k + 1;
    }
    assert(ds.take(2 * n + 1).drop_last() =~= ds.take(2 * n as int));
    assert(ds.take(2 * n + 1) =~= ds);
    v * 8
}

/// A prefix of base-8 digits has no larger value than the whole.
proof fn lemma_octal_prefix_le(ds: Seq<u8>, k: int)
    requires
        0 <= k <= ds.len(),
    ensures
        octal_value(ds.take(k)) <= octal_value(ds),
    decreases ds.len() - k,
{
    if k < ds.len() {
        lemma_octal_prefix_le(ds, k + 1);
        assert(ds.take(k + 1).drop_last() =~= ds.take(k));
    } else {
        assert(ds.take(k) =~= ds);
    }
}

/// Base-8 digit `j` (counting from the least significant) of the value of
/// `ds` is the `j`-th digit from the end.
proof fn lemma_octal_digit(ds: Seq<u8>, j: nat)
    requires
        forall|i: int| 0 <= i < ds.len() ==> #[trigger] ds[i] < 8,
        j < ds.len(),
    ensures
        (octal_value(ds) as int / vstd::arithmetic::power::pow(8, j)) % 8 == ds[ds.len() - 1 - j] as int,
    decreases j,
{
    let rest = ds.drop_last();
    let v = octal_value(ds);
    let a = octal_value(rest);
    let b = ds.last() as int;
    assert(v == a * 8 + b);
    vstd::arithmetic::div_mod::lemma_fundamental_div_mod_converse(v as int, 8, a as int, b);
    reveal(vstd::arithmetic::power::pow);
    if j == 0 {
        assert(vstd::arithmetic::power::pow(8, 0) == 1);
        assert(v / 1 == v);
    } else {
        assert(forall|i: int| 0 <= i < rest.len() ==> #[trigger] rest[i] == ds[i]);
        lemma_octal_digit(rest, (j - 1) as nat);
        let p = vstd::arithmetic::power::pow(8, (j - 1) as nat);
        vstd::arithmetic::power::lemma_pow_positive(8, (j - 1) as nat);
        assert(vstd::arithmetic::power::pow(8, j) == 8 * p);
        vstd::arithmetic::div_mod::lemma_div_denominator(v as int, 8, p);
        assert(rest[rest.len() - 1 - (j - 1)] == ds[ds.len() - 1 - j]);
    }
}

/// The answer of part 2 in base 8: its last digit is 0, and above it, from
/// the least significant up, stand the program's numbers in their order.
pub proof fn lemma_part2_digits(prog: Seq<Instruction>)
    requires
        forall|k: int| 0 <= k < prog.len() ==> (#[trigger] prog[k]).operand.0 < 8,
    ensures
        part2_value(prog) % 8 == 0,
        forall|i: int|
            0 <= i < 2 * prog.len() ==> (part2_value(prog) as int / vstd::arithmetic::power::pow(8, (i + 1) as nat)) % 8
                == (#[trigger] prog_digits(prog)[i]) as int,
{
    let pd = prog_digits(prog);
    let ds = pd.reverse().push(0);
    assert forall|i: int| 0 <= i < ds.len() implies #[trigger] ds[i] < 8 by {
        if i < pd.len() {
            let k = pd.len() - 1 - i;
            assert(ds[i] == pd[k]);
            if k % 2 == 1 {
                assert(prog[k / 2].operand.0 < 8);
            }
        }
    }
    lemma_octal_digit(ds, 0);
    reveal(vstd::arithmetic::power::pow);
    assert(part2_value(prog) as int / vstd::arithmetic::power::pow(8, 0) == part2_value(prog));
    assert forall|i: int| 0 <= i < 2 * prog.len() implies (part2_value(prog) as int / vstd::arithmetic::power::pow(
        8,
        (i + 1) as nat,
    )) % 8 == (#[trigger] prog_digits(prog)[i]) as int by {
        lemma_octal_digit(ds, (i + 1) as nat);
        assert(ds[ds.len() - 1 - (i + 1)] == pd[i]);
    }
}

} // verus!
