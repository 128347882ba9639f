//! Chronospatial computer: the output of the three-bit program, and the
//! value of register A for which the program outputs itself.
//!
//! The program is of the usual shape: `2,4` (b = a mod 8), `1,x` (b ^= x),
//! `7,5` (c = a >> b), then in some order `1,y` (b ^= y), `4,_` (b ^= c),
//! `0,3` (a >>= 3) and `5,5` (output b mod 8), and `3,0` (repeat while a is
//! not zero). Register A holds eight digits.
use vstd::prelude::*;
use vstd::string::StringSliceAdditionalSpecFns;

use crate::swar::{byte, parse8, read_u64, word_value};
use crate::text::ascii_text;

verus! {

/// The value of register A: the eight digits from offset 12.
pub open spec fn register_a(s: Seq<u8>) -> int {
    (s[12] - 48) * 10000000 + (s[13] - 48) * 1000000 + (s[14] - 48) * 100000 + (s[15] - 48) * 10000
        + (s[16] - 48) * 1000 + (s[17] - 48) * 100 + (s[18] - 48) * 10 + (s[19] - 48)
}

/// The operand of the first `1` instruction: 26 bytes before the end.
pub open spec fn first_xor(s: Seq<u8>) -> int {
    s[s.len() - 26] - 48
}

/// The offset of the opcode of the second `1` instruction: the last of the
/// opcodes 20, 16 and 12 bytes before the end that is a `1`.
pub open spec fn second_xor_at(s: Seq<u8>) -> int {
    if s[s.len() - 12] == 49 {
        s.len() - 12
    } else if s[s.len() - 16] == 49 {
        s.len() - 16
    } else {
        s.len() - 20
    }
}

/// The operand of the second `1` instruction.
pub open spec fn second_xor(s: Seq<u8>) -> int {
    s[second_xor_at(s) + 2] - 48
}

/// The number output for register value `a`.
pub open spec fn out_digit(a: u64, x: u64, y: u64) -> u64 {
    let b = (a & 7) ^ x;
    (b ^ y ^ (a >> b)) & 7
}

/// The numbers output from register value `a` on.
pub open spec fn outputs(a: u64, x: u64, y: u64) -> Seq<u64>
    decreases a,
{
    if a >> 3 == 0 {
        seq![out_digit(a, x, y)]
    } else {
        proof {
            assert(a >> 3 < a) by (bit_vector)
                requires
                    a >> 3 != 0,
            ;
        }
        seq![out_digit(a, x, y)] + outputs(a >> 3, x, y)
    }
}

/// Numbers below ten written as digits and joined by commas.
pub open spec fn joined(ds: Seq<u64>) -> Seq<char>
    decreases ds.len(),
{
    if ds.len() == 0 {
        seq![]
    } else if ds.len() == 1 {
        seq![(ds[0] + 48) as char]
    } else {
        seq![(ds[0] + 48) as char, ','] + joined(ds.drop_first())
    }
}

/// The program text, as far as it is read.
pub open spec fn wf_input(s: Seq<u8>) -> bool {
    &&& 40 <= s.len()
    &&& forall|i: int| 12 <= i < 20 ==> 48 <= #[trigger] s[i] <= 57
    &&& 48 <= s[s.len() - 26] <= 55
    &&& (s[s.len() - 20] == 49 || s[s.len() - 16] == 49 || s[s.len() - 12] == 49)
    &&& 48 <= s[second_xor_at(s) + 2] <= 55
}

/// The bytes of the joined output.
fn render(ds: &Vec<u64>) -> (out: Vec<u8>)
    requires
        ds@.len() >= 1,
        forall|i: int| 0 <= i < ds@.len() ==> ds@[i] < 8,
    ensures
        out@.map_values(|b: u8| b as char) == joined(ds@),
        forall|i: int| 0 <= i < out@.len() ==> out@[i] < 128,
{
    let mut out: Vec<u8> = Vec::new();
    let mut i: usize = ds.len();
    let ghost mut tail: Seq<char> = seq![];
    while i > 0
        invariant
            i <= ds@.len(),
            forall|k: int| 0 <= k < ds@.len() ==> ds@[k] < 8,
            out@.map_values(|b: u8| b as char) == if i == ds@.len() {
                seq![]
            } else {
                joined(ds@.subrange(i as int, ds@.len() as int))
            },
            forall|k: int| 0 <= k < out@.len() ==> out@[k] < 128,
        decreases i,
    {
        i = i - 1;
        let d = (ds[i] + 48) as u8;
        let ghost rest = ds@.subrange(i + 1, ds@.len() as int);
        let ghost whole = ds@.subrange(i as int, ds@.len() as int);
        let mut front: Vec<u8> = Vec::new();
        front.push(d);
        if i + 1 < ds.len() {
            front.push(44);
        }
        proof {
            assert(whole.drop_first() =~= rest);
        }
        front.append(&mut out);
        out = front;
        proof {
            assert(out@.map_values(|b: u8| b as char) =~= joined(whole));
        }
    }
    proof {
        assert(ds@.subrange(0, ds@.len() as int) =~= ds@);
    }
    out
}

/// Part 1: the numbers the program outputs, joined by commas.
pub fn part1(input: &str) -> (r: String)
    requires
        wf_input(input.spec_bytes()),
    ensures
        r@ == joined(
            outputs(
                register_a(input.spec_bytes()) as u64,
                first_xor(input.spec_bytes()) as u64,
                second_xor(input.spec_bytes()) as u64,
            ),
        ),
{
    let s = input.as_bytes();
    let n = s.len();
    let w = read_u64(&s[12..20]);
    proof {
        let t = s@.subrange(12, 20);
        assert(t[0] == s@[12] && t[1] == s@[13] && t[2] == s@[14] && t[3] == s@[15]);
        assert(t[4] == s@[16] && t[5] == s@[17] && t[6] == s@[18] && t[7] == s@[19]);
        assert(48 <= s@[12] <= 57 && 48 <= s@[13] <= 57 && 48 <= s@[14] <= 57 && 48 <= s@[15] <= 57);
        assert(48 <= s@[16] <= 57 && 48 <= s@[17] <= 57 && 48 <= s@[18] <= 57 && 48 <= s@[19] <= 57);
    }
    let mut a = parse8(w) as u64;
    assert(a == register_a(s@));
    let x = (s[n - 26] - 48) as u64;
    let at = if s[n - 12] == 49 {
        n - 12
    } else if s[n - 16] == 49 {
        n - 16
    } else {
        n - 20
    };
    let y = (s[at + 2] - 48) as u64;
    let ghost a0 = a;
    let mut ds: Vec<u64> = Vec::new();
    loop
        invariant_except_break
            ds@ + outputs(a, x, y) == outputs(a0, x, y),
        invariant
            x < 8,
            y < 8,
            forall|i: int| 0 <= i < ds@.len() ==> ds@[i] < 8,
        ensures
            ds@ == outputs(a0, x, y),
            forall|i: int| 0 <= i < ds@.len() ==> ds@[i] < 8,
        decreases a,
    {
        let b = (a & 7) ^ x;
        assert(b < 8) by (bit_vector)
            requires
                b == (a & 7) ^ x,
                x < 8,
        ;
        let d = (b ^ y ^ (a >> b)) & 7;
        assert(d < 8) by (bit_vector)
            requires
                d == (b ^ y ^ (a >> b)) & 7,
        ;
        let ghost before = ds@;
        ds.push(d);
        proof {
            assert(ds@.drop_last() =~= before);
        }
        let next = a >> 3;
        if next == 0 {
            proof {
                assert(outputs(a, x, y) == seq![d]);
                assert(ds@ =~= ds@.drop_last() + seq![d]);
            }
            break;
        }
        proof {
            assert(next < a) by (bit_vector)
                requires
                    next == a >> 3,
                    next != 0,
            ;
            assert(outputs(a, x, y) == seq![d] + outputs(next, x, y));
            assert(ds@ + outputs(next, x, y) =~= (ds@.drop_last() + seq![d]) + outputs(next, x, y));
            assert((ds@.drop_last() + seq![d]) + outputs(next, x, y) =~= ds@.drop_last() + (seq![d]
                + outputs(next, x, y)));
        }
        a = next;
    }
    proof {
        assert(outputs(a0, x, y).len() >= 1);
    }
    ascii_text(render(&ds))
}

/// `a >> n`, and 0 for shifts past the width.
pub open spec fn shr(a: u64, n: int) -> u64 {
    if n >= 64 {
        0
    } else {
        a >> (n as u64)
    }
}

/// The value of a combo operand: literals 0 to 3, else a register's low byte.
pub open spec fn combo(lit: int, a: u64, b: u64, c: u64) -> int {
    if lit <= 3 {
        lit
    } else if lit == 4 {
        (a % 256) as int
    } else if lit == 5 {
        (b % 256) as int
    } else {
        (c % 256) as int
    }
}

/// The registers and the output after instruction `op` with operand `lit`
/// (a jump is not one of them).
pub open spec fn step(op: int, lit: int, regs: (u64, u64, u64), out: Seq<int>) -> ((u64, u64, u64), Seq<int>) {
    let (a, b, c) = regs;
    let v = combo(lit, a, b, c);
    if op == 0 {
        ((shr(a, v), b, c), out)
    } else if op == 1 {
        ((a, b ^ (lit as u64), c), out)
    } else if op == 2 {
        ((a, (v % 8) as u64, c), out)
    } else if op == 4 {
        ((a, b ^ c, c), out)
    } else if op == 5 {
        (regs, out.push(v % 8))
    } else if op == 6 {
        ((a, shr(a, v), c), out)
    } else {
        ((a, b, shr(a, v)), out)
    }
}

/// The first `k` of the seven instructions before the final jump, run once.
pub open spec fn pass(prog: Seq<int>, k: int, regs: (u64, u64, u64), out: Seq<int>) -> ((u64, u64, u64), Seq<int>)
    decreases k,
{
    if k <= 0 {
        (regs, out)
    } else {
        let (r, o) = pass(prog, k - 1, regs, out);
        step(prog[2 * (k - 1)], prog[2 * (k - 1) + 1], r, o)
    }
}

/// The output of a program that ends with `3,0`: passes over its first
/// seven instructions, repeated while register A is not zero, for at most
/// `fuel` passes.
pub open spec fn run_passes(prog: Seq<int>, regs: (u64, u64, u64), out: Seq<int>, fuel: nat) -> Seq<int>
    decreases fuel,
{
    if fuel == 0 {
        out
    } else {
        let (r, o) = pass(prog, 7, regs, out);
        if r.0 != 0 {
            run_passes(prog, r, o, (fuel - 1) as nat)
        } else {
            o
        }
    }
}

/// The output of the program from register A holding `a`: the passes shift
/// A right by three, so twenty-two of them empty it.
pub open spec fn simulate(prog: Seq<int>, a: u64) -> Seq<int> {
    run_passes(prog, (a, 0, 0), seq![], 22)
}

/// The program ends with the output `out`.
pub open spec fn ends_with(prog: Seq<int>, out: Seq<int>) -> bool {
    out.len() <= prog.len() && forall|i: int| 0 <= i < out.len() ==> out[i] == prog[prog.len() - out.len() + i]
}

/// The next candidate after `a` when its last octal digits are used up:
/// drop trailing 7s and add one; `None` once nothing is left.
pub open spec fn next_candidate(a: u64) -> Option<u64>
    decreases a,
{
    if a & 7 == 7 {
        let b = a >> 3;
        if b == 0 {
            None
        } else {
            proof {
                assert(a >> 3 < a) by (bit_vector)
                    requires
                        a & 7 == 7,
                ;
            }
            next_candidate(b)
        }
    } else {
        Some((a + 1) as u64)
    }
}

/// The search for register A, digit by octal digit from the first output:
/// a candidate whose output is the end of the program is the answer if it
/// outputs all of it, else gets another octal digit; any other candidate
/// moves on to the next. At most `iters` candidates are tried; 0 if none
/// is found.
pub open spec fn search_a(prog: Seq<int>, a: u64, iters: nat) -> u64
    decreases iters,
{
    if iters == 0 {
        0
    } else {
        let out = simulate(prog, a);
        if ends_with(prog, out) {
            if out.len() == prog.len() {
                a
            } else {
                search_a(prog, a << 3u64, (iters - 1) as nat)
            }
        } else {
            match next_candidate(a) {
                None => 0,
                Some(n) => search_a(prog, n, (iters - 1) as nat),
            }
        }
    }
}

/// The code of operation number `i` of the four that follow `7,5`.
pub open spec fn op_code(i: int) -> int {
    if i == 0 {
        0
    } else if i == 1 {
        1
    } else if i == 2 {
        4
    } else {
        5
    }
}

/// The number of the operation with code `o`, or -1.
pub open spec fn op_index(o: int) -> int {
    if o == 0 {
        0
    } else if o == 1 {
        1
    } else if o == 4 {
        2
    } else if o == 5 {
        3
    } else {
        -1
    }
}

/// The least operand of operation number `i`.
pub open spec fn arg_lo(i: int) -> int {
    if i == 0 {
        3
    } else if i == 3 {
        5
    } else {
        0
    }
}

/// One past the greatest operand of operation number `i`.
pub open spec fn arg_hi(i: int) -> int {
    if i == 0 {
        4
    } else if i == 3 {
        6
    } else {
        8
    }
}

/// The digits that pick the program: the operand of the first `1`, and the
/// next three operations with their operands.
pub open spec fn choice(s: Seq<u8>) -> Seq<int> {
    seq![s[65] - 48, s[71] - 48, s[73] - 48, s[75] - 48, s[77] - 48, s[79] - 48, s[81] - 48]
}

/// The number of the fourth operation: the one of the four not chosen.
pub open spec fn fourth(d: Seq<int>) -> int {
    6 - op_index(d[1]) - op_index(d[3]) - op_index(d[5])
}

/// The choices are a program of the searched shape: distinct operations,
/// the first two among `adv`, `bxl` and `bxc`, the fourth `adv` or `out`,
/// and operands in range.
pub open spec fn searched_shape(d: Seq<int>) -> bool {
    let i1 = op_index(d[1]);
    let i2 = op_index(d[3]);
    let i3 = op_index(d[5]);
    &&& 0 <= d[0] < 8
    &&& 0 <= i1 < 3
    &&& 0 <= i2 < 3
    &&& i2 != i1
    &&& 0 <= i3 < 4
    &&& i3 != i1 && i3 != i2
    &&& (fourth(d) == 0 || fourth(d) == 3)
    &&& arg_lo(i1) <= d[2] < arg_hi(i1)
    &&& arg_lo(i2) <= d[4] < arg_hi(i2)
    &&& arg_lo(i3) <= d[6] < arg_hi(i3)
}

/// The program the choices pick.
pub open spec fn program(d: Seq<int>) -> Seq<int> {
    seq![2, 4, 1, d[0], 7, 5, d[1], d[2], d[3], d[4], d[5], d[6], op_code(fourth(d)), arg_lo(fourth(d)), 3, 0]
}

/// The answer of part 2: for a program of the searched shape, the value of
/// register A found by the search from 1 in a thousand candidates; else 0.
pub open spec fn quine_a(s: Seq<u8>) -> u64 {
    if searched_shape(choice(s)) {
        search_a(program(choice(s)), 1, 1000)
    } else {
        0
    }
}

/// The digits that pick the program are in range: an operand below 8, and
/// operation codes below 6.
pub open spec fn wf_program(s: Seq<u8>) -> bool {
    &&& s.len() >= 82
    &&& 48 <= s[65] < 56
    &&& 48 <= s[71] < 54
    &&& 48 <= s[73] < 56
    &&& 48 <= s[75] < 54
    &&& 48 <= s[77] < 56
    &&& 48 <= s[79] < 54
    &&& 48 <= s[81] < 56
}

/// Numbers as integers.
pub open spec fn wide(v: Seq<u64>) -> Seq<int> {
    v.map_values(|x: u64| x as int)
}

/// `a >> n`, and 0 for shifts past the width, computed.
fn shr_exec(a: u64, n: u64) -> (r: u64)
    ensures
        r == shr(a, n as int),
{
    if n >= 64 {
        0
    } else {
        a >> n
    }
}

/// One instruction other than a jump, computed.
fn step_exec(op: u64, lit: u64, regs: (u64, u64, u64), out: &mut Vec<u64>) -> (r: (u64, u64, u64))
    requires
        lit < 8,
    ensures
        (r, wide(final(out)@)) == step(op as int, lit as int, regs, wide(old(out)@)),
        final(out)@.len() <= old(out)@.len() + 1,
{
    let (a, b, c) = regs;
    let v: u64 = if lit <= 3 {
        lit
    } else if lit == 4 {
        a % 256
    } else if lit == 5 {
        b % 256
    } else {
        c % 256
    };
    assert(v == combo(lit as int, a, b, c));
    if op == 0 {
        (shr_exec(a, v), b, c)
    } else if op == 1 {
        (a, b ^ lit, c)
    } else if op == 2 {
        (a, v % 8, c)
    } else if op == 4 {
        (a, b ^ c, c)
    } else if op == 5 {
        let ghost before = out@;
        out.push(v % 8);
        assert(wide(out@) =~= wide(before).push((v % 8) as int));
        regs
    } else if op == 6 {
        (a, shr_exec(a, v), c)
    } else {
        (a, b, shr_exec(a, v))
    }
}

/// The output of the program from register A holding `a`, computed.
fn simulate_exec(prog: &Vec<u64>, a: u64) -> (out: Vec<u64>)
    requires
        prog@.len() == 16,
        forall|i: int| 0 <= i < 16 ==> #[trigger] prog@[i] < 8,
    ensures
        wide(out@) == simulate(wide(prog@), a),
        out@.len() <= 22 * 7,
{
    let ghost p = wide(prog@);
    let mut regs: (u64, u64, u64) = (a, 0, 0);
    let mut out: Vec<u64> = Vec::new();
    let mut fuel: usize = 22;
    assert(wide(out@) =~= seq![]);
    loop
        invariant_except_break
            simulate(p, a) == run_passes(p, regs, wide(out@), fuel as nat),
        invariant
            p == wide(prog@),
            prog@.len() == 16,
            forall|i: int| 0 <= i < 16 ==> #[trigger] prog@[i] < 8,
            fuel <= 22,
            out@.len() <= (22 - fuel) * 7,
        ensures
            wide(out@) == simulate(p, a),
            out@.len() <= 22 * 7,
        decreases fuel,
    {
        if fuel == 0 {
            break;
        }
        let ghost r0 = regs;
        let ghost o0 = wide(out@);
        let ghost l0 = out@.len();
        let mut k: usize = 0;
        while k < 7
            invariant
                p == wide(prog@),
                prog@.len() == 16,
                forall|i: int| 0 <= i < 16 ==> #[trigger] prog@[i] < 8,
                k <= 7,
                out@.len() <= l0 + k,
                (regs, wide(out@)) == pass(p, k as int, r0, o0),
            decreases 7 - k,
        {
            regs = step_exec(prog[2 * k], prog[2 * k + 1], regs, &mut out);
            k = k + 1;
        }
        fuel = fuel - 1;
        if regs.0 == 0 {
            break;
        }
    }
    out
}

/// The program ends with `out`, computed.
fn ends_with_exec(prog: &Vec<u64>, out: &Vec<u64>) -> (r: bool)
    requires
        prog@.len() == 16,
    ensures
        r == ends_with(wide(prog@), wide(out@)),
{
    if out.len() > 16 {
        return false;
    }
    let start = 16 - out.len();
    let mut i: usize = 0;
    while i < out.len()
        invariant
            prog@.len() == 16,
            out@.len() <= 16,
            start == 16 - out@.len(),
            i <= out@.len(),
            forall|j: int| 0 <= j < i ==> wide(out@)[j] == wide(prog@)[start + j],
        decreases out@.len() - i,
    {
        if out[i] != prog[start + i] {
            assert(wide(out@)[i as int] != wide(prog@)[start + i]);
            return false;
        }
        i = i + 1;
    }
    true
}

/// The next candidate after `a`, computed.
fn next_candidate_exec(a: u64) -> (r: Option<u64>)
    ensures
        r == next_candidate(a),
{
    let mut m = a;
    while m & 7 == 7
        invariant
            next_candidate(a) == next_candidate(m),
        decreases m,
    {
        let n = m >> 3;
        assert(n < m) by (bit_vector)
            requires
                m & 7 == 7,
                n == m >> 3,
        ;
        if n == 0 {
            return None;
        }
        m = n;
    }
    assert(m + 1 <= u64::MAX) by (bit_vector)
        requires
            m & 7 != 7,
    ;
    Some(m + 1)
}

/// The search for register A, computed.
fn search_exec(prog: &Vec<u64>) -> (r: u64)
    requires
        prog@.len() == 16,
        forall|i: int| 0 <= i < 16 ==> #[trigger] prog@[i] < 8,
    ensures
        r == search_a(wide(prog@), 1, 1000),
{
    let ghost p = wide(prog@);
    let mut a: u64 = 1;
    let mut iters: usize = 1000;
    loop
        invariant
            p == wide(prog@),
            prog@.len() == 16,
            forall|i: int| 0 <= i < 16 ==> #[trigger] prog@[i] < 8,
            iters <= 1000,
            search_a(p, 1, 1000) == search_a(p, a, iters as nat),
        decreases iters,
    {
        if iters == 0 {
            return 0;
        }
        let out = simulate_exec(prog, a);
        if ends_with_exec(prog, &out) {
            if out.len() == 16 {
                return a;
            }
            a = a << 3;
        } else {
            match next_candidate_exec(a) {
                None => {
                    return 0;
                },
                Some(n) => {
                    a = n;
                },
            }
        }
        iters = iters - 1;
    }
}

/// The number of operation code `o`, computed.
fn op_index_exec(o: u64) -> (i: i64)
    ensures
        i == op_index(o as int),
{
    if o == 0 {
        0
    } else if o == 1 {
        1
    } else if o == 4 {
        2
    } else if o == 5 {
        3
    } else {
        -1
    }
}

/// The least operand of operation number `i`, computed.
fn arg_lo_exec(i: i64) -> (r: u64)
    ensures
        r == arg_lo(i as int),
{
    if i == 0 {
        3
    } else if i == 3 {
        5
    } else {
        0
    }
}

/// One past the greatest operand of operation number `i`, computed.
fn arg_hi_exec(i: i64) -> (r: u64)
    ensures
        r == arg_hi(i as int),
{
    if i == 0 {
        4
    } else if i == 3 {
        6
    } else {
        8
    }
}

/// Part 2: the value of register A for which the program outputs itself,
/// as the search finds it for programs of the searched shape; 0 for others.
pub fn part2(input: &str) -> (r: u64)
    requires
        wf_program(input.spec_bytes()),
    ensures
        r == quine_a(input.spec_bytes()),
{
    let s = input.as_bytes();
    let ghost d = choice(s@);
    let x1 = (s[65] - 48) as u64;
    let o1 = (s[71] - 48) as u64;
    let a1 = (s[73] - 48) as u64;
    let o2 = (s[75] - 48) as u64;
    let a2 = (s[77] - 48) as u64;
    let o3 = (s[79] - 48) as u64;
    let a3 = (s[81] - 48) as u64;
    let i1 = op_index_exec(o1);
    let i2 = op_index_exec(o2);
    let i3 = op_index_exec(o3);
    if !(0 <= i1 && i1 < 3 && 0 <= i2 && i2 < 3 && i2 != i1 && 0 <= i3 && i3 < 4 && i3 != i1 && i3 != i2) {
        return 0;
    }
    let i4 = 6 - i1 - i2 - i3;
    assert(i4 == fourth(d));
    if !(i4 == 0 || i4 == 3) {
        return 0;
    }
    if !(arg_lo_exec(i1) <= a1 && a1 < arg_hi_exec(i1) && arg_lo_exec(i2) <= a2 && a2 < arg_hi_exec(i2) && arg_lo_exec(i3) <= a3 && a3 < arg_hi_exec(i3)) {
        return 0;
    }
    assert(searched_shape(d));
    let o4: u64 = if i4 == 0 {
        0
    } else {
        5
    };
    let a4 = arg_lo_exec(i4);
    let prog: Vec<u64> = vec![2, 4, 1, x1, 7, 5, o1, a1, o2, a2, o3, a3, o4, a4, 3, 0];
    assert(wide(prog@) =~= program(d));
    search_exec(&prog)
}

/// The answer of part 1.
pub fn run(input: &str) -> (r: String)
    requires
        wf_input(input.spec_bytes()),
    ensures
        r@ == joined(
            outputs(
                register_a(input.spec_bytes()) as u64,
                first_xor(input.spec_bytes()) as u64,
                second_xor(input.spec_bytes()) as u64,
            ),
        ),
{
    part1(input)
}

} // verus!
