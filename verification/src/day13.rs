//! Claw contraption: the cheapest way to reach each prize with two buttons,
//! found by Cramer's rule.
use vstd::prelude::*;
use vstd::string::StringSliceAdditionalSpecFns;

use crate::digits::{
    all_digits, dec_value, digits_end, is_digit, lemma_dec_value_bounds, lemma_digits_end,
    lemma_digits_end_ge, lemma_numeral_small, lemma_pow10_mono, numeral_at, parse_digits, pow10,
};

verus! {

/// A claw machine: button A moves by `(ax, ay)`, button B by `(bx, by)`,
/// and the prize is at `(px, py)`.
pub type Machine = (int, int, int, int, int, int);

/// The two-digit numeral at `j`.
pub open spec fn two_digits(s: Seq<u8>, j: int) -> int {
    dec_value(s.subrange(j, j + 2))
}

/// The end of the prize's x coordinate in the block at `i`.
pub open spec fn prize_x_end(s: Seq<u8>, i: int) -> int {
    digits_end(s, i + 51)
}

/// The end of the prize's y coordinate in the block at `i`.
pub open spec fn prize_y_end(s: Seq<u8>, i: int) -> int {
    digits_end(s, prize_x_end(s, i) + 4)
}

/// The machine described by the three lines at `i`:
/// `Button A: X+ax, Y+ay`, `Button B: X+bx, Y+by`, `Prize: X=px, Y=py`.
pub open spec fn machine_at(s: Seq<u8>, i: int) -> Machine {
    let e1 = prize_x_end(s, i);
    let e2 = prize_y_end(s, i);
    (two_digits(s, i + 12), two_digits(s, i + 18), two_digits(s, i + 33), two_digits(s, i + 39),
        dec_value(s.subrange(i + 51, e1)), dec_value(s.subrange(e1 + 4, e2)))
}

pub proof fn lemma_block_end(s: Seq<u8>, i: int)
    requires
        0 <= i,
    ensures
        prize_y_end(s, i) >= i + 55,
{
    lemma_digits_end_ge(s, i + 51);
    lemma_digits_end_ge(s, prize_x_end(s, i) + 4);
}

/// The machines described from index `i` on, blocks separated by blank lines.
pub open spec fn machines(s: Seq<u8>, i: int) -> Seq<Machine>
    decreases s.len() - i,
{
    if 0 <= i && i + 51 <= s.len() {
        let e2 = prize_y_end(s, i);
        proof {
            lemma_block_end(s, i);
        }
        seq![machine_at(s, i)] + if e2 + 2 <= s.len() {
            machines(s, e2 + 2)
        } else {
            seq![]
        }
    } else {
        seq![]
    }
}

/// `ax * by - bx * ay`, the determinant of the button moves.
pub open spec fn det(m: Machine) -> int {
    m.0 * m.3 - m.2 * m.1
}

/// The block at `i` has two-digit button moves, prize coordinates of three
/// to five digits, independent button moves, and either ends the input with
/// its newline or is followed by a blank line and another block.
pub open spec fn wf_input(s: Seq<u8>, i: int) -> bool
    decreases s.len() - i,
{
    let e1 = prize_x_end(s, i);
    let e2 = prize_y_end(s, i);
    proof {
        if i >= 0 {
            lemma_block_end(s, i);
        }
    }
    &&& 0 <= i
    &&& i + 51 < s.len()
    &&& all_digits(s.subrange(i + 12, i + 14))
    &&& all_digits(s.subrange(i + 18, i + 20))
    &&& all_digits(s.subrange(i + 33, i + 35))
    &&& all_digits(s.subrange(i + 39, i + 41))
    &&& 3 <= e1 - (i + 51) <= 5
    &&& e1 + 4 < s.len()
    &&& 3 <= e2 - (e1 + 4) <= 5
    &&& e2 < s.len()
    &&& det(machine_at(s, i)) != 0
    &&& (e2 + 1 == s.len() || (e2 + 2 < s.len() && wf_input(s, e2 + 2)))
}

/// The prize moved `off` further along both axes.
pub open spec fn target(m: Machine, off: int) -> (int, int) {
    (m.4 + off, m.5 + off)
}

/// Cramer's numerator for the number of presses of button A.
pub open spec fn num_a(m: Machine, off: int) -> int {
    target(m, off).0 * m.3 - m.2 * target(m, off).1
}

/// Cramer's numerator for the number of presses of button B.
pub open spec fn num_b(m: Machine, off: int) -> int {
    m.0 * target(m, off).1 - target(m, off).0 * m.1
}

/// The tokens to win the prize (3 per press of A, 1 per press of B) when the
/// presses that reach it are whole numbers, else 0.
pub open spec fn cost(m: Machine, off: int) -> int {
    if num_a(m, off) % det(m) == 0 && num_b(m, off) % det(m) == 0 {
        3 * (num_a(m, off) / det(m)) + num_b(m, off) / det(m)
    } else {
        0
    }
}

/// The tokens spent on the first `k` machines.
pub open spec fn total_cost(ms: Seq<Machine>, off: int, k: int) -> int
    decreases k,
{
    if k <= 0 {
        0
    } else {
        total_cost(ms, off, k - 1) + cost(ms[k - 1], off)
    }
}

/// The answer needs no machine reached by a negative number of presses
/// worth of tokens, and a total that fits in 64 bits.
pub open spec fn costs_fit(ms: Seq<Machine>, off: int) -> bool {
    &&& forall|k: int| 0 <= k < ms.len() ==> cost(#[trigger] ms[k], off) >= 0
    &&& total_cost(ms, off, ms.len() as int) <= u64::MAX
}

/// A multiple of a nonzero `d` leaves remainder 0 and quotient `q`.
pub proof fn lemma_exact_div(x: int, d: int, q: int)
    requires
        d != 0,
        x == q * d,
    ensures
        x % d == 0,
        x / d == q,
{
    assert(x % d == 0 && x / d == q) by (nonlinear_arith)
        requires d != 0, x == q * d;
}

/// Cramer's rule: when the moves are independent, pressing A `a` times and
/// B `b` times lands on the target exactly when the numerators are
/// divisible by the determinant and `a`, `b` are the quotients.
pub proof fn cramer(m: Machine, off: int, a: int, b: int)
    requires
        det(m) != 0,
    ensures
        (a * m.0 + b * m.2 == target(m, off).0 && a * m.1 + b * m.3 == target(m, off).1) <==> (
        num_a(m, off) % det(m) == 0 && num_b(m, off) % det(m) == 0 && a == num_a(m, off) / det(m)
            && b == num_b(m, off) / det(m)),
{
    let (ax, ay, bx, by) = (m.0, m.1, m.2, m.3);
    let (x, y) = target(m, off);
    let d = det(m);
    if a * ax + b * bx == x && a * ay + b * by == y {
        assert(x * by == a * (ax * by) + b * (bx * by)) by (nonlinear_arith)
            requires x == a * ax + b * bx;
        assert(bx * y == a * (bx * ay) + b * (bx * by)) by (nonlinear_arith)
            requires y == a * ay + b * by;
        assert(a * d == a * (ax * by) - a * (bx * ay)) by (nonlinear_arith)
            requires d == ax * by - bx * ay;
        assert(ax * y == a * (ax * ay) + b * (ax * by)) by (nonlinear_arith)
            requires y == a * ay + b * by;
        assert(x * ay == a * (ax * ay) + b * (bx * ay)) by (nonlinear_arith)
            requires x == a * ax + b * bx;
        assert(b * d == b * (ax * by) - b * (bx * ay)) by (nonlinear_arith)
            requires d == ax * by - bx * ay;
        assert(num_a(m, off) == a * d && num_b(m, off) == b * d);
        lemma_exact_div(num_a(m, off), d, a);
        lemma_exact_div(num_b(m, off), d, b);
    }
    if num_a(m, off) % d == 0 && num_b(m, off) % d == 0 && a == num_a(m, off) / d && b == num_b(m, off)
        / d {
        vstd::arithmetic::div_mod::lemma_fundamental_div_mod(num_a(m, off), d);
        vstd::arithmetic::div_mod::lemma_fundamental_div_mod(num_b(m, off), d);
        let na = num_a(m, off);
        let nb = num_b(m, off);
        assert(d * (a * ax + b * bx) == (d * a) * ax + (d * b) * bx) by (nonlinear_arith);
        assert(d * (a * ay + b * by) == (d * a) * ay + (d * b) * by) by (nonlinear_arith);
        assert(na * ax == x * (by * ax) - y * (bx * ax)) by (nonlinear_arith)
            requires na == x * by - bx * y;
        assert(nb * bx == y * (ax * bx) - x * (ay * bx)) by (nonlinear_arith)
            requires nb == ax * y - x * ay;
        assert(d * x == x * (by * ax) - x * (ay * bx)) by (nonlinear_arith)
            requires d == ax * by - bx * ay;
        assert(na * ay == x * (by * ay) - y * (bx * ay)) by (nonlinear_arith)
            requires na == x * by - bx * y;
        assert(nb * by == y * (ax * by) - x * (ay * by)) by (nonlinear_arith)
            requires nb == ax * y - x * ay;
        assert(d * y == y * (ax * by) - y * (bx * ay)) by (nonlinear_arith)
            requires d == ax * by - bx * ay;
        assert(by * ax == ax * by && bx * ax == ax * bx && ay * bx == bx * ay && by * ay == ay * by)
            by (nonlinear_arith);
        assert(d * (a * ax + b * bx) == d * x && d * (a * ay + b * by) == d * y);
        vstd::arithmetic::mul::lemma_mul_equality_converse(d, a * ax + b * bx, x);
        vstd::arithmetic::mul::lemma_mul_equality_converse(d, a * ay + b * by, y);
    }
}


/// `n / d` when `d` divides `n`, else `None`.
fn exact_quotient(n: i64, d: i64) -> (r: Option<i64>)
    requires
        d != 0,
        -0x1000_0000_0000_0000 < n < 0x1000_0000_0000_0000,
        -0x1000_0000_0000_0000 < d < 0x1000_0000_0000_0000,
    ensures
        r == if n as int % d as int == 0 {
            Some((n as int / d as int) as i64)
        } else {
            None::<i64>
        },
        r is Some ==> (n as int / d as int) == r->0,
{
    let an: u64 = if n < 0 { (-n) as u64 } else { n as u64 };
    let ad: u64 = if d < 0 { (-d) as u64 } else { d as u64 };
    let q = an / ad;
    let rem = an % ad;
    proof {
        vstd::arithmetic::div_mod::lemma_fundamental_div_mod(an as int, ad as int);
    }
    if rem != 0 {
        proof {
            if n as int % d as int == 0 {
                let k = n as int / d as int;
                vstd::arithmetic::div_mod::lemma_fundamental_div_mod(n as int, d as int);
                let sk = if (n < 0) == (d < 0) { k } else { -k };
                assert(an as int == sk * ad as int) by (nonlinear_arith)
                    requires
                        n as int == d as int * k,
                        an as int == if n < 0 { -n } else { n as int },
                        ad as int == if d < 0 { -d } else { d as int },
                        sk == if (n < 0) == (d < 0) { k } else { -k },
                ;
                lemma_exact_div(an as int, ad as int, sk);
            }
        }
        return None;
    }
    let qq: i64 = if (n < 0) == (d < 0) { q as i64 } else { -(q as i64) };
    proof {
        assert(an as int == ad as int * q as int);
        assert(n as int == qq as int * d as int) by (nonlinear_arith)
            requires
                an as int == ad as int * q as int,
                an as int == if n < 0 { -n } else { n as int },
                ad as int == if d < 0 { -d } else { d as int },
                qq as int == if (n < 0) == (d < 0) { q as int } else { -q },
        ;
        lemma_exact_div(n as int, d as int, qq as int);
    }
    Some(qq)
}

/// The tokens to win the prize of one machine, with its prize moved by `off`.
fn machine_cost(m: (i64, i64, i64, i64, i64, i64), off: i64) -> (r: i64)
    requires
        0 <= m.0 < 100 && 0 <= m.1 < 100 && 0 <= m.2 < 100 && 0 <= m.3 < 100,
        0 <= m.4 < 100000 && 0 <= m.5 < 100000,
        0 <= off <= 10_000_000_000_000,
        det((m.0 as int, m.1 as int, m.2 as int, m.3 as int, m.4 as int, m.5 as int)) != 0,
    ensures
        r == cost((m.0 as int, m.1 as int, m.2 as int, m.3 as int, m.4 as int, m.5 as int), off as int),
{
    let ghost mm = (m.0 as int, m.1 as int, m.2 as int, m.3 as int, m.4 as int, m.5 as int);
    let (ax, ay, bx, by, px, py) = m;
    let x = px + off;
    let y = py + off;
    assert(0 <= ax * by < 10000 && 0 <= bx * ay < 10000) by (nonlinear_arith)
        requires 0 <= ax < 100, 0 <= ay < 100, 0 <= bx < 100, 0 <= by < 100;
    assert(0 <= x * by < 0x100_0000_0000_0000 && 0 <= bx * y < 0x100_0000_0000_0000
        && 0 <= ax * y < 0x100_0000_0000_0000 && 0 <= x * ay < 0x100_0000_0000_0000) by (nonlinear_arith)
        requires
            0 <= ax < 100, 0 <= ay < 100, 0 <= bx < 100, 0 <= by < 100,
            0 <= x < 10_000_000_100_000, 0 <= y < 10_000_000_100_000;
    let d = ax * by - bx * ay;
    let d1 = x * by - bx * y;
    let d2 = ax * y - x * ay;
    assert(d == det(mm) && d1 == num_a(mm, off as int) && d2 == num_b(mm, off as int));
    match (exact_quotient(d1, d), exact_quotient(d2, d)) {
        (Some(a), Some(b)) => {
            assert(-0x100_0000_0000_0000 < a < 0x100_0000_0000_0000 && -0x100_0000_0000_0000 < b
                < 0x100_0000_0000_0000) by (nonlinear_arith)
                requires
                    d != 0,
                    a as int == d1 as int / d as int,
                    b as int == d2 as int / d as int,
                    -0x100_0000_0000_0000 < d1 < 0x100_0000_0000_0000,
                    -0x100_0000_0000_0000 < d2 < 0x100_0000_0000_0000,
            {
                vstd::arithmetic::div_mod::lemma_fundamental_div_mod(d1 as int, d as int);
                vstd::arithmetic::div_mod::lemma_fundamental_div_mod(d2 as int, d as int);
            }
            3 * a + b
        },
        _ => 0,
    }
}


/// Reads the two-digit numeral at `j`.
fn parse_two(s: &[u8], j: usize) -> (r: i64)
    requires
        j + 2 <= s@.len(),
        all_digits(s@.subrange(j as int, j + 2)),
    ensures
        r == two_digits(s@, j as int),
        0 <= r < 100,
{
    let ghost t = s@.subrange(j as int, j + 2);
    assert(is_digit(t[0]) && is_digit(t[1]));
    proof {
        crate::digits::lemma_dec_value_take(t, 0);
        crate::digits::lemma_dec_value_take(t, 1);
        assert(t.take(2) =~= t);
        assert(t.take(0).len() == 0);
    }
    (s[j] - 48) as i64 * 10 + (s[j + 1] - 48) as i64
}

/// Reads the prize coordinate of three to five digits at `j`.
fn parse_coordinate(s: &[u8], j: usize) -> (r: (i64, usize))
    requires
        j <= s@.len(),
        digits_end(s@, j as int) - j <= 5,
    ensures
        r.0 == dec_value(s@.subrange(j as int, digits_end(s@, j as int))),
        0 <= r.0 < 100000,
        r.1 == digits_end(s@, j as int),
{
    proof {
        lemma_digits_end(s@, j as int);
        lemma_numeral_small(numeral_at(s@, j as int));
        lemma_dec_value_bounds(numeral_at(s@, j as int));
        lemma_pow10_mono(numeral_at(s@, j as int).len(), 5);
        assert(pow10(5) == 100000) by {
            reveal_with_fuel(pow10, 6);
        }
    }
    let (v, e) = parse_digits(s, j);
    (v as i64, e)
}

proof fn lemma_total_cost_mono(ms: Seq<Machine>, off: int, k: int, n: int)
    requires
        0 <= k <= n <= ms.len(),
        forall|j: int| 0 <= j < ms.len() ==> cost(#[trigger] ms[j], off) >= 0,
    ensures
        0 <= total_cost(ms, off, k) <= total_cost(ms, off, n),
    decreases n,
{
    if k < n {
        lemma_total_cost_mono(ms, off, k, n - 1);
        assert(cost(ms[n - 1], off) >= 0);
    } else if k > 0 {
        lemma_total_cost_mono(ms, off, k - 1, k - 1);
        assert(cost(ms[k - 1], off) >= 0);
    }
}

/// The tokens to win every prize that can be won, each prize moved by `off`.
fn total_tokens(s: &[u8], off: i64) -> (r: u64)
    requires
        wf_input(s@, 0),
        0 <= off <= 10_000_000_000_000,
        costs_fit(machines(s@, 0), off as int),
    ensures
        r == total_cost(machines(s@, 0), off as int, machines(s@, 0).len() as int),
{
    let ghost all = machines(s@, 0);
    let ghost mut c: int = 0;
    let mut i: usize = 0;
    let mut tot: u64 = 0;
    loop
        invariant
            wf_input(s@, i as int),
            all == machines(s@, 0),
            0 <= c <= all.len(),
            machines(s@, i as int) == all.skip(c),
            tot == total_cost(all, off as int, c),
            0 <= off <= 10_000_000_000_000,
            costs_fit(all, off as int),
        decreases s@.len() - i,
    {
        proof {
            lemma_block_end(s@, i as int);
            lemma_digits_end(s@, i + 51);
        }
        let len = s.len();
        assert(i + 51 < len);
        let ax = parse_two(s, i + 12);
        let ay = parse_two(s, i + 18);
        let bx = parse_two(s, i + 33);
        let by = parse_two(s, i + 39);
        let (px, e1) = parse_coordinate(s, i + 51);
        proof {
            lemma_digits_end(s@, e1 + 4);
        }
        let (py, e2) = parse_coordinate(s, e1 + 4);
        let ghost m = machine_at(s@, i as int);
        assert(m == (ax as int, ay as int, bx as int, by as int, px as int, py as int));
        let ghost tail = if e2 + 2 <= s@.len() { machines(s@, e2 + 2) } else { seq![] };
        assert(machines(s@, i as int) =~= seq![m] + tail);
        assert(all.skip(c).len() >= 1);
        assert(all.skip(c)[0] == all[c]);
        assert(all[c] == m);
        let k = machine_cost((ax, ay, bx, by, px, py), off);
        proof {
            assert(all.skip(c + 1) =~= all.skip(c).skip(1));
            assert((seq![m] + tail).skip(1) =~= tail);
            assert(all.skip(c + 1) =~= tail);
            lemma_total_cost_mono(all, off as int, c + 1, all.len() as int);
            assert(cost(all[c], off as int) >= 0);
        }
        tot = tot + k as u64;
        proof {
            c = c + 1;
        }
        if e2 + 1 == s.len() {
            proof {
                assert(tail.len() == 0);
                assert(all.len() == c);
            }
            return tot;
        }
        i = e2 + 2;
    }
}

/// Part 1: the fewest tokens to win every prize that can be won.
pub fn part1(input: &str) -> (r: u64)
    requires
        wf_input(input.spec_bytes(), 0),
        costs_fit(machines(input.spec_bytes(), 0), 0),
    ensures
        r == total_cost(machines(input.spec_bytes(), 0), 0, machines(input.spec_bytes(), 0).len() as int),
{
    total_tokens(input.as_bytes(), 0)
}

/// Part 2: the same with every prize moved by 10^13 along both axes.
pub fn part2(input: &str) -> (r: u64)
    requires
        wf_input(input.spec_bytes(), 0),
        costs_fit(machines(input.spec_bytes(), 0), 10_000_000_000_000),
    ensures
        r == total_cost(
            machines(input.spec_bytes(), 0),
            10_000_000_000_000,
            machines(input.spec_bytes(), 0).len() as int,
        ),
{
    total_tokens(input.as_bytes(), 10_000_000_000_000)
}

/// The answer of part 2, as a signed number.
pub fn run(input: &str) -> (r: i64)
    requires
        wf_input(input.spec_bytes(), 0),
        costs_fit(machines(input.spec_bytes(), 0), 10_000_000_000_000),
    ensures
        r == total_cost(
            machines(input.spec_bytes(), 0),
            10_000_000_000_000,
            machines(input.spec_bytes(), 0).len() as int,
        ) as i64,
{
    part2(input) as i64
}

} // verus!
