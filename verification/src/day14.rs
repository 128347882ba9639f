//! Restroom redoubt: robots moving on a wrapping 101 x 103 grid.
use vstd::prelude::*;
use vstd::string::StringSliceAdditionalSpecFns;

use crate::digits::{
    dec_value, digits_end, lemma_dec_value_bounds, lemma_digits_end, lemma_digits_end_ge, lemma_numeral_small,
    lemma_pow10_mono, numeral_at, parse_digits, pow10,
};

pub mod fastdiv;

use self::fastdiv::{fastmod_h, fastmod_w};

verus! {

/// The width of the room.
pub const W: i64 = 101;

/// The height of the room.
pub const H: i64 = 103;

/// A robot: position `(x, y)` and velocity `(vx, vy)`.
pub type Robot = (int, int, int, int);

/// The value of the signed numeral at `j`: an optional `-`, then digits.
pub open spec fn signed_value(s: Seq<u8>, j: int) -> int {
    if 0 <= j < s.len() && s[j] == 45 {
        -dec_value(numeral_at(s, j + 1))
    } else {
        dec_value(numeral_at(s, j))
    }
}

/// The index of the first digit of the signed numeral at `j`.
pub open spec fn signed_digits(s: Seq<u8>, j: int) -> int {
    if 0 <= j < s.len() && s[j] == 45 {
        j + 1
    } else {
        j
    }
}

/// The index just past the signed numeral at `j`.
pub open spec fn signed_end(s: Seq<u8>, j: int) -> int {
    digits_end(s, signed_digits(s, j))
}

/// Where the parts of the robot line that starts at `i` end: the two
/// coordinates of the position, then the two of the velocity.
pub open spec fn field_ends(s: Seq<u8>, i: int) -> (int, int, int, int) {
    let a = digits_end(s, i + 2);
    let b = digits_end(s, a + 1);
    let c = signed_end(s, b + 3);
    let e = signed_end(s, c + 1);
    (a, b, c, e)
}

/// The robot described by the line `p=x,y v=vx,vy` that starts at `i`.
pub open spec fn robot_at(s: Seq<u8>, i: int) -> Robot {
    let (a, b, c, e) = field_ends(s, i);
    (dec_value(numeral_at(s, i + 2)), dec_value(numeral_at(s, a + 1)), signed_value(s, b + 3),
        signed_value(s, c + 1))
}

pub proof fn lemma_field_ends(s: Seq<u8>, i: int)
    requires
        0 <= i,
        i + 2 <= s.len(),
    ensures
        field_ends(s, i).3 >= i,
{
    let (a, b, c, e) = field_ends(s, i);
    lemma_digits_end(s, i + 2);
    if a + 1 <= s.len() {
        lemma_digits_end(s, a + 1);
        if b + 3 <= s.len() {
            lemma_digits_end(s, signed_digits(s, b + 3));
            if c + 1 <= s.len() {
                lemma_digits_end(s, signed_digits(s, c + 1));
            }
        }
    }
    lemma_digits_end_ge(s, i + 2);
    lemma_digits_end_ge(s, a + 1);
    lemma_digits_end_ge(s, signed_digits(s, b + 3));
    lemma_digits_end_ge(s, signed_digits(s, c + 1));
}

/// The robots described from index `i` on, one per line.
pub open spec fn robots(s: Seq<u8>, i: int) -> Seq<Robot>
    decreases s.len() - i,
{
    if 0 <= i && i + 2 <= s.len() {
        let e = field_ends(s, i).3;
        proof {
            lemma_field_ends(s, i);
        }
        seq![robot_at(s, i)] + if e < s.len() {
            robots(s, e + 1)
        } else {
            seq![]
        }
    } else {
        seq![]
    }
}

/// The non-negative representative of a velocity that is at least `-m`:
/// a negative `v` becomes `m + v`.
pub open spec fn residue(v: int, m: int) -> int {
    if v < 0 {
        m + v
    } else {
        v
    }
}

/// The numeral that starts at `j` has one to three digits.
pub open spec fn short_numeral(s: Seq<u8>, j: int) -> bool {
    1 <= digits_end(s, j) - j <= 3
}

/// The line at `i` is `p=x,y v=vx,vy` followed by a newline, each number of
/// one to three digits, with the position inside the room, a negative
/// velocity no faster than the room size, and `x + 100 * residue(vx, W)`
/// (and the same for y) below 2^16.
pub open spec fn wf_robot(s: Seq<u8>, i: int) -> bool {
    let (a, b, c, e) = field_ends(s, i);
    let r = robot_at(s, i);
    &&& 0 <= i && i + 2 <= s.len()
    &&& s[i] == 112 && s[i + 1] == 61
    &&& short_numeral(s, i + 2)
    &&& a < s.len() && s[a] == 44
    &&& short_numeral(s, a + 1)
    &&& b + 3 < s.len() && s[b] == 32 && s[b + 1] == 118 && s[b + 2] == 61
    &&& short_numeral(s, signed_digits(s, b + 3))
    &&& c < s.len() && s[c] == 44
    &&& c + 1 < s.len()
    &&& short_numeral(s, signed_digits(s, c + 1))
    &&& e < s.len() && s[e] == 10
    &&& 0 <= r.0 < W && 0 <= r.1 < H
    &&& -W <= r.2 && -H <= r.3
    &&& r.0 + 100 * residue(r.2, W as int) < 0x1_0000
    &&& r.1 + 100 * residue(r.3, H as int) < 0x1_0000
}

/// The input from `i` on is a sequence of well-formed robot lines.
pub open spec fn wf_input(s: Seq<u8>, i: int) -> bool
    decreases s.len() - i,
{
    if 0 <= i && i + 2 <= s.len() {
        let e = field_ends(s, i).3;
        proof {
            lemma_field_ends(s, i);
        }
        wf_robot(s, i) && wf_input(s, e + 1)
    } else {
        i == s.len()
    }
}

/// The coordinate `p + k * v`, wrapped into `[0, m)`.
pub open spec fn wrap(p: int, v: int, m: int, k: int) -> int {
    (p + k * v) % m
}

/// The robot ends up after 100 seconds in the quadrant selected by `left`
/// and `top` (robots on the middle lines are in none).
pub open spec fn in_quadrant(r: Robot, left: bool, top: bool) -> bool {
    let x = wrap(r.0, r.2, W as int, 100);
    let y = wrap(r.1, r.3, H as int, 100);
    &&& x != W / 2 && y != H / 2
    &&& (x < W / 2) == left
    &&& (y < H / 2) == top
}

/// The number of robots in a quadrant after 100 seconds.
pub open spec fn quadrant_count(rs: Seq<Robot>, left: bool, top: bool) -> int
    decreases rs.len(),
{
    if rs.len() == 0 {
        0
    } else {
        quadrant_count(rs.drop_last(), left, top) + if in_quadrant(rs.last(), left, top) {
            1int
        } else {
            0
        }
    }
}

/// The safety factor: the product of the four quadrant counts after 100 seconds.
pub open spec fn safety_factor(rs: Seq<Robot>) -> int {
    quadrant_count(rs, true, true) * quadrant_count(rs, true, false) * quadrant_count(
        rs,
        false,
        true,
    ) * quadrant_count(rs, false, false)
}


/// A numeral of one to three digits is below 1000.
proof fn lemma_short_numeral(s: Seq<u8>, j: int)
    requires
        0 <= j <= s.len(),
        short_numeral(s, j),
    ensures
        0 <= dec_value(numeral_at(s, j)) < 1000,
{
    lemma_digits_end(s, j);
    lemma_numeral_small(numeral_at(s, j));
    lemma_dec_value_bounds(numeral_at(s, j));
    lemma_pow10_mono(numeral_at(s, j).len(), 3);
    assert(pow10(3) == 1000) by {
        reveal_with_fuel(pow10, 4);
    }
}

/// Reads the numeral of one to three digits at `j`.
fn parse_short(s: &[u8], j: usize) -> (r: (u32, usize))
    requires
        j <= s@.len(),
        short_numeral(s@, j as int),
    ensures
        r.0 == dec_value(numeral_at(s@, j as int)),
        r.0 < 1000,
        r.1 == digits_end(s@, j as int),
{
    proof {
        lemma_short_numeral(s@, j as int);
    }
    let (v, e) = parse_digits(s, j);
    (v as u32, e)
}

/// Reads the signed numeral at `j` and returns its residue for the size `m`.
fn parse_residue(s: &[u8], j: usize, m: u32) -> (r: (u32, usize))
    requires
        j < s@.len(),
        short_numeral(s@, signed_digits(s@, j as int)),
        signed_value(s@, j as int) >= -m,
        m < 1000,
    ensures
        r.0 == residue(signed_value(s@, j as int), m as int),
        r.0 < 2000,
        r.1 == signed_end(s@, j as int),
{
    if s[j] == 45 {
        let (n, e) = parse_short(s, j + 1);
        if n == 0 {
            (0, e)
        } else {
            (m - n, e)
        }
    } else {
        parse_short(s, j)
    }
}

/// The fields of the robot line at `i`: position, residues of the velocity,
/// and the index of the newline that ends it.
fn parse_robot(s: &[u8], i: usize) -> (r: (u32, u32, u32, u32, usize))
    requires
        wf_robot(s@, i as int),
    ensures
        r.0 == robot_at(s@, i as int).0,
        r.1 == robot_at(s@, i as int).1,
        r.2 == residue(robot_at(s@, i as int).2, W as int),
        r.3 == residue(robot_at(s@, i as int).3, H as int),
        r.4 == field_ends(s@, i as int).3,
{
    assert(i + 2 <= s@.len() && s@.len() == s.len());
    let (px, a) = parse_short(s, i + 2);
    assert(a < s@.len());
    let (py, b) = parse_short(s, a + 1);
    assert(b + 3 < s@.len());
    let (vx, c) = parse_residue(s, b + 3, 101);
    let (vy, e) = parse_residue(s, c + 1, 103);
    (px, py, vx, vy, e)
}


/// Wrapping with the residue of a velocity gives the same coordinate as with
/// the velocity itself.
proof fn lemma_wrap_residue(p: int, v: int, m: int, k: int)
    requires
        m > 0,
        v >= -m,
        k >= 0,
    ensures
        (p + k * residue(v, m)) % m == wrap(p, v, m, k),
{
    if v < 0 {
        assert(p + k * residue(v, m) == m * k + (p + k * v)) by (nonlinear_arith)
            requires residue(v, m) == m + v;
        vstd::arithmetic::div_mod::lemma_mod_multiples_vanish(k, p + k * v, m);
    }
}

/// Part 1: the safety factor after 100 seconds.
pub fn part1(input: &str) -> (r: u64)
    requires
        wf_input(input.spec_bytes(), 0),
        safety_factor(robots(input.spec_bytes(), 0)) <= u64::MAX,
    ensures
        r == safety_factor(robots(input.spec_bytes(), 0)),
{
    let s = input.as_bytes();
    let mut c_tt: u64 = 0;
    let mut c_tf: u64 = 0;
    let mut c_ft: u64 = 0;
    let mut c_ff: u64 = 0;
    let mut i: usize = 0;
    let ghost mut done: Seq<Robot> = seq![];
    assert(robots(s@, 0) =~= done + robots(s@, 0));
    while i < s.len()
        invariant
            i <= s@.len(),
            wf_input(s@, i as int),
            robots(s@, 0) == done + robots(s@, i as int),
            c_tt == quadrant_count(done, true, true),
            c_tf == quadrant_count(done, true, false),
            c_ft == quadrant_count(done, false, true),
            c_ff == quadrant_count(done, false, false),
            c_tt <= i && c_tf <= i && c_ft <= i && c_ff <= i,
        decreases s@.len() - i,
    {
        proof {
            lemma_field_ends(s@, i as int);
        }
        let ghost rb = robot_at(s@, i as int);
        let (px, py, vx, vy, e) = parse_robot(s, i);
        let fx = fastmod_w((px + 100 * vx) as u16);
        let fy = fastmod_h((py + 100 * vy) as u16);
        proof {
            lemma_wrap_residue(rb.0, rb.2, 101, 100);
            lemma_wrap_residue(rb.1, rb.3, 103, 100);
            assert(fx == wrap(rb.0, rb.2, W as int, 100));
            assert(fy == wrap(rb.1, rb.3, H as int, 100));
            assert(done.push(rb).drop_last() =~= done);
            let tail = if e < s@.len() { robots(s@, e + 1) } else { seq![] };
            assert(robots(s@, i as int) =~= seq![rb] + tail);
            assert(robots(s@, 0) =~= done.push(rb) + robots(s@, e + 1));
        }
        if fx != 50 && fy != 51 {
            if fx < 50 {
                if fy < 51 {
                    c_tt = c_tt + 1;
                } else {
                    c_tf = c_tf + 1;
                }
            } else {
                if fy < 51 {
                    c_ft = c_ft + 1;
                } else {
                    c_ff = c_ff + 1;
                }
            }
        }
        proof {
            done = done.push(rb);
        }
        i = e + 1;
    }
    proof {
        assert(done =~= robots(s@, 0));
    }
    if c_tt == 0 || c_tf == 0 || c_ft == 0 || c_ff == 0 {
        proof {
            let (a, b, c, d) = (c_tt as int, c_tf as int, c_ft as int, c_ff as int);
            assert(a * b * c * d == 0) by (nonlinear_arith)
                requires a == 0 || b == 0 || c == 0 || d == 0;
        }
        return 0;
    }
    proof {
        let (a, b, c, d) = (c_tt as int, c_tf as int, c_ft as int, c_ff as int);
        assert(a * b <= a * b * c && a * b * c <= a * b * c * d) by (nonlinear_arith)
            requires a >= 1, b >= 1, c >= 1, d >= 1;
    }
    c_tt * c_tf * c_ft * c_ff
}


/// `|x|`.
pub open spec fn abs(x: int) -> int {
    if x < 0 {
        -x
    } else {
        x
    }
}

/// The sum over the robots of the distance of their coordinate after `k`
/// seconds to the middle line of a room of size `m`.
pub open spec fn spread(ps: Seq<int>, vs: Seq<int>, m: int, k: int) -> int
    decreases ps.len(),
{
    if ps.len() == 0 || vs.len() == 0 {
        0
    } else {
        spread(ps.drop_last(), vs.drop_last(), m, k) + abs(wrap(ps.last(), vs.last(), m, k) - m / 2)
    }
}

/// After `k` seconds the spread differs from that of 500 uniformly scattered
/// robots (`500 * m / 4`) by at least 1500: the robots have gathered.
pub open spec fn clustered(ps: Seq<int>, vs: Seq<int>, m: int, k: int) -> bool {
    abs(spread(ps, vs, m, k) - 500 * m / 4) >= 1500
}

/// `k` is the first second, counting from 1, at which the robots have gathered.
pub open spec fn is_first_clustered(ps: Seq<int>, vs: Seq<int>, m: int, k: int) -> bool {
    &&& k >= 1
    &&& clustered(ps, vs, m, k)
    &&& forall|j: int| 1 <= j < k ==> !clustered(ps, vs, m, j)
}

/// The first second at which the robots have gathered along one axis.
pub open spec fn first_clustered(ps: Seq<int>, vs: Seq<int>, m: int) -> int {
    choose|k: int| is_first_clustered(ps, vs, m, k)
}

proof fn lemma_first_clustered_unique(ps: Seq<int>, vs: Seq<int>, m: int, k1: int, k2: int)
    requires
        is_first_clustered(ps, vs, m, k1),
        is_first_clustered(ps, vs, m, k2),
    ensures
        k1 == k2,
{
}

/// The x coordinates of the robots.
pub open spec fn xs_of(rs: Seq<Robot>) -> Seq<int> {
    rs.map_values(|r: Robot| r.0)
}

/// The y coordinates of the robots.
pub open spec fn ys_of(rs: Seq<Robot>) -> Seq<int> {
    rs.map_values(|r: Robot| r.1)
}

/// The x velocities of the robots.
pub open spec fn vxs_of(rs: Seq<Robot>) -> Seq<int> {
    rs.map_values(|r: Robot| r.2)
}

/// The y velocities of the robots.
pub open spec fn vys_of(rs: Seq<Robot>) -> Seq<int> {
    rs.map_values(|r: Robot| r.3)
}

/// The second at which the robots draw the picture: the first second `t`
/// with `t` congruent to the x gathering time modulo `W` and to the y
/// gathering time modulo `H`, found as `51 * (i * H + j * W) mod (W * H)`.
pub open spec fn easter_egg(rs: Seq<Robot>) -> int {
    let i = first_clustered(xs_of(rs), vxs_of(rs), W as int);
    let j = first_clustered(ys_of(rs), vys_of(rs), H as int);
    (51 * (i * H + j * W)) % (W * H)
}

/// Part 2 needs exactly 500 robots, no positive velocity beyond the room
/// size, a gathering time along each axis, and a result that fits the
/// 64-bit arithmetic.
pub open spec fn part2_ready(rs: Seq<Robot>) -> bool {
    &&& rs.len() == 500
    &&& forall|k: int| 0 <= k < rs.len() ==> (#[trigger] rs[k]).2 <= W && rs[k].3 <= H
    &&& exists|k: int| is_first_clustered(xs_of(rs), vxs_of(rs), W as int, k)
    &&& exists|k: int| is_first_clustered(ys_of(rs), vys_of(rs), H as int, k)
    &&& 51 * (first_clustered(xs_of(rs), vxs_of(rs), W as int) * H + first_clustered(
        ys_of(rs),
        vys_of(rs),
        H as int,
    ) * W) <= i64::MAX
}

/// The bytes of `x` as integers.
pub open spec fn ints(x: Seq<u8>) -> Seq<int> {
    x.map_values(|b: u8| b as int)
}

/// Replacing each velocity by its residue does not change the spread.
proof fn lemma_spread_residue(ps: Seq<int>, vs: Seq<int>, rs: Seq<int>, m: int, k: int)
    requires
        m > 0,
        k >= 0,
        ps.len() == vs.len() == rs.len(),
        forall|r: int| 0 <= r < vs.len() ==> #[trigger] vs[r] >= -m && rs[r] == residue(vs[r], m),
    ensures
        spread(ps, vs, m, k) == spread(ps, rs, m, k),
    decreases ps.len(),
{
    if ps.len() > 0 {
        let n = ps.len() - 1;
        lemma_spread_residue(ps.drop_last(), vs.drop_last(), rs.drop_last(), m, k);
        assert(vs[n] >= -m);
        lemma_wrap_residue(ps[n], vs[n], m, k);
        assert(wrap(ps[n], rs[n], m, k) == wrap(ps[n], vs[n], m, k));
    }
}

/// Stepping a wrapped coordinate by a velocity in `[0, m]` with one
/// conditional subtraction gives the coordinate one second later.
proof fn lemma_wrap_step(p: int, v: int, m: int, k: int)
    requires
        m > 0,
        0 <= v <= m,
        k >= 1,
    ensures
        ({
            let q = wrap(p, v, m, k - 1) + v;
            (if q >= m { q - m } else { q }) == wrap(p, v, m, k)
        }),
        0 <= wrap(p, v, m, k - 1) < m,
{
    let a = p + (k - 1) * v;
    let q = a % m;
    assert(0 <= q < m);
    assert(p + k * v == a + v) by (nonlinear_arith)
        requires a == p + (k - 1) * v;
    assert(a == m * (a / m) + q) by (nonlinear_arith)
        requires q == a % m, m > 0;
    vstd::arithmetic::div_mod::lemma_mod_multiples_vanish(a / m, q + v, m);
    assert(a + v == m * (a / m) + (q + v));
    if q + v >= m {
        vstd::arithmetic::div_mod::lemma_fundamental_div_mod_converse(q + v, m, 1, q + v - m);
    } else {
        vstd::arithmetic::div_mod::lemma_fundamental_div_mod_converse(q + v, m, 0, q + v);
    }
}

/// The first second at which the 500 robots gather along an axis of size `m`,
/// by simulating one second after another.
fn first_clustered_exec(p0: &Vec<u8>, v: &Vec<u8>, m: u8) -> (k: u64)
    requires
        p0@.len() == 500,
        v@.len() == 500,
        2 <= m <= 127,
        forall|r: int| 0 <= r < 500 ==> (#[trigger] p0@[r]) < m && v@[r] <= m,
        exists|k: int| is_first_clustered(ints(p0@), ints(v@), m as int, k),
        first_clustered(ints(p0@), ints(v@), m as int) <= u64::MAX,
    ensures
        k == first_clustered(ints(p0@), ints(v@), m as int),
{
    let ghost ps = ints(p0@);
    let ghost vs = ints(v@);
    let ghost w = first_clustered(ps, vs, m as int);
    let mut p: Vec<u8> = Vec::new();
    let mut r: usize = 0;
    while r < 500
        invariant
            r <= 500,
            p0@.len() == 500,
            p@ == p0@.take(r as int),
        decreases 500 - r,
    {
        p.push(p0[r]);
        r = r + 1;
        assert(p@ =~= p0@.take(r as int));
    }
    assert(p@ =~= p0@.take(500));
    assert(p0@.take(500) =~= p0@);
    let half: u64 = (m / 2) as u64;
    let target: u64 = 500 * (m as u64) / 4;
    let mut k: u64 = 0;
    assert forall|r: int| 0 <= r < 500 implies #[trigger] p@[r] == wrap(ps[r], vs[r], m as int, 0) by {
        vstd::arithmetic::div_mod::lemma_small_mod(p0@[r] as nat, m as nat);
    }
    loop
        invariant_except_break
            0 <= k < w,
            forall|j: int| 1 <= j <= k ==> !clustered(ps, vs, m as int, j),
        invariant
            ps == ints(p0@),
            vs == ints(v@),
            w == first_clustered(ps, vs, m as int),
            is_first_clustered(ps, vs, m as int, w),
            w <= u64::MAX,
            2 <= m <= 127,
            half == m / 2,
            target == 500 * (m as int) / 4,
            p@.len() == 500,
            v@.len() == 500,
            p0@.len() == 500,
            forall|r: int| 0 <= r < 500 ==> (#[trigger] p0@[r]) < m && v@[r] <= m,
            forall|r: int| 0 <= r < 500 ==> #[trigger] p@[r] == wrap(ps[r], vs[r], m as int, k as int),
        ensures
            k == w,
        decreases w - k,
    {
        k = k + 1;
        let mut sum: u64 = 0;
        let mut r: usize = 0;
        while r < 500
            invariant
                r <= 500,
                1 <= k,
                2 <= m <= 127,
                half == m / 2,
                ps == ints(p0@),
                vs == ints(v@),
                p@.len() == 500,
                v@.len() == 500,
                p0@.len() == 500,
                forall|r: int| 0 <= r < 500 ==> (#[trigger] p0@[r]) < m && v@[r] <= m,
                forall|j: int| 0 <= j < r ==> #[trigger] p@[j] == wrap(ps[j], vs[j], m as int, k as int),
                forall|j: int| r <= j < 500 ==> #[trigger] p@[j] == wrap(ps[j], vs[j], m as int, k - 1),
                sum == spread(ps.take(r as int), vs.take(r as int), m as int, k as int),
                sum <= r * 127,
            decreases 500 - r,
        {
            proof {
                lemma_wrap_step(ps[r as int], vs[r as int], m as int, k as int);
                assert(ps.take(r + 1).drop_last() =~= ps.take(r as int));
                assert(vs.take(r + 1).drop_last() =~= vs.take(r as int));
            }
            let q = p[r] + v[r];
            let np = if q >= m { q - m } else { q };
            p.set(r, np);
            let d = if (np as u64) >= half { np as u64 - half } else { half - np as u64 };
            sum = sum + d;
            r = r + 1;
        }
        proof {
            assert(ps.take(500) =~= ps);
            assert(vs.take(500) =~= vs);
        }
        let diff = if sum >= target { sum - target } else { target - sum };
        if diff >= 1500 {
            proof {
                assert(is_first_clustered(ps, vs, m as int, k as int));
                lemma_first_clustered_unique(ps, vs, m as int, k as int, w);
            }
            break;
        }
        assert(k != w);
    }
    k
}


/// Part 2: the number of seconds after which the robots draw a picture.
pub fn part2(input: &str) -> (r: u64)
    requires
        wf_input(input.spec_bytes(), 0),
        part2_ready(robots(input.spec_bytes(), 0)),
    ensures
        r == easter_egg(robots(input.spec_bytes(), 0)),
{
    let s = input.as_bytes();
    let ghost all = robots(s@, 0);
    let mut xs: Vec<u8> = Vec::new();
    let mut ys: Vec<u8> = Vec::new();
    let mut vxs: Vec<u8> = Vec::new();
    let mut vys: Vec<u8> = Vec::new();
    let mut i: usize = 0;
    let ghost mut done: Seq<Robot> = seq![];
    assert(all =~= done + robots(s@, 0));
    while i < s.len()
        invariant
            i <= s@.len(),
            wf_input(s@, i as int),
            all == robots(s@, 0),
            all == done + robots(s@, i as int),
            part2_ready(all),
            xs@.len() == done.len() && ys@.len() == done.len(),
            vxs@.len() == done.len() && vys@.len() == done.len(),
            forall|k: int| 0 <= k < done.len() ==> (#[trigger] xs@[k]) == done[k].0 && xs@[k] < W,
            forall|k: int| 0 <= k < done.len() ==> (#[trigger] ys@[k]) == done[k].1 && ys@[k] < H,
            forall|k: int|
                0 <= k < done.len() ==> (#[trigger] vxs@[k]) == residue(done[k].2, W as int) && vxs@[k]
                    <= W && done[k].2 >= -W,
            forall|k: int|
                0 <= k < done.len() ==> (#[trigger] vys@[k]) == residue(done[k].3, H as int) && vys@[k]
                    <= H && done[k].3 >= -H,
        decreases s@.len() - i,
    {
        proof {
            lemma_field_ends(s@, i as int);
        }
        let ghost rb = robot_at(s@, i as int);
        let (px, py, vx, vy, e) = parse_robot(s, i);
        proof {
            let tail = if e < s@.len() { robots(s@, e + 1) } else { seq![] };
            assert(robots(s@, i as int) =~= seq![rb] + tail);
            assert(all =~= done.push(rb) + robots(s@, e + 1));
            assert(all[done.len() as int] == rb);
            assert(rb.2 <= W && rb.3 <= H);
        }
        xs.push(px as u8);
        ys.push(py as u8);
        vxs.push(vx as u8);
        vys.push(vy as u8);
        proof {
            done = done.push(rb);
        }
        i = e + 1;
    }
    proof {
        assert(done =~= all);
        assert forall|r: int| 0 <= r < 500 implies #[trigger] vxs_of(all)[r] >= -W && ints(vxs@)[r]
            == residue(vxs_of(all)[r], W as int) by {
            assert(vxs@[r] == residue(done[r].2, W as int));
        }
        assert forall|r: int| 0 <= r < 500 implies #[trigger] vys_of(all)[r] >= -H && ints(vys@)[r]
            == residue(vys_of(all)[r], H as int) by {
            assert(vys@[r] == residue(done[r].3, H as int));
        }
        assert(ints(xs@) =~= xs_of(all));
        assert(ints(ys@) =~= ys_of(all));
        assert(vxs_of(all).len() == 500 && vys_of(all).len() == 500);
        assert forall|k: int| 1 <= k implies spread(xs_of(all), vxs_of(all), W as int, k) == spread(
            ints(xs@),
            ints(vxs@),
            W as int,
            k,
        ) by {
            lemma_spread_residue(xs_of(all), vxs_of(all), ints(vxs@), W as int, k);
        }
        assert forall|k: int| 1 <= k implies spread(ys_of(all), vys_of(all), H as int, k) == spread(
            ints(ys@),
            ints(vys@),
            H as int,
            k,
        ) by {
            lemma_spread_residue(ys_of(all), vys_of(all), ints(vys@), H as int, k);
        }
        let fx = first_clustered(xs_of(all), vxs_of(all), W as int);
        let fy = first_clustered(ys_of(all), vys_of(all), H as int);
        assert(is_first_clustered(xs_of(all), vxs_of(all), W as int, fx));
        assert(is_first_clustered(ys_of(all), vys_of(all), H as int, fy));
        assert forall|j: int| 1 <= j < fx implies !clustered(ints(xs@), ints(vxs@), W as int, j) by {
            assert(!clustered(xs_of(all), vxs_of(all), W as int, j));
        }
        assert forall|j: int| 1 <= j < fy implies !clustered(ints(ys@), ints(vys@), H as int, j) by {
            assert(!clustered(ys_of(all), vys_of(all), H as int, j));
        }
        assert(clustered(ints(xs@), ints(vxs@), W as int, fx));
        assert(clustered(ints(ys@), ints(vys@), H as int, fy));
        assert(is_first_clustered(ints(xs@), ints(vxs@), W as int, fx));
        assert(is_first_clustered(ints(ys@), ints(vys@), H as int, fy));
        lemma_first_clustered_unique(ints(xs@), ints(vxs@), W as int, fx, first_clustered(ints(xs@), ints(vxs@), W as int));
        lemma_first_clustered_unique(ints(ys@), ints(vys@), H as int, fy, first_clustered(ints(ys@), ints(vys@), H as int));
        assert(fx * H + fy * W <= i64::MAX);
    }
    let i = first_clustered_exec(&xs, &vxs, 101);
    let j = first_clustered_exec(&ys, &vys, 103);
    ((51 * (i as i64 * H + j as i64 * W)) % (W * H)) as u64
}

/// The picture second combines the two gathering times: it agrees with the
/// x gathering time modulo `W` and with the y gathering time modulo `H`.
pub proof fn easter_egg_axes(i: int, j: int)
    ensures
        ((51 * (i * H + j * W)) % (W * H)) % (W as int) == i % (W as int),
        ((51 * (i * H + j * W)) % (W * H)) % (H as int) == j % (H as int),
{
    let x = 51 * (i * H + j * W);
    assert(W * H == 10403);
    assert(x == 101 * (51 * j + 52 * i) + i) by (nonlinear_arith)
        requires x == 51 * (i * 103 + j * 101);
    assert(x == 103 * (51 * i + 50 * j) + j) by (nonlinear_arith)
        requires x == 51 * (i * 103 + j * 101);
    vstd::arithmetic::div_mod::lemma_mod_mod(x, 101, 103);
    vstd::arithmetic::div_mod::lemma_mod_mod(x, 103, 101);
    assert(101 * 103 == 103 * 101);
    vstd::arithmetic::div_mod::lemma_mod_multiples_vanish(51 * j + 52 * i, i, 101);
    vstd::arithmetic::div_mod::lemma_mod_multiples_vanish(51 * i + 50 * j, j, 103);
}

/// The answer of part 2, as a signed number.
pub fn run(input: &str) -> (r: i64)
    requires
        wf_input(input.spec_bytes(), 0),
        part2_ready(robots(input.spec_bytes(), 0)),
    ensures
        r == easter_egg(robots(input.spec_bytes(), 0)) as i64,
{
    part2(input) as i64
}

} // verus!
