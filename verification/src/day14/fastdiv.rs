//! Remainders by the grid sizes through a precomputed 32-bit reciprocal.
use vstd::prelude::*;

verus! {

/// 2^32 as an integer.
pub open spec fn pow32() -> int {
    0x1_0000_0000int
}

/// `floor((2^32 - 1) / d) + 1`: the reciprocal of `d`, rounded up.
pub open spec fn magic16(d: int) -> int {
    (pow32() - 1) / d + 1
}

/// The reciprocal of `d`, which must be at least 2 and below 2^16.
pub fn compute_m_u16(d: u16) -> (m: u32)
    requires
        d > 1,
    ensures
        m == magic16(d as int),
{
    assert(0xFFFFFFFFu32 / (d as u32) <= 0x7FFFFFFF) by (nonlinear_arith)
        requires d > 1;
    (u32::MAX / d as u32) + 1
}

/// `floor(lowbits * d / 2^32)`.
pub fn mul64_u16(lowbits: u32, d: u16) -> (r: u32)
    ensures
        r == (lowbits as int * d as int) / pow32(),
{
    assert(lowbits as int * d as int <= 0xFFFFFFFF * 0xFFFF) by (nonlinear_arith)
        requires lowbits <= 0xFFFFFFFF, d <= 0xFFFF;
    let prod = lowbits as u64 * d as u64;
    assert(prod >> 32 == prod / 0x1_0000_0000) by (bit_vector);
    assert(prod / 0x1_0000_0000 < 0x1_0000_0000) by (nonlinear_arith)
        requires prod <= 0xFFFFFFFF * 0xFFFF;
    (prod >> 32) as u32
}

/// `a % d`, computed from the reciprocal `m == magic16(d)` by two multiplications.
pub fn fastmod_u16(a: u16, m: u32, d: u16) -> (r: u16)
    requires
        d > 1,
        m == magic16(d as int),
    ensures
        r == a as int % d as int,
{
    let lowbits = m.wrapping_mul(a as u32);
    proof {
        lemma_fastmod(a as int, d as int);
    }
    let r = mul64_u16(lowbits, d);
    r as u16
}

/// The low 32 bits of `a * magic16(d)`, multiplied by `d` and divided by
/// 2^32, give `a % d` for every 16-bit `a`.
proof fn lemma_fastmod(a: int, d: int)
    requires
        1 < d < 0x1_0000,
        0 <= a < 0x1_0000,
    ensures
        (((a * magic16(d)) % pow32()) * d) / pow32() == a % d,
        ((a * magic16(d)) % pow32()) == (magic16(d) * a) % pow32(),
{
    let p = pow32();
    let k = (p - 1) / d;
    let s = (p - 1) % d;
    assert(p - 1 == k * d + s && 0 <= s < d) by (nonlinear_arith)
        requires k == (p - 1) / d, s == (p - 1) % d, d > 0;
    let m = magic16(d);
    let e = d - 1 - s;
    assert(m * d == p + e) by (nonlinear_arith)
        requires m == k + 1, p - 1 == k * d + s, e == d - 1 - s;
    let q = a / d;
    let r = a % d;
    assert(a == q * d + r && 0 <= r < d && q >= 0) by (nonlinear_arith)
        requires q == a / d, r == a % d, d > 0, a >= 0;
    let x = a * m - q * p;
    assert(d * x == r * p + a * e) by (nonlinear_arith)
        requires x == a * m - q * p, m * d == p + e, a == q * d + r;
    assert(0 <= a * e < p) by (nonlinear_arith)
        requires 0 <= a < 0x1_0000, 0 <= e < d, d < 0x1_0000, p == 0x1_0000_0000;
    assert(0 <= x < p) by (nonlinear_arith)
        requires d * x == r * p + a * e, 0 <= a * e < p, 0 <= r < d, d > 0, p > 0;
    assert((a * m) % p == x) by (nonlinear_arith)
        requires a * m == q * p + x, 0 <= x < p, p > 0;
    assert((x * d) / p == r) by (nonlinear_arith)
        requires d * x == r * p + a * e, 0 <= a * e < p, p > 0, r >= 0;
    assert(a * m == m * a) by (nonlinear_arith);
}

/// `a % 101`, the width of the robots' room.
pub fn fastmod_w(a: u16) -> (r: u16)
    ensures
        r == a as int % 101,
{
    let m = compute_m_u16(101);
    fastmod_u16(a, m, 101)
}

/// `a % 103`, the height of the robots' room.
pub fn fastmod_h(a: u16) -> (r: u16)
    ensures
        r == a as int % 103,
{
    let m = compute_m_u16(103);
    fastmod_u16(a, m, 103)
}

} // verus!
