//! Division and divisibility by a constant through a precomputed 128-bit
//! reciprocal ("fastmod" of Lemire, Kaser and Kurz).
use vstd::prelude::*;

verus! {

/// 2^64 as an integer.
pub open spec fn pow64() -> int {
    0x1_0000_0000_0000_0000int
}

/// 2^128 as an integer.
pub open spec fn pow128() -> int {
    0x1_0000_0000_0000_0000_0000_0000_0000_0000int
}

/// The reciprocal stored for the divisor `d`: `floor((2^128 - 1) / d) + 1`,
/// which is `ceil(2^128 / d)`.
pub open spec fn magic(d: int) -> int {
    (pow128() - 1) / d + 1
}

proof fn lemma_split_u128(x: u128)
    ensures
        x & 0xFFFFFFFFFFFFFFFF == x as int % pow64(),
        x >> 64 == x as int / pow64(),
{
    assert(x & 0xFFFFFFFFFFFFFFFF == x % 0x1_0000_0000_0000_0000) by (bit_vector);
    assert(x >> 64 == x / 0x1_0000_0000_0000_0000) by (bit_vector);
}

proof fn lemma_div_of_sum(h: int, l: int, d: int)
    requires
        0 <= h < pow64(),
        0 <= l < pow64(),
        0 <= d < pow64(),
    ensures
        ((h * pow64() + l) * d) / pow128() == (h * d + (l * d) / pow64()) / pow64(),
        h * d + (l * d) / pow64() < pow128(),
{
    let p = pow64();
    let q = (l * d) / p;
    let r = (l * d) % p;
    assert(l * d == q * p + r) by (nonlinear_arith)
        requires q == (l * d) / p, r == (l * d) % p, p > 0;
    assert((h * p + l) * d == (h * d + q) * p + r) by (nonlinear_arith)
        requires l * d == q * p + r;
    assert(pow128() == p * p);
    assert(0 <= r < p) by (nonlinear_arith) requires r == (l * d) % p, p > 0;
    assert(((h * d + q) * p + r) / (p * p) == (h * d + q) / p) by (nonlinear_arith)
        requires 0 <= r < p, p > 0, h * d + q >= 0 {
        let a = h * d + q;
        let s = a / p;
        let t = a % p;
        assert(a == s * p + t);
        assert(a * p + r == s * (p * p) + (t * p + r));
        assert(0 <= t * p + r < p * p);
    }
    assert(h * d <= (p - 1) * (p - 1)) by (nonlinear_arith)
        requires 0 <= h < p, 0 <= d < p;
    assert(q < p) by (nonlinear_arith)
        requires q == (l * d) / p, 0 <= l < p, 0 <= d < p, p > 0;
}

/// `floor(lowbits * d / 2^128)`, computed in two 64-bit halves.
fn mul128_u64(lowbits: u128, d: u64) -> (r: u64)
    ensures
        r == (lowbits as int * d as int) / pow128(),
{
    proof {
        lemma_split_u128(lowbits);
    }
    let lo = lowbits & 0xFFFFFFFFFFFFFFFF;
    let hi = lowbits >> 64;
    proof {
        assert(lowbits as int == hi as int * pow64() + lo as int) by (nonlinear_arith)
            requires hi as int == lowbits as int / pow64(), lo as int == lowbits as int % pow64();
        assert(lo as int * d as int <= (pow64() - 1) * (pow64() - 1)) by (nonlinear_arith)
            requires lo < pow64(), d < pow64();
        assert(hi as int * d as int <= (pow64() - 1) * (pow64() - 1)) by (nonlinear_arith)
            requires hi < pow64(), d < pow64();
        lemma_div_of_sum(hi as int, lo as int, d as int);
    }
    let mut bottom_half = lo * d as u128;
    bottom_half = bottom_half >> 64;
    proof {
        lemma_split_u128((lo * d as u128) as u128);
    }
    let top_half = hi * d as u128;
    let both_halves = bottom_half + top_half;
    proof {
        lemma_split_u128(both_halves);
    }
    (both_halves >> 64) as u64
}


/// The facts about `magic(d)` that the division and divisibility tests rest
/// on: `magic(d) * d == 2^128 + e` with `0 <= e < d`, and `2^64 <= magic(d) < 2^128`.
proof fn lemma_magic(d: int) -> (e: int)
    requires
        1 < d < pow64(),
    ensures
        magic(d) * d == pow128() + e,
        0 <= e < d,
        pow64() <= magic(d) < pow128(),
{
    let p = pow128();
    let k = (p - 1) / d;
    let s = (p - 1) % d;
    assert(p - 1 == k * d + s && 0 <= s < d) by (nonlinear_arith)
        requires k == (p - 1) / d, s == (p - 1) % d, d > 0;
    let e = d - 1 - s;
    assert(magic(d) * d == p + e) by (nonlinear_arith)
        requires magic(d) == k + 1, p - 1 == k * d + s, e == d - 1 - s;
    assert(magic(d) >= pow64()) by (nonlinear_arith)
        requires magic(d) * d == p + e, e >= 0, d < pow64(), p == pow64() * pow64(), d > 0;
    assert(k <= (p - 1) / 2) by (nonlinear_arith)
        requires k == (p - 1) / d, d >= 2, p > 0;
    e
}

/// Dividing `a * magic(d)` by `2^128` gives `a / d` for every 64-bit `a`.
proof fn lemma_fastdiv(a: int, d: int)
    requires
        1 < d < pow64(),
        0 <= a < pow64(),
    ensures
        (a * magic(d)) / pow128() == a / d,
        (a * magic(d)) % pow128() < magic(d) <==> a % d == 0,
{
    let p = pow128();
    let m = magic(d);
    let e = lemma_magic(d);
    let q = a / d;
    let r = a % d;
    assert(a == q * d + r && 0 <= r < d && q >= 0) by (nonlinear_arith)
        requires q == a / d, r == a % d, d > 0, a >= 0;
    let x = a * m - q * p;
    assert(d * x == r * p + a * e) by (nonlinear_arith)
        requires x == a * m - q * p, m * d == p + e, a == q * d + r;
    assert(a * e < p) by (nonlinear_arith)
        requires 0 <= a < pow64(), 0 <= e < d, d < pow64(), p == pow64() * pow64();
    assert(0 <= x < p) by (nonlinear_arith)
        requires d * x == r * p + a * e, 0 <= a * e < p, 0 <= r < d, d > 0, p > 0;
    assert(a * m == q * p + x);
    assert((a * m) / p == q && (a * m) % p == x) by (nonlinear_arith)
        requires a * m == q * p + x, 0 <= x < p, p > 0;
    if r == 0 {
        assert(x < m) by (nonlinear_arith)
            requires d * x == a * e, a * e < p, m * d == p + e, e >= 0, d > 0;
    } else {
        assert(a >= 1);
        assert(x >= m) by (nonlinear_arith)
            requires d * x == r * p + a * e, r >= 1, a >= 1, e >= 0, m * d == p + e, d > 0, p > 0;
    }
}

/// `2^128 - 1` divided by `d`, plus one; `d` must be at least 2.
fn compute_m_u64(d: u64) -> (m: u128)
    requires
        d > 1,
    ensures
        m == magic(d as int),
{
    proof {
        lemma_magic(d as int);
    }
    (0xFFFFFFFFFFFFFFFFFFFFFFFFFFFFFFFFu128 / d as u128) + 1
}

/// `floor(a * m / 2^128)`: the quotient `a / d` when `m == magic(d)`.
fn fastdiv_u64(a: u64, m: u128) -> (r: u64)
    ensures
        r == (a as int * m as int) / pow128(),
{
    mul128_u64(m, a)
}

/// Whether the low 128 bits of `n * m` are below `m`: when `m == magic(d)`,
/// whether `d` divides `n`.
fn is_divisible_u64(n: u64, m: u128) -> (r: bool)
    requires
        m >= 1,
    ensures
        r == ((n as int * m as int) % pow128() < m as int),
{
    (n as u128).wrapping_mul(m) <= m - 1
}

/// Two divisors in `(1, 2^64)` never share a reciprocal.
proof fn lemma_magic_injective(d1: int, d2: int)
    requires
        1 < d1 < pow64(),
        1 < d2 < pow64(),
        magic(d1) == magic(d2),
    ensures
        d1 == d2,
{
    let m = magic(d1);
    let e1 = lemma_magic(d1);
    let e2 = lemma_magic(d2);
    if d1 < d2 {
        assert(false) by (nonlinear_arith)
            requires m * d1 == pow128() + e1, m * d2 == pow128() + e2, e1 >= 0, e2 < d2,
                d1 < d2, d2 < pow64(), m >= pow64();
    } else if d2 < d1 {
        assert(false) by (nonlinear_arith)
            requires m * d2 == pow128() + e2, m * d1 == pow128() + e1, e2 >= 0, e1 < d1,
                d2 < d1, d1 < pow64(), m >= pow64();
    }
}

/// A divisor `d` in `(1, 2^64)`, held as its 128-bit reciprocal `magic(d)`.
#[derive(Clone, Copy, Eq, PartialEq)]
pub struct PrecomputedDivU64(u128);

impl PrecomputedDivU64 {
    /// Whether the stored value is the reciprocal of some divisor in `(1, 2^64)`.
    pub closed spec fn wf(self) -> bool {
        exists|d: int| 1 < d < pow64() && magic(d) == self.0
    }

    /// The divisor that the stored reciprocal stands for.
    pub closed spec fn divisor(self) -> int {
        choose|d: int| 1 < d < pow64() && magic(d) == self.0
    }

    /// The precomputed reciprocal of `n`, which must be at least 2.
    pub fn new(n: u64) -> (r: Self)
        requires
            n > 1,
        ensures
            r.wf(),
            r.divisor() == n,
    {
        let r = Self(compute_m_u64(n));
        proof {
            assert(1 < n < pow64() && magic(n as int) == r.0);
            lemma_magic_injective(r.divisor(), n as int);
        }
        r
    }

    /// `n / d` without a division instruction.
    pub fn fast_div(n: u64, precomputed: Self) -> (r: u64)
        requires
            precomputed.wf(),
        ensures
            r == n as int / precomputed.divisor(),
    {
        proof {
            lemma_fastdiv(n as int, precomputed.divisor());
        }
        fastdiv_u64(n, precomputed.0)
    }

    /// Whether `d` divides `n`, without a division instruction.
    pub fn is_multiple_of(n: u64, precomputed: Self) -> (r: bool)
        requires
            precomputed.wf(),
        ensures
            r == (n as int % precomputed.divisor() == 0),
    {
        proof {
            lemma_fastdiv(n as int, precomputed.divisor());
            lemma_magic(precomputed.divisor());
        }
        is_divisible_u64(n, precomputed.0)
    }
}

} // verus!
