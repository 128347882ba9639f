//! Reading eight ASCII digits at once from a little-endian 64-bit word.
use vstd::prelude::*;

verus! {

/// Byte `i` of `n`, counting from the least significant.
pub open spec fn byte(n: u64, i: u64) -> u64 {
    (n >> (8 * i)) & 0xff
}

/// Every byte of `n` is an ASCII digit.
pub open spec fn digit_bytes(n: u64) -> bool {
    &&& 48 <= byte(n, 0) <= 57
    &&& 48 <= byte(n, 1) <= 57
    &&& 48 <= byte(n, 2) <= 57
    &&& 48 <= byte(n, 3) <= 57
    &&& 48 <= byte(n, 4) <= 57
    &&& 48 <= byte(n, 5) <= 57
    &&& 48 <= byte(n, 6) <= 57
    &&& 48 <= byte(n, 7) <= 57
}

/// The value of the eight digits of `n` read as a decimal numeral, the
/// least significant byte first (the order in memory).
pub open spec fn word_value(n: u64) -> int {
    (byte(n, 0) - 48) * 10000000 + (byte(n, 1) - 48) * 1000000 + (byte(n, 2) - 48) * 100000 + (
    byte(n, 3) - 48) * 10000 + (byte(n, 4) - 48) * 1000 + (byte(n, 5) - 48) * 100 + (byte(n, 6)
        - 48) * 10 + (byte(n, 7) - 48)
}

/// After subtracting `'0'` from each byte and adding ten times each digit to
/// the next, bytes 0 and 4 hold the first and third pairs of digits, and
/// bytes 2 and 6 the second and fourth.
proof fn lemma_pairs(n: u64)
    requires
        digit_bytes(n),
    ensures
        ({
            let m0 = (n - 0x3030303030303030u64) as u64;
            let m1 = (((m0 * 10u64) as u64) + (m0 >> 8)) as u64;
            &&& m1 & 0xFF000000FFu64 == ((byte(n, 0) - 48) * 10 + (byte(n, 1) - 48)) + ((byte(n, 4)
                - 48) * 10 + (byte(n, 5) - 48)) * 0x100000000
            &&& (m1 >> 16) & 0xFF000000FFu64 == ((byte(n, 2) - 48) * 10 + (byte(n, 3) - 48)) + ((
            byte(n, 6) - 48) * 10 + (byte(n, 7) - 48)) * 0x100000000
        }),
{
    assert({
        let m0 = (n - 0x3030303030303030u64) as u64;
        let m1 = (((m0 * 10u64) as u64) + (m0 >> 8)) as u64;
        &&& m1 & 0xFF000000FFu64 == ((byte(n, 0) - 48) * 10 + (byte(n, 1) - 48)) + ((byte(n, 4) - 48) * 10 + (byte(n, 5) - 48)) * 0x100000000
        &&& (m1 >> 16) & 0xFF000000FFu64 == ((byte(n, 2) - 48) * 10 + (byte(n, 3)
            - 48)) + ((byte(n, 6) - 48) * 10 + (byte(n, 7) - 48)) * 0x100000000
    }) by (bit_vector)
        requires
            48 <= byte(n, 0) <= 57,
            48 <= byte(n, 1) <= 57,
            48 <= byte(n, 2) <= 57,
            48 <= byte(n, 3) <= 57,
            48 <= byte(n, 4) <= 57,
            48 <= byte(n, 5) <= 57,
            48 <= byte(n, 6) <= 57,
            48 <= byte(n, 7) <= 57,
    ;
}

/// Combining two words that each hold two 2-digit pairs (at bits 0 and 32)
/// by the multipliers `100 + 10^6 * 2^32` and `1 + 10^4 * 2^32`.
proof fn lemma_combine(a: u64, b: u64, c: u64, d: u64)
    requires
        a < 100,
        b < 100,
        c < 100,
        d < 100,
    ensures
        ((a + (b << 32)) as u64).wrapping_mul(0xF424000000064u64).wrapping_add(((c + (d << 32)) as u64).wrapping_mul(0x271000000001u64))
            >> 32 == a * 1000000 + c * 10000 + b * 100 + d,
{
    assert(((a + (b << 32)) as u64).wrapping_mul(0xF424000000064u64).wrapping_add(((c + (d << 32)) as u64).wrapping_mul(0x271000000001u64))
        >> 32 == a * 1000000 + c * 10000 + b * 100 + d) by (bit_vector)
        requires
            a < 100,
            b < 100,
            c < 100,
            d < 100,
    ;
}

/// The value of eight ASCII digits held in a word, the first digit in the
/// least significant byte.
pub fn parse8(n: u64) -> (r: u32)
    requires
        digit_bytes(n),
    ensures
        r == word_value(n),
{
    proof {
        lemma_pairs(n);
    }
    let mask: u64 = 0xFF000000FF;
    let mul1: u64 = 0xF424000000064;
    let mul2: u64 = 0x271000000001;
    assert(n >= 0x3030303030303030u64 && (n - 0x3030303030303030u64) as u64 <= 0x0909090909090909u64)
        by (bit_vector)
        requires
            48 <= byte(n, 0) <= 57,
            48 <= byte(n, 1) <= 57,
            48 <= byte(n, 2) <= 57,
            48 <= byte(n, 3) <= 57,
            48 <= byte(n, 4) <= 57,
            48 <= byte(n, 5) <= 57,
            48 <= byte(n, 6) <= 57,
            48 <= byte(n, 7) <= 57,
    ;
    let m0 = n - 0x3030303030303030u64;
    assert(m0 * 10 + (m0 >> 8) <= 0xFFFFFFFFFFFFFFFFu64) by (bit_vector)
        requires m0 <= 0x0909090909090909u64;
    let m1 = m0 * 10 + (m0 >> 8);
    let ghost a = ((byte(n, 0) - 48) * 10 + (byte(n, 1) - 48)) as u64;
    let ghost b = ((byte(n, 4) - 48) * 10 + (byte(n, 5) - 48)) as u64;
    let ghost c = ((byte(n, 2) - 48) * 10 + (byte(n, 3) - 48)) as u64;
    let ghost d = ((byte(n, 6) - 48) * 10 + (byte(n, 7) - 48)) as u64;
    proof {
        assert(m1 & mask == a + (b << 32)) by {
            assert(b << 32 == b * 0x100000000) by (bit_vector) requires b < 100;
        }
        assert((m1 >> 16) & mask == c + (d << 32)) by {
            assert(d << 32 == d * 0x100000000) by (bit_vector) requires d < 100;
        }
        lemma_combine(a, b, c, d);
    }
    let r = (m1 & mask).wrapping_mul(mul1).wrapping_add(((m1 >> 16) & mask).wrapping_mul(mul2)) >> 32;
    r as u32
}


/// The eight bytes of `s` as a little-endian word: `s[0]` is the least
/// significant byte.
pub fn read_u64(s: &[u8]) -> (r: u64)
    requires
        s@.len() == 8,
    ensures
        byte(r, 0) == s@[0],
        byte(r, 1) == s@[1],
        byte(r, 2) == s@[2],
        byte(r, 3) == s@[3],
        byte(r, 4) == s@[4],
        byte(r, 5) == s@[5],
        byte(r, 6) == s@[6],
        byte(r, 7) == s@[7],
{
    let (b0, b1, b2, b3) = (s[0] as u64, s[1] as u64, s[2] as u64, s[3] as u64);
    let (b4, b5, b6, b7) = (s[4] as u64, s[5] as u64, s[6] as u64, s[7] as u64);
    let r = b0 | (b1 << 8) | (b2 << 16) | (b3 << 24) | (b4 << 32) | (b5 << 40) | (b6 << 48) | (b7
        << 56);
    assert(byte(r, 0) == b0 && byte(r, 1) == b1 && byte(r, 2) == b2 && byte(r, 3) == b3 && byte(r, 4)
        == b4 && byte(r, 5) == b5 && byte(r, 6) == b6 && byte(r, 7) == b7) by (bit_vector)
        requires
            b0 < 256,
            b1 < 256,
            b2 < 256,
            b3 < 256,
            b4 < 256,
            b5 < 256,
            b6 < 256,
            b7 < 256,
            r == b0 | (b1 << 8) | (b2 << 16) | (b3 << 24) | (b4 << 32) | (b5 << 40) | (b6 << 48) | (b7
                << 56),
    ;
    r
}

/// The five-digit numeral held in bytes 0 to 4 of `n`.
pub fn parse5top(n: u64) -> (r: u32)
    requires
        48 <= byte(n, 0) <= 57,
        48 <= byte(n, 1) <= 57,
        48 <= byte(n, 2) <= 57,
        48 <= byte(n, 3) <= 57,
        48 <= byte(n, 4) <= 57,
    ensures
        r == (byte(n, 0) - 48) * 10000 + (byte(n, 1) - 48) * 1000 + (byte(n, 2) - 48) * 100 + (byte(
            n,
            3,
        ) - 48) * 10 + (byte(n, 4) - 48),
{
    let m = (n << 24) | 0x0000000000303030;
    assert(byte(m, 0) == 48 && byte(m, 1) == 48 && byte(m, 2) == 48 && byte(m, 3) == byte(n, 0)
        && byte(m, 4) == byte(n, 1) && byte(m, 5) == byte(n, 2) && byte(m, 6) == byte(n, 3) && byte(
        m,
        7,
    ) == byte(n, 4)) by (bit_vector)
        requires
            m == (n << 24) | 0x0000000000303030,
    ;
    parse8(m)
}

/// The five-digit numeral held in bytes 3 to 7 of `n`.
pub fn parse5bottom(n: u64) -> (r: u32)
    requires
        48 <= byte(n, 3) <= 57,
        48 <= byte(n, 4) <= 57,
        48 <= byte(n, 5) <= 57,
        48 <= byte(n, 6) <= 57,
        48 <= byte(n, 7) <= 57,
    ensures
        r == (byte(n, 3) - 48) * 10000 + (byte(n, 4) - 48) * 1000 + (byte(n, 5) - 48) * 100 + (byte(
            n,
            6,
        ) - 48) * 10 + (byte(n, 7) - 48),
{
    let m = (n & 0xFFFFFFFFFF000000) | 0x0000000000303030;
    assert(byte(m, 0) == 48 && byte(m, 1) == 48 && byte(m, 2) == 48 && byte(m, 3) == byte(n, 3)
        && byte(m, 4) == byte(n, 4) && byte(m, 5) == byte(n, 5) && byte(m, 6) == byte(n, 6) && byte(
        m,
        7,
    ) == byte(n, 7)) by (bit_vector)
        requires
            m == (n & 0xFFFFFFFFFF000000) | 0x0000000000303030,
    ;
    parse8(m)
}

} // verus!
