//! Monkey market: pseudo-random secret numbers.
use vstd::prelude::*;
use vstd::string::StringSliceAdditionalSpecFns;

use crate::digits::{
    dec_value, digits_end, lemma_dec_value_bounds, lemma_digits_end,
    lemma_numeral_small, lemma_pow10_mono, numeral_at, parse_digits, pow10,
};

verus! {

/// The next secret number: mix in the number times 64, prune to 24 bits,
/// mix in the number divided by 32, prune, mix in the number times 2048,
/// prune.
pub open spec fn next_secret(n: u64) -> u64 {
    let a = (((n * 64) as u64) ^ n) % 16777216;
    let b = ((a / 32) ^ a) % 16777216;
    (((b * 2048) as u64) ^ b) % 16777216
}

/// The secret number after `k` steps from `n`.
pub open spec fn secret_after(n: u64, k: nat) -> u64
    decreases k,
{
    if k == 0 {
        n
    } else {
        next_secret(secret_after(n, (k - 1) as nat))
    }
}

/// The initial secret numbers from index `i` on, one per line.
pub open spec fn buyers(s: Seq<u8>, i: int) -> Seq<u64>
    decreases s.len() + 1 - i,
{
    if 0 <= i < s.len() {
        let e = digits_end(s, i);
        proof {
            lemma_digits_end(s, i);
        }
        seq![dec_value(numeral_at(s, i)) as u64] + buyers(s, e + 1)
    } else {
        seq![]
    }
}

/// The input from `i` on is lines of one to eight digits, each ended by a newline.
pub open spec fn wf_lines(s: Seq<u8>, i: int) -> bool
    decreases s.len() + 1 - i,
{
    if 0 <= i < s.len() {
        let e = digits_end(s, i);
        proof {
            lemma_digits_end(s, i);
        }
        &&& 1 <= e - i <= 8
        &&& e < s.len()
        &&& s[e] == 10
        &&& wf_lines(s, e + 1)
    } else {
        i == s.len()
    }
}

/// The input lists the 1601 buyers' initial secret numbers.
pub open spec fn wf_input(s: Seq<u8>) -> bool {
    wf_lines(s, 0) && buyers(s, 0).len() == 1601
}

/// The sum of the 2000th secret number of the first `k` buyers.
pub open spec fn secret_sum(bs: Seq<u64>, k: int) -> int
    decreases k,
{
    if k <= 0 {
        0
    } else {
        secret_sum(bs, k - 1) + secret_after(bs[k - 1], 2000)
    }
}

/// One step of the generator on 32-bit words: shifts and masks in place of
/// multiplications, divisions and remainders.
fn next(n: u32) -> (r: u32)
    ensures
        r as u64 == next_secret(n as u64),
{
    let m: u32 = 16777216 - 1;
    let a = (n ^ (n << 6)) & m;
    let b = (a ^ (a >> 5)) & m;
    let c = (b ^ (b << 11)) & m;
    assert(a as u64 == (((n as u64 * 64) as u64) ^ n as u64) % 16777216) by (bit_vector)
        requires
            a == (n ^ (n << 6)) & 0xFFFFFF,
    ;
    assert(b as u64 == ((a as u64 / 32) ^ a as u64) % 16777216) by (bit_vector)
        requires
            b == (a ^ (a >> 5)) & 0xFFFFFF,
    ;
    assert(c as u64 == (((b as u64 * 2048) as u64) ^ b as u64) % 16777216) by (bit_vector)
        requires
            c == (b ^ (b << 11)) & 0xFFFFFF,
            b < 0x1000000,
    ;
    assert(b < 0x1000000) by (bit_vector)
        requires
            b == (a ^ (a >> 5)) & 0xFFFFFF,
    ;
    c
}

/// The 2000th secret number after `n`.
fn evolve(n: u32) -> (r: u32)
    ensures
        r as u64 == secret_after(n as u64, 2000),
{
    let mut x = n;
    let mut k: u32 = 0;
    while k < 2000
        invariant
            k <= 2000,
            x as u64 == secret_after(n as u64, k as nat),
        decreases 2000 - k,
    {
        x = next(x);
        k = k + 1;
    }
    x
}

proof fn lemma_secret_after_bound(n: u64, k: nat)
    ensures
        k > 0 ==> secret_after(n, k) < 16777216,
{
    if k > 0 {
        assert(next_secret(secret_after(n, (k - 1) as nat)) < 16777216);
    }
}

/// Part 1: the sum of each buyer's 2000th secret number.
pub fn part1(input: &str) -> (r: u64)
    requires
        wf_input(input.spec_bytes()),
    ensures
        r == secret_sum(buyers(input.spec_bytes(), 0), 1601),
{
    let s = input.as_bytes();
    let ghost all = buyers(s@, 0);
    let ghost mut c: int = 0;
    let mut i: usize = 0;
    let mut tot: u64 = 0;
    while i < s.len()
        invariant
            i <= s@.len(),
            wf_lines(s@, i as int),
            all == buyers(s@, 0),
            all.len() == 1601,
            0 <= c <= all.len(),
            buyers(s@, i as int) == all.skip(c),
            tot == secret_sum(all, c),
            tot <= c * 16777216,
        decreases s@.len() - i,
    {
        proof {
            lemma_digits_end(s@, i as int);
            lemma_numeral_small(numeral_at(s@, i as int));
            lemma_dec_value_bounds(numeral_at(s@, i as int));
            lemma_pow10_mono(numeral_at(s@, i as int).len(), 8);
            assert(pow10(8) == 100000000) by {
                reveal_with_fuel(pow10, 9);
            }
        }
        let (v, e) = parse_digits(s, i);
        let ghost tail = buyers(s@, e + 1);
        proof {
            assert(buyers(s@, i as int) =~= seq![v] + tail);
            assert(all.skip(c).len() >= 1);
            assert(all.skip(c)[0] == all[c]);
            assert(all.skip(c + 1) =~= all.skip(c).skip(1));
            assert((seq![v] + tail).skip(1) =~= tail);
            lemma_secret_after_bound(v, 2000);
        }
        let x = evolve(v as u32);
        tot = tot + x as u64;
        proof {
            c = c + 1;
        }
        i = e + 1;
    }
    proof {
        assert(all.skip(c).len() == 0);
    }
    tot
}

/// Part 2: the best selling sequence is not searched; the answer is always 0.
pub fn part2(_input: &str) -> (r: u64)
    ensures
        r == 0,
{
    0
}

/// The answer of part 1, as a signed number.
pub fn run(input: &str) -> (r: i64)
    requires
        wf_input(input.spec_bytes()),
    ensures
        r == secret_sum(buyers(input.spec_bytes(), 0), 1601) as i64,
{
    part1(input) as i64
}

} // verus!
