//! Plutonian pebbles: counting stones that split and change at each blink.
use vstd::prelude::*;
use vstd::string::StringSliceAdditionalSpecFns;

use crate::digits::{dec_value, digits_end, lemma_digits_end, numeral_at, parse_digits, pow10};
use crate::wrap::{lemma_wrapping_add, modulus};

verus! {

/// The number of decimal digits of `n`.
pub open spec fn num_digits(n: nat) -> nat
    decreases n,
{
    if n < 10 {
        1
    } else {
        1 + num_digits(n / 10)
    }
}

/// `10^(d/2)` for a stone with `d` digits: splitting at it gives the two halves.
pub open spec fn half_pow(n: nat) -> nat {
    pow10(num_digits(n) / 2) as nat
}

/// The left half of the digits of `n`.
pub open spec fn left_half(n: nat) -> nat {
    n / half_pow(n)
}

/// The right half of the digits of `n`.
pub open spec fn right_half(n: nat) -> nat {
    n % half_pow(n)
}

/// The number of stones that one stone engraved `n` becomes after `k`
/// blinks: 0 becomes 1; a number with an even number of digits splits into
/// its left and right halves; any other number is multiplied by 2024.
pub open spec fn stones(n: nat, k: nat) -> nat
    decreases k,
{
    if k == 0 {
        1
    } else if n == 0 {
        stones(1, (k - 1) as nat)
    } else if num_digits(n) % 2 == 0 {
        stones(left_half(n), (k - 1) as nat) + stones(right_half(n), (k - 1) as nat)
    } else {
        stones(n * 2024, (k - 1) as nat)
    }
}

/// Every number engraved during `k` blinks from `n` fits in 64 bits.
pub open spec fn fits(n: nat, k: nat) -> bool
    decreases k,
{
    if k == 0 {
        true
    } else if n == 0 {
        fits(1, (k - 1) as nat)
    } else if num_digits(n) % 2 == 0 {
        fits(left_half(n), (k - 1) as nat) && fits(right_half(n), (k - 1) as nat)
    } else {
        n * 2024 <= u64::MAX && fits(n * 2024, (k - 1) as nat)
    }
}

proof fn lemma_fits_mono(n: nat, k: nat, k2: nat)
    requires
        fits(n, k),
        k2 <= k,
    ensures
        fits(n, k2),
    decreases k2,
{
    if k2 > 0 {
        if n == 0 {
            lemma_fits_mono(1, (k - 1) as nat, (k2 - 1) as nat);
        } else if num_digits(n) % 2 == 0 {
            assert(k > 0 && n != 0);
            lemma_fits_mono(left_half(n), (k - 1) as nat, (k2 - 1) as nat);
            lemma_fits_mono(right_half(n), (k - 1) as nat, (k2 - 1) as nat);
        } else {
            lemma_fits_mono(n * 2024, (k - 1) as nat, (k2 - 1) as nat);
        }
    }
}

/// The engraved numbers of the input from `i` on, each followed by one separator.
pub open spec fn engraved(s: Seq<u8>, i: int) -> Seq<nat>
    decreases s.len() + 1 - i,
{
    if 0 <= i < s.len() {
        let e = digits_end(s, i);
        proof {
            lemma_digits_end(s, i);
        }
        seq![dec_value(numeral_at(s, i)) as nat] + engraved(s, e + 1)
    } else {
        seq![]
    }
}

/// The input from `i` on is numerals, each of at least one digit and
/// followed by one byte that is not a digit, ending at the end of the input.
pub open spec fn wf_numbers(s: Seq<u8>, i: int) -> bool
    decreases s.len() + 1 - i,
{
    if 0 <= i < s.len() {
        let e = digits_end(s, i);
        proof {
            lemma_digits_end(s, i);
        }
        &&& e > i
        &&& e < s.len()
        &&& dec_value(numeral_at(s, i)) <= u64::MAX
        &&& wf_numbers(s, e + 1)
    } else {
        i == s.len()
    }
}

/// The total number of stones after `k` blinks from the first `c` stones.
pub open spec fn total_stones(ns: Seq<nat>, k: nat, c: int) -> nat
    decreases c,
{
    if c <= 0 {
        0
    } else {
        total_stones(ns, k, c - 1) + stones(ns[c - 1], k)
    }
}

/// The input can be counted over `k` blinks in 64-bit arithmetic: every
/// number engraved from a stone below 1000 or from an input stone fits.
pub open spec fn ready(s: Seq<u8>, k: nat) -> bool {
    &&& wf_numbers(s, 0)
    &&& forall|j: nat| j < 1000 ==> fits(j, k)
    &&& forall|c: int| 0 <= c < engraved(s, 0).len() ==> fits(#[trigger] engraved(s, 0)[c], k)
}

/// A number below `10^k` has at most `k` digits.
proof fn lemma_num_digits_bound(n: nat, k: nat)
    requires
        n < pow10(k),
        k >= 1,
    ensures
        num_digits(n) <= k,
    decreases k,
{
    if n >= 10 {
        assert(n / 10 < pow10((k - 1) as nat)) by {
            assert(pow10(k) == 10 * pow10((k - 1) as nat));
        }
        if k == 1 {
            assert(pow10(1) == 10) by {
                reveal_with_fuel(pow10, 2);
            }
        } else {
            lemma_num_digits_bound(n / 10, (k - 1) as nat);
        }
    }
}

/// The number of digits of `n`.
fn digits_of(n: u64) -> (r: u32)
    ensures
        r == num_digits(n as nat),
        1 <= r <= 20,
{
    proof {
        assert(pow10(20) == 100000000000000000000) by {
            reveal_with_fuel(pow10, 21);
        }
        lemma_num_digits_bound(n as nat, 20);
    }
    let mut m = n;
    let mut d: u32 = 1;
    while m >= 10
        invariant
            1 <= d,
            d + num_digits(m as nat) - 1 == num_digits(n as nat),
            num_digits(n as nat) <= 20,
        decreases m,
    {
        m = m / 10;
        d = d + 1;
    }
    d
}


/// `10^k` for `k <= 10`.
fn pow10_exec(k: u32) -> (r: u64)
    requires
        k <= 10,
    ensures
        r == pow10(k as nat),
        r >= 1,
{
    let mut r: u64 = 1;
    let mut i: u32 = 0;
    while i < k
        invariant
            i <= k <= 10,
            r == pow10(i as nat),
            1 <= r <= 10000000000,
        decreases k - i,
    {
        proof {
            assert(pow10((i + 1) as nat) == 10 * pow10(i as nat));
            crate::digits::lemma_pow10_mono((i + 1) as nat, 10);
            assert(pow10(10) == 10000000000) by {
                reveal_with_fuel(pow10, 11);
            }
        }
        r = r * 10;
        i = i + 1;
    }
    r
}

/// Adding two counts modulo 2^64.
/// The counts of the first `filled` blinks for every stone below 1000 are
/// held row by row in `lut`, modulo 2^64.
pub open spec fn table_holds(lut: Seq<u64>, filled: int) -> bool {
    &&& lut.len() >= filled * 1000
    &&& forall|i: int, j: int|
        0 <= i < filled && 0 <= j < 1000 ==> #[trigger] lut[i * 1000 + j] == stones(j as nat, i as nat)
            % modulus()
}

/// The number of stones after `i` blinks from stone `j`, modulo 2^64,
/// looking up stones below 1000 in the table.
pub fn solve_rec(i: usize, j: u64, lut: &Vec<u64>, filled: usize) -> (r: u64)
    requires
        table_holds(lut@, filled as int),
        i <= filled,
        j < 1000 ==> i < filled,
        fits(j as nat, i as nat),
    ensures
        r == stones(j as nat, i as nat) % modulus(),
    decreases i,
{
    if i == 0 {
        proof {
            vstd::arithmetic::div_mod::lemma_small_mod(1, modulus());
        }
        return 1;
    }
    if j < 1000 {
        let n = lut.len();
        assert(i * 1000 + j < n) by (nonlinear_arith)
            requires i < filled, j < 1000, n >= filled * 1000;
        return lut[i * 1000 + j as usize];
    }
    let d = digits_of(j);
    if d % 2 == 0 {
        let p = pow10_exec(d / 2);
        assert(p == half_pow(j as nat));
        let a = solve_rec(i - 1, j / p, lut, filled);
        let b = solve_rec(i - 1, j % p, lut, filled);
        proof {
            lemma_wrapping_add(
                a,
                b,
                stones(left_half(j as nat), (i - 1) as nat),
                stones(right_half(j as nat), (i - 1) as nat),
            );
        }
        a.wrapping_add(b)
    } else {
        solve_rec(i - 1, j * 2024, lut, filled)
    }
}

/// The table of counts for the stones below 1000 over `iters` blinks.
pub fn build_table(iters: usize) -> (lut: Vec<u64>)
    requires
        iters < 100,
        forall|j: nat| j < 1000 ==> fits(j, iters as nat),
    ensures
        table_holds(lut@, iters + 1),
{
    let mut lut: Vec<u64> = Vec::new();
    let mut j: u64 = 0;
    while j < 1000
        invariant
            j <= 1000,
            lut@.len() == j,
            forall|k: int| 0 <= k < j ==> #[trigger] lut@[k] == 1,
        decreases 1000 - j,
    {
        lut.push(1);
        j = j + 1;
    }
    proof {
        assert forall|i: int, j: int| 0 <= i < 1 && 0 <= j < 1000 implies #[trigger] lut@[i * 1000 + j]
            == stones(j as nat, i as nat) % modulus() by {
            assert(i == 0);
            vstd::arithmetic::div_mod::lemma_small_mod(1, modulus());
        }
    }
    let mut i: usize = 1;
    while i <= iters
        invariant
            1 <= i <= iters + 1,
            iters < 100,
            forall|j: nat| j < 1000 ==> fits(j, iters as nat),
            lut@.len() == i * 1000,
            table_holds(lut@, i as int),
        decreases iters + 1 - i,
    {
        let mut j: u64 = 0;
        while j < 1000
            invariant
                1 <= i <= iters,
                iters < 100,
                j <= 1000,
                forall|j: nat| j < 1000 ==> fits(j, iters as nat),
                lut@.len() == i * 1000 + j,
                table_holds(lut@, i as int),
                forall|k: int| 0 <= k < j ==> #[trigger] lut@[i * 1000 + k] == stones(k as nat, i as nat)
                    % modulus(),
            decreases 1000 - j,
        {
            proof {
                lemma_fits_mono(j as nat, iters as nat, i as nat);
            }
            let v = if j == 0 {
                assert((i - 1) * 1000 + 1 < i * 1000) by (nonlinear_arith) requires i >= 1;
                lut[(i - 1) * 1000 + 1]
            } else {
                let d = digits_of(j);
                if d % 2 == 0 {
                    let p = pow10_exec(d / 2);
                    assert(p == half_pow(j as nat));
                    let l = j / p;
                    let r = j % p;
                    assert(l <= j && r <= j) by (nonlinear_arith)
                        requires l == j / p, r == j % p, p >= 1;
                    assert((i - 1) * 1000 + l < i * 1000 && (i - 1) * 1000 + r < i * 1000) by (nonlinear_arith)
                        requires i >= 1, l < 1000, r < 1000;
                    let a = lut[(i - 1) * 1000 + l as usize];
                    let b = lut[(i - 1) * 1000 + r as usize];
                    proof {
                        lemma_wrapping_add(
                            a,
                            b,
                            stones(l as nat, (i - 1) as nat),
                            stones(r as nat, (i - 1) as nat),
                        );
                    }
                    a.wrapping_add(b)
                } else {
                    solve_rec(i - 1, j * 2024, &lut, i)
                }
            };
            let ghost old_lut = lut@;
            lut.push(v);
            proof {
                assert forall|a: int, b: int| 0 <= a < i && 0 <= b < 1000 implies #[trigger] lut@[a * 1000 + b]
                    == stones(b as nat, a as nat) % modulus() by {
                    assert(a * 1000 + b < i * 1000) by (nonlinear_arith) requires a < i, b < 1000;
                    assert(lut@[a * 1000 + b] == old_lut[a * 1000 + b]);
                }
            }
            j = j + 1;
        }
        proof {
            assert forall|a: int, b: int| 0 <= a < i + 1 && 0 <= b < 1000 implies #[trigger] lut@[a * 1000 + b]
                == stones(b as nat, a as nat) % modulus() by {
                if a == i {
                    assert(lut@[i * 1000 + b] == stones(b as nat, i as nat) % modulus());
                }
            }
        }
        i = i + 1;
    }
    lut
}


/// The total number of stones after `iters` blinks, modulo 2^64.
fn solve(s: &[u8], iters: usize) -> (r: u64)
    requires
        iters < 100,
        ready(s@, iters as nat),
    ensures
        r == total_stones(engraved(s@, 0), iters as nat, engraved(s@, 0).len() as int) % modulus(),
{
    let lut = build_table(iters);
    let ghost all = engraved(s@, 0);
    let ghost mut c: int = 0;
    let mut i: usize = 0;
    let mut tot: u64 = 0;
    proof {
        vstd::arithmetic::div_mod::lemma_small_mod(0, modulus());
    }
    while i < s.len()
        invariant
            i <= s@.len(),
            iters < 100,
            wf_numbers(s@, i as int),
            ready(s@, iters as nat),
            all == engraved(s@, 0),
            0 <= c <= all.len(),
            engraved(s@, i as int) == all.skip(c),
            table_holds(lut@, iters + 1),
            tot == total_stones(all, iters as nat, c) % modulus(),
        decreases s@.len() - i,
    {
        proof {
            lemma_digits_end(s@, i as int);
        }
        let (n, e) = parse_digits(s, i);
        proof {
            assert(engraved(s@, i as int) =~= seq![n as nat] + engraved(s@, e + 1));
            assert(all.skip(c).len() >= 1);
            assert(all.skip(c)[0] == all[c]);
            assert(all.skip(c + 1) =~= all.skip(c).skip(1));
            assert((seq![n as nat] + engraved(s@, e + 1)).skip(1) =~= engraved(s@, e + 1));
            assert(fits(all[c], iters as nat));
            vstd::arithmetic::div_mod::lemma_mod_bound(total_stones(all, iters as nat, c) as int, modulus() as int);
        }
        let x = solve_rec(iters, n, &lut, iters + 1);
        proof {
            lemma_wrapping_add(tot, x, total_stones(all, iters as nat, c), stones(n as nat, iters as nat));
        }
        tot = tot.wrapping_add(x);
        proof {
            c = c + 1;
        }
        i = e + 1;
    }
    proof {
        assert(all.skip(c).len() == 0);
    }
    tot
}

/// Part 1: the number of stones after 25 blinks (modulo 2^64).
pub fn part1(input: &str) -> (r: u64)
    requires
        ready(input.spec_bytes(), 25),
    ensures
        r == total_stones(engraved(input.spec_bytes(), 0), 25, engraved(input.spec_bytes(), 0).len() as int)
            % modulus(),
{
    solve(input.as_bytes(), 25)
}

/// Part 2: the number of stones after 75 blinks (modulo 2^64).
pub fn part2(input: &str) -> (r: u64)
    requires
        ready(input.spec_bytes(), 75),
    ensures
        r == total_stones(engraved(input.spec_bytes(), 0), 75, engraved(input.spec_bytes(), 0).len() as int)
            % modulus(),
{
    solve(input.as_bytes(), 75)
}

/// The answer of part 2, as a signed number.
pub fn run(input: &str) -> (r: i64)
    requires
        ready(input.spec_bytes(), 75),
    ensures
        r == (total_stones(engraved(input.spec_bytes(), 0), 75, engraved(input.spec_bytes(), 0).len() as int)
            % modulus()) as i64,
{
    part2(input) as i64
}

} // verus!
