//! Code chronicle: counting the lock and key pairs that fit together.
use vstd::prelude::*;
use vstd::string::StringSliceAdditionalSpecFns;

verus! {

/// Schematics in the input, each 43 bytes apart (seven rows of five cells,
/// each with its newline, and a blank line).
pub open spec fn stride() -> int {
    43
}

/// The byte at offset `j` of schematic `a` is a filled cell.
pub open spec fn filled(s: Seq<u8>, a: int, j: int) -> bool {
    s[stride() * a + j] == 35
}

/// Schematic `a` is a lock: the last cell of its top row is filled.
pub open spec fn is_lock(s: Seq<u8>, a: int) -> bool {
    filled(s, a, 4)
}

/// Schematics `a` and `b` do not overlap in the 32 bytes compared, from
/// offset 4 on: the last cell of the top row and the five middle rows.
pub open spec fn fits(s: Seq<u8>, a: int, b: int) -> bool {
    forall|j: int| 4 <= j < 36 ==> !(filled(s, a, j) && filled(s, b, j))
}

/// The number of keys among the first `n` schematics that fit lock `a`.
pub open spec fn fitting_keys(s: Seq<u8>, a: int, n: int) -> int
    decreases n,
{
    if n <= 0 {
        0
    } else {
        fitting_keys(s, a, n - 1) + if !is_lock(s, n - 1) && fits(s, a, n - 1) {
            1int
        } else {
            0
        }
    }
}

/// The number of fitting lock and key pairs with the lock among the first
/// `n` schematics.
pub open spec fn fitting_pairs(s: Seq<u8>, n: int) -> int
    decreases n,
{
    if n <= 0 {
        0
    } else {
        fitting_pairs(s, n - 1) + if is_lock(s, n - 1) {
            fitting_keys(s, n - 1, 500)
        } else {
            0
        }
    }
}

/// The number of locks among the first `n` schematics.
pub open spec fn lock_count(s: Seq<u8>, n: int) -> int
    decreases n,
{
    if n <= 0 {
        0
    } else {
        lock_count(s, n - 1) + if is_lock(s, n - 1) {
            1int
        } else {
            0
        }
    }
}

/// The input holds 500 schematics, 250 of them locks.
pub open spec fn wf_input(s: Seq<u8>) -> bool {
    &&& s.len() >= stride() * 499 + 36
    &&& lock_count(s, 500) == 250
}

proof fn lemma_fitting_keys_bound(s: Seq<u8>, a: int, n: int)
    requires
        n >= 0,
    ensures
        0 <= fitting_keys(s, a, n) <= n,
    decreases n,
{
    if n > 0 {
        lemma_fitting_keys_bound(s, a, n - 1);
    }
}

proof fn lemma_fitting_pairs_bound(s: Seq<u8>, n: int)
    requires
        n >= 0,
    ensures
        0 <= fitting_pairs(s, n) <= 500 * n,
    decreases n,
{
    if n > 0 {
        lemma_fitting_pairs_bound(s, n - 1);
        lemma_fitting_keys_bound(s, n - 1, 500);
    }
}

/// Whether schematics `a` and `b` fit, comparing the 32 bytes from offset 4.
fn fits_exec(s: &[u8], a: usize, b: usize) -> (r: bool)
    requires
        a < 500,
        b < 500,
        s@.len() >= stride() * 499 + 36,
    ensures
        r == fits(s@, a as int, b as int),
{
    let base_a = 43 * a;
    let base_b = 43 * b;
    let mut j: usize = 4;
    while j < 36
        invariant
            4 <= j <= 36,
            a < 500 && b < 500,
            base_a == 43 * a && base_b == 43 * b,
            s@.len() >= stride() * 499 + 36,
            forall|k: int| 4 <= k < j ==> !(filled(s@, a as int, k) && filled(s@, b as int, k)),
        decreases 36 - j,
    {
        if s[base_a + j] == 35 && s[base_b + j] == 35 {
            assert(filled(s@, a as int, j as int) && filled(s@, b as int, j as int));
            return false;
        }
        j = j + 1;
    }
    true
}

/// Part 1: the number of lock and key pairs that fit together.
pub fn part1(input: &str) -> (r: u64)
    requires
        wf_input(input.spec_bytes()),
    ensures
        r == fitting_pairs(input.spec_bytes(), 500),
{
    let s = input.as_bytes();
    let mut tot: u64 = 0;
    let mut a: usize = 0;
    while a < 500
        invariant
            a <= 500,
            wf_input(s@),
            tot == fitting_pairs(s@, a as int),
        decreases 500 - a,
    {
        if s[43 * a + 4] == 35 {
            let mut c: u64 = 0;
            let mut b: usize = 0;
            while b < 500
                invariant
                    b <= 500,
                    a < 500,
                    wf_input(s@),
                    c == fitting_keys(s@, a as int, b as int),
                decreases 500 - b,
            {
                proof {
                    lemma_fitting_keys_bound(s@, a as int, b as int);
                }
                if s[43 * b + 4] != 35 && fits_exec(s, a, b) {
                    c = c + 1;
                }
                b = b + 1;
            }
            proof {
                lemma_fitting_pairs_bound(s@, a as int);
                lemma_fitting_keys_bound(s@, a as int, 500);
            }
            tot = tot + c;
        }
        a = a + 1;
    }
    tot
}

/// Part 2: the last day has no second puzzle; its answer is 0.
pub fn part2(_input: &str) -> (r: u64)
    ensures
        r == 0,
{
    0
}

/// The answer of part 1, as a signed number.
pub fn run(input: &str) -> (r: i64)
    requires
        wf_input(input.spec_bytes()),
    ensures
        r == fitting_pairs(input.spec_bytes(), 500) as i64,
{
    part1(input) as i64
}

} // verus!
