//! Decimal numerals inside byte strings: their extent and their value.
use vstd::prelude::*;

verus! {

/// An ASCII decimal digit.
pub open spec fn is_digit(b: u8) -> bool {
    48 <= b <= 57
}

/// Every byte of `t` is a decimal digit.
pub open spec fn all_digits(t: Seq<u8>) -> bool {
    forall|k: int| 0 <= k < t.len() ==> is_digit(#[trigger] t[k])
}

/// The value of the decimal numeral `t` (most significant digit first).
pub open spec fn dec_value(t: Seq<u8>) -> int
    decreases t.len(),
{
    if t.len() == 0 {
        0
    } else {
        dec_value(t.drop_last()) * 10 + (t.last() - 48)
    }
}

/// The index of the first byte at or after `i` that is not a digit (or the
/// length of `s`).
pub open spec fn digits_end(s: Seq<u8>, i: int) -> int
    decreases s.len() - i,
{
    if 0 <= i < s.len() && is_digit(s[i]) {
        digits_end(s, i + 1)
    } else {
        i
    }
}

/// The numeral that starts at `i`: the digits from `i` to `digits_end(s, i)`.
pub open spec fn numeral_at(s: Seq<u8>, i: int) -> Seq<u8> {
    s.subrange(i, digits_end(s, i))
}

pub proof fn lemma_digits_end(s: Seq<u8>, i: int)
    requires
        0 <= i <= s.len(),
    ensures
        i <= digits_end(s, i) <= s.len(),
        forall|k: int| i <= k < digits_end(s, i) ==> is_digit(#[trigger] s[k]),
        digits_end(s, i) == s.len() || !is_digit(s[digits_end(s, i)]),
        all_digits(numeral_at(s, i)),
    decreases s.len() - i,
{
    if i < s.len() && is_digit(s[i]) {
        lemma_digits_end(s, i + 1);
    }
    let t = numeral_at(s, i);
    assert forall|k: int| 0 <= k < t.len() implies is_digit(#[trigger] t[k]) by {
        assert(t[k] == s[i + k]);
    }
}

/// The numeral at `j` ends at or after `j`.
pub proof fn lemma_digits_end_ge(s: Seq<u8>, j: int)
    ensures
        digits_end(s, j) >= j,
    decreases s.len() - j,
{
    if 0 <= j < s.len() && 48 <= s[j] <= 57 {
        lemma_digits_end_ge(s, j + 1);
    }
}

pub proof fn lemma_dec_value_bounds(t: Seq<u8>)
    requires
        all_digits(t),
    ensures
        0 <= dec_value(t),
        forall|k: int| 0 <= k <= t.len() ==> dec_value(#[trigger] t.take(k)) <= dec_value(t),
    decreases t.len(),
{
    if t.len() > 0 {
        let u = t.drop_last();
        assert(all_digits(u)) by {
            assert forall|k: int| 0 <= k < u.len() implies is_digit(#[trigger] u[k]) by {
                assert(u[k] == t[k]);
            }
        }
        lemma_dec_value_bounds(u);
        assert(is_digit(t[t.len() - 1]));
        assert forall|k: int| 0 <= k <= t.len() implies dec_value(#[trigger] t.take(k))
            <= dec_value(t) by {
            if k < t.len() {
                assert(t.take(k) =~= u.take(k));
            } else {
                assert(t.take(k) =~= t);
            }
        }
    }
}

/// `10^k`.
pub open spec fn pow10(k: nat) -> int
    decreases k,
{
    if k == 0 {
        1
    } else {
        10 * pow10((k - 1) as nat)
    }
}

pub proof fn lemma_pow10_pos(k: nat)
    ensures
        pow10(k) >= 1,
    decreases k,
{
    if k > 0 {
        lemma_pow10_pos((k - 1) as nat);
    }
}

pub proof fn lemma_pow10_mono(a: nat, b: nat)
    requires
        a <= b,
    ensures
        pow10(a) <= pow10(b),
    decreases b,
{
    if a < b {
        lemma_pow10_mono(a, (b - 1) as nat);
        lemma_pow10_pos((b - 1) as nat);
    }
}

/// A numeral with `n` digits is below `10^n`.
pub proof fn lemma_numeral_small(t: Seq<u8>)
    requires
        all_digits(t),
    ensures
        dec_value(t) < pow10(t.len()),
    decreases t.len(),
{
    if t.len() > 0 {
        let u = t.drop_last();
        assert(all_digits(u)) by {
            assert forall|k: int| 0 <= k < u.len() implies is_digit(#[trigger] u[k]) by {
                assert(u[k] == t[k]);
            }
        }
        lemma_numeral_small(u);
        assert(is_digit(t[t.len() - 1]));
    }
}

/// Extending a numeral by one digit multiplies its value by ten and adds the digit.
pub proof fn lemma_dec_value_push(s: Seq<u8>, i: int, k: int)
    requires
        0 <= i <= k < s.len(),
    ensures
        dec_value(s.subrange(i, k + 1)) == dec_value(s.subrange(i, k)) * 10 + (s[k] - 48),
{
    assert(s.subrange(i, k + 1).drop_last() =~= s.subrange(i, k));
}

/// The index just past the numeral that starts at `i`.
pub fn skip_digits(s: &[u8], i: usize) -> (r: usize)
    requires
        i <= s@.len(),
    ensures
        r == digits_end(s@, i as int),
{
    let mut k = i;
    while k < s.len() && 48 <= s[k] && s[k] <= 57
        invariant
            i <= k <= s@.len(),
            digits_end(s@, k as int) == digits_end(s@, i as int),
        decreases s@.len() - k,
    {
        k = k + 1;
    }
    k
}

/// Appending one digit to a prefix of `t`.
pub proof fn lemma_dec_value_take(t: Seq<u8>, i: int)
    requires
        0 <= i < t.len(),
    ensures
        dec_value(t.take(i + 1)) == dec_value(t.take(i)) * 10 + (t[i] - 48),
{
    assert(t.take(i + 1).drop_last() =~= t.take(i));
}

/// The value of a five-byte numeral, digit by digit.
pub proof fn lemma_dec_value5(t: Seq<u8>)
    requires
        t.len() == 5,
    ensures
        dec_value(t) == (t[0] - 48) * 10000 + (t[1] - 48) * 1000 + (t[2] - 48) * 100 + (t[3] - 48)
            * 10 + (t[4] - 48),
{
    assert(t.take(0).len() == 0);
    lemma_dec_value_take(t, 0);
    lemma_dec_value_take(t, 1);
    lemma_dec_value_take(t, 2);
    lemma_dec_value_take(t, 3);
    lemma_dec_value_take(t, 4);
    assert(t.take(5) =~= t);
}

/// Reads the numeral that starts at `i`, returning its value and the index
/// just past its last digit.
pub fn parse_digits(s: &[u8], i: usize) -> (r: (u64, usize))
    requires
        i <= s@.len(),
        dec_value(numeral_at(s@, i as int)) <= u64::MAX,
    ensures
        r.1 == digits_end(s@, i as int),
        r.0 == dec_value(numeral_at(s@, i as int)),
{
    proof {
        lemma_digits_end(s@, i as int);
        lemma_dec_value_bounds(numeral_at(s@, i as int));
    }
    let ghost e = digits_end(s@, i as int);
    let mut k = i;
    let mut v: u64 = 0;
    while k < s.len() && 48 <= s[k] && s[k] <= 57
        invariant
            i <= k <= e,
            e == digits_end(s@, i as int),
            e <= s@.len(),
            forall|j: int| i <= j < e ==> is_digit(#[trigger] s@[j]),
            e == s@.len() || !is_digit(s@[e]),
            v == dec_value(s@.subrange(i as int, k as int)),
            dec_value(numeral_at(s@, i as int)) <= u64::MAX,
            forall|j: int| 0 <= j <= e - i ==> dec_value(#[trigger] numeral_at(s@, i as int).take(j))
                <= dec_value(numeral_at(s@, i as int)),
        decreases s@.len() - k,
    {
        proof {
            assert(k < e);
            lemma_dec_value_push(s@, i as int, k as int);
            assert(numeral_at(s@, i as int).take(k + 1 - i) =~= s@.subrange(i as int, k + 1));
        }
        v = v * 10 + (s[k] - 48) as u64;
        k = k + 1;
    }
    proof {
        assert(s@.subrange(i as int, k as int) =~= numeral_at(s@, i as int));
    }
    (v, k)
}

} // verus!
