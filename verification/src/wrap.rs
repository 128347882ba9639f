//! Counts kept modulo 2^64 with wrapping additions.
use vstd::prelude::*;

verus! {

/// 2^64, the modulus of the 64-bit counts.
pub open spec fn modulus() -> nat {
    0x1_0000_0000_0000_0000nat
}

/// A wrapping addition adds the residues.
pub proof fn lemma_wrapping_add(x: u64, y: u64, a: nat, b: nat)
    requires
        x == a % modulus(),
        y == b % modulus(),
    ensures
        x.wrapping_add(y) == (a + b) % modulus(),
{
    let m = modulus() as int;
    vstd::arithmetic::div_mod::lemma_add_mod_noop(a as int, b as int, m);
    if x + y > u64::MAX {
        vstd::arithmetic::div_mod::lemma_fundamental_div_mod_converse(x + y, m, 1, x + y - m);
    } else {
        vstd::arithmetic::div_mod::lemma_small_mod((x + y) as nat, modulus());
    }
}

} // verus!
