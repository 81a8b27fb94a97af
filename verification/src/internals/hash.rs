//! Mixing of keys for the address maps.

use vstd::prelude::*;

verus! {

/// Folds the upper half of a word into the lower one.
pub open spec fn fold(x: u64) -> u64 {
    x ^ (x >> 33u64)
}

/// Spreads the bits of a key: folding and multiplication by an odd constant in turn.
pub open spec fn spec_mix(x: u64) -> u64 {
    fold(fold(fold(x).wrapping_mul(0xff51_afd7_ed55_8ccd)).wrapping_mul(0xc4ce_b9fe_1a85_ec53))
}

/// Spreads the bits of a key.
pub fn mix(key: u64) -> (r: u64)
    ensures
        r == spec_mix(key),
{
    let mut x: u64 = key;
    x = x ^ (x >> 33u64);
    x = x.wrapping_mul(0xff51_afd7_ed55_8ccd);
    x = x ^ (x >> 33u64);
    x = x.wrapping_mul(0xc4ce_b9fe_1a85_ec53);
    x ^ (x >> 33u64)
}

/// Different keys stay different.
pub proof fn law_mixing_keeps_keys_apart(a: u64, b: u64)
    requires
        spec_mix(a) == spec_mix(b),
    ensures
        a == b,
{
    let a1 = fold(a).wrapping_mul(0xff51_afd7_ed55_8ccd);
    let b1 = fold(b).wrapping_mul(0xff51_afd7_ed55_8ccd);
    let a2 = fold(a1).wrapping_mul(0xc4ce_b9fe_1a85_ec53);
    let b2 = fold(b1).wrapping_mul(0xc4ce_b9fe_1a85_ec53);
    lemma_fold(a2, b2);
    lemma_odd_factor(fold(a1), fold(b1), 0xc4ce_b9fe_1a85_ec53, 0x9cb4_b2f8_1293_37db);
    lemma_fold(a1, b1);
    lemma_odd_factor(fold(a), fold(b), 0xff51_afd7_ed55_8ccd, 0x4f74_430c_22a5_4005);
    lemma_fold(a, b);
}

proof fn lemma_fold(a: u64, b: u64)
    ensures
        fold(a) == fold(b) ==> a == b,
{
    assert(a ^ (a >> 33u64) == b ^ (b >> 33u64) ==> a == b) by (bit_vector);
}

proof fn lemma_odd_factor(a: u64, b: u64, factor: u64, inverse: u64)
    requires
        a.wrapping_mul(factor) == b.wrapping_mul(factor),
        (factor * inverse) % 0x1_0000_0000_0000_0000 == 1,
    ensures
        a == b,
{
    lemma_undone(a as int, factor as int, inverse as int);
    lemma_undone(b as int, factor as int, inverse as int);
}

proof fn lemma_undone(a: int, factor: int, inverse: int)
    requires
        0 <= a < 0x1_0000_0000_0000_0000,
        (factor * inverse) % 0x1_0000_0000_0000_0000 == 1,
    ensures
        (((a * factor) % 0x1_0000_0000_0000_0000) * inverse) % 0x1_0000_0000_0000_0000 == a,
{
    let m: int = 0x1_0000_0000_0000_0000;
    vstd::arithmetic::div_mod::lemma_mul_mod_noop_left(a * factor, inverse, m);
    assert((a * factor) * inverse == a * (factor * inverse)) by (nonlinear_arith);
    vstd::arithmetic::div_mod::lemma_mul_mod_noop_right(a, factor * inverse, m);
    assert(a * 1 == a);
    vstd::arithmetic::div_mod::lemma_small_mod(a as nat, m as nat);
}

} // verus!
