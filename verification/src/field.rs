//! Arithmetic in the prime field of `2^64 - 2^32 + 1` elements.
//!
//! An element is held by its canonical integer, the one below the modulus.
//! The operations take any 64-bit integer for the element that it is
//! congruent to, and give the canonical integer of the result.

use vstd::prelude::*;
use vstd::arithmetic::div_mod::{
    lemma_fundamental_div_mod_converse_mod, lemma_small_mod, lemma_sub_mod_noop,
};

verus! {

/// The number of elements of the field.
pub const MODULUS: u64 = 0xFFFF_FFFF_0000_0001;

/// The number of elements of the field, as an integer.
pub open spec fn modulus() -> int {
    0xFFFF_FFFF_0000_0001
}

/// The element that `a` stands for.
pub open spec fn reduce(a: int) -> u64 {
    (a % modulus()) as u64
}

/// The difference of two elements.
pub open spec fn sub_mod(a: u64, b: u64) -> u64 {
    reduce(a - b)
}

/// The product of two elements.
pub open spec fn mul_mod(a: u64, b: u64) -> u64 {
    reduce(a * b)
}

/// The canonical integer of the element that `a` stands for.
pub fn field_reduce(a: u64) -> (r: u64)
    ensures
        r == reduce(a as int),
        r < MODULUS,
{
    a % MODULUS
}

/// The difference of two elements.
pub fn field_sub(a: u64, b: u64) -> (r: u64)
    ensures
        r == sub_mod(a, b),
        r < MODULUS,
{
    let x = a % MODULUS;
    let y = b % MODULUS;
    proof {
        lemma_sub_mod_noop(a as int, b as int, modulus());
    }
    if x >= y {
        proof {
            lemma_small_mod((x - y) as nat, modulus() as nat);
        }
        x - y
    } else {
        proof {
            lemma_fundamental_div_mod_converse_mod(x - y, modulus(), -1, x - y + modulus());
        }
        MODULUS - y + x
    }
}

/// The product of two elements.
pub fn field_mul(a: u64, b: u64) -> (r: u64)
    ensures
        r == mul_mod(a, b),
        r < MODULUS,
{
    let wide: u128 = a as u128;
    assert(wide * (b as u128) <= 0xFFFF_FFFF_FFFF_FFFF * 0xFFFF_FFFF_FFFF_FFFF) by (nonlinear_arith)
        requires
            wide <= 0xFFFF_FFFF_FFFF_FFFF,
            b <= 0xFFFF_FFFF_FFFF_FFFF,
    ;
    let product: u128 = wide * (b as u128);
    (product % (MODULUS as u128)) as u64
}

} // verus!
