//! The modulus `2^64 - 2^32 + 1` is prime, so a product of field elements is
//! zero only where a factor is zero.
//!
//! The proof goes by an element whose order is `2^32`. Modulo any divisor of
//! the modulus above 1 its first `2^32` powers are pairwise different, so
//! such a divisor is at least `2^32`, and two of them multiply to more than
//! the modulus.

use vstd::prelude::*;
use vstd::arithmetic::div_mod::{
    lemma_fundamental_div_mod, lemma_fundamental_div_mod_converse_mod, lemma_mod_mod,
    lemma_mul_mod_noop, lemma_small_mod,
};
use vstd::arithmetic::power::{lemma_pow0, lemma_pow1, lemma_pow_adds, pow};
use vstd::relations::injective_on;
use vstd::set_lib::{lemma_int_range, lemma_len_subset, lemma_map_size, set_int_range};
use crate::field::modulus;
use crate::trace::is_power_of_two;

verus! {

/// An element of the field whose `2^31`-th power is -1.
pub open spec fn root() -> int {
    1753635133440165772
}

/// `2^31`.
pub open spec fn two_to_31() -> nat {
    0x8000_0000
}

/// `2^32`.
pub open spec fn two_to_32() -> nat {
    0x1_0000_0000
}

/// `m` is above 1 and divides the modulus.
pub open spec fn divides_modulus(m: int) -> bool {
    m > 1 && modulus() % m == 0
}

/// The `e`-th power of the root, modulo `m`.
pub open spec fn root_power(e: nat, m: int) -> int {
    pow(root(), e) % m
}

proof fn lemma_square(e: nat, x: int, y: int)
    requires
        root_power(e, modulus()) == x,
        (x * x) % modulus() == y,
    ensures
        root_power(2 * e, modulus()) == y,
{
    let p = pow(root(), e);
    lemma_pow_adds(root(), e, e);
    lemma_mul_mod_noop(p, p, modulus());
    assert(e + e == 2 * e);
}

proof fn lemma_root_power_2_to_8()
    ensures
        root_power(0x100, modulus()) == 9713644485405565297,
{
    lemma_pow1(root());
    lemma_small_mod(root() as nat, modulus() as nat);
    lemma_square(0x1, 1753635133440165772, 4614640910117430873);
    lemma_square(0x2, 4614640910117430873, 9123114210336311365);
    lemma_square(0x4, 9123114210336311365, 16116352524544190054);
    lemma_square(0x8, 16116352524544190054, 6414415596519834757);
    lemma_square(0x10, 6414415596519834757, 1213594585890690845);
    lemma_square(0x20, 1213594585890690845, 17096174751763063430);
    lemma_square(0x40, 17096174751763063430, 5456943929260765144);
    lemma_square(0x80, 5456943929260765144, 9713644485405565297);
}

proof fn lemma_root_power_2_to_16()
    ensures
        root_power(0x1_0000, modulus()) == 6115771955107415310,
{
    lemma_root_power_2_to_8();
    lemma_square(0x100, 9713644485405565297, 16905767614792059275);
    lemma_square(0x200, 16905767614792059275, 5416168637041100469);
    lemma_square(0x400, 5416168637041100469, 17654865857378133588);
    lemma_square(0x800, 17654865857378133588, 3511170319078647661);
    lemma_square(0x1000, 3511170319078647661, 18146160046829613826);
    lemma_square(0x2000, 18146160046829613826, 9306717745644682924);
    lemma_square(0x4000, 9306717745644682924, 12380578893860276750);
    lemma_square(0x8000, 12380578893860276750, 6115771955107415310);
}

proof fn lemma_root_power_2_to_24()
    ensures
        root_power(0x100_0000, modulus()) == 13797081185216407910,
{
    lemma_root_power_2_to_16();
    lemma_square(0x1_0000, 6115771955107415310, 17776499369601055404);
    lemma_square(0x2_0000, 17776499369601055404, 16207902636198568418);
    lemma_square(0x4_0000, 16207902636198568418, 1532612707718625687);
    lemma_square(0x8_0000, 1532612707718625687, 17492915097719143606);
    lemma_square(0x10_0000, 17492915097719143606, 455906449640507599);
    lemma_square(0x20_0000, 455906449640507599, 11353340290879379826);
    lemma_square(0x40_0000, 11353340290879379826, 1803076106186727246);
    lemma_square(0x80_0000, 1803076106186727246, 13797081185216407910);
}

/// The `2^31`-th power of the root is -1 in the field.
proof fn lemma_root_power_2_to_31()
    ensures
        root_power(two_to_31(), modulus()) == modulus() - 1,
{
    lemma_root_power_2_to_24();
    lemma_square(0x100_0000, 13797081185216407910, 17870292113338400769);
    lemma_square(0x200_0000, 17870292113338400769, 549755813888);
    lemma_square(0x400_0000, 549755813888, 70368744161280);
    lemma_square(0x800_0000, 70368744161280, 17293822564807737345);
    lemma_square(0x1000_0000, 17293822564807737345, 18446744069397807105);
    lemma_square(0x2000_0000, 18446744069397807105, 281474976710656);
    lemma_square(0x4000_0000, 281474976710656, 18446744069414584320);
}

/// A residue modulo a divisor of the modulus is that of the residue modulo the modulus.
proof fn lemma_residue_descends(x: int, m: int)
    requires
        divides_modulus(m),
    ensures
        x % m == (x % modulus()) % m,
{
    let q = modulus() / m;
    lemma_fundamental_div_mod(modulus(), m);
    assert(q > 0) by (nonlinear_arith)
        requires
            m > 1,
            m * q == modulus(),
            modulus() > 0,
    ;
    lemma_mod_mod(x, m, q);
}

/// The powers of the root multiply as their exponents add.
proof fn lemma_root_power_adds(a: nat, b: nat, m: int)
    requires
        m > 1,
    ensures
        root_power(a + b, m) == (root_power(a, m) * root_power(b, m)) % m,
{
    lemma_pow_adds(root(), a, b);
    lemma_mul_mod_noop(pow(root(), a), pow(root(), b), m);
}

/// Modulo a divisor of the modulus the `2^31`-th power of the root is -1 and
/// its `2^32`-th power is 1.
proof fn lemma_root_order(m: int)
    requires
        divides_modulus(m),
    ensures
        root_power(two_to_31(), m) == m - 1,
        root_power(two_to_32(), m) == 1,
{
    let q = modulus() / m;
    lemma_root_power_2_to_31();
    lemma_residue_descends(pow(root(), two_to_31()), m);
    lemma_fundamental_div_mod(modulus(), m);
    assert(modulus() - 1 == (q - 1) * m + (m - 1)) by (nonlinear_arith)
        requires
            modulus() == m * q,
    ;
    lemma_fundamental_div_mod_converse_mod(modulus() - 1, m, q - 1, m - 1);
    lemma_root_power_adds(two_to_31(), two_to_31(), m);
    assert((m - 1) * (m - 1) == (m - 2) * m + 1) by (nonlinear_arith);
    lemma_fundamental_div_mod_converse_mod((m - 1) * (m - 1), m, m - 2, 1);
}

/// The powers of the root repeat after `2^32`.
proof fn lemma_root_power_period(e: nat, m: int)
    requires
        divides_modulus(m),
    ensures
        root_power(e + two_to_32(), m) == root_power(e, m),
        0 <= root_power(e, m) < m,
{
    lemma_root_order(m);
    lemma_root_power_adds(e, two_to_32(), m);
    assert(root_power(e, m) * 1 == root_power(e, m));
    lemma_small_mod(root_power(e, m) as nat, m as nat);
}

/// An odd multiple of `2^31` takes the root to -1.
proof fn lemma_root_power_odd_multiple(t: nat, m: int)
    requires
        divides_modulus(m),
        t % 2 == 1,
    ensures
        root_power(two_to_31() * t, m) == m - 1,
    decreases t,
{
    if t == 1 {
        lemma_root_order(m);
    } else {
        lemma_root_power_odd_multiple((t - 2) as nat, m);
        lemma_root_power_period(two_to_31() * ((t - 2) as nat), m);
        assert(two_to_31() * ((t - 2) as nat) + two_to_32() == two_to_31() * t) by (nonlinear_arith)
            requires
                t >= 2,
                two_to_32() == 2 * two_to_31(),
        ;
    }
}

/// Where a power of the root is 1, so is every power of that power.
proof fn lemma_root_power_multiple(e: nat, c: nat, m: int)
    requires
        m > 1,
        root_power(e, m) == 1,
    ensures
        root_power(e * c, m) == 1,
    decreases c,
{
    if c == 0 {
        assert(e * c == 0) by (nonlinear_arith)
            requires
                c == 0,
        ;
        lemma_pow0(root());
        lemma_small_mod(1, m as nat);
    } else {
        lemma_root_power_multiple(e, (c - 1) as nat, m);
        lemma_root_power_adds(e * ((c - 1) as nat), e, m);
        assert(e * ((c - 1) as nat) + e == e * c) by (nonlinear_arith)
            requires
                c >= 1,
        ;
        lemma_small_mod(1, m as nat);
    }
}

/// No power of the root below the `2^32`-th is 1, but the 0-th. Here the
/// exponent is `e * w`, where `w * c` is `2^31` and `e` is below `2 * c`.
proof fn lemma_root_has_no_smaller_order(e: nat, w: nat, c: nat, m: int)
    requires
        divides_modulus(m),
        is_power_of_two(c),
        w * c == two_to_31(),
        0 < e < 2 * c,
    ensures
        root_power(e * w, m) != 1,
    decreases e,
{
    if root_power(e * w, m) == 1 {
        if e % 2 == 1 {
            lemma_root_power_multiple(e * w, c, m);
            assert((e * w) * c == two_to_31() * e) by (nonlinear_arith)
                requires
                    w * c == two_to_31(),
            ;
            lemma_root_power_odd_multiple(e, m);
            lemma_modulus_is_odd(m);
        } else {
            let half = e / 2;
            assert(c > 1);
            assert((half * (2 * w)) == e * w) by (nonlinear_arith)
                requires
                    e == 2 * half,
            ;
            assert((2 * w) * (c / 2) == two_to_31()) by (nonlinear_arith)
                requires
                    w * c == two_to_31(),
                    c % 2 == 0,
            ;
            lemma_root_has_no_smaller_order(half, 2 * w, c / 2, m);
        }
    }
}

/// The modulus is odd, so 2 does not divide it.
proof fn lemma_modulus_is_odd(m: int)
    requires
        divides_modulus(m),
    ensures
        m != 2,
{
}

/// Modulo a divisor of the modulus the first `2^32` powers of the root are
/// pairwise different.
proof fn lemma_root_powers_differ(i: nat, j: nat, m: int)
    requires
        divides_modulus(m),
        i < j < two_to_32(),
    ensures
        root_power(i, m) != root_power(j, m),
{
    if root_power(i, m) == root_power(j, m) {
        let e = (j - i) as nat;
        let rest = (two_to_32() - i) as nat;
        lemma_root_power_adds(j, rest, m);
        lemma_root_power_adds(i, rest, m);
        lemma_root_order(m);
        assert(i + rest == two_to_32());
        assert(j + rest == e + two_to_32());
        lemma_root_power_period(e, m);
        assert(root_power(e, m) == 1);
        reveal_with_fuel(is_power_of_two, 33);
        assert(is_power_of_two(two_to_31()));
        assert(e * 1 == e);
        lemma_root_has_no_smaller_order(e, 1, two_to_31(), m);
    }
}

/// A divisor of the modulus above 1 is at least `2^32`.
proof fn lemma_divisor_is_large(m: int)
    requires
        divides_modulus(m),
    ensures
        m >= two_to_32(),
{
    let exponents = set_int_range(0, two_to_32() as int);
    let residues = set_int_range(0, m);
    let f = |i: int| root_power(i as nat, m);
    let image = exponents.map(f);
    lemma_int_range(0, two_to_32() as int);
    lemma_int_range(0, m);
    assert(injective_on(f, exponents)) by {
        assert forall|a: int, b: int|
            exponents.contains(a) && exponents.contains(b) && #[trigger] f(a) == #[trigger] f(
                b,
            ) implies a == b by {
            if a < b {
                lemma_root_powers_differ(a as nat, b as nat, m);
            } else if b < a {
                lemma_root_powers_differ(b as nat, a as nat, m);
            }
        }
    }
    lemma_map_size(exponents, image, f);
    assert(image.subset_of(residues)) by {
        assert forall|v: int| image.contains(v) implies residues.contains(v) by {
            let i = choose|i: int| exponents.contains(i) && v == f(i);
            lemma_root_power_period(i as nat, m);
        }
    }
    lemma_len_subset(image, residues);
}

/// The modulus is prime: no number between 1 and the modulus divides it.
pub proof fn lemma_modulus_is_prime(d: int)
    requires
        1 < d < modulus(),
    ensures
        modulus() % d != 0,
{
    if modulus() % d == 0 {
        let q = modulus() / d;
        lemma_fundamental_div_mod(modulus(), d);
        assert(1 < q) by (nonlinear_arith)
            requires
                1 < d < modulus(),
                d * q == modulus(),
        ;
        assert(modulus() == q * d + 0) by (nonlinear_arith)
            requires
                d * q == modulus(),
        ;
        lemma_fundamental_div_mod_converse_mod(modulus(), q, d, 0);
        lemma_divisor_is_large(d);
        lemma_divisor_is_large(q);
        assert(d * q >= 0x1_0000_0000 * 0x1_0000_0000) by (nonlinear_arith)
            requires
                d >= 0x1_0000_0000,
                q >= 0x1_0000_0000,
        ;
    }
}

/// The product of two numbers that the modulus does not divide is not
/// divided by it either.
pub proof fn lemma_no_zero_divisors(a: int, b: int)
    requires
        0 < a < modulus(),
        0 < b < modulus(),
    ensures
        (a * b) % modulus() != 0,
    decreases a,
{
    let p = modulus();
    if a == 1 {
        assert(a * b == b) by (nonlinear_arith)
            requires
                a == 1,
        ;
        lemma_small_mod(b as nat, p as nat);
    } else if (a * b) % p == 0 {
        let q = p / a;
        let r = p % a;
        lemma_modulus_is_prime(a);
        lemma_fundamental_div_mod(p, a);
        let k = (a * b) / p;
        lemma_fundamental_div_mod(a * b, p);
        assert(r * b == (b - q * k) * p + 0) by (nonlinear_arith)
            requires
                p == a * q + r,
                a * b == p * k,
        ;
        lemma_fundamental_div_mod_converse_mod(r * b, p, b - q * k, 0);
        lemma_no_zero_divisors(r, b);
    }
}

/// In the field a product is zero only where a factor is zero.
pub proof fn lemma_zero_product(a: int, b: int)
    ensures
        (a * b) % modulus() == 0 <==> (a % modulus() == 0 || b % modulus() == 0),
{
    let p = modulus();
    let x = a % p;
    let y = b % p;
    lemma_mul_mod_noop(a, b, p);
    if x == 0 || y == 0 {
        assert(x * y == 0) by (nonlinear_arith)
            requires
                x == 0 || y == 0,
        ;
    } else {
        lemma_no_zero_divisors(x, y);
    }
}

} // verus!
