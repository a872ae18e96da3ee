use starkra::field::{field_mul, field_reduce, field_sub, MODULUS};
use winterfell::math::fields::f64::BaseElement;
use winterfell::math::{FieldElement, StarkField};

fn samples() -> Vec<u64> {
    vec![
        0,
        1,
        2,
        7,
        42,
        0xFFFF_FFFF,
        0x1_0000_0000,
        0x1234_5678_9ABC_DEF0,
        1753635133440165772,
        MODULUS - 2,
        MODULUS - 1,
        MODULUS,
        MODULUS + 1,
        u64::MAX - 1,
        u64::MAX,
    ]
}

#[test]
fn modulus_is_that_of_the_field() {
    assert_eq!(MODULUS, 18446744069414584321);
    assert_eq!(MODULUS, BaseElement::MODULUS);
}

#[test]
fn reduce_gives_the_canonical_integer() {
    assert_eq!(field_reduce(0), 0);
    assert_eq!(field_reduce(MODULUS - 1), MODULUS - 1);
    assert_eq!(field_reduce(MODULUS), 0);
    assert_eq!(field_reduce(u64::MAX), 0xFFFF_FFFE);
    for a in samples() {
        assert_eq!(field_reduce(a), BaseElement::new(a).as_int());
    }
}

#[test]
fn difference_is_taken_in_the_field() {
    assert_eq!(field_sub(5, 3), 2);
    assert_eq!(field_sub(3, 5), MODULUS - 2);
    assert_eq!(field_sub(0, 1), MODULUS - 1);
    assert_eq!(field_sub(7, 7), 0);
    assert_eq!(field_sub(MODULUS, 0), 0);
    assert_eq!(field_sub(u64::MAX, MODULUS), 0xFFFF_FFFE);
}

#[test]
fn product_is_taken_in_the_field() {
    assert_eq!(field_mul(6, 7), 42);
    assert_eq!(field_mul(0, 12345), 0);
    assert_eq!(field_mul(1, MODULUS - 1), MODULUS - 1);
    assert_eq!(field_mul(MODULUS - 1, MODULUS - 1), 1);
    assert_eq!(field_mul(0x1_0000_0000, 0x1_0000_0000), 0xFFFF_FFFF);
    assert_eq!(field_mul(MODULUS, 99), 0);
    assert_eq!(field_mul(1753635133440165772, 1753635133440165772), 4614640910117430873);
}

#[test]
fn arithmetic_agrees_with_the_backend() {
    for a in samples() {
        for b in samples() {
            let x = BaseElement::new(a);
            let y = BaseElement::new(b);
            assert_eq!(field_sub(a, b), (x - y).as_int(), "{} - {}", a, b);
            assert_eq!(field_mul(a, b), (x * y).as_int(), "{} * {}", a, b);
        }
    }
}

#[test]
fn product_of_nonzero_elements_is_not_zero() {
    for a in samples() {
        for b in samples() {
            let zero = a % MODULUS == 0 || b % MODULUS == 0;
            assert_eq!(field_mul(a, b) == 0, zero);
        }
    }
    assert_eq!(BaseElement::ZERO.as_int(), 0);
    assert_eq!(BaseElement::ONE.as_int(), 1);
}
