use el_stark::error::Error;
use el_stark::field::field::Field;
use el_stark::field::field_element::FieldElement;
use el_stark::field::{xgcd, DEFAULT_PRIME};

#[test]
fn test_default_field() {
    let field: Field = Default::default();
    assert_eq!(field.p, DEFAULT_PRIME);
}

#[test]
fn test_add() {
    let field = Field::new();
    let a = FieldElement::from(2, &field);
    let b = FieldElement::from(3, &field);
    let c = a + b;
    assert_eq!(c.value, 5);
}

#[test]
fn test_sub() {
    let field = Field::new();
    let a = FieldElement::from(3, &field);
    let b = FieldElement::from(2, &field);
    let c = a - b;
    println!("{}", c.value);
    assert_eq!(c.value, FieldElement::from(1, &field).value);
}

#[test]
fn test_mul() {
    let field = Field::new();
    let a = FieldElement::from(2, &field);
    let b = FieldElement::from(3, &field);
    let c = a * b;
    assert_eq!(c.value, 6);
}

#[test]
fn test_neg() {
    let field = Field::new();
    let a = FieldElement::from(2, &field);
    let b = -a;
    assert_eq!(b.value, DEFAULT_PRIME - 2);
}

#[test]
fn test_div() {
    let field = Field::new();
    let a = FieldElement::from(9, &field);
    let b = FieldElement::from(3, &field);
    let c = a / b;
    println!("Division result: {}", c.value);
    assert_eq!(c.value, 3);
}

#[test]
fn test_inverse_of_every_small_residue() {
    let field = Field::new();
    for v in 1..200i128 {
        let a = FieldElement::from(v, &field);
        let inv = field.inverse(a).unwrap();
        assert_eq!((a * inv).value, 1);
    }
    let big = FieldElement::from(DEFAULT_PRIME - 1, &field);
    assert_eq!(field.inverse(big).unwrap().value, DEFAULT_PRIME - 1);
}

#[test]
fn test_inverse_of_zero_is_refused() {
    let field = Field::new();
    assert_eq!(field.inverse(field.zero()), Err(Error::NotInvertible));
    assert_eq!(field.zero().inverse(), Err(Error::NotInvertible));
    assert_eq!(field.div(field.one(), field.zero()), Err(Error::NotInvertible));
}

#[test]
fn test_inverse_in_composite_modulus() {
    let ring = Field::from(15);
    assert_eq!(ring.inverse(FieldElement::from(2, &ring)).unwrap().value, 8);
    assert_eq!(ring.inverse(FieldElement::from(6, &ring)), Err(Error::NotInvertible));
}

#[test]
fn test_mul_needs_wide_product() {
    let field = Field::new();
    let a = FieldElement::from(DEFAULT_PRIME - 1, &field);
    assert_eq!((a * a).value, 1);
    let b = FieldElement::from(DEFAULT_PRIME - 2, &field);
    assert_eq!((a * b).value, 2);
}

#[test]
fn test_from_reduces() {
    let field = Field::new();
    assert_eq!(FieldElement::from(DEFAULT_PRIME, &field).value, 0);
    assert_eq!(FieldElement::from(DEFAULT_PRIME + 5, &field).value, 5);
    assert_eq!(FieldElement::from(-1, &field).value, DEFAULT_PRIME - 1);
    assert_eq!(FieldElement::from(-DEFAULT_PRIME, &field).value, 0);
    assert_eq!(FieldElement::from(i128::MIN, &field).value, (i128::MIN).rem_euclid(DEFAULT_PRIME));
}

#[test]
fn test_pow() {
    let field = Field::new();
    assert_eq!(field.pow(5, 0).value, 1);
    assert_eq!(field.pow(0, 0).value, 1);
    assert_eq!(field.pow(0, 7).value, 0);
    assert_eq!(field.pow(2, 10).value, 1024);
    assert_eq!(field.pow(2, 64).value, 4294967295);
    let a = FieldElement::from(3, &field);
    assert_eq!(a.pow(4).value, 81);
    assert_eq!(field.pow_i32(a, 5).value, 243);
    assert_eq!((a ^ FieldElement::from(3, &field)).value, 27);
    // Fermat: a^(p-1) = 1
    assert_eq!(field.pow(7, DEFAULT_PRIME - 1).value, 1);
}

#[test]
fn test_primitive_nth_root() {
    let field = Field::new();
    for k in 1..=32u32 {
        let n: i128 = 1i128 << k;
        let root = field.primitive_nth_root(n).unwrap();
        assert_eq!(field.pow(root.value, n).value, 1);
        assert_ne!(field.pow(root.value, n / 2).value, 1);
    }
    assert_eq!(field.primitive_nth_root(1).unwrap().value, 1);
    assert_eq!(field.primitive_nth_root(2).unwrap().value, DEFAULT_PRIME - 1);
    assert_eq!(field.primitive_nth_root(1i128 << 32).unwrap().value, 1753635133440165772);
}

#[test]
fn test_primitive_nth_root_refused() {
    let field = Field::new();
    assert_eq!(field.primitive_nth_root(0), Err(Error::UnsupportedOrder));
    assert_eq!(field.primitive_nth_root(-4), Err(Error::UnsupportedOrder));
    assert_eq!(field.primitive_nth_root(3), Err(Error::UnsupportedOrder));
    assert_eq!(field.primitive_nth_root(12), Err(Error::UnsupportedOrder));
    assert_eq!(field.primitive_nth_root(1i128 << 33), Err(Error::UnsupportedOrder));
    assert_eq!(Field::from(97).primitive_nth_root(4), Err(Error::UnsupportedOrder));
}

#[test]
fn test_sample() {
    let field = Field::new();
    assert_eq!(field.sample(vec![]).value, 0);
    assert_eq!(field.sample(vec![1, 0]).value, 256);
    assert_eq!(field.sample(vec![0x12, 0x34, 0x56]).value, 0x123456);
    // 2^64 = 2^32 - 1 modulo the default prime
    assert_eq!(field.sample(vec![1, 0, 0, 0, 0, 0, 0, 0, 0]).value, 4294967295);
    // 32 bytes of 0xff: 2^256 - 1
    let all = field.sample(vec![0xff; 32]).value;
    let two_64 = field.pow(2, 64);
    let two_256 = two_64 * two_64 * two_64 * two_64;
    assert_eq!(all, (two_256 - field.one()).value);
}

#[test]
fn test_to_bytes() {
    let field = Field::new();
    let a = FieldElement::from(0x0102030405, &field);
    assert_eq!(a.to_bytes(), 0x0102030405i128.to_be_bytes().to_vec());
    assert_eq!(a.to_be_bytes(), a.to_bytes());
    let top = FieldElement::from(DEFAULT_PRIME - 1, &field);
    assert_eq!(top.to_bytes(), (DEFAULT_PRIME - 1).to_be_bytes().to_vec());
    assert_eq!(field.zero().to_bytes(), vec![0u8; 16]);
}

#[test]
fn test_xgcd() {
    let (g, s, t) = xgcd(240, 46);
    assert_eq!(g, 2);
    assert_eq!(s * 240 + t * 46, 2);
    assert_eq!(xgcd(240, 46), (2, -9, 47));
    assert_eq!(xgcd(46, 240), (2, 47, -9));
    assert_eq!(xgcd(0, 5), (5, 0, 1));
    assert_eq!(xgcd(0, 0), (0, 1, 0));
    let (g, s, t) = xgcd(0, 5);
    assert_eq!((g, s * 0 + t * 5), (5, 5));
    let (g, s, t) = xgcd(5, 0);
    assert_eq!((g, s, t), (5, 1, 0));
    let (g, s, t) = xgcd(i128::MAX, i128::MAX - 1);
    assert_eq!(g, 1);
    assert_eq!(s.checked_mul(i128::MAX).is_none() || t.checked_mul(i128::MAX - 1).is_none() || s * i128::MAX + t * (i128::MAX - 1) == 1, true);
    let (g, _, _) = xgcd(0, 0);
    assert_eq!(g, 0);
}

#[test]
fn test_is_zero_and_equality() {
    let field = Field::new();
    assert!(field.zero().is_zero());
    assert!(!field.one().is_zero());
    assert_eq!(FieldElement::from(7, &field), FieldElement::from(7 + DEFAULT_PRIME, &field));
    assert_ne!(FieldElement::from(7, &field), FieldElement::from(8, &field));
}
