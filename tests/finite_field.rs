use frs_iopp::{extended_euclidean_algorithm, Field, FieldElement, FriError};

#[test]
fn extended_euclidean_algorithm_works() {
    assert_eq!(extended_euclidean_algorithm(101, 13), (1, 4, -31));
    assert_eq!(extended_euclidean_algorithm(123, 19), (1, -2, 13));
    assert_eq!(extended_euclidean_algorithm(25, 36), (1, 13, -9));
    assert_eq!(extended_euclidean_algorithm(69, 54), (3, -7, 9));
    assert_eq!(extended_euclidean_algorithm(55, 79), (1, 23, -16));
    assert_eq!(extended_euclidean_algorithm(33, 44), (11, -1, 1));
    assert_eq!(extended_euclidean_algorithm(50, 70), (10, 3, -2));
}

#[test]
fn finite_field_compare() {
    let field = Field::new(97);
    let a = FieldElement::new(7, field);
    let b = FieldElement::new(6, field);

    assert_ne!(a, b);
    assert_eq!(a, a);
}

#[test]
fn finite_field_add() {
    let field = Field::new(97);

    let a = FieldElement::new(7, field);
    let b = FieldElement::new(12, field);
    let c = FieldElement::new(19, field);

    assert_eq!(a.add(b).unwrap(), c);
}

#[test]
fn finite_field_subtract() {
    let field = Field::new(97);
    let a = FieldElement::new(12, field);
    let b = FieldElement::new(2, field);
    let c = FieldElement::new(10, field);

    assert_eq!(a.sub(b).unwrap(), c);
}

#[test]
fn finite_field_multiply() {
    let field = Field::new(97);

    let a = FieldElement::new(3, field);
    let b = FieldElement::new(12, field);
    let c = FieldElement::new(36, field);

    assert_eq!(a.mul(b).unwrap(), c);
}

#[test]
fn finite_field_power() {
    let field = Field::new(97);

    let a = FieldElement::new(3, field);
    let c = FieldElement::new(27, field);

    assert_eq!(a.pow(3), c);
}

// Division multiplies by the inverse: 2 / 7 is 2 * 14 = 28 and 7 / 5 is
// 7 * 39 = 79 modulo 97.
#[test]
fn finite_field_divide() {
    let field = Field::new(97);

    let mut a = FieldElement::new(2, field);
    let mut b = FieldElement::new(7, field);
    let mut c = FieldElement::new(28, field);

    assert_eq!(a.div(b).unwrap(), c);

    a = FieldElement::new(7, field);
    b = FieldElement::new(5, field);
    c = FieldElement::new(79, field);

    assert_eq!(a.div(b).unwrap(), c);
}

#[test]
fn bezout_identity_holds() {
    for (a, b) in [(101i128, 13i128), (0, 5), (5, 0), (240, 46), (1 << 60, 3 * (1 << 40)), (97, 96)] {
        let (g, s, t) = extended_euclidean_algorithm(a, b);
        assert_eq!(a * s + b * t, g);
        assert!(g > 0);
        assert_eq!(a % g, 0);
        assert_eq!(b % g, 0);
    }
    assert_eq!(extended_euclidean_algorithm(0, 0), (0, 1, 0));
}

#[test]
fn field_identities_hold() {
    let field = Field::new(97);
    for x in 0..97 {
        for y in [1i128, 2, 5, 50, 96] {
            let a = FieldElement::new(x, field);
            let b = FieldElement::new(y, field);
            assert_eq!(a.add(b).unwrap().sub(b).unwrap(), a);
            assert_eq!(a.mul(b).unwrap().div(b).unwrap(), a);
        }
        if x != 0 {
            let a = FieldElement::new(x, field);
            assert_eq!(a.mul(a.inverse().unwrap()).unwrap(), field.one());
        }
    }
}

#[test]
fn new_reduces_into_the_field() {
    let field = Field::new(97);
    assert_eq!(FieldElement::new(-1, field).num, 96);
    assert_eq!(FieldElement::new(200, field).num, 6);
    assert_eq!(FieldElement::new(97, field), field.zero());
}

#[test]
fn negate_and_inverse_values() {
    let field = Field::new(97);
    let a = FieldElement::new(5, field);
    assert_eq!(a.neg().num, 92);
    assert_eq!(field.negate(field.zero()).unwrap(), field.zero());
    assert_eq!(a.inverse().unwrap().num, 39);
    assert_eq!(field.inverse(a).unwrap().num, 39);
}

#[test]
fn mismatched_fields_are_rejected() {
    let f97 = Field::new(97);
    let f101 = Field::new(101);
    let a = FieldElement::new(7, f97);
    let b = FieldElement::new(7, f101);
    assert_ne!(a, b);
    assert_eq!(a.add(b), Err(FriError::FieldMismatch));
    assert_eq!(a.sub(b), Err(FriError::FieldMismatch));
    assert_eq!(a.mul(b), Err(FriError::FieldMismatch));
    assert_eq!(a.div(b), Err(FriError::FieldMismatch));
    assert_eq!(f97.negate(b), Err(FriError::FieldMismatch));
    assert_eq!(f97.inverse(b), Err(FriError::FieldMismatch));
}

#[test]
fn division_by_zero_is_rejected() {
    let field = Field::new(97);
    let a = FieldElement::new(7, field);
    assert_eq!(a.div(field.zero()), Err(FriError::DivisionByZero));
    assert_eq!(field.zero().inverse(), Err(FriError::NotInvertible));
}

#[test]
fn non_invertible_in_composite_modulus() {
    let ring = Field::new(4);
    let two = FieldElement::new(2, ring);
    assert_eq!(two.inverse(), Err(FriError::NotInvertible));
    assert_eq!(FieldElement::new(1, ring).div(two), Err(FriError::NotInvertible));
}

#[test]
fn sample_reads_big_endian_unsigned() {
    let field = Field::new(97);
    assert_eq!(field.sample(vec![1, 0]).num, 256 % 97);
    assert_eq!(field.sample(vec![]).num, 0);
    let long = vec![0xffu8; 40];
    let mut expected: i128 = 0;
    for b in &long {
        expected = (expected * 256 + *b as i128) % 97;
    }
    assert_eq!(field.sample(long).num, expected);
}

#[test]
fn from_bytes_reads_unsigned_prefix() {
    let field = Field::new(97);
    assert_eq!(FieldElement::from_bytes(&[0, 0, 0, 0, 0, 0, 1, 0, 9], field).num, 62);
    // 2^64 - 1 modulo 97
    assert_eq!(FieldElement::from_bytes(&[0xff; 8], field).num, (u64::MAX % 97) as i128);
    // 2^63 modulo 3
    assert_eq!(FieldElement::from_bytes(&[0x80, 0, 0, 0, 0, 0, 0, 0], Field::new(3)).num, 2);
}

#[test]
fn generator_and_roots() {
    let field = Field::new(97);
    let g = field.generator();
    assert_eq!(g.num, 28);
    // 28 has multiplicative order 32 modulo 97
    assert_eq!(field.primitive_nth_root(g, 32, 2).unwrap().num, 96);
    assert_eq!(field.primitive_nth_root(g, 32, 4).unwrap().num, 22);
    assert_eq!(field.primitive_nth_root(g, 32, 32).unwrap().num, 28);
    assert_eq!(field.primitive_nth_root(g, 32, 1).unwrap().num, 1);
    assert_eq!(field.primitive_nth_root(g, 32, 3), Err(FriError::MalformedInput));
    assert_eq!(field.primitive_nth_root(g, 32, 0), Err(FriError::MalformedInput));
    // a wrong order is caught: 28^8 squared is -1, not 1
    assert_eq!(field.primitive_nth_root(g, 16, 2), Err(FriError::MalformedInput));
    assert_eq!(field.primitive_nth_root(g, 64, 64), Err(FriError::MalformedInput));
    let other = FieldElement::new(3, Field::new(101));
    assert_eq!(field.primitive_nth_root(other, 100, 2), Err(FriError::FieldMismatch));
}

#[test]
fn power_of_large_exponent() {
    let field = Field::new(97);
    let a = FieldElement::new(3, field);
    // Fermat: a^(p-1) == 1
    assert_eq!(a.pow(96), field.one());
    assert_eq!(a.pow(0), field.one());
    assert_eq!(FieldElement::new(28, field).pow(16).num, 96);
}
