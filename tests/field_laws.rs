use finite_field::{FieldElement, MismatchedFieldError};

// The largest prime below 2^63.
const BIG: i64 = 9_223_372_036_854_775_783;

#[test]
fn every_result_is_a_canonical_residue() {
    let p: i64 = 13;
    for x in 0..p {
        for y in 0..p {
            let a = FieldElement::new(x, p);
            let b = FieldElement::new(y, p);
            let mut results = vec![a.add(b).unwrap(), a.sub(b).unwrap(), a.mul(b).unwrap()];
            if y != 0 {
                results.push(a.div(b).unwrap());
            }
            for r in results {
                assert_eq!(p, r.prime);
                assert!(0 <= r.elem && r.elem < p);
            }
        }
    }
}

#[test]
fn element_minus_itself_is_zero() {
    for x in 0..19 {
        let a = FieldElement::new(x, 19);
        assert_eq!(0, a.sub(a).unwrap().elem);
    }
}

#[test]
fn one_is_the_multiplicative_identity() {
    for x in 1..19 {
        let a = FieldElement::new(x, 19);
        assert_eq!(x, a.mul(FieldElement::new(1, 19)).unwrap().elem);
    }
}

#[test]
fn power_p_minus_two_inverts() {
    for x in 1..31 {
        let a = FieldElement::new(x, 31);
        assert_eq!(1, a.mul(a.pow(31 - 2)).unwrap().elem);
    }
}

#[test]
fn division_is_multiplication_by_power() {
    let a = FieldElement::new(11, 23);
    for y in 1..23 {
        let b = FieldElement::new(y, 23);
        assert_eq!(a.mul(b.pow(23 - 2)).unwrap(), a.div(b).unwrap());
    }
}

#[test]
fn minus_one_and_p_minus_two_agree() {
    for x in 0..17 {
        let a = FieldElement::new(x, 17);
        assert_eq!(a.pow(17 - 2), a.pow(-1));
    }
}

#[test]
fn mismatched_fields_are_rejected() {
    let a = FieldElement::new(3, 13);
    let b = FieldElement::new(3, 17);
    let e = MismatchedFieldError { left_prime: 13, right_prime: 17 };
    assert_eq!(Err(e), a.add(b));
    assert_eq!(Err(e), a.sub(b));
    assert_eq!(Err(e), a.mul(b));
    assert_eq!(Err(e), a.div(b));
    let back = MismatchedFieldError { left_prime: 17, right_prime: 13 };
    assert_eq!(Err(back), b.add(a));
}

#[test]
fn subtraction_wraps_below_zero() {
    let a = FieldElement::new(0, 7);
    let b = FieldElement::new(6, 7);
    assert_eq!(FieldElement::new(1, 7), a.sub(b).unwrap());
}

#[test]
fn zero_exponent_gives_one() {
    assert_eq!(FieldElement::new(1, 19), FieldElement::new(9, 19).pow(0));
    assert_eq!(FieldElement::new(1, 19), FieldElement::new(0, 19).pow(0));
}

#[test]
fn negative_exponents_are_reduced_modulo_group_order() {
    // 2^-3 = 2^(-3 mod 12) = 2^9 = 512 = 5 (mod 13)
    assert_eq!(FieldElement::new(5, 13), FieldElement::new(2, 13).pow(-3));
    // -12 is a multiple of the group order: the exponent becomes zero.
    assert_eq!(FieldElement::new(1, 13), FieldElement::new(2, 13).pow(-12));
    // The most negative exponent is reduced too: -2^63 = 4 (mod 12), and 2^4 = 3 (mod 13).
    assert_eq!(FieldElement::new(3, 13), FieldElement::new(2, 13).pow(i64::MIN));
}

#[test]
fn large_exponent_uses_repeated_squaring() {
    // 3^(10^18) = 3^36 = 246336683 (mod 10^9 + 7), as 10^18 = 36 modulo the group order 10^9 + 6.
    let a = FieldElement::new(3, 1_000_000_007);
    assert_eq!(FieldElement::new(246_336_683, 1_000_000_007), a.pow(1_000_000_000_000_000_000));
    assert_eq!(a.pow(36), a.pow(1_000_000_000_000_000_000));
}

#[test]
fn wide_values_do_not_overflow() {
    let minus_one = FieldElement::new(BIG - 1, BIG);
    assert_eq!(FieldElement::new(BIG - 2, BIG), minus_one.add(minus_one).unwrap());
    assert_eq!(FieldElement::new(1, BIG), minus_one.mul(minus_one).unwrap());
    assert_eq!(FieldElement::new(1, BIG), minus_one.sub(FieldElement::new(BIG - 2, BIG)).unwrap());
    assert_eq!(FieldElement::new(2, BIG), FieldElement::new(0, BIG).sub(FieldElement::new(BIG - 2, BIG)).unwrap());
    // (-1)^(p-2) = -1, since p - 2 is odd.
    assert_eq!(minus_one, minus_one.pow(BIG - 2));
    assert_eq!(FieldElement::new(1, BIG), minus_one.div(minus_one).unwrap());
}

#[test]
fn division_by_zero_is_not_checked() {
    let a = FieldElement::new(5, 19);
    let zero = FieldElement::new(0, 19);
    assert_eq!(zero, a.div(zero).unwrap());
    // With p = 2 the exponent p - 2 is zero, and 0^0 = 1.
    let one = FieldElement::new(1, 2);
    assert_eq!(one, one.div(FieldElement::new(0, 2)).unwrap());
}
