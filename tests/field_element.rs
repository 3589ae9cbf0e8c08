use finite_field::FieldElement;

#[test]
fn new_test() {
    let a = FieldElement::new(4, 19);
    assert_eq!(4, a.elem);
    assert_eq!(19, a.prime);
}

#[test]
fn add_test() {
    let a = FieldElement::new(7, 13);
    let b = FieldElement::new(12, 13);
    let expected = FieldElement::new(6, 13);
    assert_eq!(expected, a.add(b).unwrap());
}

#[test]
fn sub_test() {
    let a = FieldElement::new(6, 13);
    let b = FieldElement::new(12, 13);
    let expected = FieldElement::new(7, 13);
    assert_eq!(expected, a.sub(b).unwrap());
}

#[test]
fn mul_test() {
    let a = FieldElement::new(8, 19);
    let b = FieldElement::new(17, 19);
    let expected = FieldElement::new(3, 19);
    assert_eq!(expected, a.mul(b).unwrap());
}

#[test]
fn pow_test() {
    let a = FieldElement::new(9, 19);
    let expected = FieldElement::new(7, 19);
    assert_eq!(expected, a.pow(12));
}

#[test]
fn negative_pow_test() {
    // 3 ^ (-1) = 3 ^ (5 - 1 - 1) = 3 ^ 3 = 27 % 5 == 2
    let a = FieldElement::new(3, 5);
    let expected = FieldElement::new(2, 5);
    assert_eq!(expected, a.pow(-1));
}

#[test]
fn div_test() {
    let a = FieldElement::new(7, 19);
    let b = FieldElement::new(5, 19);
    let expected = FieldElement::new(9, 19);
    assert_eq!(expected, a.div(b).unwrap());
}
