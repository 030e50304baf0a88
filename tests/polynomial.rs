use frs_iopp::{fold_polynomial, Field, FieldElement, FriError, Polynomial};

fn poly(values: &[i128], field: Field) -> Polynomial {
    Polynomial::new(values.iter().map(|v| FieldElement::new(*v, field)).collect())
}

fn nums(p: &Polynomial) -> Vec<i128> {
    p.coeffs.iter().map(|c| c.num).collect()
}

#[test]
fn polynomial_evaluation() {
    let prime = 97;
    let field = Field::new(prime);
    let a = FieldElement::new(1, field);
    let b = FieldElement::new(2, field);
    let c = FieldElement::new(3, field);
    let poly = Polynomial::new(vec![a, b, c]);
    let res = poly.evaluate(FieldElement::new(5, field)).unwrap();

    assert_eq!(res.num, 86);
}

#[test]
fn polynomial_evaluation_domain() {
    let field = Field::new(97);
    let domain = vec![
        FieldElement::new(0, field),
        FieldElement::new(1, field),
        FieldElement::new(2, field),
    ];
    let a = FieldElement::new(1, field);
    let b = FieldElement::new(2, field);
    let c = FieldElement::new(3, field);
    let poly = Polynomial::new(vec![a, b, c]);

    let res = poly.evaluate_domain(&domain).unwrap();

    assert_eq!(res.len(), 3);
    assert_eq!(res[0], FieldElement::new(1, field));
    assert_eq!(res[1], FieldElement::new(6, field));
}

#[test]
fn folding_example_chain() {
    let field = Field::new(97);
    let p0 = poly(&[19, 56, 34, 48, 43, 37, 10, 0], field);
    let p1 = fold_polynomial(&p0, &FieldElement::new(12, field)).unwrap();
    assert_eq!(nums(&p1), vec![12, 28, 2, 10]);
    let p2 = fold_polynomial(&p1, &FieldElement::new(32, field)).unwrap();
    assert_eq!(nums(&p2), vec![35, 31]);
    let p3 = fold_polynomial(&p2, &FieldElement::new(64, field)).unwrap();
    assert_eq!(nums(&p3), vec![79]);
}

#[test]
fn folding_halves_coefficient_count() {
    let field = Field::new(97);
    for k in 0..10usize {
        let values: Vec<i128> = (0..2 * k as i128).collect();
        let p = poly(&values, field);
        let folded = fold_polynomial(&p, &FieldElement::new(33, field)).unwrap();
        assert_eq!(folded.coeffs.len(), k);
    }
    // an odd count keeps the last even coefficient
    let odd = fold_polynomial(&poly(&[1, 2, 3], field), &FieldElement::new(10, field)).unwrap();
    assert_eq!(nums(&odd), vec![21, 3]);
}

#[test]
fn folding_matches_even_odd_split() {
    let field = Field::new(97);
    let p = poly(&[5, 7, 11, 13, 17], field);
    let beta = FieldElement::new(9, field);
    let folded = fold_polynomial(&p, &beta).unwrap();
    for x in 1..20 {
        let x = FieldElement::new(x, field);
        let y = x.mul(x).unwrap();
        let fx = p.evaluate(x).unwrap();
        let fnx = p.evaluate(x.neg()).unwrap();
        // f(x) + f(-x) = 2 f_even(x^2), f(x) - f(-x) = 2 x f_odd(x^2)
        let two = FieldElement::new(2, field);
        let even = fx.add(fnx).unwrap().div(two).unwrap();
        let odd = fx.sub(fnx).unwrap().div(two.mul(x).unwrap()).unwrap();
        let expected = even.add(beta.mul(odd).unwrap()).unwrap();
        assert_eq!(folded.evaluate(y).unwrap(), expected);
    }
}

#[test]
fn mismatched_polynomial_fields() {
    let f97 = Field::new(97);
    let f101 = Field::new(101);
    let p = poly(&[1, 2, 3], f97);
    assert_eq!(p.evaluate(FieldElement::new(5, f101)).unwrap_err(), FriError::FieldMismatch);
    assert_eq!(p.evaluate_domain(&vec![FieldElement::new(5, f101)]).unwrap_err(), FriError::FieldMismatch);
    assert_eq!(fold_polynomial(&p, &FieldElement::new(5, f101)).unwrap_err(), FriError::FieldMismatch);
    // an empty polynomial evaluates to zero in any field
    assert_eq!(Polynomial::new(vec![]).evaluate(FieldElement::new(5, f101)).unwrap().num, 0);
}

#[test]
fn degree_of_polynomials() {
    let field = Field::new(97);
    assert_eq!(poly(&[1, 2, 0], field).degree(), 1);
    assert_eq!(poly(&[0, 0], field).degree(), -1);
    assert_eq!(poly(&[], field).degree(), -1);
    assert_eq!(poly(&[4], field).degree(), 0);
}
