use el_stark::error::Error;
use el_stark::field::field::Field;
use el_stark::field::field_element::FieldElement;
use el_stark::field::DEFAULT_PRIME;
use el_stark::poly::uni::Uni;

fn poly(field: &Field, coefficients: &[i128]) -> Uni {
    Uni::from(coefficients.iter().map(|c| FieldElement::from(*c, field)).collect())
}

fn elements(field: &Field, values: &[i128]) -> Vec<FieldElement> {
    values.iter().map(|v| FieldElement::from(*v, field)).collect()
}

fn raw(p: &Uni) -> Vec<i128> {
    p.coefficients.iter().map(|c| c.value).collect()
}

#[test]
fn create_univariate_polynomial() {
    let field = Field::new();
    let coefficients = vec![FieldElement::from(2, &field), FieldElement::from(3, &field)];

    let uni = Uni::from(coefficients);
    assert_eq!(uni.coefficients.len(), 2);
}

#[test]
fn get_polynomial_degree__1() {
    let coefficients = vec![];
    let uni = Uni::from(coefficients);
    assert_eq!(uni.degree(), -1);
}

#[test]
fn get_polynomial_degree() {
    let field = Field::new();
    let coefficients = vec![
        FieldElement::from(2, &field),
        FieldElement::from(3, &field),
        FieldElement::from(4, &field),
    ];
    let uni = Uni::from(coefficients);
    assert_eq!(uni.degree(), 2);
}

#[test]
fn polynomial_negation() {
    let field = Field::new();
    let coefficients = vec![
        FieldElement::from(2, &field),
        FieldElement::from(3, &field),
        FieldElement::from(4, &field),
    ];
    let uni = Uni::from(coefficients);
    let uni_neg = uni.neg();
    let uni_coefficients_length = uni.coefficients.len();
    for i in 0..uni_coefficients_length {
        assert_eq!(uni.coefficients[i], -uni_neg.coefficients[i])
    }
}

#[test]
fn polynomial_addition() {
    let field = Field::new();

    let uni_1 = Uni::from(vec![
        FieldElement::from(2, &field),
        FieldElement::from(3, &field),
        FieldElement::from(4, &field),
    ]);

    let uni_2 = Uni::from(vec![
        FieldElement::from(2, &field),
        FieldElement::from(3, &field),
        FieldElement::from(4, &field),
    ]);

    let uni_sum = uni_1 + uni_2;

    assert_eq!(
        uni_sum,
        Uni::from(vec![
            FieldElement::from(4, &field),
            FieldElement::from(6, &field),
            FieldElement::from(8, &field),
        ])
    );
}

#[test]
fn interpolate_domain() {
    let field = Field::new();
    let domain = vec![
        FieldElement::from(1, &field),
        FieldElement::from(2, &field),
        FieldElement::from(3, &field),
    ];

    let values = vec![
        FieldElement::from(1, &field),
        FieldElement::from(4, &field),
        FieldElement::from(9, &field),
    ];

    let uni = Uni::interpolate_domain(&domain, &values).unwrap();
    assert_eq!(
        uni,
        Uni::from(vec![
            FieldElement::from(0, &field),
            FieldElement::from(0, &field),
            FieldElement::from(1, &field),
        ])
    );
}

#[test]
fn interpolation_of_squares_is_x_squared() {
    let field = Field::new();
    let domain = elements(&field, &[1, 2, 3, 4]);
    let values = elements(&field, &[1, 4, 9, 16]);
    let uni = Uni::interpolate_domain(&domain, &values).unwrap();
    assert_eq!(raw(&uni), vec![0, 0, 1, 0]);
    assert_eq!(uni, poly(&field, &[0, 0, 1]));
    assert_eq!(uni.degree(), 2);
}

#[test]
fn interpolation_round_trip() {
    let field = Field::new();
    let domain = elements(&field, &[5, 17, 2, 900, DEFAULT_PRIME - 1, 33, 7]);
    let values = elements(&field, &[3, 1, 4, 1, 5, 9, 2]);
    let uni = Uni::interpolate_domain(&domain, &values).unwrap();
    assert_eq!(uni.coefficients.len(), 7);
    let back = uni.evaluate_domain(&domain);
    assert_eq!(back, values);
}

#[test]
fn interpolation_rejects_repeated_points() {
    let field = Field::new();
    let domain = elements(&field, &[1, 2, 1]);
    let values = elements(&field, &[1, 4, 9]);
    assert_eq!(Uni::interpolate_domain(&domain, &values), Err(Error::DuplicateDomain));
    assert!(Uni::has_duplicates(&domain));
    assert!(!Uni::has_duplicates(&elements(&field, &[1, 2, 3])));
}

#[test]
fn interpolation_in_composite_modulus_can_fail() {
    let ring = Field::from(15);
    let domain = elements(&ring, &[1, 4]);
    let values = elements(&ring, &[1, 2]);
    assert_eq!(Uni::interpolate_domain(&domain, &values), Err(Error::NotInvertible));
}

#[test]
fn interpolation_of_nothing() {
    let uni = Uni::interpolate_domain(&vec![], &vec![]).unwrap();
    assert_eq!(uni.coefficients.len(), 0);
}

#[test]
fn degree_ignores_trailing_zeros() {
    let field = Field::new();
    assert_eq!(poly(&field, &[1, 2, 0, 0]).degree(), 1);
    assert_eq!(poly(&field, &[0, 0, 0]).degree(), -1);
    assert!(poly(&field, &[0, 0]).is_zero());
    assert!(!poly(&field, &[0, 1]).is_zero());
    assert_eq!(poly(&field, &[3, 5, 0]).leading_coefficient().value, 5);
    assert_eq!(poly(&field, &[0, 0]).leading_coefficient().value, 0);
}

#[test]
fn equality_trims_trailing_zeros() {
    let field = Field::new();
    assert_eq!(poly(&field, &[1, 2, 0, 0]), poly(&field, &[1, 2]));
    assert_eq!(poly(&field, &[0, 0]), Uni::from(vec![]));
    assert_ne!(poly(&field, &[1, 2]), poly(&field, &[1, 3]));
    assert_ne!(poly(&field, &[1, 2]), poly(&field, &[1, 2, 1]));
}

#[test]
fn subtraction_and_scaling() {
    let field = Field::new();
    let a = poly(&field, &[5, 1]);
    let b = poly(&field, &[7, 1, 2]);
    assert_eq!(raw(&a.minus(&b)), vec![DEFAULT_PRIME - 2, 0, DEFAULT_PRIME - 2]);
    assert_eq!(raw(&(b.clone() - a.clone())), vec![2, 0, 2]);
    assert_eq!(raw(&a.plus(&b)), vec![12, 2, 2]);
    assert_eq!(raw(&b.scale(FieldElement::from(3, &field))), vec![21, 3, 6]);
    assert_eq!(raw(&Uni::from(vec![]).minus(&a)), vec![DEFAULT_PRIME - 5, DEFAULT_PRIME - 1]);
}

#[test]
fn multiplication() {
    let field = Field::new();
    let a = poly(&field, &[1, 1]);
    let b = poly(&field, &[DEFAULT_PRIME - 1, 1]);
    // (x + 1)(x - 1) = x^2 - 1
    assert_eq!(raw(&a.times(&b)), vec![DEFAULT_PRIME - 1, 0, 1]);
    assert_eq!(raw(&(a.clone() * a.clone())), vec![1, 2, 1]);
    assert_eq!(raw(&a.times(&Uni::from(vec![]))), Vec::<i128>::new());
    let c = poly(&field, &[2, 0, 3]);
    let d = poly(&field, &[1, 4]);
    assert_eq!(raw(&c.times(&d)), vec![2, 8, 3, 12]);
    assert_eq!(raw(&a.times_linear(FieldElement::from(1, &field))), vec![DEFAULT_PRIME - 1, 0, 1]);
}

#[test]
fn division_with_remainder() {
    let field = Field::new();
    // x^3 + 2x^2 + 3x + 4 = (x + 1)(x^2 + x + 2) + 2
    let a = poly(&field, &[4, 3, 2, 1]);
    let d = poly(&field, &[1, 1]);
    let (q, r) = a.true_division(&d).unwrap();
    assert_eq!(q, poly(&field, &[2, 1, 1]));
    assert_eq!(r, poly(&field, &[2]));
    assert!(r.degree() < d.degree());
    assert_eq!(q.times(&d).plus(&r), a);
    assert_eq!(a.clone() / d.clone(), poly(&field, &[2, 1, 1]));
    assert_eq!(a.clone() % d.clone(), poly(&field, &[2]));
}

#[test]
fn division_law_on_larger_inputs() {
    let field = Field::new();
    let a = poly(&field, &[9, 8, 7, 6, 5, 4, 3, 2, 1, 0, 0]);
    let d = poly(&field, &[3, 0, 5, 7, 0]);
    let (q, r) = a.true_division(&d).unwrap();
    assert!(r.degree() < d.degree());
    assert_eq!(q.times(&d).plus(&r), a);
    // a divisor of larger degree leaves the dividend as remainder
    let (q, r) = d.true_division(&a).unwrap();
    assert!(q.is_zero());
    assert_eq!(r, d);
}

#[test]
fn division_by_zero_is_refused() {
    let field = Field::new();
    let a = poly(&field, &[4, 3, 2, 1]);
    assert_eq!(a.true_division(&poly(&field, &[0, 0])), Err(Error::DivisionByZero));
    assert_eq!(a.true_division(&Uni::from(vec![])), Err(Error::DivisionByZero));
    let ring = Field::from(15);
    let b = poly(&ring, &[1, 2, 3]);
    assert_eq!(b.true_division(&poly(&ring, &[1, 5])), Err(Error::NotInvertible));
}

#[test]
fn evaluation_by_horner() {
    let field = Field::new();
    let f = poly(&field, &[4, 3, 2, 1]);
    assert_eq!(f.evaluate(FieldElement::from(0, &field)).value, 4);
    assert_eq!(f.evaluate(FieldElement::from(1, &field)).value, 10);
    assert_eq!(f.evaluate(FieldElement::from(2, &field)).value, 8 + 8 + 6 + 4);
    assert_eq!(Uni::from(vec![]).evaluate(FieldElement::from(5, &field)).value, 0);
    let values = f.evaluate_domain(&elements(&field, &[0, 1, 2]));
    assert_eq!(values.iter().map(|v| v.value).collect::<Vec<_>>(), vec![4, 10, 26]);
}

#[test]
fn zerofier_vanishes_on_its_domain() {
    let field = Field::new();
    let domain = elements(&field, &[3, 5, 11]);
    let z = Uni::zerofier_domain(&domain);
    assert_eq!(z.degree(), 3);
    assert_eq!(z.leading_coefficient().value, 1);
    for x in &domain {
        assert_eq!(z.evaluate(*x).value, 0);
    }
    assert_ne!(z.evaluate(FieldElement::from(4, &field)).value, 0);
    // (x - 3)(x - 5) = x^2 - 8x + 15
    let z2 = Uni::zerofier_domain(&elements(&field, &[3, 5]));
    assert_eq!(raw(&z2), vec![15, DEFAULT_PRIME - 8, 1]);
    assert_eq!(Uni::zerofier_domain(&vec![]).coefficients.len(), 0);
}

#[test]
fn colinearity() {
    let field = Field::new();
    let pt = |x: i128, y: i128| (FieldElement::from(x, &field), FieldElement::from(y, &field));
    // y = 3x + 2
    assert!(Uni::test_colinearity(&[pt(1, 5), pt(2, 8), pt(10, 32)]));
    assert!(Uni::test_colinearity(&[pt(10, 32), pt(1, 5), pt(2, 8)]));
    // each perturbation of one value fails
    assert!(!Uni::test_colinearity(&[pt(1, 6), pt(2, 8), pt(10, 32)]));
    assert!(!Uni::test_colinearity(&[pt(1, 5), pt(2, 9), pt(10, 32)]));
    assert!(!Uni::test_colinearity(&[pt(1, 5), pt(2, 8), pt(10, 31)]));
    assert!(!Uni::test_colinearity(&[pt(1, 5), pt(3, 8), pt(10, 32)]));
    // a line with negative slope, through residues
    assert!(Uni::test_colinearity(&[pt(0, 7), pt(1, 6), pt(9, -2)]));
}
