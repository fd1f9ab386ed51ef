use el_stark::field::field::Field;
use el_stark::field::field_element::FieldElement;
use el_stark::field::DEFAULT_PRIME;
use el_stark::poly::multi::{find, pad, pair_sums_fit, Exponents, MPolynomial};
use el_stark::poly::uni::Uni;

fn entry(field: &Field, exponents: &[i32], coefficient: i128) -> (Exponents, FieldElement) {
    (Exponents(exponents.to_vec()), FieldElement::from(coefficient, field))
}

fn raw(p: &MPolynomial) -> Vec<(Vec<i32>, i128)> {
    p.dictionary.iter().map(|(k, v)| (k.0.clone(), v.value)).collect()
}

fn point(field: &Field, values: &[i128]) -> Vec<FieldElement> {
    values.iter().map(|v| FieldElement::from(*v, field)).collect()
}

#[test]
fn dictionary_keeps_one_entry_for_each_monomial() {
    let field = Field::new();
    let p = MPolynomial::new(vec![
        entry(&field, &[1, 0], 3),
        entry(&field, &[0, 1], 4),
        entry(&field, &[1, 0], 5),
    ]);
    assert_eq!(raw(&p), vec![(vec![1, 0], 5), (vec![0, 1], 4)]);
    assert_eq!(find(&p.dictionary, &vec![0, 1]), 1);
    assert_eq!(find(&p.dictionary, &vec![2, 2]), 2);
}

#[test]
fn zero_constant_and_variables() {
    let field = Field::new();
    assert!(MPolynomial::zero().is_zero());
    assert_eq!(MPolynomial::zero().dictionary.len(), 0);
    let c = MPolynomial::constant(FieldElement::from(9, &field));
    assert_eq!(raw(&c), vec![(vec![0], 9)]);
    assert!(!c.is_zero());
    assert!(MPolynomial::constant(field.zero()).is_zero());
    let vars = MPolynomial::variables(3, field.one());
    assert_eq!(vars.len(), 3);
    assert_eq!(raw(&vars[0]), vec![(vec![1, 0, 0], 1)]);
    assert_eq!(raw(&vars[2]), vec![(vec![0, 0, 1], 1)]);
    assert_eq!(MPolynomial::variables(0, field.one()).len(), 0);
}

#[test]
fn padding_of_exponents() {
    let p = MPolynomial::zero();
    assert_eq!(p.pad_exponents(&Exponents(vec![1, 2]), 4), Exponents(vec![1, 2, 0, 0]));
    assert_eq!(p.pad_exponents(&Exponents(vec![1, 2, 3]), 2), Exponents(vec![1, 2]));
    assert_eq!(pad(&vec![], 2), vec![0, 0]);
}

#[test]
fn evaluation_at_a_point() {
    let field = Field::new();
    // 2 x^2 y + 3 z + 5
    let p = MPolynomial::new(vec![
        entry(&field, &[2, 1, 0], 2),
        entry(&field, &[0, 0, 1], 3),
        entry(&field, &[0, 0, 0], 5),
    ]);
    let at = point(&field, &[3, 4, 10]);
    assert_eq!(p.evaluate(&at).value, 2 * 9 * 4 + 30 + 5);
    assert_eq!(MPolynomial::zero().evaluate(&at).value, 0);
    let symbolic = p.evaluate_symbolic(&at);
    assert_eq!(raw(&symbolic), vec![(vec![2, 1, 0], 72), (vec![0, 0, 1], 30), (vec![0, 0, 0], 5)]);
}

#[test]
fn negation_and_difference() {
    let field = Field::new();
    let p = MPolynomial::new(vec![entry(&field, &[1], 2), entry(&field, &[0], 0)]);
    assert_eq!(raw(&p.negated()), vec![(vec![1], DEFAULT_PRIME - 2), (vec![0], 0)]);
    let d = p.minus(&p);
    assert!(d.is_zero());
    assert_eq!(raw(&d), vec![(vec![1], 0), (vec![0], 0)]);
    assert!((-p.clone() + p).is_zero());
}

#[test]
fn sum_pads_and_merges() {
    let field = Field::new();
    // x + 1 in one variable, y + 2 x in two
    let a = MPolynomial::new(vec![entry(&field, &[1], 1), entry(&field, &[0], 1)]);
    let b = MPolynomial::new(vec![entry(&field, &[0, 1], 1), entry(&field, &[1, 0], 2)]);
    let sum = a.plus(&b);
    assert_eq!(raw(&sum), vec![(vec![1, 0], 3), (vec![0, 0], 1), (vec![0, 1], 1)]);
    let at = point(&field, &[5, 7]);
    assert_eq!(sum.evaluate(&at), a.evaluate(&at) + b.evaluate(&at));
    assert_eq!(raw(&(a.clone() + MPolynomial::zero())), raw(&a));
    assert_eq!(raw(&MPolynomial::zero().plus(&a)), raw(&a));
}

#[test]
fn product_adds_exponents() {
    let field = Field::new();
    // (x + y)(x - y) = x^2 - y^2
    let a = MPolynomial::new(vec![entry(&field, &[1, 0], 1), entry(&field, &[0, 1], 1)]);
    let b = MPolynomial::new(vec![entry(&field, &[1, 0], 1), entry(&field, &[0, 1], -1)]);
    let product = a.times(&b);
    assert_eq!(
        raw(&product),
        vec![(vec![2, 0], 1), (vec![1, 1], 0), (vec![0, 2], DEFAULT_PRIME - 1)]
    );
    let at = point(&field, &[11, 3]);
    assert_eq!(product.evaluate(&at).value, 121 - 9);
    assert_eq!(product.evaluate(&at), a.evaluate(&at) * b.evaluate(&at));
    assert_eq!(raw(&(a.clone() * MPolynomial::zero())), vec![]);
}

#[test]
fn multivariate_power() {
    let field = Field::new();
    let a = MPolynomial::new(vec![entry(&field, &[1, 0], 1), entry(&field, &[0, 1], 2)]);
    assert_eq!(raw(&a.pow(0)), vec![(vec![0], 1)]);
    let at = point(&field, &[5, 7]);
    for e in 0..7u32 {
        assert_eq!(a.pow(e).evaluate(&at), a.evaluate(&at).pow(e));
    }
    assert_eq!(raw(&a.pow(2)), vec![(vec![2, 0], 1), (vec![1, 1], 4), (vec![0, 2], 4)]);
    let zero = MPolynomial::new(vec![entry(&field, &[1], 0)]);
    assert_eq!(zero.pow(3).dictionary.len(), 0);
    assert_eq!(MPolynomial::zero().pow(0).dictionary.len(), 0);
}

#[test]
fn lift_of_a_univariate_polynomial() {
    let field = Field::new();
    let f = Uni::from(point(&field, &[4, 3, 2]));
    let lifted = Uni::lift(&f, 1);
    assert_eq!(raw(&lifted), vec![(vec![0, 0], 4), (vec![0, 1], 3), (vec![0, 2], 2)]);
    let at = point(&field, &[100, 6]);
    assert_eq!(lifted.evaluate(&at), f.evaluate(at[1]));
    assert_eq!(raw(&Uni::lift(&f, 0)), vec![(vec![0], 4), (vec![1], 3), (vec![2], 2)]);
}

#[test]
fn exponents_that_do_not_fit() {
    let field = Field::new();
    let big = MPolynomial::new(vec![entry(&field, &[i32::MAX, 1], 1)]);
    let small = MPolynomial::new(vec![entry(&field, &[0, 1], 1)]);
    let one_more = MPolynomial::new(vec![entry(&field, &[1], 1)]);
    assert!(big.exponents_fit(&small));
    assert!(!big.exponents_fit(&one_more));
    assert!(!one_more.exponents_fit(&big));
    assert!(pair_sums_fit(&vec![1, 2], &vec![3]));
    assert!(!pair_sums_fit(&vec![i32::MIN], &vec![-1]));
    assert!(big.checked_pow(1).is_some());
    assert!(big.checked_pow(2).is_none());
    let x = MPolynomial::new(vec![entry(&field, &[1 << 20], 1)]);
    assert_eq!(raw(&x.checked_pow(1024).unwrap()), vec![(vec![1 << 30], 1)]);
    assert!(x.checked_pow(2048).is_none());
    assert_eq!(raw(&small.checked_pow(3).unwrap()), raw(&small.pow(3)));
}
