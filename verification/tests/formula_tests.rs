use el_stark::field::field::Field;
use el_stark::field::field_element::FieldElement;
use el_stark::field::{mul_mod, power, reduce, xgcd_field, DEFAULT_PRIME};
use el_stark::fri::prover::{codeword_leaves, codeword_wire, fold};
use el_stark::fri::Fri;
use el_stark::merkle::{is_power_of_two, Merkle};
use el_stark::poly::uni::{all_valid, clone_elements, zeros, Uni};
use el_stark::proof_object::ProofObject;
use el_stark::proof_stream::ProofStream;

fn poly(field: &Field, coefficients: &[i128]) -> Uni {
    Uni::from(coefficients.iter().map(|c| FieldElement::from(*c, field)).collect())
}

fn raw(p: &Uni) -> Vec<i128> {
    p.coefficients.iter().map(|c| c.value).collect()
}

#[test]
fn reduce_is_euclidean() {
    assert_eq!(reduce(7, 5), 2);
    assert_eq!(reduce(-7, 5), 3);
    assert_eq!(reduce(-5, 5), 0);
    assert_eq!(reduce(0, 5), 0);
    assert_eq!(reduce(i128::MIN, 7), i128::MIN.rem_euclid(7));
    assert_eq!(reduce(i128::MAX, 7), i128::MAX % 7);
}

#[test]
fn mul_mod_uses_the_wide_product() {
    let top: i128 = 18446744073709551615;
    assert_eq!(mul_mod(top, top, top), 0);
    assert_eq!(mul_mod(top, top, 1000), ((top as u128 * top as u128) % 1000) as i128);
    assert_eq!(mul_mod(3, 4, 5), 2);
}

#[test]
fn power_by_squaring() {
    assert_eq!(power(3, 0, 7), 1);
    assert_eq!(power(3, 0, 1), 0);
    assert_eq!(power(0, 5, 7), 0);
    assert_eq!(power(3, 6, 7), 1);
    assert_eq!(power(-2, 3, 7), 6);
    assert_eq!(power(2, u128::MAX, 3), 2);
    assert_eq!(power(7, (DEFAULT_PRIME - 1) as u128 / 2, DEFAULT_PRIME), DEFAULT_PRIME - 1);
}

#[test]
fn xgcd_field_reduces_the_coefficients() {
    let (g, s, t) = xgcd_field(240, 46, 97);
    assert_eq!(g, 2);
    assert!(0 <= s && s < 97 && 0 <= t && t < 97);
    assert_eq!((s * 240 + t * 46) % 97, 2);
    let (g, s, _) = xgcd_field(3, DEFAULT_PRIME, DEFAULT_PRIME);
    assert_eq!(g, 1);
    assert_eq!(mul_mod(3, s, DEFAULT_PRIME), 1);
}

#[test]
fn polynomial_power() {
    let field = Field::new();
    let a = poly(&field, &[1, 1]);
    assert_eq!(raw(&a.pow(0)), vec![1]);
    assert_eq!(raw(&a.pow(1)), vec![1, 1]);
    assert_eq!(raw(&a.pow(2)), vec![1, 2, 1]);
    assert_eq!(raw(&a.pow(5)), vec![1, 5, 10, 10, 5, 1]);
    let c = poly(&field, &[3]);
    assert_eq!(raw(&c.pow(4)), vec![81]);
    // the value of a power is the power of the value
    let b = poly(&field, &[2, 0, 7]);
    let x = FieldElement::from(11, &field);
    assert_eq!(b.pow(6).evaluate(x), b.evaluate(x).pow(6));
}

#[test]
fn helpers_of_polynomials() {
    let field = Field::new();
    let z = zeros(&field, 3);
    assert_eq!(z.iter().map(|e| e.value).collect::<Vec<_>>(), vec![0, 0, 0]);
    let v = vec![FieldElement::from(4, &field), FieldElement::from(9, &field)];
    assert_eq!(clone_elements(&v), v);
}

#[test]
fn leaves_and_wire_values_of_a_codeword() {
    let field = Field::new();
    let codeword = vec![FieldElement::from(258, &field), FieldElement::from(1, &field)];
    let leaves = codeword_leaves(&codeword);
    assert_eq!(leaves.len(), 2);
    assert_eq!(leaves[0], 258i128.to_be_bytes().to_vec());
    assert_eq!(leaves[1], 1i128.to_be_bytes().to_vec());
    assert_eq!(codeword_wire(&codeword), vec![258u128, 1]);
}

#[test]
fn first_fold_follows_the_formula() {
    let field = Field::new();
    let n = 16;
    let omega = field.primitive_nth_root(n as i128).unwrap();
    let offset = FieldElement::from(7, &field);
    let fri = Fri::new(offset, omega, n, 2, 1);
    assert_eq!(fri.num_rounds(), 2);
    let f = poly(&field, &[5, 0, 1, 9]);
    let codeword = f.evaluate_domain(&fri.eval_domain());

    let mut stream = ProofStream::new();
    let codewords = fri.commit(codeword.clone(), &mut stream).unwrap();
    assert_eq!(codewords.len(), 2);

    // the challenge is drawn from the transcript that holds the first root
    let mut seen = ProofStream::new();
    seen.push(&ProofObject::Root(Merkle::commit(&codeword_leaves(&codeword))));
    let alpha = field.sample(seen.prover_fiat_shamir(32));

    let one = field.one();
    let half = field.inverse(FieldElement::from(2, &field)).unwrap();
    for i in 0..n / 2 {
        let x = offset * omega.pow(i as u32);
        let t = alpha / x;
        let expected = half * ((one + t) * codeword[i] + (one - t) * codeword[n / 2 + i]);
        assert_eq!(codewords[1][i], expected);
    }
    // the folded codeword is the evaluation of f_even + alpha * f_odd on the squares
    let g = poly(&field, &[5, 1]).plus(&poly(&field, &[0, 9]).scale(alpha));
    for i in 0..n / 2 {
        let x = offset * omega.pow(i as u32);
        assert_eq!(codewords[1][i], g.evaluate(x * x));
    }
    // the last codeword stands in the transcript after the two roots
    assert_eq!(stream.len(), 3);
    stream.pull().unwrap();
    assert_eq!(field.sample(stream.verifier_fiat_shamir(32)), alpha);
}

#[test]
fn fold_of_a_constant_codeword_is_constant() {
    let field = Field::new();
    let omega = field.primitive_nth_root(8).unwrap();
    let fri = Fri::new(FieldElement::from(7, &field), omega, 8, 2, 1);
    let coset = fri.first_coset().unwrap();
    let codeword = vec![FieldElement::from(42, &field); 8];
    let folded = fold(&codeword, FieldElement::from(12345, &field), &coset);
    assert_eq!(folded, vec![FieldElement::from(42, &field); 4]);
    let next = coset.squared();
    assert_eq!(next.offset.value, 49);
    assert_eq!(next.omega, omega * omega);
    assert_eq!((next.offset * next.offset_inverse).value, 1);
}

#[test]
fn default_field_is_the_goldilocks_field() {
    assert_eq!(DEFAULT_PRIME, (1i128 << 64) - (1i128 << 32) + 1);
    let field = Field::new();
    assert_eq!(field.p, DEFAULT_PRIME);
    assert_eq!(Field::from(97).p, 97);
    assert_eq!(field.zero().value, 0);
    assert_eq!(field.one().value, 1);
    assert_eq!(field.negate(field.zero()).value, 0);
    assert_eq!(field.sub(field.zero(), field.one()).value, DEFAULT_PRIME - 1);
    assert_eq!(field.add(FieldElement::from(-1, &field), field.one()).value, 0);
}

#[test]
fn validity_checks() {
    let field = Field::new();
    assert!(field.is_valid());
    assert!(!Field::from(1).is_valid());
    assert!(!Field::from(-7).is_valid());
    assert!(Field::from(18446744073709551615).is_valid());
    assert!(!Field::from(18446744073709551616).is_valid());
    assert!(FieldElement::from(5, &field).is_valid());
    assert!(!FieldElement { value: DEFAULT_PRIME, field }.is_valid());
    assert!(!FieldElement { value: -1, field }.is_valid());
    let good = vec![FieldElement::from(1, &field), FieldElement::from(2, &field)];
    assert!(all_valid(&good, &field));
    assert!(!all_valid(&good, &Field::from(97)));
    let mixed = vec![FieldElement::from(1, &field), FieldElement::from(2, &Field::from(97))];
    assert!(!all_valid(&mixed, &field));
    assert!(Uni::from(good).is_valid());
    assert!(!Uni::from(mixed).is_valid());
    assert!(Uni::from(vec![]).is_valid());
}

#[test]
fn powers_of_two() {
    assert!(!is_power_of_two(0));
    assert!(is_power_of_two(1));
    assert!(is_power_of_two(2));
    assert!(!is_power_of_two(3));
    assert!(is_power_of_two(64));
    assert!(!is_power_of_two(96));
    assert!(is_power_of_two(1usize << 40));
    assert!(!is_power_of_two(usize::MAX));
}

#[test]
fn readiness_of_a_configuration() {
    let field = Field::new();
    let omega = field.primitive_nth_root(64).unwrap();
    let offset = FieldElement::from(7, &field);
    assert!(Fri::new(offset, omega, 64, 4, 4).is_ready());
    // no round
    assert!(!Fri::new(offset, omega, 4, 4, 4).is_ready());
    // no power of two
    assert!(!Fri::new(offset, omega, 96, 4, 4).is_ready());
    // no expansion
    assert!(!Fri::new(offset, omega, 64, 0, 4).is_ready());
    // an offset that is no residue
    let bad = FieldElement { value: -3, field };
    assert!(!Fri::new(bad, omega, 64, 4, 4).is_ready());
}
