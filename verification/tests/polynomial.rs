use ark_bls12_381::Fr;
use ark_ff::{BigInteger256, PrimeField};
use ark_poly::univariate::DensePolynomial;
use ark_poly::{Polynomial as ArkPolynomial, UVPolynomial};
use plonk_circuit::field::Scalar;
use plonk_circuit::polynomial::Polynomial;

fn s(x: u64) -> Scalar {
    Scalar::from_u64(x)
}

fn poly(coeffs: &[u64]) -> Polynomial {
    Polynomial::from_coefficients_vec(coeffs.iter().map(|c| s(*c)).collect())
}

#[test]
fn sum_adds_coefficient_by_coefficient() {
    assert_eq!(poly(&[1, 2, 3]).add(&poly(&[10, 20])).coeffs, vec![s(11), s(22), s(3)]);
    assert_eq!(poly(&[10, 20]).add(&poly(&[1, 2, 3])).coeffs, vec![s(11), s(22), s(3)]);
    assert_eq!(poly(&[]).add(&poly(&[4, 5])).coeffs, vec![s(4), s(5)]);
    assert_eq!(poly(&[4, 5]).add(&poly(&[])).coeffs, vec![s(4), s(5)]);
    assert!(poly(&[]).add(&poly(&[])).coeffs.is_empty());
}

#[test]
fn sum_drops_the_terms_that_cancel() {
    let p = poly(&[1, 2, 3]);
    let minus_p = p.scale(&Scalar::one().neg());
    assert!(p.add(&minus_p).coeffs.is_empty());
    let q = Polynomial::from_coefficients_vec(vec![s(5), s(0), s(3).neg()]);
    assert_eq!(p.add(&q).coeffs, vec![s(6), s(2)]);
}

#[test]
fn scaling_multiplies_every_coefficient() {
    assert_eq!(poly(&[1, 2, 3]).scale(&s(5)).coeffs, vec![s(5), s(10), s(15)]);
    assert!(poly(&[1, 2, 3]).scale(&s(0)).coeffs.is_empty());
    assert!(poly(&[]).scale(&s(9)).coeffs.is_empty());
    assert_eq!(poly(&[0, 1]).scale(&Scalar::one().neg()).coeffs, vec![s(0), Scalar::one().neg()]);
}

#[test]
fn evaluation_is_compatible_with_sum_and_scaling() {
    let p = poly(&[3, 0, 7, 1]);
    let q = poly(&[9, 8]);
    let x = s(12);
    assert_eq!(p.add(&q).evaluate(&x), p.evaluate(&x).add(&q.evaluate(&x)));
    assert_eq!(p.scale(&s(6)).evaluate(&x), p.evaluate(&x).mul(&s(6)));
}

fn to_fr(s: &Scalar) -> Fr {
    Fr::from_repr(BigInteger256(s.limbs())).unwrap()
}

fn to_dense(p: &Polynomial) -> DensePolynomial<Fr> {
    DensePolynomial::from_coefficients_vec(p.coeffs.iter().map(to_fr).collect())
}

fn dense_coeffs(p: &Polynomial) -> Vec<Fr> {
    p.coeffs.iter().map(to_fr).collect()
}

#[test]
fn polynomial_agrees_with_the_dense_polynomial_of_ark() {
    let p = Polynomial::from_coefficients_vec(vec![s(3), s(0), s(7).neg(), s(1), s(0), s(0)]);
    let q = Polynomial::from_coefficients_vec(vec![s(9), s(8), s(7), s(1).neg()]);
    let k = s(12345).neg();
    let x = s(987654321);
    let (dp, dq) = (to_dense(&p), to_dense(&q));
    assert_eq!(dense_coeffs(&p), dp.coeffs);
    assert_eq!(to_fr(&p.evaluate(&x)), dp.evaluate(&to_fr(&x)));
    assert_eq!(dense_coeffs(&p.add(&q)), (&dp + &dq).coeffs);
    assert_eq!(dense_coeffs(&q.add(&p)), (&dq + &dp).coeffs);
    assert_eq!(dense_coeffs(&p.scale(&k)), (&dp * to_fr(&k)).coeffs);
    assert_eq!(dense_coeffs(&p.scale(&s(0))), (&dp * to_fr(&s(0))).coeffs);
    let zero = Polynomial::from_coefficients_vec(vec![]);
    assert_eq!(dense_coeffs(&zero.add(&p)), (&to_dense(&zero) + &dp).coeffs);
    assert_eq!(to_fr(&zero.evaluate(&x)), to_dense(&zero).evaluate(&to_fr(&x)));
}
