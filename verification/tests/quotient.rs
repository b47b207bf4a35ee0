use ark_bls12_381::Fr;
use ark_ff::{BigInteger256, PrimeField};
use ark_poly::{EvaluationDomain as ArkDomain, GeneralEvaluationDomain};
use plonk_circuit::domain::EvaluationDomain;
use plonk_circuit::error::Error;
use plonk_circuit::field::Scalar;
use plonk_circuit::polynomial::Polynomial;
use plonk_circuit::quotient::{coset_evaluations, quotient_polynomial, wrapped_coset_evaluations};

fn s(x: u64) -> Scalar {
    Scalar::from_u64(x)
}

fn poly(coeffs: &[u64]) -> Polynomial {
    Polynomial::from_coefficients_vec(coeffs.iter().map(|c| s(*c)).collect())
}

#[test]
fn vanishing_polynomial_agrees_with_ark() {
    for size in [1usize, 2, 8, 64] {
        let domain = EvaluationDomain::new(size).unwrap();
        let ark = GeneralEvaluationDomain::<Fr>::new(size).unwrap();
        for tau in [s(0), s(1), s(5), s(77).neg()] {
            let expected = ark.evaluate_vanishing_polynomial(
                Fr::from_repr(BigInteger256(tau.limbs())).unwrap(),
            );
            let value = domain.evaluate_vanishing_polynomial(&tau);
            assert_eq!(Fr::from_repr(BigInteger256(value.limbs())).unwrap(), expected);
        }
    }
}

#[test]
fn vanishing_polynomial_is_the_power_less_one() {
    let domain = EvaluationDomain::new(4).unwrap();
    assert_eq!(domain.evaluate_vanishing_polynomial(&s(2)), s(15));
    assert_eq!(domain.evaluate_vanishing_polynomial(&s(0)), Scalar::one().neg());
    for root in domain.elements().iter() {
        assert_eq!(domain.evaluate_vanishing_polynomial(root), Scalar::zero());
    }
    let unit = EvaluationDomain::new(1).unwrap();
    assert_eq!(unit.evaluate_vanishing_polynomial(&s(9)), s(8));
}

#[test]
fn quotient_domain_has_eight_times_the_elements() {
    let domain = EvaluationDomain::new(4).unwrap();
    let large = domain.quotient_domain().unwrap();
    assert_eq!(large.size(), 32);
    assert_eq!(large.log_size_of_group(), 5);
    assert_eq!(large, EvaluationDomain::new(32).unwrap());
}

#[test]
fn quotient_domain_beyond_the_two_adicity_is_an_error() {
    let domain = EvaluationDomain::new(1usize << 30).unwrap();
    assert_eq!(
        domain.quotient_domain(),
        Err(Error::InvalidEvalDomainSize { log_size_of_group: 33, adicity: 32 })
    );
    let domain = EvaluationDomain::new(1usize << 29).unwrap();
    assert_eq!(domain.quotient_domain().unwrap().log_size_of_group(), 32);
}

#[test]
fn coset_evaluations_are_the_values_on_the_coset() {
    let domain = EvaluationDomain::new(8).unwrap();
    let p = poly(&[5, 0, 2, 1]);
    let evals = coset_evaluations(&domain, &p);
    let roots = domain.elements();
    assert_eq!(evals.len(), 8);
    for i in 0..8 {
        assert_eq!(evals[i], p.evaluate(&s(7).mul(&roots[i])));
    }
}

#[test]
fn wrapped_coset_evaluations_repeat_the_first_eight() {
    let domain = EvaluationDomain::new(16).unwrap();
    let p = poly(&[1, 2, 3]);
    let plain = coset_evaluations(&domain, &p);
    let wrapped = wrapped_coset_evaluations(&domain, &p);
    assert_eq!(wrapped.len(), 24);
    assert_eq!(&wrapped[..16], &plain[..]);
    assert_eq!(&wrapped[16..], &plain[..8]);
}

#[test]
fn quotient_polynomial_divides_and_interpolates() {
    let domain = EvaluationDomain::new(8).unwrap();
    let q = poly(&[4, 3, 0, 9]);
    let values = coset_evaluations(&domain, &q);
    let v_h: Vec<Scalar> = (0..8).map(|i| s(2 + i)).collect();
    let gate: Vec<Scalar> = (0..8).map(|i| values[i].mul(&v_h[i]).sub(&s(10))).collect();
    let permutation: Vec<Scalar> = (0..8).map(|_| s(7)).collect();
    let lookup: Vec<Scalar> = (0..8).map(|_| s(3)).collect();
    let result = quotient_polynomial(&domain, &gate, &permutation, &lookup, &v_h);
    assert_eq!(result.coeffs, q.coeffs);
}

#[test]
fn quotient_polynomial_reads_only_the_evaluations_of_the_domain() {
    let domain = EvaluationDomain::new(8).unwrap();
    let q = poly(&[1, 1]);
    let values = wrapped_coset_evaluations(&domain, &q);
    let ones: Vec<Scalar> = (0..9).map(|_| Scalar::one()).collect();
    let zeros: Vec<Scalar> = (0..20).map(|_| Scalar::zero()).collect();
    let result = quotient_polynomial(&domain, &values, &zeros, &zeros, &ones);
    assert_eq!(result.coeffs, q.coeffs);
}
