use ark_bls12_381::Fr;
use ark_ff::{BigInteger256, FftField, PrimeField};
use ark_poly::{EvaluationDomain as ArkDomain, GeneralEvaluationDomain};
use plonk_circuit::domain::{EvaluationDomain, TWO_ADICITY};
use plonk_circuit::field::Scalar;

fn to_fr(s: &Scalar) -> Fr {
    Fr::from_repr(BigInteger256(s.limbs())).unwrap()
}

fn power(base: &Scalar, exponent: usize) -> Scalar {
    let mut result = Scalar::one();
    for _ in 0..exponent {
        result = result.mul(base);
    }
    result
}

#[test]
fn domain_size_is_the_next_power_of_two() {
    assert_eq!(TWO_ADICITY, 32);
    let cases =
        [(0, 1, 0), (1, 1, 0), (2, 2, 1), (3, 4, 2), (4, 4, 2), (5, 8, 3), (1000, 1024, 10)];
    for (num_coeffs, size, log) in cases {
        let domain = EvaluationDomain::new(num_coeffs).unwrap();
        assert_eq!(domain.size(), size);
        assert_eq!(domain.log_size_of_group(), log);
        assert_eq!(GeneralEvaluationDomain::<Fr>::new(num_coeffs).unwrap().size(), size);
    }
}

#[test]
fn domain_beyond_the_two_adicity_does_not_exist() {
    assert!(EvaluationDomain::new((1usize << 32) + 1).is_none());
    assert!(EvaluationDomain::new(usize::MAX).is_none());
    assert!(GeneralEvaluationDomain::<Fr>::new((1usize << 32) + 1).is_none());
    let largest = EvaluationDomain::new(1usize << 32).unwrap();
    assert_eq!(largest.size(), 1usize << 32);
    assert_eq!(largest.log_size_of_group(), 32);
    assert_eq!(to_fr(&largest.group_gen()), Fr::two_adic_root_of_unity());
}

#[test]
fn generator_is_that_of_ark_and_has_the_order_of_the_domain() {
    for log in 0..6 {
        let size = 1usize << log;
        let domain = EvaluationDomain::new(size).unwrap();
        let generator = domain.group_gen();
        assert_eq!(to_fr(&generator), Fr::get_root_of_unity(size).unwrap());
        assert_eq!(to_fr(&generator), GeneralEvaluationDomain::<Fr>::new(size).unwrap().element(1));
        assert_eq!(power(&generator, size), Scalar::one());
        if size > 1 {
            assert_eq!(power(&generator, size / 2), Scalar::one().neg());
        }
    }
    assert_eq!(EvaluationDomain::new(1).unwrap().group_gen(), Scalar::one());
    assert_eq!(EvaluationDomain::new(2).unwrap().group_gen(), Scalar::one().neg());
}

#[test]
fn elements_are_the_powers_of_the_generator() {
    let domain = EvaluationDomain::new(8).unwrap();
    let roots = domain.elements();
    assert_eq!(roots.len(), 8);
    assert_eq!(roots[0], Scalar::one());
    assert_eq!(roots[1], domain.group_gen());
    for i in 1..8 {
        assert_eq!(roots[i], roots[i - 1].mul(&domain.group_gen()));
    }
    let ark: Vec<Fr> = GeneralEvaluationDomain::<Fr>::new(8).unwrap().elements().collect();
    for i in 0..8 {
        assert_eq!(to_fr(&roots[i]), ark[i]);
    }
}

#[test]
fn ifft_of_a_constant_is_the_constant_polynomial() {
    let domain = EvaluationDomain::new(4).unwrap();
    let five = Scalar::from_u64(5);
    let coeffs = domain.ifft(&vec![five, five, five, five]);
    assert_eq!(coeffs, vec![five, Scalar::zero(), Scalar::zero(), Scalar::zero()]);
}

#[test]
fn ifft_interpolates_the_evaluations() {
    let domain = EvaluationDomain::new(4).unwrap();
    let roots = domain.elements();
    // evaluations of 3 + 2 * x + x^3
    let evals: Vec<Scalar> = roots
        .iter()
        .map(|x| {
            Scalar::from_u64(3)
                .add(&Scalar::from_u64(2).mul(x))
                .add(&x.mul(x).mul(x))
        })
        .collect();
    let coeffs = domain.ifft(&evals);
    assert_eq!(
        coeffs,
        vec![Scalar::from_u64(3), Scalar::from_u64(2), Scalar::zero(), Scalar::one()]
    );
}

#[test]
fn ifft_pads_and_truncates_to_the_size_of_the_domain() {
    let domain = EvaluationDomain::new(4).unwrap();
    let one = Scalar::one();
    let short = domain.ifft(&vec![one]);
    let padded = domain.ifft(&vec![one, Scalar::zero(), Scalar::zero(), Scalar::zero()]);
    assert_eq!(short.len(), 4);
    assert_eq!(short, padded);
    let long = domain.ifft(&vec![one, one, one, one, one, one]);
    assert_eq!(long, vec![one, Scalar::zero(), Scalar::zero(), Scalar::zero()]);
}
