use plonk_circuit::evaluations::{
    CustomEvaluations, LookupEvaluations, PermutationEvaluations, ProofEvaluations,
    WireEvaluations,
};
use plonk_circuit::field::Scalar;
use plonk_circuit::polynomial::Polynomial;

fn s(x: u64) -> Scalar {
    Scalar::from_u64(x)
}

fn poly(coeffs: &[u64]) -> Polynomial {
    Polynomial::from_coefficients_vec(coeffs.iter().map(|c| s(*c)).collect())
}

#[test]
fn polynomial_evaluates_by_its_coefficients() {
    let p = poly(&[3, 2, 0, 1]);
    assert_eq!(p.evaluate(&s(0)), s(3));
    assert_eq!(p.evaluate(&s(1)), s(6));
    assert_eq!(p.evaluate(&s(2)), s(15));
    assert_eq!(p.evaluate(&s(10)), s(1023));
    // 3 - 2 - 1 = 0
    assert_eq!(p.evaluate(&Scalar::one().neg()), Scalar::zero());
}

#[test]
fn zero_polynomial_evaluates_to_zero() {
    let p = poly(&[]);
    assert_eq!(p.len(), 0);
    assert_eq!(p.evaluate(&s(7)), Scalar::zero());
}

#[test]
fn from_coefficients_vec_drops_trailing_zeros() {
    assert_eq!(poly(&[1, 2, 0, 0]).coeffs, vec![s(1), s(2)]);
    assert_eq!(poly(&[0, 0, 0]).coeffs, Vec::<Scalar>::new());
    assert_eq!(poly(&[0, 0, 3]).coeffs, vec![s(0), s(0), s(3)]);
    assert_eq!(poly(&[4]).len(), 1);
}

#[test]
fn custom_evaluations_add_and_get() {
    let mut evals = CustomEvaluations::new();
    assert!(!evals.contains("q_c_eval"));
    evals.add("q_c_eval", poly(&[1, 1]), s(4));
    evals.add("q_l_eval", poly(&[0, 0, 1]), s(4));
    assert!(evals.contains("q_c_eval"));
    assert!(evals.contains("q_l_eval"));
    assert!(!evals.contains("q_r_eval"));
    assert_eq!(evals.get("q_c_eval"), s(5));
    assert_eq!(evals.get("q_l_eval"), s(16));
    assert_eq!(evals.vals.len(), 2);
    assert_eq!(evals.vals[0], ("q_c_eval".to_string(), s(5)));
}

#[test]
fn custom_evaluations_keep_the_first_value_of_a_label() {
    let mut evals = CustomEvaluations::new();
    evals.add("a_next_eval", poly(&[7]), s(1));
    evals.add("a_next_eval", poly(&[9]), s(1));
    assert_eq!(evals.vals.len(), 1);
    assert_eq!(evals.get("a_next_eval"), s(7));
}

#[test]
fn custom_evaluations_get_finds_the_first_entry() {
    let evals = CustomEvaluations {
        vals: vec![
            ("x".to_string(), s(1)),
            ("y".to_string(), s(2)),
            ("x".to_string(), s(3)),
        ],
    };
    assert_eq!(evals.get("x"), s(1));
    assert_eq!(evals.get("y"), s(2));
}

#[test]
fn proof_evaluations_hold_their_parts() {
    let wire_evals = WireEvaluations { a_eval: s(1), b_eval: s(2), c_eval: s(3), d_eval: s(4) };
    let perm_evals = PermutationEvaluations {
        left_sigma_eval: s(5),
        right_sigma_eval: s(6),
        out_sigma_eval: s(7),
        permutation_eval: s(8),
    };
    let lookup_evals = LookupEvaluations {
        q_lookup_eval: s(9),
        z2_next_eval: s(10),
        h1_eval: s(11),
        h1_next_eval: s(12),
        h2_eval: s(13),
        f_eval: s(14),
        table_eval: s(15),
        table_next_eval: s(16),
    };
    let evals = ProofEvaluations {
        wire_evals,
        perm_evals,
        lookup_evals,
        custom_evals: CustomEvaluations::new(),
    };
    let copy = evals.clone();
    assert_eq!(copy.wire_evals, wire_evals);
    assert_eq!(copy.perm_evals, perm_evals);
    assert_eq!(copy.lookup_evals, lookup_evals);
    assert!(copy.custom_evals.vals.is_empty());
    assert_ne!(wire_evals, WireEvaluations { a_eval: s(0), ..wire_evals });
}
