use plonk_circuit::domain::EvaluationDomain;
use plonk_circuit::field::Scalar;
use plonk_circuit::linearisation::{
    evaluate_proof, linearisation_polynomial, KeyPolynomials, ProverPolynomials,
};
use plonk_circuit::polynomial::Polynomial;

fn s(x: u64) -> Scalar {
    Scalar::from_u64(x)
}

fn poly(coeffs: &[u64]) -> Polynomial {
    Polynomial::from_coefficients_vec(coeffs.iter().map(|c| s(*c)).collect())
}

fn key() -> KeyPolynomials {
    KeyPolynomials {
        left_sigma: poly(&[1]),
        right_sigma: poly(&[2]),
        out_sigma: poly(&[3]),
        q_arith: poly(&[4]),
        q_c: poly(&[5]),
        q_l: poly(&[6]),
        q_r: poly(&[7]),
        q_hl: poly(&[8]),
        q_hr: poly(&[9]),
        q_h4: poly(&[10]),
        q_lookup: poly(&[11]),
    }
}

fn polys() -> ProverPolynomials {
    ProverPolynomials {
        w_l: poly(&[0, 1]),
        w_r: poly(&[0, 2]),
        w_o: poly(&[0, 3]),
        w_4: poly(&[0, 4]),
        z: poly(&[0, 5]),
        z2: poly(&[0, 6]),
        f: poly(&[0, 7]),
        h1: poly(&[0, 8]),
        h2: poly(&[0, 9]),
        table: poly(&[0, 10]),
    }
}

#[test]
fn proof_evaluations_at_the_challenge_and_at_the_next_row() {
    let domain = EvaluationDomain::new(4).unwrap();
    let z = s(100);
    let shifted = z.mul(&domain.group_gen());
    let evals = evaluate_proof(&domain, &key(), &polys(), &z);
    assert_eq!(evals.wire_evals.a_eval, s(100));
    assert_eq!(evals.wire_evals.b_eval, s(200));
    assert_eq!(evals.wire_evals.c_eval, s(300));
    assert_eq!(evals.wire_evals.d_eval, s(400));
    assert_eq!(evals.perm_evals.left_sigma_eval, s(1));
    assert_eq!(evals.perm_evals.right_sigma_eval, s(2));
    assert_eq!(evals.perm_evals.out_sigma_eval, s(3));
    assert_eq!(evals.perm_evals.permutation_eval, s(5).mul(&shifted));
    assert_eq!(evals.lookup_evals.q_lookup_eval, s(11));
    assert_eq!(evals.lookup_evals.z2_next_eval, s(6).mul(&shifted));
    assert_eq!(evals.lookup_evals.h1_eval, s(800));
    assert_eq!(evals.lookup_evals.h1_next_eval, s(8).mul(&shifted));
    assert_eq!(evals.lookup_evals.h2_eval, s(900));
    assert_eq!(evals.lookup_evals.f_eval, s(700));
    assert_eq!(evals.lookup_evals.table_eval, s(1000));
    assert_eq!(evals.lookup_evals.table_next_eval, s(10).mul(&shifted));
}

#[test]
fn custom_evaluations_carry_their_labels_in_order() {
    let domain = EvaluationDomain::new(4).unwrap();
    let z = s(100);
    let shifted = z.mul(&domain.group_gen());
    let evals = evaluate_proof(&domain, &key(), &polys(), &z);
    let expected = vec![
        ("q_arith_eval".to_string(), s(4)),
        ("q_c_eval".to_string(), s(5)),
        ("q_l_eval".to_string(), s(6)),
        ("q_r_eval".to_string(), s(7)),
        ("q_hl_eval".to_string(), s(8)),
        ("q_hr_eval".to_string(), s(9)),
        ("q_h4_eval".to_string(), s(10)),
        ("a_next_eval".to_string(), shifted),
        ("b_next_eval".to_string(), s(2).mul(&shifted)),
        ("d_next_eval".to_string(), s(4).mul(&shifted)),
    ];
    assert_eq!(evals.custom_evals.vals, expected);
    assert_eq!(evals.custom_evals.get("q_hr_eval"), s(9));
}

#[test]
fn linearisation_joins_the_quotient_parts_by_powers() {
    let t = [
        poly(&[1]),
        poly(&[2]),
        poly(&[3]),
        poly(&[4]),
        poly(&[5]),
        poly(&[6]),
        poly(&[7]),
        poly(&[8]),
    ];
    // 1 + 2 * 2 + 3 * 4 + 4 * 8 + 5 * 16 + 6 * 32 + 7 * 64 + 8 * 128 = 1793
    let result =
        linearisation_polynomial(&poly(&[1]), &poly(&[0, 1]), &poly(&[]), &t, &s(2), &s(3));
    assert_eq!(result.coeffs, vec![s(1).sub(&s(5379)), s(1)]);
}

#[test]
fn linearisation_keeps_the_degrees_of_the_parts() {
    let zero = poly(&[]);
    let t = [
        poly(&[0, 1]),
        poly(&[]),
        poly(&[]),
        poly(&[]),
        poly(&[]),
        poly(&[]),
        poly(&[]),
        poly(&[0, 0, 1]),
    ];
    // the last part is multiplied by 3^7 = 2187, and all by 10
    let result = linearisation_polynomial(&poly(&[4]), &zero, &poly(&[0, 10]), &t, &s(3), &s(10));
    assert_eq!(result.coeffs, vec![s(4), s(0), s(21870).neg()]);
}
