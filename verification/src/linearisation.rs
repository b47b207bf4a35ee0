//! The parts of the linearisation polynomial that rest on the polynomials
//! of a proof alone: their evaluations at the challenge point, and the sum
//! that joins the terms of the gates, the permutation and the lookup with
//! the quotient.

use crate::domain::EvaluationDomain;
use crate::evaluations::{
    CustomEvaluations,
    LookupEvaluations,
    PermutationEvaluations,
    ProofEvaluations,
    WireEvaluations,
};
use crate::field::{add_mod, mul_mod, neg_mod, Scalar};
use crate::polynomial::{
    eval_at,
    lemma_eval_at_scaled,
    lemma_eval_at_sum,
    poly_scaled,
    poly_sum,
    sum_coeffs,
    Polynomial,
};
use vstd::prelude::*;

verus! {

/// The polynomials of the prover key that are evaluated for a proof.
pub struct KeyPolynomials {
    /// The sigma polynomial of the left wires.
    pub left_sigma: Polynomial,
    /// The sigma polynomial of the right wires.
    pub right_sigma: Polynomial,
    /// The sigma polynomial of the output wires.
    pub out_sigma: Polynomial,
    /// The selector of the arithmetic gates.
    pub q_arith: Polynomial,
    /// The selector of the constant terms.
    pub q_c: Polynomial,
    /// The selector of the left wires.
    pub q_l: Polynomial,
    /// The selector of the right wires.
    pub q_r: Polynomial,
    /// The selector of the high power of the left wires.
    pub q_hl: Polynomial,
    /// The selector of the high power of the right wires.
    pub q_hr: Polynomial,
    /// The selector of the high power of the fourth wires.
    pub q_h4: Polynomial,
    /// The selector of the lookup argument.
    pub q_lookup: Polynomial,
}

/// The polynomials that the prover has computed for a proof.
pub struct ProverPolynomials {
    /// The polynomial of the left wires.
    pub w_l: Polynomial,
    /// The polynomial of the right wires.
    pub w_r: Polynomial,
    /// The polynomial of the output wires.
    pub w_o: Polynomial,
    /// The polynomial of the fourth wires.
    pub w_4: Polynomial,
    /// The permutation polynomial.
    pub z: Polynomial,
    /// The permutation polynomial of the lookup argument.
    pub z2: Polynomial,
    /// The query polynomial.
    pub f: Polynomial,
    /// The first half of the sorted polynomial.
    pub h1: Polynomial,
    /// The second half of the sorted polynomial.
    pub h2: Polynomial,
    /// The table polynomial.
    pub table: Polynomial,
}

/// The wire polynomials at `z`.
pub open spec fn wire_evaluations(
    polys: &ProverPolynomials,
    z: nat,
    evals: WireEvaluations,
) -> bool {
    &&& evals.a_eval@ == eval_at(polys.w_l@, z)
    &&& evals.b_eval@ == eval_at(polys.w_r@, z)
    &&& evals.c_eval@ == eval_at(polys.w_o@, z)
    &&& evals.d_eval@ == eval_at(polys.w_4@, z)
}

/// The sigma polynomials at `z` and the permutation polynomial at
/// `shifted`.
pub open spec fn permutation_evaluations(
    key: &KeyPolynomials,
    polys: &ProverPolynomials,
    z: nat,
    shifted: nat,
    evals: PermutationEvaluations,
) -> bool {
    &&& evals.left_sigma_eval@ == eval_at(key.left_sigma@, z)
    &&& evals.right_sigma_eval@ == eval_at(key.right_sigma@, z)
    &&& evals.out_sigma_eval@ == eval_at(key.out_sigma@, z)
    &&& evals.permutation_eval@ == eval_at(polys.z@, shifted)
}

/// The polynomials of the lookup argument at `z` and at `shifted`.
pub open spec fn lookup_evaluations(
    key: &KeyPolynomials,
    polys: &ProverPolynomials,
    z: nat,
    shifted: nat,
    evals: LookupEvaluations,
) -> bool {
    &&& evals.q_lookup_eval@ == eval_at(key.q_lookup@, z)
    &&& evals.z2_next_eval@ == eval_at(polys.z2@, shifted)
    &&& evals.h1_eval@ == eval_at(polys.h1@, z)
    &&& evals.h1_next_eval@ == eval_at(polys.h1@, shifted)
    &&& evals.h2_eval@ == eval_at(polys.h2@, z)
    &&& evals.f_eval@ == eval_at(polys.f@, z)
    &&& evals.table_eval@ == eval_at(polys.table@, z)
    &&& evals.table_next_eval@ == eval_at(polys.table@, shifted)
}

/// The labelled evaluations: seven selectors at `z`, and the left, right
/// and fourth wire polynomial at `shifted`.
pub open spec fn custom_evaluations(
    key: &KeyPolynomials,
    polys: &ProverPolynomials,
    z: nat,
    shifted: nat,
) -> Seq<(Seq<char>, nat)> {
    seq![
        ("q_arith_eval"@, eval_at(key.q_arith@, z)),
        ("q_c_eval"@, eval_at(key.q_c@, z)),
        ("q_l_eval"@, eval_at(key.q_l@, z)),
        ("q_r_eval"@, eval_at(key.q_r@, z)),
        ("q_hl_eval"@, eval_at(key.q_hl@, z)),
        ("q_hr_eval"@, eval_at(key.q_hr@, z)),
        ("q_h4_eval"@, eval_at(key.q_h4@, z)),
        ("a_next_eval"@, eval_at(polys.w_l@, shifted)),
        ("b_next_eval"@, eval_at(polys.w_r@, shifted)),
        ("d_next_eval"@, eval_at(polys.w_4@, shifted)),
    ]
}

/// Evaluates the polynomials of a proof at the challenge `z_challenge`,
/// and those that are read at the next row at `z_challenge` times the
/// generator of the domain.
pub fn evaluate_proof(
    domain: &EvaluationDomain,
    key: &KeyPolynomials,
    polys: &ProverPolynomials,
    z_challenge: &Scalar,
) -> (evals: ProofEvaluations)
    ensures
        wire_evaluations(polys, z_challenge@, evals.wire_evals),
        permutation_evaluations(
            key,
            polys,
            z_challenge@,
            mul_mod(z_challenge@, domain.generator()),
            evals.perm_evals,
        ),
        lookup_evaluations(
            key,
            polys,
            z_challenge@,
            mul_mod(z_challenge@, domain.generator()),
            evals.lookup_evals,
        ),
        evals.custom_evals@ == custom_evaluations(
            key,
            polys,
            z_challenge@,
            mul_mod(z_challenge@, domain.generator()),
        ),
{
    let omega = domain.group_gen();
    let shifted_z_challenge = z_challenge.mul(&omega);
    let wire_evals = WireEvaluations {
        a_eval: polys.w_l.evaluate(z_challenge),
        b_eval: polys.w_r.evaluate(z_challenge),
        c_eval: polys.w_o.evaluate(z_challenge),
        d_eval: polys.w_4.evaluate(z_challenge),
    };
    let perm_evals = PermutationEvaluations {
        left_sigma_eval: key.left_sigma.evaluate(z_challenge),
        right_sigma_eval: key.right_sigma.evaluate(z_challenge),
        out_sigma_eval: key.out_sigma.evaluate(z_challenge),
        permutation_eval: polys.z.evaluate(&shifted_z_challenge),
    };
    let mut vals: Vec<(String, Scalar)> = Vec::with_capacity(10);
    vals.push(("q_arith_eval".to_owned(), key.q_arith.evaluate(z_challenge)));
    vals.push(("q_c_eval".to_owned(), key.q_c.evaluate(z_challenge)));
    vals.push(("q_l_eval".to_owned(), key.q_l.evaluate(z_challenge)));
    vals.push(("q_r_eval".to_owned(), key.q_r.evaluate(z_challenge)));
    vals.push(("q_hl_eval".to_owned(), key.q_hl.evaluate(z_challenge)));
    vals.push(("q_hr_eval".to_owned(), key.q_hr.evaluate(z_challenge)));
    vals.push(("q_h4_eval".to_owned(), key.q_h4.evaluate(z_challenge)));
    vals.push(("a_next_eval".to_owned(), polys.w_l.evaluate(&shifted_z_challenge)));
    vals.push(("b_next_eval".to_owned(), polys.w_r.evaluate(&shifted_z_challenge)));
    vals.push(("d_next_eval".to_owned(), polys.w_4.evaluate(&shifted_z_challenge)));
    let custom_evals = CustomEvaluations { vals };
    assert(custom_evals@ =~= custom_evaluations(
        key,
        polys,
        z_challenge@,
        mul_mod(z_challenge@, domain.generator()),
    ));
    let lookup_evals = LookupEvaluations {
        q_lookup_eval: key.q_lookup.evaluate(z_challenge),
        z2_next_eval: polys.z2.evaluate(&shifted_z_challenge),
        h1_eval: polys.h1.evaluate(z_challenge),
        h1_next_eval: polys.h1.evaluate(&shifted_z_challenge),
        h2_eval: polys.h2.evaluate(z_challenge),
        f_eval: polys.f.evaluate(z_challenge),
        table_eval: polys.table.evaluate(z_challenge),
        table_next_eval: polys.table.evaluate(&shifted_z_challenge),
    };
    ProofEvaluations { wire_evals, perm_evals, lookup_evals, custom_evals }
}

/// The quotient term of the linearisation polynomial: the eight parts of
/// the quotient polynomial, the `k`-th of them multiplied by the `k`-th
/// power of `z_to_n`, summed up and multiplied by `vanishing`.
pub open spec fn quotient_term(t: Seq<Seq<nat>>, z_to_n: nat, vanishing: nat) -> Seq<nat> {
    poly_scaled(joined_parts(t, z_to_n, 0), vanishing)
}

/// The parts of the quotient polynomial from part `k` on, joined by
/// Horner's rule in `z_to_n`: part `k`, plus `z_to_n` times what the parts
/// after it are joined to.
pub open spec fn joined_parts(t: Seq<Seq<nat>>, z_to_n: nat, k: nat) -> Seq<nat>
    decreases t.len() - k,
{
    if k + 1 >= t.len() {
        if k < t.len() {
            t[k as int]
        } else {
            Seq::empty()
        }
    } else {
        poly_sum(poly_scaled(joined_parts(t, z_to_n, k + 1), z_to_n), t[k as int])
    }
}

/// The value at `x` of what the parts of the quotient polynomial from part
/// `k` on are joined to: the value of part `k`, plus `z_to_n` times the
/// value of what the parts after it are joined to.
pub open spec fn joined_value(t: Seq<Seq<nat>>, z_to_n: nat, k: nat, x: nat) -> nat
    decreases t.len() - k,
{
    if k + 1 >= t.len() {
        if k < t.len() {
            eval_at(t[k as int], x)
        } else {
            0
        }
    } else {
        add_mod(mul_mod(joined_value(t, z_to_n, k + 1, x), z_to_n), eval_at(t[k as int], x))
    }
}

/// Joining the parts of the quotient polynomial and evaluating the result
/// is evaluating the parts and joining their values.
pub proof fn lemma_joined_value(t: Seq<Seq<nat>>, z_to_n: nat, k: nat, x: nat)
    ensures
        eval_at(joined_parts(t, z_to_n, k), x) == joined_value(t, z_to_n, k, x),
    decreases t.len() - k,
{
    if k + 1 >= t.len() {
    } else {
        let rest = joined_parts(t, z_to_n, k + 1);
        lemma_joined_value(t, z_to_n, k + 1, x);
        lemma_eval_at_scaled(rest, z_to_n, x);
        lemma_eval_at_sum(poly_scaled(rest, z_to_n), t[k as int], x);
    }
}

/// The value of the linearisation polynomial at `x`: the values of the
/// terms of the gates, the permutation and the lookup, less the value of
/// the vanishing polynomial times the joined values of the parts of the
/// quotient polynomial.
pub proof fn lemma_linearisation_value(
    gate_constraints: Seq<nat>,
    permutation: Seq<nat>,
    lookup: Seq<nat>,
    t: Seq<Seq<nat>>,
    z_to_n: nat,
    vanishing: nat,
    x: nat,
)
    ensures
        eval_at(
            poly_sum(
                poly_sum(poly_sum(gate_constraints, permutation), lookup),
                poly_scaled(quotient_term(t, z_to_n, vanishing), neg_mod(1)),
            ),
            x,
        ) == add_mod(
            add_mod(
                add_mod(eval_at(gate_constraints, x), eval_at(permutation, x)),
                eval_at(lookup, x),
            ),
            mul_mod(mul_mod(joined_value(t, z_to_n, 0, x), vanishing), neg_mod(1)),
        ),
{
    let terms = poly_sum(poly_sum(gate_constraints, permutation), lookup);
    let quotient = quotient_term(t, z_to_n, vanishing);
    lemma_eval_at_sum(gate_constraints, permutation, x);
    lemma_eval_at_sum(poly_sum(gate_constraints, permutation), lookup, x);
    lemma_joined_value(t, z_to_n, 0, x);
    lemma_eval_at_scaled(joined_parts(t, z_to_n, 0), vanishing, x);
    lemma_eval_at_scaled(quotient, neg_mod(1), x);
    lemma_eval_at_sum(terms, poly_scaled(quotient, neg_mod(1)), x);
}

/// The views of a sequence of polynomials.
pub open spec fn polynomial_views(polys: Seq<Polynomial>) -> Seq<Seq<nat>> {
    Seq::new(polys.len(), |k: int| polys[k]@)
}

/// The linearisation polynomial from its terms: the sum of the terms of
/// the gates, the permutation and the lookup, less the quotient term of the
/// eight parts `t_polys` of the quotient polynomial. `z_challenge_to_n` is
/// the power of the challenge by the order of the domain, and
/// `vanishing_poly_eval` the value of the vanishing polynomial at the
/// challenge.
pub fn linearisation_polynomial(
    gate_constraints: &Polynomial,
    permutation: &Polynomial,
    lookup: &Polynomial,
    t_polys: &[Polynomial; 8],
    z_challenge_to_n: &Scalar,
    vanishing_poly_eval: &Scalar,
) -> (poly: Polynomial)
    ensures
        poly@ == poly_sum(
            poly_sum(poly_sum(gate_constraints@, permutation@), lookup@),
            poly_scaled(
                quotient_term(polynomial_views(t_polys@), z_challenge_to_n@, vanishing_poly_eval@),
                neg_mod(1),
            ),
        ),
{
    let ghost t = polynomial_views(t_polys@);
    let mut joined = t_polys[6].add(&t_polys[7].scale(z_challenge_to_n));
    assert(joined@ == joined_parts(t, z_challenge_to_n@, 6)) by {
        assert(joined_parts(t, z_challenge_to_n@, 7) == t[7]);
        lemma_poly_sum_commutes(poly_scaled(t[7], z_challenge_to_n@), t[6]);
    }
    let mut k: usize = 6;
    while k > 0
        invariant
            k <= 6,
            t == polynomial_views(t_polys@),
            joined@ == joined_parts(t, z_challenge_to_n@, k as nat),
        decreases k,
    {
        k -= 1;
        proof {
            lemma_poly_sum_commutes(poly_scaled(joined@, z_challenge_to_n@), t[k as int]);
        }
        joined = t_polys[k].add(&joined.scale(z_challenge_to_n));
    }
    let quotient_term = joined.scale(vanishing_poly_eval);
    let negative_quotient_term = quotient_term.scale(&Scalar::one().neg());
    gate_constraints.add(permutation).add(lookup).add(&negative_quotient_term)
}

/// The sum of two polynomials does not depend on their order.
pub proof fn lemma_poly_sum_commutes(a: Seq<nat>, b: Seq<nat>)
    ensures
        poly_sum(a, b) == poly_sum(b, a),
{
    assert(sum_coeffs(a, b) =~= sum_coeffs(b, a));
}

} // verus!
