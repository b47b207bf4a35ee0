//! The parts of the quotient polynomial that rest on evaluations alone:
//! the evaluations of a polynomial over the coset of the large domain, and
//! the division of the summed terms by the vanishing polynomial.

use crate::domain::{coset_fft_values, coset_ifft_coeffs, EvaluationDomain};
use crate::field::{add_mod, inverse_mod, mul_mod, scalar_views, Scalar};
use crate::polynomial::{trimmed, Polynomial};
use vstd::prelude::*;

verus! {

/// The number of evaluations that are repeated at the end, so that the
/// evaluation at the next row can be read at every row.
pub const WRAP: usize = 8;

/// The evaluations followed by the first eight of them.
pub open spec fn wrapped(evals: Seq<nat>) -> Seq<nat> {
    evals + evals.take(WRAP as int)
}

/// The evaluations of the polynomial over the coset of the domain.
pub fn coset_evaluations(domain_8n: &EvaluationDomain, poly: &Polynomial) -> (evals: Vec<Scalar>)
    ensures
        scalar_views(evals@) == coset_fft_values(domain_8n.order(), poly@),
{
    domain_8n.coset_fft(&poly.coeffs)
}

/// The evaluations of the polynomial over the coset of the domain,
/// followed by the first eight of them once more.
pub fn wrapped_coset_evaluations(domain_8n: &EvaluationDomain, poly: &Polynomial) -> (evals: Vec<
    Scalar,
>)
    requires
        domain_8n.order() >= WRAP,
    ensures
        scalar_views(evals@) == wrapped(coset_fft_values(domain_8n.order(), poly@)),
{
    let mut evals = domain_8n.coset_fft(&poly.coeffs);
    let ghost values = scalar_views(evals@);
    let mut k: usize = 0;
    assert(scalar_views(evals@) =~= values + values.take(0));
    while k < WRAP
        invariant
            k <= WRAP,
            values.len() >= WRAP,
            evals@.len() == values.len() + k,
            scalar_views(evals@) == values + values.take(k as int),
        decreases WRAP - k,
    {
        let ghost before = scalar_views(evals@);
        let repeated = evals[k];
        assert(before[k as int] == evals@[k as int]@);
        evals.push(repeated);
        proof {
            let after = values + values.take(k + 1);
            assert forall|i: int| 0 <= i < after.len() implies scalar_views(evals@)[i]
                == after[i] by {
                if i < values.len() + k {
                    assert(before[i] == (values + values.take(k as int))[i]);
                }
            }
            assert(scalar_views(evals@) =~= after);
        }
        k += 1;
    }
    evals
}

/// The evaluations of the quotient polynomial over the coset of the
/// domain with `size` elements: at each element, the sum of the terms of
/// the gates, the permutation and the lookup, divided by the value of the
/// vanishing polynomial of the small domain.
pub open spec fn quotient_values(
    size: nat,
    gate_constraints: Seq<nat>,
    permutation: Seq<nat>,
    lookup: Seq<nat>,
    v_h_coset: Seq<nat>,
) -> Seq<nat> {
    Seq::new(
        size,
        |i: int|
            mul_mod(
                add_mod(add_mod(gate_constraints[i], permutation[i]), lookup[i]),
                inverse_mod(v_h_coset[i]),
            ),
    )
}

/// The quotient polynomial from its terms: the terms of the gates, the
/// permutation and the lookup are given by their evaluations over the
/// coset of the domain, and so is the vanishing polynomial of the small
/// domain, which is zero at no element of the coset. Their quotient is
/// interpolated by the inverse FFT over the coset.
pub fn quotient_polynomial(
    domain_8n: &EvaluationDomain,
    gate_constraints: &Vec<Scalar>,
    permutation: &Vec<Scalar>,
    lookup: &Vec<Scalar>,
    v_h_coset_8n: &Vec<Scalar>,
) -> (poly: Polynomial)
    requires
        gate_constraints@.len() >= domain_8n.order(),
        permutation@.len() >= domain_8n.order(),
        lookup@.len() >= domain_8n.order(),
        v_h_coset_8n@.len() >= domain_8n.order(),
        forall|i: int| 0 <= i < domain_8n.order() ==> (#[trigger] v_h_coset_8n@[i])@ != 0,
    ensures
        poly@ == trimmed(
            coset_ifft_coeffs(
                domain_8n.order(),
                quotient_values(
                    domain_8n.order(),
                    scalar_views(gate_constraints@),
                    scalar_views(permutation@),
                    scalar_views(lookup@),
                    scalar_views(v_h_coset_8n@),
                ),
            ),
        ),
{
    let size = domain_8n.size();
    let ghost target = quotient_values(
        size as nat,
        scalar_views(gate_constraints@),
        scalar_views(permutation@),
        scalar_views(lookup@),
        scalar_views(v_h_coset_8n@),
    );
    let mut quotient: Vec<Scalar> = Vec::with_capacity(size);
    let mut i: usize = 0;
    assert(scalar_views(quotient@) =~= target.take(0));
    while i < size
        invariant
            i <= size,
            size == domain_8n.order(),
            gate_constraints@.len() >= size,
            permutation@.len() >= size,
            lookup@.len() >= size,
            v_h_coset_8n@.len() >= size,
            forall|k: int| 0 <= k < size ==> (#[trigger] v_h_coset_8n@[k])@ != 0,
            target == quotient_values(
                size as nat,
                scalar_views(gate_constraints@),
                scalar_views(permutation@),
                scalar_views(lookup@),
                scalar_views(v_h_coset_8n@),
            ),
            quotient@.len() == i,
            scalar_views(quotient@) == target.take(i as int),
        decreases size - i,
    {
        let numerator = gate_constraints[i].add(&permutation[i]).add(&lookup[i]);
        let denominator = v_h_coset_8n[i];
        assert(v_h_coset_8n@[i as int]@ != 0);
        let inverse = denominator.inverse().unwrap();
        let ghost before = scalar_views(quotient@);
        quotient.push(numerator.mul(&inverse));
        proof {
            assert(scalar_views(gate_constraints@)[i as int] == gate_constraints@[i as int]@);
            assert(scalar_views(permutation@)[i as int] == permutation@[i as int]@);
            assert(scalar_views(lookup@)[i as int] == lookup@[i as int]@);
            assert(scalar_views(v_h_coset_8n@)[i as int] == v_h_coset_8n@[i as int]@);
            assert forall|k: int| 0 <= k < i + 1 implies scalar_views(quotient@)[k]
                == target.take(i + 1)[k] by {
                if k < i {
                    assert(before[k] == target.take(i as int)[k]);
                }
            }
            assert(scalar_views(quotient@) =~= target.take(i + 1));
        }
        i += 1;
    }
    assert(target.take(size as int) =~= target);
    Polynomial::from_coefficients_vec(domain_8n.coset_ifft(&quotient))
}

} // verus!
