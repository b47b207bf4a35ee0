//! Evaluation domains: the multiplicative subgroups of the scalar field
//! whose order is a power of two, over which polynomials are interpolated.
//!
//! The generator of a domain and the inverse FFT over a domain are computed
//! by `ark_ff` and `ark_poly`.

use crate::congruence::{
    lemma_congruent_mul,
    lemma_congruent_unique,
    lemma_mul_mod,
};
use crate::error::Error;
use crate::field::{modulus, mul_mod, scalar_views, sub_mod, Scalar};
use ark_bls12_381::Fr;
use ark_ff::{BigInteger256, FftField, PrimeField};
use ark_poly::domain::EvaluationDomain as DomainOps;
use ark_poly::GeneralEvaluationDomain;
use vstd::arithmetic::power2::{
    lemma2_to64,
    lemma_pow2_pos,
    lemma_pow2_strictly_increases,
    lemma_pow2_unfold,
    pow2,
};
use vstd::prelude::*;

verus! {

/// Two-adicity of the scalar field: the field has a subgroup of order `2^k`
/// for every `k` up to this number.
pub const TWO_ADICITY: u32 = 32;

/// The generator that `ark_ff` gives for the subgroup of the given order.
pub uninterp spec fn unity_root(size: nat) -> nat;

/// The coefficients that the inverse FFT of `ark_poly` over the domain of
/// the given order finds for the given evaluations.
pub uninterp spec fn ifft_coeffs(size: nat, evals: Seq<nat>) -> Seq<nat>;

/// The evaluations that the FFT of `ark_poly` over the coset of the domain
/// of the given order finds for the given coefficients.
pub uninterp spec fn coset_fft_values(size: nat, coeffs: Seq<nat>) -> Seq<nat>;

/// The coefficients that the inverse FFT of `ark_poly` over the coset of
/// the domain of the given order finds for the given evaluations.
pub uninterp spec fn coset_ifft_coeffs(size: nat, evals: Seq<nat>) -> Seq<nat>;

/// The number is `2^k` for a `k` up to the two-adicity of the field.
pub open spec fn is_domain_size(size: nat) -> bool {
    exists|k: nat| k <= TWO_ADICITY && size == #[trigger] pow2(k)
}

/// The power `base^exponent` in the field.
pub open spec fn pow_mod(base: nat, exponent: nat) -> nat
    decreases exponent,
{
    if exponent == 0 {
        1
    } else {
        mul_mod(pow_mod(base, (exponent - 1) as nat), base)
    }
}

/// Multiplication in the field is associative.
pub proof fn lemma_mul_mod_associative(a: nat, b: nat, c: nat)
    ensures
        mul_mod(mul_mod(a, b), c) == mul_mod(a, mul_mod(b, c)),
{
    lemma_mul_mod(a, b);
    lemma_mul_mod(b, c);
    lemma_mul_mod(mul_mod(a, b), c);
    lemma_mul_mod(a, mul_mod(b, c));
    lemma_congruent_mul(mul_mod(a, b) as int, (a * b) as int, c as int, c as int);
    lemma_congruent_mul(a as int, a as int, mul_mod(b, c) as int, (b * c) as int);
    assert((a * b) * c == a * (b * c)) by (nonlinear_arith);
    lemma_congruent_unique(
        mul_mod(mul_mod(a, b), c) as int,
        mul_mod(a, mul_mod(b, c)) as int,
    );
}

/// A power by a sum of exponents is the product of the powers.
pub proof fn lemma_pow_mod_adds(base: nat, e1: nat, e2: nat)
    requires
        base < modulus(),
    ensures
        pow_mod(base, e1 + e2) == mul_mod(pow_mod(base, e1), pow_mod(base, e2)),
    decreases e2,
{
    if e2 == 0 {
        lemma_pow_mod_reduced(base, e1);
        assert(pow_mod(base, e1) * 1 == pow_mod(base, e1));
    } else {
        lemma_pow_mod_adds(base, e1, (e2 - 1) as nat);
        lemma_mul_mod_associative(pow_mod(base, e1), pow_mod(base, (e2 - 1) as nat), base);
    }
}

/// A power of an element of the field is an element of the field.
pub proof fn lemma_pow_mod_reduced(base: nat, exponent: nat)
    ensures
        pow_mod(base, exponent) < modulus(),
{
    if exponent > 0 {
        lemma_mul_mod(pow_mod(base, (exponent - 1) as nat), base);
    }
}

/// The powers `g^0`, `g^1`, ..., `g^(count - 1)` in the field.
pub open spec fn powers(g: nat, count: nat) -> Seq<nat> {
    Seq::new(count, |i: int| pow_mod(g, i as nat))
}

/// A subgroup of the field of order `2^k`, with the generator that
/// `ark_ff` gives for it.
#[derive(Clone, Copy, Debug, PartialEq, Eq, Structural)]
pub struct EvaluationDomain {
    size: usize,
    log_size_of_group: u32,
    group_gen: Scalar,
}

impl EvaluationDomain {
    /// The order is `2^k` for the logarithm `k` that is stored, which is
    /// at most the two-adicity of the field, and the generator is that of
    /// `ark_ff`, with that order.
    #[verifier::type_invariant]
    closed spec fn inv(self) -> bool {
        &&& self.log_size_of_group <= TWO_ADICITY
        &&& self.size == pow2(self.log_size_of_group as nat)
        &&& self.group_gen@ == unity_root(self.size as nat)
        &&& pow_mod(self.group_gen@, self.size as nat) == 1
        &&& self.size > 1 ==> pow_mod(self.group_gen@, (self.size / 2) as nat) == modulus() - 1
    }

    /// The number of elements.
    pub closed spec fn order(&self) -> nat {
        self.size as nat
    }

    /// The binary logarithm of the number of elements.
    pub closed spec fn log_order(&self) -> nat {
        self.log_size_of_group as nat
    }

    /// The generator.
    pub closed spec fn generator(&self) -> nat {
        self.group_gen@
    }

    /// The smallest domain with at least `num_coeffs` elements. There is
    /// none where that takes more than `2^32` elements, or more than a
    /// `usize` counts.
    pub fn new(num_coeffs: usize) -> (r: Option<EvaluationDomain>)
        ensures
            match r {
                Some(domain) => {
                    &&& domain.order() >= num_coeffs
                    &&& domain.order() == pow2(domain.log_order())
                    &&& domain.log_order() <= TWO_ADICITY
                    &&& domain.log_order() > 0 ==> pow2((domain.log_order() - 1) as nat)
                        < num_coeffs
                    &&& domain.generator() == unity_root(domain.order())
                },
                None => forall|k: nat|
                    k <= TWO_ADICITY && pow2(k) <= usize::MAX ==> #[trigger] pow2(k) < num_coeffs,
            },
    {
        let mut size: usize = 1;
        let mut log: u32 = 0;
        proof {
            lemma2_to64();
        }
        while size < num_coeffs
            invariant
                size == pow2(log as nat),
                log <= TWO_ADICITY,
                log > 0 ==> pow2((log - 1) as nat) < num_coeffs,
            decreases TWO_ADICITY - log,
        {
            if log == TWO_ADICITY || size > usize::MAX / 2 {
                proof {
                    assert forall|k: nat|
                        k <= TWO_ADICITY && pow2(k) <= usize::MAX implies #[trigger] pow2(k)
                        < num_coeffs by {
                        if k < log {
                            lemma_pow2_strictly_increases(k, log as nat);
                        } else if k > log {
                            lemma_pow2_unfold((log + 1) as nat);
                            if k > log + 1 {
                                lemma_pow2_strictly_increases((log + 1) as nat, k);
                            }
                        }
                    }
                }
                return None;
            }
            proof {
                lemma_pow2_unfold((log + 1) as nat);
            }
            size = size * 2;
            log = log + 1;
        }
        assert(is_domain_size(size as nat)) by {
            assert(size == pow2(log as nat));
        }
        let group_gen = root_of_unity(size);
        Some(EvaluationDomain { size, log_size_of_group: log, group_gen })
    }

    /// The number of elements.
    pub fn size(&self) -> (n: usize)
        ensures
            n == self.order(),
            n == pow2(self.log_order()),
            self.log_order() <= TWO_ADICITY,
            n >= 1,
    {
        proof {
            use_type_invariant(self);
            lemma_pow2_pos(self.log_size_of_group as nat);
        }
        self.size
    }

    /// The binary logarithm of the number of elements.
    pub fn log_size_of_group(&self) -> (k: u32)
        ensures
            k == self.log_order(),
            k <= TWO_ADICITY,
            self.order() == pow2(k as nat),
    {
        proof {
            use_type_invariant(self);
        }
        self.log_size_of_group
    }

    /// The generator of the domain: an element whose powers are the
    /// elements of the domain, the power by the order being the first that
    /// is one.
    pub fn group_gen(&self) -> (g: Scalar)
        ensures
            g@ == self.generator(),
            g@ == unity_root(self.order()),
            pow_mod(g@, self.order()) == 1,
            self.order() > 1 ==> pow_mod(g@, self.order() / 2) == modulus() - 1,
    {
        proof {
            use_type_invariant(self);
        }
        self.group_gen
    }

    /// The elements of the domain: the powers of the generator, from the
    /// power by zero on.
    pub fn elements(&self) -> (roots: Vec<Scalar>)
        ensures
            scalar_views(roots@) == powers(self.generator(), self.order()),
    {
        let mut roots: Vec<Scalar> = Vec::with_capacity(self.size);
        let mut current = Scalar::one();
        let mut i: usize = 0;
        assert(scalar_views(roots@) =~= powers(self.generator(), 0));
        while i < self.size
            invariant
                i <= self.size,
                roots@.len() == i,
                current@ == pow_mod(self.generator(), i as nat),
                scalar_views(roots@) == powers(self.generator(), i as nat),
            decreases self.size - i,
        {
            let ghost before = roots@;
            roots.push(current);
            proof {
                let after = powers(self.generator(), (i + 1) as nat);
                assert forall|k: int| 0 <= k < i + 1 implies scalar_views(roots@)[k]
                    == after[k] by {
                    if k < i {
                        assert(scalar_views(before)[k] == powers(self.generator(), i as nat)[k]);
                        assert(roots@[k] == before[k]);
                    }
                }
                assert(scalar_views(roots@) =~= after);
            }
            current = current.mul(&self.group_gen);
            i += 1;
        }
        roots
    }

    /// The value of the vanishing polynomial of the domain at a point: the
    /// power of the point by the order of the domain, less one.
    pub fn evaluate_vanishing_polynomial(&self, tau: &Scalar) -> (value: Scalar)
        ensures
            value@ == sub_mod(pow_mod(tau@, self.order()), 1),
    {
        proof {
            use_type_invariant(self);
            lemma2_to64();
        }
        tau.reduced();
        let mut power = *tau;
        let mut k: u32 = 0;
        assert(pow_mod(tau@, 1) == tau@) by {
            assert(pow_mod(tau@, 0) == 1);
            assert(1 * tau@ == tau@);
        }
        while k < self.log_size_of_group
            invariant
                k <= self.log_size_of_group,
                tau@ < modulus(),
                power@ == pow_mod(tau@, pow2(k as nat)),
            decreases self.log_size_of_group - k,
        {
            proof {
                lemma_pow_mod_adds(tau@, pow2(k as nat), pow2(k as nat));
                lemma_pow2_unfold((k + 1) as nat);
            }
            power = power.mul(&power);
            k += 1;
        }
        power.sub(&Scalar::one())
    }

    /// The domain with eight times as many elements, over which the
    /// quotient polynomial is computed. Fails with `InvalidEvalDomainSize`
    /// where the field has no subgroup of that order, or a `usize` does
    /// not count that far.
    pub fn quotient_domain(&self) -> (r: Result<EvaluationDomain, Error>)
        ensures
            match r {
                Ok(domain) => {
                    &&& self.log_order() + 3 <= TWO_ADICITY
                    &&& 8 * self.order() <= usize::MAX
                    &&& domain.order() == 8 * self.order()
                    &&& domain.log_order() == self.log_order() + 3
                    &&& domain.generator() == unity_root(domain.order())
                },
                Err(e) => {
                    &&& self.log_order() + 3 > TWO_ADICITY || 8 * self.order() > usize::MAX
                    &&& e == (Error::InvalidEvalDomainSize {
                        log_size_of_group: (self.log_order() + 3) as u32,
                        adicity: TWO_ADICITY,
                    })
                },
            },
    {
        proof {
            use_type_invariant(self);
            lemma_pow2_unfold((self.log_size_of_group + 1) as nat);
            lemma_pow2_unfold((self.log_size_of_group + 2) as nat);
            lemma_pow2_unfold((self.log_size_of_group + 3) as nat);
        }
        let log = self.log_size_of_group + 3;
        if log > TWO_ADICITY || self.size > usize::MAX / 8 {
            return Err(
                Error::InvalidEvalDomainSize { log_size_of_group: log, adicity: TWO_ADICITY },
            );
        }
        let size = 8 * self.size;
        assert(is_domain_size(size as nat)) by {
            assert(size == pow2(log as nat));
        }
        let group_gen = root_of_unity(size);
        Ok(EvaluationDomain { size, log_size_of_group: log, group_gen })
    }

    /// The FFT over the coset of the domain: the values that `ark_poly`
    /// finds for the polynomial with the given coefficients at the elements
    /// of the domain, each multiplied by the generator of the multiplicative
    /// group of the field. Coefficients beyond the order of the domain are
    /// left out. There are as many values as the domain has elements.
    pub fn coset_fft(&self, coeffs: &Vec<Scalar>) -> (evals: Vec<Scalar>)
        ensures
            evals@.len() == self.order(),
            scalar_views(evals@) == coset_fft_values(self.order(), scalar_views(coeffs@)),
    {
        proof {
            use_type_invariant(self);
            assert(self.size == pow2(self.log_size_of_group as nat));
        }
        coset_forward_fft(self.size, coeffs)
    }

    /// The inverse FFT over the coset of the domain: the coefficients that
    /// `ark_poly` finds for the given values at the elements of the coset.
    /// Values beyond the order of the domain are left out, and missing ones
    /// count as zero. There are as many coefficients as the domain has
    /// elements.
    pub fn coset_ifft(&self, evals: &Vec<Scalar>) -> (coeffs: Vec<Scalar>)
        ensures
            coeffs@.len() == self.order(),
            scalar_views(coeffs@) == coset_ifft_coeffs(self.order(), scalar_views(evals@)),
    {
        proof {
            use_type_invariant(self);
            assert(self.size == pow2(self.log_size_of_group as nat));
        }
        coset_inverse_fft(self.size, evals)
    }

    /// The inverse FFT over the domain: the coefficients of the polynomial
    /// that `ark_poly` interpolates through the evaluations. Evaluations
    /// beyond the order of the domain are left out, and missing ones count
    /// as zero. There are as many coefficients as the domain has elements.
    pub fn ifft(&self, evals: &Vec<Scalar>) -> (coeffs: Vec<Scalar>)
        ensures
            coeffs@.len() == self.order(),
            scalar_views(coeffs@) == ifft_coeffs(self.order(), scalar_views(evals@)),
    {
        proof {
            use_type_invariant(self);
            assert(self.size == pow2(self.log_size_of_group as nat));
        }
        inverse_fft(self.size, evals)
    }
}

/// Calls `ark_ff::FftField::get_root_of_unity` for `ark_bls12_381::Fr`.
/// The contract claims that for a power of two up to `2^32` the call
/// returns an element, that this element depends on the order alone, and
/// that it has this order: its power by the order is one, and its power by
/// half the order is minus one. What is returned holds canonical limbs.
#[verifier::external_body]
fn root_of_unity(size: usize) -> (r: Scalar)
    requires
        is_domain_size(size as nat),
    ensures
        r@ == unity_root(size as nat),
        pow_mod(r@, size as nat) == 1,
        size > 1 ==> pow_mod(r@, (size / 2) as nat) == modulus() - 1,
{
    let z = Fr::get_root_of_unity(size).unwrap().into_repr().0;
    Scalar { l0: z[0], l1: z[1], l2: z[2], l3: z[3] }
}

/// Calls `ark_poly::EvaluationDomain::ifft` on the domain that
/// `ark_poly::GeneralEvaluationDomain::new` builds for `ark_bls12_381::Fr`
/// and the given order. The contract claims that for a power of two up to
/// `2^32` the domain exists, that the result has as many entries as the
/// domain has elements, and that it depends on the order and the
/// evaluations alone. By the invariant of `Scalar` the limbs
/// that are handed over are below the modulus, so their conversion
/// succeeds.
#[verifier::external_body]
fn inverse_fft(size: usize, evals: &Vec<Scalar>) -> (coeffs: Vec<Scalar>)
    requires
        is_domain_size(size as nat),
    ensures
        coeffs@.len() == size,
        scalar_views(coeffs@) == ifft_coeffs(size as nat, scalar_views(evals@)),
{
    let domain = GeneralEvaluationDomain::<Fr>::new(size).unwrap();
    let mut values: Vec<Fr> = Vec::with_capacity(evals.len());
    for s in evals.iter() {
        values.push(Fr::from_repr(BigInteger256([s.l0, s.l1, s.l2, s.l3])).unwrap());
    }
    let mut coeffs: Vec<Scalar> = Vec::with_capacity(values.len());
    for f in domain.ifft(&values).iter() {
        let z = f.into_repr().0;
        coeffs.push(Scalar { l0: z[0], l1: z[1], l2: z[2], l3: z[3] });
    }
    coeffs
}

/// Calls `ark_poly::EvaluationDomain::coset_fft` on the domain that
/// `ark_poly::GeneralEvaluationDomain::new` builds for `ark_bls12_381::Fr`
/// and the given order. The contract claims that for a power of two up to
/// `2^32` the domain exists, that the result has as many entries as the
/// domain has elements, and that it depends on the order and the
/// coefficients alone. By the invariant of `Scalar` the limbs
/// that are handed over are below the modulus, so their conversion
/// succeeds.
#[verifier::external_body]
fn coset_forward_fft(size: usize, coeffs: &Vec<Scalar>) -> (evals: Vec<Scalar>)
    requires
        is_domain_size(size as nat),
    ensures
        evals@.len() == size,
        scalar_views(evals@) == coset_fft_values(size as nat, scalar_views(coeffs@)),
{
    let domain = GeneralEvaluationDomain::<Fr>::new(size).unwrap();
    let mut values: Vec<Fr> = Vec::with_capacity(coeffs.len());
    for s in coeffs.iter() {
        values.push(Fr::from_repr(BigInteger256([s.l0, s.l1, s.l2, s.l3])).unwrap());
    }
    let mut evals: Vec<Scalar> = Vec::with_capacity(values.len());
    for f in domain.coset_fft(&values).iter() {
        let z = f.into_repr().0;
        evals.push(Scalar { l0: z[0], l1: z[1], l2: z[2], l3: z[3] });
    }
    evals
}

/// Calls `ark_poly::EvaluationDomain::coset_ifft` on the domain that
/// `ark_poly::GeneralEvaluationDomain::new` builds for `ark_bls12_381::Fr`
/// and the given order. The contract claims that for a power of two up to
/// `2^32` the domain exists, that the result has as many entries as the
/// domain has elements, and that it depends on the order and the
/// evaluations alone. By the invariant of `Scalar` the limbs
/// that are handed over are below the modulus, so their conversion
/// succeeds.
#[verifier::external_body]
fn coset_inverse_fft(size: usize, evals: &Vec<Scalar>) -> (coeffs: Vec<Scalar>)
    requires
        is_domain_size(size as nat),
    ensures
        coeffs@.len() == size,
        scalar_views(coeffs@) == coset_ifft_coeffs(size as nat, scalar_views(evals@)),
{
    let domain = GeneralEvaluationDomain::<Fr>::new(size).unwrap();
    let mut values: Vec<Fr> = Vec::with_capacity(evals.len());
    for s in evals.iter() {
        values.push(Fr::from_repr(BigInteger256([s.l0, s.l1, s.l2, s.l3])).unwrap());
    }
    let mut coeffs: Vec<Scalar> = Vec::with_capacity(values.len());
    for f in domain.coset_ifft(&values).iter() {
        let z = f.into_repr().0;
        coeffs.push(Scalar { l0: z[0], l1: z[1], l2: z[2], l3: z[3] });
    }
    coeffs
}

} // verus!
