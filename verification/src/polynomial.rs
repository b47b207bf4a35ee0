//! Polynomials over the scalar field in coefficient form.

use crate::congruence::{
    congruent,
    lemma_add_mod,
    lemma_congruent_add,
    lemma_congruent_mul,
    lemma_congruent_reduce,
    lemma_congruent_unique,
    lemma_mul_mod,
};
use crate::field::{add_mod, modulus, mul_mod, scalar_views, Scalar};
use vstd::prelude::*;

verus! {

/// The value of the polynomial with the given coefficients at `x`, over
/// the integers: `coeffs[0] + coeffs[1] * x + coeffs[2] * x^2 + ...`.
pub open spec fn eval_sum(coeffs: Seq<nat>, x: nat) -> nat
    decreases coeffs.len(),
{
    if coeffs.len() == 0 {
        0
    } else {
        coeffs[0] + x * eval_sum(coeffs.drop_first(), x)
    }
}

/// The value of the polynomial with the given coefficients at `x`, in the
/// field.
pub open spec fn eval_at(coeffs: Seq<nat>, x: nat) -> nat {
    eval_sum(coeffs, x) % modulus()
}

/// The coefficients without the zeros at their end.
pub open spec fn trimmed(coeffs: Seq<nat>) -> Seq<nat>
    decreases coeffs.len(),
{
    if coeffs.len() == 0 {
        coeffs
    } else if coeffs.last() == 0 {
        trimmed(coeffs.drop_last())
    } else {
        coeffs
    }
}

/// Coefficient `i` of the polynomial with the given coefficients: zero
/// beyond their end.
pub open spec fn coeff(coeffs: Seq<nat>, i: int) -> nat {
    if 0 <= i < coeffs.len() {
        coeffs[i]
    } else {
        0
    }
}

/// The coefficients of the sum of two polynomials, as many as the longer
/// of the two has.
pub open spec fn sum_coeffs(a: Seq<nat>, b: Seq<nat>) -> Seq<nat> {
    Seq::new(
        if a.len() >= b.len() {
            a.len()
        } else {
            b.len()
        },
        |i: int| add_mod(coeff(a, i), coeff(b, i)),
    )
}

/// The coefficients of a polynomial multiplied by the field element `k`.
pub open spec fn scaled_coeffs(a: Seq<nat>, k: nat) -> Seq<nat> {
    Seq::new(a.len(), |i: int| mul_mod(a[i], k))
}

/// The sum of two polynomials, without zeros at the end.
pub open spec fn poly_sum(a: Seq<nat>, b: Seq<nat>) -> Seq<nat> {
    trimmed(sum_coeffs(a, b))
}

/// The product of a polynomial and a field element, without zeros at the
/// end.
pub open spec fn poly_scaled(a: Seq<nat>, k: nat) -> Seq<nat> {
    trimmed(scaled_coeffs(a, k))
}

/// A zero at the end of the coefficients does not change the value.
pub proof fn lemma_eval_push_zero(coeffs: Seq<nat>, x: nat)
    ensures
        eval_sum(coeffs.push(0), x) == eval_sum(coeffs, x),
    decreases coeffs.len(),
{
    let longer = coeffs.push(0);
    if coeffs.len() == 0 {
        assert(longer.drop_first() =~= Seq::<nat>::empty());
        assert(eval_sum(longer.drop_first(), x) == 0);
        assert(x * 0 == 0);
    } else {
        assert(longer.drop_first() =~= coeffs.drop_first().push(0));
        lemma_eval_push_zero(coeffs.drop_first(), x);
    }
}

/// Dropping the zeros at the end of the coefficients does not change the
/// value.
pub proof fn lemma_eval_trimmed(coeffs: Seq<nat>, x: nat)
    ensures
        eval_sum(trimmed(coeffs), x) == eval_sum(coeffs, x),
    decreases coeffs.len(),
{
    if coeffs.len() > 0 && coeffs.last() == 0 {
        assert(coeffs =~= coeffs.drop_last().push(0));
        lemma_eval_push_zero(coeffs.drop_last(), x);
        lemma_eval_trimmed(coeffs.drop_last(), x);
    }
}

/// The coefficients after the first, and none for no coefficients.
pub open spec fn tail(coeffs: Seq<nat>) -> Seq<nat> {
    if coeffs.len() == 0 {
        coeffs
    } else {
        coeffs.drop_first()
    }
}

/// The value of a polynomial is its constant term plus `x` times the value
/// of the polynomial of its other coefficients.
pub proof fn lemma_eval_unfold(coeffs: Seq<nat>, x: nat)
    ensures
        eval_sum(coeffs, x) == coeff(coeffs, 0) + x * eval_sum(tail(coeffs), x),
{
    if coeffs.len() == 0 {
        assert(x * 0 == 0);
    }
}

/// The value of the sum of two polynomials is congruent to the sum of
/// their values.
pub proof fn lemma_eval_sum(a: Seq<nat>, b: Seq<nat>, x: nat)
    ensures
        congruent(eval_sum(sum_coeffs(a, b), x) as int, (eval_sum(a, x) + eval_sum(b, x)) as int),
    decreases a.len() + b.len(),
{
    let s = sum_coeffs(a, b);
    if a.len() == 0 && b.len() == 0 {
    } else {
        let rest = sum_coeffs(tail(a), tail(b));
        assert(s.drop_first() =~= rest);
        lemma_eval_sum(tail(a), tail(b), x);
        lemma_eval_unfold(a, x);
        lemma_eval_unfold(b, x);
        let a0 = coeff(a, 0);
        let b0 = coeff(b, 0);
        let ea = eval_sum(tail(a), x);
        let eb = eval_sum(tail(b), x);
        lemma_add_mod(a0, b0);
        lemma_congruent_mul(x as int, x as int, eval_sum(rest, x) as int, (ea + eb) as int);
        lemma_congruent_add(
            s[0] as int,
            (a0 + b0) as int,
            (x * eval_sum(rest, x)) as int,
            (x * (ea + eb)) as int,
        );
        assert((a0 + b0) + x * (ea + eb) == (a0 + x * ea) + (b0 + x * eb)) by (nonlinear_arith);
    }
}

/// The value of a polynomial multiplied by a field element is congruent to
/// the value of the polynomial times the element.
pub proof fn lemma_eval_scaled(a: Seq<nat>, k: nat, x: nat)
    ensures
        congruent(eval_sum(scaled_coeffs(a, k), x) as int, (eval_sum(a, x) * k) as int),
    decreases a.len(),
{
    let s = scaled_coeffs(a, k);
    if a.len() == 0 {
        assert(0 * k == 0);
    } else {
        let rest = scaled_coeffs(a.drop_first(), k);
        assert(s.drop_first() =~= rest);
        lemma_eval_scaled(a.drop_first(), k, x);
        let ea = eval_sum(a.drop_first(), x);
        lemma_mul_mod(a[0], k);
        lemma_congruent_mul(x as int, x as int, eval_sum(rest, x) as int, (ea * k) as int);
        lemma_congruent_add(
            s[0] as int,
            (a[0] * k) as int,
            (x * eval_sum(rest, x)) as int,
            (x * (ea * k)) as int,
        );
        assert(a[0] * k + x * (ea * k) == (a[0] + x * ea) * k) by (nonlinear_arith);
    }
}

/// Evaluation is compatible with the sum: the value of the sum of two
/// polynomials is the sum of their values in the field.
pub proof fn lemma_eval_at_sum(a: Seq<nat>, b: Seq<nat>, x: nat)
    ensures
        eval_at(poly_sum(a, b), x) == add_mod(eval_at(a, x), eval_at(b, x)),
{
    lemma_eval_trimmed(sum_coeffs(a, b), x);
    lemma_eval_sum(a, b, x);
    lemma_congruent_reduce(eval_sum(a, x) as int);
    lemma_congruent_reduce(eval_sum(b, x) as int);
    lemma_congruent_add(
        eval_at(a, x) as int,
        eval_sum(a, x) as int,
        eval_at(b, x) as int,
        eval_sum(b, x) as int,
    );
}

/// Evaluation is compatible with scaling: the value of a polynomial
/// multiplied by a field element is its value times the element in the
/// field.
pub proof fn lemma_eval_at_scaled(a: Seq<nat>, k: nat, x: nat)
    ensures
        eval_at(poly_scaled(a, k), x) == mul_mod(eval_at(a, x), k),
{
    lemma_eval_trimmed(scaled_coeffs(a, k), x);
    lemma_eval_scaled(a, k, x);
    lemma_congruent_reduce(eval_sum(a, x) as int);
    lemma_congruent_mul(eval_at(a, x) as int, eval_sum(a, x) as int, k as int, k as int);
}

/// A polynomial by its coefficients, the constant term first.
#[derive(Clone, Debug)]
pub struct Polynomial {
    /// Entry `i` is the coefficient of the `i`-th power.
    pub coeffs: Vec<Scalar>,
}

impl View for Polynomial {
    type V = Seq<nat>;

    open spec fn view(&self) -> Seq<nat> {
        scalar_views(self.coeffs@)
    }
}

impl Polynomial {
    /// The polynomial with the given coefficients. Zeros at the end of the
    /// coefficients are dropped, so that the last coefficient, if there is
    /// one, is not zero.
    pub fn from_coefficients_vec(coeffs: Vec<Scalar>) -> (poly: Polynomial)
        ensures
            poly@ == trimmed(scalar_views(coeffs@)),
    {
        let mut coeffs = coeffs;
        let ghost given = scalar_views(coeffs@);
        loop
            invariant
                trimmed(scalar_views(coeffs@)) == trimmed(given),
            ensures
                scalar_views(coeffs@) == trimmed(given),
            decreases coeffs@.len(),
        {
            let len = coeffs.len();
            if len == 0 {
                break ;
            }
            if !coeffs[len - 1].is_zero() {
                assert(scalar_views(coeffs@).last() == coeffs@[len - 1]@);
                break ;
            }
            let ghost before = scalar_views(coeffs@);
            assert(before.last() == coeffs@[len - 1]@);
            coeffs.pop();
            assert(scalar_views(coeffs@) =~= before.drop_last());
        }
        Polynomial { coeffs }
    }

    /// The sum of this polynomial and the other.
    pub fn add(&self, other: &Polynomial) -> (sum: Polynomial)
        ensures
            sum@ == poly_sum(self@, other@),
    {
        let len = if self.coeffs.len() >= other.coeffs.len() {
            self.coeffs.len()
        } else {
            other.coeffs.len()
        };
        let mut coeffs: Vec<Scalar> = Vec::with_capacity(len);
        let mut i: usize = 0;
        let ghost target = sum_coeffs(self@, other@);
        assert(scalar_views(coeffs@) =~= target.take(0));
        while i < len
            invariant
                i <= len,
                len == target.len(),
                target == sum_coeffs(self@, other@),
                coeffs@.len() == i,
                scalar_views(coeffs@) == target.take(i as int),
            decreases len - i,
        {
            let left = if i < self.coeffs.len() {
                self.coeffs[i]
            } else {
                Scalar::zero()
            };
            let right = if i < other.coeffs.len() {
                other.coeffs[i]
            } else {
                Scalar::zero()
            };
            let ghost before = scalar_views(coeffs@);
            coeffs.push(left.add(&right));
            proof {
                assert(scalar_views(self.coeffs@).len() == self.coeffs@.len());
                assert(scalar_views(other.coeffs@).len() == other.coeffs@.len());
                assert(left@ == coeff(self@, i as int));
                assert(right@ == coeff(other@, i as int));
                assert forall|k: int| 0 <= k < i + 1 implies scalar_views(coeffs@)[k]
                    == target.take(i + 1)[k] by {
                    if k < i {
                        assert(before[k] == target.take(i as int)[k]);
                    }
                }
                assert(scalar_views(coeffs@) =~= target.take(i + 1));
            }
            i += 1;
        }
        assert(target.take(len as int) =~= target);
        Polynomial::from_coefficients_vec(coeffs)
    }

    /// The product of this polynomial and the field element.
    pub fn scale(&self, k: &Scalar) -> (product: Polynomial)
        ensures
            product@ == poly_scaled(self@, k@),
    {
        let len = self.coeffs.len();
        let mut coeffs: Vec<Scalar> = Vec::with_capacity(len);
        let mut i: usize = 0;
        let ghost target = scaled_coeffs(self@, k@);
        assert(scalar_views(coeffs@) =~= target.take(0));
        assert(scalar_views(self.coeffs@).len() == self.coeffs@.len());
        while i < len
            invariant
                i <= len,
                len == self.coeffs@.len(),
                len == target.len(),
                target == scaled_coeffs(self@, k@),
                coeffs@.len() == i,
                scalar_views(coeffs@) == target.take(i as int),
            decreases len - i,
        {
            let ghost before = scalar_views(coeffs@);
            coeffs.push(self.coeffs[i].mul(k));
            proof {
                assert(scalar_views(self.coeffs@)[i as int] == self.coeffs@[i as int]@);
                assert forall|j: int| 0 <= j < i + 1 implies scalar_views(coeffs@)[j]
                    == target.take(i + 1)[j] by {
                    if j < i {
                        assert(before[j] == target.take(i as int)[j]);
                    }
                }
                assert(scalar_views(coeffs@) =~= target.take(i + 1));
            }
            i += 1;
        }
        assert(target.take(len as int) =~= target);
        Polynomial::from_coefficients_vec(coeffs)
    }

    /// The number of coefficients.
    pub fn len(&self) -> (n: usize)
        ensures
            n == self@.len(),
    {
        self.coeffs.len()
    }

    /// The value of the polynomial at the point, in the field.
    pub fn evaluate(&self, point: &Scalar) -> (value: Scalar)
        ensures
            value@ == eval_at(self@, point@),
    {
        let mut acc = Scalar::zero();
        let mut i = self.coeffs.len();
        assert(self@.skip(i as int) =~= Seq::<nat>::empty());
        while i > 0
            invariant
                i <= self.coeffs@.len(),
                acc@ < modulus(),
                congruent(acc@ as int, eval_sum(self@.skip(i as int), point@) as int),
            decreases i,
        {
            i -= 1;
            let scaled = acc.mul(point);
            let next = scaled.add(&self.coeffs[i]);
            proof {
                let rest = self@.skip(i + 1);
                let here = self@.skip(i as int);
                assert(here.drop_first() =~= rest);
                assert(here[0] == self.coeffs@[i as int]@);
                lemma_mul_mod(acc@, point@);
                lemma_congruent_mul(
                    acc@ as int,
                    eval_sum(rest, point@) as int,
                    point@ as int,
                    point@ as int,
                );
                lemma_add_mod(scaled@, self.coeffs@[i as int]@);
                lemma_congruent_add(
                    scaled@ as int,
                    (eval_sum(rest, point@) * point@) as int,
                    here[0] as int,
                    here[0] as int,
                );
                assert(eval_sum(rest, point@) * point@ == point@ * eval_sum(rest, point@))
                    by (nonlinear_arith);
            }
            acc = next;
        }
        proof {
            assert(self@.skip(0) =~= self@);
            lemma_congruent_reduce(eval_sum(self@, point@) as int);
            lemma_congruent_unique(acc@ as int, (eval_sum(self@, point@) % modulus()) as int);
        }
        acc
    }
}

} // verus!
