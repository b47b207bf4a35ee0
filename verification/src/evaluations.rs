//! Evaluations of the polynomials of a proof at the challenge point.

use crate::field::Scalar;
use crate::polynomial::{eval_at, Polynomial};
use vstd::prelude::*;

verus! {

/// Evaluations of the four wire polynomials at `z`.
#[derive(Clone, Copy, Debug, PartialEq, Eq, Structural)]
pub struct WireEvaluations {
    /// Evaluation of the witness polynomial for the left wire at `z`.
    pub a_eval: Scalar,
    /// Evaluation of the witness polynomial for the right wire at `z`.
    pub b_eval: Scalar,
    /// Evaluation of the witness polynomial for the output wire at `z`.
    pub c_eval: Scalar,
    /// Evaluation of the witness polynomial for the fourth wire at `z`.
    pub d_eval: Scalar,
}

/// Evaluations of the sigma polynomials at `z` and of the permutation
/// polynomial at `z * omega`, where `omega` is a root of unity.
#[derive(Clone, Copy, Debug, PartialEq, Eq, Structural)]
pub struct PermutationEvaluations {
    /// Evaluation of the left sigma polynomial at `z`.
    pub left_sigma_eval: Scalar,
    /// Evaluation of the right sigma polynomial at `z`.
    pub right_sigma_eval: Scalar,
    /// Evaluation of the out sigma polynomial at `z`.
    pub out_sigma_eval: Scalar,
    /// Evaluation of the permutation polynomial at `z * omega`.
    pub permutation_eval: Scalar,
}

/// Evaluations of the polynomials of the lookup argument.
#[derive(Clone, Copy, Debug, PartialEq, Eq, Structural)]
pub struct LookupEvaluations {
    /// Evaluation of the lookup selector polynomial at `z`.
    pub q_lookup_eval: Scalar,
    /// Evaluation of the lookup permutation polynomial at `z * omega`.
    pub z2_next_eval: Scalar,
    /// Evaluation of the first half of the sorted polynomial at `z`.
    pub h1_eval: Scalar,
    /// Evaluation of the first half of the sorted polynomial at
    /// `z * omega`.
    pub h1_next_eval: Scalar,
    /// Evaluation of the second half of the sorted polynomial at `z`.
    pub h2_eval: Scalar,
    /// Evaluation of the query polynomial at `z`.
    pub f_eval: Scalar,
    /// Evaluation of the table polynomial at `z`.
    pub table_eval: Scalar,
    /// Evaluation of the table polynomial at `z * omega`.
    pub table_next_eval: Scalar,
}

/// Evaluations under labels. No label occurs twice when the set is built
/// with [`CustomEvaluations::add`] alone.
#[derive(Clone, Debug)]
pub struct CustomEvaluations {
    /// Labels with their evaluations, in the order of insertion.
    pub vals: Vec<(String, Scalar)>,
}

/// The evaluations that form part of a proof.
#[derive(Clone, Debug)]
pub struct ProofEvaluations {
    /// Wire evaluations.
    pub wire_evals: WireEvaluations,
    /// Permutation and sigma polynomials evaluations.
    pub perm_evals: PermutationEvaluations,
    /// Lookup evaluations.
    pub lookup_evals: LookupEvaluations,
    /// Evaluations of selector polynomials and of wire polynomials at an
    /// offset, under their labels.
    pub custom_evals: CustomEvaluations,
}

/// Some entry has the label.
pub open spec fn has_label(vals: Seq<(Seq<char>, nat)>, label: Seq<char>) -> bool {
    exists|i: int| 0 <= i < vals.len() && (#[trigger] vals[i]).0 == label
}

/// Entry `i` is the first entry with the label.
pub open spec fn is_first_label(vals: Seq<(Seq<char>, nat)>, i: int, label: Seq<char>) -> bool {
    &&& 0 <= i < vals.len()
    &&& vals[i].0 == label
    &&& forall|k: int| 0 <= k < i ==> (#[trigger] vals[k]).0 != label
}

impl View for CustomEvaluations {
    type V = Seq<(Seq<char>, nat)>;

    open spec fn view(&self) -> Seq<(Seq<char>, nat)> {
        Seq::new(self.vals@.len(), |i: int| (self.vals@[i].0@, self.vals@[i].1@))
    }
}

impl CustomEvaluations {
    /// No evaluations.
    pub fn new() -> (evals: CustomEvaluations)
        ensures
            evals@ == Seq::<(Seq<char>, nat)>::empty(),
    {
        let evals = CustomEvaluations { vals: Vec::new() };
        assert(evals@ =~= Seq::<(Seq<char>, nat)>::empty());
        evals
    }

    /// Whether an evaluation is stored under the label.
    pub fn contains(&self, label: &str) -> (found: bool)
        ensures
            found == has_label(self@, label@),
    {
        let wanted = label.to_owned();
        let mut i: usize = 0;
        while i < self.vals.len()
            invariant
                i <= self.vals@.len(),
                wanted@ == label@,
                forall|k: int| 0 <= k < i ==> (#[trigger] self@[k]).0 != label@,
            decreases self.vals@.len() - i,
        {
            if self.vals[i].0 == wanted {
                assert(self@[i as int].0 == label@);
                return true;
            }
            i += 1;
        }
        false
    }

    /// The evaluation under the label: that of the first entry with this
    /// label.
    pub fn get(&self, label: &str) -> (eval: Scalar)
        requires
            has_label(self@, label@),
        ensures
            exists|i: int| is_first_label(self@, i, label@) && self@[i].1 == eval@,
    {
        let wanted = label.to_owned();
        let mut i: usize = 0;
        while i < self.vals.len() && !(self.vals[i].0 == wanted)
            invariant
                i <= self.vals@.len(),
                wanted@ == label@,
                forall|k: int| 0 <= k < i ==> (#[trigger] self@[k]).0 != label@,
            decreases self.vals@.len() - i,
        {
            assert(self@[i as int].0 != label@);
            i += 1;
        }
        proof {
            if i >= self.vals@.len() {
                let w = choose|w: int| 0 <= w < self@.len() && (#[trigger] self@[w]).0 == label@;
                assert(self@[w].0 != label@);
            }
            assert(is_first_label(self@, i as int, label@));
        }
        self.vals[i].1
    }

    /// Stores the value of the polynomial at the point under the label,
    /// unless an evaluation is already stored under it; then nothing
    /// changes.
    pub fn add(&mut self, label: &str, poly: Polynomial, point: Scalar)
        ensures
            has_label(old(self)@, label@) ==> final(self)@ == old(self)@,
            !has_label(old(self)@, label@) ==> final(self)@ == old(self)@.push(
                (label@, eval_at(poly@, point@)),
            ),
    {
        if self.contains(label) {
        } else {
            let eval = poly.evaluate(&point);
            self.vals.push((label.to_owned(), eval));
            assert(self@ =~= old(self)@.push((label@, eval_at(poly@, point@))));
        }
    }
}

} // verus!
