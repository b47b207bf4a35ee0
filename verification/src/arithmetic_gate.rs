//! The descriptor of one arithmetic gate. A gate with the wires `a`, `b`,
//! `c`, `d` and the public input `pi` enforces
//!
//! ```text
//! q_m * (a * b) + q_l * a + q_r * b + q_4 * d + q_o * c + q_c + pi = 0
//! ```
//!
//! A descriptor is plain data: it fixes the selectors and the wires, and the
//! circuit builder turns it into a gate.

use crate::field::{neg_mod, Scalar};
use crate::variable::Variable;
use vstd::prelude::*;

verus! {

/// The selectors, wires and public input of one arithmetic gate.
#[derive(Debug, Clone, Copy)]
pub struct ArithmeticGate {
    /// Left, right and output wire. Without an output wire, the circuit
    /// builder allocates a variable for the value that satisfies this gate.
    pub witness: Option<(Variable, Variable, Option<Variable>)>,
    /// Selector and variable of the fourth wire.
    pub fan_in_3: Option<(Scalar, Variable)>,
    /// The selector `q_m`.
    pub mul_selector: Scalar,
    /// The selectors `q_l` and `q_r`.
    pub add_selectors: (Scalar, Scalar),
    /// The selector `q_o`.
    pub out_selector: Scalar,
    /// The selector `q_c`.
    pub const_selector: Scalar,
    /// The public input of this gate.
    pub pi: Option<Scalar>,
}

impl ArithmeticGate {
    /// The descriptor has the default selectors: all zero but `q_o`, which
    /// is -1, so that the output wire holds what the other terms add up to.
    pub open spec fn is_default(self) -> bool {
        &&& self.witness is None
        &&& self.fan_in_3 is None
        &&& self.mul_selector@ == 0
        &&& self.add_selectors.0@ == 0
        &&& self.add_selectors.1@ == 0
        &&& self.out_selector@ == neg_mod(1)
        &&& self.const_selector@ == 0
        &&& self.pi is None
    }

    /// A descriptor with the default selectors, no wires and no public
    /// input.
    pub fn new() -> (gate: ArithmeticGate)
        ensures
            gate.is_default(),
    {
        ArithmeticGate {
            witness: None,
            fan_in_3: None,
            mul_selector: Scalar::zero(),
            add_selectors: (Scalar::zero(), Scalar::zero()),
            out_selector: Scalar::one().neg(),
            const_selector: Scalar::zero(),
            pi: None,
        }
    }

    /// Sets the left and the right wire, and the output wire if one is
    /// given.
    pub fn witness(&mut self, w_l: Variable, w_r: Variable, w_o: Option<Variable>) -> (ret:
        &mut ArithmeticGate)
        ensures
            *ret == (ArithmeticGate { witness: Some((w_l, w_r, w_o)), ..*old(self) }),
            *final(self) == *final(ret),
    {
        self.witness = Some((w_l, w_r, w_o));
        self
    }

    /// Enables the fourth wire with the selector `q_4` and the variable
    /// `w_4`.
    pub fn fan_in_3(&mut self, q_4: Scalar, w_4: Variable) -> (ret: &mut ArithmeticGate)
        ensures
            *ret == (ArithmeticGate { fan_in_3: Some((q_4, w_4)), ..*old(self) }),
            *final(self) == *final(ret),
    {
        self.fan_in_3 = Some((q_4, w_4));
        self
    }

    /// Sets the selector `q_m`.
    pub fn mul(&mut self, q_m: Scalar) -> (ret: &mut ArithmeticGate)
        ensures
            *ret == (ArithmeticGate { mul_selector: q_m, ..*old(self) }),
            *final(self) == *final(ret),
    {
        self.mul_selector = q_m;
        self
    }

    /// Sets the selectors `q_l` and `q_r`.
    pub fn add(&mut self, q_l: Scalar, q_r: Scalar) -> (ret: &mut ArithmeticGate)
        ensures
            *ret == (ArithmeticGate { add_selectors: (q_l, q_r), ..*old(self) }),
            *final(self) == *final(ret),
    {
        self.add_selectors = (q_l, q_r);
        self
    }

    /// Sets the selector `q_o`.
    pub fn out(&mut self, q_o: Scalar) -> (ret: &mut ArithmeticGate)
        ensures
            *ret == (ArithmeticGate { out_selector: q_o, ..*old(self) }),
            *final(self) == *final(ret),
    {
        self.out_selector = q_o;
        self
    }

    /// Sets the selector `q_c`.
    pub fn constant(&mut self, q_c: Scalar) -> (ret: &mut ArithmeticGate)
        ensures
            *ret == (ArithmeticGate { const_selector: q_c, ..*old(self) }),
            *final(self) == *final(ret),
    {
        self.const_selector = q_c;
        self
    }

    /// Sets the public input.
    pub fn pi(&mut self, pi: Scalar) -> (ret: &mut ArithmeticGate)
        ensures
            *ret == (ArithmeticGate { pi: Some(pi), ..*old(self) }),
            *final(self) == *final(ret),
    {
        self.pi = Some(pi);
        self
    }

    /// A copy of the descriptor as it stands.
    pub fn build(&mut self) -> (gate: ArithmeticGate)
        ensures
            gate == *old(self),
            *final(self) == *old(self),
    {
        *self
    }
}

impl Default for ArithmeticGate {
    fn default() -> (gate: ArithmeticGate)
        ensures
            gate.is_default(),
    {
        ArithmeticGate::new()
    }
}

} // verus!
