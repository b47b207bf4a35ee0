//! Arithmetisation layer of a PLONK-style proof system over the scalar field
//! of BLS12-381: a circuit builder that records gates as selector and wire
//! vectors, the permutation engine that welds the wires of one variable into
//! a cycle, and the lookup table with its algebraic rows.
//!
//! Field arithmetic, the inverse FFT and random sampling are done by the
//! arkworks crates; everything built on top of them is verified.

pub mod arithmetic_gate;
pub mod circuit_builder;
pub mod congruence;
pub mod domain;
pub mod error;
pub mod evaluations;
pub mod field;
pub mod gadgets;
pub mod gate_row;
pub mod linearisation;
pub mod lookup_table;
pub mod permutation;
pub mod polynomial;
pub mod public_inputs;
pub mod quotient;
pub mod variable;
