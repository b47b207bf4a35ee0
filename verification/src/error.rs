//! Errors that operations of this crate return.

use vstd::prelude::*;

verus! {

/// The ways in which an operation can fail without a fault of the caller's
/// program.
#[derive(Clone, Copy, Debug, PartialEq, Eq, Structural)]
pub enum Error {
    /// No evaluation domain of the requested size exists in the field.
    InvalidEvalDomainSize {
        /// Logarithm of the size of the group that was asked for.
        log_size_of_group: u32,
        /// Two-adicity of the field.
        adicity: u32,
    },
    /// A public input was to be stored at a position that already holds one.
    PositionAlreadyTaken,
    /// A lookup found no row for the queried inputs.
    ElementNotIndexed,
}

} // verus!
