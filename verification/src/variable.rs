//! Variables and the wire positions they occupy.

use vstd::prelude::*;

verus! {

/// A handle for a witness value. The k-th variable that a permutation
/// allocates has index k.
#[derive(Clone, Copy, Debug, PartialEq, Eq, Hash, Structural)]
pub struct Variable(pub usize);

/// The character of a decimal digit.
pub open spec fn digit(d: nat) -> char {
    if d == 0 {
        '0'
    } else if d == 1 {
        '1'
    } else if d == 2 {
        '2'
    } else if d == 3 {
        '3'
    } else if d == 4 {
        '4'
    } else if d == 5 {
        '5'
    } else if d == 6 {
        '6'
    } else if d == 7 {
        '7'
    } else if d == 8 {
        '8'
    } else {
        '9'
    }
}

/// The decimal digits of a number, without leading zeros.
pub open spec fn decimal(n: nat) -> Seq<char>
    decreases n,
{
    if n < 10 {
        seq![digit(n)]
    } else {
        decimal(n / 10).push(digit(n % 10))
    }
}

impl Variable {
    /// The index of the variable in decimal digits.
    pub fn to_string(&self) -> (text: String)
        ensures
            text@ == decimal(self.0 as nat),
    {
        format_index(self.0)
    }
}

/// Calls `format!` of std with `{}` for a `usize`. The contract claims
/// that the text holds the decimal digits of the number, without sign and
/// without leading zeros.
#[verifier::external_body]
fn format_index(index: usize) -> (text: String)
    ensures
        text@ == decimal(index as nat),
{
    format!("{}", index)
}

/// One of the four wire positions of a gate, tagged with the index of the
/// gate.
#[derive(Clone, Copy, Debug, PartialEq, Eq, Structural)]
pub enum WireData {
    /// Left wire of a gate, with the index of that gate.
    Left(usize),
    /// Right wire of a gate, with the index of that gate.
    Right(usize),
    /// Output wire of a gate, with the index of that gate.
    Output(usize),
    /// Fourth wire of a gate, with the index of that gate.
    Fourth(usize),
}

impl WireData {
    /// The index of that gate which the position belongs to.
    pub open spec fn gate(self) -> usize {
        match self {
            WireData::Left(i) => i,
            WireData::Right(i) => i,
            WireData::Output(i) => i,
            WireData::Fourth(i) => i,
        }
    }

    /// The index of that gate which the position belongs to.
    pub fn gate_index(&self) -> (i: usize)
        ensures
            i == self.gate(),
    {
        match self {
            WireData::Left(i) => *i,
            WireData::Right(i) => *i,
            WireData::Output(i) => *i,
            WireData::Fourth(i) => *i,
        }
    }
}

} // verus!
