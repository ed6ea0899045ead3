//! Odds functionality and primitives.

use vstd::prelude::*;

pub mod fractional;
pub mod moneyline;
pub mod parse;

pub use fractional::Fractional;
pub use moneyline::Moneyline;

verus! {

/// An error that can occur when creating an odd.
#[derive(Debug, Clone, Copy, PartialEq, Eq, Structural)]
pub enum OddError {
    /// The odd is invalid. Usually this is because it does not make sense,
    /// e.g. a fractional odd with a zero numerator or denominator.
    Invalid,
    /// An error that occurred when parsing an odd.
    ParseError,
}

} // verus!
