//! Moneyline odds.

use vstd::prelude::*;

use crate::odd::parse::{parse_i64_all, parse_i64_spec};
use crate::odd::OddError;
use vstd::string::StringSliceAdditionalSpecFns;

verus! {

/// A moneyline odd.
///
/// When this value is positive, it indicates the net winnings for a 100-unit
/// wager. When this value is negative, it indicates the stake required for a
/// 100-unit payout.
///
/// E.g. +200 means that for every 100 units staked, the bettor will profit
/// 200 units, while -200 means that for every 200 units staked, the bettor
/// will profit 100 units.
#[derive(Debug, Clone, Copy, PartialEq, Eq, Structural, PartialOrd, Ord)]
pub struct Moneyline {
    value: i64,
}

impl Moneyline {
    /// The quoted value, as seen by specifications.
    pub closed spec fn spec_value(self) -> i64 {
        self.value
    }

    /// A moneyline quote is at least 100 units in magnitude.
    #[verifier::type_invariant]
    pub closed spec fn wf(self) -> bool {
        self.value <= -100 || self.value >= 100
    }

    /// Create a new moneyline odd from an integer.
    ///
    /// This will error if the absolute value is less than 100.
    pub fn new(value: i64) -> (r: Result<Self, OddError>)
        ensures
            match r {
                Ok(m) => (value <= -100 || value >= 100) && m.spec_value() == value,
                Err(e) => -100 < value < 100 && e == OddError::Invalid,
            },
    {
        if -100 < value && value < 100 {
            return Err(OddError::Invalid);
        }

        Ok(Self { value })
    }

    /// Parse a moneyline odd from its string form: an optional sign and a run
    /// of decimal digits, with no surrounding whitespace.
    ///
    /// Unreadable input and a magnitude under 100 are both rejected as
    /// invalid.
    pub fn from_str(input: &str) -> (r: Result<Self, OddError>)
        ensures
            ({
                match parse_i64_spec(input.spec_bytes()) {
                    Option::None => r == Err::<Moneyline, OddError>(OddError::Invalid),
                    Option::Some(v) => {
                        match r {
                            Ok(m) => (v <= -100 || v >= 100) && m.spec_value() == v,
                            Err(e) => -100 < v < 100 && e == OddError::Invalid,
                        }
                    },
                }
            }),
    {
        let bytes = input.as_bytes();
        match parse_i64_all(bytes) {
            Some(value) => Self::new(value),
            None => Err(OddError::Invalid),
        }
    }

    /// Get the value of the moneyline odd.
    pub fn value(&self) -> (v: i64)
        ensures
            v == self.spec_value(),
            v <= -100 || v >= 100,
    {
        proof {
            use_type_invariant(self);
        }
        self.value
    }
}

} // verus!
