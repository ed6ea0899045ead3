//! Representation and manipulation of betting odds.
//!
//! The heart of the crate is a bounded best-rational-approximation routine,
//! [`math::rational_approximation`]: it takes a double-precision value as its
//! IEEE 754 bit pattern and a bound, and expands the exact rational that the
//! bits denote as a continued fraction, keeping the denominator within the
//! bound. Around it sit the integer-valued odds types: [`odd::Fractional`]
//! (a positive fraction in lowest terms) and [`odd::Moneyline`] (a signed
//! stake/payout quote), with their string forms, and the fraction-reduction
//! helpers in [`fraction_simplification`] and [`math`].
//!
//! Floating-point work — decimal odds, payout arithmetic, display — lives
//! outside this library, in thin layers that hand values in as plain integers
//! or bit patterns.

pub mod fraction_simplification;
pub mod math;
pub mod odd;
