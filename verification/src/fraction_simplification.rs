//! Reduction of a fraction of positive integers to lowest terms, rejecting
//! fractions with a zero part.

use vstd::prelude::*;

use crate::math;
use crate::math::gcd_spec;

verus! {

/// Why a fraction could not be simplified.
#[derive(Debug, Clone, Copy, PartialEq, Eq, Structural)]
pub enum SimplifyError {
    /// The numerator or the denominator is zero.
    InvalidFraction,
}

/// Reduce `numerator / denominator` to lowest terms.
///
/// Fails with [`SimplifyError::InvalidFraction`] exactly when either part is
/// zero; otherwise returns the pair divided through by its gcd.
pub fn simplify(numerator: u32, denominator: u32) -> (r: Result<(u32, u32), SimplifyError>)
    ensures
        match r {
            Ok(p) => {
                &&& numerator > 0 && denominator > 0
                &&& p.0 == numerator as nat / gcd_spec(numerator as nat, denominator as nat)
                &&& p.1 == denominator as nat / gcd_spec(numerator as nat, denominator as nat)
                &&& gcd_spec(p.0 as nat, p.1 as nat) == 1
                &&& p.0 > 0 && p.1 > 0
            },
            Err(e) => (numerator == 0 || denominator == 0) && e == SimplifyError::InvalidFraction,
        },
{
    if numerator == 0 || denominator == 0 {
        return Err(SimplifyError::InvalidFraction);
    }

    let (n, d) = math::simplify_fraction(numerator, denominator);
    proof {
        math::lemma_gcd_pos(numerator as nat, denominator as nat);
        math::lemma_gcd_divides(numerator as nat, denominator as nat);
        let g = gcd_spec(numerator as nat, denominator as nat);
        let kn = choose|k: int| numerator as int == #[trigger] (g as int * k);
        let kd = choose|k: int| denominator as int == #[trigger] (g as int * k);
        assert(numerator as int / g as int == kn && kn > 0) by (nonlinear_arith)
            requires
                numerator as int == g as int * kn,
                g > 0,
                numerator > 0,
        ;
        assert(denominator as int / g as int == kd && kd > 0) by (nonlinear_arith)
            requires
                denominator as int == g as int * kd,
                g > 0,
                denominator > 0,
        ;
    }

    Ok((n, d))
}

} // verus!
