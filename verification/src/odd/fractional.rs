//! Fractional odds.

use vstd::prelude::*;

use crate::math;
use crate::math::gcd_spec;
use crate::odd::moneyline::Moneyline;
use crate::odd::parse::{find_byte, parse_u32_spec, parse_u32_trimmed, trimmed};
use crate::odd::OddError;
use vstd::string::StringSliceAdditionalSpecFns;

verus! {

/// The two parts of the string form `numerator/denominator`: the bytes before
/// the first slash, and those between the first slash and the second slash or
/// the end, each trimmed of ASCII whitespace and read as an unsigned 32-bit
/// literal. Anything after a second slash is ignored. No slash, or an
/// unreadable part, yields nothing.
pub open spec fn spec_parse_fractional(s: Seq<u8>) -> Option<(u32, u32)> {
    let i1 = find_byte(s, 47, 0);
    if i1 == s.len() {
        None
    } else {
        let i2 = find_byte(s, 47, i1 + 1);
        match (
            parse_u32_spec(trimmed(s.subrange(0, i1))),
            parse_u32_spec(trimmed(s.subrange(i1 + 1, i2))),
        ) {
            (Some(n), Some(d)) => Some((n, d)),
            _ => None,
        }
    }
}

/// A fractional odd.
///
/// Comprised of a numerator and a denominator. The numerator represents the
/// number of units a bettor will profit given that the denominator represents
/// the number of units staked.
///
/// E.g. 4/1 means that for every unit staked, the bettor will profit 4 units.
///
/// Both parts are always positive and the pair is always in lowest terms.
#[derive(Debug, Clone, Copy)]
pub struct Fractional {
    numerator: u32,
    denominator: u32,
}

impl Fractional {
    /// The numerator, as seen by specifications.
    pub closed spec fn spec_numerator(self) -> u32 {
        self.numerator
    }

    /// The denominator, as seen by specifications.
    pub closed spec fn spec_denominator(self) -> u32 {
        self.denominator
    }

    /// Every fractional odd is positive and in lowest terms.
    #[verifier::type_invariant]
    pub closed spec fn wf(self) -> bool {
        &&& self.numerator > 0
        &&& self.denominator > 0
        &&& gcd_spec(self.numerator as nat, self.denominator as nat) == 1
    }

    /// Create a new fractional odd from a `numerator` and `denominator`.
    ///   - Will be simplified to its lowest terms.
    ///   - Will error if the numerator or the denominator is zero.
    pub fn new(numerator: u32, denominator: u32) -> (r: Result<Self, OddError>)
        ensures
            match r {
                Ok(f) => {
                    &&& numerator > 0 && denominator > 0
                    &&& f.spec_numerator() == numerator as nat / gcd_spec(
                        numerator as nat,
                        denominator as nat,
                    )
                    &&& f.spec_denominator() == denominator as nat / gcd_spec(
                        numerator as nat,
                        denominator as nat,
                    )
                    &&& f.spec_numerator() * denominator == f.spec_denominator() * numerator
                    &&& gcd_spec(f.spec_numerator() as nat, f.spec_denominator() as nat) == 1
                },
                Err(e) => (numerator == 0 || denominator == 0) && e == OddError::Invalid,
            },
    {
        if numerator == 0 || denominator == 0 {
            return Err(OddError::Invalid);
        }

        let (n, d) = math::simplify_fraction(numerator, denominator);
        proof {
            math::lemma_gcd_pos(numerator as nat, denominator as nat);
            math::lemma_gcd_divides(numerator as nat, denominator as nat);
            let g = gcd_spec(numerator as nat, denominator as nat);
            let kn = choose|k: int| numerator as int == #[trigger] (g as int * k);
            let kd = choose|k: int| denominator as int == #[trigger] (g as int * k);
            assert(numerator as int / g as int == kn && kn > 0) by (nonlinear_arith)
                requires
                    numerator as int == g as int * kn,
                    g > 0,
                    numerator > 0,
            ;
            assert(denominator as int / g as int == kd && kd > 0) by (nonlinear_arith)
                requires
                    denominator as int == g as int * kd,
                    g > 0,
                    denominator > 0,
            ;
            assert(kn * denominator as int == kd * numerator as int) by (nonlinear_arith)
                requires
                    numerator as int == g as int * kn,
                    denominator as int == g as int * kd,
            ;
        }

        Ok(Self { numerator: n, denominator: d })
    }

    /// Get the numerator of the fractional odd.
    pub fn numerator(&self) -> (n: u32)
        ensures
            n == self.spec_numerator(),
            n > 0,
    {
        proof {
            use_type_invariant(self);
        }
        self.numerator
    }

    /// Parse a fractional odd from its string form `numerator/denominator`.
    ///
    /// Both parts may carry surrounding ASCII whitespace and a leading `+`.
    /// A missing slash or an unreadable part is a parse error; readable parts
    /// are handed to [`Fractional::new`], so a zero part is rejected as
    /// invalid.
    pub fn from_str(input: &str) -> (r: Result<Self, OddError>)
        ensures
            ({
                match spec_parse_fractional(input.spec_bytes()) {
                    Option::None => r == Err::<Fractional, OddError>(OddError::ParseError),
                    Option::Some(p) => {
                        match r {
                            Ok(f) => {
                                &&& p.0 > 0 && p.1 > 0
                                &&& f.spec_numerator() == p.0 as nat / gcd_spec(
                                    p.0 as nat,
                                    p.1 as nat,
                                )
                                &&& f.spec_denominator() == p.1 as nat / gcd_spec(
                                    p.0 as nat,
                                    p.1 as nat,
                                )
                                &&& gcd_spec(
                                    f.spec_numerator() as nat,
                                    f.spec_denominator() as nat,
                                ) == 1
                            },
                            Err(e) => (p.0 == 0 || p.1 == 0) && e == OddError::Invalid,
                        }
                    },
                }
            }),
    {
        let bytes = input.as_bytes();
        let len = bytes.len();
        let mut i1: usize = 0;
        while i1 < len && bytes[i1] != 47
            invariant
                0 <= i1 <= len == bytes@.len(),
                find_byte(bytes@, 47, 0) == find_byte(bytes@, 47, i1 as int),
            decreases len - i1,
        {
            i1 = i1 + 1;
        }
        if i1 == len {
            return Err(OddError::ParseError);
        }
        let mut i2: usize = i1 + 1;
        while i2 < len && bytes[i2] != 47
            invariant
                0 <= i1 + 1 <= i2 <= len == bytes@.len(),
                find_byte(bytes@, 47, i1 + 1) == find_byte(bytes@, 47, i2 as int),
            decreases len - i2,
        {
            i2 = i2 + 1;
        }
        let numerator_opt = parse_u32_trimmed(bytes, 0, i1);
        let denominator_opt = parse_u32_trimmed(bytes, i1 + 1, i2);
        match (numerator_opt, denominator_opt) {
            (Some(numerator), Some(denominator)) => Self::new(numerator, denominator),
            _ => Err(OddError::ParseError),
        }
    }

    /// Convert a moneyline odd to a fractional odd: a positive quote of `v`
    /// becomes `v/100`, a negative quote `100/|v|`. Only the low 32 bits of
    /// the magnitude are kept, so a quote whose magnitude is a multiple of
    /// `2^32` is rejected as invalid.
    pub fn from_moneyline(value: &Moneyline) -> (r: Result<Self, OddError>)
        ensures
            ({
                let m = value.spec_value();
                let mag: int = if m >= 0 {
                    m as int
                } else {
                    -(m as int)
                };
                let t = mag % 0x1_0000_0000;
                let n: int = if m > 0 {
                    t
                } else {
                    100
                };
                let d: int = if m > 0 {
                    100
                } else {
                    t
                };
                match r {
                    Ok(f) => {
                        &&& t != 0
                        &&& f.spec_numerator() == n as nat / gcd_spec(n as nat, d as nat)
                        &&& f.spec_denominator() == d as nat / gcd_spec(n as nat, d as nat)
                        &&& gcd_spec(f.spec_numerator() as nat, f.spec_denominator() as nat) == 1
                    },
                    Err(e) => t == 0 && e == OddError::Invalid,
                }
            }),
    {
        let v = value.value();
        if v > 0 {
            let t: u32 = ((v as u64) % 0x1_0000_0000) as u32;
            Self::new(t, 100)
        } else {
            let mag: u64 = if v == i64::MIN {
                0x8000_0000_0000_0000
            } else {
                (-v) as u64
            };
            let t: u32 = (mag % 0x1_0000_0000) as u32;
            Self::new(100, t)
        }
    }

    /// Get the denominator of the fractional odd.
    pub fn denominator(&self) -> (d: u32)
        ensures
            d == self.spec_denominator(),
            d > 0,
    {
        proof {
            use_type_invariant(self);
        }
        self.denominator
    }
}

/// The product of two 32-bit values fits in 64 bits.
proof fn lemma_u32_mul_fits(x: u32, y: u32)
    ensures
        0 <= x * y <= u64::MAX,
{
    assert(x * y <= 0xffff_ffff * 0xffff_ffff) by (nonlinear_arith)
        requires
            x <= 0xffff_ffffu32,
            y <= 0xffff_ffffu32,
    ;
}

impl PartialEq for Fractional {
    /// Two fractional odds are equal when they denote the same rational,
    /// i.e. when their cross products agree.
    fn eq(&self, other: &Self) -> (r: bool) {
        proof {
            lemma_u32_mul_fits(self.numerator, other.denominator);
            lemma_u32_mul_fits(other.numerator, self.denominator);
        }
        (self.numerator as u64) * (other.denominator as u64) == (other.numerator as u64) * (
        self.denominator as u64)
    }
}

impl vstd::std_specs::cmp::PartialEqSpecImpl for Fractional {
    open spec fn obeys_eq_spec() -> bool {
        true
    }

    open spec fn eq_spec(&self, other: &Self) -> bool {
        self.spec_numerator() * other.spec_denominator() == other.spec_numerator()
            * self.spec_denominator()
    }
}

impl Eq for Fractional {}

impl PartialOrd for Fractional {
    /// Fractional odds are ordered as the rationals they denote, by comparing
    /// cross products.
    fn partial_cmp(&self, other: &Self) -> (r: Option<core::cmp::Ordering>) {
        proof {
            lemma_u32_mul_fits(self.numerator, other.denominator);
            lemma_u32_mul_fits(other.numerator, self.denominator);
        }
        let a = (self.numerator as u64) * (other.denominator as u64);
        let b = (other.numerator as u64) * (self.denominator as u64);
        if a < b {
            Some(core::cmp::Ordering::Less)
        } else if a == b {
            Some(core::cmp::Ordering::Equal)
        } else {
            Some(core::cmp::Ordering::Greater)
        }
    }
}

impl vstd::std_specs::cmp::PartialOrdSpecImpl for Fractional {
    open spec fn obeys_partial_cmp_spec() -> bool {
        true
    }

    open spec fn partial_cmp_spec(&self, other: &Self) -> Option<core::cmp::Ordering> {
        let a = self.spec_numerator() * other.spec_denominator();
        let b = other.spec_numerator() * self.spec_denominator();
        if a < b {
            Some(core::cmp::Ordering::Less)
        } else if a == b {
            Some(core::cmp::Ordering::Equal)
        } else {
            Some(core::cmp::Ordering::Greater)
        }
    }
}

} // verus!
