//! Shared integer arithmetic: greatest common divisors, fraction reduction,
//! and the bounded rational-approximation routine.

use vstd::prelude::*;

pub mod float_bits;
pub mod rational_approximation;

pub use rational_approximation::rational_approximation;

verus! {

/// `d` divides `x`.
pub open spec fn divides(d: int, x: int) -> bool {
    exists|k: int| x == #[trigger] (d * k)
}

/// Greatest common divisor, by the Euclidean recurrence. `gcd_spec(a, 0) == a`.
pub open spec fn gcd_spec(a: nat, b: nat) -> nat
    decreases b,
{
    if b == 0 {
        a
    } else {
        gcd_spec(b, a % b)
    }
}

/// The gcd of `a` and `b` divides both of them.
pub proof fn lemma_gcd_divides(a: nat, b: nat)
    ensures
        divides(gcd_spec(a, b) as int, a as int),
        divides(gcd_spec(a, b) as int, b as int),
    decreases b,
{
    if b == 0 {
        assert(a == a * 1);
        assert(b == a * 0);
    } else {
        lemma_gcd_divides(b, a % b);
        let g = gcd_spec(b, a % b) as int;
        let kb = choose|k: int| b == #[trigger] (g * k);
        let kr = choose|k: int| (a % b) as int == #[trigger] (g * k);
        vstd::arithmetic::div_mod::lemma_fundamental_div_mod(a as int, b as int);
        assert(a == b * (a as int / b as int) + (a as int % b as int));
        assert(a == g * (kb * (a as int / b as int) + kr)) by (nonlinear_arith)
            requires
                a == b * (a as int / b as int) + (a as int % b as int),
                b == g * kb,
                (a % b) as int == g * kr,
        ;
    }
}

/// A common divisor of `a` and `b` divides their gcd.
pub proof fn lemma_gcd_greatest(a: nat, b: nat, d: int)
    requires
        divides(d, a as int),
        divides(d, b as int),
    ensures
        divides(d, gcd_spec(a, b) as int),
    decreases b,
{
    if b == 0 {
    } else {
        let ka = choose|k: int| a as int == #[trigger] (d * k);
        let kb = choose|k: int| b as int == #[trigger] (d * k);
        vstd::arithmetic::div_mod::lemma_fundamental_div_mod(a as int, b as int);
        assert((a % b) as int == d * (ka - kb * (a as int / b as int))) by (nonlinear_arith)
            requires
                a as int == d * ka,
                b as int == d * kb,
                a == b * (a as int / b as int) + (a as int % b as int),
        ;
        lemma_gcd_greatest(b, a % b, d);
    }
}

/// The gcd is positive as soon as either argument is.
pub proof fn lemma_gcd_pos(a: nat, b: nat)
    requires
        a > 0 || b > 0,
    ensures
        gcd_spec(a, b) > 0,
    decreases b,
{
    if b > 0 {
        lemma_gcd_pos(b, a % b);
    }
}

/// A positive divisor of a positive value is no larger than the value.
proof fn lemma_divisor_le(d: int, x: int)
    requires
        divides(d, x),
        d > 0,
        x > 0,
    ensures
        d <= x,
{
    let k = choose|k: int| x == #[trigger] (d * k);
    assert(d <= x) by (nonlinear_arith)
        requires
            x == d * k,
            d > 0,
            x > 0,
    ;
}

/// Dividing out the gcd leaves a coprime pair.
pub proof fn lemma_gcd_quotients_coprime(a: nat, b: nat)
    requires
        a > 0 || b > 0,
    ensures
        gcd_spec(a / gcd_spec(a, b), b / gcd_spec(a, b)) == 1,
{
    let g = gcd_spec(a, b);
    lemma_gcd_pos(a, b);
    lemma_gcd_divides(a, b);
    let ka = choose|k: int| a as int == #[trigger] (g * k);
    let kb = choose|k: int| b as int == #[trigger] (g * k);
    assert(ka >= 0 && a as int / g as int == ka) by (nonlinear_arith)
        requires
            a as int == g * ka,
            g > 0,
            a >= 0,
    ;
    assert(kb >= 0 && b as int / g as int == kb) by (nonlinear_arith)
        requires
            b as int == g * kb,
            g > 0,
            b >= 0,
    ;
    let h = gcd_spec(ka as nat, kb as nat);
    assert(ka > 0 || kb > 0) by (nonlinear_arith)
        requires
            a as int == g * ka,
            b as int == g * kb,
            a > 0 || b > 0,
            ka >= 0,
            kb >= 0,
    ;
    lemma_gcd_pos(ka as nat, kb as nat);
    lemma_gcd_divides(ka as nat, kb as nat);
    let ha = choose|k: int| ka == #[trigger] (h * k);
    let hb = choose|k: int| kb == #[trigger] (h * k);
    assert(a as int == (g * h) * ha) by (nonlinear_arith)
        requires
            a as int == g * ka,
            ka == h * ha,
    ;
    assert(b as int == (g * h) * hb) by (nonlinear_arith)
        requires
            b as int == g * kb,
            kb == h * hb,
    ;
    lemma_gcd_greatest(a, b, g as int * h as int);
    assert(g as int * h as int > 0) by (nonlinear_arith)
        requires
            g > 0,
            h > 0,
    ;
    lemma_divisor_le(g as int * h as int, g as int);
    assert(h == 1) by (nonlinear_arith)
        requires
            g * h <= g,
            g > 0,
            h > 0,
    ;
}

/// A pair whose cross combination is a unit is coprime: if `m * d - n * c`
/// is `1` or `-1`, every common divisor of `m` and `c` divides that unit, so
/// `gcd_spec(m, c) == 1`.
pub proof fn lemma_unit_combination_coprime(m: nat, c: nat, d: int, n: int)
    requires
        m * d - n * c == 1 || m * d - n * c == -1,
    ensures
        gcd_spec(m, c) == 1,
{
    let g = gcd_spec(m, c);
    if m == 0 && c == 0 {
        assert(m * d - n * c == 0) by (nonlinear_arith)
            requires
                m == 0,
                c == 0,
        ;
    } else {
        lemma_gcd_pos(m, c);
        lemma_gcd_divides(m, c);
        let km = choose|k: int| m as int == #[trigger] (g * k);
        let kc = choose|k: int| c as int == #[trigger] (g * k);
        let u = m * d - n * c;
        assert(u == g * (km * d - n * kc)) by (nonlinear_arith)
            requires
                m as int == g * km,
                c as int == g * kc,
                u == m * d - n * c,
        ;
        if u == 1 {
            lemma_divisor_le(g as int, 1);
        } else {
            assert(1int == g * (n * kc - km * d)) by (nonlinear_arith)
                requires
                    -1 == g * (km * d - n * kc),
            ;
            lemma_divisor_le(g as int, 1);
        }
    }
}

/// Euclid's algorithm on `u32` values.
pub(crate) fn gcd(a: u32, b: u32) -> (g: u32)
    ensures
        g == gcd_spec(a as nat, b as nat),
    decreases b,
{
    if b == 0 {
        a
    } else {
        gcd(b, a % b)
    }
}

/// Reduce `numerator / denominator` to lowest terms by dividing both through
/// their gcd. At least one of the two must be nonzero (a zero gcd would mean
/// dividing by zero).
pub fn simplify_fraction(numerator: u32, denominator: u32) -> (r: (u32, u32))
    requires
        numerator > 0 || denominator > 0,
    ensures
        r.0 == numerator as nat / gcd_spec(numerator as nat, denominator as nat),
        r.1 == denominator as nat / gcd_spec(numerator as nat, denominator as nat),
        gcd_spec(r.0 as nat, r.1 as nat) == 1,
{
    let g = gcd(numerator, denominator);
    proof {
        lemma_gcd_pos(numerator as nat, denominator as nat);
        lemma_gcd_quotients_coprime(numerator as nat, denominator as nat);
    }
    let numerator = numerator / g;
    let denominator = denominator / g;

    (numerator, denominator)
}

} // verus!
