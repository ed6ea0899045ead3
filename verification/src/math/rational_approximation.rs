//! Bounded best-rational approximation by continued fractions.
//!
//! Given a double-precision value (as its IEEE 754 bit pattern) and a bound on
//! the denominator, [`rational_approximation`] returns the fraction that the
//! continued-fraction expansion of the value, cut off at the bound, produces.
//! The expansion runs in exact integer arithmetic on the rational that the bit
//! pattern denotes: a residual `a / b` drives each step, every convergent is
//! folded in with the standard recurrence, and when the bound (or the cap on
//! the number of terms) is hit, a final semiconvergent step is taken whenever
//! it is permitted or strictly closer to the value.
//!
//! Two remarks on edge behaviour:
//! - A residual below `1 / 10^9` counts as exact convergence and ends the
//!   expansion at the current convergent.
//! - Between the last full convergent and the cut-off semiconvergent, the
//!   strictly closer candidate wins; the full convergent wins ties.

use vstd::prelude::*;

use crate::math::float_bits::{
    f64_exponent, f64_is_finite, f64_is_infinite, f64_is_nan, f64_is_negative,
    f64_mag_above_max_range, f64_mag_above_min_range, f64_mag_den, f64_mag_num,
};

verus! {

/// Absolute value of a mathematical integer.
pub open spec fn abs(x: int) -> int {
    if x < 0 {
        -x
    } else {
        x
    }
}

/// `xn / xd` lies strictly closer to `p / q` than `yn / yd` does
/// (all denominators positive), stated by cross-multiplication.
pub open spec fn closer_to(p: int, q: int, xn: int, xd: int, yn: int, yd: int) -> bool {
    abs(p * xd - xn * q) * yd < abs(p * yd - yn * q) * xd
}

/// The final semiconvergent step, once the expansion has been cut off.
///
/// `a / b` is the residual whose integer part `t` was the term that could not
/// be taken in full, and `n` is the largest multiple of the current convergent
/// `(cn, cd)` that the denominator bound and the 32-bit numerator range leave
/// room for. A semiconvergent `n` of at least half the term is considered;
/// it wins outright above half, and by strict closeness to `p / q` at exactly
/// half.
pub open spec fn cf_select(
    p: int,
    q: int,
    a: int,
    b: int,
    pn: int,
    pd: int,
    cn: int,
    cd: int,
    t: int,
    n: int,
) -> (int, int) {
    let lb = t / 2;
    if n >= lb {
        let n2 = if n > t {
            t
        } else {
            n
        };
        let sn = n2 * cn + pn;
        let sd = n2 * cd + pd;
        if n2 > lb || closer_to(p, q, sn, sd, cn, cd) {
            (sn, sd)
        } else {
            (cn, cd)
        }
    } else {
        (cn, cd)
    }
}

/// The continued-fraction loop, in exact integer arithmetic.
///
/// The state is the residual `a / b` (the value still to be expanded is
/// `term + 1 / next-residual`), the previous and current convergents
/// `(pn, pd)` and `(cn, cd)`, and the index `i` of the term about to be
/// consumed. A residual remainder of at most `1 / 10^9` ends the expansion at
/// the current convergent; a term that would push the denominator past `maxd`
/// (or the numerator past `i32::MAX`), or an index past the cap of 47, hands
/// over to [`cf_select`]; otherwise the term is folded in and the loop
/// continues.
pub open spec fn cf_loop(
    p: int,
    q: int,
    a: int,
    b: int,
    pn: int,
    pd: int,
    cn: int,
    cd: int,
    i: int,
    maxd: int,
) -> (int, int)
    decreases 47 - i,
{
    let rem = a % b;
    if rem * 1000000000 <= b {
        (cn, cd)
    } else {
        let a2 = b;
        let b2 = rem;
        let t = a2 / b2;
        let n0 = (maxd - pd) / cd;
        let n = if cn > 0 && n0 > (0x7fff_ffff - pn) / cn {
            (0x7fff_ffff - pn) / cn
        } else {
            n0
        };
        if i >= 47 || t >= n {
            cf_select(p, q, a2, b2, pn, pd, cn, cd, t, n)
        } else {
            cf_loop(p, q, a2, b2, cn, cd, t * cn + pn, t * cd + pd, i + 1, maxd)
        }
    }
}

/// The approximation of the nonnegative exact rational `p / q` under the
/// denominator bound `maxd`: the expansion starts at the convergent
/// `(floor(p / q), 1)` with previous convergent `(1, 0)`.
pub open spec fn approx_mag(p: int, q: int, maxd: int) -> (int, int) {
    cf_loop(p, q, p, q, 1, 0, p / q, 1, 2, maxd)
}

/// What [`rational_approximation`] returns, for every bit pattern and bound.
///
/// A bound of zero or less gives the sentinel `(0, 0)`, as does a NaN.
/// Magnitudes beyond the 32-bit integer range, infinities included, saturate
/// to `(i32::MAX, 1)` or `(i32::MIN, 1)`. Every other value is expanded by
/// [`approx_mag`], with the sign reapplied to the numerator.
pub open spec fn approx_bits(bits: u64, maxd: int) -> (int, int) {
    if maxd <= 0 {
        (0, 0)
    } else if !f64_is_negative(bits) && (f64_is_infinite(bits) || (f64_is_finite(bits)
        && f64_mag_above_max_range(bits))) {
        (0x7fff_ffff, 1)
    } else if f64_is_negative(bits) && (f64_is_infinite(bits) || (f64_is_finite(bits)
        && f64_mag_above_min_range(bits))) {
        (-0x8000_0000, 1)
    } else if f64_is_nan(bits) {
        (0, 0)
    } else {
        let r = approx_mag(f64_mag_num(bits) as int, f64_mag_den(bits) as int, maxd);
        if f64_is_negative(bits) {
            (-r.0, r.1)
        } else {
            (r.0, r.1)
        }
    }
}

/// At the cut-off point the residual `a / b` ties the value to the
/// convergents: `p == a * cn + b * pn` and `q == a * cd + b * pd`, and the
/// convergents' cross product is a unit. Under those identities the exact
/// closeness comparison of [`cf_select`] collapses to a comparison of small
/// integers: the semiconvergent is strictly closer to `p / q` than the
/// convergent exactly when `(a - n2 * b) * cd < b * sd`.
proof fn lemma_closer_equiv(
    p: int,
    q: int,
    a: int,
    b: int,
    pn: int,
    pd: int,
    cn: int,
    cd: int,
    n2: int,
)
    requires
        b >= 1,
        a >= 0,
        0 <= n2,
        n2 <= a / b,
        a * cn + b * pn == p,
        a * cd + b * pd == q,
        cn * pd - pn * cd == 1 || cn * pd - pn * cd == -1,
    ensures
        closer_to(p, q, n2 * cn + pn, n2 * cd + pd, cn, cd) <==> (a - n2 * b) * cd < b * (n2 * cd
            + pd),
        abs(p * (n2 * cd + pd) - (n2 * cn + pn) * q) == a - n2 * b,
        abs(p * cd - cn * q) == b,
{
    let sn = n2 * cn + pn;
    let sd = n2 * cd + pd;
    let del = cn * pd - pn * cd;
    assert(cn * sd - sn * cd == del) by (nonlinear_arith)
        requires
            sn == n2 * cn + pn,
            sd == n2 * cd + pd,
            del == cn * pd - pn * cd,
    ;
    assert(pn * sd - sn * pd == -(n2 * del)) by (nonlinear_arith)
        requires
            sn == n2 * cn + pn,
            sd == n2 * cd + pd,
            del == cn * pd - pn * cd,
    ;
    assert(p * sd == a * (cn * sd) + b * (pn * sd)) by (nonlinear_arith)
        requires
            p == a * cn + b * pn,
    ;
    assert(sn * q == a * (sn * cd) + b * (sn * pd)) by (nonlinear_arith)
        requires
            q == a * cd + b * pd,
    ;
    assert(a * (cn * sd) - a * (sn * cd) == a * (cn * sd - sn * cd)) by (nonlinear_arith);
    assert(b * (pn * sd) - b * (sn * pd) == b * (pn * sd - sn * pd)) by (nonlinear_arith);
    assert(p * sd - sn * q == a * del + b * (-(n2 * del)));
    assert(a * del + b * (-(n2 * del)) == (a - n2 * b) * del) by (nonlinear_arith);
    assert(p * cd - cn * q == b * (pn * cd - cn * pd)) by (nonlinear_arith)
        requires
            a * cn + b * pn == p,
            a * cd + b * pd == q,
    ;
    assert(b * (pn * cd - cn * pd) == -(b * del)) by (nonlinear_arith)
        requires
            del == cn * pd - pn * cd,
    ;
    vstd::arithmetic::div_mod::lemma_fundamental_div_mod(a, b);
    vstd::arithmetic::div_mod::lemma_mod_bound(a, b);
    assert(n2 * b <= a) by (nonlinear_arith)
        requires
            n2 <= a / b,
            b >= 1,
            a == b * (a / b) + a % b,
            a % b >= 0,
    ;
    assert(abs(p * sd - sn * q) == a - n2 * b);
    assert(abs(p * cd - cn * q) == b);
}

/// The cut-off step never worsens the approximation: what [`cf_select`]
/// returns is always at least as close to `p / q` (by the cross-multiplied
/// error measure) as the convergent `(cn, cd)` it starts from. A
/// semiconvergent taken by the exact comparison is closer by definition; one
/// taken outright, above half the cut term, is forced closer by the
/// continued-fraction identities.
pub proof fn lemma_select_no_worse(
    p: int,
    q: int,
    a: int,
    b: int,
    pn: int,
    pd: int,
    cn: int,
    cd: int,
    t: int,
    n: int,
)
    requires
        b >= 1,
        a >= 0,
        0 <= n,
        t == a / b,
        1 <= cd,
        0 <= pd,
        a * cn + b * pn == p,
        a * cd + b * pd == q,
        cn * pd - pn * cd == 1 || cn * pd - pn * cd == -1,
    ensures
        ({
            let r = cf_select(p, q, a, b, pn, pd, cn, cd, t, n);
            abs(p * r.1 - r.0 * q) * cd <= abs(p * cd - cn * q) * r.1
        }),
{
    let r = cf_select(p, q, a, b, pn, pd, cn, cd, t, n);
    let lb = t / 2;
    vstd::arithmetic::div_mod::lemma_fundamental_div_mod(a, b);
    vstd::arithmetic::div_mod::lemma_mod_bound(a, b);
    vstd::arithmetic::div_mod::lemma_fundamental_div_mod(t, 2);
    vstd::arithmetic::div_mod::lemma_mod_bound(t, 2);
    assert(t >= 0) by (nonlinear_arith)
        requires
            a == b * t + a % b,
            0 <= a % b < b,
            a >= 0,
            b >= 1,
    ;
    if n >= lb {
        let n2 = if n > t {
            t
        } else {
            n
        };
        let sn = n2 * cn + pn;
        let sd = n2 * cd + pd;
        lemma_closer_equiv(p, q, a, b, pn, pd, cn, cd, n2);
        if n2 > lb || closer_to(p, q, sn, sd, cn, cd) {
            if closer_to(p, q, sn, sd, cn, cd) {
            } else {
                // taken outright: 2 * n2 >= t + 1, and the residual bound
                // a < (t + 1) * b squeezes the error below the convergent's
                assert((a - n2 * b) * cd < b * sd) by (nonlinear_arith)
                    requires
                        a == b * t + a % b,
                        0 <= a % b < b,
                        2 * n2 >= t + 1,
                        n2 <= t,
                        sd == n2 * cd + pd,
                        cd >= 1,
                        pd >= 0,
                        b >= 1,
                ;
            }
            assert(abs(p * sd - sn * q) * cd <= abs(p * cd - cn * q) * sd) by (nonlinear_arith)
                requires
                    abs(p * sd - sn * q) == a - n2 * b,
                    abs(p * cd - cn * q) == b,
                    (a - n2 * b) * cd < b * sd || (a - n2 * b) * cd == b * sd,
            ;
        }
    }
}

/// The cross-multiplied error comparison is transitive: if `e1/d1 <= e2/d2`
/// and `e2/d2 <= e3/d3` (all read as cross products with positive middle
/// denominator), then `e1/d1 <= e3/d3`.
proof fn lemma_err_rel_trans(e1: int, d1: int, e2: int, d2: int, e3: int, d3: int)
    requires
        e1 >= 0,
        e2 >= 0,
        e3 >= 0,
        d1 >= 0,
        d2 >= 1,
        d3 >= 0,
        e1 * d2 <= e2 * d1,
        e2 * d3 <= e3 * d2,
    ensures
        e1 * d3 <= e3 * d1,
{
    assert((e1 * d3) * d2 <= (e3 * d1) * d2) by (nonlinear_arith)
        requires
            e1 * d2 <= e2 * d1,
            e2 * d3 <= e3 * d2,
            e1 >= 0,
            e2 >= 0,
            e3 >= 0,
            d1 >= 0,
            d2 >= 1,
            d3 >= 0,
    ;
    assert(e1 * d3 <= e3 * d1) by (nonlinear_arith)
        requires
            (e1 * d3) * d2 <= (e3 * d1) * d2,
            d2 >= 1,
    ;
}

/// One full step of the recurrence never worsens the approximation: the next
/// convergent's error numerator is the next remainder, which is smaller than
/// the current one, over a no-smaller denominator.
proof fn lemma_next_convergent_no_worse(
    p: int,
    q: int,
    a: int,
    b: int,
    pn: int,
    pd: int,
    cn: int,
    cd: int,
)
    requires
        b >= 1,
        a >= 0,
        b < a,
        1 <= cd,
        0 <= pd,
        a * cn + b * pn == p,
        a * cd + b * pd == q,
        cn * pd - pn * cd == 1 || cn * pd - pn * cd == -1,
    ensures
        ({
            let t = a / b;
            abs(p * (t * cd + pd) - (t * cn + pn) * q) * cd <= abs(p * cd - cn * q) * (t * cd
                + pd)
        }),
{
    let t = a / b;
    vstd::arithmetic::div_mod::lemma_fundamental_div_mod(a, b);
    vstd::arithmetic::div_mod::lemma_mod_bound(a, b);
    assert(t >= 1) by (nonlinear_arith)
        requires
            a == b * t + a % b,
            0 <= a % b < b,
            b < a,
            1 <= b,
    ;
    lemma_closer_equiv(p, q, a, b, pn, pd, cn, cd, t);
    assert((a - t * b) * cd <= b * (t * cd + pd)) by (nonlinear_arith)
        requires
            a - t * b == a % b,
            0 <= a % b < b,
            1 <= cd,
            0 <= pd,
            t >= 1,
    ;
}

/// The whole remaining expansion never worsens the approximation: whatever
/// [`cf_loop`] returns from a reachable state is at least as close to `p / q`
/// as the convergent `(cn, cd)` it holds on entry.
proof fn lemma_cf_loop_no_worse(
    p: int,
    q: int,
    a: int,
    b: int,
    pn: int,
    pd: int,
    cn: int,
    cd: int,
    i: int,
    maxd: int,
)
    requires
        1 <= b,
        0 <= a,
        0 <= pn <= 0x7fff_ffff,
        0 <= cn <= 0x7fff_ffff,
        1 <= cd,
        0 <= pd,
        cd + pd <= maxd,
        cn * pd - pn * cd == 1 || cn * pd - pn * cd == -1,
        2 <= i <= 47,
        b * cn + (a % b) * pn == p,
        b * cd + (a % b) * pd == q,
    ensures
        ({
            let r = cf_loop(p, q, a, b, pn, pd, cn, cd, i, maxd);
            abs(p * r.1 - r.0 * q) * cd <= abs(p * cd - cn * q) * r.1
        }),
    decreases 47 - i,
{
    let rem = a % b;
    vstd::arithmetic::div_mod::lemma_mod_bound(a, b);
    if rem * 1000000000 <= b {
    } else {
        assert(rem >= 1) by (nonlinear_arith)
            requires
                rem * 1000000000 > b,
                b >= 1,
                rem >= 0,
        ;
        let a2 = b;
        let b2 = rem;
        let t = a2 / b2;
        let rem2 = a2 % b2;
        vstd::arithmetic::div_mod::lemma_fundamental_div_mod(a2, b2);
        vstd::arithmetic::div_mod::lemma_mod_bound(a2, b2);
        assert(t >= 1) by (nonlinear_arith)
            requires
                a2 == b2 * t + rem2,
                0 <= rem2 < b2,
                b2 < a2,
                1 <= b2,
        ;
        let n0 = (maxd - pd) / cd;
        vstd::arithmetic::div_mod::lemma_fundamental_div_mod(maxd - pd, cd);
        vstd::arithmetic::div_mod::lemma_mod_bound(maxd - pd, cd);
        assert(n0 >= 1 && n0 * cd <= maxd - pd) by (nonlinear_arith)
            requires
                maxd - pd == cd * n0 + (maxd - pd) % cd,
                0 <= (maxd - pd) % cd < cd,
                cd >= 1,
                maxd - pd >= cd,
        ;
        let c1 = (0x7fff_ffff - pn) / cn;
        let n = if cn > 0 && n0 > c1 {
            c1
        } else {
            n0
        };
        if cn > 0 {
            vstd::arithmetic::div_mod::lemma_fundamental_div_mod(0x7fff_ffff - pn, cn);
            vstd::arithmetic::div_mod::lemma_mod_bound(0x7fff_ffff - pn, cn);
            assert(c1 >= 0 && c1 * cn <= 0x7fff_ffff - pn) by (nonlinear_arith)
                requires
                    0x7fff_ffff - pn == cn * c1 + (0x7fff_ffff - pn) % cn,
                    0 <= (0x7fff_ffff - pn) % cn < cn,
                    cn >= 1,
                    0x7fff_ffff - pn >= 0,
            ;
        }
        if i >= 47 || t >= n {
            lemma_select_no_worse(p, q, a2, b2, pn, pd, cn, cd, t, n);
        } else {
            let ncn = t * cn + pn;
            let ncd = t * cd + pd;
            assert(0 <= ncn <= 0x7fff_ffff) by (nonlinear_arith)
                requires
                    1 <= t,
                    t < n,
                    cn > 0 ==> n <= c1,
                    cn > 0 ==> c1 * cn <= 0x7fff_ffff - pn,
                    0 <= pn <= 0x7fff_ffff,
                    0 <= cn,
                    ncn == t * cn + pn,
            ;
            assert(1 <= ncd && ncd + cd <= maxd) by (nonlinear_arith)
                requires
                    1 <= t,
                    t < n,
                    n <= n0,
                    n0 * cd <= maxd - pd,
                    1 <= cd,
                    0 <= pd,
                    ncd == t * cd + pd,
            ;
            assert(ncn * cd - cn * ncd == -(cn * pd - pn * cd)) by (nonlinear_arith)
                requires
                    ncn == t * cn + pn,
                    ncd == t * cd + pd,
            ;
            assert(b2 * ncn + rem2 * cn == a2 * cn + b2 * pn) by (nonlinear_arith)
                requires
                    rem2 == a2 - b2 * t,
                    ncn == t * cn + pn,
            ;
            assert(b2 * ncd + rem2 * cd == a2 * cd + b2 * pd) by (nonlinear_arith)
                requires
                    rem2 == a2 - b2 * t,
                    ncd == t * cd + pd,
            ;
            lemma_cf_loop_no_worse(p, q, a2, b2, cn, cd, ncn, ncd, i + 1, maxd);
            lemma_next_convergent_no_worse(p, q, a2, b2, pn, pd, cn, cd);
            lemma_closer_equiv(p, q, a2, b2, pn, pd, cn, cd, t);
            let r = cf_loop(p, q, a2, b2, cn, cd, ncn, ncd, i + 1, maxd);
            lemma_cf_loop_props(p, q, a2, b2, cn, cd, ncn, ncd, i + 1, maxd);
            lemma_err_rel_trans(
                abs(p * r.1 - r.0 * q),
                r.1,
                abs(p * ncd - ncn * q),
                ncd,
                abs(p * cd - cn * q),
                cd,
            );
        }
    }
}

/// Giving the cut-off more room never worsens it: with the same residual and
/// convergents, [`cf_select`] under a larger permitted multiple `n2` returns a
/// result at least as close to `p / q` as under a smaller `n1`.
proof fn lemma_select_mono(
    p: int,
    q: int,
    a: int,
    b: int,
    pn: int,
    pd: int,
    cn: int,
    cd: int,
    t: int,
    n1: int,
    n2: int,
)
    requires
        b >= 1,
        a >= 0,
        0 <= n1 <= n2,
        t == a / b,
        1 <= cd,
        0 <= pd,
        a * cn + b * pn == p,
        a * cd + b * pd == q,
        cn * pd - pn * cd == 1 || cn * pd - pn * cd == -1,
    ensures
        ({
            let r1 = cf_select(p, q, a, b, pn, pd, cn, cd, t, n1);
            let r2 = cf_select(p, q, a, b, pn, pd, cn, cd, t, n2);
            abs(p * r2.1 - r2.0 * q) * r1.1 <= abs(p * r1.1 - r1.0 * q) * r2.1
        }),
{
    let r1 = cf_select(p, q, a, b, pn, pd, cn, cd, t, n1);
    let r2 = cf_select(p, q, a, b, pn, pd, cn, cd, t, n2);
    let lb = t / 2;
    vstd::arithmetic::div_mod::lemma_fundamental_div_mod(a, b);
    vstd::arithmetic::div_mod::lemma_mod_bound(a, b);
    assert(t >= 0) by (nonlinear_arith)
        requires
            a == b * t + a % b,
            0 <= a % b < b,
            a >= 0,
            b >= 1,
    ;
    vstd::arithmetic::div_mod::lemma_fundamental_div_mod(t, 2);
    vstd::arithmetic::div_mod::lemma_mod_bound(t, 2);
    lemma_select_no_worse(p, q, a, b, pn, pd, cn, cd, t, n2);
    if n1 < lb || (r1 == (cn, cd)) {
        // whatever the larger room yields, it is at least as good as the
        // convergent, which is what the smaller room returned
        assert(r1 == (cn, cd));
    } else {
        let n1p = if n1 > t {
            t
        } else {
            n1
        };
        let n2p = if n2 > t {
            t
        } else {
            n2
        };
        let sn1 = n1p * cn + pn;
        let sd1 = n1p * cd + pd;
        let sn2 = n2p * cn + pn;
        let sd2 = n2p * cd + pd;
        lemma_closer_equiv(p, q, a, b, pn, pd, cn, cd, n1p);
        lemma_closer_equiv(p, q, a, b, pn, pd, cn, cd, n2p);
        assert(r1 == (sn1, sd1));
        assert(sd1 >= 1) by {
            if n1p > lb {
                assert(sd1 >= 1) by (nonlinear_arith)
                    requires
                        n1p >= 1,
                        cd >= 1,
                        pd >= 0,
                        sd1 == n1p * cd + pd,
                ;
            } else {
                if sd1 == 0 {
                    assert(abs(p * sd1 - sn1 * q) * cd >= 0) by (nonlinear_arith)
                        requires
                            cd >= 1,
                            abs(p * sd1 - sn1 * q) >= 0,
                    ;
                    assert(abs(p * cd - cn * q) * sd1 == 0) by (nonlinear_arith)
                        requires
                            sd1 == 0,
                    ;
                    assert(false);
                }
            }
        }
        assert(sd1 <= sd2 && a - n2p * b <= a - n1p * b) by (nonlinear_arith)
            requires
                0 <= n1p <= n2p,
                cd >= 1,
                b >= 1,
                sd1 == n1p * cd + pd,
                sd2 == n2p * cd + pd,
        ;
        if n2p > lb || closer_to(p, q, sn2, sd2, cn, cd) {
            // both rooms take a semiconvergent, and the larger multiple is
            // closer: a smaller error numerator over a no-smaller denominator
            assert(r2 == (sn2, sd2));
            assert((a - n2p * b) * sd1 <= (a - n1p * b) * sd2) by (nonlinear_arith)
                requires
                    0 <= a - n2p * b <= a - n1p * b,
                    1 <= sd1 <= sd2,
            ;
        } else {
            // the larger room cannot reject its semiconvergent while the
            // smaller accepted one: rejection at n2 says the semiconvergent
            // is no closer than the convergent, and monotonicity in the
            // multiple would push that back onto n1
            assert(r2 == (cn, cd));
            assert(closer_to(p, q, sn1, sd1, cn, cd));
            assert((a - n1p * b) * cd < b * sd1);
            assert(!((a - n2p * b) * cd < b * sd2));
            assert(false) by (nonlinear_arith)
                requires
                    (a - n1p * b) * cd < b * sd1,
                    (a - n2p * b) * cd >= b * sd2,
                    (a - n2p * b) <= (a - n1p * b),
                    0 <= a - n2p * b,
                    1 <= sd1 <= sd2,
                    cd >= 1,
                    b >= 1,
            ;
        }
    }
}

/// Raising the denominator bound never worsens the expansion: from the same
/// reachable state, the loop under a bound `maxd2 >= maxd1` returns a result
/// at least as close to `p / q` as the loop under `maxd1`. The residuals do
/// not depend on the bound, so the two runs fold the same terms until the
/// smaller bound cuts off; from there the larger bound's run starts at the
/// next convergent, which the smaller bound's cut can never beat.
proof fn lemma_cf_loop_mono(
    p: int,
    q: int,
    a: int,
    b: int,
    pn: int,
    pd: int,
    cn: int,
    cd: int,
    i: int,
    maxd1: int,
    maxd2: int,
)
    requires
        1 <= b,
        0 <= a,
        0 <= pn <= 0x7fff_ffff,
        0 <= cn <= 0x7fff_ffff,
        1 <= cd,
        0 <= pd,
        cd + pd <= maxd1,
        maxd1 <= maxd2,
        cn * pd - pn * cd == 1 || cn * pd - pn * cd == -1,
        2 <= i <= 47,
        b * cn + (a % b) * pn == p,
        b * cd + (a % b) * pd == q,
    ensures
        ({
            let r1 = cf_loop(p, q, a, b, pn, pd, cn, cd, i, maxd1);
            let r2 = cf_loop(p, q, a, b, pn, pd, cn, cd, i, maxd2);
            abs(p * r2.1 - r2.0 * q) * r1.1 <= abs(p * r1.1 - r1.0 * q) * r2.1
        }),
    decreases 47 - i,
{
    let rem = a % b;
    vstd::arithmetic::div_mod::lemma_mod_bound(a, b);
    if rem * 1000000000 <= b {
    } else {
        assert(rem >= 1) by (nonlinear_arith)
            requires
                rem * 1000000000 > b,
                b >= 1,
                rem >= 0,
        ;
        let a2 = b;
        let b2 = rem;
        let t = a2 / b2;
        let rem2 = a2 % b2;
        vstd::arithmetic::div_mod::lemma_fundamental_div_mod(a2, b2);
        vstd::arithmetic::div_mod::lemma_mod_bound(a2, b2);
        assert(t >= 1) by (nonlinear_arith)
            requires
                a2 == b2 * t + rem2,
                0 <= rem2 < b2,
                b2 < a2,
                1 <= b2,
        ;
        let n01 = (maxd1 - pd) / cd;
        let n02 = (maxd2 - pd) / cd;
        vstd::arithmetic::div_mod::lemma_div_is_ordered(maxd1 - pd, maxd2 - pd, cd);
        vstd::arithmetic::div_mod::lemma_fundamental_div_mod(maxd1 - pd, cd);
        vstd::arithmetic::div_mod::lemma_mod_bound(maxd1 - pd, cd);
        vstd::arithmetic::div_mod::lemma_fundamental_div_mod(maxd2 - pd, cd);
        vstd::arithmetic::div_mod::lemma_mod_bound(maxd2 - pd, cd);
        assert(n01 >= 1 && n01 * cd <= maxd1 - pd) by (nonlinear_arith)
            requires
                maxd1 - pd == cd * n01 + (maxd1 - pd) % cd,
                0 <= (maxd1 - pd) % cd < cd,
                cd >= 1,
                maxd1 - pd >= cd,
        ;
        assert(n02 * cd <= maxd2 - pd) by (nonlinear_arith)
            requires
                maxd2 - pd == cd * n02 + (maxd2 - pd) % cd,
                0 <= (maxd2 - pd) % cd < cd,
        ;
        let c1 = (0x7fff_ffff - pn) / cn;
        let n1 = if cn > 0 && n01 > c1 {
            c1
        } else {
            n01
        };
        let n2 = if cn > 0 && n02 > c1 {
            c1
        } else {
            n02
        };
        if cn > 0 {
            vstd::arithmetic::div_mod::lemma_fundamental_div_mod(0x7fff_ffff - pn, cn);
            vstd::arithmetic::div_mod::lemma_mod_bound(0x7fff_ffff - pn, cn);
            assert(c1 >= 0 && c1 * cn <= 0x7fff_ffff - pn) by (nonlinear_arith)
                requires
                    0x7fff_ffff - pn == cn * c1 + (0x7fff_ffff - pn) % cn,
                    0 <= (0x7fff_ffff - pn) % cn < cn,
                    cn >= 1,
                    0x7fff_ffff - pn >= 0,
            ;
        }
        assert(n1 <= n2);
        if i >= 47 || t >= n2 {
            // both runs cut off here (the larger bound's cut implies the
            // smaller one's)
            lemma_select_mono(p, q, a2, b2, pn, pd, cn, cd, t, n1, n2);
        } else if t >= n1 {
            // only the smaller bound cuts off; the larger one folds the term
            // and its continuation never falls behind the next convergent,
            // which in turn beats whatever the cut produced
            let ncn = t * cn + pn;
            let ncd = t * cd + pd;
            assert(0 <= ncn <= 0x7fff_ffff) by (nonlinear_arith)
                requires
                    1 <= t,
                    t < n2,
                    cn > 0 ==> n2 <= c1,
                    cn > 0 ==> c1 * cn <= 0x7fff_ffff - pn,
                    0 <= pn <= 0x7fff_ffff,
                    0 <= cn,
                    ncn == t * cn + pn,
            ;
            assert(1 <= ncd && ncd + cd <= maxd2) by (nonlinear_arith)
                requires
                    1 <= t,
                    t < n2,
                    n2 <= n02,
                    n02 * cd <= maxd2 - pd,
                    1 <= cd,
                    0 <= pd,
                    ncd == t * cd + pd,
            ;
            assert(ncn * cd - cn * ncd == -(cn * pd - pn * cd)) by (nonlinear_arith)
                requires
                    ncn == t * cn + pn,
                    ncd == t * cd + pd,
            ;
            assert(b2 * ncn + rem2 * cn == a2 * cn + b2 * pn) by (nonlinear_arith)
                requires
                    rem2 == a2 - b2 * t,
                    ncn == t * cn + pn,
            ;
            assert(b2 * ncd + rem2 * cd == a2 * cd + b2 * pd) by (nonlinear_arith)
                requires
                    rem2 == a2 - b2 * t,
                    ncd == t * cd + pd,
            ;
            lemma_cf_loop_no_worse(p, q, a2, b2, cn, cd, ncn, ncd, i + 1, maxd2);
            lemma_cf_loop_props(p, q, a2, b2, cn, cd, ncn, ncd, i + 1, maxd2);
            let r2 = cf_loop(p, q, a2, b2, cn, cd, ncn, ncd, i + 1, maxd2);
            let r1 = cf_select(p, q, a2, b2, pn, pd, cn, cd, t, n1);
            // the next convergent is the semiconvergent at the full term, so
            // the cut under the smaller bound cannot beat it
            lemma_select_mono(p, q, a2, b2, pn, pd, cn, cd, t, n1, t);
            assert(cf_select(p, q, a2, b2, pn, pd, cn, cd, t, t) == (ncn, ncd)) by {
                vstd::arithmetic::div_mod::lemma_fundamental_div_mod(t, 2);
                vstd::arithmetic::div_mod::lemma_mod_bound(t, 2);
                assert(t > t / 2);
            }
            assert(r1.1 >= 1 && abs(p * r1.1 - r1.0 * q) >= 0) by {
                lemma_cf_loop_props_select(p, q, a2, b2, pn, pd, cn, cd, t, n1);
            }
            lemma_err_rel_trans(
                abs(p * r2.1 - r2.0 * q),
                r2.1,
                abs(p * ncd - ncn * q),
                ncd,
                abs(p * r1.1 - r1.0 * q),
                r1.1,
            );
        } else {
            // both runs fold the same term
            let ncn = t * cn + pn;
            let ncd = t * cd + pd;
            assert(0 <= ncn <= 0x7fff_ffff) by (nonlinear_arith)
                requires
                    1 <= t,
                    t < n1,
                    cn > 0 ==> n1 <= c1,
                    cn > 0 ==> c1 * cn <= 0x7fff_ffff - pn,
                    0 <= pn <= 0x7fff_ffff,
                    0 <= cn,
                    ncn == t * cn + pn,
            ;
            assert(1 <= ncd && ncd + cd <= maxd1) by (nonlinear_arith)
                requires
                    1 <= t,
                    t < n1,
                    n1 <= n01,
                    n01 * cd <= maxd1 - pd,
                    1 <= cd,
                    0 <= pd,
                    ncd == t * cd + pd,
            ;
            assert(ncn * cd - cn * ncd == -(cn * pd - pn * cd)) by (nonlinear_arith)
                requires
                    ncn == t * cn + pn,
                    ncd == t * cd + pd,
            ;
            assert(b2 * ncn + rem2 * cn == a2 * cn + b2 * pn) by (nonlinear_arith)
                requires
                    rem2 == a2 - b2 * t,
                    ncn == t * cn + pn,
            ;
            assert(b2 * ncd + rem2 * cd == a2 * cd + b2 * pd) by (nonlinear_arith)
                requires
                    rem2 == a2 - b2 * t,
                    ncd == t * cd + pd,
            ;
            lemma_cf_loop_mono(p, q, a2, b2, cn, cd, ncn, ncd, i + 1, maxd1, maxd2);
        }
    }
}

/// The cut-off's result has a positive denominator whenever the state is
/// reachable under some bound: a small companion to [`lemma_cf_loop_props`]
/// for the select step alone.
proof fn lemma_cf_loop_props_select(
    p: int,
    q: int,
    a: int,
    b: int,
    pn: int,
    pd: int,
    cn: int,
    cd: int,
    t: int,
    n: int,
)
    requires
        b >= 1,
        a >= 0,
        0 <= n,
        t == a / b,
        1 <= cd,
        0 <= pd,
        cn * pd - pn * cd == 1 || cn * pd - pn * cd == -1,
    ensures
        ({
            let r = cf_select(p, q, a, b, pn, pd, cn, cd, t, n);
            r.1 >= 1
        }),
{
    let lb = t / 2;
    vstd::arithmetic::div_mod::lemma_fundamental_div_mod(a, b);
    vstd::arithmetic::div_mod::lemma_mod_bound(a, b);
    assert(t >= 0) by (nonlinear_arith)
        requires
            a == b * t + a % b,
            0 <= a % b < b,
            a >= 0,
            b >= 1,
    ;
    vstd::arithmetic::div_mod::lemma_fundamental_div_mod(t, 2);
    vstd::arithmetic::div_mod::lemma_mod_bound(t, 2);
    if n >= lb {
        let n2 = if n > t {
            t
        } else {
            n
        };
        let sn = n2 * cn + pn;
        let sd = n2 * cd + pd;
        if n2 > lb || closer_to(p, q, sn, sd, cn, cd) {
            if n2 > lb {
                assert(sd >= 1) by (nonlinear_arith)
                    requires
                        n2 >= 1,
                        cd >= 1,
                        pd >= 0,
                        sd == n2 * cd + pd,
                ;
            } else {
                if sd == 0 {
                    assert(abs(p * sd - sn * q) * cd >= 0) by (nonlinear_arith)
                        requires
                            cd >= 1,
                            abs(p * sd - sn * q) >= 0,
                    ;
                    assert(abs(p * cd - cn * q) * sd == 0) by (nonlinear_arith)
                        requires
                            sd == 0,
                    ;
                    assert(false);
                }
            }
        }
    }
}

/// Every result of the expansion loop has a nonnegative numerator within the
/// 32-bit range, a positive denominator within the bound, and the two are
/// coprime (consecutive convergents and their semiconvergents always are).
proof fn lemma_cf_loop_props(
    p: int,
    q: int,
    a: int,
    b: int,
    pn: int,
    pd: int,
    cn: int,
    cd: int,
    i: int,
    maxd: int,
)
    requires
        1 <= b,
        0 <= a,
        0 <= pn <= 0x7fff_ffff,
        0 <= cn <= 0x7fff_ffff,
        1 <= cd,
        0 <= pd,
        cd + pd <= maxd,
        cn * pd - pn * cd == 1 || cn * pd - pn * cd == -1,
        2 <= i <= 47,
    ensures
        ({
            let r = cf_loop(p, q, a, b, pn, pd, cn, cd, i, maxd);
            &&& 0 <= r.0 <= 0x7fff_ffff
            &&& 1 <= r.1 <= maxd
            &&& crate::math::gcd_spec(r.0 as nat, r.1 as nat) == 1
        }),
    decreases 47 - i,
{
    let rem = a % b;
    vstd::arithmetic::div_mod::lemma_mod_bound(a, b);
    if rem * 1000000000 <= b {
        crate::math::lemma_unit_combination_coprime(cn as nat, cd as nat, pd, pn);
    } else {
        let a2 = b;
        let b2 = rem;
        assert(b2 >= 1) by (nonlinear_arith)
            requires
                rem * 1000000000 > b,
                b >= 1,
                rem >= 0,
                b2 == rem,
        ;
        let t = a2 / b2;
        vstd::arithmetic::div_mod::lemma_fundamental_div_mod(a2, b2);
        vstd::arithmetic::div_mod::lemma_mod_bound(a2, b2);
        assert(t >= 1) by (nonlinear_arith)
            requires
                a2 == b2 * t + a2 % b2,
                0 <= a2 % b2 < b2,
                b2 < a2,
                1 <= b2,
        ;
        let n0 = (maxd - pd) / cd;
        vstd::arithmetic::div_mod::lemma_fundamental_div_mod(maxd - pd, cd);
        vstd::arithmetic::div_mod::lemma_mod_bound(maxd - pd, cd);
        assert(n0 >= 1 && n0 * cd <= maxd - pd) by (nonlinear_arith)
            requires
                maxd - pd == cd * n0 + (maxd - pd) % cd,
                0 <= (maxd - pd) % cd < cd,
                cd >= 1,
                maxd - pd >= cd,
        ;
        let c1 = (0x7fff_ffff - pn) / cn;
        let n = if cn > 0 && n0 > c1 {
            c1
        } else {
            n0
        };
        if cn > 0 {
            vstd::arithmetic::div_mod::lemma_fundamental_div_mod(0x7fff_ffff - pn, cn);
            vstd::arithmetic::div_mod::lemma_mod_bound(0x7fff_ffff - pn, cn);
            assert(c1 >= 0 && c1 * cn <= 0x7fff_ffff - pn) by (nonlinear_arith)
                requires
                    0x7fff_ffff - pn == cn * c1 + (0x7fff_ffff - pn) % cn,
                    0 <= (0x7fff_ffff - pn) % cn < cn,
                    cn >= 1,
                    0x7fff_ffff - pn >= 0,
            ;
        }
        assert(n >= 0);
        if i >= 47 || t >= n {
            let lb = t / 2;
            vstd::arithmetic::div_mod::lemma_fundamental_div_mod(t, 2);
            vstd::arithmetic::div_mod::lemma_mod_bound(t, 2);
            if n >= lb {
                let n2 = if n > t {
                    t
                } else {
                    n
                };
                let sn = n2 * cn + pn;
                let sd = n2 * cd + pd;
                assert(0 <= sn <= 0x7fff_ffff && 0 <= sd <= maxd) by (nonlinear_arith)
                    requires
                        0 <= n2,
                        n2 <= n,
                        cn > 0 ==> n <= c1,
                        cn > 0 ==> c1 * cn <= 0x7fff_ffff - pn,
                        n <= n0,
                        n0 * cd <= maxd - pd,
                        0 <= pn <= 0x7fff_ffff,
                        0 <= cn,
                        1 <= cd,
                        0 <= pd,
                        sn == n2 * cn + pn,
                        sd == n2 * cd + pd,
                ;
                if n2 > lb || closer_to(p, q, sn, sd, cn, cd) {
                    if n2 > lb {
                        assert(sd >= 1) by (nonlinear_arith)
                            requires
                                n2 >= 1,
                                cd >= 1,
                                pd >= 0,
                                sd == n2 * cd + pd,
                        ;
                    } else {
                        // A zero denominator would make the closeness test
                        // compare a nonnegative quantity against zero.
                        if sd == 0 {
                            assert(abs(p * sd - sn * q) * cd >= 0) by (nonlinear_arith)
                                requires
                                    cd >= 1,
                                    abs(p * sd - sn * q) >= 0,
                            ;
                            assert(abs(p * cd - cn * q) * sd == 0) by (nonlinear_arith)
                                requires
                                    sd == 0,
                            ;
                            assert(false);
                        }
                    }
                    assert(sn * cd - cn * sd == -(cn * pd - pn * cd)) by (nonlinear_arith)
                        requires
                            sn == n2 * cn + pn,
                            sd == n2 * cd + pd,
                    ;
                    crate::math::lemma_unit_combination_coprime(sn as nat, sd as nat, cd, cn);
                } else {
                    crate::math::lemma_unit_combination_coprime(cn as nat, cd as nat, pd, pn);
                }
            } else {
                crate::math::lemma_unit_combination_coprime(cn as nat, cd as nat, pd, pn);
            }
        } else {
            let ncn = t * cn + pn;
            let ncd = t * cd + pd;
            assert(0 <= ncn <= 0x7fff_ffff) by (nonlinear_arith)
                requires
                    1 <= t,
                    t < n,
                    cn > 0 ==> n <= c1,
                    cn > 0 ==> c1 * cn <= 0x7fff_ffff - pn,
                    0 <= pn <= 0x7fff_ffff,
                    0 <= cn,
                    ncn == t * cn + pn,
            ;
            assert(1 <= ncd && ncd + cd <= maxd) by (nonlinear_arith)
                requires
                    1 <= t,
                    t < n,
                    n <= n0,
                    n0 * cd <= maxd - pd,
                    1 <= cd,
                    0 <= pd,
                    ncd == t * cd + pd,
            ;
            assert(ncn * cd - cn * ncd == -(cn * pd - pn * cd)) by (nonlinear_arith)
                requires
                    ncn == t * cn + pn,
                    ncd == t * cd + pd,
            ;
            lemma_cf_loop_props(p, q, a2, b2, cn, cd, ncn, ncd, i + 1, maxd);
        }
    }
}

/// The expansion loop, run on machine integers.
///
/// `a / b` is the current residual of the magnitude `p / q` being expanded
/// (`p` and `q` are ghosts: the loop itself never needs them, only the
/// cut-off's closeness test does, and there they cancel into small numbers).
/// Residuals never exceed the initial denominator, which stays below `2^83`,
/// so every intermediate product fits comfortably in a `u128`.
fn cf_run(
    Ghost(p): Ghost<int>,
    Ghost(q): Ghost<int>,
    a: u128,
    b: u128,
    pn: u64,
    pd: u64,
    cn: u64,
    cd: u64,
    i: u64,
    maxd: u64,
) -> (r: (u64, u64))
    requires
        1 <= b <= 0x8_0000_0000_0000_0000_0000u128,
        a <= 0x8_0000_0000_0000_0000_0000u128,
        pn <= 0x7fff_ffff,
        cn <= 0x7fff_ffff,
        1 <= cd,
        cd + pd <= maxd,
        maxd <= 0x7fff_ffff,
        2 <= i <= 47,
        b * cn + (a % b) * pn == p,
        b * cd + (a % b) * pd == q,
        cn * pd - pn * cd == 1 || cn * pd - pn * cd == -1,
    ensures
        (r.0 as int, r.1 as int) == cf_loop(
            p,
            q,
            a as int,
            b as int,
            pn as int,
            pd as int,
            cn as int,
            cd as int,
            i as int,
            maxd as int,
        ),
    decreases 47 - i,
{
    proof {
        assert((a % b) * 1000000000 <= u128::MAX) by (nonlinear_arith)
            requires
                a % b < b,
                b <= 0x8_0000_0000_0000_0000_0000u128,
        ;
    }
    let rem: u128 = a % b;
    if rem * 1000000000 <= b {
        return (cn, cd);
    }
    let a2: u128 = b;
    let b2: u128 = rem;
    let t128: u128 = a2 / b2;
    proof {
        vstd::arithmetic::div_mod::lemma_fundamental_div_mod(a2 as int, b2 as int);
        vstd::arithmetic::div_mod::lemma_mod_bound(a2 as int, b2 as int);
        assert(1 <= t128 < 1000000000) by (nonlinear_arith)
            requires
                a2 == b2 * t128 + a2 % b2,
                0 <= a2 % b2 < b2,
                b2 < a2,
                a2 < b2 * 1000000000,
                1 <= b2,
        ;
    }
    let t: u64 = t128 as u64;
    let n0: u64 = (maxd - pd) / cd;
    let ghost c1_spec: int = (0x7fff_ffff - pn as int) / cn as int;
    proof {
        vstd::arithmetic::div_mod::lemma_fundamental_div_mod(maxd as int - pd as int, cd as int);
        vstd::arithmetic::div_mod::lemma_mod_bound(maxd as int - pd as int, cd as int);
        assert(n0 * cd <= maxd - pd) by (nonlinear_arith)
            requires
                maxd as int - pd as int == cd as int * n0 as int + (maxd as int - pd as int) % (
                cd as int),
                0 <= (maxd as int - pd as int) % (cd as int),
        ;
    }
    let n: u64 = if cn > 0 {
        let c1: u64 = (0x7fff_ffff - pn) / cn;
        proof {
            vstd::arithmetic::div_mod::lemma_fundamental_div_mod(
                0x7fff_ffff - pn as int,
                cn as int,
            );
            vstd::arithmetic::div_mod::lemma_mod_bound(0x7fff_ffff - pn as int, cn as int);
            assert(c1 * cn <= 0x7fff_ffff - pn) by (nonlinear_arith)
                requires
                    0x7fff_ffff - pn as int == cn as int * c1 as int + (0x7fff_ffff - pn as int) % (
                    cn as int),
                    0 <= (0x7fff_ffff - pn as int) % (cn as int),
            ;
        }
        if n0 > c1 {
            c1
        } else {
            n0
        }
    } else {
        n0
    };
    proof {
        assert(n <= n0);
        assert(cn > 0 ==> n as int <= c1_spec && c1_spec * cn <= 0x7fff_ffff - pn);
    }
    if i >= 47 || t >= n {
        let lb: u64 = t / 2;
        if n >= lb {
            let n2: u64 = if n > t {
                t
            } else {
                n
            };
            proof {
                assert(n2 * cn + pn <= 0x7fff_ffff && n2 * cd + pd <= maxd) by (nonlinear_arith)
                    requires
                        n2 <= n,
                        cn > 0 ==> n as int <= c1_spec && c1_spec * cn <= 0x7fff_ffff - pn,
                        n <= n0,
                        n0 * cd <= maxd - pd,
                        pn <= 0x7fff_ffff,
                        0 <= cn,
                        1 <= cd,
                        0 <= pd,
                        maxd <= 0x7fff_ffff,
                ;
                assert(n2 as u128 * b2 <= a2) by (nonlinear_arith)
                    requires
                        n2 <= t128,
                        a2 == b2 * t128 + a2 % b2,
                        0 <= a2 % b2,
                        1 <= b2,
                ;
            }
            let sn: u64 = n2 * cn + pn;
            let sd: u64 = n2 * cd + pd;
            let diff: u128 = a2 - (n2 as u128) * b2;
            proof {
                assert(diff * (cd as u128) <= u128::MAX && b2 * (sd as u128) <= u128::MAX)
                    by (nonlinear_arith)
                    requires
                        diff <= a2 <= 0x8_0000_0000_0000_0000_0000u128,
                        b2 <= 0x8_0000_0000_0000_0000_0000u128,
                        cd <= 0x7fff_ffff,
                        sd <= 0x7fff_ffff,
                ;
                lemma_closer_equiv(
                    p,
                    q,
                    a2 as int,
                    b2 as int,
                    pn as int,
                    pd as int,
                    cn as int,
                    cd as int,
                    n2 as int,
                );
            }
            if n2 > lb || diff * (cd as u128) < b2 * (sd as u128) {
                return (sn, sd);
            }
            return (cn, cd);
        }
        return (cn, cd);
    }
    proof {
        assert(t * cn + pn <= 0x7fff_ffff && 1 <= t * cd + pd && t * cd + pd + cd <= maxd)
            by (nonlinear_arith)
            requires
                1 <= t,
                t < n,
                cn > 0 ==> n as int <= c1_spec && c1_spec * cn <= 0x7fff_ffff - pn,
                n <= n0,
                n0 * cd <= maxd - pd,
                pn <= 0x7fff_ffff,
                0 <= cn,
                1 <= cd,
                0 <= pd,
        ;
        assert((t * cn + pn) * cd - cn * (t * cd + pd) == -(cn * pd - pn * cd))
            by (nonlinear_arith);
        // the cut ties the next residual to the updated convergents
        assert(b2 * (t * cn + pn) + (a2 % b2) * cn == a2 * cn + b2 * pn) by (nonlinear_arith)
            requires
                a2 % b2 == a2 - b2 * t128,
                t128 == t,
        ;
        assert(b2 * (t * cd + pd) + (a2 % b2) * cd == a2 * cd + b2 * pd) by (nonlinear_arith)
            requires
                a2 % b2 == a2 - b2 * t128,
                t128 == t,
        ;
    }
    let ncn: u64 = t * cn + pn;
    let ncd: u64 = t * cd + pd;
    cf_run(Ghost(p), Ghost(q), a2, b2, cn, cd, ncn, ncd, i + 1, maxd)
}

/// The Fibonacci numbers: the slowest-growing denominators a continued
/// fraction can have, which bounds how many terms an expansion can take.
spec fn fib(k: nat) -> nat
    decreases k,
{
    if k == 0 {
        0
    } else if k == 1 {
        1
    } else {
        fib((k - 2) as nat) + fib((k - 1) as nat)
    }
}

/// The Fibonacci number that a 46-term expansion would force on the
/// denominator: already past `10^9`.
proof fn lemma_fib_46()
    ensures
        fib(46) == 1836311903,
{
    reveal_with_fuel(fib, 3);
    assert(fib(2) == 1);
    assert(fib(3) == 2);
    assert(fib(4) == 3);
    assert(fib(5) == 5);
    assert(fib(6) == 8);
    assert(fib(7) == 13);
    assert(fib(8) == 21);
    assert(fib(9) == 34);
    assert(fib(10) == 55);
    assert(fib(11) == 89);
    assert(fib(12) == 144);
    assert(fib(13) == 233);
    assert(fib(14) == 377);
    assert(fib(15) == 610);
    assert(fib(16) == 987);
    assert(fib(17) == 1597);
    assert(fib(18) == 2584);
    assert(fib(19) == 4181);
    assert(fib(20) == 6765);
    assert(fib(21) == 10946);
    assert(fib(22) == 17711);
    assert(fib(23) == 28657);
    assert(fib(24) == 46368);
    assert(fib(25) == 75025);
    assert(fib(26) == 121393);
    assert(fib(27) == 196418);
    assert(fib(28) == 317811);
    assert(fib(29) == 514229);
    assert(fib(30) == 832040);
    assert(fib(31) == 1346269);
    assert(fib(32) == 2178309);
    assert(fib(33) == 3524578);
    assert(fib(34) == 5702887);
    assert(fib(35) == 9227465);
    assert(fib(36) == 14930352);
    assert(fib(37) == 24157817);
    assert(fib(38) == 39088169);
    assert(fib(39) == 63245986);
    assert(fib(40) == 102334155);
    assert(fib(41) == 165580141);
    assert(fib(42) == 267914296);
    assert(fib(43) == 433494437);
    assert(fib(44) == 701408733);
    assert(fib(45) == 1134903170);
    assert(fib(46) == 1836311903);
}

/// Expanding an exactly representable fraction reproduces it: if the entry
/// state of the loop is reached while expanding the coprime fraction `n / d`
/// itself, with `d` inside the bound and small enough that the convergence
/// tolerance can only fire on a zero remainder, the loop ends at `(n, d)`.
proof fn lemma_cf_loop_exact(
    n: int,
    d: int,
    a: int,
    b: int,
    pn: int,
    pd: int,
    cn: int,
    cd: int,
    i: int,
    maxd: int,
)
    requires
        1 <= b <= d,
        0 <= a,
        d <= maxd,
        d < 1000000000,
        1 <= n <= 0x7fff_ffff,
        crate::math::gcd_spec(n as nat, d as nat) == 1,
        0 <= pn,
        0 <= cn,
        1 <= cd,
        0 <= pd,
        b * cn + (a % b) * pn == n,
        b * cd + (a % b) * pd == d,
        cn * pd - pn * cd == 1 || cn * pd - pn * cd == -1,
        2 <= i <= 47,
        cd >= fib((i - 1) as nat),
        pd >= fib((i - 2) as nat),
    ensures
        cf_loop(n, d, a, b, pn, pd, cn, cd, i, maxd) == (n, d),
    decreases 47 - i,
{
    let rem = a % b;
    vstd::arithmetic::div_mod::lemma_mod_bound(a, b);
    if rem * 1000000000 <= b {
        // the tolerance can only fire on an exact remainder here
        assert(rem == 0) by (nonlinear_arith)
            requires
                rem * 1000000000 <= b,
                b <= d < 1000000000,
                rem >= 0,
        ;
        assert(b * cn == n && b * cd == d);
        assert(crate::math::divides(b, n) && crate::math::divides(b, d)) by {
            assert(n == b * cn && d == b * cd);
        }
        crate::math::lemma_gcd_greatest(n as nat, d as nat, b);
        crate::math::lemma_divisor_le(b, 1);
        assert(b == 1);
        assert(cn == n && cd == d);
    } else {
        assert(rem >= 1) by (nonlinear_arith)
            requires
                rem * 1000000000 > b,
                b >= 1,
                rem >= 0,
        ;
        let a2 = b;
        let b2 = rem;
        let t = a2 / b2;
        let rem2 = a2 % b2;
        vstd::arithmetic::div_mod::lemma_fundamental_div_mod(a2, b2);
        vstd::arithmetic::div_mod::lemma_mod_bound(a2, b2);
        assert(t >= 1) by (nonlinear_arith)
            requires
                a2 == b2 * t + rem2,
                0 <= rem2 < b2,
                b2 < a2,
                1 <= b2,
        ;
        let ncn = t * cn + pn;
        let ncd = t * cd + pd;
        // one more step of the recurrence keeps the exact identities
        assert(b2 * ncn + rem2 * cn == n && b2 * ncd + rem2 * cd == d) by (nonlinear_arith)
            requires
                a2 == b2 * t + rem2,
                a2 * cn + b2 * pn == n,
                a2 * cd + b2 * pd == d,
                ncn == t * cn + pn,
                ncd == t * cd + pd,
        ;
        assert(ncn <= n && ncd <= d) by (nonlinear_arith)
            requires
                b2 * ncn + rem2 * cn == n,
                b2 * ncd + rem2 * cd == d,
                b2 >= 1,
                rem2 >= 0,
                cn >= 0,
                cd >= 1,
                ncn >= 0,
                ncd >= 0,
        ;
        let n0 = (maxd - pd) / cd;
        vstd::arithmetic::div_mod::lemma_fundamental_div_mod(maxd - pd, cd);
        vstd::arithmetic::div_mod::lemma_mod_bound(maxd - pd, cd);
        assert(t <= n0 && n0 * cd <= maxd - pd) by (nonlinear_arith)
            requires
                maxd - pd == cd * n0 + (maxd - pd) % cd,
                0 <= (maxd - pd) % cd < cd,
                t * cd + pd <= maxd,
                cd >= 1,
                t >= 0,
                ncd == t * cd + pd,
                ncd <= d <= maxd,
        ;
        let c1 = (0x7fff_ffff - pn) / cn;
        if cn > 0 {
            vstd::arithmetic::div_mod::lemma_fundamental_div_mod(0x7fff_ffff - pn, cn);
            vstd::arithmetic::div_mod::lemma_mod_bound(0x7fff_ffff - pn, cn);
            assert(t <= c1 && c1 * cn <= 0x7fff_ffff - pn) by (nonlinear_arith)
                requires
                    0x7fff_ffff - pn == cn * c1 + (0x7fff_ffff - pn) % cn,
                    0 <= (0x7fff_ffff - pn) % cn < cn,
                    cn >= 1,
                    t >= 0,
                    ncn == t * cn + pn,
                    ncn <= n <= 0x7fff_ffff,
            ;
        }
        let nsel = if cn > 0 && n0 > c1 {
            c1
        } else {
            n0
        };
        assert(t <= nsel);
        if i >= 47 || t >= nsel {
            if t < nsel {
                // only the term cap can cut here, but by then the Fibonacci
                // growth of the denominators has outrun the bound on d
                assert(i == 47);
                lemma_fib_46();
                assert(cd >= fib(46));
                assert(cd <= d) by (nonlinear_arith)
                    requires
                        b * cd + rem * pd == d,
                        b >= 1,
                        rem >= 0,
                        pd >= 0,
                        cd >= 0,
                ;
                assert(false);
            }
            // the cut term is exactly the room that is left, and taking it in
            // full lands on the fraction itself: any later remainder would
            // push past the bound that d itself respects
            assert(t == nsel);
            if rem2 >= 1 {
                if cn > 0 && n0 > c1 {
                    assert(n >= ncn + cn) by (nonlinear_arith)
                        requires
                            b2 * ncn + rem2 * cn == n,
                            b2 >= 1,
                            rem2 >= 1,
                            cn >= 0,
                            ncn >= 0,
                    ;
                    assert(ncn > 0x7fff_ffff - cn) by (nonlinear_arith)
                        requires
                            0x7fff_ffff - pn < c1 * cn + cn,
                            ncn == t * cn + pn,
                            t == c1,
                    ;
                    assert(false);
                } else {
                    assert(d >= ncd + cd) by (nonlinear_arith)
                        requires
                            b2 * ncd + rem2 * cd == d,
                            b2 >= 1,
                            rem2 >= 1,
                            cd >= 1,
                            ncd >= 0,
                    ;
                    assert(ncd > maxd - cd) by (nonlinear_arith)
                        requires
                            maxd - pd < n0 * cd + cd,
                            ncd == t * cd + pd,
                            t == n0,
                    ;
                    assert(false);
                }
            }
            assert(rem2 == 0);
            assert(rem2 * cn == 0 && rem2 * cd == 0) by (nonlinear_arith)
                requires
                    rem2 == 0,
            ;
            assert(b2 * ncn == n && b2 * ncd == d);
            assert(crate::math::divides(b2, n) && crate::math::divides(b2, d)) by {
                assert(n == b2 * ncn && d == b2 * ncd);
            }
            crate::math::lemma_gcd_greatest(n as nat, d as nat, b2);
            crate::math::lemma_divisor_le(b2, 1);
            assert(b2 == 1);
            assert(ncn == n && ncd == d) by (nonlinear_arith)
                requires
                    b2 == 1,
                    b2 * ncn == n,
                    b2 * ncd == d,
            ;
            // the selection takes the full term: above half, it is accepted
            let lb = t / 2;
            vstd::arithmetic::div_mod::lemma_fundamental_div_mod(t, 2);
            vstd::arithmetic::div_mod::lemma_mod_bound(t, 2);
            assert(t > lb);
            assert(cf_select(n, d, a2, b2, pn, pd, cn, cd, t, nsel) == (n, d));
        } else {
            assert(ncd >= fib((i - 1) as nat) + fib((i - 2) as nat)) by (nonlinear_arith)
                requires
                    t >= 1,
                    cd >= fib((i - 1) as nat),
                    pd >= fib((i - 2) as nat),
                    ncd == t * cd + pd,
                    cd >= 0,
            ;
            assert(fib((i + 1 - 1) as nat) == fib((i - 1) as nat) + fib((i - 2) as nat));
            assert(ncn * cd - cn * ncd == -(cn * pd - pn * cd)) by (nonlinear_arith)
                requires
                    ncn == t * cn + pn,
                    ncd == t * cd + pd,
            ;
            assert(ncd >= 1) by (nonlinear_arith)
                requires
                    t >= 1,
                    cd >= 1,
                    pd >= 0,
                    ncd == t * cd + pd,
            ;
            lemma_cf_loop_exact(n, d, a2, b2, cn, cd, ncn, ncd, i + 1, maxd);
        }
    }
}

/// Feeding an exactly representable fraction back into the expansion is a
/// fixed point: a coprime `n / d` with `1 <= d <= maxd` and `d` below `10^9`
/// (so the convergence tolerance can only fire on a zero remainder) comes
/// back unchanged.
pub proof fn lemma_exact_fixed_point(n: int, d: int, maxd: int)
    requires
        1 <= n <= 0x7fff_ffff,
        1 <= d <= maxd,
        d < 1000000000,
        crate::math::gcd_spec(n as nat, d as nat) == 1,
    ensures
        approx_mag(n, d, maxd) == (n, d),
{
    vstd::arithmetic::div_mod::lemma_fundamental_div_mod(n, d);
    lemma_cf_loop_exact(n, d, n, d, 1, 0, n / d, 1, 2, maxd);
}

/// Powers of two just past the range that residual denominators can reach.
proof fn lemma_pow2_large()
    ensures
        vstd::arithmetic::power2::pow2(83) == 0x8_0000_0000_0000_0000_0000,
        vstd::arithmetic::power2::pow2(84) == 0x10_0000_0000_0000_0000_0000,
{
    vstd::arithmetic::power2::lemma2_to64();
    vstd::arithmetic::power2::lemma2_to64_rest();
    vstd::arithmetic::power2::lemma_pow2_adds(64, 19);
    vstd::arithmetic::power2::lemma_pow2_adds(64, 20);
}

/// Find the best rational approximation of a double-precision value, given as
/// its IEEE 754 bit pattern, keeping the denominator at most `max_denominator`.
///
/// Invalid inputs map to sentinel values rather than errors: a bound of zero
/// or less, or a NaN, give `(0, 0)`; magnitudes beyond the 32-bit integer
/// range (infinities included) saturate to `(i32::MAX, 1)` or `(i32::MIN, 1)`.
/// Every other value yields a fraction in lowest terms whose denominator lies
/// in `[1, max_denominator]`; the sign of the value is carried by the
/// numerator alone.
pub fn rational_approximation(bits: u64, max_denominator: i32) -> (r: (i32, i32))
    ensures
        (r.0 as int, r.1 as int) == approx_bits(bits, max_denominator as int),
{
    if max_denominator <= 0 {
        return (0, 0);
    }
    let exp_field: u64 = (bits >> 52) & 0x7ff;
    let frac_field: u64 = bits & 0xf_ffff_ffff_ffff;
    let negative: bool = (bits >> 63) == 1;
    proof {
        assert((bits >> 52) & 0x7ff <= 0x7ff && bits & 0xf_ffff_ffff_ffff <= 0xf_ffff_ffff_ffff)
            by (bit_vector);
    }
    if exp_field == 0x7ff {
        if frac_field == 0 {
            if negative {
                return (i32::MIN, 1);
            }
            return (i32::MAX, 1);
        }
        return (0, 0);
    }
    // the exact magnitude is mantissa / 2^scale
    let mantissa: u64 = if exp_field == 0 {
        frac_field
    } else {
        proof {
            assert((bits & 0xf_ffff_ffff_ffff) | 0x10_0000_0000_0000 == (bits
                & 0xf_ffff_ffff_ffff) + 0x10_0000_0000_0000) by (bit_vector);
        }
        frac_field | 0x10_0000_0000_0000
    };
    if exp_field >= 1075 {
        // a whole multiple of at least 2^52: far beyond the 32-bit range
        proof {
            vstd::arithmetic::power2::lemma_pow2_pos((f64_exponent(bits)) as nat);
            assert(2 * f64_mag_num(bits) > 0xffff_ffff * f64_mag_den(bits)) by (nonlinear_arith)
                requires
                    f64_mag_num(bits) == crate::math::float_bits::f64_mantissa(bits)
                        * vstd::arithmetic::power2::pow2(f64_exponent(bits) as nat),
                    crate::math::float_bits::f64_mantissa(bits) >= 0x10_0000_0000_0000,
                    vstd::arithmetic::power2::pow2(f64_exponent(bits) as nat) >= 1,
                    f64_mag_den(bits) == 1,
            ;
        }
        if negative {
            return (i32::MIN, 1);
        }
        return (i32::MAX, 1);
    }
    let scale: u64 = if exp_field == 0 {
        1074
    } else {
        1075 - exp_field
    };
    proof {
        assert(scale == -f64_exponent(bits));
        assert(f64_mag_num(bits) == mantissa);
        assert(f64_mag_den(bits) == vstd::arithmetic::power2::pow2(scale as nat));
        assert(mantissa < 0x20_0000_0000_0000);
    }
    if scale <= 22 {
        proof {
            vstd::arithmetic::power2::lemma2_to64();
            if scale < 22 {
                vstd::arithmetic::power2::lemma_pow2_strictly_increases(scale as nat, 22);
            }
            assert(0xffff_ffffu64 * vstd::arithmetic::power2::pow2(scale as nat) < 0x8000_0000_0000_0000)
                by (nonlinear_arith)
                requires
                    vstd::arithmetic::power2::pow2(scale as nat) <= 0x40_0000,
            ;
            vstd::bits::lemma_u64_shl_is_mul(0xffff_fffdu64, scale);
            vstd::bits::lemma_u64_shl_is_mul(0xffff_ffffu64, scale);
        }
        if !negative && 2 * mantissa > (0xffff_fffdu64 << scale) {
            return (i32::MAX, 1);
        }
        if negative && 2 * mantissa > (0xffff_ffffu64 << scale) {
            return (i32::MIN, 1);
        }
    } else {
        // a magnitude below 2^53 / 2^23: comfortably inside the 32-bit range
        proof {
            vstd::arithmetic::power2::lemma2_to64();
            if scale > 23 {
                vstd::arithmetic::power2::lemma_pow2_strictly_increases(23, scale as nat);
            }
            assert(2 * mantissa <= 0xffff_fffd * vstd::arithmetic::power2::pow2(scale as nat))
                by (nonlinear_arith)
                requires
                    vstd::arithmetic::power2::pow2(scale as nat) >= 0x80_0000,
                    mantissa < 0x20_0000_0000_0000,
            ;
            assert(0xffff_fffd * f64_mag_den(bits) <= 0xffff_ffff * f64_mag_den(bits))
                by (nonlinear_arith)
                requires
                    f64_mag_den(bits) >= 0,
            ;
        }
    }
    proof {
        assert(!f64_is_negative(bits) ==> !f64_mag_above_max_range(bits));
        assert(f64_is_negative(bits) ==> !f64_mag_above_min_range(bits));
        assert(2 * mantissa <= 0xffff_ffff * f64_mag_den(bits)) by (nonlinear_arith)
            requires
                2 * f64_mag_num(bits) <= 0xffff_fffd * f64_mag_den(bits) || 2 * f64_mag_num(bits)
                    <= 0xffff_ffff * f64_mag_den(bits),
                f64_mag_num(bits) == mantissa,
                f64_mag_den(bits) >= 0,
        ;
    }
    if scale > 83 {
        // below 1 / 10^9: the first residual already counts as converged
        proof {
            let p = mantissa as int;
            let q = f64_mag_den(bits) as int;
            lemma_pow2_large();
            if scale > 84 {
                vstd::arithmetic::power2::lemma_pow2_strictly_increases(84, scale as nat);
            }
            vstd::arithmetic::div_mod::lemma_basic_div(p, q);
            vstd::arithmetic::div_mod::lemma_small_mod(mantissa as nat, f64_mag_den(bits));
            assert(p % q * 1000000000 <= q) by (nonlinear_arith)
                requires
                    p % q == p,
                    0 <= p < 0x20_0000_0000_0000,
                    q >= 0x10_0000_0000_0000_0000_0000,
            ;
            assert(approx_mag(p, q, max_denominator as int) == (0int, 1int));
        }
        return (0, 1);
    }
    let p: u128 = mantissa as u128;
    let mut q: u128 = 1;
    let mut j: u64 = 0;
    proof {
        vstd::arithmetic::power2::lemma2_to64();
    }
    while j < scale
        invariant
            q == vstd::arithmetic::power2::pow2(j as nat),
            j <= scale <= 83,
        decreases scale - j,
    {
        proof {
            lemma_pow2_large();
            if (j as nat) + 1 < 84 {
                vstd::arithmetic::power2::lemma_pow2_strictly_increases((j + 1) as nat, 84);
            }
            vstd::arithmetic::power2::lemma_pow2_unfold((j + 1) as nat);
        }
        q = q * 2;
        j = j + 1;
    }
    proof {
        lemma_pow2_large();
        if (scale as nat) < 83 {
            vstd::arithmetic::power2::lemma_pow2_strictly_increases(scale as nat, 83);
        }
        vstd::arithmetic::power2::lemma_pow2_pos(scale as nat);
    }
    let t1_128: u128 = p / q;
    proof {
        vstd::arithmetic::div_mod::lemma_fundamental_div_mod(p as int, q as int);
        vstd::arithmetic::div_mod::lemma_mod_bound(p as int, q as int);
        assert(t1_128 <= 0x7fff_ffff) by (nonlinear_arith)
            requires
                p as int == q as int * t1_128 as int + p as int % q as int,
                0 <= p as int % q as int,
                2 * p <= 0xffff_ffff * q,
                q >= 1,
        ;
        lemma_cf_loop_props(
            p as int,
            q as int,
            p as int,
            q as int,
            1,
            0,
            t1_128 as int,
            1,
            2,
            max_denominator as int,
        );
    }
    let t1: u64 = t1_128 as u64;
    let (bn, bd) = cf_run(
        Ghost(p as int),
        Ghost(q as int),
        p,
        q,
        1,
        0,
        t1,
        1,
        2,
        max_denominator as u64,
    );
    let numerator: i32 = if negative {
        -(bn as i32)
    } else {
        bn as i32
    };
    (numerator, bd as i32)
}

/// The first term of the expansion of a magnitude below `i32::MAX + 1/2`
/// fits in 31 bits.
proof fn lemma_first_term_bounded(p: int, q: int)
    requires
        p >= 0,
        q >= 1,
        2 * p <= 0xffff_ffff * q,
    ensures
        0 <= p / q <= 0x7fff_ffff,
{
    vstd::arithmetic::div_mod::lemma_fundamental_div_mod(p, q);
    vstd::arithmetic::div_mod::lemma_mod_bound(p, q);
    assert(0 <= p / q <= 0x7fff_ffff) by (nonlinear_arith)
        requires
            p == q * (p / q) + p % q,
            0 <= p % q < q,
            p >= 0,
            2 * p <= 0xffff_ffff * q,
            q >= 1,
    ;
}

/// Everything is coprime to 1.
proof fn lemma_gcd_with_one(x: nat)
    ensures
        crate::math::gcd_spec(x, 1) == 1,
{
    vstd::arithmetic::div_mod::lemma_mod_bound(x as int, 1);
    assert(x % 1 == 0);
    assert(crate::math::gcd_spec(x, 1) == crate::math::gcd_spec(1, 0));
    assert(crate::math::gcd_spec(1, 0) == 1);
}

/// A finite magnitude that saturates neither bound satisfies everything the
/// expansion needs, and its result has a bounded denominator, a 31-bit
/// numerator, and a coprime pair.
proof fn lemma_approx_mag_props(p: int, q: int, maxd: int)
    requires
        p >= 0,
        q >= 1,
        2 * p <= 0xffff_ffff * q,
        maxd >= 1,
    ensures
        ({
            let r = approx_mag(p, q, maxd);
            &&& 0 <= r.0 <= 0x7fff_ffff
            &&& 1 <= r.1 <= maxd
            &&& crate::math::gcd_spec(r.0 as nat, r.1 as nat) == 1
        }),
{
    lemma_first_term_bounded(p, q);
    lemma_cf_loop_props(p, q, p, q, 1, 0, p / q, 1, 2, maxd);
}

/// A magnitude under the upward saturation threshold, `i32::MAX - 1/2`, is
/// also under the downward one, `|i32::MIN| - 1/2`.
proof fn lemma_range_thresholds(p: int, q: int)
    requires
        q >= 0,
        2 * p <= 0xffff_fffd * q,
    ensures
        2 * p <= 0xffff_ffff * q,
{
    assert(0xffff_fffd * q <= 0xffff_ffff * q) by (nonlinear_arith)
        requires
            q >= 0,
    ;
}

/// For a bound of zero or less the routine degenerates to the sentinel,
/// whatever the value.
pub proof fn lemma_degenerate_bound(bits: u64, maxd: int)
    requires
        maxd <= 0,
    ensures
        approx_bits(bits, maxd) == (0int, 0int),
{
}

/// For every finite value and positive bound, the returned denominator lies
/// in `[1, max_denominator]` and the numerator within the 32-bit range.
pub proof fn lemma_result_bounded(bits: u64, maxd: int)
    requires
        maxd >= 1,
        f64_is_finite(bits),
    ensures
        1 <= approx_bits(bits, maxd).1 <= maxd,
        -0x8000_0000 <= approx_bits(bits, maxd).0 <= 0x7fff_ffff,
{
    let p = f64_mag_num(bits) as int;
    let q = f64_mag_den(bits) as int;
    vstd::arithmetic::power2::lemma_pow2_pos((-f64_exponent(bits)) as nat);
    if !f64_is_negative(bits) && f64_mag_above_max_range(bits) {
    } else if f64_is_negative(bits) && f64_mag_above_min_range(bits) {
    } else {
        if !f64_is_negative(bits) {
            lemma_range_thresholds(p, q);
        }
        lemma_approx_mag_props(p, q, maxd);
    }
}

/// The returned numerator and denominator are always coprime for finite
/// values under a positive bound.
pub proof fn lemma_result_coprime(bits: u64, maxd: int)
    requires
        maxd >= 1,
        f64_is_finite(bits),
    ensures
        crate::math::gcd_spec(
            abs(approx_bits(bits, maxd).0) as nat,
            approx_bits(bits, maxd).1 as nat,
        ) == 1,
{
    let p = f64_mag_num(bits) as int;
    let q = f64_mag_den(bits) as int;
    vstd::arithmetic::power2::lemma_pow2_pos((-f64_exponent(bits)) as nat);
    if !f64_is_negative(bits) && f64_mag_above_max_range(bits) {
        lemma_gcd_with_one(0x7fff_ffff);
    } else if f64_is_negative(bits) && f64_mag_above_min_range(bits) {
        lemma_gcd_with_one(0x8000_0000);
    } else {
        if !f64_is_negative(bits) {
            lemma_range_thresholds(p, q);
        }
        lemma_approx_mag_props(p, q, maxd);
    }
}

/// A zero value is approximated by `0 / 1` under every positive bound.
pub proof fn lemma_zero_value(bits: u64, maxd: int)
    requires
        maxd >= 1,
        f64_is_finite(bits),
        f64_mag_num(bits) == 0,
    ensures
        approx_bits(bits, maxd) == (0int, 1int),
{
    let q = f64_mag_den(bits) as int;
    vstd::arithmetic::power2::lemma_pow2_pos((-f64_exponent(bits)) as nat);
    assert(!f64_mag_above_max_range(bits) && !f64_mag_above_min_range(bits)) by (nonlinear_arith)
        requires
            f64_mag_num(bits) == 0,
            f64_mag_den(bits) >= 1,
    ;
    vstd::arithmetic::div_mod::lemma_basic_div(0, q);
    vstd::arithmetic::div_mod::lemma_small_mod(0, q as nat);
    assert(approx_mag(0, q, maxd) == (0int, 1int));
}

/// A value of exactly one is approximated by `1 / 1` under every positive
/// bound.
pub proof fn lemma_one_value(bits: u64, maxd: int)
    requires
        maxd >= 1,
        f64_is_finite(bits),
        !f64_is_negative(bits),
        f64_mag_num(bits) == f64_mag_den(bits),
    ensures
        approx_bits(bits, maxd) == (1int, 1int),
{
    let p = f64_mag_num(bits) as int;
    let q = f64_mag_den(bits) as int;
    vstd::arithmetic::power2::lemma_pow2_pos((-f64_exponent(bits)) as nat);
    assert(!f64_mag_above_max_range(bits)) by (nonlinear_arith)
        requires
            f64_mag_num(bits) == f64_mag_den(bits),
            f64_mag_den(bits) >= 1,
    ;
    vstd::arithmetic::div_mod::lemma_div_by_self(q);
    vstd::arithmetic::div_mod::lemma_mod_self_0(q);
    assert(approx_mag(p, q, maxd) == (1int, 1int));
}

/// A magnitude in the half-unit band around `i32::MAX` — past the upward
/// saturation point but not past the downward one — expands to
/// `(i32::MAX, 1)`: the first term is within one of `i32::MAX`, and either
/// the expansion converges there at once, or the numerator head-room clamp
/// cuts it off and the semiconvergent (or the convergent itself) lands on
/// `i32::MAX` over 1.
proof fn lemma_approx_mag_saturated(p: int, q: int, maxd: int)
    requires
        p >= 0,
        q >= 1,
        2 * p > 0xffff_fffd * q,
        2 * p <= 0xffff_ffff * q,
        maxd >= 1,
    ensures
        approx_mag(p, q, maxd) == (0x7fff_ffffint, 1int),
{
    let t1 = p / q;
    let rem = p % q;
    vstd::arithmetic::div_mod::lemma_fundamental_div_mod(p, q);
    vstd::arithmetic::div_mod::lemma_mod_bound(p, q);
    assert(t1 == 0x7fff_fffe || t1 == 0x7fff_ffff) by (nonlinear_arith)
        requires
            p == q * t1 + rem,
            0 <= rem < q,
            2 * p > 0xffff_fffd * q,
            2 * p <= 0xffff_ffff * q,
            q >= 1,
    ;
    if rem * 1000000000 <= q {
        // converged at once: the remainder is too small to push the first
        // term below i32::MAX
        assert(t1 == 0x7fff_ffff) by (nonlinear_arith)
            requires
                p == q * t1 + rem,
                0 <= rem,
                rem * 1000000000 <= q,
                2 * p > 0xffff_fffd * q,
                q >= 1,
                t1 == 0x7fff_fffe || t1 == 0x7fff_ffff,
        ;
    } else {
        let a2 = q;
        let b2 = rem;
        let t = a2 / b2;
        vstd::arithmetic::div_mod::lemma_fundamental_div_mod(a2, b2);
        vstd::arithmetic::div_mod::lemma_mod_bound(a2, b2);
        assert(t >= 1) by (nonlinear_arith)
            requires
                a2 == b2 * t + a2 % b2,
                0 <= a2 % b2 < b2,
                b2 < a2,
                1 <= b2,
        ;
        let n0 = (maxd - 0int) / 1int;
        assert(n0 == maxd) by {
            vstd::arithmetic::div_mod::lemma_div_by_self(1);
            vstd::arithmetic::div_mod::lemma_fundamental_div_mod(maxd, 1);
            vstd::arithmetic::div_mod::lemma_mod_bound(maxd, 1);
        }
        let c1 = (0x7fff_ffff - 1int) / t1;
        if t1 == 0x7fff_ffff {
            // no head-room at all: the cut multiple is zero, and neither a
            // zero-denominator semiconvergent nor anything else displaces the
            // first convergent
            assert(0x7fff_fffeint == 0x7fff_ffffint * (0x7fff_fffeint / 0x7fff_ffffint)
                + 0x7fff_fffeint % 0x7fff_ffffint) by {
                vstd::arithmetic::div_mod::lemma_fundamental_div_mod(
                    0x7fff_fffe,
                    0x7fff_ffff,
                );
                vstd::arithmetic::div_mod::lemma_mod_bound(0x7fff_fffe, 0x7fff_ffff);
            }
            assert(c1 == 0) by (nonlinear_arith)
                requires
                    c1 == 0x7fff_fffeint / 0x7fff_ffffint,
                    0x7fff_fffeint == 0x7fff_ffffint * (0x7fff_fffeint / 0x7fff_ffffint)
                        + 0x7fff_fffeint % 0x7fff_ffffint,
                    0 <= 0x7fff_fffeint % 0x7fff_ffffint < 0x7fff_ffffint,
            ;
            let lb = t / 2;
            vstd::arithmetic::div_mod::lemma_fundamental_div_mod(t, 2);
            vstd::arithmetic::div_mod::lemma_mod_bound(t, 2);
            if 0 >= lb {
                // the candidate semiconvergent degenerates to 1/0 and the
                // closeness test can never accept it
                assert(abs(p * 0 - (0 * t1 + 1) * q) * 1 >= 0) by (nonlinear_arith)
                    requires
                        abs(p * 0 - (0 * t1 + 1) * q) >= 0,
                ;
                assert(abs(p * 1 - t1 * q) * 0 == 0) by (nonlinear_arith);
                assert(!closer_to(p, q, 0 * t1 + 1, 0int * 1 + 0, t1, 1));
            }
        } else {
            // one unit of head-room: the cut multiple is one, and taking the
            // full term (also one) in the semiconvergent lands on i32::MAX
            assert(2 * rem > q) by (nonlinear_arith)
                requires
                    p == q * t1 + rem,
                    2 * p > 0xffff_fffd * q,
                    t1 == 0x7fff_fffe,
                    q >= 1,
            ;
            assert(t == 1) by (nonlinear_arith)
                requires
                    a2 == b2 * t + a2 % b2,
                    0 <= a2 % b2 < b2,
                    a2 == q,
                    b2 == rem,
                    rem < q,
                    2 * rem > q,
                    q >= 1,
                    rem >= 1,
            ;
            assert(c1 == 1) by {
                vstd::arithmetic::div_mod::lemma_div_by_self(0x7fff_fffe);
            }
        }
    }
}

/// Monotonic accuracy: for a fixed finite value, raising the denominator
/// bound never increases the approximation error. With `p / q` the exact
/// magnitude of the value and `r1`, `r2` the results under bounds
/// `maxd1 <= maxd2`, the cross-multiplied errors satisfy
/// `|p * r2.1 - |r2.0| * q| / r2.1 <= |p * r1.1 - |r1.0| * q| / r1.1`,
/// which divided by `q` is `|value - r2| <= |value - r1|`.
pub proof fn lemma_monotone_accuracy(bits: u64, maxd1: int, maxd2: int)
    requires
        1 <= maxd1 <= maxd2,
        f64_is_finite(bits),
    ensures
        ({
            let p = f64_mag_num(bits) as int;
            let q = f64_mag_den(bits) as int;
            let r1 = approx_bits(bits, maxd1);
            let r2 = approx_bits(bits, maxd2);
            abs(p * r2.1 - abs(r2.0) * q) * r1.1 <= abs(p * r1.1 - abs(r1.0) * q) * r2.1
        }),
{
    let p = f64_mag_num(bits) as int;
    let q = f64_mag_den(bits) as int;
    vstd::arithmetic::power2::lemma_pow2_pos((-f64_exponent(bits)) as nat);
    if !f64_is_negative(bits) && f64_mag_above_max_range(bits) {
    } else if f64_is_negative(bits) && f64_mag_above_min_range(bits) {
    } else {
        if !f64_is_negative(bits) {
            lemma_range_thresholds(p, q);
        }
        lemma_first_term_bounded(p, q);
        vstd::arithmetic::div_mod::lemma_fundamental_div_mod(p, q);
        lemma_approx_mag_props(p, q, maxd1);
        lemma_approx_mag_props(p, q, maxd2);
        lemma_cf_loop_mono(p, q, p, q, 1, 0, p / q, 1, 2, maxd1, maxd2);
    }
}

/// Negating a finite value that does not saturate downward negates the
/// numerator and keeps the denominator: the expansion works on the magnitude
/// alone, and the sign is reapplied at the very end. (Beyond the downward
/// saturation point the two sides differ — `(i32::MAX, 1)` against
/// `(i32::MIN, 1)` — and for infinities likewise.)
pub proof fn lemma_sign_symmetry(bits: u64, maxd: int)
    requires
        maxd >= 1,
        f64_is_finite(bits),
        !f64_is_negative(bits),
        !f64_mag_above_min_range(bits),
    ensures
        ({
            let pos = approx_bits(bits, maxd);
            let neg = approx_bits(bits ^ 0x8000_0000_0000_0000, maxd);
            neg.0 == -pos.0 && neg.1 == pos.1
        }),
{
    let flipped = bits ^ 0x8000_0000_0000_0000;
    assert(((flipped >> 52) & 0x7ff) == ((bits >> 52) & 0x7ff) && (flipped & 0xf_ffff_ffff_ffff)
        == (bits & 0xf_ffff_ffff_ffff) && (bits >> 63 != 1 ==> flipped >> 63 == 1)) by (bit_vector)
        requires
            flipped == bits ^ 0x8000_0000_0000_0000,
    ;
    let p = f64_mag_num(bits) as int;
    let q = f64_mag_den(bits) as int;
    vstd::arithmetic::power2::lemma_pow2_pos((-f64_exponent(bits)) as nat);
    if f64_mag_above_max_range(bits) {
        lemma_approx_mag_saturated(p, q, maxd);
    }
}

} // verus!
