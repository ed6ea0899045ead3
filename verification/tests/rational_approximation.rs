use wager::math::rational_approximation;

fn approx(value: f64, max_denominator: i32) -> (i32, i32) {
    rational_approximation(value.to_bits(), max_denominator)
}

fn gcd(a: u64, b: u64) -> u64 {
    if b == 0 { a } else { gcd(b, a % b) }
}

#[test]
fn zero_value() {
    assert_eq!(approx(0.0, 100), (0, 1));
    assert_eq!(approx(-0.0, 100), (0, 1));
    assert_eq!(approx(0.0, 1), (0, 1));
}

#[test]
fn one_value() {
    assert_eq!(approx(1.0, 100), (1, 1));
    assert_eq!(approx(1.0, 7), (1, 1));
}

#[test]
fn one_half() {
    assert_eq!(approx(0.5, 100), (1, 2));
}

#[test]
fn one_third() {
    assert_eq!(approx(0.3333333333333333, 100), (1, 3));
}

#[test]
fn one_seventh() {
    assert_eq!(approx(0.14285714285714285, 100), (1, 7));
}

#[test]
fn one_eighth() {
    assert_eq!(approx(0.125, 100), (1, 8));
}

#[test]
fn one_ninth() {
    assert_eq!(approx(0.1111111111111111, 100), (1, 9));
}

#[test]
fn one_tenth() {
    assert_eq!(approx(0.1, 100), (1, 10));
}

#[test]
fn one_over_eighty_nine() {
    assert_eq!(approx(0.01123595506, 100), (1, 89));
}

#[test]
fn forty_seven_over_eighty_nine() {
    assert_eq!(approx(0.5280898876, 100), (47, 89));
}

#[test]
fn degenerate_bound() {
    assert_eq!(approx(0.5, 0), (0, 0));
    assert_eq!(approx(123.456, -3), (0, 0));
    assert_eq!(approx(f64::NAN, 0), (0, 0));
    assert_eq!(approx(f64::INFINITY, -1), (0, 0));
}

#[test]
fn non_finite_value() {
    assert_eq!(approx(f64::NAN, 100), (0, 0));
    assert_eq!(approx(-f64::NAN, 100), (0, 0));
    assert_eq!(approx(f64::INFINITY, 100), (i32::MAX, 1));
    assert_eq!(approx(f64::NEG_INFINITY, 100), (i32::MIN, 1));
}

#[test]
fn saturation_at_int_range() {
    assert_eq!(approx(3.0e9, 100), (i32::MAX, 1));
    assert_eq!(approx(-3.0e9, 100), (i32::MIN, 1));
    assert_eq!(approx(f64::MAX, 100), (i32::MAX, 1));
    assert_eq!(approx(f64::MIN, 100), (i32::MIN, 1));
    assert_eq!(approx(2147483646.0, 100), (2147483646, 1));
}

#[test]
fn tiny_values_collapse_to_zero() {
    assert_eq!(approx(1.0e-10, 100), (0, 1));
    assert_eq!(approx(-1.0e-10, 100), (0, 1));
    assert_eq!(approx(f64::MIN_POSITIVE, 100), (0, 1));
    assert_eq!(approx(5e-324, 100), (0, 1));
}

#[test]
fn sign_symmetry() {
    for &v in &[0.5, 0.3333333333333333, 0.5280898876, 1.25, 7.0, 123.456] {
        for &d in &[1, 2, 7, 100, 10_000] {
            let (pn, pd) = approx(v, d);
            let (nn, nd) = approx(-v, d);
            assert_eq!(nn, -pn, "value {v} bound {d}");
            assert_eq!(nd, pd, "value {v} bound {d}");
        }
    }
}

#[test]
fn negative_scenario() {
    assert_eq!(approx(-0.5, 100), (-1, 2));
    assert_eq!(approx(-0.5280898876, 100), (-47, 89));
}

#[test]
fn results_are_coprime() {
    for &v in &[0.5, 0.3333333333333333, 0.5280898876, 0.7776, 3.14159265358979, 123.456, 0.01123595506] {
        for &d in &[1, 3, 10, 100, 1000, 1_000_000] {
            let (n, den) = approx(v, d);
            assert!(den >= 1, "value {v} bound {d}");
            assert!(den <= d, "value {v} bound {d}");
            assert_eq!(gcd(n.unsigned_abs() as u64, den as u64), 1, "value {v} bound {d}");
        }
    }
}

#[test]
fn idempotence_of_reconstruction() {
    for &v in &[0.5, 0.3333333333333333, 0.5280898876, 0.7776, 3.14159265358979, 0.01123595506] {
        let (n, d) = approx(v, 100);
        let reconstructed = n as f64 / d as f64;
        assert_eq!(approx(reconstructed, 100), (n, d), "value {v}");
    }
}

#[test]
fn monotonic_accuracy() {
    for &v in &[0.5280898876, 0.7776, 3.14159265358979, 0.693147180559945] {
        let mut last_err = f64::INFINITY;
        for d in 1..=200 {
            let (n, den) = approx(v, d);
            let err = (v - n as f64 / den as f64).abs();
            assert!(
                err <= last_err,
                "error grew at bound {d} for value {v}: {err} > {last_err}"
            );
            last_err = err;
        }
    }
}

#[test]
fn huge_bound_converges_early() {
    // the 10^-9 tolerance ends the expansion at 1/3 whatever the bound
    assert_eq!(approx(0.3333333333333333, i32::MAX), (1, 3));
    assert_eq!(approx(0.5, i32::MAX), (1, 2));
}

#[test]
fn bounded_denominator_small_bounds() {
    // the closest fraction to pi with denominator at most 10 is 22/7
    assert_eq!(approx(3.14159265358979, 10), (22, 7));
    // and 355/113 within 1000
    assert_eq!(approx(3.14159265358979, 1000), (355, 113));
}
