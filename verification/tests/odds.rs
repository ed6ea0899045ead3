use std::cmp::Ordering;
use wager::fraction_simplification::{simplify, SimplifyError};
use wager::math::simplify_fraction;
use wager::odd::{Fractional, Moneyline, OddError};

#[test]
fn simplify_reduces() {
    assert_eq!(simplify(1, 2).unwrap(), (1, 2));
    assert_eq!(simplify(10, 20).unwrap(), (1, 2));
    assert_eq!(simplify(46, 23).unwrap(), (2, 1));
}

#[test]
fn simplify_rejects_zero_parts() {
    assert!(matches!(simplify(0, 1), Err(SimplifyError::InvalidFraction)));
    assert!(matches!(simplify(1, 0), Err(SimplifyError::InvalidFraction)));
    assert!(matches!(simplify(0, 0), Err(SimplifyError::InvalidFraction)));
}

#[test]
fn simplify_fraction_reduces() {
    assert_eq!(simplify_fraction(1, 2), (1, 2));
    assert_eq!(simplify_fraction(10, 20), (1, 2));
    assert_eq!(simplify_fraction(46, 23), (2, 1));
    assert_eq!(simplify_fraction(0, 5), (0, 1));
    assert_eq!(simplify_fraction(5, 0), (1, 0));
}

#[test]
fn fractional_valid() {
    let f = Fractional::new(1, 2).unwrap();
    assert_eq!(f.numerator(), 1);
    assert_eq!(f.denominator(), 2);

    let f = Fractional::new(2, 4).unwrap();
    assert_eq!(f.numerator(), 1);
    assert_eq!(f.denominator(), 2);

    let f = Fractional::new(124, 56).unwrap();
    assert_eq!(f.numerator(), 31);
    assert_eq!(f.denominator(), 14);

    let f = Fractional::new(8, 2).unwrap();
    assert_eq!(f.numerator(), 4);
    assert_eq!(f.denominator(), 1);
}

#[test]
fn fractional_invalid() {
    assert!(matches!(Fractional::new(0, 1), Err(OddError::Invalid)));
    assert!(matches!(Fractional::new(1, 0), Err(OddError::Invalid)));
    assert!(matches!(Fractional::new(0, 0), Err(OddError::Invalid)));
}

#[test]
fn fractional_eq() {
    assert_eq!(Fractional::new(1, 2).unwrap(), Fractional::new(1, 2).unwrap());
    assert_eq!(Fractional::new(1, 2).unwrap(), Fractional::new(2, 4).unwrap());
    assert_eq!(Fractional::new(1, 2).unwrap(), Fractional::new(3, 6).unwrap());
    assert_ne!(Fractional::new(1, 2).unwrap(), Fractional::new(2, 3).unwrap());
}

#[test]
fn fractional_cmp() {
    let half = Fractional::new(1, 2).unwrap();
    let two_thirds = Fractional::new(2, 3).unwrap();
    assert_eq!(half.partial_cmp(&two_thirds), Some(Ordering::Less));
    assert_eq!(two_thirds.partial_cmp(&half), Some(Ordering::Greater));
    assert_eq!(half.partial_cmp(&Fractional::new(2, 4).unwrap()), Some(Ordering::Equal));
    assert!(half < two_thirds);
}

#[test]
fn fractional_parse() {
    let f = Fractional::from_str("1/2").unwrap();
    assert_eq!((f.numerator(), f.denominator()), (1, 2));

    let f = Fractional::from_str("2852 /  124").unwrap();
    assert_eq!((f.numerator(), f.denominator()), (23, 1));

    let f = Fractional::from_str("+4/+1").unwrap();
    assert_eq!((f.numerator(), f.denominator()), (4, 1));

    // anything past a second slash is ignored
    let f = Fractional::from_str("1/2/3").unwrap();
    assert_eq!((f.numerator(), f.denominator()), (1, 2));
}

#[test]
fn fractional_parse_whitespace() {
    let f = Fractional::from_str("  1 \t/\t 2  ").unwrap();
    assert_eq!((f.numerator(), f.denominator()), (1, 2));
}

#[test]
fn fractional_parse_empty_part() {
    assert!(matches!(Fractional::from_str("1//2"), Err(OddError::ParseError)));
    assert!(matches!(Fractional::from_str("/2"), Err(OddError::ParseError)));
    assert!(matches!(Fractional::from_str("+/2"), Err(OddError::ParseError)));
}

#[test]
fn fractional_parse_errors() {
    assert!(matches!(Fractional::from_str("12"), Err(OddError::ParseError)));
    assert!(matches!(Fractional::from_str(""), Err(OddError::ParseError)));
    assert!(matches!(Fractional::from_str("a/2"), Err(OddError::ParseError)));
    assert!(matches!(Fractional::from_str("1/b"), Err(OddError::ParseError)));
    assert!(matches!(Fractional::from_str("1/"), Err(OddError::ParseError)));
    assert!(matches!(Fractional::from_str("-1/2"), Err(OddError::ParseError)));
    assert!(matches!(Fractional::from_str("4294967296/1"), Err(OddError::ParseError)));
    assert!(matches!(Fractional::from_str("0/2"), Err(OddError::Invalid)));
    assert!(matches!(Fractional::from_str("2/0"), Err(OddError::Invalid)));
}

#[test]
fn fractional_from_moneyline() {
    let f = Fractional::from_moneyline(&Moneyline::new(-200).unwrap()).unwrap();
    assert_eq!((f.numerator(), f.denominator()), (1, 2));

    let f = Fractional::from_moneyline(&Moneyline::new(200).unwrap()).unwrap();
    assert_eq!((f.numerator(), f.denominator()), (2, 1));

    let f = Fractional::from_moneyline(&Moneyline::new(-128).unwrap()).unwrap();
    assert_eq!((f.numerator(), f.denominator()), (25, 32));

    // only the low 32 bits of the magnitude survive
    let quote = (7u64 << 32) as i64;
    assert!(matches!(
        Fractional::from_moneyline(&Moneyline::new(quote).unwrap()),
        Err(OddError::Invalid)
    ));
}

#[test]
fn moneyline_valid() {
    assert_eq!(Moneyline::new(100).unwrap().value(), 100);
    assert_eq!(Moneyline::new(-150).unwrap().value(), -150);
    assert_eq!(Moneyline::new(i64::MAX).unwrap().value(), i64::MAX);
}

#[test]
fn moneyline_invalid() {
    assert!(matches!(Moneyline::new(99), Err(OddError::Invalid)));
    assert!(matches!(Moneyline::new(0), Err(OddError::Invalid)));
    assert!(matches!(Moneyline::new(-1), Err(OddError::Invalid)));
    assert!(matches!(Moneyline::new(-99), Err(OddError::Invalid)));
}

#[test]
fn moneyline_parse() {
    assert_eq!(Moneyline::from_str("-200").unwrap().value(), -200);
    assert_eq!(Moneyline::from_str("+1200").unwrap().value(), 1200);
    assert_eq!(Moneyline::from_str("100").unwrap().value(), 100);
}

#[test]
fn moneyline_parse_errors() {
    assert!(matches!(Moneyline::from_str(""), Err(OddError::Invalid)));
    assert!(matches!(Moneyline::from_str("abc"), Err(OddError::Invalid)));
    assert!(matches!(Moneyline::from_str(" 100"), Err(OddError::Invalid)));
    assert!(matches!(Moneyline::from_str("1.5"), Err(OddError::Invalid)));
    assert!(matches!(Moneyline::from_str("99"), Err(OddError::Invalid)));
    assert!(matches!(Moneyline::from_str("99999999999999999999"), Err(OddError::Invalid)));
}
