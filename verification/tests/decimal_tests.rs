use matching_engine::decimal::Decimal;
use std::str::FromStr;

fn dec(s: &str) -> Decimal {
    let d = rust_decimal::Decimal::from_str(s).unwrap();
    Decimal::new(d.mantissa(), d.scale()).unwrap()
}

#[test]
fn new_accepts_96_bit_mantissas_and_28_digits() {
    let max: i128 = 0xFFFF_FFFF_FFFF_FFFF_FFFF_FFFF;
    assert!(Decimal::new(max, 28).is_some());
    assert!(Decimal::new(-max, 0).is_some());
    assert!(Decimal::new(max + 1, 0).is_none());
    assert!(Decimal::new(-max - 1, 0).is_none());
    assert!(Decimal::new(1, 29).is_none());
    let d = Decimal::new(-12345, 3).unwrap();
    assert_eq!(d.mantissa(), -12345);
    assert_eq!(d.scale(), 3);
}

#[test]
fn equality_is_by_value() {
    assert_eq!(dec("1.0"), dec("1.00"));
    assert_eq!(dec("0"), Decimal::zero());
    assert_ne!(dec("1.01"), dec("1.1"));
    assert_eq!(Decimal::default(), Decimal::zero());
}

#[test]
fn comparisons_follow_values() {
    assert!(dec("0.5").greater_than(&dec("0.05")));
    assert!(dec("-0.5").less_than(&dec("-0.05")));
    assert!(!dec("2.50").greater_than(&dec("2.5")));
    assert!(!dec("2.50").less_than(&dec("2.5")));
    assert!(dec("60500.00").greater_than(&dec("60499.99")));
}

#[test]
fn is_zero_whatever_the_scale() {
    assert!(dec("0.000").is_zero());
    assert!(!dec("0.001").is_zero());
}

#[test]
fn min_keeps_self_on_ties() {
    let a = dec("1.0");
    let b = dec("1.000");
    let m = a.min(b);
    assert_eq!(m.scale(), 1);
    let m = dec("3").min(dec("2.5"));
    assert_eq!(m.mantissa(), 25);
    assert_eq!(m.scale(), 1);
}
