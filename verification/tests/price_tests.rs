//! Tests for fixed-point conversion and arithmetic.

use dark_hypercore::price::{
    approx_eq, checked_add, checked_div, checked_mul, checked_sub, from_fixed, from_fixed_trimmed,
    to_fixed, SCALE,
};
use rust_decimal::prelude::FromStr;
use rust_decimal::Decimal;

#[test]
fn test_scale_constant() {
    assert_eq!(SCALE, 100_000_000);
}

#[test]
fn test_to_fixed_basic() {
    assert_eq!(to_fixed("1.0"), Some(100_000_000));
    assert_eq!(to_fixed("1"), Some(100_000_000));
    assert_eq!(to_fixed("0.5"), Some(50_000_000));
    assert_eq!(to_fixed("0.00000001"), Some(1));
    assert_eq!(to_fixed("50000.12345678"), Some(5_000_012_345_678));
}

#[test]
fn test_to_fixed_edge_cases() {
    assert_eq!(to_fixed("0"), Some(0));
    assert_eq!(to_fixed("0.0"), Some(0));

    // Negative values should return None
    assert_eq!(to_fixed("-1.0"), None);

    // Invalid strings should return None
    assert_eq!(to_fixed("abc"), None);
    assert_eq!(to_fixed(""), None);
}

#[test]
fn test_to_fixed_rounding_and_range() {
    // the ninth fractional digit rounds half up
    assert_eq!(to_fixed("0.000000015"), Some(2));
    assert_eq!(to_fixed("0.000000014"), Some(1));
    // the largest representable values
    assert_eq!(to_fixed("184467440737.09551615"), Some(u64::MAX));
    assert_eq!(to_fixed("184467440737.09551616"), None);
    assert_eq!(to_fixed("184467440738"), None);
}

#[test]
fn test_from_fixed() {
    assert_eq!(from_fixed(100_000_000), "1.00000000");
    assert_eq!(from_fixed(50_000_000), "0.50000000");
    assert_eq!(from_fixed(1), "0.00000001");
    assert_eq!(from_fixed(5_000_012_345_678), "50000.12345678");
    assert_eq!(from_fixed(0), "0.00000000");
}

#[test]
fn test_from_fixed_trimmed() {
    assert_eq!(from_fixed_trimmed(100_000_000), "1");
    assert_eq!(from_fixed_trimmed(150_000_000), "1.5");
    assert_eq!(from_fixed_trimmed(123_456_789), "1.23456789");
}

#[test]
fn test_roundtrip() {
    let values = ["1.0", "0.5", "50000.12345678", "0.00000001", "123456.78901234"];

    for s in values {
        let fixed = to_fixed(s).unwrap();
        let back = from_fixed(fixed);
        // Parse both to compare (handles trailing zeros)
        let original = Decimal::from_str(s).unwrap();
        let converted = Decimal::from_str(&back).unwrap();
        assert_eq!(original, converted, "Roundtrip failed for {}", s);
    }
}

#[test]
fn test_checked_mul() {
    // 100.0 * 0.5 = 50.0
    let a = to_fixed("100.0").unwrap();
    let b = to_fixed("0.5").unwrap();
    let result = checked_mul(a, b).unwrap();
    assert_eq!(result, to_fixed("50.0").unwrap());

    // 2.0 * 3.0 = 6.0
    let a = to_fixed("2.0").unwrap();
    let b = to_fixed("3.0").unwrap();
    let result = checked_mul(a, b).unwrap();
    assert_eq!(result, to_fixed("6.0").unwrap());
}

#[test]
fn test_checked_mul_overflow() {
    assert_eq!(checked_mul(u64::MAX, u64::MAX), None);
}

#[test]
fn test_checked_div() {
    // 100.0 / 2.0 = 50.0
    let a = to_fixed("100.0").unwrap();
    let b = to_fixed("2.0").unwrap();
    let result = checked_div(a, b).unwrap();
    assert_eq!(result, to_fixed("50.0").unwrap());

    // Division by zero should return None
    assert_eq!(checked_div(a, 0), None);
}

#[test]
fn test_checked_div_overflow() {
    assert_eq!(checked_div(u64::MAX, 1), None);
}

#[test]
fn test_checked_add() {
    let a = to_fixed("100.0").unwrap();
    let b = to_fixed("50.5").unwrap();
    let result = checked_add(a, b).unwrap();
    assert_eq!(result, to_fixed("150.5").unwrap());

    // Overflow should return None
    assert_eq!(checked_add(u64::MAX, 1), None);
}

#[test]
fn test_checked_sub() {
    let a = to_fixed("100.0").unwrap();
    let b = to_fixed("50.5").unwrap();
    let result = checked_sub(a, b).unwrap();
    assert_eq!(result, to_fixed("49.5").unwrap());

    // Underflow should return None
    assert_eq!(checked_sub(0, 1), None);
}

#[test]
fn test_approx_eq() {
    assert!(approx_eq(100, 100, 0));
    assert!(approx_eq(100, 101, 1));
    assert!(approx_eq(101, 100, 1));
    assert!(!approx_eq(100, 102, 1));
}

#[test]
fn test_precision() {
    // Verify we maintain 8 decimal places of precision
    let value = "123456789.12345678";
    let fixed = to_fixed(value).unwrap();
    let back = from_fixed(fixed);
    assert_eq!(back, value);
}
