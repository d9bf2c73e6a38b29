use lib::plain::BigDecimal;

#[test]
fn test_parse_basic() {
    let num = BigDecimal::parse("123.45").unwrap();
    assert_eq!(num.to_formatted_string(), "123.45");
    assert_eq!(num.scale(), 2);
}

#[test]
fn test_parse_negative() {
    let num = BigDecimal::parse("-123.45").unwrap();
    assert!(num.is_negative());
    assert_eq!(num.to_formatted_string(), "-123.45");
}

#[test]
fn test_parse_with_commas() {
    let num = BigDecimal::parse("1,234,567.89").unwrap();
    assert_eq!(num.to_formatted_string(), "1234567.89");
}

#[test]
fn test_addition() {
    let a = BigDecimal::parse("123.45").unwrap();
    let b = BigDecimal::parse("67.89").unwrap();
    let sum = a.add(&b).unwrap();
    assert_eq!(sum.to_formatted_string(), "191.34");
}

#[test]
fn test_subtraction() {
    let a = BigDecimal::parse("123.45").unwrap();
    let b = BigDecimal::parse("67.89").unwrap();
    let diff = a.sub(&b).unwrap();
    assert_eq!(diff.to_formatted_string(), "55.56");
}

#[test]
fn test_multiplication() {
    let a = BigDecimal::parse("12.34").unwrap();
    let b = BigDecimal::parse("5.67").unwrap();
    let product = a.mul(&b).unwrap();
    assert_eq!(product.to_formatted_string(), "69.9678");
}

#[test]
fn test_division() {
    let a = BigDecimal::parse("100.0").unwrap();
    let b = BigDecimal::parse("4.0").unwrap();
    let quotient = a.div(&b).unwrap();
    assert_eq!(quotient.to_formatted_string(), "25");
}

#[test]
fn test_zero() {
    let zero = BigDecimal::zero();
    assert!(zero.is_zero());
    // zero is not counted as positive
    assert_eq!(zero.to_formatted_string(), "0");
}

#[test]
fn test_normalize() {
    let mut num = BigDecimal::parse("00123.4500").unwrap();
    num.normalize();
    assert_eq!(num.to_formatted_string(), "123.45");
}

#[test]
fn operands_fit_small_numbers() {
    let a = lib::plain::BigDecimal::parse("123.456").unwrap();
    let b = lib::plain::BigDecimal::parse("-0.001").unwrap();
    assert!(a.operands_fit(&b));
    assert!(b.operands_fit(&a));
    let c = a.mul(&b).unwrap();
    assert!(c.operands_fit(&a));
}
