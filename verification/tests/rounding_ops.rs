use lib::rounding::BigDecimal;

#[test]
fn test_parse() {
    let a = BigDecimal::parse("123.45").unwrap();
    assert_eq!(a.digits, vec![5, 4, 3, 2, 1]);
    assert_eq!(a.scale, 2);
}

#[test]
fn test_add() {
    let a = BigDecimal::parse("1.5").unwrap();
    let b = BigDecimal::parse("0.5").unwrap();
    let c = a.add(b);
    assert_eq!(c.to_string(), "2");
}

#[test]
fn test_sub() {
    let a = BigDecimal::parse("1.5").unwrap();
    let b = BigDecimal::parse("2.5").unwrap();
    let c = a.sub(b);
    assert_eq!(c.to_string(), "-1");
}

#[test]
fn test_mul() {
    let a = BigDecimal::parse("1.2").unwrap();
    let b = BigDecimal::parse("1.2").unwrap();
    let c = a.mul(b);
    assert_eq!(c.to_string(), "1.44");
}

#[test]
fn test_div() {
    let a = BigDecimal::parse("1").unwrap();
    let b = BigDecimal::parse("3").unwrap();
    let c = a.div(b);
    // Should be 0.33333333333333333333 (20 digits)
    assert!(c.to_string().starts_with("0.333"));
    assert_eq!(c.scale, 20);
}

#[test]
fn test_div_rounding() {
    let a = BigDecimal::parse("2").unwrap();
    let b = BigDecimal::parse("3").unwrap();
    let c = a.div(b);
    // 0.666... -> round up -> 0.666...7
    assert_eq!(c.digits[0], 7);
}
