use lib::rounding::{calculator_line, perform_operation, BigDecimal, BigIntError, Sign};

#[test]
fn calculator_line_sums() {
    assert_eq!(calculator_line('+', "1,234.5", "6.70"), "1,241.2");
    assert_eq!(calculator_line('+', "0.1", "0.2"), "0.3");
    assert_eq!(calculator_line('-', "0.1", "0.2"), "-0.1");
    assert_eq!(calculator_line('+', "999", "1"), "1,000");
}

#[test]
fn calculator_line_products_and_quotients() {
    assert_eq!(calculator_line('*', "0.1", "-0.2"), "0.02");
    assert_eq!(calculator_line('*', "-1.5", "2"), "-3");
    assert_eq!(calculator_line('/', "10", "3"), "3.3333333333");
    assert_eq!(calculator_line('/', "2", "3"), "0.6666666667");
    assert_eq!(calculator_line('/', "1", "0.0000001"), "10,000,000");
    assert_eq!(calculator_line('*', "0.99999999995", "1"), "0.99999999910");
}

#[test]
fn calculator_line_errors() {
    assert_eq!(calculator_line('/', "1", "0"), "ERROR");
    assert_eq!(calculator_line('/', "1", "0.00000001"), "ERROR");
    assert_eq!(calculator_line('%', "1", "2"), "ERROR");
    assert_eq!(calculator_line('+', "1.2.3", "2"), "ERROR");
}

#[test]
fn perform_operation_errors() {
    let e = perform_operation('%', "1", "2").unwrap_err();
    assert_eq!(e.message(), "Parse Error: Unknown operator: %");
    assert!(matches!(perform_operation('/', "1", "0"), Err(BigIntError::DivisionByZero)));
    assert!(matches!(perform_operation('/', "1", "0.00000001"), Err(BigIntError::TooSmallDivisor)));
    assert_eq!(BigIntError::DivisionByZero.message(), "Division by Zero");
    assert_eq!(BigIntError::TooSmallDivisor.message(), "ERROR");
}

#[test]
fn rounding_parse_messages() {
    let msg = |s: &str| match BigDecimal::parse(s) {
        Err(BigIntError::ParseError(m)) => m,
        _ => String::from("no error"),
    };
    assert_eq!(msg(""), "Empty string");
    assert_eq!(msg("1.2.3"), "Multiple decimal points");
    assert_eq!(msg("12a"), "Invalid character: a");
    assert_eq!(msg("-"), "No digits found");
    assert_eq!(msg(",,"), "No digits found");
}

#[test]
fn parse_normalizes() {
    let v = BigDecimal::parse("  -1,234.50 ").unwrap();
    assert_eq!(v.sign, Sign::Negative);
    assert_eq!(v.digits, vec![5, 4, 3, 2, 1]);
    assert_eq!(v.scale, 1);
    assert_eq!(v.to_string(), "-1234.5");
    let z = BigDecimal::parse("-0.00").unwrap();
    assert_eq!(z.sign, Sign::Positive);
    assert_eq!(z.digits, vec![0]);
    assert_eq!(z.scale, 0);
}

#[test]
fn new_normalizes() {
    let v = BigDecimal::new(Sign::Negative, vec![0, 0, 5, 0], 3);
    assert_eq!(v.digits, vec![5]);
    assert_eq!(v.scale, 1);
    assert_eq!(v.sign, Sign::Negative);
    let z = BigDecimal::new(Sign::Negative, vec![], 4);
    assert_eq!(z.digits, vec![0]);
    assert_eq!(z.scale, 0);
    assert_eq!(z.sign, Sign::Positive);
}

#[test]
fn grouping_printer() {
    let v = BigDecimal::parse("1234567.891").unwrap();
    assert_eq!(v.to_string_with_grouping(true, None), "1,234,567.891");
    assert_eq!(v.to_string_with_grouping(false, None), "1234567.891");
    assert_eq!(v.to_string_with_grouping(true, Some(2)), "1,234,567.89");
    let w = BigDecimal::parse("0.995").unwrap();
    assert_eq!(w.to_string_with_grouping(false, Some(2)), "0.910");
    let n = BigDecimal::parse("-0.5").unwrap();
    assert_eq!(n.to_string_with_grouping(false, None), "-0.5");
    assert_eq!(n.to_string_with_grouping(false, Some(10)), "0.5");
}

#[test]
fn rounding_text_reads_back() {
    for text in ["-0.05", "1234.5", "0", "7"] {
        let v = BigDecimal::parse(text).unwrap();
        let back = BigDecimal::parse(&v.to_string()).unwrap();
        assert_eq!(back.sign, v.sign);
        assert_eq!(back.digits, v.digits);
        assert_eq!(back.scale, v.scale);
    }
    assert_eq!(BigDecimal::parse("-0.05").unwrap().to_string(), "-0.05");
}

#[test]
fn rounding_laws_on_examples() {
    let a = || BigDecimal::parse("12.5").unwrap();
    let b = || BigDecimal::parse("-3.75").unwrap();
    assert_eq!(a().add(b()).to_string(), b().add(a()).to_string());
    assert_eq!(a().mul(b()).to_string(), b().mul(a()).to_string());
    assert_eq!(a().sub(b()).to_string(), a().add(b().neg()).to_string());
    assert_eq!(a().sub(b()).to_string(), "16.25");
    let twice = a().neg().neg();
    assert_eq!(twice.sign, Sign::Positive);
    assert_eq!(twice.digits, a().digits);
    assert_eq!(Sign::Positive.negate(), Sign::Negative);
    assert_eq!(BigDecimal::zero().to_string(), "0");
}

#[test]
fn division_rounds_half_up() {
    let q = BigDecimal::parse("1").unwrap().div(BigDecimal::parse("8").unwrap());
    assert_eq!(q.to_string(), "0.125");
    let q = BigDecimal::parse("-2").unwrap().div(BigDecimal::parse("3").unwrap());
    assert_eq!(q.to_string(), "-0.66666666666666666667");
    let r = BigDecimal::parse("1").unwrap().checked_div(BigDecimal::parse("0").unwrap());
    assert!(matches!(r, Err(BigIntError::DivisionByZero)));
}

#[test]
fn rounding_session_transcript() {
    let (out, stopped) = lib::rounding::session_output("2 + 0.1 0.2 / 10 3");
    assert!(!stopped);
    assert_eq!(
        out,
        "请输入数据数目：请输入操作符：左操作数：右操作数：0.3\n请输入操作符：左操作数：右操作数：3.3333333333\n"
    );
    let (out, stopped) = lib::rounding::session_output("1 / 1 1.0000000000000000000000001");
    assert!(stopped);
    assert_eq!(out, "请输入数据数目：请输入操作符：左操作数：右操作数：");
    let (out, stopped) = lib::rounding::session_output("5 * 2");
    assert!(!stopped);
    assert_eq!(out, "请输入数据数目：请输入操作符：左操作数：右操作数：");
}
