use lib::legacy::{
    compute_output, read_operator, session_output, BigDecimal, Error, LegacyFormat, OperatorRequest,
    Sign,
};

#[test]
fn compute_output_add_sub() {
    assert_eq!(compute_output('+', "1,234.5", "6.70"), "1,241.2");
    assert_eq!(compute_output('+', "0.1", "0.2"), "3");
    assert_eq!(compute_output('-', "0.5", "0.2"), "3");
    assert_eq!(compute_output('+', "-0.1", "-0.2"), "-3");
}

#[test]
fn compute_output_mul_div() {
    assert_eq!(compute_output('*', "1.2", "3.4"), "4.08");
    assert_eq!(compute_output('*', "0.99999999995", "1"), "0.99999999910");
    assert_eq!(compute_output('*', "0.1", "-0.2"), "0.02");
    assert_eq!(compute_output('/', "10", "3"), "3.3333333333");
    assert_eq!(compute_output('/', "1", "8"), "0.125");
}

#[test]
fn compute_output_errors() {
    assert_eq!(compute_output('/', "1", "0.0000001"), "ERROR");
    assert_eq!(compute_output('/', "1", "0"), "ERROR");
    assert_eq!(compute_output('%', "1", "2"), "ERROR");
    assert_eq!(compute_output('+', "1..2", "1"), "ERROR");
    assert_eq!(compute_output('+', "1", "x"), "ERROR");
}

#[test]
fn session_output_records() {
    assert_eq!(
        session_output("2 + 1 2 - 5 3"),
        "请输入数据数目：请输入操作符：左操作数：右操作数：3\n请输入操作符：左操作数：右操作数：2\n"
    );
}

#[test]
fn session_output_stops_when_words_run_out() {
    assert_eq!(
        session_output("3 + 1 2 *"),
        "请输入数据数目：请输入操作符：左操作数：右操作数：3\n请输入操作符：左操作数："
    );
    assert_eq!(session_output(""), "请输入数据数目：");
    assert_eq!(session_output("x + 1 2"), "请输入数据数目：");
    assert_eq!(session_output("1 + 1"), "请输入数据数目：请输入操作符：左操作数：右操作数：");
}

#[test]
fn parse_errors_and_messages() {
    assert_eq!(BigDecimal::parse("   ").unwrap_err(), Error::Empty);
    assert_eq!(BigDecimal::parse("1.2.3").unwrap_err(), Error::MultipleDecimalPoints);
    assert_eq!(BigDecimal::parse("12a").unwrap_err(), Error::InvalidChar('a'));
    assert_eq!(BigDecimal::parse("-").unwrap_err(), Error::NoDigits);
    assert_eq!(Error::Empty.message(), "input is empty");
    assert_eq!(Error::InvalidChar('a').message(), "invalid character: a");
    assert_eq!(Error::MultipleDecimalPoints.message(), "multiple decimal points");
    assert_eq!(Error::NoDigits.message(), "input contains no digits");
    assert_eq!(Error::DivisionByZeroOrTooSmall.message(), "division by zero or too small");
}

#[test]
fn parse_keeps_trailing_zeros_and_drops_leading_ones() {
    let v = BigDecimal::parse(" -00,012.3400 ").unwrap();
    assert_eq!(v.sign, Sign::Negative);
    assert_eq!(v.digits, vec![1, 2, 3, 4, 0, 0]);
    assert_eq!(v.scale, 4);
    let z = BigDecimal::parse("-0.000").unwrap();
    assert_eq!(z.sign, Sign::Positive);
    assert_eq!(z.digits, vec![0]);
    assert_eq!(z.scale, 0);
}

#[test]
fn text_reads_back() {
    for text in ["-1,234.5600", "0.0100", "42", "-0.5"] {
        let v = BigDecimal::parse(text).unwrap();
        for grouping in [false, true] {
            let back = BigDecimal::parse(&v.to_string_with_grouping(grouping)).unwrap();
            assert_eq!(back.sign, v.sign);
            assert_eq!(back.digits, v.digits);
            assert_eq!(back.scale, v.scale);
        }
    }
    let v = BigDecimal::parse("1234567.5").unwrap();
    assert_eq!(v.to_string_with_grouping(true), "1,234,567.5");
}

#[test]
fn commas_are_ignored() {
    let a = BigDecimal::parse("-1234567.89").unwrap();
    let b = BigDecimal::parse("-1,2,3,4,567.8,9,").unwrap();
    assert_eq!(a.digits, b.digits);
    assert_eq!(a.scale, b.scale);
    assert_eq!(a.sign, b.sign);
}

#[test]
fn add_and_mul_commute() {
    let a = BigDecimal::parse("12.5").unwrap();
    let b = BigDecimal::parse("-3.75").unwrap();
    let ab = a.add(&b);
    let ba = b.add(&a);
    assert_eq!(ab.digits, ba.digits);
    assert_eq!(ab.scale, ba.scale);
    assert_eq!(ab.sign, ba.sign);
    assert_eq!(ab.to_string_with_grouping(false), "8.75");
    let p = a.mul(&b);
    let q = b.mul(&a);
    assert_eq!(p.digits, q.digits);
    assert_eq!(p.to_string_with_grouping(false), "-46.875");
}

#[test]
fn sub_self_is_zero() {
    let a = BigDecimal::parse("-987.654").unwrap();
    let z = a.sub(&a);
    assert_eq!(z.sign, Sign::Positive);
    assert_eq!(z.digits, vec![0]);
    assert_eq!(z.scale, 0);
}

#[test]
fn adding_zero_to_a_negative_fraction() {
    let a = BigDecimal::parse("0").unwrap();
    let b = BigDecimal::parse("-0.5").unwrap();
    let s = a.add(&b);
    assert_eq!(s.to_string_with_grouping(false), "-0.5");
}

#[test]
fn division_results() {
    let a = BigDecimal::parse("1").unwrap();
    let b = BigDecimal::parse("3").unwrap();
    let q = a.div(&b).unwrap();
    assert_eq!(q.scale, 20);
    assert_eq!(q.to_string_with_grouping(false), "0.33333333333333333333");
    let tiny = BigDecimal::parse("0.00000001").unwrap();
    assert!(tiny.is_too_small_divisor());
    assert_eq!(a.div(&tiny).unwrap_err(), Error::DivisionByZeroOrTooSmall);
    let zero = BigDecimal::parse("0").unwrap();
    assert!(zero.is_zero());
    assert_eq!(a.div(&zero).unwrap_err(), Error::DivisionByZeroOrTooSmall);
    assert_eq!(q.to_string_legacy(LegacyFormat::MulDiv), "0.3333333333");
}

#[test]
fn operator_prompt_requests() {
    assert_eq!(read_operator("quit\n"), OperatorRequest::Quit);
    assert_eq!(read_operator("  QuIt "), OperatorRequest::Quit);
    assert_eq!(read_operator("+\n"), OperatorRequest::Operation('+'));
    assert_eq!(read_operator(" / "), OperatorRequest::Operation('/'));
    assert_eq!(read_operator("%"), OperatorRequest::Invalid);
    assert_eq!(read_operator("++"), OperatorRequest::Invalid);
    assert_eq!(read_operator("quits"), OperatorRequest::Invalid);
    assert_eq!(read_operator(""), OperatorRequest::Invalid);
}
