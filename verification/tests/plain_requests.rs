use lib::plain::{batch_line, format_result_cpp_style, BigDecimal, BigDecimalError};
use std::cmp::Ordering;

fn num(s: &str) -> BigDecimal {
    BigDecimal::parse(s).unwrap()
}

#[test]
fn sums_align_the_point() {
    assert_eq!(num("0.5").add(&num("0.25")).unwrap().to_formatted_string(), "0.75");
    assert_eq!(num("1").add(&num("-3")).unwrap().to_formatted_string(), "-2");
    assert_eq!(num("-1").add(&num("3")).unwrap().to_formatted_string(), "2");
    assert_eq!(num("1.5").sub(&num("1.5")).unwrap().to_formatted_string(), "0");
}

#[test]
fn fractions_keep_their_leading_zeros() {
    assert_eq!(num("0.05").to_formatted_string(), "0.05");
    assert_eq!(num("-0.005").to_formatted_string(), "-0.005");
}

#[test]
fn division_truncates_to_twenty_digits() {
    assert_eq!(num("1").div(&num("3")).unwrap().to_formatted_string(), "0.33333333333333333333");
    assert_eq!(num("-2").div(&num("3")).unwrap().to_formatted_string(), "-0.66666666666666666666");
    assert_eq!(num("1").div(&num("0.5")).unwrap().to_formatted_string(), "2");
    assert!(matches!(num("1").div(&num("0")), Err(BigDecimalError::DivisionByZero)));
    assert_eq!(BigDecimalError::DivisionByZero.message(), "Division by zero");
}

#[test]
fn comparison() {
    assert_eq!(num("1.5").compare(&num("1.25")), Ordering::Greater);
    assert_eq!(num("-2").compare(&num("1")), Ordering::Less);
    assert_eq!(num("0.10").compare(&num("0.1")), Ordering::Equal);
    assert_eq!(num("12.5").compare(&num("12.25")), Ordering::Greater);
    assert_eq!(num("-12.5").compare(&num("-12.25")), Ordering::Less);
}

#[test]
fn predicates() {
    assert!(num("-0.1").is_negative());
    assert!(!num("-0").is_negative());
    assert!(num("3").is_positive());
    assert!(!BigDecimal::zero().is_positive());
    assert!(BigDecimal::one().is_positive());
    assert_eq!(num("1.250").scale(), 2);
}

#[test]
fn plain_parse_messages() {
    let msg = |s: &str| match BigDecimal::parse(s) {
        Err(e) => e.message(),
        Ok(_) => String::from("no error"),
    };
    assert_eq!(msg(""), "Invalid format: Empty input");
    assert_eq!(msg("1.2.3"), "Invalid format: Multiple decimal points");
    assert_eq!(msg("abc"), "Invalid format: Invalid character: a");
    assert_eq!(msg("-"), "Invalid format: No digits found");
    assert_eq!(msg("."), "Invalid format: No digits found");
    assert_eq!(msg("-."), "Invalid format: No digits found");
    assert_eq!(msg(" +, "), "Invalid format: No digits found");
    assert_eq!(BigDecimalError::InvalidInput("x".to_string()).message(), "Invalid input: x");
}

#[test]
fn grouped_text() {
    assert_eq!(num("1234567.891").to_string_with_grouping(true), "1,234,567.891");
    assert_eq!(num("-123").to_string_with_grouping(true), "-123");
    assert_eq!(format_result_cpp_style(&num("-1234.5")), "-1,234.5");
}

#[test]
fn batch_lines() {
    assert_eq!(batch_line("+ 1 2", 1), "3");
    assert_eq!(batch_line("* 12.34 5.67\n", 5), "69.9678");
    assert_eq!(batch_line("+ 1", 2), "ERROR: Invalid format in line 2: + 1");
    assert_eq!(batch_line("  + x 2 ", 3), "ERROR: Cannot parse x in line 3");
    assert_eq!(batch_line("+ 2 y", 3), "ERROR: Cannot parse y in line 3");
    assert_eq!(batch_line("% 1 2", 12), "ERROR: Unknown operation % in line 12");
    assert_eq!(
        batch_line("/ 1 0", 4),
        "ERROR: Division by zero or other operation error in line 4"
    );
}

#[test]
fn plain_laws_on_examples() {
    let a = num("1.5");
    let b = num("2.25");
    let back = a.sub(&b).unwrap().add(&b).unwrap();
    assert_eq!(back.compare(&a), Ordering::Equal);
    assert_eq!(back.to_formatted_string(), "1.5");
    assert_eq!(a.add(&BigDecimal::zero()).unwrap().to_formatted_string(), "1.5");
    assert_eq!(a.mul(&BigDecimal::one()).unwrap().to_formatted_string(), "1.5");
    assert_eq!(a.add(&b).unwrap().to_formatted_string(), b.add(&a).unwrap().to_formatted_string());
    for text in ["-1,234.5", "0.05", "0"] {
        let v = num(text);
        let back = num(&v.to_string_with_grouping(true));
        assert_eq!(back.compare(&v), Ordering::Equal);
        assert_eq!(back.to_formatted_string(), v.to_formatted_string());
    }
    assert_eq!(num("1,2,3.4,5").to_formatted_string(), "123.45");
}
