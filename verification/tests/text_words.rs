use lib::text::{parse_usize, split_words, usize_to_text};

fn chars(s: &str) -> Vec<char> {
    s.chars().collect()
}

#[test]
fn words_split_on_white_space() {
    let ws = split_words(&chars("  + 1,5\t-2\n\u{3000}x "));
    let ws: Vec<String> = ws.into_iter().map(|w| w.into_iter().collect()).collect();
    assert_eq!(ws, vec!["+", "1,5", "-2", "x"]);
    assert!(split_words(&chars(" \n ")).is_empty());
}

#[test]
fn counts_parse_like_usize() {
    assert_eq!(parse_usize(&chars("42")), Some(42));
    assert_eq!(parse_usize(&chars("+7")), Some(7));
    assert_eq!(parse_usize(&chars("007")), Some(7));
    assert_eq!(parse_usize(&chars("-1")), None);
    assert_eq!(parse_usize(&chars("")), None);
    assert_eq!(parse_usize(&chars("+")), None);
    assert_eq!(parse_usize(&chars("1x")), None);
    assert_eq!(parse_usize(&chars("99999999999999999999999")), None);
}

#[test]
fn counts_print_in_decimal() {
    assert_eq!(usize_to_text(0), "0");
    assert_eq!(usize_to_text(1234), "1234");
    assert_eq!(usize_to_text(10), "10");
}
