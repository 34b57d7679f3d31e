use lib::text::{chars_equal, chars_less, chars_of, lines, parse_number, push_decimal, split_at_char, split_whitespace, string_of};

fn words(v: Vec<Vec<char>>) -> Vec<String> {
    v.into_iter().map(|w| w.into_iter().collect()).collect()
}

#[test]
fn white_space_splits_words() {
    assert_eq!(words(split_whitespace(&chars_of("  a bc\t\nd  "))), vec!["a", "bc", "d"]);
    assert_eq!(words(split_whitespace(&chars_of(""))), Vec::<String>::new());
}

#[test]
fn lines_drop_carriage_returns_and_a_final_newline() {
    assert_eq!(words(lines(&chars_of("a\r\nb\n\nc"))), vec!["a", "b", "", "c"]);
    assert_eq!(words(lines(&chars_of("a\n"))), vec!["a"]);
}

#[test]
fn separators_split_with_empty_pieces() {
    assert_eq!(words(split_at_char(&chars_of(";a;;b"), ';')), vec!["", "a", "", "b"]);
}

#[test]
fn numbers_read_as_str_parse_does() {
    assert_eq!(parse_number(&chars_of("42"), 100), Some(42));
    assert_eq!(parse_number(&chars_of("+7"), 100), Some(7));
    assert_eq!(parse_number(&chars_of("101"), 100), None);
    assert_eq!(parse_number(&chars_of(""), 100), None);
    assert_eq!(parse_number(&chars_of("1a"), 100), None);
    assert_eq!(parse_number(&chars_of("-1"), 100), None);
    assert_eq!(parse_number(&chars_of("18446744073709551615"), u64::MAX), Some(u64::MAX));
}

#[test]
fn names_compare_as_str_does() {
    assert!(chars_less(&chars_of("abc"), &chars_of("abd")));
    assert!(chars_less(&chars_of("ab"), &chars_of("abc")));
    assert!(!chars_less(&chars_of("b"), &chars_of("abc")));
    assert!(!chars_less(&chars_of("x"), &chars_of("x")));
    assert!(chars_equal(&chars_of("x"), &chars_of("x")));
    assert!(!chars_equal(&chars_of("x"), &chars_of("xy")));
}

#[test]
fn decimals_are_written() {
    let mut out = String::new();
    push_decimal(&mut out, 0);
    out.push(' ');
    push_decimal(&mut out, 1234567890);
    assert_eq!(out, "0 1234567890");
    assert_eq!(string_of(&vec!['h', 'i']), "hi");
}
