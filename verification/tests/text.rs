use teehee::text::{
    count_char, find_char, is_whitespace, parse_number, push_decimal, push_decimal_wide, push_hex,
    same_text, split_words, ParseIntError,
};

#[test]
fn numbers_are_written_and_read() {
    for n in [0u64, 9, 10, 255, 65_536, u64::MAX] {
        let mut s = String::from("n=");
        push_decimal(&mut s, n);
        assert_eq!(s, format!("n={n}"));
        assert_eq!(parse_number(&s[2..], u64::MAX), Ok(n));
    }
    let mut wide = String::new();
    push_decimal_wide(&mut wide, u128::MAX);
    assert_eq!(wide, format!("{}", u128::MAX));
    let mut hex = String::new();
    push_hex(&mut hex, 0xbeef, 6);
    assert_eq!(hex, "00beef");
}

#[test]
fn bad_numbers_are_refused() {
    assert_eq!(parse_number("", 9), Err(ParseIntError::Empty));
    assert_eq!(parse_number("+", 9), Err(ParseIntError::InvalidDigit));
    assert_eq!(parse_number("-1", 9), Err(ParseIntError::InvalidDigit));
    assert_eq!(parse_number("1 ", 9), Err(ParseIntError::InvalidDigit));
    assert_eq!(parse_number("10", 9), Err(ParseIntError::PosOverflow));
    assert_eq!(parse_number("+9", 9), Ok(9));
    assert_eq!(parse_number("0009", 9), Ok(9));
}

#[test]
fn whitespace_is_that_of_unicode() {
    for c in (0..0x11_0000u32).filter_map(char::from_u32) {
        assert_eq!(is_whitespace(c), c.is_whitespace(), "{c:?}");
    }
}

#[test]
fn words_are_split_like_std_does() {
    for s in ["", " ", "a", " a  b ", "gain\t2.0\u{3000}x\n", "\u{a0}x"] {
        let expected: Vec<String> = s.split_whitespace().map(String::from).collect();
        assert_eq!(split_words(s), expected, "{s:?}");
    }
}

#[test]
fn characters_are_found_and_counted() {
    let s = ['a', ':', 'b', ':'];
    assert_eq!(find_char(&s, 0, ':'), Some(1));
    assert_eq!(find_char(&s, 2, ':'), Some(3));
    assert_eq!(find_char(&s, 0, 'x'), None);
    assert_eq!(count_char(&s, ':'), 2);
    assert!(same_text("abc", "abc"));
    assert!(!same_text("abc", "abd"));
    assert!(!same_text("ab", "abc"));
}
