use kraken_exporter::text::{chars_of, find_char, join, parse_unsigned, push_decimal};

#[test]
fn chars_of_gives_the_characters_in_order() {
    assert_eq!(chars_of("a/é"), vec!['a', '/', 'é']);
    assert_eq!(chars_of(""), Vec::<char>::new());
}

#[test]
fn find_char_finds_the_first_place_from_the_start_given() {
    let chars = chars_of("XBT/USD/EUR");
    assert_eq!(find_char(&chars, 0, '/'), Some(3));
    assert_eq!(find_char(&chars, 4, '/'), Some(7));
    assert_eq!(find_char(&chars, 8, '/'), None);
    assert_eq!(find_char(&chars, 11, '/'), None);
}

#[test]
fn parse_unsigned_reads_digits_with_or_without_a_plus() {
    assert_eq!(parse_unsigned("60", u64::MAX), Some(60));
    assert_eq!(parse_unsigned("+60", u64::MAX), Some(60));
    assert_eq!(parse_unsigned("0060", u64::MAX), Some(60));
    assert_eq!(parse_unsigned("0", u64::MAX), Some(0));
    assert_eq!(parse_unsigned("18446744073709551615", u64::MAX), Some(u64::MAX));
}

#[test]
fn parse_unsigned_refuses_what_is_no_number_or_too_large() {
    for text in ["", "+", "-1", "1.5", " 1", "1 ", "abc", "1e3", "++1", "18446744073709551616"] {
        assert_eq!(parse_unsigned(text, u64::MAX), None, "{}", text);
        assert!(text.parse::<u64>().is_err(), "{}", text);
    }
    assert_eq!(parse_unsigned("65535", 65535), Some(65535));
    assert_eq!(parse_unsigned("65536", 65535), None);
    assert_eq!(parse_unsigned("99999999999999999999999999", 65535), None);
    assert_eq!(parse_unsigned("7", 0), None);
    assert_eq!(parse_unsigned("0", 0), Some(0));
}

#[test]
fn push_decimal_writes_the_digits_behind_what_is_there() {
    for n in [0u32, 7, 10, 20, 99, 100, 1234567890, u32::MAX] {
        let mut out = String::from("n=");
        push_decimal(&mut out, n);
        assert_eq!(out, format!("n={}", n));
    }
}

#[test]
fn join_puts_the_separator_between_the_parts() {
    let none: Vec<String> = Vec::new();
    assert_eq!(join(&none, ","), "");
    assert_eq!(join(&vec![String::from("a")], ","), "a");
    assert_eq!(join(&vec![String::from("a"), String::from("b"), String::from("")], ","), "a,b,");
}
