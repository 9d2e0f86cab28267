use diskus::text::{decimal_string, parse_usize, str_equals};

#[test]
fn parse_usize_reads_decimal_numbers() {
    assert_eq!(parse_usize("12"), Some(12));
    assert_eq!(parse_usize("+7"), Some(7));
    assert_eq!(parse_usize("0"), Some(0));
    assert_eq!(parse_usize("007"), Some(7));
}

#[test]
fn parse_usize_refuses_what_str_parse_refuses() {
    for s in ["", "+", "-1", "-", "1a", "abc", " 1", "1 ", "++1"] {
        assert_eq!(parse_usize(s), s.parse::<usize>().ok(), "{s:?}");
        assert_eq!(parse_usize(s), None);
    }
    let too_big = format!("{}0", usize::MAX);
    assert_eq!(parse_usize(&too_big), None);
    assert_eq!(parse_usize(&usize::MAX.to_string()), Some(usize::MAX));
}

#[test]
fn decimal_string_matches_to_string() {
    for n in [0u64, 7, 10, 350, 1_234_567, u64::MAX] {
        assert_eq!(decimal_string(n), n.to_string());
    }
}

#[test]
fn str_equals_compares_characters() {
    assert!(str_equals("decimal", "decimal"));
    assert!(!str_equals("decimal", "decimals"));
    assert!(!str_equals("binary", "decimal"));
    assert!(str_equals("", ""));
}
