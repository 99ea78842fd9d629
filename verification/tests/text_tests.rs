use minishell::text::{chars_of, decimal_of, parse_i32, split_char, str_eq, string_of, trim_range};

#[test]
fn decimal_of_writes_like_to_string() {
    for n in [0, 7, 10, 42, -1, -10, 127, 2147483647, -2147483648, 1000000] {
        assert_eq!(decimal_of(n), n.to_string());
    }
}

#[test]
fn parse_i32_accepts_signed_decimals() {
    assert_eq!(parse_i32("42"), Some(42));
    assert_eq!(parse_i32("+42"), Some(42));
    assert_eq!(parse_i32("-42"), Some(-42));
    assert_eq!(parse_i32("007"), Some(7));
    assert_eq!(parse_i32("2147483647"), Some(2147483647));
    assert_eq!(parse_i32("-2147483648"), Some(-2147483648));
}

#[test]
fn parse_i32_refuses_what_str_parse_refuses() {
    for s in ["", "+", "-", "2147483648", "-2147483649", "12a", " 1", "1 ", "+-1", "99999999999999999999"] {
        assert_eq!(parse_i32(s), None, "{:?}", s);
        assert!(s.parse::<i32>().is_err());
    }
}

#[test]
fn parse_i32_reads_back_decimal_of() {
    for n in [0, 5, -5, 2147483647, -2147483648, 123456] {
        assert_eq!(parse_i32(&decimal_of(n)), Some(n));
    }
}

#[test]
fn split_char_keeps_empty_fields() {
    assert_eq!(split_char("a:b", ':'), vec!["a", "b"]);
    assert_eq!(split_char("", ':'), vec![""]);
    assert_eq!(split_char(":a:", ':'), vec!["", "a", ""]);
    assert_eq!(split_char("abc", ':'), vec!["abc"]);
}

#[test]
fn str_eq_compares_characters() {
    assert!(str_eq("abc", "abc"));
    assert!(!str_eq("abc", "abd"));
    assert!(!str_eq("ab", "abc"));
    assert!(str_eq("", ""));
}

#[test]
fn chars_round_trip() {
    let s = "héllo wörld";
    assert_eq!(string_of(&chars_of(s)), s);
    assert_eq!(chars_of(s).len(), 11);
}

#[test]
fn trim_range_trims_like_std() {
    let cases = ["  a b  ", "\t\nx\u{3000}", "", "   ", "\"q\"", "\"\"a\"", "\n\nhost\n"];
    for s in cases {
        let v = chars_of(s);
        assert_eq!(string_of(&trim_range(&v, true, ' ')), s.trim());
        assert_eq!(string_of(&trim_range(&v, false, '"')), s.trim_matches('"'));
        assert_eq!(string_of(&trim_range(&v, false, '\n')), s.trim_matches('\n'));
    }
}
