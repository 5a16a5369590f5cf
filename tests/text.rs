use gpeg::parse_coefficients;

#[test]
fn parses_whitespace_separated_values() {
    assert_eq!(parse_coefficients(b"1 -2 +3\n\t4\r\n"), Some(vec![1, -2, 3, 4]));
    assert_eq!(parse_coefficients(b"  007   -0 "), Some(vec![7, 0]));
}

#[test]
fn parses_empty_text() {
    assert_eq!(parse_coefficients(b""), Some(vec![]));
    assert_eq!(parse_coefficients(b" \n\t "), Some(vec![]));
}

#[test]
fn parses_i16_limits() {
    assert_eq!(parse_coefficients(b"32767 -32768"), Some(vec![32767, -32768]));
    assert_eq!(parse_coefficients(b"32768"), None);
    assert_eq!(parse_coefficients(b"-32769"), None);
    assert_eq!(parse_coefficients(b"99999999999999"), None);
}

#[test]
fn rejects_malformed_tokens() {
    assert_eq!(parse_coefficients(b"12a"), None);
    assert_eq!(parse_coefficients(b"1 - 2"), None);
    assert_eq!(parse_coefficients(b"+"), None);
    assert_eq!(parse_coefficients(b"1,2"), None);
}

#[test]
fn splits_on_unicode_whitespace() {
    assert_eq!(parse_coefficients("1\u{a0}2".as_bytes()), Some(vec![1, 2]));
    assert_eq!(parse_coefficients(&[0x31, 0xc2, 0xa0, 0x32]), Some(vec![1, 2]));
    let text = "1\u{3000}-2\u{2028}3\u{85}4 \u{200a}5\u{1680}6\u{205f}7\u{202f}8\u{2029}9\u{2000}10\u{a0}";
    assert_eq!(parse_coefficients(text.as_bytes()), Some(vec![1, -2, 3, 4, 5, 6, 7, 8, 9, 10]));
    for values in [vec![1, -2, 3], vec![], vec![-32768, 32767]] {
        let text: String = values.iter().map(|v| format!("{}\u{2003}", v)).collect();
        let expected: Vec<i16> = text.split_whitespace().map(|t| t.parse().unwrap()).collect();
        assert_eq!(parse_coefficients(text.as_bytes()), Some(expected));
    }
}

#[test]
fn other_non_ascii_is_not_a_separator() {
    assert_eq!(parse_coefficients("1\u{e9}".as_bytes()), None);
    assert_eq!(parse_coefficients("1\u{200b}2".as_bytes()), None);
    assert_eq!(parse_coefficients("1\u{2030}2".as_bytes()), None);
}
