use parser_response::text::{
    ascii_string, char_is_whitespace, chars_of, decimal_string, decode_chars, find_in,
    first_line_containing, parse_i32_chars, utf8_string, word_bounds,
};

fn chars(s: &str) -> Vec<char> {
    s.chars().collect()
}

#[test]
fn decimal_string_writes_numerals() {
    assert_eq!(decimal_string(0), "0");
    assert_eq!(decimal_string(7), "7");
    assert_eq!(decimal_string(200), "200");
    assert_eq!(decimal_string(1234567), "1234567");
    assert_eq!(decimal_string(u64::MAX), "18446744073709551615");
}

#[test]
fn parse_i32_chars_reads_numerals() {
    let c = chars("+7");
    assert_eq!(parse_i32_chars(&c, 0, c.len()), Some(7));
    let c = chars("-12");
    assert_eq!(parse_i32_chars(&c, 0, c.len()), Some(-12));
    let c = chars("2147483647");
    assert_eq!(parse_i32_chars(&c, 0, c.len()), Some(i32::MAX));
    let c = chars("-2147483648");
    assert_eq!(parse_i32_chars(&c, 0, c.len()), Some(i32::MIN));
    let c = chars("007");
    assert_eq!(parse_i32_chars(&c, 0, c.len()), Some(7));
}

#[test]
fn parse_i32_chars_refuses_non_numerals() {
    for s in ["", "-", "+", "1a", " 1", "2147483648", "-2147483649", "--1", "1.0"] {
        let c = chars(s);
        assert_eq!(parse_i32_chars(&c, 0, c.len()), None, "{}", s);
        assert_eq!(s.parse::<i32>().ok(), None, "{}", s);
    }
}

#[test]
fn parse_i32_chars_reads_only_the_part() {
    let c = chars("xx12yy");
    assert_eq!(parse_i32_chars(&c, 2, 4), Some(12));
    assert_eq!(parse_i32_chars(&c, 2, 5), None);
}

#[test]
fn word_bounds_finds_words() {
    let c = chars("  ab  cd ");
    assert_eq!(word_bounds(&c, 0), Some((2, 4)));
    assert_eq!(word_bounds(&c, 1), Some((6, 8)));
    assert_eq!(word_bounds(&c, 2), None);
    let c = chars("a\u{a0}b");
    assert_eq!(word_bounds(&c, 1), Some((2, 3)));
}

#[test]
fn whitespace_is_unicode_white_space() {
    for c in [' ', '\t', '\n', '\r', '\u{b}', '\u{c}', '\u{85}', '\u{a0}', '\u{2003}', '\u{3000}'] {
        assert!(char_is_whitespace(c));
        assert!(c.is_whitespace());
    }
    for c in ['a', '0', '-', '\u{200b}', '\u{0}'] {
        assert!(!char_is_whitespace(c));
        assert!(!c.is_whitespace());
    }
}

#[test]
fn decode_chars_decodes_utf8() {
    assert_eq!(decode_chars("hé".as_bytes()), Some(vec!['h', 'é']));
    assert_eq!(decode_chars(b"\xff"), None);
    assert_eq!(decode_chars(b""), Some(vec![]));
}

#[test]
fn utf8_string_decodes_utf8() {
    assert_eq!(utf8_string("ok ✓".as_bytes()), Some("ok ✓".to_string()));
    assert_eq!(utf8_string(b"a\xc3"), None);
}

#[test]
fn ascii_string_and_chars_of() {
    assert_eq!(ascii_string(b"abc"), "abc");
    assert_eq!(chars_of("añb"), vec!['a', 'ñ', 'b']);
}

#[test]
fn first_line_containing_finds_the_line() {
    let c = chars("a\r\nxKEYy\r\nKEY");
    let k = chars("KEY");
    assert_eq!(first_line_containing(&c, &k), Some((3, 8)));
    let k = chars("ZZ");
    assert_eq!(first_line_containing(&c, &k), None);
    let c = chars("KEY");
    let k = chars("KEY");
    assert_eq!(first_line_containing(&c, &k), Some((0, 3)));
}

#[test]
fn find_in_searches_the_part() {
    let c = chars("abcabc");
    let p = chars("ab");
    assert_eq!(find_in(&c, 1, 6, &p), Some(2));
    assert_eq!(find_in(&c, 1, 4, &p), None);
}

#[test]
fn decimal_numerals_read_back() {
    for n in [0u64, 9, 10, 200, 404, 65535, 2147483647] {
        let c = chars(&decimal_string(n));
        assert_eq!(parse_i32_chars(&c, 0, c.len()), Some(n as i32));
    }
}
