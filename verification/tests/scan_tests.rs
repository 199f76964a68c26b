use parser_response::scan::{bytes_end_with, bytes_equal, bytes_occur_at, find_bytes};

#[test]
fn find_bytes_gives_first_occurrence() {
    assert_eq!(find_bytes(b"abcabc", b"ca"), Some(2));
    assert_eq!(find_bytes(b"abcabc", b"bc"), Some(1));
    assert_eq!(find_bytes(b"abc", b"x"), None);
    assert_eq!(find_bytes(b"ab", b"abc"), None);
}

#[test]
fn find_bytes_of_empty_pattern_is_zero() {
    assert_eq!(find_bytes(b"abc", b""), Some(0));
    assert_eq!(find_bytes(b"", b""), Some(0));
}

#[test]
fn bytes_occur_at_checks_position() {
    assert!(bytes_occur_at(b"abcd", b"cd", 2));
    assert!(!bytes_occur_at(b"abcd", b"cd", 1));
    assert!(!bytes_occur_at(b"abcd", b"cd", 3));
}

#[test]
fn bytes_end_with_checks_suffix() {
    assert!(bytes_end_with(b"hello\r\n", b"\r\n"));
    assert!(bytes_end_with(b"hello", b""));
    assert!(!bytes_end_with(b"hello", b"hell"));
    assert!(!bytes_end_with(b"lo", b"hello"));
}

#[test]
fn bytes_equal_compares_contents() {
    assert!(bytes_equal(b"abc", b"abc"));
    assert!(!bytes_equal(b"abc", b"abd"));
    assert!(!bytes_equal(b"abc", b"ab"));
}
