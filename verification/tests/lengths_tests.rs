use parser_response::lengths::{body_len_of, content_len, content_len_checked, get_body_len};

const SAMPLE: &[u8] = b"HTTP/1.1 200 OK\r\nHost: example.com\r\nContent-Type: text/plain\r\nContent-Length: 13\r\n\r\nHello, world\n";

#[test]
fn body_len_counts_bytes_after_blank_line() {
    assert_eq!(get_body_len(SAMPLE), 13);
}

#[test]
fn content_len_reads_the_value() {
    assert_eq!(content_len(SAMPLE), 13);
}

#[test]
fn body_len_is_zero_without_blank_line() {
    assert_eq!(get_body_len(b"HTTP/1.1 200 OK\r\nHost: a\r\n"), 0);
    assert_eq!(body_len_of(b""), 0);
}

#[test]
fn body_len_counts_from_first_blank_line() {
    assert_eq!(body_len_of(b"\r\n\r\n"), 0);
    assert_eq!(body_len_of(b"a\r\n\r\nbc\r\n\r\nd"), 7);
}

#[test]
fn content_len_is_zero_without_the_line() {
    assert_eq!(content_len(b"HTTP/1.1 200 OK\r\nHost: a\r\n\r\nabc"), 0);
    assert_eq!(content_len(b""), 0);
}

#[test]
fn content_len_key_is_case_sensitive() {
    assert_eq!(content_len(b"HTTP/1.1 200 OK\r\ncontent-length: 13\r\n\r\n"), 0);
}

#[test]
fn content_len_takes_signs() {
    assert_eq!(content_len(b"Content-Length: -5\r\n\r\n"), -5);
    assert_eq!(content_len(b"Content-Length: +13\r\n\r\n"), 13);
}

#[test]
fn content_len_uses_first_line_that_holds_the_key() {
    assert_eq!(content_len(b"X-Content-Length: 7\r\nContent-Length: 9\r\n\r\n"), 7);
}

#[test]
fn content_len_checked_refuses_what_cannot_be_read() {
    assert_eq!(content_len_checked(b"Content-Length:\r\n\r\n"), None);
    assert_eq!(content_len_checked(b"Content-Length: 12abc\r\n\r\n"), None);
    assert_eq!(content_len_checked(b"Content-Length: 2147483648\r\n\r\n"), None);
    assert_eq!(content_len_checked(b"\xff\xfe"), None);
}

#[test]
fn content_len_checked_reads_what_can_be_read() {
    assert_eq!(content_len_checked(SAMPLE), Some(13));
    assert_eq!(content_len_checked(b"no such line"), Some(0));
    assert_eq!(content_len_checked(b"Content-Length: 2147483647 extra"), Some(2147483647));
}

use parser_response::lengths::{body_ends_with_last_chunk, chunked, completion, content_length_present, Completion};

fn completion_of(s: &[u8]) -> Completion {
    completion(s, content_len(s), get_body_len(s))
}

#[test]
fn completion_sized_when_body_as_long_as_said() {
    assert_eq!(completion_of(SAMPLE), Completion::Sized);
    assert_eq!(completion_of(b"HTTP/1.1 200 OK\r\nContent-Length: 0\r\n\r\n"), Completion::Sized);
}

#[test]
fn completion_waits_for_sized_body() {
    assert_eq!(completion_of(b"HTTP/1.1 200 OK\r\nContent-Length: 5\r\n\r\nhel"), Completion::Waiting);
    assert_eq!(completion_of(b"HTTP/1.1 200 OK\r\nContent-Length: 0\r\n"), Completion::Waiting);
    assert_eq!(completion_of(b"HTTP/1.1 200 OK\r\nContent-Length: 2\r\n\r"), Completion::Waiting);
}

#[test]
fn completion_unsized_after_zero_length_with_bytes() {
    assert_eq!(completion_of(b"HTTP/1.1 200 OK\r\nContent-Length: 0\r\n\r\nxyz"), Completion::Unsized);
}

#[test]
fn completion_of_chunked_body_waits_for_last_chunk() {
    let cut: &[u8] = b"HTTP/1.1 200 OK\r\nTransfer-Encoding: chunked\r\n\r\n5\r\nHel";
    assert_eq!(completion_of(cut), Completion::Waiting);
    let whole: &[u8] = b"HTTP/1.1 200 OK\r\nTransfer-Encoding: chunked\r\n\r\n5\r\nHello\r\n0\r\n\r\n";
    assert_eq!(completion_of(whole), Completion::Unsized);
    let empty: &[u8] = b"HTTP/1.1 200 OK\r\nTransfer-Encoding: chunked\r\n\r\n0\r\n\r\n";
    assert_eq!(completion_of(empty), Completion::Unsized);
}

#[test]
fn completion_without_length_needs_bytes() {
    assert_eq!(completion_of(b"HTTP/1.1 200 OK\r\nHost: a\r\n\r\nabc"), Completion::Unsized);
    assert_eq!(completion_of(b"HTTP/1.1 200 OK\r\nHost: a\r\n\r\n"), Completion::Waiting);
}

#[test]
fn text_checks_behind_completion() {
    assert!(content_length_present(SAMPLE));
    assert!(!content_length_present(b"HTTP/1.1 200 OK\r\n\r\n"));
    assert!(chunked(b"HTTP/1.1 200 OK\r\nTransfer-Encoding: gzip, chunked\r\n\r\n"));
    assert!(!chunked(b"HTTP/1.1 200 OK\r\nTransfer-Encoding: gzip\r\n\r\n"));
    assert!(!chunked(b"\xff"));
    assert!(body_ends_with_last_chunk(b"H\r\n\r\n0\r\n\r\n"));
    assert!(!body_ends_with_last_chunk(b"H\r\n\r\n5\r\nhello\r\n"));
    assert!(!body_ends_with_last_chunk(b"0\r\n\r\n"));
}
