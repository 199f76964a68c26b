use parser_response::head::ResponseError;
use parser_response::marked_parser::ResponseParser;

const SAMPLE: &[u8] = b"HTTP/1.1 200 OK\r\nHost: example.com\r\nContent-Type: text/plain\r\nContent-Length: 13\r\n\r\nHello, world\n";

#[test]
fn marked_new_parser_says_400() {
    let p = ResponseParser::py_new();
    assert_eq!(p.get_status_code(), "400");
    assert!(!p.is_message_complete());
    assert_eq!(p.recv_body(), b"");
    assert!(p.get_headers().is_empty());
}

#[test]
fn marked_sized_response() {
    let mut p = ResponseParser::py_new();
    assert_eq!(p.execute(SAMPLE, b""), Ok(()));
    assert_eq!(p.get_status_code(), "200");
    assert!(p.is_message_complete());
    assert_eq!(p.recv_body(), b"Hello, world\n");
    assert!(p.headers_are_text());
    assert_eq!(
        p.get_headers(),
        vec![
            ("host".to_string(), "example.com".to_string()),
            ("content-type".to_string(), "text/plain".to_string()),
            ("content-length".to_string(), "13".to_string()),
        ]
    );
}

#[test]
fn marked_unsized_body_only_marks_complete() {
    let mut p = ResponseParser::py_new();
    assert_eq!(p.execute(b"HTTP/1.1 200 OK\r\nHost: a\r\n\r\nabc", b""), Ok(()));
    assert!(p.is_message_complete());
    assert_eq!(p.get_status_code(), "400");
    assert_eq!(p.recv_body(), b"");
}

#[test]
fn marked_end_mark() {
    let mut p = ResponseParser::py_new();
    assert_eq!(p.execute(b"HTTP/1.1 201 Created\r\n\r\na", b"ab"), Ok(()));
    assert_eq!(p.get_status_code(), "400");
    assert!(!p.is_message_complete());
    assert_eq!(p.execute(b"b", b"ab"), Ok(()));
    assert_eq!(p.get_status_code(), "201");
    assert!(p.is_message_complete());
    assert_eq!(p.recv_body(), b"ab");
}

#[test]
fn marked_errors() {
    let mut p = ResponseParser::py_new();
    assert_eq!(p.execute(b"HTTP/1.1 200 OK\r\n", b"\r\n"), Err(ResponseError::HeadIncomplete));
    let mut p = ResponseParser::py_new();
    assert_eq!(p.execute(b"nope!", b"!"), Err(ResponseError::HeadInvalid));
    let mut p = ResponseParser::py_new();
    assert_eq!(p.execute(b"Content-Length: q\r\n\r\n", b""), Err(ResponseError::ContentLengthInvalid));
    let mut p = ResponseParser::py_new();
    assert_eq!(p.execute(b"HTTP/1.1 500 Internal Server Error\r\n\r\n\xff", b"\xff"), Err(ResponseError::BodyNotText));
    assert_eq!(p.get_status_code(), "500");
    assert!(!p.is_message_complete());
}

use parser_response::head::{HeaderField, ResponseHead};

#[test]
fn marked_zero_content_length_is_parsed() {
    let mut p = ResponseParser::py_new();
    assert_eq!(p.execute(b"HTTP/1.1 204 No Content\r\nContent-Length: 0\r\n\r\n", b""), Ok(()));
    assert!(p.is_message_complete());
    assert_eq!(p.get_status_code(), "204");
    assert_eq!(p.recv_body(), b"");
}

#[test]
fn marked_chunked_body_waits_for_last_chunk() {
    let mut p = ResponseParser::py_new();
    assert_eq!(p.execute(b"HTTP/1.1 200 OK\r\nTransfer-Encoding: chunked\r\n\r\n5\r\nHel", b""), Ok(()));
    assert!(!p.is_message_complete());
    assert_eq!(p.execute(b"lo\r\n0\r\n\r\n", b""), Ok(()));
    assert!(p.is_message_complete());
}

#[test]
fn marked_parser_and_lengths() {
    let mut p = ResponseParser::py_new();
    assert_eq!(p.get_body_len(SAMPLE), 13);
    assert_eq!(p.content_len(SAMPLE), 13);
    assert_eq!(p.parser(SAMPLE), Ok(()));
    assert_eq!(p.get_status_code(), "200");
    assert_eq!(p.recv_body(), b"Hello, world\n");
}

#[test]
fn marked_apply_head() {
    let mut p = ResponseParser::py_new();
    let h = ResponseHead {
        code: 302,
        reason: Some("Found".to_string()),
        headers: vec![HeaderField { name: b"location".to_vec(), value: b"/x".to_vec() }],
        headers_debug: String::new(),
        body: vec![],
    };
    assert_eq!(p.apply_head(h), Ok(()));
    assert_eq!(p.get_status_code(), "302");
    assert_eq!(p.get_headers(), vec![("location".to_string(), "/x".to_string())]);
    assert!(p.is_message_complete());
}
