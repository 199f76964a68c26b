use parser_response::head::ResponseError;
use parser_response::tracking_parser::ResponseParser;

const SAMPLE: &[u8] = b"HTTP/1.1 200 OK\r\nHost: example.com\r\nContent-Type: text/plain\r\nContent-Length: 13\r\n\r\nHello, world\n";

#[test]
fn tracking_new_parser_is_empty() {
    let p = ResponseParser::py_new();
    assert_eq!(p.get_status_code(), "");
    assert!(!p.is_message_complete());
    assert!(!p.is_partial_body());
    assert_eq!(p.recv_body(), "");
    assert_eq!(p.get_len_content(), 0);
    assert_eq!(p.get_len_body(), 0);
}

#[test]
fn tracking_sized_response() {
    let mut p = ResponseParser::py_new();
    assert_eq!(p.execute(SAMPLE), Ok(()));
    assert_eq!(p.get_status_code(), "200 OK");
    assert_eq!(p.get_len_content(), 13);
    assert_eq!(p.get_len_body(), 13);
    assert!(p.is_message_complete());
    assert!(p.is_partial_body());
    assert_eq!(p.recv_body(), "Hello, world\n");
    assert_eq!(
        p.get_headers(),
        vec![
            ("host".to_string(), "example.com".to_string()),
            ("content-type".to_string(), "text/plain".to_string()),
            ("content-length".to_string(), "13".to_string()),
        ]
    );
}

#[test]
fn tracking_body_in_two_chunks() {
    let mut p = ResponseParser::py_new();
    assert_eq!(p.execute(b"HTTP/1.1 200 OK\r\nContent-Length: 5\r\n\r\nhel"), Ok(()));
    assert!(!p.is_message_complete());
    assert_eq!(p.get_len_body(), 3);
    assert!(p.is_partial_body());
    assert_eq!(p.execute(b"lo"), Ok(()));
    assert!(p.is_message_complete());
    assert_eq!(p.recv_body(), "hello");
}

#[test]
fn tracking_without_content_length() {
    let mut p = ResponseParser::py_new();
    assert_eq!(p.execute(b"HTTP/1.1 200 OK\r\n\r\nabc"), Ok(()));
    assert_eq!(p.get_len_content(), 0);
    assert!(!p.is_message_complete());
    assert!(p.is_partial_body());
}

#[test]
fn tracking_empty_body_is_not_complete() {
    let mut p = ResponseParser::py_new();
    assert_eq!(p.execute(b"HTTP/1.1 204 No Content\r\nContent-Length: 0\r\n\r\n"), Ok(()));
    assert_eq!(p.get_status_code(), "204 No Content");
    assert!(!p.is_message_complete());
    assert!(!p.is_partial_body());
}

#[test]
fn tracking_unknown_reason() {
    let mut p = ResponseParser::py_new();
    assert_eq!(p.execute(b"HTTP/1.1 299 Whatever\r\n\r\n"), Ok(()));
    assert_eq!(p.get_status_code(), "299 <unknown status code>");
}

#[test]
fn tracking_repeated_header_lines_come_together() {
    let mut p = ResponseParser::py_new();
    assert_eq!(p.execute(b"HTTP/1.1 200 OK\r\nSet-Cookie: a\r\nHost: h\r\nSet-Cookie: b\r\n\r\n"), Ok(()));
    assert_eq!(
        p.get_headers(),
        vec![
            ("set-cookie".to_string(), "a".to_string()),
            ("set-cookie".to_string(), "b".to_string()),
            ("host".to_string(), "h".to_string()),
        ]
    );
}

#[test]
fn tracking_negative_content_length_is_refused() {
    let mut p = ResponseParser::py_new();
    let r = p.execute(b"HTTP/1.1 200 OK\r\nContent-Length: -1\r\n\r\nx");
    assert_eq!(r, Err(ResponseError::ContentLengthInvalid));
    assert_eq!(p.get_status_code(), "200 OK");
    assert_eq!(p.recv_body(), "x");
}

#[test]
fn tracking_content_length_that_is_not_a_number_is_refused() {
    let mut p = ResponseParser::py_new();
    assert_eq!(p.execute(b"HTTP/1.1 200 OK\r\nContent-Length: ten\r\n\r\n"), Err(ResponseError::ContentLengthInvalid));
}

#[test]
fn tracking_incomplete_head_is_refused() {
    let mut p = ResponseParser::py_new();
    assert_eq!(p.execute(b"HTTP/1.1 200 OK\r\nHost"), Err(ResponseError::HeadIncomplete));
    assert!(!p.is_message_complete());
    assert_eq!(p.get_status_code(), "");
    assert!(p.get_headers().is_empty());
    assert_eq!(p.execute(b": a\r\n\r\n"), Ok(()));
    assert_eq!(p.get_status_code(), "200 OK");
}

#[test]
fn tracking_invalid_head_is_refused() {
    let mut p = ResponseParser::py_new();
    assert_eq!(p.execute(b"xyz\r\n\r\n"), Err(ResponseError::HeadInvalid));
}

#[test]
fn tracking_body_that_is_not_text_is_refused() {
    let mut p = ResponseParser::py_new();
    assert_eq!(p.execute(b"HTTP/1.1 200 OK\r\n\r\n\xff"), Err(ResponseError::BodyNotText));
    assert_eq!(p.get_status_code(), "200 OK");
}

use parser_response::head::{HeaderField, ResponseHead};

#[test]
fn tracking_length_steps() {
    let mut p = ResponseParser::py_new();
    assert_eq!(p.get_length_content(), Some(0));
    assert_eq!(p.execute(b"HTTP/1.1 200 OK\r\nContent-Length: 3\r\n\r\nab"), Ok(()));
    assert_eq!(p.get_length_content(), Some(3));
    assert_eq!(p.upd_msg_complete(), Ok(()));
    assert!(!p.is_message_complete());
    assert_eq!(p.get_len_body(), 2);
}

#[test]
fn tracking_apply_head() {
    let mut p = ResponseParser::py_new();
    let h = ResponseHead {
        code: 200,
        reason: Some("OK".to_string()),
        headers: vec![HeaderField { name: b"content-length".to_vec(), value: b"2".to_vec() }],
        headers_debug: String::new(),
        body: b"hi".to_vec(),
    };
    assert_eq!(p.apply_head(h), Ok(()));
    assert_eq!(p.get_status_code(), "200 OK");
    assert!(p.is_message_complete());
    assert_eq!(p.get_len_content(), 2);
    let h = ResponseHead {
        code: 200,
        reason: None,
        headers: vec![HeaderField { name: b"content-length".to_vec(), value: b"abc".to_vec() }],
        headers_debug: String::new(),
        body: b"hi".to_vec(),
    };
    assert_eq!(p.apply_head(h), Err(ResponseError::ContentLengthInvalid));
    assert_eq!(p.get_length_content(), None);
}
