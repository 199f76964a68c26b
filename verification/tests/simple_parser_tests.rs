use parser_response::head::ResponseError;
use parser_response::simple_parser::ResponseParser;

#[test]
fn simple_parses_one_response() {
    let mut p = ResponseParser::py_new();
    assert_eq!(p.get_status_code(), "");
    let a: &[u8] = b"HTTP/1.1 200 OK\r\nHost: example.com\r\nContent-Type: text/plain\r\n\r\nHello, world\n";
    assert_eq!(p.execute(a), Ok(()));
    assert_eq!(p.get_status_code(), "200 OK");
    assert_eq!(p.get_body(), "Hello, world\n");
    assert!(p.headers_are_text());
    assert_eq!(
        p.get_headers(),
        vec![
            ("host".to_string(), "example.com".to_string()),
            ("content-type".to_string(), "text/plain".to_string()),
        ]
    );
}

#[test]
fn simple_each_call_parses_anew() {
    let mut p = ResponseParser::py_new();
    assert_eq!(p.execute(b"HTTP/1.1 200 OK\r\nHost: a\r\n\r\nxyz"), Ok(()));
    assert_eq!(p.execute(b"HTTP/1.1 404 Not Found\r\n\r\n"), Ok(()));
    assert_eq!(p.get_status_code(), "404 Not Found");
    assert_eq!(p.get_body(), "");
    assert!(p.get_headers().is_empty());
}

#[test]
fn simple_errors() {
    let mut p = ResponseParser::py_new();
    assert_eq!(p.execute(b"HTTP/1.1 200 OK\r\nHost: a"), Err(ResponseError::HeadIncomplete));
    assert_eq!(p.execute(b"HTTP/2 200\r\n\r\n"), Err(ResponseError::HeadInvalid));
    assert_eq!(p.get_status_code(), "");
    assert_eq!(p.execute(b"HTTP/1.1 200 OK\r\n\r\n\xc3"), Err(ResponseError::BodyNotText));
    assert_eq!(p.get_status_code(), "200 OK");
    assert_eq!(p.get_body(), "");
}

use parser_response::head::{HeaderField, ResponseHead};

#[test]
fn simple_apply_head() {
    let mut p = ResponseParser::py_new();
    let h = ResponseHead {
        code: 503,
        reason: Some("Service Unavailable".to_string()),
        headers: vec![HeaderField { name: b"retry-after".to_vec(), value: b"5".to_vec() }],
        headers_debug: String::new(),
        body: b"later".to_vec(),
    };
    assert_eq!(p.apply_head(h), Ok(()));
    assert_eq!(p.get_status_code(), "503 Service Unavailable");
    assert_eq!(p.get_body(), "later");
    assert_eq!(p.get_headers(), vec![("retry-after".to_string(), "5".to_string())]);
}
