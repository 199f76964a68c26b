use parser_response::head::ResponseError;
use parser_response::pars::{get_pars, sum_as_string};

#[test]
fn get_pars_parses_a_response() {
    let a: &[u8] = b"HTTP/1.1 200 OK\r\nHost: example.com\r\nContent-Type: text/plain\r\n\r\nHello, world\n";
    let p = get_pars(a).unwrap().unwrap();
    assert_eq!(p.status, "200");
    assert_eq!(p.headers, "{\"host\": \"example.com\", \"content-type\": \"text/plain\"}");
    assert_eq!(p.body, "Hello, world\n");
}

#[test]
fn get_pars_with_empty_body_and_no_headers() {
    let p = get_pars(b"HTTP/1.1 404 Not Found\r\n\r\n").unwrap().unwrap();
    assert_eq!(p.status, "404");
    assert_eq!(p.headers, "{}");
    assert_eq!(p.body, "");
}

#[test]
fn get_pars_incomplete_head() {
    assert_eq!(get_pars(b"HTTP/1.1 200 OK\r\nHost: a").err(), Some(ResponseError::HeadIncomplete));
}

#[test]
fn get_pars_invalid_head() {
    assert_eq!(get_pars(b"garbage\r\n\r\n").err(), Some(ResponseError::HeadInvalid));
    assert_eq!(get_pars(b"HTTP/1.1 600 Odd\r\n\r\n").err(), Some(ResponseError::HeadInvalid));
}

#[test]
fn get_pars_too_many_headers() {
    let mut a = b"HTTP/1.1 200 OK\r\n".to_vec();
    for i in 0..21 {
        a.extend_from_slice(format!("X-H{}: v\r\n", i).as_bytes());
    }
    a.extend_from_slice(b"\r\n");
    assert_eq!(get_pars(&a).err(), Some(ResponseError::HeadInvalid));
}

#[test]
fn get_pars_body_not_text() {
    assert_eq!(get_pars(b"HTTP/1.1 200 OK\r\n\r\n\xff").err(), Some(ResponseError::BodyNotText));
}

#[test]
fn sum_as_string_adds() {
    assert_eq!(sum_as_string(2, 40), "42");
    assert_eq!(sum_as_string(0, 0), "0");
    assert_eq!(sum_as_string(usize::MAX - 1, 1), usize::MAX.to_string());
}

use parser_response::head::{HeaderField, ResponseHead};
use parser_response::pars::pars_from_head;

#[test]
fn pars_from_head_gives_text() {
    let h = ResponseHead {
        code: 201,
        reason: Some("Created".to_string()),
        headers: vec![HeaderField { name: b"x".to_vec(), value: b"1".to_vec() }],
        headers_debug: "{\"x\": \"1\"}".to_string(),
        body: b"done".to_vec(),
    };
    let p = pars_from_head(h).unwrap();
    assert_eq!(p.status, "201");
    assert_eq!(p.headers, "{\"x\": \"1\"}");
    assert_eq!(p.body, "done");
}

#[test]
fn pars_from_head_refuses_body_that_is_not_text() {
    let h = ResponseHead { code: 200, reason: None, headers: vec![], headers_debug: "{}".to_string(), body: vec![0xff] };
    assert_eq!(pars_from_head(h).err(), Some(ResponseError::BodyNotText));
}
