use parser_response::body::{body_trim, clearing_json, has_head_end, received_body_of};

#[test]
fn clearing_json_cuts_to_json_start() {
    assert_eq!(clearing_json(b"d\r\n[{\"a\":1}]"), b"\r\n[{\"a\":1}]");
    assert_eq!(clearing_json(b"\r\n[{x"), b"\r\n[{x");
}

#[test]
fn clearing_json_keeps_input_without_json_start() {
    assert_eq!(clearing_json(b"plain text"), b"plain text");
    assert_eq!(clearing_json(b"\r\n[x"), b"\r\n[x");
}

#[test]
fn clearing_json_ignores_json_start_late_in_input() {
    let mut far = vec![b'a'; 999];
    far.extend_from_slice(b"\r\n[{}]");
    assert_eq!(clearing_json(&far), &far[..]);
    let mut near = vec![b'a'; 998];
    near.extend_from_slice(b"\r\n[{}]");
    assert_eq!(clearing_json(&near), b"\r\n[{}]");
}

#[test]
fn body_trim_cuts_at_last_chunk() {
    assert_eq!(body_trim(b"data\r\n0\r\n\r\nrest"), b"data");
}

#[test]
fn body_trim_keeps_input_when_marker_starts_it_or_is_missing() {
    assert_eq!(body_trim(b"\r\n0\r\n\r\nrest"), b"\r\n0\r\n\r\nrest");
    assert_eq!(body_trim(b"data"), b"data");
}

#[test]
fn cutting_twice_changes_nothing() {
    for input in [&b"d\r\n[{\"a\":1}]\r\n0\r\n\r\n"[..], b"xx", b"\r\n[{\r\n[{"] {
        let once = clearing_json(input);
        assert_eq!(clearing_json(once), once);
        let once = body_trim(input);
        assert_eq!(body_trim(once), once);
    }
}

#[test]
fn has_head_end_finds_blank_line() {
    assert!(has_head_end(b"HTTP/1.1 200 OK\r\n\r\n"));
    assert!(!has_head_end(b"HTTP/1.1 200 OK\r\n"));
}

#[test]
fn received_body_is_empty_before_body() {
    assert_eq!(received_body_of(false, b"anything\r\n\r\nbody"), Vec::<u8>::new());
}

#[test]
fn received_body_is_whole_chunk_without_blank_line() {
    assert_eq!(received_body_of(true, b"more body"), b"more body".to_vec());
    assert_eq!(received_body_of(true, b"4\r\n[{}]\r\n"), b"4\r\n[{}]\r\n".to_vec());
}

#[test]
fn received_body_is_cut_payload_after_blank_line() {
    let chunk = b"HTTP/1.1 200 OK\r\nTransfer-Encoding: chunked\r\n\r\nd\r\n[{\"a\":1}]\r\n0\r\n\r\n";
    assert_eq!(received_body_of(true, chunk), b"\r\n[{\"a\":1}]".to_vec());
}

#[test]
fn received_body_is_part_of_chunk() {
    for chunk in [&b"h\r\n\r\nx\r\n[{1}]\r\n0\r\n\r\n"[..], b"abc", b"\r\n\r\n"] {
        let r = received_body_of(true, chunk);
        assert!(r.is_empty() || chunk.windows(r.len()).any(|w| w == &r[..]));
    }
}
