use parser_response::header_case::{convert_to_header_case, titlecase};

#[test]
fn titlecase_raises_first_letter() {
    assert_eq!(titlecase("consul"), "Consul");
    assert_eq!(titlecase("Consul"), "Consul");
    assert_eq!(titlecase(""), "");
    assert_eq!(titlecase("éa"), "éa");
    assert_eq!(titlecase("1a"), "1a");
}

#[test]
fn header_case_of_consul_index() {
    assert_eq!(convert_to_header_case("x-consul-index"), "X-Consul-Index");
}

#[test]
fn header_case_of_common_names() {
    assert_eq!(convert_to_header_case("content-type"), "Content-Type");
    assert_eq!(convert_to_header_case("host"), "Host");
    assert_eq!(convert_to_header_case(""), "");
}

#[test]
fn header_case_keeps_empty_parts() {
    assert_eq!(convert_to_header_case("a--b-"), "A--B-");
    assert_eq!(convert_to_header_case("-x"), "-X");
}

#[test]
fn header_case_is_idempotent() {
    for s in ["x-consul-index", "a--b-", "", "ALREADY-Up", "é-é"] {
        let once = convert_to_header_case(s);
        assert_eq!(convert_to_header_case(&once), once);
    }
}

#[test]
fn header_case_keeps_length_and_dashes() {
    let s = "x-consul-index";
    let r = convert_to_header_case(s);
    assert_eq!(r.len(), s.len());
    for (a, b) in s.chars().zip(r.chars()) {
        assert_eq!(a == '-', b == '-');
        assert_eq!(a.to_ascii_lowercase(), b.to_ascii_lowercase());
    }
}
