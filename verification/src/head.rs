//! The head of an HTTP response (status line and header lines) as the
//! `http-bytes` crate parses it, held as plain values.

use vstd::prelude::*;
use crate::text;

verus! {

#[verifier::external_type_specification]
#[verifier::external_body]
pub struct ExHttpBytesError(http_bytes::Error);

/// One header line: its name, in the lower case that the `http` crate keeps
/// names in, and its value bytes.
pub struct HeaderField {
    pub name: Vec<u8>,
    pub value: Vec<u8>,
}

impl View for HeaderField {
    type V = (Seq<u8>, Seq<u8>);

    open spec fn view(&self) -> (Seq<u8>, Seq<u8>) {
        (self.name@, self.value@)
    }
}

/// A parsed response head, with the bytes that follow it.
pub struct ResponseHead {
    /// The status code.
    pub code: u16,
    /// The standard reason phrase of the status code, when it has one.
    pub reason: Option<String>,
    /// The header lines, in the order in which the `http` crate's header map
    /// yields them.
    pub headers: Vec<HeaderField>,
    /// The header map as its `Debug` format writes it.
    pub headers_debug: String,
    /// The bytes after the head.
    pub body: Vec<u8>,
}

/// The plain content of a `ResponseHead`.
pub struct HeadView {
    pub code: u16,
    pub reason: Option<Seq<char>>,
    pub headers: Seq<(Seq<u8>, Seq<u8>)>,
    pub headers_debug: Seq<char>,
    pub body: Seq<u8>,
}

impl View for ResponseHead {
    type V = HeadView;

    open spec fn view(&self) -> HeadView {
        HeadView {
            code: self.code,
            reason: match self.reason {
                Some(r) => Some(r@),
                None => None,
            },
            headers: self.headers@.map_values(|h: HeaderField| h@),
            headers_debug: self.headers_debug@,
            body: self.body@,
        }
    }
}

/// What parsing a response head can come to.
pub enum HeadParse {
    /// The bytes are not the start of a valid response.
    Invalid,
    /// The bytes are a valid start, but the head is not complete yet.
    Incomplete,
    /// A complete head, and what follows it.
    Complete(HeadView),
}

/// Why a response could not be taken in.
#[derive(Debug, Clone, Copy, PartialEq, Eq, Structural)]
pub enum ResponseError {
    /// The bytes are not a valid response head (or it has more than 20 header lines).
    HeadInvalid,
    /// The response head is not complete.
    HeadIncomplete,
    /// The bytes after the head are not UTF-8 text.
    BodyNotText,
    /// The `Content-Length` of the response could not be read.
    ContentLengthInvalid,
    /// The body is longer than an `i32` can count.
    BodyTooLong,
}

/// What `http_bytes::parse_response_header` makes of `bytes`, given room for
/// 20 header lines, read back as plain values.
pub uninterp spec fn response_head(bytes: Seq<u8>) -> HeadParse;

/// A header name as the `http` crate stores it: visible ASCII, no spaces,
/// and in lower case (no byte is an upper-case ASCII letter).
pub open spec fn is_name_text(name: Seq<u8>) -> bool {
    forall|i: int| 0 <= i < name.len() ==> 33 <= #[trigger] name[i] <= 126 && !(65 <= name[i] <= 90)
}

/// What `http-bytes` and `http` guarantee of every parsed head: the status
/// code is one that `StatusCode::from_u16` accepts, the body is the rest of
/// the input after the head, and header names are made of the characters of
/// the `http` crate's name table, which holds no upper-case letter.
pub open spec fn head_facts(bytes: Seq<u8>, h: HeadView) -> bool {
    &&& 100 <= h.code < 600
    &&& h.body.len() <= bytes.len()
    &&& bytes.skip(bytes.len() - h.body.len()) == h.body
    &&& forall|i: int| 0 <= i < h.headers.len() ==> is_name_text(#[trigger] h.headers[i].0)
}

/// Parses the head of the response in `bytes`.
///
/// Trusted: calls `http_bytes::parse_response_header` with a buffer for 20
/// header lines and reads the result out: the status code, its
/// `canonical_reason`, each (name, value) pair of the header map in its
/// iteration order, the header map's `Debug` text and the rest of the input.
/// The contract names that result (`response_head`) and states only the
/// facts of `head_facts`; how the head is parsed is not stated.
#[verifier::external_body]
pub(crate) fn parse_response_head(bytes: &[u8]) -> (r: Result<Option<ResponseHead>, http_bytes::Error>)
    ensures
        match r {
            Ok(Some(h)) => response_head(bytes@) == HeadParse::Complete(h@) && head_facts(bytes@, h@),
            Ok(None) => response_head(bytes@) is Incomplete,
            Err(_) => response_head(bytes@) is Invalid,
        },
{
    let mut buf: Vec<httparse::Header> = vec![http_bytes::EMPTY_HEADER; 20];
    match http_bytes::parse_response_header(bytes, &mut buf) {
        Ok(Some((r, body))) => {
            let mut headers = Vec::new();
            for (k, v) in r.headers() {
                headers.push(HeaderField { name: k.as_str().into(), value: v.as_bytes().into() });
            }
            let status = r.status();
            let reason = status.canonical_reason().map(String::from);
            let headers_debug = format!("{:?}", r.headers());
            Ok(Some(ResponseHead { code: status.as_u16(), reason, headers, headers_debug, body: body.into() }))
        },
        Ok(None) => Ok(None),
        Err(e) => Err(e),
    }
}

/// What `StatusCode`'s `Display` writes when there is no reason phrase.
pub open spec fn unknown_reason() -> Seq<char> {
    "<unknown status code>"@
}

/// What the `http` crate's `StatusCode` writes for `to_string`: the code,
/// a space and the reason phrase.
pub open spec fn status_display(code: u16, reason: Option<Seq<char>>) -> Seq<char> {
    text::decimal(code as nat) + seq![' '] + match reason {
        Some(r) => r,
        None => unknown_reason(),
    }
}

/// The status line text of a parsed head, as `StatusCode::to_string` gives it.
pub fn status_text(code: u16, reason: &Option<String>) -> (s: String)
    ensures
        s@ == status_display(
            code,
            match reason {
                Some(r) => Some(r@),
                None => None,
            },
        ),
{
    let mut s = text::decimal_string(code as u64);
    text::push_char(&mut s, ' ');
    match reason {
        Some(r) => s.append(r.as_str()),
        None => s.append("<unknown status code>"),
    }
    s
}

/// A header line whose name is name text and whose value is visible ASCII
/// text (what `HeaderValue::to_str` accepts).
pub open spec fn field_is_text(f: (Seq<u8>, Seq<u8>)) -> bool {
    &&& is_name_text(f.0)
    &&& forall|j: int| 0 <= j < f.1.len() ==> text::is_visible_ascii(#[trigger] f.1[j])
}

/// Every header line is text.
pub open spec fn fields_text(fs: Seq<(Seq<u8>, Seq<u8>)>) -> bool {
    forall|i: int| 0 <= i < fs.len() ==> field_is_text(#[trigger] fs[i])
}

/// Whether a header line is text.
pub fn field_is_text_of(f: &HeaderField) -> (b: bool)
    ensures
        b == field_is_text(f@),
{
    let mut j: usize = 0;
    while j < f.name.len()
        invariant
            j <= f.name@.len(),
            forall|m: int| 0 <= m < j ==> 33 <= #[trigger] f.name@[m] <= 126 && !(65 <= f.name@[m] <= 90),
        decreases f.name@.len() - j,
    {
        let c = f.name[j];
        if c < 33 || c > 126 || (65 <= c && c <= 90) {
            return false;
        }
        j = j + 1;
    }
    let mut j: usize = 0;
    while j < f.value.len()
        invariant
            is_name_text(f.name@),
            j <= f.value@.len(),
            forall|m: int| 0 <= m < j ==> text::is_visible_ascii(#[trigger] f.value@[m]),
        decreases f.value@.len() - j,
    {
        let b = f.value[j];
        if !((32 <= b && b < 127) || b == 9) {
            assert(!text::is_visible_ascii(f@.1[j as int]));
            return false;
        }
        j = j + 1;
    }
    true
}

/// The first white-space separated word of a status line is the status
/// code's numeral, and it reads back as the code.
pub proof fn lemma_status_first_word(code: u16, reason: Option<Seq<char>>)
    ensures
        text::words(status_display(code, reason)).len() >= 1,
        text::words(status_display(code, reason))[0] == text::decimal(code as nat),
        text::parse_i32(text::words(status_display(code, reason))[0]) == Some(code as i32),
{
    let d = text::decimal(code as nat);
    let s = status_display(code, reason);
    text::lemma_decimal_digits(code as nat);
    text::lemma_parse_decimal(code as nat);
    assert forall|j: int| 0 <= j < d.len() implies !text::is_whitespace(#[trigger] s[j]) by {
        assert(s[j] == d[j]);
        assert(text::is_digit(d[j]));
    }
    assert(s[d.len() as int] == ' ');
    text::lemma_word_len_exact(s, d.len() as int);
    assert(!text::is_whitespace(s[0]));
    assert(s.take(d.len() as int) =~= d);
}

/// The number read from the first word of the status line, which is the
/// status code.
pub fn status_number(code: u16, reason: &Option<String>) -> (n: i32)
    ensures
        n == code as i32,
{
    let line = status_text(code, reason);
    let chars = text::chars_of(line.as_str());
    proof {
        lemma_status_first_word(
            code,
            match reason {
                Some(r) => Some(r@),
                None => None,
            },
        );
    }
    match text::word_bounds(chars.as_slice(), 0) {
        Some((a, b)) => match text::parse_i32_chars(chars.as_slice(), a, b) {
            Some(n) => n,
            None => {
                assert(false);
                0
            },
        },
        None => {
            assert(false);
            0
        },
    }
}

/// Whether every header line is text.
pub fn fields_are_text(fields: &[HeaderField]) -> (b: bool)
    ensures
        b == fields_text(fields@.map_values(|h: HeaderField| h@)),
{
    let ghost fs = fields@.map_values(|h: HeaderField| h@);
    let mut i: usize = 0;
    while i < fields.len()
        invariant
            i <= fields@.len(),
            fs == fields@.map_values(|h: HeaderField| h@),
            forall|k: int| 0 <= k < i ==> field_is_text(#[trigger] fs[k]),
        decreases fields@.len() - i,
    {
        if !field_is_text_of(&fields[i]) {
            assert(!field_is_text(fs[i as int]));
            return false;
        }
        i = i + 1;
    }
    true
}

/// A header line as text: its name and its value, one character per byte.
pub open spec fn plain_entry(f: (Seq<u8>, Seq<u8>)) -> (Seq<char>, Seq<char>) {
    (text::ascii_chars(f.0), text::ascii_chars(f.1))
}

/// A plain header entry holds the whole name and the whole value, one
/// character per byte.
pub proof fn lemma_plain_entry_keeps_bytes(f: (Seq<u8>, Seq<u8>))
    ensures
        plain_entry(f).0.len() == f.0.len(),
        forall|j: int| 0 <= j < f.0.len() ==> #[trigger] plain_entry(f).0[j] == f.0[j] as char,
        plain_entry(f).1.len() == f.1.len(),
        forall|j: int| 0 <= j < f.1.len() ==> #[trigger] plain_entry(f).1[j] == f.1[j] as char,
{
}

/// The header lines as (name, value) text pairs, the way `HeaderName::to_string`
/// and `HeaderValue::to_str` give them. Every line must be text.
pub fn plain_entries(fields: &[HeaderField]) -> (res: Vec<(String, String)>)
    requires
        fields_text(fields@.map_values(|h: HeaderField| h@)),
    ensures
        res@.len() == fields@.len(),
        forall|i: int|
            0 <= i < res@.len() ==> (#[trigger] res@[i].0@, res@[i].1@) == plain_entry(fields@[i]@),
{
    let ghost fs = fields@.map_values(|h: HeaderField| h@);
    let mut res: Vec<(String, String)> = Vec::new();
    let mut i: usize = 0;
    while i < fields.len()
        invariant
            i <= fields@.len(),
            fs == fields@.map_values(|h: HeaderField| h@),
            fields_text(fs),
            res@.len() == i,
            forall|k: int|
                0 <= k < i ==> (#[trigger] res@[k].0@, res@[k].1@) == plain_entry(fields@[k]@),
        decreases fields@.len() - i,
    {
        let f = &fields[i];
        proof {
            assert(fs[i as int] == f@);
            assert(field_is_text(fs[i as int]));
            assert forall|j: int| 0 <= j < f.value@.len() implies f.value@[j] < 128 by {
                assert(text::is_visible_ascii(fs[i as int].1[j]));
            }
            assert forall|j: int| 0 <= j < f.name@.len() implies f.name@[j] < 128 by {
                assert(33 <= fs[i as int].0[j] <= 126);
            }
        }
        let name = text::ascii_string(f.name.as_slice());
        let value = text::ascii_string(f.value.as_slice());
        res.push((name, value));
        i = i + 1;
    }
    res
}

} // verus!
