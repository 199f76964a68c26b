//! How long the body of a buffered response is, and how long its
//! `Content-Length` line says it should be.

use vstd::prelude::*;
use vstd::utf8::*;
use vstd::slice::slice_subrange;
use crate::scan;
use crate::text;
use crate::body;

verus! {

/// The blank line that ends the head of an HTTP message: `"\r\n\r\n"`.
pub open spec fn head_end() -> Seq<u8> {
    seq![13u8, 10u8, 13u8, 10u8]
}

/// The number of bytes after the first blank line of `response`; 0 when it
/// has none.
pub open spec fn body_len_spec(response: Seq<u8>) -> int {
    match scan::find(response, head_end()) {
        Some(i) => response.len() - i - 4,
        None => 0,
    }
}

/// The number of bytes after the first blank line of `response` (0 when
/// there is none).
pub fn body_len_of(response: &[u8]) -> (n: usize)
    ensures
        n == body_len_spec(response@),
{
    let pat: Vec<u8> = vec![13, 10, 13, 10];
    assert(pat@ =~= head_end());
    let len = response.len();
    match scan::find_bytes(response, pat.as_slice()) {
        Some(i) => {
            proof {
                scan::lemma_find_from(response@, head_end(), 0);
                assert(scan::occurs_at(response@, head_end(), i as int));
            }
            len - i - 4
        },
        None => 0,
    }
}

/// The number of bytes after the first blank line of `response` (0 when
/// there is none). The count must fit in an `i32`.
pub fn get_body_len(response: &[u8]) -> (n: i32)
    requires
        body_len_spec(response@) <= i32::MAX,
    ensures
        n == body_len_spec(response@),
{
    let size = body_len_of(response);
    size as i32
}

/// A head `h` that ends with its only blank line `"\r\n\r\n"`, followed by
/// any bytes `b`, counts exactly `b.len()` body bytes, whatever `b` holds or
/// ends with.
pub proof fn lemma_body_len_counts_bytes_after_head(h: Seq<u8>, b: Seq<u8>)
    requires
        h.len() >= 4,
        scan::occurs_at(h, body::bytes_crlf_crlf(), h.len() - 4),
        forall|k: int| 0 <= k < h.len() - 4 ==> !#[trigger] scan::occurs_at(h, body::bytes_crlf_crlf(), k),
    ensures
        body_len_spec(h + b) == b.len(),
{
    let hb = h + b;
    let e = h.len() - 4;
    assert(hb.subrange(e, e + 4) =~= h.subrange(e, e + 4));
    assert(scan::occurs_at(hb, head_end(), e));
    assert forall|k: int| 0 <= k < e implies !scan::occurs_at(hb, head_end(), k) by {
        assert(hb.subrange(k, k + 4) =~= h.subrange(k, k + 4));
        assert(!scan::occurs_at(h, body::bytes_crlf_crlf(), k));
    }
    scan::lemma_find_from(hb, head_end(), 0);
}

/// The text `Content-Length`, matched with its case.
pub open spec fn content_length_key() -> Seq<char> {
    seq!['C', 'o', 'n', 't', 'e', 'n', 't', '-', 'L', 'e', 'n', 'g', 't', 'h']
}

/// The first line (lines end at `"\r\n"`) of the UTF-8 text `bytes` in which
/// `Content-Length` occurs.
pub open spec fn content_length_line(bytes: Seq<u8>) -> Option<Seq<char>> {
    text::first_containing(text::lines(decode_utf8(bytes)), content_length_key())
}

/// `bytes` is UTF-8 text and, where it has a `Content-Length` line, the
/// second white-space separated word of that line is an `i32` numeral.
pub open spec fn content_len_defined(bytes: Seq<u8>) -> bool {
    &&& valid_utf8(bytes)
    &&& match content_length_line(bytes) {
        Some(line) => text::words(line).len() >= 2 && text::parse_i32(text::words(line)[1]) is Some,
        None => true,
    }
}

/// The value on the `Content-Length` line of `bytes` (its second word);
/// 0 when there is no such line.
pub open spec fn content_len_spec(bytes: Seq<u8>) -> i32 {
    match content_length_line(bytes) {
        Some(line) => match text::parse_i32(text::words(line)[1]) {
            Some(v) => v,
            None => 0,
        },
        None => 0,
    }
}

/// A `Content-Length` line that reads `Content-Length: ` and the decimal
/// numeral of any `n` from 0 to `i32::MAX` gives exactly `n`.
pub proof fn lemma_content_len_reads_numeral(bytes: Seq<u8>, n: nat)
    requires
        valid_utf8(bytes),
        content_length_line(bytes) == Some(
            seq!['C', 'o', 'n', 't', 'e', 'n', 't', '-', 'L', 'e', 'n', 'g', 't', 'h', ':'] + seq![' ']
                + text::decimal(n),
        ),
        n <= i32::MAX,
    ensures
        content_len_defined(bytes),
        content_len_spec(bytes) == n,
{
    let a = seq!['C', 'o', 'n', 't', 'e', 'n', 't', '-', 'L', 'e', 'n', 'g', 't', 'h', ':'];
    let d = text::decimal(n);
    text::lemma_decimal_digits(n);
    text::lemma_parse_decimal(n);
    assert forall|j: int| 0 <= j < d.len() implies !text::is_whitespace(#[trigger] d[j]) by {
        assert(text::is_digit(d[j]));
    }
    assert forall|j: int| 0 <= j < a.len() implies !text::is_whitespace(#[trigger] a[j]) by {
    }
    text::lemma_words_two(a, d);
}

/// The value of the first line of the text `s` that contains
/// `Content-Length`, read as the second word of that line; 0 when no line
/// contains it.
pub fn content_len(s: &[u8]) -> (n: i32)
    requires
        content_len_defined(s@),
    ensures
        n == content_len_spec(s@),
{
    match content_len_checked(s) {
        Some(n) => n,
        None => 0,
    }
}

/// The value of the `Content-Length` line of the text `s` (see
/// `content_len`), or `None` where `content_len` cannot read it.
pub fn content_len_checked(s: &[u8]) -> (r: Option<i32>)
    ensures
        r is Some <==> content_len_defined(s@),
        r matches Some(n) ==> n == content_len_spec(s@),
{
    let chars = match text::decode_chars(s) {
        Some(v) => v,
        None => return None,
    };
    let key: Vec<char> = vec!['C', 'o', 'n', 't', 'e', 'n', 't', '-', 'L', 'e', 'n', 'g', 't', 'h'];
    assert(key@ =~= content_length_key());
    match text::first_line_containing(chars.as_slice(), key.as_slice()) {
        None => Some(0),
        Some((a, b)) => {
            let line = slice_subrange(chars.as_slice(), a, b);
            match text::word_bounds(line, 1) {
                Some((x, y)) => text::parse_i32_chars(line, x, y),
                None => None,
            }
        },
    }
}

/// The text `Transfer-Encoding`, matched with its case.
pub open spec fn transfer_encoding_key() -> Seq<char> {
    seq![
        'T', 'r', 'a', 'n', 's', 'f', 'e', 'r', '-', 'E', 'n', 'c', 'o', 'd', 'i', 'n', 'g',
    ]
}

/// The text `chunked`.
pub open spec fn chunked_word() -> Seq<char> {
    seq!['c', 'h', 'u', 'n', 'k', 'e', 'd']
}

/// `"0\r\n\r\n"`: the last chunk of a chunked body, with no trailer.
pub open spec fn last_chunk_end() -> Seq<u8> {
    seq![48u8, 13u8, 10u8, 13u8, 10u8]
}

/// The UTF-8 text `bytes` has a `Content-Length` line.
pub open spec fn has_content_length(bytes: Seq<u8>) -> bool {
    content_length_line(bytes) is Some
}

/// The first line of the UTF-8 text `bytes` that holds `Transfer-Encoding`
/// says `chunked`.
pub open spec fn is_chunked(bytes: Seq<u8>) -> bool {
    match text::first_containing(text::lines(decode_utf8(bytes)), transfer_encoding_key()) {
        Some(line) => scan::contains(line, chunked_word()),
        None => false,
    }
}

/// The bytes after the first blank line of `bytes` (none when it has none).
pub open spec fn body_after_head(bytes: Seq<u8>) -> Seq<u8> {
    match scan::find(bytes, head_end()) {
        Some(i) => bytes.skip(i + 4),
        None => Seq::empty(),
    }
}

/// How far a response has arrived, judged from its text.
#[derive(Debug, Clone, Copy, PartialEq, Eq, Structural)]
pub enum Completion {
    /// More of the response is still to come.
    Waiting,
    /// The head is complete and the body is exactly as long as the
    /// `Content-Length` line says (possibly empty).
    Sized,
    /// The body has no length to wait for and is complete: it follows a
    /// `Content-Length` of 0, or, without that line, it is a chunked body
    /// that ends with its last chunk or any other non-empty body.
    Unsized,
}

/// How far the response in the UTF-8 text `bytes` has arrived (see
/// `Completion`). Needs `content_len_defined(bytes)` to mean anything.
pub open spec fn completion_of(bytes: Seq<u8>) -> Completion {
    let len_c = content_len_spec(bytes) as int;
    let len_d = body_len_spec(bytes);
    if has_content_length(bytes) {
        if len_c == len_d && scan::contains(bytes, head_end()) {
            Completion::Sized
        } else if len_c == 0 && len_d > 0 {
            Completion::Unsized
        } else {
            Completion::Waiting
        }
    } else if is_chunked(bytes) {
        if scan::ends_with(body_after_head(bytes), last_chunk_end()) {
            Completion::Unsized
        } else {
            Completion::Waiting
        }
    } else if len_d > 0 {
        Completion::Unsized
    } else {
        Completion::Waiting
    }
}

/// Whether the text `s` has a `Content-Length` line.
pub fn content_length_present(s: &[u8]) -> (b: bool)
    ensures
        b == (valid_utf8(s@) && has_content_length(s@)),
{
    let chars = match text::decode_chars(s) {
        Some(v) => v,
        None => return false,
    };
    let key: Vec<char> = vec!['C', 'o', 'n', 't', 'e', 'n', 't', '-', 'L', 'e', 'n', 'g', 't', 'h'];
    assert(key@ =~= content_length_key());
    text::first_line_containing(chars.as_slice(), key.as_slice()).is_some()
}

/// Whether the text `s` declares a chunked body (see `is_chunked`).
pub fn chunked(s: &[u8]) -> (b: bool)
    ensures
        b == (valid_utf8(s@) && is_chunked(s@)),
{
    let chars = match text::decode_chars(s) {
        Some(v) => v,
        None => return false,
    };
    let key: Vec<char> = vec![
        'T', 'r', 'a', 'n', 's', 'f', 'e', 'r', '-', 'E', 'n', 'c', 'o', 'd', 'i', 'n', 'g',
    ];
    assert(key@ =~= transfer_encoding_key());
    let word: Vec<char> = vec!['c', 'h', 'u', 'n', 'k', 'e', 'd'];
    assert(word@ =~= chunked_word());
    match text::first_line_containing(chars.as_slice(), key.as_slice()) {
        Some((a, b)) => text::find_in(chars.as_slice(), a, b, word.as_slice()).is_some(),
        None => false,
    }
}

/// Whether the bytes after the first blank line of `s` end with the last
/// chunk of a chunked body.
pub fn body_ends_with_last_chunk(s: &[u8]) -> (b: bool)
    ensures
        b == scan::ends_with(body_after_head(s@), last_chunk_end()),
{
    let pat: Vec<u8> = vec![13, 10, 13, 10];
    assert(pat@ =~= head_end());
    let last: Vec<u8> = vec![48, 13, 10, 13, 10];
    assert(last@ =~= last_chunk_end());
    let n = s.len();
    match scan::find_bytes(s, pat.as_slice()) {
        Some(i) => {
            proof {
                scan::lemma_find_from(s@, head_end(), 0);
                assert(scan::occurs_at(s@, head_end(), i as int));
                assert(head_end().len() == 4);
                assert(i + 4 <= n);
            }
            let rest = slice_subrange(s, i + 4, n);
            assert(rest@ =~= s@.skip(i + 4));
            scan::bytes_end_with(rest, last.as_slice())
        },
        None => false,
    }
}

/// How far the response in `s` has arrived (see `completion_of`), given
/// its `Content-Length` value and body length.
pub fn completion(s: &[u8], len_c: i32, len_d: i32) -> (c: Completion)
    requires
        content_len_defined(s@),
        len_c == content_len_spec(s@),
        len_d == body_len_spec(s@),
    ensures
        c == completion_of(s@),
{
    if content_length_present(s) {
        if len_c == len_d && body::has_head_end(s) {
            Completion::Sized
        } else if len_c == 0 && len_d > 0 {
            Completion::Unsized
        } else {
            Completion::Waiting
        }
    } else if chunked(s) {
        if body_ends_with_last_chunk(s) {
            Completion::Unsized
        } else {
            Completion::Waiting
        }
    } else if len_d > 0 {
        Completion::Unsized
    } else {
        Completion::Waiting
    }
}

} // verus!
