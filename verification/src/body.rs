//! Picking the received payload out of a chunk of a response.

use vstd::prelude::*;
use vstd::slice::slice_subrange;
use crate::scan;
use crate::lengths;

verus! {

/// `"\r\n[{"`: a line break followed by the start of a JSON array of objects.
pub open spec fn json_start() -> Seq<u8> {
    seq![13u8, 10u8, 91u8, 123u8]
}

/// `"\r\n0\r\n\r\n"`: the last chunk of a chunked transfer.
pub open spec fn last_chunk() -> Seq<u8> {
    seq![13u8, 10u8, 48u8, 13u8, 10u8, 13u8, 10u8]
}

/// `input` from the first `"\r\n[{"` on, when that lies before index 999;
/// otherwise all of `input`.
pub open spec fn clearing_json_spec(input: Seq<u8>) -> Seq<u8> {
    match scan::find(input, json_start()) {
        Some(i) => if i < 999 {
            input.skip(i)
        } else {
            input
        },
        None => input,
    }
}

/// `input` up to the first `"\r\n0\r\n\r\n"`, when that does not start it;
/// otherwise all of `input`.
pub open spec fn body_trim_spec(input: Seq<u8>) -> Seq<u8> {
    match scan::find(input, last_chunk()) {
        Some(i) => if i > 0 {
            input.take(i)
        } else {
            input
        },
        None => input,
    }
}

/// What a chunk yields as received payload: nothing unless chunks carry body
/// (`partial_body`); the chunk itself when it holds no blank line; otherwise
/// what follows its first blank line, cut to the JSON start and the last
/// chunk marker.
pub open spec fn received_body(partial_body: bool, input: Seq<u8>) -> Seq<u8> {
    if !partial_body {
        Seq::empty()
    } else {
        match scan::find(input, lengths::head_end()) {
            Some(i) => body_trim_spec(clearing_json_spec(input.skip(i + 4))),
            None => input,
        }
    }
}

/// Drops what comes before a JSON array of objects near the start of `input`.
pub fn clearing_json(input: &[u8]) -> (r: &[u8])
    ensures
        r@ == clearing_json_spec(input@),
{
    let pat: Vec<u8> = vec![13, 10, 91, 123];
    assert(pat@ =~= json_start());
    let index: usize = match scan::find_bytes(input, pat.as_slice()) {
        Some(x) => x,
        None => 999,
    };
    if index < 999 {
        proof {
            scan::lemma_find_from(input@, json_start(), 0);
        }
        let r = slice_subrange(input, index, input.len());
        assert(r@ =~= input@.skip(index as int));
        r
    } else {
        input
    }
}

/// Cuts `input` at the last-chunk marker of a chunked transfer.
pub fn body_trim(input: &[u8]) -> (r: &[u8])
    ensures
        r@ == body_trim_spec(input@),
{
    let pat: Vec<u8> = vec![13, 10, 48, 13, 10, 13, 10];
    assert(pat@ =~= last_chunk());
    let index: usize = match scan::find_bytes(input, pat.as_slice()) {
        Some(x) => x,
        None => 0,
    };
    if index > 0 {
        proof {
            scan::lemma_find_from(input@, last_chunk(), 0);
        }
        let r = slice_subrange(input, 0, index);
        assert(r@ =~= input@.take(index as int));
        r
    } else {
        input
    }
}

/// Whether `input` holds the blank line that ends a head.
pub fn has_head_end(input: &[u8]) -> (b: bool)
    ensures
        b == scan::contains(input@, lengths::head_end()),
{
    let pat: Vec<u8> = vec![13, 10, 13, 10];
    assert(pat@ =~= lengths::head_end());
    scan::find_bytes(input, pat.as_slice()).is_some()
}

/// The payload that a chunk yields (see `received_body`).
pub fn received_body_of(partial_body: bool, input: &[u8]) -> (r: Vec<u8>)
    ensures
        r@ == received_body(partial_body, input@),
{
    let mut out: Vec<u8> = Vec::new();
    if partial_body {
        let pat: Vec<u8> = vec![13, 10, 13, 10];
        assert(pat@ =~= lengths::head_end());
        let n = input.len();
        match scan::find_bytes(input, pat.as_slice()) {
            Some(index) => {
                proof {
                    scan::lemma_find_from(input@, lengths::head_end(), 0);
                    assert(scan::occurs_at(input@, lengths::head_end(), index as int));
                    assert(lengths::head_end().len() == 4);
                    assert(index + 4 <= n);
                }
                let rest = slice_subrange(input, index + 4, n);
                assert(rest@ =~= input@.skip(index + 4));
                let cl = clearing_json(rest);
                let trimmed = body_trim(cl);
                out.extend_from_slice(trimmed);
            },
            None => {
                out.extend_from_slice(input);
            },
        }
    }
    assert(out@ =~= received_body(partial_body, input@));
    out
}

/// Cutting to the JSON start gives a suffix of the input.
pub proof fn lemma_clearing_json_suffix(input: Seq<u8>)
    ensures
        clearing_json_spec(input).len() <= input.len(),
        clearing_json_spec(input) == input.skip(input.len() - clearing_json_spec(input).len()),
{
    match scan::find(input, json_start()) {
        Some(i) => {
            scan::lemma_find_from(input, json_start(), 0);
            if i >= 999 {
                assert(input.skip(0) =~= input);
            }
        },
        None => {
            assert(input.skip(0) =~= input);
        },
    }
}

/// Cutting at the last-chunk marker gives a prefix of the input.
pub proof fn lemma_body_trim_prefix(input: Seq<u8>)
    ensures
        body_trim_spec(input).len() <= input.len(),
        body_trim_spec(input) == input.take(body_trim_spec(input).len() as int),
{
    match scan::find(input, last_chunk()) {
        Some(i) => {
            scan::lemma_find_from(input, last_chunk(), 0);
            if i <= 0 {
                assert(input.take(input.len() as int) =~= input);
            }
        },
        None => {
            assert(input.take(input.len() as int) =~= input);
        },
    }
}

/// The payload picked out of a chunk is always a run of the chunk's bytes.
pub proof fn lemma_received_is_part_of_chunk(partial_body: bool, input: Seq<u8>)
    ensures
        scan::is_infix(received_body(partial_body, input), input),
{
    let r = received_body(partial_body, input);
    if !partial_body {
        assert(input.subrange(0, 0) =~= r);
        assert(scan::occurs_at(input, r, 0));
    } else {
        match scan::find(input, lengths::head_end()) {
            Some(i) => {
                scan::lemma_find_from(input, lengths::head_end(), 0);
                assert(lengths::head_end().len() == 4);
                let a = input.skip(i + 4);
                let b = clearing_json_spec(a);
                lemma_clearing_json_suffix(a);
                lemma_body_trim_prefix(b);
                let start = i + 4 + (a.len() - b.len());
                assert(input.subrange(start, start + r.len()) =~= r);
                assert(scan::occurs_at(input, r, start));
            },
            None => {
                assert(input.subrange(0, input.len() as int) =~= r);
                assert(scan::occurs_at(input, r, 0));
            },
        }
    }
}

/// The bytes `"\r\n\r\n"`, spelled out for the laws below.
pub open spec fn bytes_crlf_crlf() -> Seq<u8> {
    seq![13u8, 10u8, 13u8, 10u8]
}

/// The bytes `"\r\n[{"`, spelled out for the laws below.
pub open spec fn bytes_crlf_bracket_brace() -> Seq<u8> {
    seq![13u8, 10u8, 91u8, 123u8]
}

/// The bytes `"\r\n0\r\n\r\n"`, spelled out for the laws below.
pub open spec fn bytes_crlf_zero_crlf_crlf() -> Seq<u8> {
    seq![13u8, 10u8, 48u8, 13u8, 10u8, 13u8, 10u8]
}

/// `r` is `q` cut at the first `"\r\n0\r\n\r\n"` that does not start it:
/// when `q` starts with that marker, `r` is all of `q`; otherwise `r` is a
/// prefix of `q` holding no marker past its start, and it stops either at
/// the end of `q`, where no marker follows position 0, or right where a
/// marker begins, after at least one byte.
pub open spec fn cut_at_first_marker(q: Seq<u8>, r: Seq<u8>) -> bool {
    let m = bytes_crlf_zero_crlf_crlf();
    if scan::occurs_at(q, m, 0) {
        r == q
    } else {
        &&& r.len() <= q.len()
        &&& r == q.take(r.len() as int)
        &&& forall|k: int| 0 < k < r.len() ==> !#[trigger] scan::occurs_at(q, m, k)
        &&& r.len() < q.len() ==> r.len() > 0 && scan::occurs_at(q, m, r.len() as int)
        &&& r.len() == q.len() ==> forall|k: int| 0 < k ==> !#[trigger] scan::occurs_at(q, m, k)
    }
}

/// Cutting at the last-chunk marker cuts at its first occurrence past the
/// start (see `cut_at_first_marker`).
pub proof fn lemma_body_trim_cuts_at_marker(q: Seq<u8>)
    ensures
        cut_at_first_marker(q, body_trim_spec(q)),
{
    scan::lemma_find_from(q, last_chunk(), 0);
    let r = body_trim_spec(q);
    match scan::find(q, last_chunk()) {
        Some(i) => {
            if i > 0 {
                assert(r.len() == i);
                assert(q.take(i) =~= r);
            } else {
                assert(q.take(q.len() as int) =~= q);
            }
        },
        None => {
            assert(q.take(q.len() as int) =~= q);
        },
    }
}

/// Without a JSON start before index 999 the JSON cut keeps all; with its
/// first JSON start at `j < 999` it drops the `j` bytes before it.
pub proof fn lemma_clearing_json_cases(p: Seq<u8>, j: int)
    ensures
        (forall|m: int| 0 <= m < 999 ==> !#[trigger] scan::occurs_at(p, bytes_crlf_bracket_brace(), m))
            ==> clearing_json_spec(p) == p,
        (0 <= j < 999 && scan::occurs_at(p, bytes_crlf_bracket_brace(), j) && forall|m: int|
            0 <= m < j ==> !#[trigger] scan::occurs_at(p, bytes_crlf_bracket_brace(), m))
            ==> clearing_json_spec(p) == p.skip(j),
{
    scan::lemma_find_from(p, json_start(), 0);
    assert(json_start() == bytes_crlf_bracket_brace());
}

/// What a chunk taken while chunks carry body yields, when its first blank
/// line `"\r\n\r\n"` is at `i` and `p` is what follows it: `p` with what
/// comes before its first `"\r\n[{"` dropped when that lies before index
/// 999 (with all of `p` kept otherwise), then cut at the first
/// `"\r\n0\r\n\r\n"` that does not start it. Before chunks carry body a
/// chunk yields nothing; a chunk without a blank line yields itself.
pub proof fn lemma_received_body_law(input: Seq<u8>, i: int, j: int)
    ensures
        received_body(false, input).len() == 0,
        (forall|k: int| !#[trigger] scan::occurs_at(input, bytes_crlf_crlf(), k))
            ==> received_body(true, input) == input,
        scan::occurs_at(input, bytes_crlf_crlf(), i) && (forall|k: int|
            0 <= k < i ==> !#[trigger] scan::occurs_at(input, bytes_crlf_crlf(), k))
            && (forall|m: int|
            0 <= m < 999 ==> !#[trigger] scan::occurs_at(
                input.skip(i + 4),
                bytes_crlf_bracket_brace(),
                m,
            )) ==> cut_at_first_marker(input.skip(i + 4), received_body(true, input)),
        scan::occurs_at(input, bytes_crlf_crlf(), i) && (forall|k: int|
            0 <= k < i ==> !#[trigger] scan::occurs_at(input, bytes_crlf_crlf(), k))
            && 0 <= j < 999 && scan::occurs_at(input.skip(i + 4), bytes_crlf_bracket_brace(), j)
            && (forall|m: int|
            0 <= m < j ==> !#[trigger] scan::occurs_at(
                input.skip(i + 4),
                bytes_crlf_bracket_brace(),
                m,
            )) ==> cut_at_first_marker(input.skip(i + 4).skip(j), received_body(true, input)),
{
    scan::lemma_find_from(input, lengths::head_end(), 0);
    assert(lengths::head_end() == bytes_crlf_crlf());
    if scan::occurs_at(input, bytes_crlf_crlf(), i) && (forall|k: int|
        0 <= k < i ==> !#[trigger] scan::occurs_at(input, bytes_crlf_crlf(), k)) {
        assert(scan::find(input, lengths::head_end()) == Some(i));
        let p = input.skip(i + 4);
        lemma_clearing_json_cases(p, j);
        lemma_body_trim_cuts_at_marker(clearing_json_spec(p));
    }
}

/// Cutting to the JSON start a second time changes nothing.
pub proof fn lemma_clearing_json_idempotent(input: Seq<u8>)
    ensures
        clearing_json_spec(clearing_json_spec(input)) == clearing_json_spec(input),
{
    let r = clearing_json_spec(input);
    match scan::find(input, json_start()) {
        Some(i) => {
            scan::lemma_find_from(input, json_start(), 0);
            if i < 999 {
                assert(r.subrange(0, 4) =~= input.subrange(i, i + 4));
                assert(scan::occurs_at(r, json_start(), 0));
                assert(scan::find(r, json_start()) == Some(0int));
                assert(r.skip(0) =~= r);
            }
        },
        None => {},
    }
}

/// Cutting at the last-chunk marker a second time changes nothing.
pub proof fn lemma_body_trim_idempotent(input: Seq<u8>)
    ensures
        body_trim_spec(body_trim_spec(input)) == body_trim_spec(input),
{
    let r = body_trim_spec(input);
    match scan::find(input, last_chunk()) {
        Some(i) => {
            scan::lemma_find_from(input, last_chunk(), 0);
            if i > 0 {
                scan::lemma_find_from(r, last_chunk(), 0);
                match scan::find(r, last_chunk()) {
                    Some(j) => {
                        assert(r.subrange(j, j + 7) =~= input.subrange(j, j + 7));
                        assert(scan::occurs_at(input, last_chunk(), j));
                        assert(false);
                    },
                    None => {},
                }
            }
        },
        None => {},
    }
}

} // verus!
