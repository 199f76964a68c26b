//! Parsing a whole response into its status code, header text and body.

use vstd::prelude::*;
use vstd::utf8::*;
use vstd::string::*;
use crate::text;
use crate::head;
use crate::head::{ResponseError, HeadParse};

verus! {

broadcast use vstd::utf8::group_utf8_lib;

/// A parsed response, all as text.
pub struct ParsResponse {
    /// The status code, as its three digits.
    pub status: String,
    /// The header map, as its `Debug` format writes it.
    pub headers: String,
    /// The bytes after the head.
    pub body: String,
}

/// What a parsed head gives as text: the status code's digits, the header
/// text and the body, which must be UTF-8 text.
pub open spec fn pars_of_head(h: head::HeadView) -> Result<(Seq<char>, Seq<char>, Seq<u8>), ResponseError> {
    if valid_utf8(h.body) {
        Ok((text::decimal(h.code as nat), h.headers_debug, h.body))
    } else {
        Err(ResponseError::BodyNotText)
    }
}

/// What `get_pars` gives for `a_resp`: its parsed head as text (see
/// `pars_of_head`), or the reason the response cannot be taken in.
pub open spec fn pars_spec(a_resp: Seq<u8>) -> Result<(Seq<char>, Seq<char>, Seq<u8>), ResponseError> {
    match head::response_head(a_resp) {
        HeadParse::Invalid => Err(ResponseError::HeadInvalid),
        HeadParse::Incomplete => Err(ResponseError::HeadIncomplete),
        HeadParse::Complete(h) => pars_of_head(h),
    }
}

/// Any UTF-8 body, ASCII or not, is taken in whole: a parsed head gives its
/// status code's digits, its header text and its body exactly when the body
/// is UTF-8 text, and `BodyNotText` exactly when it is not. The same holds of
/// a whole response whose head is complete.
pub proof fn lemma_any_text_body_taken(h: head::HeadView, a_resp: Seq<u8>)
    ensures
        valid_utf8(h.body) ==> pars_of_head(h) == Ok::<(Seq<char>, Seq<char>, Seq<u8>), ResponseError>(
            (text::decimal(h.code as nat), h.headers_debug, h.body),
        ),
        !valid_utf8(h.body) ==> pars_of_head(h) == Err::<(Seq<char>, Seq<char>, Seq<u8>), ResponseError>(
            ResponseError::BodyNotText,
        ),
        head::response_head(a_resp) == HeadParse::Complete(h) && valid_utf8(h.body) ==> pars_spec(a_resp)
            == Ok::<(Seq<char>, Seq<char>, Seq<u8>), ResponseError>(
            (text::decimal(h.code as nat), h.headers_debug, h.body),
        ),
{
}

/// The text of the parsed head `h` (see `pars_of_head`).
pub fn pars_from_head(h: head::ResponseHead) -> (r: Result<ParsResponse, ResponseError>)
    ensures
        match r {
            Ok(p) => pars_of_head(h@) == Ok::<(Seq<char>, Seq<char>, Seq<u8>), ResponseError>(
                (p.status@, p.headers@, encode_utf8(p.body@)),
            ),
            Err(e) => pars_of_head(h@) == Err::<(Seq<char>, Seq<char>, Seq<u8>), ResponseError>(e),
        },
{
    let head::ResponseHead { code, reason: _, headers: _, headers_debug, body } = h;
    match text::utf8_string(body.as_slice()) {
        Some(b) => Ok(ParsResponse { status: text::decimal_string(code as u64), headers: headers_debug, body: b }),
        None => Err(ResponseError::BodyNotText),
    }
}

/// Parses the response `a_resp` (see `pars_spec`). It never gives `Ok(None)`.
///
/// An `Err` means that the response cannot be taken in as it stands: its
/// head is not valid HTTP or not complete, or its body is not text.
pub fn get_pars(a_resp: &[u8]) -> (r: Result<Option<ParsResponse>, ResponseError>)
    ensures
        match r {
            Ok(Some(p)) => pars_spec(a_resp@) == Ok::<(Seq<char>, Seq<char>, Seq<u8>), ResponseError>(
                (p.status@, p.headers@, encode_utf8(p.body@)),
            ),
            Ok(None) => false,
            Err(e) => pars_spec(a_resp@) == Err::<(Seq<char>, Seq<char>, Seq<u8>), ResponseError>(e),
        },
{
    match head::parse_response_head(a_resp) {
        Err(_) => Err(ResponseError::HeadInvalid),
        Ok(None) => Err(ResponseError::HeadIncomplete),
        Ok(Some(h)) => match pars_from_head(h) {
            Ok(p) => Ok(Some(p)),
            Err(e) => Err(e),
        },
    }
}

/// The decimal numeral of `a + b`. The sum must fit in a `usize`.
pub fn sum_as_string(a: usize, b: usize) -> (s: String)
    requires
        a + b <= usize::MAX,
    ensures
        s@ == text::decimal((a + b) as nat),
{
    text::decimal_string((a + b) as u64)
}

} // verus!
