//! A response parser that parses each response it is given on its own.

use vstd::prelude::*;
use vstd::utf8::*;
use vstd::string::*;
use crate::text;
use crate::head;
use crate::head::{HeaderField, ResponseError, HeadParse};

verus! {

broadcast use vstd::utf8::group_utf8_lib;

/// A response parser.
pub struct ResponseParser {
    status: String,
    headers: Vec<HeaderField>,
    body: String,
}

/// What a `ResponseParser` holds.
pub struct SimpleState {
    /// The status line text of the last parsed response (`"200 OK"`); empty before any.
    pub status: Seq<char>,
    /// The header lines of the last parsed response.
    pub headers: Seq<(Seq<u8>, Seq<u8>)>,
    /// The bytes after the head of the last parsed response.
    pub body: Seq<u8>,
}

impl View for ResponseParser {
    type V = SimpleState;

    closed spec fn view(&self) -> SimpleState {
        SimpleState {
            status: self.status@,
            headers: self.headers@.map_values(|h: HeaderField| h@),
            body: encode_utf8(self.body@),
        }
    }
}

/// The state of a new parser.
pub open spec fn initial() -> SimpleState {
    SimpleState { status: Seq::empty(), headers: Seq::empty(), body: Seq::empty() }
}

/// Taking in a parsed head: the status line text and headers come from it,
/// and the bytes after it, which must be UTF-8 text, become the body.
pub open spec fn applied(s: SimpleState, h: head::HeadView) -> (SimpleState, Result<(), ResponseError>) {
    let t = SimpleState { status: head::status_display(h.code, h.reason), headers: h.headers, ..s };
    if valid_utf8(h.body) {
        (SimpleState { body: h.body, ..t }, Ok(()))
    } else {
        (t, Err(ResponseError::BodyNotText))
    }
}

/// What `execute` does with the response `a_resp` in state `s`: it is
/// parsed and its head taken in (see `applied`).
pub open spec fn executed(s: SimpleState, a_resp: Seq<u8>) -> (SimpleState, Result<(), ResponseError>) {
    match head::response_head(a_resp) {
        HeadParse::Invalid => (s, Err(ResponseError::HeadInvalid)),
        HeadParse::Incomplete => (s, Err(ResponseError::HeadIncomplete)),
        HeadParse::Complete(h) => applied(s, h),
    }
}

/// A response with a complete head followed by UTF-8 text is read back
/// whole: its status line text, its header lines and the bytes after its
/// head, whatever the parser held before.
pub proof fn lemma_response_read_back(s: SimpleState, a_resp: Seq<u8>, h: head::HeadView)
    requires
        head::response_head(a_resp) == HeadParse::Complete(h),
        valid_utf8(h.body),
    ensures
        executed(s, a_resp) == (SimpleState {
            status: head::status_display(h.code, h.reason),
            headers: h.headers,
            body: h.body,
        }, Ok::<(), ResponseError>(())),
{
}

/// A refused response (its head is not valid or not complete) leaves the
/// parser as it was.
pub proof fn lemma_refused_response_keeps_state(s: SimpleState, a_resp: Seq<u8>)
    requires
        executed(s, a_resp).1 is Err,
        executed(s, a_resp).1 != Err::<(), ResponseError>(ResponseError::BodyNotText),
    ensures
        executed(s, a_resp).0 == s,
{
}

impl ResponseParser {
    /// A parser that has parsed nothing.
    pub fn py_new() -> (p: Self)
        ensures
            p@ == initial(),
            head::fields_text(p@.headers),
    {
        let p = ResponseParser { status: String::new(), headers: Vec::new(), body: String::new() };
        proof {
            assert(p@.headers =~= Seq::empty());
            assert(encode_utf8(Seq::<char>::empty()) =~= Seq::<u8>::empty());
        }
        p
    }

    /// Parses the response `a_resp` (see `executed`).
    ///
    /// An `Err` means that the response cannot be taken in as it stands (its
    /// head is not valid HTTP or not complete, or its body is not text); the
    /// parser is left as it was when that became clear.
    pub fn execute(&mut self, a_resp: &[u8]) -> (r: Result<(), ResponseError>)
        ensures
            (final(self)@, r) == executed(old(self)@, a_resp@),
    {
        match head::parse_response_head(a_resp) {
            Err(_) => Err(ResponseError::HeadInvalid),
            Ok(None) => Err(ResponseError::HeadIncomplete),
            Ok(Some(h)) => self.apply_head(h),
        }
    }

    /// Takes in a parsed head (see `applied`).
    pub fn apply_head(&mut self, h: head::ResponseHead) -> (r: Result<(), ResponseError>)
        ensures
            (final(self)@, r) == applied(old(self)@, h@),
    {
        let ghost hv = h@;
        let head::ResponseHead { code, reason, headers, headers_debug: _, body } = h;
        self.status = head::status_text(code, &reason);
        self.headers = headers;
        proof {
            assert(self@.headers =~= hv.headers);
        }
        match text::utf8_string(body.as_slice()) {
            Some(t) => {
                self.body = t;
                Ok(())
            },
            None => Err(ResponseError::BodyNotText),
        }
    }

    /// The status line text of the last parsed response.
    pub fn get_status_code(&self) -> (s: String)
        ensures
            s@ == self@.status,
    {
        self.status.clone()
    }

    /// Whether every header line is text, so that `get_headers` can give them.
    pub fn headers_are_text(&self) -> (b: bool)
        ensures
            b == head::fields_text(self@.headers),
    {
        head::fields_are_text(self.headers.as_slice())
    }

    /// The header lines of the last parsed response as (name, value) text.
    pub fn get_headers(&self) -> (res: Vec<(String, String)>)
        requires
            head::fields_text(self@.headers),
        ensures
            res@.len() == self@.headers.len(),
            forall|i: int|
                0 <= i < res@.len() ==> (#[trigger] res@[i].0@, res@[i].1@) == head::plain_entry(
                    self@.headers[i],
                ),
    {
        head::plain_entries(self.headers.as_slice())
    }

    /// The body of the last parsed response, as text.
    pub fn get_body(&self) -> (s: String)
        ensures
            encode_utf8(s@) == self@.body,
    {
        self.body.clone()
    }
}

} // verus!
