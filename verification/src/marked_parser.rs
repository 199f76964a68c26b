//! A response parser that keeps every chunk and parses the response once it
//! is complete: when it ends with a given end mark or, without one, when the
//! body is as long as its `Content-Length` line says. The status is kept as
//! the text of the status code.

use vstd::prelude::*;
use vstd::utf8::*;
use vstd::string::*;
use vstd::slice::slice_to_vec;
use crate::scan;
use crate::text;
use crate::lengths;
use crate::head;
use crate::head::{HeaderField, ResponseError, HeadParse};

verus! {

broadcast use vstd::utf8::group_utf8_lib;

/// A response parser.
pub struct ResponseParser {
    status: String,
    headers: Vec<HeaderField>,
    body: String,
    fl_msg_complete: bool,
    buffer: Vec<u8>,
}

/// What a `ResponseParser` holds.
pub struct MarkedState {
    /// The status code of the last parsed response, as text (`"400"` before any).
    pub status: Seq<char>,
    /// The header lines of the last parsed response.
    pub headers: Seq<(Seq<u8>, Seq<u8>)>,
    /// The bytes after the head of the last parsed response.
    pub body: Seq<u8>,
    /// The response is complete.
    pub msg_complete: bool,
    /// Every chunk received, in order.
    pub buffer: Seq<u8>,
}

impl View for ResponseParser {
    type V = MarkedState;

    closed spec fn view(&self) -> MarkedState {
        MarkedState {
            status: self.status@,
            headers: self.headers@.map_values(|h: HeaderField| h@),
            body: encode_utf8(self.body@),
            msg_complete: self.fl_msg_complete,
            buffer: self.buffer@,
        }
    }
}

/// The state of a new parser.
pub open spec fn initial() -> MarkedState {
    MarkedState {
        status: seq!['4', '0', '0'],
        headers: Seq::empty(),
        body: Seq::empty(),
        msg_complete: false,
        buffer: Seq::empty(),
    }
}

/// Taking in a parsed head: the status code (as text) and headers come from
/// it, and the bytes after it, which must be UTF-8 text, become the body.
pub open spec fn applied(s: MarkedState, h: head::HeadView) -> (MarkedState, Result<(), ResponseError>) {
    let t = MarkedState { status: text::decimal(h.code as nat), headers: h.headers, ..s };
    if valid_utf8(h.body) {
        (MarkedState { body: h.body, msg_complete: true, ..t }, Ok(()))
    } else {
        (t, Err(ResponseError::BodyNotText))
    }
}

/// Parsing the response in `bytes` and taking in its head.
pub open spec fn parsed(s: MarkedState, bytes: Seq<u8>) -> (MarkedState, Result<(), ResponseError>) {
    match head::response_head(bytes) {
        HeadParse::Invalid => (s, Err(ResponseError::HeadInvalid)),
        HeadParse::Incomplete => (s, Err(ResponseError::HeadIncomplete)),
        HeadParse::Complete(h) => applied(s, h),
    }
}

/// What `execute` does with `chunk` and `eof_mark` in state `s`.
///
/// The chunk is kept. With a non-empty end mark the response is parsed when
/// the received bytes end with the mark. Without one, the decision goes by
/// how far the response has arrived (see `lengths::completion_of`), so that
/// the complete flag means that the whole message has arrived:
/// - a response whose head is complete and whose body is exactly as long as
///   its `Content-Length` says is parsed; this includes a `Content-Length: 0`
///   response with an empty body, which is thus parsed and complete;
/// - a body with no length to wait for that has fully arrived only marks the
///   message complete, without parsing: bytes after `Content-Length: 0`, a
///   chunked body (no `Content-Length`, a `Transfer-Encoding` line saying
///   `chunked`) once it ends with its last chunk `0\r\n\r\n`, or any
///   other non-empty body without a `Content-Length`;
/// - anything else, a chunked body before its last chunk among them, waits
///   and leaves the message as complete as it was.
pub open spec fn executed(s: MarkedState, chunk: Seq<u8>, eof_mark: Seq<u8>) -> (
    MarkedState,
    Result<(), ResponseError>,
) {
    let f = MarkedState { buffer: s.buffer + chunk, ..s };
    if eof_mark.len() > 0 {
        if scan::ends_with(f.buffer, eof_mark) {
            parsed(f, f.buffer)
        } else {
            (f, Ok(()))
        }
    } else if !lengths::content_len_defined(f.buffer) {
        (f, Err(ResponseError::ContentLengthInvalid))
    } else if lengths::body_len_spec(f.buffer) > i32::MAX {
        (f, Err(ResponseError::BodyTooLong))
    } else {
        match lengths::completion_of(f.buffer) {
            lengths::Completion::Sized => parsed(f, f.buffer),
            lengths::Completion::Unsized => (MarkedState { msg_complete: true, ..f }, Ok(())),
            lengths::Completion::Waiting => (f, Ok(())),
        }
    }
}

/// Every chunk handed to `execute` is kept, whatever the outcome, and a
/// complete message stays complete.
pub proof fn lemma_execute_keeps_chunk(s: MarkedState, chunk: Seq<u8>, eof_mark: Seq<u8>)
    ensures
        executed(s, chunk, eof_mark).0.buffer == s.buffer + chunk,
        s.msg_complete ==> executed(s, chunk, eof_mark).0.msg_complete,
{
}

/// With an end mark that the received bytes do not end with yet, a chunk is
/// only kept: it succeeds and leaves the parsed response as it was.
pub proof fn lemma_unmarked_chunk_keeps_response(s: MarkedState, chunk: Seq<u8>, eof_mark: Seq<u8>)
    requires
        eof_mark.len() > 0,
        !scan::ends_with(s.buffer + chunk, eof_mark),
    ensures
        executed(s, chunk, eof_mark) == (MarkedState { buffer: s.buffer + chunk, ..s }, Ok::<
            (),
            ResponseError,
        >(())),
{
}

/// When the received bytes end with the end mark and hold a complete head
/// followed by UTF-8 text, the parser gives back the status code's digits,
/// the headers and the bytes after the head, and the message is complete.
pub proof fn lemma_marked_response_read_back(
    s: MarkedState,
    chunk: Seq<u8>,
    eof_mark: Seq<u8>,
    h: head::HeadView,
)
    requires
        eof_mark.len() > 0,
        scan::ends_with(s.buffer + chunk, eof_mark),
        head::response_head(s.buffer + chunk) == HeadParse::Complete(h),
        valid_utf8(h.body),
    ensures
        executed(s, chunk, eof_mark).1 is Ok,
        executed(s, chunk, eof_mark).0.status == text::decimal(h.code as nat),
        executed(s, chunk, eof_mark).0.headers == h.headers,
        executed(s, chunk, eof_mark).0.body == h.body,
        executed(s, chunk, eof_mark).0.msg_complete,
{
}

/// Without an end mark, when the body has arrived exactly as long as the
/// `Content-Length` says (an empty body after `Content-Length: 0` too) and
/// the bytes hold a complete head followed by UTF-8 text, the parser gives
/// back that head and the message is complete.
pub proof fn lemma_sized_response_read_back(s: MarkedState, chunk: Seq<u8>, h: head::HeadView)
    requires
        lengths::content_len_defined(s.buffer + chunk),
        lengths::body_len_spec(s.buffer + chunk) <= i32::MAX,
        lengths::completion_of(s.buffer + chunk) is Sized,
        head::response_head(s.buffer + chunk) == HeadParse::Complete(h),
        valid_utf8(h.body),
    ensures
        executed(s, chunk, Seq::empty()).1 is Ok,
        executed(s, chunk, Seq::empty()).0.status == text::decimal(h.code as nat),
        executed(s, chunk, Seq::empty()).0.headers == h.headers,
        executed(s, chunk, Seq::empty()).0.body == h.body,
        executed(s, chunk, Seq::empty()).0.msg_complete,
{
}

/// Without an end mark, a response that has not fully arrived (a chunked
/// body before its last chunk, say) leaves the message as complete as it
/// was.
pub proof fn lemma_waiting_response_not_complete(s: MarkedState, chunk: Seq<u8>)
    requires
        lengths::completion_of(s.buffer + chunk) is Waiting,
    ensures
        executed(s, chunk, Seq::empty()).0 == (MarkedState { buffer: s.buffer + chunk, ..s }),
{
}

impl ResponseParser {
    /// A parser that has received nothing.
    pub fn py_new() -> (p: Self)
        ensures
            p@ == initial(),
            head::fields_text(p@.headers),
    {
        let mut status = String::new();
        text::push_char(&mut status, '4');
        text::push_char(&mut status, '0');
        text::push_char(&mut status, '0');
        let p = ResponseParser {
            status,
            headers: Vec::new(),
            body: String::new(),
            fl_msg_complete: false,
            buffer: Vec::new(),
        };
        proof {
            assert(p@.status =~= seq!['4', '0', '0']);
            assert(p@.headers =~= Seq::empty());
            assert(encode_utf8(Seq::<char>::empty()) =~= Seq::<u8>::empty());
        }
        p
    }

    /// Takes in the next chunk of the response (see `executed`).
    ///
    /// An `Err` means that the response cannot be taken in as it stands (its
    /// head is not valid HTTP, its body is not text, or its length cannot be
    /// read); the parser is left as it was when that became clear, and the
    /// response should be given up.
    pub fn execute(&mut self, a_resp: &[u8], eof_mark: &[u8]) -> (r: Result<(), ResponseError>)
        ensures
            (final(self)@, r) == executed(old(self)@, a_resp@, eof_mark@),
    {
        let ghost old_buffer = self.buffer@;
        self.buffer.extend_from_slice(a_resp);
        assert(self.buffer@ =~= old_buffer + a_resp@);
        let b_resp = slice_to_vec(self.buffer.as_slice());
        if eof_mark.len() > 0 {
            if scan::bytes_end_with(b_resp.as_slice(), eof_mark) {
                return self.parser(b_resp.as_slice());
            }
            Ok(())
        } else {
            let len_c = match lengths::content_len_checked(b_resp.as_slice()) {
                Some(n) => n,
                None => return Err(ResponseError::ContentLengthInvalid),
            };
            let size = lengths::body_len_of(b_resp.as_slice());
            if size > 2147483647 {
                return Err(ResponseError::BodyTooLong);
            }
            let len_d: i32 = size as i32;
            match lengths::completion(b_resp.as_slice(), len_c, len_d) {
                lengths::Completion::Sized => self.parser(b_resp.as_slice()),
                lengths::Completion::Unsized => {
                    self.fl_msg_complete = true;
                    Ok(())
                },
                lengths::Completion::Waiting => Ok(()),
            }
        }
    }

    /// Parses the response in `b_resp` and takes in its head (see `parsed`).
    pub fn parser(&mut self, b_resp: &[u8]) -> (r: Result<(), ResponseError>)
        ensures
            (final(self)@, r) == parsed(old(self)@, b_resp@),
    {
        match head::parse_response_head(b_resp) {
            Err(_) => Err(ResponseError::HeadInvalid),
            Ok(None) => Err(ResponseError::HeadIncomplete),
            Ok(Some(h)) => self.apply_head(h),
        }
    }

    /// Takes in a parsed head (see `applied`).
    pub fn apply_head(&mut self, h: head::ResponseHead) -> (r: Result<(), ResponseError>)
        ensures
            (final(self)@, r) == applied(old(self)@, h@),
    {
        let ghost hv = h@;
        let head::ResponseHead { code, reason, headers, headers_debug: _, body } = h;
        let n = head::status_number(code, &reason);
        self.status = text::decimal_string(n as u64);
        self.headers = headers;
        proof {
            assert(self@.headers =~= hv.headers);
        }
        match text::utf8_string(body.as_slice()) {
            Some(t) => {
                self.body = t;
                self.fl_msg_complete = true;
                Ok(())
            },
            None => Err(ResponseError::BodyNotText),
        }
    }

    /// The number of bytes after the first blank line of `response` (see
    /// `lengths::get_body_len`); the parser is not changed.
    pub fn get_body_len(&self, response: &[u8]) -> (n: i32)
        requires
            lengths::body_len_spec(response@) <= i32::MAX,
        ensures
            n == lengths::body_len_spec(response@),
    {
        lengths::get_body_len(response)
    }

    /// The value of the `Content-Length` line of `s` (see
    /// `lengths::content_len`); the parser is not changed.
    pub fn content_len(&self, s: &[u8]) -> (n: i32)
        requires
            lengths::content_len_defined(s@),
        ensures
            n == lengths::content_len_spec(s@),
    {
        lengths::content_len(s)
    }

    /// The status code of the last parsed response, as text.
    pub fn get_status_code(&self) -> (s: String)
        ensures
            s@ == self@.status,
    {
        self.status.clone()
    }

    /// Whether every header line is text, so that `get_headers` can give them.
    pub fn headers_are_text(&self) -> (b: bool)
        ensures
            b == head::fields_text(self@.headers),
    {
        head::fields_are_text(self.headers.as_slice())
    }

    /// The header lines of the last parsed response as (name, value) text.
    pub fn get_headers(&self) -> (res: Vec<(String, String)>)
        requires
            head::fields_text(self@.headers),
        ensures
            res@.len() == self@.headers.len(),
            forall|i: int|
                0 <= i < res@.len() ==> (#[trigger] res@[i].0@, res@[i].1@) == head::plain_entry(
                    self@.headers[i],
                ),
    {
        head::plain_entries(self.headers.as_slice())
    }

    /// The bytes after the head of the last parsed response.
    pub fn recv_body(&self) -> (b: &[u8])
        ensures
            b@ == self@.body,
    {
        self.body.as_str().as_bytes()
    }

    /// Whether the response is complete.
    pub fn is_message_complete(&self) -> (b: bool)
        ensures
            b == self@.msg_complete,
    {
        self.fl_msg_complete
    }
}

} // verus!
