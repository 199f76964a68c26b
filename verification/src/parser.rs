//! A response parser fed a response in chunks. It keeps every chunk, notes
//! when the head has been seen, picks out the payload of each chunk, and
//! parses the response once it is complete: when it ends with a given end
//! mark, or, without one, when the bytes after the head are as many as its
//! `Content-Length` line says.

use vstd::prelude::*;
use vstd::utf8::*;
use vstd::string::*;
use vstd::slice::slice_to_vec;
use crate::scan;
use crate::text;
use crate::lengths;
use crate::body;
use crate::head;
use crate::head::{HeaderField, ResponseError, HeadParse};
use crate::header_case;

verus! {

broadcast use vstd::utf8::group_utf8_lib;

/// A response parser.
pub struct ResponseParser {
    status: i32,
    headers: Vec<HeaderField>,
    body: String,
    fl_partial_body: bool,
    fl_msg_complete: bool,
    fl_headers_complete: bool,
    buffer: Vec<u8>,
    inp_data: Vec<u8>,
}

/// What a `ResponseParser` holds.
pub struct ParserState {
    /// The status code of the last parsed response (400 before any).
    pub status: i32,
    /// The header lines of the last parsed response.
    pub headers: Seq<(Seq<u8>, Seq<u8>)>,
    /// The bytes after the head of the last parsed response.
    pub body: Seq<u8>,
    /// A chunk with a blank line has been seen: chunks now carry body.
    pub partial_body: bool,
    /// The response has been parsed.
    pub msg_complete: bool,
    /// The head has been received.
    pub headers_complete: bool,
    /// Every chunk received, in order.
    pub buffer: Seq<u8>,
    /// The payload picked out of the last chunk.
    pub received: Seq<u8>,
}

impl View for ResponseParser {
    type V = ParserState;

    closed spec fn view(&self) -> ParserState {
        ParserState {
            status: self.status,
            headers: self.headers@.map_values(|h: HeaderField| h@),
            body: encode_utf8(self.body@),
            partial_body: self.fl_partial_body,
            msg_complete: self.fl_msg_complete,
            headers_complete: self.fl_headers_complete,
            buffer: self.buffer@,
            received: self.inp_data@,
        }
    }
}

/// Every header name is text.
pub open spec fn names_are_text(headers: Seq<(Seq<u8>, Seq<u8>)>) -> bool {
    forall|i: int| 0 <= i < headers.len() ==> head::is_name_text(#[trigger] headers[i].0)
}

/// A header line as `get_headers` gives it: the name in header case and the
/// value as text.
pub open spec fn header_entry(h: (Seq<u8>, Seq<u8>)) -> (Seq<char>, Seq<char>) {
    (header_case::header_case(text::ascii_chars(h.0)), text::ascii_chars(h.1))
}

/// A header entry holds the whole value, one character per byte, and the
/// name with the same bytes except that a lower-case ASCII letter that
/// starts it or follows a `-` is raised to upper case.
pub proof fn lemma_header_entry_keeps_bytes(h: (Seq<u8>, Seq<u8>))
    ensures
        header_entry(h).1.len() == h.1.len(),
        forall|j: int| 0 <= j < h.1.len() ==> #[trigger] header_entry(h).1[j] == h.1[j] as char,
        header_entry(h).0.len() == h.0.len(),
        forall|j: int|
            0 <= j < h.0.len() ==> #[trigger] header_entry(h).0[j] == if (j == 0 || h.0[j - 1] == 45u8)
                && 97 <= h.0[j] <= 122 {
                ((h.0[j] - 32) as u8) as char
            } else {
                h.0[j] as char
            },
{
    assert forall|j: int| 0 <= j < h.0.len() implies #[trigger] header_entry(h).0[j] == if (j == 0
        || h.0[j - 1] == 45u8) && 97 <= h.0[j] <= 122 {
        ((h.0[j] - 32) as u8) as char
    } else {
        h.0[j] as char
    } by {
        let c = text::ascii_chars(h.0);
        assert(c[j] == h.0[j] as char);
        if j > 0 {
            assert(c[j - 1] == h.0[j - 1] as char);
        }
    }
}

/// The state after taking in `chunk`, before any parsing: the head counts
/// as received, and chunks as carrying body, once the received bytes hold a
/// blank line; the chunk's payload is picked out (see `body::received_body`);
/// and the chunk is kept.
pub open spec fn fed(s: ParserState, chunk: Seq<u8>) -> ParserState {
    let all = s.buffer + chunk;
    let seen = scan::contains(all, lengths::head_end());
    let partial = s.partial_body || seen;
    ParserState {
        partial_body: partial,
        headers_complete: s.headers_complete || seen,
        received: body::received_body(partial, chunk),
        buffer: all,
        ..s
    }
}

/// Taking in a parsed head: status and headers come from it, and the bytes
/// after it, which must be UTF-8 text, become the body.
pub open spec fn applied(s: ParserState, h: head::HeadView) -> (ParserState, Result<(), ResponseError>) {
    let t = ParserState { status: h.code as i32, headers: h.headers, ..s };
    if valid_utf8(h.body) {
        (ParserState { body: h.body, msg_complete: true, ..t }, Ok(()))
    } else {
        (t, Err(ResponseError::BodyNotText))
    }
}

/// Parsing the response in `bytes` and taking in its head.
pub open spec fn parsed(s: ParserState, bytes: Seq<u8>) -> (ParserState, Result<(), ResponseError>) {
    match head::response_head(bytes) {
        HeadParse::Invalid => (s, Err(ResponseError::HeadInvalid)),
        HeadParse::Incomplete => (s, Err(ResponseError::HeadIncomplete)),
        HeadParse::Complete(h) => applied(s, h),
    }
}

/// What `execute` does with `chunk` and `eof_mark` in state `s`: the state
/// after it and its result.
///
/// With a non-empty end mark, the response is parsed when the received bytes
/// end with the mark. Without one, it is parsed once it has fully arrived
/// (see `lengths::completion_of`), so that the complete flag means that the
/// whole message has arrived: a head followed by exactly as many bytes as its
/// `Content-Length` says (none after `Content-Length: 0`), any bytes after
/// `Content-Length: 0`, a chunked body (no `Content-Length`, a
/// `Transfer-Encoding` line saying `chunked`) once it ends with its last
/// chunk `0\r\n\r\n`, or any other non-empty body without a
/// `Content-Length`. A chunked body before its last chunk is not parsed.
pub open spec fn executed(s: ParserState, chunk: Seq<u8>, eof_mark: Seq<u8>) -> (
    ParserState,
    Result<(), ResponseError>,
) {
    let f = fed(s, chunk);
    if eof_mark.len() > 0 {
        if scan::ends_with(f.buffer, eof_mark) {
            parsed(f, f.buffer)
        } else {
            (f, Ok(()))
        }
    } else if !lengths::content_len_defined(f.buffer) {
        (f, Err(ResponseError::ContentLengthInvalid))
    } else if lengths::body_len_spec(f.buffer) > i32::MAX {
        (f, Err(ResponseError::BodyTooLong))
    } else {
        match lengths::completion_of(f.buffer) {
            lengths::Completion::Waiting => (f, Ok(())),
            _ => parsed(f, f.buffer),
        }
    }
}

/// The state of a new parser.
pub open spec fn initial() -> ParserState {
    ParserState {
        status: 400,
        headers: Seq::empty(),
        body: Seq::empty(),
        partial_body: false,
        msg_complete: false,
        headers_complete: false,
        buffer: Seq::empty(),
        received: Seq::empty(),
    }
}

/// Every chunk handed to `execute` is kept, whatever the outcome: the buffer
/// grows by exactly the chunk.
pub proof fn lemma_execute_keeps_chunk(s: ParserState, chunk: Seq<u8>, eof_mark: Seq<u8>)
    ensures
        executed(s, chunk, eof_mark).0.buffer == s.buffer + chunk,
{
}

/// The head counts as received exactly when the received bytes hold a blank
/// line, however the chunks split them; chunks carry body from then on; and
/// a complete message stays complete.
pub proof fn lemma_execute_flags_stay(s: ParserState, chunk: Seq<u8>, eof_mark: Seq<u8>)
    requires
        s.headers_complete == scan::contains(s.buffer, lengths::head_end()),
        s.partial_body == s.headers_complete,
    ensures
        executed(s, chunk, eof_mark).0.headers_complete == scan::contains(
            s.buffer + chunk,
            lengths::head_end(),
        ),
        executed(s, chunk, eof_mark).0.partial_body == executed(s, chunk, eof_mark).0.headers_complete,
        s.msg_complete ==> executed(s, chunk, eof_mark).0.msg_complete,
{
    if scan::contains(s.buffer, lengths::head_end()) {
        scan::lemma_contains_extend(s.buffer, chunk, lengths::head_end());
    }
}

/// The payload picked out of a chunk is always a run of that chunk's bytes,
/// and nothing while the head is incomplete.
pub proof fn lemma_received_is_part_of_chunk(s: ParserState, chunk: Seq<u8>, eof_mark: Seq<u8>)
    ensures
        scan::is_infix(executed(s, chunk, eof_mark).0.received, chunk),
        !executed(s, chunk, eof_mark).0.partial_body ==> executed(
            s,
            chunk,
            eof_mark,
        ).0.received.len() == 0,
{
    body::lemma_received_is_part_of_chunk(fed(s, chunk).partial_body, chunk);
}

/// With an end mark that the received bytes do not end with yet, a chunk is
/// only kept: it succeeds and leaves the parsed response as it was.
pub proof fn lemma_unmarked_chunk_keeps_response(s: ParserState, chunk: Seq<u8>, eof_mark: Seq<u8>)
    requires
        eof_mark.len() > 0,
        !scan::ends_with(s.buffer + chunk, eof_mark),
    ensures
        executed(s, chunk, eof_mark).1 is Ok,
        executed(s, chunk, eof_mark).0.status == s.status,
        executed(s, chunk, eof_mark).0.headers == s.headers,
        executed(s, chunk, eof_mark).0.body == s.body,
        executed(s, chunk, eof_mark).0.msg_complete == s.msg_complete,
{
}

/// A refused chunk (the head is not valid or not complete, or the length
/// bookkeeping cannot be done) leaves the parsed response as it was.
pub proof fn lemma_refused_chunk_keeps_response(s: ParserState, chunk: Seq<u8>, eof_mark: Seq<u8>)
    requires
        executed(s, chunk, eof_mark).1 is Err,
        executed(s, chunk, eof_mark).1 != Err::<(), ResponseError>(ResponseError::BodyNotText),
    ensures
        executed(s, chunk, eof_mark).0.status == s.status,
        executed(s, chunk, eof_mark).0.headers == s.headers,
        executed(s, chunk, eof_mark).0.body == s.body,
        executed(s, chunk, eof_mark).0.msg_complete == s.msg_complete,
{
}

/// When the received bytes end with the end mark and hold a complete head
/// followed by UTF-8 text, the parser gives back that head's status code and
/// headers and the bytes after it, and the message is complete.
pub proof fn lemma_marked_response_read_back(
    s: ParserState,
    chunk: Seq<u8>,
    eof_mark: Seq<u8>,
    h: head::HeadView,
)
    requires
        eof_mark.len() > 0,
        scan::ends_with(s.buffer + chunk, eof_mark),
        head::response_head(s.buffer + chunk) == HeadParse::Complete(h),
        valid_utf8(h.body),
    ensures
        executed(s, chunk, eof_mark).1 is Ok,
        executed(s, chunk, eof_mark).0.status == h.code as i32,
        executed(s, chunk, eof_mark).0.headers == h.headers,
        executed(s, chunk, eof_mark).0.body == h.body,
        executed(s, chunk, eof_mark).0.msg_complete,
{
}

/// Without an end mark, once the response has fully arrived (see
/// `lengths::completion_of`) and its bytes hold a complete head followed by
/// UTF-8 text, the parser gives back that head's status code and headers and
/// the bytes after it, and the message is complete.
pub proof fn lemma_complete_response_read_back(s: ParserState, chunk: Seq<u8>, h: head::HeadView)
    requires
        lengths::content_len_defined(s.buffer + chunk),
        lengths::body_len_spec(s.buffer + chunk) <= i32::MAX,
        !(lengths::completion_of(s.buffer + chunk) is Waiting),
        head::response_head(s.buffer + chunk) == HeadParse::Complete(h),
        valid_utf8(h.body),
    ensures
        executed(s, chunk, Seq::empty()).1 is Ok,
        executed(s, chunk, Seq::empty()).0.status == h.code as i32,
        executed(s, chunk, Seq::empty()).0.headers == h.headers,
        executed(s, chunk, Seq::empty()).0.body == h.body,
        executed(s, chunk, Seq::empty()).0.msg_complete,
{
}

/// Without an end mark, a response that has not fully arrived yet is not
/// parsed and does not make an incomplete message complete: in particular a
/// chunked body without a `Content-Length` waits for its last chunk.
pub proof fn lemma_waiting_response_not_complete(s: ParserState, chunk: Seq<u8>)
    requires
        lengths::completion_of(s.buffer + chunk) is Waiting,
    ensures
        executed(s, chunk, Seq::empty()).0.msg_complete == s.msg_complete,
        executed(s, chunk, Seq::empty()).0.status == s.status,
        executed(s, chunk, Seq::empty()).0.body == s.body,
{
}

impl ResponseParser {

    /// A parser that has received nothing.
    pub fn py_new() -> (p: Self)
        ensures
            p@ == initial(),
            scan::is_infix(p@.body, p@.buffer),
            names_are_text(p@.headers),
    {
        let p = ResponseParser {
            status: 400,
            headers: Vec::new(),
            body: String::new(),
            fl_partial_body: false,
            fl_msg_complete: false,
            fl_headers_complete: false,
            buffer: Vec::new(),
            inp_data: Vec::new(),
        };
        proof {
            assert(p@.headers =~= Seq::empty());
            assert(encode_utf8(Seq::<char>::empty()) =~= Seq::<u8>::empty());
            assert(p@.buffer.subrange(0, 0) =~= p@.body);
            assert(scan::occurs_at(p@.buffer, p@.body, 0));
        }
        p
    }

    /// Takes in the next chunk of the response (see `executed`).
    ///
    /// An `Err` means that the response cannot be taken in as it stands (its
    /// head is not valid HTTP, its body is not text, or its length cannot be
    /// read); the parser is left as it was when that became clear, and the
    /// response should be given up.
    pub fn execute(&mut self, a_resp: &[u8], eof_mark: &[u8]) -> (r: Result<(), ResponseError>)
        ensures
            (final(self)@, r) == executed(old(self)@, a_resp@, eof_mark@),
            scan::is_infix(old(self)@.body, old(self)@.buffer) ==> scan::is_infix(
                final(self)@.body,
                final(self)@.buffer,
            ),
            names_are_text(old(self)@.headers) ==> names_are_text(final(self)@.headers),
    {
        self.upd_partial_body(a_resp);
        self.set_recv_body(a_resp);
        self.extend_buffer(a_resp);
        let b_resp = slice_to_vec(self.buffer.as_slice());
        if eof_mark.len() > 0 {
            if scan::bytes_end_with(b_resp.as_slice(), eof_mark) {
                return self.parse_buffered(b_resp.as_slice());
            }
            Ok(())
        } else {
            let len_c = match lengths::content_len_checked(b_resp.as_slice()) {
                Some(n) => n,
                None => return Err(ResponseError::ContentLengthInvalid),
            };
            let size = lengths::body_len_of(b_resp.as_slice());
            if size > 2147483647 {
                return Err(ResponseError::BodyTooLong);
            }
            let len_d: i32 = size as i32;
            match lengths::completion(b_resp.as_slice(), len_c, len_d) {
                lengths::Completion::Waiting => Ok(()),
                _ => self.parse_buffered(b_resp.as_slice()),
            }
        }
    }

    /// `parser` on the whole buffer, keeping the body within the buffer.
    fn parse_buffered(&mut self, b_resp: &[u8]) -> (r: Result<(), ResponseError>)
        requires
            b_resp@ == old(self)@.buffer,
        ensures
            (final(self)@, r) == parsed(old(self)@, b_resp@),
            scan::is_infix(old(self)@.body, old(self)@.buffer) ==> scan::is_infix(
                final(self)@.body,
                final(self)@.buffer,
            ),
            names_are_text(old(self)@.headers) ==> names_are_text(final(self)@.headers),
    {
        let r = self.parser(b_resp);
        proof {
            if r is Ok {
                scan::lemma_suffix_is_infix(b_resp@, self@.body);
            }
        }
        r
    }

    fn extend_buffer(&mut self, a_resp: &[u8])
        ensures
            final(self)@ == (ParserState { buffer: old(self)@.buffer + a_resp@, ..old(self)@ }),
            scan::is_infix(old(self)@.body, old(self)@.buffer) ==> scan::is_infix(
                final(self)@.body,
                final(self)@.buffer,
            ),
    {
        let ghost old_buffer = self.buffer@;
        self.buffer.extend_from_slice(a_resp);
        proof {
            assert(self.buffer@ =~= old_buffer + a_resp@);
            if scan::is_infix(self@.body, old_buffer) {
                let i = choose|i: int| scan::occurs_at(old_buffer, self@.body, i);
                assert(self.buffer@.subrange(i, i + self@.body.len()) =~= old_buffer.subrange(
                    i,
                    i + self@.body.len(),
                ));
                assert(scan::occurs_at(self.buffer@, self@.body, i));
            }
        }
    }

    /// Parses the response in `b_resp` and takes in its head (see `parsed`).
    /// On success the body is the tail of `b_resp`.
    pub fn parser(&mut self, b_resp: &[u8]) -> (r: Result<(), ResponseError>)
        ensures
            (final(self)@, r) == parsed(old(self)@, b_resp@),
            r is Ok ==> scan::ends_with(b_resp@, final(self)@.body),
            names_are_text(old(self)@.headers) ==> names_are_text(final(self)@.headers),
    {
        match head::parse_response_head(b_resp) {
            Err(_) => Err(ResponseError::HeadInvalid),
            Ok(None) => Err(ResponseError::HeadIncomplete),
            Ok(Some(h)) => self.apply_head(h),
        }
    }

    /// Takes in a parsed head (see `applied`): its status code and headers,
    /// and its body when that is UTF-8 text.
    pub fn apply_head(&mut self, h: head::ResponseHead) -> (r: Result<(), ResponseError>)
        ensures
            (final(self)@, r) == applied(old(self)@, h@),
    {
        let ghost hv = h@;
        let head::ResponseHead { code, reason, headers, headers_debug: _, body } = h;
        self.status = head::status_number(code, &reason);
        self.headers = headers;
        proof {
            assert(self@.headers =~= hv.headers);
        }
        match text::str_from_utf8(body.as_slice()) {
            Some(t) => {
                proof {
                    assert(decode_utf8(encode_utf8(t@)) == t@);
                }
                self.body = String::from_str(t);
                self.fl_msg_complete = true;
                Ok(())
            },
            None => Err(ResponseError::BodyNotText),
        }
    }

    /// The number of bytes after the first blank line of `response` (see
    /// `lengths::get_body_len`); the parser is not changed.
    pub fn get_body_len(&self, response: &[u8]) -> (n: i32)
        requires
            lengths::body_len_spec(response@) <= i32::MAX,
        ensures
            n == lengths::body_len_spec(response@),
    {
        lengths::get_body_len(response)
    }

    /// The value of the `Content-Length` line of `s` (see
    /// `lengths::content_len`); the parser is not changed.
    pub fn content_len(&self, s: &[u8]) -> (n: i32)
        requires
            lengths::content_len_defined(s@),
        ensures
            n == lengths::content_len_spec(s@),
    {
        lengths::content_len(s)
    }

    /// The status code of the last parsed response (400 before any).
    pub fn get_status_code(&self) -> (n: i32)
        ensures
            n == self@.status,
    {
        self.status
    }

    /// The header lines of the last parsed response, each as its name in
    /// header case and its value. Every value must be visible ASCII text.
    pub fn get_headers(&self) -> (res: Vec<(String, String)>)
        requires
            head::fields_text(self@.headers),
        ensures
            res@.len() == self@.headers.len(),
            forall|i: int|
                0 <= i < res@.len() ==> (#[trigger] res@[i].0@, res@[i].1@) == header_entry(
                    self@.headers[i],
                ),
    {
        let mut res: Vec<(String, String)> = Vec::new();
        let mut i: usize = 0;
        while i < self.headers.len()
            invariant
                i <= self.headers@.len(),
                self@.headers == self.headers@.map_values(|h: HeaderField| h@),
                head::fields_text(self@.headers),
                res@.len() == i,
                forall|k: int|
                    0 <= k < i ==> (#[trigger] res@[k].0@, res@[k].1@) == header_entry(
                        self@.headers[k],
                    ),
            decreases self.headers@.len() - i,
        {
            let field = &self.headers[i];
            proof {
                assert(self@.headers[i as int] == field@);
                assert(head::field_is_text(self@.headers[i as int]));
                assert forall|j: int| 0 <= j < field.value@.len() implies field.value@[j] < 128 by {
                    assert(self@.headers[i as int].1 == field.value@);
                    assert(text::is_visible_ascii(self@.headers[i as int].1[j]));
                }
            }
            let key_str = text::ascii_string(field.name.as_slice());
            let new_key = header_case::convert_to_header_case(key_str.as_str());
            let value = text::ascii_string(field.value.as_slice());
            res.push((new_key, value));
            i = i + 1;
        }
        res
    }

    /// Whether every header name and value is text, so that `get_headers`
    /// can give them.
    pub fn headers_are_text(&self) -> (b: bool)
        ensures
            b == head::fields_text(self@.headers),
    {
        head::fields_are_text(self.headers.as_slice())
    }

    /// The bytes after the head of the last parsed response.
    pub fn get_full_body(&self) -> (b: &[u8])
        ensures
            b@ == self@.body,
    {
        self.body.as_str().as_bytes()
    }

    /// The payload picked out of the last chunk.
    pub fn recv_body(&self) -> (b: &[u8])
        ensures
            b@ == self@.received,
    {
        self.inp_data.as_slice()
    }

    /// Picks out the payload of the chunk `input` (see `body::received_body`),
    /// going by whether chunks carry body yet.
    pub fn set_recv_body(&mut self, input: &[u8])
        ensures
            final(self)@ == (ParserState {
                received: body::received_body(old(self)@.partial_body, input@),
                ..old(self)@
            }),
    {
        self.inp_data.clear();
        let data = body::received_body_of(self.fl_partial_body, input);
        self.inp_data.extend_from_slice(data.as_slice());
        assert(self.inp_data@ =~= data@);
    }

    /// Whether chunks now carry body.
    pub fn is_partial_body(&self) -> (b: bool)
        ensures
            b == self@.partial_body,
    {
        self.fl_partial_body
    }

    /// Whether the response has been parsed.
    pub fn is_message_complete(&self) -> (b: bool)
        ensures
            b == self@.msg_complete,
    {
        self.fl_msg_complete
    }

    /// Whether the head has been received.
    pub fn is_headers_complete(&self) -> (b: bool)
        ensures
            b == self@.headers_complete,
    {
        self.fl_headers_complete
    }

    /// Notes that the head is complete, and that chunks carry body, once the
    /// received bytes followed by `input` hold a blank line.
    pub fn upd_partial_body(&mut self, input: &[u8])
        ensures
            final(self)@ == (ParserState {
                partial_body: old(self)@.partial_body || scan::contains(
                    old(self)@.buffer + input@,
                    lengths::head_end(),
                ),
                headers_complete: old(self)@.headers_complete || scan::contains(
                    old(self)@.buffer + input@,
                    lengths::head_end(),
                ),
                ..old(self)@
            }),
    {
        let mut all = slice_to_vec(self.buffer.as_slice());
        all.extend_from_slice(input);
        assert(all@ =~= self@.buffer + input@);
        if body::has_head_end(all.as_slice()) {
            self.fl_partial_body = true;
            self.fl_headers_complete = true;
        }
    }
}

} // verus!
