//! A response parser that keeps every chunk, parses all it has received each
//! time, and counts the response complete when the body is as long as its
//! `content-length` header says.

use vstd::prelude::*;
use vstd::utf8::*;
use vstd::string::*;
use vstd::slice::slice_to_vec;
use crate::scan;
use crate::text;
use crate::head;
use crate::head::{HeaderField, ResponseError, HeadParse};

verus! {

broadcast use vstd::utf8::group_utf8_lib;

/// A response parser.
pub struct ResponseParser {
    status: String,
    headers: Vec<HeaderField>,
    body: String,
    len_content: usize,
    len_body: usize,
    fl_msg_complete: bool,
    buffer: Vec<u8>,
}

/// What a `ResponseParser` holds.
pub struct TrackingState {
    /// The status line text of the last parsed response (`"200 OK"`); empty before any.
    pub status: Seq<char>,
    /// The header lines of the last parsed response.
    pub headers: Seq<(Seq<u8>, Seq<u8>)>,
    /// The bytes after the head of the last parsed response.
    pub body: Seq<u8>,
    /// The `content-length` of the last parsed response (0 without one).
    pub len_content: usize,
    /// The number of bytes after the head of the last parsed response.
    pub len_body: usize,
    /// The body is as long as the `content-length` says, and not empty.
    pub msg_complete: bool,
    /// Every chunk received, in order.
    pub buffer: Seq<u8>,
}

impl View for ResponseParser {
    type V = TrackingState;

    closed spec fn view(&self) -> TrackingState {
        TrackingState {
            status: self.status@,
            headers: self.headers@.map_values(|h: HeaderField| h@),
            body: encode_utf8(self.body@),
            len_content: self.len_content,
            len_body: self.len_body,
            msg_complete: self.fl_msg_complete,
            buffer: self.buffer@,
        }
    }
}

/// The state of a new parser.
pub open spec fn initial() -> TrackingState {
    TrackingState {
        status: Seq::empty(),
        headers: Seq::empty(),
        body: Seq::empty(),
        len_content: 0,
        len_body: 0,
        msg_complete: false,
        buffer: Seq::empty(),
    }
}

/// `content-length`, the name under which the `http` crate keeps that header.
/// Header names are kept in lower case (see `head::is_name_text`), so looking
/// for these exact bytes finds the header whatever its case in the response.
pub open spec fn content_length_name() -> Seq<u8> {
    seq![99u8, 111u8, 110u8, 116u8, 101u8, 110u8, 116u8, 45u8, 108u8, 101u8, 110u8, 103u8, 116u8, 104u8]
}

/// The value of the first header line named `name`.
pub open spec fn first_value_named(hs: Seq<(Seq<u8>, Seq<u8>)>, name: Seq<u8>) -> Option<Seq<u8>>
    decreases hs.len(),
{
    if hs.len() == 0 {
        None
    } else if hs[0].0 == name {
        Some(hs[0].1)
    } else {
        first_value_named(hs.drop_first(), name)
    }
}

/// The length that the `content-length` header gives: 0 without one; `None`
/// when its value is not visible ASCII text holding a non-negative `i32`.
pub open spec fn length_content(hs: Seq<(Seq<u8>, Seq<u8>)>) -> Option<usize> {
    match first_value_named(hs, content_length_name()) {
        None => Some(0),
        Some(v) => if forall|j: int| 0 <= j < v.len() ==> text::is_visible_ascii(#[trigger] v[j]) {
            match text::parse_i32(text::ascii_chars(v)) {
                Some(n) => if n >= 0 {
                    Some(n as usize)
                } else {
                    None
                },
                None => None,
            }
        } else {
            None
        },
    }
}

/// The first header line named `name` gives the value that the lookup finds.
proof fn lemma_first_value_at(hs: Seq<(Seq<u8>, Seq<u8>)>, name: Seq<u8>, i: int)
    requires
        0 <= i < hs.len(),
        hs[i].0 == name,
        forall|k: int| 0 <= k < i ==> #[trigger] hs[k].0 != name,
    ensures
        first_value_named(hs, name) == Some(hs[i].1),
    decreases i,
{
    if i > 0 {
        let t = hs.drop_first();
        assert forall|k: int| 0 <= k < i - 1 implies #[trigger] t[k].0 != name by {
            assert(t[k] == hs[k + 1]);
        }
        lemma_first_value_at(t, name, i - 1);
    }
}

/// When the first header line named `content-length` holds the decimal
/// numeral of `n`, for any `n` from 0 to `i32::MAX`, the length read is
/// exactly `n`.
pub proof fn lemma_length_content_reads_numeral(hs: Seq<(Seq<u8>, Seq<u8>)>, i: int, n: nat)
    requires
        0 <= i < hs.len(),
        hs[i].0 == seq![99u8, 111u8, 110u8, 116u8, 101u8, 110u8, 116u8, 45u8, 108u8, 101u8, 110u8, 103u8, 116u8, 104u8],
        forall|k: int| 0 <= k < i ==> #[trigger] hs[k].0 != seq![99u8, 111u8, 110u8, 116u8, 101u8, 110u8, 116u8, 45u8, 108u8, 101u8, 110u8, 103u8, 116u8, 104u8],
        text::ascii_chars(hs[i].1) == text::decimal(n),
        n <= i32::MAX,
    ensures
        length_content(hs) == Some(n as usize),
{
    assert(content_length_name() == seq![99u8, 111u8, 110u8, 116u8, 101u8, 110u8, 116u8, 45u8, 108u8, 101u8, 110u8, 103u8, 116u8, 104u8]);
    lemma_first_value_at(hs, content_length_name(), i);
    text::lemma_decimal_digits(n);
    text::lemma_parse_decimal(n);
    let v = hs[i].1;
    assert forall|j: int| 0 <= j < v.len() implies text::is_visible_ascii(#[trigger] v[j]) by {
        assert(text::ascii_chars(v)[j] == v[j] as char);
        assert(text::is_digit(text::decimal(n)[j]));
    }
}

/// Taking in a parsed head: the status line text and headers come from it;
/// the bytes after it, which must be UTF-8 text, become the body; then the
/// `content-length` is read, and the message counts as complete when the
/// body is as long as that and not empty.
pub open spec fn applied(s: TrackingState, h: head::HeadView) -> (TrackingState, Result<(), ResponseError>) {
    let t = TrackingState { status: head::status_display(h.code, h.reason), headers: h.headers, ..s };
    if !valid_utf8(h.body) {
        (t, Err(ResponseError::BodyNotText))
    } else {
        let u = TrackingState { body: h.body, ..t };
        match length_content(h.headers) {
            None => (u, Err(ResponseError::ContentLengthInvalid)),
            Some(lc) => {
                let lb = h.body.len() as usize;
                (
                    TrackingState {
                        len_content: lc,
                        len_body: lb,
                        msg_complete: lc == lb && lb > 0,
                        ..u
                    },
                    Ok(()),
                )
            },
        }
    }
}

/// What `execute` does with `chunk` in state `s`: the chunk is kept and all
/// that has been received is parsed and taken in (see `applied`).
pub open spec fn executed(s: TrackingState, chunk: Seq<u8>) -> (TrackingState, Result<(), ResponseError>) {
    let f = TrackingState { buffer: s.buffer + chunk, ..s };
    match head::response_head(f.buffer) {
        HeadParse::Invalid => (f, Err(ResponseError::HeadInvalid)),
        HeadParse::Incomplete => (f, Err(ResponseError::HeadIncomplete)),
        HeadParse::Complete(h) => applied(f, h),
    }
}

/// Every chunk handed to `execute` is kept, whatever the outcome; after a
/// successful one the message is complete exactly when the body is as long
/// as the `content-length` says and not empty.
pub proof fn lemma_execute_keeps_chunk(s: TrackingState, chunk: Seq<u8>)
    ensures
        executed(s, chunk).0.buffer == s.buffer + chunk,
        executed(s, chunk).1 is Ok ==> (executed(s, chunk).0.msg_complete <==> (executed(
            s,
            chunk,
        ).0.len_content == executed(s, chunk).0.len_body && executed(s, chunk).0.len_body > 0)),
{
}

/// When all the received bytes hold a complete head followed by UTF-8 text
/// and a readable `content-length`, the parser gives back that head's status
/// line text and header lines, the bytes after it and their count, and the
/// length the header gives.
pub proof fn lemma_response_read_back(s: TrackingState, chunk: Seq<u8>, h: head::HeadView, lc: usize)
    requires
        head::response_head(s.buffer + chunk) == HeadParse::Complete(h),
        valid_utf8(h.body),
        length_content(h.headers) == Some(lc),
    ensures
        executed(s, chunk).1 is Ok,
        executed(s, chunk).0.status == head::status_display(h.code, h.reason),
        executed(s, chunk).0.headers == h.headers,
        executed(s, chunk).0.body == h.body,
        executed(s, chunk).0.len_content == lc,
        executed(s, chunk).0.len_body == h.body.len() as usize,
        executed(s, chunk).0.msg_complete <==> (lc == h.body.len() as usize && lc > 0),
{
}

/// A chunk whose head is not valid or not complete yet is kept, and the
/// parsed response stays as it was.
pub proof fn lemma_refused_chunk_keeps_response(s: TrackingState, chunk: Seq<u8>)
    requires
        !(head::response_head(s.buffer + chunk) is Complete),
    ensures
        executed(s, chunk).1 is Err,
        executed(s, chunk).0 == (TrackingState { buffer: s.buffer + chunk, ..s }),
{
}

/// The `content-length` of the header lines (see `length_content`).
fn length_content_of(fields: &[HeaderField]) -> (r: Option<usize>)
    ensures
        r == length_content(fields@.map_values(|h: HeaderField| h@)),
{
    let ghost hs = fields@.map_values(|h: HeaderField| h@);
    let name: Vec<u8> = vec![99, 111, 110, 116, 101, 110, 116, 45, 108, 101, 110, 103, 116, 104];
    assert(name@ =~= content_length_name());
    let mut i: usize = 0;
    assert(hs.skip(0) =~= hs);
    while i < fields.len()
        invariant
            i <= fields@.len(),
            hs == fields@.map_values(|h: HeaderField| h@),
            name@ == content_length_name(),
            first_value_named(hs, content_length_name()) == first_value_named(
                hs.skip(i as int),
                content_length_name(),
            ),
        decreases fields@.len() - i,
    {
        let f = &fields[i];
        proof {
            assert(hs.skip(i as int)[0] == f@);
            assert(hs.skip(i as int).drop_first() =~= hs.skip(i + 1));
        }
        if scan::bytes_equal(f.name.as_slice(), name.as_slice()) {
            let v = f.value.as_slice();
            assert(first_value_named(hs, content_length_name()) == Some(v@));
            let mut j: usize = 0;
            while j < v.len()
                invariant
                    first_value_named(hs, content_length_name()) == Some(v@),
                    hs == fields@.map_values(|h: HeaderField| h@),
                    j <= v@.len(),
                    forall|m: int| 0 <= m < j ==> text::is_visible_ascii(#[trigger] v@[m]),
                decreases v@.len() - j,
            {
                let b = v[j];
                if !((32 <= b && b < 127) || b == 9) {
                    assert(!text::is_visible_ascii(v@[j as int]));
                    return None;
                }
                j = j + 1;
            }
            let cs = text::ascii_char_vec(v);
            assert(cs@.subrange(0, cs@.len() as int) =~= cs@);
            return match text::parse_i32_chars(cs.as_slice(), 0, cs.len()) {
                Some(n) => if n >= 0 {
                    Some(n as usize)
                } else {
                    None
                },
                None => None,
            };
        }
        i = i + 1;
    }
    assert(hs.skip(i as int) =~= Seq::<(Seq<u8>, Seq<u8>)>::empty());
    Some(0)
}

impl ResponseParser {
    /// A parser that has received nothing.
    pub fn py_new() -> (p: Self)
        ensures
            p@ == initial(),
            head::fields_text(p@.headers),
    {
        let p = ResponseParser {
            status: String::new(),
            headers: Vec::new(),
            body: String::new(),
            len_content: 0,
            len_body: 0,
            fl_msg_complete: false,
            buffer: Vec::new(),
        };
        proof {
            assert(p@.headers =~= Seq::empty());
            assert(encode_utf8(Seq::<char>::empty()) =~= Seq::<u8>::empty());
        }
        p
    }

    /// Takes in the next chunk and parses all received so far (see `executed`).
    ///
    /// An `Err` means that the response cannot be taken in as it stands (its
    /// head is not valid HTTP or not complete yet, its body is not text, or
    /// its `content-length` is not a non-negative number); the parser is left
    /// as it was when that became clear. After a success the body is the tail
    /// of the received bytes and its length is the one counted.
    pub fn execute(&mut self, a_resp: &[u8]) -> (r: Result<(), ResponseError>)
        ensures
            (final(self)@, r) == executed(old(self)@, a_resp@),
            r is Ok ==> scan::ends_with(final(self)@.buffer, final(self)@.body)
                && final(self)@.len_body == final(self)@.body.len(),
    {
        let ghost old_buffer = self.buffer@;
        self.buffer.extend_from_slice(a_resp);
        assert(self.buffer@ =~= old_buffer + a_resp@);
        let b_resp = slice_to_vec(self.buffer.as_slice());
        let n = b_resp.len();
        match head::parse_response_head(b_resp.as_slice()) {
            Err(_) => Err(ResponseError::HeadInvalid),
            Ok(None) => Err(ResponseError::HeadIncomplete),
            Ok(Some(h)) => {
                let ghost hv = h@;
                let r = self.apply_head(h);
                proof {
                    if r is Ok {
                        assert(self@.body == hv.body);
                        assert(hv.body.len() <= n);
                        assert(self@.buffer == b_resp@);
                    }
                }
                r
            },
        }
    }

    /// Takes in a parsed head (see `applied`).
    pub fn apply_head(&mut self, h: head::ResponseHead) -> (r: Result<(), ResponseError>)
        ensures
            (final(self)@, r) == applied(old(self)@, h@),
    {
        let ghost hv = h@;
        let head::ResponseHead { code, reason, headers, headers_debug: _, body } = h;
        self.status = head::status_text(code, &reason);
        self.headers = headers;
        proof {
            assert(self@.headers =~= hv.headers);
        }
        match text::utf8_string(body.as_slice()) {
            Some(t) => {
                self.body = t;
                self.upd_msg_complete()
            },
            None => Err(ResponseError::BodyNotText),
        }
    }

    /// The `content-length` of the last parsed response (see
    /// `length_content`); `None` where it is not a non-negative `i32`
    /// numeral.
    pub fn get_length_content(&self) -> (r: Option<usize>)
        ensures
            r == length_content(self@.headers),
    {
        length_content_of(self.headers.as_slice())
    }

    /// Reads the `content-length` and the body length, and notes whether the
    /// message is complete: the body is as long as the `content-length` says
    /// and not empty. `Err` where the `content-length` cannot be read.
    pub fn upd_msg_complete(&mut self) -> (r: Result<(), ResponseError>)
        ensures
            match length_content(old(self)@.headers) {
                None => final(self)@ == old(self)@ && r == Err::<(), ResponseError>(
                    ResponseError::ContentLengthInvalid,
                ),
                Some(lc) => r == Ok::<(), ResponseError>(()) && final(self)@ == (TrackingState {
                    len_content: lc,
                    len_body: old(self)@.body.len() as usize,
                    msg_complete: lc == old(self)@.body.len() as usize && old(
                        self,
                    )@.body.len() as usize > 0,
                    ..old(self)@
                }),
            },
    {
        let len_content = match self.get_length_content() {
            Some(n) => n,
            None => return Err(ResponseError::ContentLengthInvalid),
        };
        self.len_content = len_content;
        self.len_body = self.body.as_str().len();
        if self.len_content == self.len_body && self.len_body > 0 {
            self.fl_msg_complete = true;
        } else {
            self.fl_msg_complete = false;
        }
        Ok(())
    }

    /// The status line text of the last parsed response.
    pub fn get_status_code(&self) -> (s: String)
        ensures
            s@ == self@.status,
    {
        self.status.clone()
    }

    /// Whether every header line is text, so that `get_headers` can give them.
    pub fn headers_are_text(&self) -> (b: bool)
        ensures
            b == head::fields_text(self@.headers),
    {
        head::fields_are_text(self.headers.as_slice())
    }

    /// The header lines of the last parsed response as (name, value) text.
    pub fn get_headers(&self) -> (res: Vec<(String, String)>)
        requires
            head::fields_text(self@.headers),
        ensures
            res@.len() == self@.headers.len(),
            forall|i: int|
                0 <= i < res@.len() ==> (#[trigger] res@[i].0@, res@[i].1@) == head::plain_entry(
                    self@.headers[i],
                ),
    {
        head::plain_entries(self.headers.as_slice())
    }

    /// The body of the last parsed response, as text.
    pub fn recv_body(&self) -> (s: String)
        ensures
            encode_utf8(s@) == self@.body,
    {
        self.body.clone()
    }

    /// The `content-length` of the last parsed response.
    pub fn get_len_content(&self) -> (n: usize)
        ensures
            n == self@.len_content,
    {
        self.len_content
    }

    /// The number of bytes after the head of the last parsed response.
    pub fn get_len_body(&self) -> (n: usize)
        ensures
            n == self@.len_body,
    {
        self.len_body
    }

    /// Whether the response is complete.
    pub fn is_message_complete(&self) -> (b: bool)
        ensures
            b == self@.msg_complete,
    {
        self.fl_msg_complete
    }

    /// Whether the last parsed response has a body.
    pub fn is_partial_body(&self) -> (b: bool)
        ensures
            b == (self@.len_body > 0),
    {
        self.len_body > 0
    }
}

} // verus!
