//! The calls into `httparse` that read the head (start line and headers) of a
//! request or a response out of a byte buffer.
use vstd::prelude::*;
use crate::headers::HeaderSeq;
use crate::text::{ascii_bytes, decimal_text};
use httparse::Error as HttparseError;

verus! {

#[verifier::external_type_specification]
#[verifier::external_body]
pub struct ExHttparseError(HttparseError);

/// Why `httparse` refused a head: one variant for each of `httparse::Error`'s.
#[derive(Debug, Clone, Copy, PartialEq, Eq, Structural)]
pub enum ParseError {
    /// An invalid byte in a header name.
    HeaderName,
    /// An invalid byte in a header value.
    HeaderValue,
    /// An invalid byte where a line break belongs.
    NewLine,
    /// An invalid byte in a response status.
    Status,
    /// An invalid byte where a token belongs.
    Token,
    /// More headers than there are slots for.
    TooManyHeaders,
    /// An invalid byte in the HTTP version.
    Version,
}

/// The parts of a request head that `httparse::Request` fills in.
pub struct ParsedRequestHead {
    pub method: Option<Vec<u8>>,
    pub path: Option<Vec<u8>>,
    pub headers: Vec<(Vec<u8>, Vec<u8>)>,
}

/// The parts of a response head that `httparse::Response` fills in.
pub struct ParsedResponseHead {
    pub code: Option<u16>,
    pub headers: Vec<(Vec<u8>, Vec<u8>)>,
}

/// What one call of `parse` gives: a complete head and the number of bytes it
/// took, a head that needs more bytes, or an error.
pub enum HeadParse<H> {
    Complete(H, usize),
    Partial,
    Failed(ParseError),
}

pub struct RequestHeadView {
    pub method: Option<Seq<u8>>,
    pub path: Option<Seq<u8>>,
    pub headers: HeaderSeq,
}

pub struct ResponseHeadView {
    pub code: Option<u16>,
    pub headers: HeaderSeq,
}

/// The outcome of a head parse, as the specifications see it.
pub enum HeadOutcome<H> {
    Complete(H, nat),
    Partial,
    Failed(ParseError),
}

pub open spec fn pairs_view(v: Seq<(Vec<u8>, Vec<u8>)>) -> HeaderSeq {
    v.map_values(|e: (Vec<u8>, Vec<u8>)| (e.0@, e.1@))
}

pub open spec fn opt_bytes_view(o: Option<Vec<u8>>) -> Option<Seq<u8>> {
    match o {
        Some(v) => Some(v@),
        None => None,
    }
}

impl ParsedRequestHead {
    pub open spec fn view(&self) -> RequestHeadView {
        RequestHeadView {
            method: opt_bytes_view(self.method),
            path: opt_bytes_view(self.path),
            headers: pairs_view(self.headers@),
        }
    }
}

impl ParsedResponseHead {
    pub open spec fn view(&self) -> ResponseHeadView {
        ResponseHeadView { code: self.code, headers: pairs_view(self.headers@) }
    }
}

pub open spec fn request_outcome(p: HeadParse<ParsedRequestHead>) -> HeadOutcome<RequestHeadView> {
    match p {
        HeadParse::Complete(h, n) => HeadOutcome::Complete(h.view(), n as nat),
        HeadParse::Partial => HeadOutcome::Partial,
        HeadParse::Failed(e) => HeadOutcome::Failed(e),
    }
}

pub open spec fn response_outcome(p: HeadParse<ParsedResponseHead>) -> HeadOutcome<ResponseHeadView> {
    match p {
        HeadParse::Complete(h, n) => HeadOutcome::Complete(h.view(), n as nat),
        HeadParse::Partial => HeadOutcome::Partial,
        HeadParse::Failed(e) => HeadOutcome::Failed(e),
    }
}

/// A byte that `httparse` takes in a token: a method or a header name.
pub open spec fn is_token_byte(b: u8) -> bool {
    ||| 65 <= b <= 90
    ||| 97 <= b <= 122
    ||| 48 <= b <= 57
    ||| b == 33 || b == 35 || b == 36 || b == 37 || b == 38 || b == 39 || b == 42 || b == 43
    ||| b == 45 || b == 46 || b == 94 || b == 95 || b == 96 || b == 124 || b == 126
}

/// A non-empty run of token bytes.
pub open spec fn token_ok(s: Seq<u8>) -> bool {
    s.len() > 0 && forall|i: int| 0 <= i < s.len() ==> is_token_byte(#[trigger] s[i])
}

/// A non-empty run of visible ASCII: a request target `httparse` takes as
/// it stands.
pub open spec fn target_ok(s: Seq<u8>) -> bool {
    s.len() > 0 && forall|i: int| 0 <= i < s.len() ==> 33 <= #[trigger] s[i] <= 126
}

/// A space or a tab, which `httparse` strips around a header value.
pub open spec fn is_blank(b: u8) -> bool {
    b == 32 || b == 9
}

/// A header value `httparse` reads back unchanged: tabs, visible ASCII,
/// spaces and bytes from 128 up, not starting or ending with a space or tab.
pub open spec fn wire_value_ok(s: Seq<u8>) -> bool {
    &&& forall|i: int| 0 <= i < s.len() ==> (#[trigger] s[i] == 9 || (32 <= s[i] && s[i] != 127))
    &&& s.len() > 0 ==> !is_blank(s[0]) && !is_blank(s.last())
}

/// The header lines of a head: `name: value` and a line break for each.
pub open spec fn header_lines(hs: HeaderSeq) -> Seq<u8>
    decreases hs.len(),
{
    if hs.len() == 0 {
        Seq::empty()
    } else {
        header_lines(hs.drop_last()) + hs.last().0 + seq![58u8, 32u8] + hs.last().1 + seq![13u8, 10u8]
    }
}

/// A request head: the request line `method target HTTP/1.1`, the header
/// lines, and an empty line.
pub open spec fn request_head_text(method: Seq<u8>, target: Seq<u8>, hs: HeaderSeq) -> Seq<u8> {
    method + seq![32u8] + target + seq![32u8] + ascii_bytes("HTTP/1.1"@) + seq![13u8, 10u8] + header_lines(hs)
        + seq![13u8, 10u8]
}

/// Parts that `httparse` reads back as they are: a token method, a visible
/// ASCII target, and headers with token names and values that need no
/// stripping.
pub open spec fn request_parts_wire_ok(method: Seq<u8>, target: Seq<u8>, hs: HeaderSeq) -> bool {
    &&& token_ok(method)
    &&& target_ok(target)
    &&& forall|i: int| 0 <= i < hs.len() ==> token_ok(#[trigger] hs[i].0) && wire_value_ok(hs[i].1)
}

/// Such parts, with at most `max_headers` headers.
pub open spec fn request_parts_ok(method: Seq<u8>, target: Seq<u8>, hs: HeaderSeq, max_headers: usize) -> bool {
    request_parts_wire_ok(method, target, hs) && hs.len() <= max_headers
}

/// `buf` starts with the head made of these parts.
pub open spec fn starts_with_request_head(buf: Seq<u8>, method: Seq<u8>, target: Seq<u8>, hs: HeaderSeq) -> bool {
    let text = request_head_text(method, target, hs);
    &&& request_parts_wire_ok(method, target, hs)
    &&& text.len() <= buf.len()
    &&& buf.take(text.len() as int) == text
}

/// `buf` is a proper beginning of the head made of these parts: the head has
/// not all arrived yet.
pub open spec fn request_head_prefix(buf: Seq<u8>, method: Seq<u8>, target: Seq<u8>, hs: HeaderSeq) -> bool {
    let text = request_head_text(method, target, hs);
    &&& request_parts_wire_ok(method, target, hs)
    &&& buf.len() < text.len()
    &&& text.take(buf.len() as int) == buf
}

/// A byte `httparse` takes in a reason phrase: a tab, a space, visible ASCII
/// or a byte from 128 up.
pub open spec fn is_reason_text_byte(b: u8) -> bool {
    b == 9 || (32 <= b && b != 127)
}

pub open spec fn reason_text_ok(s: Seq<u8>) -> bool {
    forall|i: int| 0 <= i < s.len() ==> is_reason_text_byte(#[trigger] s[i])
}

/// A response head: the status line `HTTP/1.1 code reason`, the header
/// lines, and an empty line.
pub open spec fn response_head_text(code: u16, reason: Seq<u8>, hs: HeaderSeq) -> Seq<u8> {
    ascii_bytes("HTTP/1.1"@) + seq![32u8] + decimal_text(code as nat) + seq![32u8] + reason + seq![13u8, 10u8]
        + header_lines(hs) + seq![13u8, 10u8]
}

/// Parts that `httparse` reads back as they are: a three-digit code, a
/// reason of reason bytes, and headers with token names and values that need
/// no stripping.
pub open spec fn response_parts_wire_ok(code: u16, reason: Seq<u8>, hs: HeaderSeq) -> bool {
    &&& 100 <= code <= 999
    &&& reason_text_ok(reason)
    &&& forall|i: int| 0 <= i < hs.len() ==> token_ok(#[trigger] hs[i].0) && wire_value_ok(hs[i].1)
}

/// `buf` starts with the response head made of these parts.
pub open spec fn starts_with_response_head(buf: Seq<u8>, code: u16, reason: Seq<u8>, hs: HeaderSeq) -> bool {
    let text = response_head_text(code, reason, hs);
    &&& response_parts_wire_ok(code, reason, hs)
    &&& text.len() <= buf.len()
    &&& buf.take(text.len() as int) == text
}

/// `buf` is a proper beginning of the response head made of these parts.
pub open spec fn response_head_prefix(buf: Seq<u8>, code: u16, reason: Seq<u8>, hs: HeaderSeq) -> bool {
    let text = response_head_text(code, reason, hs);
    &&& response_parts_wire_ok(code, reason, hs)
    &&& buf.len() < text.len()
    &&& text.take(buf.len() as int) == buf
}

/// What `httparse::Request::parse` makes of `buf` with room for `max_headers`
/// headers.
pub uninterp spec fn httparse_request(buf: Seq<u8>, max_headers: usize) -> HeadOutcome<RequestHeadView>;

/// What `httparse::Response::parse` makes of `buf` with room for `max_headers`
/// headers.
pub uninterp spec fn httparse_response(buf: Seq<u8>, max_headers: usize) -> HeadOutcome<ResponseHeadView>;

/// Runs `httparse::Request::parse` on `buf` with `max_headers` header slots.
/// The outcome is named by `httparse_request`; the crate's source shows that a
/// complete head never reports more bytes than the buffer holds nor more
/// headers than there are slots. A refusal is reported as the `ParseError` of
/// the same name as the `httparse::Error`. The third clause is the crate's
/// grammar with its default configuration (`parse_method`, `parse_uri`,
/// `parse_version`, `newline!` and `parse_headers_iter_uninit`): a buffer that
/// starts with a head of that form is complete after the head, with exactly
/// its method, target and (name, value) pairs, when they fit the header slots;
/// with more headers than slots the header after the last slot is read and
/// the parse fails with `TooManyHeaders`. A proper beginning of such a head,
/// with no more headers than slots, is partial: every step of that grammar
/// answers `Partial` when the bytes run out (`next!`, `expect!`).
#[verifier::external_body]
pub(crate) fn parse_request_head(buf: &[u8], max_headers: usize) -> (r: HeadParse<ParsedRequestHead>)
    ensures
        request_outcome(r) == httparse_request(buf@, max_headers),
        r matches HeadParse::Complete(h, n) ==> n <= buf@.len() && h.headers@.len() <= max_headers,
        forall|m: Seq<u8>, p: Seq<u8>, hs: HeaderSeq|
            #[trigger] starts_with_request_head(buf@, m, p, hs) ==> request_outcome(r) == if hs.len()
                <= max_headers {
                HeadOutcome::Complete(
                    RequestHeadView { method: Some(m), path: Some(p), headers: hs },
                    request_head_text(m, p, hs).len(),
                )
            } else {
                HeadOutcome::Failed(ParseError::TooManyHeaders)
            },
        forall|m: Seq<u8>, p: Seq<u8>, hs: HeaderSeq|
            #[trigger] request_head_prefix(buf@, m, p, hs) && hs.len() <= max_headers ==> request_outcome(r)
                == HeadOutcome::<RequestHeadView>::Partial,
{
    let mut headers = vec![httparse::EMPTY_HEADER; max_headers];
    let mut req = httparse::Request::new(&mut headers);
    match req.parse(buf) {
        Ok(httparse::Status::Complete(n)) => HeadParse::Complete(ParsedRequestHead {
            method: req.method.map(|m| m.as_bytes().to_vec()),
            path: req.path.map(|p| p.as_bytes().to_vec()),
            headers: req.headers.iter().map(|h| (h.name.as_bytes().to_vec(), h.value.to_vec())).collect(),
        }, n),
        Ok(httparse::Status::Partial) => HeadParse::Partial,
        Err(e) => HeadParse::Failed(parse_error_of(e)),
    }
}

/// Runs `httparse::Response::parse` on `buf` with `max_headers` header slots.
/// The outcome is named by `httparse_response`, with the same two facts as for
/// requests. The last two clauses are the crate's grammar with its default
/// configuration (`parse_version`, `space!`, `parse_code`, `parse_reason` and
/// `parse_headers_iter_uninit`): a buffer that starts with a head of that form
/// is complete after it, with its code and (name, value) pairs, when they fit
/// the header slots, and fails with `TooManyHeaders` otherwise; a proper
/// beginning of such a head is partial.
#[verifier::external_body]
pub(crate) fn parse_response_head(buf: &[u8], max_headers: usize) -> (r: HeadParse<ParsedResponseHead>)
    ensures
        response_outcome(r) == httparse_response(buf@, max_headers),
        r matches HeadParse::Complete(h, n) ==> n <= buf@.len() && h.headers@.len() <= max_headers,
        forall|c: u16, reason: Seq<u8>, hs: HeaderSeq|
            #[trigger] starts_with_response_head(buf@, c, reason, hs) ==> response_outcome(r) == if hs.len()
                <= max_headers {
                HeadOutcome::Complete(
                    ResponseHeadView { code: Some(c), headers: hs },
                    response_head_text(c, reason, hs).len(),
                )
            } else {
                HeadOutcome::Failed(ParseError::TooManyHeaders)
            },
        forall|c: u16, reason: Seq<u8>, hs: HeaderSeq|
            #[trigger] response_head_prefix(buf@, c, reason, hs) && hs.len() <= max_headers
                ==> response_outcome(r) == HeadOutcome::<ResponseHeadView>::Partial,
{
    let mut headers = vec![httparse::EMPTY_HEADER; max_headers];
    let mut resp = httparse::Response::new(&mut headers);
    match resp.parse(buf) {
        Ok(httparse::Status::Complete(n)) => HeadParse::Complete(ParsedResponseHead {
            code: resp.code,
            headers: resp.headers.iter().map(|h| (h.name.as_bytes().to_vec(), h.value.to_vec())).collect(),
        }, n),
        Ok(httparse::Status::Partial) => HeadParse::Partial,
        Err(e) => HeadParse::Failed(parse_error_of(e)),
    }
}

/// The `ParseError` named like a given `httparse::Error`.
#[verifier::external_body]
fn parse_error_of(e: httparse::Error) -> ParseError {
    match e {
        httparse::Error::HeaderName => ParseError::HeaderName,
        httparse::Error::HeaderValue => ParseError::HeaderValue,
        httparse::Error::NewLine => ParseError::NewLine,
        httparse::Error::Status => ParseError::Status,
        httparse::Error::Token => ParseError::Token,
        httparse::Error::TooManyHeaders => ParseError::TooManyHeaders,
        httparse::Error::Version => ParseError::Version,
    }
}

} // verus!
