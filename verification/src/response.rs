//! HTTP responses: parsing a response head, reading a whole response from an
//! upstream server, the status line, error pages, and the bytes a response is
//! sent as.
use vstd::prelude::*;
use crate::head_parse::{
    pairs_view, header_lines, is_reason_text_byte, reason_text_ok, response_head_prefix, response_head_text,
    response_parts_wire_ok, starts_with_response_head,
    HeadOutcome, HeadParse, ParseError, ParsedResponseHead, ResponseHeadView, httparse_response,
    parse_response_head,
};
use crate::headers::{
    HeaderList, HeaderSeq, LengthField, build_header_list, build_headers, content_length_field,
    content_length_of, headers_grouped, headers_wf, lemma_build_headers_grouped, lemma_lower_name,
    raw_headers_ok,
};
use crate::http_model::{
    canonical_reason, header_name_from_bytes, header_name_spec, header_value_ok, http11_text,
    is_reason_byte, lower_bytes, reason_phrase, status_from_u16, status_ok,
};
use crate::text::{
    all_ascii, append_bytes, ascii_bytes, ascii_chars, bytes_equal, copy_bytes,
    copy_range, decimal_text, literal_bytes, push_decimal, string_from_ascii,
};

verus! {

/// The most bytes a response head may take.
pub const MAX_HEADERS_SIZE: usize = 8000;

/// The largest body a response may have.
pub const MAX_BODY_SIZE: usize = 10000000;

/// The most headers a response head may hold.
pub const MAX_NUM_HEADERS: usize = 32;

/// Why a response could not be read.
#[derive(Debug)]
pub enum Error {
    /// The server closed the connection before a whole head arrived.
    IncompleteResponse,
    /// The bytes are not an HTTP response head: `httparse` refused them for
    /// this reason, or `http` refused the status or a header of a complete
    /// head (reported as `TooManyHeaders`).
    MalformedResponse(ParseError),
    /// The `content-length` header is not a number.
    InvalidContentLength,
    /// The body does not have the announced length.
    ContentLengthMismatch,
    /// The body is announced or found larger than `MAX_BODY_SIZE`.
    ResponseBodyTooLarge,
    /// Reading or writing the connection failed.
    ConnectionError(std::io::Error),
}

/// The kind of an `Error`, without the values from other crates it may carry.
pub enum ErrorKind {
    IncompleteResponse,
    MalformedResponse(ParseError),
    InvalidContentLength,
    ContentLengthMismatch,
    ResponseBodyTooLarge,
    ConnectionError,
}

impl Error {
    pub open spec fn kind(&self) -> ErrorKind {
        match self {
            Error::IncompleteResponse => ErrorKind::IncompleteResponse,
            Error::MalformedResponse(e) => ErrorKind::MalformedResponse(*e),
            Error::InvalidContentLength => ErrorKind::InvalidContentLength,
            Error::ContentLengthMismatch => ErrorKind::ContentLengthMismatch,
            Error::ResponseBodyTooLarge => ErrorKind::ResponseBodyTooLarge,
            Error::ConnectionError(_) => ErrorKind::ConnectionError,
        }
    }
}

/// An HTTP/1.1 response: status code, headers and body.
pub struct Response {
    pub status: u16,
    pub headers: HeaderList,
    pub body: Vec<u8>,
}

pub struct ResponseView {
    pub status: u16,
    pub headers: HeaderSeq,
    pub body: Seq<u8>,
}

impl View for Response {
    type V = ResponseView;

    open spec fn view(&self) -> ResponseView {
        ResponseView { status: self.status, headers: self.headers@, body: self.body@ }
    }
}

/// What an `http::Response` guarantees: a valid status code and normalized
/// header names with valid values.
pub open spec fn response_wf(r: ResponseView) -> bool {
    status_ok(r.status) && headers_wf(r.headers)
}

/// The response that `http::Response::builder` makes of a parsed head, with an
/// empty body, or `None` where the builder refuses a part of it.
pub open spec fn response_of_head(h: ResponseHeadView) -> Option<ResponseView> {
    if h.code.is_some() && status_ok(h.code.unwrap()) && raw_headers_ok(h.headers) {
        Some(ResponseView { status: h.code.unwrap(), headers: build_headers(h.headers), body: Seq::empty() })
    } else {
        None
    }
}

/// Turns a parsed head into a response with an empty body; `None` where
/// `http` refuses its status or a header.
pub fn build_response(head: ParsedResponseHead) -> (r: Option<Response>)
    requires
        head.headers@.len() <= MAX_NUM_HEADERS,
    ensures
        r.is_some() == response_of_head(head.view()).is_some(),
        r matches Some(resp) ==> response_of_head(head.view()) == Some(resp@) && response_wf(resp@),
{
    let status = match head.code {
        Some(c) => c,
        None => return None,
    };
    if !status_from_u16(status) {
        return None;
    }
    let headers = match build_header_list(&head.headers) {
        Some(l) => l,
        None => return None,
    };
    let resp = Response { status, headers, body: Vec::new() };
    assert(resp@.body =~= Seq::<u8>::empty());
    Some(resp)
}

/// Reads a response head out of `buffer`: `Ok(Some((response, n)))` when a
/// whole head is there (`n` is its length, the body is left empty), `Ok(None)`
/// when more bytes are needed, `MalformedResponse` when the bytes are no
/// response head or `http` refuses its status code or a header.
pub fn parse_response(buffer: &[u8]) -> (r: Result<Option<(Response, usize)>, Error>)
    ensures
        match httparse_response(buffer@, MAX_NUM_HEADERS) {
            HeadOutcome::Failed(e) => r matches Err(Error::MalformedResponse(f)) && f == e,
            HeadOutcome::Partial => r matches Ok(None),
            HeadOutcome::Complete(h, n) => match response_of_head(h) {
                Some(v) => r matches Ok(Some((resp, m))) && m == n && resp@ == v && response_wf(resp@)
                    && n <= buffer@.len(),
                None => r matches Err(Error::MalformedResponse(f)) && f == ParseError::TooManyHeaders,
            },
        },
        forall|c: u16, reason: Seq<u8>, hs: HeaderSeq|
            #[trigger] starts_with_response_head(buffer@, c, reason, hs) ==> if hs.len() <= MAX_NUM_HEADERS {
                match response_of_head(ResponseHeadView { code: Some(c), headers: hs }) {
                    Some(v) => r matches Ok(Some((resp, n))) && resp@ == v && n == response_head_text(
                        c,
                        reason,
                        hs,
                    ).len(),
                    None => r matches Err(Error::MalformedResponse(f)) && f == ParseError::TooManyHeaders,
                }
            } else {
                r matches Err(Error::MalformedResponse(f)) && f == ParseError::TooManyHeaders
            },
        forall|c: u16, reason: Seq<u8>, hs: HeaderSeq|
            #[trigger] response_head_prefix(buffer@, c, reason, hs) && hs.len() <= MAX_NUM_HEADERS ==> r matches Ok(
                None,
            ),
{
    match parse_response_head(buffer, MAX_NUM_HEADERS) {
        HeadParse::Failed(e) => Err(Error::MalformedResponse(e)),
        HeadParse::Partial => Ok(None),
        HeadParse::Complete(head, len) => match build_response(head) {
            Some(response) => Ok(Some((response, len))),
            None => Err(Error::MalformedResponse(ParseError::TooManyHeaders)),
        },
    }
}

/// `{}` of a status code: the number and the canonical reason phrase, or
/// `<unknown status code>` for a code without one.
pub open spec fn status_text(code: u16) -> Seq<u8> {
    decimal_text(code as nat) + seq![32u8] + status_phrase(code)
}

/// The canonical reason phrase, or `<unknown status code>`.
pub open spec fn status_phrase(code: u16) -> Seq<u8> {
    match reason_phrase(code) {
        Some(p) => p,
        None => ascii_bytes("<unknown status code>"@),
    }
}

/// The status line that `format_response_line` gives: the version, the
/// status code with its reason phrase, and a line break.
pub open spec fn status_line(code: u16) -> Seq<u8> {
    ascii_bytes("HTTP/1.1"@) + seq![32u8] + status_text(code) + seq![13u8, 10u8]
}

proof fn lemma_decimal_ascii(n: nat)
    ensures
        all_ascii(decimal_text(n)),
    decreases n,
{
    if n >= 10 {
        lemma_decimal_ascii(n / 10);
    }
}

proof fn lemma_concat_ascii(a: Seq<u8>, b: Seq<u8>)
    requires
        all_ascii(a),
        all_ascii(b),
    ensures
        all_ascii(a + b),
{
    assert forall|i: int| 0 <= i < (a + b).len() implies #[trigger] (a + b)[i] < 128 by {
        if i >= a.len() {
            assert((a + b)[i] == b[i - a.len()]);
        }
    }
}

/// The bytes of the status line.
fn status_line_bytes(code: u16) -> (r: Vec<u8>)
    requires
        status_ok(code),
    ensures
        r@ == status_line(code),
        all_ascii(r@),
        reason_text_ok(status_phrase(code)),
{
    let mut line = http11_text();
    line.push(32);
    push_decimal(&mut line, code as u64);
    line.push(32);
    let reason = canonical_reason(code);
    proof {
        reveal_strlit("<unknown status code>");
    }
    let unknown = literal_bytes("<unknown status code>");
    match &reason {
        Some(p) => append_bytes(&mut line, p.as_slice()),
        None => append_bytes(&mut line, unknown.as_slice()),
    }
    line.push(13);
    line.push(10);
    proof {
        let v = ascii_bytes("HTTP/1.1"@);
        let phrase = match reason_phrase(code) {
            Some(p) => p,
            None => ascii_bytes("<unknown status code>"@),
        };
        assert(all_ascii(phrase)) by {
            if reason.is_some() {
                assert forall|i: int| 0 <= i < phrase.len() implies #[trigger] phrase[i] < 128 by {
                    assert(is_reason_byte(phrase[i]));
                }
            }
        }
        lemma_decimal_ascii(code as nat);
        let sp = seq![32u8];
        let nl = seq![13u8, 10u8];
        assert(all_ascii(sp));
        assert(all_ascii(nl));
        lemma_concat_ascii(v, sp);
        lemma_concat_ascii(v + sp, decimal_text(code as nat));
        lemma_concat_ascii(v + sp + decimal_text(code as nat), sp);
        lemma_concat_ascii(v + sp + decimal_text(code as nat) + sp, phrase);
        lemma_concat_ascii(v + sp + decimal_text(code as nat) + sp + phrase, nl);
        assert(line@ =~= v + sp + decimal_text(code as nat) + sp + phrase + nl);
        assert(line@ =~= status_line(code));
        assert(reason_text_ok(phrase)) by {
            assert forall|i: int| 0 <= i < phrase.len() implies is_reason_text_byte(#[trigger] phrase[i]) by {
                if reason.is_some() {
                    assert(is_reason_byte(phrase[i]));
                } else {
                    assert(phrase =~= seq![
                        60u8, 117u8, 110u8, 107u8, 110u8, 111u8, 119u8, 110u8, 32u8, 115u8, 116u8, 97u8,
                        116u8, 117u8, 115u8, 32u8, 99u8, 111u8, 100u8, 101u8, 62u8,
                    ]);
                }
            }
        }
    }
    line
}

/// The status line of a response, ending in a line break, e.g.
/// `HTTP/1.1 200 OK` and `\r\n`.
pub fn format_response_line(response: &Response) -> (r: String)
    requires
        status_ok(response.status),
    ensures
        r@ == ascii_chars(status_line(response.status)),
{
    string_from_ascii(status_line_bytes(response.status))
}

/// The body of an error page: the version, the status code with its reason
/// phrase, and two line breaks.
pub open spec fn error_page(code: u16) -> Seq<u8> {
    ascii_bytes("HTTP/1.1"@) + seq![32u8] + status_text(code) + seq![13u8, 10u8, 13u8, 10u8]
}

/// The header name `content-type` and the value `text/plain`.
pub open spec fn content_type_header() -> (Seq<u8>, Seq<u8>) {
    (ascii_bytes("content-type"@), ascii_bytes("text/plain"@))
}

/// An error response for `status`: a `content-type: text/plain` header and a
/// body that repeats the status line.
pub fn make_http_error(status: u16) -> (r: Response)
    requires
        status_ok(status),
    ensures
        r@.status == status,
        r@.headers == seq![content_type_header()],
        r@.body == error_page(status),
        response_wf(r@),
{
    let mut body = status_line_bytes(status);
    body.push(13);
    body.push(10);
    assert(body@ =~= error_page(status));
    proof {
        reveal_strlit("Content-Type");
        reveal_strlit("content-type");
        reveal_strlit("text/plain");
    }
    let name_text = literal_bytes("Content-Type");
    let value = literal_bytes("text/plain");
    let mut headers = HeaderList::new();
    proof {
        assert(lower_bytes(name_text@) =~= ascii_bytes("content-type"@));
        assert(header_name_spec(name_text@) == Some(ascii_bytes("content-type"@)));
    }
    match header_name_from_bytes(name_text.as_slice()) {
        Some(name) => {
            proof {
                assert(header_value_ok(value@));
                lemma_lower_name(name_text@);
                crate::headers::lemma_append_wf(headers@, name@, value@);
                crate::headers::lemma_last_index(headers@, name@);
            }
            headers.append(name, value);
            assert(headers@ =~= seq![content_type_header()]);
        },
        None => {},
    }
    Response { status, headers, body }
}

/// Law: an error page's body is its status line followed by an empty line, so
/// the client sees the same text as `format_response_line` prints.
pub proof fn lemma_error_page_is_status_line(code: u16)
    ensures
        error_page(code) == status_line(code) + seq![13u8, 10u8],
{
    assert(error_page(code) =~= status_line(code) + seq![13u8, 10u8]);
}

pub open spec fn response_header_pieces(hs: HeaderSeq) -> Seq<Seq<u8>>
    decreases hs.len(),
{
    if hs.len() == 0 {
        Seq::empty()
    } else {
        response_header_pieces(hs.drop_last()).push(hs.last().0 + seq![58u8, 32u8] + hs.last().1 + seq![13u8, 10u8])
    }
}

/// The pieces a response is written in, one write each: the status line,
/// one `name: value` line per header, an empty line, and the body when there
/// is one.
pub open spec fn response_pieces(r: ResponseView) -> Seq<Seq<u8>> {
    let head = seq![status_line(r.status)] + response_header_pieces(r.headers) + seq![seq![13u8, 10u8]];
    if r.body.len() == 0 {
        head
    } else {
        head.push(r.body)
    }
}

fn crlf() -> (r: Vec<u8>)
    ensures
        r@ == seq![13u8, 10u8],
{
    let mut v = Vec::new();
    v.push(13);
    v.push(10);
    assert(v@ =~= seq![13u8, 10u8]);
    v
}

/// The pieces a response is written in, in order.
pub fn response_write_pieces(response: &Response) -> (r: Vec<Vec<u8>>)
    requires
        status_ok(response.status),
    ensures
        r@.map_values(|p: Vec<u8>| p@) == response_pieces(response@),
        reason_text_ok(status_phrase(response.status)),
{
    let mut out: Vec<Vec<u8>> = Vec::new();
    out.push(status_line_bytes(response.status));
    let ghost hs = response@.headers;
    let pairs = response.headers.pairs();
    let mut i: usize = 0;
    while i < pairs.len()
        invariant
            hs == response@.headers,
            pairs_view(pairs@) == hs,
            i <= hs.len(),
            out@.map_values(|p: Vec<u8>| p@) == seq![status_line(response@.status)] + response_header_pieces(
                hs.take(i as int),
            ),
        decreases hs.len() - i,
    {
        let ghost prev = out@.map_values(|p: Vec<u8>| p@);
        assert(hs[i as int] == (pairs@[i as int].0@, pairs@[i as int].1@));
        let mut line = copy_bytes(pairs[i].0.as_slice());
        line.push(58);
        line.push(32);
        append_bytes(&mut line, pairs[i].1.as_slice());
        line.push(13);
        line.push(10);
        assert(line@ =~= hs[i as int].0 + seq![58u8, 32u8] + hs[i as int].1 + seq![13u8, 10u8]);
        out.push(line);
        assert(hs.take(i + 1).drop_last() =~= hs.take(i as int));
        i += 1;
        assert(out@.map_values(|p: Vec<u8>| p@) =~= prev.push(
            hs[i - 1].0 + seq![58u8, 32u8] + hs[i - 1].1 + seq![13u8, 10u8],
        ));
    }
    assert(hs.take(hs.len() as int) =~= hs);
    let ghost before = out@.map_values(|p: Vec<u8>| p@);
    out.push(crlf());
    assert(out@.map_values(|p: Vec<u8>| p@) =~= before.push(seq![13u8, 10u8]));
    if response.body.len() > 0 {
        let ghost before_body = out@.map_values(|p: Vec<u8>| p@);
        out.push(copy_bytes(response.body.as_slice()));
        assert(out@.map_values(|p: Vec<u8>| p@) =~= before_body.push(response@.body));
    }
    out
}

/// Where reading a response stands: collecting the head, collecting the body
/// (up to an announced length, or until the server closes), or over.
pub enum ReaderState {
    Head(Vec<u8>),
    Body(Response, Option<usize>),
    Done,
}

pub enum ReaderStateView {
    Head(Seq<u8>),
    Body(ResponseView, Option<usize>),
    Done,
}

/// Reads one response from an upstream server: the caller reads at most
/// `read_size()` bytes, hands them to `on_bytes`, and goes on while it
/// answers `ReadMore`.
pub struct ResponseReader {
    state: ReaderState,
    head_request: bool,
}

/// What to do after a read.
pub enum Step {
    /// Read at most this many more bytes.
    ReadMore(usize),
    /// The response is complete.
    Finished(Response),
    /// Reading failed.
    Failed(Error),
}

pub enum StepView {
    ReadMore(usize),
    Finished(ResponseView),
    Failed(ErrorKind),
}

impl Step {
    pub open spec fn view(&self) -> StepView {
        match self {
            Step::ReadMore(n) => StepView::ReadMore(*n),
            Step::Finished(r) => StepView::Finished(r@),
            Step::Failed(e) => StepView::Failed(e.kind()),
        }
    }
}

pub struct ResponseReaderView {
    pub state: ReaderStateView,
    pub head_request: bool,
}

impl View for ResponseReader {
    type V = ResponseReaderView;

    closed spec fn view(&self) -> ResponseReaderView {
        ResponseReaderView {
            state: match self.state {
                ReaderState::Head(b) => ReaderStateView::Head(b@),
                ReaderState::Body(r, cl) => ReaderStateView::Body(r@, cl),
                ReaderState::Done => ReaderStateView::Done,
            },
            head_request: self.head_request,
        }
    }
}

pub open spec fn with_body(r: ResponseView, body: Seq<u8>) -> ResponseView {
    ResponseView { status: r.status, headers: r.headers, body }
}

/// A response carries a body unless it answers a `HEAD` request or its status
/// is informational (1xx), 204 No Content or 304 Not Modified.
pub open spec fn has_body(head_request: bool, status: u16) -> bool {
    !(head_request || (100 <= status < 200) || status == 204 || status == 304)
}

pub open spec fn reader_wf(s: ReaderStateView) -> bool {
    match s {
        ReaderStateView::Head(b) => b.len() <= MAX_HEADERS_SIZE,
        ReaderStateView::Body(r, cl) => response_wf(r) && r.body.len() <= MAX_BODY_SIZE && match cl {
            Some(n) => r.body.len() < n <= MAX_BODY_SIZE,
            None => true,
        },
        ReaderStateView::Done => true,
    }
}

/// How many bytes the next read may bring: what is left of the head buffer,
/// else 512.
pub open spec fn read_size_of(s: ReaderStateView) -> usize {
    match s {
        ReaderStateView::Head(b) => (MAX_HEADERS_SIZE - b.len()) as usize,
        ReaderStateView::Body(_, _) => 512,
        ReaderStateView::Done => 0,
    }
}

/// Read more while the body is short of its announced length; finish when it
/// has exactly that length; a longer body is a length mismatch.
pub open spec fn continue_body(r: ResponseView, cl: usize) -> (ReaderStateView, StepView) {
    if r.body.len() < cl {
        (ReaderStateView::Body(r, Some(cl)), StepView::ReadMore(512))
    } else if r.body.len() == cl {
        (ReaderStateView::Done, StepView::Finished(r))
    } else {
        (ReaderStateView::Done, StepView::Failed(ErrorKind::ContentLengthMismatch))
    }
}

/// Once the head is complete: a response without a body is done; an
/// unreadable `content-length` or one above `MAX_BODY_SIZE` is an error;
/// otherwise read up to the `content-length` or, without one, until the
/// server closes.
pub open spec fn after_head(r: ResponseView, head_request: bool) -> (ReaderStateView, StepView) {
    if !has_body(head_request, r.status) {
        (ReaderStateView::Done, StepView::Finished(r))
    } else {
        match content_length_field(r.headers) {
            LengthField::Invalid => (ReaderStateView::Done, StepView::Failed(ErrorKind::InvalidContentLength)),
            LengthField::Absent => (ReaderStateView::Body(r, None), StepView::ReadMore(512)),
            LengthField::Length(cl) => if cl > MAX_BODY_SIZE {
                (ReaderStateView::Done, StepView::Failed(ErrorKind::ResponseBodyTooLarge))
            } else {
                continue_body(r, cl)
            },
        }
    }
}

pub open spec fn head_step(buf: Seq<u8>, chunk: Seq<u8>, head_request: bool) -> (ReaderStateView, StepView) {
    if chunk.len() == 0 {
        (ReaderStateView::Done, StepView::Failed(ErrorKind::IncompleteResponse))
    } else {
        let all = buf + chunk;
        match httparse_response(all, MAX_NUM_HEADERS) {
            HeadOutcome::Failed(e) => (ReaderStateView::Done, StepView::Failed(ErrorKind::MalformedResponse(e))),
            HeadOutcome::Partial => (
                ReaderStateView::Head(all),
                StepView::ReadMore((MAX_HEADERS_SIZE - all.len()) as usize),
            ),
            HeadOutcome::Complete(h, n) => match response_of_head(h) {
                None => (ReaderStateView::Done, StepView::Failed(ErrorKind::MalformedResponse(ParseError::TooManyHeaders))),
                Some(r) => after_head(with_body(r, all.subrange(n as int, all.len() as int)), head_request),
            },
        }
    }
}

/// One read of the body: without a length an empty read ends the body and a
/// body growing past `MAX_BODY_SIZE` is too large; with a length an empty read
/// or one that overshoots is a length mismatch.
pub open spec fn body_step(r: ResponseView, cl: Option<usize>, chunk: Seq<u8>) -> (ReaderStateView, StepView) {
    match cl {
        None => if chunk.len() == 0 {
            (ReaderStateView::Done, StepView::Finished(r))
        } else if r.body.len() + chunk.len() > MAX_BODY_SIZE {
            (ReaderStateView::Done, StepView::Failed(ErrorKind::ResponseBodyTooLarge))
        } else {
            (ReaderStateView::Body(with_body(r, r.body + chunk), None), StepView::ReadMore(512))
        },
        Some(n) => if chunk.len() == 0 || r.body.len() + chunk.len() > n {
            (ReaderStateView::Done, StepView::Failed(ErrorKind::ContentLengthMismatch))
        } else {
            continue_body(with_body(r, r.body + chunk), n)
        },
    }
}

pub open spec fn reader_step(s: ResponseReaderView, chunk: Seq<u8>) -> (ReaderStateView, StepView) {
    match s.state {
        ReaderStateView::Head(b) => head_step(b, chunk, s.head_request),
        ReaderStateView::Body(r, cl) => body_step(r, cl, chunk),
        ReaderStateView::Done => (ReaderStateView::Done, StepView::Failed(ErrorKind::IncompleteResponse)),
    }
}

/// Law: a body read to an announced length finishes with exactly that length.
pub proof fn lemma_body_complete_exact(r: ResponseView, n: usize, chunk: Seq<u8>)
    requires
        r.body.len() < n,
    ensures
        body_step(r, Some(n), chunk).1 matches StepView::Finished(done) ==> done.body.len() == n,
{
}

impl ResponseReader {
    /// The reader's state is always sound.
    #[verifier::type_invariant]
    spec fn state_sound(self) -> bool {
        reader_wf(self@.state)
    }

    /// A reader for the response to a request with method `request_method`.
    pub fn new(request_method: &[u8]) -> (r: ResponseReader)
        ensures
            r@.state == ReaderStateView::Head(Seq::empty()),
            r@.head_request == (request_method@ == ascii_bytes("HEAD"@)),
    {
        proof {
            reveal_strlit("HEAD");
        }
        let head = literal_bytes("HEAD");
        ResponseReader { state: ReaderState::Head(Vec::new()), head_request: bytes_equal(request_method, head.as_slice()) }
    }

    /// The most bytes the next read may bring.
    pub fn read_size(&self) -> (r: usize)
        ensures
            r == read_size_of(self@.state),
            reader_wf(self@.state),
    {
        proof {
            use_type_invariant(self);
        }
        match &self.state {
            ReaderState::Head(b) => MAX_HEADERS_SIZE - b.len(),
            ReaderState::Body(_, _) => 512,
            ReaderState::Done => 0,
        }
    }

    fn continue_body(&mut self, response: Response, cl: usize) -> (r: Step)
        requires
            response_wf(response@),
            cl <= MAX_BODY_SIZE,
        ensures
            (final(self)@.state, r.view()) == continue_body(response@, cl),
            final(self)@.head_request == old(self)@.head_request,
            reader_wf(final(self)@.state),
            r matches Step::Finished(resp) ==> response_wf(resp@),
    {
        if response.body.len() < cl {
            self.state = ReaderState::Body(response, Some(cl));
            Step::ReadMore(512)
        } else if response.body.len() == cl {
            self.state = ReaderState::Done;
            Step::Finished(response)
        } else {
            self.state = ReaderState::Done;
            Step::Failed(Error::ContentLengthMismatch)
        }
    }

    fn after_head(&mut self, response: Response) -> (r: Step)
        requires
            response_wf(response@),
            response@.body.len() <= MAX_HEADERS_SIZE,
        ensures
            (final(self)@.state, r.view()) == after_head(response@, old(self)@.head_request),
            final(self)@.head_request == old(self)@.head_request,
            reader_wf(final(self)@.state),
            r matches Step::Finished(resp) ==> response_wf(resp@),
    {
        self.state = ReaderState::Done;
        let s = response.status;
        if self.head_request || (100 <= s && s < 200) || s == 204 || s == 304 {
            return Step::Finished(response);
        }
        match content_length_of(&response.headers) {
            LengthField::Invalid => Step::Failed(Error::InvalidContentLength),
            LengthField::Absent => {
                self.state = ReaderState::Body(response, None);
                Step::ReadMore(512)
            },
            LengthField::Length(cl) => {
                if cl > MAX_BODY_SIZE {
                    Step::Failed(Error::ResponseBodyTooLarge)
                } else {
                    self.continue_body(response, cl)
                }
            },
        }
    }

    /// Takes the bytes of one read (empty when the server closed).
    pub fn on_bytes(&mut self, chunk: &[u8]) -> (r: Step)
        requires
            !(old(self)@.state is Done),
            chunk@.len() <= read_size_of(old(self)@.state),
        ensures
            (final(self)@.state, r.view()) == reader_step(old(self)@, chunk@),
            final(self)@.head_request == old(self)@.head_request,
            r matches Step::Finished(resp) ==> response_wf(resp@),
            reader_wf(final(self)@.state),
            forall|q: ResponseView|
                #[trigger] reads_back(old(self)@.state, chunk@, q) && !old(self)@.head_request ==> (
                final(self)@.state,
                r.view(),
            ) == wire_step(old(self)@.state, chunk@, q),
    {
        proof {
            use_type_invariant(&*self);
        }
        let mut state = ReaderState::Done;
        std::mem::swap(&mut state, &mut self.state);
        match state {
            ReaderState::Head(mut buf) => {
                if chunk.len() == 0 {
                    return Step::Failed(Error::IncompleteResponse);
                }
                append_bytes(&mut buf, chunk);
                let res = parse_response(buf.as_slice());
                proof {
                    assert forall|q: ResponseView| #[trigger] reads_back(old(self)@.state, chunk@, q) implies {
                        let n = response_head_text(q.status, status_phrase(q.status), q.headers).len();
                        &&& buf@.len() < n ==> (res matches Ok(None))
                        &&& buf@.len() >= n ==> (res matches Ok(Some((resp, m))) && m == n && resp@ == with_body(
                            q,
                            Seq::empty(),
                        ))
                    } by {
                        lemma_response_round_trip(q);
                        let bytes = response_pieces(q).flatten();
                        let text = response_head_text(q.status, status_phrase(q.status), q.headers);
                        assert(buf@ == bytes.take(buf@.len() as int));
                        if buf@.len() < text.len() {
                            assert(text.take(buf@.len() as int) =~= buf@);
                            assert(response_head_prefix(buf@, q.status, status_phrase(q.status), q.headers));
                        } else {
                            assert(buf@.take(text.len() as int) =~= text);
                            assert(starts_with_response_head(buf@, q.status, status_phrase(q.status), q.headers));
                        }
                    }
                }
                match res {
                    Err(e) => Step::Failed(e),
                    Ok(None) => {
                        let n = MAX_HEADERS_SIZE - buf.len();
                        self.state = ReaderState::Head(buf);
                        Step::ReadMore(n)
                    },
                    Ok(Some((mut response, len))) => {
                        response.body = copy_range(buf.as_slice(), len, buf.len());
                        self.after_head(response)
                    },
                }
            },
            ReaderState::Body(mut response, None) => {
                if chunk.len() == 0 {
                    return Step::Finished(response);
                }
                if chunk.len() > MAX_BODY_SIZE - response.body.len() {
                    return Step::Failed(Error::ResponseBodyTooLarge);
                }
                append_bytes(&mut response.body, chunk);
                self.state = ReaderState::Body(response, None);
                Step::ReadMore(512)
            },
            ReaderState::Body(mut response, Some(cl)) => {
                if chunk.len() == 0 || chunk.len() > cl - response.body.len() {
                    return Step::Failed(Error::ContentLengthMismatch);
                }
                append_bytes(&mut response.body, chunk);
                self.continue_body(response, cl)
            },
            ReaderState::Done => Step::Failed(Error::IncompleteResponse),
        }
    }

    /// A failed read: the response cannot be read.
    pub fn on_io_error(&mut self, e: std::io::Error) -> (r: Error)
        ensures
            r == Error::ConnectionError(e),
            final(self)@.state is Done,
            final(self)@.head_request == old(self)@.head_request,
    {
        self.state = ReaderState::Done;
        Error::ConnectionError(e)
    }
}

/// The header lines are the header pieces put together.
proof fn lemma_response_header_pieces_flatten(hs: HeaderSeq)
    ensures
        response_header_pieces(hs).flatten() == header_lines(hs),
    decreases hs.len(),
{
    if hs.len() == 0 {
        assert(response_header_pieces(hs) =~= Seq::<Seq<u8>>::empty());
    } else {
        let x = hs.last();
        lemma_response_header_pieces_flatten(hs.drop_last());
        response_header_pieces(hs.drop_last()).lemma_flatten_push(
            x.0 + seq![58u8, 32u8] + x.1 + seq![13u8, 10u8],
        );
        assert(header_lines(hs) =~= header_lines(hs.drop_last()) + (x.0 + seq![58u8, 32u8] + x.1 + seq![
            13u8,
            10u8,
        ]));
    }
}

/// A response whose parts go over the wire unchanged: at most
/// `MAX_NUM_HEADERS` headers, each named by a token, with a value that does not
/// start or end with a space or a tab, the values of a name together, and a
/// status phrase of reason bytes (as `response_write_pieces` ensures).
pub open spec fn response_wire_ready(r: ResponseView) -> bool {
    &&& response_parts_wire_ok(r.status, status_phrase(r.status), r.headers)
    &&& r.headers.len() <= MAX_NUM_HEADERS
    &&& headers_grouped(r.headers)
}

/// Law: a response written as `response_write_pieces` writes it reads back
/// as itself. Its bytes are the head of its status and headers followed by
/// its body; `parse_response` and `ResponseReader::on_bytes` read that head
/// (see their contracts) as the same status and headers, with what follows
/// as the body.
pub proof fn lemma_response_round_trip(r: ResponseView)
    requires
        response_wf(r),
        response_wire_ready(r),
    ensures
        response_pieces(r).flatten() == response_head_text(r.status, status_phrase(r.status), r.headers) + r.body,
        starts_with_response_head(response_pieces(r).flatten(), r.status, status_phrase(r.status), r.headers),
        response_of_head(ResponseHeadView { code: Some(r.status), headers: r.headers }) == Some(
            with_body(r, Seq::empty()),
        ),
{
    let crlf = seq![13u8, 10u8];
    let hp = response_header_pieces(r.headers);
    let head = seq![status_line(r.status)] + hp + seq![crlf];
    lemma_response_header_pieces_flatten(r.headers);
    seq![status_line(r.status)].lemma_flatten_singleton();
    seq![crlf].lemma_flatten_singleton();
    vstd::seq_lib::lemma_flatten_concat(seq![status_line(r.status)], hp);
    vstd::seq_lib::lemma_flatten_concat(seq![status_line(r.status)] + hp, seq![crlf]);
    let text = response_head_text(r.status, status_phrase(r.status), r.headers);
    assert(head.flatten() =~= text);
    if r.body.len() == 0 {
        assert(text + r.body =~= text);
    } else {
        head.lemma_flatten_push(r.body);
    }
    let bytes = response_pieces(r).flatten();
    assert(bytes.take(text.len() as int) =~= text);
    lemma_build_headers_grouped(r.headers);
    assert(raw_headers_ok(r.headers)) by {
        assert forall|i: int| 0 <= i < r.headers.len() implies {
            &&& header_name_spec(#[trigger] r.headers[i].0).is_some()
            &&& header_value_ok(r.headers[i].1)
        } by {
            assert(header_name_spec(r.headers[i].0) == Some(r.headers[i].0));
        }
    }
    assert(response_of_head(ResponseHeadView { code: Some(r.status), headers: r.headers }).unwrap() =~~= with_body(
        r,
        Seq::empty(),
    ));
}

/// The response's `content-length` announces its body (within
/// `MAX_BODY_SIZE`), or, for a status that carries no body, it has none.
pub open spec fn body_announced(r: ResponseView) -> bool {
    &&& r.body.len() <= MAX_BODY_SIZE
    &&& if has_body(false, r.status) {
        content_length_field(r.headers) == LengthField::Length(r.body.len() as usize)
    } else {
        r.body.len() == 0
    }
}

/// The premises of the round trip over reads.
pub open spec fn round_trip_ready(q: ResponseView) -> bool {
    &&& response_wf(q)
    &&& response_wire_ready(q)
    &&& body_announced(q)
    &&& response_head_text(q.status, status_phrase(q.status), q.headers).len() <= MAX_HEADERS_SIZE
}

/// `chunk` continues the bytes `response_write_pieces` writes for `q`, where
/// a reader collecting a head has read a beginning of them.
pub open spec fn reads_back(s: ReaderStateView, chunk: Seq<u8>, q: ResponseView) -> bool {
    let bytes = response_pieces(q).flatten();
    &&& response_wf(q)
    &&& response_wire_ready(q)
    &&& match s {
        ReaderStateView::Head(b) => chunk.len() > 0 && (b + chunk).len() <= bytes.len() && bytes.take(
            (b + chunk).len() as int,
        ) == b + chunk,
        _ => true,
    }
}

/// One read of the bytes written for `q`, for a request that is not `HEAD`:
/// what `reader_step` gives there, spelt out with the head's known length.
pub open spec fn wire_step(s: ReaderStateView, chunk: Seq<u8>, q: ResponseView) -> (ReaderStateView, StepView) {
    match s {
        ReaderStateView::Head(b) => if chunk.len() == 0 {
            head_step(b, chunk, false)
        } else {
            let all = b + chunk;
            let n = response_head_text(q.status, status_phrase(q.status), q.headers).len();
            if all.len() < n {
                (ReaderStateView::Head(all), StepView::ReadMore((MAX_HEADERS_SIZE - all.len()) as usize))
            } else {
                after_head(with_body(q, all.subrange(n as int, all.len() as int)), false)
            }
        },
        _ => reader_step(ResponseReaderView { state: s, head_request: false }, chunk),
    }
}

/// Hands the chunks `cs` one by one to a reader in state `s`, as long as it
/// asks for more: the last state and step.
pub open spec fn feed(s: ReaderStateView, cs: Seq<Seq<u8>>, q: ResponseView) -> (ReaderStateView, StepView)
    decreases cs.len(),
{
    if cs.len() == 0 {
        (s, StepView::ReadMore(read_size_of(s)))
    } else {
        let next = wire_step(s, cs[0], q);
        if cs.len() > 1 && next.1 is ReadMore {
            feed(next.0, cs.drop_first(), q)
        } else {
            next
        }
    }
}

/// Every chunk is non-empty and no longer than the reader asked for.
pub open spec fn reads_fit(s: ReaderStateView, cs: Seq<Seq<u8>>, q: ResponseView) -> bool
    decreases cs.len(),
{
    cs.len() == 0 || {
        let next = wire_step(s, cs[0], q);
        &&& 0 < cs[0].len() <= read_size_of(s)
        &&& next.1 is ReadMore ==> reads_fit(next.0, cs.drop_first(), q)
    }
}

/// The reader asked for more after every chunk but the last.
pub open spec fn feed_uses_all(s: ReaderStateView, cs: Seq<Seq<u8>>, q: ResponseView) -> bool
    decreases cs.len(),
{
    cs.len() <= 1 || {
        let next = wire_step(s, cs[0], q);
        next.1 is ReadMore && feed_uses_all(next.0, cs.drop_first(), q)
    }
}

/// The reader has taken the first `k` of the bytes written for `q`, and the
/// message is not complete yet.
pub open spec fn reader_at(s: ReaderStateView, k: nat, q: ResponseView) -> bool {
    let bytes = response_pieces(q).flatten();
    let n = response_head_text(q.status, status_phrase(q.status), q.headers).len();
    &&& k < bytes.len()
    &&& match s {
        ReaderStateView::Head(b) => k < n && b == bytes.take(k as int),
        ReaderStateView::Body(r, cl) => n <= k && r == with_body(q, bytes.subrange(n as int, k as int)) && cl
            == Some(q.body.len() as usize),
        ReaderStateView::Done => false,
    }
}

proof fn lemma_wire_step(s: ReaderStateView, k: nat, chunk: Seq<u8>, q: ResponseView)
    requires
        round_trip_ready(q),
        reader_at(s, k, q),
        0 < chunk.len() <= read_size_of(s),
        k + chunk.len() <= response_pieces(q).flatten().len(),
        response_pieces(q).flatten().subrange(k as int, k + chunk.len() as int) == chunk,
    ensures
        ({
            let next = wire_step(s, chunk, q);
            if k + chunk.len() < response_pieces(q).flatten().len() {
                next.1 is ReadMore && reader_at(next.0, (k + chunk.len()) as nat, q)
            } else {
                next == (ReaderStateView::Done, StepView::Finished(q))
            }
        }),
{
    lemma_response_round_trip(q);
    let bytes = response_pieces(q).flatten();
    let text = response_head_text(q.status, status_phrase(q.status), q.headers);
    let n = text.len();
    let k2 = k + chunk.len();
    match s {
        ReaderStateView::Head(b) => {
            let all = b + chunk;
            assert(all =~= bytes.take(k2 as int));
            if k2 >= n {
                let part = all.subrange(n as int, all.len() as int);
                assert(part =~= bytes.subrange(n as int, k2 as int));
                if k2 == bytes.len() {
                    assert(part =~= q.body);
                    assert(with_body(q, part) =~~= q);
                }
            }
        },
        ReaderStateView::Body(r, c) => {
            let body = r.body + chunk;
            assert(body =~= bytes.subrange(n as int, k2 as int));
            if k2 == bytes.len() {
                assert(body =~= q.body);
                assert(with_body(r, body) =~~= q);
            } else {
                assert(with_body(r, body) =~~= with_body(q, bytes.subrange(n as int, k2 as int)));
            }
        },
        ReaderStateView::Done => {},
    }
}

proof fn lemma_flatten_nonempty_chunks(cs: Seq<Seq<u8>>)
    requires
        forall|i: int| 0 <= i < cs.len() ==> #[trigger] cs[i].len() > 0,
        cs.flatten().len() == 0,
    ensures
        cs.len() == 0,
{
    if cs.len() > 0 {
        assert(cs.flatten() == cs[0] + cs.drop_first().flatten());
        assert(cs[0].len() > 0);
    }
}

proof fn lemma_feed(s: ReaderStateView, k: nat, cs: Seq<Seq<u8>>, q: ResponseView)
    requires
        round_trip_ready(q),
        reader_at(s, k, q),
        cs.flatten() == response_pieces(q).flatten().skip(k as int),
        reads_fit(s, cs, q),
        forall|i: int| 0 <= i < cs.len() ==> #[trigger] cs[i].len() > 0,
    ensures
        feed(s, cs, q) == (ReaderStateView::Done, StepView::Finished(q)),
        feed_uses_all(s, cs, q),
    decreases cs.len(),
{
    let bytes = response_pieces(q).flatten();
    if cs.len() == 0 {
        assert(cs.flatten().len() == 0);
        assert(false);
    }
    let chunk = cs[0];
    let rest = cs.drop_first();
    assert(cs.flatten() == chunk + rest.flatten());
    let tail = bytes.skip(k as int);
    assert(tail == chunk + rest.flatten());
    assert(chunk.len() <= tail.len());
    let k2 = (k + chunk.len()) as nat;
    assert forall|i: int| 0 <= i < chunk.len() implies chunk[i] == bytes[k + i] by {
        assert(chunk[i] == (chunk + rest.flatten())[i]);
    }
    assert(chunk =~= bytes.subrange(k as int, k2 as int));
    assert forall|j: int| 0 <= j < rest.flatten().len() implies rest.flatten()[j] == bytes[k2 + j] by {
        assert(rest.flatten()[j] == (chunk + rest.flatten())[chunk.len() + j]);
    }
    assert(rest.flatten() =~= bytes.skip(k2 as int));
    lemma_wire_step(s, k, chunk, q);
    let next = wire_step(s, chunk, q);
    assert forall|i: int| 0 <= i < rest.len() implies #[trigger] rest[i].len() > 0 by {
        assert(rest[i] == cs[i + 1]);
    }
    if k2 < bytes.len() {
        assert(rest.len() > 0);
        lemma_feed(next.0, k2, rest, q);
    } else {
        lemma_flatten_nonempty_chunks(rest);
    }
}

/// Law: the bytes `response_write_pieces` writes for a response read back as
/// that response, however they are split into reads, for a request that is
/// not `HEAD`. Handed to a fresh reader in non-empty chunks, each no longer
/// than the reader asks for, they make it ask for more after every chunk but
/// the last and finish with the response after the last; `on_bytes` takes
/// each of these steps (its last clause).
pub proof fn lemma_response_reads_back(q: ResponseView, cs: Seq<Seq<u8>>)
    requires
        round_trip_ready(q),
        cs.flatten() == response_pieces(q).flatten(),
        forall|i: int| 0 <= i < cs.len() ==> #[trigger] cs[i].len() > 0,
        reads_fit(ReaderStateView::Head(Seq::empty()), cs, q),
    ensures
        feed(ReaderStateView::Head(Seq::empty()), cs, q) == (ReaderStateView::Done, StepView::Finished(q)),
        feed_uses_all(ReaderStateView::Head(Seq::empty()), cs, q),
{
    lemma_response_round_trip(q);
    let bytes = response_pieces(q).flatten();
    assert(bytes.skip(0) =~= bytes);
    assert(bytes.take(0) =~= Seq::<u8>::empty());
    lemma_feed(ReaderStateView::Head(Seq::empty()), 0, cs, q);
}

/// Law: a response to a `HEAD` request, or with an informational (1xx),
/// 204 No Content or 304 Not Modified status, carries no body: once its head
/// is in, the reader finishes with it as it is, whatever its headers say,
/// and reads nothing more.
pub proof fn lemma_bodiless_responses_finish_at_head(r: ResponseView, head_request: bool)
    requires
        head_request || (100 <= r.status && r.status < 200) || r.status == 204 || r.status == 304,
    ensures
        after_head(r, head_request) == (ReaderStateView::Done, StepView::Finished(r)),
{
}

/// Law: a response with a body announced by a readable `content-length` is
/// read to exactly that many bytes: with no body bytes yet, the reader
/// finishes at once on a zero length and otherwise asks for more.
pub proof fn lemma_announced_length_is_read(r: ResponseView, n: usize)
    requires
        !(r.status == 204 || r.status == 304 || (100 <= r.status && r.status < 200)),
        content_length_field(r.headers) == LengthField::Length(n),
        n <= MAX_BODY_SIZE,
        r.body.len() == 0,
    ensures
        n == 0 ==> after_head(r, false) == (ReaderStateView::Done, StepView::Finished(r)),
        n > 0 ==> after_head(r, false) == (ReaderStateView::Body(r, Some(n)), StepView::ReadMore(512)),
{
}

} // verus!
