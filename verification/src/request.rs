//! HTTP requests: parsing a request head, reading a whole request from the
//! bytes a client sends, adding to a header, and the bytes a request is sent as.
use vstd::prelude::*;
use crate::head_parse::{
    pairs_view,
    HeadOutcome, HeadParse, ParseError, ParsedRequestHead, RequestHeadView, httparse_request,
    parse_request_head, request_head_prefix, request_head_text, request_parts_ok, starts_with_request_head, header_lines,
    is_token_byte, token_ok,
};
use crate::headers::{
    HeaderList, HeaderSeq, LengthField, MAX_HEADER_VALUES, build_header_list, headers_grouped,
    lemma_build_headers_grouped, build_headers, content_length_field,
    content_length_of, entry_wf, header_get, header_insert, headers_wf, lemma_insert_wf,
    lemma_lower_name, raw_headers_ok,
};
use crate::http_model::{
    header_name_from_bytes, header_name_spec, header_value_ok,
    http11_text, method_from_bytes, method_ok, uri_from_bytes, uri_text,
};
use crate::text::{
    all_ascii, append_bytes, ascii_bytes, ascii_chars, copy_bytes, copy_range, string_from_ascii,
};

verus! {

#[verifier::external_type_specification]
#[verifier::external_body]
pub struct ExIoError(std::io::Error);

/// The most bytes a request head may take.
pub const MAX_HEADERS_SIZE: usize = 8000;

/// The largest body a request may announce.
pub const MAX_BODY_SIZE: usize = 10000000;

/// The most headers a request head may hold.
pub const MAX_NUM_HEADERS: usize = 32;

/// Why a request could not be read.
#[derive(Debug)]
pub enum Error {
    /// The client closed the connection before a whole head arrived, after
    /// sending this many bytes.
    IncompleteRequest(usize),
    /// The bytes are not an HTTP request head: `httparse` refused them for
    /// this reason, or `http` refused the method, the target or a header of a
    /// complete head (reported as `Token`).
    MalformedRequest(ParseError),
    /// The `content-length` header is not a number.
    InvalidContentLength,
    /// The body does not have the announced length.
    ContentLengthMismatch,
    /// The announced body is larger than `MAX_BODY_SIZE`.
    RequestBodyTooLarge,
    /// Reading or writing the connection failed.
    ConnectionError(std::io::Error),
}

/// The kind of an `Error`, without the values from other crates it may carry.
pub enum ErrorKind {
    IncompleteRequest(usize),
    MalformedRequest(ParseError),
    InvalidContentLength,
    ContentLengthMismatch,
    RequestBodyTooLarge,
    ConnectionError,
}

impl Error {
    pub open spec fn kind(&self) -> ErrorKind {
        match self {
            Error::IncompleteRequest(n) => ErrorKind::IncompleteRequest(*n),
            Error::MalformedRequest(e) => ErrorKind::MalformedRequest(*e),
            Error::InvalidContentLength => ErrorKind::InvalidContentLength,
            Error::ContentLengthMismatch => ErrorKind::ContentLengthMismatch,
            Error::RequestBodyTooLarge => ErrorKind::RequestBodyTooLarge,
            Error::ConnectionError(_) => ErrorKind::ConnectionError,
        }
    }
}

/// An HTTP/1.1 request: method, target, headers and body. The method and the
/// target are kept as `http` prints them.
pub struct Request {
    pub method: Vec<u8>,
    pub uri: Vec<u8>,
    pub headers: HeaderList,
    pub body: Vec<u8>,
}

pub struct RequestView {
    pub method: Seq<u8>,
    pub uri: Seq<u8>,
    pub headers: HeaderSeq,
    pub body: Seq<u8>,
}

impl View for Request {
    type V = RequestView;

    open spec fn view(&self) -> RequestView {
        RequestView { method: self.method@, uri: self.uri@, headers: self.headers@, body: self.body@ }
    }
}

/// What an `http::Request` guarantees: a valid method, an ASCII target, and
/// normalized header names with valid values.
pub open spec fn request_wf(r: RequestView) -> bool {
    &&& method_ok(r.method)
    &&& all_ascii(r.uri)
    &&& headers_wf(r.headers)
}

/// The request that `http::Request::builder` makes of a parsed head, with an
/// empty body, or `None` where the builder refuses a part of it.
pub open spec fn request_of_head(h: RequestHeadView) -> Option<RequestView> {
    if h.method.is_some() && method_ok(h.method.unwrap()) && h.path.is_some() && uri_text(
        h.path.unwrap(),
    ).is_some() && raw_headers_ok(h.headers) {
        Some(
            RequestView {
                method: h.method.unwrap(),
                uri: uri_text(h.path.unwrap()).unwrap(),
                headers: build_headers(h.headers),
                body: Seq::empty(),
            },
        )
    } else {
        None
    }
}

/// Turns a parsed head into a request with an empty body; `None` where
/// `http` refuses its method, target or a header.
pub fn build_request(head: ParsedRequestHead) -> (r: Option<Request>)
    requires
        head.headers@.len() <= MAX_NUM_HEADERS,
    ensures
        r.is_some() == request_of_head(head.view()).is_some(),
        r matches Some(req) ==> request_of_head(head.view()) == Some(req@) && request_wf(req@)
            && req@.headers.len() <= MAX_NUM_HEADERS,
{
    let method = match &head.method {
        Some(m) => match method_from_bytes(m.as_slice()) {
            Some(m) => m,
            None => return None,
        },
        None => return None,
    };
    let uri = match &head.path {
        Some(p) => match uri_from_bytes(p.as_slice()) {
            Some(u) => u,
            None => return None,
        },
        None => return None,
    };
    let headers = match build_header_list(&head.headers) {
        Some(l) => l,
        None => return None,
    };
    let req = Request { method, uri, headers, body: Vec::new() };
    assert(req@.body =~= Seq::<u8>::empty());
    Some(req)
}

/// The head `httparse` reports for a request line and header pairs.
pub open spec fn head_view(method: Seq<u8>, target: Seq<u8>, hs: HeaderSeq) -> RequestHeadView {
    RequestHeadView { method: Some(method), path: Some(target), headers: hs }
}

/// The error for a complete head that `http` refuses to build a request of.
pub open spec fn unbuildable_head_error() -> ParseError {
    ParseError::Token
}

/// Reads a request head out of `buffer`. `Ok(Some((request, n)))` when a whole
/// head is there (`n` is its length; the body is left empty), `Ok(None)` when
/// more bytes are needed, `MalformedRequest` when the bytes are no request
/// head or `http` refuses to build a request of it.
pub fn parse_request(buffer: &[u8]) -> (r: Result<Option<(Request, usize)>, Error>)
    ensures
        match httparse_request(buffer@, MAX_NUM_HEADERS) {
            HeadOutcome::Failed(e) => r matches Err(Error::MalformedRequest(f)) && f == e,
            HeadOutcome::Partial => r matches Ok(None),
            HeadOutcome::Complete(h, n) => match request_of_head(h) {
                Some(v) => r matches Ok(Some((req, m))) && m == n && req@ == v && request_wf(req@)
                    && n <= buffer@.len(),
                None => r matches Err(Error::MalformedRequest(f)) && f == unbuildable_head_error(),
            },
        },
        r matches Ok(Some((req, _))) ==> req@.headers.len() <= MAX_NUM_HEADERS,
        forall|m: Seq<u8>, p: Seq<u8>, hs: HeaderSeq|
            #[trigger] request_head_prefix(buffer@, m, p, hs) && hs.len() <= MAX_NUM_HEADERS ==> r matches Ok(
                None,
            ),
        forall|m: Seq<u8>, p: Seq<u8>, hs: HeaderSeq|
            #[trigger] starts_with_request_head(buffer@, m, p, hs) ==> if hs.len() <= MAX_NUM_HEADERS {
                match request_of_head(head_view(m, p, hs)) {
                    Some(v) => r matches Ok(Some((req, n))) && req@ == v && n == request_head_text(m, p, hs).len(),
                    None => r matches Err(Error::MalformedRequest(f)) && f == unbuildable_head_error(),
                }
            } else {
                r matches Err(Error::MalformedRequest(f)) && f == ParseError::TooManyHeaders
            },
{
    match parse_request_head(buffer, MAX_NUM_HEADERS) {
        HeadParse::Failed(e) => Err(Error::MalformedRequest(e)),
        HeadParse::Partial => Ok(None),
        HeadParse::Complete(head, len) => match build_request(head) {
            Some(request) => Ok(Some((request, len))),
            None => Err(Error::MalformedRequest(ParseError::Token)),
        },
    }
}

/// The length the request's `content-length` header announces.
pub open spec fn content_length_result(r: RequestView) -> LengthField {
    content_length_field(r.headers)
}

/// The body length announced by the first `content-length` header: `Ok(None)`
/// without such a header, `InvalidContentLength` when it is not a number.
pub fn get_content_length(request: &Request) -> (r: Result<Option<usize>, Error>)
    ensures
        match content_length_field(request@.headers) {
            LengthField::Absent => r matches Ok(None),
            LengthField::Length(n) => r matches Ok(Some(m)) && m == n,
            LengthField::Invalid => r matches Err(Error::InvalidContentLength),
        },
{
    match content_length_of(&request.headers) {
        LengthField::Absent => Ok(None),
        LengthField::Length(n) => Ok(Some(n)),
        LengthField::Invalid => Err(Error::InvalidContentLength),
    }
}

/// The value a header gets when `extend` is added to what it had: the old
/// value, a comma and a space, and the new text; or the new text alone.
pub open spec fn extended_value(old: Option<Seq<u8>>, extend: Seq<u8>) -> Seq<u8> {
    match old {
        Some(v) => v + seq![44u8, 32u8] + extend,
        None => extend,
    }
}

/// Adds `extend_value` to the header `name`: the header's first value, a comma
/// and a space and the new text become its only value; a missing header is
/// created. The name must be one `http` accepts and the new text a valid
/// header value; `http` refuses anything else.
pub fn extend_header_value(request: &mut Request, name: &[u8], extend_value: &[u8])
    requires
        request_wf(old(request)@),
        old(request)@.headers.len() < MAX_HEADER_VALUES,
        header_name_spec(name@).is_some(),
        header_value_ok(extend_value@),
    ensures
        final(request)@.headers == header_insert(
            old(request)@.headers,
            header_name_spec(name@).unwrap(),
            extended_value(header_get(old(request)@.headers, header_name_spec(name@).unwrap()), extend_value@),
        ),
        final(request)@.method == old(request)@.method,
        final(request)@.uri == old(request)@.uri,
        final(request)@.body == old(request)@.body,
        request_wf(final(request)@),
{
    let key = match header_name_from_bytes(name) {
        Some(k) => k,
        None => return,
    };
    let ghost old_value = header_get(request@.headers, key@);
    proof {
        lemma_lower_name(name@);
    }
    let new_value = match request.headers.get(key.as_slice()) {
        Some(existing) => {
            let mut v = copy_bytes(existing.as_slice());
            v.push(44);
            v.push(32);
            append_bytes(&mut v, extend_value);
            proof {
                crate::headers::lemma_first_index(request@.headers, key@);
                let i = crate::headers::first_index(request@.headers, key@);
                assert(header_value_ok(request@.headers[i].1));
                assert(header_value_ok(v@)) by {
                    assert forall|j: int| 0 <= j < v@.len() implies crate::http_model::is_header_value_byte(
                        #[trigger] v@[j],
                    ) by {
                        if j < existing@.len() {
                            assert(v@[j] == existing@[j]);
                        } else if j >= existing@.len() + 2 {
                            assert(v@[j] == extend_value@[j - existing@.len() - 2]);
                        }
                    }
                }
            }
            assert(v@ =~= extended_value(old_value, extend_value@));
            v
        },
        None => copy_bytes(extend_value),
    };
    proof {
        lemma_lower_name(name@);
        lemma_insert_wf(request@.headers, key@, new_value@, false);
        assert(entry_wf(key@, new_value@));
    }
    request.headers.insert(key, new_value);
}

/// The request line: method, target and version, as `format!("{} {} {:?}")`
/// prints them.
pub open spec fn request_line(r: RequestView) -> Seq<u8> {
    r.method + seq![32u8] + r.uri + seq![32u8] + ascii_bytes("HTTP/1.1"@)
}

/// The bytes of the request line.
fn request_line_bytes(request: &Request) -> (r: Vec<u8>)
    requires
        request_wf(request@),
    ensures
        r@ == request_line(request@),
        all_ascii(r@),
{
    let mut line = copy_bytes(request.method.as_slice());
    line.push(32);
    append_bytes(&mut line, request.uri.as_slice());
    line.push(32);
    let version = http11_text();
    append_bytes(&mut line, version.as_slice());
    proof {
        assert forall|i: int| 0 <= i < line@.len() implies #[trigger] line@[i] < 128 by {
            let m = request@.method.len();
            let u = request@.uri.len();
            if i < m {
                assert(crate::http_model::is_method_byte(request@.method[i]));
            } else if m < i < m + 1 + u {
                assert(line@[i] == request@.uri[i - m - 1]);
            } else if i > m + 1 + u {
                assert(line@[i] == version@[i - m - 2 - u]);
            }
        }
    }
    line
}

/// The request line as a string, e.g. `GET /index.html HTTP/1.1`.
pub fn format_request_line(request: &Request) -> (r: String)
    requires
        request_wf(request@),
    ensures
        r@ == ascii_chars(request_line(request@)),
{
    string_from_ascii(request_line_bytes(request))
}

/// The pieces a request is written in, one write each: the request line, a
/// line break, for each header `name: `, the value and a line break, an empty
/// line, and the body when there is one.
pub open spec fn request_pieces(r: RequestView) -> Seq<Seq<u8>> {
    let head = seq![request_line(r), seq![13u8, 10u8]] + header_pieces(r.headers) + seq![seq![13u8, 10u8]];
    if r.body.len() == 0 {
        head
    } else {
        head.push(r.body)
    }
}

pub open spec fn header_pieces(hs: HeaderSeq) -> Seq<Seq<u8>>
    decreases hs.len(),
{
    if hs.len() == 0 {
        Seq::empty()
    } else {
        header_pieces(hs.drop_last()) + seq![hs.last().0 + seq![58u8, 32u8], hs.last().1, seq![13u8, 10u8]]
    }
}

/// The pieces a request is written in, in order.
pub fn request_write_pieces(request: &Request) -> (r: Vec<Vec<u8>>)
    requires
        request_wf(request@),
    ensures
        r@.map_values(|p: Vec<u8>| p@) == request_pieces(request@),
{
    let mut out: Vec<Vec<u8>> = Vec::new();
    out.push(request_line_bytes(request));
    out.push(crlf());
    let ghost hs = request@.headers;
    let pairs = request.headers.pairs();
    let mut i: usize = 0;
    while i < pairs.len()
        invariant
            hs == request@.headers,
            pairs_view(pairs@) == hs,
            i <= hs.len(),
            out@.map_values(|p: Vec<u8>| p@) == seq![request_line(request@), seq![13u8, 10u8]]
                + header_pieces(hs.take(i as int)),
        decreases hs.len() - i,
    {
        let ghost prev = out@.map_values(|p: Vec<u8>| p@);
        assert(hs[i as int] == (pairs@[i as int].0@, pairs@[i as int].1@));
        let mut name = copy_bytes(pairs[i].0.as_slice());
        name.push(58);
        name.push(32);
        assert(name@ =~= hs[i as int].0 + seq![58u8, 32u8]);
        let value = copy_bytes(pairs[i].1.as_slice());
        out.push(name);
        out.push(value);
        out.push(crlf());
        assert(hs.take(i + 1).drop_last() =~= hs.take(i as int));
        i += 1;
        assert(out@.map_values(|p: Vec<u8>| p@) =~= prev + seq![
            hs[i - 1].0 + seq![58u8, 32u8],
            hs[i - 1].1,
            seq![13u8, 10u8],
        ]);
    }
    assert(hs.take(hs.len() as int) =~= hs);
    let ghost before = out@.map_values(|p: Vec<u8>| p@);
    out.push(crlf());
    assert(out@.map_values(|p: Vec<u8>| p@) =~= before.push(seq![13u8, 10u8]));
    if request.body.len() > 0 {
        let ghost before_body = out@.map_values(|p: Vec<u8>| p@);
        out.push(copy_bytes(request.body.as_slice()));
        assert(out@.map_values(|p: Vec<u8>| p@) =~= before_body.push(request@.body));
    }
    out
}

/// A line break.
fn crlf() -> (r: Vec<u8>)
    ensures
        r@ == seq![13u8, 10u8],
{
    let mut v = Vec::new();
    v.push(13);
    v.push(10);
    assert(v@ =~= seq![13u8, 10u8]);
    v
}

/// Where reading a request stands: collecting the head, collecting a body of
/// an announced length, or over.
pub enum ReaderState {
    Head(Vec<u8>),
    Body(Request, usize),
    Done,
}

pub enum ReaderStateView {
    Head(Seq<u8>),
    Body(RequestView, usize),
    Done,
}

/// Reads one request from the bytes a client sends: the caller reads at most
/// `read_size()` bytes, hands them to `on_bytes`, and goes on while it
/// answers `ReadMore`.
pub struct RequestReader {
    state: ReaderState,
}

/// What to do after a read.
pub enum Step {
    /// Read at most this many more bytes.
    ReadMore(usize),
    /// The request is complete.
    Finished(Request),
    /// Reading failed.
    Failed(Error),
}

pub enum StepView {
    ReadMore(usize),
    Finished(RequestView),
    Failed(ErrorKind),
}

impl Step {
    pub open spec fn view(&self) -> StepView {
        match self {
            Step::ReadMore(n) => StepView::ReadMore(*n),
            Step::Finished(r) => StepView::Finished(r@),
            Step::Failed(e) => StepView::Failed(e.kind()),
        }
    }
}

impl View for RequestReader {
    type V = ReaderStateView;

    closed spec fn view(&self) -> ReaderStateView {
        match self.state {
            ReaderState::Head(b) => ReaderStateView::Head(b@),
            ReaderState::Body(r, cl) => ReaderStateView::Body(r@, cl),
            ReaderState::Done => ReaderStateView::Done,
        }
    }
}

pub open spec fn with_body(r: RequestView, body: Seq<u8>) -> RequestView {
    RequestView { method: r.method, uri: r.uri, headers: r.headers, body }
}

/// How much of a body to read next: the rest, but at most 512 bytes.
pub open spec fn body_read_size(have: nat, length: usize) -> usize {
    if length - have < 512 {
        (length - have) as usize
    } else {
        512
    }
}

/// The reader is sound: the head buffer fits, a body being read is short of
/// its announced length, which is within `MAX_BODY_SIZE`.
pub open spec fn reader_wf(s: ReaderStateView) -> bool {
    match s {
        ReaderStateView::Head(b) => b.len() <= MAX_HEADERS_SIZE,
        ReaderStateView::Body(r, cl) => request_wf(r) && r.headers.len() <= MAX_NUM_HEADERS && r.body.len() < cl
            <= MAX_BODY_SIZE,
        ReaderStateView::Done => true,
    }
}

/// How many bytes the next read may bring.
pub open spec fn read_size_of(s: ReaderStateView) -> usize {
    match s {
        ReaderStateView::Head(b) => (MAX_HEADERS_SIZE - b.len()) as usize,
        ReaderStateView::Body(r, cl) => body_read_size(r.body.len(), cl),
        ReaderStateView::Done => 0,
    }
}

/// Read more body bytes while the body is short of `cl`; finish when it has
/// exactly `cl` bytes; a longer body is a length mismatch.
pub open spec fn continue_body(r: RequestView, cl: usize) -> (ReaderStateView, StepView) {
    if r.body.len() < cl {
        (ReaderStateView::Body(r, cl), StepView::ReadMore(body_read_size(r.body.len(), cl)))
    } else if r.body.len() == cl {
        (ReaderStateView::Done, StepView::Finished(r))
    } else {
        (ReaderStateView::Done, StepView::Failed(ErrorKind::ContentLengthMismatch))
    }
}

/// Once the head is complete: no `content-length` means no body; an unreadable
/// one or one above `MAX_BODY_SIZE` is an error; otherwise read the body.
pub open spec fn after_head(r: RequestView) -> (ReaderStateView, StepView) {
    match content_length_field(r.headers) {
        LengthField::Invalid => (ReaderStateView::Done, StepView::Failed(ErrorKind::InvalidContentLength)),
        LengthField::Absent => (ReaderStateView::Done, StepView::Finished(r)),
        LengthField::Length(cl) => if cl > MAX_BODY_SIZE {
            (ReaderStateView::Done, StepView::Failed(ErrorKind::RequestBodyTooLarge))
        } else {
            continue_body(r, cl)
        },
    }
}

/// One read while collecting the head: an empty read means the client left;
/// otherwise the bytes are added and the head parsed again. The bytes after a
/// complete head start the body; a complete head that `http` refuses is
/// malformed.
pub open spec fn head_step(buf: Seq<u8>, chunk: Seq<u8>) -> (ReaderStateView, StepView) {
    if chunk.len() == 0 {
        (ReaderStateView::Done, StepView::Failed(ErrorKind::IncompleteRequest(buf.len() as usize)))
    } else {
        let all = buf + chunk;
        match httparse_request(all, MAX_NUM_HEADERS) {
            HeadOutcome::Failed(e) => (ReaderStateView::Done, StepView::Failed(ErrorKind::MalformedRequest(e))),
            HeadOutcome::Partial => (
                ReaderStateView::Head(all),
                StepView::ReadMore((MAX_HEADERS_SIZE - all.len()) as usize),
            ),
            HeadOutcome::Complete(h, n) => match request_of_head(h) {
                None => (
                    ReaderStateView::Done,
                    StepView::Failed(ErrorKind::MalformedRequest(unbuildable_head_error())),
                ),
                Some(r) => after_head(with_body(r, all.subrange(n as int, all.len() as int))),
            },
        }
    }
}

/// One read while collecting a body of length `cl`: an empty read or one that
/// overshoots is a length mismatch.
pub open spec fn body_step(r: RequestView, cl: usize, chunk: Seq<u8>) -> (ReaderStateView, StepView) {
    if chunk.len() == 0 || r.body.len() + chunk.len() > cl {
        (ReaderStateView::Done, StepView::Failed(ErrorKind::ContentLengthMismatch))
    } else {
        continue_body(with_body(r, r.body + chunk), cl)
    }
}

pub open spec fn reader_step(s: ReaderStateView, chunk: Seq<u8>) -> (ReaderStateView, StepView) {
    match s {
        ReaderStateView::Head(b) => head_step(b, chunk),
        ReaderStateView::Body(r, cl) => body_step(r, cl, chunk),
        ReaderStateView::Done => (ReaderStateView::Done, StepView::Failed(ErrorKind::IncompleteRequest(0))),
    }
}

/// Law: a body read to completion has exactly the announced length.
pub proof fn lemma_body_complete_exact(r: RequestView, cl: usize, chunk: Seq<u8>)
    requires
        r.body.len() < cl,
        chunk.len() <= body_read_size(r.body.len(), cl),
    ensures
        body_step(r, cl, chunk).1 matches StepView::Finished(done) ==> done.body.len() == cl,
{
}

impl RequestReader {
    /// The reader's state is always sound.
    #[verifier::type_invariant]
    spec fn state_sound(self) -> bool {
        reader_wf(self@)
    }

    /// A reader that has seen nothing yet.
    pub fn new() -> (r: RequestReader)
        ensures
            r@ == ReaderStateView::Head(Seq::empty()),
    {
        RequestReader { state: ReaderState::Head(Vec::new()) }
    }

    /// The most bytes the next read may bring.
    pub fn read_size(&self) -> (r: usize)
        ensures
            r == read_size_of(self@),
            reader_wf(self@),
    {
        proof {
            use_type_invariant(self);
        }
        match &self.state {
            ReaderState::Head(b) => MAX_HEADERS_SIZE - b.len(),
            ReaderState::Body(r, cl) => {
                if *cl - r.body.len() < 512 {
                    *cl - r.body.len()
                } else {
                    512
                }
            },
            ReaderState::Done => 0,
        }
    }

    fn continue_body(&mut self, request: Request, cl: usize) -> (r: Step)
        requires
            request_wf(request@),
            request@.headers.len() <= MAX_NUM_HEADERS,
            cl <= MAX_BODY_SIZE,
        ensures
            (final(self)@, r.view()) == continue_body(request@, cl),
            reader_wf(final(self)@),
            r matches Step::Finished(req) ==> request_wf(req@),
    {
        if request.body.len() < cl {
            let n = if cl - request.body.len() < 512 { cl - request.body.len() } else { 512 };
            self.state = ReaderState::Body(request, cl);
            Step::ReadMore(n)
        } else if request.body.len() == cl {
            self.state = ReaderState::Done;
            Step::Finished(request)
        } else {
            self.state = ReaderState::Done;
            Step::Failed(Error::ContentLengthMismatch)
        }
    }

    fn after_head(&mut self, request: Request) -> (r: Step)
        requires
            request_wf(request@),
            request@.headers.len() <= MAX_NUM_HEADERS,
        ensures
            (final(self)@, r.view()) == after_head(request@),
            reader_wf(final(self)@),
            r matches Step::Finished(req) ==> request_wf(req@),
    {
        self.state = ReaderState::Done;
        match get_content_length(&request) {
            Err(e) => Step::Failed(e),
            Ok(None) => Step::Finished(request),
            Ok(Some(cl)) => {
                if cl > MAX_BODY_SIZE {
                    Step::Failed(Error::RequestBodyTooLarge)
                } else {
                    self.continue_body(request, cl)
                }
            },
        }
    }

    /// Takes the bytes of one read (empty when the client closed).
    pub fn on_bytes(&mut self, chunk: &[u8]) -> (r: Step)
        requires
            !(old(self)@ is Done),
            chunk@.len() <= read_size_of(old(self)@),
        ensures
            (final(self)@, r.view()) == reader_step(old(self)@, chunk@),
            r matches Step::Finished(req) ==> request_wf(req@) && req@.headers.len() <= MAX_NUM_HEADERS,
            reader_wf(final(self)@),
            forall|q: RequestView| #[trigger] reads_back(old(self)@, chunk@, q) ==> (final(self)@, r.view())
                == wire_step(old(self)@, chunk@, q),
    {
        proof {
            use_type_invariant(&*self);
        }
        let mut state = ReaderState::Done;
        std::mem::swap(&mut state, &mut self.state);
        match state {
            ReaderState::Head(mut buf) => {
                if chunk.len() == 0 {
                    return Step::Failed(Error::IncompleteRequest(buf.len()));
                }
                append_bytes(&mut buf, chunk);
                let res = parse_request(buf.as_slice());
                proof {
                    assert forall|q: RequestView| #[trigger] reads_back(old(self)@, chunk@, q) implies {
                        let n = request_head_text(q.method, q.uri, q.headers).len();
                        &&& buf@.len() < n ==> (res matches Ok(None))
                        &&& buf@.len() >= n ==> (res matches Ok(Some((req, m))) && m == n && req@ == with_body(
                            q,
                            Seq::empty(),
                        ))
                    } by {
                        lemma_request_round_trip(q);
                        let bytes = request_pieces(q).flatten();
                        let text = request_head_text(q.method, q.uri, q.headers);
                        assert(buf@ == bytes.take(buf@.len() as int));
                        if buf@.len() < text.len() {
                            assert(text.take(buf@.len() as int) =~= buf@);
                            assert(request_head_prefix(buf@, q.method, q.uri, q.headers));
                        } else {
                            assert(buf@.take(text.len() as int) =~= text);
                            assert(starts_with_request_head(buf@, q.method, q.uri, q.headers));
                        }
                    }
                }
                match res {
                    Err(e) => Step::Failed(e),
                    Ok(None) => {
                        let n = MAX_HEADERS_SIZE - buf.len();
                        self.state = ReaderState::Head(buf);
                        Step::ReadMore(n)
                    },
                    Ok(Some((mut request, len))) => {
                        request.body = copy_range(buf.as_slice(), len, buf.len());
                        assert(request@ == with_body(request@, request@.body));
                        self.after_head(request)
                    },
                }
            },
            ReaderState::Body(mut request, cl) => {
                if chunk.len() == 0 || chunk.len() > cl - request.body.len() {
                    return Step::Failed(Error::ContentLengthMismatch);
                }
                append_bytes(&mut request.body, chunk);
                self.continue_body(request, cl)
            },
            ReaderState::Done => Step::Failed(Error::IncompleteRequest(0)),
        }
    }

    /// A failed read: the request cannot be read.
    pub fn on_io_error(&mut self, e: std::io::Error) -> (r: Error)
        ensures
            r == Error::ConnectionError(e),
            final(self)@ is Done,
    {
        self.state = ReaderState::Done;
        Error::ConnectionError(e)
    }
}

/// A request whose parts go over the wire unchanged: its target is one that
/// `http` prints as itself and `httparse` takes as it stands, it has at most
/// `MAX_NUM_HEADERS` headers, each named by a token, with a value that does not
/// start or end with a space or a tab, and the values of a name stand together.
pub open spec fn request_wire_ready(r: RequestView) -> bool {
    &&& uri_text(r.uri) == Some(r.uri)
    &&& request_parts_ok(r.method, r.uri, r.headers, MAX_NUM_HEADERS)
    &&& headers_grouped(r.headers)
}

/// The request's `content-length` announces its body, or it has neither,
/// and the body is within `MAX_BODY_SIZE`.
pub open spec fn body_announced(r: RequestView) -> bool {
    &&& r.body.len() <= MAX_BODY_SIZE
    &&& match content_length_field(r.headers) {
        LengthField::Length(n) => n == r.body.len(),
        LengthField::Absent => r.body.len() == 0,
        LengthField::Invalid => false,
    }
}

proof fn lemma_flatten_three(a: Seq<u8>, b: Seq<u8>, c: Seq<u8>)
    ensures
        seq![a, b, c].flatten() == a + b + c,
{
    let e = Seq::<Seq<u8>>::empty();
    assert(seq![a, b, c] =~= e.push(a).push(b).push(c));
    e.lemma_flatten_push(a);
    e.push(a).lemma_flatten_push(b);
    e.push(a).push(b).lemma_flatten_push(c);
    assert(e.flatten() =~= Seq::<u8>::empty());
    assert(e.push(a).push(b).push(c).flatten() =~= a + b + c);
}

proof fn lemma_header_pieces_flatten(hs: HeaderSeq)
    ensures
        header_pieces(hs).flatten() == header_lines(hs),
    decreases hs.len(),
{
    if hs.len() == 0 {
        assert(header_pieces(hs) =~= Seq::<Seq<u8>>::empty());
    } else {
        let x = hs.last();
        lemma_header_pieces_flatten(hs.drop_last());
        vstd::seq_lib::lemma_flatten_concat(
            header_pieces(hs.drop_last()),
            seq![x.0 + seq![58u8, 32u8], x.1, seq![13u8, 10u8]],
        );
        lemma_flatten_three(x.0 + seq![58u8, 32u8], x.1, seq![13u8, 10u8]);
        assert(header_lines(hs) =~= header_lines(hs.drop_last()) + (x.0 + seq![58u8, 32u8] + x.1 + seq![
            13u8,
            10u8,
        ]));
    }
}

/// The bytes of the pieces are the head followed by the body.
proof fn lemma_request_pieces_flatten(r: RequestView)
    ensures
        request_pieces(r).flatten() == request_head_text(r.method, r.uri, r.headers) + r.body,
{
    let crlf = seq![13u8, 10u8];
    let first = seq![request_line(r), crlf];
    let head = first + header_pieces(r.headers) + seq![crlf];
    lemma_header_pieces_flatten(r.headers);
    assert(first =~= Seq::<Seq<u8>>::empty().push(request_line(r)).push(crlf));
    Seq::<Seq<u8>>::empty().lemma_flatten_push(request_line(r));
    Seq::<Seq<u8>>::empty().push(request_line(r)).lemma_flatten_push(crlf);
    assert(Seq::<Seq<u8>>::empty().flatten() =~= Seq::<u8>::empty());
    assert(first.flatten() =~= request_line(r) + crlf);
    vstd::seq_lib::lemma_flatten_concat(first, header_pieces(r.headers));
    vstd::seq_lib::lemma_flatten_concat(first + header_pieces(r.headers), seq![crlf]);
    seq![crlf].lemma_flatten_singleton();
    let text = request_head_text(r.method, r.uri, r.headers);
    assert(head.flatten() =~= text);
    if r.body.len() == 0 {
        assert(text + r.body =~= text);
    } else {
        head.lemma_flatten_push(r.body);
    }
}

/// Law: a request written as `request_write_pieces` writes it reads back as
/// itself. Its bytes are the head of its method, target and headers followed
/// by its body; `parse_request` and `RequestReader::on_bytes` read that head
/// (see their contracts) as the same method, target and headers, with what
/// follows as the body; and when its `content-length` announces the body, a
/// reader handed the whole message at once finishes with the same request.
pub proof fn lemma_request_round_trip(r: RequestView)
    requires
        request_wf(r),
        request_wire_ready(r),
    ensures
        request_pieces(r).flatten() == request_head_text(r.method, r.uri, r.headers) + r.body,
        starts_with_request_head(request_pieces(r).flatten(), r.method, r.uri, r.headers),
        r.headers.len() <= MAX_NUM_HEADERS,
        request_of_head(head_view(r.method, r.uri, r.headers)) == Some(with_body(r, Seq::empty())),
        body_announced(r) ==> after_head(r) == (ReaderStateView::Done, StepView::Finished(r)),
{
    lemma_request_pieces_flatten(r);
    let bytes = request_pieces(r).flatten();
    let text = request_head_text(r.method, r.uri, r.headers);
    assert(bytes.take(text.len() as int) =~= text);
    assert(token_ok(r.method)) by {
        assert forall|i: int| 0 <= i < r.method.len() implies is_token_byte(#[trigger] r.method[i]) by {
            assert(crate::http_model::is_method_byte(r.method[i]));
        }
    }
    lemma_build_headers_grouped(r.headers);
    assert(raw_headers_ok(r.headers)) by {
        assert forall|i: int| 0 <= i < r.headers.len() implies {
            &&& header_name_spec(#[trigger] r.headers[i].0).is_some()
            &&& header_value_ok(r.headers[i].1)
        } by {
            assert(header_name_spec(r.headers[i].0) == Some(r.headers[i].0));
        }
    }
    assert(request_of_head(head_view(r.method, r.uri, r.headers)).unwrap() =~~= with_body(r, Seq::empty()));
}

/// `chunk` continues the bytes `request_write_pieces` writes for `q`, where a
/// reader collecting a head has read a beginning of them.
pub open spec fn reads_back(s: ReaderStateView, chunk: Seq<u8>, q: RequestView) -> bool {
    let bytes = request_pieces(q).flatten();
    &&& request_wf(q)
    &&& request_wire_ready(q)
    &&& match s {
        ReaderStateView::Head(b) => chunk.len() > 0 && (b + chunk).len() <= bytes.len() && bytes.take(
            (b + chunk).len() as int,
        ) == b + chunk,
        _ => true,
    }
}

/// One read of the bytes written for `q`: what `reader_step` gives there,
/// spelt out with the head's known length. Before the whole head is in, the
/// reader asks for more; once it is, the rest of what was read starts `q`'s
/// body.
pub open spec fn wire_step(s: ReaderStateView, chunk: Seq<u8>, q: RequestView) -> (ReaderStateView, StepView) {
    match s {
        ReaderStateView::Head(b) => if chunk.len() == 0 {
            head_step(b, chunk)
        } else {
            let all = b + chunk;
            let n = request_head_text(q.method, q.uri, q.headers).len();
            if all.len() < n {
                (ReaderStateView::Head(all), StepView::ReadMore((MAX_HEADERS_SIZE - all.len()) as usize))
            } else {
                after_head(with_body(q, all.subrange(n as int, all.len() as int)))
            }
        },
        _ => reader_step(s, chunk),
    }
}

/// Hands the chunks `cs` one by one to a reader in state `s`, as long as it
/// asks for more: the last state and step.
pub open spec fn feed(s: ReaderStateView, cs: Seq<Seq<u8>>, q: RequestView) -> (ReaderStateView, StepView)
    decreases cs.len(),
{
    if cs.len() == 0 {
        (s, StepView::ReadMore(read_size_of(s)))
    } else {
        let next = wire_step(s, cs[0], q);
        if cs.len() > 1 && next.1 is ReadMore {
            feed(next.0, cs.drop_first(), q)
        } else {
            next
        }
    }
}

/// Every chunk is non-empty and no longer than the reader asked for.
pub open spec fn reads_fit(s: ReaderStateView, cs: Seq<Seq<u8>>, q: RequestView) -> bool
    decreases cs.len(),
{
    cs.len() == 0 || {
        let next = wire_step(s, cs[0], q);
        &&& 0 < cs[0].len() <= read_size_of(s)
        &&& next.1 is ReadMore ==> reads_fit(next.0, cs.drop_first(), q)
    }
}

/// The reader asked for more after every chunk but the last.
pub open spec fn feed_uses_all(s: ReaderStateView, cs: Seq<Seq<u8>>, q: RequestView) -> bool
    decreases cs.len(),
{
    cs.len() <= 1 || {
        let next = wire_step(s, cs[0], q);
        next.1 is ReadMore && feed_uses_all(next.0, cs.drop_first(), q)
    }
}

/// The reader has taken the first `k` of the bytes written for `q`, and the
/// message is not complete yet.
pub open spec fn reader_at(s: ReaderStateView, k: nat, q: RequestView) -> bool {
    let bytes = request_pieces(q).flatten();
    let n = request_head_text(q.method, q.uri, q.headers).len();
    &&& k < bytes.len()
    &&& match s {
        ReaderStateView::Head(b) => k < n && b == bytes.take(k as int),
        ReaderStateView::Body(r, cl) => n <= k && r == with_body(q, bytes.subrange(n as int, k as int))
            && cl == q.body.len(),
        ReaderStateView::Done => false,
    }
}

/// The premises of the round trip over reads.
pub open spec fn round_trip_ready(q: RequestView) -> bool {
    &&& request_wf(q)
    &&& request_wire_ready(q)
    &&& body_announced(q)
    &&& request_head_text(q.method, q.uri, q.headers).len() <= MAX_HEADERS_SIZE
}

proof fn lemma_wire_step(s: ReaderStateView, k: nat, chunk: Seq<u8>, q: RequestView)
    requires
        round_trip_ready(q),
        reader_at(s, k, q),
        0 < chunk.len() <= read_size_of(s),
        k + chunk.len() <= request_pieces(q).flatten().len(),
        request_pieces(q).flatten().subrange(k as int, k + chunk.len() as int) == chunk,
    ensures
        ({
            let next = wire_step(s, chunk, q);
            if k + chunk.len() < request_pieces(q).flatten().len() {
                next.1 is ReadMore && reader_at(next.0, (k + chunk.len()) as nat, q)
            } else {
                next == (ReaderStateView::Done, StepView::Finished(q))
            }
        }),
{
    lemma_request_round_trip(q);
    let bytes = request_pieces(q).flatten();
    let text = request_head_text(q.method, q.uri, q.headers);
    let n = text.len();
    let k2 = k + chunk.len();
    let cl = q.body.len();
    match s {
        ReaderStateView::Head(b) => {
            let all = b + chunk;
            assert(all =~= bytes.take(k2 as int));
            if k2 < n {
            } else {
                let part = all.subrange(n as int, all.len() as int);
                assert(part =~= bytes.subrange(n as int, k2 as int));
                if k2 < bytes.len() {
                    assert(content_length_field(q.headers) == LengthField::Length(cl as usize));
                } else {
                    assert(part =~= q.body);
                    assert(with_body(q, part) =~~= q);
                }
            }
        },
        ReaderStateView::Body(r, c) => {
            let body = r.body + chunk;
            assert(body =~= bytes.subrange(n as int, k2 as int));
            if k2 == bytes.len() {
                assert(body =~= q.body);
                assert(with_body(r, body) =~~= q);
            } else {
                assert(with_body(r, body) =~~= with_body(q, bytes.subrange(n as int, k2 as int)));
            }
        },
        ReaderStateView::Done => {},
    }
}

proof fn lemma_flatten_nonempty_chunks(cs: Seq<Seq<u8>>)
    requires
        forall|i: int| 0 <= i < cs.len() ==> #[trigger] cs[i].len() > 0,
        cs.flatten().len() == 0,
    ensures
        cs.len() == 0,
{
    if cs.len() > 0 {
        assert(cs.flatten() == cs[0] + cs.drop_first().flatten());
        assert(cs[0].len() > 0);
    }
}

proof fn lemma_feed(s: ReaderStateView, k: nat, cs: Seq<Seq<u8>>, q: RequestView)
    requires
        round_trip_ready(q),
        reader_at(s, k, q),
        cs.flatten() == request_pieces(q).flatten().skip(k as int),
        reads_fit(s, cs, q),
        forall|i: int| 0 <= i < cs.len() ==> #[trigger] cs[i].len() > 0,
    ensures
        feed(s, cs, q) == (ReaderStateView::Done, StepView::Finished(q)),
        feed_uses_all(s, cs, q),
    decreases cs.len(),
{
    let bytes = request_pieces(q).flatten();
    if cs.len() == 0 {
        assert(cs.flatten().len() == 0);
        assert(false);
    }
    let chunk = cs[0];
    let rest = cs.drop_first();
    let tail = bytes.skip(k as int);
    assert(tail == chunk + rest.flatten());
    assert(chunk.len() <= tail.len());
    let k2 = (k + chunk.len()) as nat;
    assert forall|i: int| 0 <= i < chunk.len() implies chunk[i] == bytes[k + i] by {
        assert(chunk[i] == (chunk + rest.flatten())[i]);
    }
    assert(chunk =~= bytes.subrange(k as int, k2 as int));
    assert forall|j: int| 0 <= j < rest.flatten().len() implies rest.flatten()[j] == bytes[k2 + j] by {
        assert(rest.flatten()[j] == (chunk + rest.flatten())[chunk.len() + j]);
    }
    assert(rest.flatten() =~= bytes.skip(k2 as int));
    lemma_wire_step(s, k, chunk, q);
    let next = wire_step(s, chunk, q);
    if k2 < bytes.len() {
        assert(rest.len() > 0);
        assert forall|i: int| 0 <= i < rest.len() implies #[trigger] rest[i].len() > 0 by {
            assert(rest[i] == cs[i + 1]);
        }
        lemma_feed(next.0, k2, rest, q);
    } else {
        assert forall|i: int| 0 <= i < rest.len() implies #[trigger] rest[i].len() > 0 by {
            assert(rest[i] == cs[i + 1]);
        }
        lemma_flatten_nonempty_chunks(rest);
    }
}

/// Law: the bytes `request_write_pieces` writes for a request read back as
/// that request, however they are split into reads. Handed to a fresh reader
/// in non-empty chunks, each no longer than the reader asks for, they make it
/// ask for more after every chunk but the last and finish with the request
/// after the last; `on_bytes` takes each of these steps (its last clause).
pub proof fn lemma_request_reads_back(q: RequestView, cs: Seq<Seq<u8>>)
    requires
        round_trip_ready(q),
        cs.flatten() == request_pieces(q).flatten(),
        forall|i: int| 0 <= i < cs.len() ==> #[trigger] cs[i].len() > 0,
        reads_fit(ReaderStateView::Head(Seq::empty()), cs, q),
    ensures
        feed(ReaderStateView::Head(Seq::empty()), cs, q) == (ReaderStateView::Done, StepView::Finished(q)),
        feed_uses_all(ReaderStateView::Head(Seq::empty()), cs, q),
{
    lemma_request_round_trip(q);
    let bytes = request_pieces(q).flatten();
    assert(bytes.skip(0) =~= bytes);
    assert(bytes.take(0) =~= Seq::<u8>::empty());
    lemma_feed(ReaderStateView::Head(Seq::empty()), 0, cs, q);
}

/// Law: extending a header adds to what it had: after the insert that
/// `extend_header_value` makes, the header's value is its old first value, a
/// comma and a space, and the new text, in full, whatever the old value and
/// the new text are (even equal); a header that was missing gets the new
/// text alone.
pub proof fn lemma_extend_keeps_old_value(hs: HeaderSeq, name: Seq<u8>, extend: Seq<u8>)
    ensures
        ({
            let after = header_insert(hs, name, extended_value(header_get(hs, name), extend));
            &&& header_get(after, name) is Some
            &&& match header_get(hs, name) {
                Some(v) => {
                    let w = header_get(after, name).unwrap();
                    &&& w.len() == v.len() + 2 + extend.len()
                    &&& w.take(v.len() as int) == v
                    &&& w[v.len() as int] == 44u8
                    &&& w[v.len() + 1int] == 32u8
                    &&& w.skip(v.len() + 2int) == extend
                },
                None => header_get(after, name) == Some(extend),
            }
        }),
{
    crate::headers::lemma_get_after_insert(hs, name, extended_value(header_get(hs, name), extend));
    match header_get(hs, name) {
        Some(v) => {
            let w = v + seq![44u8, 32u8] + extend;
            assert(w.take(v.len() as int) =~= v);
            assert(w.skip(v.len() + 2int) =~= extend);
        },
        None => {},
    }
}

} // verus!
