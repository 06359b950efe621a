use balancebeam::headers::{content_length_of, HeaderList, LengthField};
use balancebeam::request::{
    self, extend_header_value, format_request_line, get_content_length, parse_request,
    request_write_pieces, Request, RequestReader, Step,
};
use balancebeam::response::{
    self, format_response_line, make_http_error, parse_response, response_write_pieces, Response,
    ResponseReader,
};
use balancebeam::head_parse::ParseError;
use balancebeam::text::parse_usize;

/// Feeds `data` to a request reader in reads of at most `chunk` bytes, as a
/// connection is read; the end of `data` is a closed connection.
fn read_request(data: &[u8], chunk: usize) -> Result<Request, request::Error> {
    let mut reader = RequestReader::new();
    let mut pos = 0;
    let mut size = reader.read_size();
    loop {
        let n = size.min(chunk).min(data.len() - pos);
        let step = reader.on_bytes(&data[pos..pos + n]);
        pos += n;
        match step {
            Step::ReadMore(s) => size = s,
            Step::Finished(r) => return Ok(r),
            Step::Failed(e) => return Err(e),
        }
    }
}

fn read_response(data: &[u8], chunk: usize, method: &[u8]) -> Result<Response, response::Error> {
    let mut reader = ResponseReader::new(method);
    let mut pos = 0;
    let mut size = reader.read_size();
    loop {
        let n = size.min(chunk).min(data.len() - pos);
        let step = reader.on_bytes(&data[pos..pos + n]);
        pos += n;
        match step {
            response::Step::ReadMore(s) => size = s,
            response::Step::Finished(r) => return Ok(r),
            response::Step::Failed(e) => return Err(e),
        }
    }
}

fn concat(pieces: &[Vec<u8>]) -> Vec<u8> {
    pieces.iter().flat_map(|p| p.iter().copied()).collect()
}

fn header_values(h: &HeaderList) -> Vec<(String, String)> {
    h.pairs()
        .into_iter()
        .map(|(n, v)| (String::from_utf8(n).unwrap(), String::from_utf8(v).unwrap()))
        .collect()
}

#[test]
fn parse_usize_reads_decimal_numbers() {
    assert_eq!(parse_usize(b"0"), Some(0));
    assert_eq!(parse_usize(b"12"), Some(12));
    assert_eq!(parse_usize(b"+12"), Some(12));
    assert_eq!(parse_usize(b"007"), Some(7));
    assert_eq!(parse_usize(b""), None);
    assert_eq!(parse_usize(b"+"), None);
    assert_eq!(parse_usize(b"-1"), None);
    assert_eq!(parse_usize(b"1 2"), None);
    assert_eq!(parse_usize(b"12a"), None);
    assert_eq!(parse_usize(usize::MAX.to_string().as_bytes()), Some(usize::MAX));
    assert_eq!(parse_usize(format!("{}0", usize::MAX).as_bytes()), None);
    for s in ["1", "42", "+9", "0000", "18446744073709551616", "x"] {
        assert_eq!(parse_usize(s.as_bytes()), s.parse::<usize>().ok());
    }
}

#[test]
fn header_list_keeps_names_together() {
    let mut h = HeaderList::new();
    h.append(b"a".to_vec(), b"1".to_vec());
    h.append(b"b".to_vec(), b"2".to_vec());
    h.append(b"a".to_vec(), b"3".to_vec());
    assert_eq!(
        header_values(&h),
        vec![("a".into(), "1".into()), ("a".into(), "3".into()), ("b".into(), "2".into())]
    );
    assert_eq!(h.get(b"a"), Some(b"1".to_vec()));
    assert_eq!(h.get(b"c"), None);
    // Names are looked up in their lowercase form; bytes that are no name find nothing.
    assert_eq!(h.get(b"A"), Some(b"1".to_vec()));
    assert_eq!(h.get(b"a b"), None);
    h.insert(b"a".to_vec(), b"9".to_vec());
    assert_eq!(header_values(&h), vec![("a".into(), "9".into()), ("b".into(), "2".into())]);
    h.insert(b"c".to_vec(), b"x".to_vec());
    assert_eq!(h.get(b"c"), Some(b"x".to_vec()));
    assert_eq!(h.len(), 3);
}

#[test]
fn parse_request_complete_partial_and_malformed() {
    let buf = b"GET /first_url HTTP/1.1\r\nX-Sent-By: balancebeam-tests\r\nHost: a\r\n\r\nrest";
    let (req, n) = parse_request(buf).ok().unwrap().unwrap();
    assert_eq!(n, buf.len() - 4);
    assert_eq!(req.method, b"GET".to_vec());
    assert_eq!(req.uri, b"/first_url".to_vec());
    assert!(req.body.is_empty());
    assert_eq!(
        header_values(&req.headers),
        vec![("x-sent-by".into(), "balancebeam-tests".into()), ("host".into(), "a".into())]
    );
    assert!(matches!(parse_request(b"GET /first_url HTTP/1.1\r\nHost:"), Ok(None)));
    assert!(matches!(
        parse_request(b"GET / HTTP/1.1\r\nBad Header: x\r\n\r\n"),
        Err(request::Error::MalformedRequest(ParseError::HeaderName))
    ));
    assert!(matches!(
        parse_request(b"GET / HTTZ/1.1\r\n\r\n"),
        Err(request::Error::MalformedRequest(ParseError::Version))
    ));
    let mut many = b"GET / HTTP/1.1\r\n".to_vec();
    for i in 0..33 {
        many.extend(format!("h{}: v\r\n", i).into_bytes());
    }
    many.extend(b"\r\n");
    assert!(matches!(parse_request(&many), Err(request::Error::MalformedRequest(ParseError::TooManyHeaders))));
}

#[test]
fn unbuildable_request_head_is_reported() {
    // httparse accepts `#` in a method token, http::Method does not.
    assert!(matches!(
        parse_request(b"G#T / HTTP/1.1\r\n\r\n"),
        Err(request::Error::MalformedRequest(ParseError::Token))
    ));
    // http::Uri refuses `<` in the path.
    assert!(matches!(
        parse_request(b"GET /a<b HTTP/1.1\r\n\r\n"),
        Err(request::Error::MalformedRequest(ParseError::Token))
    ));
    assert!(matches!(
        read_request(b"GET /a<b HTTP/1.1\r\n\r\n", 4),
        Err(request::Error::MalformedRequest(ParseError::Token))
    ));
    assert!(matches!(parse_request(b"GET / HTTP/1.1\r\n"), Ok(None)));
}

#[test]
fn request_target_is_kept_as_http_prints_it() {
    let (req, _) = parse_request(b"GET HTTP://example.com HTTP/1.1\r\n\r\n").ok().unwrap().unwrap();
    assert_eq!(req.uri, b"http://example.com/".to_vec());
    let (req, _) = parse_request(b"GET /a?b=1 HTTP/1.1\r\n\r\n").ok().unwrap().unwrap();
    assert_eq!(req.uri, b"/a?b=1".to_vec());
}

#[test]
fn content_length_is_read_from_the_first_header() {
    let (req, _) = parse_request(b"POST / HTTP/1.1\r\nContent-Length: 12\r\ncontent-length: 3\r\n\r\n")
        .ok()
        .unwrap()
        .unwrap();
    assert!(matches!(get_content_length(&req), Ok(Some(12))));
    assert!(matches!(content_length_of(&req.headers), LengthField::Length(12)));
    let (req, _) = parse_request(b"POST / HTTP/1.1\r\nContent-Length: twelve\r\n\r\n").ok().unwrap().unwrap();
    assert!(matches!(get_content_length(&req), Err(request::Error::InvalidContentLength)));
    let (req, _) = parse_request(b"GET / HTTP/1.1\r\n\r\n").ok().unwrap().unwrap();
    assert!(matches!(get_content_length(&req), Ok(None)));
    assert!(matches!(
        balancebeam::requests::get_content_length(&req),
        Ok(None)
    ));
}

#[test]
fn reader_reads_get_and_post_in_small_pieces() {
    let get = b"GET /first_url HTTP/1.1\r\nx-sent-by: balancebeam-tests\r\n\r\n";
    for chunk in [1, 3, 7, 1000] {
        let req = read_request(get, chunk).ok().unwrap();
        assert_eq!(req.uri, b"/first_url".to_vec());
        assert!(req.body.is_empty());
    }
    let post = b"POST /first_url HTTP/1.1\r\nContent-Length: 12\r\n\r\nHello world!";
    for chunk in [1, 5, 40, 1000] {
        let req = read_request(post, chunk).ok().unwrap();
        assert_eq!(req.method, b"POST".to_vec());
        assert_eq!(req.body, b"Hello world!".to_vec());
    }
}

#[test]
fn reader_errors() {
    assert!(matches!(read_request(b"", 10), Err(request::Error::IncompleteRequest(0))));
    assert!(matches!(read_request(b"GET / HT", 10), Err(request::Error::IncompleteRequest(8))));
    assert!(matches!(
        read_request(b"POST / HTTP/1.1\r\nContent-Length: 10\r\n\r\nabc", 100),
        Err(request::Error::ContentLengthMismatch)
    ));
    assert!(matches!(
        read_request(b"POST / HTTP/1.1\r\nContent-Length: 10000001\r\n\r\n", 100),
        Err(request::Error::RequestBodyTooLarge)
    ));
    assert!(matches!(
        read_request(b"POST / HTTP/1.1\r\nContent-Length: x\r\n\r\n", 100),
        Err(request::Error::InvalidContentLength)
    ));
    assert!(matches!(read_request(b"\x01\x02\x03", 100), Err(request::Error::MalformedRequest(ParseError::Token))));
    // A head that never ends fills the buffer and counts as incomplete.
    let mut long = b"GET / HTTP/1.1\r\nx: ".to_vec();
    long.extend(std::iter::repeat(b'a').take(9000));
    assert!(matches!(read_request(&long, 512), Err(request::Error::IncompleteRequest(8000))));
    let mut reader = RequestReader::new();
    let e = reader.on_io_error(std::io::Error::new(std::io::ErrorKind::Other, "x"));
    assert!(matches!(e, request::Error::ConnectionError(_)));
}

#[test]
fn body_bytes_after_the_head_are_kept() {
    let req = read_request(b"POST / HTTP/1.1\r\ncontent-length: 5\r\n\r\nabcde", 1000).ok().unwrap();
    assert_eq!(req.body, b"abcde".to_vec());
    let req = read_request(b"POST / HTTP/1.1\r\n\r\nabcde", 1000).ok().unwrap();
    assert_eq!(req.body, b"abcde".to_vec());
}

#[test]
fn a_body_longer_than_announced_is_a_mismatch() {
    assert!(matches!(
        read_request(b"POST / HTTP/1.1\r\ncontent-length: 5\r\n\r\nabcdefg", 1000),
        Err(request::Error::ContentLengthMismatch)
    ));
    assert!(matches!(
        read_response(b"HTTP/1.1 200 OK\r\ncontent-length: 2\r\n\r\nabc", 1000, b"GET"),
        Err(response::Error::ContentLengthMismatch)
    ));
}

#[test]
fn extend_header_value_adds_or_appends() {
    let (mut req, _) = parse_request(b"GET / HTTP/1.1\r\nX-Forwarded-For: 10.0.0.1\r\nX-Forwarded-For: 10.0.0.2\r\n\r\n")
        .ok()
        .unwrap()
        .unwrap();
    extend_header_value(&mut req, b"x-forwarded-for", b"127.0.0.1");
    assert_eq!(
        header_values(&req.headers),
        vec![("x-forwarded-for".into(), "10.0.0.1, 127.0.0.1".into())]
    );
    let (mut req, _) = parse_request(b"GET / HTTP/1.1\r\nHost: h\r\n\r\n").ok().unwrap().unwrap();
    extend_header_value(&mut req, b"X-Forwarded-For", b"127.0.0.1");
    assert_eq!(
        header_values(&req.headers),
        vec![("host".into(), "h".into()), ("x-forwarded-for".into(), "127.0.0.1".into())]
    );
}

#[test]
fn request_line_and_pieces() {
    let (mut req, _) = parse_request(b"POST /first_url?q=1#frag HTTP/1.1\r\nContent-Length: 12\r\n\r\n")
        .ok()
        .unwrap()
        .unwrap();
    req.body = b"Hello world!".to_vec();
    assert_eq!(format_request_line(&req), "POST /first_url?q=1 HTTP/1.1");
    let pieces = request_write_pieces(&req);
    assert_eq!(pieces.len(), 7);
    assert_eq!(
        String::from_utf8(concat(&pieces)).unwrap(),
        "POST /first_url?q=1 HTTP/1.1\r\ncontent-length: 12\r\n\r\nHello world!"
    );
    let (req, _) = parse_request(b"GET / HTTP/1.1\r\n\r\n").ok().unwrap().unwrap();
    assert_eq!(request_write_pieces(&req).len(), 3);
}

#[test]
fn status_lines_and_error_pages() {
    let page = make_http_error(502);
    assert_eq!(page.status, 502);
    assert_eq!(String::from_utf8(page.body.clone()).unwrap(), "HTTP/1.1 502 Bad Gateway\r\n\r\n");
    assert_eq!(header_values(&page.headers), vec![("content-type".into(), "text/plain".into())]);
    assert_eq!(format_response_line(&page), "HTTP/1.1 502 Bad Gateway\r\n");
    assert_eq!(String::from_utf8(make_http_error(418).body).unwrap(), "HTTP/1.1 418 I'm a teapot\r\n\r\n");
    assert_eq!(
        String::from_utf8(make_http_error(599).body).unwrap(),
        "HTTP/1.1 599 <unknown status code>\r\n\r\n"
    );
    let ok = Response { status: 200, headers: HeaderList::new(), body: Vec::new() };
    assert_eq!(format_response_line(&ok), "HTTP/1.1 200 OK\r\n");
    // The page body is the status line and an empty line.
    for code in [200u16, 400, 429, 502, 777] {
        let page = make_http_error(code);
        let line = format_response_line(&page);
        assert_eq!(page.body, [line.as_bytes(), b"\r\n"].concat());
    }
}

#[test]
fn response_pieces_write_header_values_as_they_are() {
    let page = make_http_error(429);
    let text = String::from_utf8(concat(&response_write_pieces(&page))).unwrap();
    assert_eq!(
        text,
        "HTTP/1.1 429 Too Many Requests\r\ncontent-type: text/plain\r\n\r\nHTTP/1.1 429 Too Many Requests\r\n\r\n"
    );
    let (mut resp, _) = parse_response(b"HTTP/1.1 200 OK\r\nX-A: a\"b\\c\td\r\nX-B: caf\xc3\xa9\r\n\r\n").ok().unwrap().unwrap();
    resp.body = Vec::new();
    let bytes = concat(&response_write_pieces(&resp));
    assert_eq!(bytes, b"HTTP/1.1 200 OK\r\nx-a: a\"b\\c\td\r\nx-b: caf\xc3\xa9\r\n\r\n".to_vec());
}

#[test]
fn a_written_response_reads_back() {
    let (mut resp, _) = parse_response(b"HTTP/1.1 200 OK\r\nContent-Length: 5\r\nX-A: 1\r\n\r\n").ok().unwrap().unwrap();
    resp.body = b"hello".to_vec();
    let bytes = concat(&response_write_pieces(&resp));
    let back = read_response(&bytes, 7, b"GET").ok().unwrap();
    assert_eq!(back.status, 200);
    assert_eq!(header_values(&back.headers), header_values(&resp.headers));
    assert_eq!(back.body, b"hello".to_vec());
}

#[test]
fn response_body_limit() {
    assert!(matches!(
        read_response(b"HTTP/1.1 200 OK\r\nContent-Length: 10000001\r\n\r\n", 1000, b"GET"),
        Err(response::Error::ResponseBodyTooLarge)
    ));
    let mut reader = ResponseReader::new(b"GET");
    assert!(matches!(reader.on_bytes(b"HTTP/1.1 200 OK\r\n\r\n"), response::Step::ReadMore(512)));
    let chunk = vec![b'a'; 500];
    let mut last = response::Step::ReadMore(512);
    for _ in 0..20001 {
        last = reader.on_bytes(&chunk);
        if !matches!(last, response::Step::ReadMore(_)) {
            break;
        }
    }
    assert!(matches!(last, response::Step::Failed(response::Error::ResponseBodyTooLarge)));
}

#[test]
fn parse_response_cases() {
    let (resp, n) = parse_response(b"HTTP/1.1 200 OK\r\nContent-Length: 2\r\n\r\nhi").ok().unwrap().unwrap();
    assert_eq!(n, 38);
    assert_eq!(resp.status, 200);
    assert!(matches!(parse_response(b"HTTP/1.1 200 OK\r\n"), Ok(None)));
    assert!(matches!(
        parse_response(b"HTTP/1.1 099 Low\r\n\r\n"),
        Err(response::Error::MalformedResponse(ParseError::TooManyHeaders))
    ));
    assert!(matches!(
        parse_response(b"HTTZ/1.1 200 OK\r\n\r\n"),
        Err(response::Error::MalformedResponse(ParseError::Version))
    ));
}

#[test]
fn response_reader_bodies() {
    let data = b"HTTP/1.1 200 OK\r\nContent-Length: 5\r\n\r\nhello";
    for chunk in [1, 4, 1000] {
        let r = read_response(data, chunk, b"GET").ok().unwrap();
        assert_eq!(r.body, b"hello".to_vec());
    }
    // No content-length: read until the server closes.
    let r = read_response(b"HTTP/1.1 200 OK\r\n\r\nuntil the end", 3, b"GET").ok().unwrap();
    assert_eq!(r.body, b"until the end".to_vec());
    // HEAD requests and 204/304/1xx responses have no body to read.
    let r = read_response(b"HTTP/1.1 200 OK\r\nContent-Length: 5\r\n\r\n", 1000, b"HEAD").ok().unwrap();
    assert!(r.body.is_empty());
    let r = read_response(b"HTTP/1.1 204 No Content\r\nContent-Length: 5\r\n\r\n", 1000, b"GET").ok().unwrap();
    assert_eq!(r.status, 204);
    assert!(matches!(
        read_response(b"HTTP/1.1 200 OK\r\nContent-Length: 5\r\n\r\nhel", 1000, b"GET"),
        Err(response::Error::ContentLengthMismatch)
    ));
    assert!(matches!(
        read_response(b"HTTP/1.1 200 OK\r\nContent-Length: 5\r\n\r\n", 1000, b"GET").map(|r| r.body),
        Err(response::Error::ContentLengthMismatch)
    ));
    assert!(matches!(
        read_response(b"HTTP/1.1 200 OK\r\nContent-Length: 2\r\n\r\n", 1, b"GET").map(|r| r.body),
        Err(response::Error::ContentLengthMismatch)
    ));
    assert!(matches!(read_response(b"HTTP/1.1 2", 1000, b"GET"), Err(response::Error::IncompleteResponse)));
    assert!(matches!(
        read_response(b"HTTP/1.1 200 OK\r\nContent-Length: -\r\n\r\n", 1000, b"GET"),
        Err(response::Error::InvalidContentLength)
    ));
}

#[test]
fn response_body_overshoot_is_a_mismatch() {
    let mut reader = ResponseReader::new(b"GET");
    let step = reader.on_bytes(b"HTTP/1.1 200 OK\r\nContent-Length: 2\r\n\r\n");
    assert!(matches!(step, response::Step::ReadMore(512)));
    assert!(matches!(reader.on_bytes(b"abc"), response::Step::Failed(response::Error::ContentLengthMismatch)));
}

#[test]
fn a_written_request_reads_back() {
    let (mut req, _) = parse_request(
        b"POST /first_url?q=1 HTTP/1.1\r\nX-Sent-By: balancebeam-tests\r\nContent-Length: 12\r\nAccept: a\r\nAccept: b\r\n\r\n",
    )
    .ok()
    .unwrap()
    .unwrap();
    req.body = b"Hello world!".to_vec();
    extend_header_value(&mut req, b"x-forwarded-for", b"127.0.0.1");
    let bytes = concat(&request_write_pieces(&req));
    for chunk in [1, 9, 10000] {
        let back = read_request(&bytes, chunk).ok().unwrap();
        assert_eq!(back.method, req.method);
        assert_eq!(back.uri, req.uri);
        assert_eq!(header_values(&back.headers), header_values(&req.headers));
        assert_eq!(back.body, req.body);
    }
}

#[test]
fn every_proper_beginning_of_a_head_is_partial() {
    let (mut req, _) = parse_request(b"GET /x HTTP/1.1\r\nHost: h\r\nX-A: 1 2\r\n\r\n").ok().unwrap().unwrap();
    req.body = Vec::new();
    let bytes = concat(&request_write_pieces(&req));
    for k in 0..bytes.len() {
        assert!(matches!(parse_request(&bytes[..k]), Ok(None)), "request prefix {}", k);
    }
    assert!(matches!(parse_request(&bytes), Ok(Some((_, n))) if n == bytes.len()));
    let page = make_http_error(404);
    let bytes = concat(&response_write_pieces(&page));
    let head_len = bytes.len() - page.body.len();
    for k in 0..head_len {
        assert!(matches!(parse_response(&bytes[..k]), Ok(None)), "response prefix {}", k);
    }
    assert!(matches!(parse_response(&bytes), Ok(Some((_, n))) if n == head_len));
}
