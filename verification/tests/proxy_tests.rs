use balancebeam::proxy::{
    check_rate_limit, classify, is_healthy, next_action, try_health_check_request, ClientAction, ClientIp,
    ConnectionEvent, PickDraw, Picker, RateLimiter, UpstreamStatus,
};
use balancebeam::request::{self, parse_request, request_write_pieces, Request, RequestReader, Step};
use balancebeam::response::{self, make_http_error, parse_response};

fn read_request(data: &[u8]) -> Request {
    let mut reader = RequestReader::new();
    let mut pos = 0;
    let mut size = reader.read_size();
    loop {
        let n = size.min(data.len() - pos);
        let step = reader.on_bytes(&data[pos..pos + n]);
        pos += n;
        match step {
            Step::ReadMore(s) => size = s,
            Step::Finished(r) => return r,
            Step::Failed(e) => panic!("{:?}", e),
        }
    }
}

fn wire(req: &Request) -> String {
    String::from_utf8(request_write_pieces(req).concat()).unwrap()
}

/// The proxy forwards a GET and a POST with the client's address added, and
/// keeps the POST body after an empty line.
#[test]
fn forwarded_requests_carry_the_client_address() {
    let get = read_request(b"GET /first_url HTTP/1.1\r\nx-sent-by: balancebeam-tests\r\n\r\n");
    let fwd = match next_action(ConnectionEvent::RequestRead(Ok(get)), b"127.0.0.1") {
        ClientAction::Forward(r) => r,
        _ => panic!("not forwarded"),
    };
    let text = wire(&fwd);
    assert!(text.contains("GET /first_url HTTP/1.1"));
    assert!(text.contains("x-sent-by: balancebeam-tests"));
    assert!(text.contains("x-forwarded-for: 127.0.0.1"));

    let post = read_request(
        b"POST /first_url HTTP/1.1\r\nx-sent-by: balancebeam-tests\r\ncontent-length: 12\r\n\r\nHello world!",
    );
    let fwd = match next_action(ConnectionEvent::RequestRead(Ok(post)), b"127.0.0.1") {
        ClientAction::Forward(r) => r,
        _ => panic!("not forwarded"),
    };
    let text = wire(&fwd);
    assert!(text.contains("POST /first_url HTTP/1.1"));
    assert!(text.contains("x-sent-by: balancebeam-tests"));
    assert!(text.contains("x-forwarded-for: 127.0.0.1"));
    assert!(text.ends_with("\r\n\r\nHello world!"));
}

#[test]
fn connection_decisions() {
    match next_action(ConnectionEvent::UpstreamUnavailable, b"1.2.3.4") {
        ClientAction::ReplyAndClose(r) => assert_eq!(r.status, 502),
        _ => panic!(),
    }
    match next_action(ConnectionEvent::RequestRead(Err(request::Error::IncompleteRequest(0))), b"1.2.3.4") {
        ClientAction::Close => {},
        _ => panic!(),
    }
    match next_action(ConnectionEvent::RequestRead(Err(request::Error::IncompleteRequest(5))), b"1.2.3.4") {
        ClientAction::Reply(r) => assert_eq!(r.status, 400),
        _ => panic!(),
    }
    match next_action(ConnectionEvent::RequestRead(Err(request::Error::InvalidContentLength)), b"1.2.3.4") {
        ClientAction::Reply(r) => assert_eq!(r.status, 400),
        _ => panic!(),
    }
    match next_action(ConnectionEvent::ForwardFailed, b"1.2.3.4") {
        ClientAction::ReplyAndClose(r) => assert_eq!(r.status, 502),
        _ => panic!(),
    }
    match next_action(ConnectionEvent::ResponseRead(Err(response::Error::IncompleteResponse)), b"1.2.3.4") {
        ClientAction::ReplyAndClose(r) => assert_eq!(r.status, 502),
        _ => panic!(),
    }
    let (resp, _) = parse_response(b"HTTP/1.1 201 Created\r\n\r\n").ok().unwrap().unwrap();
    match next_action(ConnectionEvent::ResponseRead(Ok(resp)), b"1.2.3.4") {
        ClientAction::Reply(r) => assert_eq!(r.status, 201),
        _ => panic!(),
    }
}

#[test]
fn upstream_status_counts() {
    let mut s = UpstreamStatus::new(3);
    assert_eq!(s.alive_count(), 3);
    s.record_check(1, false);
    assert_eq!(s.alive_count(), 2);
    assert!(!s.is_alive(1));
    s.record_check(1, false);
    assert_eq!(s.alive_count(), 2);
    s.record_check(1, true);
    assert_eq!(s.alive_count(), 3);
    s.record_check(1, true);
    assert_eq!(s.alive_count(), 3);
    s.mark_down(0);
    assert_eq!(s.alive_count(), 2);
    assert!(!s.is_alive(0));
    assert!(s.is_alive(2));
    // A second failure on the same server changes nothing.
    s.mark_down(0);
    assert_eq!(s.alive_count(), 2);
    assert!(!s.is_alive(0));
}

#[test]
fn picker_draws_only_alive_servers() {
    let mut s = UpstreamStatus::new(4);
    s.record_check(0, false);
    s.record_check(2, false);
    let mut p = Picker::new();
    let mut hits = 0;
    for _ in 0..200 {
        match p.draw(&s) {
            PickDraw::Hit(i) => {
                assert!(i == 1 || i == 3);
                hits += 1;
            },
            PickDraw::Miss(i) => assert!(i == 0 || i == 2),
            PickDraw::NoneAlive => panic!("servers are up"),
        }
    }
    assert!(hits > 0);
    s.record_check(1, false);
    s.record_check(3, false);
    assert!(matches!(p.draw(&s), PickDraw::NoneAlive));
}

#[test]
fn rate_limit_per_client() {
    let mut l = RateLimiter::new();
    let a = ClientIp::V4(0x7f000001);
    let b = ClientIp::V6(1);
    assert!(check_rate_limit(&mut l, &a, 2).is_none());
    assert!(check_rate_limit(&mut l, &a, 2).is_none());
    let r = check_rate_limit(&mut l, &a, 2).expect("third connection is over the limit");
    assert_eq!(r.status, 429);
    assert_eq!(l.count(&a), 3);
    assert!(check_rate_limit(&mut l, &b, 2).is_none());
    assert_eq!(l.count(&b), 1);
    // A zero limit counts nothing.
    assert!(check_rate_limit(&mut l, &a, 0).is_none());
    assert_eq!(l.count(&a), 3);
    l.clear();
    assert_eq!(l.count(&a), 0);
    assert!(l.count_connection(&a, 1));
    assert!(!l.count_connection(&a, 1));
}

#[test]
fn health_check_request_and_verdict() {
    let req = try_health_check_request(b"/health", b"127.0.0.1:8080").unwrap();
    assert_eq!(
        String::from_utf8(request_write_pieces(&req).concat()).unwrap(),
        "GET /health HTTP/1.1\r\nhost: 127.0.0.1:8080\r\n\r\n"
    );
    assert!(try_health_check_request(b"/a<b", b"x").is_none());
    assert!(try_health_check_request(b"/", b"bad\nhost").is_none());
    let (ok, _) = parse_response(b"HTTP/1.1 200 OK\r\n\r\n").ok().unwrap().unwrap();
    assert!(is_healthy(&ok));
    assert!(!is_healthy(&make_http_error(503)));
    let (_, _) = parse_request(b"GET / HTTP/1.1\r\n\r\n").ok().unwrap().unwrap();
}

#[test]
fn classify_reports_the_drawn_server() {
    let mut s = UpstreamStatus::new(3);
    s.record_check(1, false);
    assert!(matches!(classify(&s, 0), PickDraw::Hit(0)));
    assert!(matches!(classify(&s, 1), PickDraw::Miss(1)));
    assert!(matches!(classify(&s, 2), PickDraw::Hit(2)));
}
