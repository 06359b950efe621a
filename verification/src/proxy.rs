//! The load balancer's decisions: which upstream servers are up, which one a
//! connection goes to, how many connections a client may open per minute,
//! the health-check request, and what a client connection does next.
use vstd::prelude::*;
use std::collections::HashMap;
use crate::headers::{HeaderList, MAX_HEADER_VALUES, header_get, header_insert, lemma_append_wf, lemma_last_index};
use crate::http_model::{
    header_name_from_bytes, header_value_from_bytes, header_value_ok, lower_bytes,
    uri_from_bytes, uri_text,
};
use crate::request::{self, Request, RequestView, extend_header_value, extended_value, request_wf};
use crate::response::{self, Response, ResponseView, error_page, make_http_error, content_type_header};
use crate::text::{ascii_bytes, copy_bytes, literal_bytes};

verus! {

broadcast use vstd::std_specs::hash::group_hash_axioms;

#[verifier::external_type_specification]
#[verifier::external_body]
pub struct ExStdRng(rand::rngs::StdRng);

/// The number of `true` entries.
pub open spec fn count_alive(s: Seq<bool>) -> nat
    decreases s.len(),
{
    if s.len() == 0 {
        0
    } else {
        count_alive(s.drop_last()) + if s.last() {
            1nat
        } else {
            0nat
        }
    }
}

pub proof fn lemma_count_alive_le(s: Seq<bool>)
    ensures
        count_alive(s) <= s.len(),
    decreases s.len(),
{
    if s.len() > 0 {
        lemma_count_alive_le(s.drop_last());
    }
}

/// Changing one entry changes the count by at most one, the obvious way.
pub proof fn lemma_count_alive_update(s: Seq<bool>, i: int, b: bool)
    requires
        0 <= i < s.len(),
    ensures
        count_alive(s.update(i, b)) == count_alive(s) - (if s[i] {
            1int
        } else {
            0int
        }) + (if b {
            1int
        } else {
            0int
        }),
    decreases s.len(),
{
    let t = s.update(i, b);
    if i == s.len() - 1 {
        assert(t.drop_last() =~= s.drop_last());
    } else {
        lemma_count_alive_update(s.drop_last(), i, b);
        assert(t.drop_last() =~= s.drop_last().update(i, b));
    }
}

/// A positive count means some entry is `true`.
pub proof fn lemma_count_alive_witness(s: Seq<bool>)
    requires
        count_alive(s) > 0,
    ensures
        exists|i: int| 0 <= i < s.len() && s[i],
    decreases s.len(),
{
    if !s.last() {
        lemma_count_alive_witness(s.drop_last());
        let i = choose|i: int| 0 <= i < s.drop_last().len() && s.drop_last()[i];
        assert(s[i]);
    } else {
        assert(s[s.len() - 1]);
    }
}

/// Which upstream servers are up, and how many of them the proxy counts as up:
/// the count and the table, kept together.
pub struct UpstreamStatus {
    table: (usize, Vec<bool>),
}

pub struct StatusView {
    pub count: usize,
    pub alive: Seq<bool>,
}

impl View for UpstreamStatus {
    type V = StatusView;

    closed spec fn view(&self) -> StatusView {
        StatusView { count: self.table.0, alive: self.table.1@ }
    }
}

/// The count never exceeds the number of servers marked up.
pub open spec fn status_bounded(s: StatusView) -> bool {
    s.count <= count_alive(s.alive)
}

/// The count is exactly the number of servers marked up.
pub open spec fn status_exact(s: StatusView) -> bool {
    s.count == count_alive(s.alive)
}

impl UpstreamStatus {
    /// The count always matches the table.
    #[verifier::type_invariant]
    spec fn count_matches(self) -> bool {
        self.table.0 == count_alive(self.table.1@)
    }

    /// All `n` servers up.
    pub fn new(n: usize) -> (r: UpstreamStatus)
        ensures
            r@.count == n,
            r@.alive == Seq::new(n as nat, |i: int| true),
            status_exact(r@),
    {
        let mut alive: Vec<bool> = Vec::new();
        let mut i: usize = 0;
        while i < n
            invariant
                i <= n,
                alive@ == Seq::new(i as nat, |j: int| true),
                count_alive(alive@) == i,
            decreases n - i,
        {
            alive.push(true);
            i += 1;
            assert(alive@.drop_last() =~= Seq::new((i - 1) as nat, |j: int| true));
            assert(alive@ =~= Seq::new(i as nat, |j: int| true));
        }
        UpstreamStatus { table: (n, alive) }
    }

    pub fn len(&self) -> (r: usize)
        ensures
            r == self@.alive.len(),
            status_exact(self@),
    {
        proof {
            use_type_invariant(self);
        }
        self.table.1.len()
    }

    pub fn alive_count(&self) -> (r: usize)
        ensures
            r == self@.count,
            status_exact(self@),
    {
        proof {
            use_type_invariant(self);
        }
        self.table.0
    }

    pub fn is_alive(&self, idx: usize) -> (r: bool)
        requires
            idx < self@.alive.len(),
        ensures
            r == self@.alive[idx as int],
            status_exact(self@),
    {
        proof {
            use_type_invariant(self);
        }
        self.table.1[idx]
    }

    /// Records the outcome of a health check of server `idx`: a server that
    /// answered is marked up (and counted if it was down), one that did not is
    /// marked down (and uncounted if it was up).
    pub fn record_check(&mut self, idx: usize, healthy: bool)
        requires
            idx < old(self)@.alive.len(),
        ensures
            final(self)@.alive == old(self)@.alive.update(idx as int, healthy),
            final(self)@.count == old(self)@.count + (if healthy && !old(self)@.alive[idx as int] {
                1int
            } else if !healthy && old(self)@.alive[idx as int] {
                -1int
            } else {
                0int
            }),
            status_exact(old(self)@),
            status_exact(final(self)@),
    {
        proof {
            use_type_invariant(&*self);
        }
        let mut table: (usize, Vec<bool>) = (0, Vec::new());
        proof {
            assert(count_alive(table.1@) == 0);
        }
        std::mem::swap(&mut table, &mut self.table);
        let ghost before = table.1@;
        proof {
            lemma_count_alive_update(before, idx as int, healthy);
            lemma_count_alive_le(before.update(idx as int, true));
            lemma_count_alive_update(before, idx as int, true);
        }
        let n = table.1.len();
        if healthy {
            if !table.1[idx] {
                assert(table.0 < n);
                table.0 = table.0 + 1;
                table.1.set(idx, true);
            }
        } else {
            if table.1[idx] {
                table.0 = table.0 - 1;
                table.1.set(idx, false);
            }
        }
        proof {
            assert(table.1@ =~= before.update(idx as int, healthy));
        }
        self.table = table;
    }

    /// Marks server `idx` down after a failed connection: a server flagged up
    /// is flagged down and one less is counted; a server already flagged down
    /// (another connection failed on it first) leaves everything as it was.
    pub fn mark_down(&mut self, idx: usize)
        requires
            idx < old(self)@.alive.len(),
        ensures
            final(self)@.alive == old(self)@.alive.update(idx as int, false),
            final(self)@.count == old(self)@.count - (if old(self)@.alive[idx as int] {
                1int
            } else {
                0int
            }),
            status_exact(old(self)@),
            status_exact(final(self)@),
    {
        proof {
            use_type_invariant(&*self);
        }
        let mut table: (usize, Vec<bool>) = (0, Vec::new());
        proof {
            assert(count_alive(table.1@) == 0);
        }
        std::mem::swap(&mut table, &mut self.table);
        let ghost before = table.1@;
        proof {
            lemma_count_alive_update(before, idx as int, false);
        }
        if table.1[idx] {
            table.0 = table.0 - 1;
            table.1.set(idx, false);
        } else {
            assert(table.1@ =~= before.update(idx as int, false));
        }
        self.table = table;
    }
}

/// Law: when the count says some server is up, one is flagged up, so drawing
/// at random eventually picks one.
pub proof fn lemma_some_alive(s: StatusView)
    requires
        status_bounded(s),
        s.count > 0,
    ensures
        exists|i: int| 0 <= i < s.alive.len() && s.alive[i],
{
    lemma_count_alive_witness(s.alive);
}

/// Creates a `rand::rngs::StdRng` seeded from the operating system with
/// `SeedableRng::from_entropy`. Nothing is stated of the generator; the call
/// panics only when the system has no entropy to give.
#[verifier::external_body]
fn rng_from_entropy() -> rand::rngs::StdRng {
    <rand::rngs::StdRng as rand::SeedableRng>::from_entropy()
}

/// Calls `Rng::gen_range(0, upper)`, which the crate documents as a value in
/// `[0, upper)`; it panics for an empty range, which `requires` leaves out.
#[verifier::external_body]
fn random_below(rng: &mut rand::rngs::StdRng, upper: usize) -> (r: usize)
    requires
        upper > 0,
    ensures
        r < upper,
{
    rand::Rng::gen_range(rng, 0, upper)
}

/// The outcome of one random draw of an upstream server.
pub enum PickDraw {
    /// No server is counted as up.
    NoneAlive,
    /// The drawn server is up.
    Hit(usize),
    /// The drawn server is down; draw again.
    Miss(usize),
}

/// Draws upstream servers at random.
pub struct Picker {
    rng: rand::rngs::StdRng,
}

impl Picker {
    /// A picker with a freshly seeded generator.
    pub fn new() -> Picker {
        Picker { rng: rng_from_entropy() }
    }

    /// One draw: `NoneAlive` when the count is zero, otherwise an index drawn
    /// uniformly by `random_below` and reported by `classify`.
    pub fn draw(&mut self, status: &UpstreamStatus) -> (r: PickDraw)
        ensures
            r is NoneAlive <==> status@.count == 0,
            r matches PickDraw::Hit(i) ==> i < status@.alive.len() && status@.alive[i as int],
            r matches PickDraw::Miss(i) ==> i < status@.alive.len() && !status@.alive[i as int],
    {
        if status.alive_count() == 0 {
            return PickDraw::NoneAlive;
        }
        proof {
            lemma_count_alive_le(status@.alive);
        }
        let idx = random_below(&mut self.rng, status.len());
        classify(status, idx)
    }
}

/// What a draw of server `idx` reports: a hit when the server is up, else a
/// miss.
pub fn classify(status: &UpstreamStatus, idx: usize) -> (r: PickDraw)
    requires
        idx < status@.alive.len(),
    ensures
        r == (if status@.alive[idx as int] {
            PickDraw::Hit(idx)
        } else {
            PickDraw::Miss(idx)
        }),
{
    if status.is_alive(idx) {
        PickDraw::Hit(idx)
    } else {
        PickDraw::Miss(idx)
    }
}

/// A client address: IPv4 or IPv6.
pub enum ClientIp {
    V4(u32),
    V6(u128),
}

/// Counts the connections each client opened since the counters were last
/// cleared.
pub struct RateLimiter {
    v4: HashMap<u32, usize>,
    v6: HashMap<u128, usize>,
}

pub struct LimiterView {
    pub v4: Map<u32, usize>,
    pub v6: Map<u128, usize>,
}

impl View for RateLimiter {
    type V = LimiterView;

    closed spec fn view(&self) -> LimiterView {
        LimiterView { v4: self.v4@, v6: self.v6@ }
    }
}

/// The number of connections counted for a client (0 when it has none).
pub open spec fn count_of(l: LimiterView, ip: ClientIp) -> nat {
    match ip {
        ClientIp::V4(a) => if l.v4.contains_key(a) {
            l.v4[a] as nat
        } else {
            0
        },
        ClientIp::V6(a) => if l.v6.contains_key(a) {
            l.v6[a] as nat
        } else {
            0
        },
    }
}

impl RateLimiter {
    /// No connection counted.
    pub fn new() -> (r: RateLimiter)
        ensures
            forall|ip: ClientIp| count_of(r@, ip) == 0,
    {
        RateLimiter { v4: HashMap::new(), v6: HashMap::new() }
    }

    /// The connections counted for `ip`.
    pub fn count(&self, ip: &ClientIp) -> (r: usize)
        ensures
            r == count_of(self@, *ip),
    {
        match ip {
            ClientIp::V4(a) => match self.v4.get(a) {
                Some(c) => *c,
                None => 0,
            },
            ClientIp::V6(a) => match self.v6.get(a) {
                Some(c) => *c,
                None => 0,
            },
        }
    }

    /// Counts one more connection of `ip` and says whether it is within
    /// `max_per_minute`; a connection over the limit is still counted.
    pub fn count_connection(&mut self, ip: &ClientIp, max_per_minute: usize) -> (r: bool)
        requires
            count_of(old(self)@, *ip) < usize::MAX,
        ensures
            count_of(final(self)@, *ip) == count_of(old(self)@, *ip) + 1,
            forall|other: ClientIp| other != *ip ==> count_of(final(self)@, other) == count_of(old(self)@, other),
            r == (count_of(final(self)@, *ip) <= max_per_minute),
    {
        let c = self.count(ip) + 1;
        match ip {
            ClientIp::V4(a) => {
                self.v4.insert(*a, c);
            },
            ClientIp::V6(a) => {
                self.v6.insert(*a, c);
            },
        }
        c <= max_per_minute
    }

    /// Forgets every count.
    pub fn clear(&mut self)
        ensures
            forall|ip: ClientIp| count_of(final(self)@, ip) == 0,
    {
        self.v4.clear();
        self.v6.clear();
    }
}

/// The health-check request `GET path` with a `host` header naming the server.
pub open spec fn health_check_view(path: Seq<u8>, host: Seq<u8>) -> RequestView {
    RequestView {
        method: ascii_bytes("GET"@),
        uri: uri_text(path).unwrap(),
        headers: seq![(ascii_bytes("host"@), host)],
        body: Seq::empty(),
    }
}

/// Builds the health-check request for a server at `host`. `http` must accept
/// the path as a URI and the host as a header value, or building the request
/// would fail.
pub fn health_check_request(path: &[u8], host: &[u8]) -> (r: Request)
    requires
        uri_text(path@).is_some(),
        header_value_ok(host@),
    ensures
        r@ == health_check_view(path@, host@),
        request_wf(r@),
{
    proof {
        reveal_strlit("GET");
        reveal_strlit("Host");
        reveal_strlit("host");
    }
    let method = literal_bytes("GET");
    let uri = match uri_from_bytes(path) {
        Some(u) => u,
        None => Vec::new(),
    };
    let name_text = literal_bytes("Host");
    let mut headers = HeaderList::new();
    proof {
        assert(lower_bytes(name_text@) =~= ascii_bytes("host"@));
        crate::headers::lemma_lower_name(name_text@);
    }
    match header_name_from_bytes(name_text.as_slice()) {
        Some(name) => {
            proof {
                lemma_append_wf(headers@, name@, host@);
                lemma_last_index(headers@, name@);
            }
            headers.append(name, copy_bytes(host));
            assert(headers@ =~= seq![(ascii_bytes("host"@), host@)]);
        },
        None => {},
    }
    let r = Request { method, uri, headers, body: Vec::new() };
    assert(r@.body =~= Seq::<u8>::empty());
    assert(crate::http_model::method_ok(r@.method));
    r
}

/// `health_check_request` for any path and host: `None` exactly where the
/// request builder would refuse them.
pub fn try_health_check_request(path: &[u8], host: &[u8]) -> (r: Option<Request>)
    ensures
        r.is_some() == (uri_text(path@).is_some() && header_value_ok(host@)),
        r matches Some(req) ==> req@ == health_check_view(path@, host@) && request_wf(req@),
{
    if uri_from_bytes(path).is_none() || !header_value_from_bytes(host) {
        return None;
    }
    Some(health_check_request(path, host))
}

/// A server passes the health check when it answers 200.
pub fn is_healthy(response: &Response) -> (r: bool)
    ensures
        r == (response.status == 200),
{
    response.status == 200
}

/// What happened on a client connection.
pub enum ConnectionEvent {
    /// No upstream server could be connected to.
    UpstreamUnavailable,
    /// Reading the client's next request ended so.
    RequestRead(Result<Request, request::Error>),
    /// Sending the request upstream failed.
    ForwardFailed,
    /// Reading the upstream server's response ended so.
    ResponseRead(Result<Response, response::Error>),
}

/// What the connection does next.
pub enum ClientAction {
    /// Send this request upstream.
    Forward(Request),
    /// Answer the client and read its next request.
    Reply(Response),
    /// Answer the client and close the connection.
    ReplyAndClose(Response),
    /// Close the connection.
    Close,
}

pub enum ActionView {
    Forward(RequestView),
    Reply(ResponseView),
    ReplyAndClose(ResponseView),
    Close,
}

impl ClientAction {
    pub open spec fn view(&self) -> ActionView {
        match self {
            ClientAction::Forward(r) => ActionView::Forward(r@),
            ClientAction::Reply(r) => ActionView::Reply(r@),
            ClientAction::ReplyAndClose(r) => ActionView::ReplyAndClose(r@),
            ClientAction::Close => ActionView::Close,
        }
    }
}

/// The error page for a status code.
pub open spec fn error_response(code: u16) -> ResponseView {
    ResponseView { status: code, headers: seq![content_type_header()], body: error_page(code) }
}

/// The header that tells the upstream server who the client is.
pub open spec fn forwarded_for_name() -> Seq<u8> {
    ascii_bytes("x-forwarded-for"@)
}

/// A request as it is forwarded: the client's address added to its
/// `x-forwarded-for` header.
pub open spec fn forwarded(r: RequestView, client_ip: Seq<u8>) -> RequestView {
    RequestView {
        method: r.method,
        uri: r.uri,
        headers: header_insert(
            r.headers,
            forwarded_for_name(),
            extended_value(header_get(r.headers, forwarded_for_name()), client_ip),
        ),
        body: r.body,
    }
}

/// What the connection does after `event`, for a client at `client_ip`.
pub open spec fn action_for(event: ConnectionEvent, client_ip: Seq<u8>) -> ActionView {
    match event {
        ConnectionEvent::UpstreamUnavailable => ActionView::ReplyAndClose(error_response(502)),
        ConnectionEvent::RequestRead(Ok(req)) => ActionView::Forward(forwarded(req@, client_ip)),
        ConnectionEvent::RequestRead(Err(e)) => if e.kind() == request::ErrorKind::IncompleteRequest(0) {
            ActionView::Close
        } else {
            ActionView::Reply(error_response(400))
        },
        ConnectionEvent::ForwardFailed => ActionView::ReplyAndClose(error_response(502)),
        ConnectionEvent::ResponseRead(Ok(resp)) => ActionView::Reply(resp@),
        ConnectionEvent::ResponseRead(Err(_)) => ActionView::ReplyAndClose(error_response(502)),
    }
}

/// The requests sent upstream over a run of events, in order.
pub open spec fn forwards_of(events: Seq<ConnectionEvent>, client_ip: Seq<u8>) -> Seq<RequestView>
    decreases events.len(),
{
    if events.len() == 0 {
        Seq::empty()
    } else {
        let rest = forwards_of(events.drop_last(), client_ip);
        match action_for(events.last(), client_ip) {
            ActionView::Forward(r) => rest.push(r),
            _ => rest,
        }
    }
}

/// The requests read successfully over a run of events, in order, each with
/// the client's address added.
pub open spec fn reads_of(events: Seq<ConnectionEvent>, client_ip: Seq<u8>) -> Seq<RequestView>
    decreases events.len(),
{
    if events.len() == 0 {
        Seq::empty()
    } else {
        let rest = reads_of(events.drop_last(), client_ip);
        match events.last() {
            ConnectionEvent::RequestRead(Ok(req)) => rest.push(forwarded(req@, client_ip)),
            _ => rest,
        }
    }
}

/// Law: over any run of events on a connection, each request read
/// successfully is sent upstream exactly once, in the order read, with the
/// client's address added, and nothing else is sent upstream.
pub proof fn lemma_each_request_forwarded_once(events: Seq<ConnectionEvent>, client_ip: Seq<u8>)
    ensures
        forwards_of(events, client_ip) == reads_of(events, client_ip),
    decreases events.len(),
{
    if events.len() > 0 {
        lemma_each_request_forwarded_once(events.drop_last(), client_ip);
    }
}

/// The decisions on a client connection: no
/// upstream means 502 and close; a request read is forwarded with the
/// client's address added; a client that closed between requests is let go;
/// any other reading error is answered 400 and the next request read; a
/// failed forward or an unreadable upstream response is answered 502 and the
/// connection closed; an upstream response is passed on.
pub fn next_action(event: ConnectionEvent, client_ip: &[u8]) -> (r: ClientAction)
    requires
        event matches ConnectionEvent::RequestRead(Ok(req)) ==> request_wf(req@) && req@.headers.len()
            < MAX_HEADER_VALUES && header_value_ok(client_ip@),
    ensures
        r@ == action_for(event, client_ip@),
        r matches ClientAction::Forward(req) ==> request_wf(req@),
{
    match event {
        ConnectionEvent::UpstreamUnavailable => ClientAction::ReplyAndClose(make_http_error(502)),
        ConnectionEvent::RequestRead(Ok(mut req)) => {
            proof {
                reveal_strlit("x-forwarded-for");
            }
            let name = literal_bytes("x-forwarded-for");
            proof {
                assert(lower_bytes(name@) =~= name@);
                crate::headers::lemma_lower_name(name@);
            }
            extend_header_value(&mut req, name.as_slice(), client_ip);
            ClientAction::Forward(req)
        },
        ConnectionEvent::RequestRead(Err(request::Error::IncompleteRequest(0))) => ClientAction::Close,
        ConnectionEvent::RequestRead(Err(_)) => ClientAction::Reply(make_http_error(400)),
        ConnectionEvent::ForwardFailed => ClientAction::ReplyAndClose(make_http_error(502)),
        ConnectionEvent::ResponseRead(Ok(resp)) => ClientAction::Reply(resp),
        ConnectionEvent::ResponseRead(Err(_)) => ClientAction::ReplyAndClose(make_http_error(502)),
    }
}

/// The rate limit on new connections: with a positive limit the client's
/// connection is counted, and one over the limit is answered 429 (the
/// connection is then dropped); a zero limit lets everything through.
pub fn check_rate_limit(limiter: &mut RateLimiter, ip: &ClientIp, max_per_minute: usize) -> (r: Option<
    Response,
>)
    requires
        max_per_minute > 0 ==> count_of(old(limiter)@, *ip) < usize::MAX,
    ensures
        max_per_minute == 0 ==> r.is_none() && final(limiter)@ == old(limiter)@,
        max_per_minute > 0 ==> count_of(final(limiter)@, *ip) == count_of(old(limiter)@, *ip) + 1,
        max_per_minute > 0 ==> forall|other: ClientIp|
            other != *ip ==> count_of(final(limiter)@, other) == count_of(old(limiter)@, other),
        max_per_minute > 0 ==> (r.is_some() <==> count_of(final(limiter)@, *ip) > max_per_minute),
        r matches Some(resp) ==> resp@ == error_response(429),
{
    if max_per_minute > 0 {
        if !limiter.count_connection(ip, max_per_minute) {
            return Some(make_http_error(429));
        }
    }
    None
}

/// Law: a client whose request could not be read is answered with the 400
/// Bad Request page and the connection goes on, whatever went wrong, unless
/// the client closed the connection before sending a single byte, in which
/// case the connection is closed without an answer.
pub proof fn lemma_read_errors_answered(e: request::Error, client_ip: Seq<u8>)
    ensures
        (e matches request::Error::IncompleteRequest(n) && n == 0) ==> action_for(
            ConnectionEvent::RequestRead(Err(e)),
            client_ip,
        ) == ActionView::Close,
        !(e matches request::Error::IncompleteRequest(n) && n == 0) ==> (action_for(
            ConnectionEvent::RequestRead(Err(e)),
            client_ip,
        ) matches ActionView::Reply(resp) && resp.status == 400 && resp.body == error_page(400)
            && resp.headers == seq![content_type_header()]),
{
}

} // verus!
