//! What the gateway does with a request.
//!
//! The functions here decide; the server that calls them reads requests,
//! looks credentials up, and talks to upstreams. [`open_request`] is asked
//! first, [`with_credential`] once the credential was looked up, and
//! [`upstream_answered`] once the upstream was.

use vstd::prelude::*;
use vstd::string::*;
use vstd::utf8::encode_utf8;
use crate::auth_gateway::audit;
use crate::auth_gateway::audit::{AuditEvent, AuditView};
use crate::auth_gateway::firewall;
use crate::auth_gateway::firewall::BLOCK_REASON_PRIVATE_UPSTREAM;
use crate::auth_gateway::rules;
use crate::auth_gateway::rules::{AuthGatewayConfig, AuthRule, MissPolicy, RuleView};
use crate::json;
use crate::json::{Json, JsonView};
use crate::net;
use crate::net::IpAddr;
use crate::text;
use crate::time::Timestamp;

verus! {

/// A header: its name in lower case, and the bytes of its value.
#[derive(PartialEq, Eq, Debug)]
pub struct Header {
    pub name: String,
    pub value: Vec<u8>,
}

impl Header {
    /// The model of the header.
    pub open spec fn pair(self) -> (Seq<char>, Seq<u8>) {
        (self.name@, self.value@)
    }
}

/// The models of headers.
pub open spec fn header_views(h: Seq<Header>) -> Seq<(Seq<char>, Seq<u8>)> {
    Seq::new(h.len(), |i: int| h[i].pair())
}

/// A request that came in.
pub struct IncomingRequest {
    pub method: String,
    /// The path and query of the target, where it has one.
    pub path_and_query: Option<String>,
    /// The host of the target, where it has one.
    pub uri_host: Option<String>,
    pub headers: Vec<Header>,
    pub peer_ip: IpAddr,
}

/// A request that goes out, but for its method and body, which stay.
#[derive(PartialEq, Eq, Debug)]
pub struct UpstreamRequest {
    pub uri: String,
    pub headers: Vec<Header>,
}

/// An answer that the gateway gives itself. Its body is JSON.
#[derive(PartialEq, Eq, Debug)]
pub struct Reply {
    pub status: u16,
    pub body: String,
}

/// A request that a rule was found for.
#[derive(PartialEq, Eq, Debug)]
pub struct Matched {
    pub hostname: String,
    pub method: String,
    pub path: String,
    /// The position of the rule.
    pub rule: usize,
}

/// What to do with a request first.
#[derive(PartialEq, Eq, Debug)]
pub enum Opening {
    Reply(Reply),
    /// Send this, and hand the answer on.
    Passthrough(UpstreamRequest),
    /// Look up the credential of the rule.
    Lookup(Matched),
}

/// What to do with a request once the credential was looked up.
#[derive(PartialEq, Eq, Debug)]
pub enum Forwarding {
    Reply(Reply),
    Send(UpstreamRequest),
}

/// The text of a URI that `hyper::Uri` reads, where it is one.
pub uninterp spec fn uri_text(s: Seq<char>) -> Option<Seq<char>>;

/// `hyper::Uri` reads a text, and gives its text back.
#[verifier::external_body]
fn parse_uri(s: &str) -> (r: Option<String>)
    ensures
        text::opt_view(r) == uri_text(s@),
{
    match s.parse::<hyper::Uri>() {
        Ok(u) => Some(u.to_string()),
        Err(_) => None,
    }
}

/// Whether `c` may stand in the name of a header.
pub open spec fn is_token(c: char) -> bool {
    ||| 'a' <= c <= 'z'
    ||| 'A' <= c <= 'Z'
    ||| '0' <= c <= '9'
    ||| c == '!' || c == '#' || c == '$' || c == '%' || c == '&' || c == '\'' || c == '*'
    ||| c == '+' || c == '-' || c == '.' || c == '^' || c == '_' || c == '`' || c == '|'
    ||| c == '~'
}

/// The name of a header that a text spells: one to 65535 token characters,
/// put in lower case.
pub open spec fn header_name_of(s: Seq<char>) -> Option<Seq<char>> {
    if 0 < s.len() <= 65535 && forall|i: int| 0 <= i < s.len() ==> is_token(#[trigger] s[i]) {
        Some(text::ascii_lower(s))
    } else {
        None
    }
}

/// `hyper::header::HeaderName` reads the name of a header and puts it in lower
/// case.
#[verifier::external_body]
fn parse_header_name(s: &str) -> (r: Option<String>)
    ensures
        text::opt_view(r) == header_name_of(s@),
{
    match s.parse::<hyper::header::HeaderName>() {
        Ok(n) => Some(n.as_str().to_owned()),
        Err(_) => None,
    }
}

/// Whether a text can be the value of a header: no control characters but
/// tabs.
pub open spec fn is_header_value(s: Seq<char>) -> bool {
    forall|i: int|
        0 <= i < s.len() ==> (#[trigger] s[i] == '\t' || (' ' <= s[i] && s[i] != '\u{7f}'))
}

/// `hyper::header::HeaderValue::from_str` takes a text without control
/// characters as a value, by its bytes.
#[verifier::external_body]
fn header_value(s: &str) -> (r: Option<Vec<u8>>)
    ensures
        match r {
            Some(v) => is_header_value(s@) && v@ == encode_utf8(s@),
            None => !is_header_value(s@),
        },
{
    match hyper::header::HeaderValue::from_str(s) {
        Ok(v) => Some(v.as_bytes().to_vec()),
        Err(_) => None,
    }
}

/// The body of an answer that reports an error.
pub open spec fn error_body(msg: Seq<char>) -> Seq<char> {
    "{\"error\":"@ + json::rendered_json(JsonView::Str(msg)) + "}"@
}

/// The answer that reports an error.
pub fn error_response(status: u16, msg: &str) -> (r: Reply)
    ensures
        r.status == status,
        r.body@ == error_body(msg@),
{
    let quoted = json::render(&Json::Str(msg.to_owned()));
    Reply { status, body: text::concat3("{\"error\":", quoted.as_str(), "}") }
}

/// Whether `r` is the answer to a request that failed with `msg`.
pub open spec fn fails_with(r: Reply, msg: Seq<char>) -> bool {
    r.status == 502 && r.body@ == error_body("gateway error: "@ + msg)
}

/// Whether `r` is the answer 502 with the message `msg`.
pub open spec fn refuses_with(r: Reply, msg: Seq<char>) -> bool {
    r.status == 502 && r.body@ == error_body(msg)
}

fn gateway_error(msg: &str) -> (r: Reply)
    ensures
        fails_with(r, msg@),
{
    let full = text::concat2("gateway error: ", msg);
    error_response(502, full.as_str())
}

/// The position of the last `c` in `s`, or -1.
pub open spec fn last_of(s: Seq<char>, c: char) -> int
    decreases s.len(),
{
    if s.len() == 0 {
        -1
    } else if s.last() == c {
        s.len() - 1
    } else {
        last_of(s.drop_last(), c)
    }
}

/// A host without its port. An address in brackets is left as it is.
pub open spec fn host_only(host: Seq<char>) -> Seq<char> {
    if host.len() > 0 && host[0] == '[' {
        host
    } else if last_of(host, ':') >= 0 {
        host.take(last_of(host, ':'))
    } else {
        host
    }
}

/// A host without its port. An address in brackets is left as it is.
pub fn strip_port(host: &str) -> (r: String)
    ensures
        r@ == host_only(host@),
{
    let v = text::to_chars(host);
    if v.len() > 0 && v[0] == '[' {
        return host.to_owned();
    }
    let mut n: usize = v.len();
    proof {
        assert(host@.take(host@.len() as int) =~= host@);
    }
    while n > 0
        invariant
            n <= v@.len(),
            v@ == host@,
            !(host@.len() > 0 && host@[0] == '['),
            last_of(host@, ':') == last_of(host@.take(n as int), ':'),
        decreases n,
    {
        if v[n - 1] == ':' {
            let r = text::from_range(&v, 0, n - 1);
            proof {
                assert(host@.take(n as int).last() == ':');
                assert(r@ =~= host@.take(n as int - 1));
            }
            return r;
        }
        proof {
            assert(host@.take(n as int).drop_last() =~= host@.take(n as int - 1));
        }
        n -= 1;
    }
    host.to_owned()
}

/// The text of a header's value, where all of it is visible ASCII or tabs.
pub open spec fn visible_text(value: Seq<u8>) -> Option<Seq<char>> {
    if forall|i: int| 0 <= i < value.len() ==> (#[trigger] value[i] == 9 || 32 <= value[i] < 127) {
        Some(Seq::new(value.len(), |i: int| value[i] as char))
    } else {
        None
    }
}

fn visible_str(value: &Vec<u8>) -> (r: Option<String>)
    ensures
        text::opt_view(r) == visible_text(value@),
{
    let mut out = String::new();
    let mut i: usize = 0;
    while i < value.len()
        invariant
            i <= value@.len(),
            out@ == Seq::new(i as nat, |j: int| value@[j] as char),
            forall|j: int| 0 <= j < i ==> (#[trigger] value@[j] == 9 || 32 <= value@[j] < 127),
        decreases value@.len() - i,
    {
        let b = value[i];
        if !(b == 9 || (32 <= b && b < 127)) {
            return None;
        }
        out.push(b as char);
        i += 1;
        proof {
            assert(out@ =~= Seq::new(i as nat, |j: int| value@[j] as char));
        }
    }
    Some(out)
}

/// The value of the first header called `name` from `i` on.
pub open spec fn header_from(
    headers: Seq<(Seq<char>, Seq<u8>)>,
    name: Seq<char>,
    i: int,
) -> Option<Seq<u8>>
    decreases headers.len() - i,
{
    if i < 0 || i >= headers.len() {
        None
    } else if headers[i].0 == name {
        Some(headers[i].1)
    } else {
        header_from(headers, name, i + 1)
    }
}

/// The host that a request names: that of its `host` header without the port,
/// else that of its target.
pub open spec fn requested_host(req: IncomingRequest) -> Option<Seq<char>> {
    let from_header = match header_from(header_views(req.headers@), "host"@, 0) {
        Some(v) => visible_text(v),
        None => None,
    };
    match from_header {
        Some(h) => Some(host_only(h)),
        None => text::opt_view(req.uri_host),
    }
}

/// The host that a request names.
pub fn request_hostname(req: &IncomingRequest) -> (r: Option<String>)
    ensures
        text::opt_view(r) == requested_host(*req),
{
    let ghost h = header_views(req.headers@);
    let mut i: usize = 0;
    while i < req.headers.len()
        invariant
            i <= req.headers@.len(),
            h == header_views(req.headers@),
            header_from(h, "host"@, 0) == header_from(h, "host"@, i as int),
        decreases req.headers@.len() - i,
    {
        if text::str_eq(req.headers[i].name.as_str(), "host") {
            match visible_str(&req.headers[i].value) {
                Some(v) => {
                    return Some(strip_port(v.as_str()));
                },
                None => {
                    return req.uri_host.clone();
                },
            }
        }
        i += 1;
    }
    req.uri_host.clone()
}

/// The path and query of a request.
pub open spec fn path_of(req: IncomingRequest) -> Seq<char> {
    match req.path_and_query {
        Some(p) => p@,
        None => "/"@,
    }
}

fn request_path(req: &IncomingRequest) -> (r: String)
    ensures
        r@ == path_of(*req),
{
    match &req.path_and_query {
        Some(p) => p.clone(),
        None => "/".to_owned(),
    }
}

/// Whether a header is on a list of names, whatever the case of its letters.
pub open spec fn listed(names: Seq<Seq<char>>, name: Seq<char>) -> bool {
    exists|j: int|
        0 <= j < names.len() && text::ascii_lower(#[trigger] names[j]) == text::ascii_lower(name)
}

/// The headers that are not on a list, in order.
pub open spec fn without_listed(
    headers: Seq<(Seq<char>, Seq<u8>)>,
    names: Seq<Seq<char>>,
) -> Seq<(Seq<char>, Seq<u8>)>
    decreases headers.len(),
{
    if headers.len() == 0 {
        Seq::empty()
    } else if listed(names, headers.last().0) {
        without_listed(headers.drop_last(), names)
    } else {
        without_listed(headers.drop_last(), names).push(headers.last())
    }
}

/// The headers that are not called `name`, in order.
pub open spec fn without_name(
    headers: Seq<(Seq<char>, Seq<u8>)>,
    name: Seq<char>,
) -> Seq<(Seq<char>, Seq<u8>)>
    decreases headers.len(),
{
    if headers.len() == 0 {
        Seq::empty()
    } else if headers.last().0 == name {
        without_name(headers.drop_last(), name)
    } else {
        without_name(headers.drop_last(), name).push(headers.last())
    }
}

/// The headers with one value for `name`, and no other.
pub open spec fn with_header(
    headers: Seq<(Seq<char>, Seq<u8>)>,
    name: Seq<char>,
    value: Seq<u8>,
) -> Seq<(Seq<char>, Seq<u8>)> {
    without_name(headers, name).push((name, value))
}

fn is_listed(names: &Vec<String>, name: &str) -> (r: bool)
    ensures
        r == listed(text::views(names@), name@),
{
    let mut i: usize = 0;
    while i < names.len()
        invariant
            i <= names@.len(),
            forall|j: int|
                0 <= j < i ==> text::ascii_lower(#[trigger] text::views(names@)[j])
                    != text::ascii_lower(name@),
        decreases names@.len() - i,
    {
        if text::eq_ignore_ascii_case(names[i].as_str(), name) {
            proof {
                assert(text::ascii_lower(text::views(names@)[i as int]) == text::ascii_lower(
                    name@,
                ));
            }
            return true;
        }
        i += 1;
    }
    false
}

fn copy_bytes(v: &Vec<u8>) -> (r: Vec<u8>)
    ensures
        r@ == v@,
{
    let mut out: Vec<u8> = Vec::new();
    let mut i: usize = 0;
    while i < v.len()
        invariant
            i <= v@.len(),
            out@ == v@.take(i as int),
        decreases v@.len() - i,
    {
        out.push(v[i]);
        i += 1;
        proof {
            assert(out@ =~= v@.take(i as int));
        }
    }
    proof {
        assert(v@.take(v@.len() as int) =~= v@);
    }
    out
}

proof fn lemma_header_push(h: Seq<Header>, x: Header)
    ensures
        header_views(h.push(x)) == header_views(h).push(x.pair()),
{
    assert(header_views(h.push(x)) =~= header_views(h).push(x.pair()));
}

fn strip_headers(headers: &Vec<Header>, names: &Vec<String>) -> (r: Vec<Header>)
    ensures
        header_views(r@) == without_listed(header_views(headers@), text::views(names@)),
{
    let ghost all = header_views(headers@);
    let mut out: Vec<Header> = Vec::new();
    let mut i: usize = 0;
    proof {
        assert(all.take(0) =~= Seq::empty());
        assert(header_views(out@) =~= Seq::empty());
    }
    while i < headers.len()
        invariant
            i <= headers@.len(),
            all == header_views(headers@),
            header_views(out@) == without_listed(all.take(i as int), text::views(names@)),
        decreases headers@.len() - i,
    {
        proof {
            assert(all.take(i as int + 1).drop_last() =~= all.take(i as int));
            assert(all.take(i as int + 1).last() == headers@[i as int].pair());
        }
        if !is_listed(names, headers[i].name.as_str()) {
            let kept = Header {
                name: headers[i].name.clone(),
                value: copy_bytes(&headers[i].value),
            };
            proof {
                lemma_header_push(out@, kept);
            }
            out.push(kept);
        }
        i += 1;
    }
    proof {
        assert(all.take(all.len() as int) =~= all);
    }
    out
}

fn set_header(headers: &Vec<Header>, name: &str, value: Vec<u8>) -> (r: Vec<Header>)
    ensures
        header_views(r@) == with_header(header_views(headers@), name@, value@),
{
    let ghost all = header_views(headers@);
    let mut out: Vec<Header> = Vec::new();
    let mut i: usize = 0;
    proof {
        assert(all.take(0) =~= Seq::empty());
        assert(header_views(out@) =~= Seq::empty());
    }
    while i < headers.len()
        invariant
            i <= headers@.len(),
            all == header_views(headers@),
            header_views(out@) == without_name(all.take(i as int), name@),
        decreases headers@.len() - i,
    {
        proof {
            assert(all.take(i as int + 1).drop_last() =~= all.take(i as int));
            assert(all.take(i as int + 1).last() == headers@[i as int].pair());
        }
        if !text::str_eq(headers[i].name.as_str(), name) {
            let kept = Header {
                name: headers[i].name.clone(),
                value: copy_bytes(&headers[i].value),
            };
            proof {
                lemma_header_push(out@, kept);
            }
            out.push(kept);
        }
        i += 1;
    }
    proof {
        assert(all.take(all.len() as int) =~= all);
    }
    let last = Header { name: name.to_owned(), value };
    proof {
        lemma_header_push(out@, last);
    }
    out.push(last);
    out
}

/// The model of a request that goes out, or what is wrong with it.
pub open spec fn sent_view(r: Result<UpstreamRequest, String>) -> Result<
    (Seq<char>, Seq<(Seq<char>, Seq<u8>)>),
    Seq<char>,
> {
    match r {
        Ok(u) => Ok((u.uri@, header_views(u.headers@))),
        Err(e) => Err(e@),
    }
}

/// The authority that a rule sends requests for a host to.
pub open spec fn upstream_of(rule: RuleView, hostname: Seq<char>) -> Seq<char> {
    match rule.upstream_authority {
        Some(a) => a,
        None => hostname,
    }
}

/// The request that goes out by a rule: to the upstream of the rule, without
/// the headers that the rule takes off, with the credential and the host put
/// on.
pub open spec fn upstream_request(
    path: Seq<char>,
    headers: Seq<(Seq<char>, Seq<u8>)>,
    rule: RuleView,
    credential: Seq<char>,
    hostname: Seq<char>,
) -> Result<(Seq<char>, Seq<(Seq<char>, Seq<u8>)>), Seq<char>> {
    let target = rule.upstream_scheme + "://"@ + upstream_of(rule, hostname) + path;
    match uri_text(target) {
        None => Err("build upstream uri for "@ + hostname),
        Some(uri) => match header_name_of(rule.header_name) {
            None => Err("invalid header name "@ + rule.header_name),
            Some(name) => if !is_header_value(rule.header_value(credential)) {
                Err("render credential into header value"@)
            } else if !is_header_value(hostname) {
                Err("set Host"@)
            } else {
                Ok(
                    (
                        uri,
                        with_header(
                            with_header(
                                without_listed(headers, rule.strip_headers),
                                name,
                                encode_utf8(rule.header_value(credential)),
                            ),
                            "host"@,
                            encode_utf8(hostname),
                        ),
                    ),
                )
            },
        },
    }
}

/// The request that goes out by a rule.
pub fn build_upstream_request(
    incoming: &IncomingRequest,
    rule: &AuthRule,
    credential: &str,
    hostname: &str,
) -> (r: Result<UpstreamRequest, String>)
    ensures
        sent_view(r) == upstream_request(
            path_of(*incoming),
            header_views(incoming.headers@),
            rule@,
            credential@,
            hostname@,
        ),
{
    let path = request_path(incoming);
    let authority = match &rule.upstream_authority {
        Some(a) => a.clone(),
        None => hostname.to_owned(),
    };
    let target = text::concat4(
        rule.upstream_scheme.as_str(),
        "://",
        authority.as_str(),
        path.as_str(),
    );
    let uri = match parse_uri(target.as_str()) {
        Some(u) => u,
        None => {
            return Err(text::concat2("build upstream uri for ", hostname));
        },
    };
    let kept = strip_headers(&incoming.headers, &rule.strip_headers);
    let name = match parse_header_name(rule.header_name.as_str()) {
        Some(n) => n,
        None => {
            return Err(text::concat2("invalid header name ", rule.header_name.as_str()));
        },
    };
    let rendered = rule.render_header_value(credential);
    let value = match header_value(rendered.as_str()) {
        Some(v) => v,
        None => {
            return Err("render credential into header value".to_owned());
        },
    };
    let injected = set_header(&kept, name.as_str(), value);
    let host = match header_value(hostname) {
        Some(v) => v,
        None => {
            return Err("set Host".to_owned());
        },
    };
    let headers = set_header(&injected, "host", host);
    Ok(UpstreamRequest { uri, headers })
}

/// The request that goes out as it came, to the host that it names.
pub open spec fn passed_request(
    path: Seq<char>,
    headers: Seq<(Seq<char>, Seq<u8>)>,
    hostname: Seq<char>,
) -> Result<(Seq<char>, Seq<(Seq<char>, Seq<u8>)>), Seq<char>> {
    match uri_text("https://"@ + hostname + path) {
        None => Err("build passthrough uri for "@ + hostname),
        Some(uri) => if !is_header_value(hostname) {
            Err("set Host"@)
        } else {
            Ok((uri, with_header(headers, "host"@, encode_utf8(hostname))))
        },
    }
}

/// The request that goes out as it came, to the host that it names.
pub fn passthrough(incoming: &IncomingRequest, hostname: &str) -> (r: Result<
    UpstreamRequest,
    String,
>)
    ensures
        sent_view(r) == passed_request(
            path_of(*incoming),
            header_views(incoming.headers@),
            hostname@,
        ),
{
    let path = request_path(incoming);
    let target = text::concat3("https://", hostname, path.as_str());
    let uri = match parse_uri(target.as_str()) {
        Some(u) => u,
        None => {
            return Err(text::concat2("build passthrough uri for ", hostname));
        },
    };
    let host = match header_value(hostname) {
        Some(v) => v,
        None => {
            return Err("set Host".to_owned());
        },
    };
    let headers = set_header(&incoming.headers, "host", host);
    Ok(UpstreamRequest { uri, headers })
}

/// Whether `r` is what a request is opened with: `event` is its record.
pub open spec fn opened(
    config: AuthGatewayConfig,
    req: IncomingRequest,
    now: Timestamp,
    r: Opening,
    event: Option<AuditView>,
) -> bool {
    let views = rules::rule_views(config.rules@);
    match requested_host(req) {
        None => r matches Opening::Reply(reply) && event is None && fails_with(
            reply,
            "missing Host header"@,
        ),
        Some(host) => {
            let i = rules::rule_for(views, host, 0);
            if i < views.len() {
                let target = views[i].upstream_authority;
                if target is Some && firewall::forbids(config.firewall, target->0) {
                    &&& r matches Opening::Reply(reply) && refuses_with(
                        reply,
                        BLOCK_REASON_PRIVATE_UPSTREAM@,
                    )
                    &&& event == Some(
                        AuditView::Blocked {
                            timestamp: now,
                            client_ip: Some(req.peer_ip@),
                            hostname: host,
                            method: req.method@,
                            path: path_of(req),
                            reason: BLOCK_REASON_PRIVATE_UPSTREAM@,
                        },
                    )
                } else {
                    r matches Opening::Lookup(m) && event is None && m.hostname@ == host
                        && m.method@ == req.method@ && m.path@ == path_of(req) && m.rule == i
                }
            } else if config.on_miss is Reject {
                &&& r matches Opening::Reply(reply) && refuses_with(
                    reply,
                    "no auth gateway rule for host "@ + host,
                )
                &&& event == Some(
                    AuditView::Blocked {
                        timestamp: now,
                        client_ip: Some(req.peer_ip@),
                        hostname: host,
                        method: req.method@,
                        path: path_of(req),
                        reason: "no rule for host"@,
                    },
                )
            } else {
                event is None && match passed_request(
                    path_of(req),
                    header_views(req.headers@),
                    host,
                ) {
                    Ok(p) => r matches Opening::Passthrough(u) && (
                        u.uri@,
                        header_views(u.headers@),
                    ) == p,
                    Err(e) => r matches Opening::Reply(reply) && fails_with(reply, e),
                }
            }
        },
    }
}

fn blocked_event(
    req: &IncomingRequest,
    hostname: &str,
    path: &str,
    reason: &str,
    now: Timestamp,
) -> (r: AuditEvent)
    ensures
        r@ == (AuditView::Blocked {
            timestamp: now,
            client_ip: Some(req.peer_ip@),
            hostname: hostname@,
            method: req.method@,
            path: path@,
            reason: reason@,
        }),
{
    AuditEvent::Blocked {
        timestamp: now,
        client_ip: Some(req.peer_ip),
        hostname: hostname.to_owned(),
        method: req.method.clone(),
        path: path.to_owned(),
        reason: reason.to_owned(),
    }
}

/// Decides what to do with a request, and what to record of it. A host that no
/// rule names is turned away, or its request sent on as it came; a rule that
/// points at a forbidden address turns the request away.
pub fn open_request(config: &AuthGatewayConfig, req: &IncomingRequest, now: Timestamp) -> (r: (
    Opening,
    Option<AuditEvent>,
))
    ensures
        opened(*config, *req, now, r.0, audit::opt_event_view(r.1)),
{
    let path = request_path(req);
    let hostname = match request_hostname(req) {
        Some(h) => h,
        None => {
            return (Opening::Reply(gateway_error("missing Host header")), None);
        },
    };
    match config.match_index(hostname.as_str()) {
        Some(i) => {
            let rule = &config.rules[i];
            let ghost views = rules::rule_views(config.rules@);
            proof {
                assert(views[i as int] == rule@);
            }
            match &rule.upstream_authority {
                Some(authority) => {
                    if config.firewall.forbids_upstream(authority.as_str()) {
                        let event = blocked_event(
                            req,
                            hostname.as_str(),
                            path.as_str(),
                            BLOCK_REASON_PRIVATE_UPSTREAM,
                            now,
                        );
                        let reply = error_response(502, BLOCK_REASON_PRIVATE_UPSTREAM);
                        return (Opening::Reply(reply), Some(event));
                    }
                },
                None => {},
            }
            let m = Matched { hostname, method: req.method.clone(), path, rule: i };
            (Opening::Lookup(m), None)
        },
        None => match config.on_miss {
            MissPolicy::Reject => {
                let event = blocked_event(
                    req,
                    hostname.as_str(),
                    path.as_str(),
                    "no rule for host",
                    now,
                );
                let msg = text::concat2("no auth gateway rule for host ", hostname.as_str());
                (Opening::Reply(error_response(502, msg.as_str())), Some(event))
            },
            MissPolicy::Passthrough => match passthrough(req, hostname.as_str()) {
                Ok(u) => (Opening::Passthrough(u), None),
                Err(e) => (Opening::Reply(gateway_error(e.as_str())), None),
            },
        },
    }
}

/// The record of a credential that is not there.
pub open spec fn missing_event(rule: RuleView, hostname: Seq<char>, now: Timestamp) -> AuditView {
    AuditView::CredentialMissing {
        timestamp: now,
        hostname,
        provider_id: rule.provider_id,
        env_key: rule.env_key,
    }
}

/// Whether `r` is what follows the lookup of a credential: `event` is its
/// record.
pub open spec fn looked_up(
    rule: RuleView,
    req: IncomingRequest,
    hostname: Seq<char>,
    lookup: Result<Option<String>, String>,
    now: Timestamp,
    r: Forwarding,
    event: Option<AuditView>,
) -> bool {
    match lookup {
        Ok(Some(credential)) if credential@.len() > 0 => event is None && match upstream_request(
            path_of(req),
            header_views(req.headers@),
            rule,
            credential@,
            hostname,
        ) {
            Ok(p) => r matches Forwarding::Send(u) && (u.uri@, header_views(u.headers@)) == p,
            Err(e) => r matches Forwarding::Reply(reply) && fails_with(reply, e),
        },
        Ok(_) => r matches Forwarding::Reply(reply) && event == Some(
            missing_event(rule, hostname, now),
        ) && refuses_with(
            reply,
            "credential "@ + rule.provider_id + ":"@ + rule.env_key + " not configured"@,
        ),
        Err(e) => r matches Forwarding::Reply(reply) && event == Some(
            missing_event(rule, hostname, now),
        ) && refuses_with(reply, "credential lookup failed: "@ + e@),
    }
}

fn record_missing(rule: &AuthRule, hostname: &str, now: Timestamp) -> (r: AuditEvent)
    ensures
        r@ == missing_event(rule@, hostname@, now),
{
    AuditEvent::CredentialMissing {
        timestamp: now,
        hostname: hostname.to_owned(),
        provider_id: rule.provider_id.clone(),
        env_key: rule.env_key.clone(),
    }
}

/// Decides what to do once the credential was looked up: an empty one counts
/// as none, and without one nothing goes out.
pub fn with_credential(
    rule: &AuthRule,
    req: &IncomingRequest,
    hostname: &str,
    lookup: &Result<Option<String>, String>,
    now: Timestamp,
) -> (r: (Forwarding, Option<AuditEvent>))
    ensures
        looked_up(rule@, *req, hostname@, *lookup, now, r.0, audit::opt_event_view(r.1)),
{
    match lookup {
        Ok(found) => {
            match found {
                Some(credential) => {
                    if credential.as_str().unicode_len() > 0 {
                        return match build_upstream_request(req, rule, credential.as_str(), hostname) {
                            Ok(u) => (Forwarding::Send(u), None),
                            Err(e) => (Forwarding::Reply(gateway_error(e.as_str())), None),
                        };
                    }
                },
                None => {},
            }
            let msg = text::concat5(
                "credential ",
                rule.provider_id.as_str(),
                ":",
                rule.env_key.as_str(),
                " not configured",
            );
            (
                Forwarding::Reply(error_response(502, msg.as_str())),
                Some(record_missing(rule, hostname, now)),
            )
        },
        Err(e) => {
            let msg = text::concat2("credential lookup failed: ", e.as_str());
            (
                Forwarding::Reply(error_response(502, msg.as_str())),
                Some(record_missing(rule, hostname, now)),
            )
        },
    }
}

/// Whether `r` is what follows the answer of an upstream: `event` is its
/// record.
pub open spec fn answered(
    rule: RuleView,
    req: IncomingRequest,
    m: Matched,
    outcome: Result<u16, String>,
    now: Timestamp,
    r: Option<Reply>,
    event: AuditView,
) -> bool {
    match outcome {
        Ok(status) => r is None && event == (AuditView::Injected {
            timestamp: now,
            client_ip: Some(req.peer_ip@),
            hostname: m.hostname@,
            provider_id: rule.provider_id,
            env_key: rule.env_key,
            method: m.method@,
            path: m.path@,
            status,
        }),
        Err(e) => r is Some && fails_with(
            r->0,
            "upstream request to "@ + m.hostname@ + ": "@ + e@,
        ) && event == (AuditView::UpstreamError {
            timestamp: now,
            hostname: m.hostname@,
            provider_id: rule.provider_id,
            error: e@,
        }),
    }
}

/// Decides what to do once the upstream answered with a status, or failed: an
/// answer is handed on, a failure reported.
pub fn upstream_answered(
    rule: &AuthRule,
    req: &IncomingRequest,
    m: &Matched,
    outcome: &Result<u16, String>,
    now: Timestamp,
) -> (r: (Option<Reply>, AuditEvent))
    ensures
        answered(rule@, *req, *m, *outcome, now, r.0, r.1@),
{
    match outcome {
        Ok(status) => (
            None,
            AuditEvent::Injected {
                timestamp: now,
                client_ip: Some(req.peer_ip),
                hostname: m.hostname.clone(),
                provider_id: rule.provider_id.clone(),
                env_key: rule.env_key.clone(),
                method: m.method.clone(),
                path: m.path.clone(),
                status: *status,
            },
        ),
        Err(e) => {
            let msg = text::concat4(
                "upstream request to ",
                m.hostname.as_str(),
                ": ",
                e.as_str(),
            );
            (
                Some(gateway_error(msg.as_str())),
                AuditEvent::UpstreamError {
                    timestamp: now,
                    hostname: m.hostname.clone(),
                    provider_id: rule.provider_id.clone(),
                    error: e.clone(),
                },
            )
        },
    }
}

/// The answer to a request that was to be sent on as it came and could not be.
pub fn passthrough_failed() -> (r: Reply)
    ensures
        fails_with(r, "passthrough request"@),
{
    gateway_error("passthrough request")
}

proof fn lemma_kept(
    headers: Seq<(Seq<char>, Seq<u8>)>,
    names: Seq<Seq<char>>,
    x: (Seq<char>, Seq<u8>),
)
    ensures
        without_listed(headers, names).contains(x) ==> headers.contains(x) && !listed(names, x.0),
    decreases headers.len(),
{
    if headers.len() > 0 && without_listed(headers, names).contains(x) {
        let front = headers.drop_last();
        lemma_kept(front, names, x);
        let kept = without_listed(headers, names);
        let j = choose|j: int| 0 <= j < kept.len() && kept[j] == x;
        if without_listed(front, names).contains(x) {
            let k = choose|k: int| 0 <= k < front.len() && front[k] == x;
            assert(headers[k] == x);
        } else {
            if !listed(names, headers.last().0) {
                if j < kept.len() - 1 {
                    assert(without_listed(front, names)[j] == x);
                }
                assert(x == headers.last());
                assert(headers[headers.len() - 1] == x);
            }
        }
    }
}

proof fn lemma_other(
    headers: Seq<(Seq<char>, Seq<u8>)>,
    name: Seq<char>,
    x: (Seq<char>, Seq<u8>),
)
    ensures
        without_name(headers, name).contains(x) ==> headers.contains(x) && x.0 != name,
        headers.contains(x) && x.0 != name ==> without_name(headers, name).contains(x),
    decreases headers.len(),
{
    if headers.len() > 0 {
        let front = headers.drop_last();
        let rest = without_name(front, name);
        let all = without_name(headers, name);
        lemma_other(front, name, x);
        if all.contains(x) {
            let j = choose|j: int| 0 <= j < all.len() && all[j] == x;
            if rest.contains(x) {
                let k = choose|k: int| 0 <= k < front.len() && front[k] == x;
                assert(headers[k] == x);
            } else {
                if j < rest.len() {
                    assert(rest[j] == x);
                }
                assert(headers[headers.len() - 1] == x);
            }
        }
        if headers.contains(x) && x.0 != name {
            let k = choose|k: int| 0 <= k < headers.len() && headers[k] == x;
            if k < front.len() {
                assert(front[k] == x);
                let j = choose|j: int| 0 <= j < rest.len() && rest[j] == x;
                assert(all[j] == x);
            } else {
                assert(all[all.len() - 1] == x);
            }
        }
    }
}

/// A request that goes out by a rule carries the credential of the store in
/// the header of the rule, and no other value in it: what the agent sent there
/// is gone. (A rule whose header is `host` itself is another matter: there the
/// host goes out.)
pub proof fn law_only_the_credential_goes_out(
    path: Seq<char>,
    headers: Seq<(Seq<char>, Seq<u8>)>,
    rule: RuleView,
    credential: Seq<char>,
    hostname: Seq<char>,
    value: Seq<u8>,
)
    requires
        upstream_request(path, headers, rule, credential, hostname) is Ok,
        text::ascii_lower(rule.header_name) != "host"@,
    ensures
        upstream_request(path, headers, rule, credential, hostname)->Ok_0.1.contains(
            (text::ascii_lower(rule.header_name), value),
        ) <==> value == encode_utf8(rule.header_value(credential)),
{
    let name = text::ascii_lower(rule.header_name);
    let kept = without_listed(headers, rule.strip_headers);
    let injected = with_header(kept, name, encode_utf8(rule.header_value(credential)));
    let out = with_header(injected, "host"@, encode_utf8(hostname));
    let x = (name, value);
    lemma_other(kept, name, x);
    lemma_other(injected, "host"@, x);
    let clean = without_name(kept, name);
    if value == encode_utf8(rule.header_value(credential)) {
        assert(injected[clean.len() as int] == x);
        let j = choose|j: int|
            0 <= j < without_name(injected, "host"@).len() && without_name(injected, "host"@)[j]
                == x;
        assert(out[j] == x);
    }
    if out.contains(x) {
        let j = choose|j: int| 0 <= j < out.len() && out[j] == x;
        assert(without_name(injected, "host"@)[j] == x);
        let k = choose|k: int| 0 <= k < injected.len() && injected[k] == x;
        if k < clean.len() {
            assert(clean[k] == x);
        }
    }
}

/// Of the headers that an agent sent, a request that goes out by a rule
/// carries none that the rule takes off: every header of it is the rule's, the
/// host, or one that came in and is not on the list.
pub proof fn law_stripped_headers_stay_behind(
    path: Seq<char>,
    headers: Seq<(Seq<char>, Seq<u8>)>,
    rule: RuleView,
    credential: Seq<char>,
    hostname: Seq<char>,
    x: (Seq<char>, Seq<u8>),
)
    requires
        upstream_request(path, headers, rule, credential, hostname) is Ok,
        upstream_request(path, headers, rule, credential, hostname)->Ok_0.1.contains(x),
    ensures
        x == (text::ascii_lower(rule.header_name), encode_utf8(rule.header_value(credential)))
            || x == ("host"@, encode_utf8(hostname)) || (headers.contains(x) && !listed(
            rule.strip_headers,
            x.0,
        )),
{
    let name = text::ascii_lower(rule.header_name);
    let kept = without_listed(headers, rule.strip_headers);
    let injected = with_header(kept, name, encode_utf8(rule.header_value(credential)));
    let out = with_header(injected, "host"@, encode_utf8(hostname));
    lemma_kept(headers, rule.strip_headers, x);
    lemma_other(kept, name, x);
    lemma_other(injected, "host"@, x);
    let j = choose|j: int| 0 <= j < out.len() && out[j] == x;
    if j < out.len() - 1 {
        assert(without_name(injected, "host"@)[j] == x);
        let k = choose|k: int| 0 <= k < injected.len() && injected[k] == x;
        if k < injected.len() - 1 {
            assert(without_name(kept, name)[k] == x);
        }
    }
}

/// A request whose host no rule names does not go out while misses are
/// rejected: it is answered 502 and recorded as blocked.
pub proof fn law_unknown_host_is_refused(
    config: AuthGatewayConfig,
    req: IncomingRequest,
    now: Timestamp,
    r: Opening,
    event: Option<AuditView>,
)
    requires
        opened(config, req, now, r, event),
        config.on_miss is Reject,
        requested_host(req) is Some,
        rules::rule_for(rules::rule_views(config.rules@), requested_host(req)->0, 0)
            >= config.rules@.len(),
    ensures
        r matches Opening::Reply(reply) && reply.status == 502,
        event matches Some(e) && e is Blocked,
{
}

/// A request by a rule that points at a private or loopback address does not
/// go out unless such upstreams are allowed: it is answered 502 and recorded as
/// blocked, whatever credential there is.
pub proof fn law_private_upstream_is_refused(
    config: AuthGatewayConfig,
    req: IncomingRequest,
    now: Timestamp,
    r: Opening,
    event: Option<AuditView>,
    i: int,
)
    requires
        opened(config, req, now, r, event),
        requested_host(req) is Some,
        i == rules::rule_for(rules::rule_views(config.rules@), requested_host(req)->0, 0),
        i < config.rules@.len(),
        config.rules@[i].upstream_authority is Some,
        firewall::ip_authority(config.rules@[i].upstream_authority->0@) matches Some((ip, _, _))
            && firewall::blocked(ip),
        !config.firewall.allow_private_upstreams,
    ensures
        r matches Opening::Reply(reply) && reply.status == 502,
        event matches Some(e) && e is Blocked,
{
}

/// Nothing goes out without a credential: a request is sent only where the
/// lookup gave one that is not empty.
pub proof fn law_no_credential_nothing_sent(
    rule: RuleView,
    req: IncomingRequest,
    hostname: Seq<char>,
    lookup: Result<Option<String>, String>,
    now: Timestamp,
    r: Forwarding,
    event: Option<AuditView>,
)
    requires
        looked_up(rule, req, hostname, lookup, now, r, event),
        r is Send,
    ensures
        lookup matches Ok(Some(c)) && c@.len() > 0,
        event is None,
{
}

} // verus!
