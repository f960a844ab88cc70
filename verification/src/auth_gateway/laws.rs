//! What holds of the gateway as a whole.

use vstd::prelude::*;
use vstd::utf8::encode_utf8;
use crate::auth_gateway::audit::AuditView;
use crate::auth_gateway::firewall;
use crate::auth_gateway::firewall::FirewallPolicy;
use crate::auth_gateway::proxy;
use crate::auth_gateway::proxy::{Forwarding, IncomingRequest, Matched, Opening, Reply};
use crate::auth_gateway::rules;
use crate::auth_gateway::rules::{AuthGatewayConfig, RuleView};
use crate::net;
use crate::net::Ipv4Addr;
use crate::text;
use crate::text_laws;
use crate::time::Timestamp;

verus! {

/// Whether two names differ at most in the case of their letters.
pub open spec fn same_name(a: Seq<char>, b: Seq<char>) -> bool {
    text::ascii_lower(a) == text::ascii_lower(b)
}

/// The rule for a host is the first that names it, whatever the case of its
/// letters.
pub proof fn law_rule_of_a_host(rules: Seq<RuleView>, host: Seq<char>, i: int)
    requires
        0 <= i <= rules.len(),
        forall|j: int| 0 <= j < i ==> !same_name((#[trigger] rules[j]).hostname, host),
        i < rules.len() ==> same_name(rules[i].hostname, host),
    ensures
        rules::rule_for(rules, host, 0) == i,
{
    lemma_rule_for(rules, host, 0, i);
}

proof fn lemma_rule_for(rules: Seq<RuleView>, host: Seq<char>, from: int, i: int)
    requires
        0 <= from <= i <= rules.len(),
        forall|j: int| 0 <= j < i ==> !same_name((#[trigger] rules[j]).hostname, host),
        i < rules.len() ==> same_name(rules[i].hostname, host),
    ensures
        rules::rule_for(rules, host, from) == i,
    decreases i - from,
{
    if from < i {
        assert(!same_name(rules[from].hostname, host));
        lemma_rule_for(rules, host, from + 1, i);
    }
}

/// The credential stands in the header where the format has its place, and what
/// stands around that stays.
pub proof fn law_credential_in_the_header(
    rule: RuleView,
    front: Seq<char>,
    back: Seq<char>,
    credential: Seq<char>,
)
    requires
        rule.header_format == front + "{key}"@ + back,
        !front.contains('{'),
        !back.contains('{'),
    ensures
        rule.header_value(credential) == front + credential + back,
{
    reveal_strlit("{key}");
    let pat = "{key}"@;
    assert(pat[0] == '{');
    assert(text_laws::apart(front, pat)) by {
        assert forall|at: int| 0 <= at < front.len() implies !#[trigger] text_laws::occurs_at(
            front + pat,
            at,
            pat,
        ) by {
            if text_laws::occurs_at(front + pat, at, pat) {
                assert((front + pat).subrange(at, at + pat.len())[0] == (front + pat)[at]);
                assert((front + pat)[at] == front[at]);
            }
        }
    }
    assert(text_laws::absent(back, pat)) by {
        assert forall|at: int| !#[trigger] text_laws::occurs_at(back, at, pat) by {
            if text_laws::occurs_at(back, at, pat) {
                assert(back.subrange(at, at + pat.len())[0] == back[at]);
            }
        }
    }
    text_laws::law_first_occurrence_is_replaced(front, pat, back, credential);
    text_laws::law_nothing_to_replace(back, pat, credential);
}

/// The host of an authority is what stands before its port; a host without one
/// stays, and so does an address in brackets.
pub proof fn law_host_without_port(host: Seq<char>, port: Seq<char>)
    requires
        !port.contains(':'),
    ensures
        host.len() > 0 && host[0] != '[' ==> proxy::host_only(host + seq![':'] + port) == host,
        port.len() > 0 ==> proxy::host_only(port) == port,
        proxy::host_only(seq!['['] + host) == seq!['['] + host,
{
    let s = host + seq![':'] + port;
    lemma_last_of(host, port);
    assert(s.take(host.len() as int) =~= host);
    assert(s[0] == host[0] || host.len() == 0);
    lemma_no_colon(port);
}

proof fn lemma_last_of(host: Seq<char>, port: Seq<char>)
    requires
        !port.contains(':'),
    ensures
        proxy::last_of(host + seq![':'] + port, ':') == host.len(),
    decreases port.len(),
{
    let s = host + seq![':'] + port;
    if port.len() > 0 {
        let rest = port.drop_last();
        assert(!rest.contains(':')) by {
            if rest.contains(':') {
                let k = choose|k: int| 0 <= k < rest.len() && rest[k] == ':';
                assert(port[k] == ':');
            }
        }
        lemma_last_of(host, rest);
        assert(s.drop_last() =~= host + seq![':'] + rest);
        assert(s.last() == port.last());
        assert(port[port.len() - 1] != ':');
    }
}

proof fn lemma_no_colon(s: Seq<char>)
    requires
        !s.contains(':'),
    ensures
        proxy::last_of(s, ':') == -1,
    decreases s.len(),
{
    if s.len() > 0 {
        let rest = s.drop_last();
        assert(!rest.contains(':')) by {
            if rest.contains(':') {
                let k = choose|k: int| 0 <= k < rest.len() && rest[k] == ':';
                assert(s[k] == ':');
            }
        }
        lemma_no_colon(rest);
        assert(s[s.len() - 1] != ':');
    }
}

/// The first header of a name counts.
pub proof fn law_first_header_counts(
    headers: Seq<(Seq<char>, Seq<u8>)>,
    name: Seq<char>,
    from: int,
    i: int,
)
    requires
        0 <= from <= i <= headers.len(),
        forall|j: int| from <= j < i ==> (#[trigger] headers[j]).0 != name,
        i < headers.len() ==> headers[i].0 == name,
    ensures
        proxy::header_from(headers, name, from) == if i < headers.len() {
            Some(headers[i].1)
        } else {
            None
        },
    decreases i - from,
{
    if from < i {
        assert(headers[from].0 != name);
        law_first_header_counts(headers, name, from + 1, i);
    }
}

/// The host of a request is that of its first `host` header, without the port,
/// where that is plain text; else that of its target.
pub proof fn law_host_of_a_request(req: IncomingRequest, i: int)
    requires
        0 <= i <= req.headers@.len(),
        forall|j: int| 0 <= j < i ==> (#[trigger] req.headers@[j]).name@ != "host"@,
        i < req.headers@.len() ==> req.headers@[i].name@ == "host"@,
    ensures
        i == req.headers@.len() ==> proxy::requested_host(req) == text::opt_view(req.uri_host),
        i < req.headers@.len() && (forall|k: int|
            0 <= k < req.headers@[i].value@.len() ==> 32 <= #[trigger] req.headers@[i].value@[k]
                < 127) ==> proxy::requested_host(req) == Some(
            proxy::host_only(
                Seq::new(
                    req.headers@[i].value@.len(),
                    |k: int| req.headers@[i].value@[k] as char,
                ),
            ),
        ),
{
    let h = proxy::header_views(req.headers@);
    assert forall|j: int| 0 <= j < i implies (#[trigger] h[j]).0 != "host"@ by {
        assert(req.headers@[j].name@ != "host"@);
    }
    law_first_header_counts(h, "host"@, 0, i);
}

/// Says of a header whether its name is another than `name`.
pub open spec fn not_named(name: Seq<char>) -> spec_fn((Seq<char>, Seq<u8>)) -> bool {
    |h: (Seq<char>, Seq<u8>)| h.0 != name
}

/// Says of a header whether it has none of the names, whatever the case of their
/// letters.
pub open spec fn on_no_list(names: Seq<Seq<char>>) -> spec_fn((Seq<char>, Seq<u8>)) -> bool {
    |h: (Seq<char>, Seq<u8>)|
        !exists|j: int| 0 <= j < names.len() && same_name(#[trigger] names[j], h.0)
}

/// Taking headers off leaves all others, in their order.
pub proof fn law_other_headers_stay(
    headers: Seq<(Seq<char>, Seq<u8>)>,
    names: Seq<Seq<char>>,
    name: Seq<char>,
)
    ensures
        proxy::without_listed(headers, names) == headers.filter(on_no_list(names)),
        proxy::without_name(headers, name) == headers.filter(not_named(name)),
    decreases headers.len(),
{
    reveal(Seq::filter);
    if headers.len() > 0 {
        law_other_headers_stay(headers.drop_last(), names, name);
        let h = headers.last();
        assert(proxy::listed(names, h.0) == exists|j: int|
            0 <= j < names.len() && same_name(#[trigger] names[j], h.0)) by {
            if proxy::listed(names, h.0) {
                let j = choose|j: int|
                    0 <= j < names.len() && text::ascii_lower(#[trigger] names[j])
                        == text::ascii_lower(h.0);
                assert(same_name(names[j], h.0));
            }
            if exists|j: int| 0 <= j < names.len() && same_name(#[trigger] names[j], h.0) {
                let j = choose|j: int| 0 <= j < names.len() && same_name(#[trigger] names[j], h.0);
                assert(text::ascii_lower(names[j]) == text::ascii_lower(h.0));
            }
        }
    }
}

/// What goes out by a rule: to the address of the rule, or else the host itself,
/// by the scheme of the rule and with the path that came in; with the headers
/// that came in, but for those that the rule takes off and those that it sets,
/// then the credential and the host.
pub proof fn law_request_by_a_rule(
    path: Seq<char>,
    headers: Seq<(Seq<char>, Seq<u8>)>,
    rule: RuleView,
    credential: Seq<char>,
    host: Seq<char>,
)
    requires
        proxy::upstream_request(path, headers, rule, credential, host) is Ok,
        text::ascii_lower(rule.header_name) != "host"@,
    ensures
        ({
            let (uri, sent) = proxy::upstream_request(path, headers, rule, credential, host)->Ok_0;
            let name = text::ascii_lower(rule.header_name);
            let kept = headers.filter(on_no_list(rule.strip_headers)).filter(
                not_named(name),
            ).filter(not_named("host"@));
            &&& proxy::uri_text(
                rule.upstream_scheme + "://"@ + (match rule.upstream_authority {
                    Some(a) => a,
                    None => host,
                }) + path,
            ) == Some(uri)
            &&& sent == kept.push((name, encode_utf8(rule.header_value(credential)))).push(
                ("host"@, encode_utf8(host)),
            )
        }),
{
    let name = text::ascii_lower(rule.header_name);
    let none = Seq::<Seq<char>>::empty();
    let off = proxy::without_listed(headers, rule.strip_headers);
    law_other_headers_stay(headers, rule.strip_headers, name);
    law_other_headers_stay(off, none, name);
    let clean = proxy::without_name(off, name);
    let own = (name, encode_utf8(rule.header_value(credential)));
    law_other_headers_stay(clean.push(own), none, "host"@);
    law_other_headers_stay(clean, none, "host"@);
    assert(clean.push(own).drop_last() =~= clean);
    assert(clean.push(own).last() == own);
}

/// What goes out as it came: to the host itself, with all headers that came in
/// and the host.
pub proof fn law_request_passed_on(
    path: Seq<char>,
    headers: Seq<(Seq<char>, Seq<u8>)>,
    host: Seq<char>,
)
    requires
        proxy::passed_request(path, headers, host) is Ok,
    ensures
        ({
            let (uri, sent) = proxy::passed_request(path, headers, host)->Ok_0;
            &&& proxy::uri_text("https://"@ + host + path) == Some(uri)
            &&& sent == headers.filter(not_named("host"@)).push(
                ("host"@, encode_utf8(host)),
            )
        }),
{
    law_other_headers_stay(headers, Seq::empty(), "host"@);
}

/// A request for a host that a rule names goes on to the lookup of the credential
/// of the first such rule, unless the upstream of the rule is forbidden; a
/// request that names no host is answered 502 and not recorded.
pub proof fn law_known_host_is_looked_up(
    config: AuthGatewayConfig,
    req: IncomingRequest,
    now: Timestamp,
    r: Opening,
    event: Option<AuditView>,
    i: int,
)
    requires
        proxy::opened(config, req, now, r, event),
    ensures
        proxy::requested_host(req) is None ==> event is None && (r matches Opening::Reply(reply)
            && reply.status == 502),
        proxy::requested_host(req) is Some && 0 <= i < config.rules@.len() && same_name(
            config.rules@[i].hostname@,
            proxy::requested_host(req)->0,
        ) && (forall|j: int|
            0 <= j < i ==> !same_name(
                (#[trigger] config.rules@[j]).hostname@,
                proxy::requested_host(req)->0,
            )) && (config.rules@[i].upstream_authority is None || !firewall::forbids(
            config.firewall,
            config.rules@[i].upstream_authority->0@,
        )) ==> {
            &&& r matches Opening::Lookup(m)
            &&& event is None
            &&& m.rule == i
            &&& m.hostname@ == proxy::requested_host(req)->0
            &&& m.method@ == req.method@
        },
{
    if proxy::requested_host(req) is Some && 0 <= i < config.rules@.len() {
        let views = rules::rule_views(config.rules@);
        let host = proxy::requested_host(req)->0;
        if same_name(config.rules@[i].hostname@, host) && (forall|j: int|
            0 <= j < i ==> !same_name((#[trigger] config.rules@[j]).hostname@, host)) {
            assert forall|j: int| 0 <= j < i implies !same_name(
                (#[trigger] views[j]).hostname,
                host,
            ) by {
                assert(views[j] == config.rules@[j]@);
            }
            assert(views[i] == config.rules@[i]@);
            law_rule_of_a_host(views, host, i);
        }
    }
}

/// Where the credential is there, the request that is made of it goes out, and
/// nothing is recorded yet.
pub proof fn law_credential_is_sent(
    rule: RuleView,
    req: IncomingRequest,
    host: Seq<char>,
    credential: String,
    now: Timestamp,
    r: Forwarding,
    event: Option<AuditView>,
    sent: (Seq<char>, Seq<(Seq<char>, Seq<u8>)>),
)
    requires
        proxy::looked_up(rule, req, host, Ok(Some(credential)), now, r, event),
        credential@.len() > 0,
        proxy::upstream_request(
            proxy::path_of(req),
            proxy::header_views(req.headers@),
            rule,
            credential@,
            host,
        ) == Ok::<(Seq<char>, Seq<(Seq<char>, Seq<u8>)>), Seq<char>>(sent),
    ensures
        event is None,
        r matches Forwarding::Send(u) && u.uri@ == sent.0 && proxy::header_views(u.headers@)
            == sent.1,
{
}

/// A missing, empty or unreadable credential is answered 502 and recorded with
/// the rule that wanted it.
pub proof fn law_missing_credential_is_recorded(
    rule: RuleView,
    req: IncomingRequest,
    host: Seq<char>,
    lookup: Result<Option<String>, String>,
    now: Timestamp,
    r: Forwarding,
    event: Option<AuditView>,
)
    requires
        proxy::looked_up(rule, req, host, lookup, now, r, event),
        !(lookup matches Ok(Some(c)) && c@.len() > 0),
    ensures
        r matches Forwarding::Reply(reply) && reply.status == 502,
        event == Some(
            AuditView::CredentialMissing {
                timestamp: now,
                hostname: host,
                provider_id: rule.provider_id,
                env_key: rule.env_key,
            },
        ),
{
}

/// An answer from upstream is passed on and recorded as an injection with its
/// status; an upstream that does not answer is a 502 and recorded as such.
pub proof fn law_answers_are_recorded(
    rule: RuleView,
    req: IncomingRequest,
    m: Matched,
    outcome: Result<u16, String>,
    now: Timestamp,
    r: Option<Reply>,
    event: AuditView,
)
    requires
        proxy::answered(rule, req, m, outcome, now, r, event),
    ensures
        outcome matches Ok(status) ==> r is None && event == (AuditView::Injected {
            timestamp: now,
            client_ip: Some(req.peer_ip@),
            hostname: m.hostname@,
            provider_id: rule.provider_id,
            env_key: rule.env_key,
            method: m.method@,
            path: m.path@,
            status,
        }),
        outcome matches Err(e) ==> (r matches Some(reply) && reply.status == 502) && event == (
        AuditView::UpstreamError {
            timestamp: now,
            hostname: m.hostname@,
            provider_id: rule.provider_id,
            error: e@,
        }),
{
}

/// An IPv4 address as a number.
pub open spec fn number(ip: Ipv4Addr) -> int {
    ip.a * 0x100_0000 + ip.b * 0x1_0000 + ip.c * 0x100 + ip.d
}

/// The IPv4 addresses that are blocked: 0.0.0.0/8, 10.0.0.0/8, 100.64.0.0/10,
/// 127.0.0.0/8, 169.254.0.0/16, 172.16.0.0/12, 192.168.0.0/16, 224.0.0.0/4 and
/// 255.255.255.255.
pub proof fn law_blocked_v4(ip: Ipv4Addr)
    ensures
        firewall::blocked(net::IpView::V4(ip)) <==> {
            let n = number(ip);
            ||| n <= 0x00ff_ffff
            ||| 0x0a00_0000 <= n <= 0x0aff_ffff
            ||| 0x6440_0000 <= n <= 0x647f_ffff
            ||| 0x7f00_0000 <= n <= 0x7fff_ffff
            ||| 0xa9fe_0000 <= n <= 0xa9fe_ffff
            ||| 0xac10_0000 <= n <= 0xac1f_ffff
            ||| 0xc0a8_0000 <= n <= 0xc0a8_ffff
            ||| 0xe000_0000 <= n <= 0xefff_ffff
            ||| n == 0xffff_ffff
        },
{
}

/// The IPv6 addresses that are blocked: `::`, `::1`, ff00::/8, fc00::/7,
/// fe80::/10, and those that stand for an IPv4 address that is.
pub proof fn law_blocked_v6(s: Seq<u16>)
    requires
        s.len() == 8,
    ensures
        firewall::blocked(net::IpView::V6(s)) <==> {
            ||| s == seq![0u16, 0, 0, 0, 0, 0, 0, 0]
            ||| s == seq![0u16, 0, 0, 0, 0, 0, 0, 1]
            ||| 0xff00 <= s[0]
            ||| 0xfc00 <= s[0] <= 0xfdff
            ||| 0xfe80 <= s[0] <= 0xfebf
            ||| s.take(6) == seq![0u16, 0, 0, 0, 0, 0xffff] && firewall::blocked(
                net::IpView::V4(
                    Ipv4Addr {
                        a: (s[6] / 256) as u8,
                        b: (s[6] % 256) as u8,
                        c: (s[7] / 256) as u8,
                        d: (s[7] % 256) as u8,
                    },
                ),
            )
        },
{
    let zero = seq![0u16, 0, 0, 0, 0, 0, 0, 0];
    let one = seq![0u16, 0, 0, 0, 0, 0, 0, 1];
    let mapped = seq![0u16, 0, 0, 0, 0, 0xffff];
    if firewall::leading_zeros(s) && s[7] == 0 {
        assert(s =~= zero);
    }
    if firewall::leading_zeros(s) && s[7] == 1 {
        assert(s =~= one);
    }
    if net::is_mapped(s) {
        assert(s.take(6) =~= mapped);
    }
    if s.take(6) == mapped {
        assert forall|i: int| 0 <= i < 6 implies s[i] == mapped[i] by {
            assert(s.take(6)[i] == s[i]);
        }
        assert(s[0] == mapped[0] && s[1] == mapped[1] && s[2] == mapped[2] && s[3] == mapped[3]
            && s[4] == mapped[4] && s[5] == mapped[5]);
    }
}

/// A blocked address is forbidden as an upstream, unless private upstreams are
/// allowed; a name is not.
pub proof fn law_forbidden_upstreams(policy: FirewallPolicy, authority: Seq<char>)
    ensures
        firewall::forbids(policy, authority) <==> !policy.allow_private_upstreams && (
        firewall::ip_authority(authority) matches Some((ip, _, _)) && firewall::blocked(ip)),
{
}

/// Every rule that is there from the start goes to its own host over `https`, and
/// takes off what an agent may have sent as a credential; as a bearer the
/// credential goes in `Authorization`, and bare in any other header.
pub proof fn law_built_in_rules(i: int)
    requires
        0 <= i < rules::built_in().len(),
    ensures
        ({
            let r = rules::built_in()[i];
            &&& r.upstream_scheme == "https"@
            &&& r.upstream_authority is None
            &&& r.strip_headers == seq!["authorization"@, "x-api-key"@]
            &&& r.header_format == (if r.header_name == "Authorization"@ {
                "Bearer {key}"@
            } else {
                "{key}"@
            })
        }),
        rules::built_in().len() == 3,
{
    reveal_strlit("x-api-key");
    reveal_strlit("x-goog-api-key");
    reveal_strlit("Authorization");
    assert("x-api-key"@.len() == 9);
    assert("x-goog-api-key"@.len() == 14);
    assert("Authorization"@.len() == 13);
    let r = rules::built_in()[i];
    assert(i == 0 || i == 1 || i == 2);
    assert(r.strip_headers =~= seq!["authorization"@, "x-api-key"@]);
}

/// Where nothing else is said the gateway listens on the loopback address, at a
/// port that the host picks.
pub proof fn law_default_address()
    ensures
        rules::loopback_ephemeral().port == 0,
        crate::firewall::is_loopback(rules::loopback_ephemeral().ip@),
        rules::loopback_ephemeral().ip is V4,
{
}

/// Letters, digits and fifteen signs make the name of a header; a name counts in
/// lower case. Nothing else does, no blank and no sign between parts.
pub proof fn law_names_of_headers(s: Seq<char>, c: char)
    ensures
        proxy::header_name_of(Seq::empty()) is None,
        proxy::header_name_of(seq![c]) is Some <==> ('a' <= c <= 'z') || ('A' <= c <= 'Z') || ('0'
            <= c <= '9') || "!#$%&'*+-.^_`|~"@.contains(c),
        proxy::header_name_of(s) is Some ==> proxy::header_name_of(s) == Some(
            text::ascii_lower(s),
        ),
        s.len() == 0 || s.len() > 65535 ==> proxy::header_name_of(s) is None,
        proxy::header_name_of(s) is Some <==> 0 < s.len() <= 65535 && forall|i: int|
            0 <= i < s.len() ==> proxy::header_name_of(seq![#[trigger] s[i]]) is Some,
{
    reveal_strlit("!#$%&'*+-.^_`|~");
    let signs = "!#$%&'*+-.^_`|~"@;
    assert(signs =~= seq![
        '!',
        '#',
        '$',
        '%',
        '&',
        '\'',
        '*',
        '+',
        '-',
        '.',
        '^',
        '_',
        '`',
        '|',
        '~',
    ]);
    assert(signs[0] == '!' && signs[1] == '#' && signs[2] == '$' && signs[3] == '%' && signs[4]
        == '&' && signs[5] == '\'' && signs[6] == '*' && signs[7] == '+' && signs[8] == '-'
        && signs[9] == '.' && signs[10] == '^' && signs[11] == '_' && signs[12] == '`'
        && signs[13] == '|' && signs[14] == '~');
    lemma_one_token(c);
    assert forall|i: int| 0 <= i < s.len() implies (proxy::header_name_of(
        seq![#[trigger] s[i]],
    ) is Some <==> proxy::is_token(s[i])) by {
        lemma_one_token(s[i]);
    }
}

proof fn lemma_one_token(c: char)
    ensures
        proxy::header_name_of(seq![c]) is Some <==> proxy::is_token(c),
{
    let s = seq![c];
    assert(s[0] == c);
    assert((forall|i: int| 0 <= i < s.len() ==> proxy::is_token(#[trigger] s[i]))
        == proxy::is_token(c)) by {
        if forall|i: int| 0 <= i < s.len() ==> proxy::is_token(#[trigger] s[i]) {
            assert(proxy::is_token(s[0]));
        }
    }
}

/// Whether a text has no control characters but tabs.
pub open spec fn can_be_sent(s: Seq<char>) -> bool {
    forall|i: int|
        0 <= i < s.len() ==> (#[trigger] s[i]) == '\t' || !(s[i] < ' ' || s[i] == '\u{7f}')
}

/// A request by a rule is made exactly where its address can be read, its header
/// has a name, and neither the credential as it is sent nor the host holds control
/// characters; else the first of these that fails is told.
pub proof fn law_when_a_request_is_made(
    path: Seq<char>,
    headers: Seq<(Seq<char>, Seq<u8>)>,
    rule: RuleView,
    credential: Seq<char>,
    host: Seq<char>,
)
    ensures
        ({
            let r = proxy::upstream_request(path, headers, rule, credential, host);
            let uri = proxy::uri_text(
                rule.upstream_scheme + "://"@ + (match rule.upstream_authority {
                    Some(a) => a,
                    None => host,
                }) + path,
            );
            let named = proxy::header_name_of(rule.header_name) is Some;
            let value = can_be_sent(rule.header_value(credential));
            &&& r is Ok <==> uri is Some && named && value && can_be_sent(host)
            &&& uri is None ==> r->Err_0 == "build upstream uri for "@ + host
            &&& uri is Some && !named ==> r->Err_0 == "invalid header name "@ + rule.header_name
            &&& uri is Some && named && !value ==> r->Err_0
                == "render credential into header value"@
            &&& uri is Some && named && value && !can_be_sent(host) ==> r->Err_0 == "set Host"@
        }),
{
    lemma_can_be_sent(rule.header_value(credential));
    lemma_can_be_sent(host);
}

proof fn lemma_can_be_sent(s: Seq<char>)
    ensures
        can_be_sent(s) == proxy::is_header_value(s),
{
    if can_be_sent(s) {
        assert forall|i: int| 0 <= i < s.len() implies (#[trigger] s[i] == '\t' || (' ' <= s[i]
            && s[i] != '\u{7f}')) by {}
    } else {
        let i = choose|i: int|
            0 <= i < s.len() && !((#[trigger] s[i]) == '\t' || !(s[i] < ' ' || s[i] == '\u{7f}'));
        assert(s[i] != '\t');
    }
}

} // verus!
