//! The gateway: firewall, rules, proxy and audit.

use cuartel::auth_gateway::audit::{AuditEvent, DEFAULT_AUDIT_BUFFER};
use cuartel::auth_gateway::firewall::{
    is_blocked_ip, parse_ip_authority, FirewallPolicy, BLOCK_REASON_PRIVATE_UPSTREAM,
};
use cuartel::auth_gateway::host::{bound, wait_until_ready, GatewayStatus, WaitStep};
use cuartel::auth_gateway::persister::{event_client_ip, format_system_time, persisted_row};
use cuartel::auth_gateway::proxy::{
    build_upstream_request, error_response, open_request, passthrough, passthrough_failed,
    request_hostname, strip_port, upstream_answered, with_credential, Forwarding, Header,
    IncomingRequest, Opening, UpstreamRequest,
};
use cuartel::auth_gateway::rules::{
    default_rules, AuthGatewayConfig, AuthRule, MissPolicy, DUMMY_API_KEY,
};
use cuartel::credential_store::{CredentialStore, MemoryCredentialStore};
use cuartel::net::{parse_ip, parse_socket, parse_v6, IpAddr, Ipv4Addr, SocketAddr};
use cuartel::time::Timestamp;

fn blocked(s: &str) -> bool {
    is_blocked_ip(parse_ip(s).unwrap())
}

fn at(secs: i64) -> Timestamp {
    Timestamp { secs, nanos: 0 }
}

fn header(name: &str, value: &str) -> Header {
    Header { name: name.into(), value: value.as_bytes().to_vec() }
}

fn header_of<'a>(req: &'a UpstreamRequest, name: &str) -> Option<&'a str> {
    req.headers.iter().find(|h| h.name == name).map(|h| std::str::from_utf8(&h.value).unwrap())
}

fn request(method: &str, path: &str, headers: Vec<Header>) -> IncomingRequest {
    IncomingRequest {
        method: method.into(),
        path_and_query: Some(path.into()),
        uri_host: None,
        headers,
        peer_ip: IpAddr::V4(Ipv4Addr::new(127, 0, 0, 1)),
    }
}

fn anthropic_rule() -> AuthRule {
    AuthRule {
        hostname: "api.anthropic.com".into(),
        provider_id: "anthropic".into(),
        env_key: "ANTHROPIC_API_KEY".into(),
        header_name: "x-api-key".into(),
        header_format: "{key}".into(),
        strip_headers: vec!["authorization".into(), "x-api-key".into()],
        upstream_scheme: "https".into(),
        upstream_authority: None,
    }
}

fn config(rules: Vec<AuthRule>, on_miss: MissPolicy, allow_private_upstreams: bool) -> AuthGatewayConfig {
    AuthGatewayConfig {
        rules,
        bind: parse_socket("127.0.0.1:0").unwrap(),
        on_miss,
        firewall: FirewallPolicy { allow_private_upstreams },
    }
}

#[test]
fn kind_covers_every_variant() {
    let now = at(1_700_000_000);
    assert_eq!(
        AuditEvent::Injected {
            timestamp: now,
            client_ip: None,
            hostname: "x".into(),
            provider_id: "p".into(),
            env_key: "K".into(),
            method: "GET".into(),
            path: "/".into(),
            status: 200,
        }
        .kind(),
        "injected"
    );
    assert_eq!(
        AuditEvent::Blocked {
            timestamp: now,
            client_ip: None,
            hostname: "x".into(),
            method: "GET".into(),
            path: "/".into(),
            reason: "no rule".into(),
        }
        .kind(),
        "blocked"
    );
    assert_eq!(
        AuditEvent::CredentialMissing {
            timestamp: now,
            hostname: "x".into(),
            provider_id: "p".into(),
            env_key: "K".into(),
        }
        .kind(),
        "credential_missing"
    );
    assert_eq!(
        AuditEvent::UpstreamError {
            timestamp: now,
            hostname: "x".into(),
            provider_id: "p".into(),
            error: "boom".into(),
        }
        .kind(),
        "upstream_error"
    );
}

#[test]
fn loopback_v4_is_blocked() {
    assert!(blocked("127.0.0.1"));
    assert!(blocked("127.255.255.254"));
}

#[test]
fn loopback_v6_is_blocked() {
    assert!(blocked("::1"));
}

#[test]
fn unspecified_is_blocked() {
    assert!(blocked("0.0.0.0"));
    assert!(blocked("::"));
}

#[test]
fn rfc1918_private_v4_is_blocked() {
    assert!(blocked("10.0.0.1"));
    assert!(blocked("172.16.0.1"));
    assert!(blocked("172.31.255.254"));
    assert!(blocked("192.168.1.1"));
}

#[test]
fn link_local_is_blocked() {
    assert!(blocked("169.254.169.254"));
    assert!(blocked("fe80::1"));
}

#[test]
fn ula_v6_is_blocked() {
    assert!(blocked("fc00::1"));
    assert!(blocked("fd12:3456:789a::1"));
}

#[test]
fn carrier_grade_nat_is_blocked() {
    assert!(blocked("100.64.0.1"));
    assert!(blocked("100.127.255.254"));
}

#[test]
fn broadcast_and_multicast_are_blocked() {
    assert!(blocked("255.255.255.255"));
    assert!(blocked("239.0.0.1"));
    assert!(blocked("ff02::1"));
}

#[test]
fn ipv4_mapped_v6_loopback_is_blocked() {
    assert!(blocked("::ffff:127.0.0.1"));
    assert!(blocked("::ffff:10.0.0.1"));
}

#[test]
fn public_v4_is_allowed() {
    assert!(!blocked("8.8.8.8"));
    assert!(!blocked("1.1.1.1"));
    // 100.0.0.1 lies outside 100.64.0.0/10.
    assert!(!blocked("100.0.0.1"));
}

#[test]
fn public_v6_is_allowed() {
    assert!(!blocked("2606:4700:4700::1111"));
}

#[test]
fn parse_ip_authority_accepts_various_shapes() {
    assert_eq!(
        parse_ip_authority("127.0.0.1:8080").map(|s| s.ip.to_string()),
        Some("127.0.0.1".into())
    );
    assert_eq!(
        parse_ip_authority("127.0.0.1").map(|s| s.ip.to_string()),
        Some("127.0.0.1".into())
    );
    assert_eq!(parse_ip_authority("[::1]:8080").map(|s| s.ip.to_string()), Some("::1".into()));
    assert_eq!(parse_ip_authority("[::1]").map(|s| s.ip.to_string()), Some("::1".into()));
}

#[test]
fn parse_ip_authority_returns_none_for_hostnames() {
    assert!(parse_ip_authority("api.anthropic.com").is_none());
    assert!(parse_ip_authority("api.anthropic.com:443").is_none());
}

#[test]
fn firewall_policy_default_is_restrictive() {
    let p = FirewallPolicy::default();
    assert!(!p.allow_private_upstreams);
}

#[test]
fn policy_forbids_only_private_literals() {
    let strict = FirewallPolicy { allow_private_upstreams: false };
    let open = FirewallPolicy { allow_private_upstreams: true };
    assert!(strict.forbids_upstream("10.1.2.3:80"));
    assert!(strict.forbids_upstream("[::1]"));
    assert!(!strict.forbids_upstream("8.8.8.8:53"));
    assert!(!strict.forbids_upstream("localhost"));
    assert!(!open.forbids_upstream("10.1.2.3:80"));
    assert!(blocked("0.1.2.3"));
    assert!(!blocked("::ffff:8.8.8.8"));
}

#[test]
fn addresses_read_and_print() {
    assert_eq!(parse_v6("2001:db8:0:0:1:0:0:1").unwrap().to_string(), "2001:db8::1:0:0:1");
    assert_eq!(parse_v6("::ffff:10.0.0.1").unwrap().to_string(), "::ffff:10.0.0.1");
    assert_eq!(parse_v6("1:2:3:4:5:6:7:8").unwrap().to_string(), "1:2:3:4:5:6:7:8");
    assert!(parse_v6("1::2::3").is_none());
    assert!(parse_ip("256.0.0.1").is_none());
    assert!(parse_ip("01.0.0.1").is_none());
    assert!(parse_ip("1.2.3").is_none());
    assert!(parse_socket("1.2.3.4").is_none());
    assert!(parse_socket("1.2.3.4:65536").is_none());
    assert_eq!(
        parse_socket("1.2.3.4:65535"),
        Some(SocketAddr::new(IpAddr::V4(Ipv4Addr::new(1, 2, 3, 4)), 65535))
    );
    assert_eq!(parse_socket("[::1]:80").unwrap().port, 80);
    assert_eq!(parse_socket("[fe80::1%7]:80").unwrap().zone, 7);
    assert_eq!(parse_socket("[fe80::1]:80").unwrap().zone, 0);
    assert!(parse_socket("[fe80::1%]:80").is_none());
}

#[test]
fn default_rules_cover_first_party_providers() {
    let rules = default_rules();
    assert!(rules.iter().any(|r| r.provider_id == "anthropic"));
    assert!(rules.iter().any(|r| r.provider_id == "openai"));
    assert!(rules.iter().any(|r| r.provider_id == "google"));
}

#[test]
fn render_anthropic_header_is_raw_key() {
    let rule = &default_rules()[0];
    assert_eq!(rule.provider_id, "anthropic");
    assert_eq!(rule.render_header_value("sk-real"), "sk-real");
}

#[test]
fn render_openai_header_uses_bearer_prefix() {
    let rule = default_rules().into_iter().find(|r| r.provider_id == "openai").unwrap();
    assert_eq!(rule.render_header_value("sk-real"), "Bearer sk-real");
}

#[test]
fn match_host_is_case_insensitive() {
    let cfg = AuthGatewayConfig::with_default_rules();
    assert!(cfg.match_host("api.anthropic.com").is_some());
    assert!(cfg.match_host("API.ANTHROPIC.COM").is_some());
    assert!(cfg.match_host("Api.Anthropic.Com").is_some());
}

#[test]
fn match_host_returns_none_for_unknown_host() {
    let cfg = AuthGatewayConfig::with_default_rules();
    assert!(cfg.match_host("evil.example.com").is_none());
}

#[test]
fn match_host_returns_first_matching_rule() {
    let mut cfg = AuthGatewayConfig::with_default_rules();
    cfg.rules.insert(
        0,
        AuthRule {
            hostname: "api.anthropic.com".to_string(),
            provider_id: "anthropic-override".to_string(),
            env_key: "ANTHROPIC_API_KEY".to_string(),
            header_name: "x-api-key".to_string(),
            header_format: "{key}".to_string(),
            strip_headers: vec![],
            upstream_scheme: "https".to_string(),
            upstream_authority: None,
        },
    );
    assert_eq!(cfg.match_host("api.anthropic.com").unwrap().provider_id, "anthropic-override");
}

#[test]
fn strip_headers_defaults_include_authorization_and_x_api_key() {
    let rule = &default_rules()[0];
    let lower: Vec<String> = rule.strip_headers.iter().map(|h| h.to_ascii_lowercase()).collect();
    assert!(lower.iter().any(|h| h == "authorization"));
    assert!(lower.iter().any(|h| h == "x-api-key"));
}

#[test]
fn miss_policy_default_is_reject() {
    assert_eq!(MissPolicy::default(), MissPolicy::Reject);
}

#[test]
fn default_bind_is_loopback_ephemeral() {
    let cfg = AuthGatewayConfig::default();
    assert_eq!(cfg.bind.ip, IpAddr::V4(Ipv4Addr::new(127, 0, 0, 1)));
    assert_eq!(cfg.bind.port, 0);
}

#[test]
fn dummy_api_key_sentinel_is_stable() {
    assert_eq!(DUMMY_API_KEY, "sk-cuartel-gateway");
    assert_eq!(DEFAULT_AUDIT_BUFFER, 256);
}

#[test]
fn build_upstream_request_strips_and_injects() {
    let rule = anthropic_rule();
    let req = request(
        "POST",
        "/v1/messages?beta=true",
        vec![
            header("host", "api.anthropic.com"),
            header("authorization", "Bearer sk-cuartel-gateway"),
            header("x-api-key", "sk-cuartel-gateway"),
            header("content-type", "application/json"),
        ],
    );
    let upstream =
        build_upstream_request(&req, &rule, "sk-real-secret", "api.anthropic.com").unwrap();
    assert_eq!(upstream.uri, "https://api.anthropic.com/v1/messages?beta=true");
    assert_eq!(header_of(&upstream, "x-api-key").unwrap(), "sk-real-secret");
    assert!(header_of(&upstream, "authorization").is_none());
    assert_eq!(header_of(&upstream, "host").unwrap(), "api.anthropic.com");
    assert_eq!(header_of(&upstream, "content-type").unwrap(), "application/json");
}

#[test]
fn build_upstream_request_formats_bearer_for_openai() {
    let rule = AuthRule {
        hostname: "api.openai.com".into(),
        provider_id: "openai".into(),
        env_key: "OPENAI_API_KEY".into(),
        header_name: "Authorization".into(),
        header_format: "Bearer {key}".into(),
        strip_headers: vec!["authorization".into(), "x-api-key".into()],
        upstream_scheme: "https".into(),
        upstream_authority: None,
    };
    let req = request(
        "GET",
        "/v1/chat/completions",
        vec![
            header("host", "api.openai.com"),
            header("authorization", "Bearer sk-cuartel-gateway"),
        ],
    );
    let upstream = build_upstream_request(&req, &rule, "sk-real", "api.openai.com").unwrap();
    assert_eq!(header_of(&upstream, "authorization").unwrap(), "Bearer sk-real");
}

#[test]
fn strip_port_handles_ipv4_ipv6_and_no_port() {
    assert_eq!(strip_port("api.anthropic.com"), "api.anthropic.com");
    assert_eq!(strip_port("api.anthropic.com:443"), "api.anthropic.com");
    assert_eq!(strip_port("[::1]:8080"), "[::1]:8080");
}

#[test]
fn unknown_host_is_answered_with_502() {
    let cfg = config(vec![], MissPolicy::Reject, false);
    let req = request("GET", "/", vec![header("host", "evil.example.com")]);
    let (opening, event) = open_request(&cfg, &req, at(7));
    match opening {
        Opening::Reply(r) => {
            assert_eq!(r.status, 502);
            assert!(r.body.contains("no auth gateway rule"));
        }
        other => panic!("unexpected: {:?}", other),
    }
    match event {
        Some(AuditEvent::Blocked { timestamp, hostname, method, path, .. }) => {
            assert_eq!(timestamp, at(7));
            assert_eq!(hostname, "evil.example.com");
            assert_eq!(method, "GET");
            assert_eq!(path, "/");
        }
        other => panic!("unexpected: {:?}", other),
    }
}

#[test]
fn unknown_host_passes_where_the_policy_says_so() {
    let cfg = config(vec![], MissPolicy::Passthrough, false);
    let req = request("GET", "/a?b", vec![header("host", "other.example.com")]);
    let (opening, event) = open_request(&cfg, &req, at(7));
    assert!(event.is_none());
    match opening {
        Opening::Passthrough(up) => {
            assert_eq!(up.uri, "https://other.example.com/a?b");
            assert_eq!(up, passthrough(&req, "other.example.com").unwrap());
        }
        other => panic!("unexpected: {:?}", other),
    }
    assert_eq!(passthrough_failed().status, 502);
}

#[test]
fn missing_host_is_a_gateway_error() {
    let cfg = config(vec![], MissPolicy::Reject, false);
    let req = request("GET", "/", vec![]);
    assert_eq!(request_hostname(&req), None);
    match open_request(&cfg, &req, at(7)).0 {
        Opening::Reply(r) => {
            assert_eq!(r.status, 502);
            assert!(r.body.contains("gateway error: missing Host header"));
        }
        other => panic!("unexpected: {:?}", other),
    }
    let mut named = request("GET", "/", vec![]);
    named.uri_host = Some("from.uri".into());
    assert_eq!(request_hostname(&named).unwrap(), "from.uri");
}

#[test]
fn matched_host_without_credential_is_refused() {
    let mut rule = anthropic_rule();
    rule.strip_headers = vec![];
    let store = MemoryCredentialStore::new();
    let cfg = config(vec![rule.clone()], MissPolicy::Reject, false);
    let req = request("GET", "/v1/x", vec![header("host", "api.anthropic.com")]);
    let m = match open_request(&cfg, &req, at(1)) {
        (Opening::Lookup(m), None) => m,
        other => panic!("unexpected: {:?}", other),
    };
    assert_eq!(m.rule, 0);
    let lookup = store.get(&rule.provider_id, &rule.env_key);
    match with_credential(&rule, &req, &m.hostname, &lookup, at(2)) {
        (Forwarding::Reply(r), Some(AuditEvent::CredentialMissing { env_key, .. })) => {
            assert_eq!(r.status, 502);
            assert!(r.body.contains("credential anthropic:ANTHROPIC_API_KEY not configured"));
            assert_eq!(env_key, "ANTHROPIC_API_KEY");
        }
        other => panic!("unexpected: {:?}", other),
    }
    match with_credential(&rule, &req, &m.hostname, &Err("locked".into()), at(2)) {
        (Forwarding::Reply(r), Some(AuditEvent::CredentialMissing { .. })) => {
            assert_eq!(r.status, 502);
            assert!(r.body.contains("credential lookup failed: locked"));
        }
        other => panic!("unexpected: {:?}", other),
    }
}

#[test]
fn real_key_goes_upstream_in_place_of_the_dummy() {
    let mut store = MemoryCredentialStore::new();
    store.set("anthropic", "ANTHROPIC_API_KEY", "sk-real-secret").unwrap();
    let mut rule = anthropic_rule();
    rule.upstream_scheme = "http".into();
    rule.upstream_authority = Some("127.0.0.1:9999".into());
    let cfg = config(vec![rule.clone()], MissPolicy::Reject, true);
    let req = request(
        "GET",
        "/v1/messages",
        vec![
            header("host", "api.anthropic.com"),
            header("x-api-key", DUMMY_API_KEY),
            header("authorization", "Bearer sk-cuartel-gateway"),
        ],
    );
    let m = match open_request(&cfg, &req, at(1)) {
        (Opening::Lookup(m), None) => m,
        other => panic!("unexpected: {:?}", other),
    };
    let lookup = store.get("anthropic", "ANTHROPIC_API_KEY");
    match with_credential(&rule, &req, &m.hostname, &lookup, at(2)) {
        (Forwarding::Send(up), None) => {
            assert_eq!(up.uri, "http://127.0.0.1:9999/v1/messages");
            assert_eq!(header_of(&up, "x-api-key"), Some("sk-real-secret"));
            assert!(header_of(&up, "authorization").is_none());
            assert_eq!(header_of(&up, "host"), Some("api.anthropic.com"));
        }
        other => panic!("unexpected: {:?}", other),
    }
    match upstream_answered(&rule, &req, &m, &Ok(200), at(3)) {
        (None, AuditEvent::Injected { status, path, .. }) => {
            assert_eq!(status, 200);
            assert_eq!(path, "/v1/messages");
        }
        other => panic!("unexpected: {:?}", other),
    }
    match upstream_answered(&rule, &req, &m, &Err("reset".into()), at(3)) {
        (Some(r), AuditEvent::UpstreamError { .. }) => assert_eq!(r.status, 502),
        other => panic!("unexpected: {:?}", other),
    }
}

#[test]
fn private_upstream_literal_is_blocked() {
    let mut rule = anthropic_rule();
    rule.upstream_authority = Some("169.254.169.254".into());
    let cfg = config(vec![rule], MissPolicy::Reject, false);
    let req = request("GET", "/v1/x", vec![header("host", "api.anthropic.com")]);
    match open_request(&cfg, &req, at(1)) {
        (Opening::Reply(r), Some(AuditEvent::Blocked { reason, .. })) => {
            assert_eq!(r.status, 502);
            assert_eq!(reason, BLOCK_REASON_PRIVATE_UPSTREAM);
        }
        other => panic!("unexpected: {:?}", other),
    }
}

#[test]
fn bad_uri_and_bad_headers_are_refused() {
    let mut rule = anthropic_rule();
    rule.upstream_authority = Some("bad authority".into());
    let req = request("GET", "/", vec![header("host", "api.anthropic.com")]);
    assert!(build_upstream_request(&req, &rule, "k", "api.anthropic.com").is_err());
    let mut named = anthropic_rule();
    named.header_name = "bad header".into();
    assert!(build_upstream_request(&req, &named, "k", "api.anthropic.com").is_err());
    assert!(build_upstream_request(&req, &anthropic_rule(), "a\nb", "api.anthropic.com").is_err());
}

#[test]
fn error_bodies_are_json() {
    let r = error_response(502, "say \"no\"");
    assert_eq!(r.status, 502);
    assert!(r.body.contains("say \\\"no\\\""));
}

fn row_of(event: &AuditEvent) -> cuartel::db::audit::AuditEventRow {
    persisted_row(event, "id".into(), "2024-01-01".into())
}

#[test]
fn database_sink_writes_every_variant() {
    let rows = vec![
        row_of(&AuditEvent::Injected {
            timestamp: at(1_700_000_000),
            client_ip: Some(IpAddr::V4(Ipv4Addr::new(192, 168, 1, 1))),
            hostname: "api.anthropic.com".into(),
            provider_id: "anthropic".into(),
            env_key: "ANTHROPIC_API_KEY".into(),
            method: "POST".into(),
            path: "/v1/messages".into(),
            status: 200,
        }),
        row_of(&AuditEvent::Blocked {
            timestamp: at(1_700_000_001),
            client_ip: None,
            hostname: "evil.example.com".into(),
            method: "GET".into(),
            path: "/".into(),
            reason: "no rule for host".into(),
        }),
        row_of(&AuditEvent::CredentialMissing {
            timestamp: at(1_700_000_002),
            hostname: "api.anthropic.com".into(),
            provider_id: "anthropic".into(),
            env_key: "ANTHROPIC_API_KEY".into(),
        }),
        row_of(&AuditEvent::UpstreamError {
            timestamp: at(1_700_000_003),
            hostname: "api.anthropic.com".into(),
            provider_id: "anthropic".into(),
            error: "connection reset".into(),
        }),
    ];
    assert_eq!(rows.len(), 4);
    assert_eq!(rows[0].kind, "injected");
    assert_eq!(rows[0].status, Some(200));
    assert_eq!(rows[0].client_ip.as_deref(), Some("192.168.1.1"));
    assert_eq!(rows[1].kind, "blocked");
    assert_eq!(rows[1].reason.as_deref(), Some("no rule for host"));
    assert!(rows[1].provider_id.is_none());
    assert_eq!(rows[2].kind, "credential_missing");
    assert_eq!(rows[2].provider_id.as_deref(), Some("anthropic"));
    assert!(rows[2].method.is_none());
    assert_eq!(rows[3].kind, "upstream_error");
    assert_eq!(rows[3].error.as_deref(), Some("connection reset"));
    assert_eq!(rows[3].timestamp, "2023-11-14T22:13:23.000Z");
}

#[test]
fn timestamp_is_rfc3339_millis_utc() {
    assert_eq!(format_system_time(at(1_700_000_000)), "2023-11-14T22:13:20.000Z");
    assert_eq!(
        format_system_time(Timestamp { secs: 0, nanos: 7_999_999 }),
        "1970-01-01T00:00:00.007Z"
    );
}

#[test]
fn only_some_events_have_a_client() {
    let e = AuditEvent::UpstreamError {
        timestamp: at(0),
        hostname: "h".into(),
        provider_id: "p".into(),
        error: "e".into(),
    };
    assert_eq!(event_client_ip(&e), None);
}

#[test]
fn waiting_ends_when_the_gateway_listens() {
    let addr = parse_socket("127.0.0.1:4000").unwrap();
    assert_eq!(bound(Ok(addr)), GatewayStatus::Ready(addr));
    assert_eq!(bound(Err("in use".into())), GatewayStatus::Failed("bind: in use".into()));
    assert_eq!(wait_until_ready(&GatewayStatus::Starting, false), WaitStep::Again);
    assert_eq!(wait_until_ready(&GatewayStatus::Idle, true), WaitStep::Done(None));
    assert_eq!(
        wait_until_ready(&GatewayStatus::Ready(addr), false),
        WaitStep::Done(Some(addr))
    );
    assert_eq!(wait_until_ready(&bound(Err("x".into())), false), WaitStep::Done(None));
}

#[test]
fn times_are_written_in_their_order() {
    let times = [
        Timestamp { secs: -62_167_219_200, nanos: 0 },
        Timestamp { secs: -1, nanos: 999_000_000 },
        Timestamp { secs: 0, nanos: 0 },
        Timestamp { secs: 951_782_400, nanos: 1_000_000 },
        Timestamp { secs: 951_868_800, nanos: 0 },
        Timestamp { secs: 253_402_300_799, nanos: 999_999_999 },
    ];
    let texts: Vec<String> = times.iter().map(|t| format_system_time(*t)).collect();
    assert_eq!(texts[0], "0000-01-01T00:00:00.000Z");
    assert_eq!(texts[5], "9999-12-31T23:59:59.999Z");
    for i in 1..texts.len() {
        assert_eq!(texts[i].len(), 24);
        assert!(texts[i - 1] < texts[i]);
    }
}
