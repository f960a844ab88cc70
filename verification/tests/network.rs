//! What the sandbox may reach on the host.

use cuartel::auth_gateway::proxy::{open_request, Header, IncomingRequest, Opening};
use cuartel::auth_gateway::rules::{AuthGatewayConfig, MissPolicy};
use cuartel::firewall::{FirewallVerdict, NetworkPolicy, ProtectedKind};
use cuartel::net::parse_socket;
use cuartel::rivet::network::{PortForwardConfig, PortForwardDirection};
use cuartel::time::Timestamp;

fn test_policy() -> NetworkPolicy {
    NetworkPolicy::new(
        Some(parse_socket("127.0.0.1:9999").unwrap()),
        6420,
        Some("/data/cuartel.db".into()),
    )
}

#[test]
fn protected_ports_include_gateway_and_rivet() {
    let policy = test_policy();
    let ports = policy.protected_ports();
    assert!(ports.contains(&9999), "gateway port must be protected");
    assert!(ports.contains(&6420), "rivet port must be protected");
}

#[test]
fn protected_endpoints_include_db_path() {
    let policy = test_policy();
    let has_db = policy.protected_endpoints().iter().any(|ep| {
        matches!(&ep.kind, ProtectedKind::FilePath { path } if path == "/data/cuartel.db")
    });
    assert!(has_db, "database path must be in protected endpoints");
}

#[test]
fn host_to_sandbox_always_allowed() {
    let policy = test_policy();
    let config = PortForwardConfig {
        direction: PortForwardDirection::HostToSandbox,
        sandbox_port: 3000,
        host_port: 6420,
    };
    assert!(policy.check_port_forward(&config).is_allowed());
}

#[test]
fn sandbox_to_host_denied_for_gateway_port() {
    let policy = test_policy();
    let config = PortForwardConfig {
        direction: PortForwardDirection::SandboxToHost,
        sandbox_port: 9999,
        host_port: 9999,
    };
    let verdict = policy.check_port_forward(&config);
    assert!(verdict.is_denied());
    match &verdict {
        FirewallVerdict::Deny { endpoint, .. } => {
            assert_eq!(endpoint, "Auth Gateway");
        }
        _ => panic!("expected Deny"),
    }
}

#[test]
fn sandbox_to_host_denied_for_rivet_port() {
    let policy = test_policy();
    let config = PortForwardConfig {
        direction: PortForwardDirection::SandboxToHost,
        sandbox_port: 6420,
        host_port: 6420,
    };
    let verdict = policy.check_port_forward(&config);
    assert!(verdict.is_denied());
    match &verdict {
        FirewallVerdict::Deny { endpoint, .. } => {
            assert_eq!(endpoint, "Rivet API");
        }
        _ => panic!("expected Deny"),
    }
}

#[test]
fn sandbox_to_host_allowed_for_unprotected_port() {
    let policy = test_policy();
    let config = PortForwardConfig {
        direction: PortForwardDirection::SandboxToHost,
        sandbox_port: 3000,
        host_port: 8080,
    };
    assert!(policy.check_port_forward(&config).is_allowed());
}

#[test]
fn gateway_config_reject_loopback_passes() {
    let config = AuthGatewayConfig::with_default_rules();
    assert!(NetworkPolicy::validate_gateway_config(&config).is_allowed());
}

#[test]
fn gateway_config_passthrough_fails() {
    let mut config = AuthGatewayConfig::with_default_rules();
    config.on_miss = MissPolicy::Passthrough;
    let verdict = NetworkPolicy::validate_gateway_config(&config);
    assert!(verdict.is_denied());
    assert!(verdict.to_string().contains("Passthrough"), "message should mention Passthrough");
}

#[test]
fn gateway_config_non_loopback_fails() {
    let mut config = AuthGatewayConfig::with_default_rules();
    config.bind = parse_socket("0.0.0.0:0").unwrap();
    let verdict = NetworkPolicy::validate_gateway_config(&config);
    assert!(verdict.is_denied());
    assert!(verdict.to_string().contains("loopback"), "message should mention loopback");
}

#[test]
fn policy_without_gateway_still_protects_rivet() {
    let policy = NetworkPolicy::new(None, 6420, None);
    let ports = policy.protected_ports();
    assert_eq!(ports, vec![6420]);
}

#[test]
fn verdict_display() {
    assert_eq!(FirewallVerdict::Allow.to_string(), "allow");
    let deny =
        FirewallVerdict::Deny { endpoint: "Test".into(), reason: "not allowed".into() };
    assert_eq!(deny.to_string(), "deny (Test): not allowed");
}

#[test]
fn an_accepted_gateway_turns_unknown_hosts_away() {
    let config = AuthGatewayConfig::with_default_rules();
    assert!(NetworkPolicy::validate_gateway_config(&config).is_allowed());
    let req = IncomingRequest {
        method: "GET".into(),
        path_and_query: Some("/".into()),
        uri_host: None,
        headers: vec![Header { name: "host".into(), value: b"example.com".to_vec() }],
        peer_ip: parse_socket("127.0.0.1:1").unwrap().ip,
    };
    let (opening, event) = open_request(&config, &req, Timestamp { secs: 0, nanos: 0 });
    assert!(matches!(opening, Opening::Reply(r) if r.status == 502));
    assert_eq!(event.unwrap().kind(), "blocked");
}
