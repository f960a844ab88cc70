//! Servers, the tailnet, and moving sessions between servers.

use cuartel::db::checkpoints::CheckpointRow;
use cuartel::db::servers::{
    check_delete, check_updated, ensure_local, EnsureLocal, ServerRow, LOCAL_SERVER_ID,
};
use cuartel::db::sessions::SessionRow;
use cuartel::remote::registry::{
    host_from_address, local_base_url, probe_target, register_peer, DEFAULT_RIVET_PORT,
};
use cuartel::remote::server::RemoteServer;
use cuartel::remote::sync::{
    export_snapshot, import_snapshot, local_server, needs_probe, pick_actor, pull_result,
    push_result, remote_server_id, repoint_session, require_server, verify_reachable,
    SessionSnapshot, SyncDirection, SyncRequest,
};
use cuartel::remote::tailscale::{
    format_health_url, parse_status_json, snapshot, StatusOutcome, TailnetStatus, TailscaleDevice,
};
use cuartel::rivet::client::{base_url, Actor};

/// A table of servers.
struct Servers {
    rows: Vec<ServerRow>,
}

impl Servers {
    fn new() -> Self {
        Servers { rows: vec![] }
    }

    fn get(&self, id: &str) -> Option<&ServerRow> {
        self.rows.iter().find(|r| r.id == id)
    }

    fn ensure_local(&mut self, address: &str) -> ServerRow {
        match ensure_local(self.get(LOCAL_SERVER_ID), address) {
            EnsureLocal::Keep => {}
            EnsureLocal::Update { name } => {
                let row = self.rows.iter_mut().find(|r| r.id == LOCAL_SERVER_ID).unwrap();
                row.name = name;
                row.address = address.into();
                row.tailscale_ip = None;
            }
            EnsureLocal::Insert { name } => self.rows.insert(
                0,
                ServerRow {
                    id: LOCAL_SERVER_ID.into(),
                    name,
                    address: address.into(),
                    tailscale_ip: None,
                    is_local: true,
                    created_at: "t".into(),
                },
            ),
        }
        self.get(LOCAL_SERVER_ID).unwrap().clone()
    }

    fn register(
        &mut self,
        id: &str,
        name: &str,
        device: &TailscaleDevice,
    ) -> Result<RemoteServer, String> {
        let known = match device.primary_address() {
            Some(ip) => self.rows.iter().any(|r| r.tailscale_ip.as_deref() == Some(ip)),
            None => false,
        };
        let row = register_peer(id, name, device, known, "t".into())?;
        self.rows.push(row.clone());
        Ok(RemoteServer::from_row(row))
    }

    fn delete(&mut self, id: &str) -> Result<bool, String> {
        check_delete(id)?;
        let before = self.rows.len();
        self.rows.retain(|r| r.id != id);
        Ok(self.rows.len() < before)
    }
}

fn device(host: &str, ip: &str) -> TailscaleDevice {
    TailscaleDevice {
        hostname: host.into(),
        dns_name: format!("{host}.ts.net"),
        addresses: vec![ip.into()],
        os: "linux".into(),
        online: true,
        is_self: false,
    }
}

#[test]
fn ensure_local_is_idempotent() {
    let mut t = Servers::new();
    let first = t.ensure_local("http://localhost:6420");
    let second = t.ensure_local("http://localhost:6420");
    assert_eq!(first.id, LOCAL_SERVER_ID);
    assert_eq!(first, second);
    assert_eq!(t.rows.len(), 1);
}

#[test]
fn ensure_local_updates_address() {
    let mut t = Servers::new();
    t.ensure_local("http://localhost:6420");
    let updated = t.ensure_local("http://localhost:9999");
    assert_eq!(updated.address, "http://localhost:9999");
}

#[test]
fn delete_local_rejected() {
    let mut t = Servers::new();
    t.ensure_local("http://localhost:6420");
    assert!(t.delete(LOCAL_SERVER_ID).is_err());
    assert!(t.get(LOCAL_SERVER_ID).is_some());
}

#[test]
fn servers_update_missing_errors() {
    assert_eq!(check_updated("server", "missing", 0), Err("server missing not found".into()));
    assert_eq!(check_updated("server", "h1", 1), Ok(()));
}

#[test]
fn workspaces_update_missing_errors() {
    assert_eq!(
        check_updated("workspace", "missing", 0),
        Err("workspace missing not found".into())
    );
}

#[test]
fn ensure_local_seeds_the_registry() {
    let mut t = Servers::new();
    let local = t.ensure_local("http://localhost:6420");
    assert_eq!(local.id, LOCAL_SERVER_ID);
    assert!(local.is_local);
    assert_eq!(t.rows.len(), 1);
    assert_eq!(t.rows[0].id, LOCAL_SERVER_ID);
}

#[test]
fn register_peer_inserts_remote_row() {
    let mut t = Servers::new();
    t.ensure_local("http://localhost:6420");
    let dev = device("hetzner-1", "100.67.106.62");
    let registered = t.register("hetzner-1", "Hetzner", &dev).unwrap();
    assert_eq!(registered.name, "Hetzner");
    assert_eq!(registered.address, "http://100.67.106.62:6420");
    assert_eq!(registered.tailscale_ip.as_deref(), Some("100.67.106.62"));
    assert!(!registered.is_local);
    assert_eq!(t.rows.len(), 2);
    assert!(t.rows[0].is_local);
}

#[test]
fn register_peer_falls_back_to_hostname_when_name_blank() {
    let mut t = Servers::new();
    let dev = device("ubuntu-hel1-1", "100.67.106.62");
    let registered = t.register("h1", "  ", &dev).unwrap();
    assert_eq!(registered.name, "ubuntu-hel1-1");
}

#[test]
fn register_peer_rejects_duplicate_ip() {
    let mut t = Servers::new();
    let dev = device("h", "100.67.106.62");
    t.register("h1", "H1", &dev).unwrap();
    let err = t.register("h2", "H2", &dev).unwrap_err();
    assert!(err.contains("already registered"));
}

#[test]
fn register_peer_rejects_device_without_address() {
    let mut t = Servers::new();
    let dev = TailscaleDevice {
        hostname: "empty".into(),
        dns_name: "empty.ts.net".into(),
        addresses: vec![],
        os: "linux".into(),
        online: true,
        is_self: false,
    };
    assert!(t.register("h", "Empty", &dev).is_err());
}

#[test]
fn delete_refuses_local_row() {
    let mut t = Servers::new();
    t.ensure_local("http://localhost:6420");
    assert!(t.delete(LOCAL_SERVER_ID).is_err());
}

#[test]
fn delete_removes_remote_row() {
    let mut t = Servers::new();
    let dev = device("h", "100.67.106.62");
    t.register("h1", "H1", &dev).unwrap();
    assert!(t.delete("h1").unwrap());
    assert!(t.get("h1").is_none());
}

#[test]
fn host_from_address_parses_common_shapes() {
    assert_eq!(host_from_address("http://localhost:6420"), "localhost");
    assert_eq!(host_from_address("http://100.67.106.62:6420"), "100.67.106.62");
    assert_eq!(host_from_address("https://example.com"), "example.com");
    assert_eq!(host_from_address("100.67.106.62"), "100.67.106.62");
}

#[test]
fn local_base_url_formats_port() {
    assert_eq!(local_base_url(6420), "http://localhost:6420");
    assert_eq!(local_base_url(9000), "http://localhost:9000");
    assert_eq!(DEFAULT_RIVET_PORT, 6420);
}

#[test]
fn rivet_client_for_local_uses_localhost() {
    let local = RemoteServer::local_default();
    assert_eq!(base_url(local.rivet_url()), "http://localhost:6420");
}

#[test]
fn rivet_client_for_remote_uses_tailscale_address() {
    let mut t = Servers::new();
    let dev = device("hetzner-1", "100.67.106.62");
    let remote = t.register("h1", "Hetzner", &dev).unwrap();
    assert_eq!(base_url(remote.rivet_url()), "http://100.67.106.62:6420");
}

#[test]
fn register_peer_with_row_conversion_shape() {
    let mut t = Servers::new();
    let dev = device("h", "100.67.106.62");
    let registered = t.register("h1", "H1", &dev).unwrap();
    let row = t.get("h1").unwrap();
    assert_eq!(row.id, registered.id);
    assert_eq!(row.name, registered.name);
    assert_eq!(row.address, registered.address);
    assert_eq!(row.tailscale_ip, registered.tailscale_ip);
    assert_eq!(row.is_local, registered.is_local);
}

#[test]
fn probes_go_to_the_tailnet_first() {
    let mut t = Servers::new();
    let remote = t.register("h1", "H1", &device("h", "100.67.106.62")).unwrap();
    assert_eq!(probe_target(&remote), "100.67.106.62");
    assert_eq!(probe_target(&RemoteServer::local_default()), "localhost");
}

#[test]
fn from_server_row_preserves_fields() {
    let row = ServerRow {
        id: "hetzner-1".into(),
        name: "Hetzner".into(),
        address: "http://100.67.106.62:6420".into(),
        tailscale_ip: Some("100.67.106.62".into()),
        is_local: false,
        created_at: "2026-01-01 00:00:00".into(),
    };
    let server = RemoteServer::from_row(row);
    assert_eq!(server.id, "hetzner-1");
    assert_eq!(server.name, "Hetzner");
    assert_eq!(server.address, "http://100.67.106.62:6420");
    assert_eq!(server.tailscale_ip.as_deref(), Some("100.67.106.62"));
    assert!(!server.is_local);
}

#[test]
fn local_default_uses_localhost_6420() {
    let local = RemoteServer::local_default();
    assert_eq!(local.id, "local");
    assert!(local.is_local);
    assert_eq!(local.rivet_url(), "http://localhost:6420");
}

fn session(id: &str, server: &str) -> SessionRow {
    SessionRow {
        id: id.into(),
        workspace_id: "ws1".into(),
        server_id: server.into(),
        agent_type: "pi".into(),
        rivet_session_id: Some("rivet_s1".into()),
        status: "ready".into(),
        created_at: "2026-01-01 00:00:00".into(),
        updated_at: "2026-01-01 00:00:00".into(),
    }
}

fn checkpoint(id: &str, session_id: &str, parent: Option<&str>) -> CheckpointRow {
    CheckpointRow {
        id: id.into(),
        session_id: session_id.into(),
        rivet_checkpoint_id: Some(format!("rivet_{id}")),
        parent_checkpoint_id: parent.map(|p| p.to_string()),
        label: Some("snapshot".into()),
        metadata: "{}".into(),
        created_at: "2026-01-01 00:00:00".into(),
        updated_at: "2026-01-01 00:00:00".into(),
    }
}

#[test]
fn export_snapshot_captures_session_and_checkpoints() {
    let cps = vec![checkpoint("cp1", "sess1", None), checkpoint("cp2", "sess1", Some("cp1"))];
    let snap = export_snapshot("sess1", Some(session("sess1", "local")), cps).unwrap();
    assert_eq!(snap.session.id, "sess1");
    assert_eq!(snap.session.server_id, "local");
    assert_eq!(snap.checkpoints.len(), 2);
    assert_eq!(snap.checkpoints[0].id, "cp1");
    assert_eq!(snap.checkpoints[1].id, "cp2");
}

#[test]
fn export_snapshot_missing_session_errors() {
    assert!(export_snapshot("nonexistent", None, vec![]).is_err());
}

#[test]
fn export_snapshot_empty_checkpoints_ok() {
    let snap = export_snapshot("sess1", Some(session("sess1", "local")), vec![]).unwrap();
    assert!(snap.checkpoints.is_empty());
}

#[test]
fn import_snapshot_inserts_into_db() {
    let snapshot = SessionSnapshot {
        session: session("sess-imported", "local"),
        checkpoints: vec![checkpoint("cp-imported", "sess-imported", None)],
    };
    let row = import_snapshot(&snapshot, "remote1");
    assert_eq!(row.id, "sess-imported");
    assert_eq!(row.server_id, "remote1");
    assert_eq!(row.workspace_id, "ws1");
}

#[test]
fn repoint_session_updates_server_and_rivet_id() {
    let sess = repoint_session(session("sess1", "local"), "remote1", Some("new_rivet_id"));
    assert_eq!(sess.server_id, "remote1");
    assert_eq!(sess.rivet_session_id.as_deref(), Some("new_rivet_id"));
}

#[test]
fn repoint_session_without_rivet_id_only_changes_server() {
    let sess = repoint_session(session("sess1", "local"), "remote1", None);
    assert_eq!(sess.server_id, "remote1");
    assert_eq!(sess.rivet_session_id.as_deref(), Some("rivet_s1"));
}

#[test]
fn local_server_returns_local_entry() {
    let local = local_server(&vec![RemoteServer::local_default()]).unwrap();
    assert!(local.is_local);
    assert_eq!(local.id, "local");
    assert!(local_server(&vec![]).is_err());
}

#[test]
fn moves_are_told_with_their_ends() {
    let mut t = Servers::new();
    let remote = t.register("h1", "H1", &device("h", "100.67.106.62")).unwrap();
    let req = SyncRequest {
        session_id: "s1".into(),
        direction: SyncDirection::Push,
        source_server: "local".into(),
        target_server: "h1".into(),
    };
    assert_eq!(remote_server_id(&req), "h1");
    assert!(needs_probe(&remote));
    assert!(!needs_probe(&RemoteServer::local_default()));
    assert!(verify_reachable(&remote, true).is_ok());
    assert!(verify_reachable(&remote, false).is_err());
    assert!(require_server("target", "h9", None).is_err());
    let actor = Actor {
        actor_id: "a1".into(),
        name: "vm".into(),
        key: None,
        namespace_id: "n".into(),
        runner_name_selector: "default".into(),
        create_ts: 0,
        connectable_ts: None,
        destroy_ts: None,
        sleep_ts: None,
        start_ts: None,
    };
    assert_eq!(pick_actor(&vec![actor], &remote), Ok("a1".into()));
    assert_eq!(pick_actor(&vec![], &remote), Err("no VM actor found on H1".into()));
    let snap = SessionSnapshot {
        session: session("s1", "local"),
        checkpoints: vec![checkpoint("cp1", "s1", None)],
    };
    let pushed = push_result("s1", &snap, "h1", Some("r9".into()));
    assert_eq!(pushed.target_server_id, "h1");
    assert_eq!(pushed.source_server_id, "local");
    assert_eq!(pushed.checkpoints_transferred, 1);
    let pulled = pull_result("s1", &snap, "h1", &RemoteServer::local_default(), None);
    assert_eq!(pulled.source_server_id, "h1");
    assert_eq!(pulled.target_server_id, "local");
}

const FIXTURE: &str = r#"{
    "Version": "1.96.5",
    "BackendState": "Running",
    "Self": {
        "HostName": "my-mac",
        "DNSName": "my-mac.tailf1c74c.ts.net.",
        "OS": "macOS",
        "TailscaleIPs": ["100.91.112.122", "fd7a:115c:a1e0::cf35:707a"],
        "Online": true
    },
    "Peer": {
        "nodekey:aaa": {
            "HostName": "hetzner-1",
            "DNSName": "hetzner-1.tailf1c74c.ts.net.",
            "OS": "linux",
            "TailscaleIPs": ["100.67.106.62"],
            "Online": true
        },
        "nodekey:bbb": {
            "HostName": "Zebra-Pi",
            "DNSName": "zebra-pi.tailf1c74c.ts.net.",
            "OS": "linux",
            "TailscaleIPs": ["100.64.0.5"],
            "Online": false
        }
    }
}"#;

#[test]
fn parses_self_and_peers() {
    let devices = parse_status_json(FIXTURE.as_bytes()).unwrap();
    assert_eq!(devices.len(), 3);

    assert!(devices[0].is_self);
    assert_eq!(devices[0].hostname, "my-mac");
    assert_eq!(devices[0].dns_name, "my-mac.tailf1c74c.ts.net");
    assert_eq!(devices[0].os, "macOS");
    assert_eq!(devices[0].addresses.len(), 2);
    assert!(devices[0].online);

    assert!(!devices[1].is_self);
    assert_eq!(devices[1].hostname, "hetzner-1");
    assert!(devices[1].online);

    assert_eq!(devices[2].hostname, "Zebra-Pi");
    assert!(!devices[2].online);
}

#[test]
fn parses_snapshot_without_self() {
    let devices = parse_status_json(r#"{ "Peer": {} }"#.as_bytes()).unwrap();
    assert!(devices.is_empty());
}

#[test]
fn rejects_malformed_json() {
    assert!(parse_status_json(b"not json").is_err());
}

#[test]
fn primary_address_prefers_ipv4() {
    let mut dev = device("h", "fd7a:115c:a1e0::cf35:707a");
    dev.addresses.push("100.91.112.122".into());
    assert_eq!(dev.primary_address(), Some("100.91.112.122"));
}

#[test]
fn primary_address_falls_back_to_ipv6() {
    let dev = device("h", "fd7a:115c:a1e0::cf35:707a");
    assert_eq!(dev.primary_address(), Some("fd7a:115c:a1e0::cf35:707a"));
}

#[test]
fn primary_address_handles_empty() {
    let mut dev = device("h", "x");
    dev.addresses.clear();
    assert!(dev.primary_address().is_none());
}

#[test]
fn health_url_ipv4_plain() {
    assert_eq!(
        format_health_url("100.67.106.62", 6420),
        "http://100.67.106.62:6420/health"
    );
}

#[test]
fn health_url_ipv6_bracketed() {
    assert_eq!(
        format_health_url("fd7a:115c:a1e0::cf35:707a", 6420),
        "http://[fd7a:115c:a1e0::cf35:707a]:6420/health"
    );
}

#[test]
fn health_url_hostname_plain() {
    assert_eq!(
        format_health_url("hetzner-1.tailf1c74c.ts.net", 6420),
        "http://hetzner-1.tailf1c74c.ts.net:6420/health"
    );
}

#[test]
fn devices_sorted_self_first() {
    let fixture = r#"{
        "Self": {"HostName":"z-host","TailscaleIPs":[],"Online":true},
        "Peer": {
            "nodekey:a": {"HostName":"aaa","TailscaleIPs":[],"Online":true},
            "nodekey:b": {"HostName":"bbb","TailscaleIPs":[],"Online":true}
        }
    }"#;
    let devices = parse_status_json(fixture.as_bytes()).unwrap();
    assert_eq!(devices[0].hostname, "z-host");
    assert!(devices[0].is_self);
    assert_eq!(devices[1].hostname, "aaa");
    assert_eq!(devices[2].hostname, "bbb");
}

#[test]
fn runs_of_the_status_program_are_told_apart() {
    let ok = snapshot(&StatusOutcome::Success { stdout: FIXTURE.as_bytes().to_vec() });
    assert_eq!(ok.devices.len(), 3);
    assert!(matches!(ok.status, TailnetStatus::Available));
    let failed =
        snapshot(&StatusOutcome::Failure { stderr: "logged out\n".into(), status: "1".into() });
    assert!(matches!(failed.status, TailnetStatus::NotConnected(_)));
    let absent = snapshot(&StatusOutcome::NotStarted { error: "no such file".into() });
    assert!(matches!(absent.status, TailnetStatus::Unavailable(_)));
    assert!(absent.devices.is_empty());
}
