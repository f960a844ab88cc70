//! What machines must not reach on the host.

use vstd::prelude::*;
use vstd::string::*;
use crate::auth_gateway::audit::AuditView;
use crate::auth_gateway::proxy;
use crate::auth_gateway::proxy::{IncomingRequest, Opening};
use crate::auth_gateway::rules;
use crate::auth_gateway::rules::{AuthGatewayConfig, MissPolicy};
use crate::net;
use crate::net::{IpAddr, SocketAddr};
use crate::rivet::network::{PortForwardConfig, PortForwardDirection};
use crate::text;
use crate::time::Timestamp;

verus! {

/// Something on the host that machines must not reach.
#[derive(Clone, PartialEq, Eq, Debug)]
pub struct ProtectedEndpoint {
    pub label: String,
    pub kind: ProtectedKind,
    pub reason: String,
}

/// What is protected.
#[derive(Clone, PartialEq, Eq, Debug)]
pub enum ProtectedKind {
    /// A port of the loopback interface.
    LoopbackPort { port: u16 },
    /// A file.
    FilePath { path: String },
}

/// The model of [`ProtectedKind`].
#[verifier::ext_equal]
pub enum KindView {
    LoopbackPort { port: u16 },
    FilePath { path: Seq<char> },
}

/// The model of [`ProtectedEndpoint`].
#[verifier::ext_equal]
pub struct EndpointView {
    pub label: Seq<char>,
    pub kind: KindView,
    pub reason: Seq<char>,
}

impl View for ProtectedEndpoint {
    type V = EndpointView;

    open spec fn view(&self) -> EndpointView {
        EndpointView {
            label: self.label@,
            kind: match self.kind {
                ProtectedKind::LoopbackPort { port } => KindView::LoopbackPort { port },
                ProtectedKind::FilePath { path } => KindView::FilePath { path: path@ },
            },
            reason: self.reason@,
        }
    }
}

/// The models of endpoints.
pub open spec fn endpoint_views(s: Seq<ProtectedEndpoint>) -> Seq<EndpointView> {
    Seq::new(s.len(), |i: int| s[i]@)
}

/// What the policy says.
#[derive(Clone, PartialEq, Eq, Debug)]
pub enum FirewallVerdict {
    Allow,
    Deny { endpoint: String, reason: String },
}

/// The model of [`FirewallVerdict`].
#[verifier::ext_equal]
pub enum VerdictView {
    Allow,
    Deny { endpoint: Seq<char>, reason: Seq<char> },
}

impl View for FirewallVerdict {
    type V = VerdictView;

    open spec fn view(&self) -> VerdictView {
        match *self {
            FirewallVerdict::Allow => VerdictView::Allow,
            FirewallVerdict::Deny { endpoint, reason } => VerdictView::Deny {
                endpoint: endpoint@,
                reason: reason@,
            },
        }
    }
}

impl FirewallVerdict {
    /// Whether it is allowed.
    pub fn is_allowed(&self) -> (r: bool)
        ensures
            r == (self@ is Allow),
    {
        matches!(self, FirewallVerdict::Allow)
    }

    /// Whether it is denied.
    pub fn is_denied(&self) -> (r: bool)
        ensures
            r == (self@ is Deny),
    {
        !self.is_allowed()
    }

    /// The text of the verdict.
    pub fn to_string(&self) -> (r: String)
        ensures
            r@ == (match self@ {
                VerdictView::Allow => "allow"@,
                VerdictView::Deny { endpoint, reason } => "deny ("@ + endpoint + "): "@ + reason,
            }),
    {
        match self {
            FirewallVerdict::Allow => "allow".to_owned(),
            FirewallVerdict::Deny { endpoint, reason } => text::concat4(
                "deny (",
                endpoint.as_str(),
                "): ",
                reason.as_str(),
            ),
        }
    }
}

/// What is protected from machines.
pub struct NetworkPolicy {
    protected: Vec<ProtectedEndpoint>,
}

/// The gateway, by its port.
pub open spec fn gateway_endpoint(port: u16) -> EndpointView {
    EndpointView {
        label: "Auth Gateway"@,
        kind: KindView::LoopbackPort { port },
        reason: "raw port forward to the gateway would bypass credential injection"@,
    }
}

/// The actor runtime's manager, by its port.
pub open spec fn rivet_endpoint(port: u16) -> EndpointView {
    EndpointView {
        label: "Rivet API"@,
        kind: KindView::LoopbackPort { port },
        reason: "VM management API must not be accessible from within VMs"@,
    }
}

/// The database, by its path.
pub open spec fn database_endpoint(path: Seq<char>) -> EndpointView {
    EndpointView {
        label: "Credential Database"@,
        kind: KindView::FilePath { path },
        reason: "encrypted credentials at rest must not be readable by VMs"@,
    }
}

/// What a policy protects: the gateway and the database where they are there,
/// and the manager.
pub open spec fn protected(
    gateway: Option<SocketAddr>,
    rivet_port: u16,
    db_path: Option<Seq<char>>,
) -> Seq<EndpointView> {
    let first = match gateway {
        Some(a) => seq![gateway_endpoint(a.port)],
        None => Seq::empty(),
    };
    let both = first.push(rivet_endpoint(rivet_port));
    match db_path {
        Some(p) => both.push(database_endpoint(p)),
        None => both,
    }
}

/// The first endpoint from `i` on that is a port `port`.
pub open spec fn port_index(s: Seq<EndpointView>, port: u16, i: int) -> int
    decreases s.len() - i,
{
    if i < 0 || i >= s.len() {
        s.len() as int
    } else if s[i].kind == (KindView::LoopbackPort { port }) {
        i
    } else {
        port_index(s, port, i + 1)
    }
}

/// Whether a port forward may be made: one from the host always, one to the
/// host where it does not lead to a protected port.
pub open spec fn forward_verdict(s: Seq<EndpointView>, c: PortForwardConfig) -> VerdictView {
    let i = port_index(s, c.host_port, 0);
    if c.direction is HostToSandbox || i >= s.len() {
        VerdictView::Allow
    } else {
        VerdictView::Deny { endpoint: s[i].label, reason: s[i].reason }
    }
}

/// Whether an address is a loopback address.
pub open spec fn is_loopback(ip: net::IpView) -> bool {
    match ip {
        net::IpView::V4(v4) => v4.a == 127,
        net::IpView::V6(s) => s[0] == 0 && s[1] == 0 && s[2] == 0 && s[3] == 0 && s[4] == 0
            && s[5] == 0 && s[6] == 0 && s[7] == 1,
    }
}

fn loopback(ip: &IpAddr) -> (r: bool)
    ensures
        r == is_loopback(ip@),
{
    match ip {
        IpAddr::V4(v4) => v4.a == 127,
        IpAddr::V6(v6) => {
            let s = v6.segments;
            s[0] == 0 && s[1] == 0 && s[2] == 0 && s[3] == 0 && s[4] == 0 && s[5] == 0 && s[6] == 0
                && s[7] == 1
        },
    }
}

/// Whether a configuration of the gateway keeps machines in: unknown hosts are
/// rejected, and the gateway listens on loopback only.
pub open spec fn gateway_verdict(config: AuthGatewayConfig) -> VerdictView {
    if !(config.on_miss is Reject) {
        VerdictView::Deny {
            endpoint: "Auth Gateway"@,
            reason: "MissPolicy must be Reject; Passthrough allows VMs to reach arbitrary hosts"@,
        }
    } else if !is_loopback(config.bind.ip@) {
        VerdictView::Deny {
            endpoint: "Auth Gateway"@,
            reason: "gateway must bind to loopback, not "@ + config.bind.ip.shown()
                + "; a routable address exposes credential injection to the network"@,
        }
    } else {
        VerdictView::Allow
    }
}

/// The ports among endpoints.
pub open spec fn ports(s: Seq<EndpointView>) -> Seq<u16>
    decreases s.len(),
{
    if s.len() == 0 {
        Seq::empty()
    } else {
        match s.last().kind {
            KindView::LoopbackPort { port } => ports(s.drop_last()).push(port),
            _ => ports(s.drop_last()),
        }
    }
}

impl NetworkPolicy {
    /// What the policy protects.
    pub closed spec fn model(&self) -> Seq<EndpointView> {
        endpoint_views(self.protected@)
    }

    /// The policy for these addresses.
    pub fn new(gateway_addr: Option<SocketAddr>, rivet_port: u16, db_path: Option<String>) -> (r:
        Self)
        ensures
            r.model() == protected(gateway_addr, rivet_port, text::opt_view(db_path)),
    {
        let mut list: Vec<ProtectedEndpoint> = Vec::new();
        match gateway_addr {
            Some(addr) => {
                list.push(
                    ProtectedEndpoint {
                        label: "Auth Gateway".to_owned(),
                        kind: ProtectedKind::LoopbackPort { port: addr.port },
                        reason: "raw port forward to the gateway would bypass credential injection".to_owned(),
                    },
                );
            },
            None => {},
        }
        list.push(
            ProtectedEndpoint {
                label: "Rivet API".to_owned(),
                kind: ProtectedKind::LoopbackPort { port: rivet_port },
                reason: "VM management API must not be accessible from within VMs".to_owned(),
            },
        );
        let ghost path = text::opt_view(db_path);
        match db_path {
            Some(path) => {
                list.push(
                    ProtectedEndpoint {
                        label: "Credential Database".to_owned(),
                        kind: ProtectedKind::FilePath { path },
                        reason: "encrypted credentials at rest must not be readable by VMs".to_owned(),
                    },
                );
            },
            None => {},
        }
        proof {
            assert(endpoint_views(list@) =~= protected(gateway_addr, rivet_port, path));
        }
        NetworkPolicy { protected: list }
    }

    /// Whether a port forward may be made.
    pub fn check_port_forward(&self, config: &PortForwardConfig) -> (r: FirewallVerdict)
        ensures
            r@ == forward_verdict(self.model(), *config),
    {
        if matches!(config.direction, PortForwardDirection::HostToSandbox) {
            return FirewallVerdict::Allow;
        }
        let ghost all = endpoint_views(self.protected@);
        let mut i: usize = 0;
        while i < self.protected.len()
            invariant
                i <= self.protected@.len(),
                all == endpoint_views(self.protected@),
                all == self.model(),
                !(config.direction is HostToSandbox),
                port_index(all, config.host_port, 0) == port_index(
                    all,
                    config.host_port,
                    i as int,
                ),
            decreases self.protected@.len() - i,
        {
            let ep = &self.protected[i];
            proof {
                assert(all[i as int] == ep@);
            }
            match &ep.kind {
                ProtectedKind::LoopbackPort { port } => {
                    if config.host_port == *port {
                        return FirewallVerdict::Deny {
                            endpoint: ep.label.clone(),
                            reason: ep.reason.clone(),
                        };
                    }
                },
                ProtectedKind::FilePath { .. } => {},
            }
            i += 1;
        }
        FirewallVerdict::Allow
    }

    /// Whether a configuration of the gateway keeps machines in.
    pub fn validate_gateway_config(config: &AuthGatewayConfig) -> (r: FirewallVerdict)
        ensures
            r@ == gateway_verdict(*config),
    {
        match config.on_miss {
            MissPolicy::Reject => {},
            MissPolicy::Passthrough => {
                return FirewallVerdict::Deny {
                    endpoint: "Auth Gateway".to_owned(),
                    reason: "MissPolicy must be Reject; Passthrough allows VMs to reach arbitrary hosts".to_owned(),
                };
            },
        }
        if !loopback(&config.bind.ip) {
            let ip = config.bind.ip.to_string();
            return FirewallVerdict::Deny {
                endpoint: "Auth Gateway".to_owned(),
                reason: text::concat3(
                    "gateway must bind to loopback, not ",
                    ip.as_str(),
                    "; a routable address exposes credential injection to the network",
                ),
            };
        }
        FirewallVerdict::Allow
    }

    /// What the policy protects.
    pub fn protected_endpoints(&self) -> (r: &Vec<ProtectedEndpoint>)
        ensures
            endpoint_views(r@) == self.model(),
    {
        &self.protected
    }

    /// The protected ports.
    pub fn protected_ports(&self) -> (r: Vec<u16>)
        ensures
            r@ == ports(self.model()),
    {
        let ghost all = endpoint_views(self.protected@);
        let mut out: Vec<u16> = Vec::new();
        let mut i: usize = 0;
        proof {
            assert(all.take(0) =~= Seq::empty());
            assert(out@ =~= Seq::empty());
        }
        while i < self.protected.len()
            invariant
                i <= self.protected@.len(),
                all == endpoint_views(self.protected@),
                out@ == ports(all.take(i as int)),
            decreases self.protected@.len() - i,
        {
            proof {
                assert(all.take(i as int + 1).drop_last() =~= all.take(i as int));
                assert(all.take(i as int + 1).last() == self.protected@[i as int]@);
            }
            match &self.protected[i].kind {
                ProtectedKind::LoopbackPort { port } => {
                    out.push(*port);
                },
                ProtectedKind::FilePath { .. } => {},
            }
            i += 1;
        }
        proof {
            assert(all.take(all.len() as int) =~= all);
        }
        out
    }
}

proof fn lemma_port_index(s: Seq<EndpointView>, port: u16, i: int, k: int)
    requires
        0 <= i <= k < s.len(),
        s[k].kind == (KindView::LoopbackPort { port }),
    ensures
        port_index(s, port, i) <= k,
        port_index(s, port, i) >= i,
    decreases k - i,
{
    if i < k && s[i].kind != (KindView::LoopbackPort { port }) {
        lemma_port_index(s, port, i + 1, k);
    }
}

/// A machine does not reach a protected port: a port forward from it to one is
/// denied.
pub proof fn law_protected_ports_are_denied(
    s: Seq<EndpointView>,
    c: PortForwardConfig,
    k: int,
)
    requires
        c.direction is SandboxToHost,
        0 <= k < s.len(),
        s[k].kind == (KindView::LoopbackPort { port: c.host_port }),
    ensures
        forward_verdict(s, c) is Deny,
{
    lemma_port_index(s, c.host_port, 0, k);
}

/// A gateway whose configuration passes lets no request out to a host that no
/// rule names: it is answered 502 and recorded as blocked.
pub proof fn law_accepted_gateway_keeps_machines_in(
    config: AuthGatewayConfig,
    req: IncomingRequest,
    now: Timestamp,
    r: Opening,
    event: Option<AuditView>,
)
    requires
        gateway_verdict(config) is Allow,
        proxy::opened(config, req, now, r, event),
        proxy::requested_host(req) is Some,
        rules::rule_for(rules::rule_views(config.rules@), proxy::requested_host(req)->0, 0)
            >= config.rules@.len(),
    ensures
        is_loopback(config.bind.ip@),
        r matches Opening::Reply(reply) && reply.status == 502,
        event matches Some(e) && e is Blocked,
{
    proxy::law_unknown_host_is_refused(config, req, now, r, event);
}

} // verus!
