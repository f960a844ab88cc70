//! Records of what the gateway did with a request.

use vstd::prelude::*;
use vstd::string::*;
use crate::net;
use crate::net::IpAddr;
use crate::time::Timestamp;

verus! {

/// A record of the gateway.
#[derive(Clone, PartialEq, Eq, Debug)]
pub enum AuditEvent {
    /// A credential was put on a request and the upstream answered.
    Injected {
        timestamp: Timestamp,
        client_ip: Option<IpAddr>,
        hostname: String,
        provider_id: String,
        env_key: String,
        method: String,
        path: String,
        status: u16,
    },
    /// A request was turned away.
    Blocked {
        timestamp: Timestamp,
        client_ip: Option<IpAddr>,
        hostname: String,
        method: String,
        path: String,
        reason: String,
    },
    /// A rule names a credential that the store does not hold.
    CredentialMissing {
        timestamp: Timestamp,
        hostname: String,
        provider_id: String,
        env_key: String,
    },
    /// The upstream could not be asked.
    UpstreamError { timestamp: Timestamp, hostname: String, provider_id: String, error: String },
}

/// The model of [`AuditEvent`].
#[verifier::ext_equal]
pub enum AuditView {
    Injected {
        timestamp: Timestamp,
        client_ip: Option<net::IpView>,
        hostname: Seq<char>,
        provider_id: Seq<char>,
        env_key: Seq<char>,
        method: Seq<char>,
        path: Seq<char>,
        status: u16,
    },
    Blocked {
        timestamp: Timestamp,
        client_ip: Option<net::IpView>,
        hostname: Seq<char>,
        method: Seq<char>,
        path: Seq<char>,
        reason: Seq<char>,
    },
    CredentialMissing {
        timestamp: Timestamp,
        hostname: Seq<char>,
        provider_id: Seq<char>,
        env_key: Seq<char>,
    },
    UpstreamError {
        timestamp: Timestamp,
        hostname: Seq<char>,
        provider_id: Seq<char>,
        error: Seq<char>,
    },
}

impl View for AuditEvent {
    type V = AuditView;

    open spec fn view(&self) -> AuditView {
        match *self {
            AuditEvent::Injected {
                timestamp,
                client_ip,
                hostname,
                provider_id,
                env_key,
                method,
                path,
                status,
            } => AuditView::Injected {
                timestamp,
                client_ip: net::opt_ip_view(client_ip),
                hostname: hostname@,
                provider_id: provider_id@,
                env_key: env_key@,
                method: method@,
                path: path@,
                status,
            },
            AuditEvent::Blocked { timestamp, client_ip, hostname, method, path, reason } => AuditView::Blocked {
                timestamp,
                client_ip: net::opt_ip_view(client_ip),
                hostname: hostname@,
                method: method@,
                path: path@,
                reason: reason@,
            },
            AuditEvent::CredentialMissing { timestamp, hostname, provider_id, env_key } => AuditView::CredentialMissing {
                timestamp,
                hostname: hostname@,
                provider_id: provider_id@,
                env_key: env_key@,
            },
            AuditEvent::UpstreamError { timestamp, hostname, provider_id, error } => AuditView::UpstreamError {
                timestamp,
                hostname: hostname@,
                provider_id: provider_id@,
                error: error@,
            },
        }
    }
}

/// The model of an optional record.
pub open spec fn opt_event_view(o: Option<AuditEvent>) -> Option<AuditView> {
    match o {
        Some(e) => Some(e@),
        None => None,
    }
}

impl AuditView {
    /// The name of the variant.
    pub open spec fn kind(self) -> Seq<char> {
        match self {
            AuditView::Injected { .. } => "injected"@,
            AuditView::Blocked { .. } => "blocked"@,
            AuditView::CredentialMissing { .. } => "credential_missing"@,
            AuditView::UpstreamError { .. } => "upstream_error"@,
        }
    }

    /// When the record was made.
    pub open spec fn timestamp(self) -> Timestamp {
        match self {
            AuditView::Injected { timestamp, .. } => timestamp,
            AuditView::Blocked { timestamp, .. } => timestamp,
            AuditView::CredentialMissing { timestamp, .. } => timestamp,
            AuditView::UpstreamError { timestamp, .. } => timestamp,
        }
    }

    /// The address of the agent, where the record holds it.
    pub open spec fn client_ip(self) -> Option<net::IpView> {
        match self {
            AuditView::Injected { client_ip, .. } => client_ip,
            AuditView::Blocked { client_ip, .. } => client_ip,
            _ => None,
        }
    }
}

impl AuditEvent {
    /// The name of the variant.
    pub fn kind(&self) -> (r: &'static str)
        ensures
            r@ == self@.kind(),
    {
        match self {
            AuditEvent::Injected { .. } => "injected",
            AuditEvent::Blocked { .. } => "blocked",
            AuditEvent::CredentialMissing { .. } => "credential_missing",
            AuditEvent::UpstreamError { .. } => "upstream_error",
        }
    }
}

/// How many records wait for a slow subscriber.
pub const DEFAULT_AUDIT_BUFFER: usize = 256;

} // verus!
