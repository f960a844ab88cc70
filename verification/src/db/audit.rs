//! Rows of the audit log.

use vstd::prelude::*;
use vstd::string::*;
use crate::text;

verus! {

/// The values of a row of the audit log, as they are handed in.
#[derive(Clone, Debug, PartialEq, Eq)]
pub struct AuditEventInput<'a> {
    pub kind: &'a str,
    /// When the gateway made the record, in RFC 3339.
    pub timestamp: &'a str,
    pub hostname: &'a str,
    pub provider_id: Option<&'a str>,
    pub env_key: Option<&'a str>,
    pub method: Option<&'a str>,
    pub path: Option<&'a str>,
    pub status: Option<u16>,
    pub client_ip: Option<&'a str>,
    pub reason: Option<&'a str>,
    pub error: Option<&'a str>,
}

/// A row of the audit log.
#[derive(Clone, PartialEq, Eq, Debug)]
pub struct AuditEventRow {
    pub id: String,
    pub kind: String,
    pub timestamp: String,
    pub hostname: String,
    pub provider_id: Option<String>,
    pub env_key: Option<String>,
    pub method: Option<String>,
    pub path: Option<String>,
    pub status: Option<u16>,
    pub client_ip: Option<String>,
    pub reason: Option<String>,
    pub error: Option<String>,
    pub created_at: String,
}

/// The model of the values of a row.
#[verifier::ext_equal]
pub struct AuditValues {
    pub kind: Seq<char>,
    pub timestamp: Seq<char>,
    pub hostname: Seq<char>,
    pub provider_id: Option<Seq<char>>,
    pub env_key: Option<Seq<char>>,
    pub method: Option<Seq<char>>,
    pub path: Option<Seq<char>>,
    pub status: Option<u16>,
    pub client_ip: Option<Seq<char>>,
    pub reason: Option<Seq<char>>,
    pub error: Option<Seq<char>>,
}

impl<'a> AuditEventInput<'a> {
    /// The values.
    pub open spec fn values(self) -> AuditValues {
        AuditValues {
            kind: self.kind@,
            timestamp: self.timestamp@,
            hostname: self.hostname@,
            provider_id: text::opt_str_view(self.provider_id),
            env_key: text::opt_str_view(self.env_key),
            method: text::opt_str_view(self.method),
            path: text::opt_str_view(self.path),
            status: self.status,
            client_ip: text::opt_str_view(self.client_ip),
            reason: text::opt_str_view(self.reason),
            error: text::opt_str_view(self.error),
        }
    }
}

impl AuditEventRow {
    /// The values of the row.
    pub open spec fn values(self) -> AuditValues {
        AuditValues {
            kind: self.kind@,
            timestamp: self.timestamp@,
            hostname: self.hostname@,
            provider_id: text::opt_view(self.provider_id),
            env_key: text::opt_view(self.env_key),
            method: text::opt_view(self.method),
            path: text::opt_view(self.path),
            status: self.status,
            client_ip: text::opt_view(self.client_ip),
            reason: text::opt_view(self.reason),
            error: text::opt_view(self.error),
        }
    }

    /// The row that holds `input`.
    pub fn stored(input: &AuditEventInput<'_>, id: String, created_at: String) -> (r: Self)
        ensures
            r.values() == input.values(),
            r.id == id,
            r.created_at == created_at,
    {
        AuditEventRow {
            id,
            kind: input.kind.to_owned(),
            timestamp: input.timestamp.to_owned(),
            hostname: input.hostname.to_owned(),
            provider_id: text::opt_to_owned(input.provider_id),
            env_key: text::opt_to_owned(input.env_key),
            method: text::opt_to_owned(input.method),
            path: text::opt_to_owned(input.path),
            status: input.status,
            client_ip: text::opt_to_owned(input.client_ip),
            reason: text::opt_to_owned(input.reason),
            error: text::opt_to_owned(input.error),
            created_at,
        }
    }
}

} // verus!
