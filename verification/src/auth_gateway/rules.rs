//! Rules that say which credential goes to which host.

use vstd::prelude::*;
use vstd::string::*;
use crate::auth_gateway::firewall::FirewallPolicy;
use crate::net::{IpAddr, Ipv4Addr, SocketAddr};
use crate::text;

verus! {

/// The credential that agents are given in place of a real one.
pub const DUMMY_API_KEY: &'static str = "sk-cuartel-gateway";

/// What to do with a request whose host no rule names.
#[derive(Clone, Copy, PartialEq, Eq, Structural, Debug)]
pub enum MissPolicy {
    Reject,
    Passthrough,
}

impl Default for MissPolicy {
    fn default() -> (r: Self)
        ensures
            r is Reject,
    {
        MissPolicy::Reject
    }
}

/// The credential of one host, and how it is sent.
#[derive(Clone, PartialEq, Eq, Debug)]
pub struct AuthRule {
    /// The host, by the name that requests carry.
    pub hostname: String,
    /// The provider under which the credential is stored.
    pub provider_id: String,
    /// The key under which the credential is stored.
    pub env_key: String,
    /// The header that carries the credential.
    pub header_name: String,
    /// The value of that header, `{key}` standing for the credential.
    pub header_format: String,
    /// The headers that are taken off a request first.
    pub strip_headers: Vec<String>,
    /// The scheme of the upstream.
    pub upstream_scheme: String,
    /// The authority of the upstream, where it is not the host itself.
    pub upstream_authority: Option<String>,
}

/// The model of [`AuthRule`].
#[verifier::ext_equal]
pub struct RuleView {
    pub hostname: Seq<char>,
    pub provider_id: Seq<char>,
    pub env_key: Seq<char>,
    pub header_name: Seq<char>,
    pub header_format: Seq<char>,
    pub strip_headers: Seq<Seq<char>>,
    pub upstream_scheme: Seq<char>,
    pub upstream_authority: Option<Seq<char>>,
}

impl View for AuthRule {
    type V = RuleView;

    open spec fn view(&self) -> RuleView {
        RuleView {
            hostname: self.hostname@,
            provider_id: self.provider_id@,
            env_key: self.env_key@,
            header_name: self.header_name@,
            header_format: self.header_format@,
            strip_headers: text::views(self.strip_headers@),
            upstream_scheme: self.upstream_scheme@,
            upstream_authority: text::opt_view(self.upstream_authority),
        }
    }
}

/// The models of rules.
pub open spec fn rule_views(rules: Seq<AuthRule>) -> Seq<RuleView> {
    Seq::new(rules.len(), |i: int| rules[i]@)
}

impl RuleView {
    /// The value of the header for a credential.
    pub open spec fn header_value(self, credential: Seq<char>) -> Seq<char> {
        text::replaced(self.header_format, "{key}"@, credential)
    }
}

impl AuthRule {
    /// The value of the header for a credential.
    pub fn render_header_value(&self, credential: &str) -> (r: String)
        ensures
            r@ == self@.header_value(credential@),
    {
        proof {
            reveal_strlit("{key}");
        }
        text::replace(self.header_format.as_str(), "{key}", credential)
    }
}

/// The configuration of the gateway.
#[derive(Clone, Debug)]
pub struct AuthGatewayConfig {
    pub rules: Vec<AuthRule>,
    /// Where the gateway listens.
    pub bind: SocketAddr,
    pub on_miss: MissPolicy,
    pub firewall: FirewallPolicy,
}

/// The loopback address with a port that the system picks.
pub open spec fn loopback_ephemeral() -> SocketAddr {
    SocketAddr { ip: IpAddr::V4(Ipv4Addr { a: 127, b: 0, c: 0, d: 1 }), port: 0, zone: 0 }
}

fn default_bind() -> (r: SocketAddr)
    ensures
        r == loopback_ephemeral(),
{
    SocketAddr { ip: IpAddr::V4(Ipv4Addr { a: 127, b: 0, c: 0, d: 1 }), port: 0, zone: 0 }
}

/// The first rule from `i` on for the host, whatever the case of its letters;
/// the number of rules where there is none.
pub open spec fn rule_for(rules: Seq<RuleView>, hostname: Seq<char>, i: int) -> int
    decreases rules.len() - i,
{
    if i < 0 || i >= rules.len() {
        rules.len() as int
    } else if text::ascii_lower(rules[i].hostname) == text::ascii_lower(hostname) {
        i
    } else {
        rule_for(rules, hostname, i + 1)
    }
}

impl AuthGatewayConfig {
    /// The built-in rules, on loopback, with unknown hosts rejected.
    pub fn with_default_rules() -> (r: Self)
        ensures
            rule_views(r.rules@) == built_in(),
            r.bind == loopback_ephemeral(),
            r.on_miss is Reject,
            !r.firewall.allow_private_upstreams,
    {
        AuthGatewayConfig {
            rules: default_rules(),
            bind: default_bind(),
            on_miss: MissPolicy::default(),
            firewall: FirewallPolicy::default(),
        }
    }

    /// The position of the first rule for the host.
    pub fn match_index(&self, hostname: &str) -> (r: Option<usize>)
        ensures
            match r {
                Some(i) => i < self.rules@.len() && i == rule_for(
                    rule_views(self.rules@),
                    hostname@,
                    0,
                ),
                None => rule_for(rule_views(self.rules@), hostname@, 0) == self.rules@.len(),
            },
    {
        let ghost views = rule_views(self.rules@);
        let mut i: usize = 0;
        while i < self.rules.len()
            invariant
                i <= self.rules@.len(),
                views == rule_views(self.rules@),
                rule_for(views, hostname@, 0) == rule_for(views, hostname@, i as int),
            decreases self.rules@.len() - i,
        {
            if text::eq_ignore_ascii_case(self.rules[i].hostname.as_str(), hostname) {
                return Some(i);
            }
            i += 1;
        }
        None
    }

    /// The first rule for the host, whatever the case of its letters.
    pub fn match_host(&self, hostname: &str) -> (r: Option<&AuthRule>)
        ensures
            ({
                let i = rule_for(rule_views(self.rules@), hostname@, 0);
                match r {
                    Some(rule) => 0 <= i < self.rules@.len() && *rule == self.rules@[i],
                    None => i == self.rules@.len(),
                }
            }),
    {
        match self.match_index(hostname) {
            Some(i) => Some(&self.rules[i]),
            None => None,
        }
    }
}

impl Default for AuthGatewayConfig {
    fn default() -> (r: Self)
        ensures
            r.rules@.len() == 0,
            r.bind == loopback_ephemeral(),
            r.on_miss is Reject,
            !r.firewall.allow_private_upstreams,
    {
        AuthGatewayConfig {
            rules: Vec::new(),
            bind: default_bind(),
            on_miss: MissPolicy::default(),
            firewall: FirewallPolicy::default(),
        }
    }
}

/// A rule with the usual headers taken off and the host itself as upstream.
pub open spec fn plain_rule(
    hostname: Seq<char>,
    provider_id: Seq<char>,
    env_key: Seq<char>,
    header_name: Seq<char>,
    header_format: Seq<char>,
) -> RuleView {
    RuleView {
        hostname,
        provider_id,
        env_key,
        header_name,
        header_format,
        strip_headers: seq!["authorization"@, "x-api-key"@],
        upstream_scheme: "https"@,
        upstream_authority: None,
    }
}

/// The built-in rules.
pub open spec fn built_in() -> Seq<RuleView> {
    seq![
        plain_rule(
            "api.anthropic.com"@,
            "anthropic"@,
            "ANTHROPIC_API_KEY"@,
            "x-api-key"@,
            "{key}"@,
        ),
        plain_rule(
            "api.openai.com"@,
            "openai"@,
            "OPENAI_API_KEY"@,
            "Authorization"@,
            "Bearer {key}"@,
        ),
        plain_rule(
            "generativelanguage.googleapis.com"@,
            "google"@,
            "GEMINI_API_KEY"@,
            "x-goog-api-key"@,
            "{key}"@,
        ),
    ]
}

fn make_rule(
    hostname: &str,
    provider_id: &str,
    env_key: &str,
    header_name: &str,
    header_format: &str,
) -> (r: AuthRule)
    ensures
        r@ == plain_rule(hostname@, provider_id@, env_key@, header_name@, header_format@),
{
    let mut strip_headers: Vec<String> = Vec::new();
    strip_headers.push("authorization".to_owned());
    strip_headers.push("x-api-key".to_owned());
    proof {
        assert(text::views(strip_headers@) =~= seq!["authorization"@, "x-api-key"@]);
    }
    AuthRule {
        hostname: hostname.to_owned(),
        provider_id: provider_id.to_owned(),
        env_key: env_key.to_owned(),
        header_name: header_name.to_owned(),
        header_format: header_format.to_owned(),
        strip_headers,
        upstream_scheme: "https".to_owned(),
        upstream_authority: None,
    }
}

/// The rules for the providers that the built-in agents use.
pub fn default_rules() -> (r: Vec<AuthRule>)
    ensures
        rule_views(r@) == built_in(),
{
    let mut rules: Vec<AuthRule> = Vec::new();
    rules.push(
        make_rule(
            "api.anthropic.com",
            "anthropic",
            "ANTHROPIC_API_KEY",
            "x-api-key",
            "{key}",
        ),
    );
    rules.push(
        make_rule(
            "api.openai.com",
            "openai",
            "OPENAI_API_KEY",
            "Authorization",
            "Bearer {key}",
        ),
    );
    rules.push(
        make_rule(
            "generativelanguage.googleapis.com",
            "google",
            "GEMINI_API_KEY",
            "x-goog-api-key",
            "{key}",
        ),
    );
    proof {
        assert(rule_views(rules@) =~= built_in());
    }
    rules
}

} // verus!
