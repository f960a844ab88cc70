//! Address classes that the gateway does not send requests to.
//!
//! A rule that points its upstream at an address of the host's own network
//! would make the gateway an open proxy. Only literal addresses are judged:
//! what a name resolves to is not known here.

use vstd::prelude::*;
use vstd::string::*;
use crate::net;
use crate::net::{IpAddr, Ipv4Addr, Ipv6Addr, SocketAddr};
use crate::text;

verus! {

/// What the gateway may send requests to.
#[derive(Clone, Copy, PartialEq, Eq, Structural, Debug)]
pub struct FirewallPolicy {
    /// Whether a rule may point at a private or loopback address.
    pub allow_private_upstreams: bool,
}

impl Default for FirewallPolicy {
    fn default() -> (r: Self)
        ensures
            !r.allow_private_upstreams,
    {
        FirewallPolicy { allow_private_upstreams: false }
    }
}

/// The reason of a request that is blocked by the policy.
pub const BLOCK_REASON_PRIVATE_UPSTREAM: &'static str =
    "firewall: upstream authority resolves to a private/loopback address";

/// Whether an IPv4 address is of a blocked class: this network, private,
/// carrier-grade NAT, loopback, link-local, multicast, or broadcast.
pub open spec fn blocked_v4(ip: Ipv4Addr) -> bool {
    ||| ip.a == 0
    ||| ip.a == 10
    ||| ip.a == 100 && 64 <= ip.b <= 127
    ||| ip.a == 127
    ||| ip.a == 169 && ip.b == 254
    ||| ip.a == 172 && 16 <= ip.b <= 31
    ||| ip.a == 192 && ip.b == 168
    ||| 224 <= ip.a <= 239
    ||| ip.a == 255 && ip.b == 255 && ip.c == 255 && ip.d == 255
}

/// Whether all segments are zero but the last.
pub open spec fn leading_zeros(segs: Seq<u16>) -> bool {
    segs[0] == 0 && segs[1] == 0 && segs[2] == 0 && segs[3] == 0 && segs[4] == 0 && segs[5] == 0
        && segs[6] == 0
}

/// Whether an IPv6 address is of a blocked class: unspecified, loopback,
/// multicast, unique local, link-local, or a mapped IPv4 address of a blocked
/// class.
pub open spec fn blocked_v6(segs: Seq<u16>) -> bool {
    ||| leading_zeros(segs) && segs[7] <= 1
    ||| 0xff00 <= segs[0]
    ||| 0xfc00 <= segs[0] <= 0xfdff
    ||| 0xfe80 <= segs[0] <= 0xfebf
    ||| net::is_mapped(segs) && blocked_v4(net::embedded_v4(segs))
}

/// Whether an address is of a blocked class.
pub open spec fn blocked(ip: net::IpView) -> bool {
    match ip {
        net::IpView::V4(v4) => blocked_v4(v4),
        net::IpView::V6(segs) => blocked_v6(segs),
    }
}

/// Whether the gateway must not send a request of an agent to `addr`.
pub fn is_blocked_ip(addr: IpAddr) -> (r: bool)
    ensures
        r == blocked(addr@),
{
    match addr {
        IpAddr::V4(v4) => is_blocked_v4(v4),
        IpAddr::V6(v6) => is_blocked_v6(v6),
    }
}

fn is_blocked_v4(ip: Ipv4Addr) -> (r: bool)
    ensures
        r == blocked_v4(ip),
{
    let private = ip.a == 10 || (ip.a == 172 && 16 <= ip.b && ip.b <= 31) || (ip.a == 192 && ip.b
        == 168);
    if ip.a == 127 || private {
        return true;
    }
    let broadcast = ip.a == 255 && ip.b == 255 && ip.c == 255 && ip.d == 255;
    if (ip.a == 169 && ip.b == 254) || broadcast || (224 <= ip.a && ip.a <= 239) {
        return true;
    }
    ip.a == 0 || (ip.a == 100 && 64 <= ip.b && ip.b <= 127)
}

fn is_blocked_v6(ip: Ipv6Addr) -> (r: bool)
    ensures
        r == blocked_v6(ip.segments@),
{
    let s = ip.segments;
    let zeros = s[0] == 0 && s[1] == 0 && s[2] == 0 && s[3] == 0 && s[4] == 0;
    if zeros && s[5] == 0 && s[6] == 0 && s[7] <= 1 {
        return true;
    }
    if 0xff00 <= s[0] {
        return true;
    }
    if 0xfc00 <= s[0] && s[0] <= 0xfdff {
        return true;
    }
    if 0xfe80 <= s[0] && s[0] <= 0xfebf {
        return true;
    }
    if zeros && s[5] == 0xffff {
        let v4 = Ipv4Addr {
            a: (s[6] / 256) as u8,
            b: (s[6] % 256) as u8,
            c: (s[7] / 256) as u8,
            d: (s[7] % 256) as u8,
        };
        return is_blocked_v4(v4);
    }
    false
}

/// The inside of a text in square brackets.
pub open spec fn unbracketed(s: Seq<char>) -> Option<Seq<char>> {
    if s.len() >= 2 && s[0] == '[' && s.last() == ']' {
        Some(s.subrange(1, s.len() - 1))
    } else {
        None
    }
}

/// The address of an authority whose host is a literal address; port and zone
/// are zero where it names none.
pub open spec fn ip_authority(s: Seq<char>) -> Option<(net::IpView, nat, nat)> {
    match net::parsed_socket(s) {
        Some(a) => Some(a),
        None => {
            let inner = match unbracketed(s) {
                Some(t) => net::parsed_ip(t),
                None => None,
            };
            match inner {
                Some(ip) => Some((ip, 0, 0)),
                None => match net::parsed_ip(s) {
                    Some(ip) => Some((ip, 0, 0)),
                    None => None,
                },
            }
        },
    }
}

/// The address of an authority `host[:port]`, where the host is a literal
/// address; a name gives none.
pub fn parse_ip_authority(authority: &str) -> (r: Option<SocketAddr>)
    ensures
        net::opt_socket_view(r) == ip_authority(authority@),
{
    match net::parse_socket(authority) {
        Some(a) => {
            return Some(a);
        },
        None => {},
    }
    let v = text::to_chars(authority);
    if v.len() >= 2 && v[0] == '[' && v[v.len() - 1] == ']' {
        let inner = text::from_range(&v, 1, v.len() - 1);
        match net::parse_ip(inner.as_str()) {
            Some(ip) => {
                return Some(SocketAddr::new(ip, 0));
            },
            None => {},
        }
    }
    match net::parse_ip(authority) {
        Some(ip) => Some(SocketAddr::new(ip, 0)),
        None => None,
    }
}

/// Whether the policy forbids to send a request to `authority`.
pub open spec fn forbids(policy: FirewallPolicy, authority: Seq<char>) -> bool {
    match ip_authority(authority) {
        Some((ip, _, _)) => !policy.allow_private_upstreams && blocked(ip),
        None => false,
    }
}

impl FirewallPolicy {
    /// Whether the policy forbids to send a request to `authority`: a literal
    /// address of a blocked class.
    pub fn forbids_upstream(&self, authority: &str) -> (r: bool)
        ensures
            r == forbids(*self, authority@),
    {
        if self.allow_private_upstreams {
            return false;
        }
        match parse_ip_authority(authority) {
            Some(a) => is_blocked_ip(a.ip),
            None => false,
        }
    }
}

} // verus!
