//! What holds of addresses, and of what machines reach on the host.

use vstd::prelude::*;
use crate::auth_gateway::rules::{AuthGatewayConfig, MissPolicy};
use crate::firewall;
use crate::firewall::{EndpointView, KindView, VerdictView};
use crate::net;
use crate::net::{Ipv4Addr, SocketAddr};
use crate::rivet::network::{PortForwardConfig, PortForwardDirection};
use crate::text;
use crate::text_laws;

verus! {

proof fn lemma_port_index(s: Seq<EndpointView>, port: u16, from: int)
    requires
        0 <= from <= s.len(),
    ensures
        ({
            let i = firewall::port_index(s, port, from);
            &&& from <= i <= s.len()
            &&& i < s.len() ==> s[i].kind == (KindView::LoopbackPort { port })
            &&& forall|j: int|
                from <= j < i ==> (#[trigger] s[j]).kind != (KindView::LoopbackPort { port })
        }),
    decreases s.len() - from,
{
    if from < s.len() && s[from].kind != (KindView::LoopbackPort { port }) {
        lemma_port_index(s, port, from + 1);
    }
}

/// A port forward is denied where it leads from a machine to a protected port of
/// the host, with the label and the reason of the first such; else it is allowed.
pub proof fn law_port_forwards(s: Seq<EndpointView>, c: PortForwardConfig, i: int)
    requires
        0 <= i <= s.len(),
        forall|j: int|
            0 <= j < i ==> (#[trigger] s[j]).kind != (KindView::LoopbackPort { port: c.host_port }),
        i < s.len() ==> s[i].kind == (KindView::LoopbackPort { port: c.host_port }),
    ensures
        c.direction == PortForwardDirection::HostToSandbox ==> firewall::forward_verdict(s, c)
            == VerdictView::Allow,
        i == s.len() ==> firewall::forward_verdict(s, c) == VerdictView::Allow,
        c.direction == PortForwardDirection::SandboxToHost && i < s.len()
            ==> firewall::forward_verdict(s, c) == (VerdictView::Deny {
            endpoint: s[i].label,
            reason: s[i].reason,
        }),
{
    lemma_port_index(s, c.host_port, 0);
    let k = firewall::port_index(s, c.host_port, 0);
    if k < i {
        assert(s[k].kind != (KindView::LoopbackPort { port: c.host_port }));
    }
    if i < k {
        assert(s[i].kind != (KindView::LoopbackPort { port: c.host_port }));
    }
}

/// Whether something of a kind is among what is protected.
pub open spec fn protects(s: Seq<EndpointView>, kind: KindView) -> bool {
    exists|i: int| 0 <= i < s.len() && (#[trigger] s[i]).kind == kind
}

/// The port of the gateway, the port of the runtime and the database are
/// protected, where they are there, and nothing else is.
pub proof fn law_what_is_protected(
    gateway: Option<SocketAddr>,
    port: u16,
    path: Option<Seq<char>>,
    kind: KindView,
)
    ensures
        protects(firewall::protected(gateway, port, path), kind) <==> ({
            ||| kind == (KindView::LoopbackPort { port })
            ||| gateway is Some && kind == (KindView::LoopbackPort { port: (gateway->0).port })
            ||| path is Some && kind == (KindView::FilePath { path: path->0 })
        }),
{
    let s = firewall::protected(gateway, port, path);
    let n = if gateway is Some {
        1int
    } else {
        0int
    };
    assert(s[n].kind == (KindView::LoopbackPort { port }));
    if gateway is Some {
        assert(s[0].kind == (KindView::LoopbackPort { port: (gateway->0).port }));
    }
    if path is Some {
        assert(s[n + 1].kind == (KindView::FilePath { path: path->0 }));
    }
    if protects(s, kind) {
        let i = choose|i: int| 0 <= i < s.len() && (#[trigger] s[i]).kind == kind;
        assert(i == 0 || i == 1 || i == 2);
    }
}

/// The protected ports are those of what is protected.
pub proof fn law_protected_ports(s: Seq<EndpointView>, port: u16)
    ensures
        firewall::ports(s).contains(port) <==> protects(s, KindView::LoopbackPort { port }),
    decreases s.len(),
{
    if s.len() > 0 {
        let front = s.drop_last();
        law_protected_ports(front, port);
        let all = firewall::ports(s);
        let less = firewall::ports(front);
        if protects(front, KindView::LoopbackPort { port }) {
            let i = choose|i: int|
                0 <= i < front.len() && (#[trigger] front[i]).kind == (KindView::LoopbackPort {
                    port,
                });
            assert(s[i].kind == (KindView::LoopbackPort { port }));
            let k = choose|k: int| 0 <= k < less.len() && less[k] == port;
            assert(all[k] == port);
        }
        if s.last().kind == (KindView::LoopbackPort { port }) {
            assert(s[s.len() - 1].kind == (KindView::LoopbackPort { port }));
            assert(all[less.len() as int] == port);
        }
        if protects(s, KindView::LoopbackPort { port }) {
            let i = choose|i: int|
                0 <= i < s.len() && (#[trigger] s[i]).kind == (KindView::LoopbackPort { port });
            if i < front.len() {
                assert(front[i].kind == (KindView::LoopbackPort { port }));
            }
        }
        if all.contains(port) {
            let k = choose|k: int| 0 <= k < all.len() && all[k] == port;
            if k < less.len() {
                assert(less[k] == port);
            }
        }
    }
}

/// A gateway is accepted where it rejects unknown hosts and listens on loopback:
/// 127.0.0.0/8, or `::1`.
pub proof fn law_accepted_gateways(config: AuthGatewayConfig)
    ensures
        firewall::gateway_verdict(config) == VerdictView::Allow <==> {
            &&& config.on_miss == MissPolicy::Reject
            &&& match config.bind.ip@ {
                net::IpView::V4(v4) => v4.a == 127,
                net::IpView::V6(s) => (forall|i: int| 0 <= i < 7 ==> #[trigger] s[i] == 0) && s[7]
                    == 1,
            }
        },
{
    match config.bind.ip@ {
        net::IpView::V4(_) => {},
        net::IpView::V6(s) => {
            if forall|i: int| 0 <= i < 7 ==> #[trigger] s[i] == 0 {
                assert(s[0] == 0 && s[1] == 0 && s[2] == 0 && s[3] == 0 && s[4] == 0 && s[5] == 0
                    && s[6] == 0);
            }
        },
    }
}

proof fn lemma_octet(n: u8)
    ensures
        net::parsed_octet(text::decimal(n as nat)) == Some(n),
        !text::decimal(n as nat).contains('.'),
{
    let s = text::decimal(n as nat);
    text_laws::law_decimal(n as nat);
    reveal_with_fuel(text::decimal, 4);
    assert(s.len() <= 3);
    if s.contains('.') {
        let i = choose|i: int| 0 <= i < s.len() && s[i] == '.';
        assert('0' <= s[i] <= '9');
    }
    if s.len() > 1 {
        if n == 0 {
            assert(s.len() == 1);
        }
    }
}

pub proof fn lemma_split_front(a: Seq<char>, c: char, rest: Seq<char>)
    requires
        !a.contains(c),
    ensures
        text::split_char(a + seq![c] + rest, c) == seq![a] + text::split_char(rest, c),
    decreases rest.len(),
{
    let s = a + seq![c] + rest;
    text::lemma_split_nonempty(rest, c);
    if rest.len() == 0 {
        assert(s.drop_last() =~= a);
        lemma_split_bare(a, c);
        assert(text::split_char(s, c) =~= seq![a] + text::split_char(rest, c));
    } else {
        lemma_split_front(a, c, rest.drop_last());
        assert(s.drop_last() =~= a + seq![c] + rest.drop_last());
        assert(s.last() == rest.last());
        text::lemma_split_nonempty(rest.drop_last(), c);
        let less = text::split_char(rest.drop_last(), c);
        assert((seq![a] + less).last() == less.last());
        assert((seq![a] + less).drop_last() =~= seq![a] + less.drop_last());
        assert(text::split_char(s, c) =~= seq![a] + text::split_char(rest, c));
    }
}

pub proof fn lemma_split_bare(a: Seq<char>, c: char)
    requires
        !a.contains(c),
    ensures
        text::split_char(a, c) == seq![a],
    decreases a.len(),
{
    if a.len() == 0 {
        assert(a =~= Seq::empty());
    } else {
        let rest = a.drop_last();
        assert(!rest.contains(c)) by {
            if rest.contains(c) {
                let k = choose|k: int| 0 <= k < rest.len() && rest[k] == c;
                assert(a[k] == c);
            }
        }
        lemma_split_bare(rest, c);
        assert(a[a.len() - 1] != c);
        assert(rest.push(a.last()) =~= a);
        assert(seq![rest].drop_last().push(a) =~= seq![a]);
    }
}

/// The text of an IPv4 address reads back.
pub proof fn law_v4_reads_back(ip: Ipv4Addr)
    ensures
        net::parsed_v4(ip.shown()) == Some(ip),
        net::parsed_ip(ip.shown()) == Some(net::IpView::V4(ip)),
{
    reveal_strlit(".");
    assert("."@ =~= seq!['.']);
    let (a, b, c, d) = (
        text::decimal(ip.a as nat),
        text::decimal(ip.b as nat),
        text::decimal(ip.c as nat),
        text::decimal(ip.d as nat),
    );
    lemma_octet(ip.a);
    lemma_octet(ip.b);
    lemma_octet(ip.c);
    lemma_octet(ip.d);
    let dot = seq!['.'];
    lemma_split_bare(d, '.');
    lemma_split_front(c, '.', d);
    lemma_split_front(b, '.', c + dot + d);
    lemma_split_front(a, '.', b + dot + (c + dot + d));
    assert(ip.shown() =~= a + dot + (b + dot + (c + dot + d)));
    let p = text::split_char(ip.shown(), '.');
    assert(p =~= seq![a, b, c, d]);
    assert(p.len() == 4 && p[0] == a && p[1] == b && p[2] == c && p[3] == d);
}

/// A number that does not fit in a byte, or is written with a leading zero, is no
/// part of an IPv4 address.
pub proof fn law_bad_octets(s: Seq<char>)
    ensures
        s.len() > 1 && s[0] == '0' ==> net::parsed_octet(s) is None,
        text::digits_value(s) > 255 ==> net::parsed_octet(s) is None,
        s.len() == 0 ==> net::parsed_octet(s) is None,
        !text::all_digits(s) ==> net::parsed_octet(s) is None,
{
}

} // verus!
