//! What holds of other servers and the hosts of the tailnet.

use vstd::prelude::*;
use crate::db::sessions::SessionRow;
use crate::json;
use crate::json::JsonView;
use crate::net;
use crate::remote::registry;
use crate::remote::server::RemoteServer;
use crate::remote::sync;
use crate::remote::tailscale;
use crate::remote::tailscale::{
    DeviceView, StatusOutcome, TailnetSnapshot, TailnetStatus, TailscaleDevice,
};
use crate::text;

verus! {

/// A host is reached by its first IPv4 address; by its first address where it has
/// none of these.
pub proof fn law_primary_address(addresses: Seq<Seq<char>>, i: int)
    requires
        0 <= i <= addresses.len(),
        forall|j: int| 0 <= j < i ==> net::parsed_v4(#[trigger] addresses[j]) is None,
        i < addresses.len() ==> net::parsed_v4(addresses[i]) is Some,
    ensures
        i < addresses.len() ==> tailscale::primary(addresses) == Some(addresses[i]),
        i == addresses.len() && i > 0 ==> tailscale::primary(addresses) == Some(addresses[0]),
        addresses.len() == 0 ==> tailscale::primary(addresses) is None,
{
    lemma_first_v4(addresses, 0, i);
}

proof fn lemma_first_v4(addresses: Seq<Seq<char>>, from: int, i: int)
    requires
        0 <= from <= i <= addresses.len(),
        forall|j: int| 0 <= j < i ==> net::parsed_v4(#[trigger] addresses[j]) is None,
        i < addresses.len() ==> net::parsed_v4(addresses[i]) is Some,
    ensures
        tailscale::first_v4(addresses, from) == i,
    decreases i - from,
{
    if from < i {
        assert(net::parsed_v4(addresses[from]) is None);
        lemma_first_v4(addresses, from + 1, i);
    }
}

/// The address of a host's health: by its address and port; an IPv6 address
/// stands in brackets.
pub proof fn law_health_address(ip: Seq<char>, port: nat)
    ensures
        net::parsed_ip(ip) matches Some(net::IpView::V6(_)) ==> tailscale::health_url(ip, port)
            == "http://["@ + ip + "]:"@ + text::decimal(port) + "/health"@,
        !(net::parsed_ip(ip) matches Some(net::IpView::V6(_))) ==> tailscale::health_url(ip, port)
            == "http://"@ + ip + ":"@ + text::decimal(port) + "/health"@,
{
}

/// Whether the hosts stand in order: this one first, the others by their names
/// in lower case.
pub open spec fn are_ordered(v: Seq<DeviceView>) -> bool {
    forall|i: int, j: int|
        0 <= i < j < v.len() ==> {
            let (a, b) = (#[trigger] v[i], #[trigger] v[j]);
            &&& b.is_self ==> a.is_self
            &&& a.is_self == b.is_self ==> !text::lex_lt(
                tailscale::lowercased(b.hostname),
                tailscale::lowercased(a.hostname),
            )
        }
}

/// The hosts are sorted, and none comes or goes.
pub proof fn law_hosts_stand_in_order(v: Seq<DeviceView>)
    ensures
        are_ordered(tailscale::in_order(v)),
        tailscale::in_order(v).to_multiset() == v.to_multiset(),
    decreases v.len(),
{
    if v.len() > 0 {
        law_hosts_stand_in_order(v.drop_last());
        let front = tailscale::in_order(v.drop_last());
        let x = v.last();
        let n = tailscale::device_slot(front, x);
        lemma_slot(front, x);
        let out = front.insert(n, x);
        assert forall|i: int, j: int| 0 <= i < j < out.len() implies ({
            let (a, b) = (#[trigger] out[i], #[trigger] out[j]);
            &&& b.is_self ==> a.is_self
            &&& a.is_self == b.is_self ==> !text::lex_lt(
                tailscale::lowercased(b.hostname),
                tailscale::lowercased(a.hostname),
            )
        }) by {
            let a = if i < n {
                front[i]
            } else if i == n {
                x
            } else {
                front[i - 1]
            };
            let b = if j < n {
                front[j]
            } else if j == n {
                x
            } else {
                front[j - 1]
            };
            assert(out[i] == a && out[j] == b);
            if i == n {
                assert(tailscale::stands_before(x, front[j - 1]));
                let (p, q) = (tailscale::lowercased(a.hostname), tailscale::lowercased(b.hostname));
                if text::lex_lt(p, q) && text::lex_lt(q, p) {
                    text::lemma_lex_transitive(p, q, p);
                    text::lemma_lex_irreflexive(p);
                }
            } else if j == n {
                assert(!tailscale::stands_before(x, front[i]));
            } else {
                let (k, l) = (
                    if i < n {
                        i
                    } else {
                        i - 1
                    },
                    if j < n {
                        j
                    } else {
                        j - 1
                    },
                );
                assert(front[k] == a && front[l] == b);
            }
        }
        front.to_multiset_ensures();
        v.drop_last().to_multiset_ensures();
        vstd::seq_lib::to_multiset_insert(front, n, x);
        assert(v =~= v.drop_last().push(x));
    } else {
        assert(v =~= Seq::empty());
    }
}

proof fn lemma_slot(v: Seq<DeviceView>, x: DeviceView)
    requires
        are_ordered(v),
    ensures
        0 <= tailscale::device_slot(v, x) <= v.len(),
        forall|i: int|
            0 <= i < tailscale::device_slot(v, x) ==> !tailscale::stands_before(
                x,
                #[trigger] v[i],
            ),
        forall|i: int|
            tailscale::device_slot(v, x) <= i < v.len() ==> tailscale::stands_before(
                x,
                #[trigger] v[i],
            ),
    decreases v.len(),
{
    if v.len() > 0 {
        let front = v.drop_last();
        let last = v.last();
        if tailscale::stands_before(x, last) {
            assert(are_ordered(front)) by {
                assert forall|i: int, j: int| 0 <= i < j < front.len() implies ({
                    let (a, b) = (#[trigger] front[i], #[trigger] front[j]);
                    &&& b.is_self ==> a.is_self
                    &&& a.is_self == b.is_self ==> !text::lex_lt(
                        tailscale::lowercased(b.hostname),
                        tailscale::lowercased(a.hostname),
                    )
                }) by {
                    assert(front[i] == v[i] && front[j] == v[j]);
                }
            }
            lemma_slot(front, x);
            let n = tailscale::device_slot(front, x);
            assert forall|i: int| n <= i < v.len() implies tailscale::stands_before(
                x,
                #[trigger] v[i],
            ) by {
                if i < front.len() {
                    assert(v[i] == front[i]);
                }
            }
            assert forall|i: int| 0 <= i < n implies !tailscale::stands_before(
                x,
                #[trigger] v[i],
            ) by {
                assert(v[i] == front[i]);
            }
        } else {
            assert forall|i: int| 0 <= i < v.len() implies !tailscale::stands_before(
                x,
                #[trigger] v[i],
            ) by {
                if i < v.len() - 1 && tailscale::stands_before(x, v[i]) {
                    let z = v[v.len() - 1];
                    let (p, q, r) = (
                        tailscale::lowercased(x.hostname),
                        tailscale::lowercased(v[i].hostname),
                        tailscale::lowercased(z.hostname),
                    );
                    assert(z == last);
                    assert(z.is_self ==> v[i].is_self);
                    if x.is_self == v[i].is_self && v[i].is_self == z.is_self {
                        text::lemma_lex_total(q, r);
                        if text::lex_lt(q, r) {
                            text::lemma_lex_transitive(p, q, r);
                        }
                    }
                }
            }
        }
    }
}

/// A status tells of this host and then of the others, each as its record tells
/// of it; only the first is this host.
pub proof fn law_hosts_of_a_status(
    members: Seq<(Seq<char>, JsonView)>,
    n: int,
    devices: Seq<DeviceView>,
    i: int,
)
    requires
        0 <= i < n <= members.len(),
        tailscale::peers_of(members, n) == Some(devices),
    ensures
        devices.len() == n,
        tailscale::device_of(members[i].1, false) == Some(devices[i]),
        !devices[i].is_self,
    decreases n,
{
    let front = tailscale::peers_of(members, n - 1)->0;
    if n > 1 {
        if i < n - 1 {
            law_hosts_of_a_status(members, n - 1, front, i);
        } else {
            law_hosts_of_a_status(members, n - 1, front, 0);
        }
    }
}

/// What is told of the tailnet: the hosts, where the program gave a status; else
/// no hosts, and why: it is not connected where the program failed, and not
/// available where it could not be run or understood.
pub proof fn law_what_is_told_of_the_tailnet(o: StatusOutcome, r: TailnetSnapshot)
    requires
        tailscale::told(o, r),
    ensures
        r.status is Available <==> (o matches StatusOutcome::Success { stdout }
            && tailscale::output_devices(stdout@) is Ok),
        r.status is NotConnected <==> o is Failure,
        o matches StatusOutcome::Success { stdout } ==> (tailscale::output_devices(
            stdout@,
        ) matches Ok(d) ==> tailscale::device_views(r.devices@) == d),
        !(r.status is Available) ==> r.devices@.len() == 0,
{
}

/// A host is named as asked, or by its own name where the name is blank.
pub proof fn law_name_of_a_peer(name: Seq<char>, device: TailscaleDevice)
    ensures
        text::trimmed(name).len() > 0 ==> registry::peer_name(name, device) == name,
        text::trimmed(name).len() == 0 ==> registry::peer_name(name, device) == device.hostname@,
{
}

/// The host of an address is what stands between its scheme and its port, or its
/// path where it has no port.
pub proof fn law_host_of_an_address(host: Seq<char>, rest: Seq<char>)
    requires
        !host.contains(':'),
        !host.contains('/'),
    ensures
        registry::host_of("http://"@ + host + seq![':'] + rest) == host,
        registry::host_of("https://"@ + host + seq![':'] + rest) == host,
        registry::host_of("http://"@ + host) == host,
        !rest.contains(':') ==> registry::host_of("http://"@ + host + seq!['/'] + rest) == host,
{
    reveal_strlit("http://");
    reveal_strlit("https://");
    let (plain, safe) = ("http://"@, "https://"@);
    let with_port = host + seq![':'] + rest;
    let with_path = host + seq!['/'] + rest;
    assert((plain + host + seq![':'] + rest) =~= plain + with_port);
    assert((safe + host + seq![':'] + rest) =~= safe + with_port);
    assert((plain + host + seq!['/'] + rest) =~= plain + with_path);
    assert((plain + with_port).take(7) =~= plain);
    assert((plain + with_port).skip(7) =~= with_port);
    assert((plain + with_path).take(7) =~= plain);
    assert((plain + with_path).skip(7) =~= with_path);
    assert((plain + host).take(7) =~= plain);
    assert((plain + host).skip(7) =~= host);
    assert((safe + with_port).take(8) =~= safe);
    assert((safe + with_port).skip(8) =~= with_port);
    assert((safe + with_port).take(7)[4] == 's');
    assert(plain[4] == ':');
    lemma_first(host, ':', rest);
    lemma_first(host, '/', rest);
    lemma_none(host, ':');
    lemma_none(host, '/');
    assert(host.take(host.len() as int) =~= host);
    assert(with_port.take(host.len() as int) =~= host);
    assert(with_path.take(host.len() as int) =~= host);
    if !rest.contains(':') {
        assert(!with_path.contains(':')) by {
            if with_path.contains(':') {
                let k = choose|k: int| 0 <= k < with_path.len() && with_path[k] == ':';
                if k < host.len() {
                    assert(host[k] == ':');
                } else if k > host.len() {
                    assert(rest[k - host.len() - 1] == ':');
                }
            }
        }
        lemma_none(with_path, ':');
    }
}

pub proof fn lemma_first(host: Seq<char>, c: char, rest: Seq<char>)
    requires
        !host.contains(c),
    ensures
        text::first_of(host + seq![c] + rest, c) == host.len(),
{
    let s = host + seq![c] + rest;
    text::lemma_first_of(s, c);
    let n = text::first_of(s, c);
    assert(s[host.len() as int] == c);
    if n < host.len() {
        assert(host[n] == s[n]);
    }
}

proof fn lemma_none(s: Seq<char>, c: char)
    requires
        !s.contains(c),
    ensures
        text::first_of(s, c) == s.len(),
{
    text::lemma_first_of(s, c);
    let n = text::first_of(s, c);
    if n < s.len() {
        assert(s[n] == c);
    }
}

/// This host is the first server that is local.
pub proof fn law_local_server(servers: Seq<RemoteServer>, from: int, i: int)
    requires
        0 <= from <= i <= servers.len(),
        forall|j: int| from <= j < i ==> !(#[trigger] servers[j]).is_local,
        i < servers.len() ==> servers[i].is_local,
    ensures
        sync::local_index(servers, from) == i,
    decreases i - from,
{
    if from < i {
        assert(!servers[from].is_local);
        law_local_server(servers, from + 1, i);
    }
}

/// A session that moves keeps everything but its server, and the id that the
/// runtime gave it where it gave a new one.
pub proof fn law_moved_session(
    before: SessionRow,
    after: SessionRow,
    server: Seq<char>,
    runtime_id: Option<Seq<char>>,
)
    requires
        sync::repointed(before, after, server, runtime_id),
    ensures
        after.server_id@ == server,
        runtime_id is None ==> after.rivet_session_id == before.rivet_session_id,
        runtime_id is Some ==> text::opt_view(after.rivet_session_id) == runtime_id,
        after.id == before.id && after.workspace_id == before.workspace_id && after.status
            == before.status && after.agent_type == before.agent_type,
{
}

/// An imported session keeps everything but its server.
pub proof fn law_imported_session(s: SessionRow, r: SessionRow, target: Seq<char>)
    requires
        sync::imported(s, r, target),
    ensures
        r.server_id@ == target,
        r.id == s.id && r.workspace_id == s.workspace_id && r.status == s.status && r.agent_type
            == s.agent_type && r.rivet_session_id == s.rivet_session_id,
{
}

/// A status lists this host, if it tells of it, and then its peers, if it tells
/// of any. What is neither record nor array is no status.
pub proof fn law_status_lists_this_host_first(
    o: Seq<(Seq<char>, JsonView)>,
    own: JsonView,
    this: DeviceView,
    peers: Seq<(Seq<char>, JsonView)>,
    rest: Seq<DeviceView>,
    t: Seq<char>,
)
    requires
        !(own is Null),
        tailscale::device_of(own, true) == Some(this),
        tailscale::peers_of(peers, peers.len() as int) == Some(rest),
    ensures
        ({
            let v = JsonView::Object(o);
            let (a, b) = (json::member(v, "Self"@), json::member(v, "Peer"@));
            let listed = tailscale::listed(v);
            &&& a == Some(own) && b == Some(JsonView::Object(peers)) ==> listed == Some(
                seq![this] + rest,
            )
            &&& a == Some(own) && b is None ==> listed == Some(seq![this])
            &&& (a is None || a == Some(JsonView::Null)) && b == Some(JsonView::Object(peers))
                ==> listed == Some(rest)
            &&& a is None && b is None ==> listed == Some(Seq::<DeviceView>::empty())
            &&& b == Some(JsonView::Str(t)) || b == Some(JsonView::Null) ==> listed is None
        }),
        tailscale::listed(JsonView::Array(seq![own, JsonView::Object(peers)])) == Some(
            seq![this] + rest,
        ),
        tailscale::listed(JsonView::Str(t)) is None,
        tailscale::listed(JsonView::Null) is None,
        this.is_self,
{
    assert(seq![this] + Seq::<DeviceView>::empty() =~= seq![this]);
    assert(Seq::<DeviceView>::empty() + rest =~= rest);
    assert(Seq::<DeviceView>::empty() + Seq::<DeviceView>::empty() =~= Seq::empty());
    let a = seq![own, JsonView::Object(peers)];
    assert(a[0] == own && a[1] == JsonView::Object(peers));
}

/// What a record tells of a host: its names, the texts of its addresses, its
/// system, and whether it is there. Its full name stands without the dot at its
/// end; what is not told is empty.
pub proof fn law_host_of_a_record(
    o: Seq<(Seq<char>, JsonView)>,
    host: Seq<char>,
    dns: Seq<char>,
    os: Seq<char>,
    addresses: Seq<Seq<char>>,
    online: bool,
    is_self: bool,
)
    requires
        json::member(JsonView::Object(o), "HostName"@) == Some(JsonView::Str(host)),
        json::member(JsonView::Object(o), "DNSName"@) == Some(JsonView::Str(dns)),
        json::member(JsonView::Object(o), "OS"@) == Some(JsonView::Str(os)),
        json::member(JsonView::Object(o), "TailscaleIPs"@) == Some(
            JsonView::Array(Seq::new(addresses.len(), |i: int| JsonView::Str(addresses[i]))),
        ),
        json::member(JsonView::Object(o), "Online"@) == Some(JsonView::Bool(online)),
    ensures
        ({
            let d = tailscale::device_of(JsonView::Object(o), is_self);
            &&& d is Some
            &&& (d->0).hostname == host
            &&& (d->0).addresses == addresses
            &&& (d->0).os == os
            &&& (d->0).online == online
            &&& (d->0).is_self == is_self
            &&& (d->0).dns_name == text::trim_end_char(dns, '.')
        }),
{
    lemma_texts(addresses);
}

proof fn lemma_texts(s: Seq<Seq<char>>)
    ensures
        tailscale::texts(Seq::new(s.len(), |i: int| JsonView::Str(s[i]))) == Some(s),
    decreases s.len(),
{
    let a = Seq::new(s.len(), |i: int| JsonView::Str(s[i]));
    if s.len() > 0 {
        let less = s.drop_last();
        lemma_texts(less);
        assert(a.drop_last() =~= Seq::new(less.len(), |i: int| JsonView::Str(less[i])));
        assert(less.push(s.last()) =~= s);
    } else {
        assert(s =~= Seq::empty());
    }
}

} // verus!
