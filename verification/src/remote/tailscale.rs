//! The hosts of the tailnet.

use vstd::prelude::*;
use vstd::string::*;
use crate::json;
use crate::json::{Json, JsonView};
use crate::net;
use crate::net::{parse_ip, parse_v4, IpAddr};
use crate::rivet::events;
use crate::text;

verus! {

/// A host of the tailnet.
#[derive(Clone, PartialEq, Eq, Debug)]
pub struct TailscaleDevice {
    pub hostname: String,
    pub dns_name: String,
    pub addresses: Vec<String>,
    pub os: String,
    pub online: bool,
    pub is_self: bool,
}

/// The model of [`TailscaleDevice`].
#[verifier::ext_equal]
pub struct DeviceView {
    pub hostname: Seq<char>,
    pub dns_name: Seq<char>,
    pub addresses: Seq<Seq<char>>,
    pub os: Seq<char>,
    pub online: bool,
    pub is_self: bool,
}

impl View for TailscaleDevice {
    type V = DeviceView;

    open spec fn view(&self) -> DeviceView {
        DeviceView {
            hostname: self.hostname@,
            dns_name: self.dns_name@,
            addresses: text::views(self.addresses@),
            os: self.os@,
            online: self.online,
            is_self: self.is_self,
        }
    }
}

/// The models of hosts.
pub open spec fn device_views(v: Seq<TailscaleDevice>) -> Seq<DeviceView> {
    Seq::new(v.len(), |i: int| v[i]@)
}

/// The first IPv4 address from `i` on, or the number of addresses.
pub open spec fn first_v4(addresses: Seq<Seq<char>>, i: int) -> int
    decreases addresses.len() - i,
{
    if i < 0 || i >= addresses.len() {
        addresses.len() as int
    } else if net::parsed_v4(addresses[i]) is Some {
        i
    } else {
        first_v4(addresses, i + 1)
    }
}

/// The address by which a host is reached: the first IPv4 address, else the
/// first one.
pub open spec fn primary(addresses: Seq<Seq<char>>) -> Option<Seq<char>> {
    let i = first_v4(addresses, 0);
    if i < addresses.len() {
        Some(addresses[i])
    } else if addresses.len() > 0 {
        Some(addresses[0])
    } else {
        None
    }
}

impl TailscaleDevice {
    /// The address by which the host is reached.
    pub fn primary_address(&self) -> (r: Option<&str>)
        ensures
            text::opt_str_view(r) == primary(self@.addresses),
    {
        let ghost all = text::views(self.addresses@);
        let mut i: usize = 0;
        while i < self.addresses.len()
            invariant
                i <= self.addresses@.len(),
                all == text::views(self.addresses@),
                all == self@.addresses,
                first_v4(all, 0) == first_v4(all, i as int),
            decreases self.addresses@.len() - i,
        {
            proof {
                assert(all[i as int] == self.addresses@[i as int]@);
            }
            if parse_v4(self.addresses[i].as_str()).is_some() {
                return Some(self.addresses[i].as_str());
            }
            i += 1;
        }
        if self.addresses.len() > 0 {
            Some(self.addresses[0].as_str())
        } else {
            None
        }
    }
}

/// Whether the tailnet is there.
#[derive(Clone, PartialEq, Eq, Debug)]
pub enum TailnetStatus {
    Available,
    /// Its daemon is there, but not connected.
    NotConnected(String),
    /// Its program or daemon is not there.
    Unavailable(String),
}

/// The tailnet at one time.
#[derive(Clone, Debug)]
pub struct TailnetSnapshot {
    pub devices: Vec<TailscaleDevice>,
    pub status: TailnetStatus,
}

/// The address at which a host's actor runtime tells of its health.
pub open spec fn health_url(ip: Seq<char>, port: nat) -> Seq<char> {
    if net::parsed_v4(ip) is None && net::parsed_v6(ip) is Some {
        "http://["@ + ip + "]:"@ + text::decimal(port) + "/health"@
    } else {
        "http://"@ + ip + ":"@ + text::decimal(port) + "/health"@
    }
}

/// The address at which a host's actor runtime tells of its health. An IPv6
/// address stands in brackets.
pub fn format_health_url(ip: &str, port: u16) -> (r: String)
    ensures
        r@ == health_url(ip@, port as nat),
{
    let p = text::u64_to_string(port as u64);
    match parse_ip(ip) {
        Some(IpAddr::V6(_)) => text::concat5("http://[", ip, "]:", p.as_str(), "/health"),
        _ => text::concat5("http://", ip, ":", p.as_str(), "/health"),
    }
}

/// The text of a field, empty where it is not there; nothing where it is no
/// text.
pub open spec fn text_field(v: JsonView, name: Seq<char>, place: int) -> Option<Seq<char>> {
    match events::field(v, name, place) {
        None => Some(Seq::empty()),
        Some(x) => json::str_of(Some(x)),
    }
}

/// The texts of an array; nothing where one of them is no text.
pub open spec fn texts(a: Seq<JsonView>) -> Option<Seq<Seq<char>>>
    decreases a.len(),
{
    if a.len() == 0 {
        Some(Seq::empty())
    } else {
        match (texts(a.drop_last()), json::str_of(Some(a.last()))) {
            (Some(front), Some(s)) => Some(front.push(s)),
            _ => None,
        }
    }
}

/// The texts of a field, none where it is not there.
pub open spec fn texts_field(v: JsonView, name: Seq<char>, place: int) -> Option<
    Seq<Seq<char>>,
> {
    match events::field(v, name, place) {
        None => Some(Seq::empty()),
        Some(JsonView::Array(a)) => texts(a),
        Some(_) => None,
    }
}

/// The flag of a field, false where it is not there.
pub open spec fn flag_field(v: JsonView, name: Seq<char>, place: int) -> Option<bool> {
    match events::field(v, name, place) {
        None => Some(false),
        Some(JsonView::Bool(b)) => Some(b),
        Some(_) => None,
    }
}

/// The host that a record tells of, without dots at the end of its name.
pub open spec fn device_of(v: JsonView, is_self: bool) -> Option<DeviceView> {
    if !events::is_record(v, 5) {
        None
    } else {
        match (
            text_field(v, "HostName"@, 0),
            text_field(v, "DNSName"@, 1),
            text_field(v, "OS"@, 2),
            texts_field(v, "TailscaleIPs"@, 3),
            flag_field(v, "Online"@, 4),
        ) {
            (Some(hostname), Some(dns), Some(os), Some(addresses), Some(online)) => Some(
                DeviceView {
                    hostname,
                    dns_name: text::trim_end_char(dns, '.'),
                    addresses,
                    os,
                    online,
                    is_self,
                },
            ),
            _ => None,
        }
    }
}

/// The hosts that the first `n` members tell of; nothing where one of them is
/// no such record.
pub open spec fn peers_of(members: Seq<(Seq<char>, JsonView)>, n: int) -> Option<
    Seq<DeviceView>,
>
    decreases n,
{
    if n <= 0 {
        Some(Seq::empty())
    } else {
        match (peers_of(members, n - 1), device_of(members[n - 1].1, false)) {
            (Some(front), Some(d)) => Some(front.push(d)),
            _ => None,
        }
    }
}

/// This host, where a status tells of it: nothing where it is no such record.
pub open spec fn self_of(v: JsonView) -> Option<Seq<DeviceView>> {
    match events::field(v, "Self"@, 0) {
        None => Some(Seq::empty()),
        Some(JsonView::Null) => Some(Seq::empty()),
        Some(x) => match device_of(x, true) {
            Some(d) => Some(seq![d]),
            None => None,
        },
    }
}

/// The hosts that a status tells of: this one first, and then the others.
pub open spec fn listed(v: JsonView) -> Option<Seq<DeviceView>> {
    let peers = match events::field(v, "Peer"@, 1) {
        None => Some(Seq::empty()),
        Some(JsonView::Object(o)) => peers_of(o, o.len() as int),
        Some(_) => None,
    };
    if !events::is_record(v, 2) {
        None
    } else {
        match (self_of(v), peers) {
            (Some(own), Some(rest)) => Some(own + rest),
            _ => None,
        }
    }
}

/// A text in lower case.
pub uninterp spec fn lowercased(s: Seq<char>) -> Seq<char>;

/// `str::to_lowercase` of std.
#[verifier::external_body]
fn to_lowercase(s: &str) -> (r: String)
    ensures
        r@ == lowercased(s@),
{
    s.to_lowercase()
}

/// Whether a host stands before another: this one before the others, and those
/// by their names in lower case.
pub open spec fn stands_before(a: DeviceView, b: DeviceView) -> bool {
    (a.is_self && !b.is_self) || (a.is_self == b.is_self && text::lex_lt(
        lowercased(a.hostname),
        lowercased(b.hostname),
    ))
}

/// Where a host goes among those in order.
pub open spec fn device_slot(v: Seq<DeviceView>, x: DeviceView) -> int
    decreases v.len(),
{
    if v.len() == 0 {
        0
    } else if stands_before(x, v.last()) {
        device_slot(v.drop_last(), x)
    } else {
        v.len() as int
    }
}

/// The hosts in order; those that stand alike keep theirs.
pub open spec fn in_order(v: Seq<DeviceView>) -> Seq<DeviceView>
    decreases v.len(),
{
    if v.len() == 0 {
        Seq::empty()
    } else {
        let front = in_order(v.drop_last());
        front.insert(device_slot(front, v.last()), v.last())
    }
}

/// The hosts that a status tells of, in order; nothing where it is no status.
pub open spec fn status_devices(v: JsonView) -> Option<Seq<DeviceView>> {
    match listed(v) {
        Some(d) => Some(in_order(d)),
        None => None,
    }
}

fn get_text(v: &Json, name: &str, place: usize) -> (r: Option<String>)
    ensures
        text::opt_view(r) == text_field(v@, name@, place as int),
{
    match events::get_field(v, name, place) {
        None => Some(String::new()),
        Some(x) => match x {
            Json::Str(s) => Some(s.clone()),
            _ => None,
        },
    }
}

fn get_flag(v: &Json, name: &str, place: usize) -> (r: Option<bool>)
    ensures
        r == flag_field(v@, name@, place as int),
{
    match events::get_field(v, name, place) {
        None => Some(false),
        Some(x) => match x {
            Json::Bool(b) => Some(*b),
            _ => None,
        },
    }
}

proof fn lemma_texts_fail(a: Seq<JsonView>, n: int)
    requires
        0 <= n <= a.len(),
        texts(a.take(n)) is None,
    ensures
        texts(a) is None,
    decreases a.len() - n,
{
    if n < a.len() {
        assert(a.take(n + 1).drop_last() =~= a.take(n));
        lemma_texts_fail(a, n + 1);
    } else {
        assert(a.take(n) =~= a);
    }
}

fn get_texts(v: &Json, name: &str, place: usize) -> (r: Option<Vec<String>>)
    ensures
        match r {
            Some(x) => texts_field(v@, name@, place as int) == Some(text::views(x@)),
            None => texts_field(v@, name@, place as int) is None,
        },
{
    match events::get_field(v, name, place) {
        None => {
            let out: Vec<String> = Vec::new();
            proof {
                assert(text::views(out@) =~= Seq::empty());
            }
            Some(out)
        },
        Some(x) => match x {
            Json::Array(items) => {
                let ghost all = json::json_views(items@);
                let mut out: Vec<String> = Vec::new();
                let mut i: usize = 0;
                proof {
                    json::lemma_json_views(items@);
                    assert(all.take(0) =~= Seq::empty());
                    assert(text::views(out@) =~= Seq::empty());
                }
                while i < items.len()
                    invariant
                        i <= items@.len(),
                        all == json::json_views(items@),
                        all.len() == items@.len(),
                        forall|j: int| 0 <= j < all.len() ==> #[trigger] all[j] == items@[j]@,
                        texts_field(v@, name@, place as int) == texts(all),
                        texts(all.take(i as int)) == Some(text::views(out@)),
                    decreases items@.len() - i,
                {
                    proof {
                        assert(all.take(i as int + 1).drop_last() =~= all.take(i as int));
                        assert(all.take(i as int + 1).last() == items@[i as int]@);
                    }
                    match &items[i] {
                        Json::Str(s) => {
                            proof {
                                text::lemma_views_push(out@, *s);
                            }
                            out.push(s.clone());
                        },
                        _ => {
                            proof {
                                lemma_texts_fail(all, i as int + 1);
                            }
                            return None;
                        },
                    }
                    i += 1;
                }
                proof {
                    assert(all.take(all.len() as int) =~= all);
                }
                Some(out)
            },
            _ => None,
        },
    }
}

fn read_device(v: &Json, is_self: bool) -> (r: Option<TailscaleDevice>)
    ensures
        match r {
            Some(d) => device_of(v@, is_self) == Some(d@),
            None => device_of(v@, is_self) is None,
        },
{
    if !events::fits(v, 5) {
        return None;
    }
    match (
        get_text(v, "HostName", 0),
        get_text(v, "DNSName", 1),
        get_text(v, "OS", 2),
        get_texts(v, "TailscaleIPs", 3),
        get_flag(v, "Online", 4),
    ) {
        (Some(hostname), Some(dns), Some(os), Some(addresses), Some(online)) => Some(
            TailscaleDevice {
                hostname,
                dns_name: text::trim_end_matches(dns.as_str(), '.'),
                addresses,
                os,
                online,
                is_self,
            },
        ),
        _ => None,
    }
}

fn goes_before(a: &TailscaleDevice, b: &TailscaleDevice) -> (r: bool)
    ensures
        r == stands_before(a@, b@),
{
    if a.is_self && !b.is_self {
        return true;
    }
    if a.is_self != b.is_self {
        return false;
    }
    let x = to_lowercase(a.hostname.as_str());
    let y = to_lowercase(b.hostname.as_str());
    text::str_lt(x.as_str(), y.as_str())
}

fn insert_device(v: &mut Vec<TailscaleDevice>, x: TailscaleDevice)
    ensures
        device_views(final(v)@) == device_views(old(v)@).insert(
            device_slot(device_views(old(v)@), x@),
            x@,
        ),
{
    let ghost all = device_views(v@);
    let mut n: usize = v.len();
    proof {
        assert(all.take(all.len() as int) =~= all);
    }
    while n > 0 && goes_before(&x, &v[n - 1])
        invariant
            n <= v@.len(),
            v@ == old(v)@,
            all == device_views(v@),
            device_slot(all, x@) == device_slot(all.take(n as int), x@),
        decreases n,
    {
        proof {
            assert(all.take(n as int).last() == v@[n - 1]@);
            assert(all.take(n as int).drop_last() =~= all.take(n - 1));
        }
        n -= 1;
    }
    proof {
        if n > 0 {
            assert(all.take(n as int).last() == v@[n - 1]@);
        }
        assert(device_views(v@.insert(n as int, x)) =~= all.insert(n as int, x@));
    }
    v.insert(n, x);
}

proof fn lemma_peers_fail(members: Seq<(Seq<char>, JsonView)>, n: int, m: int)
    requires
        n <= m,
        peers_of(members, n) is None,
    ensures
        peers_of(members, m) is None,
    decreases m - n,
{
    if n < m {
        lemma_peers_fail(members, n, m - 1);
    }
}

/// The hosts that a status tells of, in order; nothing where it is no status.
pub fn read_status(v: &Json) -> (r: Option<Vec<TailscaleDevice>>)
    ensures
        match r {
            Some(d) => status_devices(v@) == Some(device_views(d@)),
            None => status_devices(v@) is None,
        },
{
    if !events::fits(v, 2) {
        return None;
    }
    let mut out: Vec<TailscaleDevice> = Vec::new();
    let ghost mut own: Seq<DeviceView> = Seq::empty();
    proof {
        assert(device_views(out@) =~= in_order(own));
    }
    match events::get_field(v, "Self", 0) {
        None => {},
        Some(x) => match x {
            Json::Null => {},
            _ => match read_device(x, true) {
                Some(d) => {
                    let ghost dv = d@;
                    insert_device(&mut out, d);
                    proof {
                        own = seq![dv];
                        assert(own.drop_last() =~= Seq::empty());
                    }
                },
                None => {
                    return None;
                },
            },
        },
    }
    proof {
        assert(self_of(v@) == Some(own));
    }
    match events::get_field(v, "Peer", 1) {
        None => {
            proof {
                assert(own + Seq::empty() =~= own);
            }
            Some(out)
        },
        Some(x) => match x {
            Json::Object(o) => {
                let ghost mv = json::member_views(o@);
                let ghost mut peers: Seq<DeviceView> = Seq::empty();
                proof {
                    json::lemma_member_views(o@);
                    assert(own + peers =~= own);
                }
                let mut i: usize = 0;
                while i < o.len()
                    invariant
                        i <= o@.len(),
                        mv == json::member_views(o@),
                        mv.len() == o@.len(),
                        forall|j: int|
                            0 <= j < mv.len() ==> #[trigger] mv[j] == (
                                o@[j].0@,
                                json::json_view(o@[j].1),
                            ),
                        events::is_record(v@, 2),
                        events::field(v@, "Peer"@, 1) == Some(JsonView::Object(mv)),
                        self_of(v@) == Some(own),
                        peers_of(mv, i as int) == Some(peers),
                        device_views(out@) == in_order(own + peers),
                    decreases o@.len() - i,
                {
                    proof {
                        assert(mv[i as int].1 == o@[i as int].1@);
                    }
                    match read_device(&o[i].1, false) {
                        Some(d) => {
                            let ghost dv = d@;
                            insert_device(&mut out, d);
                            proof {
                                let more = own + peers.push(dv);
                                assert(more.drop_last() =~= own + peers);
                                assert(more.last() == dv);
                                peers = peers.push(dv);
                            }
                        },
                        None => {
                            proof {
                                lemma_peers_fail(mv, i as int + 1, mv.len() as int);
                            }
                            return None;
                        },
                    }
                    i += 1;
                }
                Some(out)
            },
            _ => None,
        },
    }
}

/// The hosts that the status program's output tells of.
pub open spec fn output_devices(bytes: Seq<u8>) -> Result<Seq<DeviceView>, Seq<char>> {
    match json::parsed_json_bytes(bytes) {
        Err(_) => Err("decode tailscale status --json"@),
        Ok(v) => match status_devices(v) {
            Some(d) => Ok(d),
            None => Err("decode tailscale status --json"@),
        },
    }
}

/// The hosts that the status program's output tells of, in order. The output is
/// read as a JSON value, in which a field that is given twice counts by its last
/// value.
pub fn parse_status_json(bytes: &[u8]) -> (r: Result<Vec<TailscaleDevice>, String>)
    ensures
        match r {
            Ok(d) => output_devices(bytes@) == Ok::<Seq<DeviceView>, Seq<char>>(device_views(d@)),
            Err(e) => output_devices(bytes@) == Err::<Seq<DeviceView>, Seq<char>>(e@),
        },
{
    match json::parse_bytes(bytes) {
        Err(_) => Err("decode tailscale status --json".to_owned()),
        Ok(v) => match read_status(&v) {
            Some(d) => Ok(d),
            None => Err("decode tailscale status --json".to_owned()),
        },
    }
}

/// What became of the status program.
pub enum StatusOutcome {
    /// It succeeded, with this output.
    Success { stdout: Vec<u8> },
    /// It failed: what it wrote of its error, and its status.
    Failure { stderr: String, status: String },
    /// It could not be started.
    NotStarted { error: String },
}

/// Whether `r` is the tailnet that a run of the status program tells of.
pub open spec fn told(o: StatusOutcome, r: TailnetSnapshot) -> bool {
    match o {
        StatusOutcome::Success { stdout } => match output_devices(stdout@) {
            Ok(d) => r.status is Available && device_views(r.devices@) == d,
            Err(e) => r.status matches TailnetStatus::Unavailable(m) && r.devices@.len() == 0
                && m@ == "failed to parse tailscale status: "@ + e,
        },
        StatusOutcome::Failure { stderr, status } => r.status matches TailnetStatus::NotConnected(
            m,
        ) && r.devices@.len() == 0 && m@ == (if text::trimmed(stderr@).len() == 0 {
            "tailscale exited with status "@ + status@
        } else {
            text::trimmed(stderr@)
        }),
        StatusOutcome::NotStarted { error } => r.status matches TailnetStatus::Unavailable(m)
            && r.devices@.len() == 0 && m@ == "failed to spawn tailscale CLI: "@ + error@,
    }
}

/// The tailnet that a run of the status program tells of.
pub fn snapshot(o: &StatusOutcome) -> (r: TailnetSnapshot)
    ensures
        told(*o, r),
{
    match o {
        StatusOutcome::Success { stdout } => match parse_status_json(stdout) {
            Ok(devices) => TailnetSnapshot { devices, status: TailnetStatus::Available },
            Err(e) => TailnetSnapshot {
                devices: Vec::new(),
                status: TailnetStatus::Unavailable(
                    text::concat2("failed to parse tailscale status: ", e.as_str()),
                ),
            },
        },
        StatusOutcome::Failure { stderr, status } => {
            let msg = text::trim(stderr.as_str());
            TailnetSnapshot {
                devices: Vec::new(),
                status: TailnetStatus::NotConnected(
                    if msg.as_str().unicode_len() == 0 {
                        text::concat2("tailscale exited with status ", status.as_str())
                    } else {
                        msg
                    },
                ),
            }
        },
        StatusOutcome::NotStarted { error } => TailnetSnapshot {
            devices: Vec::new(),
            status: TailnetStatus::Unavailable(
                text::concat2("failed to spawn tailscale CLI: ", error.as_str()),
            ),
        },
    }
}

} // verus!
