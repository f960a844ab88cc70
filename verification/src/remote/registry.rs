//! The servers that are known.

use vstd::prelude::*;
use vstd::string::*;
use crate::db::servers;
use crate::db::servers::ServerRow;
use crate::db::table;
use crate::remote::server::RemoteServer;
use crate::remote::tailscale;
use crate::remote::tailscale::TailscaleDevice;
use crate::text;

verus! {

/// The port on which an actor runtime listens.
pub const DEFAULT_RIVET_PORT: u16 = 6420;

/// The name under which a host is registered: the one that is given, else the
/// host's own.
pub open spec fn peer_name(name: Seq<char>, device: TailscaleDevice) -> Seq<char> {
    if text::trimmed(name).len() == 0 {
        device.hostname@
    } else {
        name
    }
}

/// Whether `r` is what registering a host of the tailnet comes to, where
/// `registered` says whether its address is taken.
pub open spec fn is_registration(
    id: Seq<char>,
    name: Seq<char>,
    device: TailscaleDevice,
    registered: bool,
    r: Result<ServerRow, String>,
) -> bool {
    match tailscale::primary(device@.addresses) {
        None => r matches Err(e) && e@ == "tailscale device '"@ + device.hostname@
            + "' has no routable address"@,
        Some(ip) => if registered {
            r matches Err(e) && e@ == "peer "@ + ip + " is already registered"@
        } else {
            r matches Ok(row) && row.id@ == id && row.name@ == peer_name(name, device)
                && row.address@ == "http://"@ + ip + ":6420"@ && text::opt_view(row.tailscale_ip)
                == Some(ip) && !row.is_local
        },
    }
}

/// The row under which a host of the tailnet is registered. A host without an
/// address is refused, and one whose address is registered already.
pub fn register_peer(
    id: &str,
    name: &str,
    device: &TailscaleDevice,
    registered: bool,
    created_at: String,
) -> (r: Result<ServerRow, String>)
    ensures
        is_registration(id@, name@, *device, registered, r),
        r matches Ok(row) ==> row.created_at == created_at,
{
    let ip = match device.primary_address() {
        Some(ip) => ip,
        None => {
            return Err(
                text::concat3(
                    "tailscale device '",
                    device.hostname.as_str(),
                    "' has no routable address",
                ),
            );
        },
    };
    if registered {
        return Err(text::concat3("peer ", ip, " is already registered"));
    }
    let blank = text::trim(name);
    let resolved = if blank.as_str().unicode_len() == 0 {
        device.hostname.clone()
    } else {
        name.to_owned()
    };
    Ok(
        ServerRow {
            id: id.to_owned(),
            name: resolved,
            address: text::concat3("http://", ip, ":6420"),
            tailscale_ip: Some(ip.to_owned()),
            is_local: false,
            created_at,
        },
    )
}

/// Whether a row has the tailnet address `ip`.
pub open spec fn has_ip(ip: Seq<char>) -> spec_fn(ServerRow) -> bool {
    |r: ServerRow| text::opt_view(r.tailscale_ip) == Some(ip)
}

/// Whether the address of a host is taken by one of the rows.
pub open spec fn is_taken(rows: Seq<ServerRow>, device: TailscaleDevice) -> bool {
    match tailscale::primary(device@.addresses) {
        Some(ip) => table::row_of(rows, has_ip(ip)) is Some,
        None => false,
    }
}

/// The rows once a registration came to `r`.
pub open spec fn rows_registered(rows: Seq<ServerRow>, r: Result<ServerRow, String>) -> Seq<
    ServerRow,
> {
    match r {
        Ok(row) => rows.push(row),
        Err(_) => rows,
    }
}

/// A host is refused exactly where it has no address or a server has it already,
/// and then nothing is registered. Else it is found under its id, as it was
/// registered; other servers stay.
pub proof fn law_registering_a_peer(
    rows: Seq<ServerRow>,
    id: Seq<char>,
    name: Seq<char>,
    device: TailscaleDevice,
    r: Result<ServerRow, String>,
    other: Seq<char>,
)
    requires
        servers::server_row(rows, id) is None,
        is_registration(id, name, device, is_taken(rows, device), r),
        other != id,
    ensures
        ({
            let ip = tailscale::primary(device@.addresses);
            let after = rows_registered(rows, r);
            &&& r is Err <==> ip is None || exists|i: int|
                0 <= i < rows.len() && text::opt_view((#[trigger] rows[i]).tailscale_ip) == ip
            &&& r is Err ==> after == rows
            &&& r matches Ok(row) ==> servers::server_row(after, id) == Some(row) && row.id@ == id
                && row.name@ == peer_name(name, device) && row.address@ == "http://"@ + ip->0
                + ":6420"@ && text::opt_view(row.tailscale_ip) == ip && !row.is_local
            &&& servers::server_row(after, other) == servers::server_row(rows, other)
        }),
{
    match tailscale::primary(device@.addresses) {
        Some(ip) => {
            table::lemma_row_of(rows, has_ip(ip));
            if table::row_of(rows, has_ip(ip)) is Some {
                let i = choose|i: int| 0 <= i < rows.len() && has_ip(ip)(#[trigger] rows[i]);
                assert(text::opt_view(rows[i].tailscale_ip) == Some(ip));
            } else {
                assert forall|i: int| 0 <= i < rows.len() implies text::opt_view(
                    (#[trigger] rows[i]).tailscale_ip,
                ) != Some(ip) by {
                    assert(!has_ip(ip)(rows[i]));
                }
            }
        },
        None => {},
    }
    if let Ok(row) = r {
        table::lemma_added(rows, row, servers::is_server(id), servers::is_server(other));
    }
}

/// An address without `http://` or `https://`.
pub open spec fn without_scheme(address: Seq<char>) -> Seq<char> {
    if text::starts_with(address, "http://"@) {
        address.skip("http://"@.len() as int)
    } else if text::starts_with(address, "https://"@) {
        address.skip("https://"@.len() as int)
    } else {
        address
    }
}

/// The host of an address: what stands before the first colon, else before the
/// first slash.
pub open spec fn host_of(address: Seq<char>) -> Seq<char> {
    let rest = without_scheme(address);
    let colon = text::first_of(rest, ':');
    if colon < rest.len() {
        rest.take(colon)
    } else {
        rest.take(text::first_of(rest, '/'))
    }
}

/// The host of an address.
pub fn host_from_address(address: &str) -> (r: String)
    ensures
        r@ == host_of(address@),
{
    let rest = match text::strip_prefix(address, "http://") {
        Some(s) => s,
        None => match text::strip_prefix(address, "https://") {
            Some(s) => s,
            None => address.to_owned(),
        },
    };
    let v = text::to_chars(rest.as_str());
    proof {
        text::lemma_first_of(v@, ':');
        text::lemma_first_of(v@, '/');
    }
    let end: usize = match text::find_char(&v, ':') {
        Some(i) => i,
        None => match text::find_char(&v, '/') {
            Some(i) => i,
            None => v.len(),
        },
    };
    let r = text::from_range(&v, 0, end);
    proof {
        assert(r@ =~= rest@.take(end as int));
    }
    r
}

/// The host at which a server is asked whether it is there: its tailnet
/// address, else the host of its address.
pub fn probe_target(server: &RemoteServer) -> (r: String)
    ensures
        r@ == (match server.tailscale_ip {
            Some(ip) => ip@,
            None => host_of(server.address@),
        }),
{
    match &server.tailscale_ip {
        Some(ip) => ip.clone(),
        None => host_from_address(server.address.as_str()),
    }
}

/// The address of this host's actor runtime.
pub fn local_base_url(port: u16) -> (r: String)
    ensures
        r@ == "http://localhost:"@ + text::decimal(port as nat),
{
    let p = text::u64_to_string(port as u64);
    text::concat2("http://localhost:", p.as_str())
}

} // verus!
