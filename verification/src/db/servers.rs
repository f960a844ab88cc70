//! Rows of the servers that sessions run on.

use vstd::prelude::*;
use vstd::string::*;
use crate::db::table;
use crate::text;

verus! {

/// The id of the built-in server.
pub const LOCAL_SERVER_ID: &'static str = "local";

/// A server.
#[derive(Clone, PartialEq, Eq, Debug)]
pub struct ServerRow {
    pub id: String,
    pub name: String,
    pub address: String,
    pub tailscale_ip: Option<String>,
    pub is_local: bool,
    pub created_at: String,
}

/// What to do so that the built-in server is there.
#[derive(PartialEq, Eq, Debug)]
pub enum EnsureLocal {
    /// It is there, with the address.
    Keep,
    /// It is there: give it this name, the address, and no tailnet address.
    Update { name: String },
    /// It is not there: make it, under this name.
    Insert { name: String },
}

/// Whether `r` is what to do so that the built-in server is there, with
/// `address`.
pub open spec fn is_local_step(
    existing: Option<ServerRow>,
    address: Seq<char>,
    r: EnsureLocal,
) -> bool {
    match existing {
        Some(row) => if row.address@ == address {
            r is Keep
        } else {
            r matches EnsureLocal::Update { name } && name == row.name
        },
        None => r matches EnsureLocal::Insert { name } && name@ == "This Mac"@,
    }
}

/// Whether `row` is what stands there once `r` is done.
pub open spec fn left_by(
    existing: Option<ServerRow>,
    address: Seq<char>,
    r: EnsureLocal,
    row: ServerRow,
) -> bool {
    match r {
        EnsureLocal::Keep => existing == Some(row),
        EnsureLocal::Update { name } => {
            &&& existing is Some
            &&& row.address@ == address
            &&& row == (ServerRow {
                name,
                address: row.address,
                tailscale_ip: None,
                ..existing->0
            })
        },
        EnsureLocal::Insert { name } => {
            &&& row.id@ == LOCAL_SERVER_ID@
            &&& row.name == name
            &&& row.address@ == address
            &&& row.tailscale_ip is None
            &&& row.is_local
        },
    }
}

/// What to do so that the built-in server is there, with `address`.
pub fn ensure_local(existing: Option<&ServerRow>, address: &str) -> (r: EnsureLocal)
    ensures
        is_local_step(
            match existing {
                Some(row) => Some(*row),
                None => None,
            },
            address@,
            r,
        ),
{
    match existing {
        Some(row) => {
            if text::str_eq(row.address.as_str(), address) {
                EnsureLocal::Keep
            } else {
                EnsureLocal::Update { name: row.name.clone() }
            }
        },
        None => EnsureLocal::Insert { name: "This Mac".to_owned() },
    }
}

/// Whether a row is that of the server `id`.
pub open spec fn is_server(id: Seq<char>) -> spec_fn(ServerRow) -> bool {
    |r: ServerRow| r.id@ == id
}

/// The server `id` among the rows.
pub open spec fn server_row(rows: Seq<ServerRow>, id: Seq<char>) -> Option<ServerRow> {
    table::row_of(rows, is_server(id))
}

/// Whether the step `r` turns the rows `before` into `after` and leaves `row`
/// as the built-in server, with `address`.
pub open spec fn local_ensured(
    before: Seq<ServerRow>,
    after: Seq<ServerRow>,
    address: Seq<char>,
    r: EnsureLocal,
    row: ServerRow,
) -> bool {
    let existing = server_row(before, LOCAL_SERVER_ID@);
    &&& is_local_step(existing, address, r)
    &&& left_by(existing, address, r, row)
    &&& after == (match r {
        EnsureLocal::Keep => before,
        EnsureLocal::Update { .. } => table::rows_with(before, is_server(LOCAL_SERVER_ID@), row),
        EnsureLocal::Insert { .. } => before.push(row),
    })
}

/// Ensuring the built-in server leaves one row of it, with the address: under
/// its name where it was there, else as `This Mac`. Other rows stay, and doing
/// it again changes nothing.
pub proof fn law_ensuring_the_local_server(
    before: Seq<ServerRow>,
    after: Seq<ServerRow>,
    address: Seq<char>,
    first: EnsureLocal,
    row: ServerRow,
    other: Seq<char>,
    last: Seq<ServerRow>,
    again: EnsureLocal,
    row_again: ServerRow,
)
    requires
        table::rows_of(before, is_server(LOCAL_SERVER_ID@)).len() <= 1,
        local_ensured(before, after, address, first, row),
        local_ensured(after, last, address, again, row_again),
        other != LOCAL_SERVER_ID@,
    ensures
        row.id@ == LOCAL_SERVER_ID@,
        row.address@ == address,
        server_row(after, LOCAL_SERVER_ID@) == Some(row),
        table::rows_of(after, is_server(LOCAL_SERVER_ID@)).len() == 1,
        server_row(after, other) == server_row(before, other),
        match server_row(before, LOCAL_SERVER_ID@) {
            Some(was) => row.name == was.name && row.is_local == was.is_local && row.created_at
                == was.created_at,
            None => row.name@ == "This Mac"@ && row.is_local,
        },
        row_again == row,
        last == after,
{
    let fits = is_server(LOCAL_SERVER_ID@);
    table::lemma_row_of(before, fits);
    assert(fits(row));
    table::lemma_how_many(before, row, fits);
    match first {
        EnsureLocal::Keep => {},
        EnsureLocal::Update { .. } => {
            table::lemma_replaced(before, row, fits, is_server(other));
        },
        EnsureLocal::Insert { .. } => {
            table::lemma_added(before, row, fits, is_server(other));
        },
    }
}

/// Why the server `id` is not deleted, if it is not.
pub open spec fn delete_refused(id: Seq<char>) -> Option<Seq<char>> {
    if id == LOCAL_SERVER_ID@ {
        Some("cannot delete built-in local server"@)
    } else {
        None
    }
}

/// Refuses to delete the built-in server.
pub fn check_delete(id: &str) -> (r: Result<(), String>)
    ensures
        match r {
            Ok(_) => delete_refused(id@) is None,
            Err(e) => delete_refused(id@) == Some(e@),
        },
{
    if text::str_eq(id, LOCAL_SERVER_ID) {
        Err("cannot delete built-in local server".to_owned())
    } else {
        Ok(())
    }
}

/// What deleting the server `id` leaves, and answers: whether it was there, or
/// why it is not deleted.
pub open spec fn server_deleted(rows: Seq<ServerRow>, id: Seq<char>) -> (
    Seq<ServerRow>,
    Result<bool, Seq<char>>,
) {
    match delete_refused(id) {
        Some(e) => (rows, Err(e)),
        None => (table::rows_without(rows, is_server(id)), Ok(server_row(rows, id) is Some)),
    }
}

/// The built-in server is not deleted, and stays. Any other is gone once it is
/// deleted; the answer says whether it was there, no other row changes, and
/// deleting it again finds nothing.
pub proof fn law_deleting_a_server(rows: Seq<ServerRow>, id: Seq<char>, other: Seq<char>)
    requires
        other != id,
    ensures
        id == LOCAL_SERVER_ID@ ==> server_deleted(rows, id).0 == rows
            && server_deleted(rows, id).1 is Err,
        id != LOCAL_SERVER_ID@ ==> {
            let (after, r) = server_deleted(rows, id);
            &&& r == Ok::<bool, Seq<char>>(server_row(rows, id) is Some)
            &&& server_row(after, id) is None
            &&& server_row(after, other) == server_row(rows, other)
            &&& server_deleted(after, id) == (after, Ok::<bool, Seq<char>>(false))
        },
{
    table::lemma_without(rows, is_server(id), is_server(other));
}

/// What an update of `changed` rows of `kind` with this id comes to.
pub fn check_updated(kind: &str, id: &str, changed: usize) -> (r: Result<(), String>)
    ensures
        match r {
            Ok(_) => changed > 0,
            Err(e) => changed == 0 && e@ == kind@ + " "@ + id@ + " not found"@,
        },
{
    if changed == 0 {
        Err(text::concat4(kind, " ", id, " not found"))
    } else {
        Ok(())
    }
}

} // verus!
