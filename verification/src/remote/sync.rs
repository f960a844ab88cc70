//! Moving sessions between servers.
//!
//! The program reads and writes rows and talks to servers; each decision on
//! the way is taken here.

use vstd::prelude::*;
use vstd::string::*;
use crate::db::checkpoints::CheckpointRow;
use crate::db::sessions::SessionRow;
use crate::db::table;
use crate::remote::server::RemoteServer;
use crate::rivet::client::Actor;
use crate::text;

verus! {

/// Which way a session moves.
#[derive(Clone, Copy, PartialEq, Eq, Structural, Debug)]
pub enum SyncDirection {
    Push,
    Pull,
}

/// A session to move.
#[derive(Clone, PartialEq, Eq, Debug)]
pub struct SyncRequest {
    pub session_id: String,
    pub direction: SyncDirection,
    pub source_server: String,
    pub target_server: String,
}

/// A session with its checkpoints.
#[derive(Clone, PartialEq, Eq, Debug)]
pub struct SessionSnapshot {
    pub session: SessionRow,
    pub checkpoints: Vec<CheckpointRow>,
}

/// What was moved.
#[derive(Clone, PartialEq, Eq, Debug)]
pub struct SyncResult {
    pub session_id: String,
    pub source_server_id: String,
    pub target_server_id: String,
    pub target_rivet_session_id: Option<String>,
    pub checkpoints_transferred: usize,
}

/// The server to ask for: the target of a push, the source of a pull.
pub fn remote_server_id(req: &SyncRequest) -> (r: &String)
    ensures
        *r == (match req.direction {
            SyncDirection::Push => req.target_server,
            SyncDirection::Pull => req.source_server,
        }),
{
    match req.direction {
        SyncDirection::Push => &req.target_server,
        SyncDirection::Pull => &req.source_server,
    }
}

/// A session with its checkpoints, where it is there.
pub fn export_snapshot(
    session_id: &str,
    session: Option<SessionRow>,
    checkpoints: Vec<CheckpointRow>,
) -> (r: Result<SessionSnapshot, String>)
    ensures
        match session {
            Some(s) => r matches Ok(x) && x.session == s && x.checkpoints == checkpoints,
            None => r matches Err(e) && e@ == "session "@ + session_id@ + " not found"@,
        },
{
    match session {
        Some(session) => Ok(SessionSnapshot { session, checkpoints }),
        None => Err(text::concat3("session ", session_id, " not found")),
    }
}

/// The row under which a session is imported: as it was, on the target server.
pub open spec fn imported(s: SessionRow, r: SessionRow, target: Seq<char>) -> bool {
    r.server_id@ == target && r == (SessionRow { server_id: r.server_id, ..s })
}

/// The row under which the session of a snapshot is imported. Its checkpoints
/// are imported as they are.
pub fn import_snapshot(snapshot: &SessionSnapshot, target_server_id: &str) -> (r: SessionRow)
    ensures
        imported(snapshot.session, r, target_server_id@),
{
    let s = snapshot.session.clone();
    SessionRow { server_id: target_server_id.to_owned(), ..s }
}

/// Whether a row is that of the session `id`.
pub open spec fn is_session(id: Seq<char>) -> spec_fn(SessionRow) -> bool {
    |r: SessionRow| r.id@ == id
}

/// Whether a row is that of a checkpoint of the session `id`.
pub open spec fn is_of_session(id: Seq<char>) -> spec_fn(CheckpointRow) -> bool {
    |r: CheckpointRow| r.session_id@ == id
}

/// Whether two rows of sessions differ in their times at most.
pub open spec fn same_session(a: SessionRow, b: SessionRow) -> bool {
    a == (SessionRow { created_at: a.created_at, updated_at: a.updated_at, ..b })
}

/// Whether two rows of checkpoints differ in their times at most.
pub open spec fn same_checkpoint(a: CheckpointRow, b: CheckpointRow) -> bool {
    a == (CheckpointRow { created_at: a.created_at, updated_at: a.updated_at, ..b })
}

/// Whether two lists of checkpoints are the same, one for one, but for their
/// times.
pub open spec fn same_checkpoints(a: Seq<CheckpointRow>, b: Seq<CheckpointRow>) -> bool {
    &&& a.len() == b.len()
    &&& forall|i: int| 0 <= i < a.len() ==> same_checkpoint(#[trigger] a[i], b[i])
}

/// Whether `r` is what exporting the session `id` comes to, where the rows of
/// its checkpoints are read in whatever order.
pub open spec fn is_export(
    sessions: Seq<SessionRow>,
    checkpoints: Seq<CheckpointRow>,
    id: Seq<char>,
    r: Result<SessionSnapshot, String>,
) -> bool {
    match table::row_of(sessions, is_session(id)) {
        Some(s) => r matches Ok(x) && x.session == s && x.checkpoints@.to_multiset()
            == table::rows_of(checkpoints, is_of_session(id)).to_multiset(),
        None => r is Err,
    }
}

/// A session that was imported is on the target server, else as it was, and its
/// export gives it and the checkpoints that came with it, times aside. `row` and
/// `copies` are the rows that were written.
pub proof fn law_imported_session_is_exported(
    sessions: Seq<SessionRow>,
    checkpoints: Seq<CheckpointRow>,
    snapshot: SessionSnapshot,
    target: Seq<char>,
    wanted: SessionRow,
    row: SessionRow,
    copies: Seq<CheckpointRow>,
    r: Result<SessionSnapshot, String>,
)
    requires
        table::row_of(sessions, is_session(snapshot.session.id@)) is None,
        table::row_of(checkpoints, is_of_session(snapshot.session.id@)) is None,
        forall|i: int|
            0 <= i < snapshot.checkpoints@.len() ==> (#[trigger] snapshot.checkpoints@[i]).session_id@
                == snapshot.session.id@,
        imported(snapshot.session, wanted, target),
        same_session(row, wanted),
        same_checkpoints(copies, snapshot.checkpoints@),
        is_export(sessions.push(row), checkpoints + copies, row.id@, r),
    ensures
        row.id == snapshot.session.id,
        row.workspace_id == snapshot.session.workspace_id,
        row.server_id@ == target,
        row.agent_type == snapshot.session.agent_type,
        row.rivet_session_id == snapshot.session.rivet_session_id,
        row.status == snapshot.session.status,
        r matches Ok(x) && x.session == row && x.checkpoints@.to_multiset() == copies.to_multiset(),
{
    let id = snapshot.session.id@;
    table::lemma_added(sessions, row, is_session(id), |r: SessionRow| false);
    assert forall|i: int| 0 <= i < copies.len() implies is_of_session(id)(
        #[trigger] copies[i],
    ) by {
        assert(same_checkpoint(copies[i], snapshot.checkpoints@[i]));
    }
    table::lemma_rows_added(checkpoints, copies, is_of_session(id));
}

/// The server that a session moves to or from, where it is known.
pub fn require_server(role: &str, id: &str, server: Option<RemoteServer>) -> (r: Result<
    RemoteServer,
    String,
>)
    ensures
        match server {
            Some(s) => r == Ok::<RemoteServer, String>(s),
            None => r matches Err(e) && e@ == role@ + " server "@ + id@
                + " not found in registry"@,
        },
{
    match server {
        Some(s) => Ok(s),
        None => Err(text::concat4(role, " server ", id, " not found in registry")),
    }
}

/// Whether a server need be asked if it is there.
pub fn needs_probe(server: &RemoteServer) -> (r: bool)
    ensures
        r == !server.is_local,
{
    !server.is_local
}

/// Refuses a server that is not there; this host always is.
pub fn verify_reachable(server: &RemoteServer, reachable: bool) -> (r: Result<(), String>)
    ensures
        match r {
            Ok(_) => server.is_local || reachable,
            Err(e) => !server.is_local && !reachable && e@ == "server "@ + server.name@ + " ("@
                + server.address@ + ") is not reachable"@,
        },
{
    if server.is_local || reachable {
        return Ok(());
    }
    Err(
        text::concat5(
            "server ",
            server.name.as_str(),
            " (",
            server.address.as_str(),
            ") is not reachable",
        ),
    )
}

/// The actor on which a session is made: the first one.
pub fn pick_actor(actors: &Vec<Actor>, target: &RemoteServer) -> (r: Result<String, String>)
    ensures
        match r {
            Ok(id) => actors@.len() > 0 && id == actors@[0].actor_id,
            Err(e) => actors@.len() == 0 && e@ == "no VM actor found on "@ + target.name@,
        },
{
    if actors.len() > 0 {
        Ok(actors[0].actor_id.clone())
    } else {
        Err(text::concat2("no VM actor found on ", target.name.as_str()))
    }
}

/// The first server from `i` on that is this host.
pub open spec fn local_index(servers: Seq<RemoteServer>, i: int) -> int
    decreases servers.len() - i,
{
    if i < 0 || i >= servers.len() {
        servers.len() as int
    } else if servers[i].is_local {
        i
    } else {
        local_index(servers, i + 1)
    }
}

/// This host among the servers.
pub fn local_server(servers: &Vec<RemoteServer>) -> (r: Result<RemoteServer, String>)
    ensures
        ({
            let i = local_index(servers@, 0);
            match r {
                Ok(s) => 0 <= i < servers@.len() && s == servers@[i],
                Err(e) => i == servers@.len() && e@ == "no local server registered"@,
            }
        }),
{
    let mut i: usize = 0;
    while i < servers.len()
        invariant
            i <= servers@.len(),
            local_index(servers@, 0) == local_index(servers@, i as int),
        decreases servers@.len() - i,
    {
        if servers[i].is_local {
            return Ok(servers[i].clone());
        }
        i += 1;
    }
    Err("no local server registered".to_owned())
}

/// The row of a session that moved: on the new server, and with the new
/// session id of the runtime where there is one.
pub open spec fn repointed(
    before: SessionRow,
    after: SessionRow,
    server: Seq<char>,
    rivet_session: Option<Seq<char>>,
) -> bool {
    &&& after.server_id@ == server
    &&& rivet_session matches Some(x) ==> text::opt_view(after.rivet_session_id) == Some(x)
    &&& rivet_session is None ==> after.rivet_session_id == before.rivet_session_id
    &&& after == (SessionRow {
        server_id: after.server_id,
        rivet_session_id: after.rivet_session_id,
        ..before
    })
}

/// Points a session at a new server.
pub fn repoint_session(
    row: SessionRow,
    new_server_id: &str,
    new_rivet_session_id: Option<&str>,
) -> (r: SessionRow)
    ensures
        repointed(row, r, new_server_id@, text::opt_str_view(new_rivet_session_id)),
{
    let rivet_session_id = match new_rivet_session_id {
        Some(id) => Some(id.to_owned()),
        None => row.rivet_session_id,
    };
    SessionRow {
        id: row.id,
        workspace_id: row.workspace_id,
        server_id: new_server_id.to_owned(),
        agent_type: row.agent_type,
        rivet_session_id,
        status: row.status,
        created_at: row.created_at,
        updated_at: row.updated_at,
    }
}

/// What a push moved: from the server of the snapshot to the target.
pub fn push_result(
    session_id: &str,
    snapshot: &SessionSnapshot,
    target_server_id: &str,
    rivet_session_id: Option<String>,
) -> (r: SyncResult)
    ensures
        r.session_id@ == session_id@,
        r.source_server_id == snapshot.session.server_id,
        r.target_server_id@ == target_server_id@,
        r.target_rivet_session_id == rivet_session_id,
        r.checkpoints_transferred == snapshot.checkpoints@.len(),
{
    SyncResult {
        session_id: session_id.to_owned(),
        source_server_id: snapshot.session.server_id.clone(),
        target_server_id: target_server_id.to_owned(),
        target_rivet_session_id: rivet_session_id,
        checkpoints_transferred: snapshot.checkpoints.len(),
    }
}

/// What a pull moved: from the source to this host.
pub fn pull_result(
    session_id: &str,
    snapshot: &SessionSnapshot,
    source_server_id: &str,
    local: &RemoteServer,
    rivet_session_id: Option<String>,
) -> (r: SyncResult)
    ensures
        r.session_id@ == session_id@,
        r.source_server_id@ == source_server_id@,
        r.target_server_id == local.id,
        r.target_rivet_session_id == rivet_session_id,
        r.checkpoints_transferred == snapshot.checkpoints@.len(),
{
    SyncResult {
        session_id: session_id.to_owned(),
        source_server_id: source_server_id.to_owned(),
        target_server_id: local.id.clone(),
        target_rivet_session_id: rivet_session_id,
        checkpoints_transferred: snapshot.checkpoints.len(),
    }
}

/// Moving a session to another server and back, without the runtime naming a
/// new session, leaves it as it was.
pub proof fn law_moving_back_restores(
    row: SessionRow,
    away: SessionRow,
    back: SessionRow,
    server: Seq<char>,
)
    requires
        repointed(row, away, server, None),
        repointed(away, back, row.server_id@, None),
    ensures
        back.server_id@ == row.server_id@,
        back == (SessionRow { server_id: back.server_id, ..row }),
{
}

} // verus!
