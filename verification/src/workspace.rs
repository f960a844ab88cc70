//! Workspaces: project directories of the host.

use vstd::prelude::*;
use vstd::string::*;
use crate::db::workspaces::WorkspaceRow;
use crate::text;
use crate::workspace_mount;

verus! {

/// A workspace.
#[derive(Clone, PartialEq, Eq, Debug)]
pub struct Workspace {
    pub id: String,
    pub name: String,
    pub path: String,
    pub created_at: String,
    pub updated_at: String,
}

impl Workspace {
    /// The workspace of a row.
    pub fn from_row(row: WorkspaceRow) -> (r: Self)
        ensures
            r.id == row.id,
            r.name == row.name,
            r.path == row.path,
            r.created_at == row.created_at,
            r.updated_at == row.updated_at,
    {
        Workspace {
            id: row.id,
            name: row.name,
            path: row.path,
            created_at: row.created_at,
            updated_at: row.updated_at,
        }
    }
}

/// What the host says of a path: whether something is there, whether it is a
/// directory, and its canonical path.
#[derive(PartialEq, Eq, Debug)]
pub struct HostPath {
    pub exists: bool,
    pub is_dir: bool,
    pub canonical: Result<String, String>,
}

/// The view of what the host says is the canonical path.
pub open spec fn canonical_view(r: Result<String, String>) -> Result<Seq<char>, Seq<char>> {
    match r {
        Ok(p) => Ok(p@),
        Err(e) => Err(e@),
    }
}

/// The project directory at a path: its canonical path, or why it is refused.
pub open spec fn project_dir(path: Seq<char>, host: HostPath) -> Result<Seq<char>, Seq<char>> {
    if !host.exists {
        Err("path does not exist: "@ + path)
    } else if !host.is_dir {
        Err("path is not a directory: "@ + path)
    } else {
        canonical_view(host.canonical)
    }
}

/// The canonical path of a directory. A path where no directory is, is refused.
pub fn resolve_project_dir(path: &str, host: HostPath) -> (r: Result<String, String>)
    ensures
        canonical_view(r) == project_dir(path@, host),
{
    if !host.exists {
        return Err(text::concat2("path does not exist: ", path));
    }
    if !host.is_dir {
        return Err(text::concat2("path is not a directory: ", path));
    }
    host.canonical
}

/// Whether the host says of `path` that it is the canonical path of a directory.
pub open spec fn is_canonical(path: Seq<char>, host: HostPath) -> bool {
    host.exists && host.is_dir && canonical_view(host.canonical) == Ok::<Seq<char>, Seq<char>>(path)
}

/// A path resolves only where a directory is, to what the host says is its
/// canonical path; where the host says that this is canonical, it resolves to
/// itself.
pub proof fn law_resolved_dir_resolves_to_itself(
    path: Seq<char>,
    host: HostPath,
    found: Seq<char>,
    host_of_found: HostPath,
)
    requires
        project_dir(path, host) == Ok::<Seq<char>, Seq<char>>(found),
        is_canonical(found, host_of_found),
    ensures
        host.exists && host.is_dir,
        canonical_view(host.canonical) == Ok::<Seq<char>, Seq<char>>(found),
        project_dir(found, host_of_found) == Ok::<Seq<char>, Seq<char>>(found),
{
}

/// The name of a directory: the last part of its path, or the path where that
/// is no name.
pub open spec fn dir_name(path: Seq<char>) -> Seq<char> {
    let parts = workspace_mount::counted_parts(text::split_char(path, '/'));
    if parts.len() == 0 || parts.last() == ".."@ {
        path
    } else {
        parts.last()
    }
}

proof fn lemma_counted_last(parts: Seq<Seq<char>>, n: int)
    requires
        0 <= n < parts.len(),
        parts[n].len() > 0,
        parts[n] != "."@,
        forall|j: int|
            n < j < parts.len() ==> (#[trigger] parts[j]).len() == 0 || parts[j] == "."@,
    ensures
        workspace_mount::counted_parts(parts).len() > 0,
        workspace_mount::counted_parts(parts).last() == parts[n],
    decreases parts.len(),
{
    if n < parts.len() - 1 {
        assert(parts[parts.len() - 1].len() == 0 || parts[parts.len() - 1] == "."@);
        let front = parts.drop_last();
        assert forall|j: int| n < j < front.len() implies (#[trigger] front[j]).len() == 0
            || front[j] == "."@ by {
            assert(front[j] == parts[j]);
        }
        lemma_counted_last(front, n);
    }
}

proof fn lemma_counted_none(parts: Seq<Seq<char>>)
    requires
        forall|j: int| 0 <= j < parts.len() ==> (#[trigger] parts[j]).len() == 0 || parts[j] == "."@,
    ensures
        workspace_mount::counted_parts(parts).len() == 0,
    decreases parts.len(),
{
    if parts.len() > 0 {
        assert(parts[parts.len() - 1].len() == 0 || parts[parts.len() - 1] == "."@);
        let front = parts.drop_last();
        assert forall|j: int| 0 <= j < front.len() implies (#[trigger] front[j]).len() == 0
            || front[j] == "."@ by {
            assert(front[j] == parts[j]);
        }
        lemma_counted_none(front);
    }
}

/// The name of a directory.
pub fn derive_name(path: &str) -> (r: String)
    ensures
        r@ == dir_name(path@),
{
    let parts = text::split(path, '/');
    let ghost pv = text::split_char(path@, '/');
    let mut n: usize = parts.len();
    while n > 0
        invariant
            n <= parts@.len(),
            pv == text::views(parts@),
            pv == text::split_char(path@, '/'),
            forall|j: int| n <= j < pv.len() ==> (#[trigger] pv[j]).len() == 0 || pv[j] == "."@,
        decreases n,
    {
        let part = &parts[n - 1];
        proof {
            assert(pv[n - 1] == part@);
        }
        if part.as_str().unicode_len() > 0 && !text::str_eq(part.as_str(), ".") {
            proof {
                lemma_counted_last(pv, n - 1);
            }
            if text::str_eq(part.as_str(), "..") {
                return path.to_owned();
            }
            return part.clone();
        }
        n -= 1;
    }
    proof {
        lemma_counted_none(pv);
    }
    path.to_owned()
}

/// The name of a new workspace: the one that is given, else that of its
/// directory.
pub fn workspace_name(name: Option<&str>, canonical: &str) -> (r: String)
    ensures
        r@ == (match name {
            Some(n) => n@,
            None => dir_name(canonical@),
        }),
{
    match name {
        Some(n) => n.to_owned(),
        None => derive_name(canonical),
    }
}

/// Whether `row` is that of a new workspace.
pub open spec fn is_new(
    row: WorkspaceRow,
    id: String,
    name: Option<&str>,
    canonical: Seq<char>,
    now: String,
) -> bool {
    &&& row.id == id
    &&& row.name@ == (match name {
        Some(n) => n@,
        None => dir_name(canonical),
    })
    &&& row.path@ == canonical
    &&& row.created_at == now
    &&& row.updated_at == now
}

/// The row of a new workspace for a directory. One that is registered is
/// refused.
pub fn create(
    id: String,
    name: Option<&str>,
    canonical: &str,
    registered: bool,
    now: String,
) -> (r: Result<WorkspaceRow, String>)
    ensures
        match r {
            Ok(row) => !registered && is_new(row, id, name, canonical@, now),
            Err(e) => registered && e@ == "workspace already registered for path "@ + canonical@,
        },
{
    if registered {
        return Err(text::concat2("workspace already registered for path ", canonical));
    }
    Ok(
        WorkspaceRow {
            id,
            name: workspace_name(name, canonical),
            path: canonical.to_owned(),
            created_at: now.clone(),
            updated_at: now,
        },
    )
}

/// A workspace that is there, or the row of one to make.
#[derive(PartialEq, Eq, Debug)]
pub enum Upsert {
    Existing(Workspace),
    Insert(WorkspaceRow),
}

/// Whether `r` is what the workspace of a directory comes to: the one that is
/// there, else a new one.
pub open spec fn is_upsert(
    r: Upsert,
    id: String,
    name: Option<&str>,
    canonical: Seq<char>,
    existing: Option<WorkspaceRow>,
    now: String,
) -> bool {
    match existing {
        Some(row) => r matches Upsert::Existing(w) && w.id == row.id && w.name == row.name
            && w.path == row.path && w.created_at == row.created_at && w.updated_at
            == row.updated_at,
        None => r matches Upsert::Insert(row) && is_new(row, id, name, canonical, now),
    }
}

/// The workspace for a directory: the one that is there, else a new one.
pub fn upsert_for_path(
    id: String,
    name: Option<&str>,
    canonical: &str,
    existing: Option<WorkspaceRow>,
    now: String,
) -> (r: Upsert)
    ensures
        is_upsert(r, id, name, canonical@, existing, now),
{
    match existing {
        Some(row) => Upsert::Existing(Workspace::from_row(row)),
        None => Upsert::Insert(
            WorkspaceRow {
                id,
                name: workspace_name(name, canonical),
                path: canonical.to_owned(),
                created_at: now.clone(),
                updated_at: now,
            },
        ),
    }
}

/// Registering a directory once more finds the workspace that the first time
/// made, whatever name it comes with.
pub proof fn law_registering_again_finds(
    id: String,
    name: Option<&str>,
    canonical: Seq<char>,
    now: String,
    row: WorkspaceRow,
    id2: String,
    name2: Option<&str>,
    now2: String,
    again: Upsert,
)
    requires
        is_upsert(Upsert::Insert(row), id, name, canonical, None, now),
        is_upsert(again, id2, name2, canonical, Some(row), now2),
    ensures
        again is Existing,
        again->Existing_0.id == id,
        again->Existing_0.path@ == canonical,
        again->Existing_0.name == row.name,
        again->Existing_0.created_at == now,
{
}

/// The row of a workspace under another name.
pub fn rename(id: &str, existing: Option<WorkspaceRow>, new_name: &str, now: String) -> (r: Result<
    WorkspaceRow,
    String,
>)
    ensures
        match existing {
            Some(row) => r matches Ok(x) && x.name@ == new_name@ && x == (WorkspaceRow {
                name: x.name,
                updated_at: now,
                ..row
            }),
            None => r matches Err(e) && e@ == "workspace "@ + id@ + " not found"@,
        },
{
    match existing {
        Some(row) => Ok(
            WorkspaceRow {
                id: row.id,
                name: new_name.to_owned(),
                path: row.path,
                created_at: row.created_at,
                updated_at: now,
            },
        ),
        None => Err(text::concat3("workspace ", id, " not found")),
    }
}

/// The row of a workspace for another directory.
pub fn remap(id: &str, existing: Option<WorkspaceRow>, canonical: &str, now: String) -> (r: Result<
    WorkspaceRow,
    String,
>)
    ensures
        match existing {
            Some(row) => r matches Ok(x) && x.path@ == canonical@ && x == (WorkspaceRow {
                path: x.path,
                updated_at: now,
                ..row
            }),
            None => r matches Err(e) && e@ == "workspace "@ + id@ + " not found"@,
        },
{
    match existing {
        Some(row) => Ok(
            WorkspaceRow {
                id: row.id,
                name: row.name,
                path: canonical.to_owned(),
                created_at: row.created_at,
                updated_at: now,
            },
        ),
        None => Err(text::concat3("workspace ", id, " not found")),
    }
}

/// A workspace without a name of its own has that of its directory: the last name
/// of the path, a separator behind it or not.
pub proof fn law_name_of_a_directory(parent: Seq<char>, name: Seq<char>)
    requires
        workspace_mount::is_name(name),
    ensures
        dir_name(parent + "/"@ + name) == name,
        dir_name(parent + "/"@ + name + "/"@) == name,
        dir_name(name) == name,
{
    reveal_strlit("/");
    reveal_strlit(".");
    reveal_strlit("..");
    let path = parent + "/"@ + name;
    workspace_mount::lemma_split_name(parent, name);
    let parts = text::split_char(path, '/');
    let n = parts.len() - 1;
    assert(parts[n] == name);
    lemma_counted_last(parts, n);
    let none = Seq::<char>::empty();
    workspace_mount::lemma_split_name(path, none);
    assert(path + "/"@ + none =~= path + "/"@);
    let more = text::split_char(path + "/"@, '/');
    assert(more[n] == name);
    assert(more[n + 1] == none);
    lemma_counted_last(more, n);
    crate::network_laws::lemma_split_bare(name, '/');
    lemma_counted_last(seq![name], 0);
}

} // verus!
