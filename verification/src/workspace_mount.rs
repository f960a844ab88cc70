//! Copying a project directory into a machine.
//!
//! The program reads the directory and talks to the machine. What is copied
//! where, what is left out and why, and in which portions, is decided here.

use vstd::prelude::*;
use vstd::string::*;
use crate::overlay;
use crate::overlay::path_before;
use crate::rivet::filesystem;
use crate::rivet::filesystem::{BatchWriteEntry, BatchWriteResult, FileBytes};
use crate::text;

verus! {

/// The largest file that is copied, in bytes.
pub const DEFAULT_MAX_FILE_SIZE: u64 = 2_097_152;

/// How many files go in one portion.
pub const DEFAULT_BATCH_SIZE: usize = 32;

/// The names that are left out by default.
pub open spec fn default_names() -> Seq<Seq<char>> {
    seq![".git"@, "node_modules"@, "target"@, "dist"@, "build"@, ".DS_Store"@]
}

/// The names that are left out by default.
pub fn default_exclude() -> (r: Vec<String>)
    ensures
        text::views(r@) == default_names(),
{
    let mut v: Vec<String> = Vec::new();
    v.push(".git".to_owned());
    v.push("node_modules".to_owned());
    v.push("target".to_owned());
    v.push("dist".to_owned());
    v.push("build".to_owned());
    v.push(".DS_Store".to_owned());
    proof {
        assert(text::views(v@) =~= default_names());
    }
    v
}

/// How a directory is copied.
#[derive(Clone, PartialEq, Eq, Debug)]
pub struct MountOptions {
    /// Where it goes in the machine.
    pub mount_point: String,
    /// The names that are left out.
    pub exclude: Vec<String>,
    pub max_file_size: u64,
    pub batch_size: usize,
}

impl Default for MountOptions {
    fn default() -> (r: Self)
        ensures
            r.mount_point@ == "/workspace"@,
            text::views(r.exclude@) == default_names(),
            r.max_file_size == DEFAULT_MAX_FILE_SIZE,
            r.batch_size == DEFAULT_BATCH_SIZE,
    {
        MountOptions {
            mount_point: "/workspace".to_owned(),
            exclude: default_exclude(),
            max_file_size: DEFAULT_MAX_FILE_SIZE,
            batch_size: DEFAULT_BATCH_SIZE,
        }
    }
}

/// The mount point without slashes at its end, or what is wrong with it: it
/// must be absolute, and not the root.
pub open spec fn mount_point_of(point: Seq<char>) -> Result<Seq<char>, Seq<char>> {
    let trimmed = text::trim_end_char(point, '/');
    if trimmed.len() > 0 && trimmed[0] == '/' {
        Ok(trimmed)
    } else {
        Err("mount point must be an absolute path, got "@ + text::debug_quoted(point))
    }
}

/// The view of a text, or of what is wrong.
pub open spec fn text_result(r: Result<String, String>) -> Result<Seq<char>, Seq<char>> {
    match r {
        Ok(s) => Ok(s@),
        Err(e) => Err(e@),
    }
}

impl MountOptions {
    /// With another mount point.
    pub fn with_mount_point(self, point: String) -> (r: Self)
        ensures
            r == (MountOptions { mount_point: point, ..self }),
    {
        MountOptions {
            mount_point: point,
            exclude: self.exclude,
            max_file_size: self.max_file_size,
            batch_size: self.batch_size,
        }
    }

    /// With other names left out.
    pub fn with_exclude(self, excludes: Vec<String>) -> (r: Self)
        ensures
            r == (MountOptions { exclude: excludes, ..self }),
    {
        MountOptions {
            mount_point: self.mount_point,
            exclude: excludes,
            max_file_size: self.max_file_size,
            batch_size: self.batch_size,
        }
    }

    /// With another largest file.
    pub fn with_max_file_size(self, size: u64) -> (r: Self)
        ensures
            r == (MountOptions { max_file_size: size, ..self }),
    {
        MountOptions {
            mount_point: self.mount_point,
            exclude: self.exclude,
            max_file_size: size,
            batch_size: self.batch_size,
        }
    }

    /// With other portions, of one file at least.
    pub fn with_batch_size(self, size: usize) -> (r: Self)
        ensures
            r == (MountOptions {
                batch_size: if size < 1 {
                    1
                } else {
                    size
                },
                ..self
            }),
    {
        MountOptions {
            mount_point: self.mount_point,
            exclude: self.exclude,
            max_file_size: self.max_file_size,
            batch_size: if size < 1 {
                1
            } else {
                size
            },
        }
    }

    /// The mount point without slashes at its end.
    pub fn normalized_mount_point(&self) -> (r: Result<String, String>)
        ensures
            text_result(r) == mount_point_of(self.mount_point@),
    {
        let trimmed = text::trim_end_matches(self.mount_point.as_str(), '/');
        if trimmed.as_str().unicode_len() > 0 && trimmed.as_str().get_char(0) == '/' {
            Ok(trimmed)
        } else {
            let quoted = text::debug_str(self.mount_point.as_str());
            Err(text::concat2("mount point must be an absolute path, got ", quoted.as_str()))
        }
    }
}

/// Why something was left out.
#[derive(Clone, Copy, PartialEq, Eq, Structural, Debug)]
pub enum SkipReason {
    Excluded,
    TooLarge { size: u64 },
    NonUtf8Path,
    NotRegularFile,
}

/// Something that was left out.
#[derive(Clone, PartialEq, Eq, Debug)]
pub struct SkipEntry {
    pub host_path: String,
    pub reason: SkipReason,
}

/// A file to copy.
#[derive(Clone, PartialEq, Eq, Debug)]
pub struct MountFile {
    pub host_path: String,
    pub vm_path: String,
    pub size: u64,
}

/// What is to be done.
#[derive(Clone, PartialEq, Eq, Debug)]
pub struct MountPlan {
    /// The directories that must be there, in order.
    pub directories: Vec<String>,
    pub files: Vec<MountFile>,
    pub skipped: Vec<SkipEntry>,
}

impl Default for MountPlan {
    fn default() -> (r: Self)
        ensures
            r.directories@.len() == 0,
            r.files@.len() == 0,
            r.skipped@.len() == 0,
    {
        MountPlan { directories: Vec::new(), files: Vec::new(), skipped: Vec::new() }
    }
}

/// What was done.
#[derive(Clone, PartialEq, Eq, Debug)]
pub struct MountReport {
    pub mount_point: String,
    pub files_uploaded: usize,
    pub directories_created: usize,
    pub bytes_uploaded: u64,
    pub skipped: Vec<SkipEntry>,
}

impl Default for MountReport {
    fn default() -> (r: Self)
        ensures
            r.mount_point@.len() == 0,
            r.files_uploaded == 0,
            r.directories_created == 0,
            r.bytes_uploaded == 0,
            r.skipped@.len() == 0,
    {
        MountReport {
            mount_point: String::new(),
            files_uploaded: 0,
            directories_created: 0,
            bytes_uploaded: 0,
            skipped: Vec::new(),
        }
    }
}

/// What stands at a path of the host.
pub enum HostKind {
    File { size: u64 },
    /// A directory with its entries. One that is left out may be given empty.
    Directory { entries: Vec<HostEntry> },
    /// A symbolic link, or no file at all.
    Other,
}

/// An entry of a directory of the host.
pub struct HostEntry {
    /// The name, where it is UTF-8.
    pub name: Option<String>,
    /// The path, for the report.
    pub path: String,
    pub kind: HostKind,
}

/// What stands where the project directory should.
pub enum HostRoot {
    Missing,
    NotDirectory,
    Directory { entries: Vec<HostEntry> },
}

/// The model of a file to copy.
#[verifier::ext_equal]
pub struct FileView {
    pub host_path: Seq<char>,
    pub vm_path: Seq<char>,
    pub size: u64,
}

/// The model of something that was left out.
#[verifier::ext_equal]
pub struct SkipView {
    pub host_path: Seq<char>,
    pub reason: SkipReason,
}

/// What a walk has found.
#[verifier::ext_equal]
pub struct FoundView {
    pub directories: Seq<Seq<char>>,
    pub files: Seq<FileView>,
    pub skipped: Seq<SkipView>,
}

/// The models of files to copy.
pub open spec fn file_views(v: Seq<MountFile>) -> Seq<FileView> {
    Seq::new(
        v.len(),
        |i: int|
            FileView { host_path: v[i].host_path@, vm_path: v[i].vm_path@, size: v[i].size },
    )
}

/// The models of what was left out.
pub open spec fn skip_views(v: Seq<SkipEntry>) -> Seq<SkipView> {
    Seq::new(v.len(), |i: int| SkipView { host_path: v[i].host_path@, reason: v[i].reason })
}

impl View for MountPlan {
    type V = FoundView;

    open spec fn view(&self) -> FoundView {
        FoundView {
            directories: text::views(self.directories@),
            files: file_views(self.files@),
            skipped: skip_views(self.skipped@),
        }
    }
}

/// Nothing found.
pub open spec fn nothing() -> FoundView {
    FoundView { directories: Seq::empty(), files: Seq::empty(), skipped: Seq::empty() }
}

/// The parts of a relative path that count: all but empty ones and `.`.
pub open spec fn counted_parts(parts: Seq<Seq<char>>) -> Seq<Seq<char>>
    decreases parts.len(),
{
    if parts.len() == 0 {
        Seq::empty()
    } else if parts.last().len() == 0 || parts.last() == "."@ {
        counted_parts(parts.drop_last())
    } else {
        counted_parts(parts.drop_last()).push(parts.last())
    }
}

/// The path in the machine of a relative path: below the mount point, and
/// nothing where the path leads above it.
pub open spec fn vm_path(mount_point: Seq<char>, rel: Seq<char>) -> Option<Seq<char>> {
    let parts = counted_parts(text::split_char(rel, '/'));
    if (rel.len() > 0 && rel[0] == '/') || parts.contains(".."@) {
        None
    } else if parts.len() == 0 {
        Some(mount_point)
    } else {
        Some(mount_point + "/"@ + text::join(parts, "/"@))
    }
}

/// The path in the machine of a relative path.
pub fn vm_path_for_rel(mount_point: &str, rel: &str) -> (r: Option<String>)
    ensures
        text::opt_view(r) == vm_path(mount_point@, rel@),
{
    if rel.unicode_len() > 0 && rel.get_char(0) == '/' {
        return None;
    }
    let all = text::split(rel, '/');
    let ghost pv = text::split_char(rel@, '/');
    let mut parts: Vec<String> = Vec::new();
    let mut up = false;
    let mut i: usize = 0;
    proof {
        assert(pv.take(0) =~= Seq::empty());
        assert(text::views(parts@) =~= Seq::empty());
    }
    while i < all.len()
        invariant
            i <= all@.len(),
            pv == text::views(all@),
            text::views(parts@) == counted_parts(pv.take(i as int)),
            up == text::views(parts@).contains(".."@),
        decreases all@.len() - i,
    {
        let part = &all[i];
        proof {
            assert(pv.take(i as int + 1).drop_last() =~= pv.take(i as int));
            assert(pv.take(i as int + 1).last() == part@);
        }
        if part.as_str().unicode_len() > 0 && !text::str_eq(part.as_str(), ".") {
            let ghost before = text::views(parts@);
            proof {
                text::lemma_views_push(parts@, *part);
            }
            parts.push(part.clone());
            let is_up = text::str_eq(part.as_str(), "..");
            proof {
                let after = text::views(parts@);
                assert(after == before.push(part@));
                if before.contains(".."@) {
                    let k = choose|k: int| 0 <= k < before.len() && before[k] == ".."@;
                    assert(after[k] == ".."@);
                }
                if is_up {
                    assert(after[before.len() as int] == ".."@);
                }
                if after.contains(".."@) && !is_up {
                    let k = choose|k: int| 0 <= k < after.len() && after[k] == ".."@;
                    assert(before[k] == ".."@);
                }
            }
            if is_up {
                up = true;
            }
        }
        i += 1;
    }
    proof {
        assert(pv.take(pv.len() as int) =~= pv);
    }
    if up {
        return None;
    }
    if parts.len() == 0 {
        Some(mount_point.to_owned())
    } else {
        let joined = text::join_strings(&parts, "/");
        Some(text::concat3(mount_point, "/", joined.as_str()))
    }
}

/// The relative path of an entry.
pub open spec fn below(rel: Seq<char>, name: Seq<char>) -> Seq<char> {
    if rel.len() == 0 {
        name
    } else {
        rel + "/"@ + name
    }
}

/// What is found, with one more thing left out.
pub open spec fn skipping(f: FoundView, host_path: Seq<char>, reason: SkipReason) -> FoundView {
    FoundView { skipped: f.skipped.push(SkipView { host_path, reason }), ..f }
}

/// What is found in one place, and then in another.
pub open spec fn joined(a: FoundView, b: FoundView) -> FoundView {
    FoundView {
        directories: a.directories + b.directories,
        files: a.files + b.files,
        skipped: a.skipped + b.skipped,
    }
}

/// What a walk through the entries of a directory finds, in order. An entry is
/// left out if its name is no UTF-8 or excluded, if it is no file or directory,
/// if it has no place in the machine, or if it is a file that is too large.
pub open spec fn walked(
    entries: Seq<HostEntry>,
    rel: Seq<char>,
    mount_point: Seq<char>,
    exclude: Seq<Seq<char>>,
    max: u64,
) -> FoundView
    decreases entries,
{
    if entries.len() == 0 {
        nothing()
    } else {
        let front = walked(entries.drop_last(), rel, mount_point, exclude, max);
        let e = entries.last();
        match e.name {
            None => skipping(front, e.path@, SkipReason::NonUtf8Path),
            Some(name) => if exclude.contains(name@) {
                skipping(front, e.path@, SkipReason::Excluded)
            } else {
                match (e.kind, vm_path(mount_point, below(rel, name@))) {
                    (HostKind::Other, _) => skipping(front, e.path@, SkipReason::NotRegularFile),
                    (_, None) => skipping(front, e.path@, SkipReason::NonUtf8Path),
                    (HostKind::Directory { entries: sub }, Some(vm)) => joined(
                        FoundView { directories: front.directories.push(vm), ..front },
                        walked(sub@, below(rel, name@), mount_point, exclude, max),
                    ),
                    (HostKind::File { size }, Some(vm)) => if size > max {
                        skipping(front, e.path@, SkipReason::TooLarge { size })
                    } else {
                        FoundView {
                            files: front.files.push(
                                FileView { host_path: e.path@, vm_path: vm, size },
                            ),
                            ..front
                        }
                    },
                }
            },
        }
    }
}

proof fn lemma_skip_push(v: Seq<SkipEntry>, e: SkipEntry)
    ensures
        skip_views(v.push(e)) == skip_views(v).push(
            SkipView { host_path: e.host_path@, reason: e.reason },
        ),
{
    assert(skip_views(v.push(e)) =~= skip_views(v).push(
        SkipView { host_path: e.host_path@, reason: e.reason },
    ));
}

proof fn lemma_file_push(v: Seq<MountFile>, f: MountFile)
    ensures
        file_views(v.push(f)) == file_views(v).push(
            FileView { host_path: f.host_path@, vm_path: f.vm_path@, size: f.size },
        ),
{
    assert(file_views(v.push(f)) =~= file_views(v).push(
        FileView { host_path: f.host_path@, vm_path: f.vm_path@, size: f.size },
    ));
}

fn skip(found: &mut MountPlan, host_path: &String, reason: SkipReason)
    ensures
        final(found)@ == skipping(old(found)@, host_path@, reason),
{
    let entry = SkipEntry { host_path: host_path.clone(), reason };
    proof {
        lemma_skip_push(found.skipped@, entry);
    }
    found.skipped.push(entry);
}

/// Whether an entry of this name is left out, so that it need not be read.
pub fn is_excluded(exclude: &Vec<String>, name: &str) -> (r: bool)
    ensures
        r == text::views(exclude@).contains(name@),
{
    let r = text::contains_str(exclude, name);
    proof {
        let v = text::views(exclude@);
        if r {
            let i = choose|i: int| 0 <= i < exclude@.len() && (#[trigger] exclude@[i])@ == name@;
            assert(v[i] == name@);
        }
        if v.contains(name@) {
            let i = choose|i: int| 0 <= i < v.len() && v[i] == name@;
            assert(exclude@[i]@ == name@);
        }
    }
    r
}

/// Adds to a plan what a walk through the entries of a directory finds.
fn walk(
    entries: &Vec<HostEntry>,
    rel: &str,
    mount_point: &str,
    exclude: &Vec<String>,
    max_file_size: u64,
    found: &mut MountPlan,
)
    ensures
        final(found)@ == joined(
            old(found)@,
            walked(entries@, rel@, mount_point@, text::views(exclude@), max_file_size),
        ),
    decreases entries@,
{
    let ghost before = found@;
    let ghost ex = text::views(exclude@);
    let mut i: usize = 0;
    proof {
        assert(entries@.take(0) =~= Seq::empty());
        assert(joined(before, nothing()) =~= before);
    }
    while i < entries.len()
        invariant
            i <= entries@.len(),
            ex == text::views(exclude@),
            found@ == joined(
                before,
                walked(entries@.take(i as int), rel@, mount_point@, ex, max_file_size),
            ),
        decreases entries@.len() - i,
    {
        let entry = &entries[i];
        let ghost f0 = found@;
        let ghost w0 = walked(entries@.take(i as int), rel@, mount_point@, ex, max_file_size);
        let ghost w1 = walked(entries@.take(i as int + 1), rel@, mount_point@, ex, max_file_size);
        proof {
            assert(entries@.take(i as int + 1).drop_last() =~= entries@.take(i as int));
            assert(entries@.take(i as int + 1).last() == *entry);
        }
        match &entry.name {
            None => {
                skip(found, &entry.path, SkipReason::NonUtf8Path);
                assert(found@ =~= joined(before, w1));
            },
            Some(name) => {
                if is_excluded(exclude, name.as_str()) {
                    skip(found, &entry.path, SkipReason::Excluded);
                    assert(found@ =~= joined(before, w1));
                } else {
                    let here = if rel.unicode_len() == 0 {
                        name.clone()
                    } else {
                        text::concat3(rel, "/", name.as_str())
                    };
                    let vm = vm_path_for_rel(mount_point, here.as_str());
                    match (&entry.kind, vm) {
                        (HostKind::Other, _) => {
                            skip(found, &entry.path, SkipReason::NotRegularFile);
                            assert(found@ =~= joined(before, w1));
                        },
                        (HostKind::Directory { .. }, None) => {
                            skip(found, &entry.path, SkipReason::NonUtf8Path);
                            assert(found@ =~= joined(before, w1));
                        },
                        (HostKind::File { .. }, None) => {
                            skip(found, &entry.path, SkipReason::NonUtf8Path);
                            assert(found@ =~= joined(before, w1));
                        },
                        (HostKind::Directory { entries: sub }, Some(vm)) => {
                            proof {
                                text::lemma_views_push(found.directories@, vm);
                                assert(decreases_to!(entries@ => entries@[i as int]));
                                assert(decreases_to!(entries@[i as int] => entries@[i as int].kind));
                                assert(decreases_to!(entry.kind => entry.kind->entries));
                                assert(decreases_to!(*sub => sub@));
                            }
                            let ghost vmv = vm@;
                            found.directories.push(vm);
                            let ghost mid = found@;
                            walk(sub, here.as_str(), mount_point, exclude, max_file_size, found);
                            proof {
                                let inner = walked(sub@, here@, mount_point@, ex, max_file_size);
                                assert(w1 == joined(
                                    FoundView {
                                        directories: w0.directories.push(vmv),
                                        ..w0
                                    },
                                    inner,
                                ));
                                assert(found@ == joined(mid, inner));
                                assert(found@ =~= joined(before, w1));
                            }
                        },
                        (HostKind::File { size }, Some(vm)) => {
                            if *size > max_file_size {
                                skip(found, &entry.path, SkipReason::TooLarge { size: *size });
                                assert(found@ =~= joined(before, w1));
                            } else {
                                let file = MountFile {
                                    host_path: entry.path.clone(),
                                    vm_path: vm,
                                    size: *size,
                                };
                                proof {
                                    lemma_file_push(found.files@, file);
                                }
                                found.files.push(file);
                                assert(found@ =~= joined(before, w1));
                            }
                        },
                    }
                }
            },
        }
        i += 1;
    }
    proof {
        assert(entries@.take(entries@.len() as int) =~= entries@);
    }
}

/// Where a text goes among texts in order: behind those that are not greater.
pub open spec fn slot(keys: Seq<Seq<char>>, key: Seq<char>) -> int
    decreases keys.len(),
{
    if keys.len() == 0 {
        0
    } else if text::lex_lt(key, keys.last()) {
        slot(keys.drop_last(), key)
    } else {
        keys.len() as int
    }
}

/// Where a path goes among paths in order: behind those that are not greater.
pub open spec fn path_slot(keys: Seq<Seq<char>>, key: Seq<char>) -> int
    decreases keys.len(),
{
    if keys.len() == 0 {
        0
    } else if overlay::path_lt(key, keys.last()) {
        path_slot(keys.drop_last(), key)
    } else {
        keys.len() as int
    }
}

/// The texts in order, each once.
pub open spec fn in_order(s: Seq<Seq<char>>) -> Seq<Seq<char>>
    decreases s.len(),
{
    if s.len() == 0 {
        Seq::empty()
    } else {
        let front = in_order(s.drop_last());
        if front.contains(s.last()) {
            front
        } else {
            front.insert(slot(front, s.last()), s.last())
        }
    }
}

/// The paths in the machine of files.
pub open spec fn vm_paths(s: Seq<FileView>) -> Seq<Seq<char>> {
    Seq::new(s.len(), |i: int| s[i].vm_path)
}

/// The files in order of their paths in the machine.
pub open spec fn files_in_order(s: Seq<FileView>) -> Seq<FileView>
    decreases s.len(),
{
    if s.len() == 0 {
        Seq::empty()
    } else {
        let front = files_in_order(s.drop_last());
        front.insert(slot(vm_paths(front), s.last().vm_path), s.last())
    }
}

/// The paths of what was left out.
pub open spec fn skip_paths(s: Seq<SkipView>) -> Seq<Seq<char>> {
    Seq::new(s.len(), |i: int| s[i].host_path)
}

/// What was left out, in order of the paths.
pub open spec fn skipped_in_order(s: Seq<SkipView>) -> Seq<SkipView>
    decreases s.len(),
{
    if s.len() == 0 {
        Seq::empty()
    } else {
        let front = skipped_in_order(s.drop_last());
        front.insert(path_slot(skip_paths(front), s.last().host_path), s.last())
    }
}

/// What is found, in order.
pub open spec fn ordered(f: FoundView) -> FoundView {
    FoundView {
        directories: in_order(f.directories),
        files: files_in_order(f.files),
        skipped: skipped_in_order(f.skipped),
    }
}

/// The plan for a directory, or why there is none.
pub open spec fn planned(
    root: HostRoot,
    root_path: Seq<char>,
    opts: MountOptions,
) -> Result<FoundView, Seq<char>> {
    match mount_point_of(opts.mount_point@) {
        Err(e) => Err(e),
        Ok(point) => match root {
            HostRoot::Missing => Err("host root does not exist: "@ + root_path),
            HostRoot::NotDirectory => Err("host root is not a directory: "@ + root_path),
            HostRoot::Directory { entries } => Ok(
                ordered(
                    walked(
                        entries@,
                        Seq::empty(),
                        point,
                        text::views(opts.exclude@),
                        opts.max_file_size,
                    ),
                ),
            ),
        },
    }
}

fn sort_directories(v: &Vec<String>) -> (r: Vec<String>)
    ensures
        text::views(r@) == in_order(text::views(v@)),
{
    let ghost all = text::views(v@);
    let mut out: Vec<String> = Vec::new();
    let mut i: usize = 0;
    proof {
        assert(all.take(0) =~= Seq::empty());
        assert(text::views(out@) =~= Seq::empty());
    }
    while i < v.len()
        invariant
            i <= v@.len(),
            all == text::views(v@),
            text::views(out@) == in_order(all.take(i as int)),
        decreases v@.len() - i,
    {
        proof {
            assert(all.take(i as int + 1).drop_last() =~= all.take(i as int));
            assert(all.take(i as int + 1).last() == v@[i as int]@);
        }
        if !is_excluded(&out, v[i].as_str()) {
            let ghost keys = text::views(out@);
            let mut n: usize = out.len();
            proof {
                assert(keys.take(keys.len() as int) =~= keys);
            }
            while n > 0 && text::str_lt(v[i].as_str(), out[n - 1].as_str())
                invariant
                    i < v@.len(),
                    n <= out@.len(),
                    keys == text::views(out@),
                    slot(keys, v@[i as int]@) == slot(keys.take(n as int), v@[i as int]@),
                decreases n,
            {
                proof {
                    assert(keys.take(n as int).last() == out@[n - 1]@);
                    assert(keys.take(n as int).drop_last() =~= keys.take(n - 1));
                }
                n -= 1;
            }
            proof {
                if n > 0 {
                    assert(keys.take(n as int).last() == out@[n - 1]@);
                }
                assert(n == slot(keys, v@[i as int]@));
                assert(text::views(out@.insert(n as int, v@[i as int])) =~= keys.insert(
                    n as int,
                    v@[i as int]@,
                ));
            }
            out.insert(n, v[i].clone());
        }
        i += 1;
    }
    proof {
        assert(all.take(all.len() as int) =~= all);
    }
    out
}

fn sort_files(v: &Vec<MountFile>) -> (r: Vec<MountFile>)
    ensures
        file_views(r@) == files_in_order(file_views(v@)),
{
    let ghost all = file_views(v@);
    let mut out: Vec<MountFile> = Vec::new();
    let mut i: usize = 0;
    proof {
        assert(all.take(0) =~= Seq::empty());
        assert(file_views(out@) =~= Seq::empty());
    }
    while i < v.len()
        invariant
            i <= v@.len(),
            all == file_views(v@),
            file_views(out@) == files_in_order(all.take(i as int)),
        decreases v@.len() - i,
    {
        let ghost x = all[i as int];
        proof {
            assert(all.take(i as int + 1).drop_last() =~= all.take(i as int));
            assert(all.take(i as int + 1).last() == x);
        }
        let ghost keys = vm_paths(file_views(out@));
        let mut n: usize = out.len();
        proof {
            assert(keys.take(keys.len() as int) =~= keys);
        }
        while n > 0 && text::str_lt(v[i].vm_path.as_str(), out[n - 1].vm_path.as_str())
            invariant
                i < v@.len(),
                n <= out@.len(),
                keys == vm_paths(file_views(out@)),
                keys.len() == out@.len(),
                x == file_views(v@)[i as int],
                slot(keys, x.vm_path) == slot(keys.take(n as int), x.vm_path),
            decreases n,
        {
            proof {
                assert(keys.take(n as int).last() == out@[n - 1].vm_path@);
                assert(keys.take(n as int).drop_last() =~= keys.take(n - 1));
            }
            n -= 1;
        }
        let copy = MountFile {
            host_path: v[i].host_path.clone(),
            vm_path: v[i].vm_path.clone(),
            size: v[i].size,
        };
        proof {
            if n > 0 {
                assert(keys.take(n as int).last() == out@[n - 1].vm_path@);
            }
            assert(n == slot(keys, x.vm_path));
            assert(file_views(out@.insert(n as int, copy)) =~= file_views(out@).insert(
                n as int,
                x,
            ));
        }
        out.insert(n, copy);
        i += 1;
    }
    proof {
        assert(all.take(all.len() as int) =~= all);
    }
    out
}

fn sort_skipped(v: &Vec<SkipEntry>) -> (r: Vec<SkipEntry>)
    ensures
        skip_views(r@) == skipped_in_order(skip_views(v@)),
{
    let ghost all = skip_views(v@);
    let mut out: Vec<SkipEntry> = Vec::new();
    let mut i: usize = 0;
    proof {
        assert(all.take(0) =~= Seq::empty());
        assert(skip_views(out@) =~= Seq::empty());
    }
    while i < v.len()
        invariant
            i <= v@.len(),
            all == skip_views(v@),
            skip_views(out@) == skipped_in_order(all.take(i as int)),
        decreases v@.len() - i,
    {
        let ghost x = all[i as int];
        proof {
            assert(all.take(i as int + 1).drop_last() =~= all.take(i as int));
            assert(all.take(i as int + 1).last() == x);
        }
        let ghost keys = skip_paths(skip_views(out@));
        let mut n: usize = out.len();
        proof {
            assert(keys.take(keys.len() as int) =~= keys);
        }
        while n > 0 && path_before(v[i].host_path.as_str(), out[n - 1].host_path.as_str())
            invariant
                i < v@.len(),
                n <= out@.len(),
                keys == skip_paths(skip_views(out@)),
                keys.len() == out@.len(),
                x == skip_views(v@)[i as int],
                path_slot(keys, x.host_path) == path_slot(keys.take(n as int), x.host_path),
            decreases n,
        {
            proof {
                assert(keys.take(n as int).last() == out@[n - 1].host_path@);
                assert(keys.take(n as int).drop_last() =~= keys.take(n - 1));
            }
            n -= 1;
        }
        let copy = SkipEntry { host_path: v[i].host_path.clone(), reason: v[i].reason };
        proof {
            if n > 0 {
                assert(keys.take(n as int).last() == out@[n - 1].host_path@);
            }
            assert(n == path_slot(keys, x.host_path));
            assert(skip_views(out@.insert(n as int, copy)) =~= skip_views(out@).insert(
                n as int,
                x,
            ));
        }
        out.insert(n, copy);
        i += 1;
    }
    proof {
        assert(all.take(all.len() as int) =~= all);
    }
    out
}

/// The model of a plan, or of why there is none.
pub open spec fn plan_view(r: Result<MountPlan, String>) -> Result<FoundView, Seq<char>> {
    match r {
        Ok(p) => Ok(p@),
        Err(e) => Err(e@),
    }
}

/// The plan for a directory; `root_path` is where it stands, for the error.
pub fn collect_mount_plan(root: &HostRoot, root_path: &str, opts: &MountOptions) -> (r: Result<
    MountPlan,
    String,
>)
    ensures
        plan_view(r) == planned(*root, root_path@, *opts),
{
    let point = match opts.normalized_mount_point() {
        Ok(p) => p,
        Err(e) => {
            return Err(e);
        },
    };
    match root {
        HostRoot::Missing => Err(text::concat2("host root does not exist: ", root_path)),
        HostRoot::NotDirectory => Err(text::concat2("host root is not a directory: ", root_path)),
        HostRoot::Directory { entries } => {
            let mut found = MountPlan {
                directories: Vec::new(),
                files: Vec::new(),
                skipped: Vec::new(),
            };
            proof {
                reveal_strlit("");
                assert(""@ =~= Seq::<char>::empty());
                assert(found@ =~= nothing());
            }
            walk(entries, "", point.as_str(), &opts.exclude, opts.max_file_size, &mut found);
            proof {
                assert(found@ =~= walked(
                    entries@,
                    Seq::empty(),
                    point@,
                    text::views(opts.exclude@),
                    opts.max_file_size,
                ));
            }
            let directories = sort_directories(&found.directories);
            let files = sort_files(&found.files);
            let skipped = sort_skipped(&found.skipped);
            Ok(MountPlan { directories, files, skipped })
        },
    }
}

/// The sum of the sizes of the files.
pub open spec fn sizes(files: Seq<FileView>) -> nat
    decreases files.len(),
{
    if files.len() == 0 {
        0
    } else {
        sizes(files.drop_last()) + files.last().size as nat
    }
}

proof fn lemma_sizes(files: Seq<FileView>, n: int)
    requires
        0 <= n <= files.len(),
    ensures
        sizes(files.take(n)) <= sizes(files),
    decreases files.len() - n,
{
    if n < files.len() {
        lemma_sizes(files, n + 1);
        assert(files.take(n + 1).drop_last() =~= files.take(n));
    } else {
        assert(files.take(n) =~= files);
    }
}

impl MountPlan {
    /// How many bytes the files have.
    pub fn total_size(&self) -> (r: u64)
        requires
            sizes(file_views(self.files@)) <= u64::MAX,
        ensures
            r == sizes(file_views(self.files@)),
    {
        let ghost all = file_views(self.files@);
        let mut sum: u64 = 0;
        let mut i: usize = 0;
        proof {
            assert(all.take(0) =~= Seq::empty());
        }
        while i < self.files.len()
            invariant
                i <= self.files@.len(),
                all == file_views(self.files@),
                sum == sizes(all.take(i as int)),
                sizes(all) <= u64::MAX,
            decreases self.files@.len() - i,
        {
            proof {
                assert(all.take(i as int + 1).drop_last() =~= all.take(i as int));
                assert(all.take(i as int + 1).last() == all[i as int]);
                lemma_sizes(all, i as int + 1);
            }
            sum = sum + self.files[i].size;
            i += 1;
        }
        proof {
            assert(all.take(all.len() as int) =~= all);
        }
        sum
    }
}

/// The portions in which files are written, one behind the other.
pub open spec fn flat(batches: Seq<Seq<(Seq<char>, Seq<u8>)>>) -> Seq<(Seq<char>, Seq<u8>)>
    decreases batches.len(),
{
    if batches.len() == 0 {
        Seq::empty()
    } else {
        flat(batches.drop_last()) + batches.last()
    }
}

/// The models of portions.
pub open spec fn batch_views(b: Seq<Vec<BatchWriteEntry>>) -> Seq<Seq<(Seq<char>, Seq<u8>)>> {
    Seq::new(b.len(), |i: int| filesystem::entry_pairs(b[i]@))
}

/// Whether files are written in portions of `size`: all full but the last, and
/// none empty.
pub open spec fn portioned(
    batches: Seq<Seq<(Seq<char>, Seq<u8>)>>,
    entries: Seq<(Seq<char>, Seq<u8>)>,
    size: int,
) -> bool {
    &&& flat(batches) == entries
    &&& forall|i: int| 0 <= i < batches.len() ==> 0 < (#[trigger] batches[i]).len() <= size
    &&& forall|i: int| 0 <= i < batches.len() - 1 ==> (#[trigger] batches[i]).len() == size
}

/// The files to write: each plan's file with its contents.
pub open spec fn written(files: Seq<FileView>, contents: Seq<Vec<u8>>) -> Seq<
    (Seq<char>, Seq<u8>),
> {
    Seq::new(files.len(), |i: int| (files[i].vm_path, contents[i]@))
}

/// The size of a portion: one file at least.
pub open spec fn portion(batch_size: usize) -> int {
    if batch_size < 1 {
        1
    } else {
        batch_size as int
    }
}

proof fn lemma_pairs_push(v: Seq<BatchWriteEntry>, e: BatchWriteEntry)
    ensures
        filesystem::entry_pairs(v.push(e)) == filesystem::entry_pairs(v).push(e.pair()),
{
    assert(filesystem::entry_pairs(v.push(e)) =~= filesystem::entry_pairs(v).push(e.pair()));
}

proof fn lemma_batch_push(b: Seq<Vec<BatchWriteEntry>>, x: Vec<BatchWriteEntry>)
    ensures
        batch_views(b.push(x)) == batch_views(b).push(filesystem::entry_pairs(x@)),
        flat(batch_views(b.push(x))) == flat(batch_views(b)) + filesystem::entry_pairs(x@),
{
    assert(batch_views(b.push(x)) =~= batch_views(b).push(filesystem::entry_pairs(x@)));
    assert(batch_views(b.push(x)).drop_last() =~= batch_views(b));
}

/// The portions in which the files of a plan are written; `contents` holds what
/// each of them holds.
pub fn write_batches(files: &Vec<MountFile>, contents: Vec<Vec<u8>>, batch_size: usize) -> (r: Vec<
    Vec<BatchWriteEntry>,
>)
    requires
        contents@.len() == files@.len(),
    ensures
        portioned(
            batch_views(r@),
            written(file_views(files@), contents@),
            portion(batch_size),
        ),
{
    let ghost all = written(file_views(files@), contents@);
    let ghost size = portion(batch_size);
    let mut batches: Vec<Vec<BatchWriteEntry>> = Vec::new();
    let mut current: Vec<BatchWriteEntry> = Vec::new();
    let mut i: usize = 0;
    proof {
        assert(batch_views(batches@) =~= Seq::empty());
        assert(flat(batch_views(batches@)) + filesystem::entry_pairs(current@) =~= all.take(0));
    }
    while i < files.len()
        invariant
            i <= files@.len(),
            contents@.len() == files@.len(),
            all == written(file_views(files@), contents@),
            size == portion(batch_size),
            flat(batch_views(batches@)) + filesystem::entry_pairs(current@) == all.take(i as int),
            current@.len() < size,
            forall|k: int|
                0 <= k < batches@.len() ==> (#[trigger] batch_views(batches@)[k]).len() == size,
        decreases files@.len() - i,
    {
        let mut bytes: Vec<u8> = Vec::new();
        let mut j: usize = 0;
        while j < contents[i].len()
            invariant
                i < contents@.len(),
                j <= contents@[i as int]@.len(),
                bytes@ == contents@[i as int]@.take(j as int),
            decreases contents@[i as int]@.len() - j,
        {
            bytes.push(contents[i][j]);
            j += 1;
            proof {
                assert(bytes@ =~= contents@[i as int]@.take(j as int));
            }
        }
        let entry = BatchWriteEntry::new(files[i].vm_path.clone(), FileBytes::new(bytes));
        proof {
            assert(contents@[i as int]@.take(j as int) =~= contents@[i as int]@);
            lemma_pairs_push(current@, entry);
            assert(entry.pair() == all[i as int]);
            assert(all.take(i as int + 1) =~= all.take(i as int).push(all[i as int]));
        }
        let ghost before = current@;
        current.push(entry);
        proof {
            assert(flat(batch_views(batches@)) + filesystem::entry_pairs(current@) =~= all.take(
                i as int + 1,
            ));
        }
        if current.len() >= batch_size {
            let ghost old_batches = batches@;
            let ghost full = filesystem::entry_pairs(current@);
            proof {
                lemma_batch_push(batches@, current);
            }
            batches.push(current);
            current = Vec::new();
            proof {
                assert(flat(batch_views(batches@)) + filesystem::entry_pairs(current@)
                    =~= all.take(i as int + 1));
                assert forall|k: int| 0 <= k < batches@.len() implies (#[trigger] batch_views(
                    batches@,
                )[k]).len() == size by {
                    if k < old_batches.len() {
                        assert(batch_views(old_batches)[k] == batch_views(batches@)[k]);
                    }
                }
            }
        }
        i += 1;
    }
    proof {
        assert(all.take(all.len() as int) =~= all);
    }
    if current.len() > 0 {
        let ghost old_batches = batches@;
        proof {
            lemma_batch_push(batches@, current);
        }
        batches.push(current);
        proof {
            let b = batch_views(batches@);
            assert forall|k: int| 0 <= k < b.len() implies 0 < (#[trigger] b[k]).len() <= size by {
                if k < old_batches.len() {
                    assert(batch_views(old_batches)[k] == b[k]);
                }
            }
            assert forall|k: int| 0 <= k < b.len() - 1 implies (#[trigger] b[k]).len() == size by {
                assert(batch_views(old_batches)[k] == b[k]);
            }
        }
    } else {
        proof {
            assert(flat(batch_views(batches@)) =~= all);
        }
    }
    batches
}

/// The first file from `i` on that was not written.
pub open spec fn first_failed(results: Seq<BatchWriteResult>, i: int) -> int
    decreases results.len() - i,
{
    if i < 0 || i >= results.len() {
        results.len() as int
    } else if !results[i].success {
        i
    } else {
        first_failed(results, i + 1)
    }
}

/// Checks that every file of a portion was written.
pub fn check_written(results: &Vec<BatchWriteResult>) -> (r: Result<(), String>)
    ensures
        ({
            let i = first_failed(results@, 0);
            match r {
                Ok(_) => i == results@.len(),
                Err(e) => 0 <= i < results@.len() && e@ == "writeFile failed for "@
                    + results@[i].path@ + ": "@ + (match results@[i].error {
                    Some(x) => x@,
                    None => "unknown error"@,
                }),
            }
        }),
{
    let mut i: usize = 0;
    while i < results.len()
        invariant
            i <= results@.len(),
            first_failed(results@, 0) == first_failed(results@, i as int),
        decreases results@.len() - i,
    {
        let x = &results[i];
        if !x.success {
            let error = match &x.error {
                Some(e) => e.clone(),
                None => "unknown error".to_owned(),
            };
            return Err(
                text::concat4("writeFile failed for ", x.path.as_str(), ": ", error.as_str()),
            );
        }
        i += 1;
    }
    Ok(())
}

/// How many bytes the contents of files have.
pub open spec fn byte_count(contents: Seq<Vec<u8>>) -> nat
    decreases contents.len(),
{
    if contents.len() == 0 {
        0
    } else {
        byte_count(contents.drop_last()) + contents.last()@.len()
    }
}

proof fn lemma_byte_count(contents: Seq<Vec<u8>>, n: int)
    requires
        0 <= n <= contents.len(),
    ensures
        byte_count(contents.take(n)) <= byte_count(contents),
    decreases contents.len() - n,
{
    if n < contents.len() {
        lemma_byte_count(contents, n + 1);
        assert(contents.take(n + 1).drop_last() =~= contents.take(n));
    } else {
        assert(contents.take(n) =~= contents);
    }
}

/// How many bytes the contents of files have, unless it is too many to count.
pub fn uploaded_bytes(contents: &Vec<Vec<u8>>) -> (r: Option<u64>)
    ensures
        match r {
            Some(n) => n == byte_count(contents@),
            None => byte_count(contents@) > u64::MAX,
        },
{
    let mut sum: u64 = 0;
    let mut i: usize = 0;
    proof {
        assert(contents@.take(0) =~= Seq::empty());
    }
    while i < contents.len()
        invariant
            i <= contents@.len(),
            sum == byte_count(contents@.take(i as int)),
        decreases contents@.len() - i,
    {
        proof {
            assert(contents@.take(i as int + 1).drop_last() =~= contents@.take(i as int));
            lemma_byte_count(contents@, i as int + 1);
        }
        match sum.checked_add(contents[i].len() as u64) {
            Some(n) => {
                sum = n;
            },
            None => {
                return None;
            },
        }
        i += 1;
    }
    proof {
        assert(contents@.take(contents@.len() as int) =~= contents@);
    }
    Some(sum)
}

/// The report of a plan that was carried out.
pub fn mount_report(mount_point: String, plan: MountPlan, bytes_uploaded: u64) -> (r: MountReport)
    requires
        plan.directories@.len() < usize::MAX,
    ensures
        r.mount_point == mount_point,
        r.files_uploaded == plan.files@.len(),
        r.directories_created == plan.directories@.len() + 1,
        r.bytes_uploaded == bytes_uploaded,
        r.skipped == plan.skipped,
{
    MountReport {
        mount_point,
        files_uploaded: plan.files.len(),
        directories_created: plan.directories.len() + 1,
        bytes_uploaded,
        skipped: plan.skipped,
    }
}

/// Whether texts stand in order.
pub open spec fn is_ordered(s: Seq<Seq<char>>) -> bool {
    forall|i: int, j: int| 0 <= i < j < s.len() ==> !text::lex_lt(#[trigger] s[j], #[trigger] s[i])
}

proof fn lemma_slot(keys: Seq<Seq<char>>, key: Seq<char>)
    requires
        is_ordered(keys),
    ensures
        0 <= slot(keys, key) <= keys.len(),
        is_ordered(keys.insert(slot(keys, key), key)),
        forall|i: int| 0 <= i < slot(keys, key) ==> !text::lex_lt(key, #[trigger] keys[i]),
        forall|i: int| slot(keys, key) <= i < keys.len() ==> text::lex_lt(key, #[trigger] keys[i]),
    decreases keys.len(),
{
    if keys.len() > 0 {
        let front = keys.drop_last();
        assert(is_ordered(front)) by {
            assert forall|i: int, j: int| 0 <= i < j < front.len() implies !text::lex_lt(
                #[trigger] front[j],
                #[trigger] front[i],
            ) by {
                assert(front[i] == keys[i] && front[j] == keys[j]);
            }
        }
        lemma_slot(front, key);
        let n = slot(keys, key);
        if text::lex_lt(key, keys.last()) {
            assert forall|i: int| 0 <= i < n implies !text::lex_lt(key, #[trigger] keys[i]) by {
                assert(front[i] == keys[i]);
            }
            assert forall|i: int| n <= i < keys.len() implies text::lex_lt(
                key,
                #[trigger] keys[i],
            ) by {
                if i < keys.len() - 1 {
                    assert(front[i] == keys[i]);
                }
            }
        } else {
            assert forall|i: int| 0 <= i < n implies !text::lex_lt(key, #[trigger] keys[i]) by {
                if i < keys.len() - 1 && text::lex_lt(key, keys[i]) {
                    assert(!text::lex_lt(keys[keys.len() - 1], keys[i]));
                    text::lemma_lex_total(keys[i], keys.last());
                    if text::lex_lt(keys[i], keys.last()) {
                        text::lemma_lex_transitive(key, keys[i], keys.last());
                    }
                }
            }
        }
        let out = keys.insert(n, key);
        assert forall|i: int, j: int| 0 <= i < j < out.len() implies !text::lex_lt(
            #[trigger] out[j],
            #[trigger] out[i],
        ) by {
            let a = if i < n {
                keys[i]
            } else if i == n {
                key
            } else {
                keys[i - 1]
            };
            let b = if j < n {
                keys[j]
            } else if j == n {
                key
            } else {
                keys[j - 1]
            };
            assert(out[i] == a && out[j] == b);
            if i == n {
                assert(text::lex_lt(key, keys[j - 1]));
                if text::lex_lt(b, a) {
                    text::lemma_lex_transitive(a, b, a);
                    text::lemma_lex_irreflexive(a);
                }
            }
        }
    } else {
        assert(keys.insert(0, key) =~= seq![key]);
    }
}

/// The files of a plan stand in order of their paths in the machine, and are
/// those that were found.
pub proof fn law_files_stand_in_order(s: Seq<FileView>)
    ensures
        is_ordered(vm_paths(files_in_order(s))),
        files_in_order(s).len() == s.len(),
        forall|f: FileView| #[trigger] files_in_order(s).contains(f) <==> s.contains(f),
    decreases s.len(),
{
    if s.len() > 0 {
        let rest = s.drop_last();
        law_files_stand_in_order(rest);
        let front = files_in_order(rest);
        let keys = vm_paths(front);
        lemma_slot(keys, s.last().vm_path);
        let n = slot(keys, s.last().vm_path);
        let out = front.insert(n, s.last());
        assert(vm_paths(out) =~= keys.insert(n, s.last().vm_path));
        assert forall|f: FileView| #[trigger] out.contains(f) <==> s.contains(f) by {
            if s.contains(f) {
                let k = choose|k: int| 0 <= k < s.len() && s[k] == f;
                if k < rest.len() {
                    assert(rest[k] == f);
                    assert(front.contains(f));
                    let j = choose|j: int| 0 <= j < front.len() && front[j] == f;
                    if j < n {
                        assert(out[j] == f);
                    } else {
                        assert(out[j + 1] == f);
                    }
                } else {
                    assert(out[n] == f);
                }
            }
            if out.contains(f) {
                let k = choose|k: int| 0 <= k < out.len() && out[k] == f;
                if k == n {
                    assert(s[s.len() - 1] == f);
                } else {
                    let m = if k < n {
                        k
                    } else {
                        k - 1
                    };
                    assert(front[m] == f);
                    assert(front.contains(f));
                    let j = choose|j: int| 0 <= j < rest.len() && rest[j] == f;
                    assert(s[j] == f);
                }
            }
        }
    }
}

/// Whether paths stand in order, component by component.
pub open spec fn is_path_ordered(s: Seq<Seq<char>>) -> bool {
    forall|i: int, j: int|
        0 <= i < j < s.len() ==> !overlay::path_lt(#[trigger] s[j], #[trigger] s[i])
}

proof fn lemma_path_slot(keys: Seq<Seq<char>>, key: Seq<char>)
    requires
        is_path_ordered(keys),
    ensures
        0 <= path_slot(keys, key) <= keys.len(),
        is_path_ordered(keys.insert(path_slot(keys, key), key)),
        forall|i: int| 0 <= i < path_slot(keys, key) ==> !overlay::path_lt(key, #[trigger] keys[i]),
        forall|i: int| path_slot(keys, key) <= i < keys.len() ==> overlay::path_lt(key, #[trigger] keys[i]),
    decreases keys.len(),
{
    if keys.len() > 0 {
        let front = keys.drop_last();
        assert(is_path_ordered(front)) by {
            assert forall|i: int, j: int| 0 <= i < j < front.len() implies !overlay::path_lt(
                #[trigger] front[j],
                #[trigger] front[i],
            ) by {
                assert(front[i] == keys[i] && front[j] == keys[j]);
            }
        }
        lemma_path_slot(front, key);
        let n = path_slot(keys, key);
        if overlay::path_lt(key, keys.last()) {
            assert forall|i: int| 0 <= i < n implies !overlay::path_lt(key, #[trigger] keys[i]) by {
                assert(front[i] == keys[i]);
            }
            assert forall|i: int| n <= i < keys.len() implies overlay::path_lt(
                key,
                #[trigger] keys[i],
            ) by {
                if i < keys.len() - 1 {
                    assert(front[i] == keys[i]);
                }
            }
        } else {
            assert forall|i: int| 0 <= i < n implies !overlay::path_lt(key, #[trigger] keys[i]) by {
                if i < keys.len() - 1 && overlay::path_lt(key, keys[i]) {
                    assert(!overlay::path_lt(keys[keys.len() - 1], keys[i]));
                    overlay::lemma_path_total(keys[i], keys.last());
                    if overlay::path_lt(keys[i], keys.last()) {
                        overlay::lemma_path_transitive(key, keys[i], keys.last());
                    }
                }
            }
        }
        let out = keys.insert(n, key);
        assert forall|i: int, j: int| 0 <= i < j < out.len() implies !overlay::path_lt(
            #[trigger] out[j],
            #[trigger] out[i],
        ) by {
            let a = if i < n {
                keys[i]
            } else if i == n {
                key
            } else {
                keys[i - 1]
            };
            let b = if j < n {
                keys[j]
            } else if j == n {
                key
            } else {
                keys[j - 1]
            };
            assert(out[i] == a && out[j] == b);
            if i == n {
                assert(overlay::path_lt(key, keys[j - 1]));
                if overlay::path_lt(b, a) {
                    overlay::lemma_path_transitive(a, b, a);
                    overlay::lemma_path_irreflexive(a);
                }
            }
        }
    } else {
        assert(keys.insert(0, key) =~= seq![key]);
    }
}

/// What a plan leaves out stands in order of its paths, and is what was found so.
pub proof fn law_skipped_stand_in_order(s: Seq<SkipView>)
    ensures
        is_path_ordered(skip_paths(skipped_in_order(s))),
        skipped_in_order(s).len() == s.len(),
        forall|f: SkipView| #[trigger] skipped_in_order(s).contains(f) <==> s.contains(f),
    decreases s.len(),
{
    if s.len() > 0 {
        let rest = s.drop_last();
        law_skipped_stand_in_order(rest);
        let front = skipped_in_order(rest);
        let keys = skip_paths(front);
        lemma_path_slot(keys, s.last().host_path);
        let n = path_slot(keys, s.last().host_path);
        let out = front.insert(n, s.last());
        assert(skip_paths(out) =~= keys.insert(n, s.last().host_path));
        assert forall|f: SkipView| #[trigger] out.contains(f) <==> s.contains(f) by {
            if s.contains(f) {
                let k = choose|k: int| 0 <= k < s.len() && s[k] == f;
                if k < rest.len() {
                    assert(rest[k] == f);
                    assert(front.contains(f));
                    let j = choose|j: int| 0 <= j < front.len() && front[j] == f;
                    if j < n {
                        assert(out[j] == f);
                    } else {
                        assert(out[j + 1] == f);
                    }
                } else {
                    assert(out[n] == f);
                }
            }
            if out.contains(f) {
                let k = choose|k: int| 0 <= k < out.len() && out[k] == f;
                if k == n {
                    assert(s[s.len() - 1] == f);
                } else {
                    let m = if k < n {
                        k
                    } else {
                        k - 1
                    };
                    assert(front[m] == f);
                    assert(front.contains(f));
                    let j = choose|j: int| 0 <= j < rest.len() && rest[j] == f;
                    assert(s[j] == f);
                }
            }
        }
    }
}

/// The directories of a plan stand in order, each once, and are those that were
/// found.
pub proof fn law_directories_stand_in_order(s: Seq<Seq<char>>)
    ensures
        is_ordered(in_order(s)),
        in_order(s).no_duplicates(),
        forall|d: Seq<char>| #[trigger] in_order(s).contains(d) <==> s.contains(d),
    decreases s.len(),
{
    if s.len() > 0 {
        let rest = s.drop_last();
        let x = s.last();
        law_directories_stand_in_order(rest);
        let front = in_order(rest);
        lemma_slot(front, x);
        let n = slot(front, x);
        let out = in_order(s);
        assert forall|d: Seq<char>| #[trigger] out.contains(d) <==> s.contains(d) by {
            if s.contains(d) {
                let k = choose|k: int| 0 <= k < s.len() && s[k] == d;
                if k < rest.len() {
                    assert(rest[k] == d);
                    assert(front.contains(d));
                    let j = choose|j: int| 0 <= j < front.len() && front[j] == d;
                    if !front.contains(x) {
                        if j < n {
                            assert(out[j] == d);
                        } else {
                            assert(out[j + 1] == d);
                        }
                    }
                } else if !front.contains(x) {
                    assert(out[n] == d);
                }
            }
            if out.contains(d) {
                let k = choose|k: int| 0 <= k < out.len() && out[k] == d;
                if front.contains(x) {
                    assert(front.contains(d));
                    let j = choose|j: int| 0 <= j < rest.len() && rest[j] == d;
                    assert(s[j] == d);
                } else if k == n {
                    assert(s[s.len() - 1] == d);
                } else {
                    let m = if k < n {
                        k
                    } else {
                        k - 1
                    };
                    assert(front[m] == d);
                    assert(front.contains(d));
                    let j = choose|j: int| 0 <= j < rest.len() && rest[j] == d;
                    assert(s[j] == d);
                }
            }
        }
        if !front.contains(x) {
            assert forall|i: int, j: int| 0 <= i < j < out.len() implies out[i] != out[j] by {
                let a = if i < n {
                    i
                } else {
                    i - 1
                };
                let b = if j < n {
                    j
                } else {
                    j - 1
                };
                if i == n {
                    assert(out[j] == front[b]);
                } else if j == n {
                    assert(out[i] == front[a]);
                } else {
                    assert(out[i] == front[a] && out[j] == front[b]);
                }
            }
        }
    }
}

/// Whether a file is within the limit, and below the mount point.
pub open spec fn fits(f: FileView, mount_point: Seq<char>, max: u64) -> bool {
    f.size <= max && text::starts_with(f.vm_path, mount_point)
}

proof fn lemma_vm_path(mount_point: Seq<char>, rel: Seq<char>)
    ensures
        vm_path(mount_point, rel) is Some ==> text::starts_with(
            vm_path(mount_point, rel)->0,
            mount_point,
        ),
{
    if vm_path(mount_point, rel) is Some {
        assert(vm_path(mount_point, rel)->0.take(mount_point.len() as int) =~= mount_point);
    }
}

proof fn lemma_walk_files(
    entries: Seq<HostEntry>,
    rel: Seq<char>,
    mount_point: Seq<char>,
    exclude: Seq<Seq<char>>,
    max: u64,
)
    ensures
        forall|i: int|
            0 <= i < walked(entries, rel, mount_point, exclude, max).files.len() ==> fits(
                #[trigger] walked(entries, rel, mount_point, exclude, max).files[i],
                mount_point,
                max,
            ),
    decreases entries,
{
    if entries.len() > 0 {
        let e = entries.last();
        let front = walked(entries.drop_last(), rel, mount_point, exclude, max);
        let all = walked(entries, rel, mount_point, exclude, max);
        lemma_walk_files(entries.drop_last(), rel, mount_point, exclude, max);
        if e.name is Some {
            lemma_vm_path(mount_point, below(rel, e.name->0@));
        }
        assert(decreases_to!(entries => entries[entries.len() - 1]));
        match (e.name, e.kind) {
            (Some(name), HostKind::Directory { entries: sub }) => {
                assert(decreases_to!(e => e.kind));
                assert(decreases_to!(e.kind => e.kind->entries));
                assert(decreases_to!(sub => sub@));
                lemma_walk_files(sub@, below(rel, name@), mount_point, exclude, max);
                let inner = walked(sub@, below(rel, name@), mount_point, exclude, max);
                assert forall|i: int| 0 <= i < all.files.len() implies fits(
                    #[trigger] all.files[i],
                    mount_point,
                    max,
                ) by {
                    if i < front.files.len() {
                        assert(all.files[i] == front.files[i]);
                    } else {
                        assert(all.files[i] == inner.files[i - front.files.len()]);
                    }
                }
            },
            _ => {
                assert forall|i: int| 0 <= i < all.files.len() implies fits(
                    #[trigger] all.files[i],
                    mount_point,
                    max,
                ) by {
                    if i < front.files.len() {
                        assert(all.files[i] == front.files[i]);
                    }
                }
            },
        }
    }
}

/// No file that is larger than the limit is copied, and none to a place outside
/// the mount point.
pub proof fn law_copied_files_fit(
    root: HostRoot,
    root_path: Seq<char>,
    opts: MountOptions,
    plan: FoundView,
    i: int,
)
    requires
        planned(root, root_path, opts) == Ok::<FoundView, Seq<char>>(plan),
        0 <= i < plan.files.len(),
    ensures
        fits(plan.files[i], mount_point_of(opts.mount_point@)->Ok_0, opts.max_file_size),
{
    let point = mount_point_of(opts.mount_point@)->Ok_0;
    let entries = root->Directory_entries@;
    let exclude = text::views(opts.exclude@);
    let found = walked(entries, Seq::empty(), point, exclude, opts.max_file_size);
    lemma_walk_files(entries, Seq::empty(), point, exclude, opts.max_file_size);
    law_files_stand_in_order(found.files);
    assert(files_in_order(found.files).contains(plan.files[i]));
    let j = choose|j: int| 0 <= j < found.files.len() && found.files[j] == plan.files[i];
    assert(fits(found.files[j], point, opts.max_file_size));
}

/// Whether a text is the name of something in a directory.
pub open spec fn is_name(name: Seq<char>) -> bool {
    name.len() > 0 && !name.contains('/') && name != "."@ && name != ".."@
}

/// Whether the names of entries, down to the last, are such as directories
/// hold.
pub open spec fn well_named(entries: Seq<HostEntry>) -> bool
    decreases entries,
{
    if entries.len() == 0 {
        true
    } else {
        let e = entries.last();
        &&& well_named(entries.drop_last())
        &&& match e.name {
            Some(name) => is_name(name@),
            None => true,
        }
        &&& match e.kind {
            HostKind::Directory { entries: sub } => well_named(sub@),
            _ => true,
        }
    }
}

/// The path of a name in a directory.
pub open spec fn child(dir: Seq<char>, name: Seq<char>) -> Seq<char> {
    dir + "/"@ + name
}

/// Whether a path stands in the mount point itself or in one of the directories.
pub open spec fn stands_in(path: Seq<char>, point: Seq<char>, dirs: Seq<Seq<char>>) -> bool {
    exists|dir: Seq<char>, name: Seq<char>|
        (dir == point || dirs.contains(dir)) && is_name(name) && path == #[trigger] child(dir, name)
}

pub proof fn lemma_split_name(s: Seq<char>, name: Seq<char>)
    requires
        !name.contains('/'),
    ensures
        text::split_char(s + "/"@ + name, '/') == text::split_char(s, '/').push(name),
    decreases name.len(),
{
    reveal_strlit("/");
    let whole = s + "/"@ + name;
    if name.len() == 0 {
        assert(whole.drop_last() =~= s);
        assert(name =~= Seq::<char>::empty());
    } else {
        let rest = name.drop_last();
        assert(!rest.contains('/')) by {
            if rest.contains('/') {
                let k = choose|k: int| 0 <= k < rest.len() && rest[k] == '/';
                assert(name[k] == '/');
            }
        }
        lemma_split_name(s, rest);
        assert(whole.drop_last() =~= s + "/"@ + rest);
        assert(name[name.len() - 1] != '/');
        let front = text::split_char(s + "/"@ + rest, '/');
        assert(front.drop_last() =~= text::split_char(s, '/'));
        assert(rest.push(name.last()) =~= name);
    }
}

proof fn lemma_split_bare(name: Seq<char>)
    requires
        !name.contains('/'),
    ensures
        text::split_char(name, '/') == seq![name],
    decreases name.len(),
{
    if name.len() == 0 {
        assert(seq![name] =~= seq![Seq::<char>::empty()]) by {
            assert(name =~= Seq::<char>::empty());
        }
    } else {
        let rest = name.drop_last();
        assert(!rest.contains('/')) by {
            if rest.contains('/') {
                let k = choose|k: int| 0 <= k < rest.len() && rest[k] == '/';
                assert(name[k] == '/');
            }
        }
        lemma_split_bare(rest);
        assert(name[name.len() - 1] != '/');
        assert(rest.push(name.last()) =~= name);
        assert(seq![rest].drop_last().push(name) =~= seq![name]);
    }
}

/// Something in a directory of the host goes into the directory that this one
/// becomes.
pub proof fn lemma_child_path(mount_point: Seq<char>, rel: Seq<char>, name: Seq<char>)
    requires
        is_name(name),
        vm_path(mount_point, rel) is Some,
    ensures
        vm_path(mount_point, below(rel, name)) == Some(
            child(vm_path(mount_point, rel)->0, name),
        ),
{
    let parts = counted_parts(text::split_char(rel, '/'));
    let all = text::split_char(below(rel, name), '/');
    assert(name[0] != '/');
    reveal_strlit("/");
    reveal_strlit(".");
    if rel.len() == 0 {
        lemma_split_bare(name);
        assert(rel =~= Seq::<char>::empty());
        reveal_with_fuel(counted_parts, 2);
        assert(all.drop_last() =~= Seq::empty());
        assert(text::split_char(rel, '/').drop_last() =~= Seq::empty());
        assert(parts =~= Seq::empty());
    } else {
        lemma_split_name(rel, name);
        assert(all.drop_last() =~= text::split_char(rel, '/'));
        assert(below(rel, name)[0] == rel[0]);
    }
    assert(counted_parts(all) == parts.push(name));
    assert(!parts.push(name).contains(".."@)) by {
        if parts.push(name).contains(".."@) {
            let k = choose|k: int|
                0 <= k < parts.push(name).len() && parts.push(name)[k] == ".."@;
            if k < parts.len() {
                assert(parts[k] == ".."@);
            }
        }
    }
    assert(parts.push(name).drop_last() =~= parts);
    let here = vm_path(mount_point, rel)->0;
    if parts.len() == 0 {
        assert(parts.push(name)[0] == name);
        assert(mount_point + "/"@ + name =~= child(here, name));
    } else {
        assert(mount_point + "/"@ + (text::join(parts, "/"@) + "/"@ + name) =~= child(here, name));
    }
}

/// Whether all that is found stands in a directory that is found or in `here`.
spec fn all_stand(f: FoundView, here: Seq<char>) -> bool {
    &&& forall|i: int|
        0 <= i < f.files.len() ==> stands_in((#[trigger] f.files[i]).vm_path, here, f.directories)
    &&& forall|i: int|
        0 <= i < f.directories.len() ==> stands_in(
            #[trigger] f.directories[i],
            here,
            f.directories,
        )
}

proof fn lemma_stands_in_more(
    path: Seq<char>,
    here: Seq<char>,
    dirs: Seq<Seq<char>>,
    place: Seq<char>,
    more: Seq<Seq<char>>,
)
    requires
        stands_in(path, here, dirs),
        here == place || more.contains(here),
        forall|d: Seq<char>| #[trigger] dirs.contains(d) ==> more.contains(d),
    ensures
        stands_in(path, place, more),
{
    let (dir, name) = choose|dir: Seq<char>, name: Seq<char>|
        (dir == here || dirs.contains(dir)) && is_name(name) && path == #[trigger] child(dir, name);
    assert(path == child(dir, name));
}

proof fn lemma_walk_stands(
    entries: Seq<HostEntry>,
    rel: Seq<char>,
    mount_point: Seq<char>,
    exclude: Seq<Seq<char>>,
    max: u64,
)
    requires
        well_named(entries),
        vm_path(mount_point, rel) is Some,
    ensures
        all_stand(
            walked(entries, rel, mount_point, exclude, max),
            vm_path(mount_point, rel)->0,
        ),
    decreases entries,
{
    let here = vm_path(mount_point, rel)->0;
    if entries.len() > 0 {
        let e = entries.last();
        let front = walked(entries.drop_last(), rel, mount_point, exclude, max);
        let all = walked(entries, rel, mount_point, exclude, max);
        lemma_walk_stands(entries.drop_last(), rel, mount_point, exclude, max);
        assert(decreases_to!(entries => entries[entries.len() - 1]));
        if e.name is Some && !exclude.contains(e.name->0@) {
            let name = e.name->0@;
            let vm = child(here, name);
            lemma_child_path(mount_point, rel, name);
            match e.kind {
                HostKind::Directory { entries: sub } => {
                    assert(decreases_to!(e => e.kind));
                    assert(decreases_to!(e.kind => e.kind->entries));
                    assert(decreases_to!(sub => sub@));
                    lemma_walk_stands(sub@, below(rel, name), mount_point, exclude, max);
                    let inner = walked(sub@, below(rel, name), mount_point, exclude, max);
                    lemma_joined_stands(front, inner, here, name);
                },
                HostKind::File { size } => {
                    if size <= max {
                        assert forall|i: int| 0 <= i < all.files.len() implies stands_in(
                            (#[trigger] all.files[i]).vm_path,
                            here,
                            all.directories,
                        ) by {
                            if i < front.files.len() {
                                assert(all.files[i] == front.files[i]);
                            } else {
                                assert(all.files[i].vm_path == child(here, name));
                            }
                        }
                    }
                },
                HostKind::Other => {},
            }
        }
    }
}

proof fn lemma_joined_stands(
    front: FoundView,
    inner: FoundView,
    here: Seq<char>,
    name: Seq<char>,
)
    requires
        all_stand(front, here),
        all_stand(inner, child(here, name)),
        is_name(name),
    ensures
        all_stand(
            joined(
                FoundView { directories: front.directories.push(child(here, name)), ..front },
                inner,
            ),
            here,
        ),
{
    let vm = child(here, name);
    let made = front.directories.push(vm);
    let all = joined(FoundView { directories: made, ..front }, inner);
    assert forall|d: Seq<char>| #[trigger] front.directories.contains(d) implies all.directories.contains(
        d,
    ) by {
        let k = choose|k: int| 0 <= k < front.directories.len() && front.directories[k] == d;
        assert(all.directories[k] == d);
    }
    assert forall|d: Seq<char>| #[trigger] inner.directories.contains(d) implies all.directories.contains(
        d,
    ) by {
        let k = choose|k: int| 0 <= k < inner.directories.len() && inner.directories[k] == d;
        assert(all.directories[made.len() + k] == d);
    }
    assert(all.directories[front.directories.len() as int] == vm);
    assert(all.directories.contains(vm));
    assert forall|i: int| 0 <= i < all.files.len() implies stands_in(
        (#[trigger] all.files[i]).vm_path,
        here,
        all.directories,
    ) by {
        if i < front.files.len() {
            assert(all.files[i] == front.files[i]);
            lemma_stands_in_more(
                front.files[i].vm_path,
                here,
                front.directories,
                here,
                all.directories,
            );
        } else {
            let k = i - front.files.len();
            assert(all.files[i] == inner.files[k]);
            lemma_stands_in_more(
                inner.files[k].vm_path,
                vm,
                inner.directories,
                here,
                all.directories,
            );
        }
    }
    assert forall|i: int| 0 <= i < all.directories.len() implies stands_in(
        #[trigger] all.directories[i],
        here,
        all.directories,
    ) by {
        if i < front.directories.len() {
            assert(all.directories[i] == front.directories[i]);
            lemma_stands_in_more(
                front.directories[i],
                here,
                front.directories,
                here,
                all.directories,
            );
        } else if i == front.directories.len() {
            assert(all.directories[i] == child(here, name));
        } else {
            let k = i - made.len();
            assert(all.directories[i] == inner.directories[k]);
            lemma_stands_in_more(
                inner.directories[k],
                vm,
                inner.directories,
                here,
                all.directories,
            );
        }
    }
}

/// The project directory itself goes to the mount point.
pub proof fn lemma_top_path(point: Seq<char>)
    ensures
        vm_path(point, Seq::empty()) == Some(point),
{
    let top = Seq::<char>::empty();
    reveal_with_fuel(counted_parts, 2);
    assert(text::split_char(top, '/').drop_last() =~= Seq::empty());
    assert(counted_parts(text::split_char(top, '/')) =~= Seq::empty());
}

/// What is copied has its directory: every file and every directory of a plan
/// stands in the mount point itself or in a directory of the plan.
pub proof fn law_directories_of_files_are_made(
    root: HostRoot,
    root_path: Seq<char>,
    opts: MountOptions,
    plan: FoundView,
)
    requires
        root is Directory,
        well_named(root->Directory_entries@),
        planned(root, root_path, opts) == Ok::<FoundView, Seq<char>>(plan),
    ensures
        forall|i: int|
            0 <= i < plan.files.len() ==> stands_in(
                (#[trigger] plan.files[i]).vm_path,
                mount_point_of(opts.mount_point@)->Ok_0,
                plan.directories,
            ),
        forall|i: int|
            0 <= i < plan.directories.len() ==> stands_in(
                #[trigger] plan.directories[i],
                mount_point_of(opts.mount_point@)->Ok_0,
                plan.directories,
            ),
{
    let point = mount_point_of(opts.mount_point@)->Ok_0;
    let entries = root->Directory_entries@;
    let exclude = text::views(opts.exclude@);
    let top = Seq::<char>::empty();
    let found = walked(entries, top, point, exclude, opts.max_file_size);
    lemma_top_path(point);
    lemma_walk_stands(entries, top, point, exclude, opts.max_file_size);
    law_files_stand_in_order(found.files);
    law_directories_stand_in_order(found.directories);
    assert forall|i: int| 0 <= i < plan.files.len() implies stands_in(
        (#[trigger] plan.files[i]).vm_path,
        point,
        plan.directories,
    ) by {
        assert(files_in_order(found.files).contains(plan.files[i]));
        let j = choose|j: int| 0 <= j < found.files.len() && found.files[j] == plan.files[i];
        lemma_stands_in_more(
            found.files[j].vm_path,
            point,
            found.directories,
            point,
            plan.directories,
        );
    }
    assert forall|i: int| 0 <= i < plan.directories.len() implies stands_in(
        #[trigger] plan.directories[i],
        point,
        plan.directories,
    ) by {
        assert(in_order(found.directories).contains(plan.directories[i]));
        let j = choose|j: int|
            0 <= j < found.directories.len() && found.directories[j] == plan.directories[i];
        lemma_stands_in_more(
            found.directories[j],
            point,
            found.directories,
            point,
            plan.directories,
        );
    }
}

} // verus!
