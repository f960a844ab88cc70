//! The actions on a machine's files.

use vstd::prelude::*;
use vstd::string::*;
use vstd::utf8::encode_utf8;
use crate::json;
use crate::json::{Json, JsonNumber, JsonView, NumberView};
use crate::rivet::base64;
use crate::text;

verus! {

/// The contents of a file. As JSON they are a tagged pair
/// `["$Uint8Array", base64]`.
#[derive(Clone, PartialEq, Eq, Debug)]
pub struct FileBytes(pub Vec<u8>);

impl View for FileBytes {
    type V = Seq<u8>;

    open spec fn view(&self) -> Seq<u8> {
        self.0@
    }
}

/// Why a value holds no file contents.
#[derive(Clone, PartialEq, Eq, Debug)]
pub enum FileBytesError {
    /// It is no array of two texts.
    Shape,
    /// Its tag is another one.
    Tag(String),
    /// The text behind the tag is no Base64, for this reason.
    Base64 { tag: String, reason: String },
}

impl Default for FileBytes {
    fn default() -> (r: Self)
        ensures
            r@.len() == 0,
    {
        FileBytes(Vec::new())
    }
}

/// The JSON form of file contents.
pub open spec fn bytes_json(b: Seq<u8>) -> JsonView {
    JsonView::Array(seq![JsonView::Str("$Uint8Array"@), JsonView::Str(base64::encoded(b))])
}

/// Whether a tag is one of file contents.
pub open spec fn is_bytes_tag(tag: Seq<char>) -> bool {
    tag == "$Uint8Array"@ || tag == "$ArrayBuffer"@
}

/// The file contents that a value holds.
pub open spec fn json_bytes(v: JsonView) -> Option<Seq<u8>> {
    match v {
        JsonView::Array(a) => if a.len() == 2 {
            match (json::str_of(Some(a[0])), json::str_of(Some(a[1]))) {
                (Some(tag), Some(b64)) => if is_bytes_tag(tag) {
                    base64::decoded_bytes(b64)
                } else {
                    None
                },
                _ => None,
            }
        } else {
            None
        },
        _ => None,
    }
}

/// Whether `e` is why a value holds no file contents. The tag is judged before
/// the text, and the text before what stands behind it.
pub open spec fn is_fault(v: JsonView, e: FileBytesError) -> bool {
    match v {
        JsonView::Array(a) => {
            let tag = if a.len() > 0 {
                json::str_of(Some(a[0]))
            } else {
                None
            };
            let b64 = if a.len() > 1 {
                json::str_of(Some(a[1]))
            } else {
                None
            };
            match (tag, b64) {
                (Some(t), _) if !is_bytes_tag(t) => e matches FileBytesError::Tag(x) && x@ == t,
                (Some(t), Some(text)) => match base64::decoded(text) {
                    Err(why) => e matches FileBytesError::Base64 { tag: x, reason } && x@ == t
                        && reason@ == why,
                    Ok(_) => e is Shape,
                },
                _ => e is Shape,
            }
        },
        _ => e is Shape,
    }
}

impl FileBytes {
    /// File contents of these bytes.
    pub fn new(bytes: Vec<u8>) -> (r: Self)
        ensures
            r@ == bytes@,
    {
        FileBytes(bytes)
    }

    /// The bytes.
    pub fn into_inner(self) -> (r: Vec<u8>)
        ensures
            r == self.0,
    {
        self.0
    }

    /// The bytes.
    pub fn as_slice(&self) -> (r: &[u8])
        ensures
            r@ == self@,
    {
        self.0.as_slice()
    }

    /// File contents that hold a text.
    pub fn from_text(s: &str) -> (r: Self)
        ensures
            r@ == encode_utf8(s@),
    {
        FileBytes(s.as_bytes_vec())
    }

    /// The JSON form. It holds the same contents.
    pub fn to_json(&self) -> (r: Json)
        ensures
            r@ == bytes_json(self@),
            json_bytes(r@) == Some(self@),
    {
        let encoded = base64::encode(&self.0);
        let items = json::list2(json::string("$Uint8Array"), Json::Str(encoded));
        Json::Array(items)
    }

    /// The contents that a value holds.
    pub fn from_json(v: &Json) -> (r: Result<Self, FileBytesError>)
        ensures
            match r {
                Ok(b) => json_bytes(v@) == Some(b@),
                Err(e) => json_bytes(v@) is None && is_fault(v@, e),
            },
    {
        match v {
            Json::Array(a) => {
                proof {
                    json::lemma_json_views(a@);
                }
                if a.len() == 0 {
                    return Err(FileBytesError::Shape);
                }
                let tag = match &a[0] {
                    Json::Str(s) => s,
                    _ => {
                        return Err(FileBytesError::Shape);
                    },
                };
                if !text::str_eq(tag.as_str(), "$Uint8Array") && !text::str_eq(
                    tag.as_str(),
                    "$ArrayBuffer",
                ) {
                    return Err(FileBytesError::Tag(tag.clone()));
                }
                if a.len() == 1 {
                    return Err(FileBytesError::Shape);
                }
                match &a[1] {
                    Json::Str(b64) => match base64::decode(b64.as_str()) {
                        Ok(b) => if a.len() == 2 {
                            Ok(FileBytes(b))
                        } else {
                            Err(FileBytesError::Shape)
                        },
                        Err(reason) => Err(FileBytesError::Base64 { tag: tag.clone(), reason }),
                    },
                    _ => Err(FileBytesError::Shape),
                }
            },
            _ => Err(FileBytesError::Shape),
        }
    }
}

/// What kind of file an entry is.
#[derive(Clone, Copy, PartialEq, Eq, Structural, Debug)]
pub enum EntryType {
    File,
    Directory,
    Symlink,
}

/// An entry of a directory.
#[derive(Clone, PartialEq, Eq, Debug)]
pub struct DirEntry {
    /// The path in the machine, from its root.
    pub path: String,
    pub entry_type: EntryType,
    pub size: i64,
}

/// How a directory is walked.
#[derive(Clone, PartialEq, Eq, Debug)]
pub struct ReaddirRecursiveOptions {
    pub max_depth: Option<u32>,
    pub exclude: Option<Vec<String>>,
}

/// A file to write.
#[derive(Clone, PartialEq, Eq, Debug)]
pub struct BatchWriteEntry {
    pub path: String,
    pub content: FileBytes,
}

impl BatchWriteEntry {
    /// The model of the entry.
    pub open spec fn pair(self) -> (Seq<char>, Seq<u8>) {
        (self.path@, self.content@)
    }

    /// A file to write.
    pub fn new(path: String, content: FileBytes) -> (r: Self)
        ensures
            r.path == path,
            r.content == content,
    {
        BatchWriteEntry { path, content }
    }

    /// The JSON form.
    pub fn to_json(&self) -> (r: Json)
        ensures
            r@ == entry_json(self.pair()),
    {
        json::object2("path", Json::Str(self.path.clone()), "content", self.content.to_json())
    }
}

/// The JSON form of a file to write.
pub open spec fn entry_json(e: (Seq<char>, Seq<u8>)) -> JsonView {
    JsonView::Object(seq![("path"@, JsonView::Str(e.0)), ("content"@, bytes_json(e.1))])
}

/// What became of a file to write.
#[derive(Clone, PartialEq, Eq, Debug)]
pub struct BatchWriteResult {
    pub path: String,
    pub success: bool,
    pub error: Option<String>,
}

/// What became of a file to read.
#[derive(Clone, PartialEq, Eq, Debug)]
pub struct BatchReadResult {
    pub path: String,
    pub content: Option<FileBytes>,
    pub error: Option<String>,
}

/// How a directory is made.
#[derive(Clone, Copy, PartialEq, Eq, Structural, Debug)]
pub struct MkdirOptions {
    pub recursive: Option<bool>,
}

/// How a file is deleted.
#[derive(Clone, Copy, PartialEq, Eq, Structural, Debug)]
pub struct DeleteOptions {
    pub recursive: Option<bool>,
}

impl MkdirOptions {
    /// With the directories above.
    pub fn recursive() -> (r: Self)
        ensures
            r.recursive == Some(true),
    {
        MkdirOptions { recursive: Some(true) }
    }

    /// Whether nothing is set.
    pub fn is_empty(&self) -> (r: bool)
        ensures
            r == (self.recursive is None),
    {
        self.recursive.is_none()
    }
}

impl DeleteOptions {
    /// With what is inside.
    pub fn recursive() -> (r: Self)
        ensures
            r.recursive == Some(true),
    {
        DeleteOptions { recursive: Some(true) }
    }

    /// Whether nothing is set.
    pub fn is_empty(&self) -> (r: bool)
        ensures
            r == (self.recursive is None),
    {
        self.recursive.is_none()
    }
}

impl Default for MkdirOptions {
    fn default() -> (r: Self)
        ensures
            r.recursive is None,
    {
        MkdirOptions { recursive: None }
    }
}

impl Default for DeleteOptions {
    fn default() -> (r: Self)
        ensures
            r.recursive is None,
    {
        DeleteOptions { recursive: None }
    }
}

impl Default for ReaddirRecursiveOptions {
    fn default() -> (r: Self)
        ensures
            r.max_depth is None,
            r.exclude is None,
    {
        ReaddirRecursiveOptions { max_depth: None, exclude: None }
    }
}

impl ReaddirRecursiveOptions {
    /// Whether nothing limits the walk.
    pub fn is_empty(&self) -> (r: bool)
        ensures
            r == (self.max_depth is None && (self.exclude is None || self.exclude->0@.len() == 0)),
    {
        self.max_depth.is_none() && match &self.exclude {
            Some(v) => v.len() == 0,
            None => true,
        }
    }
}

/// The texts of an optional list.
pub open spec fn opt_views(o: Option<Vec<String>>) -> Option<Seq<Seq<char>>> {
    match o {
        Some(v) => Some(text::views(v@)),
        None => None,
    }
}

/// The members of the options: those that are set.
pub open spec fn readdir_members(max_depth: Option<u32>, exclude: Option<Seq<Seq<char>>>) -> Seq<
    (Seq<char>, JsonView),
> {
    let depth = match max_depth {
        Some(n) => seq![("maxDepth"@, JsonView::Number(NumberView::Unsigned(n as u64)))],
        None => Seq::empty(),
    };
    match exclude {
        Some(v) => depth.push(("exclude"@, json::string_array(v))),
        None => depth,
    }
}

/// The arguments with which a directory is walked: the options stand behind the
/// path where they limit anything.
pub open spec fn readdir_args(
    path: Seq<char>,
    max_depth: Option<u32>,
    exclude: Option<Seq<Seq<char>>>,
) -> Seq<JsonView> {
    if max_depth is None && (exclude is None || exclude->0.len() == 0) {
        seq![JsonView::Str(path)]
    } else {
        seq![JsonView::Str(path), JsonView::Object(readdir_members(max_depth, exclude))]
    }
}

/// The arguments with which a directory is walked.
pub fn build_readdir_recursive_args(path: &str, options: &ReaddirRecursiveOptions) -> (r: Vec<
    Json,
>)
    ensures
        json::json_views(r@) == readdir_args(
            path@,
            options.max_depth,
            opt_views(options.exclude),
        ),
{
    let mut members: Vec<(String, Json)> = Vec::new();
    match options.max_depth {
        Some(n) => {
            json::put(&mut members, "maxDepth", Json::Number(JsonNumber::Unsigned(n as u64)));
        },
        None => {},
    }
    match &options.exclude {
        Some(v) => {
            json::put(&mut members, "exclude", json::strings(v));
        },
        None => {},
    }
    proof {
        assert(json::member_views(members@) =~= readdir_members(
            options.max_depth,
            opt_views(options.exclude),
        ));
    }
    if options.is_empty() {
        json::list1(json::string(path))
    } else {
        json::list2(json::string(path), Json::Object(members))
    }
}

/// The arguments of an action on a path with an optional flag.
pub open spec fn flag_args(path: Seq<char>, name: Seq<char>, flag: Option<bool>) -> Seq<JsonView> {
    match flag {
        None => seq![JsonView::Str(path)],
        Some(b) => seq![
            JsonView::Str(path),
            JsonView::Object(seq![(name, JsonView::Bool(b))]),
        ],
    }
}

/// The arguments of an action on a path with an optional flag.
pub fn build_flag_args(path: &str, name: &str, flag: Option<bool>) -> (r: Vec<Json>)
    ensures
        json::json_views(r@) == flag_args(path@, name@, flag),
{
    match flag {
        None => json::list1(json::string(path)),
        Some(b) => json::list2(json::string(path), json::object1(name, Json::Bool(b))),
    }
}

/// The arguments with which a directory is made.
pub fn build_mkdir_args(path: &str, options: &MkdirOptions) -> (r: Vec<Json>)
    ensures
        json::json_views(r@) == flag_args(path@, "recursive"@, options.recursive),
{
    build_flag_args(path, "recursive", options.recursive)
}

/// The arguments with which a file is deleted.
pub fn build_delete_args(path: &str, options: &DeleteOptions) -> (r: Vec<Json>)
    ensures
        json::json_views(r@) == flag_args(path@, "recursive"@, options.recursive),
{
    build_flag_args(path, "recursive", options.recursive)
}

/// The arguments with which a file is written.
pub fn build_write_args(path: &str, content: &FileBytes) -> (r: Vec<Json>)
    ensures
        json::json_views(r@) == seq![JsonView::Str(path@), bytes_json(content@)],
{
    json::list2(json::string(path), content.to_json())
}

/// The arguments with which several files are read.
pub fn build_read_files_args(paths: &Vec<String>) -> (r: Vec<Json>)
    ensures
        json::json_views(r@) == seq![json::string_array(text::views(paths@))],
{
    json::list1(json::strings(paths))
}

/// The models of files to write.
pub open spec fn entry_pairs(e: Seq<BatchWriteEntry>) -> Seq<(Seq<char>, Seq<u8>)> {
    Seq::new(e.len(), |i: int| e[i].pair())
}

/// The JSON form of files to write.
pub open spec fn entries_json(e: Seq<(Seq<char>, Seq<u8>)>) -> JsonView {
    JsonView::Array(Seq::new(e.len(), |i: int| entry_json(e[i])))
}

/// The arguments with which several files are written.
pub fn build_write_files_args(entries: &Vec<BatchWriteEntry>) -> (r: Vec<Json>)
    ensures
        json::json_views(r@) == seq![entries_json(entry_pairs(entries@))],
{
    let mut a: Vec<Json> = Vec::new();
    let ghost pairs = entry_pairs(entries@);
    let mut i: usize = 0;
    while i < entries.len()
        invariant
            i <= entries@.len(),
            pairs == entry_pairs(entries@),
            json::json_views(a@) == Seq::new(i as nat, |j: int| entry_json(pairs[j])),
        decreases entries@.len() - i,
    {
        json::append(&mut a, entries[i].to_json());
        i += 1;
        proof {
            assert(json::json_views(a@) =~= Seq::new(i as nat, |j: int| entry_json(pairs[j])));
        }
    }
    json::list1(Json::Array(a))
}

/// The arguments with which a path is moved.
pub fn build_move_args(from: &str, to: &str) -> (r: Vec<Json>)
    ensures
        json::json_views(r@) == seq![JsonView::Str(from@), JsonView::Str(to@)],
{
    json::list2(json::string(from), json::string(to))
}

} // verus!
