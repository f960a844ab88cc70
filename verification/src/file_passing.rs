//! Hand-over of artifacts from the stages that make them to those that use
//! them.

use vstd::prelude::*;
use vstd::string::*;
use crate::pipeline::StageId;
use crate::text;
use crate::time::{utc_now, Timestamp};

verus! {

/// Where artifacts are handed over inside a virtual machine.
pub const HANDOFF_DIR: &'static str = "/handoff";

/// The part of the hand-over directory that a stage fills.
pub const OUTPUT_SUBDIR: &'static str = "output";

/// The part of the hand-over directory that a stage reads.
pub const INPUT_SUBDIR: &'static str = "input";

/// The name of an artifact.
#[derive(PartialEq, Eq, PartialOrd, Ord, Hash, Debug)]
pub struct ArtifactId(pub String);

impl View for ArtifactId {
    type V = Seq<char>;

    open spec fn view(&self) -> Seq<char> {
        self.0@
    }
}

impl Clone for ArtifactId {
    fn clone(&self) -> (r: Self)
        ensures
            r == *self,
    {
        ArtifactId(self.0.clone())
    }
}

impl ArtifactId {
    /// The artifact name `id`.
    pub fn new(id: &str) -> (r: Self)
        ensures
            r@ == id@,
    {
        ArtifactId(id.to_owned())
    }

    /// The name as text.
    pub fn as_str(&self) -> (r: &str)
        ensures
            r@ == self@,
    {
        self.0.as_str()
    }

    /// Whether both name the same artifact.
    pub fn same(&self, other: &ArtifactId) -> (r: bool)
        ensures
            r == (self@ == other@),
    {
        text::str_eq(self.0.as_str(), other.0.as_str())
    }
}

/// What an artifact is.
#[derive(Clone, Copy, PartialEq, Eq, Structural, Debug)]
pub enum ArtifactKind {
    File,
    Directory,
}

/// Something that a stage leaves for others.
#[derive(Clone, PartialEq, Eq, Debug)]
pub struct Artifact {
    pub id: ArtifactId,
    pub kind: ArtifactKind,
    pub path: String,
    pub producer: StageId,
    pub size_bytes: Option<u64>,
    pub content_hash: Option<String>,
    pub created_at: Timestamp,
}

/// The path at which a stage leaves what it makes.
pub open spec fn output_path(path: Seq<char>) -> Seq<char> {
    HANDOFF_DIR@ + "/"@ + OUTPUT_SUBDIR@ + "/"@ + path
}

/// The path at which a stage finds what `source` made.
pub open spec fn input_path(source: Seq<char>, path: Seq<char>) -> Seq<char> {
    HANDOFF_DIR@ + "/"@ + INPUT_SUBDIR@ + "/"@ + source + "/"@ + path
}

impl Artifact {
    /// A file made by `producer` now.
    pub fn file(id: &str, path: &str, producer: &str) -> (r: Self)
        ensures
            r.id@ == id@,
            r.kind == ArtifactKind::File,
            r.path@ == path@,
            r.producer@ == producer@,
            r.size_bytes is None,
            r.content_hash is None,
    {
        Artifact {
            id: ArtifactId::new(id),
            kind: ArtifactKind::File,
            path: path.to_owned(),
            producer: StageId::new(producer),
            size_bytes: None,
            content_hash: None,
            created_at: utc_now(),
        }
    }

    /// A directory made by `producer` now.
    pub fn directory(id: &str, path: &str, producer: &str) -> (r: Self)
        ensures
            r.id@ == id@,
            r.kind == ArtifactKind::Directory,
            r.path@ == path@,
            r.producer@ == producer@,
            r.size_bytes is None,
            r.content_hash is None,
    {
        Artifact {
            id: ArtifactId::new(id),
            kind: ArtifactKind::Directory,
            path: path.to_owned(),
            producer: StageId::new(producer),
            size_bytes: None,
            content_hash: None,
            created_at: utc_now(),
        }
    }

    /// The artifact with a known size.
    pub fn with_size(self, size: u64) -> (r: Self)
        ensures
            r == (Artifact { size_bytes: Some(size), ..self }),
    {
        Artifact { size_bytes: Some(size), ..self }
    }

    /// The artifact with a known hash of its content.
    pub fn with_hash(self, hash: &str) -> (r: Self)
        ensures
            r.content_hash matches Some(h) && h@ == hash@,
            r == (Artifact { content_hash: r.content_hash, ..self }),
    {
        Artifact { content_hash: Some(hash.to_owned()), ..self }
    }

    /// The path at which its stage leaves the artifact.
    pub fn vm_output_path(&self) -> (r: String)
        ensures
            r@ == output_path(self.path@),
    {
        let mut s = text::concat4(HANDOFF_DIR, "/", OUTPUT_SUBDIR, "/");
        s.append(self.path.as_str());
        s
    }
}

/// A use of an artifact.
#[derive(Clone, PartialEq, Eq, Debug)]
pub struct ArtifactRef {
    pub artifact_id: ArtifactId,
    pub source_stage: StageId,
}

/// What a stage makes and uses.
#[derive(Clone, PartialEq, Eq, Debug)]
pub struct StageManifest {
    pub stage_id: StageId,
    pub produces: Vec<Artifact>,
    pub consumes: Vec<ArtifactRef>,
}

impl StageManifest {
    /// A manifest that lists nothing.
    pub fn new(stage_id: &str) -> (r: Self)
        ensures
            r.stage_id@ == stage_id@,
            r.produces@.len() == 0,
            r.consumes@.len() == 0,
    {
        StageManifest {
            stage_id: StageId::new(stage_id),
            produces: Vec::new(),
            consumes: Vec::new(),
        }
    }

    /// The manifest with one more artifact made.
    pub fn produce(self, artifact: Artifact) -> (r: Self)
        ensures
            r.produces@ == self.produces@.push(artifact),
            r == (StageManifest { produces: r.produces, ..self }),
    {
        let mut m = self;
        m.produces.push(artifact);
        m
    }

    /// The manifest with one more artifact used.
    pub fn consume(self, artifact_id: &str, source_stage: &str) -> (r: Self)
        ensures
            r.consumes@.len() == self.consumes@.len() + 1,
            r.consumes@.drop_last() == self.consumes@,
            r.consumes@.last().artifact_id@ == artifact_id@,
            r.consumes@.last().source_stage@ == source_stage@,
            r == (StageManifest { consumes: r.consumes, ..self }),
    {
        let mut m = self;
        let item = ArtifactRef {
            artifact_id: ArtifactId::new(artifact_id),
            source_stage: StageId::new(source_stage),
        };
        m.consumes.push(item);
        proof {
            assert(m.consumes@.drop_last() =~= self.consumes@);
        }
        m
    }
}

/// Why artifacts cannot be handed over.
#[derive(Clone, PartialEq, Eq, Debug)]
pub enum FilePassingError {
    ArtifactNotFound { artifact_id: ArtifactId, source_stage: StageId },
    ProducerMismatch { artifact_id: ArtifactId, expected: StageId, actual: StageId },
    DuplicateArtifact(ArtifactId),
}

impl FilePassingError {
    /// The message of the error.
    pub fn message(&self) -> (r: String)
        ensures
            r@ == (match *self {
                FilePassingError::ArtifactNotFound { artifact_id, source_stage } => "artifact "@
                    + artifact_id@ + " not found from stage "@ + source_stage@,
                FilePassingError::ProducerMismatch {
                    artifact_id,
                    expected,
                    actual,
                } => "artifact "@ + artifact_id@ + " expected from "@ + expected@
                    + " but produced by "@ + actual@,
                FilePassingError::DuplicateArtifact(id) => "duplicate artifact id: "@ + id@,
            }),
    {
        match self {
            FilePassingError::ArtifactNotFound { artifact_id, source_stage } => text::concat4(
                "artifact ",
                artifact_id.as_str(),
                " not found from stage ",
                source_stage.as_str(),
            ),
            FilePassingError::ProducerMismatch { artifact_id, expected, actual } => {
                let mut s = text::concat4(
                    "artifact ",
                    artifact_id.as_str(),
                    " expected from ",
                    expected.as_str(),
                );
                s.append(" but produced by ");
                s.append(actual.as_str());
                s
            },
            FilePassingError::DuplicateArtifact(id) => text::concat2(
                "duplicate artifact id: ",
                id.as_str(),
            ),
        }
    }
}

/// One artifact to copy from a stage to another.
#[derive(Clone, PartialEq, Eq, Debug)]
pub struct TransferEntry {
    pub artifact_id: ArtifactId,
    pub source_stage: StageId,
    pub target_stage: StageId,
    pub source_vm_path: String,
    pub target_vm_path: String,
    pub kind: ArtifactKind,
}

/// The artifacts to copy.
#[derive(Clone, Debug)]
pub struct TransferPlan {
    pub transfers: Vec<TransferEntry>,
}

impl Default for TransferPlan {
    fn default() -> (r: Self)
        ensures
            r.transfers@.len() == 0,
    {
        TransferPlan { transfers: Vec::new() }
    }
}

impl TransferPlan {
    /// Whether there is nothing to copy.
    pub fn is_empty(&self) -> (r: bool)
        ensures
            r == (self.transfers@.len() == 0),
    {
        self.transfers.len() == 0
    }

    /// The number of artifacts to copy.
    pub fn len(&self) -> (r: usize)
        ensures
            r == self.transfers@.len(),
    {
        self.transfers.len()
    }
}

/// The artifacts that the first `n` manifests make, each with its stage.
pub open spec fn made(manifests: Seq<StageManifest>, n: int) -> Seq<(Artifact, StageId)>
    decreases n,
{
    if n <= 0 {
        Seq::empty()
    } else {
        let m = manifests[n - 1];
        made(manifests, n - 1) + m.produces@.map_values(|a: Artifact| (a, m.stage_id))
    }
}

/// The uses that the first `n` manifests list, each with its stage.
pub open spec fn used(manifests: Seq<StageManifest>, n: int) -> Seq<(ArtifactRef, StageId)>
    decreases n,
{
    if n <= 0 {
        Seq::empty()
    } else {
        let m = manifests[n - 1];
        used(manifests, n - 1) + m.consumes@.map_values(|c: ArtifactRef| (c, m.stage_id))
    }
}

/// Whether another stage made an artifact with the name of entry `i` before.
pub open spec fn conflicts(list: Seq<(Artifact, StageId)>, i: int) -> bool {
    exists|j: int|
        0 <= j < i && (#[trigger] list[j]).0.id@ == list[i].0.id@ && list[j].1@ != list[i].1@
}

/// The first entry from `from` on that conflicts with an earlier one, or the
/// number of entries.
pub open spec fn first_conflict(list: Seq<(Artifact, StageId)>, from: int) -> int
    decreases list.len() - from,
{
    if from >= list.len() {
        list.len() as int
    } else if conflicts(list, from) {
        from
    } else {
        first_conflict(list, from + 1)
    }
}

/// The last of the first `n` entries that is the artifact `id` of `stage`.
pub open spec fn latest(
    list: Seq<(Artifact, StageId)>,
    id: Seq<char>,
    stage: Seq<char>,
    n: int,
) -> Option<Artifact>
    decreases n,
{
    if n <= 0 {
        None
    } else if list[n - 1].0.id@ == id && list[n - 1].1@ == stage {
        Some(list[n - 1].0)
    } else {
        latest(list, id, stage, n - 1)
    }
}

/// Whether `t` copies the artifact `found`, and there is one, for the use `c` by
/// the stage `target`.
pub open spec fn is_transfer(
    t: TransferEntry,
    found: Option<Artifact>,
    c: ArtifactRef,
    target: StageId,
) -> bool {
    let a = found->0;
    &&& found is Some
    &&& t.artifact_id == c.artifact_id
    &&& t.source_stage == c.source_stage
    &&& t.target_stage == target
    &&& t.source_vm_path@ == output_path(a.path@)
    &&& t.target_vm_path@ == input_path(c.source_stage@, a.path@)
    &&& t.kind == a.kind
}

/// The artifact that the use `c` gets: the last one that the named stage made
/// under that name and is recorded as the producer of.
pub open spec fn served(list: Seq<(Artifact, StageId)>, c: ArtifactRef) -> Option<Artifact> {
    match latest(list, c.artifact_id@, c.source_stage@, list.len() as int) {
        Some(a) => if a.producer@ == c.source_stage@ {
            Some(a)
        } else {
            None
        },
        None => None,
    }
}

/// The first use from `from` on that gets no artifact, or the number of uses.
pub open spec fn first_unserved(
    list: Seq<(Artifact, StageId)>,
    uses: Seq<(ArtifactRef, StageId)>,
    from: int,
) -> int
    decreases uses.len() - from,
{
    if from >= uses.len() {
        uses.len() as int
    } else if served(list, uses[from].0) is None {
        from
    } else {
        first_unserved(list, uses, from + 1)
    }
}

/// What [`plan_transfers`] returns for these manifests: the first name made
/// by two stages is an error; else the first use without an artifact is; else
/// each use is served, in order.
pub open spec fn transfers_planned(
    manifests: Seq<StageManifest>,
    r: Result<TransferPlan, FilePassingError>,
) -> bool {
    let list = made(manifests, manifests.len() as int);
    let uses = used(manifests, manifests.len() as int);
    let dup = first_conflict(list, 0);
    let bad = first_unserved(list, uses, 0);
    if dup < list.len() {
        r == Err::<TransferPlan, FilePassingError>(
            FilePassingError::DuplicateArtifact(list[dup].0.id),
        )
    } else if bad < uses.len() {
        let c = uses[bad].0;
        match latest(list, c.artifact_id@, c.source_stage@, list.len() as int) {
            None => r == Err::<TransferPlan, FilePassingError>(
                FilePassingError::ArtifactNotFound {
                    artifact_id: c.artifact_id,
                    source_stage: c.source_stage,
                },
            ),
            Some(a) => r == Err::<TransferPlan, FilePassingError>(
                FilePassingError::ProducerMismatch {
                    artifact_id: c.artifact_id,
                    expected: c.source_stage,
                    actual: a.producer,
                },
            ),
        }
    } else {
        &&& r is Ok
        &&& r->Ok_0.transfers@.len() == uses.len()
        &&& forall|i: int|
            0 <= i < uses.len() ==> is_transfer(
                #[trigger] r->Ok_0.transfers@[i],
                served(list, uses[i].0),
                uses[i].0,
                uses[i].1,
            )
    }
}

/// The values that a list of references stands for.
spec fn made_views(v: Seq<(&Artifact, &StageId)>) -> Seq<(Artifact, StageId)> {
    v.map_values(|p: (&Artifact, &StageId)| (*p.0, *p.1))
}

spec fn used_views(v: Seq<(&ArtifactRef, &StageId)>) -> Seq<(ArtifactRef, StageId)> {
    v.map_values(|p: (&ArtifactRef, &StageId)| (*p.0, *p.1))
}

/// All artifacts that the manifests make, each with its stage.
fn list_made<'a>(manifests: &'a [StageManifest]) -> (r: Vec<(&'a Artifact, &'a StageId)>)
    ensures
        made_views(r@) == made(manifests@, manifests@.len() as int),
{
    let mut out: Vec<(&'a Artifact, &'a StageId)> = Vec::new();
    let mut i: usize = 0;
    proof {
        assert(made_views(out@) =~= Seq::empty());
    }
    while i < manifests.len()
        invariant
            i <= manifests@.len(),
            made_views(out@) == made(manifests@, i as int),
        decreases manifests@.len() - i,
    {
        let m = &manifests[i];
        let ghost all = m.produces@.map_values(|a: Artifact| (a, m.stage_id));
        let ghost before = made_views(out@);
        let mut j: usize = 0;
        proof {
            assert(before + all.take(0) =~= before);
        }
        while j < m.produces.len()
            invariant
                j <= m.produces@.len(),
                all == m.produces@.map_values(|a: Artifact| (a, m.stage_id)),
                made_views(out@) == before + all.take(j as int),
            decreases m.produces@.len() - j,
        {
            let item = (&m.produces[j], &m.stage_id);
            proof {
                assert(made_views(out@.push(item)) =~= made_views(out@).push(all[j as int]));
                assert(all.take(j as int + 1) =~= all.take(j as int).push(all[j as int]));
                assert(before + all.take(j as int + 1) =~= (before + all.take(j as int)).push(
                    all[j as int],
                ));
            }
            out.push(item);
            j += 1;
        }
        proof {
            assert(all.take(all.len() as int) =~= all);
        }
        i += 1;
    }
    out
}

/// All uses that the manifests list, each with its stage.
fn list_used<'a>(manifests: &'a [StageManifest]) -> (r: Vec<(&'a ArtifactRef, &'a StageId)>)
    ensures
        used_views(r@) == used(manifests@, manifests@.len() as int),
{
    let mut out: Vec<(&'a ArtifactRef, &'a StageId)> = Vec::new();
    let mut i: usize = 0;
    proof {
        assert(used_views(out@) =~= Seq::empty());
    }
    while i < manifests.len()
        invariant
            i <= manifests@.len(),
            used_views(out@) == used(manifests@, i as int),
        decreases manifests@.len() - i,
    {
        let m = &manifests[i];
        let ghost all = m.consumes@.map_values(|c: ArtifactRef| (c, m.stage_id));
        let ghost before = used_views(out@);
        let mut j: usize = 0;
        proof {
            assert(before + all.take(0) =~= before);
        }
        while j < m.consumes.len()
            invariant
                j <= m.consumes@.len(),
                all == m.consumes@.map_values(|c: ArtifactRef| (c, m.stage_id)),
                used_views(out@) == before + all.take(j as int),
            decreases m.consumes@.len() - j,
        {
            let item = (&m.consumes[j], &m.stage_id);
            proof {
                assert(used_views(out@.push(item)) =~= used_views(out@).push(all[j as int]));
                assert(all.take(j as int + 1) =~= all.take(j as int).push(all[j as int]));
                assert(before + all.take(j as int + 1) =~= (before + all.take(j as int)).push(
                    all[j as int],
                ));
            }
            out.push(item);
            j += 1;
        }
        proof {
            assert(all.take(all.len() as int) =~= all);
        }
        i += 1;
    }
    out
}

/// The last artifact `id` that `stage` made.
fn find_latest<'a>(list: &Vec<(&'a Artifact, &'a StageId)>, id: &ArtifactId, stage: &StageId) -> (r:
    Option<&'a Artifact>)
    ensures
        match r {
            Some(a) => latest(made_views(list@), id@, stage@, list@.len() as int) == Some(*a),
            None => latest(made_views(list@), id@, stage@, list@.len() as int) is None,
        },
{
    let mut n: usize = list.len();
    let ghost lv = made_views(list@);
    while n > 0
        invariant
            n <= list@.len(),
            lv == made_views(list@),
            latest(lv, id@, stage@, n as int) == latest(lv, id@, stage@, list@.len() as int),
        decreases n,
    {
        let entry = list[n - 1];
        proof {
            assert(lv[n - 1] == (*entry.0, *entry.1));
        }
        if entry.0.id.same(id) && entry.1.same(stage) {
            return Some(entry.0);
        }
        n -= 1;
    }
    None
}

/// Plans which artifacts to copy between stages: every use gets the artifact
/// that its source stage made under that name.
pub fn plan_transfers(manifests: &[StageManifest]) -> (r: Result<TransferPlan, FilePassingError>)
    ensures
        transfers_planned(manifests@, r),
{
    let list = list_made(manifests);
    let uses = list_used(manifests);
    let ghost lv = made_views(list@);
    let ghost uv = used_views(uses@);
    let mut i: usize = 0;
    while i < list.len()
        invariant
            i <= list@.len(),
            lv == made_views(list@),
            lv == made(manifests@, manifests@.len() as int),
            first_conflict(lv, 0) == first_conflict(lv, i as int),
        decreases list@.len() - i,
    {
        let mut j: usize = 0;
        while j < i
            invariant
                j <= i < list@.len(),
                lv == made_views(list@),
                lv == made(manifests@, manifests@.len() as int),
                first_conflict(lv, 0) == first_conflict(lv, i as int),
                forall|k: int|
                    0 <= k < j ==> !((#[trigger] lv[k]).0.id@ == lv[i as int].0.id@ && lv[k].1@
                        != lv[i as int].1@),
            decreases i - j,
        {
            proof {
                assert(lv[i as int] == (*list@[i as int].0, *list@[i as int].1));
                assert(lv[j as int] == (*list@[j as int].0, *list@[j as int].1));
            }
            if list[j].0.id.same(&list[i].0.id) && !list[j].1.same(list[i].1) {
                proof {
                    assert(conflicts(lv, i as int));
                }
                return Err(FilePassingError::DuplicateArtifact(list[i].0.id.clone()));
            }
            j += 1;
        }
        proof {
            assert(!conflicts(lv, i as int));
        }
        i += 1;
    }
    let mut transfers: Vec<TransferEntry> = Vec::new();
    i = 0;
    while i < uses.len()
        invariant
            i <= uses@.len(),
            lv == made_views(list@),
            uv == used_views(uses@),
            lv == made(manifests@, manifests@.len() as int),
            uv == used(manifests@, manifests@.len() as int),
            first_conflict(lv, 0) == lv.len(),
            first_unserved(lv, uv, 0) == first_unserved(lv, uv, i as int),
            transfers@.len() == i,
            forall|k: int|
                0 <= k < i ==> is_transfer(
                    #[trigger] transfers@[k],
                    served(lv, uv[k].0),
                    uv[k].0,
                    uv[k].1,
                ),
        decreases uses@.len() - i,
    {
        let consume = uses[i].0;
        let target = uses[i].1;
        proof {
            assert(uv[i as int] == (*consume, *target));
        }
        match find_latest(&list, &consume.artifact_id, &consume.source_stage) {
            None => {
                return Err(
                    FilePassingError::ArtifactNotFound {
                        artifact_id: consume.artifact_id.clone(),
                        source_stage: consume.source_stage.clone(),
                    },
                );
            },
            Some(artifact) => {
                if !artifact.producer.same(&consume.source_stage) {
                    return Err(
                        FilePassingError::ProducerMismatch {
                            artifact_id: consume.artifact_id.clone(),
                            expected: consume.source_stage.clone(),
                            actual: artifact.producer.clone(),
                        },
                    );
                }
                let target_vm_path = vm_input_file(
                    target,
                    &consume.source_stage,
                    artifact.path.as_str(),
                );
                transfers.push(
                    TransferEntry {
                        artifact_id: consume.artifact_id.clone(),
                        source_stage: consume.source_stage.clone(),
                        target_stage: target.clone(),
                        source_vm_path: artifact.vm_output_path(),
                        target_vm_path,
                        kind: artifact.kind,
                    },
                );
            },
        }
        i += 1;
    }
    Ok(TransferPlan { transfers })
}

/// The directory in which a stage leaves what it makes.
pub fn vm_output_dir(_stage_id: &StageId) -> (r: String)
    ensures
        r@ == HANDOFF_DIR@ + "/"@ + OUTPUT_SUBDIR@,
{
    text::concat3(HANDOFF_DIR, "/", OUTPUT_SUBDIR)
}

/// The directory in which a stage finds what `source_stage` made.
pub fn vm_input_dir(_stage_id: &StageId, source_stage: &StageId) -> (r: String)
    ensures
        r@ == HANDOFF_DIR@ + "/"@ + INPUT_SUBDIR@ + "/"@ + source_stage@,
{
    text::concat5(HANDOFF_DIR, "/", INPUT_SUBDIR, "/", source_stage.as_str())
}

/// The path at which a stage finds a file that `source_stage` made.
pub fn vm_input_file(_stage_id: &StageId, source_stage: &StageId, relative_path: &str) -> (r: String)
    ensures
        r@ == input_path(source_stage@, relative_path@),
{
    let mut s = text::concat5(HANDOFF_DIR, "/", INPUT_SUBDIR, "/", source_stage.as_str());
    s.append("/");
    s.append(relative_path);
    s
}

/// Every planned transfer copies from the output directory of its source into
/// the input directory named after that source.
pub proof fn law_transfers_match_paths(
    manifests: Seq<StageManifest>,
    plan: TransferPlan,
    i: int,
)
    requires
        transfers_planned(manifests, Ok(plan)),
        0 <= i < plan.transfers@.len(),
    ensures
        exists|path: Seq<char>|
            plan.transfers@[i].source_vm_path@ == #[trigger] output_path(path)
                && plan.transfers@[i].target_vm_path@ == input_path(
                plan.transfers@[i].source_stage@,
                path,
            ),
{
    let list = made(manifests, manifests.len() as int);
    let uses = used(manifests, manifests.len() as int);
    let a = served(list, uses[i].0)->0;
    assert(is_transfer(plan.transfers@[i], Some(a), uses[i].0, uses[i].1));
    assert(plan.transfers@[i].source_vm_path@ == output_path(a.path@));
}

} // verus!
