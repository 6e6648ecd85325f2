//! The index directory: the files an index keeps, the operations a commit
//! performs on them, and the order that makes a commit atomic. The
//! manifest names the live segments; a commit writes and syncs the new
//! segment and a temporary manifest first, and publishes by renaming the
//! temporary manifest over the current one.
use vstd::prelude::*;

verus! {

/// A file of the index directory.
#[derive(Debug, PartialEq, Eq, Structural, Clone, Copy)]
pub enum FileName {
    Manifest,
    ManifestTemp,
    Segment(u64),
}

/// One step of a commit.
pub enum FileOp {
    /// Replace a file's contents (creating it).
    Write(FileName, Vec<u64>),
    /// Flush a file to stable storage.
    Sync(FileName),
    /// Atomically move a file over another.
    Rename(FileName, FileName),
}

/// What a step is.
pub ghost enum OpModel {
    Write(FileName, Seq<u64>),
    Sync(FileName),
    Rename(FileName, FileName),
}

impl View for FileOp {
    type V = OpModel;

    open spec fn view(&self) -> OpModel {
        match self {
            FileOp::Write(n, w) => OpModel::Write(*n, w@),
            FileOp::Sync(n) => OpModel::Sync(*n),
            FileOp::Rename(a, b) => OpModel::Rename(*a, *b),
        }
    }
}

/// The models of a sequence of steps.
pub open spec fn op_models(v: Seq<FileOp>) -> Seq<OpModel> {
    v.map_values(|o: FileOp| o@)
}

/// The directory after one completed step.
pub open spec fn apply(dir: Map<FileName, Seq<u64>>, op: OpModel) -> Map<FileName, Seq<u64>> {
    match op {
        OpModel::Write(n, w) => dir.insert(n, w),
        OpModel::Sync(n) => dir,
        OpModel::Rename(a, b) => if dir.contains_key(a) {
            dir.remove(a).insert(b, dir[a])
        } else {
            dir
        },
    }
}

/// The directory after the first `n` steps completed.
pub open spec fn apply_prefix(dir: Map<FileName, Seq<u64>>, ops: Seq<OpModel>, n: int) -> Map<FileName, Seq<u64>>
    decreases n,
{
    if n <= 0 {
        dir
    } else {
        apply(apply_prefix(dir, ops, n - 1), ops[n - 1])
    }
}

/// The directory after a crash: the first `n` steps completed, and step `n`
/// was cut short. A cut-short write leaves any contents in its file; a
/// cut-short rename or sync changes nothing.
pub open spec fn crashed(
    dir: Map<FileName, Seq<u64>>,
    ops: Seq<OpModel>,
    n: int,
    torn: Seq<u64>,
) -> Map<FileName, Seq<u64>> {
    let d = apply_prefix(dir, ops, n);
    match ops[n] {
        OpModel::Write(f, w) => d.insert(f, torn),
        _ => d,
    }
}

/// The steps that commit a new segment and a new manifest.
pub open spec fn commit_ops(segment_id: u64, segment: Seq<u64>, manifest: Seq<u64>) -> Seq<OpModel> {
    seq![
        OpModel::Write(FileName::Segment(segment_id), segment),
        OpModel::Sync(FileName::Segment(segment_id)),
        OpModel::Write(FileName::ManifestTemp, manifest),
        OpModel::Sync(FileName::ManifestTemp),
        OpModel::Rename(FileName::ManifestTemp, FileName::Manifest),
    ]
}

/// The steps that publish a new manifest when no segment was added.
pub open spec fn publish_ops(manifest: Seq<u64>) -> Seq<OpModel> {
    seq![
        OpModel::Write(FileName::ManifestTemp, manifest),
        OpModel::Sync(FileName::ManifestTemp),
        OpModel::Rename(FileName::ManifestTemp, FileName::Manifest),
    ]
}

/// The plan of a commit: write and sync the new segment, if there is one,
/// then the temporary manifest, then rename it over the manifest.
pub fn commit_plan(new_segment: Option<(u64, Vec<u64>)>, manifest: Vec<u64>) -> (r: Vec<FileOp>)
    ensures
        op_models(r@) == match new_segment {
            Some(s) => commit_ops(s.0, s.1@, manifest@),
            None => publish_ops(manifest@),
        },
{
    let ghost m = manifest@;
    let mut r: Vec<FileOp> = Vec::new();
    match new_segment {
        Some((id, words)) => {
            let ghost sw = words@;
            r.push(FileOp::Write(FileName::Segment(id), words));
            r.push(FileOp::Sync(FileName::Segment(id)));
            r.push(FileOp::Write(FileName::ManifestTemp, manifest));
            r.push(FileOp::Sync(FileName::ManifestTemp));
            r.push(FileOp::Rename(FileName::ManifestTemp, FileName::Manifest));
            assert(op_models(r@) =~= commit_ops(id, sw, m));
        },
        None => {
            r.push(FileOp::Write(FileName::ManifestTemp, manifest));
            r.push(FileOp::Sync(FileName::ManifestTemp));
            r.push(FileOp::Rename(FileName::ManifestTemp, FileName::Manifest));
            assert(op_models(r@) =~= publish_ops(m));
        },
    }
    r
}

/// A crash at any step of a commit leaves the manifest, and every segment
/// other than the new one, as they were; once the last step is done the
/// manifest is the new one.
pub proof fn law_commit_is_atomic(
    dir: Map<FileName, Seq<u64>>,
    segment_id: u64,
    segment: Seq<u64>,
    manifest: Seq<u64>,
    n: int,
    torn: Seq<u64>,
)
    requires
        0 <= n < 5,
    ensures
        ({
            let c = crashed(dir, commit_ops(segment_id, segment, manifest), n, torn);
            &&& c.contains_key(FileName::Manifest) == dir.contains_key(FileName::Manifest)
            &&& c[FileName::Manifest] == dir[FileName::Manifest]
            &&& forall|s: u64| s != segment_id ==> (#[trigger] c.contains_key(FileName::Segment(s))
                == dir.contains_key(FileName::Segment(s)) && c[FileName::Segment(s)] == dir[FileName::Segment(s)])
        }),
        ({
            let d = apply_prefix(dir, commit_ops(segment_id, segment, manifest), 5);
            &&& d.contains_key(FileName::Manifest)
            &&& d[FileName::Manifest] == manifest
            &&& d.contains_key(FileName::Segment(segment_id))
            &&& d[FileName::Segment(segment_id)] == segment
            &&& forall|s: u64| s != segment_id ==> (#[trigger] d.contains_key(FileName::Segment(s))
                == dir.contains_key(FileName::Segment(s)) && d[FileName::Segment(s)] == dir[FileName::Segment(s)])
        }),
{
    let ops = commit_ops(segment_id, segment, manifest);
    let d1 = apply_prefix(dir, ops, 1);
    let d2 = apply_prefix(dir, ops, 2);
    let d3 = apply_prefix(dir, ops, 3);
    let d4 = apply_prefix(dir, ops, 4);
    let d5 = apply_prefix(dir, ops, 5);
    assert(apply_prefix(dir, ops, 0) == dir);
    assert(d1 == dir.insert(FileName::Segment(segment_id), segment));
    assert(d2 == d1);
    assert(d3 == d1.insert(FileName::ManifestTemp, manifest));
    assert(d4 == d3);
    assert(d3.contains_key(FileName::ManifestTemp));
    assert(d5 == d3.remove(FileName::ManifestTemp).insert(FileName::Manifest, manifest));
}

/// Publishing a manifest alone is atomic too: a crash leaves the manifest
/// and every segment as they were, and the last step installs the new one.
pub proof fn law_publish_is_atomic(
    dir: Map<FileName, Seq<u64>>,
    manifest: Seq<u64>,
    n: int,
    torn: Seq<u64>,
)
    requires
        0 <= n < 3,
    ensures
        ({
            let c = crashed(dir, publish_ops(manifest), n, torn);
            &&& c.contains_key(FileName::Manifest) == dir.contains_key(FileName::Manifest)
            &&& c[FileName::Manifest] == dir[FileName::Manifest]
            &&& forall|s: u64| (#[trigger] c.contains_key(FileName::Segment(s))
                == dir.contains_key(FileName::Segment(s)) && c[FileName::Segment(s)] == dir[FileName::Segment(s)])
        }),
        ({
            let d = apply_prefix(dir, publish_ops(manifest), 3);
            &&& d.contains_key(FileName::Manifest)
            &&& d[FileName::Manifest] == manifest
            &&& forall|s: u64| (#[trigger] d.contains_key(FileName::Segment(s))
                == dir.contains_key(FileName::Segment(s)) && d[FileName::Segment(s)] == dir[FileName::Segment(s)])
        }),
{
    let ops = publish_ops(manifest);
    let d1 = apply_prefix(dir, ops, 1);
    let d3 = apply_prefix(dir, ops, 3);
    assert(apply_prefix(dir, ops, 0) == dir);
    assert(d1 == dir.insert(FileName::ManifestTemp, manifest));
    assert(apply_prefix(dir, ops, 2) == d1);
    assert(d1.contains_key(FileName::ManifestTemp));
    assert(d3 == d1.remove(FileName::ManifestTemp).insert(FileName::Manifest, manifest));
}

} // verus!
