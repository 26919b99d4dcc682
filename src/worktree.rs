//! What the working tree says against the index: status, staging, and commits.
use vstd::prelude::*;
use vstd::pervasive::VecAdditionalExecFns;
use crate::branch::{branch_index, Branch, Refs};
use crate::builder::build_tree;
use crate::clock::unix_now;
use crate::commit::{commit_bytes, CommitEntry};
use crate::encoding::bytes_equal;
use crate::error::VitError;
use crate::checkout::{entry_index, find_index_entry};
use crate::index::{FileStatus, FileTimes, IndexEntry};
use crate::object::{hash_object, object_id, store_object, stored, ObjectKind, ObjectStore};

verus! {

/// A file on disk: its path, its times and its content.
#[derive(Debug)]
pub struct WorkFile {
    pub path: String,
    pub times: FileTimes,
    pub content: Vec<u8>,
}

/// One line of a status report.
#[derive(Debug)]
pub enum StatusLine {
    /// A change recorded in the index, to be committed.
    Staged { path: String, status: FileStatus },
    /// A change on disk that the index has not recorded.
    Unstaged { path: String, status: FileStatus },
    /// A file that the index does not track.
    Untracked { path: String },
}

/// What a status line holds: 0 staged, 1 unstaged, 2 untracked; the path; the status.
pub type LineView = (u8, Seq<char>, FileStatus);

impl View for StatusLine {
    type V = LineView;

    open spec fn view(&self) -> LineView {
        match self {
            StatusLine::Staged { path, status } => (0u8, path@, *status),
            StatusLine::Unstaged { path, status } => (1u8, path@, *status),
            StatusLine::Untracked { path } => (2u8, path@, FileStatus::New),
        }
    }
}

/// The status line of a file on disk, if it has one: untracked where the index lacks
/// it; modified and unstaged where its time and content changed; otherwise the change
/// that the index has recorded, if any.
#[verifier::opaque]
pub open spec fn disk_line(index: Seq<IndexEntry>, path: Seq<char>, mtime: u32, content: Seq<u8>) -> Option<LineView> {
    match entry_index(index, path) {
        None => Some((2u8, path, FileStatus::New)),
        Some(i) => {
            let e = index[i];
            if e.mtime_secs != mtime {
                if e.sha256@ != object_id(ObjectKind::Blob, content) {
                    Some((1u8, path, FileStatus::Modified))
                } else {
                    None
                }
            } else if e.status == FileStatus::Unchanged {
                None
            } else {
                Some((0u8, path, e.status))
            }
        },
    }
}

/// The status line of a tracked path that is gone from disk.
pub open spec fn gone_line(e: IndexEntry) -> LineView {
    if e.status == FileStatus::Deleted {
        (0u8, e.path@, FileStatus::Deleted)
    } else {
        (1u8, e.path@, FileStatus::Deleted)
    }
}

/// The status lines of the first `n` files.
pub open spec fn disk_lines(index: Seq<IndexEntry>, files: Seq<WorkFile>, n: nat) -> Seq<LineView>
    decreases n,
{
    if n == 0 {
        Seq::empty()
    } else {
        let prev = disk_lines(index, files, (n - 1) as nat);
        let f = files[n - 1];
        match disk_line(index, f.path@, f.times.mtime_secs, f.content@) {
            Some(l) => prev.push(l),
            None => prev,
        }
    }
}

/// Whether a path is among the files on disk.
pub open spec fn on_disk(files: Seq<WorkFile>, path: Seq<char>) -> bool {
    exists|i: int| 0 <= i < files.len() && files[i].path@ == path
}

/// The status lines of the first `n` index entries whose paths are gone from disk.
pub open spec fn gone_lines(index: Seq<IndexEntry>, files: Seq<WorkFile>, n: nat) -> Seq<LineView>
    decreases n,
{
    if n == 0 {
        Seq::empty()
    } else {
        let prev = gone_lines(index, files, (n - 1) as nat);
        let e = index[n - 1];
        if on_disk(files, e.path@) {
            prev
        } else {
            prev.push(gone_line(e))
        }
    }
}

fn present(files: &Vec<WorkFile>, path: &String) -> (r: bool)
    ensures
        r == on_disk(files@, path@),
{
    let mut i: usize = 0;
    while i < files.len()
        invariant
            0 <= i <= files@.len(),
            forall|j: int| 0 <= j < i ==> files@[j].path@ != path@,
        decreases files@.len() - i,
    {
        if files[i].path == *path {
            return true;
        }
        i = i + 1;
    }
    false
}

/// The views of status lines.
pub open spec fn line_views(ls: Seq<StatusLine>) -> Seq<LineView> {
    ls.map_values(|l: StatusLine| l@)
}

fn file_line(index: &Vec<IndexEntry>, f: &WorkFile) -> (r: Option<StatusLine>)
    ensures
        r matches Some(l) ==> disk_line(index@, f.path@, f.times.mtime_secs, f.content@) == Some(l@),
        r is None ==> disk_line(index@, f.path@, f.times.mtime_secs, f.content@) is None,
{
    reveal(disk_line);
    match find_index_entry(index, &f.path) {
        None => Some(StatusLine::Untracked { path: f.path.clone() }),
        Some(k) => {
            let e = &index[k];
            if e.mtime_secs != f.times.mtime_secs {
                let h = hash_object(ObjectKind::Blob, f.content.as_slice());
                if !bytes_equal(h.as_slice(), e.sha256.as_slice()) {
                    Some(StatusLine::Unstaged { path: f.path.clone(), status: FileStatus::Modified })
                } else {
                    None
                }
            } else if e.status != FileStatus::Unchanged {
                Some(StatusLine::Staged { path: f.path.clone(), status: e.status })
            } else {
                None
            }
        },
    }
}

fn gone_line_of(e: &IndexEntry) -> (r: StatusLine)
    ensures
        r@ == gone_line(*e),
{
    if e.status == FileStatus::Deleted {
        StatusLine::Staged { path: e.path.clone(), status: FileStatus::Deleted }
    } else {
        StatusLine::Unstaged { path: e.path.clone(), status: FileStatus::Deleted }
    }
}

fn gone_status(index: &Vec<IndexEntry>, files: &Vec<WorkFile>, out: &mut Vec<StatusLine>)
    ensures
        line_views(final(out)@) == line_views(old(out)@) + gone_lines(index@, files@, index@.len() as nat),
{
    let ghost first = line_views(out@);
    assert(first + gone_lines(index@, files@, 0) =~= first);
    let mut j: usize = 0;
    while j < index.len()
        invariant
            0 <= j <= index@.len(),
            first == line_views(old(out)@),
            line_views(out@) == first + gone_lines(index@, files@, j as nat),
        decreases index@.len() - j,
    {
        let ghost before = out@;
        if !present(files, &index[j].path) {
            out.push(gone_line_of(&index[j]));
            assert(line_views(out@) =~= line_views(before).push(gone_line(index@[j as int])));
        }
        assert(line_views(out@) =~= first + gone_lines(index@, files@, (j + 1) as nat));
        j = j + 1;
    }
}

/// The status of the working tree: a line for each file on disk that is untracked
/// or changed, in order, then a line for each tracked path gone from disk.
pub fn status(index: &Vec<IndexEntry>, files: &Vec<WorkFile>) -> (r: Vec<StatusLine>)
    ensures
        line_views(r@) == disk_lines(index@, files@, files@.len() as nat) + gone_lines(
            index@,
            files@,
            index@.len() as nat,
        ),
{
    let mut out: Vec<StatusLine> = Vec::new();
    let mut i: usize = 0;
    assert(line_views(out@) =~= disk_lines(index@, files@, 0));
    while i < files.len()
        invariant
            0 <= i <= files@.len(),
            line_views(out@) == disk_lines(index@, files@, i as nat),
        decreases files@.len() - i,
    {
        let ghost before = out@;
        match file_line(index, &files[i]) {
            Some(l) => {
                out.push(l);
                assert(line_views(out@) =~= line_views(before).push(out@.last()@));
            },
            None => {},
        }
        i = i + 1;
    }
    gone_status(index, files, &mut out);
    out
}

/// A copy of an entry with new modification times, hash and status.
fn updated_entry(e: &IndexEntry, times: FileTimes, hash: [u8; 32], status: FileStatus) -> (r: IndexEntry)
    ensures
        r == (IndexEntry { mtime_secs: times.mtime_secs, mtime_nsecs: times.mtime_nsecs, sha256: hash, status: status, ..*e }),
{
    IndexEntry {
        ctime_secs: e.ctime_secs,
        ctime_nsecs: e.ctime_nsecs,
        mtime_secs: times.mtime_secs,
        mtime_nsecs: times.mtime_nsecs,
        mode: e.mode,
        file_size: e.file_size,
        sha256: hash,
        status,
        flags: e.flags,
        path: e.path.clone(),
    }
}

/// What staging the file `f` does, from the entries `oi` and store contents `om` to
/// `ni` and `nm`, with `r` telling whether anything was staged. A new path gets a
/// `New` entry at the end with the content's hash, and the content is stored; a
/// tracked path whose time is unchanged is left alone; one whose time changed takes
/// the new time, and, where its content changed too, the new hash and status
/// `Modified`, with the content stored.
pub open spec fn file_staged(
    oi: Seq<IndexEntry>,
    om: Map<Seq<u8>, Seq<u8>>,
    f: WorkFile,
    ni: Seq<IndexEntry>,
    nm: Map<Seq<u8>, Seq<u8>>,
    r: bool,
) -> bool {
    let h = object_id(ObjectKind::Blob, f.content@);
    match entry_index(oi, f.path@) {
        None => r && ni.len() == oi.len() + 1 && ni.drop_last() == oi && ni.last().path@ == f.path@
            && ni.last().status == FileStatus::New && ni.last().sha256@ == h
            && nm == stored(om, ObjectKind::Blob, f.content@),
        Some(i) => {
            let e = oi[i];
            if e.mtime_secs == f.times.mtime_secs {
                !r && ni == oi && nm == om
            } else if e.sha256@ == h {
                !r && ni == oi.update(i, IndexEntry { mtime_secs: f.times.mtime_secs, mtime_nsecs: f.times.mtime_nsecs, ..e })
                    && nm == om
            } else {
                r && ni.len() == oi.len() && ni[i].sha256@ == h && ni[i].status == FileStatus::Modified
                    && ni[i].path@ == f.path@ && ni[i].mtime_secs == f.times.mtime_secs
                    && (forall|j: int| 0 <= j < oi.len() && j != i ==> ni[j] == oi[j])
                    && nm == stored(om, ObjectKind::Blob, f.content@)
            }
        },
    }
}

/// What marking `p` as gone does: its entry, if any, takes status `Deleted`.
pub open spec fn path_marked(oi: Seq<IndexEntry>, p: Seq<char>, ni: Seq<IndexEntry>) -> bool {
    match entry_index(oi, p) {
        Some(i) => ni == oi.update(i, IndexEntry { status: FileStatus::Deleted, ..oi[i] }),
        None => ni == oi,
    }
}

/// Whether `ti`, `tm` and `tr` trace staging `files` one after the other, from the
/// entries and store contents at their start.
pub open spec fn staging_trace(
    files: Seq<WorkFile>,
    ti: Seq<Seq<IndexEntry>>,
    tm: Seq<Map<Seq<u8>, Seq<u8>>>,
    tr: Seq<bool>,
) -> bool {
    &&& ti.len() == files.len() + 1
    &&& tm.len() == files.len() + 1
    &&& tr.len() == files.len()
    &&& forall|j: int| 0 <= j < files.len() ==> file_staged(ti[j], tm[j], #[trigger] files[j], ti[j + 1], tm[j + 1], tr[j])
}

/// Whether `gi` traces marking each of `gone` as gone, one after the other.
pub open spec fn marking_trace(gone: Seq<String>, gi: Seq<Seq<IndexEntry>>) -> bool {
    &&& gi.len() == gone.len() + 1
    &&& forall|k: int| 0 <= k < gone.len() ==> path_marked(gi[k], (#[trigger] gone[k])@, gi[k + 1])
}

/// Stages one file on disk. A new path gets a `New` entry; a tracked one whose time
/// changed takes the new time, and, where its content changed too, the new hash and
/// status `Modified`. The content is stored as a blob where it is new or changed.
/// Returns whether anything was staged.
pub fn add_file(store: &mut ObjectStore, index: &mut Vec<IndexEntry>, f: &WorkFile) -> (r: bool)
    requires
        old(store).wf(),
    ensures
        final(store).wf(),
        file_staged(old(index)@, old(store)@, *f, final(index)@, final(store)@, r),
{
    match find_index_entry(index, &f.path) {
        None => {
            let entry = IndexEntry::create(f.path.clone(), f.times, f.content.as_slice());
            let ghost before = index@;
            index.push(entry);
            assert(index@.drop_last() =~= before);
            store_object(store, ObjectKind::Blob, f.content.as_slice());
            true
        },
        Some(i) => {
            if index[i].mtime_secs == f.times.mtime_secs {
                return false;
            }
            let h = hash_object(ObjectKind::Blob, f.content.as_slice());
            if bytes_equal(h.as_slice(), index[i].sha256.as_slice()) {
                let old_hash = index[i].sha256;
                let old_status = index[i].status;
                let e = updated_entry(&index[i], f.times, old_hash, old_status);
                index.set(i, e);
                false
            } else {
                let e = updated_entry(&index[i], f.times, h, FileStatus::Modified);
                index.set(i, e);
                store_object(store, ObjectKind::Blob, f.content.as_slice());
                true
            }
        },
    }
}

/// Marks the entry for `path`, if any, as `Deleted`.
pub fn mark_deleted(index: &mut Vec<IndexEntry>, path: &String)
    ensures
        path_marked(old(index)@, path@, final(index)@),
{
    match find_index_entry(index, path) {
        Some(i) => {
            let e = &index[i];
            let d = IndexEntry {
                ctime_secs: e.ctime_secs,
                ctime_nsecs: e.ctime_nsecs,
                mtime_secs: e.mtime_secs,
                mtime_nsecs: e.mtime_nsecs,
                mode: e.mode,
                file_size: e.file_size,
                sha256: e.sha256,
                status: FileStatus::Deleted,
                flags: e.flags,
                path: e.path.clone(),
            };
            index.set(i, d);
        },
        None => {},
    }
}

/// Stages files on disk in order, then marks as `Deleted` the entries for paths
/// that are gone. Returns whether any file was staged.
pub fn add(store: &mut ObjectStore, index: &mut Vec<IndexEntry>, files: &Vec<WorkFile>, gone: &Vec<String>) -> (r: bool)
    requires
        old(store).wf(),
    ensures
        final(store).wf(),
        exists|ti: Seq<Seq<IndexEntry>>, tm: Seq<Map<Seq<u8>, Seq<u8>>>, tr: Seq<bool>, gi: Seq<Seq<IndexEntry>>|
            staging_trace(files@, ti, tm, tr) && ti[0] == old(index)@ && tm[0] == old(store)@
                && tm.last() == final(store)@
                && marking_trace(gone@, gi) && gi[0] == ti.last() && gi.last() == final(index)@
                && (r <==> exists|j: int| 0 <= j < tr.len() && tr[j]),
{
    let mut updated = false;
    let ghost mut ti: Seq<Seq<IndexEntry>> = seq![index@];
    let ghost mut tm: Seq<Map<Seq<u8>, Seq<u8>>> = seq![store@];
    let ghost mut tr: Seq<bool> = Seq::empty();
    let mut i: usize = 0;
    while i < files.len()
        invariant
            0 <= i <= files@.len(),
            store.wf(),
            ti.len() == i + 1,
            tm.len() == i + 1,
            tr.len() == i,
            ti[0] == old(index)@,
            tm[0] == old(store)@,
            ti.last() == index@,
            tm.last() == store@,
            forall|j: int| 0 <= j < i ==> file_staged(ti[j], tm[j], #[trigger] files@[j], ti[j + 1], tm[j + 1], tr[j]),
            updated <==> exists|j: int| 0 <= j < tr.len() && tr[j],
        decreases files@.len() - i,
    {
        let ghost bi = index@;
        let ghost bm = store@;
        let changed = add_file(store, index, &files[i]);
        if changed {
            updated = true;
        }
        proof {
            let ti0 = ti;
            let tm0 = tm;
            let tr0 = tr;
            ti = ti.push(index@);
            tm = tm.push(store@);
            tr = tr.push(changed);
            assert forall|j: int| 0 <= j < i + 1 implies file_staged(ti[j], tm[j], #[trigger] files@[j], ti[j + 1], tm[j + 1], tr[j]) by {
                if j < i {
                    assert(ti[j] == ti0[j] && ti[j + 1] == ti0[j + 1] && tm[j] == tm0[j] && tm[j + 1] == tm0[j + 1] && tr[j] == tr0[j]);
                }
            }
            if changed {
                assert(tr[i as int]);
            } else {
                assert forall|j: int| 0 <= j < tr.len() && tr[j] implies j < tr0.len() && tr0[j] by {}
            }
            if updated && !changed {
                let j = choose|j: int| 0 <= j < tr0.len() && tr0[j];
                assert(tr[j]);
            }
        }
        i = i + 1;
    }
    let ghost gi: Seq<Seq<IndexEntry>> = seq![index@];
    let ghost start_gi = index@;
    let mut k: usize = 0;
    while k < gone.len()
        invariant
            0 <= k <= gone@.len(),
            gi.len() == k + 1,
            gi[0] == start_gi,
            gi.last() == index@,
            forall|q: int| 0 <= q < k ==> path_marked(gi[q], (#[trigger] gone@[q])@, gi[q + 1]),
        decreases gone@.len() - k,
    {
        mark_deleted(index, &gone[k]);
        proof {
            let g0 = gi;
            gi = gi.push(index@);
            assert forall|q: int| 0 <= q < k + 1 implies path_marked(gi[q], (#[trigger] gone@[q])@, gi[q + 1]) by {
                if q < k {
                    assert(gi[q] == g0[q] && gi[q + 1] == g0[q + 1]);
                }
            }
        }
        k = k + 1;
    }
    proof {
        assert(staging_trace(files@, ti, tm, tr));
        assert(marking_trace(gone@, gi));
    }
    updated
}

/// The index after a commit: entries marked `Deleted` are dropped, the rest become
/// `Unchanged`.
pub open spec fn committed_index(es: Seq<IndexEntry>) -> Seq<IndexEntry>
    decreases es.len(),
{
    if es.len() == 0 {
        Seq::empty()
    } else {
        let prev = committed_index(es.drop_last());
        let e = es.last();
        if e.status == FileStatus::Deleted {
            prev
        } else {
            prev.push(IndexEntry { status: FileStatus::Unchanged, ..e })
        }
    }
}

/// Drops the entries marked `Deleted` and marks the rest `Unchanged`.
pub fn finish_commit(index: &mut Vec<IndexEntry>)
    ensures
        final(index)@ == committed_index(old(index)@),
{
    let mut out: Vec<IndexEntry> = Vec::new();
    let ghost src = index@;
    let mut i: usize = 0;
    while i < index.len()
        invariant
            0 <= i <= index@.len(),
            src == index@,
            out@ == committed_index(src.subrange(0, i as int)),
        decreases index@.len() - i,
    {
        let e = &index[i];
        assert(src.subrange(0, i + 1).drop_last() =~= src.subrange(0, i as int));
        if e.status != FileStatus::Deleted {
            out.push(updated_entry_status(e));
        }
        i = i + 1;
    }
    assert(src.subrange(0, src.len() as int) =~= src);
    *index = out;
}

fn updated_entry_status(e: &IndexEntry) -> (r: IndexEntry)
    ensures
        r == (IndexEntry { status: FileStatus::Unchanged, ..*e }),
{
    IndexEntry {
        ctime_secs: e.ctime_secs,
        ctime_nsecs: e.ctime_nsecs,
        mtime_secs: e.mtime_secs,
        mtime_nsecs: e.mtime_nsecs,
        mode: e.mode,
        file_size: e.file_size,
        sha256: e.sha256,
        status: FileStatus::Unchanged,
        flags: e.flags,
        path: e.path.clone(),
    }
}

/// Stores a commit of `tree` on `parent` made at `timestamp`, and returns its hash.
pub fn build_commit_at(
    store: &mut ObjectStore,
    tree: [u8; 32],
    parent: [u8; 32],
    author: &String,
    message: &String,
    timestamp: i64,
) -> (r: [u8; 32])
    requires
        old(store).wf(),
    ensures
        final(store).wf(),
        exists|c: CommitEntry|
            c.tree == tree && c.parent == parent && c.author@ == author@ && c.committer@ == author@
                && c.timestamp == timestamp && c.timezone@.len() == 0 && c.message@ == message@
                && r@ == object_id(ObjectKind::Commit, commit_bytes(c))
                && final(store)@ == stored(old(store)@, ObjectKind::Commit, commit_bytes(c)),
{
    let c = CommitEntry {
        tree,
        parent,
        author: author.clone(),
        committer: author.clone(),
        timestamp,
        timezone: String::new(),
        message: message.clone(),
    };
    let payload = c.to_bytes();
    let r = store_object(store, ObjectKind::Commit, payload.as_slice());
    assert(c.timezone@.len() == 0);
    r
}

/// Stores a commit of `tree` on `parent`, made now, and returns its hash.
pub fn build_commit(
    store: &mut ObjectStore,
    tree_hash: [u8; 32],
    parent_hash: [u8; 32],
    author: &String,
    message: &String,
) -> (r: [u8; 32])
    requires
        old(store).wf(),
    ensures
        final(store).wf(),
        exists|c: CommitEntry|
            c.tree == tree_hash && c.parent == parent_hash && c.author@ == author@ && c.committer@
                == author@ && c.timezone@.len() == 0 && c.message@ == message@ && r@ == object_id(
                ObjectKind::Commit,
                commit_bytes(c),
            ) && final(store)@ == stored(old(store)@, ObjectKind::Commit, commit_bytes(c)),
{
    let ts = unix_now();
    build_commit_at(store, tree_hash, parent_hash, author, message, ts)
}

/// Commits the index on the active branch: `EmptyMessage` where the message is
/// empty; otherwise stores the index's trees and a commit whose parent is the
/// branch's tip (all zero for the first), moves the branch to it, drops the
/// entries marked `Deleted` and marks the rest `Unchanged`. Returns the old and new
/// tips, for the reflog.
pub fn commit(
    store: &mut ObjectStore,
    refs: &mut Refs,
    index: &mut Vec<IndexEntry>,
    message: &String,
    author: &String,
) -> (r: Result<([u8; 32], [u8; 32]), VitError>)
    requires
        old(store).wf(),
        old(refs).wf(),
    ensures
        final(store).wf(),
        final(refs).wf(),
        r is Err <==> message@.len() == 0,
        r matches Err(e) ==> e == VitError::EmptyMessage && *final(index) == *old(index) && *final(refs) == *old(refs)
            && final(store)@ == old(store)@,
        r matches Ok((parent, tip)) ==> final(store)@.contains_key(tip@) && exists|c: CommitEntry|
            c.tree@ == crate::builder::dir_hash(crate::builder::leaves_of(old(index)@), crate::builder::MAX_DEPTH as nat)
                && c.parent == parent && c.message@ == message@ && c.author@ == author@
                && tip@ == object_id(ObjectKind::Commit, commit_bytes(c)),
        r matches Ok((parent, tip)) ==> final(index)@ == crate::worktree::committed_index(old(index)@)
            && final(refs).head == old(refs).head
            && final(refs).branches@[branch_index(final(refs).branches@, final(refs).head@)->Some_0].tip == tip
            && (branch_index(old(refs).branches@, old(refs).head@) matches Some(i) ==> parent == old(refs).branches@[i].tip)
            && (branch_index(old(refs).branches@, old(refs).head@) is None ==> parent@ == Seq::new(32, |i: int| 0u8)),
{
    if message.as_str().is_empty() {
        return Err(VitError::EmptyMessage);
    }
    let tree = build_tree(store, index.as_slice());
    let parent = match refs.head_tip() {
        Ok(t) => t,
        Err(_) => {
            let z = [0u8; 32];
            assert(z@ =~= Seq::new(32, |i: int| 0u8));
            z
        },
    };
    let tip = build_commit(store, tree, parent, author, message);
    refs.set_head_tip(tip);
    finish_commit(index);
    Ok((parent, tip))
}

/// What a path named on the command line is on disk.
#[derive(Debug)]
pub enum PathKind {
    /// Nothing is there.
    Missing,
    /// A directory, with the files found below it.
    Dir { files: Vec<String> },
    /// A regular file.
    File,
}

/// The files a path stands for: itself where it is missing (so that its deletion
/// can be staged) or a file, and the files below it where it is a directory.
pub open spec fn expansion(p: Seq<char>, k: PathKind) -> Seq<Seq<char>> {
    match k {
        PathKind::Missing => seq![p],
        PathKind::Dir { files } => files@.map_values(|f: String| f@),
        PathKind::File => seq![p],
    }
}

/// The expansions of the first `n` paths, in order.
pub open spec fn expansions(paths: Seq<(String, PathKind)>, n: nat) -> Seq<Seq<char>>
    decreases n,
{
    if n == 0 {
        Seq::empty()
    } else {
        expansions(paths, (n - 1) as nat) + expansion(paths[n - 1].0@, paths[n - 1].1)
    }
}

/// The files that the paths stand for, in order.
pub fn expand_paths(paths: &Vec<(String, PathKind)>) -> (r: Vec<String>)
    ensures
        r@.map_values(|f: String| f@) == expansions(paths@, paths@.len() as nat),
{
    let mut all: Vec<String> = Vec::new();
    let mut i: usize = 0;
    while i < paths.len()
        invariant
            0 <= i <= paths@.len(),
            all@.map_values(|f: String| f@) == expansions(paths@, i as nat),
        decreases paths@.len() - i,
    {
        let (p, k) = &paths[i];
        let ghost before = all@.map_values(|f: String| f@);
        match k {
            PathKind::Dir { files } => {
                let mut j: usize = 0;
                while j < files.len()
                    invariant
                        0 <= j <= files@.len(),
                        all@.map_values(|f: String| f@) == before + files@.subrange(0, j as int).map_values(|f: String| f@),
                    decreases files@.len() - j,
                {
                    let ghost prev = all@;
                    let c = files[j].clone();
                    assert(c@ == files@[j as int]@);
                    all.push(c);
                    assert(all@.map_values(|f: String| f@) =~= prev.map_values(|f: String| f@).push(files@[j as int]@));
                    assert(files@.subrange(0, j + 1).map_values(|f: String| f@) =~= files@.subrange(0, j as int).map_values(|f: String| f@).push(files@[j as int]@));
                    assert(all@.map_values(|f: String| f@) =~= before + files@.subrange(0, j + 1).map_values(|f: String| f@));
                    j = j + 1;
                }
                assert(files@.subrange(0, files@.len() as int) =~= files@);
            },
            _ => {
                all.push(p.clone());
                assert(all@.map_values(|f: String| f@) =~= before + seq![p@]);
            },
        }
        assert(all@.map_values(|f: String| f@) =~= expansions(paths@, (i + 1) as nat));
        i = i + 1;
    }
    all
}

/// Whether the paths named to `add` start with `.`, the whole working tree.
pub open spec fn names_whole_tree(paths: Seq<String>) -> bool {
    paths.len() > 0 && paths[0]@ == seq!['.']
}

/// The paths whose entries `add` marks `Deleted`: the named paths that are gone,
/// then, where the first path named is `.`, every tracked path that is gone.
pub fn paths_to_mark(paths: &Vec<String>, missing: Vec<String>, tracked_gone: Vec<String>) -> (r: Vec<String>)
    ensures
        r@ == if names_whole_tree(paths@) { missing@ + tracked_gone@ } else { missing@ },
{
    let mut out = missing;
    let ghost start = out@;
    let dot = <String as vstd::string::StringExecFns>::from_str(".");
    proof {
        reveal_strlit(".");
    }
    assert(dot@ =~= seq!['.']);
    if paths.len() > 0 && paths[0] == dot {
        let mut i: usize = 0;
        while i < tracked_gone.len()
            invariant
                0 <= i <= tracked_gone@.len(),
                out@ == start + tracked_gone@.subrange(0, i as int),
            decreases tracked_gone@.len() - i,
        {
            out.push(tracked_gone[i].clone());
            assert(out@ =~= start + tracked_gone@.subrange(0, i + 1));
            i = i + 1;
        }
        assert(tracked_gone@.subrange(0, tracked_gone@.len() as int) =~= tracked_gone@);
    }
    out
}

/// Staging one new file into an empty index, with nothing gone, leaves exactly one
/// entry: the file's path, status `New` and its blob's hash; the blob is stored and
/// the result reports a change.
pub proof fn lemma_add_one_new_file(
    f: WorkFile,
    ti: Seq<Seq<IndexEntry>>,
    tm: Seq<Map<Seq<u8>, Seq<u8>>>,
    tr: Seq<bool>,
    gi: Seq<Seq<IndexEntry>>,
)
    requires
        staging_trace(seq![f], ti, tm, tr),
        ti[0].len() == 0,
        marking_trace(Seq::<String>::empty(), gi),
        gi[0] == ti.last(),
    ensures
        gi.last().len() == 1,
        gi.last()[0].path@ == f.path@,
        gi.last()[0].status == FileStatus::New,
        gi.last()[0].sha256@ == object_id(ObjectKind::Blob, f.content@),
        tm.last() == stored(tm[0], ObjectKind::Blob, f.content@),
        tr[0],
{
    assert(seq![f][0] == f);
    assert(file_staged(ti[0], tm[0], f, ti[1], tm[1], tr[0]));
    assert(entry_index(ti[0], f.path@) is None);
}

} // verus!
