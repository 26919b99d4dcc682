//! The stash: a side chain of commits that hold uncommitted changes, and its log.
use vstd::prelude::*;
use vstd::string::StringExecFns;
use crate::branch::Refs;
use crate::builder::mode_text;
use crate::checkout::{blob_at, blob_content, entry_index, find_index_entry, load_blob, op_view, op_views, restore_spec, restore_tree, FsOp, OpView};
use crate::branch::branch_index;
use crate::commit::{commit_bytes, commit_loadable, commit_tree_of, commit_wf, lemma_commit_tree_of, read_commit_file, CommitEntry};
use crate::diff::{Action, FileChange, FileType};
use crate::encoding::{append_bytes, bytes_equal, copy_range, find_byte, hex_encode, hex_of, str_bytes, string_from_utf8};
use crate::error::VitError;
use crate::index::{FileTimes, IndexEntry};
use crate::object::{framed, hash_object, holds, object_id, store_object, ObjectKind, ObjectStore};
use crate::refs::parse_ref;
use crate::tree::{load_tree, store_decodable, tree_at, triple_bytes, triples, TreeEntry, TreeTriple};
use crate::worktree::{build_commit, WorkFile};

verus! {

/// One line of the stash log: the previous and new stash tips, and the message.
#[derive(Debug)]
pub struct StashRecord {
    pub old: [u8; 32],
    pub new: [u8; 32],
    pub message: String,
}

/// What a save made: the new stash commit and its parent, the message, and the
/// operations that reset the working directory.
#[derive(Debug)]
pub struct StashSaved {
    pub commit: [u8; 32],
    pub parent: [u8; 32],
    pub message: String,
    pub ops: Vec<FsOp>,
}

/// The message of a stash saved without one: `WIP in progress on branch <head>`.
pub open spec fn default_stash_message(head: Seq<char>) -> Seq<char> {
    "WIP in progress on branch "@ + head
}

/// Whether one of the gone paths is tracked.
pub open spec fn tracked_gone(index: Seq<IndexEntry>, gone: Seq<String>) -> bool {
    exists|j: int| 0 <= j < gone.len() && entry_index(index, #[trigger] gone[j]@) is Some
}

/// Whether a file on disk differs from its index record in time and content.
pub open spec fn is_stashable(index: Seq<IndexEntry>, f: WorkFile) -> bool {
    match entry_index(index, f.path@) {
        Some(i) => index[i].mtime_secs != f.times.mtime_secs && index[i].sha256@ != object_id(
            ObjectKind::Blob,
            f.content@,
        ),
        None => false,
    }
}

/// The stash tree's payload from the first `n` files: one entry, named by the
/// file's path, for each file that differs from its index record.
pub open spec fn stash_payload(index: Seq<IndexEntry>, files: Seq<WorkFile>, n: nat) -> Seq<u8>
    decreases n,
{
    if n == 0 {
        Seq::empty()
    } else {
        stash_payload(index, files, (n - 1) as nat) + stash_piece(index, files[n - 1])
    }
}

/// The stash tree entry of one file: its index mode, its path and its new blob
/// hash, where it differs from its index record; nothing otherwise.
#[verifier::opaque]
pub open spec fn stash_piece(index: Seq<IndexEntry>, f: WorkFile) -> Seq<u8> {
    if is_stashable(index, f) {
        triple_bytes(
            (
                mode_text(index[entry_index(index, f.path@)->Some_0].mode),
                f.path@,
                object_id(ObjectKind::Blob, f.content@),
            ),
        )
    } else {
        Seq::empty()
    }
}

/// The stash tree entry of one file, as bytes.
fn stash_piece_of(index: &Vec<IndexEntry>, f: &WorkFile) -> (r: Vec<u8>)
    ensures
        r@ == stash_piece(index@, *f),
{
    reveal(stash_piece);
    match find_index_entry(index, &f.path) {
        Some(k) => {
            if index[k].mtime_secs != f.times.mtime_secs {
                let h = hash_object(ObjectKind::Blob, f.content.as_slice());
                if !bytes_equal(h.as_slice(), index[k].sha256.as_slice()) {
                    let t = TreeEntry { mode: crate::builder::mode_string(index[k].mode), name: f.path.clone(), sha256: h };
                    return t.to_bytes();
                }
            }
        },
        None => {},
    }
    Vec::new()
}

/// The payload of the stash tree.
fn payload_of(index: &Vec<IndexEntry>, files: &Vec<WorkFile>) -> (r: Vec<u8>)
    ensures
        r@ == stash_payload(index@, files@, files@.len() as nat),
{
    let mut payload: Vec<u8> = Vec::new();
    let mut i: usize = 0;
    while i < files.len()
        invariant
            0 <= i <= files@.len(),
            payload@ == stash_payload(index@, files@, i as nat),
        decreases files@.len() - i,
    {
        let piece = stash_piece_of(index, &files[i]);
        append_bytes(&mut payload, piece.as_slice());
        i = i + 1;
    }
    payload
}

/// Stores the blob of the file where it differs from its index record.
fn store_if_stashable(store: &mut ObjectStore, index: &Vec<IndexEntry>, f: &WorkFile)
    requires
        old(store).wf(),
    ensures
        final(store).wf(),
        old(store)@.submap_of(final(store)@),
        is_stashable(index@, *f) ==> final(store)@.contains_key(object_id(ObjectKind::Blob, f.content@)),
{
    match find_index_entry(index, &f.path) {
        Some(k) => {
            if index[k].mtime_secs != f.times.mtime_secs {
                let h = hash_object(ObjectKind::Blob, f.content.as_slice());
                if !bytes_equal(h.as_slice(), index[k].sha256.as_slice()) {
                    store_object(store, ObjectKind::Blob, f.content.as_slice());
                }
            }
        },
        None => {},
    }
}

/// Stores the blob of each file that differs from its index record.
fn store_stashed(store: &mut ObjectStore, index: &Vec<IndexEntry>, files: &Vec<WorkFile>)
    requires
        old(store).wf(),
    ensures
        final(store).wf(),
        old(store)@.submap_of(final(store)@),
        forall|j: int| 0 <= j < files@.len() && is_stashable(index@, #[trigger] files@[j]) ==> final(store)@.contains_key(object_id(ObjectKind::Blob, files@[j].content@)),
{
    let mut i: usize = 0;
    while i < files.len()
        invariant
            0 <= i <= files@.len(),
            store.wf(),
            old(store)@.submap_of(store@),
            forall|j: int| 0 <= j < i && is_stashable(index@, #[trigger] files@[j]) ==> store@.contains_key(object_id(ObjectKind::Blob, files@[j].content@)),
        decreases files@.len() - i,
    {
        let ghost before = store@;
        store_if_stashable(store, index, &files[i]);
        proof {
            vstd::map_lib::lemma_submap_of_trans(old(store)@, before, store@);
        }
        i = i + 1;
    }
}

/// Saves the working tree's uncommitted changes on the stash. Files that differ from
/// their index records go into a stash tree, tracked paths in `gone` are restored
/// from their last staged content, and the working directory is reset to the active
/// branch's tree. `None`, with nothing changed but stored blobs, where no file
/// differs and none is gone.
pub fn stash(
    store: &mut ObjectStore,
    refs: &Refs,
    index: &Vec<IndexEntry>,
    files: &Vec<WorkFile>,
    gone: &Vec<String>,
    stash_tip: Option<[u8; 32]>,
    message: Option<String>,
    author: &String,
    times: FileTimes,
) -> (r: Result<Option<StashSaved>, VitError>)
    requires
        old(store).wf(),
    ensures
        final(store).wf(),
        r matches Err(e) ==> e == VitError::NotFound || e == VitError::CorruptObject,
        r matches Ok(Some(s)) ==> (stash_tip matches Some(t) ==> s.parent == t) && (stash_tip is None ==> s.parent@ == Seq::new(32, |i: int| 0u8)),
        r matches Ok(Some(s)) ==> exists|c: CommitEntry| c.parent == s.parent && c.message@ == s.message@ && c.tree@ == object_id(ObjectKind::Tree, stash_payload(index@, files@, files@.len() as nat)) && s.commit@ == object_id(ObjectKind::Commit, commit_bytes(c)),
        r matches Ok(None) ==> stash_payload(index@, files@, files@.len() as nat).len() == 0
            && !tracked_gone(index@, gone@),
        r matches Ok(Some(_)) ==> stash_payload(index@, files@, files@.len() as nat).len() > 0
            || tracked_gone(index@, gone@),
        stash_payload(index@, files@, files@.len() as nat).len() == 0 && !tracked_gone(index@, gone@)
            ==> r is Ok && r->Ok_0 is None && final(store)@ == old(store)@,
        r matches Ok(Some(s)) ==> (message matches Some(m) ==> s.message@ == m@)
            && (message is None ==> s.message@ == default_stash_message(refs.head@)),
        !(stash_payload(index@, files@, files@.len() as nat).len() == 0 && !tracked_gone(index@, gone@))
            && reset_possible(old(store)@, *refs, gone_restores(index@, gone@, gone@.len() as nat), old(store).objects@.len() as nat)
            ==> r is Ok && r->Ok_0 is Some,
        store_decodable(old(store)@) ==> (r matches Ok(Some(s)) ==> op_views(s.ops@)
            == restore_spec(old(store)@, commit_tree_of(old(store)@, head_tip_of(*refs)), Seq::empty(), old(store).objects@.len() as nat)->Some_0
            + pending_ops(old(store)@, gone_restores(index@, gone@, gone@.len() as nat))),
        r matches Ok(Some(_)) ==> old(store)@.submap_of(final(store)@)
            && forall|j: int| 0 <= j < files@.len() && is_stashable(index@, #[trigger] files@[j]) ==> final(store)@.contains_key(object_id(ObjectKind::Blob, files@[j].content@)),
        r matches Ok(Some(s)) ==> final(store)@.contains_key(s.commit@)
            && final(store)@.contains_key(object_id(ObjectKind::Tree, stash_payload(index@, files@, files@.len() as nat))),
{
    let payload = payload_of(index, files);
    let pending = pending_restores(index, gone);
    if payload.len() == 0 && pending.len() == 0 {
        return Ok(None);
    }
    let ops = reset_ops(store, refs, index, &pending, times)?;
    store_stashed(store, index, files);
    let tree = store_object(store, ObjectKind::Tree, payload.as_slice());
    let parent = match stash_tip {
        Some(t) => t,
        None => {
            let z = [0u8; 32];
            assert(z@ =~= Seq::new(32, |i: int| 0u8));
            z
        },
    };
    let msg = stash_message(message, &refs.head);
    let commit = build_commit(store, tree, parent, author, &msg);
    Ok(Some(StashSaved { commit, parent, message: msg, ops }))
}

/// The restores that saving replays for the first `k` gone paths: each tracked one,
/// with the hash its index entry last recorded.
pub open spec fn gone_restores(index: Seq<IndexEntry>, gone: Seq<String>, k: nat) -> Seq<(Seq<char>, Seq<u8>)>
    decreases k,
{
    if k == 0 {
        Seq::empty()
    } else {
        let prev = gone_restores(index, gone, (k - 1) as nat);
        match entry_index(index, gone[k - 1]@) {
            Some(i) => prev.push((gone[k - 1]@, index[i].sha256@)),
            None => prev,
        }
    }
}

proof fn lemma_gone_restores_len(index: Seq<IndexEntry>, gone: Seq<String>, k: nat)
    requires
        k <= gone.len(),
    ensures
        gone_restores(index, gone, k).len() > 0 <==> exists|j: int| 0 <= j < k && entry_index(index, #[trigger] gone[j]@) is Some,
    decreases k,
{
    if k > 0 {
        lemma_gone_restores_len(index, gone, (k - 1) as nat);
        let last = (k - 1) as int;
        if entry_index(index, gone[last]@) is Some {
            assert(gone_restores(index, gone, k).len() > 0);
            assert(0 <= last < k && entry_index(index, gone[last]@) is Some);
        } else {
            assert(gone_restores(index, gone, k) == gone_restores(index, gone, (k - 1) as nat));
            if exists|j: int| 0 <= j < k && entry_index(index, #[trigger] gone[j]@) is Some {
                let j = choose|j: int| 0 <= j < k && entry_index(index, #[trigger] gone[j]@) is Some;
                assert(j != last);
                assert(0 <= j < k - 1 && entry_index(index, gone[j]@) is Some);
            }
        }
    }
}

/// The paths and hashes of pending restores.
pub open spec fn restore_views(cs: Seq<FileChange>) -> Seq<(Seq<char>, Seq<u8>)> {
    cs.map_values(|c: FileChange| (c.path@, c.sha256@))
}

/// The restores to replay for the gone paths: each tracked one, with the hash its
/// index entry last recorded.
fn pending_restores(index: &Vec<IndexEntry>, gone: &Vec<String>) -> (r: Vec<FileChange>)
    ensures
        r@.len() > 0 <==> tracked_gone(index@, gone@),
        restore_views(r@) == gone_restores(index@, gone@, gone@.len() as nat),
{
    let mut pending: Vec<FileChange> = Vec::new();
    let mut k: usize = 0;
    while k < gone.len()
        invariant
            0 <= k <= gone@.len(),
            restore_views(pending@) == gone_restores(index@, gone@, k as nat),
        decreases gone@.len() - k,
    {
        let ghost before = pending@;
        match find_index_entry(index, &gone[k]) {
            Some(i) => {
                pending.push(FileChange { path: gone[k].clone(), file_type: FileType::Blob, action: Action::Create, sha256: index[i].sha256 });
                assert(restore_views(pending@) =~= restore_views(before).push((gone@[k as int]@, index@[i as int].sha256@)));
            },
            None => {},
        }
        k = k + 1;
    }
    proof {
        lemma_gone_restores_len(index@, gone@, gone@.len() as nat);
    }
    pending
}

/// The message of a stash: the one given, or the default for the active branch.
fn stash_message(message: Option<String>, head: &String) -> (r: String)
    ensures
        message matches Some(m) ==> r@ == m@,
        message is None ==> r@ == default_stash_message(head@),
{
    match message {
        Some(m) => m,
        None => {
            let s = <String as StringExecFns>::from_str("WIP in progress on branch ");
            proof {
                reveal_strlit("WIP in progress on branch ");
            }
            s.concat(head.as_str())
        },
    }
}

/// The writes that replay the restores `g`, with the content of each blob.
pub open spec fn pending_ops(m: Map<Seq<u8>, Seq<u8>>, g: Seq<(Seq<char>, Seq<u8>)>) -> Seq<OpView> {
    Seq::new(g.len(), |j: int| (0u8, g[j].0, blob_content(m, g[j].1)->Some_0))
}

/// The tip of the active branch.
pub open spec fn head_tip_of(refs: Refs) -> Seq<u8> {
    refs.branches@[branch_index(refs.branches@, refs.head@)->Some_0].tip@
}

/// Whether the reset after a save can be carried out: the store decodes, the active
/// branch has a loadable commit whose tree can be materialised, and each pending
/// restore's blob is stored.
pub open spec fn reset_possible(m: Map<Seq<u8>, Seq<u8>>, refs: Refs, g: Seq<(Seq<char>, Seq<u8>)>, fuel: nat) -> bool {
    &&& store_decodable(m)
    &&& branch_index(refs.branches@, refs.head@) is Some
    &&& commit_loadable(m, head_tip_of(refs))
    &&& restore_spec(m, commit_tree_of(m, head_tip_of(refs)), Seq::empty(), fuel) is Some
    &&& forall|j: int| 0 <= j < g.len() ==> blob_content(m, #[trigger] g[j].1) is Some
}

/// The writes of the pending restores, each with its blob's content.
fn pending_writes(store: &ObjectStore, pending: &Vec<FileChange>) -> (r: Result<Vec<FsOp>, VitError>)
    requires
        store.wf(),
    ensures
        r matches Err(e) ==> e == VitError::NotFound || e == VitError::CorruptObject,
        store_decodable(store@) && (forall|q: int| 0 <= q < pending@.len() ==> blob_content(store@, #[trigger] restore_views(pending@)[q].1) is Some) ==> r is Ok,
        store_decodable(store@) ==> (r matches Ok(ops) ==> op_views(ops@) == pending_ops(store@, restore_views(pending@))),
{
    let ghost g = restore_views(pending@);
    let mut ops: Vec<FsOp> = Vec::new();
    let mut j: usize = 0;
    assert(op_views(ops@) =~= pending_ops(store@, g).subrange(0, 0));
    while j < pending.len()
        invariant
            0 <= j <= pending@.len(),
            store.wf(),
            g == restore_views(pending@),
            store_decodable(store@) ==> op_views(ops@) == pending_ops(store@, g).subrange(0, j as int),
        decreases pending@.len() - j,
    {
        proof {
            assert(g[j as int] == (pending@[j as int].path@, pending@[j as int].sha256@));
            assert(restore_views(pending@)[j as int].1 == pending@[j as int].sha256@);
        }
        let content = load_blob(store, &pending[j].sha256)?;
        let ghost before = ops@;
        ops.push(FsOp::WriteFile { path: pending[j].path.clone(), content });
        proof {
            assert(op_views(ops@) =~= op_views(before).push(op_view(ops@.last())));
            if store_decodable(store@) {
                assert(op_views(ops@) =~= pending_ops(store@, g).subrange(0, j + 1));
            }
        }
        j = j + 1;
    }
    assert(pending_ops(store@, g).subrange(0, g.len() as int) =~= pending_ops(store@, g));
    Ok(ops)
}

/// The operations that reset the working directory to the active branch's tree and
/// then write back the files of the pending restores.
fn reset_ops(store: &ObjectStore, refs: &Refs, index: &Vec<IndexEntry>, pending: &Vec<FileChange>, times: FileTimes) -> (r: Result<Vec<FsOp>, VitError>)
    requires
        store.wf(),
    ensures
        r matches Err(e) ==> e == VitError::NotFound || e == VitError::CorruptObject,
        reset_possible(store@, *refs, restore_views(pending@), store.objects@.len() as nat) ==> r is Ok,
        store_decodable(store@) ==> (r matches Ok(ops) ==> op_views(ops@) == restore_spec(store@, commit_tree_of(store@, head_tip_of(*refs)), Seq::empty(), store.objects@.len() as nat)->Some_0
            + pending_ops(store@, restore_views(pending@))),
{
    let mut ops: Vec<FsOp> = Vec::new();
    let head = refs.head_tip()?;
    let head_commit = read_commit_file(store, &head)?;
    proof {
        if store_decodable(store@) {
            lemma_commit_tree_of(store@, head@, head_commit);
        }
    }
    let mut scratch = clone_index(index);
    let root = String::new();
    restore_tree(store, &head_commit.tree, &root, &mut scratch, &mut ops, times, store.objects.len())?;
    let ghost first = ops@;
    let mut tail = pending_writes(store, pending)?;
    ops.append(&mut tail);
    proof {
        if store_decodable(store@) {
            assert(op_views(ops@) =~= op_views(first) + pending_ops(store@, restore_views(pending@)));
        }
    }
    Ok(ops)
}

fn clone_index(index: &Vec<IndexEntry>) -> (r: Vec<IndexEntry>)
    ensures
        r@.len() == index@.len(),
{
    let mut out: Vec<IndexEntry> = Vec::new();
    let mut i: usize = 0;
    while i < index.len()
        invariant
            0 <= i <= index@.len(),
            out@.len() == i,
        decreases index@.len() - i,
    {
        let e = &index[i];
        out.push(IndexEntry {
            ctime_secs: e.ctime_secs,
            ctime_nsecs: e.ctime_nsecs,
            mtime_secs: e.mtime_secs,
            mtime_nsecs: e.mtime_nsecs,
            mode: e.mode,
            file_size: e.file_size,
            sha256: e.sha256,
            status: e.status,
            flags: e.flags,
            path: e.path.clone(),
        });
        i = i + 1;
    }
    out
}

/// The entries of the tree of the stash commit under `h`.
pub open spec fn stash_tree(m: Map<Seq<u8>, Seq<u8>>, h: Seq<u8>) -> Seq<TreeTriple> {
    tree_at(m, commit_tree_of(m, h))->Some_0
}

/// Whether the stash commit under `h` can be read back whole: the store decodes,
/// the commit and its tree load, and each entry's blob is stored as a blob.
pub open spec fn stash_loadable(m: Map<Seq<u8>, Seq<u8>>, h: Seq<u8>) -> bool {
    &&& store_decodable(m)
    &&& commit_loadable(m, h)
    &&& tree_at(m, commit_tree_of(m, h)) is Some
    &&& forall|k: int| 0 <= k < stash_tree(m, h).len() ==> blob_stored(m, #[trigger] stash_tree(m, h)[k].2)
}

/// Whether some blob is stored under `h`.
pub open spec fn blob_stored(m: Map<Seq<u8>, Seq<u8>>, h: Seq<u8>) -> bool {
    exists|c: Seq<u8>| #[trigger] holds(m, h, framed(ObjectKind::Blob, c))
}

/// Whether `ops` writes back the stash commit under `h`: one file per entry of its
/// tree, in order, at the entry's name, with the content of the entry's blob.
pub open spec fn writes_stash(m: Map<Seq<u8>, Seq<u8>>, h: Seq<u8>, ops: Seq<FsOp>) -> bool {
    &&& tree_at(m, commit_tree_of(m, h)) is Some
    &&& ops.len() == stash_tree(m, h).len()
    &&& forall|k: int| 0 <= k < ops.len() ==> (#[trigger] ops[k] matches FsOp::WriteFile { path, content } && path@ == stash_tree(m, h)[k].1 && blob_at(m, stash_tree(m, h)[k].2, content@))
}

/// The operations that write back the files of the stash commit `hash`, each at the
/// path its tree entry names.
pub fn apply(store: &ObjectStore, hash: &[u8; 32]) -> (r: Result<Vec<FsOp>, VitError>)
    requires
        store.wf(),
    ensures
        r matches Err(e) ==> e == VitError::NotFound || e == VitError::CorruptObject,
        !store@.contains_key(hash@) ==> r == Err::<Vec<FsOp>, VitError>(VitError::NotFound),
        r matches Ok(ops) ==> forall|k: int| 0 <= k < ops@.len() ==> (#[trigger] ops@[k]) is WriteFile,
        store_decodable(store@) ==> (r matches Ok(ops) ==> writes_stash(store@, hash@, ops@)),
        stash_loadable(store@, hash@) ==> r is Ok,
{
    let c = read_commit_file(store, hash)?;
    proof {
        if store_decodable(store@) {
            lemma_commit_tree_of(store@, hash@, c);
        }
    }
    let entries = load_tree(store, &c.tree)?;
    let ghost ts = triples(entries@);
    proof {
        if store_decodable(store@) {
            assert(store@.contains_key(c.tree@));
            assert(crate::tree::decodable_at(store@, c.tree@));
            assert(ts == stash_tree(store@, hash@));
        }
    }
    let mut ops: Vec<FsOp> = Vec::new();
    let mut i: usize = 0;
    while i < entries.len()
        invariant
            0 <= i <= entries@.len(),
            store.wf(),
            store@.contains_key(hash@),
            ts == triples(entries@),
            store_decodable(store@) ==> ts == stash_tree(store@, hash@),
            ops@.len() == i,
            forall|k: int| 0 <= k < ops@.len() ==> (#[trigger] ops@[k] matches FsOp::WriteFile { path, content } && path@ == ts[k].1 && blob_at(store@, ts[k].2, content@)),
            stash_loadable(store@, hash@) ==> forall|k: int| 0 <= k < ts.len() ==> blob_stored(store@, #[trigger] ts[k].2),
        decreases entries@.len() - i,
    {
        proof {
            assert(ts[i as int] == entries@[i as int]@);
            if stash_loadable(store@, hash@) {
                assert(blob_stored(store@, ts[i as int].2));
                let b = choose|b: Seq<u8>| #[trigger] holds(store@, ts[i as int].2, framed(ObjectKind::Blob, b));
                assert(holds(store@, entries@[i as int].sha256@, framed(ObjectKind::Blob, b)));
            }
        }
        let content = load_blob(store, &entries[i].sha256)?;
        ops.push(FsOp::WriteFile { path: entries[i].name.clone(), content });
        i = i + 1;
    }
    Ok(ops)
}

/// Removes the objects of the stash commit `hash`: its tree entries' blobs, its tree,
/// and the commit itself.
pub fn drop_stash_objects(store: &mut ObjectStore, hash: &[u8; 32]) -> (r: Result<(), VitError>)
    requires
        old(store).wf(),
    ensures
        final(store).wf(),
        r matches Err(e) ==> e == VitError::NotFound || e == VitError::CorruptObject,
        r is Err ==> final(store)@ == old(store)@,
        r is Ok ==> !final(store)@.contains_key(hash@),
        final(store)@.dom().subset_of(old(store)@.dom()),
        store_decodable(old(store)@) && commit_loadable(old(store)@, hash@) && tree_at(old(store)@, commit_tree_of(old(store)@, hash@)) is Some ==> r is Ok,
        store_decodable(old(store)@) && r is Ok ==> !final(store)@.contains_key(commit_tree_of(old(store)@, hash@))
            && forall|k: int| 0 <= k < stash_tree(old(store)@, hash@).len() ==> !final(store)@.contains_key(#[trigger] stash_tree(old(store)@, hash@)[k].2),
{
    let c = read_commit_file(store, hash)?;
    proof {
        if store_decodable(store@) {
            lemma_commit_tree_of(store@, hash@, c);
        }
    }
    let entries = load_tree(store, &c.tree)?;
    let ghost ts = triples(entries@);
    proof {
        if store_decodable(store@) {
            assert(store@.contains_key(c.tree@));
            assert(crate::tree::decodable_at(store@, c.tree@));
            assert(ts == stash_tree(store@, hash@));
        }
    }
    let mut i: usize = 0;
    while i < entries.len()
        invariant
            0 <= i <= entries@.len(),
            store.wf(),
            store@.dom().subset_of(old(store)@.dom()),
            ts == triples(entries@),
            store_decodable(old(store)@) ==> ts == stash_tree(old(store)@, hash@) && c.tree@ == commit_tree_of(old(store)@, hash@),
            forall|k: int| 0 <= k < i ==> !store@.contains_key(#[trigger] ts[k].2),
        decreases entries@.len() - i,
    {
        proof {
            assert(ts[i as int] == entries@[i as int]@);
        }
        store.remove(&entries[i].sha256);
        i = i + 1;
    }
    store.remove(&c.tree);
    store.remove(hash);
    Ok(())
}

/// Pops the newest stash entry: the operations that write back its files, and the
/// stash tip that remains (`None` once the stack is empty); its objects are
/// removed. `NotFound` on an empty stack.
pub fn pop(store: &mut ObjectStore, records: &Vec<StashRecord>) -> (r: Result<(Vec<FsOp>, Option<[u8; 32]>), VitError>)
    requires
        old(store).wf(),
    ensures
        final(store).wf(),
        records@.len() == 0 ==> r == Err::<(Vec<FsOp>, Option<[u8; 32]>), VitError>(VitError::NotFound),
        r matches Err(e) ==> e == VitError::NotFound || e == VitError::CorruptObject,
        r matches Ok((_, tip)) ==> records@.len() > 0 && !final(store)@.contains_key(records@.last().new@)
            && (records@.len() == 1 ==> tip is None)
            && (records@.len() > 1 ==> tip == Some(records@[records@.len() - 2].new)),
        records@.len() > 0 && stash_loadable(old(store)@, records@.last().new@) ==> r is Ok,
        store_decodable(old(store)@) ==> (r matches Ok((ops, _)) ==> writes_stash(old(store)@, records@.last().new@, ops@)
            && !final(store)@.contains_key(commit_tree_of(old(store)@, records@.last().new@))
            && forall|k: int| 0 <= k < stash_tree(old(store)@, records@.last().new@).len() ==> !final(store)@.contains_key(#[trigger] stash_tree(old(store)@, records@.last().new@)[k].2)),
        final(store)@.dom().subset_of(old(store)@.dom()),
{
    let n = records.len();
    if n == 0 {
        return Err(VitError::NotFound);
    }
    let top = &records[n - 1];
    assert(records@.last() == *top);
    let ops = apply(store, &top.new)?;
    drop_stash_objects(store, &top.new)?;
    let tip = if n == 1 { None } else { Some(records[n - 2].new) };
    Ok((ops, tip))
}

/// Whether the stash commit under `h` and its tree can be read.
pub open spec fn stash_readable(m: Map<Seq<u8>, Seq<u8>>, h: Seq<u8>) -> bool {
    commit_loadable(m, h) && tree_at(m, commit_tree_of(m, h)) is Some
}

/// The hashes of the objects of the stash commit `hash`: its tree's blobs, its tree,
/// and the commit, appended to `out`.
fn stash_object_hashes(store: &ObjectStore, hash: &[u8; 32], out: &mut Vec<[u8; 32]>) -> (r: Result<(), VitError>)
    requires
        store.wf(),
    ensures
        r matches Err(e) ==> e == VitError::NotFound || e == VitError::CorruptObject,
        store_decodable(store@) && stash_readable(store@, hash@) ==> r is Ok,
        r is Ok ==> final(out)@.len() >= old(out)@.len() && final(out)@.subrange(0, old(out)@.len() as int) == old(out)@,
        r is Ok ==> exists|k: int| old(out)@.len() <= k < final(out)@.len() && final(out)@[k]@ == hash@,
        store_decodable(store@) && r is Ok ==> (exists|k: int| old(out)@.len() <= k < final(out)@.len() && final(out)@[k]@ == commit_tree_of(store@, hash@))
            && forall|q: int| 0 <= q < stash_tree(store@, hash@).len() ==> exists|k: int| old(out)@.len() <= k < final(out)@.len() && final(out)@[k]@ == #[trigger] stash_tree(store@, hash@)[q].2,
{
    let c = read_commit_file(store, hash)?;
    proof {
        if store_decodable(store@) {
            lemma_commit_tree_of(store@, hash@, c);
        }
    }
    let entries = load_tree(store, &c.tree)?;
    let ghost ts = triples(entries@);
    let ghost start = out@;
    proof {
        if store_decodable(store@) {
            assert(store@.contains_key(c.tree@));
            assert(crate::tree::decodable_at(store@, c.tree@));
            assert(ts == stash_tree(store@, hash@));
        }
    }
    let mut i: usize = 0;
    while i < entries.len()
        invariant
            0 <= i <= entries@.len(),
            out@.len() == start.len() + i,
            out@.subrange(0, start.len() as int) == start,
            ts == triples(entries@),
            forall|q: int| 0 <= q < i ==> out@[start.len() + q]@ == #[trigger] ts[q].2,
        decreases entries@.len() - i,
    {
        let ghost before = out@;
        out.push(entries[i].sha256);
        proof {
            assert(ts[i as int] == entries@[i as int]@);
            assert(out@.subrange(0, start.len() as int) =~= before.subrange(0, start.len() as int));
        }
        i = i + 1;
    }
    let n = out.len();
    out.push(c.tree);
    out.push(*hash);
    proof {
        assert(out@.subrange(0, start.len() as int) =~= out@.subrange(0, n as int).subrange(0, start.len() as int));
        assert(out@[n as int]@ == c.tree@);
        assert(out@[n + 1]@ == hash@);
        assert forall|q: int| 0 <= q < ts.len() implies exists|k: int| start.len() <= k < out@.len() && out@[k]@ == #[trigger] ts[q].2 by {
            assert(out@[start.len() + q]@ == ts[q].2);
        }
    }
    Ok(())
}

/// Removes the objects of every stash commit in the log: each commit that is
/// stored, its tree and the blobs its tree lists. The objects are found before any
/// is removed.
pub fn clear(store: &mut ObjectStore, records: &Vec<StashRecord>) -> (r: Result<(), VitError>)
    requires
        old(store).wf(),
    ensures
        final(store).wf(),
        r matches Err(e) ==> e == VitError::NotFound || e == VitError::CorruptObject,
        final(store)@.dom().subset_of(old(store)@.dom()),
        r is Err ==> final(store)@ == old(store)@,
        r is Ok ==> forall|i: int| 0 <= i < records@.len() ==> !final(store)@.contains_key(#[trigger] records@[i].new@),
        store_decodable(old(store)@) && r is Ok ==> forall|i: int| 0 <= i < records@.len() && old(store)@.contains_key(#[trigger] records@[i].new@) ==>
            !final(store)@.contains_key(commit_tree_of(old(store)@, records@[i].new@))
                && forall|q: int| 0 <= q < stash_tree(old(store)@, records@[i].new@).len() ==> !final(store)@.contains_key(#[trigger] stash_tree(old(store)@, records@[i].new@)[q].2),
        store_decodable(old(store)@) && (forall|i: int| 0 <= i < records@.len() && old(store)@.contains_key(#[trigger] records@[i].new@) ==> stash_readable(old(store)@, records@[i].new@)) ==> r is Ok,
        records@.len() == 0 ==> r is Ok && final(store)@ == old(store)@,
{
    let mut doomed: Vec<[u8; 32]> = Vec::new();
    let mut i: usize = 0;
    while i < records.len()
        invariant
            0 <= i <= records@.len(),
            store.wf(),
            *store == *old(store),
            i == 0 ==> doomed@.len() == 0,
            forall|j: int| 0 <= j < i && store@.contains_key(#[trigger] records@[j].new@) ==> exists|k: int| 0 <= k < doomed@.len() && doomed@[k]@ == records@[j].new@,
            store_decodable(store@) ==> forall|j: int| 0 <= j < i && store@.contains_key(#[trigger] records@[j].new@) ==>
                (exists|k: int| 0 <= k < doomed@.len() && doomed@[k]@ == commit_tree_of(store@, records@[j].new@))
                && forall|q: int| 0 <= q < stash_tree(store@, records@[j].new@).len() ==> exists|k: int| 0 <= k < doomed@.len() && doomed@[k]@ == #[trigger] stash_tree(store@, records@[j].new@)[q].2,
        decreases records@.len() - i,
    {
        if store.contains(&records[i].new) {
            let ghost before = doomed@;
            stash_object_hashes(store, &records[i].new, &mut doomed)?;
            proof {
                assert forall|j: int| 0 <= j < i && store@.contains_key(#[trigger] records@[j].new@) implies exists|k: int| 0 <= k < doomed@.len() && doomed@[k]@ == records@[j].new@ by {
                    let k = choose|k: int| 0 <= k < before.len() && before[k]@ == records@[j].new@;
                    assert(doomed@[k] == doomed@.subrange(0, before.len() as int)[k]);
                }
                if store_decodable(store@) {
                    assert forall|j: int| 0 <= j < i && store@.contains_key(#[trigger] records@[j].new@) implies
                        (exists|k: int| 0 <= k < doomed@.len() && doomed@[k]@ == commit_tree_of(store@, records@[j].new@))
                        && forall|q: int| 0 <= q < stash_tree(store@, records@[j].new@).len() ==> exists|k: int| 0 <= k < doomed@.len() && doomed@[k]@ == #[trigger] stash_tree(store@, records@[j].new@)[q].2 by {
                        let k = choose|k: int| 0 <= k < before.len() && before[k]@ == commit_tree_of(store@, records@[j].new@);
                        assert(doomed@[k] == doomed@.subrange(0, before.len() as int)[k]);
                        assert forall|q: int| 0 <= q < stash_tree(store@, records@[j].new@).len() implies exists|k2: int| 0 <= k2 < doomed@.len() && doomed@[k2]@ == #[trigger] stash_tree(store@, records@[j].new@)[q].2 by {
                            let k2 = choose|k2: int| 0 <= k2 < before.len() && before[k2]@ == stash_tree(store@, records@[j].new@)[q].2;
                            assert(doomed@[k2] == doomed@.subrange(0, before.len() as int)[k2]);
                        }
                    }
                }
            }
        }
        i = i + 1;
    }
    let ghost m0 = store@;
    let mut j: usize = 0;
    while j < doomed.len()
        invariant
            0 <= j <= doomed@.len(),
            store.wf(),
            store@.dom().subset_of(m0.dom()),
            m0 == old(store)@,
            doomed@.len() == 0 ==> store@ == m0,
            forall|k: int| 0 <= k < j ==> !store@.contains_key(#[trigger] doomed@[k]@),
        decreases doomed@.len() - j,
    {
        store.remove(&doomed[j]);
        j = j + 1;
    }
    Ok(())
}

/// A reflog line's fields that `parse_log_line` can read back: no space in the name
/// or the e-mail, and an offset within a day.
pub open spec fn log_fields_ok(name: Seq<char>, email: Seq<char>, offset: int) -> bool {
    !vstd::utf8::encode_utf8(name).contains(32u8) && !vstd::utf8::encode_utf8(email).contains(32u8)
        && -86400 < offset < 86400
}

/// The position of the `k`-th space (from 2) of a stash reflog line.
pub open spec fn log_space(name: Seq<char>, email: Seq<char>, ts: i64, k: int) -> int {
    let s3: int = 130 + vstd::utf8::encode_utf8(name).len() as int;
    let s4: int = s3 + 3 + vstd::utf8::encode_utf8(email).len() as int;
    let s5: int = s4 + 1 + crate::encoding::signed_dec(ts as int).len() as int;
    let s6: int = s5 + 6;
    if k == 2 { 129 } else if k == 3 { s3 } else if k == 4 { s4 } else if k == 5 { s5 } else if k == 6 { s6 } else { s6 + 7 }
}

#[verifier::rlimit(100)]
#[verifier::spinoff_prover]
proof fn lemma_log_layout(o: Seq<u8>, n: Seq<u8>, name: Seq<char>, email: Seq<char>, ts: i64, off: int, msg: Seq<char>)
    requires
        o.len() == 32,
        n.len() == 32,
        log_fields_ok(name, email, off),
    ensures
        ({
            let l = crate::refs::log_line_bytes(o, n, name, email, ts, off, msg, true);
            let s7 = log_space(name, email, ts, 7);
            &&& l.len() == s7 + 1 + vstd::utf8::encode_utf8(msg).len() + 1
            &&& l.subrange(0, 64) == vstd::utf8::encode_utf8(hex_of(o))
            &&& l[64] == 32u8
            &&& l.subrange(65, 129) == vstd::utf8::encode_utf8(hex_of(n))
            &&& (forall|k: int| 2 <= k <= 7 ==> l[#[trigger] log_space(name, email, ts, k)] == 32u8)
            &&& (forall|k: int, j: int| #![trigger log_space(name, email, ts, k), l[j]] 2 <= k < 7 && log_space(name, email, ts, k) < j < log_space(name, email, ts, k + 1) ==> l[j] != 32u8)
            &&& (forall|k: int| 2 <= k < 7 ==> #[trigger] log_space(name, email, ts, k) < log_space(name, email, ts, k + 1))
            &&& l.subrange(s7 + 1, l.len() - 1) == vstd::utf8::encode_utf8(msg)
            &&& l[l.len() - 1] == 10u8
        }),
{
    let l = crate::refs::log_line_bytes(o, n, name, email, ts, off, msg, true);
    let ho = vstd::utf8::encode_utf8(hex_of(o));
    let hn = vstd::utf8::encode_utf8(hex_of(n));
    crate::encoding::lemma_hex_text(o);
    crate::encoding::lemma_hex_text(n);
    let nm = vstd::utf8::encode_utf8(name);
    let em = vstd::utf8::encode_utf8(email);
    let d = crate::encoding::signed_dec(ts as int);
    let tz = crate::refs::timezone_bytes(off);
    let kind = crate::refs::log_kind(true);
    let m = vstd::utf8::encode_utf8(msg);
    let s3: int = 130 + nm.len() as int;
    let s4: int = s3 + 3 + em.len() as int;
    let s5: int = s4 + 1 + d.len() as int;
    let s6: int = s5 + 6;
    let s7: int = s6 + 7;
    crate::commit::lemma_signed_dec_bytes_pub(ts as int);
    let a = if off < 0 { -off } else { off };
    assert(a / 3600 < 24 && (a % 3600) / 60 < 60);
    assert(l.subrange(0, 64) =~= ho);
    assert(l.subrange(65, 129) =~= hn);
    assert(l.subrange(130, s3) =~= nm);
    assert(l.subrange(s3 + 2, s4 - 1) =~= em);
    assert(l.subrange(s4 + 1, s5) =~= d);
    assert(l.subrange(s5 + 1, s6) =~= tz);
    assert(l.subrange(s7 + 1, l.len() - 1) =~= m);
    assert forall|k: int, j: int| #![trigger log_space(name, email, ts, k), l[j]] 2 <= k < 7 && log_space(name, email, ts, k) < j < log_space(name, email, ts, k + 1) implies l[j] != 32u8 by {
        if k == 2 {
            assert(l[j] == nm[j - 130]);
            assert(!nm.contains(32u8));
        } else if k == 3 {
            if j > s3 + 1 && j < s4 - 1 {
                assert(l[j] == em[j - s3 - 2]);
                assert(!em.contains(32u8));
            }
        } else if k == 4 {
            assert(l[j] == d[j - s4 - 1]);
        } else if k == 5 {
            assert(l[j] == tz[j - s5 - 1]);
        } else {
            assert(l[j] == kind[j - s6 - 1]);
        }
    }
}

/// The hexadecimal text of a hash has no trailing white space.
proof fn lemma_trim_hex(x: Seq<u8>, h: Seq<u8>)
    requires
        h.len() == 32,
        x == vstd::utf8::encode_utf8(hex_of(h)),
    ensures
        crate::refs::trim_end(x) == x,
{
    crate::encoding::lemma_hex_text(h);
    crate::encoding::lemma_hex_of_facts(h);
    assert(x[63] == hex_of(h)[63] as u8);
    assert(crate::encoding::is_lower_hex(hex_of(h)[63]));
}

/// Reads one stash log line: the old and new tips (the first two fields) and the
/// message (what follows the seventh space).
#[verifier::rlimit(100)]
pub fn parse_log_line(line: &[u8]) -> (r: Option<StashRecord>)
    ensures
        r matches Some(s) ==> line@.len() >= 129 && crate::refs::trim_end(line@.subrange(0, 64)) == vstd::utf8::encode_utf8(hex_of(s.old@))
            && crate::refs::trim_end(line@.subrange(65, 129)) == vstd::utf8::encode_utf8(hex_of(s.new@)),
        (exists|o: Seq<u8>, n: Seq<u8>, name: Seq<char>, email: Seq<char>, ts: i64, off: int, msg: Seq<char>|
            o.len() == 32 && n.len() == 32 && log_fields_ok(name, email, off)
                && line@ == #[trigger] crate::refs::log_line_bytes(o, n, name, email, ts, off, msg, true)) ==> r is Some,
        forall|o: Seq<u8>, n: Seq<u8>, name: Seq<char>, email: Seq<char>, ts: i64, off: int, msg: Seq<char>|
            o.len() == 32 && n.len() == 32 && log_fields_ok(name, email, off)
                && line@ == #[trigger] crate::refs::log_line_bytes(o, n, name, email, ts, off, msg, true)
                ==> (r matches Some(s) ==> s.old@ == o && s.new@ == n),
{
    proof {
        assert forall|o: Seq<u8>, n: Seq<u8>, name: Seq<char>, email: Seq<char>, ts: i64, off: int, msg: Seq<char>|
            o.len() == 32 && n.len() == 32 && log_fields_ok(name, email, off)
                && line@ == #[trigger] crate::refs::log_line_bytes(o, n, name, email, ts, off, msg, true)
            implies crate::refs::trim_end(line@.subrange(0, 64)) == vstd::utf8::encode_utf8(hex_of(o))
                && crate::refs::trim_end(line@.subrange(65, 129)) == vstd::utf8::encode_utf8(hex_of(n)) by {
            lemma_log_layout(o, n, name, email, ts, off, msg);
            lemma_trim_hex(line@.subrange(0, 64), o);
            lemma_trim_hex(line@.subrange(65, 129), n);
        }
    }
    let ghost target: Option<(Seq<u8>, Seq<u8>, Seq<char>, Seq<char>, i64, int, Seq<char>)> =
        if exists|o: Seq<u8>, n: Seq<u8>, name: Seq<char>, email: Seq<char>, ts: i64, off: int, msg: Seq<char>|
            o.len() == 32 && n.len() == 32 && log_fields_ok(name, email, off)
                && line@ == #[trigger] crate::refs::log_line_bytes(o, n, name, email, ts, off, msg, true) {
            let (o, n, name, email, ts, off, msg) = choose|o: Seq<u8>, n: Seq<u8>, name: Seq<char>, email: Seq<char>, ts: i64, off: int, msg: Seq<char>|
                o.len() == 32 && n.len() == 32 && log_fields_ok(name, email, off)
                    && line@ == #[trigger] crate::refs::log_line_bytes(o, n, name, email, ts, off, msg, true);
            Some((o, n, name, email, ts, off, msg))
        } else {
            None
        };
    proof {
        if let Some((o, n, name, email, ts, off, msg)) = target {
            lemma_log_layout(o, n, name, email, ts, off, msg);
            crate::encoding::lemma_hex_text(o);
            crate::encoding::lemma_hex_text(n);
            crate::encoding::lemma_hex_of_facts(o);
            crate::encoding::lemma_hex_of_facts(n);
            lemma_trim_hex(line@.subrange(0, 64), o);
            lemma_trim_hex(line@.subrange(65, 129), n);
            assert(log_space(name, email, ts, 2) == 129);
        }
    }
    if line.len() < 130 || line[64] != 32u8 || line[129] != 32u8 {
        return None;
    }
    let old = match parse_ref(copy_range(line, 0, 64).as_slice()) {
        Ok(h) => h,
        Err(_) => {
            return None;
        },
    };
    let new = match parse_ref(copy_range(line, 65, 129).as_slice()) {
        Ok(h) => h,
        Err(_) => {
            return None;
        },
    };
    let mut pos: usize = 129;
    let mut spaces: usize = 2;
    let ln = line.len();
    while spaces < 7
        invariant
            129 <= pos < line@.len(),
            ln == line@.len(),
            2 <= spaces <= 7,
            (exists|o: Seq<u8>, n: Seq<u8>, name: Seq<char>, email: Seq<char>, ts: i64, off: int, msg: Seq<char>|
                o.len() == 32 && n.len() == 32 && log_fields_ok(name, email, off)
                    && line@ == #[trigger] crate::refs::log_line_bytes(o, n, name, email, ts, off, msg, true)) ==> target is Some,
            target matches Some((o, n, name, email, ts, off, msg)) ==> pos == log_space(name, email, ts, spaces as int)
                && line@ == crate::refs::log_line_bytes(o, n, name, email, ts, off, msg, true)
                && o.len() == 32 && n.len() == 32 && log_fields_ok(name, email, off),
        decreases 7 - spaces,
    {
        proof {
            if let Some((o, n, name, email, ts, off, msg)) = target {
                lemma_log_layout(o, n, name, email, ts, off, msg);
                assert(line@[log_space(name, email, ts, spaces + 1)] == 32u8);
            }
        }
        match find_byte(line, pos + 1, 32u8) {
            Some(p) => {
                proof {
                    if let Some((o, n, name, email, ts, off, msg)) = target {
                        lemma_log_layout(o, n, name, email, ts, off, msg);
                        let want = log_space(name, email, ts, spaces + 1);
                        let cur = log_space(name, email, ts, spaces as int);
                        if p < want {
                            assert(line@[p as int] != 32u8);
                        }
                        if p > want {
                            assert(line@[want] != 32u8);
                        }
                    }
                }
                pos = p;
            },
            None => {
                proof {
                    if let Some((o, n, name, email, ts, off, msg)) = target {
                        lemma_log_layout(o, n, name, email, ts, off, msg);
                        let want = log_space(name, email, ts, spaces + 1);
                        assert(log_space(name, email, ts, spaces as int) < want);
                        assert(want <= log_space(name, email, ts, 7));
                        assert(line@[want] == 32u8);
                    }
                }
                return None;
            },
        }
        spaces = spaces + 1;
    }
    let mut end = line.len();
    if end > pos + 1 && line[end - 1] == 10u8 {
        end = end - 1;
    }
    if end < pos + 1 {
        return None;
    }
    let mb = copy_range(line, pos + 1, end);
    proof {
        if let Some((o, n, name, email, ts, off, msg)) = target {
            lemma_log_layout(o, n, name, email, ts, off, msg);
            vstd::utf8::encode_utf8_valid_utf8(msg);
            vstd::utf8::encode_utf8_decode_utf8(msg);
            assert(mb@ == vstd::utf8::encode_utf8(msg));
        }
    }
    let message = match string_from_utf8(mb) {
        Some(m) => m,
        None => {
            return None;
        },
    };
    Some(StashRecord { old, new, message })
}

/// One line of `stash list`: `stash@{<i>}: <first 8 hex digits of the commit>: <message>`.
pub open spec fn list_line(i: nat, commit: Seq<u8>, message: Seq<char>) -> Seq<u8> {
    seq![115u8, 116, 97, 115, 104, 64, 123] + crate::encoding::dec(i) + seq![125u8, 58, 32]
        + vstd::utf8::encode_utf8(hex_of(commit)).subrange(0, 8) + seq![58u8, 32]
        + vstd::utf8::encode_utf8(message)
}

/// The lines of `stash list`, newest first: `stash@{i}: <short hash>: <message>`.
pub fn list(records: &Vec<StashRecord>) -> (r: Vec<Vec<u8>>)
    ensures
        r@.len() == records@.len(),
        forall|i: int| 0 <= i < r@.len() ==> (#[trigger] r@[i])@ == list_line(i as nat, records@[records@.len() - 1 - i].new@, records@[records@.len() - 1 - i].message@),
{
    let mut out: Vec<Vec<u8>> = Vec::new();
    let n = records.len();
    let mut i: usize = 0;
    while i < n
        invariant
            0 <= i <= n,
            n == records@.len(),
            out@.len() == i,
            forall|k: int| 0 <= k < i ==> (#[trigger] out@[k])@ == list_line(k as nat, records@[n - 1 - k].new@, records@[n - 1 - k].message@),
        decreases n - i,
    {
        let rec = &records[n - 1 - i];
        let mut line: Vec<u8> = vec![115u8, 116, 97, 115, 104, 64, 123];
        let idx = crate::encoding::decimal_bytes(i as u64);
        append_bytes(&mut line, idx.as_slice());
        line.push(125u8);
        line.push(58u8);
        line.push(32u8);
        let hex = hex_encode(rec.new.as_slice());
        let hb = str_bytes(hex.as_str());
        proof {
            crate::encoding::lemma_hex_text(rec.new@);
        }
        append_bytes(&mut line, copy_range(hb.as_slice(), 0, 8).as_slice());
        line.push(58u8);
        line.push(32u8);
        append_bytes(&mut line, str_bytes(rec.message.as_str()).as_slice());
        assert(line@ =~= list_line(i as nat, records@[n - 1 - i].new@, records@[n - 1 - i].message@));
        out.push(line);
        i = i + 1;
    }
    out
}

/// The `i`-th stash record counted from the newest (0 is the newest).
pub fn stash_at(records: &Vec<StashRecord>, i: usize) -> (r: Option<&StashRecord>)
    ensures
        i < records@.len() ==> r == Some(&records@[records@.len() - 1 - i]),
        i >= records@.len() ==> r is None,
{
    if i < records.len() {
        Some(&records[records.len() - 1 - i])
    } else {
        None
    }
}

/// The position of the last newline before `hi`, or -1.
pub open spec fn last_newline(s: Seq<u8>, hi: int) -> int
    decreases hi,
{
    if hi <= 0 {
        -1
    } else if s[hi - 1] == 10u8 {
        hi - 1
    } else {
        last_newline(s, hi - 1)
    }
}

/// Where the text is cut to drop its last line: after the newline before the last
/// newline, or at the start; the whole text where it holds no newline.
pub open spec fn last_line_cut(s: Seq<u8>) -> int {
    let n = last_newline(s, s.len() as int);
    if n < 0 {
        s.len() as int
    } else {
        last_newline(s, n) + 1
    }
}

proof fn lemma_last_newline(s: Seq<u8>, hi: int, i: int)
    requires
        0 <= hi <= s.len(),
        -1 <= i < hi,
        i >= 0 ==> s[i] == 10u8,
        forall|j: int| i < j < hi ==> s[j] != 10u8,
    ensures
        last_newline(s, hi) == i,
    decreases hi,
{
    if hi > 0 && s[hi - 1] != 10u8 {
        lemma_last_newline(s, hi - 1, i);
    }
}

fn last_newline_exec(s: &[u8], hi: usize) -> (r: Option<usize>)
    requires
        hi <= s@.len(),
    ensures
        r matches Some(i) ==> last_newline(s@, hi as int) == i && i < hi,
        r is None ==> last_newline(s@, hi as int) == -1,
{
    let r = crate::encoding::rfind_byte(s, 0, hi, 10u8);
    proof {
        match r {
            Some(i) => lemma_last_newline(s@, hi as int, i as int),
            None => lemma_last_newline(s@, hi as int, -1),
        }
    }
    r
}

/// The text without its last line.
pub fn without_last_line(text: &[u8]) -> (r: Vec<u8>)
    ensures
        0 <= last_line_cut(text@) <= text@.len(),
        r@ == text@.subrange(0, last_line_cut(text@)),
{
    match last_newline_exec(text, text.len()) {
        None => copy_range(text, 0, text.len()),
        Some(n) => {
            let cut = match last_newline_exec(text, n) {
                Some(p) => p + 1,
                None => 0,
            };
            copy_range(text, 0, cut)
        },
    }
}

} // verus!
