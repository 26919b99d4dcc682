//! The checkout and restore engine: applies a change list, or a whole tree, to the
//! index and yields the file-system operations that bring the working directory
//! along.
use vstd::prelude::*;
use vstd::pervasive::VecAdditionalExecFns;
use vstd::string::StringExecFns;
use crate::branch::{branch_index, Refs};
use crate::commit::{commit_loadable, commit_tree_of, lemma_commit_tree_of, read_commit_file};
use crate::diff::{diff_trees, Action, ChangeView, FileChange, FileType};
use crate::error::VitError;
use crate::index::{FileStatus, FileTimes, IndexEntry, REGULAR_FILE_MODE};
use crate::object::{framed, holds, load_object, ObjectKind, ObjectStore};
use crate::tree::{load_tree, store_decodable, tree_at, triples, TreeEntry};

verus! {

/// One operation on the working directory.
#[derive(Debug)]
pub enum FsOp {
    /// Write the file, creating its parent directories.
    WriteFile { path: String, content: Vec<u8> },
    /// Remove the file where it exists.
    RemoveFile { path: String },
    /// Remove the directory and all it holds.
    RemoveDirAll { path: String },
    /// Create the directory and its parents.
    CreateDirAll { path: String },
}

/// Whether the store holds, under `h`, exactly the blob `content` (as far as its
/// bytes decompress).
pub open spec fn blob_at(m: Map<Seq<u8>, Seq<u8>>, h: Seq<u8>, content: Seq<u8>) -> bool {
    forall|x: Seq<u8>| holds(m, h, x) ==> x == framed(ObjectKind::Blob, content)
}

/// The content of the blob stored under `hash`: `NotFound` where nothing is stored
/// there, `CorruptObject` where the object is not a blob.
pub fn load_blob(store: &ObjectStore, hash: &[u8; 32]) -> (r: Result<Vec<u8>, VitError>)
    requires
        store.wf(),
    ensures
        !store@.contains_key(hash@) ==> r == Err::<Vec<u8>, VitError>(VitError::NotFound),
        r matches Err(e) ==> e == VitError::NotFound || e == VitError::CorruptObject,
        r matches Ok(c) ==> blob_at(store@, hash@, c@),
        forall|x: Seq<u8>|
            holds(store@, hash@, x) && x == framed(ObjectKind::Blob, crate::object::unframed(x).1)
                ==> (r matches Ok(c) && c@ == crate::object::unframed(x).1),
        forall|c: Seq<u8>| #[trigger] holds(store@, hash@, framed(ObjectKind::Blob, c)) ==> (r matches Ok(d) && d@ == c),
        store_decodable(store@) ==> (r is Ok <==> blob_content(store@, hash@) is Some),
        store_decodable(store@) ==> (r matches Ok(d) ==> blob_content(store@, hash@) == Some(d@)),
{
    proof {
        assert forall|c: Seq<u8>| #[trigger] holds(store@, hash@, framed(ObjectKind::Blob, c)) implies framed(ObjectKind::Blob, c) == framed(ObjectKind::Blob, crate::object::unframed(framed(ObjectKind::Blob, c)).1) && crate::object::unframed(framed(ObjectKind::Blob, c)).1 == c by {
            let x = framed(ObjectKind::Blob, c);
            assert(crate::object::is_framed(x));
            crate::object::lemma_unframed(x);
            crate::object::lemma_framed_injective(ObjectKind::Blob, c, crate::object::unframed(x).0, crate::object::unframed(x).1);
        }
    }
    let (kind, content) = load_object(store, hash)?;
    if kind != ObjectKind::Blob {
        proof {
            assert forall|x: Seq<u8>|
                holds(store@, hash@, x) && x == framed(
                    ObjectKind::Blob,
                    crate::object::unframed(x).1,
                ) implies false by {
                assert(crate::object::is_framed(x));
                crate::object::lemma_unframed(x);
                crate::object::lemma_framed_injective(
                    ObjectKind::Blob,
                    crate::object::unframed(x).1,
                    crate::object::unframed(x).0,
                    crate::object::unframed(x).1,
                );
                crate::object::lemma_unframed(x);
            }
        }
        return Err(VitError::CorruptObject);
    }
    proof {
        assert forall|x: Seq<u8>| holds(store@, hash@, x) implies x == framed(
            ObjectKind::Blob,
            content@,
        ) by {
            crate::object::lemma_unframed(x);
        }
        if store_decodable(store@) {
            assert(crate::tree::decodable_at(store@, hash@));
            let x = crate::tree::object_at(store@, hash@);
            assert(holds(store@, hash@, x));
            assert(holds(store@, hash@, framed(ObjectKind::Blob, content@)));
            let c = choose|c: Seq<u8>| #[trigger] holds(store@, hash@, framed(ObjectKind::Blob, c));
            crate::object::lemma_framed_injective(ObjectKind::Blob, c, ObjectKind::Blob, content@);
        }
    }
    Ok(content)
}

/// The first position of an index entry for `path`.
pub open spec fn entry_index(es: Seq<IndexEntry>, path: Seq<char>) -> Option<int> {
    if exists|i: int| 0 <= i < es.len() && es[i].path@ == path {
        Some(
            choose|i: int|
                0 <= i < es.len() && es[i].path@ == path && forall|j: int|
                    0 <= j < i ==> es[j].path@ != path,
        )
    } else {
        None
    }
}

/// The position of the index entry for `path`.
pub fn find_index_entry(index: &Vec<IndexEntry>, path: &String) -> (r: Option<usize>)
    ensures
        r matches Some(i) ==> i < index@.len() && entry_index(index@, path@) == Some(i as int)
            && index@[i as int].path@ == path@,
        r is None ==> entry_index(index@, path@) is None,
{
    let mut i: usize = 0;
    while i < index.len()
        invariant
            0 <= i <= index@.len(),
            forall|j: int| 0 <= j < i ==> index@[j].path@ != path@,
        decreases index@.len() - i,
    {
        if index[i].path == *path {
            proof {
                let c = choose|c: int|
                    0 <= c < index@.len() && index@[c].path@ == path@ && forall|j: int|
                        0 <= j < c ==> index@[j].path@ != path@;
                if c > i {
                    assert(index@[i as int].path@ != path@);
                }
            }
            return Some(i);
        }
        i = i + 1;
    }
    None
}

/// A copy of the entry with the hash `hash` and status `Unchanged`.
fn restaged(e: &IndexEntry, hash: [u8; 32]) -> (r: IndexEntry)
    ensures
        r == (IndexEntry { sha256: hash, status: FileStatus::Unchanged, ..*e }),
{
    IndexEntry {
        ctime_secs: e.ctime_secs,
        ctime_nsecs: e.ctime_nsecs,
        mtime_secs: e.mtime_secs,
        mtime_nsecs: e.mtime_nsecs,
        mode: e.mode,
        file_size: e.file_size,
        sha256: hash,
        status: FileStatus::Unchanged,
        flags: e.flags,
        path: e.path.clone(),
    }
}

/// Records that `path` now holds the blob `hash`: its entry, if any, takes the hash
/// and status `Unchanged`; otherwise a new `Unchanged` entry is added with these
/// times and size.
pub fn stage_restored(
    index: &mut Vec<IndexEntry>,
    path: String,
    hash: [u8; 32],
    size: usize,
    times: FileTimes,
)
    ensures
        entry_index(old(index)@, path@) matches Some(i) ==> final(index)@.len() == old(index)@.len()
            && final(index)@[i].sha256 == hash && final(index)@[i].status == FileStatus::Unchanged
            && final(index)@[i].path@ == path@ && forall|j: int|
            0 <= j < old(index)@.len() && j != i ==> final(index)@[j] == old(index)@[j],
        entry_index(old(index)@, path@) is None ==> final(index)@.len() == old(index)@.len() + 1
            && final(index)@.drop_last() == old(index)@ && final(index)@.last().path@ == path@
            && final(index)@.last().sha256 == hash && final(index)@.last().status
            == FileStatus::Unchanged,
        unchanged_kept(old(index)@, final(index)@),
        has_unchanged(final(index)@, path@),
{
    proof {
        lemma_index_facts(old(index)@, path@);
    }
    match find_index_entry(index, &path) {
        Some(i) => {
            let ghost b = index@;
            let e = restaged(&index[i], hash);
            index.set(i, e);
            proof {
                assert forall|p: Seq<char>| #[trigger] has_unchanged(b, p) implies has_unchanged(index@, p) by {
                    let j = choose|j: int| 0 <= j < b.len() && b[j].path@ == p && b[j].status == FileStatus::Unchanged;
                    assert(index@[j].path@ == p && index@[j].status == FileStatus::Unchanged);
                }
                assert(index@[i as int].path@ == path@);
            }
        },
        None => {
            let plen = crate::encoding::str_bytes(path.as_str()).len();
            let ghost before = index@;
            index.push(
                IndexEntry {
                    ctime_secs: times.ctime_secs,
                    ctime_nsecs: times.ctime_nsecs,
                    mtime_secs: times.mtime_secs,
                    mtime_nsecs: times.mtime_nsecs,
                    mode: REGULAR_FILE_MODE,
                    file_size: (size as u64 % 0x1_0000_0000u64) as u32,
                    sha256: hash,
                    status: FileStatus::Unchanged,
                    flags: (plen % 4096) as u16,
                    path,
                },
            );
            assert(index@.drop_last() =~= before);
            proof {
                assert forall|p: Seq<char>| #[trigger] has_unchanged(before, p) implies has_unchanged(index@, p) by {
                    let j = choose|j: int| 0 <= j < before.len() && before[j].path@ == p && before[j].status == FileStatus::Unchanged;
                    assert(index@[j] == before[j]);
                }
                assert(index@[before.len() as int].path@ == path@);
            }
        },
    }
}

proof fn lemma_index_facts(a: Seq<IndexEntry>, p: Seq<char>)
    ensures
        entry_index(a, p) matches Some(i) ==> 0 <= i < a.len() && a[i].path@ == p,
{
    if exists|i: int| 0 <= i < a.len() && a[i].path@ == p {
        let i = choose|i: int| 0 <= i < a.len() && a[i].path@ == p;
        lemma_first_path(a, p, i);
    }
}

proof fn lemma_first_path(a: Seq<IndexEntry>, p: Seq<char>, i: int)
    requires
        0 <= i < a.len(),
        a[i].path@ == p,
    ensures
        exists|x: int| 0 <= x < a.len() && a[x].path@ == p && forall|j: int| 0 <= j < x ==> a[j].path@ != p,
    decreases i,
{
    if exists|j: int| 0 <= j < i && a[j].path@ == p {
        let j = choose|j: int| 0 <= j < i && a[j].path@ == p;
        lemma_first_path(a, p, j);
    } else {
        assert(0 <= i < a.len() && a[i].path@ == p && forall|j: int| 0 <= j < i ==> a[j].path@ != p);
    }
}

/// Removes the index entry for `path`, if any.
pub fn unstage(index: &mut Vec<IndexEntry>, path: &String)
    ensures
        entry_index(old(index)@, path@) matches Some(i) ==> final(index)@ == old(index)@.remove(i),
        entry_index(old(index)@, path@) is None ==> final(index)@ == old(index)@,
{
    match find_index_entry(index, path) {
        Some(i) => {
            index.remove(i);
        },
        None => {},
    }
}

/// Applies a `Restore` of a file: writes the blob's content over it, and gives its
/// index entry, if any, the new hash and status `Unchanged`.
pub fn restore_file(
    store: &ObjectStore,
    change: &FileChange,
    index: &mut Vec<IndexEntry>,
    ops: &mut Vec<FsOp>,
) -> (r: Result<(), VitError>)
    requires
        store.wf(),
    ensures
        r matches Err(e) ==> e == VitError::NotFound || e == VitError::CorruptObject,
        r is Err ==> *final(ops) == *old(ops) && *final(index) == *old(index),
        (exists|c: Seq<u8>| #[trigger] holds(store@, change.sha256@, framed(ObjectKind::Blob, c))) ==> r is Ok,
        r is Ok ==> final(ops)@.len() == old(ops)@.len() + 1 && final(ops)@.drop_last() == old(ops)@ && (final(ops)@.last() matches FsOp::WriteFile { path, content } && path@
            == change.path@ && blob_at(store@, change.sha256@, content@)),
        r is Ok ==> (entry_index(old(index)@, change.path@) matches Some(i) ==> final(index)@.len()
            == old(index)@.len() && final(index)@[i].sha256 == change.sha256 && final(index)@[i].status == FileStatus::Unchanged && forall|j: int|
            0 <= j < old(index)@.len() && j != i ==> final(index)@[j] == old(index)@[j]),
        r is Ok ==> (entry_index(old(index)@, change.path@) is None ==> *final(index) == *old(index)),
{
    let content = load_blob(store, &change.sha256)?;
    let ghost before = ops@;
    ops.push(FsOp::WriteFile { path: change.path.clone(), content });
    assert(ops@.drop_last() =~= before);
    match find_index_entry(index, &change.path) {
        Some(i) => {
            let e = restaged(&index[i], change.sha256);
            index.set(i, e);
        },
        None => {},
    }
    Ok(())
}

/// Whether `path` lies below the directory `dir`.
pub open spec fn is_below(path: Seq<char>, dir: Seq<char>) -> bool {
    path.len() > dir.len() + 1 && path.subrange(0, dir.len() as int) == dir && path[dir.len() as int]
        == '/'
}

fn below(path: &String, dir: &String) -> (r: bool)
    ensures
        r == is_below(path@, dir@),
{
    let p = path.as_str();
    let d = dir.as_str();
    let pn = vstd::string::StrSliceExecFns::unicode_len(p);
    let dn = vstd::string::StrSliceExecFns::unicode_len(d);
    if pn <= dn || pn - dn <= 1 {
        return false;
    }
    let head = <String as StringExecFns>::from_str(vstd::string::StrSliceExecFns::substring_char(p, 0, dn));
    if !(head == *dir) {
        return false;
    }
    vstd::string::StrSliceExecFns::get_char(p, dn) == '/'
}

/// Applies a `Delete`: removes the file, or every indexed file below the
/// directory and then the directory, and drops their index entries.
fn delete_files(change: &FileChange, index: &mut Vec<IndexEntry>, ops: &mut Vec<FsOp>)
    ensures
        change.file_type == FileType::Blob ==> final(ops)@.len() == old(ops)@.len() + 1 && final(ops)@.drop_last() == old(ops)@ && (final(ops)@.last() matches FsOp::RemoveFile { path } && path@ == change.path@),
        change.file_type == FileType::Blob ==> (entry_index(old(index)@, change.path@) matches Some(i) ==> final(index)@ == old(index)@.remove(i)),
        change.file_type == FileType::Blob ==> (entry_index(old(index)@, change.path@) is None ==> final(index)@ == old(index)@),
        change.file_type == FileType::Tree ==> forall|j: int|
            0 <= j < final(index)@.len() ==> !is_below(#[trigger] final(index)@[j].path@, change.path@),
        change.file_type == FileType::Tree ==> forall|j: int|
            0 <= j < old(index)@.len() && !is_below(#[trigger] old(index)@[j].path@, change.path@) ==> final(index)@.contains(old(index)@[j]),
        change.file_type == FileType::Tree ==> final(ops)@.len() > old(ops)@.len() && (final(ops)@.last() matches FsOp::RemoveDirAll { path } && path@ == change.path@),
{
    match change.file_type {
        FileType::Blob => {
            let ghost before = ops@;
            ops.push(FsOp::RemoveFile { path: change.path.clone() });
            assert(ops@.drop_last() =~= before);
            unstage(index, &change.path);
        },
        FileType::Tree => {
            let ghost old_index = index@;
            let mut kept: Vec<IndexEntry> = Vec::new();
            while index.len() > 0
                invariant
                    forall|j: int| 0 <= j < kept@.len() ==> !is_below(#[trigger] kept@[j].path@, change.path@),
                    forall|j: int|
                        0 <= j < old_index.len() && !is_below(#[trigger] old_index[j].path@, change.path@) ==> kept@.contains(old_index[j]) || index@.contains(old_index[j]),
                    ops@.len() >= old(ops)@.len(),
                decreases index@.len(),
            {
                let ghost ib = index@;
                let ghost kb = kept@;
                let e = index.remove(0);
                let ghost ev = e;
                if below(&e.path, &change.path) {
                    ops.push(FsOp::RemoveFile { path: e.path });
                } else {
                    kept.push(e);
                    proof {
                        assert(kept@.last() == ev);
                    }
                }
                proof {
                    assert forall|j: int|
                        0 <= j < old_index.len() && !is_below(#[trigger] old_index[j].path@, change.path@) implies kept@.contains(old_index[j]) || index@.contains(old_index[j]) by {
                        let x = old_index[j];
                        if kb.contains(x) {
                            let k = choose|k: int| 0 <= k < kb.len() && kb[k] == x;
                            assert(kept@[k] == x);
                        } else {
                            let k = choose|k: int| 0 <= k < ib.len() && ib[k] == x;
                            if k == 0 {
                                assert(kept@[kept@.len() - 1] == x);
                            } else {
                                assert(index@[k - 1] == x);
                            }
                        }
                    }
                }
            }
            *index = kept;
            ops.push(FsOp::RemoveDirAll { path: change.path.clone() });
        },
    }
}

/// Whether an operation only creates: it writes a file or makes a directory.
pub open spec fn is_creating(op: FsOp) -> bool {
    op is WriteFile || op is CreateDirAll
}

/// The path of an entry below `base`.
fn entry_path(base: &String, name: &String) -> (r: String)
    ensures
        r@ == crate::diff::join_path(base@, name@),
{
    if vstd::string::StrSliceExecFns::unicode_len(base.as_str()) == 0 {
        name.clone()
    } else {
        let s = <String as StringExecFns>::from_str(base.as_str());
        let s = s.concat("/");
        proof {
            reveal_strlit("/");
        }
        let s = s.concat(name.as_str());
        assert(s@ =~= crate::diff::join_path(base@, name@));
        s
    }
}

/// Whether a tree entry can be materialised: a directory whose tree can be, with a
/// level of `fuel` to spare, or a file whose blob is stored.
pub open spec fn entry_restorable(m: Map<Seq<u8>, Seq<u8>>, t: crate::tree::TreeTriple, fuel: nat) -> bool
    decreases fuel, 0nat,
{
    if crate::diff::is_dir_mode(t.0) {
        fuel > 0 && tree_restorable(m, t.2, (fuel - 1) as nat)
    } else {
        exists|b: Seq<u8>| #[trigger] holds(m, t.2, framed(ObjectKind::Blob, b))
    }
}

/// Whether the tree under `h` can be materialised: the store decodes, the tree
/// loads, and each of its entries can be.
pub open spec fn tree_restorable(m: Map<Seq<u8>, Seq<u8>>, h: Seq<u8>, fuel: nat) -> bool
    decreases fuel, 1nat,
{
    &&& store_decodable(m)
    &&& tree_at(m, h) is Some
    &&& forall|k: int| 0 <= k < tree_at(m, h)->Some_0.len() ==> entry_restorable(m, #[trigger] tree_at(m, h)->Some_0[k], fuel)
}

/// What an operation holds: 0 write, 1 remove a file, 2 remove a directory, 3 make a
/// directory; the path; the content written.
pub type OpView = (u8, Seq<char>, Seq<u8>);

/// The view of an operation.
pub open spec fn op_view(op: FsOp) -> OpView {
    match op {
        FsOp::WriteFile { path, content } => (0u8, path@, content@),
        FsOp::RemoveFile { path } => (1u8, path@, Seq::empty()),
        FsOp::RemoveDirAll { path } => (2u8, path@, Seq::empty()),
        FsOp::CreateDirAll { path } => (3u8, path@, Seq::empty()),
    }
}

/// The views of a sequence of operations.
pub open spec fn op_views(ops: Seq<FsOp>) -> Seq<OpView> {
    ops.map_values(|o: FsOp| op_view(o))
}

/// Whether some entry records path `p` with status `Unchanged`.
pub open spec fn has_unchanged(index: Seq<IndexEntry>, p: Seq<char>) -> bool {
    exists|j: int| 0 <= j < index.len() && index[j].path@ == p && index[j].status == FileStatus::Unchanged
}

/// Whether every file that the operations from position `from` on write has an
/// `Unchanged` entry.
pub open spec fn writes_recorded(index: Seq<IndexEntry>, ops: Seq<FsOp>, from: int) -> bool {
    forall|k: int| from <= k < ops.len() ==> (#[trigger] ops[k] matches FsOp::WriteFile { path, content } ==> has_unchanged(index, path@))
}

/// Whether every `Unchanged` entry of `a` has one in `b` too.
pub open spec fn unchanged_kept(a: Seq<IndexEntry>, b: Seq<IndexEntry>) -> bool {
    forall|p: Seq<char>| #[trigger] has_unchanged(a, p) ==> has_unchanged(b, p)
}

/// The content of the blob stored under `h`, if a blob is stored there.
pub open spec fn blob_content(m: Map<Seq<u8>, Seq<u8>>, h: Seq<u8>) -> Option<Seq<u8>> {
    if exists|c: Seq<u8>| #[trigger] holds(m, h, framed(ObjectKind::Blob, c)) {
        Some(choose|c: Seq<u8>| #[trigger] holds(m, h, framed(ObjectKind::Blob, c)))
    } else {
        None
    }
}

/// The operations that materialise the tree under `h` at `base`, following at most
/// `fuel` levels of subtrees: for each entry in order, a directory is made and its
/// tree materialised, or a file is written with its blob's content. `None` where a
/// tree or blob does not load or `fuel` runs out.
pub open spec fn restore_spec(m: Map<Seq<u8>, Seq<u8>>, h: Seq<u8>, base: Seq<char>, fuel: nat) -> Option<Seq<OpView>>
    decreases fuel, 2nat, 0nat,
{
    match tree_at(m, h) {
        Some(ts) => restore_entries(m, ts, base, fuel, ts.len() as nat),
        None => None,
    }
}

/// The operations for the first `n` entries `ts` of a tree at `base`.
pub open spec fn restore_entries(m: Map<Seq<u8>, Seq<u8>>, ts: Seq<crate::tree::TreeTriple>, base: Seq<char>, fuel: nat, n: nat) -> Option<Seq<OpView>>
    decreases fuel, 1nat, n,
{
    if n == 0 {
        Some(Seq::empty())
    } else {
        match restore_entries(m, ts, base, fuel, (n - 1) as nat) {
            Some(prev) => match entry_ops(m, ts[n - 1], base, fuel) {
                Some(x) => Some(prev + x),
                None => None,
            },
            None => None,
        }
    }
}

/// The operations for one tree entry `t` at `base`.
pub open spec fn entry_ops(m: Map<Seq<u8>, Seq<u8>>, t: crate::tree::TreeTriple, base: Seq<char>, fuel: nat) -> Option<Seq<OpView>>
    decreases fuel, 0nat, 0nat,
{
    let path = crate::diff::join_path(base, t.1);
    if crate::diff::is_dir_mode(t.0) {
        if fuel == 0 {
            None
        } else {
            match restore_spec(m, t.2, path, (fuel - 1) as nat) {
                Some(sub) => Some(seq![(3u8, path, Seq::<u8>::empty())] + sub),
                None => None,
            }
        }
    } else {
        match blob_content(m, t.2) {
            Some(c) => Some(seq![(0u8, path, c)]),
            None => None,
        }
    }
}

proof fn lemma_restore_entries_none(m: Map<Seq<u8>, Seq<u8>>, ts: Seq<crate::tree::TreeTriple>, base: Seq<char>, fuel: nat, n: nat, k: nat)
    requires
        n <= k,
        restore_entries(m, ts, base, fuel, n) is None,
    ensures
        restore_entries(m, ts, base, fuel, k) is None,
    decreases k - n,
{
    if n < k {
        lemma_restore_entries_none(m, ts, base, fuel, n, (k - 1) as nat);
    }
}

/// Materialises one tree entry at `base`: makes the directory and materialises its
/// tree, or writes the file and records it in the index as `Unchanged`.
#[verifier::rlimit(100)]
#[verifier::spinoff_prover]
fn restore_entry(
    store: &ObjectStore,
    e: &TreeEntry,
    base: &String,
    index: &mut Vec<IndexEntry>,
    ops: &mut Vec<FsOp>,
    times: FileTimes,
    fuel: usize,
) -> (r: Result<(), VitError>)
    requires
        store.wf(),
    ensures
        r matches Err(x) ==> x == VitError::NotFound || x == VitError::CorruptObject,
        final(ops)@.len() >= old(ops)@.len() + 1 || r is Err,
        final(ops)@.len() >= old(ops)@.len(),
        final(ops)@.subrange(0, old(ops)@.len() as int) == old(ops)@,
        forall|k: int| old(ops)@.len() <= k < final(ops)@.len() ==> is_creating(#[trigger] final(ops)@[k]),
        entry_restorable(store@, e@, fuel as nat) ==> r is Ok,
        store_decodable(store@) ==> (r is Ok <==> entry_ops(store@, e@, base@, fuel as nat) is Some),
        store_decodable(store@) && r is Ok ==> op_views(final(ops)@) == op_views(old(ops)@) + entry_ops(store@, e@, base@, fuel as nat)->Some_0,
        unchanged_kept(old(index)@, final(index)@),
        r is Ok ==> writes_recorded(final(index)@, final(ops)@, old(ops)@.len() as int),
    decreases fuel, 0nat,
{
    let path = entry_path(base, &e.name);
    let ghost before = ops@;
    let is_dir = {
        let b = crate::encoding::str_bytes(e.mode.as_str());
        let d: Vec<u8> = vec![48u8, 52, 48, 48, 48, 48];
        assert(d@ =~= seq![48u8, 52, 48, 48, 48, 48]);
        crate::encoding::bytes_equal(b.as_slice(), d.as_slice())
    };
    assert(is_dir == crate::diff::is_dir_mode(e.mode@));
    if is_dir {
        ops.push(FsOp::CreateDirAll { path: path.clone() });
        let ghost mid = ops@;
        assert(op_views(mid) =~= op_views(before).push((3u8, path@, Seq::<u8>::empty())));
        assert(mid.subrange(0, before.len() as int) =~= before);
        if fuel == 0 {
            return Err(VitError::CorruptObject);
        }
        let sub = restore_tree(store, &e.sha256, &path, index, ops, times, fuel - 1);
        proof {
            assert forall|k: int| before.len() <= k < ops@.len() implies is_creating(#[trigger] ops@[k]) by {
                if k < mid.len() {
                    assert(ops@[k] == ops@.subrange(0, mid.len() as int)[k]);
                }
            }
            assert(ops@.subrange(0, before.len() as int) =~= ops@.subrange(0, mid.len() as int).subrange(0, before.len() as int));
            if store_decodable(store@) && sub is Ok {
                let x = restore_spec(store@, e.sha256@, path@, (fuel - 1) as nat)->Some_0;
                assert(op_views(ops@) =~= op_views(before) + (seq![(3u8, path@, Seq::<u8>::empty())] + x));
            }
        }
        sub
    } else {
        proof {
            if entry_restorable(store@, e@, fuel as nat) {
                let b = choose|b: Seq<u8>| #[trigger] holds(store@, e.sha256@, framed(ObjectKind::Blob, b));
            }
        }
        let content = load_blob(store, &e.sha256)?;
        let size = content.len();
        ops.push(FsOp::WriteFile { path: path.clone(), content });
        stage_restored(index, path, e.sha256, size, times);
        proof {
            assert(ops@.subrange(0, before.len() as int) =~= before);
            assert(op_views(ops@) =~= op_views(before).push(op_view(ops@.last())));
        }
        Ok(())
    }
}

/// Materialises the tree stored under `hash` at `base`, depth first: makes each
/// directory, writes each file, and records each file in the index with status
/// `Unchanged`. At most `fuel` levels of subtrees are followed; a deeper tree is
/// reported as `CorruptObject`. On a store whose objects all decode, it succeeds
/// exactly when `restore_spec` does and appends exactly its operations.
pub fn restore_tree(
    store: &ObjectStore,
    hash: &[u8; 32],
    base: &String,
    index: &mut Vec<IndexEntry>,
    ops: &mut Vec<FsOp>,
    times: FileTimes,
    fuel: usize,
) -> (r: Result<(), VitError>)
    requires
        store.wf(),
    ensures
        r matches Err(e) ==> e == VitError::NotFound || e == VitError::CorruptObject,
        !store@.contains_key(hash@) ==> r == Err::<(), VitError>(VitError::NotFound),
        final(ops)@.len() >= old(ops)@.len(),
        final(ops)@.subrange(0, old(ops)@.len() as int) == old(ops)@,
        forall|k: int| old(ops)@.len() <= k < final(ops)@.len() ==> is_creating(#[trigger] final(ops)@[k]),
        tree_restorable(store@, hash@, fuel as nat) ==> r is Ok,
        store_decodable(store@) && r is Ok ==> tree_at(store@, hash@) is Some
            && final(ops)@.len() >= old(ops)@.len() + tree_at(store@, hash@)->Some_0.len(),
        store_decodable(store@) ==> (r is Ok <==> restore_spec(store@, hash@, base@, fuel as nat) is Some),
        store_decodable(store@) && r is Ok ==> op_views(final(ops)@) == op_views(old(ops)@) + restore_spec(store@, hash@, base@, fuel as nat)->Some_0,
        unchanged_kept(old(index)@, final(index)@),
        r is Ok ==> writes_recorded(final(index)@, final(ops)@, old(ops)@.len() as int),
    decreases fuel, 1nat,
{
    let entries = load_tree(store, hash)?;
    let ghost start = ops@;
    let ghost ts = triples(entries@);
    let ghost m = store@;
    proof {
        if store_decodable(store@) || tree_restorable(store@, hash@, fuel as nat) {
            assert(crate::tree::decodable_at(store@, hash@));
        }
    }
    let mut i: usize = 0;
    while i < entries.len()
        invariant
            0 <= i <= entries@.len(),
            store.wf(),
            m == store@,
            ops@.len() >= start.len() + i,
            ops@.subrange(0, start.len() as int) == start,
            start == old(ops)@,
            store@.contains_key(hash@),
            ts == triples(entries@),
            store_decodable(m) ==> tree_at(m, hash@) == Some(ts),
            tree_restorable(m, hash@, fuel as nat) ==> store_decodable(m) && forall|k: int| 0 <= k < ts.len() ==> entry_restorable(m, #[trigger] ts[k], fuel as nat),
            forall|k: int| start.len() <= k < ops@.len() ==> is_creating(#[trigger] ops@[k]),
            store_decodable(m) ==> restore_entries(m, ts, base@, fuel as nat, i as nat) is Some
                && op_views(ops@) == op_views(start) + restore_entries(m, ts, base@, fuel as nat, i as nat)->Some_0,
            unchanged_kept(old(index)@, index@),
            writes_recorded(index@, ops@, start.len() as int),
        decreases entries@.len() - i,
    {
        let ghost before = ops@;
        let ghost bi = index@;
        proof {
            assert(ts[i as int] == entries@[i as int]@);
        }
        let r = restore_entry(store, &entries[i], base, index, ops, times, fuel);
        proof {
            assert forall|k: int| start.len() <= k < ops@.len() implies is_creating(#[trigger] ops@[k]) by {
                if k < before.len() {
                    assert(ops@[k] == ops@.subrange(0, before.len() as int)[k]);
                }
            }
            assert(ops@.subrange(0, start.len() as int) =~= ops@.subrange(0, before.len() as int).subrange(0, start.len() as int));
            assert forall|p: Seq<char>| #[trigger] has_unchanged(old(index)@, p) implies has_unchanged(index@, p) by {
                assert(has_unchanged(bi, p));
            }
            if r.is_ok() {
                assert forall|k: int| start.len() <= k < ops@.len() implies (#[trigger] ops@[k] matches FsOp::WriteFile { path, content } ==> has_unchanged(index@, path@)) by {
                    if k < before.len() {
                        assert(ops@[k] == ops@.subrange(0, before.len() as int)[k]);
                        assert(before[k] == ops@[k]);
                        if let FsOp::WriteFile { path, content } = ops@[k] {
                            assert(has_unchanged(bi, path@));
                        }
                    }
                }
            }
        }
        if r.is_err() {
            proof {
                if store_decodable(m) {
                    lemma_restore_entries_none(m, ts, base@, fuel as nat, (i + 1) as nat, ts.len() as nat);
                }
            }
            return r;
        }
        proof {
            if store_decodable(m) {
                assert(op_views(ops@) =~= op_views(start) + restore_entries(m, ts, base@, fuel as nat, (i + 1) as nat)->Some_0);
            }
        }
        i = i + 1;
    }
    Ok(())
}

/// Applies a `Create`: writes the file and adds its index entry, or materialises
/// the whole subtree.
fn create_files(
    store: &ObjectStore,
    change: &FileChange,
    index: &mut Vec<IndexEntry>,
    ops: &mut Vec<FsOp>,
    times: FileTimes,
) -> (r: Result<(), VitError>)
    requires
        store.wf(),
    ensures
        r matches Err(e) ==> e == VitError::NotFound || e == VitError::CorruptObject,
        change.file_type == FileType::Blob && r is Ok ==> final(ops)@.len() == old(ops)@.len() + 1
            && final(ops)@.drop_last() == old(ops)@ && (final(ops)@.last() matches FsOp::WriteFile { path, content } && path@ == change.path@ && blob_at(store@, change.sha256@, content@)),
        change.file_type == FileType::Tree ==> final(ops)@.len() >= old(ops)@.len(),
        change.file_type == FileType::Tree && store_decodable(store@) && r is Ok ==> op_views(final(ops)@) == op_views(old(ops)@) + restore_spec(store@, change.sha256@, change.path@, store.objects@.len() as nat)->Some_0,
        change.file_type == FileType::Blob && (exists|b: Seq<u8>| #[trigger] holds(store@, change.sha256@, framed(ObjectKind::Blob, b))) ==> r is Ok,
        change.file_type == FileType::Tree && tree_restorable(store@, change.sha256@, store.objects@.len() as nat) ==> r is Ok,
        change.file_type == FileType::Blob && r is Ok ==> (entry_index(old(index)@, change.path@) is None ==> final(index)@.drop_last() == old(index)@ && final(index)@.last().path@ == change.path@ && final(index)@.last().sha256 == change.sha256 && final(index)@.last().status == FileStatus::Unchanged),
{
    match change.file_type {
        FileType::Blob => {
            let content = load_blob(store, &change.sha256)?;
            let size = content.len();
            let ghost before = ops@;
            ops.push(FsOp::WriteFile { path: change.path.clone(), content });
            assert(ops@.drop_last() =~= before);
            stage_restored(index, change.path.clone(), change.sha256, size, times);
            Ok(())
        },
        FileType::Tree => restore_tree(
            store,
            &change.sha256,
            &change.path,
            index,
            ops,
            times,
            store.objects.len(),
        ),
    }
}

/// Whether a change can be applied: the blob of a restored or created file is
/// stored, and the tree of a created directory can be materialised.
pub open spec fn change_applicable(m: Map<Seq<u8>, Seq<u8>>, c: FileChange, fuel: nat) -> bool {
    view_applicable(m, c@, fuel)
}

/// Whether a change, as its path, type, action and hash, can be applied.
pub open spec fn view_applicable(m: Map<Seq<u8>, Seq<u8>>, c: ChangeView, fuel: nat) -> bool {
    match c.2 {
        Action::Delete => true,
        Action::Restore => exists|b: Seq<u8>| #[trigger] holds(m, c.3, framed(ObjectKind::Blob, b)),
        Action::Create => if c.1 == FileType::Blob {
            exists|b: Seq<u8>| #[trigger] holds(m, c.3, framed(ObjectKind::Blob, b))
        } else {
            tree_restorable(m, c.3, fuel)
        },
    }
}

/// Whether switching from the commit under `cur` to the one under `tgt` can be
/// carried out: the store decodes, both commits load, their trees' diff exists and
/// every change in it can be applied.
pub open spec fn switch_possible(m: Map<Seq<u8>, Seq<u8>>, cur: Seq<u8>, tgt: Seq<u8>, fuel: nat) -> bool {
    let d = crate::diff::diff_spec(m, commit_tree_of(m, cur), commit_tree_of(m, tgt), Seq::empty(), fuel);
    &&& store_decodable(m)
    &&& commit_loadable(m, cur)
    &&& commit_loadable(m, tgt)
    &&& d is Some
    &&& forall|k: int| 0 <= k < d->Some_0.len() ==> view_applicable(m, #[trigger] d->Some_0[k], fuel)
}

/// How many of the first `n` changes are not created directories: each of those
/// yields at least one operation.
pub open spec fn ops_floor(cs: Seq<FileChange>, n: nat) -> nat
    decreases n,
{
    if n == 0 {
        0
    } else {
        ops_floor(cs, (n - 1) as nat) + if cs[n - 1].action == Action::Create && cs[n - 1].file_type == FileType::Tree { 0nat } else { 1nat }
    }
}

/// What applying the change `c` does, from entries `oi` and operations `oo` to `ni`
/// and `no`: a deleted file is removed and its entry dropped; a deleted directory
/// loses every indexed file below it and is removed; a restored or created file is
/// written with its blob's content and its entry takes the hash with status
/// `Unchanged`; a created directory gets exactly the operations of `restore_spec`.
pub open spec fn change_applied(
    m: Map<Seq<u8>, Seq<u8>>,
    c: FileChange,
    oi: Seq<IndexEntry>,
    ni: Seq<IndexEntry>,
    oo: Seq<FsOp>,
    no: Seq<FsOp>,
    fuel: nat,
) -> bool {
    match c.action {
        Action::Delete => if c.file_type == FileType::Blob {
            &&& no.len() == oo.len() + 1 && no.drop_last() == oo
            &&& (no.last() matches FsOp::RemoveFile { path } && path@ == c.path@)
            &&& (entry_index(oi, c.path@) matches Some(i) ==> ni == oi.remove(i))
            &&& (entry_index(oi, c.path@) is None ==> ni == oi)
        } else {
            &&& (forall|j: int| 0 <= j < ni.len() ==> !is_below(#[trigger] ni[j].path@, c.path@))
            &&& (forall|j: int| 0 <= j < oi.len() && !is_below(#[trigger] oi[j].path@, c.path@) ==> ni.contains(oi[j]))
            &&& no.len() > oo.len()
            &&& (no.last() matches FsOp::RemoveDirAll { path } && path@ == c.path@)
        },
        Action::Restore => {
            &&& no.len() == oo.len() + 1 && no.drop_last() == oo
            &&& (no.last() matches FsOp::WriteFile { path, content } && path@ == c.path@ && blob_at(m, c.sha256@, content@))
            &&& (entry_index(oi, c.path@) matches Some(i) ==> ni.len() == oi.len() && ni[i].sha256 == c.sha256
                && ni[i].status == FileStatus::Unchanged && forall|j: int| 0 <= j < oi.len() && j != i ==> ni[j] == oi[j])
            &&& (entry_index(oi, c.path@) is None ==> ni == oi)
        },
        Action::Create => if c.file_type == FileType::Blob {
            &&& no.len() == oo.len() + 1 && no.drop_last() == oo
            &&& (no.last() matches FsOp::WriteFile { path, content } && path@ == c.path@ && blob_at(m, c.sha256@, content@))
            &&& (entry_index(oi, c.path@) is None ==> ni.drop_last() == oi && ni.last().path@ == c.path@
                && ni.last().sha256 == c.sha256 && ni.last().status == FileStatus::Unchanged)
        } else {
            store_decodable(m) ==> op_views(no) == op_views(oo) + restore_spec(m, c.sha256@, c.path@, fuel)->Some_0
        },
    }
}

/// Whether `ti` and `to` trace applying `cs` one change after another.
pub open spec fn applied_trace(
    m: Map<Seq<u8>, Seq<u8>>,
    cs: Seq<FileChange>,
    ti: Seq<Seq<IndexEntry>>,
    to: Seq<Seq<FsOp>>,
    fuel: nat,
) -> bool {
    &&& ti.len() == cs.len() + 1
    &&& to.len() == cs.len() + 1
    &&& forall|k: int| 0 <= k < cs.len() ==> change_applied(m, #[trigger] cs[k], ti[k], ti[k + 1], to[k], to[k + 1], fuel)
}

/// Applies a change list in order and returns the operations that bring the
/// working directory along. Files created or restored get these times in the index.
pub fn apply_changes(
    store: &ObjectStore,
    changes: &Vec<FileChange>,
    index: &mut Vec<IndexEntry>,
    times: FileTimes,
) -> (r: Result<Vec<FsOp>, VitError>)
    requires
        store.wf(),
    ensures
        r matches Err(e) ==> e == VitError::NotFound || e == VitError::CorruptObject,
        changes@.len() == 0 ==> (r matches Ok(ops) && ops@.len() == 0 && *final(index) == *old(index)),
        (forall|k: int| 0 <= k < changes@.len() ==> change_applicable(store@, #[trigger] changes@[k], store.objects@.len() as nat)) ==> r is Ok,
        r matches Ok(ops) ==> ops@.len() >= ops_floor(changes@, changes@.len() as nat),
        r matches Ok(ops) ==> exists|ti: Seq<Seq<IndexEntry>>, to: Seq<Seq<FsOp>>|
            applied_trace(store@, changes@, ti, to, store.objects@.len() as nat) && ti[0] == old(index)@
                && ti.last() == final(index)@ && to[0] == Seq::<FsOp>::empty() && to.last() == ops@,
{
    let mut ops: Vec<FsOp> = Vec::new();
    let ghost mut ti: Seq<Seq<IndexEntry>> = seq![index@];
    let ghost mut to: Seq<Seq<FsOp>> = seq![ops@];
    let mut i: usize = 0;
    while i < changes.len()
        invariant
            0 <= i <= changes@.len(),
            store.wf(),
            changes@.len() == 0 ==> ops@.len() == 0 && *index == *old(index),
            ops@.len() >= ops_floor(changes@, i as nat),
            ti.len() == i + 1,
            to.len() == i + 1,
            ti[0] == old(index)@,
            to[0] == Seq::<FsOp>::empty(),
            ti.last() == index@,
            to.last() == ops@,
            forall|k: int| 0 <= k < i ==> change_applied(store@, #[trigger] changes@[k], ti[k], ti[k + 1], to[k], to[k + 1], store.objects@.len() as nat),
        decreases changes@.len() - i,
    {
        let c = &changes[i];
        match c.action {
            Action::Delete => delete_files(c, index, &mut ops),
            Action::Restore => restore_file(store, c, index, &mut ops)?,
            Action::Create => create_files(store, c, index, &mut ops, times)?,
        }
        proof {
            let ti0 = ti;
            let to0 = to;
            assert(change_applied(store@, changes@[i as int], ti0.last(), index@, to0.last(), ops@, store.objects@.len() as nat));
            ti = ti.push(index@);
            to = to.push(ops@);
            assert forall|k: int| 0 <= k < i + 1 implies change_applied(store@, #[trigger] changes@[k], ti[k], ti[k + 1], to[k], to[k + 1], store.objects@.len() as nat) by {
                if k < i {
                    assert(ti[k] == ti0[k] && ti[k + 1] == ti0[k + 1] && to[k] == to0[k] && to[k + 1] == to0[k + 1]);
                }
            }
        }
        i = i + 1;
    }
    proof {
        assert(applied_trace(store@, changes@, ti, to, store.objects@.len() as nat));
    }
    Ok(ops)
}

/// Every tree in the store has entries with distinct names.
pub open spec fn trees_unique(m: Map<Seq<u8>, Seq<u8>>) -> bool {
    forall|h: Seq<u8>| #[trigger] crate::tree::tree_at(m, h) is Some ==> crate::diff::names_unique(crate::tree::tree_at(m, h)->Some_0)
}

/// The changes that switching from the commit under `cur_tip` to the one under
/// `tgt_tip` applies: the diff of their trees.
fn switch_changes(store: &ObjectStore, cur_tip: &[u8; 32], tgt_tip: &[u8; 32]) -> (r: Result<Vec<FileChange>, VitError>)
    requires
        store.wf(),
    ensures
        r matches Err(e) ==> e == VitError::NotFound || e == VitError::CorruptObject,
        switch_possible(store@, cur_tip@, tgt_tip@, store.objects@.len() as nat) ==> (r matches Ok(changes)
            && forall|k: int| 0 <= k < changes@.len() ==> change_applicable(store@, #[trigger] changes@[k], store.objects@.len() as nat)),
        store_decodable(store@) && trees_unique(store@) && cur_tip == tgt_tip ==> (r matches Ok(changes) ==> changes@.len() == 0),
        store_decodable(store@) ==> (r matches Ok(changes) ==> crate::diff::change_views(changes@) == crate::diff::diff_spec(
            store@, commit_tree_of(store@, cur_tip@), commit_tree_of(store@, tgt_tip@), Seq::empty(), store.objects@.len() as nat)->Some_0),
{
    let cur = read_commit_file(store, cur_tip)?;
    let tgt = read_commit_file(store, tgt_tip)?;
    proof {
        if store_decodable(store@) {
            lemma_commit_tree_of(store@, cur_tip@, cur);
            lemma_commit_tree_of(store@, tgt_tip@, tgt);
        }
    }
    let changes = diff_trees(store, &cur.tree, &tgt.tree)?;
    proof {
        let fuel = store.objects@.len() as nat;
        if switch_possible(store@, cur_tip@, tgt_tip@, fuel) {
            let d = crate::diff::diff_spec(store@, cur.tree@, tgt.tree@, Seq::empty(), fuel)->Some_0;
            assert(crate::diff::change_views(changes@) == d);
            assert forall|k: int| 0 <= k < changes@.len() implies change_applicable(store@, #[trigger] changes@[k], fuel) by {
                assert(crate::diff::change_views(changes@)[k] == changes@[k]@);
            }
        }
    }
    proof {
        if store_decodable(store@) && trees_unique(store@) && cur_tip == tgt_tip {
            assert(crate::tree::decodable_at(store@, cur_tip@));
            let x = crate::tree::object_at(store@, cur_tip@);
            assert(holds(store@, cur_tip@, x));
            crate::object::lemma_framed_injective(
                ObjectKind::Commit,
                crate::commit::commit_bytes(cur),
                ObjectKind::Commit,
                crate::commit::commit_bytes(tgt),
            );
            crate::commit::lemma_commit_bytes_tree(cur, tgt);
            assert(cur.tree@ == tgt.tree@);
            crate::diff::lemma_diff_reflexive(store@, cur.tree@, Seq::empty(), store.objects@.len() as nat);
            assert(crate::diff::change_views(changes@).len() == 0);
        }
    }
    Ok(changes)
}

/// The tip of the branch named `name`.
pub open spec fn tip_of(refs: Refs, name: Seq<char>) -> Seq<u8> {
    refs.branches@[branch_index(refs.branches@, name)->Some_0].tip@
}

/// Switches to branch `name`: rejects the active branch (`AlreadyActive`) and an
/// unknown one (`NotFound`); otherwise points HEAD at it, applies the diff between
/// the two tips' trees to the index, and returns the operations on the working
/// directory.
pub fn checkout(
    refs: &mut Refs,
    store: &ObjectStore,
    index: &mut Vec<IndexEntry>,
    name: &String,
    times: FileTimes,
) -> (r: Result<Vec<FsOp>, VitError>)
    requires
        store.wf(),
    ensures
        name@ == old(refs).head@ ==> r == Err::<Vec<FsOp>, VitError>(VitError::AlreadyActive) && *final(index) == *old(index),
        name@ != old(refs).head@ && branch_index(old(refs).branches@, name@) is None ==> r == Err::<Vec<FsOp>, VitError>(VitError::NotFound) && *final(index) == *old(index),
        name@ != old(refs).head@ && branch_index(old(refs).branches@, name@) is Some && branch_index(old(refs).branches@, old(refs).head@) is Some
            && switch_possible(store@, old(refs).branches@[branch_index(old(refs).branches@, old(refs).head@)->Some_0].tip@, old(refs).branches@[branch_index(old(refs).branches@, name@)->Some_0].tip@, store.objects@.len() as nat) ==> r is Ok,
        r is Err ==> *final(refs) == *old(refs),
        r matches Err(e) ==> e == VitError::AlreadyActive || e == VitError::NotFound || e
            == VitError::CorruptObject,
        r is Ok ==> final(refs).head@ == name@ && final(refs).branches == old(refs).branches,
        r is Ok ==> branch_index(old(refs).branches@, name@) is Some && name@ != old(refs).head@,
        r matches Ok(ops) ==> exists|cs: Seq<FileChange>, ti: Seq<Seq<IndexEntry>>, to: Seq<Seq<FsOp>>|
            (store_decodable(store@) ==> crate::diff::change_views(cs) == crate::diff::diff_spec(store@,
                commit_tree_of(store@, tip_of(*old(refs), old(refs).head@)), commit_tree_of(store@, tip_of(*old(refs), name@)),
                Seq::empty(), store.objects@.len() as nat)->Some_0)
            && applied_trace(store@, cs, ti, to, store.objects@.len() as nat) && ti[0] == old(index)@
            && ti.last() == final(index)@ && to[0] == Seq::<FsOp>::empty() && to.last() == ops@,
        store_decodable(store@) && trees_unique(store@) && (branch_index(old(refs).branches@, name@) matches Some(j) && branch_index(old(refs).branches@, old(refs).head@) matches Some(i) && old(refs).branches@[i].tip == old(refs).branches@[j].tip) ==> (r matches Ok(ops) ==> ops@.len() == 0 && *final(index) == *old(index)),
{
    let (cur_tip, tgt_tip) = refs.switch_tips(name)?;
    let changes = switch_changes(store, &cur_tip, &tgt_tip)?;
    let ops = apply_changes(store, &changes, index, times)?;
    refs.head = name.clone();
    Ok(ops)
}

} // verus!
