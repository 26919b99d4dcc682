//! The diff engine: the file- and directory-level changes that turn one tree into
//! another.
use vstd::prelude::*;
use vstd::string::StringExecFns;
use vstd::utf8::encode_utf8;
use crate::encoding::{bytes_equal, str_bytes};
use crate::error::VitError;
use crate::object::ObjectStore;
use crate::tree::{load_tree, store_decodable, tree_at, triples, TreeEntry, TreeTriple};

verus! {

/// What a change does to a path.
#[derive(Debug, Clone, Copy, PartialEq, Eq, Structural)]
pub enum Action {
    Create,
    Restore,
    Delete,
}

/// Whether a change concerns a file or a directory.
#[derive(Debug, Clone, Copy, PartialEq, Eq, Structural)]
pub enum FileType {
    Blob,
    Tree,
}

/// One change that the diff asks for.
#[derive(Debug)]
pub struct FileChange {
    pub path: String,
    pub file_type: FileType,
    pub action: Action,
    pub sha256: [u8; 32],
}

/// What a change holds: path, type, action and hash.
pub type ChangeView = (Seq<char>, FileType, Action, Seq<u8>);

impl View for FileChange {
    type V = ChangeView;

    open spec fn view(&self) -> ChangeView {
        (self.path@, self.file_type, self.action, self.sha256@)
    }
}

/// The views of a sequence of changes.
pub open spec fn change_views(cs: Seq<FileChange>) -> Seq<ChangeView> {
    cs.map_values(|c: FileChange| c@)
}

/// The mode of a directory entry, `040000`.
pub open spec fn is_dir_mode(mode: Seq<char>) -> bool {
    encode_utf8(mode) == seq![48u8, 52, 48, 48, 48, 48]
}

/// The type of an entry with this mode.
pub open spec fn type_of_mode(mode: Seq<char>) -> FileType {
    if is_dir_mode(mode) {
        FileType::Tree
    } else {
        FileType::Blob
    }
}

/// A path below `base`: `base/name`, or `name` at the root.
pub open spec fn join_path(base: Seq<char>, name: Seq<char>) -> Seq<char> {
    if base.len() == 0 {
        name
    } else {
        base + seq!['/'] + name
    }
}

/// The change of `action` for a triple at `path`.
pub open spec fn change_of(path: Seq<char>, t: TreeTriple, action: Action) -> ChangeView {
    (path, type_of_mode(t.0), action, t.2)
}

/// The first position of an entry named `name`.
pub open spec fn find_name(ts: Seq<TreeTriple>, name: Seq<char>) -> Option<int> {
    if exists|i: int| 0 <= i < ts.len() && ts[i].1 == name {
        Some(
            choose|i: int|
                0 <= i < ts.len() && ts[i].1 == name && forall|j: int|
                    0 <= j < i ==> ts[j].1 != name,
        )
    } else {
        None
    }
}

/// The changes between the trees stored under `cur` and `tgt`, for entries below
/// `base`, where at most `fuel` levels of subtrees are compared: first the target's
/// entries that are new or differ, then the current tree's entries that the target
/// lacks. `None` where a tree cannot be loaded or `fuel` runs out.
pub open spec fn diff_spec(
    m: Map<Seq<u8>, Seq<u8>>,
    cur: Seq<u8>,
    tgt: Seq<u8>,
    base: Seq<char>,
    fuel: nat,
) -> Option<Seq<ChangeView>>
    decreases fuel, 2nat, 0nat,
{
    match (tree_at(m, cur), tree_at(m, tgt)) {
        (Some(c), Some(t)) => match target_changes(m, c, t, base, fuel, t.len() as nat) {
            Some(a) => Some(a + delete_changes(c, t, base, c.len() as nat)),
            None => None,
        },
        _ => None,
    }
}

/// The changes for the first `n` entries of the target tree `t`, against the
/// current tree `c`.
pub open spec fn target_changes(
    m: Map<Seq<u8>, Seq<u8>>,
    c: Seq<TreeTriple>,
    t: Seq<TreeTriple>,
    base: Seq<char>,
    fuel: nat,
    n: nat,
) -> Option<Seq<ChangeView>>
    decreases fuel, 1nat, n,
{
    if n == 0 {
        Some(Seq::empty())
    } else {
        match target_changes(m, c, t, base, fuel, (n - 1) as nat) {
            None => None,
            Some(prev) => match entry_changes(m, c, t[n - 1], base, fuel) {
                Some(x) => Some(prev + x),
                None => None,
            },
        }
    }
}

/// The changes for one entry `e` of the target tree, against the current tree `c`:
/// none for the root path or an unchanged entry, `Create` where `c` has no entry of
/// that name, `Restore` for a changed file, and the changes within a changed
/// directory.
pub open spec fn entry_changes(
    m: Map<Seq<u8>, Seq<u8>>,
    c: Seq<TreeTriple>,
    e: TreeTriple,
    base: Seq<char>,
    fuel: nat,
) -> Option<Seq<ChangeView>>
    decreases fuel, 0nat, 0nat,
{
    let path = join_path(base, e.1);
    if path.len() == 0 {
        Some(Seq::empty())
    } else {
        match find_name(c, e.1) {
            None => Some(seq![change_of(path, e, Action::Create)]),
            Some(j) => if c[j].2 == e.2 {
                Some(Seq::empty())
            } else if !is_dir_mode(e.0) {
                Some(seq![change_of(path, e, Action::Restore)])
            } else if fuel == 0 {
                None
            } else {
                diff_spec(m, c[j].2, e.2, path, (fuel - 1) as nat)
            },
        }
    }
}

/// The deletions for the first `n` entries of the current tree `c` that the target
/// tree `t` lacks.
pub open spec fn delete_changes(
    c: Seq<TreeTriple>,
    t: Seq<TreeTriple>,
    base: Seq<char>,
    n: nat,
) -> Seq<ChangeView>
    decreases n,
{
    if n == 0 {
        Seq::empty()
    } else {
        let prev = delete_changes(c, t, base, (n - 1) as nat);
        let e = c[n - 1];
        let path = join_path(base, e.1);
        if path.len() == 0 || find_name(t, e.1) is Some {
            prev
        } else {
            prev.push(change_of(path, e, Action::Delete))
        }
    }
}

proof fn lemma_target_changes_none(
    m: Map<Seq<u8>, Seq<u8>>,
    c: Seq<TreeTriple>,
    t: Seq<TreeTriple>,
    base: Seq<char>,
    fuel: nat,
    n: nat,
    k: nat,
)
    requires
        n <= k,
        target_changes(m, c, t, base, fuel, n) is None,
    ensures
        target_changes(m, c, t, base, fuel, k) is None,
    decreases k - n,
{
    if n < k {
        lemma_target_changes_none(m, c, t, base, fuel, n, (k - 1) as nat);
    }
}

/// The path of an entry below `base`.
fn child_path(base: &str, name: &String) -> (r: String)
    ensures
        r@ == join_path(base@, name@),
{
    if base.is_empty() {
        name.clone()
    } else {
        let s = <String as StringExecFns>::from_str(base);
        let s = s.concat("/");
        proof {
            reveal_strlit("/");
        }
        let s = s.concat(name.as_str());
        assert(s@ =~= join_path(base@, name@));
        s
    }
}

/// Whether a mode names a directory.
fn dir_mode(mode: &String) -> (r: bool)
    ensures
        r == is_dir_mode(mode@),
{
    let b = str_bytes(mode.as_str());
    let d: Vec<u8> = vec![48u8, 52, 48, 48, 48, 48];
    let r = bytes_equal(b.as_slice(), d.as_slice());
    assert(d@ =~= seq![48u8, 52, 48, 48, 48, 48]);
    r
}

/// The type of an entry with this mode.
fn mode_type(mode: &String) -> (r: FileType)
    ensures
        r == type_of_mode(mode@),
{
    if dir_mode(mode) {
        FileType::Tree
    } else {
        FileType::Blob
    }
}

/// The first position of an entry named `name`.
fn find_entry(ts: &Vec<TreeEntry>, name: &String) -> (r: Option<usize>)
    ensures
        r matches Some(i) ==> i < ts@.len() && find_name(triples(ts@), name@) == Some(i as int),
        r is None ==> find_name(triples(ts@), name@) is None,
{
    let ghost tr = triples(ts@);
    let mut i: usize = 0;
    while i < ts.len()
        invariant
            0 <= i <= ts@.len(),
            tr == triples(ts@),
            forall|j: int| 0 <= j < i ==> tr[j].1 != name@,
        decreases ts@.len() - i,
    {
        if ts[i].name == *name {
            proof {
                assert(tr[i as int].1 == name@);
                let c = choose|c: int|
                    0 <= c < tr.len() && tr[c].1 == name@ && forall|j: int|
                        0 <= j < c ==> tr[j].1 != name@;
                if c < i {
                } else if c > i {
                    assert(tr[i as int].1 != name@);
                }
            }
            return Some(i);
        }
        i = i + 1;
    }
    None
}

/// Appends to `changes` the changes for one entry `e` of the target tree, against
/// the current tree's entries `cur`.
fn diff_target_entry(
    store: &ObjectStore,
    cur: &Vec<TreeEntry>,
    e: &TreeEntry,
    base: &str,
    fuel: usize,
    changes: &mut Vec<FileChange>,
) -> (r: Result<(), VitError>)
    requires
        store.wf(),
    ensures
        r matches Err(err) ==> err == VitError::NotFound || err == VitError::CorruptObject,
        store_decodable(store@) ==> (r is Ok <==> entry_changes(
            store@,
            triples(cur@),
            e@,
            base@,
            fuel as nat,
        ) is Some),
        store_decodable(store@) && r is Ok ==> change_views(final(changes)@) == change_views(
            old(changes)@,
        ) + entry_changes(store@, triples(cur@), e@, base@, fuel as nat)->Some_0,
    decreases fuel, 0nat,
{
    let ghost before = change_views(changes@);
    let path = child_path(base, &e.name);
    let ghost pv = path@;
    if path.as_str().is_empty() {
        assert(before + Seq::<ChangeView>::empty() =~= before);
        return Ok(());
    }
    match find_entry(cur, &e.name) {
        None => {
            let ch = FileChange {
                path,
                file_type: mode_type(&e.mode),
                action: Action::Create,
                sha256: e.sha256,
            };
            changes.push(ch);
            assert(change_views(changes@) =~= before + seq![change_of(pv, e@, Action::Create)]);
            Ok(())
        },
        Some(j) => {
            if bytes_equal(cur[j].sha256.as_slice(), e.sha256.as_slice()) {
                assert(triples(cur@)[j as int] == cur@[j as int]@);
                assert(before + Seq::<ChangeView>::empty() =~= before);
                Ok(())
            } else if !dir_mode(&e.mode) {
                assert(triples(cur@)[j as int] == cur@[j as int]@);
                let ch = FileChange {
                    path,
                    file_type: FileType::Blob,
                    action: Action::Restore,
                    sha256: e.sha256,
                };
                changes.push(ch);
                assert(change_views(changes@) =~= before + seq![
                    change_of(pv, e@, Action::Restore),
                ]);
                Ok(())
            } else if fuel == 0 {
                assert(triples(cur@)[j as int] == cur@[j as int]@);
                Err(VitError::CorruptObject)
            } else {
                assert(triples(cur@)[j as int] == cur@[j as int]@);
                calculate_diff(store, &cur[j].sha256, &e.sha256, path.as_str(), fuel - 1, changes)
            }
        },
    }
}

/// Appends to `changes` the changes between the trees stored under `current` and
/// `target`, for entries below `base`, comparing at most `fuel` levels of subtrees.
/// On a store whose objects all decompress, it succeeds exactly when `diff_spec`
/// does, and appends what `diff_spec` gives.
#[verifier::rlimit(100)]
pub fn calculate_diff(
    store: &ObjectStore,
    current: &[u8; 32],
    target: &[u8; 32],
    base: &str,
    fuel: usize,
    changes: &mut Vec<FileChange>,
) -> (r: Result<(), VitError>)
    requires
        store.wf(),
    ensures
        r matches Err(e) ==> e == VitError::NotFound || e == VitError::CorruptObject,
        store_decodable(store@) ==> (r is Ok <==> diff_spec(
            store@,
            current@,
            target@,
            base@,
            fuel as nat,
        ) is Some),
        store_decodable(store@) && r is Ok ==> change_views(final(changes)@) == change_views(
            old(changes)@,
        ) + diff_spec(store@, current@, target@, base@, fuel as nat)->Some_0,
        !store@.contains_key(current@) || !store@.contains_key(target@) ==> r == Err::<(), VitError>(VitError::NotFound) && *final(changes) == *old(changes),
        store_decodable(store@) && store@.contains_key(current@) && store@.contains_key(target@)
            && (tree_at(store@, current@) is None || tree_at(store@, target@) is None)
            ==> r == Err::<(), VitError>(VitError::CorruptObject) && *final(changes) == *old(changes),
    decreases fuel, 1nat,
{
    if !store.contains(current) || !store.contains(target) {
        proof {
            crate::tree::lemma_tree_at_absent(store@, current@);
            crate::tree::lemma_tree_at_absent(store@, target@);
        }
        return Err(VitError::NotFound);
    }
    let ghost m = store@;
    let ghost start = change_views(changes@);
    let cur = load_tree(store, current)?;
    let tgt = load_tree(store, target)?;
    let ghost c = triples(cur@);
    let ghost t = triples(tgt@);
    let ghost dec = store_decodable(m);
    let mut i: usize = 0;
    while i < tgt.len()
        invariant
            0 <= i <= tgt@.len(),
            store.wf(),
            m == store@,
            m.contains_key(current@) && m.contains_key(target@),
            dec == store_decodable(m),
            c == triples(cur@),
            t == triples(tgt@),
            dec ==> tree_at(m, current@) == Some(c) && tree_at(m, target@) == Some(t),
            dec ==> target_changes(m, c, t, base@, fuel as nat, i as nat) is Some,
            dec ==> change_views(changes@) == start + target_changes(
                m,
                c,
                t,
                base@,
                fuel as nat,
                i as nat,
            )->Some_0,
        decreases tgt@.len() - i,
    {
        assert(t[i as int] == tgt@[i as int]@);
        let r = diff_target_entry(store, &cur, &tgt[i], base, fuel, changes);
        if r.is_err() {
            proof {
                if dec {
                    lemma_target_changes_none(
                        m,
                        c,
                        t,
                        base@,
                        fuel as nat,
                        (i + 1) as nat,
                        t.len() as nat,
                    );
                }
            }
            return r;
        }
        proof {
            if dec {
                assert(change_views(changes@) =~= start + target_changes(
                    m,
                    c,
                    t,
                    base@,
                    fuel as nat,
                    (i + 1) as nat,
                )->Some_0);
            }
        }
        i = i + 1;
    }
    let ghost after_targets = change_views(changes@);
    assert(after_targets + delete_changes(c, t, base@, 0) =~= after_targets);
    let mut k: usize = 0;
    while k < cur.len()
        invariant
            0 <= k <= cur@.len(),
            c == triples(cur@),
            t == triples(tgt@),
            change_views(changes@) == after_targets + delete_changes(c, t, base@, k as nat),
            store@.contains_key(current@) && store@.contains_key(target@),
        decreases cur@.len() - k,
    {
        let e = &cur[k];
        let ghost ce = c[k as int];
        assert(ce == e@);
        let path = child_path(base, &e.name);
        let ghost before = change_views(changes@);
        let ghost pv = path@;
        if !path.as_str().is_empty() {
            if find_entry(&tgt, &e.name).is_none() {
                let ch = FileChange {
                    path,
                    file_type: mode_type(&e.mode),
                    action: Action::Delete,
                    sha256: e.sha256,
                };
                assert(ch@ == change_of(pv, ce, Action::Delete));
                changes.push(ch);
                assert(change_views(changes@) =~= before.push(change_of(pv, ce, Action::Delete)));
            }
        }
        assert(change_views(changes@) =~= after_targets + delete_changes(
            c,
            t,
            base@,
            (k + 1) as nat,
        ));
        k = k + 1;
    }
    proof {
        if dec {
            assert(change_views(changes@) =~= start + diff_spec(
                m,
                current@,
                target@,
                base@,
                fuel as nat,
            )->Some_0);
        }
    }
    Ok(())
}

/// The changes between the trees stored under `current` and `target`, paths taken
/// from the repository root. Subtrees are compared to a depth of at most the number
/// of stored objects: a deeper chain would repeat a tree, and is reported as
/// `CorruptObject`.
pub fn diff_trees(store: &ObjectStore, current: &[u8; 32], target: &[u8; 32]) -> (r: Result<
    Vec<FileChange>,
    VitError,
>)
    requires
        store.wf(),
    ensures
        r matches Err(e) ==> e == VitError::NotFound || e == VitError::CorruptObject,
        store_decodable(store@) ==> (r is Ok <==> diff_spec(
            store@,
            current@,
            target@,
            Seq::empty(),
            store.objects@.len() as nat,
        ) is Some),
        store_decodable(store@) ==> (r matches Ok(cs) ==> change_views(cs@) == diff_spec(
            store@,
            current@,
            target@,
            Seq::empty(),
            store.objects@.len() as nat,
        )->Some_0),
        !store@.contains_key(current@) || !store@.contains_key(target@) ==> r == Err::<Vec<FileChange>, VitError>(VitError::NotFound),
        store_decodable(store@) && store@.contains_key(current@) && store@.contains_key(target@)
            && (tree_at(store@, current@) is None || tree_at(store@, target@) is None)
            ==> r == Err::<Vec<FileChange>, VitError>(VitError::CorruptObject),
{
    let mut changes: Vec<FileChange> = Vec::new();
    assert(change_views(changes@) =~= Seq::<ChangeView>::empty());
    let root = String::new();
    let r = calculate_diff(store, current, target, root.as_str(), store.objects.len(), &mut changes);
    match r {
        Ok(()) => {
            proof {
                if store_decodable(store@) {
                    assert(change_views(changes@) =~= Seq::<ChangeView>::empty() + diff_spec(
                        store@,
                        current@,
                        target@,
                        Seq::empty(),
                        store.objects@.len() as nat,
                    )->Some_0);
                }
            }
            Ok(changes)
        },
        Err(e) => Err(e),
    }
}

/// No two entries of a tree share a name.
pub open spec fn names_unique(ts: Seq<TreeTriple>) -> bool {
    forall|i: int, j: int| 0 <= i < j < ts.len() ==> ts[i].1 != ts[j].1
}

proof fn lemma_find_unique(ts: Seq<TreeTriple>, k: int)
    requires
        names_unique(ts),
        0 <= k < ts.len(),
    ensures
        find_name(ts, ts[k].1) == Some(k),
{
    let name = ts[k].1;
    assert(0 <= k < ts.len() && ts[k].1 == name && forall|j: int| 0 <= j < k ==> ts[j].1 != name);
    let c = choose|i: int|
        0 <= i < ts.len() && ts[i].1 == name && forall|j: int| 0 <= j < i ==> ts[j].1 != name;
    if c < k {
        assert(ts[c].1 != ts[k].1);
    } else if c > k {
        assert(ts[k].1 != ts[c].1);
    }
}

proof fn lemma_target_changes_same(
    m: Map<Seq<u8>, Seq<u8>>,
    ts: Seq<TreeTriple>,
    base: Seq<char>,
    fuel: nat,
    n: nat,
)
    requires
        names_unique(ts),
        n <= ts.len(),
    ensures
        target_changes(m, ts, ts, base, fuel, n) == Some(Seq::<ChangeView>::empty()),
        delete_changes(ts, ts, base, n) == Seq::<ChangeView>::empty(),
    decreases n,
{
    if n > 0 {
        lemma_target_changes_same(m, ts, base, fuel, (n - 1) as nat);
        lemma_find_unique(ts, n - 1);
        assert(entry_changes(m, ts, ts[n - 1], base, fuel) == Some(Seq::<ChangeView>::empty()));
        assert(Seq::<ChangeView>::empty() + Seq::<ChangeView>::empty() =~= Seq::<
            ChangeView,
        >::empty());
    }
}

/// The diff of a tree with itself is empty, for a tree whose entries have
/// distinct names.
pub proof fn lemma_diff_reflexive(
    m: Map<Seq<u8>, Seq<u8>>,
    h: Seq<u8>,
    base: Seq<char>,
    fuel: nat,
)
    requires
        tree_at(m, h) is Some,
        names_unique(tree_at(m, h)->Some_0),
    ensures
        diff_spec(m, h, h, base, fuel) == Some(Seq::<ChangeView>::empty()),
{
    let ts = tree_at(m, h)->Some_0;
    lemma_target_changes_same(m, ts, base, fuel, ts.len() as nat);
    assert(Seq::<ChangeView>::empty() + Seq::<ChangeView>::empty() =~= Seq::<ChangeView>::empty());
}

/// One `Create` for each of the first `n` entries of `t`, in order (the root path
/// excepted).
pub open spec fn all_creates(t: Seq<TreeTriple>, base: Seq<char>, n: nat) -> Seq<ChangeView>
    decreases n,
{
    if n == 0 {
        Seq::empty()
    } else {
        let prev = all_creates(t, base, (n - 1) as nat);
        let e = t[n - 1];
        let path = join_path(base, e.1);
        if path.len() == 0 {
            prev
        } else {
            prev.push(change_of(path, e, Action::Create))
        }
    }
}

proof fn lemma_target_changes_from_empty(
    m: Map<Seq<u8>, Seq<u8>>,
    t: Seq<TreeTriple>,
    base: Seq<char>,
    fuel: nat,
    n: nat,
)
    requires
        n <= t.len(),
    ensures
        target_changes(m, Seq::empty(), t, base, fuel, n) == Some(all_creates(t, base, n)),
        delete_changes(Seq::empty(), t, base, 0) == Seq::<ChangeView>::empty(),
    decreases n,
{
    if n > 0 {
        lemma_target_changes_from_empty(m, t, base, fuel, (n - 1) as nat);
        let prev = all_creates(t, base, (n - 1) as nat);
        assert(prev + Seq::<ChangeView>::empty() =~= prev);
        let e = t[n - 1];
        assert(find_name(Seq::<TreeTriple>::empty(), e.1) is None);
        if join_path(base, e.1).len() == 0 {
            assert(entry_changes(m, Seq::empty(), e, base, fuel) == Some(Seq::<ChangeView>::empty()));
        } else {
            assert(entry_changes(m, Seq::empty(), e, base, fuel) == Some(
                seq![change_of(join_path(base, e.1), e, Action::Create)],
            ));
        }
        assert(prev + seq![change_of(join_path(base, e.1), e, Action::Create)] =~= prev.push(
            change_of(join_path(base, e.1), e, Action::Create),
        ));
    }
}

/// The diff from the empty tree to a tree `t` creates each entry of `t` once, in
/// order, and nothing else.
pub proof fn lemma_diff_from_empty(
    m: Map<Seq<u8>, Seq<u8>>,
    empty: Seq<u8>,
    h: Seq<u8>,
    base: Seq<char>,
    fuel: nat,
)
    requires
        tree_at(m, empty) == Some(Seq::<TreeTriple>::empty()),
        tree_at(m, h) is Some,
    ensures
        diff_spec(m, empty, h, base, fuel) == Some(
            all_creates(tree_at(m, h)->Some_0, base, tree_at(m, h)->Some_0.len() as nat),
        ),
{
    let t = tree_at(m, h)->Some_0;
    lemma_target_changes_from_empty(m, t, base, fuel, t.len() as nat);
    let a = all_creates(t, base, t.len() as nat);
    assert(a + Seq::<ChangeView>::empty() =~= a);
}

} // verus!
