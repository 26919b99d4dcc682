//! The tree builder: the index, as a hash-linked tree with one tree object per
//! directory, entries sorted by name, subdirectories hashed before their parents.
use vstd::prelude::*;
use vstd::string::{StrSliceExecFns, StringExecFns};
use vstd::utf8::{
    decode_utf8, encode_utf8, encode_utf8_decode_utf8, encode_utf8_valid_utf8, is_ascii_chars,
    is_ascii_chars_encode_utf8,
};
use crate::digest::zlib_of;
use crate::encoding::{dec, decimal_bytes, lemma_dec_canonical, str_bytes, string_from_utf8};
use crate::index::IndexEntry;
use crate::object::{framed, object_id, store_object, ObjectKind, ObjectStore};
use crate::tree::{tree_bytes, tree_payload, triples, TreeEntry, TreeTriple};

verus! {

/// Enough levels for any path that the index can hold (its paths are under 4096
/// bytes, so they have fewer than 2048 levels).
pub const MAX_DEPTH: usize = 4096;

/// A file to place in a tree: its path below the tree's directory, its mode text
/// and its blob hash.
pub type Leaf = (Seq<char>, Seq<char>, Seq<u8>);

/// The characters of a byte string of ASCII codes.
pub open spec fn ascii_chars(b: Seq<u8>) -> Seq<char> {
    b.map_values(|x: u8| x as char)
}

/// The mode of a file as tree text: its decimal digits.
pub open spec fn mode_text(mode: u32) -> Seq<char> {
    ascii_chars(dec(mode as nat))
}

/// The mode text of a directory, `040000`.
pub open spec fn dir_mode_text() -> Seq<char> {
    seq!['0', '4', '0', '0', '0', '0']
}

/// The leaves of the index entries, from the repository root.
pub open spec fn leaves_of(es: Seq<IndexEntry>) -> Seq<Leaf> {
    es.map_values(|e: IndexEntry| (e.path@, mode_text(e.mode), e.sha256@))
}

/// The position of the first `/` in a path.
pub open spec fn slash_at(p: Seq<char>) -> Option<int> {
    if exists|i: int| 0 <= i < p.len() && p[i] == '/' {
        Some(choose|i: int| 0 <= i < p.len() && p[i] == '/' && forall|j: int| 0 <= j < i ==> p[j] != '/')
    } else {
        None
    }
}

/// The first component of a path below a directory, where it has more than one.
pub open spec fn dir_of(p: Seq<char>) -> Option<Seq<char>> {
    match slash_at(p) {
        Some(k) => Some(p.subrange(0, k)),
        None => None,
    }
}

/// What is left of a path after its first component.
pub open spec fn rest_of(p: Seq<char>) -> Seq<char> {
    match slash_at(p) {
        Some(k) => p.subrange(k + 1, p.len() as int),
        None => p,
    }
}

/// Whether one of the first `n` leaves lies in the subdirectory `c`.
pub open spec fn seen_dir(ls: Seq<Leaf>, c: Seq<char>, n: int) -> bool {
    exists|i: int| 0 <= i < n && dir_of(ls[i].0) == Some(c)
}

/// The first `n` leaves that lie in subdirectory `c`, with paths taken below it.
pub open spec fn leaves_under(ls: Seq<Leaf>, c: Seq<char>, n: nat) -> Seq<Leaf>
    decreases n,
{
    if n == 0 {
        Seq::empty()
    } else {
        let prev = leaves_under(ls, c, (n - 1) as nat);
        let l = ls[n - 1];
        if dir_of(l.0) == Some(c) {
            prev.push((rest_of(l.0), l.1, l.2))
        } else {
            prev
        }
    }
}

/// The triples of a directory before sorting, from its first `n` leaves: one per
/// file directly inside it, and one per subdirectory where a leaf first names it.
pub open spec fn raw_triples(ls: Seq<Leaf>, fuel: nat, n: nat) -> Seq<TreeTriple>
    decreases fuel, 0nat, n,
{
    if n == 0 {
        Seq::empty()
    } else {
        let prev = raw_triples(ls, fuel, (n - 1) as nat);
        let l = ls[n - 1];
        match dir_of(l.0) {
            None => prev.push((l.1, l.0, l.2)),
            Some(c) => if seen_dir(ls, c, n - 1) || fuel == 0 {
                prev
            } else {
                prev.push(
                    (
                        dir_mode_text(),
                        c,
                        dir_hash(leaves_under(ls, c, ls.len() as nat), (fuel - 1) as nat),
                    ),
                )
            },
        }
    }
}

/// Whether a name sorts no later than another: byte-wise on their UTF-8.
pub open spec fn name_le(a: Seq<char>, b: Seq<char>) -> bool {
    bytes_le(encode_utf8(a), encode_utf8(b))
}

/// Lexicographic order on byte strings.
pub open spec fn bytes_le(a: Seq<u8>, b: Seq<u8>) -> bool
    decreases a.len(),
{
    if a.len() == 0 {
        true
    } else if b.len() == 0 {
        false
    } else if a[0] != b[0] {
        a[0] < b[0]
    } else {
        bytes_le(a.drop_first(), b.drop_first())
    }
}

/// `x` placed into the name-sorted `s`, after every entry whose name sorts no later.
pub open spec fn insert_by_name(s: Seq<TreeTriple>, x: TreeTriple) -> Seq<TreeTriple>
    decreases s.len(),
{
    if s.len() == 0 {
        seq![x]
    } else if name_le(s.last().1, x.1) {
        s.push(x)
    } else {
        insert_by_name(s.drop_last(), x).push(s.last())
    }
}

/// The triples sorted by name, stably.
pub open spec fn sort_by_name(s: Seq<TreeTriple>) -> Seq<TreeTriple>
    decreases s.len(),
{
    if s.len() == 0 {
        Seq::empty()
    } else {
        insert_by_name(sort_by_name(s.drop_last()), s.last())
    }
}

/// The triples of the directory that holds these leaves.
pub open spec fn dir_triples(ls: Seq<Leaf>, fuel: nat) -> Seq<TreeTriple>
    decreases fuel, 1nat, 0nat,
{
    sort_by_name(raw_triples(ls, fuel, ls.len() as nat))
}

/// The hash of the tree of the directory that holds these leaves.
pub open spec fn dir_hash(ls: Seq<Leaf>, fuel: nat) -> Seq<u8>
    decreases fuel, 2nat, 0nat,
{
    object_id(ObjectKind::Tree, tree_bytes(dir_triples(ls, fuel)))
}

/// A leaf as the builder holds it.
struct LeafEntry {
    path: String,
    mode: String,
    hash: [u8; 32],
}

impl View for LeafEntry {
    type V = Leaf;

    closed spec fn view(&self) -> Leaf {
        (self.path@, self.mode@, self.hash@)
    }
}

spec fn leaf_views(ls: Seq<LeafEntry>) -> Seq<Leaf> {
    ls.map_values(|l: LeafEntry| l@)
}

/// The decimal text of a mode.
pub fn mode_string(mode: u32) -> (r: String)
    ensures
        r@ == mode_text(mode),
{
    let b = decimal_bytes(mode as u64);
    let ghost chars = ascii_chars(b@);
    proof {
        lemma_dec_canonical(mode as nat);
        assert(is_ascii_chars(chars)) by {
            assert forall|i: int| 0 <= i < chars.len() implies (chars[i] as u32) < 128 by {
                assert(crate::encoding::is_digit(b@[i]));
            }
        }
        is_ascii_chars_encode_utf8(chars);
        assert(encode_utf8(chars) =~= b@);
        encode_utf8_valid_utf8(chars);
        encode_utf8_decode_utf8(chars);
    }
    match string_from_utf8(b) {
        Some(s) => s,
        None => {
            proof {
                assert(false);
            }
            String::new()
        },
    }
}

/// The position of the first `/` in `p`.
fn find_slash(p: &str) -> (r: Option<usize>)
    ensures
        r matches Some(k) ==> k < p@.len() && slash_at(p@) == Some(k as int),
        r is None ==> slash_at(p@) is None,
{
    let n = p.unicode_len();
    let mut i: usize = 0;
    while i < n
        invariant
            0 <= i <= n,
            n == p@.len(),
            forall|j: int| 0 <= j < i ==> p@[j] != '/',
        decreases n - i,
    {
        if p.get_char(i) == '/' {
            proof {
                let c = choose|c: int|
                    0 <= c < p@.len() && p@[c] == '/' && forall|j: int| 0 <= j < c ==> p@[j] != '/';
                if c > i {
                    assert(p@[i as int] != '/');
                }
            }
            return Some(i);
        }
        i = i + 1;
    }
    None
}

/// Whether `a` sorts no later than `b`.
fn name_le_exec(a: &String, b: &String) -> (r: bool)
    ensures
        r == name_le(a@, b@),
{
    let x = str_bytes(a.as_str());
    let y = str_bytes(b.as_str());
    assert(x@ == encode_utf8(a@) && y@ == encode_utf8(b@));
    let mut i: usize = 0;
    assert(x@.skip(0) =~= x@);
    assert(y@.skip(0) =~= y@);
    while i < x.len() && i < y.len()
        invariant
            0 <= i <= x@.len(),
            i <= y@.len(),
            x@ == encode_utf8(a@),
            y@ == encode_utf8(b@),
            forall|j: int| 0 <= j < i ==> x@[j] == y@[j],
            bytes_le(x@, y@) == bytes_le(x@.skip(i as int), y@.skip(i as int)),
        decreases x@.len() - i,
    {
        if x[i] != y[i] {
            assert(x@.skip(i as int)[0] == x@[i as int]);
            assert(y@.skip(i as int)[0] == y@[i as int]);
            assert(x@.skip(i as int).len() > 0 && y@.skip(i as int).len() > 0);
            assert(bytes_le(x@.skip(i as int), y@.skip(i as int)) == (x@[i as int] < y@[i as int]));
            return x[i] < y[i];
        }
        assert(x@.skip(i as int).drop_first() =~= x@.skip(i + 1));
        assert(y@.skip(i as int).drop_first() =~= y@.skip(i + 1));
        i = i + 1;
    }
    if i == x.len() {
        assert(x@.skip(i as int).len() == 0);
        true
    } else {
        assert(y@.skip(i as int).len() == 0);
        false
    }
}

/// Inserts `x` into the name-sorted `v`, after every entry whose name sorts no later.
fn insert_sorted(v: &mut Vec<TreeEntry>, x: TreeEntry)
    ensures
        triples(final(v)@) == insert_by_name(triples(old(v)@), x@),
{
    let ghost s = triples(v@);
    let mut p: usize = v.len();
    assert(s.subrange(0, p as int) =~= s);
    assert(insert_by_name(s, x@) =~= insert_by_name(s.subrange(0, p as int), x@) + s.subrange(
        p as int,
        s.len() as int,
    ));
    while p > 0 && !name_le_exec(&v[p - 1].name, &x.name)
        invariant
            0 <= p <= v@.len(),
            s == triples(v@),
            insert_by_name(s, x@) == insert_by_name(s.subrange(0, p as int), x@) + s.subrange(
                p as int,
                s.len() as int,
            ),
        decreases p,
    {
        proof {
            let t = s.subrange(0, p as int);
            assert(t.last() == s[p - 1]);
            assert(t.drop_last() =~= s.subrange(0, p - 1));
            assert(insert_by_name(t, x@) == insert_by_name(t.drop_last(), x@).push(t.last()));
            assert(insert_by_name(s.subrange(0, p - 1), x@) + s.subrange(p - 1, s.len() as int)
                =~= insert_by_name(t, x@) + s.subrange(p as int, s.len() as int));
        }
        p = p - 1;
    }
    proof {
        let t = s.subrange(0, p as int);
        if p == 0 {
            assert(t =~= Seq::<TreeTriple>::empty());
        } else {
            assert(t.last() == s[p - 1]);
        }
        assert(insert_by_name(t, x@) =~= t.push(x@));
    }
    v.insert(p, x);
    proof {
        assert(triples(v@) =~= s.subrange(0, p as int).push(x@) + s.subrange(p as int, s.len() as int));
    }
    assert(triples(v@) =~= insert_by_name(s, x@));
}

/// The leaves of a subdirectory `c`, with paths below it.
fn leaves_in(ls: &Vec<LeafEntry>, c: &String) -> (r: Vec<LeafEntry>)
    ensures
        leaf_views(r@) == leaves_under(leaf_views(ls@), c@, ls@.len() as nat),
{
    let ghost lv = leaf_views(ls@);
    let mut out: Vec<LeafEntry> = Vec::new();
    let mut i: usize = 0;
    while i < ls.len()
        invariant
            0 <= i <= ls@.len(),
            lv == leaf_views(ls@),
            leaf_views(out@) == leaves_under(lv, c@, i as nat),
        decreases ls@.len() - i,
    {
        let l = &ls[i];
        assert(lv[i as int] == l@);
        match find_slash(l.path.as_str()) {
            Some(k) => {
                let head = <String as StringExecFns>::from_str(l.path.as_str().substring_char(0, k));
                if head == *c {
                    let n = l.path.as_str().unicode_len();
                    let tail = l.path.as_str().substring_char(k + 1, n);
                    let e = LeafEntry {
                        path: <String as StringExecFns>::from_str(tail),
                        mode: l.mode.clone(),
                        hash: l.hash,
                    };
                    out.push(e);
                    assert(leaf_views(out@) =~= leaves_under(lv, c@, (i + 1) as nat));
                } else {
                    assert(leaf_views(out@) =~= leaves_under(lv, c@, (i + 1) as nat));
                }
            },
            None => {
                assert(leaf_views(out@) =~= leaves_under(lv, c@, (i + 1) as nat));
            },
        }
        i = i + 1;
    }
    out
}

/// Whether one of the first `n` leaves lies in the subdirectory `c`.
fn seen_before(ls: &Vec<LeafEntry>, c: &String, n: usize) -> (r: bool)
    requires
        n <= ls@.len(),
    ensures
        r == seen_dir(leaf_views(ls@), c@, n as int),
{
    let ghost lv = leaf_views(ls@);
    let mut i: usize = 0;
    while i < n
        invariant
            0 <= i <= n,
            n <= ls@.len(),
            lv == leaf_views(ls@),
            forall|j: int| 0 <= j < i ==> dir_of(lv[j].0) != Some(c@),
        decreases n - i,
    {
        let l = &ls[i];
        assert(lv[i as int] == l@);
        match find_slash(l.path.as_str()) {
            Some(k) => {
                let head = <String as StringExecFns>::from_str(l.path.as_str().substring_char(0, k));
                if head == *c {
                    return true;
                }
            },
            None => {},
        }
        i = i + 1;
    }
    false
}

/// Stores the tree of the directory that holds these leaves, and the trees of its
/// subdirectories before it. Returns its hash.
fn build_dir(store: &mut ObjectStore, ls: &Vec<LeafEntry>, fuel: usize) -> (r: [u8; 32])
    requires
        old(store).wf(),
    ensures
        final(store).wf(),
        r@ == dir_hash(leaf_views(ls@), fuel as nat),
        old(store)@.submap_of(final(store)@),
        final(store)@.contains_key(r@),
    decreases fuel,
{
    let ghost lv = leaf_views(ls@);
    let mut raw: Vec<TreeEntry> = Vec::new();
    let mut i: usize = 0;
    while i < ls.len()
        invariant
            0 <= i <= ls@.len(),
            store.wf(),
            lv == leaf_views(ls@),
            old(store)@.submap_of(store@),
            triples(raw@) == raw_triples(lv, fuel as nat, i as nat),
        decreases ls@.len() - i,
    {
        let l = &ls[i];
        assert(lv[i as int] == l@);
        match find_slash(l.path.as_str()) {
            None => {
                raw.push(TreeEntry { mode: l.mode.clone(), name: l.path.clone(), sha256: l.hash });
                assert(triples(raw@) =~= raw_triples(lv, fuel as nat, (i + 1) as nat));
            },
            Some(k) => {
                let head = <String as StringExecFns>::from_str(l.path.as_str().substring_char(0, k));
                if fuel == 0 || seen_before(ls, &head, i) {
                    assert(triples(raw@) =~= raw_triples(lv, fuel as nat, (i + 1) as nat));
                } else {
                    let sub = leaves_in(ls, &head);
                    let ghost mid = store@;
                    let h = build_dir(store, &sub, fuel - 1);
                    proof {
                        vstd::map_lib::lemma_submap_of_trans(old(store)@, mid, store@);
                    }
                    let mode = <String as StringExecFns>::from_str("040000");
                    proof {
                        reveal_strlit("040000");
                    }
                    assert(mode@ =~= dir_mode_text());
                    raw.push(TreeEntry { mode, name: head, sha256: h });
                    assert(triples(raw@) =~= raw_triples(lv, fuel as nat, (i + 1) as nat));
                }
            },
        }
        i = i + 1;
    }
    let mut sorted: Vec<TreeEntry> = Vec::new();
    let mut j: usize = 0;
    assert(triples(sorted@) =~= sort_by_name(triples(raw@).subrange(0, 0)));
    let ghost rt = triples(raw@);
    assert(rt.len() == raw.len());
    while raw.len() > 0
        invariant
            j + raw@.len() == rt.len(),
            rt.len() <= usize::MAX,
            triples(raw@) == rt.subrange(j as int, rt.len() as int),
            triples(sorted@) == sort_by_name(rt.subrange(0, j as int)),
        decreases raw@.len(),
    {
        assert(triples(raw@)[0] == raw@[0]@);
        let ghost before = triples(raw@);
        let x = raw.remove(0);
        assert(triples(raw@) =~= before.drop_first());
        proof {
            assert(x@ == rt[j as int]);
            let p = rt.subrange(0, j + 1);
            assert(p.drop_last() =~= rt.subrange(0, j as int));
            assert(p.last() == rt[j as int]);
        }
        insert_sorted(&mut sorted, x);
        j = j + 1;
        assert(triples(raw@) =~= rt.subrange(j as int, rt.len() as int));
    }
    assert(rt.subrange(0, j as int) =~= rt);
    let payload = tree_payload(sorted.as_slice());
    let ghost before = store@;
    let h = store_object(store, ObjectKind::Tree, payload.as_slice());
    proof {
        assert(before.submap_of(store@));
    }
    h
}

/// Builds and stores the tree objects of the index, one per directory, and returns
/// the hash of the root tree.
pub fn build_tree(store: &mut ObjectStore, index_entries: &[IndexEntry]) -> (r: [u8; 32])
    requires
        old(store).wf(),
    ensures
        final(store).wf(),
        r@ == dir_hash(leaves_of(index_entries@), MAX_DEPTH as nat),
        old(store)@.submap_of(final(store)@),
        final(store)@.contains_key(r@),
{
    let mut ls: Vec<LeafEntry> = Vec::new();
    let mut i: usize = 0;
    while i < index_entries.len()
        invariant
            0 <= i <= index_entries@.len(),
            leaf_views(ls@) == leaves_of(index_entries@.subrange(0, i as int)),
        decreases index_entries@.len() - i,
    {
        let e = &index_entries[i];
        let l = LeafEntry { path: e.path.clone(), mode: mode_string(e.mode), hash: e.sha256 };
        assert(index_entries@[i as int] == *e);
        let ghost prev = ls@;
        assert(l@ == (e.path@, mode_text(e.mode), e.sha256@));
        ls.push(l);
        assert(index_entries@.subrange(0, i + 1) =~= index_entries@.subrange(0, i as int).push(*e));
        assert(leaf_views(ls@) =~= leaf_views(prev).push(l@));
        assert(leaves_of(index_entries@.subrange(0, i as int).push(*e)) =~= leaves_of(
            index_entries@.subrange(0, i as int),
        ).push((e.path@, mode_text(e.mode), e.sha256@)));
        assert(leaf_views(ls@) =~= leaves_of(index_entries@.subrange(0, i + 1)));
        i = i + 1;
    }
    assert(index_entries@.subrange(0, index_entries@.len() as int) =~= index_entries@);
    build_dir(store, &ls, MAX_DEPTH)
}

/// Building twice from the same entries gives the same root hash.
pub proof fn lemma_build_tree_deterministic(a: Seq<IndexEntry>, b: Seq<IndexEntry>)
    requires
        leaves_of(a) == leaves_of(b),
    ensures
        dir_hash(leaves_of(a), MAX_DEPTH as nat) == dir_hash(leaves_of(b), MAX_DEPTH as nat),
{
}

} // verus!
