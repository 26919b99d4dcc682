//! Tree objects: `(mode, name, hash)` triples and their byte format
//! `<mode> <name>\0<32-byte hash>`, with nothing between entries.
use vstd::prelude::*;
use vstd::utf8::{encode_utf8, encode_utf8_decode_utf8, encode_utf8_valid_utf8, valid_utf8};
use crate::encoding::{append_bytes, copy_range, find_byte, str_bytes, string_from_utf8};
use crate::error::VitError;
use crate::object::{holds, load_object, is_framed, unframed, ObjectKind, ObjectStore};

verus! {

/// One child of a directory: its mode, its name and the hash of its blob or tree.
#[derive(Debug)]
pub struct TreeEntry {
    pub mode: String,
    pub name: String,
    pub sha256: [u8; 32],
}

/// What a tree entry holds: mode, name and hash.
pub type TreeTriple = (Seq<char>, Seq<char>, Seq<u8>);

impl View for TreeEntry {
    type V = TreeTriple;

    open spec fn view(&self) -> TreeTriple {
        (self.mode@, self.name@, self.sha256@)
    }
}

/// The triples of a sequence of entries.
pub open spec fn triples(ts: Seq<TreeEntry>) -> Seq<TreeTriple> {
    ts.map_values(|t: TreeEntry| t@)
}

/// A triple that the format can hold: a mode without a space, a name without a
/// zero byte, and a 32-byte hash.
pub open spec fn triple_wf(t: TreeTriple) -> bool {
    &&& !encode_utf8(t.0).contains(32u8)
    &&& !encode_utf8(t.1).contains(0u8)
    &&& t.2.len() == 32
}

/// All triples can be held.
pub open spec fn triples_wf(ts: Seq<TreeTriple>) -> bool {
    forall|i: int| 0 <= i < ts.len() ==> triple_wf(#[trigger] ts[i])
}

/// The bytes of one entry.
pub open spec fn triple_bytes(t: TreeTriple) -> Seq<u8> {
    encode_utf8(t.0) + seq![32u8] + encode_utf8(t.1) + seq![0u8] + t.2
}

/// The payload of a tree object: its entries' bytes, in order.
pub open spec fn tree_bytes(ts: Seq<TreeTriple>) -> Seq<u8>
    decreases ts.len(),
{
    if ts.len() == 0 {
        Seq::empty()
    } else {
        triple_bytes(ts[0]) + tree_bytes(ts.drop_first())
    }
}

/// Whether the bytes are the payload of a tree.
pub open spec fn is_tree_payload(data: Seq<u8>) -> bool {
    exists|ts: Seq<TreeTriple>| triples_wf(ts) && tree_bytes(ts) == data
}

/// The triples that a tree payload holds.
pub open spec fn tree_triples(data: Seq<u8>) -> Seq<TreeTriple>
    recommends
        is_tree_payload(data),
{
    choose|ts: Seq<TreeTriple>| triples_wf(ts) && tree_bytes(ts) == data
}

impl TreeEntry {
    /// The bytes of this entry in a tree payload.
    pub fn to_bytes(&self) -> (r: Vec<u8>)
        ensures
            r@ == triple_bytes(self@),
    {
        let mut entry = str_bytes(self.mode.as_str());
        entry.push(32u8);
        let name = str_bytes(self.name.as_str());
        append_bytes(&mut entry, name.as_slice());
        entry.push(0u8);
        append_bytes(&mut entry, self.sha256.as_slice());
        assert(entry@ =~= triple_bytes(self@));
        entry
    }
}

proof fn lemma_triple_layout(t: TreeTriple)
    requires
        triple_wf(t),
    ensures
        ({
            let b = triple_bytes(t);
            let m = encode_utf8(t.0).len() as int;
            let z = m + 1 + encode_utf8(t.1).len();
            &&& b[m] == 32u8
            &&& forall|j: int| 0 <= j < m ==> b[j] != 32u8
            &&& b.subrange(0, m) == encode_utf8(t.0)
            &&& b[z] == 0u8
            &&& forall|j: int| m + 1 <= j < z ==> b[j] != 0u8
            &&& b.subrange(m + 1, z) == encode_utf8(t.1)
            &&& b.subrange(z + 1, z + 33) == t.2
            &&& b.len() == z + 33
        }),
{
    let b = triple_bytes(t);
    let mb = encode_utf8(t.0);
    let nb = encode_utf8(t.1);
    let m = mb.len() as int;
    let z = m + 1 + nb.len();
    assert(b.subrange(0, m) =~= mb);
    assert(b.subrange(m + 1, z) =~= nb);
    assert(b.subrange(z + 1, z + 33) =~= t.2);
    assert forall|j: int| 0 <= j < m implies b[j] != 32u8 by {
        assert(b[j] == mb[j]);
    }
    assert forall|j: int| m + 1 <= j < z implies b[j] != 0u8 by {
        assert(b[j] == nb[j - m - 1]);
    }
}

/// The bytes of a triple, at the start of `rest`, tell the triple.
proof fn lemma_triple_prefix(a: TreeTriple, b: TreeTriple, rest: Seq<u8>)
    requires
        triple_wf(a),
        triple_wf(b),
        triple_bytes(a).len() <= rest.len(),
        triple_bytes(b).len() <= rest.len(),
        rest.subrange(0, triple_bytes(a).len() as int) == triple_bytes(a),
        rest.subrange(0, triple_bytes(b).len() as int) == triple_bytes(b),
    ensures
        a == b,
{
    lemma_triple_layout(a);
    lemma_triple_layout(b);
    let ba = triple_bytes(a);
    let bb = triple_bytes(b);
    let ma = encode_utf8(a.0).len() as int;
    let mb = encode_utf8(b.0).len() as int;
    assert forall|j: int| 0 <= j < ba.len() implies ba[j] == rest[j] by {
        assert(rest.subrange(0, ba.len() as int)[j] == rest[j]);
    }
    assert forall|j: int| 0 <= j < bb.len() implies bb[j] == rest[j] by {
        assert(rest.subrange(0, bb.len() as int)[j] == rest[j]);
    }
    if ma < mb {
        assert(bb[ma] != 32u8);
    }
    if mb < ma {
        assert(ba[mb] != 32u8);
    }
    assert(ba.subrange(0, ma) =~= bb.subrange(0, ma));
    encode_utf8_decode_utf8(a.0);
    encode_utf8_decode_utf8(b.0);
    let za = ma + 1 + encode_utf8(a.1).len();
    let zb = mb + 1 + encode_utf8(b.1).len();
    if za < zb {
        assert(bb[za] != 0u8);
    }
    if zb < za {
        assert(ba[zb] != 0u8);
    }
    assert(ba.subrange(ma + 1, za) =~= bb.subrange(ma + 1, za));
    encode_utf8_decode_utf8(a.1);
    encode_utf8_decode_utf8(b.1);
    assert(ba.subrange(za + 1, za + 33) =~= bb.subrange(za + 1, za + 33));
}

/// The payload of a tree is that of one list of triples only.
pub proof fn lemma_tree_bytes_injective(a: Seq<TreeTriple>, b: Seq<TreeTriple>)
    requires
        triples_wf(a),
        triples_wf(b),
        tree_bytes(a) == tree_bytes(b),
    ensures
        a == b,
    decreases a.len(),
{
    if a.len() == 0 && b.len() > 0 {
        lemma_triple_layout(b[0]);
    } else if a.len() > 0 && b.len() == 0 {
        lemma_triple_layout(a[0]);
    } else if a.len() > 0 {
        let d = tree_bytes(a);
        assert(d =~= triple_bytes(a[0]) + tree_bytes(a.drop_first()));
        assert(d =~= triple_bytes(b[0]) + tree_bytes(b.drop_first()));
        assert(d.subrange(0, triple_bytes(a[0]).len() as int) =~= triple_bytes(a[0]));
        assert(d.subrange(0, triple_bytes(b[0]).len() as int) =~= triple_bytes(b[0]));
        assert(triple_wf(a[0]) && triple_wf(b[0]));
        lemma_triple_prefix(a[0], b[0], d);
        let n = triple_bytes(a[0]).len() as int;
        assert(tree_bytes(a.drop_first()) =~= d.subrange(n, d.len() as int));
        assert(tree_bytes(b.drop_first()) =~= d.subrange(n, d.len() as int));
        assert(triples_wf(a.drop_first()));
        assert(triples_wf(b.drop_first()));
        lemma_tree_bytes_injective(a.drop_first(), b.drop_first());
        assert(a =~= seq![a[0]] + a.drop_first());
        assert(b =~= seq![b[0]] + b.drop_first());
    }
}

proof fn lemma_tree_bytes_push(ts: Seq<TreeTriple>, t: TreeTriple)
    ensures
        tree_bytes(ts.push(t)) == tree_bytes(ts) + triple_bytes(t),
    decreases ts.len(),
{
    if ts.len() == 0 {
        assert(ts.push(t).drop_first() =~= Seq::<TreeTriple>::empty());
        assert(ts.push(t)[0] == t);
        assert(tree_bytes(Seq::<TreeTriple>::empty()) == Seq::<u8>::empty());
        assert(tree_bytes(ts.push(t)) == triple_bytes(t) + tree_bytes(Seq::<TreeTriple>::empty()));
        assert(tree_bytes(ts.push(t)) =~= tree_bytes(ts) + triple_bytes(t));
    } else {
        lemma_tree_bytes_push(ts.drop_first(), t);
        assert(ts.push(t).drop_first() =~= ts.drop_first().push(t));
        assert(ts.push(t)[0] == ts[0]);
        assert(tree_bytes(ts.push(t)) =~= tree_bytes(ts) + triple_bytes(t));
    }
}

/// The payload of a tree with these entries.
pub fn tree_payload(entries: &[TreeEntry]) -> (r: Vec<u8>)
    ensures
        r@ == tree_bytes(triples(entries@)),
{
    let mut out: Vec<u8> = Vec::new();
    let mut i: usize = 0;
    while i < entries.len()
        invariant
            0 <= i <= entries@.len(),
            out@ == tree_bytes(triples(entries@.subrange(0, i as int))),
        decreases entries@.len() - i,
    {
        let b = entries[i].to_bytes();
        append_bytes(&mut out, b.as_slice());
        proof {
            lemma_tree_bytes_push(triples(entries@.subrange(0, i as int)), entries@[i as int]@);
            assert(triples(entries@.subrange(0, i as int)).push(entries@[i as int]@) =~= triples(
                entries@.subrange(0, i + 1),
            ));
        }
        i = i + 1;
    }
    assert(entries@.subrange(0, entries@.len() as int) =~= entries@);
    out
}

/// Reads the entry that starts at `pos`, with the position after it.
fn read_tree_entry(data: &[u8], pos: usize) -> (r: Option<(TreeEntry, usize)>)
    requires
        pos < data@.len(),
    ensures
        r matches Some((t, next)) ==> pos < next <= data@.len() && triple_wf(t@)
            && data@.subrange(pos as int, next as int) == triple_bytes(t@),
        forall|t: TreeTriple|
            triple_wf(t) && pos + triple_bytes(t).len() <= data@.len() && data@.subrange(
                pos as int,
                pos + triple_bytes(t).len(),
            ) == #[trigger] triple_bytes(t) ==> r is Some,
{
    let dlen = data.len();
    let ghost rest = data@.subrange(pos as int, dlen as int);
    let sp = match find_byte(data, pos, 32u8) {
        Some(i) => i,
        None => {
            proof {
                assert forall|t: TreeTriple|
                    triple_wf(t) && pos + triple_bytes(t).len() <= data@.len() && data@.subrange(
                        pos as int,
                        pos + triple_bytes(t).len(),
                    ) == #[trigger] triple_bytes(t) implies false by {
                    lemma_triple_layout(t);
                    let m = encode_utf8(t.0).len() as int;
                    assert(data@[pos + m] == triple_bytes(t)[m]);
                }
            }
            return None;
        },
    };
    let z = match find_byte(data, sp + 1, 0u8) {
        Some(i) => i,
        None => {
            proof {
                assert forall|t: TreeTriple|
                    triple_wf(t) && pos + triple_bytes(t).len() <= data@.len() && data@.subrange(
                        pos as int,
                        pos + triple_bytes(t).len(),
                    ) == #[trigger] triple_bytes(t) implies false by {
                    lemma_triple_layout(t);
                    let tb = triple_bytes(t);
                    let m = encode_utf8(t.0).len() as int;
                    let zz = m + 1 + encode_utf8(t.1).len();
                    assert(data@[pos + m] == tb[m]);
                    assert(forall|j: int| pos <= j < pos + m ==> data@[j] == tb[j - pos]);
                    assert(sp == pos + m);
                    assert(data@[pos + zz] == tb[zz]);
                }
            }
            return None;
        },
    };
    if dlen - z - 1 < 32 {
        proof {
            assert forall|t: TreeTriple|
                triple_wf(t) && pos + triple_bytes(t).len() <= data@.len() && data@.subrange(
                    pos as int,
                    pos + triple_bytes(t).len(),
                ) == #[trigger] triple_bytes(t) implies false by {
                lemma_triple_layout(t);
                let tb = triple_bytes(t);
                let m = encode_utf8(t.0).len() as int;
                let zz = m + 1 + encode_utf8(t.1).len();
                assert(data@[pos + m] == tb[m]);
                assert(forall|j: int| pos <= j < pos + m ==> data@[j] == tb[j - pos]);
                assert(sp == pos + m);
                assert(data@[pos + zz] == tb[zz]);
                assert(forall|j: int| pos + m + 1 <= j < pos + zz ==> data@[j] == tb[j - pos]);
                assert(z == pos + zz);
            }
        }
        return None;
    }
    let mode_bytes = copy_range(data, pos, sp);
    let name_bytes = copy_range(data, sp + 1, z);
    let ghost mb = mode_bytes@;
    let ghost nb = name_bytes@;
    let ghost well = forall|t: TreeTriple|
        triple_wf(t) && pos + triple_bytes(t).len() <= data@.len() && data@.subrange(
            pos as int,
            pos + triple_bytes(t).len(),
        ) == #[trigger] triple_bytes(t) ==> encode_utf8(t.0) == mb && encode_utf8(t.1) == nb;
    proof {
        assert forall|t: TreeTriple|
            triple_wf(t) && pos + triple_bytes(t).len() <= data@.len() && data@.subrange(
                pos as int,
                pos + triple_bytes(t).len(),
            ) == #[trigger] triple_bytes(t) implies encode_utf8(t.0) == mb && encode_utf8(t.1)
            == nb by {
            lemma_triple_layout(t);
            let tb = triple_bytes(t);
            let m = encode_utf8(t.0).len() as int;
            let zz = m + 1 + encode_utf8(t.1).len();
            assert(data@[pos + m] == tb[m]);
            assert(forall|j: int| pos <= j < pos + m ==> data@[j] == tb[j - pos]);
            assert(sp == pos + m);
            assert(data@[pos + zz] == tb[zz]);
            assert(forall|j: int| pos + m + 1 <= j < pos + zz ==> data@[j] == tb[j - pos]);
            assert(z == pos + zz);
            assert(mb =~= tb.subrange(0, m));
            assert(nb =~= tb.subrange(m + 1, zz));
        }
    }
    let mode = match string_from_utf8(mode_bytes) {
        Some(s) => s,
        None => {
            proof {
                assert forall|t: TreeTriple|
                    triple_wf(t) && pos + triple_bytes(t).len() <= data@.len() && data@.subrange(
                        pos as int,
                        pos + triple_bytes(t).len(),
                    ) == #[trigger] triple_bytes(t) implies false by {
                    encode_utf8_valid_utf8(t.0);
                }
            }
            return None;
        },
    };
    let name = match string_from_utf8(name_bytes) {
        Some(s) => s,
        None => {
            proof {
                assert forall|t: TreeTriple|
                    triple_wf(t) && pos + triple_bytes(t).len() <= data@.len() && data@.subrange(
                        pos as int,
                        pos + triple_bytes(t).len(),
                    ) == #[trigger] triple_bytes(t) implies false by {
                    encode_utf8_valid_utf8(t.1);
                }
            }
            return None;
        },
    };
    let mut sha256 = [0u8; 32];
    let mut i: usize = 0;
    while i < 32
        invariant
            0 <= i <= 32,
            z + 33 <= data@.len(),
            dlen == data@.len(),
            forall|j: int| 0 <= j < i ==> sha256@[j] == data@[z + 1 + j],
        decreases 32 - i,
    {
        sha256[i] = data[z + 1 + i];
        i = i + 1;
    }
    let t = TreeEntry { mode, name, sha256 };
    proof {
        vstd::utf8::decode_utf8_encode_utf8(mb);
        vstd::utf8::decode_utf8_encode_utf8(nb);
        assert(encode_utf8(t.mode@) == mb);
        assert(encode_utf8(t.name@) == nb);
        assert(!mb.contains(32u8)) by {
            if mb.contains(32u8) {
                let j = choose|j: int| 0 <= j < mb.len() && mb[j] == 32u8;
                assert(data@[pos + j] == mb[j]);
            }
        }
        assert(!nb.contains(0u8)) by {
            if nb.contains(0u8) {
                let j = choose|j: int| 0 <= j < nb.len() && nb[j] == 0u8;
                assert(data@[sp + 1 + j] == nb[j]);
            }
        }
        assert(data@.subrange(pos as int, z + 33) =~= triple_bytes(t@));
    }
    Some((t, z + 33))
}

/// The entries of a tree payload; `CorruptObject` where the payload is not a
/// sequence of complete entries.
#[verifier::rlimit(50)]
pub fn parse_tree_entries(data: &[u8]) -> (r: Result<Vec<TreeEntry>, VitError>)
    ensures
        r is Ok <==> is_tree_payload(data@),
        r matches Ok(ts) ==> triples_wf(triples(ts@)) && tree_bytes(triples(ts@)) == data@,
        r matches Ok(ts) ==> triples(ts@) == tree_triples(data@),
        r matches Err(e) ==> e == VitError::CorruptObject,
{
    let ghost target: Option<Seq<TreeTriple>> = if is_tree_payload(data@) {
        Some(tree_triples(data@))
    } else {
        None
    };
    let mut out: Vec<TreeEntry> = Vec::new();
    let mut pos: usize = 0;
    let dlen = data.len();
    assert(data@.subrange(0, 0) =~= tree_bytes(triples(out@)));
    proof {
        if let Some(ts) = target {
            assert(ts.skip(0) =~= ts);
        }
    }
    while pos < dlen
        invariant
            0 <= pos <= data@.len(),
            dlen == data@.len(),
            target is Some <==> is_tree_payload(data@),
            target matches Some(ts) ==> ts == tree_triples(data@),
            triples_wf(triples(out@)),
            data@.subrange(0, pos as int) == tree_bytes(triples(out@)),
            target matches Some(ts) ==> triples_wf(ts) && out@.len() <= ts.len()
                && data@.subrange(pos as int, data@.len() as int) == tree_bytes(
                ts.skip(out@.len() as int),
            ),
        decreases data@.len() - pos,
    {
        let ghost k = out@.len() as int;
        proof {
            if let Some(ts) = target {
                lemma_tree_step_ready(data@, pos as int, ts, k);
            }
        }
        match read_tree_entry(data, pos) {
            None => {
                return Err(VitError::CorruptObject);
            },
            Some((t, next)) => {
                proof {
                    lemma_tree_bytes_push(triples(out@), t@);
                    assert(triples(out@).push(t@) =~= triples(out@.push(t)));
                    assert(data@.subrange(0, next as int) =~= data@.subrange(0, pos as int)
                        + data@.subrange(pos as int, next as int));
                    if let Some(ts) = target {
                        lemma_tree_step(data@, pos as int, next as int, ts, k, t@);
                    }
                    assert forall|i: int| 0 <= i < triples(out@.push(t)).len() implies triple_wf(
                        #[trigger] triples(out@.push(t))[i],
                    ) by {
                        if i < out@.len() {
                            assert(triples(out@.push(t))[i] == triples(out@)[i]);
                        }
                    }
                }
                out.push(t);
                pos = next;
            },
        }
    }
    proof {
        assert(data@.subrange(0, pos as int) =~= data@);
        let ts = tree_triples(data@);
        assert(is_tree_payload(data@));
        lemma_tree_bytes_injective(triples(out@), ts);
    }
    Ok(out)
}

proof fn lemma_tree_step_ready(data: Seq<u8>, pos: int, ts: Seq<TreeTriple>, k: int)
    requires
        0 <= pos < data.len(),
        triples_wf(ts),
        0 <= k <= ts.len(),
        data.subrange(pos, data.len() as int) == tree_bytes(ts.skip(k)),
    ensures
        k < ts.len(),
        pos + triple_bytes(ts[k]).len() <= data.len(),
        data.subrange(pos, pos + triple_bytes(ts[k]).len()) == triple_bytes(ts[k]),
        triple_wf(ts[k]),
{
    let rest = data.subrange(pos, data.len() as int);
    if k == ts.len() {
        assert(ts.skip(k) =~= Seq::<TreeTriple>::empty());
        assert(tree_bytes(Seq::<TreeTriple>::empty()) == Seq::<u8>::empty());
        assert(rest.len() > 0);
        assert(false);
    }
    assert(ts.skip(k)[0] == ts[k]);
    assert(rest =~= triple_bytes(ts[k]) + tree_bytes(ts.skip(k).drop_first()));
    assert(data.subrange(pos, pos + triple_bytes(ts[k]).len()) =~= triple_bytes(ts[k]));
}

proof fn lemma_tree_step(
    data: Seq<u8>,
    pos: int,
    next: int,
    ts: Seq<TreeTriple>,
    k: int,
    t: TreeTriple,
)
    requires
        0 <= pos < next <= data.len(),
        triples_wf(ts),
        0 <= k < ts.len(),
        pos + triple_bytes(ts[k]).len() <= data.len(),
        data.subrange(pos, data.len() as int) == tree_bytes(ts.skip(k)),
        triple_wf(t),
        data.subrange(pos, next) == triple_bytes(t),
    ensures
        t == ts[k],
        data.subrange(next, data.len() as int) == tree_bytes(ts.skip(k + 1)),
{
    let rest = data.subrange(pos, data.len() as int);
    assert(ts.skip(k)[0] == ts[k]);
    assert(ts.skip(k).drop_first() =~= ts.skip(k + 1));
    assert(rest =~= triple_bytes(ts[k]) + tree_bytes(ts.skip(k + 1)));
    assert(rest.subrange(0, triple_bytes(ts[k]).len() as int) =~= triple_bytes(ts[k]));
    assert(rest.subrange(0, next - pos) =~= triple_bytes(t));
    lemma_triple_prefix(t, ts[k], rest);
    assert(data.subrange(next, data.len() as int) =~= rest.subrange(
        triple_bytes(t).len() as int,
        rest.len() as int,
    ));
}

/// Whether the store holds, under `h`, exactly the stream that this build's
/// compressor writes for some bytes (`zlib_of`); other zlib streams are not covered.
pub open spec fn decodable_at(m: Map<Seq<u8>, Seq<u8>>, h: Seq<u8>) -> bool {
    exists|x: Seq<u8>| holds(m, h, x)
}

/// Whether every stored object is the stream that this build's compressor writes
/// for some bytes.
pub open spec fn store_decodable(m: Map<Seq<u8>, Seq<u8>>) -> bool {
    forall|h: Seq<u8>| m.contains_key(h) ==> decodable_at(m, h)
}

/// The framed bytes stored under `h`.
pub open spec fn object_at(m: Map<Seq<u8>, Seq<u8>>, h: Seq<u8>) -> Seq<u8> {
    choose|x: Seq<u8>| holds(m, h, x)
}

/// The triples of the tree stored under `h`, if a tree is stored there.
#[verifier::opaque]
pub open spec fn tree_at(m: Map<Seq<u8>, Seq<u8>>, h: Seq<u8>) -> Option<Seq<TreeTriple>> {
    let x = object_at(m, h);
    if decodable_at(m, h) && is_framed(x) && unframed(x).0 == ObjectKind::Tree && is_tree_payload(
        unframed(x).1,
    ) {
        Some(tree_triples(unframed(x).1))
    } else {
        None
    }
}

/// The entries of the tree stored under `hash`: `NotFound` where nothing is stored
/// there, `CorruptObject` where the object is not a well-formed tree.
pub fn load_tree(store: &ObjectStore, hash: &[u8; 32]) -> (r: Result<Vec<TreeEntry>, VitError>)
    requires
        store.wf(),
    ensures
        !store@.contains_key(hash@) ==> r == Err::<Vec<TreeEntry>, VitError>(VitError::NotFound),
        r matches Err(e) ==> e == VitError::NotFound || e == VitError::CorruptObject,
        decodable_at(store@, hash@) ==> (r is Ok <==> tree_at(store@, hash@) is Some),
        store_decodable(store@) ==> (r is Ok <==> tree_at(store@, hash@) is Some),
        store@.contains_key(hash@) ==> (r matches Err(e) ==> e == VitError::CorruptObject),
        decodable_at(store@, hash@) ==> (r matches Ok(ts) ==> triples(ts@) == tree_at(
            store@,
            hash@,
        )->Some_0),
{
    proof {
        reveal(tree_at);
        if store_decodable(store@) && store@.contains_key(hash@) {
            assert(decodable_at(store@, hash@));
        }
        if !store@.contains_key(hash@) {
            assert(!decodable_at(store@, hash@));
        }
    }
    let (kind, payload) = load_object(store, hash)?;
    if kind != ObjectKind::Tree {
        return Err(VitError::CorruptObject);
    }
    parse_tree_entries(payload.as_slice())
}

/// Nothing stored under `h` means no tree there.
pub proof fn lemma_tree_at_absent(m: Map<Seq<u8>, Seq<u8>>, h: Seq<u8>)
    ensures
        !m.contains_key(h) ==> tree_at(m, h) is None,
{
    reveal(tree_at);
}

} // verus!
