//! Object framing (`"<kind> <len>\0<payload>"`) and the content-addressed object store.
use vstd::prelude::*;
use crate::digest::{sha256, sha256_of, zlib_compress, zlib_decompress, zlib_of};
use crate::encoding::{
    hex_encode, hex_of,
    append_bytes, bytes_equal, copy_range, dec, decimal_bytes, digits_value, find_byte,
    is_canonical_decimal, lemma_dec_canonical, parse_decimal,
};
use crate::error::VitError;

verus! {

/// The three kinds of stored object.
#[derive(Debug, Clone, Copy, PartialEq, Eq, Structural)]
pub enum ObjectKind {
    Blob,
    Tree,
    Commit,
}

/// The word that names a kind in an object header.
pub open spec fn kind_word(k: ObjectKind) -> Seq<u8> {
    match k {
        ObjectKind::Blob => seq![98u8, 108, 111, 98],
        ObjectKind::Tree => seq![116u8, 114, 101, 101],
        ObjectKind::Commit => seq![99u8, 111, 109, 109, 105, 116],
    }
}

/// The header-prefixed byte stream of an object: `"<kind> <len>\0"` then the payload.
pub open spec fn framed(k: ObjectKind, payload: Seq<u8>) -> Seq<u8> {
    kind_word(k) + seq![32u8] + dec(payload.len()) + seq![0u8] + payload
}

/// The identity of an object: the digest of its framed bytes.
pub open spec fn object_id(k: ObjectKind, payload: Seq<u8>) -> Seq<u8> {
    sha256_of(framed(k, payload))
}

/// Whether `data` is the framed form of some object.
pub open spec fn is_framed(data: Seq<u8>) -> bool {
    exists|k: ObjectKind, p: Seq<u8>| data == framed(k, p)
}

proof fn lemma_kind_word_facts(k: ObjectKind)
    ensures
        kind_word(k).len() >= 4,
        forall|i: int| 0 <= i < kind_word(k).len() ==> kind_word(k)[i] != 32u8 && kind_word(k)[i]
            != 0u8,
{
}

/// Where the parts of a framed object lie: the space after the kind word, and the
/// zero byte after the length.
proof fn lemma_framed_layout(k: ObjectKind, p: Seq<u8>)
    ensures
        ({
            let d = framed(k, p);
            let w = kind_word(k).len() as int;
            let z = w + 1 + dec(p.len()).len();
            &&& d[w] == 32u8
            &&& forall|j: int| 0 <= j < w ==> d[j] != 32u8
            &&& d.subrange(0, w) == kind_word(k)
            &&& d[z] == 0u8
            &&& forall|j: int| w + 1 <= j < z ==> d[j] != 0u8
            &&& d.subrange(w + 1, z) == dec(p.len())
            &&& d.subrange(z + 1, d.len() as int) == p
            &&& d.len() == z + 1 + p.len()
        }),
{
    let d = framed(k, p);
    let w = kind_word(k).len() as int;
    let n = dec(p.len());
    let z = w + 1 + n.len();
    lemma_kind_word_facts(k);
    lemma_dec_canonical(p.len());
    assert(d.subrange(0, w) =~= kind_word(k));
    assert(d.subrange(w + 1, z) =~= n);
    assert(d.subrange(z + 1, d.len() as int) =~= p);
    assert forall|j: int| w + 1 <= j < z implies d[j] != 0u8 by {
        assert(d[j] == n[j - w - 1]);
    }
    assert forall|j: int| 0 <= j < w implies d[j] != 32u8 by {
        assert(d[j] == kind_word(k)[j]);
    }
}

/// Framing is one to one: the bytes tell the kind and the payload.
pub proof fn lemma_framed_injective(ka: ObjectKind, pa: Seq<u8>, kb: ObjectKind, pb: Seq<u8>)
    requires
        framed(ka, pa) == framed(kb, pb),
    ensures
        ka == kb,
        pa == pb,
{
    let d = framed(ka, pa);
    lemma_framed_layout(ka, pa);
    lemma_framed_layout(kb, pb);
    let w1 = kind_word(ka).len() as int;
    let w2 = kind_word(kb).len() as int;
    if w1 < w2 {
        assert(d[w1] != 32u8);
    }
    if w2 < w1 {
        assert(d[w2] != 32u8);
    }
    assert(kind_word(ka) == kind_word(kb));
    assert(ka == kb) by {
        if ka != kb {
            assert(kind_word(ka)[0] != kind_word(kb)[0] || kind_word(ka).len() != kind_word(
                kb,
            ).len());
        }
    }
    let z1 = w1 + 1 + dec(pa.len()).len();
    let z2 = w2 + 1 + dec(pb.len()).len();
    if z1 < z2 {
        assert(d[z1] != 0u8);
    }
    if z2 < z1 {
        assert(d[z2] != 0u8);
    }
}

/// The kind and payload that framed bytes hold.
pub open spec fn unframed(data: Seq<u8>) -> (ObjectKind, Seq<u8>)
    recommends
        is_framed(data),
{
    choose|kp: (ObjectKind, Seq<u8>)| data == framed(kp.0, kp.1)
}

/// Framed bytes are the framing of what `unframed` takes from them.
pub proof fn lemma_unframed(x: Seq<u8>)
    requires
        is_framed(x),
    ensures
        x == framed(unframed(x).0, unframed(x).1),
{
    let (k, p) = choose|k: ObjectKind, p: Seq<u8>| x == framed(k, p);
    assert(x == framed((k, p).0, (k, p).1));
}

/// The word of a kind, as bytes.
fn kind_word_bytes(k: ObjectKind) -> (r: Vec<u8>)
    ensures
        r@ == kind_word(k),
{
    let r = match k {
        ObjectKind::Blob => vec![98u8, 108, 111, 98],
        ObjectKind::Tree => vec![116u8, 114, 101, 101],
        ObjectKind::Commit => vec![99u8, 111, 109, 109, 105, 116],
    };
    assert(r@ =~= kind_word(k));
    r
}

/// The kind that a header word names.
fn kind_of_word(w: &[u8]) -> (r: Option<ObjectKind>)
    ensures
        r matches Some(k) ==> kind_word(k) == w@,
        r is None ==> forall|k: ObjectKind| kind_word(k) != w@,
{
    let b = kind_word_bytes(ObjectKind::Blob);
    let t = kind_word_bytes(ObjectKind::Tree);
    let c = kind_word_bytes(ObjectKind::Commit);
    if bytes_equal(w, b.as_slice()) {
        Some(ObjectKind::Blob)
    } else if bytes_equal(w, t.as_slice()) {
        Some(ObjectKind::Tree)
    } else if bytes_equal(w, c.as_slice()) {
        Some(ObjectKind::Commit)
    } else {
        proof {
            assert forall|k: ObjectKind| kind_word(k) != w@ by {
                match k {
                    ObjectKind::Blob => {},
                    ObjectKind::Tree => {},
                    ObjectKind::Commit => {},
                }
            }
        }
        None
    }
}

/// The framed bytes of an object: its header, then its payload.
pub fn frame_object(k: ObjectKind, payload: &[u8]) -> (r: Vec<u8>)
    ensures
        r@ == framed(k, payload@),
{
    let mut out = kind_word_bytes(k);
    out.push(32u8);
    let n = decimal_bytes(payload.len() as u64);
    append_bytes(&mut out, n.as_slice());
    out.push(0u8);
    append_bytes(&mut out, payload);
    assert(out@ =~= framed(k, payload@));
    out
}

/// The hash that identifies an object of kind `k` with this payload.
pub fn hash_object(k: ObjectKind, payload: &[u8]) -> (r: [u8; 32])
    ensures
        r@ == object_id(k, payload@),
{
    let data = frame_object(k, payload);
    sha256(data.as_slice())
}

/// A kind and payload that framed bytes hold, with the layout of the header.
proof fn lemma_framed_witness(data: Seq<u8>) -> (kp: (ObjectKind, Seq<u8>))
    requires
        is_framed(data),
    ensures
        data == framed(kp.0, kp.1),
        ({
            let w = kind_word(kp.0).len() as int;
            let z = w + 1 + dec(kp.1.len()).len();
            &&& data[w] == 32u8
            &&& forall|j: int| 0 <= j < w ==> data[j] != 32u8
            &&& data.subrange(0, w) == kind_word(kp.0)
            &&& data[z] == 0u8
            &&& forall|j: int| w + 1 <= j < z ==> data[j] != 0u8
            &&& data.subrange(w + 1, z) == dec(kp.1.len())
            &&& data.subrange(z + 1, data.len() as int) == kp.1
            &&& data.len() == z + 1 + kp.1.len()
        }),
{
    let (k, p) = choose|k: ObjectKind, p: Seq<u8>| data == framed(k, p);
    lemma_framed_layout(k, p);
    (k, p)
}

/// Splits framed bytes into kind and payload; `CorruptObject` where the header is
/// missing or malformed or the length disagrees with the payload.
pub fn unframe_object(data: &[u8]) -> (r: Result<(ObjectKind, Vec<u8>), VitError>)
    ensures
        r is Ok <==> is_framed(data@),
        r matches Ok((k, p)) ==> data@ == framed(k, p@),
        r matches Err(e) ==> e == VitError::CorruptObject,
{
    let dlen = data.len();
    let sp = match find_byte(data, 0, 32u8) {
        Some(i) => i,
        None => {
            proof {
                if is_framed(data@) {
                    let kp = lemma_framed_witness(data@);
                }
            }
            return Err(VitError::CorruptObject);
        },
    };
    let ghost at_word = is_framed(data@) ==> ({
        let kp = unframed(data@);
        sp == kind_word(kp.0).len()
    });
    proof {
        if is_framed(data@) {
            let kp = lemma_framed_witness(data@);
            lemma_kind_word_facts(kp.0);
            assert(sp == kind_word(kp.0).len());
            let u = unframed(data@);
            lemma_framed_injective(kp.0, kp.1, u.0, u.1);
        }
    }
    let word = copy_range(data, 0, sp);
    let kind = match kind_of_word(word.as_slice()) {
        Some(k) => k,
        None => {
            proof {
                if is_framed(data@) {
                    let kp = lemma_framed_witness(data@);
                    lemma_framed_injective(kp.0, kp.1, unframed(data@).0, unframed(data@).1);
                }
            }
            return Err(VitError::CorruptObject);
        },
    };
    let z = match find_byte(data, sp + 1, 0u8) {
        Some(i) => i,
        None => {
            proof {
                if is_framed(data@) {
                    let kp = lemma_framed_witness(data@);
                    lemma_framed_injective(kp.0, kp.1, unframed(data@).0, unframed(data@).1);
                    let zz = sp + 1 + dec(kp.1.len()).len();
                    assert(data@[zz] == 0u8);
                }
            }
            return Err(VitError::CorruptObject);
        },
    };
    let digits = copy_range(data, sp + 1, z);
    proof {
        if is_framed(data@) {
            let kp = lemma_framed_witness(data@);
            lemma_framed_injective(kp.0, kp.1, unframed(data@).0, unframed(data@).1);
            let zz = sp + 1 + dec(kp.1.len()).len();
            assert(data@[zz] == 0u8);
            assert(z == zz);
            assert(digits@ == dec(kp.1.len()));
        }
    }
    let len = parse_decimal(digits.as_slice());
    proof {
        if is_framed(data@) {
            let kp = lemma_framed_witness(data@);
            lemma_framed_injective(kp.0, kp.1, unframed(data@).0, unframed(data@).1);
            let n = kp.1.len();
            assert(n <= data@.len());
            assert(usize::MAX <= u64::MAX);
            assert((n as u64) as nat == n);
            assert(dec((n as u64) as nat) == digits@);
        }
    }
    let n = match len {
        Some(n) => n,
        None => {
            return Err(VitError::CorruptObject);
        },
    };
    if n > usize::MAX as u64 || n as usize != data.len() - (z + 1) {
        proof {
            if is_framed(data@) {
                let kp = lemma_framed_witness(data@);
                lemma_framed_injective(kp.0, kp.1, unframed(data@).0, unframed(data@).1);
                lemma_dec_canonical(kp.1.len());
                lemma_dec_canonical(n as nat);
                assert(digits_value(dec(n as nat)) == n);
                assert(digits_value(dec(kp.1.len())) == kp.1.len());
                let zz = sp + 1 + dec(kp.1.len()).len();
                assert(z == zz);
                assert(n == kp.1.len());
                assert(data@.len() - (z + 1) == kp.1.len());
                assert(n <= usize::MAX);
            }
        }
        return Err(VitError::CorruptObject);
    }
    let payload = copy_range(data, z + 1, data.len());
    proof {
        let w = data@.subrange(0, sp as int);
        assert(w == word@);
        assert(data@ =~= w + seq![32u8] + digits@ + seq![0u8] + payload@);
        lemma_dec_canonical(n as nat);
        assert(digits_value(dec(n as nat)) == n);
        assert(dec(payload@.len()) == digits@);
        assert(data@ =~= framed(kind, payload@));
    }
    Ok((kind, payload))
}

/// One compressed object, under its hash.
pub struct StoredObject {
    pub hash: [u8; 32],
    pub data: Vec<u8>,
}

/// The object store: compressed objects keyed by hash, each hash held once.
pub struct ObjectStore {
    pub objects: Vec<StoredObject>,
}

impl ObjectStore {
    /// What the store holds: the compressed bytes under each hash.
    pub open spec fn view(&self) -> Map<Seq<u8>, Seq<u8>> {
        Map::new(
            |h: Seq<u8>| exists|i: int| 0 <= i < self.objects@.len() && self.objects@[i].hash@ == h,
            |h: Seq<u8>|
                self.objects@[choose|i: int|
                    0 <= i < self.objects@.len() && self.objects@[i].hash@ == h].data@,
        )
    }

    /// Each hash is held at most once.
    pub open spec fn wf(&self) -> bool {
        forall|i: int, j: int|
            0 <= i < j < self.objects@.len() ==> self.objects@[i].hash@ != self.objects@[j].hash@
    }

    /// An empty store.
    pub fn new() -> (r: ObjectStore)
        ensures
            r.wf(),
            r@ == Map::<Seq<u8>, Seq<u8>>::empty(),
    {
        let r = ObjectStore { objects: Vec::new() };
        assert(r@ =~= Map::<Seq<u8>, Seq<u8>>::empty());
        r
    }

    /// The position of `hash` in the store.
    pub fn position(&self, hash: &[u8; 32]) -> (r: Option<usize>)
        requires
            self.wf(),
        ensures
            r is Some <==> self@.contains_key(hash@),
            r matches Some(i) ==> i < self.objects@.len() && self.objects@[i as int].hash@ == hash@
                && self@[hash@] == self.objects@[i as int].data@,
    {
        let mut i: usize = 0;
        while i < self.objects.len()
            invariant
                0 <= i <= self.objects@.len(),
                self.wf(),
                forall|j: int| 0 <= j < i ==> self.objects@[j].hash@ != hash@,
            decreases self.objects@.len() - i,
        {
            if bytes_equal(self.objects[i].hash.as_slice(), hash.as_slice()) {
                proof {
                    assert(self.objects@[i as int].hash@ == hash@);
                    let c = choose|j: int|
                        0 <= j < self.objects@.len() && self.objects@[j].hash@ == hash@;
                    if c < i {
                        assert(self.objects@[c].hash@ != self.objects@[i as int].hash@);
                    } else if c > i {
                        assert(self.objects@[i as int].hash@ != self.objects@[c].hash@);
                    }
                    assert(c == i as int);
                }
                return Some(i);
            }
            i = i + 1;
        }
        None
    }

    /// Whether an object with this hash is stored.
    pub fn contains(&self, hash: &[u8; 32]) -> (r: bool)
        requires
            self.wf(),
        ensures
            r == self@.contains_key(hash@),
    {
        self.position(hash).is_some()
    }

    /// Adds compressed bytes under `hash`, unless that hash is stored already.
    pub fn insert_raw(&mut self, hash: [u8; 32], data: Vec<u8>)
        requires
            old(self).wf(),
        ensures
            final(self).wf(),
            final(self)@ == if old(self)@.contains_key(hash@) {
                old(self)@
            } else {
                old(self)@.insert(hash@, data@)
            },
    {
        if self.contains(&hash) {
            return;
        }
        let ghost h = hash@;
        let ghost d = data@;
        let ghost before = self.objects@;
        self.objects.push(StoredObject { hash, data });
        proof {
            let n = before.len() as int;
            assert forall|k: Seq<u8>| #[trigger] self@.contains_key(k) == old(self)@.insert(
                h,
                d,
            ).contains_key(k) by {
                if k != h && self@.contains_key(k) {
                    let i = choose|i: int| 0 <= i < self.objects@.len() && self.objects@[i].hash@ == k;
                    assert(i < n);
                    assert(before[i].hash@ == k);
                }
                if k != h && old(self)@.contains_key(k) {
                    let i = choose|i: int| 0 <= i < before.len() && before[i].hash@ == k;
                    assert(self.objects@[i].hash@ == k);
                }
                if k == h {
                    assert(self.objects@[n].hash@ == h);
                }
            }
            assert forall|k: Seq<u8>| #[trigger] self@.contains_key(k) implies self@[k] == old(
                self,
            )@.insert(h, d)[k] by {
                let i = choose|i: int| 0 <= i < self.objects@.len() && self.objects@[i].hash@ == k;
                if k == h {
                    assert(i == n);
                } else {
                    let j = choose|j: int| 0 <= j < before.len() && before[j].hash@ == k;
                    assert(self.objects@[j].hash@ == k);
                    assert(i == j);
                }
            }
            assert(self@ =~= old(self)@.insert(h, d));
        }
    }

    /// The compressed bytes under `hash`.
    pub fn get_raw(&self, hash: &[u8; 32]) -> (r: Option<&Vec<u8>>)
        requires
            self.wf(),
        ensures
            r is Some <==> self@.contains_key(hash@),
            r matches Some(d) ==> d@ == self@[hash@],
    {
        match self.position(hash) {
            Some(i) => Some(&self.objects[i].data),
            None => None,
        }
    }

    /// Removes the object under `hash`, if any.
    pub fn remove(&mut self, hash: &[u8; 32])
        requires
            old(self).wf(),
        ensures
            final(self).wf(),
            final(self)@ == old(self)@.remove(hash@),
    {
        match self.position(hash) {
            None => {
                assert(self@ =~= old(self)@.remove(hash@));
            },
            Some(i) => {
                let ghost before = self.objects@;
                self.objects.remove(i);
                proof {
                    let after = self.objects@;
                    assert forall|a: int| 0 <= a < after.len() implies #[trigger] after[a] == (if a
                        < i {
                        before[a]
                    } else {
                        before[a + 1]
                    }) by {}
                    assert forall|k: Seq<u8>| #[trigger] self@.contains_key(k) == old(
                        self,
                    )@.remove(hash@).contains_key(k) by {
                        if self@.contains_key(k) {
                            let a = choose|a: int| 0 <= a < after.len() && after[a].hash@ == k;
                            if a < i {
                                assert(before[a].hash@ == k);
                            } else {
                                assert(before[a + 1].hash@ == k);
                            }
                        }
                        if old(self)@.remove(hash@).contains_key(k) {
                            let a = choose|a: int| 0 <= a < before.len() && before[a].hash@ == k;
                            if a < i {
                                assert(after[a].hash@ == k);
                            } else {
                                assert(a != i);
                                assert(after[a - 1].hash@ == k);
                            }
                        }
                    }
                    assert forall|k: Seq<u8>| #[trigger] self@.contains_key(k) implies self@[k]
                        == old(self)@.remove(hash@)[k] by {
                        let a = choose|a: int| 0 <= a < after.len() && after[a].hash@ == k;
                        let b = choose|b: int| 0 <= b < before.len() && before[b].hash@ == k;
                        if a < i {
                            assert(a == b);
                        } else {
                            assert(a + 1 == b);
                        }
                    }
                    assert(self@ =~= old(self)@.remove(hash@));
                }
            },
        }
    }
}

/// The store's contents after an object of kind `k` with this payload is stored.
pub open spec fn stored(m: Map<Seq<u8>, Seq<u8>>, k: ObjectKind, payload: Seq<u8>) -> Map<
    Seq<u8>,
    Seq<u8>,
> {
    let h = object_id(k, payload);
    if m.contains_key(h) {
        m
    } else {
        m.insert(h, zlib_of(framed(k, payload)))
    }
}

/// Whether the store holds, under `h`, the compressed form of the framed bytes `x`.
pub open spec fn holds(m: Map<Seq<u8>, Seq<u8>>, h: Seq<u8>, x: Seq<u8>) -> bool {
    m.contains_key(h) && m[h] == zlib_of(x)
}

/// Stores an object under the hash of its framed bytes, compressed; where that hash
/// is stored already, the store is left as it is. Returns the hash.
pub fn store_object(store: &mut ObjectStore, kind: ObjectKind, content: &[u8]) -> (r: [u8; 32])
    requires
        old(store).wf(),
    ensures
        final(store).wf(),
        r@ == object_id(kind, content@),
        final(store)@ == stored(old(store)@, kind, content@),
{
    let data = frame_object(kind, content);
    let hash = sha256(data.as_slice());
    if store.contains(&hash) {
        return hash;
    }
    let compressed = zlib_compress(data.as_slice());
    store.insert_raw(hash, compressed);
    hash
}

/// Storing the same object twice leaves the store as storing it once did, and both
/// calls name it by the same hash.
pub proof fn lemma_store_idempotent(m: Map<Seq<u8>, Seq<u8>>, k: ObjectKind, payload: Seq<u8>)
    ensures
        stored(stored(m, k, payload), k, payload) == stored(m, k, payload),
        stored(m, k, payload).contains_key(object_id(k, payload)),
{
}

/// Hashing is deterministic: equal kinds and payloads give equal hashes.
pub proof fn lemma_hash_deterministic(ka: ObjectKind, pa: Seq<u8>, kb: ObjectKind, pb: Seq<u8>)
    requires
        ka == kb,
        pa == pb,
    ensures
        object_id(ka, pa) == object_id(kb, pb),
        framed(ka, pa) == framed(kb, pb),
{
}

/// The decompressed bytes stored under `hash`: `NotFound` where nothing is stored
/// there, `CorruptObject` where the stored bytes do not decompress.
pub fn decompress_file_content(store: &ObjectStore, hash: &[u8; 32]) -> (r: Result<
    Vec<u8>,
    VitError,
>)
    requires
        store.wf(),
    ensures
        r == Err::<Vec<u8>, VitError>(VitError::NotFound) <==> !store@.contains_key(hash@),
        r matches Err(e) ==> e == VitError::NotFound || e == VitError::CorruptObject,
        forall|x: Seq<u8>| holds(store@, hash@, x) ==> (r matches Ok(d) && d@ == x),
{
    match store.get_raw(hash) {
        None => Err(VitError::NotFound),
        Some(data) => match zlib_decompress(data.as_slice()) {
            Some(d) => Ok(d),
            None => Err(VitError::CorruptObject),
        },
    }
}

/// The kind and payload of the object stored under `hash`.
pub fn load_object(store: &ObjectStore, hash: &[u8; 32]) -> (r: Result<
    (ObjectKind, Vec<u8>),
    VitError,
>)
    requires
        store.wf(),
    ensures
        r == Err::<(ObjectKind, Vec<u8>), VitError>(VitError::NotFound) <==> !store@.contains_key(
            hash@,
        ),
        r matches Err(e) ==> e == VitError::NotFound || e == VitError::CorruptObject,
        forall|x: Seq<u8>|
            holds(store@, hash@, x) ==> if is_framed(x) {
                r matches Ok((k, p)) && k == unframed(x).0 && p@ == unframed(x).1
            } else {
                r == Err::<(ObjectKind, Vec<u8>), VitError>(VitError::CorruptObject)
            },
{
    let data = decompress_file_content(store, hash)?;
    let r = unframe_object(data.as_slice());
    proof {
        assert forall|x: Seq<u8>| holds(store@, hash@, x) && is_framed(x) implies (r matches Ok(
            (k, p),
        ) && k == unframed(x).0 && p@ == unframed(x).1) by {
            let (k, p) = r.unwrap();
            let w = lemma_framed_witness(x);
            assert(x == framed(w.0, w.1));
            let u = unframed(x);
            assert(x == framed(u.0, u.1));
            lemma_framed_injective(k, p@, u.0, u.1);
        }
    }
    r
}

/// The hexadecimal name of a hash: two lower-case digits per byte.
pub fn hash_name(hash: &[u8; 32]) -> (r: String)
    ensures
        r@ == hex_of(hash@),
{
    hex_encode(hash.as_slice())
}

/// Where an object lies below the objects directory: its first byte as a
/// two-digit directory name, and the other 31 bytes as the file name.
pub fn object_path_parts(hash: &[u8; 32]) -> (r: (String, String))
    ensures
        r.0@ == hex_of(hash@.subrange(0, 1)),
        r.1@ == hex_of(hash@.subrange(1, 32)),
{
    let a = vstd::slice::slice_subrange(hash.as_slice(), 0, 1);
    let b = vstd::slice::slice_subrange(hash.as_slice(), 1, 32);
    (hex_encode(a), hex_encode(b))
}

} // verus!
