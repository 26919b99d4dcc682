//! Commit objects and their text format.
use vstd::prelude::*;
use vstd::utf8::encode_utf8;
use vstd::string::StrSliceExecFns;
use vstd::utf8::{
    decode_utf8, decode_utf8_encode_utf8, encode_utf8_decode_utf8, encode_utf8_valid_utf8,
    is_ascii_chars, is_ascii_chars_encode_utf8, valid_utf8,
};
use crate::encoding::{dec, is_digit, lemma_dec_canonical, lemma_hex_of_facts, lemma_unhex_hex, unhex};
use crate::encoding::{
    append_bytes, bytes_equal, copy_range, find_byte, hex_decode, hex_encode, hex_of,
    is_lower_hex, lemma_hex_round_trip, parse_signed, rfind_byte, signed_dec,
    signed_decimal_bytes, str_bytes, string_from_utf8,
};
use crate::error::VitError;
use crate::object::{load_object, ObjectKind, ObjectStore};

verus! {

/// A snapshot record: its tree, its parent (all zero for a root commit), who made
/// it and when, and its message.
#[derive(Debug)]
pub struct CommitEntry {
    pub tree: [u8; 32],
    pub parent: [u8; 32],
    pub author: String,
    pub committer: String,
    pub timestamp: i64,
    pub timezone: String,
    pub message: String,
}

/// One `<key> <value>\n` header line whose value is a hash in hexadecimal.
pub open spec fn hash_line(key: Seq<u8>, h: Seq<u8>) -> Seq<u8> {
    key + seq![32u8] + encode_utf8(hex_of(h)) + seq![10u8]
}

/// One person line: `<key> <who> <timestamp> <timezone>\n`.
pub open spec fn person_line(key: Seq<u8>, who: Seq<char>, ts: i64, tz: Seq<char>) -> Seq<u8> {
    key + seq![32u8] + encode_utf8(who) + seq![32u8] + signed_dec(ts as int) + seq![32u8]
        + encode_utf8(tz) + seq![10u8]
}

pub open spec fn tree_key() -> Seq<u8> {
    seq![116u8, 114, 101, 101]
}

pub open spec fn parent_key() -> Seq<u8> {
    seq![112u8, 97, 114, 101, 110, 116]
}

/// The key of the hash line `which` (0 for the tree, else the parent).
pub open spec fn hash_key(which: u8) -> Seq<u8> {
    if which == 0 {
        tree_key()
    } else {
        parent_key()
    }
}

pub open spec fn author_key() -> Seq<u8> {
    seq![97u8, 117, 116, 104, 111, 114]
}

pub open spec fn committer_key() -> Seq<u8> {
    seq![99u8, 111, 109, 109, 105, 116, 116, 101, 114]
}

/// The payload of a commit object.
pub open spec fn commit_bytes(c: CommitEntry) -> Seq<u8> {
    hash_line(tree_key(), c.tree@) + hash_line(parent_key(), c.parent@) + person_line(
        author_key(),
        c.author@,
        c.timestamp,
        c.timezone@,
    ) + person_line(committer_key(), c.committer@, c.timestamp, c.timezone@) + seq![10u8]
        + encode_utf8(c.message@)
}

fn key_bytes(which: u8) -> (r: Vec<u8>)
    ensures
        which == 0 ==> r@ == tree_key(),
        which == 1 ==> r@ == parent_key(),
        which == 2 ==> r@ == author_key(),
        which >= 3 ==> r@ == committer_key(),
{
    let r = if which == 0 {
        vec![116u8, 114, 101, 101]
    } else if which == 1 {
        vec![112u8, 97, 114, 101, 110, 116]
    } else if which == 2 {
        vec![97u8, 117, 116, 104, 111, 114]
    } else {
        vec![99u8, 111, 109, 109, 105, 116, 116, 101, 114]
    };
    assert(which == 0 ==> r@ =~= tree_key());
    assert(which == 1 ==> r@ =~= parent_key());
    assert(which == 2 ==> r@ =~= author_key());
    assert(which >= 3 ==> r@ =~= committer_key());
    r
}

fn push_hash_line(out: &mut Vec<u8>, which: u8, h: &[u8; 32])
    ensures
        which == 0 ==> final(out)@ == old(out)@ + hash_line(tree_key(), h@),
        which == 1 ==> final(out)@ == old(out)@ + hash_line(parent_key(), h@),
{
    let k = key_bytes(which);
    append_bytes(out, k.as_slice());
    out.push(32u8);
    let hex = hex_encode(h.as_slice());
    let hb = str_bytes(hex.as_str());
    append_bytes(out, hb.as_slice());
    out.push(10u8);
    assert(which == 0 ==> final(out)@ =~= old(out)@ + hash_line(tree_key(), h@));
    assert(which == 1 ==> final(out)@ =~= old(out)@ + hash_line(parent_key(), h@));
}

fn push_person_line(out: &mut Vec<u8>, which: u8, who: &String, ts: i64, tz: &String)
    ensures
        which == 2 ==> final(out)@ == old(out)@ + person_line(author_key(), who@, ts, tz@),
        which == 3 ==> final(out)@ == old(out)@ + person_line(committer_key(), who@, ts, tz@),
{
    let k = key_bytes(which);
    append_bytes(out, k.as_slice());
    out.push(32u8);
    let w = str_bytes(who.as_str());
    append_bytes(out, w.as_slice());
    out.push(32u8);
    let t = signed_decimal_bytes(ts);
    append_bytes(out, t.as_slice());
    out.push(32u8);
    let z = str_bytes(tz.as_str());
    append_bytes(out, z.as_slice());
    out.push(10u8);
    assert(which == 2 ==> final(out)@ =~= old(out)@ + person_line(author_key(), who@, ts, tz@));
    assert(which == 3 ==> final(out)@ =~= old(out)@ + person_line(committer_key(), who@, ts, tz@));
}

impl CommitEntry {
    /// The payload of this commit's object.
    pub fn to_bytes(&self) -> (r: Vec<u8>)
        ensures
            r@ == commit_bytes(*self),
    {
        let mut content: Vec<u8> = Vec::new();
        push_hash_line(&mut content, 0, &self.tree);
        push_hash_line(&mut content, 1, &self.parent);
        push_person_line(&mut content, 2, &self.author, self.timestamp, &self.timezone);
        push_person_line(&mut content, 3, &self.committer, self.timestamp, &self.timezone);
        content.push(10u8);
        let m = str_bytes(self.message.as_str());
        append_bytes(&mut content, m.as_slice());
        assert(content@ =~= commit_bytes(*self));
        content
    }
}

/// Text from UTF-8 bytes, with the bytes it came from.
fn text_of(b: Vec<u8>) -> (r: Option<String>)
    ensures
        r matches Some(t) ==> encode_utf8(t@) == b@ && t@ == decode_utf8(b@),
        r is Some <==> valid_utf8(b@),
{
    let ghost bb = b@;
    match string_from_utf8(b) {
        Some(t) => {
            proof {
                decode_utf8_encode_utf8(bb);
            }
            Some(t)
        },
        None => None,
    }
}

/// Whether every character of `s` is a lower-case hexadecimal digit.
pub fn all_lower_hex(s: &str) -> (r: bool)
    ensures
        r == forall|i: int| 0 <= i < s@.len() ==> is_lower_hex(#[trigger] s@[i]),
{
    let n = s.unicode_len();
    let mut i: usize = 0;
    while i < n
        invariant
            0 <= i <= n,
            n == s@.len(),
            forall|j: int| 0 <= j < i ==> is_lower_hex(#[trigger] s@[j]),
        decreases n - i,
    {
        let c = s.get_char(i);
        if !(('0' <= c && c <= '9') || ('a' <= c && c <= 'f')) {
            return false;
        }
        i = i + 1;
    }
    true
}

/// Where the parts of a hash line lie.
proof fn lemma_hash_line_facts(key: Seq<u8>, hb: Seq<u8>)
    requires
        hb.len() == 32,
    ensures
        ({
            let l = hash_line(key, hb);
            let k = key.len() as int;
            let x = encode_utf8(hex_of(hb));
            &&& l.len() == k + 66
            &&& x.len() == 64
            &&& l.subrange(0, k) == key
            &&& l[k] == 32u8
            &&& l[k + 65] == 10u8
            &&& l.subrange(k + 1, k + 65) == x
            &&& valid_utf8(x)
            &&& decode_utf8(x) == hex_of(hb)
            &&& hex_of(hb).len() == 64
            &&& (forall|i: int| 0 <= i < hex_of(hb).len() ==> is_lower_hex(#[trigger] hex_of(hb)[i]))
            &&& unhex(hex_of(hb)) == hb
        }),
{
    let hx = hex_of(hb);
    lemma_hex_of_facts(hb);
    lemma_unhex_hex(hb);
    assert(is_ascii_chars(hx)) by {
        assert forall|i: int| 0 <= i < hx.len() implies '\0' <= #[trigger] hx[i] <= '\u{7f}' by {
            assert((hx[i] as u32) < 128);
        }
    }
    is_ascii_chars_encode_utf8(hx);
    encode_utf8_valid_utf8(hx);
    encode_utf8_decode_utf8(hx);
    let l = hash_line(key, hb);
    let k = key.len() as int;
    assert(l.subrange(0, k) =~= key);
    assert(l.subrange(k + 1, k + 65) =~= encode_utf8(hx));
}

/// Reads a `<key> <hex hash>\n` line at `pos`.
fn parse_hash_line(p: &[u8], pos: usize, which: u8) -> (r: Option<([u8; 32], usize)>)
    requires
        pos <= p@.len(),
        which <= 1,
    ensures
        r matches Some((h, next)) ==> pos <= next <= p@.len() && p@.subrange(pos as int, next as int)
            == hash_line(hash_key(which), h@),
        forall|hb: Seq<u8>|
            hb.len() == 32 && pos + hash_line(hash_key(which), hb).len() <= p@.len()
                && p@.subrange(pos as int, pos + hash_line(hash_key(which), hb).len())
                == #[trigger] hash_line(hash_key(which), hb) ==> (r matches Some((h, next)) && h@ == hb
                && next == pos + hash_line(hash_key(which), hb).len()),
{
    let ghost key = hash_key(which);
    let ghost target: Option<Seq<u8>> = if exists|hb: Seq<u8>|
        hb.len() == 32 && pos + hash_line(key, hb).len() <= p@.len() && p@.subrange(pos as int, pos + hash_line(key, hb).len())
            == #[trigger] hash_line(key, hb) {
        Some(choose|hb: Seq<u8>|
            hb.len() == 32 && pos + hash_line(key, hb).len() <= p@.len() && p@.subrange(pos as int, pos + hash_line(key, hb).len())
                == #[trigger] hash_line(key, hb))
    } else {
        None
    };
    let k = key_bytes(which);
    let klen = k.len();
    proof {
        if let Some(hb) = target {
            lemma_hash_line_facts(key, hb);
            let l = hash_line(key, hb);
            assert(p@.subrange(pos as int, pos + klen) =~= l.subrange(0, klen as int));
            assert(p@[pos + klen] == l[klen as int]);
            assert(p@[pos + klen + 65] == l[klen + 65]);
            assert(p@.subrange(pos + klen + 1, pos + klen + 65) =~= l.subrange(klen + 1, klen + 65));
        }
    }
    if p.len() - pos < klen + 66 {
        return None;
    }
    let got = copy_range(p, pos, pos + klen);
    if !bytes_equal(got.as_slice(), k.as_slice()) || p[pos + klen] != 32u8 || p[pos + klen + 65] != 10u8 {
        return None;
    }
    let hexb = copy_range(p, pos + klen + 1, pos + klen + 65);
    let ghost hb = hexb@;
    proof {
        if let Some(t) = target {
            lemma_hash_line_facts(key, t);
            assert(hb == encode_utf8(hex_of(t)));
        }
    }
    let s = match text_of(hexb) {
        Some(s) => s,
        None => {
            return None;
        },
    };
    if !all_lower_hex(s.as_str()) {
        return None;
    }
    let bytes = match hex_decode(s.as_str()) {
        Some(b) => b,
        None => {
            return None;
        },
    };
    if bytes.len() != 32 {
        return None;
    }
    let mut h = [0u8; 32];
    let mut i: usize = 0;
    while i < 32
        invariant
            0 <= i <= 32,
            bytes@.len() == 32,
            forall|j: int| 0 <= j < i ==> h@[j] == bytes@[j],
        decreases 32 - i,
    {
        h[i] = bytes[i];
        i = i + 1;
    }
    proof {
        assert(h@ =~= bytes@);
        lemma_hex_round_trip(s@);
        assert(encode_utf8(hex_of(h@)) == hb);
        assert(p@.subrange(pos as int, pos + klen + 66) =~= hash_line(key, h@));
        if let Some(t) = target {
            lemma_hash_line_facts(key, t);
            lemma_hash_line_facts(key, h@);
        }
        assert forall|x: Seq<u8>|
            x.len() == 32 && pos + hash_line(key, x).len() <= p@.len() && p@.subrange(pos as int, pos + hash_line(key, x).len())
                == #[trigger] hash_line(key, x) implies h@ == x && pos + klen + 66 == pos + hash_line(key, x).len() by {
            lemma_hash_line_facts(key, x);
            lemma_hash_line_facts(key, h@);
            let l = hash_line(key, x);
            assert(l.subrange(klen + 1, klen + 65) =~= p@.subrange(pos + klen + 1, pos + klen + 65));
            assert(hb =~= p@.subrange(pos + klen + 1, pos + klen + 65));
            encode_utf8_decode_utf8(hex_of(x));
            encode_utf8_decode_utf8(hex_of(h@));
            lemma_unhex_hex(x);
            lemma_unhex_hex(h@);
        }
    }
    Some((h, pos + klen + 66))
}

/// A person line that the format can hold: no newline in the name, and neither a
/// newline nor a space in the time zone.
pub open spec fn person_ok(who: Seq<char>, tz: Seq<char>) -> bool {
    !encode_utf8(who).contains(10u8) && !encode_utf8(tz).contains(10u8) && !encode_utf8(tz).contains(32u8)
}

/// The key of the person line `which` (2 for the author, else the committer).
pub open spec fn person_key(which: u8) -> Seq<u8> {
    if which == 2 {
        author_key()
    } else {
        committer_key()
    }
}

pub proof fn lemma_signed_dec_bytes_pub(v: int)
    ensures
        forall|j: int| 0 <= j < signed_dec(v).len() ==> #[trigger] signed_dec(v)[j] != 10u8 && signed_dec(v)[j] != 32u8,
{
    lemma_signed_dec_bytes(v);
}

proof fn lemma_signed_dec_bytes(v: int)
    ensures
        forall|j: int| 0 <= j < signed_dec(v).len() ==> #[trigger] signed_dec(v)[j] != 10u8 && signed_dec(v)[j] != 32u8,
{
    if v < 0 {
        lemma_dec_canonical((-v) as nat);
        let d = dec((-v) as nat);
        assert forall|j: int| 0 <= j < signed_dec(v).len() implies #[trigger] signed_dec(v)[j] != 10u8 && signed_dec(v)[j] != 32u8 by {
            if j > 0 {
                assert(signed_dec(v)[j] == d[j - 1]);
                assert(is_digit(d[j - 1]));
            }
        }
    } else {
        lemma_dec_canonical(v as nat);
        assert forall|j: int| 0 <= j < signed_dec(v).len() implies #[trigger] signed_dec(v)[j] != 10u8 && signed_dec(v)[j] != 32u8 by {
            assert(is_digit(dec(v as nat)[j]));
        }
    }
}

/// Where the parts of a person line lie.
proof fn lemma_person_line_facts(key: Seq<u8>, who: Seq<char>, ts: i64, tz: Seq<char>)
    requires
        person_ok(who, tz),
    ensures
        ({
            let l = person_line(key, who, ts, tz);
            let k = key.len() as int;
            let st = k + 1;
            let s1 = st + encode_utf8(who).len();
            let s2 = s1 + 1 + signed_dec(ts as int).len();
            let e = s2 + 1 + encode_utf8(tz).len();
            &&& l.len() == e + 1
            &&& l.subrange(0, k) == key
            &&& l[k] == 32u8
            &&& l[s1] == 32u8
            &&& l[s2] == 32u8
            &&& l[e] == 10u8
            &&& l.subrange(st, s1) == encode_utf8(who)
            &&& l.subrange(s1 + 1, s2) == signed_dec(ts as int)
            &&& l.subrange(s2 + 1, e) == encode_utf8(tz)
            &&& (forall|j: int| st <= j < e ==> l[j] != 10u8)
            &&& (forall|j: int| s2 < j < e ==> l[j] != 32u8)
            &&& (forall|j: int| s1 < j < s2 ==> l[j] != 32u8)
        }),
{
    let l = person_line(key, who, ts, tz);
    let k = key.len() as int;
    let st = k + 1;
    let w = encode_utf8(who);
    let d = signed_dec(ts as int);
    let z = encode_utf8(tz);
    let s1 = st + w.len();
    let s2 = s1 + 1 + d.len();
    let e = s2 + 1 + z.len();
    lemma_signed_dec_bytes(ts as int);
    assert(l.subrange(0, k) =~= key);
    assert(l.subrange(st, s1) =~= w);
    assert(l.subrange(s1 + 1, s2) =~= d);
    assert(l.subrange(s2 + 1, e) =~= z);
    assert forall|j: int| st <= j < e implies l[j] != 10u8 by {
        if j < s1 {
            assert(l[j] == w[j - st]);
            assert(!w.contains(10u8));
        } else if s1 < j < s2 {
            assert(l[j] == d[j - s1 - 1]);
        } else if s2 < j {
            assert(l[j] == z[j - s2 - 1]);
            assert(!z.contains(10u8));
        }
    }
    assert forall|j: int| s2 < j < e implies l[j] != 32u8 by {
        assert(l[j] == z[j - s2 - 1]);
        assert(!z.contains(32u8));
    }
    assert forall|j: int| s1 < j < s2 implies l[j] != 32u8 by {
        assert(l[j] == d[j - s1 - 1]);
    }
}

/// Where the parts of a person line that starts at `pos` of `p` lie.
proof fn lemma_person_in(p: Seq<u8>, pos: int, key: Seq<u8>, who: Seq<char>, ts: i64, tz: Seq<char>)
    requires
        0 <= pos,
        person_ok(who, tz),
        pos + person_line(key, who, ts, tz).len() <= p.len(),
        p.subrange(pos, pos + person_line(key, who, ts, tz).len()) == person_line(key, who, ts, tz),
    ensures
        ({
            let k = key.len() as int;
            let st = pos + k + 1;
            let s1 = st + encode_utf8(who).len();
            let s2 = s1 + 1 + signed_dec(ts as int).len();
            let e = s2 + 1 + encode_utf8(tz).len();
            &&& e + 1 == pos + person_line(key, who, ts, tz).len()
            &&& p.subrange(pos, pos + k) == key
            &&& p[pos + k] == 32u8
            &&& p[s1] == 32u8
            &&& p[s2] == 32u8
            &&& p[e] == 10u8
            &&& p.subrange(st, s1) == encode_utf8(who)
            &&& p.subrange(s1 + 1, s2) == signed_dec(ts as int)
            &&& p.subrange(s2 + 1, e) == encode_utf8(tz)
            &&& (forall|j: int| st <= j < e ==> p[j] != 10u8)
            &&& (forall|j: int| s2 < j < e ==> p[j] != 32u8)
            &&& (forall|j: int| s1 < j < s2 ==> p[j] != 32u8)
        }),
{
    let l = person_line(key, who, ts, tz);
    lemma_person_line_facts(key, who, ts, tz);
    let k = key.len() as int;
    let st = k + 1;
    let s1 = st + encode_utf8(who).len();
    let s2 = s1 + 1 + signed_dec(ts as int).len();
    let e = s2 + 1 + encode_utf8(tz).len();
    assert forall|j: int| 0 <= j < l.len() implies p[pos + j] == l[j] by {
        assert(p.subrange(pos, pos + l.len())[j] == p[pos + j]);
    }
    assert(p.subrange(pos, pos + k) =~= l.subrange(0, k));
    assert(p.subrange(pos + st, pos + s1) =~= l.subrange(st, s1));
    assert(p.subrange(pos + s1 + 1, pos + s2) =~= l.subrange(s1 + 1, s2));
    assert(p.subrange(pos + s2 + 1, pos + e) =~= l.subrange(s2 + 1, e));
    assert forall|j: int| pos + st <= j < pos + e implies p[j] != 10u8 by {
        assert(p[pos + (j - pos)] == l[j - pos]);
    }
    assert forall|j: int| pos + s2 < j < pos + e implies p[j] != 32u8 by {
        assert(p[pos + (j - pos)] == l[j - pos]);
    }
    assert forall|j: int| pos + s1 < j < pos + s2 implies p[j] != 32u8 by {
        assert(p[pos + (j - pos)] == l[j - pos]);
    }
    assert(p[pos + k] == l[k]);
    assert(p[pos + s1] == l[s1]);
    assert(p[pos + s2] == l[s2]);
    assert(p[pos + e] == l[e]);
}

/// Reads a `<key> <who> <timestamp> <timezone>\n` line at `pos`.
#[verifier::rlimit(100)]
#[verifier::spinoff_prover]
fn parse_person_line(p: &[u8], pos: usize, which: u8) -> (r: Option<(String, i64, String, usize)>)
    requires
        pos <= p@.len(),
        2 <= which <= 3,
    ensures
        r matches Some((who, ts, tz, next)) ==> pos <= next <= p@.len() && p@.subrange(
            pos as int,
            next as int,
        ) == person_line(person_key(which), who@, ts, tz@),
        r matches Some((who, ts, tz, next)) ==> person_ok(who@, tz@),
        forall|w: Seq<char>, t: i64, z: Seq<char>|
            person_ok(w, z) && pos + person_line(person_key(which), w, t, z).len() <= p@.len()
                && p@.subrange(pos as int, pos + person_line(person_key(which), w, t, z).len())
                == #[trigger] person_line(person_key(which), w, t, z) ==> (r matches Some((a, b, c, next)) && a@ == w && b == t && c@ == z
                && next == pos + person_line(person_key(which), w, t, z).len()),
{
    let ghost key = person_key(which);
    let ghost target: Option<(Seq<char>, i64, Seq<char>)> = if exists|w: Seq<char>, t: i64, z: Seq<char>|
        person_ok(w, z) && pos + person_line(key, w, t, z).len() <= p@.len()
            && p@.subrange(pos as int, pos + person_line(key, w, t, z).len())
            == #[trigger] person_line(key, w, t, z) {
        let (w, t, z) = choose|w: Seq<char>, t: i64, z: Seq<char>|
            person_ok(w, z) && pos + person_line(key, w, t, z).len() <= p@.len()
                && p@.subrange(pos as int, pos + person_line(key, w, t, z).len())
                == #[trigger] person_line(key, w, t, z);
        Some((w, t, z))
    } else {
        None
    };
    let k = key_bytes(which);
    let klen = k.len();
    let ghost (g1, g2, ge): (int, int, int) = match target {
        Some((w, t, z)) => {
            let st = pos + klen + 1;
            let s1 = st + encode_utf8(w).len();
            let s2 = s1 + 1 + signed_dec(t as int).len();
            (s1, s2, s2 + 1 + encode_utf8(z).len())
        },
        None => (0, 0, 0),
    };
    proof {
        if let Some((w, t, z)) = target {
            lemma_person_in(p@, pos as int, key, w, t, z);
        }
    }
    if p.len() - pos < klen + 1 {
        return None;
    }
    let got = copy_range(p, pos, pos + klen);
    if !bytes_equal(got.as_slice(), k.as_slice()) || p[pos + klen] != 32u8 {
        return None;
    }
    let start = pos + klen + 1;
    let e = match find_byte(p, start, 10u8) {
        Some(e) => e,
        None => {
            return None;
        },
    };
    proof {
        if let Some((w, t, z)) = target {
            if e < ge {
                assert(p@[e as int] != 10u8);
            }
            if e > ge {
                assert(p@[ge] != 10u8);
            }
        }
    }
    let s2 = match rfind_byte(p, start, e, 32u8) {
        Some(i) => i,
        None => {
            return None;
        },
    };
    proof {
        if let Some((w, t, z)) = target {
            if s2 > g2 {
                assert(p@[s2 as int] != 32u8);
            }
            if s2 < g2 {
                assert(p@[g2] != 32u8);
            }
        }
    }
    let s1 = match rfind_byte(p, start, s2, 32u8) {
        Some(i) => i,
        None => {
            return None;
        },
    };
    proof {
        if let Some((w, t, z)) = target {
            if s1 > g1 {
                assert(p@[s1 as int] != 32u8);
            }
            if s1 < g1 {
                assert(p@[g1] != 32u8);
            }
            encode_utf8_valid_utf8(w);
            encode_utf8_valid_utf8(z);
            encode_utf8_decode_utf8(w);
            encode_utf8_decode_utf8(z);
        }
    }
    let who = match text_of(copy_range(p, start, s1)) {
        Some(t) => t,
        None => {
            return None;
        },
    };
    let tsb = copy_range(p, s1 + 1, s2);
    let ts = match parse_signed(tsb.as_slice()) {
        Some(v) => v,
        None => {
            return None;
        },
    };
    let tz = match text_of(copy_range(p, s2 + 1, e)) {
        Some(t) => t,
        None => {
            return None;
        },
    };
    proof {
        assert(!encode_utf8(who@).contains(10u8)) by {
            if encode_utf8(who@).contains(10u8) {
                let q = choose|q: int| 0 <= q < encode_utf8(who@).len() && encode_utf8(who@)[q] == 10u8;
                assert(p@[start + q] == 10u8);
            }
        }
        assert(!encode_utf8(tz@).contains(10u8)) by {
            if encode_utf8(tz@).contains(10u8) {
                let q = choose|q: int| 0 <= q < encode_utf8(tz@).len() && encode_utf8(tz@)[q] == 10u8;
                assert(p@[s2 + 1 + q] == 10u8);
            }
        }
        assert(!encode_utf8(tz@).contains(32u8)) by {
            if encode_utf8(tz@).contains(32u8) {
                let q = choose|q: int| 0 <= q < encode_utf8(tz@).len() && encode_utf8(tz@)[q] == 32u8;
                assert(p@[s2 + 1 + q] == 32u8);
            }
        }
    }
    proof {
        let key = person_key(which);
        assert(p@.subrange(pos as int, e + 1) =~= person_line(key, who@, ts, tz@));
        assert forall|w: Seq<char>, t: i64, z: Seq<char>|
            person_ok(w, z) && pos + person_line(key, w, t, z).len() <= p@.len()
                && p@.subrange(pos as int, pos + person_line(key, w, t, z).len())
                == #[trigger] person_line(key, w, t, z) implies who@ == w && ts == t && tz@ == z
                && e + 1 == pos + person_line(key, w, t, z).len() by {
            let (w0, t0, z0) = target.unwrap();
            lemma_person_in(p@, pos as int, key, w0, t0, z0);
            lemma_person_in(p@, pos as int, key, w, t, z);
            lemma_person_in(p@, pos as int, key, who@, ts, tz@);
            encode_utf8_decode_utf8(w);
            encode_utf8_decode_utf8(z);
            encode_utf8_decode_utf8(who@);
            encode_utf8_decode_utf8(tz@);
            let st = pos + klen + 1;
            let a1 = st + encode_utf8(w).len();
            let a2 = a1 + 1 + signed_dec(t as int).len();
            if a1 != s1 {
                if a1 > s1 {
                    assert(p@[a1] == 32u8);
                }
            }
            if a2 > s2 {
                assert(p@[a2] == 32u8);
            }
            if a2 < s2 {
                assert(p@[s2 as int] == 32u8);
            }
            if a1 < s1 {
                assert(p@[s1 as int] == 32u8);
            }
        }
    }
    Some((who, ts, tz, e + 1))
}

/// A commit that the format can hold: no newline in the author or the committer,
/// and neither a newline nor a space in the time zone.
pub open spec fn commit_wf(c: CommitEntry) -> bool {
    person_ok(c.author@, c.timezone@) && person_ok(c.committer@, c.timezone@)
}

/// A payload whose lines are those of `e` is the payload of `e`.
proof fn lemma_commit_sound(p: Seq<u8>, a: int, b: int, c: int, d: int, e: CommitEntry)
    requires
        0 <= a <= b <= c <= d < p.len(),
        p.subrange(0, a) == hash_line(tree_key(), e.tree@),
        p.subrange(a, b) == hash_line(parent_key(), e.parent@),
        p.subrange(b, c) == person_line(author_key(), e.author@, e.timestamp, e.timezone@),
        p.subrange(c, d) == person_line(committer_key(), e.committer@, e.timestamp, e.timezone@),
        p[d] == 10u8,
        encode_utf8(e.message@) == p.subrange(d + 1, p.len() as int),
    ensures
        commit_bytes(e) == p,
{
    assert(p =~= p.subrange(0, a) + p.subrange(a, b) + p.subrange(b, c) + p.subrange(c, d) + seq![10u8]
        + p.subrange(d + 1, p.len() as int));
}

/// Where the lines of a commit payload lie.
proof fn lemma_commit_layout(p: Seq<u8>, c: CommitEntry)
    requires
        commit_wf(c),
        commit_bytes(c) == p,
    ensures
        ({
            let l1 = hash_line(tree_key(), c.tree@);
            let l2 = hash_line(parent_key(), c.parent@);
            let l3 = person_line(author_key(), c.author@, c.timestamp, c.timezone@);
            let l4 = person_line(committer_key(), c.committer@, c.timestamp, c.timezone@);
            let a = l1.len() as int;
            let b = a + l2.len();
            let cc = b + l3.len();
            let d = cc + l4.len();
            &&& p.subrange(0, a) == l1
            &&& p.subrange(a, b) == l2
            &&& p.subrange(b, cc) == l3
            &&& p.subrange(cc, d) == l4
            &&& d < p.len()
            &&& p[d] == 10u8
            &&& p.subrange(d + 1, p.len() as int) == encode_utf8(c.message@)
            &&& valid_utf8(encode_utf8(c.message@))
            &&& decode_utf8(encode_utf8(c.message@)) == c.message@
            &&& hash_key(0) == tree_key()
            &&& hash_key(1) == parent_key()
            &&& person_key(2) == author_key()
            &&& person_key(3) == committer_key()
            &&& c.tree@.len() == 32
            &&& c.parent@.len() == 32
        }),
{
    let l1 = hash_line(tree_key(), c.tree@);
    let l2 = hash_line(parent_key(), c.parent@);
    let l3 = person_line(author_key(), c.author@, c.timestamp, c.timezone@);
    let l4 = person_line(committer_key(), c.committer@, c.timestamp, c.timezone@);
    let a = l1.len() as int;
    let b = a + l2.len();
    let cc = b + l3.len();
    let d = cc + l4.len();
    assert(p =~= l1 + l2 + l3 + l4 + seq![10u8] + encode_utf8(c.message@));
    assert(p.subrange(0, a) =~= l1);
    assert(p.subrange(a, b) =~= l2);
    assert(p.subrange(b, cc) =~= l3);
    assert(p.subrange(cc, d) =~= l4);
    assert(p.subrange(d + 1, p.len() as int) =~= encode_utf8(c.message@));
    encode_utf8_valid_utf8(c.message@);
    encode_utf8_decode_utf8(c.message@);
}

/// Reads a commit payload. `CorruptObject` where it is not in the format that
/// `to_bytes` writes, or where the committer's time differs from the author's.
#[verifier::rlimit(100)]
pub fn parse_commit(p: &[u8]) -> (r: Result<CommitEntry, VitError>)
    ensures
        r matches Ok(c) ==> commit_bytes(c) == p@ && commit_wf(c),
        r matches Err(e) ==> e == VitError::CorruptObject,
        (exists|c: CommitEntry| commit_wf(c) && #[trigger] commit_bytes(c) == p@) ==> r is Ok,
{
    let ghost target: Option<CommitEntry> = if exists|c: CommitEntry| commit_wf(c) && #[trigger] commit_bytes(c) == p@ {
        Some(choose|c: CommitEntry| commit_wf(c) && #[trigger] commit_bytes(c) == p@)
    } else {
        None
    };
    let ghost (ga, gb, gc, gd): (int, int, int, int) = match target {
        Some(c) => {
            let a = hash_line(tree_key(), c.tree@).len() as int;
            let b = a + hash_line(parent_key(), c.parent@).len();
            let cc = b + person_line(author_key(), c.author@, c.timestamp, c.timezone@).len();
            (a, b, cc, cc + person_line(committer_key(), c.committer@, c.timestamp, c.timezone@).len())
        },
        None => (0, 0, 0, 0),
    };
    proof {
        if let Some(c) = target {
            lemma_commit_layout(p@, c);
        }
    }
    let (tree, a) = match parse_hash_line(p, 0, 0) {
        Some(x) => x,
        None => {
            return Err(VitError::CorruptObject);
        },
    };
    let (parent, b) = match parse_hash_line(p, a, 1) {
        Some(x) => x,
        None => {
            return Err(VitError::CorruptObject);
        },
    };
    let (author, timestamp, timezone, c) = match parse_person_line(p, b, 2) {
        Some(x) => x,
        None => {
            return Err(VitError::CorruptObject);
        },
    };
    let (committer, ts2, tz2, d) = match parse_person_line(p, c, 3) {
        Some(x) => x,
        None => {
            return Err(VitError::CorruptObject);
        },
    };
    if ts2 != timestamp || !(tz2 == timezone) || d >= p.len() || p[d] != 10u8 {
        return Err(VitError::CorruptObject);
    }
    let message = match text_of(copy_range(p, d + 1, p.len())) {
        Some(t) => t,
        None => {
            return Err(VitError::CorruptObject);
        },
    };
    let entry = CommitEntry { tree, parent, author, committer, timestamp, timezone, message };
    proof {
        lemma_commit_sound(p@, a as int, b as int, c as int, d as int, entry);
        if let Some(t) = target {
            assert(ga == a && gb == b && gc == c && gd == d);
        }
    }
    Ok(entry)
}

/// The commit stored under `hash`: `NotFound` where nothing is stored there,
/// `CorruptObject` where the object is not a well-formed commit.
pub fn read_commit_file(store: &ObjectStore, hash: &[u8; 32]) -> (r: Result<CommitEntry, VitError>)
    requires
        store.wf(),
    ensures
        !store@.contains_key(hash@) ==> r == Err::<CommitEntry, VitError>(VitError::NotFound),
        r matches Err(e) ==> e == VitError::NotFound || e == VitError::CorruptObject,
        forall|x: Seq<u8>|
            crate::object::holds(store@, hash@, x) ==> (r matches Ok(c) ==> x
                == crate::object::framed(ObjectKind::Commit, commit_bytes(c))),
        r matches Ok(c) ==> commit_wf(c),
        forall|c: CommitEntry|
            commit_wf(c) && #[trigger] crate::object::holds(
                store@,
                hash@,
                crate::object::framed(ObjectKind::Commit, commit_bytes(c)),
            ) ==> r is Ok,
{
    let (kind, payload) = match load_object(store, hash) {
        Ok(x) => x,
        Err(e) => {
            proof {
                assert forall|c: CommitEntry|
                    commit_wf(c) && #[trigger] crate::object::holds(
                        store@,
                        hash@,
                        crate::object::framed(ObjectKind::Commit, commit_bytes(c)),
                    ) implies false by {
                    let x = crate::object::framed(ObjectKind::Commit, commit_bytes(c));
                    assert(crate::object::is_framed(x));
                }
            }
            return Err(e);
        },
    };
    proof {
        assert forall|c: CommitEntry|
            commit_wf(c) && #[trigger] crate::object::holds(
                store@,
                hash@,
                crate::object::framed(ObjectKind::Commit, commit_bytes(c)),
            ) implies kind == ObjectKind::Commit && payload@ == commit_bytes(c) by {
            let x = crate::object::framed(ObjectKind::Commit, commit_bytes(c));
            assert(crate::object::is_framed(x));
            crate::object::lemma_unframed(x);
            crate::object::lemma_framed_injective(
                ObjectKind::Commit,
                commit_bytes(c),
                crate::object::unframed(x).0,
                crate::object::unframed(x).1,
            );
        }
    }
    if kind != ObjectKind::Commit {
        return Err(VitError::CorruptObject);
    }
    let r = parse_commit(payload.as_slice());
    proof {
        assert forall|x: Seq<u8>| crate::object::holds(store@, hash@, x) implies (r matches Ok(c)
            ==> x == crate::object::framed(ObjectKind::Commit, commit_bytes(c))) by {
            if crate::object::is_framed(x) {
                crate::object::lemma_unframed(x);
            }
        }
    }
    r
}

/// Commits with the same payload have the same tree.
pub proof fn lemma_commit_bytes_tree(a: CommitEntry, b: CommitEntry)
    requires
        commit_bytes(a) == commit_bytes(b),
    ensures
        a.tree@ == b.tree@,
{
    lemma_hash_line_facts(tree_key(), a.tree@);
    lemma_hash_line_facts(tree_key(), b.tree@);
    let la = hash_line(tree_key(), a.tree@);
    let lb = hash_line(tree_key(), b.tree@);
    assert(commit_bytes(a).subrange(0, 70) =~= la);
    assert(commit_bytes(b).subrange(0, 70) =~= lb);
    assert(la.subrange(5, 69) == lb.subrange(5, 69));
    encode_utf8_decode_utf8(hex_of(a.tree@));
    encode_utf8_decode_utf8(hex_of(b.tree@));
}

/// Whether a well-formed commit is stored under `h`.
pub open spec fn commit_loadable(m: Map<Seq<u8>, Seq<u8>>, h: Seq<u8>) -> bool {
    exists|c: CommitEntry| commit_wf(c) && #[trigger] crate::object::holds(m, h, crate::object::framed(ObjectKind::Commit, commit_bytes(c)))
}

/// The tree of the commit stored under `h`.
pub open spec fn commit_tree_of(m: Map<Seq<u8>, Seq<u8>>, h: Seq<u8>) -> Seq<u8> {
    (choose|c: CommitEntry| crate::object::holds(m, h, crate::object::framed(ObjectKind::Commit, commit_bytes(c)))).tree@
}

/// The commit that `read_commit_file` returned for `h` has the tree `commit_tree_of` names.
pub proof fn lemma_commit_tree_of(m: Map<Seq<u8>, Seq<u8>>, h: Seq<u8>, c: CommitEntry)
    requires
        crate::tree::store_decodable(m),
        m.contains_key(h),
        forall|x: Seq<u8>| crate::object::holds(m, h, x) ==> x == crate::object::framed(ObjectKind::Commit, commit_bytes(c)),
    ensures
        c.tree@ == commit_tree_of(m, h),
{
    assert(crate::tree::decodable_at(m, h));
    let x = crate::tree::object_at(m, h);
    assert(crate::object::holds(m, h, x));
    let d = choose|d: CommitEntry| crate::object::holds(m, h, crate::object::framed(ObjectKind::Commit, commit_bytes(d)));
    crate::object::lemma_framed_injective(ObjectKind::Commit, commit_bytes(c), ObjectKind::Commit, commit_bytes(d));
    crate::commit::lemma_commit_bytes_tree(c, d);
}

} // verus!
