//! References: HEAD, branch pointers, and reflog lines.
use vstd::prelude::*;
use vstd::utf8::encode_utf8;
use crate::clock::local_now;
use crate::encoding::{
    append_bytes, bytes_equal, copy_range, dec, decimal_bytes, hex_decode, hex_encode, hex_of,
    is_lower_hex, lemma_hex_round_trip, unhex, signed_dec, signed_decimal_bytes, str_bytes,
    string_from_utf8,
};
use crate::error::VitError;

verus! {

/// `ref: refs/heads/`, the start of HEAD.
pub open spec fn head_prefix() -> Seq<u8> {
    seq![114u8, 101, 102, 58, 32, 114, 101, 102, 115, 47, 104, 101, 97, 100, 115, 47]
}

/// The HEAD file that points at `branch`: `ref: refs/heads/<branch>\n`.
pub open spec fn head_bytes(branch: Seq<char>) -> Seq<u8> {
    head_prefix() + encode_utf8(branch) + seq![10u8]
}

/// Whether a byte is white space that ends a line.
pub open spec fn is_space(b: u8) -> bool {
    b == 10 || b == 13 || b == 32 || b == 9
}

/// The bytes without the white space at their end.
pub open spec fn trim_end(b: Seq<u8>) -> Seq<u8>
    decreases b.len(),
{
    if b.len() > 0 && is_space(b.last()) {
        trim_end(b.drop_last())
    } else {
        b
    }
}

fn head_prefix_bytes() -> (r: Vec<u8>)
    ensures
        r@ == head_prefix(),
{
    let r = vec![114u8, 101, 102, 58, 32, 114, 101, 102, 115, 47, 104, 101, 97, 100, 115, 47];
    assert(r@ =~= head_prefix());
    r
}

/// The HEAD file that points at `branch`.
pub fn head_text(branch: &str) -> (r: Vec<u8>)
    ensures
        r@ == head_bytes(branch@),
{
    let mut out = head_prefix_bytes();
    let b = str_bytes(branch);
    append_bytes(&mut out, b.as_slice());
    out.push(10u8);
    assert(out@ =~= head_bytes(branch@));
    out
}

/// The length of the bytes without their trailing white space.
fn trimmed_len(b: &[u8]) -> (r: usize)
    ensures
        r <= b@.len(),
        b@.subrange(0, r as int) == trim_end(b@),
{
    let mut n: usize = b.len();
    assert(b@.subrange(0, n as int) =~= b@);
    while n > 0 && (b[n - 1] == 10u8 || b[n - 1] == 13u8 || b[n - 1] == 32u8 || b[n - 1] == 9u8)
        invariant
            n <= b@.len(),
            trim_end(b@.subrange(0, n as int)) == trim_end(b@),
        decreases n,
    {
        assert(b@.subrange(0, n as int).drop_last() =~= b@.subrange(0, n - 1));
        n = n - 1;
    }
    n
}

/// The branch that HEAD names; `None` where HEAD does not read
/// `ref: refs/heads/<branch>`, trailing white space aside.
pub fn parse_head(text: &[u8]) -> (r: Option<String>)
    ensures
        r matches Some(b) ==> trim_end(text@) == head_prefix() + encode_utf8(b@),
        forall|b: Seq<char>| #[trigger] encode_utf8(b) == trim_end(text@).subrange(16, trim_end(text@).len() as int) && trim_end(text@) == head_prefix() + encode_utf8(b) ==> (r matches Some(s) && s@ == b),
{
    let n = trimmed_len(text);
    let p = head_prefix_bytes();
    proof {
        assert forall|b: Seq<char>| #[trigger] encode_utf8(b) == trim_end(text@).subrange(16, trim_end(text@).len() as int) && trim_end(text@) == head_prefix() + encode_utf8(b) implies n >= 16 && text@.subrange(0, 16) == head_prefix() && vstd::utf8::valid_utf8(encode_utf8(b)) && vstd::utf8::decode_utf8(encode_utf8(b)) == b by {
            assert(text@.subrange(0, 16) =~= trim_end(text@).subrange(0, 16));
            vstd::utf8::encode_utf8_valid_utf8(b);
            vstd::utf8::encode_utf8_decode_utf8(b);
        }
    }
    if n < p.len() {
        return None;
    }
    let got = copy_range(text, 0, p.len());
    if !bytes_equal(got.as_slice(), p.as_slice()) {
        return None;
    }
    let name = copy_range(text, p.len(), n);
    let ghost nb = name@;
    assert(nb == trim_end(text@).subrange(16, trim_end(text@).len() as int));
    match string_from_utf8(name) {
        Some(s) => {
            proof {
                vstd::utf8::decode_utf8_encode_utf8(nb);
                assert(text@.subrange(0, n as int) =~= head_prefix() + nb);
            }
            Some(s)
        },
        None => None,
    }
}

/// The hash that a branch or stash file holds: 64 lower-case hexadecimal digits,
/// trailing white space aside; `CorruptObject` otherwise.
pub fn parse_ref(text: &[u8]) -> (r: Result<[u8; 32], VitError>)
    ensures
        r matches Ok(h) ==> trim_end(text@) == encode_utf8(hex_of(h@)),
        r matches Err(e) ==> e == VitError::CorruptObject,
        forall|h: Seq<u8>| h.len() == 32 && trim_end(text@) == #[trigger] encode_utf8(hex_of(h)) ==> (r matches Ok(g) && g@ == h),
{
    let n = trimmed_len(text);
    proof {
        assert forall|h: Seq<u8>| h.len() == 32 && trim_end(text@) == #[trigger] encode_utf8(hex_of(h)) implies n == 64 by {
            crate::encoding::lemma_hex_text(h);
        }
    }
    if n != 64 {
        return Err(VitError::CorruptObject);
    }
    let hb = copy_range(text, 0, n);
    let ghost hbv = hb@;
    proof {
        if exists|h: Seq<u8>| h.len() == 32 && trim_end(text@) == #[trigger] encode_utf8(hex_of(h)) {
            let h = choose|h: Seq<u8>| h.len() == 32 && trim_end(text@) == #[trigger] encode_utf8(hex_of(h));
            crate::encoding::lemma_hex_text(h);
            assert(hbv == text@.subrange(0, 64));
        }
    }
    let s = match string_from_utf8(hb) {
        Some(s) => s,
        None => {
            return Err(VitError::CorruptObject);
        },
    };
    proof {
        vstd::utf8::decode_utf8_encode_utf8(hbv);
        assert forall|h: Seq<u8>| h.len() == 32 && trim_end(text@) == #[trigger] encode_utf8(hex_of(h)) implies s@ == hex_of(h) && unhex(hex_of(h)) == h && (forall|i: int| 0 <= i < s@.len() ==> crate::encoding::is_lower_hex(#[trigger] s@[i])) by {
            crate::encoding::lemma_hex_text(h);
            assert(hbv == text@.subrange(0, 64));
        }
    }
    if !crate::commit::all_lower_hex(s.as_str()) {
        return Err(VitError::CorruptObject);
    }
    proof {
        if exists|h: Seq<u8>| h.len() == 32 && trim_end(text@) == #[trigger] encode_utf8(hex_of(h)) {
            let h = choose|h: Seq<u8>| h.len() == 32 && trim_end(text@) == #[trigger] encode_utf8(hex_of(h));
            crate::encoding::lemma_hex_text(h);
            crate::encoding::lemma_hex_of_facts(h);
            assert(s@ == hex_of(h));
            assert(s@.len() == 64);
            assert(crate::encoding::is_hex_text(s@));
        }
    }
    let bytes = match hex_decode(s.as_str()) {
        Some(b) => b,
        None => {
            return Err(VitError::CorruptObject);
        },
    };
    if bytes.len() != 32 {
        return Err(VitError::CorruptObject);
    }
    let mut h = [0u8; 32];
    let mut i: usize = 0;
    while i < 32
        invariant
            0 <= i <= 32,
            bytes@.len() == 32,
            forall|j: int| 0 <= j < i ==> h@[j] == bytes@[j],
        decreases 32 - i,
    {
        h[i] = bytes[i];
        i = i + 1;
    }
    proof {
        assert(h@ =~= bytes@);
        lemma_hex_round_trip(s@);
    }
    Ok(h)
}

/// Two decimal digits of `n < 100`.
pub open spec fn two_digits(n: int) -> Seq<u8> {
    seq![(48 + n / 10) as u8, (48 + n % 10) as u8]
}

/// The `±HHMM` text of an offset from UTC in seconds.
pub open spec fn timezone_bytes(offset: int) -> Seq<u8> {
    let a = if offset < 0 { -offset } else { offset };
    seq![if offset < 0 { 45u8 } else { 43u8 }] + two_digits(a / 3600) + two_digits((a % 3600) / 60)
}

/// The `±HHMM` text of an offset from UTC in seconds.
pub fn timezone_text(offset: i32) -> (r: Vec<u8>)
    requires
        -86400 < offset < 86400,
    ensures
        r@ == timezone_bytes(offset as int),
{
    let a: i32 = if offset < 0 { -offset } else { offset };
    let h = a / 3600;
    let m = (a % 3600) / 60;
    let mut out: Vec<u8> = Vec::new();
    out.push(if offset < 0 { 45u8 } else { 43u8 });
    out.push((48 + h / 10) as u8);
    out.push((48 + h % 10) as u8);
    out.push((48 + m / 10) as u8);
    out.push((48 + m % 10) as u8);
    assert(out@ =~= timezone_bytes(offset as int));
    out
}

/// `commit: ` or `stash: `, the word before a reflog line's message.
pub open spec fn log_kind(stash: bool) -> Seq<u8> {
    if stash {
        seq![115u8, 116, 97, 115, 104, 58, 32]
    } else {
        seq![99u8, 111, 109, 109, 105, 116, 58, 32]
    }
}

/// One reflog line:
/// `<old hex> <new hex> <name> <<email>> <timestamp> <±HHMM> commit: <message>\n`.
pub open spec fn log_line_bytes(
    old: Seq<u8>,
    new: Seq<u8>,
    name: Seq<char>,
    email: Seq<char>,
    ts: i64,
    offset: int,
    message: Seq<char>,
    stash: bool,
) -> Seq<u8> {
    encode_utf8(hex_of(old)) + seq![32u8] + encode_utf8(hex_of(new)) + seq![32u8] + encode_utf8(
        name,
    ) + seq![32u8, 60u8] + encode_utf8(email) + seq![62u8, 32u8] + signed_dec(ts as int) + seq![
        32u8,
    ] + timezone_bytes(offset) + seq![32u8] + log_kind(stash) + encode_utf8(message) + seq![10u8]
}

/// The reflog line of a pointer update at time `ts` with this offset from UTC.
pub fn log_line(
    old: &[u8; 32],
    new: &[u8; 32],
    name: &str,
    email: &str,
    ts: i64,
    offset: i32,
    message: &str,
    stash: bool,
) -> (r: Vec<u8>)
    requires
        -86400 < offset < 86400,
    ensures
        r@ == log_line_bytes(old@, new@, name@, email@, ts, offset as int, message@, stash),
{
    let mut out: Vec<u8> = Vec::new();
    let o = hex_encode(old.as_slice());
    append_bytes(&mut out, str_bytes(o.as_str()).as_slice());
    out.push(32u8);
    let n = hex_encode(new.as_slice());
    append_bytes(&mut out, str_bytes(n.as_str()).as_slice());
    out.push(32u8);
    append_bytes(&mut out, str_bytes(name).as_slice());
    out.push(32u8);
    out.push(60u8);
    append_bytes(&mut out, str_bytes(email).as_slice());
    out.push(62u8);
    out.push(32u8);
    append_bytes(&mut out, signed_decimal_bytes(ts).as_slice());
    out.push(32u8);
    append_bytes(&mut out, timezone_text(offset).as_slice());
    out.push(32u8);
    let kind: Vec<u8> = if stash {
        vec![115u8, 116, 97, 115, 104, 58, 32]
    } else {
        vec![99u8, 111, 109, 109, 105, 116, 58, 32]
    };
    assert(kind@ =~= log_kind(stash));
    append_bytes(&mut out, kind.as_slice());
    append_bytes(&mut out, str_bytes(message).as_slice());
    out.push(10u8);
    assert(out@ =~= log_line_bytes(old@, new@, name@, email@, ts, offset as int, message@, stash));
    out
}

/// The reflog line of a pointer update made now, in local time.
pub fn write_log_entry(
    old_commit: &[u8; 32],
    new_commit: &[u8; 32],
    author_name: &str,
    author_email: &str,
    message: &str,
    stash: bool,
) -> (r: Vec<u8>)
    ensures
        exists|ts: i64, offset: int|
            -86400 < offset < 86400 && r@ == log_line_bytes(
                old_commit@,
                new_commit@,
                author_name@,
                author_email@,
                ts,
                offset,
                message@,
                stash,
            ),
{
    let (ts, offset) = local_now();
    log_line(old_commit, new_commit, author_name, author_email, ts, offset, message, stash)
}

} // verus!
