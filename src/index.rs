//! The index: one record per tracked path, and its binary codec.
use vstd::prelude::*;
use vstd::slice::slice_subrange;
use vstd::utf8::{decode_utf8, encode_utf8, encode_utf8_decode_utf8, encode_utf8_valid_utf8};
use crate::encoding::{
    append_bytes, be16, be16_bytes, be16_value, be32, be32_bytes, be32_value, copy_range,
    lemma_be16_round_trip, lemma_be32_round_trip, read_be16, read_be32, str_bytes,
    string_from_utf8,
};
use crate::error::VitError;
use crate::object::{hash_object, object_id, ObjectKind};

verus! {

/// Where a tracked file stands relative to the last commit.
#[derive(Debug, Clone, Copy, PartialEq, Eq, Structural)]
pub enum FileStatus {
    New,
    Modified,
    Unchanged,
    Deleted,
}

/// The byte that stands for a status on disk.
pub open spec fn status_byte(s: FileStatus) -> u8 {
    match s {
        FileStatus::New => 0,
        FileStatus::Modified => 1,
        FileStatus::Unchanged => 2,
        FileStatus::Deleted => 3,
    }
}

/// The mode of a regular, non-executable file (`0o100644`).
pub const REGULAR_FILE_MODE: u32 = 33188;

/// The length of an index record before its path.
pub const FIXED_LEN: usize = 59;

/// The timestamps of a file on disk.
#[derive(Debug, Clone, Copy)]
pub struct FileTimes {
    pub ctime_secs: u32,
    pub ctime_nsecs: u32,
    pub mtime_secs: u32,
    pub mtime_nsecs: u32,
}

/// One tracked path and what the index knows of it.
#[derive(Debug)]
pub struct IndexEntry {
    pub ctime_secs: u32,
    pub ctime_nsecs: u32,
    pub mtime_secs: u32,
    pub mtime_nsecs: u32,
    pub mode: u32,
    pub file_size: u32,
    pub sha256: [u8; 32],
    pub status: FileStatus,
    /// The low 12 bits hold the byte length of the path.
    pub flags: u16,
    pub path: String,
}

/// The UTF-8 bytes of an entry's path.
pub open spec fn path_bytes(e: IndexEntry) -> Seq<u8> {
    encode_utf8(e.path@)
}

/// Zero bytes that take a record of `n` bytes to the next multiple of eight.
pub open spec fn pad_len(n: nat) -> nat {
    ((8 - n % 8) % 8) as nat
}

/// An entry whose flags give the byte length of its path.
pub open spec fn entry_wf(e: IndexEntry) -> bool {
    (e.flags & 0x0FFFu16) as nat == path_bytes(e).len()
}

/// All entries are well formed.
pub open spec fn entries_wf(es: Seq<IndexEntry>) -> bool {
    forall|i: int| 0 <= i < es.len() ==> entry_wf(#[trigger] es[i])
}

/// Two entries agree field for field.
pub open spec fn same_entry(a: IndexEntry, b: IndexEntry) -> bool {
    &&& a.ctime_secs == b.ctime_secs
    &&& a.ctime_nsecs == b.ctime_nsecs
    &&& a.mtime_secs == b.mtime_secs
    &&& a.mtime_nsecs == b.mtime_nsecs
    &&& a.mode == b.mode
    &&& a.file_size == b.file_size
    &&& a.sha256@ == b.sha256@
    &&& a.status == b.status
    &&& a.flags == b.flags
    &&& a.path@ == b.path@
}

/// Two sequences of entries agree entry for entry.
pub open spec fn same_entries(a: Seq<IndexEntry>, b: Seq<IndexEntry>) -> bool {
    a.len() == b.len() && forall|i: int| 0 <= i < a.len() ==> same_entry(#[trigger] a[i], b[i])
}

/// The on-disk record of one entry: six big-endian words, the hash, the status
/// byte, the big-endian flags, the path, and zero padding to a multiple of eight.
pub open spec fn entry_bytes(e: IndexEntry) -> Seq<u8> {
    be32(e.ctime_secs) + be32(e.ctime_nsecs) + be32(e.mtime_secs) + be32(e.mtime_nsecs) + be32(
        e.mode,
    ) + be32(e.file_size) + e.sha256@ + seq![status_byte(e.status)] + be16(e.flags) + path_bytes(e)
        + Seq::new(pad_len(59 + path_bytes(e).len()), |i: int| 0u8)
}

/// The index file: the records of all entries, in order, with nothing between them.
pub open spec fn index_bytes(es: Seq<IndexEntry>) -> Seq<u8>
    decreases es.len(),
{
    if es.len() == 0 {
        Seq::empty()
    } else {
        entry_bytes(es[0]) + index_bytes(es.drop_first())
    }
}

/// Whether the bytes are the index file of some well-formed entries.
pub open spec fn is_index(data: Seq<u8>) -> bool {
    exists|es: Seq<IndexEntry>| entries_wf(es) && index_bytes(es) == data
}

proof fn lemma_entry_len(e: IndexEntry)
    ensures
        entry_bytes(e).len() == 59 + path_bytes(e).len() + pad_len(59 + path_bytes(e).len()),
        entry_bytes(e).len() >= 59,
{
}

impl IndexEntry {
    /// A new entry for a file with these times and this content: the content's blob
    /// hash, the regular file mode, status `New`, and the path length in the flags.
    pub fn create(file_path: String, times: FileTimes, content: &[u8]) -> (r: IndexEntry)
        ensures
            r.ctime_secs == times.ctime_secs,
            r.ctime_nsecs == times.ctime_nsecs,
            r.mtime_secs == times.mtime_secs,
            r.mtime_nsecs == times.mtime_nsecs,
            r.mode == REGULAR_FILE_MODE,
            r.file_size as nat == content@.len() % 0x1_0000_0000,
            r.sha256@ == object_id(ObjectKind::Blob, content@),
            r.status == FileStatus::New,
            r.flags as nat == encode_utf8(file_path@).len() % 4096,
            r.path@ == file_path@,
            encode_utf8(file_path@).len() < 4096 ==> entry_wf(r),
    {
        let sha256 = hash_object(ObjectKind::Blob, content);
        let pbytes = str_bytes(file_path.as_str());
        let plen = pbytes.len();
        let flags = (plen % 4096) as u16;
        let size = (content.len() as u64 % 0x1_0000_0000u64) as u32;
        let r = IndexEntry {
            ctime_secs: times.ctime_secs,
            ctime_nsecs: times.ctime_nsecs,
            mtime_secs: times.mtime_secs,
            mtime_nsecs: times.mtime_nsecs,
            mode: REGULAR_FILE_MODE,
            file_size: size,
            sha256,
            status: FileStatus::New,
            flags,
            path: file_path,
        };
        proof {
            if plen < 4096 {
                assert(flags & 0x0FFFu16 == flags) by (bit_vector)
                    requires
                        flags < 4096,
                ;
            }
        }
        r
    }

    /// Appends this entry's record to `out`.
    pub fn write(&self, out: &mut Vec<u8>)
        ensures
            final(out)@ == old(out)@ + entry_bytes(*self),
    {
        let ghost start = out@;
        append_bytes(out, be32_bytes(self.ctime_secs).as_slice());
        append_bytes(out, be32_bytes(self.ctime_nsecs).as_slice());
        append_bytes(out, be32_bytes(self.mtime_secs).as_slice());
        append_bytes(out, be32_bytes(self.mtime_nsecs).as_slice());
        append_bytes(out, be32_bytes(self.mode).as_slice());
        append_bytes(out, be32_bytes(self.file_size).as_slice());
        append_bytes(out, self.sha256.as_slice());
        out.push(status_to_byte(self.status));
        append_bytes(out, be16_bytes(self.flags).as_slice());
        let path = str_bytes(self.path.as_str());
        append_bytes(out, path.as_slice());
        let total = 59 + path.len() % 8;
        let padding = (8 - total % 8) % 8;
        let ghost before_pad = out@;
        let mut i: usize = 0;
        while i < padding
            invariant
                0 <= i <= padding,
                out@ == before_pad + Seq::new(i as nat, |k: int| 0u8),
            decreases padding - i,
        {
            out.push(0u8);
            i = i + 1;
            assert(out@ =~= before_pad + Seq::new(i as nat, |k: int| 0u8));
        }
        proof {
            assert((59 + path@.len()) % 8 == (59 + path@.len() % 8) % 8) by (nonlinear_arith);
            assert(padding == pad_len(59 + path_bytes(*self).len()));
            assert(out@ =~= start + entry_bytes(*self));
        }
    }

    /// Reads the record that starts at `pos`. `None` at the end of the data; otherwise
    /// the entry and the position after its record. `CorruptIndex` on a truncated
    /// record, an unknown status byte, a path that is not UTF-8, or padding that is
    /// not zero.
    pub fn read(data: &[u8], pos: usize) -> (r: Result<Option<(IndexEntry, usize)>, VitError>)
        requires
            pos <= data@.len(),
        ensures
            r == Ok::<Option<(IndexEntry, usize)>, VitError>(None) <==> pos == data@.len(),
            r matches Ok(Some((e, next))) ==> pos < next <= data@.len() && entry_wf(e)
                && data@.subrange(pos as int, next as int) == entry_bytes(e),
            r matches Err(err) ==> err == VitError::CorruptIndex,
            pos < data@.len() && record_ok(data@.subrange(pos as int, data@.len() as int)) ==> (r matches Ok(Some(_))),
    {
        let dlen = data.len();
        if pos == dlen {
            return Ok(None);
        }
        let rec = slice_subrange(data, pos, dlen);
        let ghost rest = rec@;
        assert(rest == data@.subrange(pos as int, data@.len() as int));
        if rec.len() < FIXED_LEN {
            return Err(VitError::CorruptIndex);
        }
        let status = match byte_to_status(rec[56]) {
            Some(s) => s,
            None => {
                proof {
                    assert(status_byte(FileStatus::New) == 0);
                    assert(status_byte(FileStatus::Modified) == 1);
                    assert(status_byte(FileStatus::Unchanged) == 2);
                    assert(status_byte(FileStatus::Deleted) == 3);
                }
                return Err(VitError::CorruptIndex);
            },
        };
        let flags = read_be16(slice_subrange(rec, 57, 59));
        assert(flags & 0x0FFFu16 <= 0x0FFFu16) by (bit_vector);
        let plen = (flags & 0x0FFFu16) as usize;
        let total = FIXED_LEN + plen;
        let padding = (8 - total % 8) % 8;
        if rec.len() < total + padding {
            return Err(VitError::CorruptIndex);
        }
        let pbytes = copy_range(rec, FIXED_LEN, total);
        let path = match string_from_utf8(pbytes) {
            Some(p) => p,
            None => {
                return Err(VitError::CorruptIndex);
            },
        };
        let end = total + padding;
        let mut k: usize = total;
        while k < end
            invariant
                total <= k <= end,
                end <= rec@.len(),
                pos < data@.len(),
                rest == rec@,
                rest == data@.subrange(pos as int, data@.len() as int),
                rest.len() >= 59,
                total as int == 59 + (be16_value(rest.subrange(57, 59)) & 0x0FFFu16) as int,
                end as int == total + pad_len(total as nat),
                forall|j: int| total <= j < k ==> rec@[j] == 0u8,
            decreases end - k,
        {
            if rec[k] != 0u8 {
                proof {
                    assert(!record_ok(rest));
                }
                return Err(VitError::CorruptIndex);
            }
            k = k + 1;
        }
        let mut sha256 = [0u8; 32];
        let mut i: usize = 0;
        while i < 32
            invariant
                0 <= i <= 32,
                rec@.len() >= 59,
                forall|j: int| 0 <= j < i ==> sha256@[j] == rec@[24 + j],
            decreases 32 - i,
        {
            sha256[i] = rec[24 + i];
            i = i + 1;
        }
        let entry = IndexEntry {
            ctime_secs: read_be32(slice_subrange(rec, 0, 4)),
            ctime_nsecs: read_be32(slice_subrange(rec, 4, 8)),
            mtime_secs: read_be32(slice_subrange(rec, 8, 12)),
            mtime_nsecs: read_be32(slice_subrange(rec, 12, 16)),
            mode: read_be32(slice_subrange(rec, 16, 20)),
            file_size: read_be32(slice_subrange(rec, 20, 24)),
            sha256,
            status,
            flags,
            path,
        };
        proof {
            lemma_decoded_path(pbytes@);
            assert(rest.subrange(24, 56) =~= sha256@);
            assert(rest.subrange(59, total as int) == pbytes@);
            assert(rest.subrange(total as int, (total + padding) as int) =~= Seq::new(
                padding as nat,
                |j: int| 0u8,
            ));
            lemma_record_decodes(rest, entry);
            assert(data@.subrange(pos as int, pos + total + padding) =~= rest.subrange(
                0,
                (total + padding) as int,
            ));
        }
        Ok(Some((entry, pos + total + padding)))
    }
}

/// Whether the bytes begin with a complete, well-formed record: a known status
/// byte, the whole path, valid UTF-8, and zero padding.
pub open spec fn record_ok(rest: Seq<u8>) -> bool {
    let plen = (be16_value(rest.subrange(57, 59)) & 0x0FFFu16) as int;
    &&& rest.len() >= 59
    &&& rest[56] < 4
    &&& rest.len() >= 59 + plen + pad_len((59 + plen) as nat)
    &&& vstd::utf8::valid_utf8(rest.subrange(59, 59 + plen))
    &&& forall|j: int| 59 + plen <= j < 59 + plen + pad_len((59 + plen) as nat) ==> rest[j] == 0u8
}

/// Where each field of a record lies.
proof fn lemma_entry_layout(e: IndexEntry)
    ensures
        ({
            let eb = entry_bytes(e);
            let pl = path_bytes(e).len() as int;
            &&& eb.len() == 59 + pl + pad_len((59 + pl) as nat)
            &&& eb.subrange(0, 4) == be32(e.ctime_secs)
            &&& eb.subrange(4, 8) == be32(e.ctime_nsecs)
            &&& eb.subrange(8, 12) == be32(e.mtime_secs)
            &&& eb.subrange(12, 16) == be32(e.mtime_nsecs)
            &&& eb.subrange(16, 20) == be32(e.mode)
            &&& eb.subrange(20, 24) == be32(e.file_size)
            &&& eb.subrange(24, 56) == e.sha256@
            &&& eb[56] == status_byte(e.status)
            &&& eb.subrange(57, 59) == be16(e.flags)
            &&& eb.subrange(59, 59 + pl) == path_bytes(e)
            &&& forall|j: int| 59 + pl <= j < eb.len() ==> eb[j] == 0u8
        }),
{
    let eb = entry_bytes(e);
    let pl = path_bytes(e).len() as int;
    assert(eb.subrange(0, 4) =~= be32(e.ctime_secs));
    assert(eb.subrange(4, 8) =~= be32(e.ctime_nsecs));
    assert(eb.subrange(8, 12) =~= be32(e.mtime_secs));
    assert(eb.subrange(12, 16) =~= be32(e.mtime_nsecs));
    assert(eb.subrange(16, 20) =~= be32(e.mode));
    assert(eb.subrange(20, 24) =~= be32(e.file_size));
    assert(eb.subrange(24, 56) =~= e.sha256@);
    assert(eb.subrange(57, 59) =~= be16(e.flags));
    assert(eb.subrange(59, 59 + pl) =~= path_bytes(e));
}

/// A record that `read` accepts is the record of the entry it builds.
proof fn lemma_record_decodes(rest: Seq<u8>, e: IndexEntry)
    requires
        rest.len() >= 59,
        e.ctime_secs == be32_value(rest.subrange(0, 4)),
        e.ctime_nsecs == be32_value(rest.subrange(4, 8)),
        e.mtime_secs == be32_value(rest.subrange(8, 12)),
        e.mtime_nsecs == be32_value(rest.subrange(12, 16)),
        e.mode == be32_value(rest.subrange(16, 20)),
        e.file_size == be32_value(rest.subrange(20, 24)),
        rest.subrange(24, 56) == e.sha256@,
        rest[56] == status_byte(e.status),
        e.flags == be16_value(rest.subrange(57, 59)),
        ({
            let pl = (e.flags & 0x0FFFu16) as int;
            &&& rest.len() >= 59 + pl + pad_len((59 + pl) as nat)
            &&& rest.subrange(59, 59 + pl) == path_bytes(e)
            &&& rest.subrange(59 + pl, 59 + pl + pad_len((59 + pl) as nat)) == Seq::new(
                pad_len((59 + pl) as nat),
                |j: int| 0u8,
            )
        }),
    ensures
        entry_wf(e),
        rest.subrange(0, entry_bytes(e).len() as int) == entry_bytes(e),
{
    let pl = (e.flags & 0x0FFFu16) as int;
    lemma_be32_of(rest, 0);
    lemma_be32_of(rest, 4);
    lemma_be32_of(rest, 8);
    lemma_be32_of(rest, 12);
    lemma_be32_of(rest, 16);
    lemma_be32_of(rest, 20);
    lemma_be16_of(rest, 57);
    lemma_entry_layout(e);
    let eb = entry_bytes(e);
    let n = eb.len() as int;
    assert forall|j: int| 0 <= j < n implies rest[j] == eb[j] by {
        if j < 4 {
            assert(rest[j] == rest.subrange(0, 4)[j] && eb[j] == eb.subrange(0, 4)[j]);
        } else if j < 8 {
            assert(rest[j] == rest.subrange(4, 8)[j - 4] && eb[j] == eb.subrange(4, 8)[j - 4]);
        } else if j < 12 {
            assert(rest[j] == rest.subrange(8, 12)[j - 8] && eb[j] == eb.subrange(8, 12)[j - 8]);
        } else if j < 16 {
            assert(rest[j] == rest.subrange(12, 16)[j - 12] && eb[j] == eb.subrange(12, 16)[j - 12]);
        } else if j < 20 {
            assert(rest[j] == rest.subrange(16, 20)[j - 16] && eb[j] == eb.subrange(16, 20)[j - 16]);
        } else if j < 24 {
            assert(rest[j] == rest.subrange(20, 24)[j - 20] && eb[j] == eb.subrange(20, 24)[j - 20]);
        } else if j < 56 {
            assert(rest[j] == rest.subrange(24, 56)[j - 24] && eb[j] == eb.subrange(24, 56)[j - 24]);
        } else if j == 56 {
        } else if j < 59 {
            assert(rest[j] == rest.subrange(57, 59)[j - 57] && eb[j] == eb.subrange(57, 59)[j - 57]);
        } else if j < 59 + pl {
            assert(rest[j] == rest.subrange(59, 59 + pl)[j - 59] && eb[j] == eb.subrange(59, 59 + pl)[j
                - 59]);
        } else {
            assert(rest[j] == rest.subrange(59 + pl, 59 + pl + pad_len((59 + pl) as nat))[j - 59
                - pl]);
        }
    }
    assert(rest.subrange(0, n) =~= eb);
}

/// A record of a well-formed entry is one that `read` accepts.
pub proof fn lemma_record_ok(e: IndexEntry, rest: Seq<u8>)
    requires
        entry_wf(e),
        entry_bytes(e).len() <= rest.len(),
        rest.subrange(0, entry_bytes(e).len() as int) == entry_bytes(e),
    ensures
        record_ok(rest),
{
    lemma_entry_layout(e);
    let eb = entry_bytes(e);
    let pl = path_bytes(e).len() as int;
    assert(rest.subrange(57, 59) =~= eb.subrange(57, 59));
    lemma_be16_round_trip(e.flags);
    assert(rest.subrange(59, 59 + pl) =~= eb.subrange(59, 59 + pl));
    encode_utf8_valid_utf8(e.path@);
    assert(rest[56] == eb[56]);
    assert forall|j: int| 59 + pl <= j < 59 + pl + pad_len((59 + pl) as nat) implies rest[j] == 0u8 by {
        assert(rest[j] == eb[j]);
    }
}

proof fn lemma_be32_injective(x: u32, y: u32)
    requires
        be32(x) == be32(y),
    ensures
        x == y,
{
    lemma_be32_round_trip(x);
    lemma_be32_round_trip(y);
}

/// Records of well-formed entries tell their entries.
pub proof fn lemma_entry_bytes_injective(a: IndexEntry, b: IndexEntry)
    requires
        entry_wf(a),
        entry_wf(b),
        entry_bytes(a).len() <= entry_bytes(b).len(),
        entry_bytes(a) == entry_bytes(b).subrange(0, entry_bytes(a).len() as int),
    ensures
        same_entry(a, b),
        entry_bytes(a) == entry_bytes(b),
{
    let ea = entry_bytes(a);
    let eb = entry_bytes(b);
    lemma_entry_layout(a);
    lemma_entry_layout(b);
    assert(ea.subrange(57, 59) =~= eb.subrange(57, 59));
    lemma_be16_round_trip(a.flags);
    lemma_be16_round_trip(b.flags);
    let pl = path_bytes(a).len() as int;
    assert(ea.subrange(59, 59 + pl) =~= eb.subrange(59, 59 + pl));
    encode_utf8_decode_utf8(a.path@);
    encode_utf8_decode_utf8(b.path@);
    assert(ea.subrange(0, 4) =~= eb.subrange(0, 4));
    assert(ea.subrange(4, 8) =~= eb.subrange(4, 8));
    assert(ea.subrange(8, 12) =~= eb.subrange(8, 12));
    assert(ea.subrange(12, 16) =~= eb.subrange(12, 16));
    assert(ea.subrange(16, 20) =~= eb.subrange(16, 20));
    assert(ea.subrange(20, 24) =~= eb.subrange(20, 24));
    assert(ea.subrange(24, 56) =~= eb.subrange(24, 56));
    lemma_be32_injective(a.ctime_secs, b.ctime_secs);
    lemma_be32_injective(a.ctime_nsecs, b.ctime_nsecs);
    lemma_be32_injective(a.mtime_secs, b.mtime_secs);
    lemma_be32_injective(a.mtime_nsecs, b.mtime_nsecs);
    lemma_be32_injective(a.mode, b.mode);
    lemma_be32_injective(a.file_size, b.file_size);
    assert(ea[56] == eb[56]);
    assert(a.status == b.status);
    assert(ea =~= eb);
}

/// The byte of a status.
fn status_to_byte(s: FileStatus) -> (r: u8)
    ensures
        r == status_byte(s),
{
    match s {
        FileStatus::New => 0,
        FileStatus::Modified => 1,
        FileStatus::Unchanged => 2,
        FileStatus::Deleted => 3,
    }
}

/// The status that a byte stands for.
fn byte_to_status(b: u8) -> (r: Option<FileStatus>)
    ensures
        r matches Some(s) ==> status_byte(s) == b,
        r is None ==> forall|s: FileStatus| status_byte(s) != b,
{
    if b == 0 {
        Some(FileStatus::New)
    } else if b == 1 {
        Some(FileStatus::Modified)
    } else if b == 2 {
        Some(FileStatus::Unchanged)
    } else if b == 3 {
        Some(FileStatus::Deleted)
    } else {
        None
    }
}

proof fn lemma_be32_of(s: Seq<u8>, at: int)
    requires
        0 <= at,
        at + 4 <= s.len(),
    ensures
        be32(be32_value(s.subrange(at, at + 4))) == s.subrange(at, at + 4),
{
    let b = s.subrange(at, at + 4);
    let v = be32_value(b);
    let (b0, b1, b2, b3) = (b[0], b[1], b[2], b[3]);
    assert(((((b0 as u32) << 24u32) | ((b1 as u32) << 16u32) | ((b2 as u32) << 8u32) | (b3 as u32))
        >> 24u32) as u8 == b0) by (bit_vector);
    assert(((((b0 as u32) << 24u32) | ((b1 as u32) << 16u32) | ((b2 as u32) << 8u32) | (b3 as u32))
        >> 16u32) as u8 == b1) by (bit_vector);
    assert(((((b0 as u32) << 24u32) | ((b1 as u32) << 16u32) | ((b2 as u32) << 8u32) | (b3 as u32))
        >> 8u32) as u8 == b2) by (bit_vector);
    assert((((b0 as u32) << 24u32) | ((b1 as u32) << 16u32) | ((b2 as u32) << 8u32) | (b3 as u32))
        as u8 == b3) by (bit_vector);
    assert(be32(v) =~= b);
}

proof fn lemma_be16_of(s: Seq<u8>, at: int)
    requires
        0 <= at,
        at + 2 <= s.len(),
    ensures
        be16(be16_value(s.subrange(at, at + 2))) == s.subrange(at, at + 2),
{
    let b = s.subrange(at, at + 2);
    let v = be16_value(b);
    let (b0, b1) = (b[0], b[1]);
    assert(((((b0 as u16) << 8u16) | (b1 as u16)) >> 8u16) as u8 == b0) by (bit_vector);
    assert((((b0 as u16) << 8u16) | (b1 as u16)) as u8 == b1) by (bit_vector);
    assert(be16(v) =~= b);
}

proof fn lemma_decoded_path(b: Seq<u8>)
    requires
        vstd::utf8::valid_utf8(b),
    ensures
        encode_utf8(decode_utf8(b)) == b,
{
    vstd::utf8::decode_utf8_encode_utf8(b);
}

proof fn lemma_index_bytes_push(es: Seq<IndexEntry>, e: IndexEntry)
    ensures
        index_bytes(es.push(e)) == index_bytes(es) + entry_bytes(e),
    decreases es.len(),
{
    if es.len() == 0 {
        assert(es.push(e).drop_first() =~= Seq::<IndexEntry>::empty());
        assert(es.push(e)[0] == e);
        assert(index_bytes(Seq::<IndexEntry>::empty()) == Seq::<u8>::empty());
        assert(index_bytes(es.push(e)) == entry_bytes(e) + index_bytes(Seq::<IndexEntry>::empty()));
        assert(index_bytes(es.push(e)) =~= index_bytes(es) + entry_bytes(e));
    } else {
        lemma_index_bytes_push(es.drop_first(), e);
        assert(es.push(e).drop_first() =~= es.drop_first().push(e));
        assert(es.push(e)[0] == es[0]);
        assert(index_bytes(es.push(e)) =~= index_bytes(es) + entry_bytes(e));
    }
}

/// The index file of well-formed entries tells the entries, field for field: what
/// `read_index` returns on the bytes of `write_index(es)` is `es`.
#[verifier::rlimit(50)]
pub proof fn lemma_index_round_trip(es: Seq<IndexEntry>, out: Seq<IndexEntry>)
    requires
        entries_wf(es),
        entries_wf(out),
        index_bytes(out) == index_bytes(es),
    ensures
        same_entries(out, es),
    decreases es.len(),
{
    if es.len() == 0 && out.len() > 0 {
        lemma_entry_layout(out[0]);
        assert(index_bytes(out).len() >= 59);
    } else if es.len() > 0 && out.len() == 0 {
        lemma_entry_layout(es[0]);
        assert(index_bytes(es).len() >= 59);
    } else if es.len() > 0 {
        let d = index_bytes(es);
        let a = out[0];
        let b = es[0];
        assert(entries_wf(out.drop_first()));
        assert(entries_wf(es.drop_first()));
        assert(entry_wf(a) && entry_wf(b));
        assert(d =~= entry_bytes(b) + index_bytes(es.drop_first()));
        assert(d =~= entry_bytes(a) + index_bytes(out.drop_first()));
        assert(d.subrange(0, entry_bytes(b).len() as int) =~= entry_bytes(b));
        assert(d.subrange(0, entry_bytes(a).len() as int) =~= entry_bytes(a));
        if entry_bytes(a).len() <= entry_bytes(b).len() {
            assert(d.subrange(0, entry_bytes(a).len() as int) == entry_bytes(a));
            assert(entry_bytes(b).subrange(0, entry_bytes(a).len() as int) =~= d.subrange(
                0,
                entry_bytes(a).len() as int,
            ));
            lemma_entry_bytes_injective(a, b);
        } else {
            assert(entry_bytes(a).subrange(0, entry_bytes(b).len() as int) =~= d.subrange(
                0,
                entry_bytes(b).len() as int,
            ));
            lemma_entry_bytes_injective(b, a);
        }
        let n = entry_bytes(b).len() as int;
        assert(index_bytes(out.drop_first()) =~= d.subrange(n, d.len() as int));
        assert(index_bytes(es.drop_first()) =~= d.subrange(n, d.len() as int));
        lemma_index_round_trip(es.drop_first(), out.drop_first());
        assert forall|i: int| 0 <= i < out.len() implies same_entry(#[trigger] out[i], es[i]) by {
            if i > 0 {
                assert(out[i] == out.drop_first()[i - 1]);
                assert(es[i] == es.drop_first()[i - 1]);
            }
        }
    }
}

/// Where the entries that remain to be read begin: a record that `read` accepts,
/// or the end of the data once none remain.
proof fn lemma_read_ready(rest: Seq<u8>, es: Seq<IndexEntry>, k: int)
    requires
        entries_wf(es),
        0 <= k <= es.len(),
        rest == index_bytes(es.skip(k)),
    ensures
        k < es.len() ==> rest.len() > 0 && record_ok(rest),
        k == es.len() ==> rest.len() == 0,
{
    if k < es.len() {
        let e = es[k];
        assert(es.skip(k)[0] == e);
        assert(rest =~= entry_bytes(e) + index_bytes(es.skip(k).drop_first()));
        assert(rest.subrange(0, entry_bytes(e).len() as int) =~= entry_bytes(e));
        lemma_entry_layout(e);
        lemma_record_ok(e, rest);
    } else {
        assert(es.skip(k) =~= Seq::<IndexEntry>::empty());
    }
}

/// The record that `read` returns is the next entry, and the rest follows it.
proof fn lemma_read_step(rest: Seq<u8>, es: Seq<IndexEntry>, k: int, entry: IndexEntry, m: int)
    requires
        entries_wf(es),
        0 <= k < es.len(),
        rest == index_bytes(es.skip(k)),
        entry_wf(entry),
        0 < m <= rest.len(),
        rest.subrange(0, m) == entry_bytes(entry),
    ensures
        rest.subrange(m, rest.len() as int) == index_bytes(es.skip(k + 1)),
{
    let e = es[k];
    let n = entry_bytes(e).len() as int;
    assert(es.skip(k)[0] == e);
    assert(es.skip(k).drop_first() =~= es.skip(k + 1));
    assert(rest =~= entry_bytes(e) + index_bytes(es.skip(k + 1)));
    assert(rest.subrange(0, n) =~= entry_bytes(e));
    assert(entry_wf(e));
    if m <= n {
        assert(entry_bytes(e).subrange(0, m) =~= rest.subrange(0, m));
        lemma_entry_bytes_injective(entry, e);
    } else {
        assert(entry_bytes(entry).subrange(0, n) =~= rest.subrange(0, n));
        lemma_entry_bytes_injective(e, entry);
    }
    assert(rest.subrange(m, rest.len() as int) =~= index_bytes(es.skip(k + 1)));
}

/// The index file of the entries, in order.
pub fn write_index(entries: &[IndexEntry]) -> (r: Vec<u8>)
    ensures
        r@ == index_bytes(entries@),
{
    let mut out: Vec<u8> = Vec::new();
    let mut i: usize = 0;
    while i < entries.len()
        invariant
            0 <= i <= entries@.len(),
            out@ == index_bytes(entries@.subrange(0, i as int)),
        decreases entries@.len() - i,
    {
        entries[i].write(&mut out);
        proof {
            lemma_index_bytes_push(entries@.subrange(0, i as int), entries@[i as int]);
            assert(entries@.subrange(0, i as int).push(entries@[i as int]) =~= entries@.subrange(
                0,
                i + 1,
            ));
        }
        i = i + 1;
    }
    assert(entries@.subrange(0, entries@.len() as int) =~= entries@);
    out
}

/// The entries of an index file. Empty data is an empty index; `CorruptIndex` where
/// the data is not a sequence of complete, well-formed records.
#[verifier::rlimit(50)]
pub fn read_index(data: &[u8]) -> (r: Result<Vec<IndexEntry>, VitError>)
    ensures
        r is Ok <==> is_index(data@),
        r matches Ok(es) ==> entries_wf(es@) && data@ == index_bytes(es@),
        r matches Err(e) ==> e == VitError::CorruptIndex,
{
    let ghost target: Option<Seq<IndexEntry>> = if is_index(data@) {
        Some(choose|es: Seq<IndexEntry>| entries_wf(es) && index_bytes(es) == data@)
    } else {
        None
    };
    let mut out: Vec<IndexEntry> = Vec::new();
    let mut pos: usize = 0;
    assert(data@.subrange(0, 0) =~= index_bytes(out@));
    assert(data@.subrange(0, data@.len() as int) =~= data@);
    proof {
        if let Some(es) = target {
            assert(es.skip(0) =~= es);
        }
    }
    loop
        invariant
            0 <= pos <= data@.len(),
            entries_wf(out@),
            target is Some <==> is_index(data@),
            data@.subrange(0, pos as int) == index_bytes(out@),
            target matches Some(es) ==> entries_wf(es) && out@.len() <= es.len()
                && data@.subrange(pos as int, data@.len() as int) == index_bytes(
                es.skip(out@.len() as int),
            ),
        decreases data@.len() - pos,
    {
        let ghost k = out@.len() as int;
        proof {
            if let Some(es) = target {
                lemma_read_ready(data@.subrange(pos as int, data@.len() as int), es, k);
            }
        }
        match IndexEntry::read(data, pos) {
            Err(e) => {
                return Err(e);
            },
            Ok(None) => {
                proof {
                    assert(data@.subrange(0, pos as int) =~= data@);
                }
                return Ok(out);
            },
            Ok(Some((entry, next))) => {
                proof {
                    let rest = data@.subrange(pos as int, data@.len() as int);
                    assert(rest.subrange(0, next - pos) =~= data@.subrange(pos as int, next as int));
                    lemma_index_bytes_push(out@, entry);
                    assert(data@.subrange(0, next as int) =~= data@.subrange(0, pos as int)
                        + data@.subrange(pos as int, next as int));
                    if let Some(es) = target {
                        lemma_read_step(rest, es, k, entry, next - pos);
                        assert(data@.subrange(next as int, data@.len() as int) =~= rest.subrange(
                            next - pos,
                            rest.len() as int,
                        ));
                    }
                }
                out.push(entry);
                pos = next;
            },
        }
    }
}

} // verus!
