use version_it::encoding::{decimal_bytes, parse_decimal, parse_signed, signed_decimal_bytes};
use version_it::error::VitError;
use version_it::index::{read_index, write_index, FileStatus, FileTimes, IndexEntry};
use version_it::object::{frame_object, hash_name, hash_object, object_path_parts, unframe_object, ObjectKind};
use version_it::refs::parse_ref;
use version_it::tree::{parse_tree_entries, tree_payload, TreeEntry};

fn times(n: u32) -> FileTimes {
    FileTimes { ctime_secs: n, ctime_nsecs: n + 1, mtime_secs: n + 2, mtime_nsecs: n + 3 }
}

#[test]
fn hash_names_are_lower_case_pairs() {
    let mut h = [0u8; 32];
    h[0] = 0x01;
    h[1] = 0xab;
    h[31] = 0xff;
    let name = hash_name(&h);
    assert_eq!(name.len(), 64);
    assert!(name.starts_with("01ab00"));
    assert!(name.ends_with("00ff"));
    let (dir, file) = object_path_parts(&h);
    assert_eq!(dir, "01");
    assert_eq!(file.len(), 62);
    assert_eq!(format!("{}{}", dir, file), name);
}

#[test]
fn ref_text_reads_back() {
    let mut h = [0u8; 32];
    h[5] = 0xc3;
    assert_eq!(parse_ref(hash_name(&h).as_bytes()).unwrap(), h);
    assert_eq!(parse_ref(b"0123").err(), Some(VitError::CorruptObject));
    let upper = hash_name(&h).to_uppercase();
    assert_eq!(parse_ref(upper.as_bytes()).err(), Some(VitError::CorruptObject));
}

#[test]
fn blob_hash_covers_header_and_content() {
    let h = hash_object(ObjectKind::Blob, b"hi");
    assert_eq!(hash_name(&h), "a4e13f7dfd8345eae550125113b9d9bcd4b0f781037c02afb133fd98f5f973ae");
}

#[test]
fn hashing_is_deterministic() {
    let a = hash_object(ObjectKind::Blob, b"hi there");
    let b = hash_object(ObjectKind::Blob, b"hi there");
    assert_eq!(a, b);
    assert_eq!(hash_name(&a), "a833559a3298972ffcdcf052657665e69a4289157b078b48b55a2511d79183a2");
    assert_ne!(hash_object(ObjectKind::Tree, b"hi there"), a);
}

#[test]
fn empty_tree_hash() {
    let h = hash_object(ObjectKind::Tree, &[]);
    assert_eq!(hash_name(&h), "6ef19b41225c5369f1c104d45d8d85efa9b057b53b14b4b9b939dd74decc5321");
}

#[test]
fn framing_round_trip() {
    let f = frame_object(ObjectKind::Commit, b"abc");
    assert_eq!(f, b"commit 3\0abc".to_vec());
    let (k, p) = unframe_object(&f).unwrap();
    assert_eq!(k, ObjectKind::Commit);
    assert_eq!(p, b"abc".to_vec());
}

#[test]
fn unframe_rejects_malformed_headers() {
    assert_eq!(unframe_object(b"blob 3\0ab").err(), Some(VitError::CorruptObject));
    assert_eq!(unframe_object(b"blob 03\0abc").err(), Some(VitError::CorruptObject));
    assert_eq!(unframe_object(b"blub 3\0abc").err(), Some(VitError::CorruptObject));
    assert_eq!(unframe_object(b"blob3abc").err(), Some(VitError::CorruptObject));
    assert_eq!(unframe_object(b"").err(), Some(VitError::CorruptObject));
}

#[test]
fn decimal_text() {
    assert_eq!(decimal_bytes(0), b"0".to_vec());
    assert_eq!(decimal_bytes(1234), b"1234".to_vec());
    assert_eq!(signed_decimal_bytes(-42), b"-42".to_vec());
    assert_eq!(signed_decimal_bytes(i64::MIN), b"-9223372036854775808".to_vec());
    assert_eq!(parse_decimal(b"18446744073709551615"), Some(u64::MAX));
    assert_eq!(parse_decimal(b"18446744073709551616"), None);
    assert_eq!(parse_decimal(b"007"), None);
    assert_eq!(parse_signed(b"-9223372036854775808"), Some(i64::MIN));
    assert_eq!(parse_signed(b"-0"), None);
}

#[test]
fn index_entry_create_fields() {
    let e = IndexEntry::create("dir/a.txt".to_string(), times(10), b"hi");
    assert_eq!(e.status, FileStatus::New);
    assert_eq!(e.mode, 0o100644);
    assert_eq!(e.flags, 9);
    assert_eq!(e.file_size, 2);
    assert_eq!(e.mtime_secs, 12);
    assert_eq!(e.sha256, hash_object(ObjectKind::Blob, b"hi"));
}

#[test]
fn index_round_trip() {
    let mut b = IndexEntry::create("src/main.rs".to_string(), times(7), b"fn main() {}");
    b.status = FileStatus::Deleted;
    let entries = vec![
        IndexEntry::create("a.txt".to_string(), times(1), b"hi"),
        b,
        IndexEntry::create("caf\u{e9}/n.txt".to_string(), times(u32::MAX - 3), b""),
    ];
    let bytes = write_index(&entries);
    assert_eq!(bytes.len() % 8, 0);
    let back = read_index(&bytes).unwrap();
    assert_eq!(back.len(), 3);
    for (x, y) in back.iter().zip(entries.iter()) {
        assert_eq!(x.path, y.path);
        assert_eq!(x.sha256, y.sha256);
        assert_eq!(x.status, y.status);
        assert_eq!(x.flags, y.flags);
        assert_eq!(x.ctime_secs, y.ctime_secs);
        assert_eq!(x.ctime_nsecs, y.ctime_nsecs);
        assert_eq!(x.mtime_secs, y.mtime_secs);
        assert_eq!(x.mtime_nsecs, y.mtime_nsecs);
        assert_eq!(x.mode, y.mode);
        assert_eq!(x.file_size, y.file_size);
    }
}

#[test]
fn empty_index_is_valid() {
    assert_eq!(read_index(&[]).unwrap().len(), 0);
    assert_eq!(write_index(&[]).len(), 0);
}

#[test]
fn index_record_layout() {
    let e = IndexEntry::create("a".to_string(), times(1), b"x");
    let bytes = write_index(&[e]);
    assert_eq!(bytes.len(), 64);
    assert_eq!(&bytes[0..4], &[0, 0, 0, 1]);
    assert_eq!(bytes[56], 0);
    assert_eq!(&bytes[57..59], &[0, 1]);
    assert_eq!(bytes[59], b'a');
    assert!(bytes[60..].iter().all(|b| *b == 0));
}

#[test]
fn index_rejects_bad_status_and_truncation() {
    let e = IndexEntry::create("a.txt".to_string(), times(1), b"hi");
    let mut bytes = write_index(&[e]);
    let good = bytes.clone();
    bytes[56] = 9;
    assert_eq!(read_index(&bytes).err(), Some(VitError::CorruptIndex));
    assert_eq!(read_index(&good[..good.len() - 1]).err(), Some(VitError::CorruptIndex));
    assert_eq!(read_index(&good[..30]).err(), Some(VitError::CorruptIndex));
}

#[test]
fn tree_entry_bytes_and_parse() {
    let t = TreeEntry { mode: "33188".to_string(), name: "a.txt".to_string(), sha256: [7u8; 32] };
    let b = t.to_bytes();
    assert_eq!(&b[..12], b"33188 a.txt\0");
    assert_eq!(b.len(), 44);
    let u = TreeEntry { mode: "040000".to_string(), name: "src".to_string(), sha256: [9u8; 32] };
    let payload = tree_payload(&[t, u]);
    let back = parse_tree_entries(&payload).unwrap();
    assert_eq!(back.len(), 2);
    assert_eq!(back[0].name, "a.txt");
    assert_eq!(back[1].mode, "040000");
    assert_eq!(back[1].sha256, [9u8; 32]);
    assert_eq!(parse_tree_entries(&payload[..50]).err(), Some(VitError::CorruptObject));
    assert_eq!(parse_tree_entries(&[]).unwrap().len(), 0);
}
