use version_it::branch::{Branch, Refs};
use version_it::builder::build_tree;
use version_it::checkout::{apply_changes, checkout, FsOp};
use version_it::commit::{parse_commit, read_commit_file, CommitEntry};
use version_it::diff::{diff_trees, Action, FileType};
use version_it::error::VitError;
use version_it::index::{FileStatus, FileTimes, IndexEntry};
use version_it::object::{decompress_file_content, hash_name, load_object, store_object, ObjectKind, ObjectStore};
use version_it::refs::{head_text, log_line, parse_head, parse_ref, timezone_text};
use version_it::stash::{parse_log_line, pop, stash, without_last_line, StashRecord};
use version_it::tree::load_tree;
use version_it::worktree::{add, commit, expand_paths, status, PathKind, StatusLine, WorkFile};

fn t(n: u32) -> FileTimes {
    FileTimes { ctime_secs: n, ctime_nsecs: 0, mtime_secs: n, mtime_nsecs: 0 }
}

fn file(path: &str, n: u32, content: &[u8]) -> WorkFile {
    WorkFile { path: path.to_string(), times: t(n), content: content.to_vec() }
}

fn main_refs() -> Refs {
    Refs { head: "main".to_string(), branches: Vec::new() }
}

#[test]
fn store_twice_keeps_one_object() {
    let mut s = ObjectStore::new();
    let a = store_object(&mut s, ObjectKind::Blob, b"hi");
    let b = store_object(&mut s, ObjectKind::Blob, b"hi");
    assert_eq!(a, b);
    assert_eq!(s.objects.len(), 1);
    let raw = decompress_file_content(&s, &a).unwrap();
    assert_eq!(raw, b"blob 2\0hi".to_vec());
    let (k, p) = load_object(&s, &a).unwrap();
    assert_eq!(k, ObjectKind::Blob);
    assert_eq!(p, b"hi".to_vec());
    assert_eq!(load_object(&s, &[1u8; 32]).err(), Some(VitError::NotFound));
}

#[test]
fn stored_bytes_are_compressed() {
    let mut s = ObjectStore::new();
    let h = store_object(&mut s, ObjectKind::Blob, &[b'a'; 1000]);
    assert!(s.objects[0].data.len() < 1000);
    assert_eq!(s.objects[0].hash, h);
}

#[test]
fn init_head_points_at_main() {
    assert_eq!(head_text("main"), b"ref: refs/heads/main\n".to_vec());
    assert_eq!(parse_head(b"ref: refs/heads/main\n"), Some("main".to_string()));
    assert_eq!(parse_head(b"ref: refs/tags/x\n"), None);
}

#[test]
fn ref_files_hold_hex_hashes() {
    let h = [0xabu8; 32];
    let text = hash_name(&h);
    assert_eq!(parse_ref(text.as_bytes()).unwrap(), h);
    assert_eq!(parse_ref(format!("{}\n", text).as_bytes()).unwrap(), h);
    assert_eq!(parse_ref(b"abc").err(), Some(VitError::CorruptObject));
}

#[test]
fn add_then_commit_scenario() {
    let mut s = ObjectStore::new();
    let mut index: Vec<IndexEntry> = Vec::new();
    let updated = add(&mut s, &mut index, &vec![file("a.txt", 5, b"hi")], &vec![]);
    assert!(updated);
    assert_eq!(index.len(), 1);
    assert_eq!(index[0].path, "a.txt");
    assert_eq!(index[0].status, FileStatus::New);
    let hex = hash_name(&index[0].sha256);
    let (k, p) = load_object(&s, &index[0].sha256).unwrap();
    assert_eq!((k, p), (ObjectKind::Blob, b"hi".to_vec()));
    assert_eq!(hex.len(), 64);

    let mut refs = main_refs();
    let (parent, tip) = commit(&mut s, &mut refs, &mut index, &"first".to_string(), &"A <a@x>".to_string()).unwrap();
    assert_eq!(parent, [0u8; 32]);
    assert_eq!(refs.branches.len(), 1);
    assert_eq!(refs.branches[0].tip, tip);
    assert_eq!(hash_name(&tip).len(), 64);
    assert_eq!(index[0].status, FileStatus::Unchanged);
    let c = read_commit_file(&s, &tip).unwrap();
    assert_eq!(c.message, "first");
    let entries = load_tree(&s, &c.tree).unwrap();
    assert_eq!(entries.len(), 1);
    assert_eq!(entries[0].name, "a.txt");
    assert_eq!(entries[0].sha256, index[0].sha256);
}

#[test]
fn empty_message_is_refused() {
    let mut s = ObjectStore::new();
    let mut index: Vec<IndexEntry> = Vec::new();
    let mut refs = main_refs();
    assert_eq!(commit(&mut s, &mut refs, &mut index, &String::new(), &"A".to_string()).err(), Some(VitError::EmptyMessage));
}

#[test]
fn build_tree_is_deterministic_and_sorted() {
    let mut s = ObjectStore::new();
    let es = vec![
        IndexEntry::create("b.txt".to_string(), t(1), b"b"),
        IndexEntry::create("src/z.rs".to_string(), t(1), b"z"),
        IndexEntry::create("a.txt".to_string(), t(1), b"a"),
        IndexEntry::create("src/lib/m.rs".to_string(), t(1), b"m"),
    ];
    let r1 = build_tree(&mut s, &es);
    let r2 = build_tree(&mut s, &es);
    assert_eq!(r1, r2);
    let root = load_tree(&s, &r1).unwrap();
    let names: Vec<&str> = root.iter().map(|e| e.name.as_str()).collect();
    assert_eq!(names, vec!["a.txt", "b.txt", "src"]);
    assert_eq!(root[2].mode, "040000");
    assert_eq!(root[0].mode, "33188");
    let src = load_tree(&s, &root[2].sha256).unwrap();
    let names: Vec<&str> = src.iter().map(|e| e.name.as_str()).collect();
    assert_eq!(names, vec!["lib", "z.rs"]);
}

#[test]
fn diff_of_a_tree_with_itself_is_empty() {
    let mut s = ObjectStore::new();
    let es = vec![
        IndexEntry::create("a.txt".to_string(), t(1), b"a"),
        IndexEntry::create("d/b.txt".to_string(), t(1), b"b"),
    ];
    let r = build_tree(&mut s, &es);
    assert_eq!(diff_trees(&s, &r, &r).unwrap().len(), 0);
}

#[test]
fn diff_from_empty_tree_creates_each_entry() {
    let mut s = ObjectStore::new();
    let empty = build_tree(&mut s, &[]);
    let es = vec![
        IndexEntry::create("a.txt".to_string(), t(1), b"a"),
        IndexEntry::create("d/b.txt".to_string(), t(1), b"b"),
    ];
    let r = build_tree(&mut s, &es);
    let cs = diff_trees(&s, &empty, &r).unwrap();
    assert_eq!(cs.len(), 2);
    assert!(cs.iter().all(|c| c.action == Action::Create));
    assert_eq!(cs[0].path, "a.txt");
    assert_eq!(cs[0].file_type, FileType::Blob);
    assert_eq!(cs[1].path, "d");
    assert_eq!(cs[1].file_type, FileType::Tree);
}

#[test]
fn modified_file_gives_one_restore() {
    let mut s = ObjectStore::new();
    let before = build_tree(&mut s, &[IndexEntry::create("a.txt".to_string(), t(1), b"hi")]);
    let after = build_tree(&mut s, &[IndexEntry::create("a.txt".to_string(), t(2), b"hi there")]);
    let cs = diff_trees(&s, &before, &after).unwrap();
    assert_eq!(cs.len(), 1);
    assert_eq!(cs[0].path, "a.txt");
    assert_eq!(cs[0].action, Action::Restore);
}

#[test]
fn nested_changes_and_deletes() {
    let mut s = ObjectStore::new();
    let a = build_tree(&mut s, &[
        IndexEntry::create("d/x.txt".to_string(), t(1), b"1"),
        IndexEntry::create("gone.txt".to_string(), t(1), b"g"),
    ]);
    let b = build_tree(&mut s, &[
        IndexEntry::create("d/x.txt".to_string(), t(1), b"2"),
        IndexEntry::create("new.txt".to_string(), t(1), b"n"),
    ]);
    let cs = diff_trees(&s, &a, &b).unwrap();
    let got: Vec<(String, Action)> = cs.iter().map(|c| (c.path.clone(), c.action)).collect();
    assert_eq!(got, vec![
        ("d/x.txt".to_string(), Action::Restore),
        ("new.txt".to_string(), Action::Create),
        ("gone.txt".to_string(), Action::Delete),
    ]);
    assert_eq!(diff_trees(&s, &a, &[3u8; 32]).err(), Some(VitError::NotFound));
}

#[test]
fn checkout_rejects_active_and_unknown_branches() {
    let s = ObjectStore::new();
    let mut index: Vec<IndexEntry> = Vec::new();
    let mut refs = Refs { head: "main".to_string(), branches: vec![Branch { name: "main".to_string(), tip: [0u8; 32] }] };
    assert_eq!(checkout(&mut refs, &s, &mut index, &"main".to_string(), t(0)).err(), Some(VitError::AlreadyActive));
    assert_eq!(checkout(&mut refs, &s, &mut index, &"nope".to_string(), t(0)).err(), Some(VitError::NotFound));
    assert_eq!(refs.head, "main");
}

#[test]
fn checkout_applies_the_diff() {
    let mut s = ObjectStore::new();
    let mut refs = main_refs();
    let mut index: Vec<IndexEntry> = Vec::new();
    add(&mut s, &mut index, &vec![file("a.txt", 1, b"hi")], &vec![]);
    commit(&mut s, &mut refs, &mut index, &"one".to_string(), &"A".to_string()).unwrap();
    refs.create_branch("b".to_string()).unwrap();
    assert_eq!(refs.create_branch("b".to_string()).err(), Some(VitError::AlreadyExists));
    add(&mut s, &mut index, &vec![file("a.txt", 2, b"hi there"), file("n.txt", 2, b"new")], &vec![]);
    commit(&mut s, &mut refs, &mut index, &"two".to_string(), &"A".to_string()).unwrap();

    let ops = checkout(&mut refs, &s, &mut index, &"b".to_string(), t(9)).unwrap();
    assert_eq!(refs.head, "b");
    assert_eq!(ops.len(), 2);
    match &ops[0] {
        FsOp::WriteFile { path, content } => {
            assert_eq!(path, "a.txt");
            assert_eq!(content, b"hi");
        }
        other => panic!("unexpected {:?}", other),
    }
    match &ops[1] {
        FsOp::RemoveFile { path } => assert_eq!(path, "n.txt"),
        other => panic!("unexpected {:?}", other),
    }
    assert_eq!(index.len(), 1);
    assert_eq!(index[0].path, "a.txt");
    assert_eq!(index[0].sha256, version_it::object::hash_object(ObjectKind::Blob, b"hi"));

    let back = checkout(&mut refs, &s, &mut index, &"main".to_string(), t(10)).unwrap();
    assert_eq!(refs.head, "main");
    assert_eq!(back.len(), 2);
    let paths: Vec<&str> = index.iter().map(|e| e.path.as_str()).collect();
    assert_eq!(paths, vec!["a.txt", "n.txt"]);
    assert_eq!(refs.delete_branch(&"main".to_string()).err(), Some(VitError::AlreadyActive));
    assert_eq!(refs.delete_branch(&"zzz".to_string()).err(), Some(VitError::NotFound));
    refs.delete_branch(&"b".to_string()).unwrap();
    assert_eq!(refs.branches.len(), 1);
    let listed = refs.list();
    assert_eq!(listed, vec![("main".to_string(), true)]);
}

#[test]
fn apply_nothing_changes_nothing() {
    let s = ObjectStore::new();
    let mut index: Vec<IndexEntry> = Vec::new();
    assert_eq!(apply_changes(&s, &Vec::new(), &mut index, t(0)).unwrap().len(), 0);
}

#[test]
fn status_reports_each_kind() {
    let mut s = ObjectStore::new();
    let mut index: Vec<IndexEntry> = Vec::new();
    add(&mut s, &mut index, &vec![file("a.txt", 1, b"a"), file("b.txt", 1, b"b"), file("c.txt", 1, b"c")], &vec![]);
    index[2].status = FileStatus::Unchanged;
    let files = vec![file("a.txt", 1, b"a"), file("b.txt", 5, b"changed"), file("u.txt", 1, b"u")];
    let lines = status(&index, &files);
    let views: Vec<String> = lines.iter().map(|l| match l {
        StatusLine::Staged { path, status } => format!("staged {:?} {}", status, path),
        StatusLine::Unstaged { path, status } => format!("unstaged {:?} {}", status, path),
        StatusLine::Untracked { path } => format!("untracked {}", path),
    }).collect();
    assert_eq!(views, vec![
        "staged New a.txt".to_string(),
        "unstaged Modified b.txt".to_string(),
        "untracked u.txt".to_string(),
        "unstaged Deleted c.txt".to_string(),
    ]);
}

#[test]
fn add_marks_gone_paths_deleted() {
    let mut s = ObjectStore::new();
    let mut index: Vec<IndexEntry> = Vec::new();
    add(&mut s, &mut index, &vec![file("a.txt", 1, b"a")], &vec![]);
    let updated = add(&mut s, &mut index, &vec![], &vec!["a.txt".to_string()]);
    assert!(!updated);
    assert_eq!(index[0].status, FileStatus::Deleted);
    let mut refs = main_refs();
    commit(&mut s, &mut refs, &mut index, &"rm".to_string(), &"A".to_string()).unwrap();
    assert_eq!(index.len(), 0);
}

#[test]
fn add_modified_file() {
    let mut s = ObjectStore::new();
    let mut index: Vec<IndexEntry> = Vec::new();
    add(&mut s, &mut index, &vec![file("a.txt", 1, b"a")], &vec![]);
    assert!(!add(&mut s, &mut index, &vec![file("a.txt", 1, b"zzz")], &vec![]));
    assert!(add(&mut s, &mut index, &vec![file("a.txt", 2, b"b")], &vec![]));
    assert_eq!(index[0].status, FileStatus::Modified);
    assert_eq!(index[0].mtime_secs, 2);
    assert_eq!(index[0].sha256, version_it::object::hash_object(ObjectKind::Blob, b"b"));
}

#[test]
fn expand_paths_lists_files() {
    let paths = vec![
        ("gone.txt".to_string(), PathKind::Missing),
        ("d".to_string(), PathKind::Dir { files: vec!["d/x".to_string(), "d/y".to_string()] }),
        ("f.txt".to_string(), PathKind::File),
    ];
    assert_eq!(expand_paths(&paths), vec!["gone.txt", "d/x", "d/y", "f.txt"]);
}

#[test]
fn commit_payload_round_trip() {
    let c = CommitEntry {
        tree: [1u8; 32],
        parent: [0u8; 32],
        author: "Ann <ann@example.com>".to_string(),
        committer: "Ann <ann@example.com>".to_string(),
        timestamp: -5,
        timezone: "+0530".to_string(),
        message: "line one\nline two".to_string(),
    };
    let b = c.to_bytes();
    let text = String::from_utf8(b.clone()).unwrap();
    assert!(text.starts_with(&format!("tree {}\nparent {}\nauthor Ann <ann@example.com> -5 +0530\n", "01".repeat(32), "00".repeat(32))));
    let back = parse_commit(&b).unwrap();
    assert_eq!(back.tree, c.tree);
    assert_eq!(back.author, c.author);
    assert_eq!(back.timestamp, -5);
    assert_eq!(back.timezone, "+0530");
    assert_eq!(back.message, c.message);
    assert_eq!(parse_commit(b"tree zz\n").err(), Some(VitError::CorruptObject));
}

#[test]
fn timezone_and_log_lines() {
    assert_eq!(timezone_text(19800), b"+0530".to_vec());
    assert_eq!(timezone_text(-1800), b"-0030".to_vec());
    assert_eq!(timezone_text(0), b"+0000".to_vec());
    let line = log_line(&[0u8; 32], &[0xffu8; 32], "Ann", "ann@x", 100, 3600, "msg here", true);
    let text = String::from_utf8(line.clone()).unwrap();
    assert_eq!(text, format!("{} {} Ann <ann@x> 100 +0100 stash: msg here\n", "00".repeat(32), "ff".repeat(32)));
    let rec = parse_log_line(&line).unwrap();
    assert_eq!(rec.new, [0xffu8; 32]);
    assert_eq!(rec.message, "msg here");
}

#[test]
fn stash_save_and_pop() {
    let mut s = ObjectStore::new();
    let mut refs = main_refs();
    let mut index: Vec<IndexEntry> = Vec::new();
    add(&mut s, &mut index, &vec![file("a.txt", 1, b"hi")], &vec![]);
    commit(&mut s, &mut refs, &mut index, &"one".to_string(), &"A".to_string()).unwrap();
    let nothing = stash(&mut s, &refs, &index, &vec![file("a.txt", 1, b"hi")], &vec![], None, None, &"A".to_string(), t(3)).unwrap();
    assert!(nothing.is_none());
    let saved = stash(&mut s, &refs, &index, &vec![file("a.txt", 2, b"edited")], &vec![], None, None, &"A".to_string(), t(3)).unwrap().unwrap();
    assert_eq!(saved.parent, [0u8; 32]);
    assert_eq!(saved.message, "WIP in progress on branch main");
    match &saved.ops[0] {
        FsOp::WriteFile { path, content } => {
            assert_eq!(path, "a.txt");
            assert_eq!(content, b"hi");
        }
        other => panic!("unexpected {:?}", other),
    }
    let records = vec![StashRecord { old: [0u8; 32], new: saved.commit, message: saved.message.clone() }];
    let (ops, tip) = pop(&mut s, &records).unwrap();
    assert!(tip.is_none());
    match &ops[0] {
        FsOp::WriteFile { path, content } => {
            assert_eq!(path, "a.txt");
            assert_eq!(content, b"edited");
        }
        other => panic!("unexpected {:?}", other),
    }
    assert!(!s.contains(&saved.commit));
    assert_eq!(pop(&mut s, &vec![]).err(), Some(VitError::NotFound));
}

#[test]
fn stash_list_apply_and_clear() {
    let mut s = ObjectStore::new();
    let mut refs = main_refs();
    let mut index: Vec<IndexEntry> = Vec::new();
    add(&mut s, &mut index, &vec![file("a.txt", 1, b"hi"), file("b.txt", 1, b"bee")], &vec![]);
    commit(&mut s, &mut refs, &mut index, &"one".to_string(), &"A".to_string()).unwrap();
    let first = stash(&mut s, &refs, &index, &vec![file("a.txt", 2, b"one")], &vec![], None, Some("first".to_string()), &"A".to_string(), t(3)).unwrap().unwrap();
    let second = stash(&mut s, &refs, &index, &vec![file("a.txt", 3, b"two")], &vec!["b.txt".to_string()], Some(first.commit), Some("second".to_string()), &"A".to_string(), t(3)).unwrap().unwrap();
    assert_eq!(second.parent, first.commit);
    let restored_b = second.ops.iter().any(|op| matches!(op, FsOp::WriteFile { path, content } if path == "b.txt" && content == b"bee"));
    assert!(restored_b);
    let records = vec![
        StashRecord { old: [0u8; 32], new: first.commit, message: "first".to_string() },
        StashRecord { old: first.commit, new: second.commit, message: "second".to_string() },
    ];
    let lines: Vec<String> = version_it::stash::list(&records).iter().map(|l| String::from_utf8(l.clone()).unwrap()).collect();
    assert_eq!(lines[0], format!("stash@{{0}}: {}: second", &hash_name(&second.commit)[..8]));
    assert_eq!(lines[1], format!("stash@{{1}}: {}: first", &hash_name(&first.commit)[..8]));
    let ops = version_it::stash::apply(&s, &first.commit).unwrap();
    match &ops[0] {
        FsOp::WriteFile { path, content } => {
            assert_eq!(path, "a.txt");
            assert_eq!(content, b"one");
        }
        other => panic!("unexpected {:?}", other),
    }
    let (_, tip) = pop(&mut s, &records).unwrap();
    assert_eq!(tip, Some(first.commit));
    let rest = vec![StashRecord { old: [0u8; 32], new: first.commit, message: "first".to_string() }];
    version_it::stash::clear(&mut s, &rest).unwrap();
    assert!(!s.contains(&first.commit));
}

#[test]
fn reflog_line_made_now() {
    let line = version_it::refs::write_log_entry(&[1u8; 32], &[2u8; 32], "Ann", "ann@x", "hello", false);
    let text = String::from_utf8(line).unwrap();
    let prefix = format!("{} {} Ann <ann@x> ", "01".repeat(32), "02".repeat(32));
    assert!(text.starts_with(&prefix));
    assert!(text.ends_with(" commit: hello\n"));
    let rest: Vec<&str> = text[prefix.len()..].split(' ').collect();
    assert!(rest[0].parse::<i64>().is_ok());
    assert_eq!(rest[1].len(), 5);
    assert!(rest[1].starts_with('+') || rest[1].starts_with('-'));
}

#[test]
fn branch_create_needs_a_commit() {
    let mut refs = main_refs();
    assert_eq!(refs.create_branch("b".to_string()).err(), Some(VitError::NotFound));
    refs.set_head_tip([4u8; 32]);
    refs.create_branch("b".to_string()).unwrap();
    assert_eq!(refs.list(), vec![("main".to_string(), true), ("b".to_string(), false)]);
    assert_eq!(refs.branches[1].tip, [4u8; 32]);
}

#[test]
fn dropping_the_last_log_line() {
    assert_eq!(without_last_line(b"one\ntwo\n"), b"one\n".to_vec());
    assert_eq!(without_last_line(b"one\n"), b"".to_vec());
    assert_eq!(without_last_line(b"no newline"), b"no newline".to_vec());
    assert_eq!(without_last_line(b""), b"".to_vec());
}

#[test]
fn add_marks_every_gone_path_for_dot() {
    use_paths_to_mark();
}

fn use_paths_to_mark() {
    let dot = vec![".".to_string()];
    let named = vec!["a.txt".to_string()];
    let r = version_it::worktree::paths_to_mark(&dot, vec!["x".to_string()], vec!["y".to_string()]);
    assert_eq!(r, vec!["x".to_string(), "y".to_string()]);
    let r = version_it::worktree::paths_to_mark(&named, vec!["x".to_string()], vec!["y".to_string()]);
    assert_eq!(r, vec!["x".to_string()]);
    let recs = vec![
        StashRecord { old: [0u8; 32], new: [1u8; 32], message: "a".to_string() },
        StashRecord { old: [1u8; 32], new: [2u8; 32], message: "b".to_string() },
    ];
    assert_eq!(version_it::stash::stash_at(&recs, 0).unwrap().new, [2u8; 32]);
    assert!(version_it::stash::stash_at(&recs, 2).is_none());
}
