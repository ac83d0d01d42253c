use kitcat::codec::{compress_data, compute_hash, decompress};
use kitcat::commit::{create_commit, get_commit_parents, get_commit_tree, parse_commit, read_commit};
use kitcat::diff::diff_texts;
use kitcat::diff_types::{DiffHunk, DiffLine, FileDiff};
use kitcat::edit_script::{compute_edit_script, Edit};
use kitcat::error::ErrorKind;
use kitcat::format::{format_diff_stats, format_diff_summary, format_unified_diff, UnifiedDiffOptions};
use kitcat::graph::{can_fast_forward, find_merge_base, CommitGraph};
use kitcat::index::{add_or_update, index_file, parse_index, IndexEntry};
use kitcat::merge::{merge_file_contents, merge_trees};
use kitcat::merge_text::merge_text_contents;
use kitcat::merge_types::FileMergeResult;
use kitcat::object::ObjectKind;
use kitcat::object_store::ObjectStore;
use kitcat::merge_plan::{plan_merge, MergeStep};
use kitcat::options::{get_config, Config, MergeOptions};
use kitcat::refs::{checkout, get_current_branch, CheckoutTarget};
use kitcat::tree::{get_commit_files, read_tree, write_tree_from_index};

fn lines(v: &[&str]) -> Vec<String> {
    v.iter().map(|s| s.to_string()).collect()
}

fn apply(edits: &[Edit], a: &[String], b: &[String]) -> Vec<String> {
    let (mut i, mut j) = (0, 0);
    let mut out = Vec::new();
    for e in edits {
        match e {
            Edit::Keep => {
                out.push(a[i].clone());
                i += 1;
                j += 1;
            }
            Edit::Delete => i += 1,
            Edit::Insert => {
                out.push(b[j].clone());
                j += 1;
            }
        }
    }
    out
}

fn entry(path: &str, hash: Vec<u8>, size: u32) -> IndexEntry {
    IndexEntry {
        ctime_sec: 1,
        ctime_nsec: 2,
        mtime_sec: 3,
        mtime_nsec: 4,
        dev: 5,
        ino: 6,
        mode: 0o100644,
        uid: 7,
        gid: 8,
        size,
        hash,
        flags: path.len() as u16,
        path: path.to_string(),
    }
}

#[test]
fn put_then_get_payload_round_trips() {
    let mut store = ObjectStore::new();
    let h = store.put(ObjectKind::Blob, b"some bytes\0with nul");
    assert_eq!(store.get_payload(&h).unwrap(), b"some bytes\0with nul".to_vec());
    assert_eq!(store.get_kind(&h).unwrap(), ObjectKind::Blob);
    let h2 = store.put(ObjectKind::Blob, b"some bytes\0with nul");
    assert_eq!(h, h2);
    assert_eq!(store.len(), 1);
}

#[test]
fn blob_hash_matches_known_value() {
    let mut store = ObjectStore::new();
    let h = store.put(ObjectKind::Blob, b"hello\n");
    assert_eq!(h, "ce013625030ba8dba906f756967f9e9ca394464a");
    assert_eq!(store.get(&h).unwrap(), b"blob 6\0hello\n".to_vec());
}

#[test]
fn sha1_of_test_is_known() {
    assert_eq!(compute_hash(b"test"), "a94a8fe5ccb19ba61c4c0873d391e987982fbbd3");
}

#[test]
fn compression_round_trips_and_changes_bytes() {
    let data = b"aaaaaaaaaaaaaaaaaaaaaaaaaaaaaaaaaaaaaaaaaaaa".to_vec();
    let c = compress_data(&data);
    assert_ne!(c, data);
    assert_eq!(decompress(&c).unwrap(), data);
    assert!(decompress(b"not zlib").is_none());
}

#[test]
fn missing_object_is_not_found() {
    let store = ObjectStore::new();
    assert_eq!(store.get_payload("0000000000000000000000000000000000000000"), Err(ErrorKind::NotFound));
}

#[test]
fn load_checks_hash() {
    let mut store = ObjectStore::new();
    let mut other = ObjectStore::new();
    let h = other.put(ObjectKind::Blob, b"x");
    let c = other.compressed(&h).unwrap();
    assert_eq!(store.load("1111111111111111111111111111111111111111", &c), Err(ErrorKind::InvalidData));
    assert_eq!(store.load(&h, b"garbage"), Err(ErrorKind::InvalidData));
    assert_eq!(store.load(&h, &c), Ok(()));
    assert_eq!(store.get_payload(&h).unwrap(), b"x".to_vec());
}

#[test]
fn short_hash_resolution() {
    let mut store = ObjectStore::new();
    let h = store.put(ObjectKind::Blob, b"hello\n");
    assert_eq!(store.resolve_prefix("ce01").unwrap(), h);
    assert_eq!(store.resolve_prefix("c"), Err(ErrorKind::InvalidInput));
    assert_eq!(store.resolve_prefix("ffff"), Err(ErrorKind::NotFound));
}

#[test]
fn build_tree_is_deterministic_and_order_free() {
    let a = vec![1u8; 20];
    let b = vec![2u8; 20];
    let c = vec![3u8; 20];
    let e1 = vec![entry("src/main.rs", a.clone(), 1), entry("README", b.clone(), 2), entry("src/lib/x.rs", c.clone(), 3)];
    let e2 = vec![entry("src/lib/x.rs", c, 3), entry("src/main.rs", a, 1), entry("README", b, 2)];
    let mut s1 = ObjectStore::new();
    let r1 = write_tree_from_index(&mut s1, &e1).unwrap();
    let r1b = write_tree_from_index(&mut s1, &e1).unwrap();
    let mut s2 = ObjectStore::new();
    let r2 = write_tree_from_index(&mut s2, &e2).unwrap();
    assert_eq!(r1, r1b);
    assert_eq!(r1, r2);
    let root = read_tree(&s1, &r1).unwrap();
    let names: Vec<&str> = root.iter().map(|e| e.name.as_str()).collect();
    assert_eq!(names, vec!["README", "src"]);
    assert!(root[1].is_tree);
    assert_eq!(root[1].mode, "40000");
    assert_eq!(root[0].mode, "100644");
}

#[test]
fn tree_hash_rejects_short_hash() {
    let mut s = ObjectStore::new();
    assert_eq!(write_tree_from_index(&mut s, &[entry("a", vec![1, 2], 0)]), Err(ErrorKind::InvalidInput));
}

#[test]
fn diff_script_rebuilds_new_lines() {
    let a = lines(&["a", "b", "c", "d"]);
    let b = lines(&["b", "x", "d", "e"]);
    let edits = compute_edit_script(&a, &b);
    assert_eq!(apply(&edits, &a, &b), b);
    let same = compute_edit_script(&a, &a);
    assert!(same.iter().all(|e| *e == Edit::Keep));
    assert_eq!(same.len(), 4);
}

#[test]
fn diff_script_tie_goes_to_delete() {
    let a = lines(&["a", "b", "c"]);
    let b = lines(&["a", "x", "c"]);
    let edits = compute_edit_script(&a, &b);
    assert_eq!(edits, vec![Edit::Keep, Edit::Insert, Edit::Delete, Edit::Keep]);
    assert_eq!(compute_edit_script(&lines(&["b"]), &lines(&["x"])), vec![Edit::Insert, Edit::Delete]);
}

#[test]
fn diff_of_empty_sides() {
    assert_eq!(compute_edit_script(&[], &lines(&["a", "b"])), vec![Edit::Insert, Edit::Insert]);
    assert_eq!(compute_edit_script(&lines(&["a"]), &[]), vec![Edit::Delete]);
}

#[test]
fn hunks_carry_context_and_line_numbers() {
    let old = "1\n2\n3\n4\n5\n6\n7\n8\n9\n10\n11\n12\n13\n14\n15\n";
    let new = "1\n2\n3\n4\nX\n6\n7\n8\n9\n10\n11\n12\n13\nY\n15\n";
    let d = diff_texts(old, new);
    assert_eq!(d.hunks.len(), 2);
    assert_eq!(d.hunks[0].header(), "@@ -2,7 +2,7 @@");
    assert_eq!(d.hunks[1].header(), "@@ -11,5 +11,5 @@");
    let close = "1\n2\n3\n4\nX\n6\n7\n8\n9\n10\nY\n12\n";
    let d2 = diff_texts("1\n2\n3\n4\n5\n6\n7\n8\n9\n10\n11\n12\n", close);
    assert_eq!(d2.hunks.len(), 1);
    let l = &d.hunks[0].lines[3];
    assert_eq!(l.old_line_no, None);
    assert_eq!(l.new_line_no, Some(5));
    let l = &d.hunks[0].lines[4];
    assert_eq!(l.old_line_no, Some(5));
    assert_eq!(l.new_line_no, None);
    assert!(diff_texts("a\nb\n", "a\nb\n").hunks.is_empty());
}

#[test]
fn unified_text_exact() {
    let d = diff_texts("line 1\nline 2\nline 3\n", "line 1\nline 2 modified\nline 3\n");
    let mut d = d;
    d.old_path = "a".to_string();
    d.new_path = "b".to_string();
    let out = format_unified_diff(&d, &UnifiedDiffOptions { use_color: false, ..Default::default() });
    assert_eq!(out, "--- a\n+++ b\n@@ -1,3 +1,3 @@\n line 1\n+line 2 modified\n-line 2\n line 3\n");
    let col = format_unified_diff(&d, &UnifiedDiffOptions::default());
    assert!(col.contains("\x1b[32m+line 2 modified\x1b[0m\n"));
    assert_eq!(format_diff_stats(&d, false), "1 insertion(+), 1 deletion(-)");
    assert_eq!(format_diff_summary(&d, false), "b | 2 +-");
    assert_eq!(d.hunks[0].header(), "@@ -1,3 +1,3 @@");
    let mut bin = FileDiff::new("x".to_string(), "y".to_string());
    bin.is_binary = true;
    assert_eq!(format_unified_diff(&bin, &UnifiedDiffOptions { use_color: false, ..Default::default() }), "--- x\n+++ y\nBinary files differ\n");
    assert_eq!(format_diff_summary(&bin, false), "y | Binary file");
}

#[test]
fn stats_plural_zero() {
    let d = FileDiff::new("a".to_string(), "b".to_string());
    assert_eq!(format_diff_stats(&d, false), "0 insertions(+), 0 deletions(-)");
    assert!(!d.has_changes());
    let mut h = DiffHunk::new(1, 1);
    h.add_line(DiffLine::context(1, 1, "x".to_string()));
    assert_eq!(h.old_count, 1);
    assert_eq!(h.new_count, 1);
}

fn blob(store: &mut ObjectStore, s: &str) -> String {
    store.put(ObjectKind::Blob, s.as_bytes())
}

#[test]
fn three_way_merge_combines_separate_changes() {
    let mut store = ObjectStore::new();
    let b = blob(&mut store, "1\n2\n3\n");
    let o = blob(&mut store, "1\n2x\n3\n");
    let t = blob(&mut store, "1\n2\n3y\n");
    let r = merge_trees(&[("f".to_string(), b)], &[("f".to_string(), o)], &[("f".to_string(), t)], &store).unwrap();
    assert!(!r.has_conflicts());
    assert_eq!(r.merged_files, vec![("f".to_string(), b"1\n2x\n3y\n".to_vec())]);
}

#[test]
fn three_way_merge_reports_conflict() {
    let mut store = ObjectStore::new();
    let b = blob(&mut store, "a\n");
    let o = blob(&mut store, "b\n");
    let t = blob(&mut store, "c\n");
    let r = merge_trees(&[("f".to_string(), b)], &[("f".to_string(), o)], &[("f".to_string(), t)], &store).unwrap();
    assert_eq!(r.conflicts.len(), 1);
    assert_eq!(r.conflicts[0].path, "f");
    assert_eq!(r.conflicts[0].our_content, Some(b"b\n".to_vec()));
    assert_eq!(r.conflicts[0].their_content, Some(b"c\n".to_vec()));
    assert!(r.merged_files.is_empty());
}

#[test]
fn merge_decision_table_cases() {
    let mut store = ObjectStore::new();
    let x = blob(&mut store, "x\n");
    let y = blob(&mut store, "y\n");
    let f = |p: &str, h: &String| (p.to_string(), h.clone());
    let base = vec![f("same", &x), f("theirs_changed", &x), f("both_deleted", &x), f("we_deleted", &x)];
    let ours = vec![f("same", &x), f("theirs_changed", &x), f("added_same", &y), f("added_diff", &x)];
    let theirs = vec![f("same", &x), f("theirs_changed", &y), f("added_same", &y), f("added_diff", &y), f("we_deleted", &y)];
    let r = merge_trees(&base, &ours, &theirs, &store).unwrap();
    assert_eq!(r.merged_files, vec![("theirs_changed".to_string(), b"y\n".to_vec()), ("added_same".to_string(), b"y\n".to_vec())]);
    let paths: Vec<&str> = r.conflicts.iter().map(|c| c.path.as_str()).collect();
    assert_eq!(paths, vec!["we_deleted", "added_diff"]);
    assert_eq!(r.conflicts[0].our_content, None);
    assert_eq!(r.conflicts[1].base_content, None);
}

#[test]
fn merge_missing_blob_fails() {
    let store = ObjectStore::new();
    let r = merge_trees(&[], &[("f".to_string(), "00".to_string())], &[], &store);
    assert_eq!(r.err(), Some(ErrorKind::NotFound));
}

#[test]
fn binary_contents_conflict() {
    match merge_file_contents("p", b"a\0", b"b\0", b"c\0") {
        FileMergeResult::Conflict { conflict } => {
            assert!(conflict.is_binary);
            let note = String::from_utf8(conflict.generate_conflict_markers("o", "t")).unwrap();
            assert!(note.starts_with("Binary file conflict in p\n"));
        }
        _ => panic!("expected a conflict"),
    }
}

#[test]
fn conflict_markers_add_missing_newline() {
    let mut c = kitcat::merge_types::FileConflict::new("f".to_string());
    c.our_content = Some(b"a".to_vec());
    c.their_content = Some(b"b\n".to_vec());
    let out = String::from_utf8(c.generate_conflict_markers("HEAD", "other")).unwrap();
    assert_eq!(out, "<<<<<<< HEAD\na\n=======\nb\n>>>>>>> other\n");
}

fn commit(store: &mut ObjectStore, parents: &[String], msg: &str) -> String {
    create_commit(store, "4b825dc642cb6eb9a060e54bf8d69288fbee4904", parents, "A <a@b>", 1000, "+0000", msg)
}

#[test]
fn merge_base_and_fast_forward() {
    let mut store = ObjectStore::new();
    let a = commit(&mut store, &[], "a");
    let b = commit(&mut store, &[a.clone()], "b");
    let c = commit(&mut store, &[b.clone()], "c");
    let d = commit(&mut store, &[a.clone()], "d");
    let g = CommitGraph::from_store(&store);
    assert_eq!(find_merge_base(&g, &c, &c), Some(c.clone()));
    assert!(can_fast_forward(&g, &a, &c));
    assert!(!can_fast_forward(&g, &c, &a));
    assert_eq!(find_merge_base(&g, &a, &c), Some(a.clone()));
    assert_eq!(find_merge_base(&g, &c, &d), Some(a.clone()));
    let e = commit(&mut store, &[], "e");
    let g = CommitGraph::from_store(&store);
    assert_eq!(find_merge_base(&g, &c, &e), None);
}

#[test]
fn commit_round_trip_through_store() {
    let mut store = ObjectStore::new();
    let p = commit(&mut store, &[], "first");
    let h = create_commit(&mut store, "abc", &[p.clone()], "Ann <ann@x>", -5, "+0100", "second line");
    let c = read_commit(&store, &h).unwrap();
    assert_eq!(c.tree, "abc");
    assert_eq!(c.parents, vec![p.clone()]);
    assert_eq!(c.author, "Ann <ann@x>");
    assert_eq!(c.author_time, -5);
    assert_eq!(c.committer_time, -5);
    assert_eq!(c.message, "second line");
    assert_eq!(get_commit_parents(&store, &h).unwrap(), vec![p]);
    assert_eq!(get_commit_tree(&store, &h).unwrap(), "abc");
    let blob_hash = store.put(ObjectKind::Blob, b"x");
    assert_eq!(read_commit(&store, &blob_hash).err(), Some(ErrorKind::InvalidData));
    assert_eq!(parse_commit(b"no nul here").err(), Some(ErrorKind::InvalidData));
}

#[test]
fn commit_files_walk() {
    let mut store = ObjectStore::new();
    let x = store.put(ObjectKind::Blob, b"x");
    let raw = kitcat::codec::hex_to_bytes(&x).unwrap();
    let t = write_tree_from_index(&mut store, &[entry("d/e/f.txt", raw.clone(), 1), entry("g.txt", raw, 1)]).unwrap();
    let c = create_commit(&mut store, &t, &[], "A <a>", 0, "+0000", "m");
    let mut files = get_commit_files(&store, &c).unwrap();
    files.sort();
    assert_eq!(files, vec![("d/e/f.txt".to_string(), x.clone()), ("g.txt".to_string(), x)]);
}

#[test]
fn index_round_trip_sorted_with_checksum() {
    let e = vec![entry("zeta", vec![9u8; 20], 10), entry("alpha/beta", vec![4u8; 20], 20), entry("mid", vec![5u8; 20], 30)];
    let bytes = index_file(&e);
    assert_eq!(&bytes[0..4], b"DIRC");
    let back = parse_index(&bytes).unwrap();
    let paths: Vec<&str> = back.iter().map(|x| x.path.as_str()).collect();
    assert_eq!(paths, vec!["alpha/beta", "mid", "zeta"]);
    assert_eq!(back[0].hash, vec![4u8; 20]);
    assert_eq!(back[0].size, 20);
    assert_eq!(back[2].flags, 4);
    assert_eq!(back[1].mtime_nsec, 4);
    assert_eq!((bytes.len() - 12 - 20) % 8, 0);
    let mut bad = bytes.clone();
    let n = bad.len();
    bad[n - 1] ^= 1;
    assert_eq!(parse_index(&bad).err(), Some(ErrorKind::InvalidData));
    assert_eq!(parse_index(b"XXXX").err(), Some(ErrorKind::InvalidData));
}

#[test]
fn index_keeps_last_entry_per_path() {
    let e = vec![entry("a", vec![1u8; 20], 1), entry("a", vec![2u8; 20], 2)];
    let back = parse_index(&index_file(&e)).unwrap();
    assert_eq!(back.len(), 1);
    assert_eq!(back[0].size, 2);
}

#[test]
fn add_or_update_replaces() {
    let mut v = vec![entry("a", vec![1u8; 20], 1), entry("b", vec![1u8; 20], 1)];
    add_or_update(&mut v, entry("a", vec![3u8; 20], 3));
    assert_eq!(v.len(), 2);
    assert_eq!(v[0].path, "b");
    assert_eq!(v[1].size, 3);
}

#[test]
fn config_keys() {
    let c = Config::default();
    assert_eq!(get_config(&c, "user.name").unwrap(), "Unknown");
    assert_eq!(get_config(&c, "user.email").unwrap(), "unknown@example.com");
    assert_eq!(get_config(&c, "user.age"), Err(ErrorKind::InvalidInput));
}

#[test]
fn head_and_checkout_targets() {
    assert_eq!(get_current_branch("ref: refs/heads/main\n"), Some("main".to_string()));
    assert_eq!(get_current_branch("0123456789abcdef"), None);
    assert_eq!(checkout("main", true), Ok(CheckoutTarget::Branch));
    assert_eq!(checkout("abcdef0", false), Ok(CheckoutTarget::Commit));
    assert_eq!(checkout("abc", false), Err(ErrorKind::NotFound));
    assert_eq!(checkout("nothexxx", false), Err(ErrorKind::NotFound));
}

#[test]
fn legacy_text_index_is_read() {
    let text = b"a94a8fe5ccb19ba61c4c0873d391e987982fbbd3 src/a.txt\nce013625030ba8dba906f756967f9e9ca394464a b.txt\n";
    let v = kitcat::index::read_index(text).unwrap();
    assert_eq!(v.len(), 2);
    assert_eq!(v[0].path, "src/a.txt");
    assert_eq!(kitcat::codec::bytes_to_hex(&v[1].hash), "ce013625030ba8dba906f756967f9e9ca394464a");
    assert_eq!(v[0].mode, 0o100644);
    assert_eq!(kitcat::index::read_index(b"nothex path\n").err(), Some(ErrorKind::InvalidData));
    let bin = index_file(&[entry("x", vec![1u8; 20], 1)]);
    assert_eq!(kitcat::index::read_index(&bin).unwrap()[0].path, "x");
}

#[test]
fn set_config_keys() {
    let mut c = Config::default();
    kitcat::options::set_config(&mut c, "user.name", "Bo").unwrap();
    assert_eq!(c.user.name, "Bo");
    assert_eq!(kitcat::options::set_config(&mut c, "core.x", "y"), Err(ErrorKind::InvalidInput));
    assert_eq!(c.user.email, "unknown@example.com");
}

#[test]
fn merge_plan_decisions() {
    let mut store = ObjectStore::new();
    let a = commit(&mut store, &[], "a");
    let b = commit(&mut store, &[a.clone()], "b");
    let c = commit(&mut store, &[a.clone()], "c");
    let z = commit(&mut store, &[], "z");
    let g = CommitGraph::from_store(&store);
    let opts = MergeOptions::default();
    assert!(matches!(plan_merge(&g, &a, &a, &opts), Ok(MergeStep::AlreadyUpToDate)));
    assert!(matches!(plan_merge(&g, &a, &b, &opts), Ok(MergeStep::FastForward)));
    match plan_merge(&g, &b, &c, &opts) {
        Ok(MergeStep::ThreeWay { base }) => assert_eq!(base, a),
        _ => panic!("expected a three-way merge"),
    }
    let ff_only = MergeOptions { ff_only: true, ..MergeOptions::default() };
    assert!(matches!(plan_merge(&g, &b, &c, &ff_only), Err(ErrorKind::InvalidInput)));
    assert!(matches!(plan_merge(&g, &b, &z, &opts), Err(ErrorKind::InvalidInput)));
}

#[test]
fn status_kinds() {
    let p = |a: &str, h: &str| (a.to_string(), h.to_string());
    let head = vec![p("kept", "1"), p("changed", "1"), p("gone", "1")];
    let index = vec![p("kept", "1"), p("changed", "2"), p("new", "1"), p("edited", "1"), p("removed", "1")];
    let work = vec![p("kept", "1"), p("changed", "2"), p("new", "1"), p("edited", "9"), p("extra", "1")];
    let r = kitcat::status::compute_status(&head, &index, &work);
    assert_eq!(r.staged_new, vec!["new", "edited", "removed"]);
    assert_eq!(r.staged_modified, vec!["changed"]);
    assert_eq!(r.staged_deleted, vec!["gone"]);
    assert_eq!(r.unstaged_modified, vec!["edited"]);
    assert_eq!(r.unstaged_deleted, vec!["removed"]);
    assert_eq!(r.untracked, vec!["extra"]);
    assert!(!r.is_clean());
}

#[test]
fn history_walks_first_parent_first() {
    let mut store = ObjectStore::new();
    let a = commit(&mut store, &[], "a");
    let b = commit(&mut store, &[a.clone()], "b");
    let c = commit(&mut store, &[a.clone()], "c");
    let m = commit(&mut store, &[b.clone(), c.clone()], "m");
    let g = CommitGraph::from_store(&store);
    assert_eq!(kitcat::graph::history(&g, &m, None), vec![m.clone(), b.clone(), a.clone(), c.clone()]);
    assert_eq!(kitcat::graph::history(&g, &m, Some(2)), vec![m, b]);
}

#[test]
fn branch_creation_errors() {
    let head = Some("a94a8fe5ccb19ba61c4c0873d391e987982fbbd3");
    assert_eq!(kitcat::refs::create_branch("topic", false, head), Ok(head.unwrap().to_string()));
    assert_eq!(kitcat::refs::create_branch("topic", true, head), Err(ErrorKind::AlreadyExists));
    assert_eq!(kitcat::refs::create_branch("topic", false, None), Err(ErrorKind::NotFound));
    assert_eq!(kitcat::refs::create_branch("topic", false, Some("abc")), Err(ErrorKind::InvalidData));
    assert_eq!(kitcat::refs::validate_branch_name("a..b"), Err(ErrorKind::InvalidInput));
}

#[test]
fn file_list_changes() {
    let p = |a: &str, h: &str| (a.to_string(), h.to_string());
    let c = kitcat::status::diff_file_lists(&[p("a", "1"), p("b", "1")], &[p("b", "2"), p("c", "1")]);
    assert_eq!(c.added, vec!["c"]);
    assert_eq!(c.deleted, vec!["a"]);
    assert_eq!(c.modified, vec!["b"]);
}

#[test]
fn merge_base_prefers_least_summed_distance() {
    let mut store = ObjectStore::new();
    let a = commit(&mut store, &[], "a");
    let b = commit(&mut store, &[a.clone()], "b");
    let c1 = commit(&mut store, &[b.clone()], "c1");
    let c2 = commit(&mut store, &[c1.clone()], "c2");
    let d = commit(&mut store, &[c2, a.clone()], "d");
    let g = CommitGraph::from_store(&store);
    assert!(can_fast_forward(&g, &b, &d));
    assert_eq!(find_merge_base(&g, &b, &d), Some(a));
}

#[test]
fn line_merge_deletions() {
    assert_eq!(merge_text_contents("a\nb\n", "a\n", "a\nc\n"), None);
    assert_eq!(merge_text_contents("a\nb\n", "a\n", "a\nb\n"), Some("a\n".to_string()));
    assert_eq!(merge_text_contents("a\nb\n", "a\nb\n", "a\n"), Some("a\n".to_string()));
}

#[test]
fn deletion_against_unchanged_side_is_taken() {
    let mut store = ObjectStore::new();
    let x = blob(&mut store, "x\n");
    let y = blob(&mut store, "y\n");
    let f = |p: &str, h: &String| (p.to_string(), h.clone());
    let base = vec![f("gone_theirs", &x), f("gone_ours", &x), f("changed", &x)];
    let ours = vec![f("gone_theirs", &x), f("changed", &y)];
    let theirs = vec![f("gone_ours", &x)];
    let r = merge_trees(&base, &ours, &theirs, &store).unwrap();
    assert_eq!(r.deleted_files, vec!["gone_theirs".to_string(), "gone_ours".to_string()]);
    let paths: Vec<&str> = r.conflicts.iter().map(|c| c.path.as_str()).collect();
    assert_eq!(paths, vec!["changed"]);
}

#[test]
fn truncated_person_line_is_invalid() {
    assert_eq!(parse_commit(b"commit 0\0author x 1\n\n").err(), Some(ErrorKind::InvalidData));
    assert!(parse_commit(b"commit 0\0author x 1 +0000\n\n").is_ok());
}

#[test]
fn binary_note_text() {
    let mut c = kitcat::merge_types::FileConflict::new("p".to_string());
    c.is_binary = true;
    let note = String::from_utf8(c.generate_conflict_markers("o", "t")).unwrap();
    assert_eq!(note, "Binary file conflict in p\nUse 'kitkat checkout --ours p' or 'kitkat checkout --theirs p'\n");
}

#[test]
fn legacy_index_with_repeated_whitespace() {
    let v = kitcat::index::read_index(b"a94a8fe5ccb19ba61c4c0873d391e987982fbbd3 \t  x.txt  extra\n").unwrap();
    assert_eq!(v[0].path, "x.txt");
    assert_eq!(kitcat::index::read_index(b"a94a8fe5ccb19ba61c4c0873d391e987982fbbd3\n").err(), Some(ErrorKind::InvalidData));
}

#[test]
fn log_filter() {
    let mut store = ObjectStore::new();
    let h = create_commit(&mut store, "t", &[], "Ann <ann@x>", 100, "+0000", "m");
    let c = read_commit(&store, &h).unwrap();
    assert!(kitcat::commit::commit_matches(&c, Some("Ann"), Some(100), Some(100)));
    assert!(!kitcat::commit::commit_matches(&c, Some("Bob"), None, None));
    assert!(!kitcat::commit::commit_matches(&c, None, Some(101), None));
    assert!(!kitcat::commit::commit_matches(&c, None, None, Some(99)));
}
