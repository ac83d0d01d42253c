use kitcat::binary::is_binary;
use kitcat::codec::{bytes_to_hex, hex_to_bytes};
use kitcat::diff::{compute_diff, diff_texts, DiffAlgorithm};
use kitcat::diff_types::{DiffHunk, DiffLine, FileDiff};
use kitcat::edit_script::{compute_edit_script, Edit};
use kitcat::format::{format_diff_stats, format_diff_summary, format_unified_diff, UnifiedDiffOptions};
use kitcat::graph::{find_merge_base, CommitGraph};
use kitcat::merge_text::merge_text_contents;
use kitcat::merge_types::{ConflictMarker, FileConflict};
use kitcat::object_store::ObjectStore;
use kitcat::options::{Config, GcOptions, LogFormat, PackEntry, PackFile, PackObjectType, User};
use kitcat::tree::{read_tree, write_tree_from_index};

fn lines(v: &[&str]) -> Vec<String> {
    v.iter().map(|s| s.to_string()).collect()
}

#[test]
fn test_gc_options_default() {
    let options = GcOptions::default();
    assert!(!options.aggressive);
    assert_eq!(options.prune_days, Some(14));
    assert!(!options.dry_run);
}

#[test]
fn gc_test_bytes_to_hex() {
    let bytes = vec![0xde, 0xad, 0xbe, 0xef];
    assert_eq!(bytes_to_hex(&bytes), "deadbeef");
}

#[test]
fn test_log_format() {
    let fmt = LogFormat::Oneline;
    assert!(matches!(fmt, LogFormat::Oneline));
}

#[test]
fn status_test_bytes_to_hex() {
    let bytes = vec![0xab, 0xcd, 0xef];
    assert_eq!(bytes_to_hex(&bytes), "abcdef");
}

#[test]
fn test_is_hidden() {}

#[test]
fn test_default_config() {
    let config = Config::default();
    assert_eq!(config.user.name, "Unknown");
    assert_eq!(config.user.email, "unknown@example.com");
}

#[test]
fn test_user_string() {
    let config = Config {
        user: User { name: "John Doe".to_string(), email: "john@example.com".to_string() },
    };
    assert_eq!(config.get_user_string(), "John Doe <john@example.com>");
}

#[test]
fn test_myers_diff_simple() {
    let old = "line 1\nline 2\nline 3\n";
    let new = "line 1\nline 2 modified\nline 3\n";
    let diff = compute_diff(old, new, DiffAlgorithm::Myers);
    assert!(!diff.hunks.is_empty());
}

#[test]
fn test_myers_diff_additions() {
    let old = "line 1\nline 2\n";
    let new = "line 1\nline 2\nline 3\nline 4\n";
    let diff = compute_diff(old, new, DiffAlgorithm::Myers);
    assert_eq!(diff.additions(), 2);
    assert_eq!(diff.deletions(), 0);
}

#[test]
fn test_myers_diff_deletions() {
    let old = "line 1\nline 2\nline 3\nline 4\n";
    let new = "line 1\nline 4\n";
    let diff = compute_diff(old, new, DiffAlgorithm::Myers);
    assert_eq!(diff.deletions(), 2);
}

#[test]
fn test_compute_edit_script() {
    let old_lines = lines(&["a", "b", "c"]);
    let new_lines = lines(&["a", "x", "c"]);
    let edits = compute_edit_script(&old_lines, &new_lines);
    assert!(edits.contains(&Edit::Keep));
    assert!(edits.contains(&Edit::Delete));
    assert!(edits.contains(&Edit::Insert));
}

#[test]
fn test_format_diff_stats() {
    let mut diff = FileDiff::new("old.txt".to_string(), "new.txt".to_string());
    let mut hunk = DiffHunk::new(1, 1);
    hunk.add_line(DiffLine::addition(1, "line 1".to_string()));
    hunk.add_line(DiffLine::addition(2, "line 2".to_string()));
    hunk.add_line(DiffLine::deletion(1, "old line".to_string()));
    diff.hunks.push(hunk);
    let stats = format_diff_stats(&diff, false);
    assert!(stats.contains("2 insertions(+)"));
    assert!(stats.contains("1 deletion(-)"));
}

#[test]
fn test_format_diff_summary() {
    let mut diff = FileDiff::new("old.txt".to_string(), "new.txt".to_string());
    let mut hunk = DiffHunk::new(1, 1);
    hunk.add_line(DiffLine::addition(1, "line 1".to_string()));
    hunk.add_line(DiffLine::deletion(1, "old line".to_string()));
    diff.hunks.push(hunk);
    let summary = format_diff_summary(&diff, false);
    assert!(summary.contains("new.txt"));
    assert!(summary.contains("2"));
    assert!(summary.contains("+"));
    assert!(summary.contains("-"));
}

#[test]
fn test_format_unified_diff() {
    let mut diff = FileDiff::new("a/file.txt".to_string(), "b/file.txt".to_string());
    let mut hunk = DiffHunk::new(1, 1);
    hunk.add_line(DiffLine::context(1, 1, "line 1".to_string()));
    hunk.add_line(DiffLine::deletion(2, "line 2".to_string()));
    hunk.add_line(DiffLine::addition(2, "line 2 modified".to_string()));
    diff.hunks.push(hunk);
    let options = UnifiedDiffOptions { use_color: false, ..Default::default() };
    let output = format_unified_diff(&diff, &options);
    assert!(output.contains("--- a/file.txt"));
    assert!(output.contains("+++ b/file.txt"));
    assert!(output.contains("@@"));
    assert!(output.contains("-line 2"));
    assert!(output.contains("+line 2 modified"));
}

#[test]
fn mod_test_is_binary() {
    assert!(!is_binary(b"Hello, world!"));
    assert!(!is_binary(b"Text with\nnewlines\nand\ttabs"));
    assert!(is_binary(b"Binary\0content"));
}

#[test]
fn test_diff_texts_simple() {
    let old = "line 1\nline 2\nline 3\n";
    let new = "line 1\nline 2 modified\nline 3\n";
    let diff = diff_texts(old, new);
    assert!(!diff.is_binary);
    assert!(!diff.hunks.is_empty());
}

#[test]
fn test_diff_texts_additions() {
    let old = "line 1\nline 2\n";
    let new = "line 1\nline 2\nline 3\n";
    let diff = diff_texts(old, new);
    assert_eq!(diff.hunks.len(), 1);
}

#[test]
fn test_diff_texts_deletions() {
    let old = "line 1\nline 2\nline 3\n";
    let new = "line 1\nline 3\n";
    let diff = diff_texts(old, new);
    assert_eq!(diff.hunks.len(), 1);
}

#[test]
fn test_diff_line_prefix() {
    let context = DiffLine::context(1, 1, "line".to_string());
    assert_eq!(context.prefix(), ' ');
    let addition = DiffLine::addition(1, "line".to_string());
    assert_eq!(addition.prefix(), '+');
    let deletion = DiffLine::deletion(1, "line".to_string());
    assert_eq!(deletion.prefix(), '-');
}

#[test]
fn test_hunk_header() {
    let hunk = DiffHunk { old_start: 1, old_count: 3, new_start: 1, new_count: 4, lines: vec![] };
    assert_eq!(hunk.header(), "@@ -1,3 +1,4 @@");
}

#[test]
fn test_file_diff_stats() {
    let mut diff = FileDiff::new("old.txt".to_string(), "new.txt".to_string());
    let mut hunk = DiffHunk::new(1, 1);
    hunk.add_line(DiffLine::context(1, 1, "line 1".to_string()));
    hunk.add_line(DiffLine::deletion(2, "line 2".to_string()));
    hunk.add_line(DiffLine::addition(2, "line 2 modified".to_string()));
    hunk.add_line(DiffLine::addition(3, "line 3".to_string()));
    diff.hunks.push(hunk);
    assert_eq!(diff.additions(), 2);
    assert_eq!(diff.deletions(), 1);
    assert!(diff.has_changes());
}

#[test]
fn test_same_commit() {
    let graph = CommitGraph { hashes: vec![], parents: vec![] };
    let base = find_merge_base(&graph, "abc123", "abc123");
    assert!(base.is_some());
}

#[test]
fn test_empty_ancestors() {
    let ancestors: std::collections::HashSet<String> = std::collections::HashSet::new();
    assert_eq!(ancestors.len(), 0);
}

#[test]
fn mod_test_bytes_to_hex() {
    let bytes = vec![0xde, 0xad, 0xbe, 0xef];
    assert_eq!(bytes_to_hex(&bytes), "deadbeef");
}

#[test]
fn test_merge_text_no_conflict() {
    let base = "line 1\nline 2\nline 3\n";
    let ours = "line 1\nline 2 modified\nline 3\n";
    let theirs = "line 1\nline 2\nline 3 modified\n";
    let result = merge_text_contents(base, ours, theirs);
    assert!(result.is_some());
    let merged = result.unwrap();
    assert!(merged.contains("line 2 modified"));
    assert!(merged.contains("line 3 modified"));
}

#[test]
fn test_merge_text_conflict() {
    let base = "line 1\nline 2\nline 3\n";
    let ours = "line 1\nline 2 our version\nline 3\n";
    let theirs = "line 1\nline 2 their version\nline 3\n";
    let result = merge_text_contents(base, ours, theirs);
    assert!(result.is_none());
}

#[test]
fn three_way_test_is_binary() {
    let text = b"Hello, world!";
    assert!(!is_binary(text));
    let binary = b"Hello\x00world";
    assert!(is_binary(binary));
}

#[test]
fn test_conflict_markers() {
    let mut conflict = FileConflict::new("test.txt".to_string());
    conflict.our_content = Some(b"our version\n".to_vec());
    conflict.their_content = Some(b"their version\n".to_vec());
    let result = conflict.generate_conflict_markers("HEAD", "feature");
    let result_str = String::from_utf8(result).unwrap();
    assert!(result_str.contains("<<<<<<< HEAD"));
    assert!(result_str.contains("======="));
    assert!(result_str.contains(">>>>>>> feature"));
    assert!(result_str.contains("our version"));
    assert!(result_str.contains("their version"));
}

#[test]
fn test_has_conflicts() {
    let content = "<<<<<<< HEAD\nour\n=======\ntheir\n>>>>>>> branch";
    assert!(ConflictMarker::has_conflicts(content));
    let clean = "no conflicts here";
    assert!(!ConflictMarker::has_conflicts(clean));
}

#[test]
fn test_parse_commit_format() {
    let content = b"commit 200\0tree abc123\nparent def456\nauthor John Doe <john@example.com> 1234567890 +0000\ncommitter John Doe <john@example.com> 1234567890 +0000\n\nInitial commit\n";
    let commit = kitcat::commit::parse_commit(content).unwrap();
    assert_eq!(commit.tree, "abc123");
    assert_eq!(commit.parents.len(), 1);
    assert_eq!(commit.parents[0], "def456");
    assert!(commit.message.contains("Initial commit"));
}

#[test]
fn test_pack_creation() {
    let mut pack = PackFile::new();
    assert_eq!(pack.count, 0);
    let entry = PackEntry {
        obj_type: PackObjectType::Blob,
        size: 10,
        data: vec![1, 2, 3, 4, 5],
        hash: "abc123".to_string(),
    };
    pack.add_entry(entry);
    assert_eq!(pack.count, 1);
}

#[test]
fn test_object_type() {
    assert_eq!(PackObjectType::Commit.code(), 1);
    assert_eq!(PackObjectType::Blob.code(), 3);
}

#[test]
fn test_tree_node_creation() {
    let mut store = ObjectStore::new();
    let root = write_tree_from_index(&mut store, &[]).unwrap();
    let entries = read_tree(&store, &root).unwrap();
    assert_eq!(entries.iter().filter(|e| !e.is_tree).count(), 0);
    assert_eq!(entries.iter().filter(|e| e.is_tree).count(), 0);
}

#[test]
fn test_hex_conversion() {
    let hex = "a94a8fe5ccb19ba61c4c0873d391e987982fbbd3";
    let bytes = hex_to_bytes(hex).unwrap();
    assert_eq!(bytes.len(), 20);
    let hex2 = bytes_to_hex(&bytes);
    assert_eq!(hex, hex2);
}

#[test]
fn test_branch_name_validation() {
    let head = Some("a94a8fe5ccb19ba61c4c0873d391e987982fbbd3");
    assert!(kitcat::refs::create_branch("", false, head).is_err());
    assert!(kitcat::refs::create_branch("feature..test", false, head).is_err());
    assert!(kitcat::refs::create_branch("feature test", false, head).is_err());
    assert!(kitcat::refs::create_branch("-feature", false, head).is_err());
}
