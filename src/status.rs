use vstd::prelude::*;
use crate::merge::{map_lookup, strings_view};

verus! {

/// How the working tree and the index differ from the index and HEAD.
#[derive(Debug)]
pub struct StatusReport {
    /// In the index, not in HEAD.
    pub staged_new: Vec<String>,
    /// In both, with another hash in the index.
    pub staged_modified: Vec<String>,
    /// In HEAD, not in the index.
    pub staged_deleted: Vec<String>,
    /// In the index, with another hash in the working tree.
    pub unstaged_modified: Vec<String>,
    /// In the index, not in the working tree.
    pub unstaged_deleted: Vec<String>,
    /// In the working tree, not in the index.
    pub untracked: Vec<String>,
}

/// The paths of `a` that `b` lacks, in order.
pub open spec fn missing_from(a: Seq<(String, String)>, b: Seq<(String, String)>) -> Seq<Seq<char>>
    decreases a.len(),
{
    if a.len() == 0 {
        seq![]
    } else {
        let prev = missing_from(a.drop_last(), b);
        if map_lookup(b, a.last().0@) is None {
            prev.push(a.last().0@)
        } else {
            prev
        }
    }
}

/// The paths of `a` that `b` holds with another hash, in order.
pub open spec fn changed_in(a: Seq<(String, String)>, b: Seq<(String, String)>) -> Seq<Seq<char>>
    decreases a.len(),
{
    if a.len() == 0 {
        seq![]
    } else {
        let prev = changed_in(a.drop_last(), b);
        match map_lookup(b, a.last().0@) {
            Some(h) => if h != a.last().1@ {
                prev.push(a.last().0@)
            } else {
                prev
            },
            None => prev,
        }
    }
}

fn lookup_hash<'a>(fs: &'a [(String, String)], p: &String) -> (r: Option<&'a String>)
    ensures
        crate::merge::ref_view(r) == map_lookup(fs@, p@),
{
    let mut i: usize = 0;
    assert(fs@.skip(0) =~= fs@);
    while i < fs.len()
        invariant
            i <= fs@.len(),
            map_lookup(fs@, p@) == map_lookup(fs@.skip(i as int), p@),
        decreases fs@.len() - i,
    {
        assert(fs@.skip(i as int)[0] == fs@[i as int]);
        if fs[i].0 == *p {
            return Some(&fs[i].1);
        }
        assert(fs@.skip(i as int).drop_first() =~= fs@.skip(i as int + 1));
        i = i + 1;
    }
    None
}

fn missing(a: &[(String, String)], b: &[(String, String)]) -> (r: Vec<String>)
    ensures
        strings_view(r@) == missing_from(a@, b@),
{
    let mut out: Vec<String> = Vec::new();
    let mut i: usize = 0;
    while i < a.len()
        invariant
            i <= a@.len(),
            strings_view(out@) == missing_from(a@.take(i as int), b@),
        decreases a@.len() - i,
    {
        assert(a@.take(i as int + 1).drop_last() =~= a@.take(i as int));
        assert(a@.take(i as int + 1).last() == a@[i as int]);
        if lookup_hash(b, &a[i].0).is_none() {
            let ghost before = strings_view(out@);
            out.push(a[i].0.clone());
            assert(strings_view(out@) =~= before.push(a@[i as int].0@));
        }
        i = i + 1;
    }
    assert(a@.take(i as int) =~= a@);
    out
}

fn changed(a: &[(String, String)], b: &[(String, String)]) -> (r: Vec<String>)
    ensures
        strings_view(r@) == changed_in(a@, b@),
{
    let mut out: Vec<String> = Vec::new();
    let mut i: usize = 0;
    while i < a.len()
        invariant
            i <= a@.len(),
            strings_view(out@) == changed_in(a@.take(i as int), b@),
        decreases a@.len() - i,
    {
        assert(a@.take(i as int + 1).drop_last() =~= a@.take(i as int));
        assert(a@.take(i as int + 1).last() == a@[i as int]);
        match lookup_hash(b, &a[i].0) {
            Some(h) => {
                if *h != a[i].1 {
                    let ghost before = strings_view(out@);
                    out.push(a[i].0.clone());
                    assert(strings_view(out@) =~= before.push(a@[i as int].0@));
                }
            },
            None => {},
        }
        i = i + 1;
    }
    assert(a@.take(i as int) =~= a@);
    out
}

/// Compares HEAD's files, the index and the working tree, each a list of
/// (path, blob hash), and sorts the differences into the six kinds of status.
pub fn compute_status(
    head_files: &[(String, String)],
    index_files: &[(String, String)],
    working_files: &[(String, String)],
) -> (r: StatusReport)
    ensures
        strings_view(r.staged_new@) == missing_from(index_files@, head_files@),
        strings_view(r.staged_modified@) == changed_in(index_files@, head_files@),
        strings_view(r.staged_deleted@) == missing_from(head_files@, index_files@),
        strings_view(r.unstaged_modified@) == changed_in(index_files@, working_files@),
        strings_view(r.unstaged_deleted@) == missing_from(index_files@, working_files@),
        strings_view(r.untracked@) == missing_from(working_files@, index_files@),
{
    StatusReport {
        staged_new: missing(index_files, head_files),
        staged_modified: changed(index_files, head_files),
        staged_deleted: missing(head_files, index_files),
        unstaged_modified: changed(index_files, working_files),
        unstaged_deleted: missing(index_files, working_files),
        untracked: missing(working_files, index_files),
    }
}

impl StatusReport {
    /// Whether nothing differs.
    pub fn is_clean(&self) -> (r: bool)
        ensures
            r == (self.staged_new@.len() == 0 && self.staged_modified@.len() == 0 && self.staged_deleted@.len() == 0
                && self.unstaged_modified@.len() == 0 && self.unstaged_deleted@.len() == 0 && self.untracked@.len() == 0),
    {
        self.staged_new.len() == 0 && self.staged_modified.len() == 0 && self.staged_deleted.len() == 0
            && self.unstaged_modified.len() == 0 && self.unstaged_deleted.len() == 0 && self.untracked.len() == 0
    }
}

/// How one file list differs from another.
#[derive(Debug)]
pub struct FileChanges {
    /// Paths only in the new list.
    pub added: Vec<String>,
    /// Paths only in the old list.
    pub deleted: Vec<String>,
    /// Paths in both with another hash.
    pub modified: Vec<String>,
}

/// The paths added, deleted and modified from `old_files` to `new_files`
/// (lists of path and blob hash), each in list order.
pub fn diff_file_lists(old_files: &[(String, String)], new_files: &[(String, String)]) -> (r: FileChanges)
    ensures
        strings_view(r.added@) == missing_from(new_files@, old_files@),
        strings_view(r.deleted@) == missing_from(old_files@, new_files@),
        strings_view(r.modified@) == changed_in(new_files@, old_files@),
{
    FileChanges {
        added: missing(new_files, old_files),
        deleted: missing(old_files, new_files),
        modified: changed(new_files, old_files),
    }
}

} // verus!
