use vstd::prelude::*;
use crate::binary::{has_nul_within, is_binary, BINARY_SNIFF_LEN};
use crate::codec::{lossy_string, utf8_lossy};
use crate::error::ErrorKind;
use crate::merge_text::{merge_text_contents, merge_text_spec};
use crate::merge_types::{opt_view, FileConflict, FileMergeResult};
use crate::object_store::{lookup_payload, ObjectStore};

verus! {

/// The rule of the decision table that applies to one path.
#[derive(Debug, Clone, Copy, PartialEq, Eq, Structural)]
pub enum MergeDecision {
    /// Nothing to write: no side changed it, both made the same change, or both deleted it.
    Unchanged,
    /// Only our side changed or added it.
    TakeOurs,
    /// Only their side changed or added it.
    TakeTheirs,
    /// Added on both sides with different content.
    AddAddConflict,
    /// They deleted it and we kept it.
    TheirsDeletedConflict,
    /// One side deleted it and the other left it as at the base: delete it.
    TakeDeletion,
    /// We deleted it and they kept it.
    OursDeletedConflict,
    /// Both sides changed it differently: merge the contents.
    ContentMerge,
}

/// The decision for a path from its blob hashes at the base and on each side.
pub open spec fn decision_spec(b: Option<Seq<char>>, o: Option<Seq<char>>, t: Option<Seq<char>>) -> MergeDecision {
    match (b, o, t) {
        (Some(b), Some(o), Some(t)) => if o == t {
            MergeDecision::Unchanged
        } else if o == b {
            MergeDecision::TakeTheirs
        } else if t == b {
            MergeDecision::TakeOurs
        } else {
            MergeDecision::ContentMerge
        },
        (None, Some(o), Some(t)) => if o == t {
            MergeDecision::TakeOurs
        } else {
            MergeDecision::AddAddConflict
        },
        (Some(b), None, Some(t)) => if t == b {
            MergeDecision::TakeDeletion
        } else {
            MergeDecision::OursDeletedConflict
        },
        (Some(b), Some(o), None) => if o == b {
            MergeDecision::TakeDeletion
        } else {
            MergeDecision::TheirsDeletedConflict
        },
        (None, Some(_), None) => MergeDecision::TakeOurs,
        (None, None, Some(_)) => MergeDecision::TakeTheirs,
        (_, None, None) => MergeDecision::Unchanged,
    }
}

/// The outcome of merging one file, as values.
pub enum FileOutcome {
    Unchanged,
    Deleted,
    Merged(Seq<u8>),
    /// Base, ours, theirs and the binary flag of a conflict.
    Conflicted(Option<Seq<u8>>, Option<Seq<u8>>, Option<Seq<u8>>, bool),
    Failed(ErrorKind),
}

pub open spec fn is_bin(c: Seq<u8>) -> bool {
    has_nul_within(c, BINARY_SNIFF_LEN as int)
}

/// The outcome of reconciling three contents.
pub open spec fn content_outcome(bc: Seq<u8>, oc: Seq<u8>, tc: Seq<u8>) -> FileOutcome {
    if is_bin(bc) || is_bin(oc) || is_bin(tc) {
        FileOutcome::Conflicted(Some(bc), Some(oc), Some(tc), true)
    } else {
        match merge_text_spec(utf8_lossy(bc), utf8_lossy(oc), utf8_lossy(tc)) {
            Some(s) => FileOutcome::Merged(vstd::utf8::encode_utf8(s)),
            None => FileOutcome::Conflicted(Some(bc), Some(oc), Some(tc), false),
        }
    }
}

/// The outcome of merging one path, reading blobs from the store map `m`.
pub open spec fn file_outcome(
    m: Map<Seq<char>, Seq<u8>>,
    b: Option<Seq<char>>,
    o: Option<Seq<char>>,
    t: Option<Seq<char>>,
) -> FileOutcome {
    match decision_spec(b, o, t) {
        MergeDecision::Unchanged => FileOutcome::Unchanged,
        MergeDecision::TakeDeletion => FileOutcome::Deleted,
        MergeDecision::TakeOurs => match lookup_payload(m, o.unwrap()) {
            Ok(c) => FileOutcome::Merged(c),
            Err(e) => FileOutcome::Failed(e),
        },
        MergeDecision::TakeTheirs => match lookup_payload(m, t.unwrap()) {
            Ok(c) => FileOutcome::Merged(c),
            Err(e) => FileOutcome::Failed(e),
        },
        MergeDecision::AddAddConflict => match (lookup_payload(m, o.unwrap()), lookup_payload(m, t.unwrap())) {
            (Err(e), _) => FileOutcome::Failed(e),
            (Ok(_), Err(e)) => FileOutcome::Failed(e),
            (Ok(oc), Ok(tc)) => FileOutcome::Conflicted(None, Some(oc), Some(tc), is_bin(oc) || is_bin(tc)),
        },
        MergeDecision::TheirsDeletedConflict => match lookup_payload(m, o.unwrap()) {
            Ok(oc) => FileOutcome::Conflicted(None, Some(oc), None, is_bin(oc)),
            Err(e) => FileOutcome::Failed(e),
        },
        MergeDecision::OursDeletedConflict => match lookup_payload(m, t.unwrap()) {
            Ok(tc) => FileOutcome::Conflicted(None, None, Some(tc), is_bin(tc)),
            Err(e) => FileOutcome::Failed(e),
        },
        MergeDecision::ContentMerge => match (
            lookup_payload(m, b.unwrap()),
            lookup_payload(m, o.unwrap()),
            lookup_payload(m, t.unwrap()),
        ) {
            (Err(e), _, _) => FileOutcome::Failed(e),
            (Ok(_), Err(e), _) => FileOutcome::Failed(e),
            (Ok(_), Ok(_), Err(e)) => FileOutcome::Failed(e),
            (Ok(bc), Ok(oc), Ok(tc)) => content_outcome(bc, oc, tc),
        },
    }
}

/// A file merge result as values; `path` is the path a conflict must carry.
pub open spec fn result_outcome(r: FileMergeResult) -> FileOutcome {
    match r {
        FileMergeResult::Unchanged => FileOutcome::Unchanged,
        FileMergeResult::Deleted => FileOutcome::Deleted,
        FileMergeResult::Success { content } => FileOutcome::Merged(content@),
        FileMergeResult::Conflict { conflict } => FileOutcome::Conflicted(
            opt_view(conflict.base_content),
            opt_view(conflict.our_content),
            opt_view(conflict.their_content),
            conflict.is_binary,
        ),
    }
}

/// A conflict in `r`, if any, is on `path`.
pub open spec fn conflict_on(r: FileMergeResult, path: Seq<char>) -> bool {
    match r {
        FileMergeResult::Conflict { conflict } => conflict.path@ == path,
        _ => true,
    }
}

/// A merge outcome for a file, errors included.
pub open spec fn outcome_of(r: Result<FileMergeResult, ErrorKind>) -> FileOutcome {
    match r {
        Ok(res) => result_outcome(res),
        Err(e) => FileOutcome::Failed(e),
    }
}

/// The hash a borrowed string holds, as a value.
pub open spec fn ref_view(o: Option<&String>) -> Option<Seq<char>> {
    match o {
        Some(s) => Some(s@),
        None => None,
    }
}

/// Applies the decision table to a path's blob hashes.
pub fn decide(b: Option<&String>, o: Option<&String>, t: Option<&String>) -> (r: MergeDecision)
    ensures
        r == decision_spec(ref_view(b), ref_view(o), ref_view(t)),
{
    match (b, o, t) {
        (Some(b), Some(o), Some(t)) => {
            if *o == *t {
                MergeDecision::Unchanged
            } else if *o == *b {
                MergeDecision::TakeTheirs
            } else if *t == *b {
                MergeDecision::TakeOurs
            } else {
                MergeDecision::ContentMerge
            }
        },
        (None, Some(o), Some(t)) => {
            if *o == *t {
                MergeDecision::TakeOurs
            } else {
                MergeDecision::AddAddConflict
            }
        },
        (Some(b), None, Some(t)) => if *t == *b {
            MergeDecision::TakeDeletion
        } else {
            MergeDecision::OursDeletedConflict
        },
        (Some(b), Some(o), None) => if *o == *b {
            MergeDecision::TakeDeletion
        } else {
            MergeDecision::TheirsDeletedConflict
        },
        (None, Some(_), None) => MergeDecision::TakeOurs,
        (None, None, Some(_)) => MergeDecision::TakeTheirs,
        (_, None, None) => MergeDecision::Unchanged,
    }
}

fn to_vec(b: &[u8]) -> (r: Vec<u8>)
    ensures
        r@ == b@,
{
    let mut r: Vec<u8> = Vec::new();
    r.extend_from_slice(b);
    assert(r@ =~= b@);
    r
}

fn conflict_of(path: &str, b: Option<Vec<u8>>, o: Option<Vec<u8>>, t: Option<Vec<u8>>, bin: bool) -> (r: FileMergeResult)
    ensures
        result_outcome(r) == FileOutcome::Conflicted(opt_view(b), opt_view(o), opt_view(t), bin),
        conflict_on(r, path@),
{
    let mut c = FileConflict::new(path.to_owned());
    c.base_content = b;
    c.our_content = o;
    c.their_content = t;
    c.is_binary = bin;
    FileMergeResult::Conflict { conflict: c }
}

/// Reconciles three versions of a file's content: a binary version gives a
/// binary conflict; otherwise the texts are merged line by line, and a line
/// changed differently on both sides gives a conflict on the whole file.
pub fn merge_file_contents(path: &str, base: &[u8], ours: &[u8], theirs: &[u8]) -> (r: FileMergeResult)
    ensures
        result_outcome(r) == content_outcome(base@, ours@, theirs@),
        conflict_on(r, path@),
{
    if is_binary(base) || is_binary(ours) || is_binary(theirs) {
        return conflict_of(path, Some(to_vec(base)), Some(to_vec(ours)), Some(to_vec(theirs)), true);
    }
    let bt = lossy_string(base);
    let ot = lossy_string(ours);
    let tt = lossy_string(theirs);
    match merge_text_contents(bt.as_str(), ot.as_str(), tt.as_str()) {
        Some(m) => FileMergeResult::Success { content: to_vec(m.as_str().as_bytes()) },
        None => conflict_of(path, Some(to_vec(base)), Some(to_vec(ours)), Some(to_vec(theirs)), false),
    }
}

/// Merges one path given its blob hashes at the base and on each side,
/// reading blob contents from `store`.
pub fn merge_file(
    path: &str,
    base_hash: Option<&String>,
    our_hash: Option<&String>,
    their_hash: Option<&String>,
    store: &ObjectStore,
) -> (r: Result<FileMergeResult, ErrorKind>)
    requires
        store.wf(),
    ensures
        outcome_of(r) == file_outcome(store@, ref_view(base_hash), ref_view(our_hash), ref_view(their_hash)),
        r is Ok ==> conflict_on(r.unwrap(), path@),
{
    let d = decide(base_hash, our_hash, their_hash);
    match d {
        MergeDecision::Unchanged => Ok(FileMergeResult::Unchanged),
        MergeDecision::TakeDeletion => Ok(FileMergeResult::Deleted),
        MergeDecision::TakeOurs => {
            let c = store.get_payload(our_hash.unwrap().as_str())?;
            Ok(FileMergeResult::Success { content: c })
        },
        MergeDecision::TakeTheirs => {
            let c = store.get_payload(their_hash.unwrap().as_str())?;
            Ok(FileMergeResult::Success { content: c })
        },
        MergeDecision::AddAddConflict => {
            let oc = store.get_payload(our_hash.unwrap().as_str())?;
            let tc = store.get_payload(their_hash.unwrap().as_str())?;
            let bin = is_binary(oc.as_slice()) || is_binary(tc.as_slice());
            Ok(conflict_of(path, None, Some(oc), Some(tc), bin))
        },
        MergeDecision::TheirsDeletedConflict => {
            let oc = store.get_payload(our_hash.unwrap().as_str())?;
            let bin = is_binary(oc.as_slice());
            Ok(conflict_of(path, None, Some(oc), None, bin))
        },
        MergeDecision::OursDeletedConflict => {
            let tc = store.get_payload(their_hash.unwrap().as_str())?;
            let bin = is_binary(tc.as_slice());
            Ok(conflict_of(path, None, None, Some(tc), bin))
        },
        MergeDecision::ContentMerge => {
            let bc = store.get_payload(base_hash.unwrap().as_str())?;
            let oc = store.get_payload(our_hash.unwrap().as_str())?;
            let tc = store.get_payload(their_hash.unwrap().as_str())?;
            Ok(merge_file_contents(path, bc.as_slice(), oc.as_slice(), tc.as_slice()))
        },
    }
}

/// Result of merging three file trees.
#[derive(Debug)]
pub struct MergeResult {
    /// Files merged without conflict, with their new content.
    pub merged_files: Vec<(String, Vec<u8>)>,
    /// Files left in conflict.
    pub conflicts: Vec<FileConflict>,
    /// Files deleted by the merge.
    pub deleted_files: Vec<String>,
}

impl MergeResult {
    /// A result with nothing in it.
    pub fn new() -> (r: MergeResult)
        ensures
            r.merged_files@.len() == 0,
            r.conflicts@.len() == 0,
            r.deleted_files@.len() == 0,
    {
        MergeResult { merged_files: Vec::new(), conflicts: Vec::new(), deleted_files: Vec::new() }
    }

    /// Whether any file is left in conflict.
    pub fn has_conflicts(&self) -> (r: bool)
        ensures
            r == (self.conflicts@.len() > 0),
    {
        self.conflicts.len() > 0
    }
}

/// The paths of a file list, in order.
pub open spec fn keys(fs: Seq<(String, String)>) -> Seq<Seq<char>> {
    fs.map_values(|e: (String, String)| e.0@)
}

/// `acc` followed by the items of `s` that are not yet present, in order.
pub open spec fn dedupe_onto(acc: Seq<Seq<char>>, s: Seq<Seq<char>>) -> Seq<Seq<char>>
    decreases s.len(),
{
    if s.len() == 0 {
        acc
    } else {
        let d = dedupe_onto(acc, s.drop_last());
        if d.contains(s.last()) {
            d
        } else {
            d.push(s.last())
        }
    }
}

/// Every path of the three file lists once, in order of first appearance.
pub open spec fn union_paths(
    base: Seq<(String, String)>,
    ours: Seq<(String, String)>,
    theirs: Seq<(String, String)>,
) -> Seq<Seq<char>> {
    dedupe_onto(dedupe_onto(dedupe_onto(seq![], keys(base)), keys(ours)), keys(theirs))
}

/// The blob hash that a file list gives a path (its first entry for it).
pub open spec fn map_lookup(fs: Seq<(String, String)>, p: Seq<char>) -> Option<Seq<char>>
    decreases fs.len(),
{
    if fs.len() == 0 {
        None
    } else if fs[0].0@ == p {
        Some(fs[0].1@)
    } else {
        map_lookup(fs.drop_first(), p)
    }
}

/// The outcome for path `p` of merging three file lists.
pub open spec fn path_outcome(
    m: Map<Seq<char>, Seq<u8>>,
    base: Seq<(String, String)>,
    ours: Seq<(String, String)>,
    theirs: Seq<(String, String)>,
    p: Seq<char>,
) -> FileOutcome {
    file_outcome(m, map_lookup(base, p), map_lookup(ours, p), map_lookup(theirs, p))
}

/// The first failure among the outcomes of paths `ps`.
pub open spec fn first_failure(
    m: Map<Seq<char>, Seq<u8>>,
    base: Seq<(String, String)>,
    ours: Seq<(String, String)>,
    theirs: Seq<(String, String)>,
    ps: Seq<Seq<char>>,
) -> Option<ErrorKind>
    decreases ps.len(),
{
    if ps.len() == 0 {
        None
    } else {
        match first_failure(m, base, ours, theirs, ps.drop_last()) {
            Some(e) => Some(e),
            None => match path_outcome(m, base, ours, theirs, ps.last()) {
                FileOutcome::Failed(e) => Some(e),
                _ => None,
            },
        }
    }
}

/// The merged paths among `ps` with their content, in order.
pub open spec fn merged_of(
    m: Map<Seq<char>, Seq<u8>>,
    base: Seq<(String, String)>,
    ours: Seq<(String, String)>,
    theirs: Seq<(String, String)>,
    ps: Seq<Seq<char>>,
) -> Seq<(Seq<char>, Seq<u8>)>
    decreases ps.len(),
{
    if ps.len() == 0 {
        seq![]
    } else {
        let prev = merged_of(m, base, ours, theirs, ps.drop_last());
        match path_outcome(m, base, ours, theirs, ps.last()) {
            FileOutcome::Merged(c) => prev.push((ps.last(), c)),
            _ => prev,
        }
    }
}

/// A conflict as values: path, base, ours, theirs, binary flag.
pub type ConflictView = (Seq<char>, Option<Seq<u8>>, Option<Seq<u8>>, Option<Seq<u8>>, bool);

/// The conflicted paths among `ps` with their contents, in order.
pub open spec fn conflicts_of(
    m: Map<Seq<char>, Seq<u8>>,
    base: Seq<(String, String)>,
    ours: Seq<(String, String)>,
    theirs: Seq<(String, String)>,
    ps: Seq<Seq<char>>,
) -> Seq<ConflictView>
    decreases ps.len(),
{
    if ps.len() == 0 {
        seq![]
    } else {
        let prev = conflicts_of(m, base, ours, theirs, ps.drop_last());
        match path_outcome(m, base, ours, theirs, ps.last()) {
            FileOutcome::Conflicted(b, o, t, bin) => prev.push((ps.last(), b, o, t, bin)),
            _ => prev,
        }
    }
}

/// The deleted paths among `ps`, in order.
pub open spec fn deleted_of(
    m: Map<Seq<char>, Seq<u8>>,
    base: Seq<(String, String)>,
    ours: Seq<(String, String)>,
    theirs: Seq<(String, String)>,
    ps: Seq<Seq<char>>,
) -> Seq<Seq<char>>
    decreases ps.len(),
{
    if ps.len() == 0 {
        seq![]
    } else {
        let prev = deleted_of(m, base, ours, theirs, ps.drop_last());
        match path_outcome(m, base, ours, theirs, ps.last()) {
            FileOutcome::Deleted => prev.push(ps.last()),
            _ => prev,
        }
    }
}

pub open spec fn merged_view(v: Seq<(String, Vec<u8>)>) -> Seq<(Seq<char>, Seq<u8>)> {
    v.map_values(|e: (String, Vec<u8>)| (e.0@, e.1@))
}

pub open spec fn conflict_view(c: FileConflict) -> ConflictView {
    (c.path@, opt_view(c.base_content), opt_view(c.our_content), opt_view(c.their_content), c.is_binary)
}

pub open spec fn conflicts_view(v: Seq<FileConflict>) -> Seq<ConflictView> {
    v.map_values(|c: FileConflict| conflict_view(c))
}

pub open spec fn strings_view(v: Seq<String>) -> Seq<Seq<char>> {
    v.map_values(|s: String| s@)
}

fn lookup<'a>(fs: &'a [(String, String)], p: &String) -> (r: Option<&'a String>)
    ensures
        ref_view(r) == map_lookup(fs@, p@),
{
    let mut i: usize = 0;
    assert(fs@.skip(0) =~= fs@);
    while i < fs.len()
        invariant
            i <= fs@.len(),
            map_lookup(fs@, p@) == map_lookup(fs@.skip(i as int), p@),
        decreases fs@.len() - i,
    {
        assert(fs@.skip(i as int)[0] == fs@[i as int]);
        if fs[i].0 == *p {
            return Some(&fs[i].1);
        }
        assert(fs@.skip(i as int).drop_first() =~= fs@.skip(i as int + 1));
        i = i + 1;
    }
    None
}

fn contains_path(seen: &Vec<String>, p: &String) -> (r: bool)
    ensures
        r == strings_view(seen@).contains(p@),
{
    let mut i: usize = 0;
    while i < seen.len()
        invariant
            i <= seen@.len(),
            forall|j: int| 0 <= j < i ==> (#[trigger] seen@[j])@ != p@,
        decreases seen@.len() - i,
    {
        if seen[i] == *p {
            assert(strings_view(seen@)[i as int] == p@);
            return true;
        }
        i = i + 1;
    }
    proof {
        if strings_view(seen@).contains(p@) {
            let j = choose|j: int| 0 <= j < strings_view(seen@).len() && strings_view(seen@)[j] == p@;
            assert(seen@[j]@ == p@);
        }
    }
    false
}

fn add_keys(seen: &mut Vec<String>, fs: &[(String, String)])
    ensures
        strings_view(final(seen)@) == dedupe_onto(strings_view(old(seen)@), keys(fs@)),
{
    let ghost start = strings_view(seen@);
    let mut i: usize = 0;
    while i < fs.len()
        invariant
            i <= fs@.len(),
            strings_view(seen@) == dedupe_onto(start, keys(fs@).take(i as int)),
        decreases fs@.len() - i,
    {
        let p = &fs[i].0;
        proof {
            assert(keys(fs@).take(i as int + 1).drop_last() =~= keys(fs@).take(i as int));
            assert(keys(fs@).take(i as int + 1).last() == p@);
        }
        if !contains_path(seen, p) {
            seen.push(p.clone());
            assert(strings_view(seen@) =~= dedupe_onto(start, keys(fs@).take(i as int)).push(p@));
        }
        i = i + 1;
    }
    assert(keys(fs@).take(i as int) =~= keys(fs@));
}

/// Merges three file lists (path and blob hash each) against a common base,
/// path by path over every path of the three, reading blobs from `store`.
pub fn merge_trees(
    base_files: &[(String, String)],
    our_files: &[(String, String)],
    their_files: &[(String, String)],
    store: &ObjectStore,
) -> (r: Result<MergeResult, ErrorKind>)
    requires
        store.wf(),
    ensures
        r is Err <==> first_failure(store@, base_files@, our_files@, their_files@, union_paths(base_files@, our_files@, their_files@)) is Some,
        r is Err ==> first_failure(store@, base_files@, our_files@, their_files@, union_paths(base_files@, our_files@, their_files@)) == Some(r->Err_0),
        r is Ok ==> merged_view(r.unwrap().merged_files@) == merged_of(store@, base_files@, our_files@, their_files@, union_paths(base_files@, our_files@, their_files@)),
        r is Ok ==> conflicts_view(r.unwrap().conflicts@) == conflicts_of(store@, base_files@, our_files@, their_files@, union_paths(base_files@, our_files@, their_files@)),
        r is Ok ==> strings_view(r.unwrap().deleted_files@) == deleted_of(store@, base_files@, our_files@, their_files@, union_paths(base_files@, our_files@, their_files@)),
{
    let mut paths: Vec<String> = Vec::new();
    assert(strings_view(paths@) =~= seq![]);
    add_keys(&mut paths, base_files);
    add_keys(&mut paths, our_files);
    add_keys(&mut paths, their_files);
    let ghost ps = union_paths(base_files@, our_files@, their_files@);
    let ghost m = store@;
    let ghost bf = base_files@;
    let ghost of = our_files@;
    let ghost tf = their_files@;
    let mut result = MergeResult::new();
    let mut k: usize = 0;
    while k < paths.len()
        invariant
            store.wf(),
            m == store@,
            bf == base_files@,
            of == our_files@,
            tf == their_files@,
            strings_view(paths@) == ps,
            ps == union_paths(base_files@, our_files@, their_files@),
            k <= paths@.len(),
            first_failure(m, bf, of, tf, ps.take(k as int)) is None,
            merged_view(result.merged_files@) == merged_of(m, bf, of, tf, ps.take(k as int)),
            conflicts_view(result.conflicts@) == conflicts_of(m, bf, of, tf, ps.take(k as int)),
            strings_view(result.deleted_files@) == deleted_of(m, bf, of, tf, ps.take(k as int)),
        decreases paths@.len() - k,
    {
        let path = &paths[k];
        let b = lookup(base_files, path);
        let o = lookup(our_files, path);
        let t = lookup(their_files, path);
        let ghost pre = ps.take(k as int);
        proof {
            assert(ps.take(k as int + 1).drop_last() =~= pre);
            assert(ps.take(k as int + 1).last() == path@);
        }
        let fm = merge_file(path.as_str(), b, o, t, store);
        match fm {
            Err(e) => {
                proof {
                    assert(path_outcome(m, bf, of, tf, path@) == FileOutcome::Failed(e));
                    assert(first_failure(m, bf, of, tf, ps.take(k as int + 1)) == Some(e));
                    lemma_failure_stays(m, bf, of, tf, ps, k as int + 1);
                    assert(ps.take(ps.len() as int) =~= ps);
                }
                return Err(e);
            },
            Ok(FileMergeResult::Success { content }) => {
                let ghost before = result.merged_files@;
                result.merged_files.push((path.clone(), content));
                assert(merged_view(result.merged_files@) =~= merged_view(before).push((path@, content@)));
            },
            Ok(FileMergeResult::Conflict { conflict }) => {
                let ghost before = result.conflicts@;
                result.conflicts.push(conflict);
                assert(conflicts_view(result.conflicts@) =~= conflicts_view(before).push(conflict_view(conflict)));
            },
            Ok(FileMergeResult::Unchanged) => {},
            Ok(FileMergeResult::Deleted) => {
                let ghost before = result.deleted_files@;
                result.deleted_files.push(path.clone());
                assert(strings_view(result.deleted_files@) =~= strings_view(before).push(path@));
            },
        }
        k = k + 1;
    }
    assert(ps.take(k as int) =~= ps);
    Ok(result)
}

proof fn lemma_failure_stays(
    m: Map<Seq<char>, Seq<u8>>,
    base: Seq<(String, String)>,
    ours: Seq<(String, String)>,
    theirs: Seq<(String, String)>,
    ps: Seq<Seq<char>>,
    k: int,
)
    requires
        0 <= k <= ps.len(),
        first_failure(m, base, ours, theirs, ps.take(k)) is Some,
    ensures
        first_failure(m, base, ours, theirs, ps) == first_failure(m, base, ours, theirs, ps.take(k)),
    decreases ps.len() - k,
{
    if k < ps.len() {
        assert(ps.take(k + 1).drop_last() =~= ps.take(k));
        lemma_failure_stays(m, base, ours, theirs, ps, k + 1);
    } else {
        assert(ps.take(k) =~= ps);
    }
}

} // verus!
