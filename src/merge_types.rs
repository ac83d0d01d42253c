use vstd::prelude::*;
use vstd::string::StringSliceAdditionalSpecFns;
use crate::codec::{lossy_string, utf8_lossy};

verus! {

/// How conflicting changes are settled.
#[derive(Debug, Clone, Copy, PartialEq, Eq, Structural)]
pub enum MergeStrategy {
    /// Standard three-way merge.
    ThreeWay,
    /// On conflict, take our version.
    Ours,
    /// On conflict, take their version.
    Theirs,
}

impl Default for MergeStrategy {
    fn default() -> (r: MergeStrategy)
        ensures
            r == MergeStrategy::ThreeWay,
    {
        MergeStrategy::ThreeWay
    }
}

/// A file that three-way reconciliation could not settle.
#[derive(Debug, Clone)]
pub struct FileConflict {
    pub path: String,
    /// Content at the common ancestor.
    pub base_content: Option<Vec<u8>>,
    /// Our content.
    pub our_content: Option<Vec<u8>>,
    /// Their content.
    pub their_content: Option<Vec<u8>>,
    pub is_binary: bool,
}

/// A tracked conflict region in a file.
#[derive(Debug, Clone)]
pub struct ConflictMarker {
    pub start_line: usize,
    pub end_line: usize,
    pub our_lines: Vec<String>,
    pub their_lines: Vec<String>,
}

/// Outcome of merging one file.
#[derive(Debug, Clone)]
pub enum FileMergeResult {
    /// Merged content.
    Success { content: Vec<u8> },
    /// A conflict to be resolved by hand.
    Conflict { conflict: FileConflict },
    /// Nothing to write.
    Unchanged,
    /// Remove the file.
    Deleted,
}

/// The bytes of an optional content, viewed.
pub open spec fn opt_view(o: Option<Vec<u8>>) -> Option<Seq<u8>> {
    match o {
        Some(v) => Some(v@),
        None => None,
    }
}

/// The UTF-8 bytes of the lossy text of an optional content (empty when absent).
pub open spec fn side_bytes(o: Option<Vec<u8>>) -> Seq<u8> {
    match o {
        Some(v) => vstd::utf8::encode_utf8(utf8_lossy(v@)),
        None => seq![],
    }
}

/// `b` ending with a newline, one added when missing.
pub open spec fn with_newline(b: Seq<u8>) -> Seq<u8> {
    if b.len() > 0 && b.last() == 10u8 {
        b
    } else {
        b.push(10u8)
    }
}

/// `n` copies of byte `c`.
pub open spec fn run(c: u8, n: nat) -> Seq<u8> {
    Seq::new(n, |i: int| c)
}

/// The marked-up text of a text conflict.
pub open spec fn markers_text(ours: Seq<u8>, our_label: Seq<u8>, theirs: Seq<u8>, their_label: Seq<u8>) -> Seq<u8> {
    run(60u8, 7) + seq![32u8] + our_label + seq![10u8] + with_newline(ours) + run(61u8, 7) + seq![10u8]
        + with_newline(theirs) + run(62u8, 7) + seq![32u8] + their_label + seq![10u8]
}

/// `hay` holds `needle` at some position.
pub open spec fn holds_seq(hay: Seq<u8>, needle: Seq<u8>) -> bool {
    exists|i: int| 0 <= i && i + needle.len() <= hay.len() && #[trigger] hay.subrange(i, i + needle.len()) == needle
}

fn push_bytes(v: &mut Vec<u8>, s: &str)
    ensures
        final(v)@ == old(v)@ + s.spec_bytes(),
{
    v.extend_from_slice(s.as_bytes());
}

fn push_run(v: &mut Vec<u8>, c: u8, n: usize)
    ensures
        final(v)@ == old(v)@ + run(c, n as nat),
{
    let ghost start = v@;
    let mut i: usize = 0;
    while i < n
        invariant
            i <= n,
            v@ == start + run(c, i as nat),
        decreases n - i,
    {
        v.push(c);
        i = i + 1;
        assert(v@ =~= start + run(c, i as nat));
    }
}

fn push_side(v: &mut Vec<u8>, o: &Option<Vec<u8>>)
    ensures
        final(v)@ == old(v)@ + with_newline(side_bytes(*o)),
{
    let ghost start = v@;
    let mut t: Vec<u8> = Vec::new();
    match o {
        Some(c) => {
            let s = lossy_string(c.as_slice());
            push_bytes(&mut t, s.as_str());
        },
        None => {},
    }
    assert(t@ =~= side_bytes(*o));
    let n = t.len();
    let ends = n > 0 && t[n - 1] == 10u8;
    v.append(&mut t);
    if !ends {
        v.push(10u8);
    }
    assert(v@ =~= start + with_newline(side_bytes(*o)));
}

impl FileConflict {
    /// A conflict on `path` with no contents recorded.
    pub fn new(path: String) -> (r: FileConflict)
        ensures
            r.path == path,
            r.base_content.is_none(),
            r.our_content.is_none(),
            r.their_content.is_none(),
            !r.is_binary,
    {
        FileConflict { path, base_content: None, our_content: None, their_content: None, is_binary: false }
    }

    /// The file content to leave in the working tree: for text, both sides
    /// between `<<<<<<<`, `=======` and `>>>>>>>` lines, each side ending with
    /// a newline; for binary files, a note on how to pick a side.
    pub fn generate_conflict_markers(&self, our_branch: &str, their_branch: &str) -> (r: Vec<u8>)
        ensures
            !self.is_binary ==> r@ == markers_text(
                side_bytes(self.our_content),
                our_branch.spec_bytes(),
                side_bytes(self.their_content),
                their_branch.spec_bytes(),
            ),
            self.is_binary ==> r@ == "Binary file conflict in "@.map_values(|c: char| c as u8)
                + vstd::utf8::encode_utf8(self.path@) + binary_note_rest(vstd::utf8::encode_utf8(self.path@)),
    {
        let mut r: Vec<u8> = Vec::new();
        if self.is_binary {
            let p = self.path.as_str();
            push_bytes(&mut r, "Binary file conflict in ");
            push_bytes(&mut r, p);
            push_bytes(&mut r, "\nUse 'kitkat checkout --ours ");
            push_bytes(&mut r, p);
            push_bytes(&mut r, "' or 'kitkat checkout --theirs ");
            push_bytes(&mut r, p);
            push_bytes(&mut r, "'\n");
            proof {
                reveal_strlit("Binary file conflict in ");
                reveal_strlit("\nUse 'kitkat checkout --ours ");
                reveal_strlit("' or 'kitkat checkout --theirs ");
                reveal_strlit("'\n");
                lemma_ascii_bytes("Binary file conflict in ");
                lemma_ascii_bytes("\nUse 'kitkat checkout --ours ");
                lemma_ascii_bytes("' or 'kitkat checkout --theirs ");
                lemma_ascii_bytes("'\n");
            }
            assert(r@ =~= "Binary file conflict in "@.map_values(|c: char| c as u8)
                + vstd::utf8::encode_utf8(self.path@) + binary_note_rest(vstd::utf8::encode_utf8(self.path@)));
            return r;
        }
        push_run(&mut r, 60u8, 7);
        r.push(32u8);
        push_bytes(&mut r, our_branch);
        r.push(10u8);
        push_side(&mut r, &self.our_content);
        push_run(&mut r, 61u8, 7);
        r.push(10u8);
        push_side(&mut r, &self.their_content);
        push_run(&mut r, 62u8, 7);
        r.push(32u8);
        push_bytes(&mut r, their_branch);
        r.push(10u8);
        assert(r@ =~= markers_text(
            side_bytes(self.our_content),
            our_branch.spec_bytes(),
            side_bytes(self.their_content),
            their_branch.spec_bytes(),
        ));
        r
    }
}

/// The rest of the note left for a binary conflict on a path with bytes `p`.
pub open spec fn binary_note_rest(p: Seq<u8>) -> Seq<u8> {
    "\nUse 'kitkat checkout --ours "@.map_values(|c: char| c as u8) + p
        + "' or 'kitkat checkout --theirs "@.map_values(|c: char| c as u8) + p + "'\n"@.map_values(
        |c: char| c as u8,
    )
}

proof fn lemma_ascii_bytes(s: &str)
    requires
        vstd::string::is_ascii(s),
    ensures
        s.spec_bytes() == s@.map_values(|c: char| c as u8),
{
    vstd::string::is_ascii_spec_bytes(s);
    assert(s.spec_bytes() =~= s@.map_values(|c: char| c as u8));
}

/// Whether `hay` holds `needle` somewhere.
pub fn find_bytes(hay: &[u8], needle: &[u8]) -> (r: bool)
    ensures
        r == holds_seq(hay@, needle@),
{
    let n = needle.len();
    let h = hay.len();
    if n > h {
        return false;
    }
    let mut i: usize = 0;
    while i <= h - n
        invariant
            n == needle@.len(),
            h == hay@.len(),
            n <= h,
            i <= h - n + 1,
            forall|k: int| 0 <= k < i ==> #[trigger] hay@.subrange(k, k + n) != needle@,
        decreases h - i,
    {
        let mut j: usize = 0;
        let mut same = true;
        while j < n
            invariant
                n == needle@.len(),
                h == hay@.len(),
                i + n <= h,
                j <= n,
                same == forall|q: int| 0 <= q < j ==> hay@[i + q] == needle@[q],
            decreases n - j,
        {
            if hay[i + j] != needle[j] {
                same = false;
            }
            j = j + 1;
        }
        if same {
            assert(hay@.subrange(i as int, i + n) =~= needle@);
            return true;
        }
        proof {
            let q = choose|q: int| 0 <= q < n && hay@[i + q] != needle@[q];
            assert(hay@.subrange(i as int, i + n)[q] != needle@[q]);
        }
        i = i + 1;
    }
    proof {
        assert forall|k: int| 0 <= k && k + n <= h implies #[trigger] hay@.subrange(k, k + n) != needle@ by {
            assert(k < i);
        }
    }
    false
}

impl ConflictMarker {
    /// A marker opening at `start_line`.
    pub fn new(start_line: usize) -> (r: ConflictMarker)
        ensures
            r.start_line == start_line,
            r.end_line == 0,
            r.our_lines@.len() == 0,
            r.their_lines@.len() == 0,
    {
        ConflictMarker { start_line, end_line: 0, our_lines: Vec::new(), their_lines: Vec::new() }
    }

    /// Whether text still holds both an opening and a closing conflict marker.
    pub fn has_conflicts(content: &str) -> (r: bool)
        ensures
            r == (holds_seq(content.spec_bytes(), run(60u8, 7)) && holds_seq(content.spec_bytes(), run(62u8, 7))),
    {
        let b = content.as_bytes();
        let mut open: Vec<u8> = Vec::new();
        push_run(&mut open, 60u8, 7);
        let mut close: Vec<u8> = Vec::new();
        push_run(&mut close, 62u8, 7);
        find_bytes(b, open.as_slice()) && find_bytes(b, close.as_slice())
    }
}

} // verus!
