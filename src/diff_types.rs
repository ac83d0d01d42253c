use vstd::prelude::*;
use crate::text::{decimal, push_decimal, push_str};

verus! {

/// Kind of a line in a diff.
#[derive(Debug, Clone, Copy, PartialEq, Eq, Structural)]
pub enum DiffLineType {
    /// Present in both versions.
    Context,
    /// Present only in the new version.
    Addition,
    /// Present only in the old version.
    Deletion,
}

/// One line of a diff with its one-sided line numbers.
#[derive(Debug, Clone)]
pub struct DiffLine {
    pub line_type: DiffLineType,
    /// Line number in the old file (none for additions).
    pub old_line_no: Option<usize>,
    /// Line number in the new file (none for deletions).
    pub new_line_no: Option<usize>,
    /// The text of the line, without its line ending.
    pub content: String,
}

/// A contiguous block of changes with surrounding context.
#[derive(Debug, Clone)]
pub struct DiffHunk {
    /// First old line covered (1-based).
    pub old_start: usize,
    /// Number of old lines covered.
    pub old_count: usize,
    /// First new line covered (1-based).
    pub new_start: usize,
    /// Number of new lines covered.
    pub new_count: usize,
    pub lines: Vec<DiffLine>,
}

/// The diff of one file.
#[derive(Debug, Clone)]
pub struct FileDiff {
    pub old_path: String,
    pub new_path: String,
    pub is_binary: bool,
    pub hunks: Vec<DiffHunk>,
}

/// Number of lines of kind `t` in `ls`.
pub open spec fn count_lines(ls: Seq<DiffLine>, t: DiffLineType) -> nat
    decreases ls.len(),
{
    if ls.len() == 0 {
        0
    } else {
        count_lines(ls.drop_last(), t) + if ls.last().line_type == t {
            1nat
        } else {
            0nat
        }
    }
}

/// Number of lines of kind `t` over all hunks of `hs`.
pub open spec fn hunks_count(hs: Seq<DiffHunk>, t: DiffLineType) -> nat
    decreases hs.len(),
{
    if hs.len() == 0 {
        0
    } else {
        hunks_count(hs.drop_last(), t) + count_lines(hs.last().lines@, t)
    }
}

/// Total number of lines over all hunks of `hs`.
pub open spec fn hunks_lines(hs: Seq<DiffHunk>) -> nat
    decreases hs.len(),
{
    if hs.len() == 0 {
        0
    } else {
        hunks_lines(hs.drop_last()) + hs.last().lines@.len()
    }
}

/// A hunk's counts agree with its lines: old lines are context and deletions,
/// new lines are context and additions.
pub open spec fn hunk_counts_match(h: DiffHunk) -> bool {
    &&& h.old_count == count_lines(h.lines@, DiffLineType::Context) + count_lines(
        h.lines@,
        DiffLineType::Deletion,
    )
    &&& h.new_count == count_lines(h.lines@, DiffLineType::Context) + count_lines(
        h.lines@,
        DiffLineType::Addition,
    )
}

/// The prefix character of a line kind.
pub open spec fn prefix_of(t: DiffLineType) -> char {
    match t {
        DiffLineType::Context => ' ',
        DiffLineType::Addition => '+',
        DiffLineType::Deletion => '-',
    }
}

/// The header text `@@ -a,b +c,d @@` of a hunk.
pub open spec fn header_text(h: DiffHunk) -> Seq<char> {
    seq!['@', '@', ' ', '-'] + decimal(h.old_start as nat) + seq![','] + decimal(
        h.old_count as nat,
    ) + seq![' ', '+'] + decimal(h.new_start as nat) + seq![','] + decimal(h.new_count as nat)
        + seq![' ', '@', '@']
}

pub proof fn lemma_count_le_len(ls: Seq<DiffLine>, t: DiffLineType)
    ensures
        count_lines(ls, t) <= ls.len(),
    decreases ls.len(),
{
    if ls.len() > 0 {
        lemma_count_le_len(ls.drop_last(), t);
    }
}

pub proof fn lemma_count_push(ls: Seq<DiffLine>, l: DiffLine, t: DiffLineType)
    ensures
        count_lines(ls.push(l), t) == count_lines(ls, t) + if l.line_type == t {
            1nat
        } else {
            0nat
        },
{
    assert(ls.push(l).drop_last() =~= ls);
}

pub proof fn lemma_hunks_count_le(hs: Seq<DiffHunk>, t: DiffLineType)
    ensures
        hunks_count(hs, t) <= hunks_lines(hs),
    decreases hs.len(),
{
    if hs.len() > 0 {
        lemma_hunks_count_le(hs.drop_last(), t);
        lemma_count_le_len(hs.last().lines@, t);
    }
}

impl DiffLine {
    /// A context line present at `old_no` in the old file and `new_no` in the new one.
    pub fn context(old_no: usize, new_no: usize, content: String) -> (r: DiffLine)
        ensures
            r.line_type == DiffLineType::Context,
            r.old_line_no == Some(old_no),
            r.new_line_no == Some(new_no),
            r.content == content,
    {
        DiffLine { line_type: DiffLineType::Context, old_line_no: Some(old_no), new_line_no: Some(new_no), content }
    }

    /// An added line at `new_no` in the new file.
    pub fn addition(new_no: usize, content: String) -> (r: DiffLine)
        ensures
            r.line_type == DiffLineType::Addition,
            r.old_line_no.is_none(),
            r.new_line_no == Some(new_no),
            r.content == content,
    {
        DiffLine { line_type: DiffLineType::Addition, old_line_no: None, new_line_no: Some(new_no), content }
    }

    /// A deleted line at `old_no` in the old file.
    pub fn deletion(old_no: usize, content: String) -> (r: DiffLine)
        ensures
            r.line_type == DiffLineType::Deletion,
            r.old_line_no == Some(old_no),
            r.new_line_no.is_none(),
            r.content == content,
    {
        DiffLine { line_type: DiffLineType::Deletion, old_line_no: Some(old_no), new_line_no: None, content }
    }

    /// The prefix character of this line: space, `+` or `-`.
    pub fn prefix(&self) -> (r: char)
        ensures
            r == prefix_of(self.line_type),
    {
        match self.line_type {
            DiffLineType::Context => ' ',
            DiffLineType::Addition => '+',
            DiffLineType::Deletion => '-',
        }
    }
}

impl DiffHunk {
    /// An empty hunk starting at the given lines.
    pub fn new(old_start: usize, new_start: usize) -> (r: DiffHunk)
        ensures
            r.old_start == old_start,
            r.new_start == new_start,
            r.old_count == 0,
            r.new_count == 0,
            r.lines@.len() == 0,
            hunk_counts_match(r),
    {
        DiffHunk { old_start, old_count: 0, new_start, new_count: 0, lines: Vec::new() }
    }

    /// Appends `line`, counting it on the sides where it is present.
    pub fn add_line(&mut self, line: DiffLine)
        requires
            old(self).old_count < usize::MAX,
            old(self).new_count < usize::MAX,
        ensures
            final(self).lines@ == old(self).lines@.push(line),
            final(self).old_start == old(self).old_start,
            final(self).new_start == old(self).new_start,
            final(self).old_count == old(self).old_count + if line.line_type
                == DiffLineType::Addition {
                0int
            } else {
                1int
            },
            final(self).new_count == old(self).new_count + if line.line_type
                == DiffLineType::Deletion {
                0int
            } else {
                1int
            },
            hunk_counts_match(*old(self)) ==> hunk_counts_match(*final(self)),
    {
        proof {
            lemma_count_push(self.lines@, line, DiffLineType::Context);
            lemma_count_push(self.lines@, line, DiffLineType::Addition);
            lemma_count_push(self.lines@, line, DiffLineType::Deletion);
        }
        match line.line_type {
            DiffLineType::Context => {
                self.old_count = self.old_count + 1;
                self.new_count = self.new_count + 1;
            },
            DiffLineType::Addition => {
                self.new_count = self.new_count + 1;
            },
            DiffLineType::Deletion => {
                self.old_count = self.old_count + 1;
            },
        }
        self.lines.push(line);
    }

    /// The header line, e.g. `@@ -1,3 +1,4 @@`.
    pub fn header(&self) -> (r: String)
        ensures
            r@ == header_text(*self),
    {
        let mut s = String::new();
        proof { reveal_strlit("@@ -"); reveal_strlit(","); reveal_strlit(" +"); reveal_strlit(" @@"); }
        push_str(&mut s, "@@ -");
        push_decimal(&mut s, self.old_start);
        push_str(&mut s, ",");
        push_decimal(&mut s, self.old_count);
        push_str(&mut s, " +");
        push_decimal(&mut s, self.new_start);
        push_str(&mut s, ",");
        push_decimal(&mut s, self.new_count);
        push_str(&mut s, " @@");
        assert(s@ =~= header_text(*self));
        s
    }
}

impl FileDiff {
    /// A diff of two paths with no changes recorded yet.
    pub fn new(old_path: String, new_path: String) -> (r: FileDiff)
        ensures
            r.old_path == old_path,
            r.new_path == new_path,
            !r.is_binary,
            r.hunks@.len() == 0,
    {
        FileDiff { old_path, new_path, is_binary: false, hunks: Vec::new() }
    }

    /// A binary diff always counts as a change; a text diff when it has a hunk.
    pub fn has_changes(&self) -> (r: bool)
        ensures
            r == (self.is_binary || self.hunks@.len() > 0),
    {
        if self.is_binary {
            return true;
        }
        self.hunks.len() > 0
    }

    fn count_kind(&self, t: DiffLineType) -> (r: usize)
        requires
            hunks_lines(self.hunks@) <= usize::MAX,
        ensures
            r == hunks_count(self.hunks@, t),
    {
        let mut total: usize = 0;
        let mut i: usize = 0;
        while i < self.hunks.len()
            invariant
                i <= self.hunks@.len(),
                hunks_lines(self.hunks@) <= usize::MAX,
                total == hunks_count(self.hunks@.take(i as int), t),
            decreases self.hunks@.len() - i,
        {
            let h = &self.hunks[i];
            let mut j: usize = 0;
            let mut c: usize = 0;
            while j < h.lines.len()
                invariant
                    j <= h.lines@.len(),
                    c == count_lines(h.lines@.take(j as int), t),
                decreases h.lines@.len() - j,
            {
                proof {
                    lemma_count_le_len(h.lines@.take(j as int), t);
                    assert(h.lines@.take(j as int + 1).drop_last() =~= h.lines@.take(j as int));
                }
                if h.lines[j].line_type == t {
                    c = c + 1;
                }
                j = j + 1;
            }
            proof {
                assert(h.lines@.take(j as int) =~= h.lines@);
                assert(self.hunks@.take(i as int + 1).drop_last() =~= self.hunks@.take(i as int));
                lemma_hunks_lines_prefix(self.hunks@, i as int + 1);
                lemma_hunks_count_le(self.hunks@.take(i as int + 1), t);
            }
            total = total + c;
            i = i + 1;
        }
        assert(self.hunks@.take(i as int) =~= self.hunks@);
        total
    }

    /// Number of added lines over all hunks.
    pub fn additions(&self) -> (r: usize)
        requires
            hunks_lines(self.hunks@) <= usize::MAX,
        ensures
            r == hunks_count(self.hunks@, DiffLineType::Addition),
    {
        self.count_kind(DiffLineType::Addition)
    }

    /// Number of deleted lines over all hunks.
    pub fn deletions(&self) -> (r: usize)
        requires
            hunks_lines(self.hunks@) <= usize::MAX,
        ensures
            r == hunks_count(self.hunks@, DiffLineType::Deletion),
    {
        self.count_kind(DiffLineType::Deletion)
    }
}

proof fn lemma_hunks_lines_prefix(hs: Seq<DiffHunk>, k: int)
    requires
        0 <= k <= hs.len(),
    ensures
        hunks_lines(hs.take(k)) <= hunks_lines(hs),
    decreases hs.len(),
{
    if k < hs.len() {
        assert(hs.drop_last().take(k) =~= hs.take(k));
        lemma_hunks_lines_prefix(hs.drop_last(), k);
    } else {
        assert(hs.take(k) =~= hs);
    }
}

} // verus!
