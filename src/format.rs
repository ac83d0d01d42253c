use vstd::prelude::*;
use crate::diff_types::{header_text, hunks_count, hunks_lines, prefix_of, DiffHunk, DiffLine, DiffLineType, FileDiff};
use crate::text::{decimal, push_decimal, push_str};

verus! {

/// How a unified diff is rendered.
#[derive(Debug, Clone)]
pub struct UnifiedDiffOptions {
    /// Context lines around changes.
    pub context_lines: usize,
    /// Whether to emit ANSI colour codes.
    pub use_color: bool,
    /// Whether to show line numbers.
    pub show_line_numbers: bool,
}

impl Default for UnifiedDiffOptions {
    fn default() -> (r: UnifiedDiffOptions)
        ensures
            r.context_lines == 3,
            r.use_color,
            !r.show_line_numbers,
    {
        UnifiedDiffOptions { context_lines: 3, use_color: true, show_line_numbers: false }
    }
}

pub open spec fn reset_code() -> Seq<char> {
    seq!['\x1b', '[', '0', 'm']
}

pub open spec fn red_code() -> Seq<char> {
    seq!['\x1b', '[', '3', '1', 'm']
}

pub open spec fn green_code() -> Seq<char> {
    seq!['\x1b', '[', '3', '2', 'm']
}

pub open spec fn cyan_code() -> Seq<char> {
    seq!['\x1b', '[', '3', '6', 'm']
}

pub open spec fn bold_code() -> Seq<char> {
    seq!['\x1b', '[', '1', 'm']
}

/// One rendered diff line, without its newline.
pub open spec fn line_text(l: DiffLine, color: bool) -> Seq<char> {
    let plain = seq![prefix_of(l.line_type)] + l.content@;
    if color && l.line_type == DiffLineType::Addition {
        green_code() + plain + reset_code()
    } else if color && l.line_type == DiffLineType::Deletion {
        red_code() + plain + reset_code()
    } else {
        plain
    }
}

/// The rendered lines of `ls`, each followed by a newline.
pub open spec fn lines_text(ls: Seq<DiffLine>, color: bool) -> Seq<char>
    decreases ls.len(),
{
    if ls.len() == 0 {
        seq![]
    } else {
        lines_text(ls.drop_last(), color) + line_text(ls.last(), color) + seq!['\n']
    }
}

/// A rendered hunk: its header line, then its lines.
pub open spec fn hunk_text(h: DiffHunk, color: bool) -> Seq<char> {
    (if color {
        cyan_code() + header_text(h) + reset_code()
    } else {
        header_text(h)
    }) + seq!['\n'] + lines_text(h.lines@, color)
}

/// The rendered hunks of `hs` in order.
pub open spec fn hunks_text(hs: Seq<DiffHunk>, color: bool) -> Seq<char>
    decreases hs.len(),
{
    if hs.len() == 0 {
        seq![]
    } else {
        hunks_text(hs.drop_last(), color) + hunk_text(hs.last(), color)
    }
}

/// The `--- old` and `+++ new` header lines.
pub open spec fn file_header_text(d: FileDiff, color: bool) -> Seq<char> {
    if color {
        bold_code() + red_code() + seq!['-', '-', '-', ' '] + d.old_path@ + reset_code() + seq!['\n']
            + bold_code() + green_code() + seq!['+', '+', '+', ' '] + d.new_path@ + reset_code()
            + seq!['\n']
    } else {
        seq!['-', '-', '-', ' '] + d.old_path@ + seq!['\n'] + seq!['+', '+', '+', ' ']
            + d.new_path@ + seq!['\n']
    }
}

/// The unified rendering of a file diff.
pub open spec fn unified_text(d: FileDiff, color: bool) -> Seq<char> {
    file_header_text(d, color) + if d.is_binary {
        "Binary files differ\n"@
    } else {
        hunks_text(d.hunks@, color)
    }
}

/// `"s"` unless `n` is one.
pub open spec fn plural(n: nat) -> Seq<char> {
    if n == 1 {
        seq![]
    } else {
        seq!['s']
    }
}

/// The statistics line, e.g. `3 insertions(+), 1 deletion(-)`.
pub open spec fn stats_text(a: nat, d: nat, color: bool) -> Seq<char> {
    if color {
        green_code() + decimal(a) + " insertion"@ + plural(a) + "(+)"@ + reset_code() + ", "@
            + red_code() + decimal(d) + " deletion"@ + plural(d) + "(-)"@ + reset_code()
    } else {
        decimal(a) + " insertion"@ + plural(a) + "(+), "@ + decimal(d) + " deletion"@ + plural(d)
            + "(-)"@
    }
}

/// `n` copies of `c`.
pub open spec fn repeat_char(c: char, n: nat) -> Seq<char> {
    Seq::new(n, |i: int| c)
}

/// The summary line, e.g. `README.md | 5 +++--`.
pub open spec fn summary_text(path: Seq<char>, a: nat, d: nat, color: bool) -> Seq<char> {
    path + " | "@ + decimal(a + d) + " "@ + if color {
        green_code() + repeat_char('+', a) + reset_code() + red_code() + repeat_char('-', d)
            + reset_code()
    } else {
        repeat_char('+', a) + repeat_char('-', d)
    }
}

fn push_reset(s: &mut String)
    ensures
        final(s)@ == old(s)@ + reset_code(),
{
    proof { reveal_strlit("\x1b[0m"); }
    push_str(s, "\x1b[0m");
}

fn push_red(s: &mut String)
    ensures
        final(s)@ == old(s)@ + red_code(),
{
    proof { reveal_strlit("\x1b[31m"); }
    push_str(s, "\x1b[31m");
}

fn push_green(s: &mut String)
    ensures
        final(s)@ == old(s)@ + green_code(),
{
    proof { reveal_strlit("\x1b[32m"); }
    push_str(s, "\x1b[32m");
}

fn push_cyan(s: &mut String)
    ensures
        final(s)@ == old(s)@ + cyan_code(),
{
    proof { reveal_strlit("\x1b[36m"); }
    push_str(s, "\x1b[36m");
}

fn push_bold(s: &mut String)
    ensures
        final(s)@ == old(s)@ + bold_code(),
{
    proof { reveal_strlit("\x1b[1m"); }
    push_str(s, "\x1b[1m");
}

fn push_prefix(s: &mut String, t: DiffLineType)
    ensures
        final(s)@ == old(s)@ + seq![prefix_of(t)],
{
    proof { reveal_strlit(" "); reveal_strlit("+"); reveal_strlit("-"); }
    match t {
        DiffLineType::Context => push_str(s, " "),
        DiffLineType::Addition => push_str(s, "+"),
        DiffLineType::Deletion => push_str(s, "-"),
    }
}

fn push_newline(s: &mut String)
    ensures
        final(s)@ == old(s)@ + seq!['\n'],
{
    proof { reveal_strlit("\n"); }
    push_str(s, "\n");
}

fn push_line(s: &mut String, l: &DiffLine, color: bool)
    ensures
        final(s)@ == old(s)@ + line_text(*l, color) + seq!['\n'],
{
    if color && l.line_type == DiffLineType::Addition {
        push_green(s);
        push_prefix(s, l.line_type);
        push_str(s, l.content.as_str());
        push_reset(s);
    } else if color && l.line_type == DiffLineType::Deletion {
        push_red(s);
        push_prefix(s, l.line_type);
        push_str(s, l.content.as_str());
        push_reset(s);
    } else {
        push_prefix(s, l.line_type);
        push_str(s, l.content.as_str());
    }
    push_newline(s);
    assert(final(s)@ =~= old(s)@ + line_text(*l, color) + seq!['\n']);
}

fn push_hunk(s: &mut String, h: &DiffHunk, color: bool)
    ensures
        final(s)@ == old(s)@ + hunk_text(*h, color),
{
    let header = h.header();
    if color {
        push_cyan(s);
        push_str(s, header.as_str());
        push_reset(s);
    } else {
        push_str(s, header.as_str());
    }
    push_newline(s);
    let ghost start = s@;
    let mut i: usize = 0;
    while i < h.lines.len()
        invariant
            i <= h.lines@.len(),
            s@ == start + lines_text(h.lines@.take(i as int), color),
        decreases h.lines@.len() - i,
    {
        push_line(s, &h.lines[i], color);
        proof {
            assert(h.lines@.take(i as int + 1).drop_last() =~= h.lines@.take(i as int));
        }
        i = i + 1;
        assert(s@ =~= start + lines_text(h.lines@.take(i as int), color));
    }
    assert(h.lines@.take(i as int) =~= h.lines@);
    assert(final(s)@ =~= old(s)@ + hunk_text(*h, color));
}

/// Renders a file diff in unified format, with or without colour.
pub fn format_unified_diff(diff: &FileDiff, options: &UnifiedDiffOptions) -> (r: String)
    ensures
        r@ == unified_text(*diff, options.use_color),
{
    let color = options.use_color;
    let mut out = String::new();
    proof { reveal_strlit("--- "); reveal_strlit("+++ "); reveal_strlit("Binary files differ\n"); }
    if color {
        push_bold(&mut out);
        push_red(&mut out);
        push_str(&mut out, "--- ");
        push_str(&mut out, diff.old_path.as_str());
        push_reset(&mut out);
        push_newline(&mut out);
        push_bold(&mut out);
        push_green(&mut out);
        push_str(&mut out, "+++ ");
        push_str(&mut out, diff.new_path.as_str());
        push_reset(&mut out);
        push_newline(&mut out);
    } else {
        push_str(&mut out, "--- ");
        push_str(&mut out, diff.old_path.as_str());
        push_newline(&mut out);
        push_str(&mut out, "+++ ");
        push_str(&mut out, diff.new_path.as_str());
        push_newline(&mut out);
    }
    assert(out@ =~= file_header_text(*diff, color));
    if diff.is_binary {
        push_str(&mut out, "Binary files differ\n");
        return out;
    }
    let mut i: usize = 0;
    while i < diff.hunks.len()
        invariant
            i <= diff.hunks@.len(),
            out@ == file_header_text(*diff, color) + hunks_text(diff.hunks@.take(i as int), color),
        decreases diff.hunks@.len() - i,
    {
        push_hunk(&mut out, &diff.hunks[i], color);
        proof {
            assert(diff.hunks@.take(i as int + 1).drop_last() =~= diff.hunks@.take(i as int));
        }
        i = i + 1;
        assert(out@ =~= file_header_text(*diff, color) + hunks_text(diff.hunks@.take(i as int), color));
    }
    assert(diff.hunks@.take(i as int) =~= diff.hunks@);
    out
}

fn push_plural(s: &mut String, n: usize)
    ensures
        final(s)@ == old(s)@ + plural(n as nat),
{
    if n != 1 {
        proof { reveal_strlit("s"); }
        push_str(s, "s");
    } else {
        assert(old(s)@ + plural(n as nat) =~= old(s)@);
    }
}

/// The statistics line of a diff, e.g. `2 insertions(+), 1 deletion(-)`.
pub fn format_diff_stats(diff: &FileDiff, use_color: bool) -> (r: String)
    requires
        hunks_lines(diff.hunks@) <= usize::MAX,
    ensures
        r@ == stats_text(
            hunks_count(diff.hunks@, DiffLineType::Addition),
            hunks_count(diff.hunks@, DiffLineType::Deletion),
            use_color,
        ),
{
    let additions = diff.additions();
    let deletions = diff.deletions();
    let mut s = String::new();
    proof {
        reveal_strlit(" insertion");
        reveal_strlit("(+)");
        reveal_strlit(", ");
        reveal_strlit("(+), ");
        reveal_strlit(" deletion");
        reveal_strlit("(-)");
    }
    if use_color {
        push_green(&mut s);
        push_decimal(&mut s, additions);
        push_str(&mut s, " insertion");
        push_plural(&mut s, additions);
        push_str(&mut s, "(+)");
        push_reset(&mut s);
        push_str(&mut s, ", ");
        push_red(&mut s);
        push_decimal(&mut s, deletions);
        push_str(&mut s, " deletion");
        push_plural(&mut s, deletions);
        push_str(&mut s, "(-)");
        push_reset(&mut s);
    } else {
        push_decimal(&mut s, additions);
        push_str(&mut s, " insertion");
        push_plural(&mut s, additions);
        push_str(&mut s, "(+), ");
        push_decimal(&mut s, deletions);
        push_str(&mut s, " deletion");
        push_plural(&mut s, deletions);
        push_str(&mut s, "(-)");
    }
    assert(s@ =~= stats_text(additions as nat, deletions as nat, use_color));
    s
}

fn push_repeat(s: &mut String, t: &str, n: usize)
    requires
        t@.len() == 1,
    ensures
        final(s)@ == old(s)@ + repeat_char(t@[0], n as nat),
{
    let ghost start = s@;
    let mut i: usize = 0;
    while i < n
        invariant
            i <= n,
            t@.len() == 1,
            s@ == start + repeat_char(t@[0], i as nat),
        decreases n - i,
    {
        push_str(s, t);
        i = i + 1;
        assert(s@ =~= start + repeat_char(t@[0], i as nat));
    }
}

proof fn lemma_two_counts(hs: Seq<DiffHunk>)
    ensures
        hunks_count(hs, DiffLineType::Addition) + hunks_count(hs, DiffLineType::Deletion)
            <= hunks_lines(hs),
    decreases hs.len(),
{
    if hs.len() > 0 {
        lemma_two_counts(hs.drop_last());
        lemma_pair(hs.last().lines@);
    }
}

proof fn lemma_pair(ls: Seq<DiffLine>)
    ensures
        crate::diff_types::count_lines(ls, DiffLineType::Addition)
            + crate::diff_types::count_lines(ls, DiffLineType::Deletion) <= ls.len(),
    decreases ls.len(),
{
    if ls.len() > 0 {
        lemma_pair(ls.drop_last());
    }
}

/// A one-line summary of a diff, e.g. `README.md | 5 +++--`.
pub fn format_diff_summary(diff: &FileDiff, use_color: bool) -> (r: String)
    requires
        hunks_lines(diff.hunks@) <= usize::MAX,
    ensures
        diff.is_binary ==> r@ == diff.new_path@ + " | Binary file"@,
        !diff.is_binary ==> r@ == summary_text(
            diff.new_path@,
            hunks_count(diff.hunks@, DiffLineType::Addition),
            hunks_count(diff.hunks@, DiffLineType::Deletion),
            use_color,
        ),
{
    let mut s = String::new();
    proof { reveal_strlit(" | Binary file"); reveal_strlit(" | "); reveal_strlit(" "); reveal_strlit("+"); reveal_strlit("-"); }
    if diff.is_binary {
        push_str(&mut s, diff.new_path.as_str());
        push_str(&mut s, " | Binary file");
        return s;
    }
    let additions = diff.additions();
    let deletions = diff.deletions();
    proof {
        lemma_two_counts(diff.hunks@);
    }
    let changes = additions + deletions;
    push_str(&mut s, diff.new_path.as_str());
    push_str(&mut s, " | ");
    push_decimal(&mut s, changes);
    push_str(&mut s, " ");
    if use_color {
        push_green(&mut s);
        push_repeat(&mut s, "+", additions);
        push_reset(&mut s);
        push_red(&mut s);
        push_repeat(&mut s, "-", deletions);
        push_reset(&mut s);
    } else {
        push_repeat(&mut s, "+", additions);
        push_repeat(&mut s, "-", deletions);
    }
    assert(s@ =~= summary_text(diff.new_path@, additions as nat, deletions as nat, use_color));
    s
}

} // verus!
