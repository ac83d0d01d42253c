use vstd::prelude::*;
use crate::diff_types::{hunks_count, hunks_lines, DiffLineType, FileDiff};
use crate::edit_script::{compute_edit_script, count_edit, edit_script, lemma_diff_reconstructs, Edit};
use crate::hunks::{all_counts_match, edits_to_hunks, hunks_lines_ok, hunks_of, hunks_view};
use crate::edit_script::{lemma_no_changes_iff_equal, lines_view};
use crate::text::{lemma_lines_len, lines_of, split_lines};

verus! {

/// Line diff algorithms on offer.
#[derive(Debug, Clone, Copy, PartialEq, Eq, Structural)]
pub enum DiffAlgorithm {
    /// Minimal edit script from a table of edit distances.
    Myers,
}

/// Lines that the edit script between the lines of `old` and of `new` inserts.
pub open spec fn inserted_lines(old: Seq<char>, new: Seq<char>) -> nat {
    count_edit(edit_script(lines_of(old), lines_of(new)), Edit::Insert)
}

/// Lines that the edit script between the lines of `old` and of `new` deletes.
pub open spec fn deleted_lines(old: Seq<char>, new: Seq<char>) -> nat {
    count_edit(edit_script(lines_of(old), lines_of(new)), Edit::Delete)
}

/// The text diff of `old_text` and `new_text` with the given algorithm.
pub fn compute_diff(old_text: &str, new_text: &str, algorithm: DiffAlgorithm) -> (r: FileDiff)
    requires
        old_text@.len() + new_text@.len() < usize::MAX,
    ensures
        r.old_path@.len() == 0,
        r.new_path@.len() == 0,
        !r.is_binary,
        hunks_count(r.hunks@, DiffLineType::Addition) == inserted_lines(old_text@, new_text@),
        hunks_count(r.hunks@, DiffLineType::Deletion) == deleted_lines(old_text@, new_text@),
        all_counts_match(r.hunks@),
        hunks_lines(r.hunks@) <= old_text@.len() + new_text@.len(),
        hunks_lines_ok(r.hunks@, lines_of(old_text@), lines_of(new_text@)),
        r.hunks@.len() == 0 <==> lines_of(old_text@) == lines_of(new_text@),
        exists|ol: Seq<String>, nl: Seq<String>|
            lines_view(ol) == lines_of(old_text@) && lines_view(nl) == lines_of(new_text@)
            && #[trigger] hunks_of(edit_script(lines_of(old_text@), lines_of(new_text@)), ol, nl) == hunks_view(r.hunks@),
{
    match algorithm {
        DiffAlgorithm::Myers => myers_diff(old_text, new_text),
    }
}

fn myers_diff(old_text: &str, new_text: &str) -> (r: FileDiff)
    requires
        old_text@.len() + new_text@.len() < usize::MAX,
    ensures
        r.old_path@.len() == 0,
        r.new_path@.len() == 0,
        !r.is_binary,
        hunks_count(r.hunks@, DiffLineType::Addition) == inserted_lines(old_text@, new_text@),
        hunks_count(r.hunks@, DiffLineType::Deletion) == deleted_lines(old_text@, new_text@),
        all_counts_match(r.hunks@),
        hunks_lines(r.hunks@) <= old_text@.len() + new_text@.len(),
        hunks_lines_ok(r.hunks@, lines_of(old_text@), lines_of(new_text@)),
        r.hunks@.len() == 0 <==> lines_of(old_text@) == lines_of(new_text@),
        exists|ol: Seq<String>, nl: Seq<String>|
            lines_view(ol) == lines_of(old_text@) && lines_view(nl) == lines_of(new_text@)
            && #[trigger] hunks_of(edit_script(lines_of(old_text@), lines_of(new_text@)), ol, nl) == hunks_view(r.hunks@),
{
    let old_lines = split_lines(old_text);
    let new_lines = split_lines(new_text);
    proof {
        lemma_lines_len(old_text@);
        lemma_lines_len(new_text@);
        assert(old_lines@.map_values(|l: String| l@) =~= crate::edit_script::lines_view(old_lines@));
        assert(new_lines@.map_values(|l: String| l@) =~= crate::edit_script::lines_view(new_lines@));
    }
    let edits = compute_edit_script(old_lines.as_slice(), new_lines.as_slice());
    proof {
        lemma_diff_reconstructs(lines_of(old_text@), lines_of(new_text@));
        crate::edit_script::lemma_aligns_counts(edits@, lines_of(old_text@), lines_of(new_text@));
    }
    let hunks = edits_to_hunks(edits.as_slice(), old_lines.as_slice(), new_lines.as_slice());
    proof {
        lemma_no_changes_iff_equal(lines_of(old_text@), lines_of(new_text@));
    }
    FileDiff { old_path: String::new(), new_path: String::new(), is_binary: false, hunks }
}

/// The line diff of two texts.
pub fn diff_texts(old_content: &str, new_content: &str) -> (r: FileDiff)
    requires
        old_content@.len() + new_content@.len() < usize::MAX,
    ensures
        r.old_path@.len() == 0,
        r.new_path@.len() == 0,
        !r.is_binary,
        hunks_count(r.hunks@, DiffLineType::Addition) == inserted_lines(old_content@, new_content@),
        hunks_count(r.hunks@, DiffLineType::Deletion) == deleted_lines(old_content@, new_content@),
        all_counts_match(r.hunks@),
        hunks_lines(r.hunks@) <= old_content@.len() + new_content@.len(),
        hunks_lines_ok(r.hunks@, lines_of(old_content@), lines_of(new_content@)),
        r.hunks@.len() == 0 <==> lines_of(old_content@) == lines_of(new_content@),
        exists|ol: Seq<String>, nl: Seq<String>|
            lines_view(ol) == lines_of(old_content@) && lines_view(nl) == lines_of(new_content@)
            && #[trigger] hunks_of(edit_script(lines_of(old_content@), lines_of(new_content@)), ol, nl) == hunks_view(r.hunks@),
{
    compute_diff(old_content, new_content, DiffAlgorithm::Myers)
}

} // verus!
