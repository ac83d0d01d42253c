use vstd::prelude::*;
use crate::diff_types::{count_lines, hunk_counts_match, hunks_count, hunks_lines, lemma_count_push, DiffHunk, DiffLine, DiffLineType};
use crate::edit_script::{
    aligns, count_edit, lemma_aligns_counts, lemma_aligns_keep, lemma_count_prefix, lemma_count_step, lines_view,
    Edit,
};

verus! {

/// Number of unchanged lines shown before and after each change block.
pub const CONTEXT_LINES: usize = 3;

/// Every line of `ls` is a context line.
pub open spec fn all_context(ls: Seq<DiffLine>) -> bool {
    forall|i: int| 0 <= i < ls.len() ==> (#[trigger] ls[i]).line_type == DiffLineType::Context
}

/// `l` carries the right line numbers and text: a context line the equal
/// lines of both sides at its two numbers, an added line the new line at its
/// new number, a deleted line the old line at its old number.
pub open spec fn line_ok(l: DiffLine, a: Seq<Seq<char>>, b: Seq<Seq<char>>) -> bool {
    match l.line_type {
        DiffLineType::Context => match (l.old_line_no, l.new_line_no) {
            (Some(o), Some(n)) => 1 <= o <= a.len() && 1 <= n <= b.len() && l.content@ == a[o - 1] && l.content@ == b[n - 1],
            _ => false,
        },
        DiffLineType::Addition => l.old_line_no.is_none() && match l.new_line_no {
            Some(n) => 1 <= n <= b.len() && l.content@ == b[n - 1],
            None => false,
        },
        DiffLineType::Deletion => l.new_line_no.is_none() && match l.old_line_no {
            Some(o) => 1 <= o <= a.len() && l.content@ == a[o - 1],
            None => false,
        },
    }
}

/// Every line of `ls` is right for the sides `a` and `b`.
pub open spec fn lines_ok(ls: Seq<DiffLine>, a: Seq<Seq<char>>, b: Seq<Seq<char>>) -> bool {
    forall|i: int| 0 <= i < ls.len() ==> line_ok(#[trigger] ls[i], a, b)
}

/// Every line of every hunk of `hs` is right for the sides `a` and `b`.
pub open spec fn hunks_lines_ok(hs: Seq<DiffHunk>, a: Seq<Seq<char>>, b: Seq<Seq<char>>) -> bool {
    forall|i: int| 0 <= i < hs.len() ==> lines_ok(#[trigger] hs[i].lines@, a, b)
}

/// A hunk's start numbers are those of its first line, on each side the
/// first line has a number.
pub open spec fn hunk_starts_ok(h: DiffHunk) -> bool {
    h.lines@.len() > 0 ==> {
        &&& (h.lines@[0].old_line_no matches Some(o) ==> o == h.old_start)
        &&& (h.lines@[0].new_line_no matches Some(n) ==> n == h.new_start)
    }
}

/// Every hunk of `hs` has start numbers that match its first line.
pub open spec fn all_starts_ok(hs: Seq<DiffHunk>) -> bool {
    forall|i: int| 0 <= i < hs.len() ==> hunk_starts_ok(#[trigger] hs[i])
}

/// The buffered context lines are consecutive and end just before `oi` and `ni`.
pub open spec fn buf_consecutive(buf: Seq<DiffLine>, oi: int, ni: int) -> bool {
    forall|t: int| 0 <= t < buf.len() ==> (#[trigger] buf[t]).old_line_no.is_some() && buf[t].new_line_no.is_some()
        && buf[t].old_line_no.unwrap() as int == oi - buf.len() + 1 + t
        && buf[t].new_line_no.unwrap() as int == ni - buf.len() + 1 + t
}

proof fn lemma_consecutive_suffix(buf: Seq<DiffLine>, oi: int, ni: int, m: int)
    requires
        buf_consecutive(buf, oi, ni),
        0 <= m <= buf.len(),
    ensures
        buf_consecutive(buf.skip(m), oi, ni),
{
    assert forall|t: int| 0 <= t < buf.skip(m).len() implies (#[trigger] buf.skip(m)[t]).old_line_no.is_some() && buf.skip(m)[t].new_line_no.is_some()
        && buf.skip(m)[t].old_line_no.unwrap() as int == oi - buf.skip(m).len() + 1 + t
        && buf.skip(m)[t].new_line_no.unwrap() as int == ni - buf.skip(m).len() + 1 + t by {
        assert(buf.skip(m)[t] == buf[t + m]);
    }
}

/// A hunk as values: old start and count, new start and count, lines.
pub type HunkView = (usize, usize, usize, usize, Seq<DiffLine>);

pub open spec fn hunk_view(h: DiffHunk) -> HunkView {
    (h.old_start, h.old_count, h.new_start, h.new_count, h.lines@)
}

pub open spec fn hunks_view(hs: Seq<DiffHunk>) -> Seq<HunkView> {
    hs.map_values(|h: DiffHunk| hunk_view(h))
}

/// `h` with `l` appended, counted on the sides where it is present.
pub open spec fn with_line(h: HunkView, l: DiffLine) -> HunkView {
    (
        h.0,
        if l.line_type == DiffLineType::Addition { h.1 } else { (h.1 + 1) as usize },
        h.2,
        if l.line_type == DiffLineType::Deletion { h.3 } else { (h.3 + 1) as usize },
        h.4.push(l),
    )
}

/// `h` with the lines `ls` appended in order.
pub open spec fn with_lines(h: HunkView, ls: Seq<DiffLine>) -> HunkView
    decreases ls.len(),
{
    if ls.len() == 0 {
        h
    } else {
        with_line(with_lines(h, ls.drop_last()), ls.last())
    }
}

/// The last `n` lines of `s`, or all of them.
pub open spec fn last_n(s: Seq<DiffLine>, n: nat) -> Seq<DiffLine> {
    if s.len() > n {
        s.skip(s.len() - n)
    } else {
        s
    }
}

/// The state of grouping: closed hunks, whether a hunk is open, the open
/// hunk, buffered context lines, and the next old and new line indices.
pub type GroupState = (Seq<HunkView>, bool, HunkView, Seq<DiffLine>, int, int);

pub open spec fn empty_hunk(o: usize, n: usize) -> HunkView {
    (o, 0usize, n, 0usize, seq![])
}

/// One step of grouping on edit `e`: a keep buffers a context line, closing
/// the open hunk once more than six follow its last change (three of them
/// end it, the last three stay buffered); outside a hunk at most three are
/// kept. A change opens a hunk where none is open, starting at the buffered
/// context, and appends the buffered context and the changed line.
pub open spec fn group_step(st: GroupState, e: Edit, ol: Seq<String>, nl: Seq<String>) -> GroupState {
    let (hs, open, h, buf, oi, ni) = st;
    match e {
        Edit::Keep => {
            let line = DiffLine {
                line_type: DiffLineType::Context,
                old_line_no: Some((oi + 1) as usize),
                new_line_no: Some((ni + 1) as usize),
                content: ol[oi],
            };
            let b2 = buf.push(line);
            if open {
                if b2.len() > 2 * CONTEXT_LINES {
                    (hs.push(with_lines(h, b2.take(CONTEXT_LINES as int))), false, empty_hunk(0, 0),
                        last_n(b2.skip(CONTEXT_LINES as int), CONTEXT_LINES as nat), oi + 1, ni + 1)
                } else {
                    (hs, true, h, b2, oi + 1, ni + 1)
                }
            } else {
                (hs, false, h, if b2.len() > CONTEXT_LINES { b2.skip(1) } else { b2 }, oi + 1, ni + 1)
            }
        },
        _ => {
            let h0 = if open {
                h
            } else {
                empty_hunk(
                    ((if oi >= buf.len() { oi - buf.len() } else { 0 }) + 1) as usize,
                    ((if ni >= buf.len() { ni - buf.len() } else { 0 }) + 1) as usize,
                )
            };
            let h1 = with_lines(h0, buf);
            if e == Edit::Delete {
                let line = DiffLine {
                    line_type: DiffLineType::Deletion,
                    old_line_no: Some((oi + 1) as usize),
                    new_line_no: None,
                    content: ol[oi],
                };
                (hs, true, with_line(h1, line), seq![], oi + 1, ni)
            } else {
                let line = DiffLine {
                    line_type: DiffLineType::Addition,
                    old_line_no: None,
                    new_line_no: Some((ni + 1) as usize),
                    content: nl[ni],
                };
                (hs, true, with_line(h1, line), seq![], oi, ni + 1)
            }
        },
    }
}

/// The grouping state after the edits `es`.
pub open spec fn group_run(es: Seq<Edit>, ol: Seq<String>, nl: Seq<String>) -> GroupState
    decreases es.len(),
{
    if es.len() == 0 {
        (seq![], false, empty_hunk(0, 0), seq![], 0, 0)
    } else {
        group_step(group_run(es.drop_last(), ol, nl), es.last(), ol, nl)
    }
}

/// The hunks of the edit script `es` between `ol` and `nl`: the closed hunks,
/// then the open one with the context buffered after it.
pub open spec fn hunks_of(es: Seq<Edit>, ol: Seq<String>, nl: Seq<String>) -> Seq<HunkView> {
    let st = group_run(es, ol, nl);
    if st.1 {
        st.0.push(with_lines(st.2, st.3))
    } else {
        st.0
    }
}

/// Every hunk of `hs` has counts that agree with its lines.
pub open spec fn all_counts_match(hs: Seq<DiffHunk>) -> bool {
    forall|i: int| 0 <= i < hs.len() ==> hunk_counts_match(#[trigger] hs[i])
}

proof fn lemma_count_pair(ls: Seq<DiffLine>, t1: DiffLineType, t2: DiffLineType)
    requires
        t1 != t2,
    ensures
        count_lines(ls, t1) + count_lines(ls, t2) <= ls.len(),
    decreases ls.len(),
{
    if ls.len() > 0 {
        lemma_count_pair(ls.drop_last(), t1, t2);
    }
}

proof fn lemma_hunk_bounds(h: DiffHunk)
    requires
        hunk_counts_match(h),
    ensures
        h.old_count <= h.lines@.len(),
        h.new_count <= h.lines@.len(),
{
    lemma_count_pair(h.lines@, DiffLineType::Context, DiffLineType::Deletion);
    lemma_count_pair(h.lines@, DiffLineType::Context, DiffLineType::Addition);
}

/// Moves up to `n` lines from the front of the context buffer into the hunk.
fn move_front(hunk: &mut DiffHunk, buf: &mut Vec<DiffLine>, n: usize, a: Ghost<Seq<Seq<char>>>, b: Ghost<Seq<Seq<char>>>)
    requires
        lines_ok(old(buf)@, a@, b@),
        lines_ok(old(hunk).lines@, a@, b@),
        all_context(old(buf)@),
        hunk_counts_match(*old(hunk)),
        old(hunk).lines@.len() + old(buf)@.len() < usize::MAX,
    ensures
        lines_ok(final(buf)@, a@, b@),
        lines_ok(final(hunk).lines@, a@, b@),
        all_context(final(buf)@),
        hunk_counts_match(*final(hunk)),
        final(hunk).old_start == old(hunk).old_start,
        final(hunk).new_start == old(hunk).new_start,
        final(hunk).lines@.len() + final(buf)@.len() == old(hunk).lines@.len() + old(buf)@.len(),
        count_lines(final(hunk).lines@, DiffLineType::Addition) == count_lines(
            old(hunk).lines@,
            DiffLineType::Addition,
        ),
        count_lines(final(hunk).lines@, DiffLineType::Deletion) == count_lines(
            old(hunk).lines@,
            DiffLineType::Deletion,
        ),
        old(buf)@.len() <= n ==> final(buf)@.len() == 0,
        old(buf)@.len() > n ==> final(buf)@ == old(buf)@.skip(n as int),
        old(hunk).lines@.len() > 0 ==> final(hunk).lines@[0] == old(hunk).lines@[0],
        old(hunk).lines@.len() == 0 && old(buf)@.len() > 0 && n > 0 ==> final(hunk).lines@.len() > 0 && final(hunk).lines@[0] == old(buf)@[0],
        old(hunk).lines@.len() == 0 && (old(buf)@.len() == 0 || n == 0) ==> final(hunk).lines@.len() == 0,
        hunk_view(*final(hunk)) == with_lines(hunk_view(*old(hunk)), old(buf)@.take(
            if old(buf)@.len() <= n { old(buf)@.len() as int } else { n as int },
        )),
{
    let ghost buf0 = buf@;
    let mut moved: usize = 0;
    while moved < n && buf.len() > 0
        invariant
            lines_ok(buf@, a@, b@),
            lines_ok(hunk.lines@, a@, b@),
            all_context(buf@),
            hunk_counts_match(*hunk),
            hunk.old_start == old(hunk).old_start,
            hunk.new_start == old(hunk).new_start,
            hunk.lines@.len() + buf@.len() == old(hunk).lines@.len() + old(buf)@.len(),
            hunk.lines@.len() + buf@.len() < usize::MAX,
            count_lines(hunk.lines@, DiffLineType::Addition) == count_lines(
                old(hunk).lines@,
                DiffLineType::Addition,
            ),
            count_lines(hunk.lines@, DiffLineType::Deletion) == count_lines(
                old(hunk).lines@,
                DiffLineType::Deletion,
            ),
            moved <= n,
            old(hunk).lines@.len() > 0 ==> hunk.lines@[0] == old(hunk).lines@[0],
            old(hunk).lines@.len() == 0 && moved > 0 ==> hunk.lines@[0] == buf0[0],
            old(hunk).lines@.len() == 0 && moved == 0 ==> hunk.lines@.len() == 0,
            hunk.lines@.len() == old(hunk).lines@.len() + moved,
            buf0 == old(buf)@,
            moved <= buf0.len(),
            buf@ == buf0.skip(moved as int),
            hunk_view(*hunk) == with_lines(hunk_view(*old(hunk)), buf0.take(moved as int)),
        decreases n - moved,
    {
        proof {
            lemma_hunk_bounds(*hunk);
        }
        let ghost hv0 = hunk_view(*hunk);
        let line = buf.remove(0);
        assert(line_ok(line, a@, b@));
        assert(line == buf0[moved as int]);
        assert(buf0.take(moved as int + 1).drop_last() =~= buf0.take(moved as int));
        proof {
            lemma_count_push(hunk.lines@, line, DiffLineType::Addition);
            lemma_count_push(hunk.lines@, line, DiffLineType::Deletion);
            assert(buf@ =~= buf0.skip(moved as int + 1));
        }
        hunk.add_line(line);
        moved = moved + 1;
    }
}

/// Drops lines from the front of the context buffer until at most `n` remain.
fn keep_last(buf: &mut Vec<DiffLine>, n: usize, a: Ghost<Seq<Seq<char>>>, b: Ghost<Seq<Seq<char>>>)
    requires
        lines_ok(old(buf)@, a@, b@),
        all_context(old(buf)@),
    ensures
        lines_ok(final(buf)@, a@, b@),
        all_context(final(buf)@),
        final(buf)@.len() <= n,
        final(buf)@.len() <= old(buf)@.len(),
        final(buf)@ == old(buf)@.skip(old(buf)@.len() - final(buf)@.len()),
        final(buf)@ == last_n(old(buf)@, n as nat),
{
    while buf.len() > n
        invariant
            lines_ok(buf@, a@, b@),
            all_context(buf@),
            buf@.len() <= old(buf)@.len(),
            buf@ == old(buf)@.skip(old(buf)@.len() - buf@.len()),
            old(buf)@.len() > n ==> buf@.len() >= n,
            old(buf)@.len() <= n ==> buf@.len() == old(buf)@.len(),
        decreases buf@.len(),
    {
        buf.remove(0);
        assert(buf@ =~= old(buf)@.skip(old(buf)@.len() - buf@.len()));
    }
    assert(old(buf)@.skip(0) =~= old(buf)@);
}

/// Groups an edit script into hunks: each change block is surrounded by up to
/// three unchanged lines, and blocks separated by at most six unchanged lines
/// share a hunk.
#[verifier::rlimit(100)]
pub fn edits_to_hunks(edits: &[Edit], old_lines: &[String], new_lines: &[String]) -> (r: Vec<DiffHunk>)
    requires
        aligns(edits@, lines_view(old_lines@), lines_view(new_lines@)),
        old_lines@.len() + new_lines@.len() < usize::MAX,
    ensures
        hunks_count(r@, DiffLineType::Addition) == count_edit(edits@, Edit::Insert),
        hunks_count(r@, DiffLineType::Deletion) == count_edit(edits@, Edit::Delete),
        all_counts_match(r@),
        hunks_lines(r@) <= edits@.len(),
        hunks_lines_ok(r@, lines_view(old_lines@), lines_view(new_lines@)),
        all_starts_ok(r@),
        hunks_view(r@) == hunks_of(edits@, old_lines@, new_lines@),
        r@.len() == 0 <==> count_edit(edits@, Edit::Delete) + count_edit(edits@, Edit::Insert) == 0,
{
    let ghost e = edits@;
    let ghost a = lines_view(old_lines@);
    let ghost b = lines_view(new_lines@);
    proof {
        lemma_aligns_counts(e, lines_view(old_lines@), lines_view(new_lines@));
    }
    let mut hunks: Vec<DiffHunk> = Vec::new();
    let mut in_hunk = false;
    let mut hunk = DiffHunk::new(0, 0);
    let mut buf: Vec<DiffLine> = Vec::new();
    let mut old_idx: usize = 0;
    let mut new_idx: usize = 0;
    let mut k: usize = 0;
    assert(e.take(0) =~= Seq::<Edit>::empty());
    assert(hunk_view(hunk) == empty_hunk(0, 0)) by {
        assert(hunk.lines@ =~= Seq::<DiffLine>::empty());
    }
    assert(hunks_view(hunks@) =~= Seq::<HunkView>::empty());
    assert(buf@ =~= Seq::<DiffLine>::empty());
    while k < edits.len()
        invariant
            e == edits@,
            k <= e.len(),
            group_run(e.take(k as int), old_lines@, new_lines@) == (hunks_view(hunks@), in_hunk, hunk_view(hunk), buf@, old_idx as int, new_idx as int),
            (in_hunk || hunks@.len() > 0) <==> count_edit(e.take(k as int), Edit::Delete) + count_edit(e.take(k as int), Edit::Insert) > 0,
            e.len() < usize::MAX,
            e.len() == count_edit(e, Edit::Keep) + count_edit(e, Edit::Delete) + count_edit(e, Edit::Insert),
            count_edit(e, Edit::Keep) + count_edit(e, Edit::Delete) == old_lines@.len(),
            count_edit(e, Edit::Keep) + count_edit(e, Edit::Insert) == new_lines@.len(),
            old_idx == count_edit(e.take(k as int), Edit::Keep) + count_edit(e.take(k as int), Edit::Delete),
            new_idx == count_edit(e.take(k as int), Edit::Keep) + count_edit(e.take(k as int), Edit::Insert),
            a == lines_view(old_lines@),
            b == lines_view(new_lines@),
            aligns(e, a, b),
            lines_ok(buf@, a, b),
            lines_ok(hunk.lines@, a, b),
            hunks_lines_ok(hunks@, a, b),
            buf_consecutive(buf@, old_idx as int, new_idx as int),
            in_hunk ==> hunk_starts_ok(hunk) && hunk.lines@.len() > 0,
            all_starts_ok(hunks@),
            all_context(buf@),
            hunk_counts_match(hunk),
            all_counts_match(hunks@),
            hunks_lines(hunks@) + hunk.lines@.len() + buf@.len() <= k,
            !in_hunk ==> buf@.len() <= CONTEXT_LINES,
            !in_hunk ==> hunk.lines@.len() == 0,
            hunks_count(hunks@, DiffLineType::Addition) + count_lines(hunk.lines@, DiffLineType::Addition)
                == count_edit(e.take(k as int), Edit::Insert),
            hunks_count(hunks@, DiffLineType::Deletion) + count_lines(hunk.lines@, DiffLineType::Deletion)
                == count_edit(e.take(k as int), Edit::Delete),
        decreases e.len() - k,
    {
        proof {
            lemma_count_step(e, k as int, Edit::Keep);
            assert(e.take(k as int + 1).drop_last() =~= e.take(k as int));
            assert(e.take(k as int + 1).last() == e[k as int]);
            lemma_count_step(e, k as int, Edit::Delete);
            lemma_count_step(e, k as int, Edit::Insert);
            lemma_count_prefix(e, k as int + 1, Edit::Keep);
            lemma_count_prefix(e, k as int + 1, Edit::Delete);
            lemma_count_prefix(e, k as int + 1, Edit::Insert);
            lemma_hunk_bounds(hunk);
        }
        let edit = edits[k];
        match edit {
            Edit::Keep => {
                let content = old_lines[old_idx].clone();
                proof {
                    lemma_aligns_keep(e, a, b, k as int);
                }
                let line = DiffLine::context(old_idx + 1, new_idx + 1, content);
                assert(line_ok(line, a, b));
                let ghost st0 = group_run(e.take(k as int), old_lines@, new_lines@);
                let ghost bq = buf@;
                buf.push(line);
                proof {
                    assert forall|t: int| 0 <= t < buf@.len() implies (#[trigger] buf@[t]).old_line_no.is_some() && buf@[t].new_line_no.is_some()
                        && buf@[t].old_line_no.unwrap() as int == (old_idx + 1) - buf@.len() + 1 + t
                        && buf@[t].new_line_no.unwrap() as int == (new_idx + 1) - buf@.len() + 1 + t by {
                        if t < bq.len() {
                            assert(buf@[t] == bq[t]);
                        }
                    }
                    assert(buf_consecutive(buf@, old_idx + 1, new_idx + 1));
                }
                if in_hunk {
                    if buf.len() > CONTEXT_LINES * 2 {
                        let ghost b1 = buf@;
                        move_front(&mut hunk, &mut buf, CONTEXT_LINES, Ghost(a), Ghost(b));
                        proof {
                            lemma_consecutive_suffix(b1, old_idx + 1, new_idx + 1, CONTEXT_LINES as int);
                            assert(hunks@.push(hunk).drop_last() =~= hunks@);
                        }
                        let ghost hs0 = hunks@;
                        hunks.push(hunk);
                        assert(hunks_view(hunks@) =~= hunks_view(hs0).push(hunk_view(hunks@.last())));
                        proof {
                            assert forall|q: int| 0 <= q < hunks@.len() implies hunk_starts_ok(#[trigger] hunks@[q]) by {
                                if q < hs0.len() {
                                    assert(hunks@[q] == hs0[q]);
                                }
                            }
                        }
                        hunk = DiffHunk::new(0, 0);
                        assert(hunk.lines@ =~= Seq::<DiffLine>::empty());
                        in_hunk = false;
                        let ghost b2 = buf@;
                        keep_last(&mut buf, CONTEXT_LINES, Ghost(a), Ghost(b));
                        proof {
                            lemma_consecutive_suffix(b2, old_idx + 1, new_idx + 1, b2.len() - buf@.len());
                        }
                    }
                } else {
                    if buf.len() > CONTEXT_LINES {
                        let ghost b1 = buf@;
                        buf.remove(0);
                        proof {
                            assert(buf@ =~= b1.skip(1));
                            lemma_consecutive_suffix(b1, old_idx + 1, new_idx + 1, 1);
                        }
                    }
                }
                old_idx = old_idx + 1;
                new_idx = new_idx + 1;
            },
            Edit::Delete | Edit::Insert => {
                if !in_hunk {
                    let old_start = if old_idx >= buf.len() { old_idx - buf.len() } else { 0 } + 1;
                    let new_start = if new_idx >= buf.len() { new_idx - buf.len() } else { 0 } + 1;
                    hunk = DiffHunk::new(old_start, new_start);
                    in_hunk = true;
                }
                let n = buf.len();
                let ghost b1 = buf@;
                assert(b1.take(n as int) =~= b1);
                let ghost st0 = group_run(e.take(k as int), old_lines@, new_lines@);
                let ghost h0 = if st0.1 { st0.2 } else { empty_hunk(
                    ((if st0.4 >= st0.3.len() { st0.4 - st0.3.len() } else { 0 }) + 1) as usize,
                    ((if st0.5 >= st0.3.len() { st0.5 - st0.3.len() } else { 0 }) + 1) as usize) };
                assert(hunk.lines@.len() == 0 ==> hunk.lines@ =~= Seq::<DiffLine>::empty());
                assert(hunk_view(hunk) == h0);
                proof {
                    if n > 0 {
                        assert(line_ok(b1[0], a, b));
                    }
                }
                move_front(&mut hunk, &mut buf, n, Ghost(a), Ghost(b));
                proof {
                    lemma_hunk_bounds(hunk);
                }
                match edit {
                    Edit::Delete => {
                        let content = old_lines[old_idx].clone();
                        let line = DiffLine::deletion(old_idx + 1, content);
                        assert(line_ok(line, a, b));
                        proof {
                            lemma_count_push(hunk.lines@, line, DiffLineType::Addition);
                            lemma_count_push(hunk.lines@, line, DiffLineType::Deletion);
                        }
                        let ghost hv1 = hunk_view(hunk);
                        hunk.add_line(line);
                        assert(hunk_view(hunk) == with_line(hv1, line));
                        assert(line == (DiffLine {
                            line_type: DiffLineType::Deletion,
                            old_line_no: Some((old_idx + 1) as usize),
                            new_line_no: None,
                            content: old_lines@[old_idx as int],
                        }));
                        old_idx = old_idx + 1;
                    },
                    _ => {
                        let content = new_lines[new_idx].clone();
                        let line = DiffLine::addition(new_idx + 1, content);
                        assert(line_ok(line, a, b));
                        proof {
                            lemma_count_push(hunk.lines@, line, DiffLineType::Addition);
                            lemma_count_push(hunk.lines@, line, DiffLineType::Deletion);
                        }
                        let ghost hv1 = hunk_view(hunk);
                        hunk.add_line(line);
                        assert(hunk_view(hunk) == with_line(hv1, line));
                        assert(line == (DiffLine {
                            line_type: DiffLineType::Addition,
                            old_line_no: None,
                            new_line_no: Some((new_idx + 1) as usize),
                            content: new_lines@[new_idx as int],
                        }));
                        new_idx = new_idx + 1;
                    },
                }
            },
        }
        proof {
            let st1 = group_run(e.take(k as int + 1), old_lines@, new_lines@);
            assert(st1.4 == old_idx as int);
            assert(st1.5 == new_idx as int);
            assert(st1.1 == in_hunk);
            assert(st1.3 == buf@);
            assert(st1.2 == hunk_view(hunk));
            assert(st1.0 == hunks_view(hunks@));
        }
        k = k + 1;
    }
    assert(e.take(k as int) =~= e);
    let ghost stf = group_run(e, old_lines@, new_lines@);
    if in_hunk {
        let n = buf.len();
        assert(buf@.take(n as int) =~= buf@);
        move_front(&mut hunk, &mut buf, n, Ghost(a), Ghost(b));
        proof {
            assert(hunks@.push(hunk).drop_last() =~= hunks@);
        }
        let ghost hs0 = hunks@;
        hunks.push(hunk);
        assert(hunks_view(hunks@) =~= hunks_view(hs0).push(hunk_view(hunks@.last())));
        assert(hunks_view(hunks@) == stf.0.push(with_lines(stf.2, stf.3)));
    }
    hunks
}

} // verus!
