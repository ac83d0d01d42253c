use vstd::prelude::*;

verus! {

/// One step of an edit script aligning an old line sequence with a new one.
#[derive(Debug, Clone, Copy, PartialEq, Eq, Structural)]
pub enum Edit {
    Keep,
    Delete,
    Insert,
}

/// The character sequences of a list of lines.
pub open spec fn lines_view(v: Seq<String>) -> Seq<Seq<char>> {
    v.map_values(|s: String| s@)
}

/// Edit distance between the first `i` lines of `a` and the first `j` lines of `b`,
/// where only deletions and insertions cost (one each).
pub open spec fn dist(a: Seq<Seq<char>>, b: Seq<Seq<char>>, i: nat, j: nat) -> nat
    decreases i + j,
{
    if i == 0 {
        j
    } else if j == 0 {
        i
    } else if a[i - 1] == b[j - 1] {
        dist(a, b, (i - 1) as nat, (j - 1) as nat)
    } else {
        let d = dist(a, b, (i - 1) as nat, j) + 1;
        let n = dist(a, b, i, (j - 1) as nat) + 1;
        if d <= n {
            d
        } else {
            n
        }
    }
}

/// The step chosen at cell `(i, j)` of the distance table: equal lines are kept,
/// otherwise the cheaper of delete and insert, a tie going to delete.
pub open spec fn choice(a: Seq<Seq<char>>, b: Seq<Seq<char>>, i: nat, j: nat) -> Edit {
    if i == 0 {
        if j == 0 {
            Edit::Keep
        } else {
            Edit::Insert
        }
    } else if j == 0 {
        Edit::Delete
    } else if a[i - 1] == b[j - 1] {
        Edit::Keep
    } else if dist(a, b, (i - 1) as nat, j) + 1 <= dist(a, b, i, (j - 1) as nat) + 1 {
        Edit::Delete
    } else {
        Edit::Insert
    }
}

/// The script obtained by walking the table back from `(i, j)` to `(0, 0)`.
pub open spec fn script(a: Seq<Seq<char>>, b: Seq<Seq<char>>, i: nat, j: nat) -> Seq<Edit>
    decreases i + j,
{
    if i == 0 && j == 0 {
        seq![]
    } else if i == 0 {
        script(a, b, 0, (j - 1) as nat).push(Edit::Insert)
    } else if j == 0 {
        script(a, b, (i - 1) as nat, 0).push(Edit::Delete)
    } else if choice(a, b, i, j) == Edit::Keep {
        script(a, b, (i - 1) as nat, (j - 1) as nat).push(Edit::Keep)
    } else if choice(a, b, i, j) == Edit::Delete {
        script(a, b, (i - 1) as nat, j).push(Edit::Delete)
    } else {
        script(a, b, i, (j - 1) as nat).push(Edit::Insert)
    }
}

/// The edit script between two whole line sequences.
pub open spec fn edit_script(a: Seq<Seq<char>>, b: Seq<Seq<char>>) -> Seq<Edit> {
    script(a, b, a.len(), b.len())
}

/// `e` aligns `a` with `b`: read from the end, a keep consumes one equal line of
/// each, a delete one line of `a`, an insert one line of `b`.
pub open spec fn aligns(e: Seq<Edit>, a: Seq<Seq<char>>, b: Seq<Seq<char>>) -> bool
    decreases e.len(),
{
    if e.len() == 0 {
        a.len() == 0 && b.len() == 0
    } else {
        match e.last() {
            Edit::Keep => a.len() > 0 && b.len() > 0 && a.last() == b.last() && aligns(
                e.drop_last(),
                a.drop_last(),
                b.drop_last(),
            ),
            Edit::Delete => a.len() > 0 && aligns(e.drop_last(), a.drop_last(), b),
            Edit::Insert => b.len() > 0 && aligns(e.drop_last(), a, b.drop_last()),
        }
    }
}

/// The lines produced by applying `e` to `a`: kept lines come from `a`,
/// deleted lines of `a` are dropped, inserted lines are taken from `b`.
pub open spec fn apply_edits(e: Seq<Edit>, a: Seq<Seq<char>>, b: Seq<Seq<char>>) -> Seq<Seq<char>>
    decreases e.len(),
{
    if e.len() == 0 {
        seq![]
    } else {
        match e.last() {
            Edit::Keep => apply_edits(e.drop_last(), a.drop_last(), b.drop_last()).push(a.last()),
            Edit::Delete => apply_edits(e.drop_last(), a.drop_last(), b),
            Edit::Insert => apply_edits(e.drop_last(), a, b.drop_last()).push(b.last()),
        }
    }
}

/// Number of steps of `e` that are not keeps.
pub open spec fn changes(e: Seq<Edit>) -> nat
    decreases e.len(),
{
    if e.len() == 0 {
        0
    } else {
        changes(e.drop_last()) + if e.last() == Edit::Keep {
            0nat
        } else {
            1nat
        }
    }
}

/// Number of steps of kind `k` in `e`.
pub open spec fn count_edit(e: Seq<Edit>, k: Edit) -> nat
    decreases e.len(),
{
    if e.len() == 0 {
        0
    } else {
        count_edit(e.drop_last(), k) + if e.last() == k {
            1nat
        } else {
            0nat
        }
    }
}

/// `s` read back to front.
pub open spec fn reversed<T>(s: Seq<T>) -> Seq<T> {
    Seq::new(s.len(), |k: int| s[s.len() - 1 - k])
}

/// The counts of an aligning script: keeps and deletes consume `a`,
/// keeps and inserts consume `b`.
pub proof fn lemma_aligns_counts(e: Seq<Edit>, a: Seq<Seq<char>>, b: Seq<Seq<char>>)
    requires
        aligns(e, a, b),
    ensures
        count_edit(e, Edit::Keep) + count_edit(e, Edit::Delete) == a.len(),
        count_edit(e, Edit::Keep) + count_edit(e, Edit::Insert) == b.len(),
        e.len() == count_edit(e, Edit::Keep) + count_edit(e, Edit::Delete) + count_edit(e, Edit::Insert),
    decreases e.len(),
{
    if e.len() > 0 {
        match e.last() {
            Edit::Keep => lemma_aligns_counts(e.drop_last(), a.drop_last(), b.drop_last()),
            Edit::Delete => lemma_aligns_counts(e.drop_last(), a.drop_last(), b),
            Edit::Insert => lemma_aligns_counts(e.drop_last(), a, b.drop_last()),
        }
    }
}

/// At a keep in an aligning script, the lines it consumes from each side are equal.
pub proof fn lemma_aligns_keep(e: Seq<Edit>, a: Seq<Seq<char>>, b: Seq<Seq<char>>, k: int)
    requires
        aligns(e, a, b),
        0 <= k < e.len(),
        e[k] == Edit::Keep,
    ensures
        count_edit(e.take(k), Edit::Keep) + count_edit(e.take(k), Edit::Delete) < a.len(),
        count_edit(e.take(k), Edit::Keep) + count_edit(e.take(k), Edit::Insert) < b.len(),
        a[(count_edit(e.take(k), Edit::Keep) + count_edit(e.take(k), Edit::Delete)) as int]
            == b[(count_edit(e.take(k), Edit::Keep) + count_edit(e.take(k), Edit::Insert)) as int],
    decreases e.len(),
{
    let d = e.drop_last();
    if k == e.len() - 1 {
        assert(e.take(k) =~= d);
        lemma_aligns_counts(d, a.drop_last(), b.drop_last());
    } else {
        assert(d.take(k) =~= e.take(k));
        assert(d[k] == e[k]);
        match e.last() {
            Edit::Keep => {
                lemma_aligns_keep(d, a.drop_last(), b.drop_last(), k);
            },
            Edit::Delete => {
                lemma_aligns_keep(d, a.drop_last(), b, k);
            },
            Edit::Insert => {
                lemma_aligns_keep(d, a, b.drop_last(), k);
            },
        }
    }
}

/// An aligning script without deletions or insertions aligns equal sequences,
/// and the script between a sequence and itself has neither.
pub proof fn lemma_no_changes_iff_equal(a: Seq<Seq<char>>, b: Seq<Seq<char>>)
    ensures
        count_edit(edit_script(a, b), Edit::Delete) + count_edit(edit_script(a, b), Edit::Insert) == 0 <==> a == b,
{
    lemma_diff_reconstructs(a, b);
    if count_edit(edit_script(a, b), Edit::Delete) + count_edit(edit_script(a, b), Edit::Insert) == 0 {
        lemma_keeps_only_equal(edit_script(a, b), a, b);
    }
    if a == b {
        lemma_diff_reconstructs(a, a);
        lemma_all_keeps_count(edit_script(a, a));
    }
}

proof fn lemma_keeps_only_equal(e: Seq<Edit>, a: Seq<Seq<char>>, b: Seq<Seq<char>>)
    requires
        aligns(e, a, b),
        count_edit(e, Edit::Delete) + count_edit(e, Edit::Insert) == 0,
    ensures
        a == b,
    decreases e.len(),
{
    if e.len() == 0 {
        assert(a =~= b);
    } else {
        lemma_keeps_only_equal(e.drop_last(), a.drop_last(), b.drop_last());
        assert(a =~= a.drop_last().push(a.last()));
        assert(b =~= b.drop_last().push(b.last()));
    }
}

proof fn lemma_all_keeps_count(e: Seq<Edit>)
    requires
        forall|k: int| 0 <= k < e.len() ==> #[trigger] e[k] == Edit::Keep,
    ensures
        count_edit(e, Edit::Delete) == 0,
        count_edit(e, Edit::Insert) == 0,
    decreases e.len(),
{
    if e.len() > 0 {
        assert forall|k: int| 0 <= k < e.drop_last().len() implies #[trigger] e.drop_last()[k] == Edit::Keep by {
            assert(e.drop_last()[k] == e[k]);
        }
        lemma_all_keeps_count(e.drop_last());
        assert(e.last() == e[e.len() - 1]);
    }
}

/// Counting over one more step of a script.
pub proof fn lemma_count_step(e: Seq<Edit>, k: int, x: Edit)
    requires
        0 <= k < e.len(),
    ensures
        count_edit(e.take(k + 1), x) == count_edit(e.take(k), x) + if e[k] == x {
            1nat
        } else {
            0nat
        },
{
    assert(e.take(k + 1).drop_last() =~= e.take(k));
}

/// A prefix of a script counts no more steps than the script.
pub proof fn lemma_count_prefix(e: Seq<Edit>, k: int, x: Edit)
    requires
        0 <= k <= e.len(),
    ensures
        count_edit(e.take(k), x) <= count_edit(e, x),
    decreases e.len(),
{
    if k < e.len() {
        assert(e.drop_last().take(k) =~= e.take(k));
        lemma_count_prefix(e.drop_last(), k, x);
    } else {
        assert(e.take(k) =~= e);
    }
}

proof fn lemma_dist_bound(a: Seq<Seq<char>>, b: Seq<Seq<char>>, i: nat, j: nat)
    ensures
        dist(a, b, i, j) <= i + j,
    decreases i + j,
{
    if i > 0 && j > 0 {
        lemma_dist_bound(a, b, (i - 1) as nat, (j - 1) as nat);
        lemma_dist_bound(a, b, (i - 1) as nat, j);
        lemma_dist_bound(a, b, i, (j - 1) as nat);
    }
}

proof fn lemma_dist_lower(a: Seq<Seq<char>>, b: Seq<Seq<char>>, i: nat, j: nat)
    ensures
        dist(a, b, i, j) >= i - j,
        dist(a, b, i, j) >= j - i,
    decreases i + j,
{
    if i > 0 && j > 0 {
        lemma_dist_lower(a, b, (i - 1) as nat, (j - 1) as nat);
        lemma_dist_lower(a, b, (i - 1) as nat, j);
        lemma_dist_lower(a, b, i, (j - 1) as nat);
    }
}

/// Dropping one line from either side changes the distance by at most one.
proof fn lemma_dist_step(a: Seq<Seq<char>>, b: Seq<Seq<char>>, i: nat, j: nat)
    ensures
        i > 0 ==> dist(a, b, i, j) <= dist(a, b, (i - 1) as nat, j) + 1,
        j > 0 ==> dist(a, b, i, j) <= dist(a, b, i, (j - 1) as nat) + 1,
        i > 0 ==> dist(a, b, (i - 1) as nat, j) <= dist(a, b, i, j) + 1,
        j > 0 ==> dist(a, b, i, (j - 1) as nat) <= dist(a, b, i, j) + 1,
    decreases i + j, 1nat,
{
    lemma_dist_lower(a, b, i, j);
    if i > 0 {
        lemma_dist_lower(a, b, (i - 1) as nat, j);
    }
    if j > 0 {
        lemma_dist_lower(a, b, i, (j - 1) as nat);
    }
    if i > 0 && j > 0 {
        lemma_dist_lower(a, b, (i - 1) as nat, (j - 1) as nat);
        lemma_dist_step(a, b, (i - 1) as nat, j);
        lemma_dist_step(a, b, i, (j - 1) as nat);
        lemma_dist_step(a, b, (i - 1) as nat, (j - 1) as nat);
    }
}

proof fn lemma_script_minimal(e: Seq<Edit>, a: Seq<Seq<char>>, b: Seq<Seq<char>>, i: nat, j: nat)
    requires
        i <= a.len(),
        j <= b.len(),
        aligns(e, a.take(i as int), b.take(j as int)),
    ensures
        changes(e) >= dist(a, b, i, j),
    decreases e.len(),
{
    let ta = a.take(i as int);
    let tb = b.take(j as int);
    if e.len() == 0 {
    } else {
        match e.last() {
            Edit::Keep => {
                assert(ta.drop_last() =~= a.take(i - 1));
                assert(tb.drop_last() =~= b.take(j - 1));
                lemma_script_minimal(e.drop_last(), a, b, (i - 1) as nat, (j - 1) as nat);
                assert(a[i - 1] == ta.last() && b[j - 1] == tb.last());
            },
            Edit::Delete => {
                assert(ta.drop_last() =~= a.take(i - 1));
                lemma_script_minimal(e.drop_last(), a, b, (i - 1) as nat, j);
                lemma_dist_step(a, b, i, j);
            },
            Edit::Insert => {
                assert(tb.drop_last() =~= b.take(j - 1));
                lemma_script_minimal(e.drop_last(), a, b, i, (j - 1) as nat);
                lemma_dist_step(a, b, i, j);
            },
        }
    }
}

proof fn lemma_script_aligns(a: Seq<Seq<char>>, b: Seq<Seq<char>>, i: nat, j: nat)
    requires
        i <= a.len(),
        j <= b.len(),
    ensures
        aligns(script(a, b, i, j), a.take(i as int), b.take(j as int)),
        changes(script(a, b, i, j)) == dist(a, b, i, j),
    decreases i + j,
{
    let s = script(a, b, i, j);
    let ta = a.take(i as int);
    let tb = b.take(j as int);
    if i == 0 && j == 0 {
    } else if i == 0 {
        let p = script(a, b, 0, (j - 1) as nat);
        lemma_script_aligns(a, b, 0, (j - 1) as nat);
        assert(s.drop_last() =~= p);
        assert(tb.drop_last() =~= b.take(j - 1));
    } else if j == 0 {
        let p = script(a, b, (i - 1) as nat, 0);
        lemma_script_aligns(a, b, (i - 1) as nat, 0);
        assert(s.drop_last() =~= p);
        assert(ta.drop_last() =~= a.take(i - 1));
    } else if choice(a, b, i, j) == Edit::Keep {
        let p = script(a, b, (i - 1) as nat, (j - 1) as nat);
        lemma_script_aligns(a, b, (i - 1) as nat, (j - 1) as nat);
        assert(s.drop_last() =~= p);
        assert(ta.drop_last() =~= a.take(i - 1));
        assert(tb.drop_last() =~= b.take(j - 1));
    } else if choice(a, b, i, j) == Edit::Delete {
        let p = script(a, b, (i - 1) as nat, j);
        lemma_script_aligns(a, b, (i - 1) as nat, j);
        assert(s.drop_last() =~= p);
        assert(ta.drop_last() =~= a.take(i - 1));
    } else {
        let p = script(a, b, i, (j - 1) as nat);
        lemma_script_aligns(a, b, i, (j - 1) as nat);
        assert(s.drop_last() =~= p);
        assert(tb.drop_last() =~= b.take(j - 1));
    }
}

proof fn lemma_aligns_applies(e: Seq<Edit>, a: Seq<Seq<char>>, b: Seq<Seq<char>>)
    requires
        aligns(e, a, b),
    ensures
        apply_edits(e, a, b) == b,
    decreases e.len(),
{
    if e.len() > 0 {
        match e.last() {
            Edit::Keep => {
                lemma_aligns_applies(e.drop_last(), a.drop_last(), b.drop_last());
                assert(b.drop_last().push(b.last()) =~= b);
            },
            Edit::Delete => {
                lemma_aligns_applies(e.drop_last(), a.drop_last(), b);
            },
            Edit::Insert => {
                lemma_aligns_applies(e.drop_last(), a, b.drop_last());
                assert(b.drop_last().push(b.last()) =~= b);
            },
        }
    }
}

proof fn lemma_script_same(a: Seq<Seq<char>>, i: nat)
    requires
        i <= a.len(),
    ensures
        forall|k: int| 0 <= k < script(a, a, i, i).len() ==> script(a, a, i, i)[k] == Edit::Keep,
        script(a, a, i, i).len() == i,
    decreases i,
{
    if i > 0 {
        lemma_script_same(a, (i - 1) as nat);
    }
}

/// Applying the edit script between `a` and `b` to `a`, taking inserted lines
/// from `b`, rebuilds `b` exactly; the script between a sequence and itself
/// keeps every line and changes nothing.
pub proof fn lemma_diff_reconstructs(a: Seq<Seq<char>>, b: Seq<Seq<char>>)
    ensures
        aligns(edit_script(a, b), a, b),
        apply_edits(edit_script(a, b), a, b) == b,
        forall|k: int|
            0 <= k < edit_script(a, a).len() ==> #[trigger] edit_script(a, a)[k] == Edit::Keep,
        edit_script(a, a).len() == a.len(),
{
    lemma_script_aligns(a, b, a.len(), b.len());
    assert(a.take(a.len() as int) =~= a);
    assert(b.take(b.len() as int) =~= b);
    lemma_aligns_applies(edit_script(a, b), a, b);
    lemma_script_same(a, a.len());
}

/// The edit script between two whole line sequences aligns them with the
/// fewest deletions and insertions: no other aligning script has fewer.
pub proof fn lemma_edit_script_minimal(a: Seq<Seq<char>>, b: Seq<Seq<char>>, other: Seq<Edit>)
    requires
        aligns(other, a, b),
    ensures
        aligns(edit_script(a, b), a, b),
        changes(edit_script(a, b)) == dist(a, b, a.len(), b.len()),
        changes(edit_script(a, b)) <= changes(other),
{
    lemma_script_aligns(a, b, a.len(), b.len());
    assert(a.take(a.len() as int) =~= a);
    assert(b.take(b.len() as int) =~= b);
    lemma_script_minimal(other, a, b, a.len(), b.len());
}

/// Computes the edit script turning `old_lines` into `new_lines` through a
/// dynamic-programming table of edit distances, then walks it back from the end.
pub fn compute_edit_script(old_lines: &[String], new_lines: &[String]) -> (r: Vec<Edit>)
    requires
        old_lines@.len() + new_lines@.len() < usize::MAX,
    ensures
        r@ == edit_script(lines_view(old_lines@), lines_view(new_lines@)),
{
    let ghost a = lines_view(old_lines@);
    let ghost b = lines_view(new_lines@);
    let n = old_lines.len();
    let m = new_lines.len();
    let mut dp: Vec<Vec<usize>> = Vec::new();
    let mut ops: Vec<Vec<Edit>> = Vec::new();
    let mut i: usize = 0;
    while i <= n
        invariant
            n == old_lines@.len(),
            m == new_lines@.len(),
            n + m < usize::MAX,
            a == lines_view(old_lines@),
            b == lines_view(new_lines@),
            dp@.len() == i,
            ops@.len() == i,
            i <= n + 1,
            forall|r: int| 0 <= r < i ==> #[trigger] dp@[r]@.len() == m + 1,
            forall|r: int| 0 <= r < i ==> #[trigger] ops@[r]@.len() == m + 1,
            forall|r: int, c: int|
                0 <= r < i && 0 <= c <= m ==> #[trigger] dp@[r]@[c] == dist(a, b, r as nat, c as nat),
            forall|r: int, c: int|
                0 <= r < i && 0 <= c <= m ==> #[trigger] ops@[r]@[c] == choice(a, b, r as nat, c as nat),
        decreases n + 1 - i,
    {
        let mut row: Vec<usize> = Vec::new();
        let mut orow: Vec<Edit> = Vec::new();
        let mut j: usize = 0;
        while j <= m
            invariant
                n == old_lines@.len(),
                m == new_lines@.len(),
                n + m < usize::MAX,
                a == lines_view(old_lines@),
                b == lines_view(new_lines@),
                i <= n,
                dp@.len() == i,
                forall|r: int| 0 <= r < i ==> #[trigger] dp@[r]@.len() == m + 1,
                forall|r: int, c: int|
                    0 <= r < i && 0 <= c <= m ==> #[trigger] dp@[r]@[c] == dist(a, b, r as nat, c as nat),
                row@.len() == j,
                orow@.len() == j,
                j <= m + 1,
                forall|c: int| 0 <= c < j ==> #[trigger] row@[c] == dist(a, b, i as nat, c as nat),
                forall|c: int| 0 <= c < j ==> #[trigger] orow@[c] == choice(a, b, i as nat, c as nat),
            decreases m + 1 - j,
        {
            proof {
                lemma_dist_bound(a, b, i as nat, j as nat);
            }
            if i == 0 {
                row.push(j);
                if j == 0 {
                    orow.push(Edit::Keep);
                } else {
                    orow.push(Edit::Insert);
                }
            } else if j == 0 {
                row.push(i);
                orow.push(Edit::Delete);
            } else if old_lines[i - 1] == new_lines[j - 1] {
                let v = dp[i - 1][j - 1];
                row.push(v);
                orow.push(Edit::Keep);
            } else {
                proof {
                    lemma_dist_bound(a, b, (i - 1) as nat, j as nat);
                    lemma_dist_bound(a, b, i as nat, (j - 1) as nat);
                }
                let delete_cost = dp[i - 1][j] + 1;
                let insert_cost = row[j - 1] + 1;
                if delete_cost <= insert_cost {
                    row.push(delete_cost);
                    orow.push(Edit::Delete);
                } else {
                    row.push(insert_cost);
                    orow.push(Edit::Insert);
                }
            }
            j = j + 1;
        }
        dp.push(row);
        ops.push(orow);
        i = i + 1;
    }
    let mut rev: Vec<Edit> = Vec::new();
    let mut i: usize = n;
    let mut j: usize = m;
    while i > 0 || j > 0
        invariant
            n == old_lines@.len(),
            m == new_lines@.len(),
            a == lines_view(old_lines@),
            b == lines_view(new_lines@),
            i <= n,
            j <= m,
            ops@.len() == n + 1,
            forall|r: int| 0 <= r <= n ==> #[trigger] ops@[r]@.len() == m + 1,
            forall|r: int, c: int|
                0 <= r <= n && 0 <= c <= m ==> #[trigger] ops@[r]@[c] == choice(a, b, r as nat, c as nat),
            edit_script(a, b) == script(a, b, i as nat, j as nat) + reversed(rev@),
        decreases i + j,
    {
        let e = ops[i][j];
        let ghost prev = rev@;
        match e {
            Edit::Keep => {
                rev.push(Edit::Keep);
                i = i - 1;
                j = j - 1;
            },
            Edit::Delete => {
                rev.push(Edit::Delete);
                i = i - 1;
            },
            Edit::Insert => {
                rev.push(Edit::Insert);
                j = j - 1;
            },
        }
        assert(reversed(rev@) =~= seq![e] + reversed(prev));
        assert(script(a, b, i as nat, j as nat) + reversed(rev@) =~= script(a, b, i as nat, j as nat).push(e) + reversed(prev));
    }
    assert(edit_script(a, b) =~= reversed(rev@));
    let mut out: Vec<Edit> = Vec::new();
    let len = rev.len();
    let mut k: usize = 0;
    while k < len
        invariant
            len == rev@.len(),
            k <= len,
            out@ =~= reversed(rev@).take(k as int),
        decreases len - k,
    {
        out.push(rev[len - 1 - k]);
        k = k + 1;
    }
    assert(out@ =~= reversed(rev@));
    out
}

} // verus!
