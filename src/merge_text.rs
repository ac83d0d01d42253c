use vstd::prelude::*;
use crate::text::{lines_of, push_str, split_lines};

verus! {

/// Line `i` of `ls`, if there is one.
pub open spec fn line_at(ls: Seq<Seq<char>>, i: int) -> Option<Seq<char>> {
    if 0 <= i < ls.len() {
        Some(ls[i])
    } else {
        None
    }
}

/// Outcome of reconciling one line position: `None` is a clash, `Some(None)`
/// drops the position, `Some(Some(l))` keeps `l`. A side that left the base
/// line unchanged yields to the other side, a deletion included; a line
/// changed on one side and deleted or changed differently on the other clashes.
pub open spec fn reconcile_line(
    b: Option<Seq<char>>,
    o: Option<Seq<char>>,
    t: Option<Seq<char>>,
) -> Option<Option<Seq<char>>> {
    match (b, o, t) {
        (Some(b), Some(o), Some(t)) => if o == t {
            Some(Some(o))
        } else if o == b {
            Some(Some(t))
        } else if t == b {
            Some(Some(o))
        } else {
            None
        },
        (None, Some(o), Some(t)) => if o == t {
            Some(Some(o))
        } else {
            None
        },
        (Some(b), Some(o), None) => if o == b {
            Some(None)
        } else {
            None
        },
        (Some(b), None, Some(t)) => if t == b {
            Some(None)
        } else {
            None
        },
        (None, Some(o), None) => Some(Some(o)),
        (None, None, Some(t)) => Some(Some(t)),
        (_, None, None) => Some(None),
    }
}

/// The reconciled lines of the first `n` positions, or `None` on a clash.
pub open spec fn merge_upto(
    bl: Seq<Seq<char>>,
    ol: Seq<Seq<char>>,
    tl: Seq<Seq<char>>,
    n: nat,
) -> Option<Seq<Seq<char>>>
    decreases n,
{
    if n == 0 {
        Some(seq![])
    } else {
        match merge_upto(bl, ol, tl, (n - 1) as nat) {
            None => None,
            Some(acc) => match reconcile_line(
                line_at(bl, n - 1),
                line_at(ol, n - 1),
                line_at(tl, n - 1),
            ) {
                None => None,
                Some(None) => Some(acc),
                Some(Some(l)) => Some(acc.push(l)),
            },
        }
    }
}

pub open spec fn max3(a: nat, b: nat, c: nat) -> nat {
    let m = if a >= b {
        a
    } else {
        b
    };
    if m >= c {
        m
    } else {
        c
    }
}

/// Lines joined with `\n`, with a final `\n` (a lone `\n` for no lines).
pub open spec fn joined(ls: Seq<Seq<char>>) -> Seq<char>
    decreases ls.len(),
{
    if ls.len() == 0 {
        seq!['\n']
    } else if ls.len() == 1 {
        ls[0] + seq!['\n']
    } else {
        joined(ls.drop_last()) + ls.last() + seq!['\n']
    }
}

/// The line-by-line three-way merge of three texts, or `None` where one
/// position was changed differently on both sides.
pub open spec fn merge_text_spec(base: Seq<char>, ours: Seq<char>, theirs: Seq<char>) -> Option<
    Seq<char>,
> {
    let bl = lines_of(base);
    let ol = lines_of(ours);
    let tl = lines_of(theirs);
    match merge_upto(bl, ol, tl, max3(bl.len(), ol.len(), tl.len())) {
        None => None,
        Some(ls) => Some(joined(ls)),
    }
}

proof fn lemma_clash_stays(
    bl: Seq<Seq<char>>,
    ol: Seq<Seq<char>>,
    tl: Seq<Seq<char>>,
    k: nat,
    n: nat,
)
    requires
        k <= n,
        merge_upto(bl, ol, tl, k) is None,
    ensures
        merge_upto(bl, ol, tl, n) is None,
    decreases n - k,
{
    if k < n {
        lemma_clash_stays(bl, ol, tl, k + 1, n);
    }
}

fn get_line(ls: &Vec<String>, i: usize) -> (r: Option<&String>)
    ensures
        r.is_some() == (i < ls@.len()),
        r.is_some() ==> r.unwrap()@ == ls@[i as int]@,
{
    if i < ls.len() {
        Some(&ls[i])
    } else {
        None
    }
}

/// Joins lines with `\n` and ends the text with `\n`.
fn join_lines(ls: &Vec<String>) -> (r: String)
    ensures
        r@ == joined(ls@.map_values(|l: String| l@)),
{
    let ghost v = ls@.map_values(|l: String| l@);
    let mut s = String::new();
    proof { reveal_strlit("\n"); }
    if ls.len() == 0 {
        push_str(&mut s, "\n");
        return s;
    }
    let mut i: usize = 0;
    while i < ls.len()
        invariant
            i <= ls@.len(),
            ls@.len() > 0,
            v == ls@.map_values(|l: String| l@),
            i == 0 ==> s@.len() == 0,
            i > 0 ==> s@ == joined(v.take(i as int)),
        decreases ls@.len() - i,
    {
        push_str(&mut s, ls[i].as_str());
        proof { reveal_strlit("\n"); }
        push_str(&mut s, "\n");
        proof {
            assert(v.take(i as int + 1).drop_last() =~= v.take(i as int));
            assert(v.take(i as int + 1).last() == ls@[i as int]@);
        }
        i = i + 1;
        assert(s@ =~= joined(v.take(i as int)));
    }
    assert(v.take(i as int) =~= v);
    s
}

/// Merges three texts line by line; `None` when some line was changed
/// differently on both sides.
pub fn merge_text_contents(base: &str, ours: &str, theirs: &str) -> (r: Option<String>)
    ensures
        r.is_some() == merge_text_spec(base@, ours@, theirs@).is_some(),
        r.is_some() ==> r.unwrap()@ == merge_text_spec(base@, ours@, theirs@).unwrap(),
{
    let bl = split_lines(base);
    let ol = split_lines(ours);
    let tl = split_lines(theirs);
    let ghost bv = lines_of(base@);
    let ghost ov = lines_of(ours@);
    let ghost tv = lines_of(theirs@);
    let max_len = if bl.len() >= ol.len() { bl.len() } else { ol.len() };
    let max_len = if max_len >= tl.len() { max_len } else { tl.len() };
    let mut merged: Vec<String> = Vec::new();
    let mut i: usize = 0;
    while i < max_len
        invariant
            bv == lines_of(base@),
            ov == lines_of(ours@),
            tv == lines_of(theirs@),
            bl@.map_values(|l: String| l@) == bv,
            ol@.map_values(|l: String| l@) == ov,
            tl@.map_values(|l: String| l@) == tv,
            max_len == max3(bv.len(), ov.len(), tv.len()),
            i <= max_len,
            merge_upto(bv, ov, tv, i as nat) == Some(merged@.map_values(|l: String| l@)),
        decreases max_len - i,
    {
        let b = get_line(&bl, i);
        let o = get_line(&ol, i);
        let t = get_line(&tl, i);
        proof {
            assert(line_at(bv, i as int) == if b.is_some() { Some(b.unwrap()@) } else { None::<Seq<char>> });
            assert(line_at(ov, i as int) == if o.is_some() { Some(o.unwrap()@) } else { None::<Seq<char>> });
            assert(line_at(tv, i as int) == if t.is_some() { Some(t.unwrap()@) } else { None::<Seq<char>> });
        }
        let ghost before = merged@;
        let step: Option<Option<&String>> = match (b, o, t) {
            (Some(b), Some(o), Some(t)) => {
                if *o == *t {
                    Some(Some(o))
                } else if *o == *b {
                    Some(Some(t))
                } else if *t == *b {
                    Some(Some(o))
                } else {
                    None
                }
            },
            (None, Some(o), Some(t)) => {
                if *o == *t {
                    Some(Some(o))
                } else {
                    None
                }
            },
            (Some(b), Some(o), None) => {
                if *o == *b {
                    Some(None)
                } else {
                    None
                }
            },
            (Some(b), None, Some(t)) => {
                if *t == *b {
                    Some(None)
                } else {
                    None
                }
            },
            (None, Some(o), None) => Some(Some(o)),
            (None, None, Some(t)) => Some(Some(t)),
            (_, None, None) => Some(None),
        };
        match step {
            None => {
                proof {
                    assert(reconcile_line(line_at(bv, i as int), line_at(ov, i as int), line_at(tv, i as int)) is None);
                    assert(merge_upto(bv, ov, tv, (i + 1) as nat) is None);
                    lemma_clash_stays(bv, ov, tv, (i + 1) as nat, max_len as nat);
                }
                return None;
            },
            Some(None) => {},
            Some(Some(l)) => {
                merged.push(l.clone());
                assert(merged@.map_values(|l: String| l@) =~= before.map_values(|l: String| l@).push(l@));
            },
        }
        i = i + 1;
    }
    Some(join_lines(&merged))
}

} // verus!
