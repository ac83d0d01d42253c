use vstd::prelude::*;
use vstd::string::StringSliceAdditionalSpecFns;
use crate::bytes::{byte_lines, bytes_view, find_last, last_index_of, split_byte_lines, sub_bytes};
use crate::codec::{lossy_string, utf8_lossy};
use crate::error::ErrorKind;
use crate::object::{decimal_bytes, frame_kind, frame_payload, has_prefix, kind_of, payload_of, push_decimal_bytes, ObjectKind};

verus! {

/// A parsed commit object.
#[derive(Debug, Clone)]
pub struct Commit {
    pub tree: String,
    pub parents: Vec<String>,
    pub author: String,
    pub author_time: i64,
    pub committer: String,
    pub committer_time: i64,
    pub message: String,
}

pub open spec fn tree_tag() -> Seq<u8> {
    seq![116u8, 114u8, 101u8, 101u8, 32u8]
}

pub open spec fn parent_tag() -> Seq<u8> {
    seq![112u8, 97u8, 114u8, 101u8, 110u8, 116u8, 32u8]
}

pub open spec fn author_tag() -> Seq<u8> {
    seq![97u8, 117u8, 116u8, 104u8, 111u8, 114u8, 32u8]
}

pub open spec fn committer_tag() -> Seq<u8> {
    seq![99u8, 111u8, 109u8, 109u8, 105u8, 116u8, 116u8, 101u8, 114u8, 32u8]
}

/// The rest of `l` after the prefix `p`, if `l` begins with it.
pub open spec fn after_prefix(l: Seq<u8>, p: Seq<u8>) -> Option<Seq<u8>> {
    if p.len() <= l.len() && l.take(p.len() as int) == p {
        Some(l.skip(p.len() as int))
    } else {
        None
    }
}

/// Index of the first empty line (the length when there is none).
pub open spec fn first_empty(ls: Seq<Seq<u8>>) -> nat
    decreases ls.len(),
{
    if ls.len() == 0 {
        0
    } else if ls[0].len() == 0 {
        0
    } else {
        1 + first_empty(ls.drop_first())
    }
}

/// The rest of the last header line with prefix `p`.
pub open spec fn last_field(hs: Seq<Seq<u8>>, p: Seq<u8>) -> Option<Seq<u8>>
    decreases hs.len(),
{
    if hs.len() == 0 {
        None
    } else {
        match after_prefix(hs.last(), p) {
            Some(r) => Some(r),
            None => last_field(hs.drop_last(), p),
        }
    }
}

/// The rests of all header lines with prefix `p`, in order.
pub open spec fn all_fields(hs: Seq<Seq<u8>>, p: Seq<u8>) -> Seq<Seq<u8>>
    decreases hs.len(),
{
    if hs.len() == 0 {
        seq![]
    } else {
        let prev = all_fields(hs.drop_last(), p);
        match after_prefix(hs.last(), p) {
            Some(r) => prev.push(r),
            None => prev,
        }
    }
}

/// A `<name> <time> <zone>` field split at its last two spaces into name and time.
pub open spec fn split_person(r: Seq<u8>) -> Option<(Seq<u8>, Seq<u8>)> {
    let first_sp = last_index_of(r, 32u8);
    if first_sp < 0 {
        None
    } else {
        let second_sp = last_index_of(r.take(first_sp), 32u8);
        if second_sp < 0 {
            None
        } else {
            Some((r.take(second_sp), r.subrange(second_sp + 1, first_sp)))
        }
    }
}

/// Name and time of the last header line with prefix `p` that has both.
pub open spec fn last_person(hs: Seq<Seq<u8>>, p: Seq<u8>) -> Option<(Seq<u8>, Seq<u8>)>
    decreases hs.len(),
{
    if hs.len() == 0 {
        None
    } else {
        match after_prefix(hs.last(), p) {
            Some(r) => match split_person(r) {
                Some(x) => Some(x),
                None => last_person(hs.drop_last(), p),
            },
            None => last_person(hs.drop_last(), p),
        }
    }
}

/// Every byte is an ASCII digit.
pub open spec fn all_digits(s: Seq<u8>) -> bool {
    forall|i: int| 0 <= i < s.len() ==> 48 <= #[trigger] s[i] <= 57
}

/// The value of ASCII decimal digits.
pub open spec fn digits_value(s: Seq<u8>) -> int
    decreases s.len(),
{
    if s.len() == 0 {
        0
    } else {
        digits_value(s.drop_last()) * 10 + (s.last() - 48)
    }
}

/// The integer that text `s` writes: an optional sign, then one or more digits.
pub open spec fn int_text_value(s: Seq<u8>) -> Option<int> {
    if s.len() > 0 && (s[0] == 45u8 || s[0] == 43u8) {
        let d = s.drop_first();
        if d.len() > 0 && all_digits(d) {
            Some(
                if s[0] == 45u8 {
                    -digits_value(d)
                } else {
                    digits_value(d)
                },
            )
        } else {
            None
        }
    } else if s.len() > 0 && all_digits(s) {
        Some(digits_value(s))
    } else {
        None
    }
}

/// The `i64` that text `s` writes, if it writes one in range.
pub open spec fn parse_i64_spec(s: Seq<u8>) -> Option<i64> {
    match int_text_value(s) {
        Some(v) => if i64::MIN <= v <= i64::MAX {
            Some(v as i64)
        } else {
            None
        },
        None => None,
    }
}

pub open spec fn opt_lossy(o: Option<Seq<u8>>) -> Seq<char> {
    match o {
        Some(r) => utf8_lossy(r),
        None => seq![],
    }
}

pub open spec fn person_name(o: Option<(Seq<u8>, Seq<u8>)>) -> Seq<char> {
    match o {
        Some((n, _)) => utf8_lossy(n),
        None => seq![],
    }
}

pub open spec fn person_time(o: Option<(Seq<u8>, Seq<u8>)>) -> i64 {
    match o {
        Some((_, t)) => match parse_i64_spec(t) {
            Some(v) => v,
            None => 0,
        },
        None => 0,
    }
}

/// Lines joined with `\n`, without a final one.
pub open spec fn join_lines_b(ls: Seq<Seq<u8>>) -> Seq<u8>
    decreases ls.len(),
{
    if ls.len() == 0 {
        seq![]
    } else if ls.len() == 1 {
        ls[0]
    } else {
        join_lines_b(ls.drop_last()) + seq![10u8] + ls.last()
    }
}

/// The header lines of a commit payload: those before the first empty line.
pub open spec fn commit_header(payload: Seq<u8>) -> Seq<Seq<u8>> {
    byte_lines(payload).take(first_empty(byte_lines(payload)) as int)
}

/// The message of a commit payload: the lines after the first empty line
/// (all lines when there is none), joined with `\n`.
pub open spec fn commit_message(payload: Seq<u8>) -> Seq<u8> {
    let ls = byte_lines(payload);
    let e = first_empty(ls);
    join_lines_b(ls.skip(if e < ls.len() { e as int + 1 } else { 0int }))
}

/// An author or committer line, if `l` is one, has a name, a time and a zone.
pub open spec fn person_line_ok(l: Seq<u8>) -> bool {
    &&& (after_prefix(l, author_tag()) matches Some(r) ==> split_person(r) is Some)
    &&& (after_prefix(l, committer_tag()) matches Some(r) ==> split_person(r) is Some)
}

/// No author or committer line of the header is cut short.
pub open spec fn persons_ok(hs: Seq<Seq<u8>>) -> bool {
    forall|i: int| 0 <= i < hs.len() ==> person_line_ok(#[trigger] hs[i])
}

proof fn lemma_first_empty_ge(ls: Seq<Seq<u8>>, k: int)
    requires
        0 <= k <= ls.len(),
        forall|j: int| 0 <= j < k ==> (#[trigger] ls[j]).len() > 0,
    ensures
        first_empty(ls) >= k,
        first_empty(ls) <= ls.len(),
    decreases ls.len(),
{
    if ls.len() > 0 {
        let d = ls.drop_first();
        if k > 0 {
            assert forall|j: int| 0 <= j < k - 1 implies (#[trigger] d[j]).len() > 0 by {
                assert(d[j] == ls[j + 1]);
            }
            lemma_first_empty_ge(d, k - 1);
        } else {
            lemma_first_empty_ge(d, 0);
        }
    }
}

/// `c` is what a commit payload reads as.
pub open spec fn commit_reads_as(c: Commit, payload: Seq<u8>) -> bool {
    let hs = commit_header(payload);
    &&& c.tree@ == opt_lossy(last_field(hs, tree_tag()))
    &&& c.parents@.map_values(|s: String| s@) == all_fields(hs, parent_tag()).map_values(|r: Seq<u8>| utf8_lossy(r))
    &&& c.author@ == person_name(last_person(hs, author_tag()))
    &&& c.author_time == person_time(last_person(hs, author_tag()))
    &&& c.committer@ == person_name(last_person(hs, committer_tag()))
    &&& c.committer_time == person_time(last_person(hs, committer_tag()))
    &&& c.message@ == utf8_lossy(commit_message(payload))
}

proof fn lemma_digits_nonneg(s: Seq<u8>)
    requires
        all_digits(s),
    ensures
        digits_value(s) >= 0,
    decreases s.len(),
{
    if s.len() > 0 {
        assert(all_digits(s.drop_last())) by {
            assert forall|i: int| 0 <= i < s.drop_last().len() implies 48 <= #[trigger] s.drop_last()[i] <= 57 by {
                assert(s.drop_last()[i] == s[i]);
            }
        }
        lemma_digits_nonneg(s.drop_last());
        assert(48 <= s[s.len() - 1] <= 57);
    }
}

/// The value of the digits `s[start..]`, or `None` when it exceeds `limit`;
/// all bytes there must be digits.
fn digits_upto(s: &[u8], start: usize, limit: u64) -> (r: Option<u64>)
    requires
        start <= s@.len(),
        all_digits(s@.skip(start as int)),
    ensures
        r.is_some() == (digits_value(s@.skip(start as int)) <= limit as int),
        r.is_some() ==> r.unwrap() as int == digits_value(s@.skip(start as int)),
{
    let ghost d = s@.skip(start as int);
    let mut acc: u64 = 0;
    let mut big = false;
    let mut i: usize = start;
    assert(d.take(0) =~= Seq::<u8>::empty());
    while i < s.len()
        invariant
            start <= i <= s@.len(),
            d == s@.skip(start as int),
            all_digits(d),
            !big ==> acc as int == digits_value(d.take(i - start)) && acc <= limit,
            big ==> digits_value(d.take(i - start)) > limit as int,
        decreases s@.len() - i,
    {
        let ghost k = i - start;
        assert(d.take(k + 1).drop_last() =~= d.take(k));
        assert(d.take(k + 1).last() == s@[i as int]);
        assert(d[k] == s@[i as int]);
        let dg = (s[i] - 48) as u64;
        proof {
            assert(all_digits(d.take(k))) by {
                assert forall|j: int| 0 <= j < d.take(k).len() implies 48 <= #[trigger] d.take(k)[j] <= 57 by {
                    assert(d.take(k)[j] == d[j]);
                }
            }
            lemma_digits_nonneg(d.take(k));
        }
        if !big {
            if dg <= limit && acc <= (limit - dg) / 10 {
                proof {
                    assert(acc * 10 + dg <= limit) by (nonlinear_arith)
                        requires acc <= (limit - dg) / 10, dg <= limit;
                }
                acc = acc * 10 + dg;
            } else {
                proof {
                    if dg <= limit {
                        assert(acc * 10 + dg > limit) by (nonlinear_arith)
                            requires acc > (limit - dg) / 10, dg <= limit;
                    }
                }
                big = true;
            }
        } else {
            proof {
                let v = digits_value(d.take(k));
                assert(v * 10 + dg >= v) by (nonlinear_arith) requires v >= 0, dg >= 0;
            }
        }
        i = i + 1;
    }
    assert(d.take(i - start) =~= d);
    if big {
        None
    } else {
        Some(acc)
    }
}

fn check_digits(s: &[u8], start: usize) -> (r: bool)
    requires
        start <= s@.len(),
    ensures
        r == all_digits(s@.skip(start as int)),
{
    let mut i: usize = start;
    while i < s.len()
        invariant
            start <= i <= s@.len(),
            forall|j: int| start <= j < i ==> 48 <= #[trigger] s@[j] <= 57,
        decreases s@.len() - i,
    {
        if s[i] < 48 || s[i] > 57 {
            assert(s@.skip(start as int)[i - start] == s@[i as int]);
            return false;
        }
        i = i + 1;
    }
    assert forall|j: int| 0 <= j < s@.skip(start as int).len() implies 48 <= #[trigger] s@.skip(start as int)[j] <= 57 by {
        assert(s@.skip(start as int)[j] == s@[start + j]);
    }
    true
}

/// Parses an optionally signed decimal `i64`.
pub fn parse_i64(s: &[u8]) -> (r: Option<i64>)
    ensures
        r == parse_i64_spec(s@),
{
    if s.len() == 0 {
        return None;
    }
    let signed = s[0] == 45u8 || s[0] == 43u8;
    let start: usize = if signed { 1 } else { 0 };
    assert(start == 0 ==> s@.skip(0) =~= s@);
    assert(start == 1 ==> s@.skip(1) =~= s@.drop_first());
    if start >= s.len() || !check_digits(s, start) {
        return None;
    }
    if s[0] == 45u8 {
        match digits_upto(s, start, 9223372036854775808u64) {
            None => None,
            Some(v) => {
                if v == 9223372036854775808u64 {
                    Some(-9223372036854775807i64 - 1)
                } else {
                    Some(-(v as i64))
                }
            },
        }
    } else {
        match digits_upto(s, start, 9223372036854775807u64) {
            None => None,
            Some(v) => Some(v as i64),
        }
    }
}

fn strip_tag(l: &[u8], tag: &[u8]) -> (r: Option<Vec<u8>>)
    ensures
        r.is_some() == after_prefix(l@, tag@).is_some(),
        r.is_some() ==> r.unwrap()@ == after_prefix(l@, tag@).unwrap(),
{
    if has_prefix(l, tag) {
        let v = sub_bytes(l, tag.len(), l.len());
        assert(v@ =~= l@.skip(tag@.len() as int));
        Some(v)
    } else {
        None
    }
}

fn person(r: &[u8]) -> (o: Option<(Vec<u8>, Vec<u8>)>)
    ensures
        o.is_some() == split_person(r@).is_some(),
        o.is_some() ==> (o.unwrap().0@, o.unwrap().1@) == split_person(r@).unwrap(),
{
    assert(r@.take(r@.len() as int) =~= r@);
    match find_last(r, r.len(), 32u8) {
        None => None,
        Some(first_sp) => match find_last(r, first_sp, 32u8) {
            None => None,
            Some(second_sp) => {
                assert(r@.take(first_sp as int).take(second_sp as int) =~= r@.take(second_sp as int));
                Some((sub_bytes(r, 0, second_sp), sub_bytes(r, second_sp + 1, first_sp)))
            },
        },
    }
}

fn tag_bytes(which: u8) -> (r: Vec<u8>)
    ensures
        which == 0 ==> r@ == tree_tag(),
        which == 1 ==> r@ == parent_tag(),
        which == 2 ==> r@ == author_tag(),
        which >= 3 ==> r@ == committer_tag(),
{
    let r = if which == 0 {
        vec![116u8, 114u8, 101u8, 101u8, 32u8]
    } else if which == 1 {
        vec![112u8, 97u8, 114u8, 101u8, 110u8, 116u8, 32u8]
    } else if which == 2 {
        vec![97u8, 117u8, 116u8, 104u8, 111u8, 114u8, 32u8]
    } else {
        vec![99u8, 111u8, 109u8, 109u8, 105u8, 116u8, 116u8, 101u8, 114u8, 32u8]
    };
    assert(which == 0 ==> r@ =~= tree_tag());
    assert(which == 1 ==> r@ =~= parent_tag());
    assert(which == 2 ==> r@ =~= author_tag());
    assert(which >= 3 ==> r@ =~= committer_tag());
    r
}

proof fn lemma_first_empty(ls: Seq<Seq<u8>>, i: int)
    requires
        0 <= i <= ls.len(),
        forall|j: int| 0 <= j < i ==> (#[trigger] ls[j]).len() > 0,
        i == ls.len() || ls[i].len() == 0,
    ensures
        first_empty(ls) == i,
    decreases i,
{
    if i > 0 {
        let d = ls.drop_first();
        assert forall|j: int| 0 <= j < i - 1 implies (#[trigger] d[j]).len() > 0 by {
            assert(d[j] == ls[j + 1]);
        }
        if i < ls.len() {
            assert(d[i - 1] == ls[i]);
        }
        lemma_first_empty(d, i - 1);
    }
}

fn time_of(t: &[u8]) -> (r: i64)
    ensures
        r == (match parse_i64_spec(t@) {
            Some(v) => v,
            None => 0,
        }),
{
    match parse_i64(t) {
        Some(v) => v,
        None => 0,
    }
}

fn join_b(ls: &Vec<Vec<u8>>, start: usize) -> (r: Vec<u8>)
    requires
        start <= ls@.len(),
    ensures
        r@ == join_lines_b(bytes_view(ls@).skip(start as int)),
{
    let ghost v = bytes_view(ls@).skip(start as int);
    let mut r: Vec<u8> = Vec::new();
    let mut i: usize = start;
    assert(v.take(0) =~= Seq::<Seq<u8>>::empty());
    while i < ls.len()
        invariant
            start <= i <= ls@.len(),
            v == bytes_view(ls@).skip(start as int),
            r@ == join_lines_b(v.take(i - start)),
        decreases ls@.len() - i,
    {
        let ghost k = i - start;
        assert(v.take(k + 1).drop_last() =~= v.take(k));
        assert(v.take(k + 1).last() == ls@[i as int]@);
        if i > start {
            r.push(10u8);
        }
        r.extend_from_slice(ls[i].as_slice());
        i = i + 1;
        assert(k == 0 ==> v.take(k + 1) =~= seq![ls@[start as int]@]);
        assert(r@ =~= join_lines_b(v.take(i - start)));
    }
    assert(v.take(i - start) =~= v);
    r
}

/// Reads a commit payload: header fields up to the first empty line, then the message.
pub fn parse_commit_payload(payload: &[u8]) -> (r: Result<Commit, ErrorKind>)
    ensures
        r is Ok <==> persons_ok(commit_header(payload@)),
        r is Ok ==> commit_reads_as(r.unwrap(), payload@),
        r is Err ==> r == Err::<Commit, ErrorKind>(ErrorKind::InvalidData),
{
    let lines = split_byte_lines(payload);
    let ghost ls = bytes_view(lines@);
    let tt = tag_bytes(0);
    let pt = tag_bytes(1);
    let at = tag_bytes(2);
    let ct = tag_bytes(3);
    let mut tree: Option<Vec<u8>> = None;
    let mut parents: Vec<String> = Vec::new();
    let mut author: Option<(Vec<u8>, Vec<u8>)> = None;
    let mut committer: Option<(Vec<u8>, Vec<u8>)> = None;
    let mut i: usize = 0;
    while i < lines.len() && lines[i].len() > 0
        invariant
            ls == bytes_view(lines@),
            ls == byte_lines(payload@),
            tt@ == tree_tag(),
            pt@ == parent_tag(),
            at@ == author_tag(),
            ct@ == committer_tag(),
            i <= ls.len(),
            forall|j: int| 0 <= j < i ==> (#[trigger] ls[j]).len() > 0,
            forall|j: int| 0 <= j < i ==> person_line_ok(#[trigger] ls[j]),
            tree.is_some() == last_field(ls.take(i as int), tree_tag()).is_some(),
            tree.is_some() ==> tree.unwrap()@ == last_field(ls.take(i as int), tree_tag()).unwrap(),
            parents@.map_values(|s: String| s@) == all_fields(ls.take(i as int), parent_tag()).map_values(|r: Seq<u8>| utf8_lossy(r)),
            author.is_some() == last_person(ls.take(i as int), author_tag()).is_some(),
            author.is_some() ==> (author.unwrap().0@, author.unwrap().1@) == last_person(ls.take(i as int), author_tag()).unwrap(),
            committer.is_some() == last_person(ls.take(i as int), committer_tag()).is_some(),
            committer.is_some() ==> (committer.unwrap().0@, committer.unwrap().1@) == last_person(ls.take(i as int), committer_tag()).unwrap(),
        decreases ls.len() - i,
    {
        let line = &lines[i];
        let ghost pre = ls.take(i as int);
        assert(ls.take(i as int + 1).drop_last() =~= pre);
        assert(ls.take(i as int + 1).last() == line@);
        match strip_tag(line.as_slice(), tt.as_slice()) {
            Some(r) => {
                tree = Some(r);
            },
            None => {},
        }
        match strip_tag(line.as_slice(), pt.as_slice()) {
            Some(r) => {
                let ghost before = parents@.map_values(|s: String| s@);
                parents.push(lossy_string(r.as_slice()));
                assert(parents@.map_values(|s: String| s@) =~= before.push(utf8_lossy(r@)));
                assert(all_fields(ls.take(i as int + 1), parent_tag()).map_values(|r: Seq<u8>| utf8_lossy(r))
                    =~= all_fields(pre, parent_tag()).map_values(|r: Seq<u8>| utf8_lossy(r)).push(utf8_lossy(r@)));
            },
            None => {},
        }
        proof {
            assert(ls[i as int] == lines@[i as int]@);
            lemma_first_empty_ge(ls, i as int + 1);
            assert(commit_header(payload@)[i as int] == ls[i as int]);
        }
        match strip_tag(line.as_slice(), at.as_slice()) {
            Some(r) => match person(r.as_slice()) {
                Some(x) => {
                    author = Some(x);
                },
                None => {
                    return Err(ErrorKind::InvalidData);
                },
            },
            None => {},
        }
        match strip_tag(line.as_slice(), ct.as_slice()) {
            Some(r) => match person(r.as_slice()) {
                Some(x) => {
                    committer = Some(x);
                },
                None => {
                    return Err(ErrorKind::InvalidData);
                },
            },
            None => {},
        }
        i = i + 1;
    }
    proof {
        lemma_first_empty(ls, i as int);
        assert(commit_header(payload@) =~= ls.take(i as int));
    }
    let start: usize = if i < lines.len() { i + 1 } else { 0 };
    let message = lossy_string(join_b(&lines, start).as_slice());
    let tree_s = match tree {
        Some(r) => lossy_string(r.as_slice()),
        None => String::new(),
    };
    let (author_s, author_time) = match author {
        Some((n, t)) => (lossy_string(n.as_slice()), time_of(t.as_slice())),
        None => (String::new(), 0i64),
    };
    let (committer_s, committer_time) = match committer {
        Some((n, t)) => (lossy_string(n.as_slice()), time_of(t.as_slice())),
        None => (String::new(), 0i64),
    };
    Ok(Commit {
        tree: tree_s,
        parents,
        author: author_s,
        author_time,
        committer: committer_s,
        committer_time,
        message,
    })
}

/// Reads a framed commit object: `InvalidData` unless its header names a
/// commit and every author and committer line has a name, time and zone.
pub fn parse_commit(data: &[u8]) -> (r: Result<Commit, ErrorKind>)
    ensures
        r is Ok <==> kind_of(data@) == Some(ObjectKind::Commit) && persons_ok(commit_header(payload_of(data@).unwrap())),
        r is Ok ==> commit_reads_as(r.unwrap(), payload_of(data@).unwrap()),
        r is Err ==> r == Err::<Commit, ErrorKind>(ErrorKind::InvalidData),
{
    match frame_kind(data) {
        Ok(ObjectKind::Commit) => {},
        _ => {
            return Err(ErrorKind::InvalidData);
        },
    }
    proof {
        let c = choose|i: int| crate::object::first_nul(data@, i);
        assert(crate::object::first_nul(data@, c));
    }
    let payload = frame_payload(data)?;
    parse_commit_payload(payload.as_slice())
}

/// Decimal text of a signed integer.
pub open spec fn i64_text(t: i64) -> Seq<u8> {
    if t < 0 {
        seq![45u8] + decimal_bytes((-t) as nat)
    } else {
        decimal_bytes(t as nat)
    }
}

/// The `<who> <time> <zone>` part of an author or committer line.
pub open spec fn person_text(who: Seq<u8>, time: i64, zone: Seq<u8>) -> Seq<u8> {
    who + seq![32u8] + i64_text(time) + seq![32u8] + zone
}

/// `parent <hash>` lines for each parent.
pub open spec fn parent_lines(ps: Seq<Seq<u8>>) -> Seq<u8>
    decreases ps.len(),
{
    if ps.len() == 0 {
        seq![]
    } else {
        parent_lines(ps.drop_last()) + parent_tag() + ps.last() + seq![10u8]
    }
}

/// The payload of a commit whose author is also its committer.
pub open spec fn commit_payload_spec(
    tree: Seq<u8>,
    parents: Seq<Seq<u8>>,
    who: Seq<u8>,
    time: i64,
    zone: Seq<u8>,
    message: Seq<u8>,
) -> Seq<u8> {
    tree_tag() + tree + seq![10u8] + parent_lines(parents) + author_tag() + person_text(who, time, zone)
        + seq![10u8] + committer_tag() + person_text(who, time, zone) + seq![10u8, 10u8] + message
        + seq![10u8]
}

fn push_i64(v: &mut Vec<u8>, t: i64)
    ensures
        final(v)@ == old(v)@ + i64_text(t),
{
    if t < 0 {
        v.push(45u8);
        let n: u64 = if t == -9223372036854775807i64 - 1 {
            9223372036854775808u64
        } else {
            (-t) as u64
        };
        push_decimal_bytes(v, n);
    } else {
        push_decimal_bytes(v, t as u64);
    }
    assert(final(v)@ =~= old(v)@ + i64_text(t));
}

fn push_person(v: &mut Vec<u8>, who: &str, time: i64, zone: &str)
    ensures
        final(v)@ == old(v)@ + person_text(who.spec_bytes(), time, zone.spec_bytes()),
{
    v.extend_from_slice(who.as_bytes());
    v.push(32u8);
    push_i64(v, time);
    v.push(32u8);
    v.extend_from_slice(zone.as_bytes());
    assert(final(v)@ =~= old(v)@ + person_text(who.spec_bytes(), time, zone.spec_bytes()));
}

/// The payload of a commit: tree and parent lines, author and committer
/// lines (the same person and time), a blank line, the message and a newline.
pub fn commit_payload(
    tree_hash: &str,
    parent_hashes: &[String],
    author: &str,
    timestamp: i64,
    timezone: &str,
    message: &str,
) -> (r: Vec<u8>)
    ensures
        r@ == commit_payload_spec(
            tree_hash.spec_bytes(),
            parent_hashes@.map_values(|p: String| vstd::utf8::encode_utf8(p@)),
            author.spec_bytes(),
            timestamp,
            timezone.spec_bytes(),
            message.spec_bytes(),
        ),
{
    let ghost ps = parent_hashes@.map_values(|p: String| vstd::utf8::encode_utf8(p@));
    let mut r = tag_bytes(0);
    r.extend_from_slice(tree_hash.as_bytes());
    r.push(10u8);
    let ghost head = r@;
    let mut i: usize = 0;
    assert(ps.take(0) =~= Seq::<Seq<u8>>::empty());
    while i < parent_hashes.len()
        invariant
            i <= parent_hashes@.len(),
            ps == parent_hashes@.map_values(|p: String| vstd::utf8::encode_utf8(p@)),
            r@ == head + parent_lines(ps.take(i as int)),
        decreases parent_hashes@.len() - i,
    {
        assert(ps.take(i as int + 1).drop_last() =~= ps.take(i as int));
        assert(ps.take(i as int + 1).last() == vstd::utf8::encode_utf8(parent_hashes@[i as int]@));
        let t = tag_bytes(1);
        r.extend_from_slice(t.as_slice());
        r.extend_from_slice(parent_hashes[i].as_str().as_bytes());
        r.push(10u8);
        i = i + 1;
        assert(r@ =~= head + parent_lines(ps.take(i as int)));
    }
    assert(ps.take(i as int) =~= ps);
    let at = tag_bytes(2);
    r.extend_from_slice(at.as_slice());
    push_person(&mut r, author, timestamp, timezone);
    r.push(10u8);
    let ct = tag_bytes(3);
    r.extend_from_slice(ct.as_slice());
    push_person(&mut r, author, timestamp, timezone);
    r.push(10u8);
    r.push(10u8);
    r.extend_from_slice(message.as_bytes());
    r.push(10u8);
    assert(r@ =~= commit_payload_spec(
        tree_hash.spec_bytes(),
        ps,
        author.spec_bytes(),
        timestamp,
        timezone.spec_bytes(),
        message.spec_bytes(),
    ));
    r
}

/// Stores a commit object and returns its hash.
pub fn create_commit(
    store: &mut crate::object_store::ObjectStore,
    tree_hash: &str,
    parent_hashes: &[String],
    author: &str,
    timestamp: i64,
    timezone: &str,
    message: &str,
) -> (r: String)
    requires
        old(store).wf(),
    ensures
        final(store).wf(),
        r@ == crate::codec::hash_text(crate::object::frame_spec(ObjectKind::Commit, commit_payload_spec(
            tree_hash.spec_bytes(),
            parent_hashes@.map_values(|p: String| vstd::utf8::encode_utf8(p@)),
            author.spec_bytes(),
            timestamp,
            timezone.spec_bytes(),
            message.spec_bytes(),
        ))),
        final(store)@ == crate::object_store::put_map(old(store)@, ObjectKind::Commit, commit_payload_spec(
            tree_hash.spec_bytes(),
            parent_hashes@.map_values(|p: String| vstd::utf8::encode_utf8(p@)),
            author.spec_bytes(),
            timestamp,
            timezone.spec_bytes(),
            message.spec_bytes(),
        )),
{
    let payload = commit_payload(tree_hash, parent_hashes, author, timestamp, timezone, message);
    store.put(ObjectKind::Commit, payload.as_slice())
}

/// The commit stored under `hash`: `NotFound` when absent, `InvalidData`
/// when it is not a commit.
pub fn read_commit(store: &crate::object_store::ObjectStore, hash: &str) -> (r: Result<Commit, ErrorKind>)
    requires
        store.wf(),
    ensures
        !store@.contains_key(hash@) ==> r == Err::<Commit, ErrorKind>(ErrorKind::NotFound),
        store@.contains_key(hash@) ==> (r is Ok <==> kind_of(store@[hash@]) == Some(ObjectKind::Commit)
            && persons_ok(commit_header(payload_of(store@[hash@]).unwrap()))),
        r is Ok ==> commit_reads_as(r.unwrap(), payload_of(store@[hash@]).unwrap()),
{
    let frame = store.get(hash)?;
    parse_commit(frame.as_slice())
}

/// The parent hashes of the commit stored under `hash`.
pub fn get_commit_parents(store: &crate::object_store::ObjectStore, hash: &str) -> (r: Result<Vec<String>, ErrorKind>)
    requires
        store.wf(),
    ensures
        !store@.contains_key(hash@) ==> r == Err::<Vec<String>, ErrorKind>(ErrorKind::NotFound),
        store@.contains_key(hash@) ==> (r is Ok <==> kind_of(store@[hash@]) == Some(ObjectKind::Commit)
            && persons_ok(commit_header(payload_of(store@[hash@]).unwrap()))),
        r is Ok ==> r.unwrap()@.map_values(|s: String| s@) == all_fields(
            commit_header(payload_of(store@[hash@]).unwrap()),
            parent_tag(),
        ).map_values(|x: Seq<u8>| utf8_lossy(x)),
{
    let c = read_commit(store, hash)?;
    Ok(c.parents)
}

/// The tree hash of the commit stored under `hash`.
pub fn get_commit_tree(store: &crate::object_store::ObjectStore, hash: &str) -> (r: Result<String, ErrorKind>)
    requires
        store.wf(),
    ensures
        !store@.contains_key(hash@) ==> r == Err::<String, ErrorKind>(ErrorKind::NotFound),
        store@.contains_key(hash@) ==> (r is Ok <==> kind_of(store@[hash@]) == Some(ObjectKind::Commit)
            && persons_ok(commit_header(payload_of(store@[hash@]).unwrap()))),
        r is Ok ==> r.unwrap()@ == opt_lossy(last_field(commit_header(payload_of(store@[hash@]).unwrap()), tree_tag())),
{
    let c = read_commit(store, hash)?;
    Ok(c.tree)
}

/// A commit passes a log filter when its author holds `author`, and its
/// author time is not before `since` nor after `until`.
pub open spec fn passes_filter(c: Commit, author: Option<Seq<u8>>, since: Option<i64>, until: Option<i64>) -> bool {
    &&& (author matches Some(a) ==> crate::merge_types::holds_seq(vstd::utf8::encode_utf8(c.author@), a))
    &&& (since matches Some(t) ==> c.author_time >= t)
    &&& (until matches Some(t) ==> c.author_time <= t)
}

/// Whether a commit passes the log filter on author, since and until.
pub fn commit_matches(c: &Commit, author: Option<&str>, since: Option<i64>, until: Option<i64>) -> (r: bool)
    ensures
        r == passes_filter(*c, match author {
            Some(a) => Some(a.spec_bytes()),
            None => None,
        }, since, until),
{
    let by_author = match author {
        Some(a) => crate::merge_types::find_bytes(c.author.as_str().as_bytes(), a.as_bytes()),
        None => true,
    };
    let after = match since {
        Some(t) => c.author_time >= t,
        None => true,
    };
    let before = match until {
        Some(t) => c.author_time <= t,
        None => true,
    };
    by_author && after && before
}

} // verus!
