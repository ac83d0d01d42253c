use vstd::prelude::*;

verus! {

/// `l` without one trailing carriage return.
pub open spec fn strip_cr_b(l: Seq<u8>) -> Seq<u8> {
    if l.len() > 0 && l.last() == 13u8 {
        l.drop_last()
    } else {
        l
    }
}

/// The lines of `s` that follow a partial line `cur`: lines end at `\n` or
/// `\r\n`, and the last one may lack an ending.
pub open spec fn byte_lines_from(s: Seq<u8>, cur: Seq<u8>) -> Seq<Seq<u8>>
    decreases s.len(),
{
    if s.len() == 0 {
        if cur.len() == 0 {
            seq![]
        } else {
            seq![cur]
        }
    } else if s[0] == 10u8 {
        seq![strip_cr_b(cur)] + byte_lines_from(s.drop_first(), seq![])
    } else {
        byte_lines_from(s.drop_first(), cur.push(s[0]))
    }
}

/// The lines of the bytes `s`.
pub open spec fn byte_lines(s: Seq<u8>) -> Seq<Seq<u8>> {
    byte_lines_from(s, seq![])
}

pub open spec fn bytes_view(v: Seq<Vec<u8>>) -> Seq<Seq<u8>> {
    v.map_values(|x: Vec<u8>| x@)
}

/// Splits bytes into lines at `\n` and `\r\n`; the last line may lack an ending.
pub fn split_byte_lines(s: &[u8]) -> (r: Vec<Vec<u8>>)
    ensures
        bytes_view(r@) == byte_lines(s@),
{
    let mut out: Vec<Vec<u8>> = Vec::new();
    let mut cur: Vec<u8> = Vec::new();
    let mut i: usize = 0;
    assert(s@.skip(0) =~= s@);
    while i < s.len()
        invariant
            i <= s@.len(),
            bytes_view(out@) + byte_lines_from(s@.skip(i as int), cur@) == byte_lines(s@),
        decreases s@.len() - i,
    {
        let ghost rest = s@.skip(i as int);
        assert(rest.drop_first() =~= s@.skip(i as int + 1));
        if s[i] == 10u8 {
            let ghost cur0 = cur@;
            let n = cur.len();
            if n > 0 && cur[n - 1] == 13u8 {
                cur.pop();
            }
            assert(cur@ =~= strip_cr_b(cur0));
            let ghost before = bytes_view(out@);
            out.push(cur);
            cur = Vec::new();
            proof {
                assert(bytes_view(out@) =~= before.push(out@.last()@));
            }
        } else {
            cur.push(s[i]);
        }
        i = i + 1;
    }
    if cur.len() > 0 {
        let ghost before = bytes_view(out@);
        out.push(cur);
        assert(bytes_view(out@) =~= before.push(out@.last()@));
    }
    out
}

/// Index of the last `c` in `s`, or -1.
pub open spec fn last_index_of(s: Seq<u8>, c: u8) -> int
    decreases s.len(),
{
    if s.len() == 0 {
        -1
    } else if s.last() == c {
        s.len() - 1
    } else {
        last_index_of(s.drop_last(), c)
    }
}

/// The bytes of `s` from `start` to `end`.
pub fn sub_bytes(s: &[u8], start: usize, end: usize) -> (r: Vec<u8>)
    requires
        start <= end <= s@.len(),
    ensures
        r@ == s@.subrange(start as int, end as int),
{
    let mut r: Vec<u8> = Vec::new();
    let mut i: usize = start;
    while i < end
        invariant
            start <= i <= end <= s@.len(),
            r@ == s@.subrange(start as int, i as int),
        decreases end - i,
    {
        r.push(s[i]);
        i = i + 1;
        assert(r@ =~= s@.subrange(start as int, i as int));
    }
    r
}

/// Index of the last `c` in `s[..end]`, if any.
pub fn find_last(s: &[u8], end: usize, c: u8) -> (r: Option<usize>)
    requires
        end <= s@.len(),
    ensures
        r.is_some() == (last_index_of(s@.take(end as int), c) >= 0),
        r.is_some() ==> r.unwrap() as int == last_index_of(s@.take(end as int), c),
        r.is_some() ==> r.unwrap() < end,
{
    let mut i: usize = end;
    while i > 0
        invariant
            i <= end <= s@.len(),
            last_index_of(s@.take(end as int), c) == last_index_of(s@.take(i as int), c),
        decreases i,
    {
        assert(s@.take(i as int).drop_last() =~= s@.take(i - 1));
        if s[i - 1] == c {
            return Some(i - 1);
        }
        i = i - 1;
    }
    None
}

} // verus!
