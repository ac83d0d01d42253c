use vstd::prelude::*;
use vstd::utf8::{decode_utf8, encode_utf8, valid_utf8};
use crate::codec::{hex_bytes, hex_decode, sha1_digest, sha1_of, utf8_lossy, lossy_string, utf8_string};
use crate::bytes::{byte_lines, bytes_view, split_byte_lines};
use crate::error::ErrorKind;

verus! {

/// One staged path with its blob hash and a mirror of its file metadata.
#[derive(Debug, Clone)]
pub struct IndexEntry {
    pub ctime_sec: u32,
    pub ctime_nsec: u32,
    pub mtime_sec: u32,
    pub mtime_nsec: u32,
    pub dev: u32,
    pub ino: u32,
    pub mode: u32,
    pub uid: u32,
    pub gid: u32,
    pub size: u32,
    /// The raw 20-byte blob hash.
    pub hash: Vec<u8>,
    /// Low 12 bits: name length; top bits: merge stage.
    pub flags: u16,
    pub path: String,
}

/// An entry as values: its ten metadata words, hash, flags and path.
pub type EntryView = (Seq<u32>, Seq<u8>, u16, Seq<char>);

pub open spec fn entry_view(e: IndexEntry) -> EntryView {
    (
        seq![e.ctime_sec, e.ctime_nsec, e.mtime_sec, e.mtime_nsec, e.dev, e.ino, e.mode, e.uid, e.gid, e.size],
        e.hash@,
        e.flags,
        e.path@,
    )
}

pub open spec fn entries_view(es: Seq<IndexEntry>) -> Seq<EntryView> {
    es.map_values(|e: IndexEntry| entry_view(e))
}

/// Big-endian bytes of a 32-bit word.
pub open spec fn be32(x: u32) -> Seq<u8> {
    seq![(x >> 24u32) as u8, (x >> 16u32) as u8, (x >> 8u32) as u8, x as u8]
}

/// Big-endian bytes of a 16-bit word.
pub open spec fn be16(x: u16) -> Seq<u8> {
    seq![(x >> 8u16) as u8, x as u8]
}

/// The word that four big-endian bytes hold.
pub open spec fn read_be32(b: Seq<u8>) -> u32 {
    ((b[0] as u32) << 24u32) | ((b[1] as u32) << 16u32) | ((b[2] as u32) << 8u32) | (b[3] as u32)
}

/// The word that two big-endian bytes hold.
pub open spec fn read_be16(b: Seq<u8>) -> u16 {
    ((b[0] as u16) << 8u16) | (b[1] as u16)
}

/// `n` zero bytes.
pub open spec fn zeros(n: nat) -> Seq<u8> {
    Seq::new(n, |i: int| 0u8)
}

/// Zero bytes that bring an entry with a path of `len` bytes to a multiple of eight.
pub open spec fn pad_len(len: nat) -> nat {
    ((8 - ((len % 8 + 7) % 8)) % 8) as nat
}

/// The ten metadata words in order.
pub open spec fn words_bytes(w: Seq<u32>) -> Seq<u8>
    decreases w.len(),
{
    if w.len() == 0 {
        seq![]
    } else {
        words_bytes(w.drop_last()) + be32(w.last())
    }
}

/// The bytes of one entry.
pub open spec fn entry_bytes(e: EntryView) -> Seq<u8> {
    let pb = encode_utf8(e.3);
    words_bytes(e.0) + e.1 + be16(e.2) + pb + seq![0u8] + zeros(pad_len(pb.len()))
}

pub open spec fn entries_bytes(es: Seq<EntryView>) -> Seq<u8>
    decreases es.len(),
{
    if es.len() == 0 {
        seq![]
    } else {
        entries_bytes(es.drop_last()) + entry_bytes(es.last())
    }
}

/// `DIRC`.
pub open spec fn magic() -> Seq<u8> {
    seq![68u8, 73u8, 82u8, 67u8]
}

/// The index file before its checksum.
pub open spec fn index_body(es: Seq<EntryView>) -> Seq<u8> {
    magic() + be32(2) + be32(es.len() as u32) + entries_bytes(es)
}

/// The index file: body, then the SHA-1 of the body.
pub open spec fn index_image(es: Seq<EntryView>) -> Seq<u8> {
    index_body(es) + sha1_of(index_body(es))
}

/// Index of the first `c` in `s`, or -1.
pub open spec fn first_index_of(s: Seq<u8>, c: u8) -> int
    decreases s.len(),
{
    if s.len() == 0 {
        -1
    } else if s[0] == c {
        0
    } else {
        let r = first_index_of(s.drop_first(), c);
        if r < 0 {
            -1
        } else {
            r + 1
        }
    }
}

/// Reads one entry from the front of `b`, with the bytes after it.
pub open spec fn decode_entry(b: Seq<u8>) -> Option<(EntryView, Seq<u8>)> {
    if b.len() < 62 {
        None
    } else {
        let words = Seq::new(10, |i: int| read_be32(b.subrange(4 * i, 4 * i + 4)));
        let after = b.skip(62);
        let nul = first_index_of(after, 0u8);
        if nul < 0 {
            None
        } else {
            let pb = after.take(nul);
            let rest = after.skip(nul + 1);
            let pad = pad_len(pb.len());
            if !valid_utf8(pb) || rest.len() < pad || rest.take(pad as int) != zeros(pad) {
                None
            } else {
                Some(((words, b.subrange(40, 60), read_be16(b.subrange(60, 62)), decode_utf8(pb)), rest.skip(pad as int)))
            }
        }
    }
}

/// Reads `n` entries from the front of `b`, with the bytes after them.
pub open spec fn decode_entries(b: Seq<u8>, n: nat) -> Option<(Seq<EntryView>, Seq<u8>)>
    decreases n,
{
    if n == 0 {
        Some((seq![], b))
    } else {
        match decode_entries(b, (n - 1) as nat) {
            None => None,
            Some((es, rest)) => match decode_entry(rest) {
                None => None,
                Some((e, r2)) => Some((es.push(e), r2)),
            },
        }
    }
}

/// What an index file reads as: `InvalidData` for a wrong magic, version,
/// entry or checksum.
pub open spec fn decode_index(b: Seq<u8>) -> Result<Seq<EntryView>, ErrorKind> {
    if b.len() < 12 || b.take(4) != magic() || read_be32(b.subrange(4, 8)) != 2 {
        Err(ErrorKind::InvalidData)
    } else {
        match decode_entries(b.skip(12), read_be32(b.subrange(8, 12)) as nat) {
            None => Err(ErrorKind::InvalidData),
            Some((es, rest)) => if rest == sha1_of(b.take(b.len() - rest.len())) {
                Ok(es)
            } else {
                Err(ErrorKind::InvalidData)
            },
        }
    }
}

proof fn lemma_be32(x: u32)
    ensures
        read_be32(be32(x)) == x,
{
    let b0 = (x >> 24u32) as u8;
    let b1 = (x >> 16u32) as u8;
    let b2 = (x >> 8u32) as u8;
    let b3 = x as u8;
    assert(((b0 as u32) << 24u32) | ((b1 as u32) << 16u32) | ((b2 as u32) << 8u32) | (b3 as u32) == x) by (bit_vector)
        requires
            b0 == (x >> 24u32) as u8,
            b1 == (x >> 16u32) as u8,
            b2 == (x >> 8u32) as u8,
            b3 == x as u8,
    ;
}

proof fn lemma_be16(x: u16)
    ensures
        read_be16(be16(x)) == x,
{
    let b0 = (x >> 8u16) as u8;
    let b1 = x as u8;
    assert(((b0 as u16) << 8u16) | (b1 as u16) == x) by (bit_vector)
        requires
            b0 == (x >> 8u16) as u8,
            b1 == x as u8,
    ;
}

fn push_be32(v: &mut Vec<u8>, x: u32)
    ensures
        final(v)@ == old(v)@ + be32(x),
{
    v.push((x >> 24u32) as u8);
    v.push((x >> 16u32) as u8);
    v.push((x >> 8u32) as u8);
    v.push(x as u8);
    assert(final(v)@ =~= old(v)@ + be32(x));
}

fn get_be32(b: &[u8], off: usize) -> (r: u32)
    requires
        off + 4 <= b@.len(),
    ensures
        r == read_be32(b@.subrange(off as int, off + 4)),
{
    ((b[off] as u32) << 24u32) | ((b[off + 1] as u32) << 16u32) | ((b[off + 2] as u32) << 8u32) | (b[off + 3] as u32)
}

fn pad_of(len: usize) -> (r: usize)
    ensures
        r as nat == pad_len(len as nat),
        r < 8,
{
    (8 - (len % 8 + 7) % 8) % 8
}

fn push_entry(v: &mut Vec<u8>, e: &IndexEntry)
    ensures
        final(v)@ == old(v)@ + entry_bytes(entry_view(*e)),
{
    let ghost start = v@;
    push_be32(v, e.ctime_sec);
    push_be32(v, e.ctime_nsec);
    push_be32(v, e.mtime_sec);
    push_be32(v, e.mtime_nsec);
    push_be32(v, e.dev);
    push_be32(v, e.ino);
    push_be32(v, e.mode);
    push_be32(v, e.uid);
    push_be32(v, e.gid);
    push_be32(v, e.size);
    let ghost w = entry_view(*e).0;
    proof {
        assert(words_bytes(w) =~= be32(e.ctime_sec) + be32(e.ctime_nsec) + be32(e.mtime_sec) + be32(e.mtime_nsec)
            + be32(e.dev) + be32(e.ino) + be32(e.mode) + be32(e.uid) + be32(e.gid) + be32(e.size)) by {
            reveal_with_fuel(words_bytes, 11);
            assert(w.drop_last() =~= seq![e.ctime_sec, e.ctime_nsec, e.mtime_sec, e.mtime_nsec, e.dev, e.ino, e.mode, e.uid, e.gid]);
            assert(w.drop_last().drop_last() =~= seq![e.ctime_sec, e.ctime_nsec, e.mtime_sec, e.mtime_nsec, e.dev, e.ino, e.mode, e.uid]);
            assert(w.drop_last().drop_last().drop_last() =~= seq![e.ctime_sec, e.ctime_nsec, e.mtime_sec, e.mtime_nsec, e.dev, e.ino, e.mode]);
            assert(w.drop_last().drop_last().drop_last().drop_last() =~= seq![e.ctime_sec, e.ctime_nsec, e.mtime_sec, e.mtime_nsec, e.dev, e.ino]);
            assert(w.drop_last().drop_last().drop_last().drop_last().drop_last() =~= seq![e.ctime_sec, e.ctime_nsec, e.mtime_sec, e.mtime_nsec, e.dev]);
            assert(w.drop_last().drop_last().drop_last().drop_last().drop_last().drop_last() =~= seq![e.ctime_sec, e.ctime_nsec, e.mtime_sec, e.mtime_nsec]);
            assert(w.drop_last().drop_last().drop_last().drop_last().drop_last().drop_last().drop_last() =~= seq![e.ctime_sec, e.ctime_nsec, e.mtime_sec]);
            assert(w.drop_last().drop_last().drop_last().drop_last().drop_last().drop_last().drop_last().drop_last() =~= seq![e.ctime_sec, e.ctime_nsec]);
            assert(w.drop_last().drop_last().drop_last().drop_last().drop_last().drop_last().drop_last().drop_last().drop_last() =~= seq![e.ctime_sec]);
            assert(w.drop_last().drop_last().drop_last().drop_last().drop_last().drop_last().drop_last().drop_last().drop_last().drop_last() =~= Seq::<u32>::empty());
        }
    }
    v.extend_from_slice(e.hash.as_slice());
    v.push((e.flags >> 8u16) as u8);
    v.push(e.flags as u8);
    let pb = e.path.as_str().as_bytes();
    v.extend_from_slice(pb);
    v.push(0u8);
    let pad = pad_of(pb.len());
    let mut i: usize = 0;
    let ghost mid = v@;
    while i < pad
        invariant
            i <= pad,
            v@ == mid + zeros(i as nat),
        decreases pad - i,
    {
        v.push(0u8);
        i = i + 1;
        assert(v@ =~= mid + zeros(i as nat));
    }
    assert(final(v)@ =~= old(v)@ + entry_bytes(entry_view(*e)));
}

/// The bytes of an index file holding `entries` in the given order, with
/// its trailing SHA-1 checksum.
pub fn serialize_index(entries: &[IndexEntry]) -> (r: Vec<u8>)
    ensures
        r@ == index_image(entries_view(entries@)),
{
    let ghost es = entries_view(entries@);
    let mut v: Vec<u8> = vec![68u8, 73u8, 82u8, 67u8];
    push_be32(&mut v, 2);
    push_be32(&mut v, entries.len() as u32);
    let ghost head = v@;
    let mut i: usize = 0;
    assert(es.take(0) =~= Seq::<EntryView>::empty());
    while i < entries.len()
        invariant
            i <= entries@.len(),
            es == entries_view(entries@),
            v@ == head + entries_bytes(es.take(i as int)),
        decreases entries@.len() - i,
    {
        push_entry(&mut v, &entries[i]);
        proof {
            assert(es.take(i as int + 1).drop_last() =~= es.take(i as int));
            assert(es.take(i as int + 1).last() == entry_view(entries@[i as int]));
        }
        i = i + 1;
        assert(v@ =~= head + entries_bytes(es.take(i as int)));
    }
    assert(es.take(i as int) =~= es);
    assert(v@ =~= index_body(es));
    let sum = sha1_digest(v.as_slice());
    v.extend_from_slice(sum.as_slice());
    v
}

pub(crate) proof fn lemma_first_index(s: Seq<u8>, c: u8, k: int)
    requires
        0 <= k <= s.len(),
        forall|i: int| 0 <= i < k ==> s[i] != c,
        k == s.len() || s[k] == c,
    ensures
        first_index_of(s, c) == if k == s.len() { -1 } else { k },
    decreases k,
{
    if k > 0 {
        lemma_first_index(s.drop_first(), c, k - 1);
    }
}

fn find_zero(b: &[u8], start: usize) -> (j: usize)
    requires
        start <= b@.len(),
    ensures
        start <= j <= b@.len(),
        first_index_of(b@.skip(start as int), 0u8) == if j == b@.len() { -1 } else { j - start },
{
    let n = b.len();
    let mut j: usize = start;
    while j < n && b[j] != 0u8
        invariant
            start <= j <= n,
            n == b@.len(),
            forall|i: int| start <= i < j ==> b@[i] != 0u8,
        decreases n - j,
    {
        j = j + 1;
    }
    proof {
        lemma_first_index(b@.skip(start as int), 0u8, j - start);
    }
    j
}

fn zeros_at(b: &[u8], start: usize, pad: usize) -> (r: bool)
    requires
        start + pad <= b@.len(),
    ensures
        r == (b@.skip(start as int).take(pad as int) == zeros(pad as nat)),
{
    let n = b.len();
    let mut k: usize = 0;
    while k < pad
        invariant
            k <= pad,
            n == b@.len(),
            start + pad <= n,
            forall|i: int| start <= i < start + k ==> #[trigger] b@[i] == 0u8,
        decreases pad - k,
    {
        if b[start + k] != 0u8 {
            assert(b@.skip(start as int).take(pad as int)[k as int] != zeros(pad as nat)[k as int]);
            return false;
        }
        k = k + 1;
    }
    assert(b@.skip(start as int).take(pad as int) =~= zeros(pad as nat));
    true
}

/// Reads one entry at `off`; `None` where `decode_entry` finds none.
#[verifier::rlimit(40)]
fn parse_entry(b: &[u8], off: usize) -> (r: Option<(IndexEntry, usize)>)
    requires
        off <= b@.len(),
    ensures
        r.is_some() == decode_entry(b@.skip(off as int)).is_some(),
        r.is_some() ==> off < r.unwrap().1,
        r.is_some() ==> r.unwrap().1 <= b@.len() && (entry_view(r.unwrap().0), b@.skip(r.unwrap().1 as int))
            == decode_entry(b@.skip(off as int)).unwrap(),
{
    let ghost s = b@.skip(off as int);
    let n = b.len();
    if n - off < 62 {
        return None;
    }
    let ctime_sec = get_be32(b, off);
    let ctime_nsec = get_be32(b, off + 4);
    let mtime_sec = get_be32(b, off + 8);
    let mtime_nsec = get_be32(b, off + 12);
    let dev = get_be32(b, off + 16);
    let ino = get_be32(b, off + 20);
    let mode = get_be32(b, off + 24);
    let uid = get_be32(b, off + 28);
    let gid = get_be32(b, off + 32);
    let size = get_be32(b, off + 36);
    let hash = crate::bytes::sub_bytes(b, off + 40, off + 60);
    let flags = ((b[off + 60] as u16) << 8u16) | (b[off + 61] as u16);
    let start = off + 62;
    let j = find_zero(b, start);
    let ghost after = s.skip(62);
    assert(after =~= b@.skip(start as int));
    if j == n {
        return None;
    }
    let pbytes = crate::bytes::sub_bytes(b, start, j);
    assert(pbytes@ =~= after.take(j - start));
    let path = match utf8_string(pbytes.as_slice()) {
        None => {
            return None;
        },
        Some(p) => p,
    };
    let pad = pad_of(pbytes.len());
    let rest = j + 1;
    assert(after.skip(j - start + 1) =~= b@.skip(rest as int));
    if n - rest < pad {
        return None;
    }
    if !zeros_at(b, rest, pad) {
        return None;
    }
    let e = IndexEntry {
        ctime_sec, ctime_nsec, mtime_sec, mtime_nsec, dev, ino, mode, uid, gid, size, hash, flags, path,
    };
    proof {
        let words = Seq::new(10, |i: int| read_be32(s.subrange(4 * i, 4 * i + 4)));
        assert(s.subrange(0, 4) =~= b@.subrange(off + 0, off + 4));
        assert(s.subrange(4, 8) =~= b@.subrange(off + 4, off + 8));
        assert(s.subrange(8, 12) =~= b@.subrange(off + 8, off + 12));
        assert(s.subrange(12, 16) =~= b@.subrange(off + 12, off + 16));
        assert(s.subrange(16, 20) =~= b@.subrange(off + 16, off + 20));
        assert(s.subrange(20, 24) =~= b@.subrange(off + 20, off + 24));
        assert(s.subrange(24, 28) =~= b@.subrange(off + 24, off + 28));
        assert(s.subrange(28, 32) =~= b@.subrange(off + 28, off + 32));
        assert(s.subrange(32, 36) =~= b@.subrange(off + 32, off + 36));
        assert(s.subrange(36, 40) =~= b@.subrange(off + 36, off + 40));
        assert(words =~= entry_view(e).0);
        assert(hash@ =~= s.subrange(40, 60));
        assert(s.subrange(60, 62) =~= b@.subrange(off + 60, off + 62));
        assert(b@.skip(rest as int).skip(pad as int) =~= b@.skip(rest + pad));
    }
    Some((e, rest + pad))
}

/// Reads a binary index file: the entries in file order, or `InvalidData`
/// for a wrong magic or version, a malformed entry, or a checksum that does
/// not match the bytes before it.
pub fn parse_index(b: &[u8]) -> (r: Result<Vec<IndexEntry>, ErrorKind>)
    ensures
        r is Ok <==> decode_index(b@) is Ok,
        r is Ok ==> entries_view(r.unwrap()@) == decode_index(b@).unwrap(),
        r is Err ==> r == Err::<Vec<IndexEntry>, ErrorKind>(ErrorKind::InvalidData) && decode_index(b@) == Err::<Seq<EntryView>, ErrorKind>(ErrorKind::InvalidData),
{
    let n = b.len();
    if n < 12 || b[0] != 68u8 || b[1] != 73u8 || b[2] != 82u8 || b[3] != 67u8 {
        proof {
            if n >= 12 {
                assert(b@.take(4)[0] == b@[0] && b@.take(4)[1] == b@[1] && b@.take(4)[2] == b@[2] && b@.take(4)[3] == b@[3]);
            }
        }
        return Err(ErrorKind::InvalidData);
    }
    assert(b@.take(4) =~= magic());
    if get_be32(b, 4) != 2 {
        return Err(ErrorKind::InvalidData);
    }
    let count = get_be32(b, 8);
    let ghost body = b@.skip(12);
    let mut out: Vec<IndexEntry> = Vec::new();
    let mut off: usize = 12;
    let mut k: u32 = 0;
    while k < count
        invariant
            n == b@.len(),
            12 <= off <= n,
            k <= count,
            body == b@.skip(12),
            n >= 12,
            b@.take(4) == magic(),
            read_be32(b@.subrange(4, 8)) == 2,
            count == read_be32(b@.subrange(8, 12)),
            decode_entries(body, k as nat) == Some((entries_view(out@), b@.skip(off as int))),
        decreases count - k,
    {
        match parse_entry(b, off) {
            None => {
                proof {
                    lemma_entries_fail(body, k as nat, count as nat);
                }
                return Err(ErrorKind::InvalidData);
            },
            Some((e, next)) => {
                let ghost before = out@;
                out.push(e);
                assert(entries_view(out@) =~= entries_view(before).push(entry_view(e)));
                off = next;
            },
        }
        k = k + 1;
    }
    let body_bytes = crate::bytes::sub_bytes(b, 0, off);
    assert(body_bytes@ =~= b@.take(b@.len() - b@.skip(off as int).len()));
    let sum = sha1_digest(body_bytes.as_slice());
    assert(decode_index(b@) == if b@.skip(off as int) == sum@ {
        Ok::<Seq<EntryView>, ErrorKind>(entries_view(out@))
    } else {
        Err::<Seq<EntryView>, ErrorKind>(ErrorKind::InvalidData)
    });
    if n - off != 20 {
        return Err(ErrorKind::InvalidData);
    }
    let mut i: usize = 0;
    while i < 20
        invariant
            n == b@.len(),
            off + 20 == n,
            sum@.len() == 20,
            decode_index(b@) == if b@.skip(off as int) == sum@ {
                Ok::<Seq<EntryView>, ErrorKind>(entries_view(out@))
            } else {
                Err::<Seq<EntryView>, ErrorKind>(ErrorKind::InvalidData)
            },
            i <= 20,
            forall|q: int| 0 <= q < i ==> b@[off + q] == sum@[q],
        decreases 20 - i,
    {
        if b[off + i] != sum[i] {
            assert(b@.skip(off as int)[i as int] != sum@[i as int]);
            return Err(ErrorKind::InvalidData);
        }
        i = i + 1;
    }
    assert(b@.skip(off as int) =~= sum@);
    Ok(out)
}

proof fn lemma_entries_fail(b: Seq<u8>, k: nat, n: nat)
    requires
        k < n,
        decode_entries(b, k) is Some,
        decode_entry(decode_entries(b, k).unwrap().1) is None,
    ensures
        decode_entries(b, n) is None,
    decreases n - k,
{
    if k + 1 < n {
        lemma_entries_fail_stays(b, k + 1, n);
    }
}

proof fn lemma_entries_fail_stays(b: Seq<u8>, k: nat, n: nat)
    requires
        k <= n,
        decode_entries(b, k) is None,
    ensures
        decode_entries(b, n) is None,
    decreases n - k,
{
    if k < n {
        lemma_entries_fail_stays(b, k + 1, n);
    }
}

/// An entry that the file format can hold exactly: ten metadata words, a
/// 20-byte hash, and a path whose bytes hold no NUL.
pub open spec fn entry_fits(e: EntryView) -> bool {
    &&& e.0.len() == 10
    &&& e.1.len() == 20
    &&& forall|i: int| 0 <= i < encode_utf8(e.3).len() ==> #[trigger] encode_utf8(e.3)[i] != 0u8
}

proof fn lemma_words_bytes(w: Seq<u32>)
    ensures
        words_bytes(w).len() == 4 * w.len(),
        forall|i: int| 0 <= i < w.len() ==> #[trigger] words_bytes(w).subrange(4 * i, 4 * i + 4) == be32(w[i]),
    decreases w.len(),
{
    if w.len() > 0 {
        lemma_words_bytes(w.drop_last());
        let p = words_bytes(w.drop_last());
        assert forall|i: int| 0 <= i < w.len() implies #[trigger] words_bytes(w).subrange(4 * i, 4 * i + 4) == be32(w[i]) by {
            if i < w.len() - 1 {
                assert(words_bytes(w).subrange(4 * i, 4 * i + 4) =~= p.subrange(4 * i, 4 * i + 4));
                assert(w.drop_last()[i] == w[i]);
            } else {
                assert(words_bytes(w).subrange(4 * i, 4 * i + 4) =~= be32(w.last()));
            }
        }
    }
}

proof fn lemma_entry_round_trip(e: EntryView, tail: Seq<u8>)
    requires
        entry_fits(e),
    ensures
        decode_entry(entry_bytes(e) + tail) == Some((e, tail)),
{
    let pb = encode_utf8(e.3);
    let pad = pad_len(pb.len());
    let b = entry_bytes(e) + tail;
    lemma_words_bytes(e.0);
    let wb = words_bytes(e.0);
    assert(b.len() >= 62);
    let words = Seq::new(10, |i: int| read_be32(b.subrange(4 * i, 4 * i + 4)));
    assert forall|i: int| 0 <= i < 10 implies words[i] == e.0[i] by {
        assert(b.subrange(4 * i, 4 * i + 4) =~= wb.subrange(4 * i, 4 * i + 4));
        lemma_be32(e.0[i]);
    }
    assert(words =~= e.0);
    assert(b.subrange(40, 60) =~= e.1);
    assert(b.subrange(60, 62) =~= be16(e.2));
    lemma_be16(e.2);
    let after = b.skip(62);
    assert(after =~= pb + seq![0u8] + zeros(pad) + tail);
    assert forall|i: int| 0 <= i < pb.len() implies after[i] != 0u8 by {
        assert(after[i] == pb[i]);
    }
    lemma_first_index(after, 0u8, pb.len() as int);
    assert(after.take(pb.len() as int) =~= pb);
    vstd::utf8::encode_utf8_valid_utf8(e.3);
    vstd::utf8::encode_utf8_decode_utf8(e.3);
    let rest = after.skip(pb.len() as int + 1);
    assert(rest =~= zeros(pad) + tail);
    assert(rest.take(pad as int) =~= zeros(pad));
    assert(rest.skip(pad as int) =~= tail);
}

proof fn lemma_entries_round_trip(es: Seq<EntryView>, tail: Seq<u8>)
    requires
        forall|i: int| 0 <= i < es.len() ==> entry_fits(#[trigger] es[i]),
    ensures
        decode_entries(entries_bytes(es) + tail, es.len()) == Some((es, tail)),
    decreases es.len(),
{
    if es.len() > 0 {
        let d = es.drop_last();
        let t2 = entry_bytes(es.last()) + tail;
        assert forall|i: int| 0 <= i < d.len() implies entry_fits(#[trigger] d[i]) by {
            assert(d[i] == es[i]);
        }
        lemma_entries_round_trip(d, t2);
        assert(entries_bytes(es) + tail =~= entries_bytes(d) + t2);
        assert(entry_fits(es[es.len() - 1]));
        lemma_entry_round_trip(es.last(), tail);
        assert(d.push(es.last()) =~= es);
    } else {
        assert(entries_bytes(es) + tail =~= tail);
    }
}

/// Reading back the bytes of an index file gives the same entries in the
/// same order, field for field, and the checksum it carries verifies.
pub proof fn lemma_index_round_trip(es: Seq<EntryView>)
    requires
        es.len() <= u32::MAX,
        forall|i: int| 0 <= i < es.len() ==> entry_fits(#[trigger] es[i]),
    ensures
        decode_index(index_image(es)) == Ok::<Seq<EntryView>, ErrorKind>(es),
{
    let body = index_body(es);
    let b = index_image(es);
    let sum = sha1_of(body);
    assert(b.take(4) =~= magic());
    assert(b.subrange(4, 8) =~= be32(2));
    lemma_be32(2);
    assert(b.subrange(8, 12) =~= be32(es.len() as u32));
    lemma_be32(es.len() as u32);
    assert(b.skip(12) =~= entries_bytes(es) + sum);
    lemma_entries_round_trip(es, sum);
    assert(b.take(b.len() - sum.len()) =~= body);
}

/// Byte-wise lexicographic order, the order of `String` comparison.
pub open spec fn bytes_lt(a: Seq<u8>, b: Seq<u8>) -> bool
    decreases a.len(),
{
    if a.len() == 0 {
        b.len() > 0
    } else if b.len() == 0 {
        false
    } else if a[0] != b[0] {
        a[0] < b[0]
    } else {
        bytes_lt(a.drop_first(), b.drop_first())
    }
}

pub(crate) proof fn lemma_lt_trichotomy(a: Seq<u8>, b: Seq<u8>)
    ensures
        a == b || bytes_lt(a, b) || bytes_lt(b, a),
        !(bytes_lt(a, b) && bytes_lt(b, a)),
        !bytes_lt(a, a),
    decreases a.len(),
{
    if a.len() > 0 && b.len() > 0 {
        lemma_lt_trichotomy(a.drop_first(), b.drop_first());
        if a[0] == b[0] && a.drop_first() == b.drop_first() {
            assert(a =~= seq![a[0]] + a.drop_first());
            assert(b =~= seq![b[0]] + b.drop_first());
        }
    } else if a.len() > 0 {
        lemma_lt_trichotomy(a.drop_first(), a.drop_first());
    } else if b.len() == 0 {
        assert(a =~= b);
    }
}

pub(crate) proof fn lemma_lt_trans(a: Seq<u8>, b: Seq<u8>, c: Seq<u8>)
    requires
        bytes_lt(a, b),
        bytes_lt(b, c),
    ensures
        bytes_lt(a, c),
    decreases a.len(),
{
    if a.len() > 0 && b.len() > 0 && c.len() > 0 && a[0] == b[0] && b[0] == c[0] {
        lemma_lt_trans(a.drop_first(), b.drop_first(), c.drop_first());
    }
}

/// The bytes of an entry's path.
pub open spec fn path_bytes(e: IndexEntry) -> Seq<u8> {
    encode_utf8(e.path@)
}

/// Paths strictly increase from each entry to the next.
pub open spec fn sorted_by_path(es: Seq<IndexEntry>) -> bool {
    forall|i: int| 0 <= i < es.len() - 1 ==> bytes_lt(path_bytes(#[trigger] es[i]), path_bytes(es[i + 1]))
}

pub(crate) proof fn lemma_sorted_pairwise(es: Seq<IndexEntry>, i: int, j: int)
    requires
        sorted_by_path(es),
        0 <= i < j < es.len(),
    ensures
        bytes_lt(path_bytes(es[i]), path_bytes(es[j])),
    decreases j - i,
{
    if j > i + 1 {
        lemma_sorted_pairwise(es, i, j - 1);
        assert(bytes_lt(path_bytes(es[j - 1]), path_bytes(es[j])));
        lemma_lt_trans(path_bytes(es[i]), path_bytes(es[j - 1]), path_bytes(es[j]));
    }
}

/// `es[k]` is the last entry of `es` with its path.
pub open spec fn last_with_path(es: Seq<IndexEntry>, k: int) -> bool {
    forall|q: int| k < q < es.len() ==> path_bytes(#[trigger] es[q]) != path_bytes(es[k])
}

pub(crate) fn bytes_less(a: &[u8], b: &[u8]) -> (r: bool)
    ensures
        r == bytes_lt(a@, b@),
{
    let mut i: usize = 0;
    assert(a@.skip(0) =~= a@ && b@.skip(0) =~= b@);
    while i < a.len() && i < b.len() && a[i] == b[i]
        invariant
            i <= a@.len(),
            i <= b@.len(),
            bytes_lt(a@, b@) == bytes_lt(a@.skip(i as int), b@.skip(i as int)),
        decreases a@.len() - i,
    {
        assert(a@.skip(i as int).drop_first() =~= a@.skip(i as int + 1));
        assert(b@.skip(i as int).drop_first() =~= b@.skip(i as int + 1));
        i = i + 1;
    }
    if i == a.len() {
        i < b.len()
    } else if i == b.len() {
        false
    } else {
        a[i] < b[i]
    }
}

/// The entries at positions `order`.
pub open spec fn at_positions(es: Seq<IndexEntry>, order: Seq<usize>) -> Seq<IndexEntry> {
    order.map_values(|k: usize| es[k as int])
}

/// Puts position `i` at its place in `out`, replacing a position with the same path.
fn place(entries: &[IndexEntry], out: &mut Vec<usize>, i: usize) -> (r: (usize, bool))
    requires
        i < entries@.len(),
        forall|q: int| 0 <= q < old(out)@.len() ==> (#[trigger] old(out)@[q]) < entries@.len(),
    ensures
        r.0 <= old(out)@.len(),
        forall|q: int| 0 <= q < r.0 ==> bytes_lt(path_bytes(#[trigger] entries@[old(out)@[q] as int]), path_bytes(entries@[i as int])),
        r.1 ==> r.0 < old(out)@.len() && entries@[old(out)@[r.0 as int] as int].path@ == entries@[i as int].path@,
        !r.1 && r.0 < old(out)@.len() ==> bytes_lt(path_bytes(entries@[i as int]), path_bytes(entries@[old(out)@[r.0 as int] as int])),
        r.1 ==> final(out)@ == old(out)@.update(r.0 as int, i),
        !r.1 ==> final(out)@ == old(out)@.insert(r.0 as int, i),
{
    let e = &entries[i];
    let ghost eb = path_bytes(*e);
    let mut j: usize = 0;
    while j < out.len() && bytes_less(entries[out[j]].path.as_str().as_bytes(), e.path.as_str().as_bytes())
        invariant
            j <= out@.len(),
            out@ == old(out)@,
            forall|q: int| 0 <= q < out@.len() ==> (#[trigger] out@[q]) < entries@.len(),
            *e == entries@[i as int],
            eb == path_bytes(*e),
            forall|q: int| 0 <= q < j ==> bytes_lt(path_bytes(#[trigger] entries@[out@[q] as int]), eb),
        decreases out@.len() - j,
    {
        j = j + 1;
    }
    let same = j < out.len() && entries[out[j]].path == e.path;
    proof {
        if j < out@.len() && !same {
            let o = entries@[out@[j as int] as int];
            lemma_lt_trichotomy(path_bytes(o), eb);
            if path_bytes(o) == eb {
                vstd::utf8::encode_utf8_decode_utf8(o.path@);
                vstd::utf8::encode_utf8_decode_utf8(e.path@);
            }
        }
    }
    if same {
        out.set(j, i);
    } else {
        out.insert(j, i);
    }
    (j, same)
}

/// The positions of the entries sorted by path, keeping for each path only
/// the position of its last entry.
pub fn normalize_order(entries: &[IndexEntry]) -> (r: Vec<usize>)
    ensures
        sorted_by_path(at_positions(entries@, r@)),
        forall|j: int| 0 <= j < r@.len() ==> (#[trigger] r@[j]) < entries@.len() && last_with_path(entries@, r@[j] as int),
        all_present(at_positions(entries@, r@), entries@, entries@.len() as int),
{
    let ghost input = entries@;
    let mut out: Vec<usize> = Vec::new();
    let mut i: usize = 0;
    let ghost mut src: Seq<int> = seq![];
    while i < entries.len()
        invariant
            input == entries@,
            i <= input.len(),
            forall|q: int| 0 <= q < out@.len() ==> (#[trigger] out@[q]) < entries@.len(),
            sorted_by_path(at_positions(input, out@)),
            src == out@.map_values(|k: usize| k as int),
            sourced(at_positions(input, out@), src, input, i as int),
            all_present(at_positions(input, out@), input, i as int),
        decreases input.len() - i,
    {
        let ghost before = at_positions(input, out@);
        let ghost bo = out@;
        let (j, same) = place(entries, &mut out, i);
        proof {
            let after = at_positions(input, out@);
            if same {
                assert(after =~= before.update(j as int, input[i as int]));
                assert(out@.map_values(|k: usize| k as int) =~= src.update(j as int, i as int));
            } else {
                assert(after =~= before.insert(j as int, input[i as int]));
                assert(out@.map_values(|k: usize| k as int) =~= src.insert(j as int, i as int));
            }
            assert forall|q: int| 0 <= q < j implies bytes_lt(path_bytes(#[trigger] before[q]), path_bytes(input[i as int])) by {
                assert(before[q] == entries@[bo[q] as int]);
            }
            lemma_insert_sorted(before, after, input[i as int], j as int, same, input, i as int);
            lemma_insert_last(before, after, src, input[i as int], j as int, same, input, i as int);
            lemma_insert_present(before, after, input[i as int], j as int, same, input, i as int);
            src = out@.map_values(|k: usize| k as int);
        }
        i = i + 1;
    }
    proof {
        assert(input.take(i as int) =~= input);
        assert forall|j: int| 0 <= j < out@.len() implies (#[trigger] out@[j]) < entries@.len() && last_with_path(entries@, out@[j] as int) by {
            assert(src[j] == out@[j] as int);
        }
    }
    out
}

#[verifier::rlimit(60)]
proof fn lemma_insert_sorted(
    before: Seq<IndexEntry>,
    after: Seq<IndexEntry>,
    e: IndexEntry,
    j: int,
    same: bool,
    input: Seq<IndexEntry>,
    i: int,
)
    requires
        0 <= i < input.len(),
        e == input[i],
        0 <= j <= before.len(),
        sorted_by_path(before),
        forall|q: int| 0 <= q < j ==> bytes_lt(path_bytes(#[trigger] before[q]), path_bytes(e)),
        same ==> j < before.len() && before[j].path@ == e.path@,
        !same && j < before.len() ==> bytes_lt(path_bytes(e), path_bytes(before[j])),
        same ==> after == before.update(j, e),
        !same ==> after == before.insert(j, e),
    ensures
        sorted_by_path(after),
{
    let eb = path_bytes(e);
    let ni = i + 1;
    let pre = input.take(i);
    let post = input.take(ni);
    assert(post =~= pre.push(e));
    assert forall|q: int| 0 <= q < after.len() - 1 implies bytes_lt(path_bytes(#[trigger] after[q]), path_bytes(after[q + 1])) by {
        if same {
            if q == j - 1 {
            } else if q == j {
                assert(after[q] == e);
                assert(after[q + 1] == before[q + 1]);
                assert(bytes_lt(path_bytes(before[q]), path_bytes(before[q + 1])));
                vstd::utf8::encode_utf8_decode_utf8(before[q].path@);
            } else {
                assert(after[q] == before[q] && after[q + 1] == before[q + 1]);
            }
            if q == j - 1 {
                assert(after[q] == before[q]);
                assert(after[q + 1] == e);
            }
        } else {
            if q < j - 1 {
                assert(after[q] == before[q] && after[q + 1] == before[q + 1]);
            } else if q == j - 1 {
                assert(after[q] == before[q]);
            } else if q == j {
                assert(after[q + 1] == before[q]);
            } else {
                assert(after[q] == before[q - 1] && after[q + 1] == before[q]);
            }
        }
    }
}

/// Every path among the first `i` inputs has an entry among `out`.
pub open spec fn all_present(out: Seq<IndexEntry>, input: Seq<IndexEntry>, i: int) -> bool {
    forall|k: int| #![trigger input[k]] 0 <= k < i ==> exists|jj: int| 0 <= jj < out.len() && path_bytes(#[trigger] out[jj]) == path_bytes(input[k])
}

#[verifier::rlimit(60)]
proof fn lemma_insert_present(
    before: Seq<IndexEntry>,
    after: Seq<IndexEntry>,
    e: IndexEntry,
    j: int,
    same: bool,
    input: Seq<IndexEntry>,
    i: int,
)
    requires
        0 <= i < input.len(),
        e == input[i],
        0 <= j <= before.len(),
        all_present(before, input, i),
        same ==> j < before.len() && before[j].path@ == e.path@,
        same ==> after == before.update(j, e),
        !same ==> after == before.insert(j, e),
    ensures
        all_present(after, input, i + 1),
{
    assert forall|k: int| #![trigger input[k]] 0 <= k < i + 1 implies exists|jj: int| 0 <= jj < after.len() && path_bytes(#[trigger] after[jj]) == path_bytes(input[k]) by {
        if k == i {
            assert(after[j] == e);
            assert(path_bytes(after[j]) == path_bytes(input[k]));
        } else {
            let jj = choose|jj: int| 0 <= jj < before.len() && path_bytes(#[trigger] before[jj]) == path_bytes(input[k]);
            if same {
                if jj == j {
                    assert(after[jj] == e);
                    assert(path_bytes(after[jj]) == path_bytes(before[jj]));
                } else {
                    assert(after[jj] == before[jj]);
                }
            } else if jj < j {
                assert(after[jj] == before[jj]);
            } else {
                assert(after[jj + 1] == before[jj]);
                assert(path_bytes(after[jj + 1]) == path_bytes(input[k]));
            }
        }
    }
}

/// The positions in `input` that the kept entries come from.
pub open spec fn sourced(out: Seq<IndexEntry>, src: Seq<int>, input: Seq<IndexEntry>, i: int) -> bool {
    &&& src.len() == out.len()
    &&& forall|jj: int| 0 <= jj < out.len() ==> 0 <= #[trigger] src[jj] < i && out[jj] == input[src[jj]] && last_with_path(input.take(i), src[jj])
}

#[verifier::rlimit(60)]
proof fn lemma_insert_last(
    before: Seq<IndexEntry>,
    after: Seq<IndexEntry>,
    src: Seq<int>,
    e: IndexEntry,
    j: int,
    same: bool,
    input: Seq<IndexEntry>,
    i: int,
)
    requires
        0 <= i < input.len(),
        e == input[i],
        0 <= j <= before.len(),
        sorted_by_path(before),
        sourced(before, src, input, i),
        forall|q: int| 0 <= q < j ==> bytes_lt(path_bytes(#[trigger] before[q]), path_bytes(e)),
        same ==> j < before.len() && before[j].path@ == e.path@,
        !same && j < before.len() ==> bytes_lt(path_bytes(e), path_bytes(before[j])),
        same ==> after == before.update(j, e),
        !same ==> after == before.insert(j, e),
    ensures
        sourced(after, if same { src.update(j, i) } else { src.insert(j, i) }, input, i + 1),
{
    let eb = path_bytes(e);
    let ni = i + 1;
    let pre = input.take(i);
    let post = input.take(ni);
    let src2 = if same { src.update(j, i) } else { src.insert(j, i) };
    assert(post =~= pre.push(e));
    assert forall|jj: int| 0 <= jj < after.len() implies 0 <= #[trigger] src2[jj] < ni && after[jj] == input[src2[jj]] && last_with_path(post, src2[jj]) by {
        if jj == j {
            assert(src2[jj] == i);
            assert(after[jj] == input[i]);
            assert(last_with_path(post, i));
        } else {
            let bj = if same || jj < j { jj } else { jj - 1 };
            assert(after[jj] == before[bj]);
            assert(src2[jj] == src[bj]);
            let k = src[bj];
            assert(0 <= k < i && before[bj] == input[k] && last_with_path(pre, k));
            if same {
                if bj < j {
                    lemma_sorted_pairwise(before, bj, j);
                } else {
                    lemma_sorted_pairwise(before, j, bj);
                }
                lemma_lt_trichotomy(path_bytes(before[bj]), path_bytes(before[j]));
                assert(path_bytes(before[j]) == eb);
            } else if bj < j {
                lemma_lt_trichotomy(path_bytes(before[bj]), eb);
            } else {
                lemma_sorted_pairwise_or_eq(before, j, bj);
                if bj > j {
                    lemma_lt_trans(eb, path_bytes(before[j]), path_bytes(before[bj]));
                }
                lemma_lt_trichotomy(eb, path_bytes(before[bj]));
            }
            assert(path_bytes(input[i]) != path_bytes(input[k]));
            assert(last_with_path(post, k)) by {
                assert forall|q: int| k < q < post.len() implies path_bytes(#[trigger] post[q]) != path_bytes(post[k]) by {
                    if q < i {
                        assert(post[q] == pre[q]);
                    }
                    assert(post[k] == pre[k]);
                }
            }
        }
    }
    assert(src2.len() == after.len());
}

proof fn lemma_sorted_pairwise_or_eq(es: Seq<IndexEntry>, i: int, j: int)
    requires
        sorted_by_path(es),
        0 <= i <= j < es.len(),
    ensures
        i < j ==> bytes_lt(path_bytes(es[i]), path_bytes(es[j])),
{
    if i < j {
        lemma_sorted_pairwise(es, i, j);
    }
}

/// The bytes of the index file for `entries`: sorted by path, one entry
/// per path (the last given), with the trailing checksum.
pub fn index_file(entries: &[IndexEntry]) -> (r: Vec<u8>)
    ensures
        exists|o: Seq<usize>|
            #![trigger at_positions(entries@, o)]
            sorted_by_path(at_positions(entries@, o))
            && (forall|j: int| 0 <= j < o.len() ==> (#[trigger] o[j]) < entries@.len() && last_with_path(entries@, o[j] as int))
            && all_present(at_positions(entries@, o), entries@, entries@.len() as int)
            && r@ == index_image(entries_view(at_positions(entries@, o)))
            && sha1_of(index_body(entries_view(at_positions(entries@, o)))).len() == 20,
{
    let order = normalize_order(entries);
    let ghost es = entries_view(at_positions(entries@, order@));
    let mut v: Vec<u8> = vec![68u8, 73u8, 82u8, 67u8];
    push_be32(&mut v, 2);
    push_be32(&mut v, order.len() as u32);
    let ghost head = v@;
    let mut i: usize = 0;
    assert(es.take(0) =~= Seq::<EntryView>::empty());
    while i < order.len()
        invariant
            i <= order@.len(),
            forall|j: int| 0 <= j < order@.len() ==> (#[trigger] order@[j]) < entries@.len(),
            es == entries_view(at_positions(entries@, order@)),
            v@ == head + entries_bytes(es.take(i as int)),
        decreases order@.len() - i,
    {
        push_entry(&mut v, &entries[order[i]]);
        proof {
            assert(es.take(i as int + 1).drop_last() =~= es.take(i as int));
            assert(es.take(i as int + 1).last() == entry_view(entries@[order@[i as int] as int]));
        }
        i = i + 1;
        assert(v@ =~= head + entries_bytes(es.take(i as int)));
    }
    assert(es.take(i as int) =~= es);
    assert(v@ =~= index_body(es));
    let sum = sha1_digest(v.as_slice());
    v.extend_from_slice(sum.as_slice());
    v
}

/// The entries without those for path `p`, in order.
pub open spec fn without_path(es: Seq<IndexEntry>, p: Seq<char>) -> Seq<IndexEntry>
    decreases es.len(),
{
    if es.len() == 0 {
        seq![]
    } else {
        let d = without_path(es.drop_last(), p);
        if es.last().path@ == p {
            d
        } else {
            d.push(es.last())
        }
    }
}

proof fn lemma_without_path_concat(a: Seq<IndexEntry>, b: Seq<IndexEntry>, p: Seq<char>)
    ensures
        without_path(a + b, p) == without_path(a, p) + without_path(b, p),
    decreases b.len(),
{
    if b.len() == 0 {
        assert(a + b =~= a);
        assert(without_path(a, p) + without_path(b, p) =~= without_path(a, p));
    } else {
        lemma_without_path_concat(a, b.drop_last(), p);
        assert((a + b).drop_last() =~= a + b.drop_last());
        if b.last().path@ == p {
        } else {
            assert(without_path(a, p) + without_path(b, p) =~= (without_path(a, p) + without_path(b.drop_last(), p)).push(b.last()));
        }
    }
}

/// Stages `entry`: drops any entry with its path and appends it.
pub fn add_or_update(entries: &mut Vec<IndexEntry>, entry: IndexEntry)
    ensures
        final(entries)@ == without_path(old(entries)@, entry.path@).push(entry),
{
    let ghost orig = entries@;
    let mut i: usize = 0;
    let ghost mut k: int = 0;
    while i < entries.len()
        invariant
            0 <= k <= orig.len(),
            i <= entries@.len(),
            entries@.take(i as int) == without_path(orig.take(k), entry.path@),
            entries@.skip(i as int) == orig.skip(k),
        decreases entries@.len() - i,
    {
        let ghost pre = entries@;
        proof {
            assert(pre.skip(i as int).len() > 0);
            assert(orig.skip(k).len() == orig.len() - k);
            assert(k < orig.len());
            assert(orig.take(k + 1).drop_last() =~= orig.take(k));
            assert(pre.skip(i as int)[0] == orig.skip(k)[0]);
            assert(orig.take(k + 1).last() == orig[k]);
        }
        if entries[i].path == entry.path {
            entries.remove(i);
            proof {
                assert(entries@.take(i as int) =~= pre.take(i as int));
                assert(entries@.skip(i as int) =~= pre.skip(i as int + 1));
                assert(orig.skip(k + 1) =~= orig.skip(k).drop_first());
                k = k + 1;
            }
        } else {
            proof {
                assert(entries@.take(i as int + 1) =~= pre.take(i as int).push(pre[i as int]));
                assert(entries@.skip(i as int + 1) =~= pre.skip(i as int).drop_first());
                assert(orig.skip(k + 1) =~= orig.skip(k).drop_first());
                k = k + 1;
            }
            i = i + 1;
        }
    }
    proof {
        assert(orig.skip(k).len() == 0);
        assert(orig.take(k) =~= orig);
        assert(entries@.take(i as int) =~= entries@);
    }
    entries.push(entry);
}

/// ASCII whitespace.
pub open spec fn is_ws(c: u8) -> bool {
    c == 32u8 || c == 9u8 || c == 10u8 || c == 13u8 || c == 11u8 || c == 12u8
}

/// `l` without its leading whitespace.
pub open spec fn skip_ws(l: Seq<u8>) -> Seq<u8>
    decreases l.len(),
{
    if l.len() > 0 && is_ws(l[0]) {
        skip_ws(l.drop_first())
    } else {
        l
    }
}

/// The leading run of non-whitespace bytes of `l`.
pub open spec fn token(l: Seq<u8>) -> Seq<u8>
    decreases l.len(),
{
    if l.len() > 0 && !is_ws(l[0]) {
        seq![l[0]] + token(l.drop_first())
    } else {
        seq![]
    }
}

/// The first two whitespace-separated words of a line of the legacy text
/// index: the hex hash and the path.
pub open spec fn legacy_tokens(l: Seq<u8>) -> Option<(Seq<u8>, Seq<u8>)> {
    let r1 = skip_ws(l);
    let t1 = token(r1);
    let r2 = skip_ws(r1.skip(t1.len() as int));
    let t2 = token(r2);
    if t1.len() > 0 && t2.len() > 0 {
        Some((t1, t2))
    } else {
        None
    }
}

/// A legacy line has two words and its first decodes to a 20-byte hash.
pub open spec fn legacy_line_ok(l: Seq<u8>) -> bool {
    legacy_tokens(l) matches Some((h, _)) && hex_bytes(utf8_lossy(h)) matches Some(v) && v.len() == 20
}

/// A legacy line reads as an entry with this hash and path and no metadata.
pub open spec fn legacy_entry_ok(e: IndexEntry, l: Seq<u8>) -> bool {
    match legacy_tokens(l) {
        None => false,
        Some((h, p)) => {
            &&& hex_bytes(utf8_lossy(h)) == Some(e.hash@)
            &&& e.hash@.len() == 20
            &&& e.path@ == utf8_lossy(p)
            &&& e.mode == 33188
            &&& e.flags == 0
            &&& e.size == 0
        },
    }
}

fn skip_spaces(l: &[u8], pos: usize) -> (r: usize)
    requires
        pos <= l@.len(),
    ensures
        pos <= r <= l@.len(),
        l@.skip(r as int) == skip_ws(l@.skip(pos as int)),
{
    let n = l.len();
    let mut i: usize = pos;
    while i < n && (l[i] == 32u8 || l[i] == 9u8 || l[i] == 10u8 || l[i] == 13u8 || l[i] == 11u8 || l[i] == 12u8)
        invariant
            pos <= i <= n,
            n == l@.len(),
            skip_ws(l@.skip(pos as int)) == skip_ws(l@.skip(i as int)),
        decreases n - i,
    {
        assert(l@.skip(i as int).drop_first() =~= l@.skip(i as int + 1));
        i = i + 1;
    }
    proof {
        if i == n {
            assert(l@.skip(i as int) =~= Seq::<u8>::empty());
        }
    }
    i
}

fn token_end(l: &[u8], pos: usize) -> (r: usize)
    requires
        pos <= l@.len(),
    ensures
        pos <= r <= l@.len(),
        l@.subrange(pos as int, r as int) == token(l@.skip(pos as int)),
{
    let n = l.len();
    let mut i: usize = pos;
    while i < n && !(l[i] == 32u8 || l[i] == 9u8 || l[i] == 10u8 || l[i] == 13u8 || l[i] == 11u8 || l[i] == 12u8)
        invariant
            pos <= i <= n,
            n == l@.len(),
            token(l@.skip(pos as int)) == l@.subrange(pos as int, i as int) + token(l@.skip(i as int)),
        decreases n - i,
    {
        assert(l@.skip(i as int).drop_first() =~= l@.skip(i as int + 1));
        assert(l@.subrange(pos as int, i as int + 1) =~= l@.subrange(pos as int, i as int) + seq![l@[i as int]]);
        i = i + 1;
    }
    proof {
        if i == n {
            assert(l@.skip(i as int) =~= Seq::<u8>::empty());
        }
        assert(l@.subrange(pos as int, i as int) + seq![] =~= l@.subrange(pos as int, i as int));
    }
    i
}

fn legacy_entry(l: &[u8]) -> (r: Option<IndexEntry>)
    ensures
        r.is_some() == legacy_line_ok(l@),
        r.is_some() ==> legacy_entry_ok(r.unwrap(), l@),
{
    let s1 = skip_spaces(l, 0);
    assert(l@.skip(0) =~= l@);
    let e1 = token_end(l, s1);
    let s2 = skip_spaces(l, e1);
    let e2 = token_end(l, s2);
    proof {
        let r1 = skip_ws(l@);
        let t1 = token(r1);
        assert(t1 == l@.subrange(s1 as int, e1 as int));
        assert(r1.skip(t1.len() as int) =~= l@.skip(e1 as int));
    }
    if e1 == s1 || e2 == s2 {
        return None;
    }
    let hb = crate::bytes::sub_bytes(l, s1, e1);
    let pb = crate::bytes::sub_bytes(l, s2, e2);
    let hs = lossy_string(hb.as_slice());
    let hash = match hex_decode(hs.as_str()) {
        Some(h) => h,
        None => {
            return None;
        },
    };
    if hash.len() != 20 {
        return None;
    }
    Some(IndexEntry {
        ctime_sec: 0, ctime_nsec: 0, mtime_sec: 0, mtime_nsec: 0, dev: 0, ino: 0,
        mode: 33188, uid: 0, gid: 0, size: 0, hash, flags: 0,
        path: lossy_string(pb.as_slice()),
    })
}

/// Reads an index file: the binary format when it starts with `DIRC`, else
/// the legacy text format of `<hex hash> <path>` lines.
pub fn read_index(b: &[u8]) -> (r: Result<Vec<IndexEntry>, ErrorKind>)
    ensures
        b@.len() >= 4 && b@.take(4) == magic() ==> (r is Ok <==> decode_index(b@) is Ok),
        b@.len() >= 4 && b@.take(4) == magic() && r is Ok ==> entries_view(r.unwrap()@) == decode_index(b@).unwrap(),
        !(b@.len() >= 4 && b@.take(4) == magic()) ==> (r is Ok <==> forall|i: int| 0 <= i < byte_lines(b@).len() ==> legacy_line_ok(#[trigger] byte_lines(b@)[i])),
        !(b@.len() >= 4 && b@.take(4) == magic()) && r is Ok ==> r.unwrap()@.len() == byte_lines(b@).len()
            && forall|i: int| 0 <= i < r.unwrap()@.len() ==> legacy_entry_ok(#[trigger] r.unwrap()@[i], byte_lines(b@)[i]),
        r is Err ==> r == Err::<Vec<IndexEntry>, ErrorKind>(ErrorKind::InvalidData),
{
    let magic_bytes: Vec<u8> = vec![68u8, 73u8, 82u8, 67u8];
    assert(magic_bytes@ =~= magic());
    if crate::object::has_prefix(b, magic_bytes.as_slice()) {
        return parse_index(b);
    }
    let ls = split_byte_lines(b);
    let mut out: Vec<IndexEntry> = Vec::new();
    let mut i: usize = 0;
    while i < ls.len()
        invariant
            !(b@.len() >= 4 && b@.take(4) == magic()),
            bytes_view(ls@) == byte_lines(b@),
            i <= ls@.len(),
            out@.len() == i,
            forall|k: int| 0 <= k < i ==> legacy_entry_ok(#[trigger] out@[k], byte_lines(b@)[k]),
            forall|k: int| 0 <= k < i ==> legacy_line_ok(#[trigger] byte_lines(b@)[k]),
        decreases ls@.len() - i,
    {
        assert(ls@[i as int]@ == byte_lines(b@)[i as int]);
        match legacy_entry(ls[i].as_slice()) {
            None => {
                return Err(ErrorKind::InvalidData);
            },
            Some(e) => {
                assert(ls@[i as int]@ == byte_lines(b@)[i as int]);
                out.push(e);
            },
        }
        i = i + 1;
    }
    Ok(out)
}

/// No two entries share a path.
pub open spec fn unique_paths(es: Seq<IndexEntry>) -> bool {
    forall|i: int, j: int| 0 <= i < j < es.len() ==> path_bytes(#[trigger] es[i]) != path_bytes(#[trigger] es[j])
}

/// Writing an index of N entries with distinct paths and reading it back
/// gives N entries: the written order picks every entry once, sorted by
/// path, and the bytes read back as exactly those entries, field for field,
/// with a checksum that verifies.
pub proof fn lemma_index_write_read(es: Seq<IndexEntry>, o: Seq<usize>)
    requires
        es.len() <= u32::MAX,
        unique_paths(es),
        forall|i: int| 0 <= i < es.len() ==> entry_fits(entry_view(#[trigger] es[i])),
        sorted_by_path(at_positions(es, o)),
        forall|j: int| 0 <= j < o.len() ==> (#[trigger] o[j]) < es.len(),
        all_present(at_positions(es, o), es, es.len() as int),
    ensures
        o.len() == es.len(),
        sorted_by_path(at_positions(es, o)),
        decode_index(index_image(entries_view(at_positions(es, o)))) == Ok::<Seq<EntryView>, ErrorKind>(
            entries_view(at_positions(es, o)),
        ),
{
    let n = es.len();
    let w = at_positions(es, o);
    let oi = o.map_values(|x: usize| x as int);
    assert forall|a: int, b: int| 0 <= a < oi.len() && 0 <= b < oi.len() && a != b implies oi[a] != oi[b] by {
        let (lo, hi) = if a < b { (a, b) } else { (b, a) };
        lemma_sorted_pairwise(w, lo, hi);
        lemma_lt_trichotomy(path_bytes(w[lo]), path_bytes(w[lo]));
        assert(w[lo] == es[o[lo] as int] && w[hi] == es[o[hi] as int]);
    }
    assert(oi.no_duplicates());
    oi.unique_seq_to_set();
    let r = vstd::set_lib::set_int_range(0, n as int);
    vstd::set_lib::lemma_int_range(0, n as int);
    assert forall|k: int| #[trigger] r.contains(k) implies oi.to_set().contains(k) by {
        assert(0 <= k < n);
        let jj = choose|jj: int| 0 <= jj < w.len() && path_bytes(#[trigger] w[jj]) == path_bytes(es[k]);
        assert(w[jj] == es[o[jj] as int]);
        if (o[jj] as int) < k {
            assert(path_bytes(es[o[jj] as int]) != path_bytes(es[k]));
        } else if (o[jj] as int) > k {
            assert(path_bytes(es[k]) != path_bytes(es[o[jj] as int]));
        }
        assert(oi[jj] == k);
    }
    assert forall|k: int| #[trigger] oi.to_set().contains(k) implies r.contains(k) by {
        let jj = choose|jj: int| 0 <= jj < oi.len() && oi[jj] == k;
    }
    assert(oi.to_set() =~= r);
    assert forall|i: int| 0 <= i < entries_view(w).len() implies entry_fits(#[trigger] entries_view(w)[i]) by {
        assert(w[i] == es[o[i] as int]);
    }
    lemma_index_round_trip(entries_view(w));
}

} // verus!
