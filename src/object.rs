use vstd::prelude::*;
use crate::error::ErrorKind;

verus! {

/// The three kinds of stored object.
#[derive(Debug, Clone, Copy, PartialEq, Eq, Structural)]
pub enum ObjectKind {
    Blob,
    Tree,
    Commit,
}

/// The ASCII name of a kind.
pub open spec fn kind_tag(k: ObjectKind) -> Seq<u8> {
    match k {
        ObjectKind::Blob => seq![98u8, 108u8, 111u8, 98u8],
        ObjectKind::Tree => seq![116u8, 114u8, 101u8, 101u8],
        ObjectKind::Commit => seq![99u8, 111u8, 109u8, 109u8, 105u8, 116u8],
    }
}

/// ASCII decimal digits of `n`.
pub open spec fn decimal_bytes(n: nat) -> Seq<u8>
    decreases n,
{
    if n < 10 {
        seq![(48 + n) as u8]
    } else {
        decimal_bytes(n / 10).push((48 + n % 10) as u8)
    }
}

/// The header `<kind> <length>` of an object frame, without its NUL.
pub open spec fn header_spec(k: ObjectKind, len: nat) -> Seq<u8> {
    kind_tag(k) + seq![32u8] + decimal_bytes(len)
}

/// The framed bytes `<kind> <length>\0<payload>` whose hash names an object.
pub open spec fn frame_spec(k: ObjectKind, payload: Seq<u8>) -> Seq<u8> {
    header_spec(k, payload.len()) + seq![0u8] + payload
}

/// `i` is the position of the first NUL byte of `b`.
pub open spec fn first_nul(b: Seq<u8>, i: int) -> bool {
    0 <= i < b.len() && b[i] == 0 && forall|j: int| 0 <= j < i ==> b[j] != 0
}

/// The bytes after the first NUL of a frame, or `None` when it has no NUL.
pub open spec fn payload_of(f: Seq<u8>) -> Option<Seq<u8>> {
    if exists|i: int| first_nul(f, i) {
        Some(f.skip((choose|i: int| first_nul(f, i)) + 1))
    } else {
        None
    }
}

/// The kind that a header names by its first word.
pub open spec fn kind_of_header(h: Seq<u8>) -> Option<ObjectKind> {
    if h.len() >= 5 && h.take(5) == kind_tag(ObjectKind::Blob) + seq![32u8] {
        Some(ObjectKind::Blob)
    } else if h.len() >= 5 && h.take(5) == kind_tag(ObjectKind::Tree) + seq![32u8] {
        Some(ObjectKind::Tree)
    } else if h.len() >= 7 && h.take(7) == kind_tag(ObjectKind::Commit) + seq![32u8] {
        Some(ObjectKind::Commit)
    } else {
        None
    }
}

/// The kind of a frame, from the header before its first NUL.
pub open spec fn kind_of(f: Seq<u8>) -> Option<ObjectKind> {
    if exists|i: int| first_nul(f, i) {
        kind_of_header(f.take(choose|i: int| first_nul(f, i)))
    } else {
        None
    }
}

pub proof fn lemma_first_nul_unique(b: Seq<u8>, i: int, j: int)
    requires
        first_nul(b, i),
        first_nul(b, j),
    ensures
        i == j,
{
}

proof fn lemma_decimal_bytes_digits(n: nat)
    ensures
        forall|i: int| 0 <= i < decimal_bytes(n).len() ==> 48 <= #[trigger] decimal_bytes(n)[i] <= 57,
    decreases n,
{
    if n >= 10 {
        lemma_decimal_bytes_digits(n / 10);
        assert(n % 10 < 10);
        assert(decimal_bytes(n) == decimal_bytes(n / 10).push((48 + n % 10) as u8));
    }
}

/// The frame of an object has its first NUL right after the header, so its
/// payload and kind read back unchanged.
pub proof fn lemma_frame_parses(k: ObjectKind, payload: Seq<u8>)
    ensures
        payload_of(frame_spec(k, payload)) == Some(payload),
        kind_of(frame_spec(k, payload)) == Some(k),
{
    let f = frame_spec(k, payload);
    let h = header_spec(k, payload.len());
    lemma_decimal_bytes_digits(payload.len());
    assert forall|j: int| 0 <= j < h.len() implies f[j] != 0 by {
        if j >= kind_tag(k).len() + 1 {
            assert(h[j] == decimal_bytes(payload.len())[j - kind_tag(k).len() - 1]);
        }
    }
    assert(first_nul(f, h.len() as int));
    let c = choose|i: int| first_nul(f, i);
    lemma_first_nul_unique(f, c, h.len() as int);
    assert(f.skip(h.len() as int + 1) =~= payload);
    assert(f.take(h.len() as int) =~= h);
    assert(decimal_bytes(payload.len()).len() >= 1);
    assert(exists|i: int| first_nul(f, i));
    assert(kind_of(f) == kind_of_header(f.take(c)));
    let t5 = h.take(5);
    match k {
        ObjectKind::Blob => {
            assert(t5 =~= kind_tag(ObjectKind::Blob) + seq![32u8]);
            assert(h.len() >= 5);
            assert(kind_of_header(h) == Some(ObjectKind::Blob));
            assert(f.take(c) == h);
        },
        ObjectKind::Tree => {
            assert(t5 =~= kind_tag(ObjectKind::Tree) + seq![32u8]);
            assert(t5[0] == 116u8);
            assert((kind_tag(ObjectKind::Blob) + seq![32u8])[0] == 98u8);
            assert(kind_of_header(h) == Some(ObjectKind::Tree));
        },
        ObjectKind::Commit => {
            assert(t5[0] == 99u8);
            assert((kind_tag(ObjectKind::Blob) + seq![32u8])[0] == 98u8);
            assert((kind_tag(ObjectKind::Tree) + seq![32u8])[0] == 116u8);
            assert(h.take(7) =~= kind_tag(ObjectKind::Commit) + seq![32u8]);
            assert(h.len() >= 7);
            assert(kind_of_header(h) == Some(ObjectKind::Commit));
        },
    }
}

fn kind_tag_bytes(k: ObjectKind) -> (r: Vec<u8>)
    ensures
        r@ == kind_tag(k),
{
    let r = match k {
        ObjectKind::Blob => vec![98u8, 108u8, 111u8, 98u8],
        ObjectKind::Tree => vec![116u8, 114u8, 101u8, 101u8],
        ObjectKind::Commit => vec![99u8, 111u8, 109u8, 109u8, 105u8, 116u8],
    };
    assert(r@ =~= kind_tag(k));
    r
}

/// Appends the ASCII decimal digits of `n`.
pub fn push_decimal_bytes(v: &mut Vec<u8>, n: u64)
    ensures
        final(v)@ == old(v)@ + decimal_bytes(n as nat),
    decreases n,
{
    if n >= 10 {
        push_decimal_bytes(v, n / 10);
    }
    v.push((48 + n % 10) as u8);
    assert(final(v)@ =~= old(v)@ + decimal_bytes(n as nat));
}

/// Frames a payload as `<kind> <length>\0<payload>`.
pub fn frame_object(kind: ObjectKind, payload: &[u8]) -> (r: Vec<u8>)
    ensures
        r@ == frame_spec(kind, payload@),
{
    let mut r = kind_tag_bytes(kind);
    r.push(32u8);
    push_decimal_bytes(&mut r, payload.len() as u64);
    r.push(0u8);
    r.extend_from_slice(payload);
    assert(r@ =~= frame_spec(kind, payload@));
    r
}

/// Position of the first NUL byte, if any.
pub fn find_nul(b: &[u8]) -> (r: Option<usize>)
    ensures
        r.is_some() ==> first_nul(b@, r.unwrap() as int),
        r.is_none() ==> !exists|i: int| first_nul(b@, i),
{
    let mut i: usize = 0;
    while i < b.len()
        invariant
            i <= b@.len(),
            forall|j: int| 0 <= j < i ==> b@[j] != 0,
        decreases b@.len() - i,
    {
        if b[i] == 0 {
            return Some(i);
        }
        i = i + 1;
    }
    None
}

fn slice_from(b: &[u8], start: usize) -> (r: Vec<u8>)
    requires
        start <= b@.len(),
    ensures
        r@ == b@.skip(start as int),
{
    let mut r: Vec<u8> = Vec::new();
    let mut i: usize = start;
    while i < b.len()
        invariant
            start <= i <= b@.len(),
            r@ == b@.subrange(start as int, i as int),
        decreases b@.len() - i,
    {
        r.push(b[i]);
        i = i + 1;
        assert(r@ =~= b@.subrange(start as int, i as int));
    }
    assert(r@ =~= b@.skip(start as int));
    r
}

fn slice_to(b: &[u8], end: usize) -> (r: Vec<u8>)
    requires
        end <= b@.len(),
    ensures
        r@ == b@.take(end as int),
{
    let mut r: Vec<u8> = Vec::new();
    let mut i: usize = 0;
    while i < end
        invariant
            i <= end <= b@.len(),
            r@ == b@.take(i as int),
        decreases end - i,
    {
        r.push(b[i]);
        i = i + 1;
        assert(r@ =~= b@.take(i as int));
    }
    r
}

/// Whether `h` begins with `p`.
pub fn has_prefix(h: &[u8], p: &[u8]) -> (r: bool)
    ensures
        r == (p@.len() <= h@.len() && h@.take(p@.len() as int) == p@),
{
    if p.len() > h.len() {
        return false;
    }
    let mut i: usize = 0;
    while i < p.len()
        invariant
            p@.len() <= h@.len(),
            i <= p@.len(),
            forall|j: int| 0 <= j < i ==> h@[j] == p@[j],
        decreases p@.len() - i,
    {
        if h[i] != p[i] {
            assert(h@.take(p@.len() as int)[i as int] != p@[i as int]);
            return false;
        }
        i = i + 1;
    }
    assert(h@.take(p@.len() as int) =~= p@);
    true
}

/// The payload of a frame: the bytes after its first NUL.
pub fn frame_payload(frame: &[u8]) -> (r: Result<Vec<u8>, ErrorKind>)
    ensures
        r is Ok <==> payload_of(frame@) is Some,
        r is Ok ==> r.unwrap()@ == payload_of(frame@).unwrap(),
        r is Err ==> r == Err::<Vec<u8>, ErrorKind>(ErrorKind::InvalidData),
{
    match find_nul(frame) {
        None => Err(ErrorKind::InvalidData),
        Some(p) => {
            proof {
                assert(first_nul(frame@, p as int));
                let c = choose|i: int| first_nul(frame@, i);
                lemma_first_nul_unique(frame@, c, p as int);
            }
            let n = frame.len();
            assert(p < n);
            Ok(slice_from(frame, p + 1))
        },
    }
}

/// The kind named by a frame's header.
pub fn frame_kind(frame: &[u8]) -> (r: Result<ObjectKind, ErrorKind>)
    ensures
        r is Ok <==> kind_of(frame@) is Some,
        r is Ok ==> r.unwrap() == kind_of(frame@).unwrap(),
        r is Err ==> r == Err::<ObjectKind, ErrorKind>(ErrorKind::InvalidData),
{
    match find_nul(frame) {
        None => Err(ErrorKind::InvalidData),
        Some(p) => {
            proof {
                assert(first_nul(frame@, p as int));
                let c = choose|i: int| first_nul(frame@, i);
                lemma_first_nul_unique(frame@, c, p as int);
            }
            let header = slice_to(frame, p);
            let mut blob = kind_tag_bytes(ObjectKind::Blob);
            blob.push(32u8);
            let mut tree = kind_tag_bytes(ObjectKind::Tree);
            tree.push(32u8);
            let mut commit = kind_tag_bytes(ObjectKind::Commit);
            commit.push(32u8);
            assert(blob@ =~= kind_tag(ObjectKind::Blob) + seq![32u8]);
            assert(tree@ =~= kind_tag(ObjectKind::Tree) + seq![32u8]);
            assert(commit@ =~= kind_tag(ObjectKind::Commit) + seq![32u8]);
            let pb = has_prefix(header.as_slice(), blob.as_slice());
            let pt = has_prefix(header.as_slice(), tree.as_slice());
            let pc = has_prefix(header.as_slice(), commit.as_slice());
            if pb {
                Ok(ObjectKind::Blob)
            } else if pt {
                Ok(ObjectKind::Tree)
            } else if pc {
                Ok(ObjectKind::Commit)
            } else {
                Err(ErrorKind::InvalidData)
            }
        },
    }
}

} // verus!
