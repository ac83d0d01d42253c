use vstd::prelude::*;
use crate::codec::{hash_text, hex_encode, hex_text, lossy_string, sha1_of, utf8_lossy};
use crate::error::ErrorKind;
use crate::object::{frame_kind, frame_payload, frame_spec, has_prefix, kind_of, payload_of, ObjectKind};
use crate::object_store::ObjectStore;
use crate::index::IndexEntry;
use crate::text::push_str;

verus! {

/// One entry of a tree object.
#[derive(Debug, Clone)]
pub struct TreeEntry {
    /// Octal mode text, e.g. `100644` or `40000`.
    pub mode: String,
    pub name: String,
    /// Raw 20-byte hash of the child.
    pub hash: Vec<u8>,
    /// Whether the child is a tree.
    pub is_tree: bool,
}

/// A tree record as bytes: mode, name, hash.
pub type RecordView = (Seq<u8>, Seq<u8>, Seq<u8>);

/// The records of a tree payload read from `b`, in phase 0 (reading the
/// mode into `m`) or phase 1 (reading the name into `n`).
pub open spec fn records_from(b: Seq<u8>, phase: nat, m: Seq<u8>, n: Seq<u8>) -> Option<Seq<RecordView>>
    decreases b.len(),
{
    if b.len() == 0 {
        if phase == 0 && m.len() == 0 {
            Some(seq![])
        } else {
            None
        }
    } else if phase == 0 {
        if b[0] == 32u8 {
            records_from(b.drop_first(), 1, m, seq![])
        } else {
            records_from(b.drop_first(), 0, m.push(b[0]), n)
        }
    } else if b[0] == 0u8 {
        let r = b.drop_first();
        if r.len() < 20 {
            None
        } else {
            match records_from(r.skip(20), 0, seq![], seq![]) {
                None => None,
                Some(rs) => Some(seq![(m, n, r.take(20))] + rs),
            }
        }
    } else {
        records_from(b.drop_first(), 1, m, n.push(b[0]))
    }
}

/// The records of a tree payload: `<mode> <name>\0<20-byte hash>` repeated.
pub open spec fn tree_records(b: Seq<u8>) -> Option<Seq<RecordView>> {
    records_from(b, 0, seq![], seq![])
}

/// A mode naming a subtree begins with `40000` or `040000`.
pub open spec fn is_tree_mode(m: Seq<u8>) -> bool {
    (m.len() >= 5 && m.take(5) == seq![52u8, 48u8, 48u8, 48u8, 48u8])
    || (m.len() >= 6 && m.take(6) == seq![48u8, 52u8, 48u8, 48u8, 48u8, 48u8])
}

/// The entry that a record reads as.
pub open spec fn entry_matches(e: TreeEntry, r: RecordView) -> bool {
    &&& e.mode@ == utf8_lossy(r.0)
    &&& e.name@ == utf8_lossy(r.1)
    &&& e.hash@ == r.2
    &&& e.is_tree == is_tree_mode(r.0)
}

/// The entries match the records one for one.
pub open spec fn entries_match(es: Seq<TreeEntry>, rs: Seq<RecordView>) -> bool {
    es.len() == rs.len() && forall|i: int| 0 <= i < es.len() ==> entry_matches(#[trigger] es[i], rs[i])
}

/// `o` with `acc` in front, when it is there.
pub open spec fn prefixed(acc: Seq<RecordView>, o: Option<Seq<RecordView>>) -> Option<Seq<RecordView>> {
    match o {
        Some(rs) => Some(acc + rs),
        None => None,
    }
}

fn mode_is_tree(m: &Vec<u8>) -> (r: bool)
    ensures
        r == is_tree_mode(m@),
{
    let a: Vec<u8> = vec![52u8, 48u8, 48u8, 48u8, 48u8];
    let b: Vec<u8> = vec![48u8, 52u8, 48u8, 48u8, 48u8, 48u8];
    assert(a@ =~= seq![52u8, 48u8, 48u8, 48u8, 48u8]);
    assert(b@ =~= seq![48u8, 52u8, 48u8, 48u8, 48u8, 48u8]);
    has_prefix(m.as_slice(), a.as_slice()) || has_prefix(m.as_slice(), b.as_slice())
}

/// Reads the records of a tree payload; `None` when one is cut short.
pub fn parse_tree_payload(b: &[u8]) -> (r: Option<Vec<TreeEntry>>)
    ensures
        r.is_some() == tree_records(b@).is_some(),
        r.is_some() ==> entries_match(r.unwrap()@, tree_records(b@).unwrap()),
{
    let n = b.len();
    let mut pos: usize = 0;
    let mut phase: usize = 0;
    let mut m: Vec<u8> = Vec::new();
    let mut nm: Vec<u8> = Vec::new();
    let mut out: Vec<TreeEntry> = Vec::new();
    let ghost mut acc: Seq<RecordView> = seq![];
    assert(b@.skip(0) =~= b@);
    while pos < n
        invariant
            n == b@.len(),
            pos <= n,
            phase <= 1,
            tree_records(b@) == prefixed(acc, records_from(b@.skip(pos as int), phase as nat, m@, nm@)),
            entries_match(out@, acc),
        decreases n - pos,
    {
        let ghost rest = b@.skip(pos as int);
        assert(rest.drop_first() =~= b@.skip(pos as int + 1));
        let c = b[pos];
        if phase == 0 {
            if c == 32u8 {
                phase = 1;
                nm = Vec::new();
            } else {
                m.push(c);
            }
            pos = pos + 1;
        } else if c == 0u8 {
            if n - (pos + 1) < 20 {
                return None;
            }
            let h = crate::bytes::sub_bytes(b, pos + 1, pos + 21);
            let ghost rec: RecordView = (m@, nm@, h@);
            proof {
                let r = rest.drop_first();
                assert(r.take(20) =~= h@);
                assert(r.skip(20) =~= b@.skip(pos as int + 21));
                match records_from(r.skip(20), 0, seq![], seq![]) {
                    Some(rs) => {
                        assert(acc + (seq![rec] + rs) =~= acc.push(rec) + rs);
                    },
                    None => {},
                }
            }
            let e = TreeEntry {
                mode: lossy_string(m.as_slice()),
                name: lossy_string(nm.as_slice()),
                hash: h,
                is_tree: mode_is_tree(&m),
            };
            out.push(e);
            proof {
                acc = acc.push(rec);
            }
            m = Vec::new();
            nm = Vec::new();
            phase = 0;
            pos = pos + 21;
            assert(m@ =~= Seq::<u8>::empty());
            assert(nm@ =~= Seq::<u8>::empty());
        } else {
            nm.push(c);
            pos = pos + 1;
        }
    }
    proof {
        assert(b@.skip(pos as int) =~= Seq::<u8>::empty());
        if phase == 0 && m@.len() == 0 {
            assert(acc + seq![] =~= acc);
        }
    }
    if phase == 0 && m.len() == 0 {
        Some(out)
    } else {
        None
    }
}

/// The entries of a framed tree object; `InvalidData` unless its header
/// names a tree and its records are whole.
pub fn parse_tree_content(data: &[u8]) -> (r: Result<Vec<TreeEntry>, ErrorKind>)
    ensures
        r is Ok <==> (kind_of(data@) == Some(ObjectKind::Tree) && tree_records(payload_of(data@).unwrap()) is Some),
        r is Ok ==> entries_match(r.unwrap()@, tree_records(payload_of(data@).unwrap()).unwrap()),
        r is Err ==> r == Err::<Vec<TreeEntry>, ErrorKind>(ErrorKind::InvalidData),
{
    match frame_kind(data) {
        Ok(ObjectKind::Tree) => {},
        _ => {
            return Err(ErrorKind::InvalidData);
        },
    }
    proof {
        let c = choose|i: int| crate::object::first_nul(data@, i);
        assert(crate::object::first_nul(data@, c));
    }
    let payload = frame_payload(data)?;
    match parse_tree_payload(payload.as_slice()) {
        Some(es) => Ok(es),
        None => Err(ErrorKind::InvalidData),
    }
}

/// The entries of the tree stored under `hash`: `NotFound` when absent,
/// `InvalidData` when it is not a well-formed tree.
pub fn read_tree(store: &ObjectStore, hash: &str) -> (r: Result<Vec<TreeEntry>, ErrorKind>)
    requires
        store.wf(),
    ensures
        !store@.contains_key(hash@) ==> r == Err::<Vec<TreeEntry>, ErrorKind>(ErrorKind::NotFound),
        store@.contains_key(hash@) ==> (r is Ok <==> (kind_of(store@[hash@]) == Some(ObjectKind::Tree)
            && tree_records(payload_of(store@[hash@]).unwrap()) is Some)),
        r is Ok ==> entries_match(r.unwrap()@, tree_records(payload_of(store@[hash@]).unwrap()).unwrap()),
        store@.contains_key(hash@) && r is Err ==> r == Err::<Vec<TreeEntry>, ErrorKind>(ErrorKind::InvalidData),
{
    let frame = store.get(hash)?;
    parse_tree_content(frame.as_slice())
}

/// Every object that `b` holds and `a` lacks is a tree.
pub open spec fn adds_only_trees(a: Map<Seq<char>, Seq<u8>>, b: Map<Seq<char>, Seq<u8>>) -> bool {
    forall|h: Seq<char>| #[trigger] b.contains_key(h) && !a.contains_key(h) ==> kind_of(b[h]) == Some(ObjectKind::Tree)
}

/// The store keeps every object it held, unchanged.
pub open spec fn store_grows(a: Map<Seq<char>, Seq<u8>>, b: Map<Seq<char>, Seq<u8>>) -> bool {
    forall|h: Seq<char>| #[trigger] a.contains_key(h) ==> b.contains_key(h) && b[h] == a[h]
}

fn join_path(prefix: &str, name: &str) -> (r: String)
    ensures
        prefix@.len() == 0 ==> r@ == name@,
        prefix@.len() > 0 ==> r@ == prefix@ + seq!['/'] + name@,
{
    let mut s = String::new();
    if prefix.is_empty() {
        push_str(&mut s, name);
    } else {
        push_str(&mut s, prefix);
        proof { reveal_strlit("/"); }
        push_str(&mut s, "/");
        push_str(&mut s, name);
    }
    s
}

/// `prefix/name`, or `name` at the top.
pub open spec fn join_spec(prefix: Seq<char>, name: Seq<char>) -> Seq<char> {
    if prefix.len() == 0 {
        name
    } else {
        prefix + seq!['/'] + name
    }
}

/// The records of the tree stored under `h`, when it is a whole tree.
pub open spec fn tree_at(m: Map<Seq<char>, Seq<u8>>, h: Seq<char>) -> Option<Seq<RecordView>> {
    if m.contains_key(h) && kind_of(m[h]) == Some(ObjectKind::Tree) {
        tree_records(payload_of(m[h]).unwrap())
    } else {
        None
    }
}

/// The (path, blob hash) pairs below tree `h`, depth first in record order,
/// paths under `prefix`, looking at most `depth` levels down.
pub open spec fn walk(m: Map<Seq<char>, Seq<u8>>, h: Seq<char>, prefix: Seq<char>, depth: nat) -> Result<
    Seq<(Seq<char>, Seq<char>)>,
    ErrorKind,
>
    decreases depth, 0nat,
{
    if depth == 0 {
        Err(ErrorKind::InvalidData)
    } else if !m.contains_key(h) {
        Err(ErrorKind::NotFound)
    } else {
        match tree_at(m, h) {
            None => Err(ErrorKind::InvalidData),
            Some(rs) => walk_records(m, rs, prefix, (depth - 1) as nat),
        }
    }
}

/// The pairs below the records `rs` of one tree, in order.
pub open spec fn walk_records(
    m: Map<Seq<char>, Seq<u8>>,
    rs: Seq<RecordView>,
    prefix: Seq<char>,
    depth: nat,
) -> Result<Seq<(Seq<char>, Seq<char>)>, ErrorKind>
    decreases depth, rs.len(),
{
    if rs.len() == 0 {
        Ok(seq![])
    } else {
        match walk_records(m, rs.drop_last(), prefix, depth) {
            Err(e) => Err(e),
            Ok(acc) => {
                let r = rs.last();
                let p = join_spec(prefix, utf8_lossy(r.1));
                if is_tree_mode(r.0) {
                    match walk(m, hex_text(r.2), p, depth) {
                        Err(e) => Err(e),
                        Ok(sub) => Ok(acc + sub),
                    }
                } else {
                    Ok(acc.push((p, hex_text(r.2))))
                }
            }
        }
    }
}

/// A list of pairs of strings, as values.
pub open spec fn pairs_view(v: Seq<(String, String)>) -> Seq<(Seq<char>, Seq<char>)> {
    v.map_values(|e: (String, String)| (e.0@, e.1@))
}

proof fn lemma_walk_error_stays(
    m: Map<Seq<char>, Seq<u8>>,
    rs: Seq<RecordView>,
    prefix: Seq<char>,
    depth: nat,
    k: int,
)
    requires
        0 <= k <= rs.len(),
        walk_records(m, rs.take(k), prefix, depth) is Err,
    ensures
        walk_records(m, rs, prefix, depth) == walk_records(m, rs.take(k), prefix, depth),
    decreases rs.len() - k,
{
    if k < rs.len() {
        assert(rs.take(k + 1).drop_last() =~= rs.take(k));
        lemma_walk_error_stays(m, rs, prefix, depth, k + 1);
    } else {
        assert(rs.take(k) =~= rs);
    }
}

/// Appends the files below tree `tree_hash` to `files` as (path, blob hash)
/// pairs, depth first, paths under `prefix`; `InvalidData` past `depth`
/// levels of nesting or for an object that is not a whole tree, `NotFound`
/// for a missing one.
pub fn collect_tree_files(
    store: &ObjectStore,
    tree_hash: &str,
    prefix: &str,
    files: &mut Vec<(String, String)>,
    depth: usize,
) -> (r: Result<(), ErrorKind>)
    requires
        store.wf(),
    ensures
        r is Ok <==> walk(store@, tree_hash@, prefix@, depth as nat) is Ok,
        r is Ok ==> pairs_view(final(files)@) == pairs_view(old(files)@) + walk(store@, tree_hash@, prefix@, depth as nat).unwrap(),
        r is Err ==> walk(store@, tree_hash@, prefix@, depth as nat) == Err::<Seq<(Seq<char>, Seq<char>)>, ErrorKind>(r->Err_0),
    decreases depth,
{
    if depth == 0 {
        return Err(ErrorKind::InvalidData);
    }
    let entries = read_tree(store, tree_hash)?;
    let ghost rs = tree_at(store@, tree_hash@).unwrap();
    let ghost start = pairs_view(files@);
    let ghost d = (depth - 1) as nat;
    let mut i: usize = 0;
    assert(rs.take(0) =~= Seq::<RecordView>::empty());
    assert(pairs_view(files@) =~= start + Seq::<(Seq<char>, Seq<char>)>::empty());
    while i < entries.len()
        invariant
            store.wf(),
            depth > 0,
            d == depth - 1,
            entries_match(entries@, rs),
            walk(store@, tree_hash@, prefix@, depth as nat) == walk_records(store@, rs, prefix@, d),
            i <= entries@.len(),
            walk_records(store@, rs.take(i as int), prefix@, d) is Ok,
            pairs_view(files@) == start + walk_records(store@, rs.take(i as int), prefix@, d).unwrap(),
        decreases entries@.len() - i,
    {
        let e = &entries[i];
        let ghost rec = rs[i as int];
        proof {
            assert(entry_matches(entries@[i as int], rec));
            assert(rs.take(i as int + 1).drop_last() =~= rs.take(i as int));
            assert(rs.take(i as int + 1).last() == rec);
        }
        let path = join_path(prefix, e.name.as_str());
        let hex = hex_encode(e.hash.as_slice());
        assert(path@ == join_spec(prefix@, utf8_lossy(rec.1)));
        if e.is_tree {
            let r = collect_tree_files(store, hex.as_str(), path.as_str(), files, depth - 1);
            match r {
                Err(err) => {
                    proof {
                        lemma_walk_error_stays(store@, rs, prefix@, d, i as int + 1);
                    }
                    return Err(err);
                },
                Ok(()) => {
                    assert(pairs_view(files@) =~= start + walk_records(store@, rs.take(i as int + 1), prefix@, d).unwrap());
                },
            }
        } else {
            let ghost before = files@;
            files.push((path, hex));
            assert(pairs_view(files@) =~= pairs_view(before).push((path@, hex@)));
            assert(pairs_view(files@) =~= start + walk_records(store@, rs.take(i as int + 1), prefix@, d).unwrap());
        }
        i = i + 1;
    }
    assert(rs.take(i as int) =~= rs);
    Ok(())
}

/// Levels a commit's tree walk may descend: one more than the number of objects.
pub open spec fn walk_depth(m: Map<Seq<char>, Seq<u8>>) -> nat {
    if m.dom().len() < usize::MAX {
        m.dom().len() + 1
    } else {
        m.dom().len()
    }
}

/// The tree hash that a stored commit records.
pub open spec fn commit_tree(m: Map<Seq<char>, Seq<u8>>, h: Seq<char>) -> Seq<char> {
    crate::commit::opt_lossy(crate::commit::last_field(crate::commit::commit_header(payload_of(m[h]).unwrap()), crate::commit::tree_tag()))
}

/// The files of the tree that commit `commit_hash` records, as (path, blob
/// hash) pairs, walking at most as many levels as the store has objects.
pub fn get_commit_files(store: &ObjectStore, commit_hash: &str) -> (r: Result<Vec<(String, String)>, ErrorKind>)
    requires
        store.wf(),
    ensures
        !store@.contains_key(commit_hash@) ==> r == Err::<Vec<(String, String)>, ErrorKind>(ErrorKind::NotFound),
        store@.contains_key(commit_hash@) && !(kind_of(store@[commit_hash@]) == Some(ObjectKind::Commit)
            && crate::commit::persons_ok(crate::commit::commit_header(payload_of(store@[commit_hash@]).unwrap())))
            ==> r == Err::<Vec<(String, String)>, ErrorKind>(ErrorKind::InvalidData),
        store@.contains_key(commit_hash@) && kind_of(store@[commit_hash@]) == Some(ObjectKind::Commit)
            && crate::commit::persons_ok(crate::commit::commit_header(payload_of(store@[commit_hash@]).unwrap())) ==> (
            match walk(store@, commit_tree(store@, commit_hash@), seq![], walk_depth(store@)) {
                Ok(files) => r is Ok && pairs_view(r.unwrap()@) == files,
                Err(e) => r == Err::<Vec<(String, String)>, ErrorKind>(e),
            }),
{
    let frame = store.get(commit_hash)?;
    let commit = crate::commit::parse_commit(frame.as_slice())?;
    let mut files: Vec<(String, String)> = Vec::new();
    let n = store.len();
    let depth = if n < usize::MAX { n + 1 } else { n };
    assert(depth as nat == walk_depth(store@));
    assert(commit.tree@ == commit_tree(store@, commit_hash@));
    proof {
        reveal_strlit("");
        assert(""@ =~= Seq::<char>::empty());
        assert(pairs_view(files@) =~= Seq::<(Seq<char>, Seq<char>)>::empty());
    }
    collect_tree_files(store, commit.tree.as_str(), "", &mut files, depth)?;
    assert(pairs_view(files@) =~= walk(store@, commit.tree@, seq![], depth as nat).unwrap());
    Ok(files)
}

/// Octal digits of `n`.
pub open spec fn octal_bytes(n: nat) -> Seq<u8>
    decreases n,
{
    if n < 8 {
        seq![(48 + n) as u8]
    } else {
        octal_bytes(n / 8).push((48 + n % 8) as u8)
    }
}

fn push_octal(v: &mut Vec<u8>, n: u32)
    ensures
        final(v)@ == old(v)@ + octal_bytes(n as nat),
    decreases n,
{
    if n >= 8 {
        push_octal(v, n / 8);
    }
    v.push((48 + n % 8) as u8);
    assert(final(v)@ =~= old(v)@ + octal_bytes(n as nat));
}

/// One entry of a tree being written: name, mode, raw hash, and whether it is a subtree.
type LevelEntry = (Vec<u8>, u32, Vec<u8>, bool);

/// A tree entry being written, as values.
pub type LevelView = (Seq<u8>, u32, Seq<u8>, bool);

/// An item to place in a tree: path below this level, mode, raw hash.
pub type ItemView = (Seq<u8>, u32, Seq<u8>);

pub open spec fn level_view(v: Seq<LevelEntry>) -> Seq<LevelView> {
    v.map_values(|e: LevelEntry| (e.0@, e.1, e.2@, e.3))
}

pub open spec fn items_view(v: Seq<(Vec<u8>, u32, Vec<u8>)>) -> Seq<ItemView> {
    v.map_values(|e: (Vec<u8>, u32, Vec<u8>)| (e.0@, e.1, e.2@))
}

/// Tree order: by name, a subtree before a file of the same name.
pub open spec fn before_spec(a: LevelView, b: LevelView) -> bool {
    crate::index::bytes_lt(a.0, b.0) || (a.0 == b.0 && a.3 && !b.3)
}

/// `e` put into `s` before the first entry it goes before.
pub open spec fn ins(s: Seq<LevelView>, e: LevelView) -> Seq<LevelView>
    decreases s.len(),
{
    if s.len() == 0 {
        seq![e]
    } else if before_spec(e, s[0]) {
        seq![e] + s
    } else {
        seq![s[0]] + ins(s.drop_first(), e)
    }
}

/// The first `m` entries of `es` put in tree order one by one.
pub open spec fn sort_upto(es: Seq<LevelView>, m: nat) -> Seq<LevelView>
    decreases m,
{
    if m == 0 || m > es.len() {
        seq![]
    } else {
        ins(sort_upto(es, (m - 1) as nat), es[m - 1])
    }
}

/// The records `<octal mode> <name>\0<hash>` of `es`, in order.
pub open spec fn entries_payload(es: Seq<LevelView>) -> Seq<u8>
    decreases es.len(),
{
    if es.len() == 0 {
        seq![]
    } else {
        entries_payload(es.drop_last()) + octal_bytes(es.last().1 as nat) + seq![32u8] + es.last().0 + seq![0u8]
            + es.last().2
    }
}

/// `p` begins with `d`.
pub open spec fn starts_with(p: Seq<u8>, d: Seq<u8>) -> bool {
    d.len() <= p.len() && p.take(d.len() as int) == d
}

/// How many items from `i` on begin with `dir`.
pub open spec fn run_len(items: Seq<ItemView>, i: int, dir: Seq<u8>) -> nat
    decreases items.len() - i,
{
    if 0 <= i < items.len() && starts_with(items[i].0, dir) {
        1 + run_len(items, i + 1, dir)
    } else {
        0
    }
}

/// The `n` items from `i` on with their first `k + 1` path bytes dropped.
pub open spec fn sub_items(items: Seq<ItemView>, i: int, n: nat, k: int) -> Seq<ItemView> {
    Seq::new(n, |t: int| (items[i + t].0.skip(k + 1), items[i + t].1, items[i + t].2))
}

/// The entries of one tree level for the items from `i` on: a file for each
/// path without `/`, a subtree for each run of paths under one directory.
pub open spec fn level_from(items: Seq<ItemView>, i: int, depth: nat) -> Option<Seq<LevelView>>
    decreases depth, items.len() - i,
{
    if i < 0 || i >= items.len() {
        Some(seq![])
    } else {
        let p = items[i].0;
        let k = crate::index::first_index_of(p, 47u8);
        if k < 0 {
            match level_from(items, i + 1, depth) {
                Some(rest) => Some(seq![(p, items[i].1, items[i].2, false)] + rest),
                None => None,
            }
        } else {
            let n = run_len(items, i, p.take(k + 1));
            let n1: nat = if n == 0 { 1 } else { n };
            if depth == 0 {
                None
            } else {
                match tree_payload(sub_items(items, i, n, k), (depth - 1) as nat) {
                    None => None,
                    Some(pl) => match level_from(items, if i + n1 <= items.len() { i + n1 } else { items.len() as int }, depth) {
                        None => None,
                        Some(rest) => Some(seq![(p.take(k), 16384u32, sha1_of(frame_spec(ObjectKind::Tree, pl)), true)] + rest),
                    },
                }
            }
        }
    }
}

/// The payload of the tree for `items`, or `None` past `depth` levels.
pub open spec fn tree_payload(items: Seq<ItemView>, depth: nat) -> Option<Seq<u8>>
    decreases depth, items.len() + 1,
{
    if depth == 0 {
        None
    } else {
        match level_from(items, 0, depth) {
            None => None,
            Some(es) => Some(entries_payload(sort_upto(es, es.len()))),
        }
    }
}

/// `o` with `acc` in front, when it is there.
pub open spec fn level_prefixed(acc: Seq<LevelView>, o: Option<Seq<LevelView>>) -> Option<Seq<LevelView>> {
    match o {
        Some(rs) => Some(acc + rs),
        None => None,
    }
}

fn entry_before(a: &LevelEntry, b: &LevelEntry) -> (r: bool)
    ensures
        r == before_spec((a.0@, a.1, a.2@, a.3), (b.0@, b.1, b.2@, b.3)),
{
    if crate::index::bytes_less(a.0.as_slice(), b.0.as_slice()) {
        true
    } else if crate::index::bytes_less(b.0.as_slice(), a.0.as_slice()) {
        proof {
            crate::index::lemma_lt_trichotomy(a.0@, b.0@);
        }
        false
    } else {
        proof {
            crate::index::lemma_lt_trichotomy(a.0@, b.0@);
        }
        a.3 && !b.3
    }
}

fn find_slash(p: &Vec<u8>) -> (r: Option<usize>)
    ensures
        r.is_some() == (crate::index::first_index_of(p@, 47u8) >= 0),
        r.is_some() ==> r.unwrap() as int == crate::index::first_index_of(p@, 47u8) && r.unwrap() < p@.len(),
{
    let mut i: usize = 0;
    while i < p.len()
        invariant
            i <= p@.len(),
            forall|j: int| 0 <= j < i ==> p@[j] != 47u8,
        decreases p@.len() - i,
    {
        if p[i] == 47u8 {
            proof {
                crate::index::lemma_first_index(p@, 47u8, i as int);
            }
            return Some(i);
        }
        i = i + 1;
    }
    proof {
        crate::index::lemma_first_index(p@, 47u8, i as int);
    }
    None
}

proof fn lemma_ins_at(s: Seq<LevelView>, e: LevelView, j: int)
    requires
        0 <= j <= s.len(),
        forall|q: int| 0 <= q < j ==> !before_spec(e, #[trigger] s[q]),
        j == s.len() || before_spec(e, s[j]),
    ensures
        ins(s, e) == s.insert(j, e),
    decreases s.len(),
{
    if s.len() == 0 {
        assert(s.insert(j, e) =~= seq![e]);
    } else if j == 0 {
        assert(s.insert(0, e) =~= seq![e] + s);
    } else {
        let d = s.drop_first();
        assert forall|q: int| 0 <= q < j - 1 implies !before_spec(e, #[trigger] d[q]) by {
            assert(d[q] == s[q + 1]);
        }
        if j < s.len() {
            assert(d[j - 1] == s[j]);
        }
        lemma_ins_at(d, e, j - 1);
        assert(seq![s[0]] + d.insert(j - 1, e) =~= s.insert(j, e));
    }
}

fn copy_vec(b: &Vec<u8>) -> (r: Vec<u8>)
    ensures
        r@ == b@,
{
    crate::bytes::sub_bytes(b.as_slice(), 0, b.len())
}

/// Writes the tree for `items` (paths relative to this level, with mode and
/// raw hash, sorted by path) and its subtrees, children before parents, and
/// returns its hex and raw hash.
fn write_level(store: &mut ObjectStore, items: &Vec<(Vec<u8>, u32, Vec<u8>)>, depth: usize) -> (r: Result<(String, Vec<u8>), ErrorKind>)
    requires
        old(store).wf(),
    ensures
        final(store).wf(),
        store_grows(old(store)@, final(store)@),
        adds_only_trees(old(store)@, final(store)@),
        r is Ok <==> tree_payload(items_view(items@), depth as nat) is Some,
        r is Ok ==> r.unwrap().0@ == hash_text(frame_spec(ObjectKind::Tree, tree_payload(items_view(items@), depth as nat).unwrap())),
        r is Ok ==> r.unwrap().1@ == sha1_of(frame_spec(ObjectKind::Tree, tree_payload(items_view(items@), depth as nat).unwrap())),
        r is Ok ==> final(store)@.contains_key(r.unwrap().0@),
        r is Err ==> r == Err::<(String, Vec<u8>), ErrorKind>(ErrorKind::InvalidData),
    decreases depth,
{
    let ghost iv = items_view(items@);
    if depth == 0 {
        return Err(ErrorKind::InvalidData);
    }
    let mut level: Vec<LevelEntry> = Vec::new();
    let mut i: usize = 0;
    assert(level_view(level@) + level_from(iv, 0, depth as nat).unwrap_or(seq![]) =~= level_from(iv, 0, depth as nat).unwrap_or(seq![]));
    while i < items.len()
        invariant
            store.wf(),
            store_grows(old(store)@, store@),
            adds_only_trees(old(store)@, store@),
            depth > 0,
            iv == items_view(items@),
            i <= items@.len(),
            level_from(iv, 0, depth as nat) == level_prefixed(level_view(level@), level_from(iv, i as int, depth as nat)),
        decreases items@.len() - i,
    {
        let p = &items[i].0;
        assert(iv[i as int] == (p@, items@[i as int].1, items@[i as int].2@));
        let ghost lv0 = level_view(level@);
        match find_slash(p) {
            None => {
                let e: LevelEntry = (copy_vec(p), items[i].1, copy_vec(&items[i].2), false);
                level.push(e);
                proof {
                    assert(level_view(level@) =~= lv0.push((p@, iv[i as int].1, iv[i as int].2, false)));
                    match level_from(iv, i + 1, depth as nat) {
                        Some(rest) => {
                            assert(lv0 + (seq![(p@, iv[i as int].1, iv[i as int].2, false)] + rest) =~= level_view(level@) + rest);
                        },
                        None => {},
                    }
                }
                i = i + 1;
            },
            Some(k) => {
                let plen = p.len();
                let dir = crate::bytes::sub_bytes(p.as_slice(), 0, k + 1);
                assert(dir@ =~= p@.take(k + 1));
                let mut sub: Vec<(Vec<u8>, u32, Vec<u8>)> = Vec::new();
                let mut j: usize = i;
                while j < items.len() && has_prefix(items[j].0.as_slice(), dir.as_slice())
                    invariant
                        iv == items_view(items@),
                        i < items@.len(),
                        i <= j <= items@.len(),
                        dir@.len() == k + 1,
                        dir@ == iv[i as int].0.take(k + 1),
                        k < usize::MAX,
                        run_len(iv, i as int, dir@) == (j - i) + run_len(iv, j as int, dir@),
                        items_view(sub@) == sub_items(iv, i as int, (j - i) as nat, k as int),
                    decreases items@.len() - j,
                {
                    let q = &items[j].0;
                    assert(iv[j as int].0 == q@);
                    let s0 = crate::bytes::sub_bytes(q.as_slice(), k + 1, q.len());
                    let ghost sv0 = items_view(sub@);
                    let hc = copy_vec(&items[j].2);
                    let mj = items[j].1;
                    sub.push((s0, mj, hc));
                    proof {
                        assert(s0@ =~= q@.skip(k + 1));
                        assert(iv[j as int] == (q@, mj, hc@));
                        assert(items_view(sub@) =~= sv0.push((s0@, mj, hc@)));
                        assert(items_view(sub@) =~= sub_items(iv, i as int, (j + 1 - i) as nat, k as int));
                    }
                    j = j + 1;
                }
                proof {
                    assert(starts_with(iv[i as int].0, dir@)) by {
                        assert(iv[i as int].0.take(dir@.len() as int) =~= dir@);
                    }
                    if j < items@.len() {
                        assert(!starts_with(iv[j as int].0, dir@));
                    }
                    assert(run_len(iv, j as int, dir@) == 0);
                }
                if j == i {
                    return Err(ErrorKind::InvalidData);
                }
                let (_h, raw) = match write_level(store, &sub, depth - 1) {
                    Ok(v) => v,
                    Err(e) => {
                        return Err(e);
                    },
                };
                let name = crate::bytes::sub_bytes(p.as_slice(), 0, k);
                level.push((name, 16384u32, raw, true));
                proof {
                    let n = (j - i) as nat;
                    let pl = tree_payload(sub_items(iv, i as int, n, k as int), (depth - 1) as nat).unwrap();
                    let ent = (p@.take(k as int), 16384u32, sha1_of(frame_spec(ObjectKind::Tree, pl)), true);
                    assert(name@ =~= p@.take(k as int));
                    assert(level_view(level@) =~= lv0.push(ent));
                    match level_from(iv, j as int, depth as nat) {
                        Some(rest) => {
                            assert(lv0 + (seq![ent] + rest) =~= level_view(level@) + rest);
                        },
                        None => {},
                    }
                }
                i = j;
            },
        }
    }
    let ghost lv = level_view(level@);
    proof {
        assert(lv + seq![] =~= lv);
    }
    let mut sorted: Vec<LevelEntry> = Vec::new();
    let mut t: usize = 0;
    let n0 = level.len();
    assert(lv.skip(0) =~= lv);
    while level.len() > 0
        invariant
            lv.len() == n0,
            t + level@.len() == lv.len(),
            level_view(level@) == lv.skip(t as int),
            level_view(sorted@) == sort_upto(lv, t as nat),
        decreases level@.len(),
    {
        let ghost l0 = level@;
        let e = level.remove(0);
        let ghost ev = (e.0@, e.1, e.2@, e.3);
        assert(e == l0[0]);
        assert(level_view(l0)[0] == lv.skip(t as int)[0]);
        assert(ev == lv[t as int]);
        assert(level@ =~= l0.drop_first());
        assert(level_view(level@) =~= level_view(l0).drop_first());
        assert(lv.skip(t as int).drop_first() =~= lv.skip(t as int + 1));
        assert(level_view(level@) =~= lv.skip(t as int + 1));
        let mut j: usize = 0;
        while j < sorted.len() && !entry_before(&e, &sorted[j])
            invariant
                j <= sorted@.len(),
                ev == (e.0@, e.1, e.2@, e.3),
                forall|q: int| 0 <= q < j ==> !before_spec(ev, #[trigger] level_view(sorted@)[q]),
            decreases sorted@.len() - j,
        {
            j = j + 1;
        }
        let ghost sv = level_view(sorted@);
        proof {
            lemma_ins_at(sv, ev, j as int);
        }
        sorted.insert(j, e);
        proof {
            assert(level_view(sorted@) =~= sv.insert(j as int, ev));
        }
        t = t + 1;
    }
    let ghost sl = level_view(sorted@);
    let mut payload: Vec<u8> = Vec::new();
    let mut k: usize = 0;
    while k < sorted.len()
        invariant
            k <= sorted@.len(),
            sl == level_view(sorted@),
            payload@ == entries_payload(sl.take(k as int)),
        decreases sorted@.len() - k,
    {
        push_octal(&mut payload, sorted[k].1);
        payload.push(32u8);
        payload.extend_from_slice(sorted[k].0.as_slice());
        payload.push(0u8);
        payload.extend_from_slice(sorted[k].2.as_slice());
        proof {
            assert(sl.take(k as int + 1).drop_last() =~= sl.take(k as int));
            assert(payload@ =~= entries_payload(sl.take(k as int + 1)));
        }
        k = k + 1;
    }
    proof {
        assert(sl.take(k as int) =~= sl);
        assert(t == lv.len());
    }
    let ghost s1 = store@;
    let h = store.put(ObjectKind::Tree, payload.as_slice());
    let frame = crate::object::frame_object(ObjectKind::Tree, payload.as_slice());
    let raw = crate::codec::sha1_digest(frame.as_slice());
    proof {
        crate::object::lemma_frame_parses(ObjectKind::Tree, payload@);
        assert forall|key: Seq<char>| #[trigger] store@.contains_key(key) && !old(store)@.contains_key(key) implies kind_of(store@[key]) == Some(ObjectKind::Tree) by {
            if s1.contains_key(key) {
                assert(store@[key] == s1[key]);
            }
        }
    }
    Ok((h, raw))
}

/// Longest path, in bytes, of the entries.
pub open spec fn max_path(es: Seq<IndexEntry>) -> nat
    decreases es.len(),
{
    if es.len() == 0 {
        0
    } else {
        let m = max_path(es.drop_last());
        let l = crate::index::path_bytes(es.last()).len();
        if l > m {
            l
        } else {
            m
        }
    }
}

/// Levels the tree of `es` may nest to: one more than the longest path.
pub open spec fn tree_depth(es: Seq<IndexEntry>) -> nat {
    if max_path(es) < usize::MAX {
        max_path(es) + 1
    } else {
        max_path(es)
    }
}

fn max_path_len(entries: &[IndexEntry]) -> (r: usize)
    ensures
        r as nat == max_path(entries@),
{
    let mut m: usize = 0;
    let mut i: usize = 0;
    assert(entries@.take(0) =~= Seq::<IndexEntry>::empty());
    while i < entries.len()
        invariant
            i <= entries@.len(),
            m as nat == max_path(entries@.take(i as int)),
        decreases entries@.len() - i,
    {
        let l = entries[i].path.as_str().as_bytes().len();
        proof {
            assert(entries@.take(i as int + 1).drop_last() =~= entries@.take(i as int));
            assert(entries@.take(i as int + 1).last() == entries@[i as int]);
        }
        if l > m {
            m = l;
        }
        i = i + 1;
    }
    assert(entries@.take(i as int) =~= entries@);
    m
}

/// The items that the entries `w` put in the root tree: path bytes, mode, hash.
pub open spec fn index_items(w: Seq<IndexEntry>) -> Seq<ItemView> {
    w.map_values(|e: IndexEntry| (crate::index::path_bytes(e), e.mode, e.hash@))
}

/// The root tree hash for the normalized entries `w` of the index `es`.
pub open spec fn root_tree_hash(es: Seq<IndexEntry>, w: Seq<IndexEntry>) -> Option<Seq<char>> {
    match tree_payload(index_items(w), tree_depth(es)) {
        Some(pl) => Some(hash_text(frame_spec(ObjectKind::Tree, pl))),
        None => None,
    }
}

fn first_bad_hash(entries: &[IndexEntry], order: &Vec<usize>) -> (r: Option<usize>)
    requires
        forall|j: int| 0 <= j < order@.len() ==> (#[trigger] order@[j]) < entries@.len(),
    ensures
        r.is_some() ==> r.unwrap() < order@.len() && crate::index::at_positions(entries@, order@)[r.unwrap() as int].hash@.len() != 20,
        r.is_none() ==> forall|q: int| 0 <= q < order@.len() ==> #[trigger] crate::index::at_positions(entries@, order@)[q].hash@.len() == 20,
{
    let ghost w = crate::index::at_positions(entries@, order@);
    let mut i: usize = 0;
    while i < order.len()
        invariant
            i <= order@.len(),
            w == crate::index::at_positions(entries@, order@),
            forall|j: int| 0 <= j < order@.len() ==> (#[trigger] order@[j]) < entries@.len(),
            forall|q: int| 0 <= q < i ==> #[trigger] w[q].hash@.len() == 20,
        decreases order@.len() - i,
    {
        assert(entries@[order@[i as int] as int] == w[i as int]);
        if entries[order[i]].hash.len() != 20 {
            return Some(i);
        }
        i = i + 1;
    }
    None
}

fn build_items(entries: &[IndexEntry], order: &Vec<usize>) -> (r: Vec<(Vec<u8>, u32, Vec<u8>)>)
    requires
        forall|j: int| 0 <= j < order@.len() ==> (#[trigger] order@[j]) < entries@.len(),
        forall|q: int| 0 <= q < order@.len() ==> #[trigger] crate::index::at_positions(entries@, order@)[q].hash@.len() == 20,
    ensures
        items_view(r@) == index_items(crate::index::at_positions(entries@, order@)),
{
    let ghost w = crate::index::at_positions(entries@, order@);
    let mut items: Vec<(Vec<u8>, u32, Vec<u8>)> = Vec::new();
    let mut i: usize = 0;
    assert(w.take(0) =~= Seq::<IndexEntry>::empty());
    while i < order.len()
        invariant
            i <= order@.len(),
            w == crate::index::at_positions(entries@, order@),
            forall|j: int| 0 <= j < order@.len() ==> (#[trigger] order@[j]) < entries@.len(),
            forall|q: int| 0 <= q < order@.len() ==> #[trigger] w[q].hash@.len() == 20,
            items_view(items@) == index_items(w.take(i as int)),
        decreases order@.len() - i,
    {
        let e = &entries[order[i]];
        assert(*e == w[i as int]);
        let pb = e.path.as_str().as_bytes();
        assert(pb@ == crate::index::path_bytes(*e));
        let ghost iv0 = items_view(items@);
        items.push((crate::bytes::sub_bytes(pb, 0, pb.len()), e.mode, crate::bytes::sub_bytes(e.hash.as_slice(), 0, 20)));
        proof {
            assert(e.hash@.subrange(0, 20) =~= e.hash@);
            assert(pb@.subrange(0, pb@.len() as int) =~= pb@);
            assert(items_view(items@) =~= iv0.push((pb@, e.mode, e.hash@)));
            assert(w.take(i as int + 1).drop_last() =~= w.take(i as int));
            assert(index_items(w.take(i as int + 1)) =~= index_items(w.take(i as int)).push((crate::index::path_bytes(w[i as int]), w[i as int].mode, w[i as int].hash@)));
        }
        i = i + 1;
    }
    assert(w.take(i as int) =~= w);
    items
}

/// Writes the tree objects for the index `entries` (sorted by path, one per
/// path, the last given winning) and returns the root tree's hash;
/// `InvalidInput` when a kept entry's hash is not 20 bytes.
pub fn write_tree_from_index(store: &mut ObjectStore, entries: &[IndexEntry]) -> (r: Result<String, ErrorKind>)
    requires
        old(store).wf(),
    ensures
        final(store).wf(),
        store_grows(old(store)@, final(store)@),
        adds_only_trees(old(store)@, final(store)@),
        r is Ok ==> final(store)@.contains_key(r.unwrap()@),
        exists|o: Seq<usize>|
            #![trigger crate::index::at_positions(entries@, o)]
            normalized_by(entries@, o) && (
                (exists|q: int| 0 <= q < o.len() && crate::index::at_positions(entries@, o)[q].hash@.len() != 20)
                    ==> r == Err::<String, ErrorKind>(ErrorKind::InvalidInput))
            && ((forall|q: int| 0 <= q < o.len() ==> #[trigger] crate::index::at_positions(entries@, o)[q].hash@.len() == 20)
                ==> (r is Ok <==> root_tree_hash(entries@, crate::index::at_positions(entries@, o)) is Some)
                && (r is Ok ==> r.unwrap()@ == root_tree_hash(entries@, crate::index::at_positions(entries@, o)).unwrap())),
{
    let order = crate::index::normalize_order(entries);
    let ghost w = crate::index::at_positions(entries@, order@);
    assert(normalized_by(entries@, order@));
    match first_bad_hash(entries, &order) {
        Some(q) => {
            assert(w[q as int].hash@.len() != 20);
            return Err(ErrorKind::InvalidInput);
        },
        None => {},
    }
    let items = build_items(entries, &order);
    let m = max_path_len(entries);
    let depth = if m < usize::MAX { m + 1 } else { m };
    match write_level(store, &items, depth) {
        Ok((h, _)) => Ok(h),
        Err(e) => Err(e),
    }
}

/// `o` picks the entries of the index `es` to write: sorted by path, the last
/// entry of each path, every path present.
pub open spec fn normalized_by(es: Seq<IndexEntry>, o: Seq<usize>) -> bool {
    &&& crate::index::sorted_by_path(crate::index::at_positions(es, o))
    &&& forall|j: int| 0 <= j < o.len() ==> (#[trigger] o[j]) < es.len() && crate::index::last_with_path(es, o[j] as int)
    &&& crate::index::all_present(crate::index::at_positions(es, o), es, es.len() as int)
}

proof fn lemma_max_path(es: Seq<IndexEntry>)
    ensures
        forall|i: int| 0 <= i < es.len() ==> crate::index::path_bytes(#[trigger] es[i]).len() <= max_path(es),
        es.len() > 0 ==> exists|i: int| 0 <= i < es.len() && crate::index::path_bytes(#[trigger] es[i]).len() == max_path(es),
        es.len() == 0 ==> max_path(es) == 0,
    decreases es.len(),
{
    if es.len() > 0 {
        let d = es.drop_last();
        lemma_max_path(d);
        assert forall|i: int| 0 <= i < es.len() implies crate::index::path_bytes(#[trigger] es[i]).len() <= max_path(es) by {
            if i < d.len() {
                assert(es[i] == d[i]);
            }
        }
        if crate::index::path_bytes(es.last()).len() > max_path(d) {
            assert(crate::index::path_bytes(es[es.len() - 1]).len() == max_path(es));
        } else if d.len() > 0 {
            let i = choose|i: int| 0 <= i < d.len() && crate::index::path_bytes(#[trigger] d[i]).len() == max_path(d);
            assert(es[i] == d[i]);
        } else {
            assert(crate::index::path_bytes(es[0]).len() == max_path(es));
        }
    }
}

proof fn lemma_same_depth(e1: Seq<IndexEntry>, e2: Seq<IndexEntry>)
    requires
        forall|x: IndexEntry| e1.contains(x) <==> e2.contains(x),
    ensures
        tree_depth(e1) == tree_depth(e2),
{
    lemma_max_path(e1);
    lemma_max_path(e2);
    if e1.len() > 0 {
        let i = choose|i: int| 0 <= i < e1.len() && crate::index::path_bytes(#[trigger] e1[i]).len() == max_path(e1);
        assert(e1.contains(e1[i]));
        let j = choose|j: int| 0 <= j < e2.len() && e2[j] == e1[i];
        assert(crate::index::path_bytes(e2[j]).len() <= max_path(e2));
    } else if e2.len() > 0 {
        assert(e2.contains(e2[0]));
    }
    if e2.len() > 0 {
        let i = choose|i: int| 0 <= i < e2.len() && crate::index::path_bytes(#[trigger] e2[i]).len() == max_path(e2);
        assert(e2.contains(e2[i]));
        let j = choose|j: int| 0 <= j < e1.len() && e1[j] == e2[i];
        assert(crate::index::path_bytes(e1[j]).len() <= max_path(e1));
    } else if e1.len() > 0 {
        assert(e1.contains(e1[0]));
    }
}

proof fn lemma_normalized_elements(es: Seq<IndexEntry>, o: Seq<usize>)
    requires
        crate::index::unique_paths(es),
        normalized_by(es, o),
    ensures
        forall|x: IndexEntry| crate::index::at_positions(es, o).contains(x) <==> es.contains(x),
{
    let w = crate::index::at_positions(es, o);
    assert forall|x: IndexEntry| w.contains(x) <==> es.contains(x) by {
        if w.contains(x) {
            let j = choose|j: int| 0 <= j < w.len() && w[j] == x;
            assert(w[j] == es[o[j] as int]);
        }
        if es.contains(x) {
            let k = choose|k: int| 0 <= k < es.len() && es[k] == x;
            assert(es[k] == es[k]);
            let jj = choose|jj: int| 0 <= jj < w.len() && crate::index::path_bytes(#[trigger] w[jj]) == crate::index::path_bytes(es[k]);
            assert(w[jj] == es[o[jj] as int]);
            let m = o[jj] as int;
            if m < k {
                assert(crate::index::path_bytes(es[m]) != crate::index::path_bytes(es[k]));
            } else if m > k {
                assert(crate::index::path_bytes(es[k]) != crate::index::path_bytes(es[m]));
            }
            assert(w[jj] == x);
        }
    }
}

proof fn lemma_sorted_same_elements(w1: Seq<IndexEntry>, w2: Seq<IndexEntry>)
    requires
        crate::index::sorted_by_path(w1),
        crate::index::sorted_by_path(w2),
        forall|x: IndexEntry| w1.contains(x) <==> w2.contains(x),
    ensures
        w1 == w2,
    decreases w1.len(),
{
    if w1.len() == 0 {
        if w2.len() > 0 {
            assert(w2.contains(w2[0]));
        }
        assert(w1 =~= w2);
    } else if w2.len() == 0 {
        assert(w1.contains(w1[0]));
    } else {
        assert(w1.contains(w1[0]));
        assert(w2.contains(w2[0]));
        let b = choose|b: int| 0 <= b < w2.len() && w2[b] == w1[0];
        let a = choose|a: int| 0 <= a < w1.len() && w1[a] == w2[0];
        if a > 0 && b > 0 {
            crate::index::lemma_sorted_pairwise(w1, 0, a);
            crate::index::lemma_sorted_pairwise(w2, 0, b);
            crate::index::lemma_lt_trichotomy(crate::index::path_bytes(w1[0]), crate::index::path_bytes(w2[0]));
        }
        assert(w1[0] == w2[0]);
        let t1 = w1.drop_first();
        let t2 = w2.drop_first();
        assert(crate::index::sorted_by_path(t1)) by {
            assert forall|i: int| 0 <= i < t1.len() - 1 implies crate::index::bytes_lt(crate::index::path_bytes(#[trigger] t1[i]), crate::index::path_bytes(t1[i + 1])) by {
                assert(t1[i] == w1[i + 1] && t1[i + 1] == w1[i + 2]);
            }
        }
        assert(crate::index::sorted_by_path(t2)) by {
            assert forall|i: int| 0 <= i < t2.len() - 1 implies crate::index::bytes_lt(crate::index::path_bytes(#[trigger] t2[i]), crate::index::path_bytes(t2[i + 1])) by {
                assert(t2[i] == w2[i + 1] && t2[i + 1] == w2[i + 2]);
            }
        }
        assert forall|x: IndexEntry| t1.contains(x) <==> t2.contains(x) by {
            if t1.contains(x) {
                let i = choose|i: int| 0 <= i < t1.len() && t1[i] == x;
                assert(w1[i + 1] == x);
                assert(w1.contains(x));
                let j = choose|j: int| 0 <= j < w2.len() && w2[j] == x;
                if j == 0 {
                    crate::index::lemma_sorted_pairwise(w1, 0, i + 1);
                    crate::index::lemma_lt_trichotomy(crate::index::path_bytes(x), crate::index::path_bytes(x));
                }
                assert(t2[j - 1] == x);
            }
            if t2.contains(x) {
                let i = choose|i: int| 0 <= i < t2.len() && t2[i] == x;
                assert(w2[i + 1] == x);
                assert(w2.contains(x));
                let j = choose|j: int| 0 <= j < w1.len() && w1[j] == x;
                if j == 0 {
                    crate::index::lemma_sorted_pairwise(w2, 0, i + 1);
                    crate::index::lemma_lt_trichotomy(crate::index::path_bytes(x), crate::index::path_bytes(x));
                }
                assert(t1[j - 1] == x);
            }
        }
        lemma_sorted_same_elements(t1, t2);
        assert(w1 =~= seq![w1[0]] + t1);
        assert(w2 =~= seq![w2[0]] + t2);
    }
}

/// Building the tree of an index depends only on which entries it holds:
/// two entry lists with the same entries, no path twice, give the same
/// normalized entries and the same root tree hash, whatever their order
/// (and the same list built twice gives the same hash).
#[verifier::rlimit(80)]
pub proof fn lemma_build_tree_order_free(e1: Seq<IndexEntry>, e2: Seq<IndexEntry>, o1: Seq<usize>, o2: Seq<usize>)
    requires
        crate::index::unique_paths(e1),
        crate::index::unique_paths(e2),
        forall|x: IndexEntry| e1.contains(x) <==> e2.contains(x),
        normalized_by(e1, o1),
        normalized_by(e2, o2),
    ensures
        crate::index::at_positions(e1, o1) == crate::index::at_positions(e2, o2),
        root_tree_hash(e1, crate::index::at_positions(e1, o1)) == root_tree_hash(e2, crate::index::at_positions(e2, o2)),
{
    let w1 = crate::index::at_positions(e1, o1);
    let w2 = crate::index::at_positions(e2, o2);
    lemma_normalized_elements(e1, o1);
    lemma_normalized_elements(e2, o2);
    assert forall|x: IndexEntry| w1.contains(x) <==> w2.contains(x) by {
        assert(w1.contains(x) <==> e1.contains(x));
        assert(w2.contains(x) <==> e2.contains(x));
    }
    lemma_sorted_same_elements(w1, w2);
    lemma_same_depth(e1, e2);
    lemma_root_hash_congruent(e1, e2, w1);
}

proof fn lemma_root_hash_congruent(e1: Seq<IndexEntry>, e2: Seq<IndexEntry>, w: Seq<IndexEntry>)
    requires
        tree_depth(e1) == tree_depth(e2),
    ensures
        root_tree_hash(e1, w) == root_tree_hash(e2, w),
{
}

} // verus!
