use vstd::prelude::*;
use vstd::string::StringSliceAdditionalSpecFns;
use crate::codec::{compress_data, compute_hash, decompress, hash_text, zlib_deflate, zlib_inflate};
use crate::error::ErrorKind;
use crate::object::{
    frame_kind, frame_object, frame_payload, frame_spec, has_prefix, kind_of, payload_of,
    ObjectKind,
};

verus! {

/// One stored object: its hash and its framed bytes.
pub struct StoredObject {
    pub hash: String,
    pub frame: Vec<u8>,
}

/// Content-addressed storage of framed objects, keyed by the hex hash of the frame.
pub struct ObjectStore {
    objects: Vec<StoredObject>,
}

/// The map from hash to frame that a list of stored objects describes.
pub open spec fn store_map(objs: Seq<StoredObject>) -> Map<Seq<char>, Seq<u8>>
    decreases objs.len(),
{
    if objs.len() == 0 {
        Map::empty()
    } else {
        store_map(objs.drop_last()).insert(objs.last().hash@, objs.last().frame@)
    }
}

/// No hash occurs twice.
pub open spec fn unique_hashes(objs: Seq<StoredObject>) -> bool {
    forall|i: int, j: int|
        0 <= i < j < objs.len() ==> (#[trigger] objs[i]).hash@ != (#[trigger] objs[j]).hash@
}

/// Every object is stored under the hash of its frame.
pub open spec fn content_addressed(m: Map<Seq<char>, Seq<u8>>) -> bool {
    forall|h: Seq<char>| #[trigger] m.contains_key(h) ==> hash_text(m[h]) == h
}

/// What storing the object `(k, payload)` does to the store's map: nothing
/// when its hash is present, else it adds the frame under its hash.
pub open spec fn put_map(m: Map<Seq<char>, Seq<u8>>, k: ObjectKind, payload: Seq<u8>) -> Map<
    Seq<char>,
    Seq<u8>,
> {
    let f = frame_spec(k, payload);
    let h = hash_text(f);
    if m.contains_key(h) {
        m
    } else {
        m.insert(h, f)
    }
}

/// The payload stored under `h`.
pub open spec fn lookup_payload(m: Map<Seq<char>, Seq<u8>>, h: Seq<char>) -> Result<
    Seq<u8>,
    ErrorKind,
> {
    if !m.contains_key(h) {
        Err(ErrorKind::NotFound)
    } else {
        match payload_of(m[h]) {
            Some(p) => Ok(p),
            None => Err(ErrorKind::InvalidData),
        }
    }
}

/// The kind of the object stored under `h`.
pub open spec fn lookup_kind(m: Map<Seq<char>, Seq<u8>>, h: Seq<char>) -> Result<
    ObjectKind,
    ErrorKind,
> {
    if !m.contains_key(h) {
        Err(ErrorKind::NotFound)
    } else {
        match kind_of(m[h]) {
            Some(k) => Ok(k),
            None => Err(ErrorKind::InvalidData),
        }
    }
}

/// Storing an object and reading its payload back gives the payload, and
/// storing the same object again changes nothing; this holds unless the store
/// already holds a different frame under the same hash.
pub proof fn lemma_put_round_trip(m: Map<Seq<char>, Seq<u8>>, k: ObjectKind, payload: Seq<u8>)
    requires
        !m.contains_key(hash_text(frame_spec(k, payload))) || m[hash_text(frame_spec(k, payload))]
            == frame_spec(k, payload),
    ensures
        lookup_payload(put_map(m, k, payload), hash_text(frame_spec(k, payload))) == Ok::<
            Seq<u8>,
            ErrorKind,
        >(payload),
        lookup_kind(put_map(m, k, payload), hash_text(frame_spec(k, payload))) == Ok::<
            ObjectKind,
            ErrorKind,
        >(k),
        put_map(put_map(m, k, payload), k, payload) == put_map(m, k, payload),
{
    crate::object::lemma_frame_parses(k, payload);
}

proof fn lemma_map_has(objs: Seq<StoredObject>, i: int)
    requires
        unique_hashes(objs),
        0 <= i < objs.len(),
    ensures
        store_map(objs).contains_key(objs[i].hash@),
        store_map(objs)[objs[i].hash@] == objs[i].frame@,
    decreases objs.len(),
{
    if i < objs.len() - 1 {
        let d = objs.drop_last();
        assert(d[i] == objs[i]);
        assert(unique_hashes(d)) by {
            assert forall|a: int, b: int| 0 <= a < b < d.len() implies d[a].hash@ != d[b].hash@ by {
                assert(d[a] == objs[a] && d[b] == objs[b]);
            }
        }
        lemma_map_has(d, i);
        assert(objs[i].hash@ != objs.last().hash@);
    }
}

proof fn lemma_map_dom(objs: Seq<StoredObject>, h: Seq<char>)
    ensures
        store_map(objs).contains_key(h) <==> exists|i: int| 0 <= i < objs.len() && (#[trigger] objs[i]).hash@ == h,
    decreases objs.len(),
{
    if objs.len() > 0 {
        let d = objs.drop_last();
        lemma_map_dom(d, h);
        if store_map(objs).contains_key(h) {
            if h == objs.last().hash@ {
                assert(objs[objs.len() - 1].hash@ == h);
            } else {
                let i = choose|i: int| 0 <= i < d.len() && (#[trigger] d[i]).hash@ == h;
                assert(objs[i] == d[i]);
            }
        }
        if exists|i: int| 0 <= i < objs.len() && (#[trigger] objs[i]).hash@ == h {
            let i = choose|i: int| 0 <= i < objs.len() && (#[trigger] objs[i]).hash@ == h;
            if i < objs.len() - 1 {
                assert(d[i] == objs[i]);
            }
        }
    }
}

proof fn lemma_map_push(objs: Seq<StoredObject>, o: StoredObject)
    ensures
        store_map(objs.push(o)) == store_map(objs).insert(o.hash@, o.frame@),
{
    assert(objs.push(o).drop_last() =~= objs);
}

impl View for ObjectStore {
    type V = Map<Seq<char>, Seq<u8>>;

    closed spec fn view(&self) -> Map<Seq<char>, Seq<u8>> {
        store_map(self.objects@)
    }
}

impl ObjectStore {
    /// The store's invariant: hashes are unique and name their frames.
    pub closed spec fn wf(&self) -> bool {
        &&& unique_hashes(self.objects@)
        &&& forall|i: int|
            0 <= i < self.objects@.len() ==> hash_text((#[trigger] self.objects@[i]).frame@)
                == self.objects@[i].hash@
    }

    proof fn lemma_wf_addressed(&self)
        requires
            self.wf(),
        ensures
            content_addressed(self@),
    {
        assert forall|h: Seq<char>| #[trigger] self@.contains_key(h) implies hash_text(self@[h]) == h by {
            lemma_map_dom(self.objects@, h);
            let i = choose|i: int| 0 <= i < self.objects@.len() && (#[trigger] self.objects@[i]).hash@ == h;
            lemma_map_has(self.objects@, i);
        }
    }

    /// An empty store.
    pub fn new() -> (r: ObjectStore)
        ensures
            r.wf(),
            r@ == Map::<Seq<char>, Seq<u8>>::empty(),
    {
        ObjectStore { objects: Vec::new() }
    }

    /// Number of stored objects.
    pub fn len(&self) -> (r: usize)
        requires
            self.wf(),
        ensures
            r == self@.dom().len(),
    {
        proof {
            self.lemma_len();
        }
        self.objects.len()
    }

    proof fn lemma_len(&self)
        requires
            self.wf(),
        ensures
            self@.dom().len() == self.objects@.len(),
            self@.dom().finite(),
    {
        lemma_map_len(self.objects@);
    }

    fn find(&self, hash: &String) -> (r: Option<usize>)
        requires
            self.wf(),
        ensures
            r.is_some() ==> r.unwrap() < self.objects@.len() && self.objects@[r.unwrap() as int].hash@
                == hash@,
            r.is_some() ==> self@.contains_key(hash@) && self@[hash@]
                == self.objects@[r.unwrap() as int].frame@,
            r.is_none() ==> !self@.contains_key(hash@),
    {
        let mut i: usize = 0;
        while i < self.objects.len()
            invariant
                self.wf(),
                i <= self.objects@.len(),
                forall|j: int| 0 <= j < i ==> (#[trigger] self.objects@[j]).hash@ != hash@,
            decreases self.objects@.len() - i,
        {
            if self.objects[i].hash == *hash {
                proof {
                    lemma_map_has(self.objects@, i as int);
                }
                return Some(i);
            }
            i = i + 1;
        }
        proof {
            lemma_map_dom(self.objects@, hash@);
        }
        None
    }

    /// Whether an object with this hash is stored.
    pub fn contains(&self, hash: &str) -> (r: bool)
        requires
            self.wf(),
        ensures
            r == self@.contains_key(hash@),
    {
        let h = hash.to_owned();
        self.find(&h).is_some()
    }

    /// Stores an object of kind `kind` with the given payload and returns its
    /// hash; storing an object that is already present changes nothing.
    pub fn put(&mut self, kind: ObjectKind, payload: &[u8]) -> (r: String)
        requires
            old(self).wf(),
        ensures
            final(self).wf(),
            r@ == hash_text(frame_spec(kind, payload@)),
            final(self)@ == put_map(old(self)@, kind, payload@),
    {
        let frame = frame_object(kind, payload);
        let hash = compute_hash(frame.as_slice());
        match self.find(&hash) {
            Some(_) => {},
            None => {
                let ghost objs = self.objects@;
                let h2 = hash.clone();
                let o = StoredObject { hash: h2, frame };
                proof {
                    lemma_map_push(objs, o);
                    lemma_map_dom(objs, hash@);
                }
                self.objects.push(o);
                proof {
                    assert(self.objects@ == objs.push(o));
                    assert forall|i: int, j: int| 0 <= i < j < self.objects@.len() implies
                        (#[trigger] self.objects@[i]).hash@ != (#[trigger] self.objects@[j]).hash@ by {
                        if j == objs.len() {
                            assert(self.objects@[i] == objs[i]);
                        } else {
                            assert(self.objects@[i] == objs[i] && self.objects@[j] == objs[j]);
                        }
                    }
                    assert forall|i: int| 0 <= i < self.objects@.len() implies hash_text(
                        (#[trigger] self.objects@[i]).frame@,
                    ) == self.objects@[i].hash@ by {
                        if i < objs.len() {
                            assert(self.objects@[i] == objs[i]);
                        }
                    }
                }
            },
        }
        hash
    }

    /// The framed bytes of the object with this hash.
    pub fn get(&self, hash: &str) -> (r: Result<Vec<u8>, ErrorKind>)
        requires
            self.wf(),
        ensures
            r is Ok <==> self@.contains_key(hash@),
            r is Ok ==> r.unwrap()@ == self@[hash@],
            r is Err ==> r == Err::<Vec<u8>, ErrorKind>(ErrorKind::NotFound),
    {
        let h = hash.to_owned();
        match self.find(&h) {
            None => Err(ErrorKind::NotFound),
            Some(i) => Ok(copy_bytes(self.objects[i].frame.as_slice())),
        }
    }

    /// The payload of the object with this hash: `NotFound` when absent,
    /// `InvalidData` when its frame has no NUL.
    pub fn get_payload(&self, hash: &str) -> (r: Result<Vec<u8>, ErrorKind>)
        requires
            self.wf(),
        ensures
            r is Ok <==> lookup_payload(self@, hash@) is Ok,
            r is Ok ==> r.unwrap()@ == lookup_payload(self@, hash@).unwrap(),
            r is Err ==> lookup_payload(self@, hash@) == Err::<Seq<u8>, ErrorKind>(r->Err_0),
    {
        let h = hash.to_owned();
        match self.find(&h) {
            None => Err(ErrorKind::NotFound),
            Some(i) => frame_payload(self.objects[i].frame.as_slice()),
        }
    }

    /// The kind of the object with this hash: `NotFound` when absent,
    /// `InvalidData` when its header names no kind.
    pub fn get_kind(&self, hash: &str) -> (r: Result<ObjectKind, ErrorKind>)
        requires
            self.wf(),
        ensures
            r is Ok <==> lookup_kind(self@, hash@) is Ok,
            r is Ok ==> r.unwrap() == lookup_kind(self@, hash@).unwrap(),
            r is Err ==> lookup_kind(self@, hash@) == Err::<ObjectKind, ErrorKind>(r->Err_0),
    {
        let h = hash.to_owned();
        match self.find(&h) {
            None => Err(ErrorKind::NotFound),
            Some(i) => frame_kind(self.objects[i].frame.as_slice()),
        }
    }

    /// The compressed bytes to persist for the object with this hash.
    pub fn compressed(&self, hash: &str) -> (r: Result<Vec<u8>, ErrorKind>)
        requires
            self.wf(),
        ensures
            r is Ok <==> self@.contains_key(hash@),
            r is Ok ==> r.unwrap()@ == zlib_deflate(self@[hash@]),
            r is Ok ==> zlib_inflate(r.unwrap()@) == Some(self@[hash@]),
            r is Err ==> r == Err::<Vec<u8>, ErrorKind>(ErrorKind::NotFound),
    {
        let h = hash.to_owned();
        match self.find(&h) {
            None => Err(ErrorKind::NotFound),
            Some(i) => Ok(compress_data(self.objects[i].frame.as_slice())),
        }
    }

    /// Adds an object read back from its compressed form under `hash`:
    /// `InvalidData` when the bytes do not decompress or their hash differs
    /// from `hash`; an object already present is left as it is.
    pub fn load(&mut self, hash: &str, data: &[u8]) -> (r: Result<(), ErrorKind>)
        requires
            old(self).wf(),
        ensures
            final(self).wf(),
            r is Err <==> (zlib_inflate(data@) is None || hash_text(zlib_inflate(data@).unwrap())
                != hash@),
            r is Err ==> r == Err::<(), ErrorKind>(ErrorKind::InvalidData) && final(self)@ == old(self)@,
            r is Ok ==> final(self)@ == if old(self)@.contains_key(hash@) {
                old(self)@
            } else {
                old(self)@.insert(hash@, zlib_inflate(data@).unwrap())
            },
    {
        let frame = match decompress(data) {
            None => {
                return Err(ErrorKind::InvalidData);
            },
            Some(f) => f,
        };
        let actual = compute_hash(frame.as_slice());
        let h = hash.to_owned();
        if actual != h {
            return Err(ErrorKind::InvalidData);
        }
        match self.find(&h) {
            Some(_) => Ok(()),
            None => {
                let ghost objs = self.objects@;
                let o = StoredObject { hash: h, frame };
                proof {
                    lemma_map_push(objs, o);
                }
                self.objects.push(o);
                proof {
                    assert(self.objects@ == objs.push(o));
                    lemma_map_dom(objs, hash@);
                    assert forall|i: int, j: int| 0 <= i < j < self.objects@.len() implies
                        (#[trigger] self.objects@[i]).hash@ != (#[trigger] self.objects@[j]).hash@ by {
                        if j == objs.len() {
                            assert(self.objects@[i] == objs[i]);
                        } else {
                            assert(self.objects@[i] == objs[i] && self.objects@[j] == objs[j]);
                        }
                    }
                    assert forall|i: int| 0 <= i < self.objects@.len() implies hash_text(
                        (#[trigger] self.objects@[i]).frame@,
                    ) == self.objects@[i].hash@ by {
                        if i < objs.len() {
                            assert(self.objects@[i] == objs[i]);
                        }
                    }
                }
                Ok(())
            },
        }
    }

    /// The hashes of all stored objects, each once.
    pub fn hashes(&self) -> (r: Vec<String>)
        requires
            self.wf(),
        ensures
            forall|i: int| 0 <= i < r@.len() ==> self@.contains_key(#[trigger] r@[i]@),
            forall|h: Seq<char>| #[trigger] self@.contains_key(h) ==> exists|i: int| 0 <= i < r@.len() && r@[i]@ == h,
            forall|i: int, j: int| 0 <= i < j < r@.len() ==> (#[trigger] r@[i])@ != (#[trigger] r@[j])@,
    {
        let mut r: Vec<String> = Vec::new();
        let mut i: usize = 0;
        while i < self.objects.len()
            invariant
                self.wf(),
                i <= self.objects@.len(),
                r@.len() == i,
                forall|j: int| 0 <= j < i ==> (#[trigger] r@[j])@ == self.objects@[j].hash@,
            decreases self.objects@.len() - i,
        {
            r.push(self.objects[i].hash.clone());
            i = i + 1;
        }
        proof {
            assert forall|k: int| 0 <= k < r@.len() implies self@.contains_key(#[trigger] r@[k]@) by {
                lemma_map_has(self.objects@, k);
            }
            assert forall|h: Seq<char>| #[trigger] self@.contains_key(h) implies exists|k: int| 0 <= k < r@.len() && r@[k]@ == h by {
                lemma_map_dom(self.objects@, h);
                let k = choose|k: int| 0 <= k < self.objects@.len() && (#[trigger] self.objects@[k]).hash@ == h;
                assert(r@[k]@ == h);
            }
            assert forall|a: int, b: int| 0 <= a < b < r@.len() implies (#[trigger] r@[a])@ != (#[trigger] r@[b])@ by {
                assert(self.objects@[a].hash@ != self.objects@[b].hash@);
            }
        }
        r
    }

    /// The first stored hash, in storage order, that begins with `prefix`:
    /// `InvalidInput` for a prefix shorter than two bytes, `NotFound` when no
    /// hash begins with it.
    pub fn resolve_prefix(&self, prefix: &str) -> (r: Result<String, ErrorKind>)
        requires
            self.wf(),
        ensures
            prefix@.len() < 2 ==> r == Err::<String, ErrorKind>(ErrorKind::InvalidInput),
            prefix@.len() >= 2 ==> (r is Ok || r == Err::<String, ErrorKind>(ErrorKind::NotFound)),
            r is Ok ==> self@.contains_key(r.unwrap()@) && starts_with_bytes(r.unwrap()@, prefix@),
            r == Err::<String, ErrorKind>(ErrorKind::NotFound) <==> (prefix@.len() >= 2 && forall|h: Seq<char>|
                #[trigger] self@.contains_key(h) ==> !starts_with_bytes(h, prefix@)),
    {
        if prefix_chars_short(prefix) {
            return Err(ErrorKind::InvalidInput);
        }
        let pb = prefix.as_bytes();
        let mut i: usize = 0;
        while i < self.objects.len()
            invariant
                self.wf(),
                prefix@.len() >= 2,
                pb@ == prefix.spec_bytes(),
                i <= self.objects@.len(),
                forall|j: int| 0 <= j < i ==> !starts_with_bytes((#[trigger] self.objects@[j]).hash@, prefix@),
            decreases self.objects@.len() - i,
        {
            let hb = self.objects[i].hash.as_str().as_bytes();
            if has_prefix(hb, pb) {
                proof {
                    lemma_map_has(self.objects@, i as int);
                    assert(starts_with_bytes(self.objects@[i as int].hash@, prefix@));
                    assert(self@.contains_key(self.objects@[i as int].hash@));
                }
                return Ok(self.objects[i].hash.clone());
            }
            i = i + 1;
        }
        proof {
            assert forall|h: Seq<char>| #[trigger] self@.contains_key(h) implies !starts_with_bytes(h, prefix@) by {
                lemma_map_dom(self.objects@, h);
            }
        }
        Err(ErrorKind::NotFound)
    }
}

/// The UTF-8 bytes of `h` begin with those of `p`.
pub open spec fn starts_with_bytes(h: Seq<char>, p: Seq<char>) -> bool {
    let hb = vstd::utf8::encode_utf8(h);
    let pb = vstd::utf8::encode_utf8(p);
    pb.len() <= hb.len() && hb.take(pb.len() as int) == pb
}

fn prefix_chars_short(s: &str) -> (r: bool)
    ensures
        r == (s@.len() < 2),
{
    let mut it = s.chars();
    let a = it.next();
    let b = it.next();
    a.is_none() || b.is_none()
}

proof fn lemma_map_len(objs: Seq<StoredObject>)
    requires
        unique_hashes(objs),
    ensures
        store_map(objs).dom().finite(),
        store_map(objs).dom().len() == objs.len(),
    decreases objs.len(),
{
    if objs.len() > 0 {
        let d = objs.drop_last();
        assert(unique_hashes(d)) by {
            assert forall|a: int, b: int| 0 <= a < b < d.len() implies d[a].hash@ != d[b].hash@ by {
                assert(d[a] == objs[a] && d[b] == objs[b]);
            }
        }
        lemma_map_len(d);
        lemma_map_dom(d, objs.last().hash@);
        if store_map(d).contains_key(objs.last().hash@) {
            let i = choose|i: int| 0 <= i < d.len() && (#[trigger] d[i]).hash@ == objs.last().hash@;
            assert(d[i] == objs[i]);
        }
    }
}

fn copy_bytes(b: &[u8]) -> (r: Vec<u8>)
    ensures
        r@ == b@,
{
    let mut r: Vec<u8> = Vec::new();
    let mut i: usize = 0;
    while i < b.len()
        invariant
            i <= b@.len(),
            r@ == b@.take(i as int),
        decreases b@.len() - i,
    {
        r.push(b[i]);
        i = i + 1;
        assert(r@ =~= b@.take(i as int));
    }
    assert(r@ =~= b@);
    r
}

} // verus!
