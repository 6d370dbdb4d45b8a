//! The disk vector: a dense, 0-based ordered collection backed by the
//! store, with the cache window always covering the contiguous tail
//! suffix of indices — a hard invariant, not a best-effort cache.
//!
//! Ghost state tracks, per index, the element bytes known to be stored
//! there; a freshly created vector knows every index it has pushed,
//! while a restored one knows the tail it primed from disk.

use vstd::prelude::*;
use crate::bytes::{u64_le, u64_to_le, lemma_le_bytes_len, lemma_u64_le_injective};
use crate::codec::Codec;
use crate::descriptor::Descriptor;
use crate::helper::{FundbError, Value, store_err};
use crate::length::{meta_key, len_header, write_length, read_length};
use crate::store::{store_view, store_open, store_get, store_put, store_flush};

verus! {

/// The store key of element `i`: a tag byte that can never collide with
/// the metadata key, then the index.
pub open spec fn vec_key(i: int) -> Seq<u8> {
    seq![1u8] + u64_le(i as u64)
}

/// An element key never collides with the metadata key.
pub proof fn lemma_vec_key_not_meta(i: int)
    ensures
        vec_key(i) != meta_key(),
{
    lemma_le_bytes_len(i as u64 as nat, 8);
    assert(vec_key(i).len() == 9);
    assert(meta_key().len() == 1);
}

/// Element keys are distinct from each other.
pub proof fn lemma_vec_key_injective(i: int, j: int)
    requires
        0 <= i <= u64::MAX,
        0 <= j <= u64::MAX,
        i != j,
    ensures
        vec_key(i) != vec_key(j),
{
    lemma_le_bytes_len(i as u64 as nat, 8);
    lemma_le_bytes_len(j as u64 as nat, 8);
    if vec_key(i) == vec_key(j) {
        assert(vec_key(i).skip(1) =~= u64_le(i as u64));
        assert(vec_key(j).skip(1) =~= u64_le(j as u64));
        lemma_u64_le_injective(i as u64, j as u64);
    }
}

/// How many elements the cache window holds for a collection of `len`
/// elements under capacity `cap`: all of them when unbounded, else at
/// most `cap` — the `min(capacity, len)` tail of the spec.
pub open spec fn window(cap: Option<usize>, len: int) -> int {
    match cap {
        Option::None => len,
        Option::Some(c) => if len <= c { len } else { c as int },
    }
}

/// Build the store key of element `i`.
fn make_vec_key(i: u64) -> (r: Vec<u8>)
    ensures
        r@ == vec_key(i as int),
{
    let mut r: Vec<u8> = vec![1u8];
    let mut idx = u64_to_le(i);
    r.append(&mut idx);
    proof {
        assert(r@ =~= vec_key(i as int));
    }
    r
}

/// A dense ordered collection on disk with a tail-suffix cache window.
pub struct Vecx<V: Codec> {
    db: sled::Db,
    path: String,
    in_mem_cnt: Option<usize>,
    is_tmp: bool,
    len: usize,
    cache: Vec<V>,
    known: Ghost<Map<int, Seq<u8>>>,
    fresh: Ghost<bool>,
}

impl<V: Codec> Vecx<V> {
    /// The element count.
    pub closed spec fn len_spec(self) -> int {
        self.len as int
    }

    /// The configured cache capacity.
    pub closed spec fn cap_spec(self) -> Option<usize> {
        self.in_mem_cnt
    }

    /// Whether the store's files vanish when the collection drops.
    pub closed spec fn is_tmp_spec(self) -> bool {
        self.is_tmp
    }

    /// The path the store is rooted at.
    pub closed spec fn path_spec(self) -> Seq<char> {
        self.path@
    }

    /// The indices whose stored bytes are known, and those bytes.
    pub closed spec fn entries(self) -> Map<int, Seq<u8>> {
        self.known@
    }

    /// The backing store's contents, for contracts that tie reads and
    /// the length header to what is actually stored.
    pub closed spec fn store_map(self) -> Map<Seq<u8>, Seq<u8>> {
        store_view(self.db)
    }

    /// Whether construction created the store rather than recovering an
    /// existing one; a fresh store starts at count 0 with nothing known.
    pub closed spec fn started_fresh(self) -> bool {
        self.fresh@
    }

    /// The collection knows exactly the history `vs`: its count is
    /// `vs.len()` and the bytes stored at every index `i` are `vs[i]`.
    /// A sequence of pushes starting from a fresh store maintains this
    /// for the pushed encodings, so a later read at `i` returns exactly
    /// the element pushed at position `i`.
    pub open spec fn knows_exactly(self, vs: Seq<Seq<u8>>) -> bool {
        &&& self.len_spec() == vs.len()
        &&& forall|i: int|
            0 <= i < vs.len() ==> #[trigger] self.has_entry(i) && self.entry_enc(i) == vs[i]
    }

    /// Whether index `i`'s stored bytes are known.
    pub open spec fn has_entry(self, i: int) -> bool {
        self.entries().contains_key(i)
    }

    /// The known stored bytes of index `i`.
    pub open spec fn entry_enc(self, i: int) -> Seq<u8> {
        self.entries()[i]
    }

    /// How many elements the cache window currently holds.
    pub closed spec fn cache_len_spec(self) -> int {
        self.cache@.len() as int
    }

    /// Whether a read of index `i` is answered from memory: exactly the
    /// tail window.
    pub open spec fn is_hit(self, i: int) -> bool {
        self.len_spec() - self.cache_len_spec() <= i < self.len_spec()
    }

    /// Well-formedness: the cache window is exactly the
    /// `min(capacity, len)` tail suffix, every cached element carries the
    /// bytes known for its index, and every known index is backed by the
    /// store with decodable bytes.
    pub closed spec fn wf(self) -> bool {
        &&& self.len <= u64::MAX
        &&& self.cache@.len() == window(self.in_mem_cnt, self.len as int)
        &&& forall|i: int|
            self.len - self.cache@.len() <= i < self.len ==> #[trigger] self.known@.contains_key(i)
        &&& forall|j: int|
            0 <= j < self.cache@.len() ==> (#[trigger] self.cache@[j]).enc_spec()
                == self.known@[self.len - self.cache@.len() + j]
        &&& forall|i: int| #[trigger] self.known@.contains_key(i) ==> 0 <= i < self.len
        &&& forall|i: int|
            #[trigger] self.known@.contains_key(i) ==> store_view(self.db).contains_key(vec_key(i))
                && store_view(self.db)[vec_key(i)] == self.known@[i]
        &&& forall|i: int|
            #[trigger] self.known@.contains_key(i) ==> exists|v: V|
                (#[trigger] v.enc_spec()) == self.known@[i]
    }

    /// The tail-window rule, made public: the cache window always holds
    /// exactly the last `min(capacity, len)` elements, and a read is a
    /// memory hit exactly on that suffix.
    pub proof fn lemma_tail_window(self)
        requires
            self.wf(),
        ensures
            self.cache_len_spec() == window(self.cap_spec(), self.len_spec()),
            forall|i: int|
                self.is_hit(i) <==> self.len_spec() - window(self.cap_spec(), self.len_spec()) <= i
                    < self.len_spec(),
            forall|i: int| self.is_hit(i) ==> self.has_entry(i),
            forall|i: int| self.has_entry(i) ==> 0 <= i < self.len_spec(),
    {
        assert forall|i: int| self.is_hit(i) implies self.has_entry(i) by {
            assert(self.known@.contains_key(i));
        }
    }

    /// Base case of the push history: an empty collection knows exactly
    /// the empty history.
    pub proof fn lemma_empty_knows_empty(self)
        requires
            self.len_spec() == 0,
        ensures
            self.knows_exactly(Seq::<Seq<u8>>::empty()),
    {
    }

    /// Induction step of the push history: `push` turns a collection
    /// knowing history `vs` into one knowing `vs` extended by the pushed
    /// encoding, exactly as its contract states. Together with the base
    /// case and `get`'s contract this says: after any sequence of
    /// pushes onto a fresh collection, `len()` is the number of pushes
    /// and the entry at each index carries the encoding pushed there.
    pub proof fn lemma_push_extends_history(pre: Vecx<V>, post: Vecx<V>, vs: Seq<Seq<u8>>, e: Seq<
        u8,
    >)
        requires
            pre.knows_exactly(vs),
            post.len_spec() == pre.len_spec() + 1,
            post.entries() == pre.entries().insert(pre.len_spec(), e),
        ensures
            post.knows_exactly(vs.push(e)),
    {
        assert forall|i: int|
            0 <= i < vs.push(e).len() implies #[trigger] post.has_entry(i) && post.entry_enc(i)
            == vs.push(e)[i] by {
            if i < vs.len() {
                assert(pre.has_entry(i));
            }
        }
    }

    /// Open or create the store at `path` and build the collection: a
    /// brand-new store starts at count 0; a pre-existing one has its
    /// count read from the length header and the last
    /// `min(capacity, len)` elements loaded into the cache window.
    pub fn new(path: &str, in_mem_cnt: Option<usize>, is_tmp: bool) -> (r: Result<
        Vecx<V>,
        FundbError,
    >)
        ensures
            r matches Ok(v) ==> {
                &&& v.wf()
                &&& v.path_spec() == path@
                &&& v.cap_spec() == in_mem_cnt
                &&& v.is_tmp_spec() == is_tmp
                &&& v.store_map().contains_key(meta_key())
                &&& v.store_map()[meta_key()] == len_header(v.len_spec() as u64)
                &&& v.started_fresh() ==> v.len_spec() == 0 && v.entries() == Map::<
                    int,
                    Seq<u8>,
                >::empty()
            },
    {
        let opened = match store_open(path, is_tmp) {
            Ok(p) => p,
            Err(e) => {
                let _ = store_err(e);
                return Err(FundbError::Open);
            },
        };
        let (db, recovered) = opened;
        let mut db = db;
        if !recovered {
            match write_length(&mut db, 0) {
                Ok(u) => u,
                Err(e) => {
                    return Err(e);
                },
            };
            let v = Vecx {
                db,
                path: path.to_owned(),
                in_mem_cnt,
                is_tmp,
                len: 0,
                cache: Vec::new(),
                known: Ghost(Map::empty()),
                fresh: Ghost(true),
            };
            return Ok(v);
        }
        let n = match read_length(&db) {
            Ok(n) => n,
            Err(e) => {
                return Err(e);
            },
        };
        if n > usize::MAX as u64 {
            return Err(FundbError::Corruption);
        }
        let len = n as usize;
        let start: usize = match in_mem_cnt {
            Some(c) => if len > c {
                len - c
            } else {
                0
            },
            None => 0,
        };
        let mut cache: Vec<V> = Vec::new();
        let ghost mut known = Map::<int, Seq<u8>>::empty();
        let mut i: usize = start;
        while i < len
            invariant
                start <= i <= len,
                len <= u64::MAX,
                store_view(db).contains_key(meta_key()),
                store_view(db)[meta_key()] == len_header(len as u64),
                cache@.len() == i - start,
                forall|k: int| start <= k < i ==> #[trigger] known.contains_key(k),
                forall|j: int|
                    0 <= j < cache@.len() ==> (#[trigger] cache@[j]).enc_spec() == known[start + j],
                forall|k: int| #[trigger] known.contains_key(k) ==> start <= k < i,
                forall|k: int|
                    #[trigger] known.contains_key(k) ==> store_view(db).contains_key(vec_key(k))
                        && store_view(db)[vec_key(k)] == known[k],
                forall|k: int|
                    #[trigger] known.contains_key(k) ==> exists|v: V|
                        (#[trigger] v.enc_spec()) == known[k],
            decreases len - i,
        {
            let key = make_vec_key(i as u64);
            let bytes = match store_get(&db, key.as_slice()) {
                Ok(Some(b)) => b,
                Ok(None) => {
                    return Err(FundbError::Corruption);
                },
                Err(e) => {
                    return Err(store_err(e));
                },
            };
            let elem = match V::decode(bytes.as_slice()) {
                Some(v) => v,
                None => {
                    return Err(FundbError::Decode);
                },
            };
            let ghost cache0 = cache@;
            cache.push(elem);
            proof {
                known = known.insert(i as int, bytes@);
                assert forall|j: int|
                    0 <= j < cache@.len() implies (#[trigger] cache@[j]).enc_spec() == known[start
                    + j] by {
                    if j < cache0.len() {
                        assert(cache@[j] == cache0[j]);
                    } else {
                        assert(cache@[j] == elem);
                        assert(start + j == i as int);
                    }
                }
            }
            i = i + 1;
        }
        let v = Vecx {
            db,
            path: path.to_owned(),
            in_mem_cnt,
            is_tmp,
            len,
            cache,
            known: Ghost(known),
            fresh: Ghost(false),
        };
        proof {
            assert(v.cache@.len() == window(in_mem_cnt, len as int));
        }
        Ok(v)
    }

    /// Restore a collection from its descriptor: reopen the store at the
    /// recorded path and re-prime the cache window as `new` does.
    pub fn from_descriptor(d: &Descriptor) -> (r: Result<Vecx<V>, FundbError>)
        ensures
            r matches Ok(v) ==> {
                &&& v.wf()
                &&& v.path_spec() == d.path@
                &&& v.cap_spec() == d.in_mem_cnt
                &&& v.is_tmp_spec() == d.is_tmp
                &&& v.store_map().contains_key(meta_key())
                &&& v.store_map()[meta_key()] == len_header(v.len_spec() as u64)
                &&& v.started_fresh() ==> v.len_spec() == 0 && v.entries() == Map::<
                    int,
                    Seq<u8>,
                >::empty()
            },
    {
        Vecx::new(d.path.as_str(), d.in_mem_cnt, d.is_tmp)
    }

    /// The descriptor of this collection: path, capacity, ephemeral flag
    /// — never the cache window or element bytes.
    pub fn descriptor(&self) -> (r: Descriptor)
        ensures
            r.path@ == self.path_spec(),
            r.in_mem_cnt == self.cap_spec(),
            r.is_tmp == self.is_tmp_spec(),
    {
        Descriptor::new(self.path.clone(), self.in_mem_cnt, self.is_tmp)
    }

    /// The element count, straight from memory.
    pub fn len(&self) -> (r: usize)
        ensures
            r as int == self.len_spec(),
    {
        self.len
    }

    /// Append an element: write it under the current count, bump the
    /// duplicated length header, and slide the cache window forward,
    /// evicting the lowest cached index once capacity is exceeded. On an
    /// error the collection is logically unchanged.
    pub fn push(&mut self, v: V) -> (r: Result<(), FundbError>)
        requires
            old(self).wf(),
            old(self).len_spec() < usize::MAX as int,
        ensures
            final(self).wf(),
            final(self).cap_spec() == old(self).cap_spec(),
            final(self).path_spec() == old(self).path_spec(),
            final(self).is_tmp_spec() == old(self).is_tmp_spec(),
            r is Ok ==> {
                &&& final(self).len_spec() == old(self).len_spec() + 1
                &&& final(self).entries() == old(self).entries().insert(
                    old(self).len_spec(),
                    v.enc_spec(),
                )
            },
            r is Err ==> final(self).len_spec() == old(self).len_spec() && final(self).entries()
                == old(self).entries(),
    {
        let ghost old_len = self.len as int;
        let key = make_vec_key(self.len as u64);
        let enc = v.encode();
        proof {
            assert forall|k: int| #[trigger] self.known@.contains_key(k) implies vec_key(k)
                != vec_key(old_len) && vec_key(k) != meta_key() by {
                lemma_vec_key_injective(k, old_len);
                lemma_vec_key_not_meta(k);
            }
            lemma_vec_key_not_meta(old_len);
        }
        match store_put(&mut self.db, key.as_slice(), enc.as_slice()) {
            Ok(prev) => {
                let _ = prev;
            },
            Err(e) => {
                return Err(store_err(e));
            },
        };
        match write_length(&mut self.db, (self.len + 1) as u64) {
            Ok(u) => u,
            Err(e) => {
                return Err(e);
            },
        };
        self.len = self.len + 1;
        self.cache.push(v);
        proof {
            self.known@ = self.known@.insert(old_len, v.enc_spec());
        }
        let over = match self.in_mem_cnt {
            Some(c) => self.cache.len() > c,
            None => false,
        };
        if over {
            let _ = self.cache.remove(0);
        }
        proof {
            assert forall|k: int|
                #[trigger] self.known@.contains_key(k) implies store_view(self.db).contains_key(
                vec_key(k),
            ) && store_view(self.db)[vec_key(k)] == self.known@[k] by {
                lemma_vec_key_not_meta(k);
                if k != old_len {
                    lemma_vec_key_injective(k, old_len);
                }
            }
            assert forall|i: int|
                self.len - self.cache@.len() <= i < self.len implies
                #[trigger] self.known@.contains_key(i) by {
                assert(old(self).known@.contains_key(i) || i == old_len);
            }
            let ghost off = self.len - self.cache@.len();
            assert forall|j: int|
                0 <= j < self.cache@.len() implies (#[trigger] self.cache@[j]).enc_spec()
                == self.known@[off + j] by {
                let pushed = old(self).cache@.push(v);
                if j < self.cache@.len() - 1 {
                    if self.cache@.len() == pushed.len() {
                        assert(self.cache@[j] == old(self).cache@[j]);
                    } else {
                        assert(self.cache@ == pushed.remove(0));
                        assert(self.cache@[j] == old(self).cache@[j + 1]);
                    }
                } else {
                    assert(off + j == old_len);
                    if self.cache@.len() == pushed.len() {
                        assert(self.cache@[j] == v);
                    } else {
                        assert(self.cache@ == pushed.remove(0));
                        assert(self.cache@[j] == pushed[j + 1]);
                        assert(self.cache@[j] == v);
                    }
                }
            }
        }
        Ok(())
    }

    /// Read index `i`: a cache hit answers from memory with a defensive
    /// copy, a miss reads and decodes from the store; `i >= len` is an
    /// empty result, never an error. Whenever the bytes stored at `i`
    /// are known, the read returns exactly the element carrying them,
    /// unless the store itself fails.
    pub fn get(&self, i: usize) -> (r: Result<Option<Value<V>>, FundbError>)
        requires
            self.wf(),
        ensures
            i as int >= self.len_spec() ==> (r matches Ok(o) && o is None),
            self.has_entry(i as int) ==> (r matches Ok(o) && o matches Some(val) && val.enc()
                == self.entry_enc(i as int)) || r == Err::<Option<Value<V>>, FundbError>(
                FundbError::StoreIo,
            ),
            self.is_hit(i as int) ==> (r matches Ok(o) && o matches Some(val) && val.enc()
                == self.entry_enc(i as int)),
            r matches Ok(o) ==> (o matches Some(val) ==> (i as int) < self.len_spec()
                && self.store_map().contains_key(vec_key(i as int)) && val.enc()
                == self.store_map()[vec_key(i as int)]),
            (i as int) < self.len_spec() && (r matches Ok(o) && o is None)
                ==> !self.store_map().contains_key(vec_key(i as int)),
    {
        if i >= self.len {
            return Ok(None);
        }
        let clen = self.cache.len();
        let start = self.len - clen;
        if i >= start {
            proof {
                assert(self.known@.contains_key(i as int));
            }
            let j = i - start;
            let val = Value::new(self.cache[j].copy());
            return Ok(Some(val));
        }
        let key = make_vec_key(i as u64);
        match store_get(&self.db, key.as_slice()) {
            Ok(Some(bytes)) => match V::decode(bytes.as_slice()) {
                Some(elem) => Ok(Some(Value::new(elem))),
                None => {
                    proof {
                        assert(!self.has_entry(i as int));
                    }
                    Err(FundbError::Decode)
                },
            },
            Ok(None) => {
                proof {
                    assert(!self.has_entry(i as int));
                }
                Ok(None)
            },
            Err(e) => Err(store_err(e)),
        }
    }

    /// Read the most recently appended element: `get(len - 1)`, empty
    /// when the collection is empty.
    pub fn last(&self) -> (r: Result<Option<Value<V>>, FundbError>)
        requires
            self.wf(),
        ensures
            self.len_spec() == 0 ==> (r matches Ok(o) && o is None),
            self.len_spec() > 0 && self.has_entry(self.len_spec() - 1) ==> (r matches Ok(o)
                && o matches Some(val) && val.enc() == self.entry_enc(self.len_spec() - 1)) || r
                == Err::<Option<Value<V>>, FundbError>(FundbError::StoreIo),
            r matches Ok(o) ==> (o matches Some(val) ==> self.len_spec() > 0
                && self.store_map().contains_key(vec_key(self.len_spec() - 1)) && val.enc()
                == self.store_map()[vec_key(self.len_spec() - 1)]),
    {
        if self.len == 0 {
            return Ok(None);
        }
        self.get(self.len - 1)
    }

    /// Block until everything written so far has reached disk.
    pub fn flush(&self) -> (r: Result<(), FundbError>)
    {
        match store_flush(&self.db) {
            Ok(u) => Ok(u),
            Err(e) => Err(store_err(e)),
        }
    }
}

/// A lazy, restartable cursor over `0..len`, applying the same hit/miss
/// rule as `get` per index and counting the hits it answered from
/// memory.
pub struct VecxIter<'a, V: Codec> {
    owner: &'a Vecx<V>,
    idx: usize,
    /// How many of the yielded elements came from the cache window.
    pub mem_hits: usize,
}

impl<V: Codec> Vecx<V> {
    /// Start an iteration over all indices in order.
    pub fn iter(&self) -> (it: VecxIter<'_, V>)
        ensures
            it.owner_spec() == *self,
            it.idx_spec() == 0,
            it.mem_hits_spec() == 0,
    {
        VecxIter { owner: self, idx: 0, mem_hits: 0 }
    }
}

impl<'a, V: Codec> VecxIter<'a, V> {
    /// The index the cursor will read next.
    pub closed spec fn idx_spec(self) -> int {
        self.idx as int
    }

    /// How many hits the cursor has counted so far.
    pub closed spec fn mem_hits_spec(self) -> int {
        self.mem_hits as int
    }

    /// The collection being iterated.
    pub closed spec fn owner_spec(self) -> Vecx<V> {
        *self.owner
    }

    /// Yield the next element, or an empty result once past the end.
    /// `mem_hits` grows by one exactly when the index sat in the cache
    /// window.
    pub fn next(&mut self) -> (r: Result<Option<Value<V>>, FundbError>)
        requires
            old(self).owner_spec().wf(),
            old(self).mem_hits_spec() < usize::MAX as int,
            old(self).idx_spec() < usize::MAX as int,
        ensures
            final(self).owner_spec() == old(self).owner_spec(),
            old(self).idx_spec() >= old(self).owner_spec().len_spec() ==> {
                &&& r matches Ok(o) && o is None
                &&& final(self).idx_spec() == old(self).idx_spec()
                &&& final(self).mem_hits_spec() == old(self).mem_hits_spec()
            },
            old(self).idx_spec() < old(self).owner_spec().len_spec() ==> {
                &&& final(self).idx_spec() == old(self).idx_spec() + 1
                &&& final(self).mem_hits_spec() == old(self).mem_hits_spec() + (
                if old(self).owner_spec().is_hit(old(self).idx_spec()) {
                    1int
                } else {
                    0int
                })
                &&& (old(self).owner_spec().has_entry(old(self).idx_spec()) ==> (r matches Ok(o)
                    && o matches Some(val) && val.enc() == old(self).owner_spec().entry_enc(
                    old(self).idx_spec(),
                )) || r == Err::<Option<Value<V>>, FundbError>(FundbError::StoreIo))
                &&& (r matches Ok(o) ==> (o matches Some(val) ==> old(self).owner_spec().store_map().contains_key(
                    vec_key(old(self).idx_spec()),
                ) && val.enc() == old(self).owner_spec().store_map()[vec_key(old(self).idx_spec())]))
                &&& (r matches Ok(o) ==> (o is None ==> !old(self).owner_spec().store_map().contains_key(
                    vec_key(old(self).idx_spec()),
                )))
            },
    {
        if self.idx >= self.owner.len() {
            return Ok(None);
        }
        let hit = {
            let clen = self.owner.cache.len();
            let start = self.owner.len - clen;
            self.idx >= start
        };
        let r = self.owner.get(self.idx);
        self.idx = self.idx + 1;
        if hit {
            self.mem_hits = self.mem_hits + 1;
        }
        r
    }
}

} // verus!
