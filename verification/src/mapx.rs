//! The disk map: an ordered key-value collection backed by the store,
//! keyed by the encoded key bytes, with a bounded keyed cache window.
//!
//! The cache eviction policy is deterministic insertion order: entries
//! are kept in the order they were cached and the oldest cached entry is
//! evicted first once capacity is exceeded. On a storage error the cache
//! window is dropped (and re-fills on later writes); the collection
//! itself stays consistent.
//!
//! Ghost state tracks, per encoded key, the value bytes known to be
//! stored under it; a map whose knowledge is complete (freshly created,
//! and no storage error has intervened) knows exactly the keys the store
//! holds, so its length header equals the live-entry count.

use vstd::prelude::*;
use crate::codec::Codec;
use crate::descriptor::Descriptor;
use crate::helper::{FundbError, Value, store_err};
use crate::length::{meta_key, len_header, write_length, read_length};
use crate::store::{store_view, store_open, store_get, store_put, store_del, store_scan_prefix, lex_lt};

verus! {

/// Two keys under the same tag byte compare as their tails do.
proof fn lemma_lex_strip(a: Seq<u8>, b: Seq<u8>)
    requires
        a.len() >= 1,
        b.len() >= 1,
        a[0] == b[0],
        lex_lt(a, b),
    ensures
        lex_lt(a.skip(1), b.skip(1)),
{
}

/// The store key for encoded key `ke`: a tag byte that can never collide
/// with the metadata key, then the key bytes.
pub open spec fn map_key(ke: Seq<u8>) -> Seq<u8> {
    seq![1u8] + ke
}

/// Data keys are distinct from the metadata key and from each other.
pub proof fn lemma_map_key_facts(a: Seq<u8>, b: Seq<u8>)
    ensures
        map_key(a) != meta_key(),
        a != b ==> map_key(a) != map_key(b),
{
    assert(map_key(a)[0] == 1u8);
    assert(meta_key()[0] == 0u8);
    if a != b && map_key(a) == map_key(b) {
        assert(map_key(a).skip(1) =~= a);
        assert(map_key(b).skip(1) =~= b);
    }
}

/// Build the store key for encoded key `ke`.
fn make_map_key(ke: &Vec<u8>) -> (r: Vec<u8>)
    ensures
        r@ == map_key(ke@),
{
    let mut r: Vec<u8> = vec![1u8];
    let mut tail = ke.clone();
    r.append(&mut tail);
    proof {
        assert(r@ =~= map_key(ke@));
    }
    r
}

/// Find the cache slot holding encoded key `ke`, if any.
fn find_key<V: Codec>(cache: &Vec<(Vec<u8>, V)>, ke: &Vec<u8>) -> (r: Option<usize>)
    ensures
        r matches Some(j) ==> j < cache@.len() && cache@[j as int].0@ == ke@,
        r is None ==> forall|j: int| 0 <= j < cache@.len() ==> (#[trigger] cache@[j]).0@ != ke@,
{
    let n = cache.len();
    let mut j: usize = 0;
    while j < n
        invariant
            0 <= j <= n,
            n == cache@.len(),
            forall|jj: int| 0 <= jj < j ==> (#[trigger] cache@[jj]).0@ != ke@,
        decreases n - j,
    {
        if crate::bytes::bytes_eq(cache[j].0.as_slice(), ke.as_slice()) {
            return Some(j);
        }
        j = j + 1;
    }
    None
}

/// An ordered key-value collection on disk with a bounded keyed cache.
pub struct Mapx<K: Codec, V: Codec> {
    db: sled::Db,
    path: String,
    in_mem_cnt: Option<usize>,
    is_tmp: bool,
    len: usize,
    cache: Vec<(Vec<u8>, V)>,
    known: Ghost<Map<Seq<u8>, Seq<u8>>>,
    complete: Ghost<bool>,
    fresh: Ghost<bool>,
    key_type: Ghost<Option<K>>,
}

impl<K: Codec, V: Codec> Mapx<K, V> {
    /// The entry count, as the length header tracks it.
    pub closed spec fn len_spec(self) -> int {
        self.len as int
    }

    /// The configured cache capacity.
    pub closed spec fn cap_spec(self) -> Option<usize> {
        self.in_mem_cnt
    }

    /// Whether the store's files vanish when the collection drops.
    pub closed spec fn is_tmp_spec(self) -> bool {
        self.is_tmp
    }

    /// The path the store is rooted at.
    pub closed spec fn path_spec(self) -> Seq<char> {
        self.path@
    }

    /// The encoded keys whose stored value bytes are known, and those
    /// bytes.
    pub closed spec fn entries(self) -> Map<Seq<u8>, Seq<u8>> {
        self.known@
    }

    /// Whether the value bytes stored under encoded key `ke` are known.
    pub open spec fn has_key(self, ke: Seq<u8>) -> bool {
        self.entries().contains_key(ke)
    }

    /// The known value bytes under encoded key `ke`.
    pub open spec fn val_enc(self, ke: Seq<u8>) -> Seq<u8> {
        self.entries()[ke]
    }

    /// Whether the known entries are exactly the store's entries, so the
    /// length header counts every live entry.
    pub closed spec fn is_complete(self) -> bool {
        self.complete@
    }

    /// The backing store's contents, for contracts that tie reads and
    /// the length header to what is actually stored.
    pub closed spec fn store_map(self) -> Map<Seq<u8>, Seq<u8>> {
        store_view(self.db)
    }

    /// Whether construction created the store rather than recovering an
    /// existing one; a fresh store starts at count 0 with complete
    /// knowledge.
    pub closed spec fn started_fresh(self) -> bool {
        self.fresh@
    }

    /// How many entries the cache window currently holds.
    pub closed spec fn cache_len_spec(self) -> int {
        self.cache@.len() as int
    }

    /// Whether the entry under encoded key `ke` sits in the cache
    /// window, so a read of it is a memory hit.
    pub closed spec fn is_cached(self, ke: Seq<u8>) -> bool {
        exists|j: int| 0 <= j < self.cache@.len() && (#[trigger] self.cache@[j]).0@ == ke
    }

    /// Well-formedness: cache keys are unique, bounded by capacity, and
    /// carry the bytes known for their key; every known key is backed by
    /// the store with decodable bytes; complete knowledge covers every
    /// data key the store holds and the length header counts them.
    pub closed spec fn wf(self) -> bool {
        &&& self.len <= u64::MAX
        &&& (match self.in_mem_cnt {
            Option::Some(c) => self.cache@.len() <= c,
            Option::None => true,
        })
        &&& forall|j1: int, j2: int|
            0 <= j1 < j2 < self.cache@.len() ==> (#[trigger] self.cache@[j1]).0@ != (
            #[trigger] self.cache@[j2]).0@
        &&& forall|j: int|
            0 <= j < self.cache@.len() ==> self.known@.contains_key((#[trigger] self.cache@[j]).0@)
                && self.cache@[j].1.enc_spec() == self.known@[self.cache@[j].0@]
        &&& forall|ke: Seq<u8>|
            #[trigger] self.known@.contains_key(ke) ==> store_view(self.db).contains_key(
                map_key(ke),
            ) && store_view(self.db)[map_key(ke)] == self.known@[ke]
        &&& forall|ke: Seq<u8>|
            #[trigger] self.known@.contains_key(ke) ==> (exists|v: V|
                (#[trigger] v.enc_spec()) == self.known@[ke]) && (exists|k: K|
                (#[trigger] k.enc_spec()) == ke)
        &&& self.complete@ ==> {
            &&& forall|kk: Seq<u8>|
                #[trigger] store_view(self.db).contains_key(kk) && kk.len() >= 1 && kk[0] == 1u8
                    ==> self.known@.contains_key(kk.skip(1))
            &&& self.known@.dom().finite()
            &&& self.len == self.known@.dom().len()
        }
    }

    /// With complete knowledge the length header counts exactly the
    /// live entries: `len()` equals the number of known keys after any
    /// run of inserts and removes.
    pub proof fn lemma_len_counts_entries(self)
        requires
            self.wf(),
            self.is_complete(),
        ensures
            self.len_spec() == self.entries().dom().len(),
    {
    }

    /// Open or create the store at `path` and build the collection: a
    /// brand-new store starts at count 0 with complete knowledge; a
    /// pre-existing one has its count read from the length header.
    pub fn new(path: &str, in_mem_cnt: Option<usize>, is_tmp: bool) -> (r: Result<
        Mapx<K, V>,
        FundbError,
    >)
        ensures
            r matches Ok(m) ==> {
                &&& m.wf()
                &&& m.path_spec() == path@
                &&& m.cap_spec() == in_mem_cnt
                &&& m.is_tmp_spec() == is_tmp
                &&& m.store_map().contains_key(meta_key())
                &&& m.store_map()[meta_key()] == len_header(m.len_spec() as u64)
                &&& m.started_fresh() ==> m.is_complete() && m.len_spec() == 0 && m.entries()
                    == Map::<Seq<u8>, Seq<u8>>::empty()
            },
    {
        let opened = match store_open(path, is_tmp) {
            Ok(p) => p,
            Err(e) => {
                let _ = store_err(e);
                return Err(FundbError::Open);
            },
        };
        let (db, recovered) = opened;
        let mut db = db;
        if !recovered {
            match write_length(&mut db, 0) {
                Ok(u) => u,
                Err(e) => {
                    return Err(e);
                },
            };
            let m = Mapx {
                db,
                path: path.to_owned(),
                in_mem_cnt,
                is_tmp,
                len: 0,
                cache: Vec::new(),
                known: Ghost(Map::empty()),
                complete: Ghost(true),
                fresh: Ghost(true),
                key_type: Ghost(None),
            };
            proof {
                assert(m.known@.dom() =~= Set::<Seq<u8>>::empty());
            }
            return Ok(m);
        }
        let n = match read_length(&db) {
            Ok(n) => n,
            Err(e) => {
                return Err(e);
            },
        };
        if n > usize::MAX as u64 {
            return Err(FundbError::Corruption);
        }
        let m = Mapx {
            db,
            path: path.to_owned(),
            in_mem_cnt,
            is_tmp,
            len: n as usize,
            cache: Vec::new(),
            known: Ghost(Map::empty()),
            complete: Ghost(false),
            fresh: Ghost(false),
            key_type: Ghost(None),
        };
        Ok(m)
    }

    /// Restore a collection from its descriptor.
    pub fn from_descriptor(d: &Descriptor) -> (r: Result<Mapx<K, V>, FundbError>)
        ensures
            r matches Ok(m) ==> {
                &&& m.wf()
                &&& m.path_spec() == d.path@
                &&& m.cap_spec() == d.in_mem_cnt
                &&& m.is_tmp_spec() == d.is_tmp
                &&& m.store_map().contains_key(meta_key())
                &&& m.store_map()[meta_key()] == len_header(m.len_spec() as u64)
                &&& m.started_fresh() ==> m.is_complete() && m.len_spec() == 0 && m.entries()
                    == Map::<Seq<u8>, Seq<u8>>::empty()
            },
    {
        Mapx::new(d.path.as_str(), d.in_mem_cnt, d.is_tmp)
    }

    /// The descriptor of this collection.
    pub fn descriptor(&self) -> (r: Descriptor)
        ensures
            r.path@ == self.path_spec(),
            r.in_mem_cnt == self.cap_spec(),
            r.is_tmp == self.is_tmp_spec(),
    {
        Descriptor::new(self.path.clone(), self.in_mem_cnt, self.is_tmp)
    }

    /// The entry count, straight from memory.
    pub fn len(&self) -> (r: usize)
        ensures
            r as int == self.len_spec(),
    {
        self.len
    }

    /// Drop the cache window entirely; it re-fills on later writes.
    fn clear_cache(&mut self)
        ensures
            final(self).cache@.len() == 0,
            final(self).db == old(self).db,
            final(self).path == old(self).path,
            final(self).in_mem_cnt == old(self).in_mem_cnt,
            final(self).is_tmp == old(self).is_tmp,
            final(self).len == old(self).len,
            final(self).known == old(self).known,
            final(self).complete == old(self).complete,
    {
        self.cache.clear();
    }

    /// Map `k` to `v`, overwriting any existing entry and updating the
    /// cache; returns whether an entry was already stored under the key.
    /// The length header counts one more entry exactly when the key was
    /// absent. On an error the entry's fate at the store is unknown, so
    /// the key leaves the known entries and completeness is given up.
    pub fn insert(&mut self, k: &K, v: V) -> (r: Result<bool, FundbError>)
        requires
            old(self).wf(),
            old(self).len_spec() < usize::MAX as int,
        ensures
            final(self).wf(),
            final(self).cap_spec() == old(self).cap_spec(),
            final(self).path_spec() == old(self).path_spec(),
            final(self).is_tmp_spec() == old(self).is_tmp_spec(),
            r matches Ok(was) ==> {
                &&& final(self).entries() == old(self).entries().insert(k.enc_spec(), v.enc_spec())
                &&& final(self).is_complete() == old(self).is_complete()
                &&& (old(self).is_complete() ==> was == old(self).has_key(k.enc_spec()))
                &&& final(self).len_spec() == old(self).len_spec() + (if was {
                    0int
                } else {
                    1int
                })
            },
            r is Err ==> {
                &&& final(self).entries() == old(self).entries().remove(k.enc_spec())
                &&& final(self).len_spec() == old(self).len_spec()
            },
    {
        let ghost ke = k.enc_spec();
        let kv = k.encode();
        let mk = make_map_key(&kv);
        let enc = v.encode();
        proof {
            lemma_map_key_facts(ke, ke);
            assert forall|k2: Seq<u8>| #[trigger] self.known@.contains_key(k2) implies map_key(k2)
                != meta_key() && (k2 != ke ==> map_key(k2) != map_key(ke)) by {
                lemma_map_key_facts(k2, ke);
            }
        }
        let prev = match store_put(&mut self.db, mk.as_slice(), enc.as_slice()) {
            Ok(prev) => prev,
            Err(e) => {
                self.clear_cache();
                proof {
                    self.known@ = self.known@.remove(ke);
                    self.complete@ = false;
                }
                return Err(store_err(e));
            },
        };
        let was = prev.is_some();
        let new_len = if was {
            self.len
        } else {
            self.len + 1
        };
        match write_length(&mut self.db, new_len as u64) {
            Ok(u) => u,
            Err(e) => {
                self.clear_cache();
                proof {
                    self.known@ = self.known@.remove(ke);
                    self.complete@ = false;
                }
                return Err(e);
            },
        };
        proof {
            if self.complete@ {
                if was {
                    assert(store_view(old(self).db).contains_key(map_key(ke)));
                    assert(map_key(ke).skip(1) =~= ke);
                    assert(self.known@.contains_key(ke));
                } else {
                    if self.known@.contains_key(ke) {
                        assert(store_view(old(self).db).contains_key(map_key(ke)));
                    }
                    assert(!self.known@.contains_key(ke));
                }
            }
        }
        self.len = new_len;
        proof {
            if self.complete@ {
                if was {
                    assert(self.known@.insert(ke, enc@).dom() =~= self.known@.dom());
                } else {
                    assert(self.known@.insert(ke, enc@).dom() =~= self.known@.dom().insert(ke));
                    vstd::set::axiom_set_insert_len(self.known@.dom(), ke);
                }
            }
            self.known@ = self.known@.insert(ke, enc@);
            if self.complete@ {
                assert forall|kk: Seq<u8>|
                    #[trigger] store_view(self.db).contains_key(kk) && kk.len() >= 1 && kk[0]
                        == 1u8 implies self.known@.contains_key(kk.skip(1)) by {
                    if kk != map_key(ke) {
                        assert(store_view(old(self).db).contains_key(kk));
                    } else {
                        assert(kk.skip(1) =~= ke);
                    }
                }
            }
        }
        let ghost cache0 = self.cache@;
        let found = find_key(&self.cache, &kv);
        match found {
            Some(j) => {
                let _ = self.cache.remove(j);
            },
            None => {
            },
        }
        proof {
            assert forall|j1: int, j2: int|
                0 <= j1 < j2 < self.cache@.len() implies (#[trigger] self.cache@[j1]).0@ != (
            #[trigger] self.cache@[j2]).0@ by {
                if found is Some {
                    let jf = found->0 as int;
                    if j1 < jf && j2 < jf {
                    } else if j1 < jf {
                        assert(self.cache@[j2] == cache0[j2 + 1]);
                    } else {
                        assert(self.cache@[j1] == cache0[j1 + 1]);
                        assert(self.cache@[j2] == cache0[j2 + 1]);
                    }
                }
            }
            assert forall|j: int| 0 <= j < self.cache@.len() implies (#[trigger] self.cache@[j]).0@
                != ke by {
                if found is Some {
                    let jf = found->0 as int;
                    if j >= jf {
                        assert(self.cache@[j] == cache0[j + 1]);
                    }
                }
            }
        }
        let ghost cache1 = self.cache@;
        self.cache.push((kv, v));
        let over = match self.in_mem_cnt {
            Some(c) => self.cache.len() > c,
            None => false,
        };
        if over {
            let _ = self.cache.remove(0);
        }
        proof {
            let ghost pushed = cache1.push((kv, v));
            assert forall|j1: int, j2: int|
                0 <= j1 < j2 < self.cache@.len() implies (#[trigger] self.cache@[j1]).0@ != (
            #[trigger] self.cache@[j2]).0@ by {
                if self.cache@.len() == pushed.len() {
                    assert(self.cache@[j1] == pushed[j1] && self.cache@[j2] == pushed[j2]);
                } else {
                    assert(self.cache@[j1] == pushed[j1 + 1] && self.cache@[j2] == pushed[j2 + 1]);
                }
            }
            assert forall|j: int|
                0 <= j < self.cache@.len() implies self.known@.contains_key(
                (#[trigger] self.cache@[j]).0@,
            ) && self.cache@[j].1.enc_spec() == self.known@[self.cache@[j].0@] by {
                let jj = if self.cache@.len() == pushed.len() {
                    j
                } else {
                    j + 1
                };
                assert(self.cache@[j] == pushed[jj]);
                if jj < cache1.len() {
                    assert(pushed[jj] == cache1[jj]);
                    assert(cache1[jj].0@ != ke);
                }
            }
        }
        Ok(was)
    }

    /// Read the entry under `k`: answered from the cache when present
    /// (with a defensive copy), else read and decoded from the store; an
    /// absent key is an empty result, never an error. Whenever the bytes
    /// stored under the key are known, the read returns exactly the
    /// element carrying them, unless the store itself fails; with
    /// complete knowledge an unknown key is known to be absent.
    pub fn get(&self, k: &K) -> (r: Result<Option<Value<V>>, FundbError>)
        requires
            self.wf(),
        ensures
            self.has_key(k.enc_spec()) ==> (r matches Ok(o) && o matches Some(val) && val.enc()
                == self.val_enc(k.enc_spec())) || r == Err::<Option<Value<V>>, FundbError>(
                FundbError::StoreIo,
            ),
            self.is_cached(k.enc_spec()) ==> (r matches Ok(o) && o matches Some(val) && val.enc()
                == self.val_enc(k.enc_spec())),
            self.is_complete() && !self.has_key(k.enc_spec()) ==> (r matches Ok(o) && o is None)
                || r == Err::<Option<Value<V>>, FundbError>(FundbError::StoreIo),
    {
        let ghost ke = k.enc_spec();
        let kv = k.encode();
        match find_key(&self.cache, &kv) {
            Some(j) => {
                proof {
                    assert(self.cache@[j as int].0@ == ke);
                }
                let val = Value::new(self.cache[j].1.copy());
                return Ok(Some(val));
            },
            None => {
                proof {
                    assert(!self.is_cached(ke));
                }
            },
        }
        let mk = make_map_key(&kv);
        match store_get(&self.db, mk.as_slice()) {
            Ok(Some(bytes)) => match V::decode(bytes.as_slice()) {
                Some(elem) => {
                    proof {
                        if self.is_complete() && !self.has_key(ke) {
                            assert(map_key(ke).skip(1) =~= ke);
                        }
                    }
                    Ok(Some(Value::new(elem)))
                },
                None => {
                    proof {
                        assert(!self.has_key(ke));
                        if self.is_complete() {
                            assert(map_key(ke).skip(1) =~= ke);
                        }
                    }
                    Err(FundbError::Decode)
                },
            },
            Ok(None) => {
                proof {
                    assert(!self.has_key(ke));
                }
                Ok(None)
            },
            Err(e) => Err(store_err(e)),
        }
    }

    /// Delete the entry under `k` from the store and the cache; returns
    /// whether an entry was stored under the key. The length header
    /// counts one less entry exactly when it was. On an error the key
    /// leaves the known entries and completeness is given up.
    pub fn remove(&mut self, k: &K) -> (r: Result<bool, FundbError>)
        requires
            old(self).wf(),
        ensures
            final(self).wf(),
            final(self).cap_spec() == old(self).cap_spec(),
            final(self).path_spec() == old(self).path_spec(),
            final(self).is_tmp_spec() == old(self).is_tmp_spec(),
            r matches Ok(was) ==> {
                &&& final(self).entries() == old(self).entries().remove(k.enc_spec())
                &&& final(self).is_complete() == old(self).is_complete()
                &&& (old(self).is_complete() ==> was == old(self).has_key(k.enc_spec()))
                &&& (old(self).is_complete() ==> final(self).len_spec() == old(self).len_spec() - (
                if was {
                    1int
                } else {
                    0int
                }))
            },
            r is Err ==> {
                &&& final(self).entries() == old(self).entries().remove(k.enc_spec())
                &&& final(self).len_spec() == old(self).len_spec()
            },
    {
        let ghost ke = k.enc_spec();
        let kv = k.encode();
        let mk = make_map_key(&kv);
        proof {
            lemma_map_key_facts(ke, ke);
            assert forall|k2: Seq<u8>| #[trigger] self.known@.contains_key(k2) implies map_key(k2)
                != meta_key() && (k2 != ke ==> map_key(k2) != map_key(ke)) by {
                lemma_map_key_facts(k2, ke);
            }
        }
        let prev = match store_del(&mut self.db, mk.as_slice()) {
            Ok(prev) => prev,
            Err(e) => {
                self.clear_cache();
                proof {
                    self.known@ = self.known@.remove(ke);
                    self.complete@ = false;
                }
                return Err(store_err(e));
            },
        };
        let was = prev.is_some();
        proof {
            if self.complete@ {
                if was {
                    assert(map_key(ke).skip(1) =~= ke);
                    assert(old(self).known@.contains_key(ke));
                } else {
                    if old(self).known@.contains_key(ke) {
                        assert(store_view(old(self).db).contains_key(map_key(ke)));
                    }
                    assert(!old(self).known@.contains_key(ke));
                }
            }
        }
        let new_len = if was && self.len > 0 {
            self.len - 1
        } else {
            self.len
        };
        match write_length(&mut self.db, new_len as u64) {
            Ok(u) => u,
            Err(e) => {
                self.clear_cache();
                proof {
                    self.known@ = self.known@.remove(ke);
                    self.complete@ = false;
                }
                return Err(e);
            },
        };
        proof {
            if self.complete@ {
                if was {
                    assert(self.known@.remove(ke).dom() =~= self.known@.dom().remove(ke));
                    vstd::set::axiom_set_remove_len(self.known@.dom(), ke);
                    assert(self.known@.dom().len() >= 1) by {
                        assert(self.known@.dom().contains(ke));
                        if self.known@.dom().len() == 0 {
                            assert(self.known@.dom() =~= Set::<Seq<u8>>::empty());
                        }
                    }
                } else {
                    assert(self.known@.remove(ke).dom() =~= self.known@.dom());
                }
            }
            self.known@ = self.known@.remove(ke);
            if self.complete@ {
                assert forall|kk: Seq<u8>|
                    #[trigger] store_view(self.db).contains_key(kk) && kk.len() >= 1 && kk[0]
                        == 1u8 implies self.known@.contains_key(kk.skip(1)) by {
                    assert(store_view(old(self).db).contains_key(kk));
                    assert(kk != map_key(ke));
                    if kk.skip(1) == ke {
                        assert(kk =~= map_key(ke));
                    }
                }
            }
        }
        self.len = new_len;
        let ghost cache0 = self.cache@;
        let found = find_key(&self.cache, &kv);
        match found {
            Some(j) => {
                let _ = self.cache.remove(j);
            },
            None => {
            },
        }
        proof {
            assert forall|j1: int, j2: int|
                0 <= j1 < j2 < self.cache@.len() implies (#[trigger] self.cache@[j1]).0@ != (
            #[trigger] self.cache@[j2]).0@ by {
                if found is Some {
                    let jf = found->0 as int;
                    if j1 >= jf {
                        assert(self.cache@[j1] == cache0[j1 + 1]);
                    }
                    if j2 >= jf {
                        assert(self.cache@[j2] == cache0[j2 + 1]);
                    }
                }
            }
            assert forall|j: int|
                0 <= j < self.cache@.len() implies self.known@.contains_key(
                (#[trigger] self.cache@[j]).0@,
            ) && self.cache@[j].1.enc_spec() == self.known@[self.cache@[j].0@] by {
                let jj = if found is Some && j >= found->0 as int {
                    j + 1
                } else {
                    j
                };
                assert(self.cache@[j] == cache0[jj]);
                if found is Some {
                    if j >= found->0 as int {
                        assert(cache0[jj].0@ != cache0[found->0 as int].0@);
                    } else {
                        assert(cache0[jj].0@ != cache0[found->0 as int].0@);
                    }
                } else {
                    assert(cache0[jj].0@ != ke);
                }
            }
        }
        Ok(was)
    }

    /// What a complete iteration yields: every pair carries known
    /// bytes, keys come in ascending encoded order, and every known key
    /// appears.
    pub open spec fn iter_post(self, ps: Seq<(K, Value<V>)>) -> bool {
        &&& forall|j: int|
            0 <= j < ps.len() ==> self.has_key((#[trigger] ps[j]).0.enc_spec())
                && ps[j].1.enc() == self.val_enc(ps[j].0.enc_spec())
        &&& forall|j1: int, j2: int|
            0 <= j1 < j2 < ps.len() ==> lex_lt(
                (#[trigger] ps[j1]).0.enc_spec(),
                (#[trigger] ps[j2]).0.enc_spec(),
            )
        &&& forall|ke: Seq<u8>|
            self.has_key(ke) ==> exists|j: int|
                0 <= j < ps.len() && (#[trigger] ps[j].0.enc_spec()) == ke
    }

    /// What any successful iteration yields, with or without complete
    /// knowledge: every pair re-encodes to an entry the store holds
    /// under its data key, keys come in ascending encoded order, and
    /// every data key the store holds appears.
    pub open spec fn iter_post_store(self, ps: Seq<(K, Value<V>)>) -> bool {
        &&& forall|j: int|
            0 <= j < ps.len() ==> self.store_map().contains_key(
                map_key((#[trigger] ps[j]).0.enc_spec()),
            ) && ps[j].1.enc() == self.store_map()[map_key(ps[j].0.enc_spec())]
        &&& forall|j1: int, j2: int|
            0 <= j1 < j2 < ps.len() ==> lex_lt(
                (#[trigger] ps[j1]).0.enc_spec(),
                (#[trigger] ps[j2]).0.enc_spec(),
            )
        &&& forall|kk: Seq<u8>|
            #[trigger] self.store_map().contains_key(kk) && kk.len() >= 1 && kk[0] == 1u8
                ==> exists|j: int|
                0 <= j < ps.len() && map_key((#[trigger] ps[j].0.enc_spec())) == kk
    }

    /// All entries in ascending order of their encoded keys, each value
    /// read under the same hit/miss rule as `get` would apply. With
    /// complete knowledge the result lists exactly the known entries.
    #[verifier::rlimit(60)]
    #[verifier::spinoff_prover]
    pub fn iter_pairs(&self) -> (r: Result<Vec<(K, Value<V>)>, FundbError>)
        requires
            self.wf(),
        ensures
            r matches Ok(ps) ==> self.iter_post_store(ps@),
            r matches Ok(ps) ==> self.is_complete() ==> self.iter_post(ps@),
    {
        let prefix: Vec<u8> = vec![1u8];
        let pairs = match store_scan_prefix(&self.db, prefix.as_slice()) {
            Ok(ps) => ps,
            Err(e) => {
                return Err(store_err(e));
            },
        };
        let mut out: Vec<(K, Value<V>)> = Vec::new();
        let n = pairs.len();
        let mut i: usize = 0;
        while i < n
            invariant
                0 <= i <= n,
                self.wf(),
                n == pairs@.len(),
                out@.len() == i,
                forall|j: int|
                    0 <= j < pairs@.len() ==> {
                        &&& prefix@.is_prefix_of((#[trigger] pairs@[j]).0@)
                        &&& store_view(self.db).contains_key(pairs@[j].0@)
                        &&& pairs@[j].1@ == store_view(self.db)[pairs@[j].0@]
                    },
                forall|j1: int, j2: int|
                    0 <= j1 < j2 < pairs@.len() ==> lex_lt(
                        (#[trigger] pairs@[j1]).0@,
                        (#[trigger] pairs@[j2]).0@,
                    ),
                prefix@ == seq![1u8],
                forall|key: Seq<u8>|
                    #[trigger] store_view(self.db).contains_key(key) && prefix@.is_prefix_of(key)
                        ==> exists|j: int| 0 <= j < pairs@.len() && (#[trigger] pairs@[j].0@)
                        == key,
                forall|j: int|
                    0 <= j < out@.len() ==> (#[trigger] out@[j]).0.enc_spec() == pairs@[j].0@.skip(
                        1,
                    ) && out@[j].1.enc() == pairs@[j].1@,
                self.is_complete() ==> forall|j: int|
                    0 <= j < out@.len() ==> self.has_key((#[trigger] out@[j]).0.enc_spec())
                        && out@[j].1.enc() == self.val_enc(out@[j].0.enc_spec()),
            decreases n - i,
        {
            let kk = &pairs[i].0;
            let ghost ke = kk@.skip(1);
            proof {
                assert(prefix@.is_prefix_of(pairs@[i as int].0@));
                assert(kk@.subrange(0, 1) == prefix@);
                assert(kk@[0] == kk@.subrange(0, 1)[0]);
                assert(kk@.len() >= 1 && kk@[0] == 1u8);
                if self.is_complete() {
                    assert(self.known@.contains_key(ke));
                    assert(map_key(ke) =~= kk@);
                }
            }
            let kslice = vstd::slice::slice_subrange(kk.as_slice(), 1, kk.len());
            let key = match K::decode(kslice) {
                Some(k) => k,
                None => {
                    return Err(FundbError::Decode);
                },
            };
            let val = match V::decode(pairs[i].1.as_slice()) {
                Some(v) => v,
                None => {
                    return Err(FundbError::Decode);
                },
            };
            proof {
                if self.is_complete() {
                    assert(pairs@[i as int].1@ == self.known@[ke]);
                }
            }
            out.push((key, Value::new(val)));
            i = i + 1;
        }
        proof {
            assert forall|j1: int, j2: int|
                0 <= j1 < j2 < out@.len() implies lex_lt(
                (#[trigger] out@[j1]).0.enc_spec(),
                (#[trigger] out@[j2]).0.enc_spec(),
            ) by {
                assert(prefix@.is_prefix_of(pairs@[j1].0@));
                assert(prefix@.is_prefix_of(pairs@[j2].0@));
                assert(pairs@[j1].0@.subrange(0, 1) == prefix@);
                assert(pairs@[j2].0@.subrange(0, 1) == prefix@);
                assert(pairs@[j1].0@[0] == pairs@[j1].0@.subrange(0, 1)[0]);
                assert(pairs@[j2].0@[0] == pairs@[j2].0@.subrange(0, 1)[0]);
                lemma_lex_strip(pairs@[j1].0@, pairs@[j2].0@);
            }
            assert forall|j: int|
                0 <= j < out@.len() implies self.store_map().contains_key(
                map_key((#[trigger] out@[j]).0.enc_spec()),
            ) && out@[j].1.enc() == self.store_map()[map_key(out@[j].0.enc_spec())] by {
                assert(prefix@.is_prefix_of(pairs@[j].0@));
                assert(pairs@[j].0@.subrange(0, 1) == prefix@);
                assert(pairs@[j].0@[0] == pairs@[j].0@.subrange(0, 1)[0]);
                assert(map_key(out@[j].0.enc_spec()) =~= pairs@[j].0@);
            }
            assert forall|kk: Seq<u8>|
                #[trigger] self.store_map().contains_key(kk) && kk.len() >= 1 && kk[0]
                    == 1u8 implies exists|j: int|
                0 <= j < out@.len() && map_key((#[trigger] out@[j].0.enc_spec())) == kk by {
                assert(prefix@.is_prefix_of(kk)) by {
                    assert(kk.subrange(0, 1) =~= prefix@);
                }
                let j = choose|j: int|
                    0 <= j < pairs@.len() && (#[trigger] pairs@[j].0@) == kk;
                assert(out@[j].0.enc_spec() == pairs@[j].0@.skip(1));
                assert(map_key(out@[j].0.enc_spec()) =~= kk);
            }
            assert(self.iter_post_store(out@));
            if self.is_complete() {
                assert forall|ke: Seq<u8>| self.has_key(ke) implies exists|j: int|
                    0 <= j < out@.len() && (#[trigger] out@[j].0.enc_spec()) == ke by {
                    assert(store_view(self.db).contains_key(map_key(ke)));
                    assert(prefix@.is_prefix_of(map_key(ke))) by {
                        assert(map_key(ke).subrange(0, 1) =~= prefix@);
                    }
                    let j = choose|j: int|
                        0 <= j < pairs@.len() && (#[trigger] pairs@[j].0@) == map_key(ke);
                    assert(out@[j].0.enc_spec() == pairs@[j].0@.skip(1));
                    assert(map_key(ke).skip(1) =~= ke);
                }
                assert forall|j: int|
                    0 <= j < out@.len() implies self.has_key((#[trigger] out@[j]).0.enc_spec())
                    && out@[j].1.enc() == self.val_enc(out@[j].0.enc_spec()) by {}
                assert(self.iter_post(out@));
            }
        }
        Ok(out)
    }
}

} // verus!
