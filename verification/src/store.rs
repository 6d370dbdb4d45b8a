//! The trusted boundary to the embedded ordered key-value store (sled).
//!
//! The store's contents are modelled as a map from key bytes to value
//! bytes, named by `store_view`. Each wrapper states over that name what
//! sled's own source shows of the call it makes; everything above this
//! module is verified against these contracts.

use vstd::prelude::*;

verus! {

#[verifier::external_type_specification]
#[verifier::external_body]
pub struct ExDb(sled::Db);

#[verifier::external_type_specification]
#[verifier::external_body]
pub struct ExSledError(sled::Error);

/// The key-to-value mapping a store handle currently holds.
pub uninterp spec fn store_view(db: sled::Db) -> Map<Seq<u8>, Seq<u8>>;

/// Relies on sled::Config::new / temporary / path and sled::Config::open,
/// plus sled::Db::was_recovered: opens the store rooted at `path`
/// (removing its files again on drop when `is_tmp` is set). The second
/// component is sled's report of whether an existing store was recovered;
/// a store that was not recovered starts with no keys at all.
#[verifier::external_body]
pub fn store_open(path: &str, is_tmp: bool) -> (r: Result<(sled::Db, bool), sled::Error>)
    ensures
        r matches Ok(p) ==> (!p.1 ==> store_view(p.0) == Map::<Seq<u8>, Seq<u8>>::empty()),
{
    let config = sled::Config::new().temporary(is_tmp).path(path);
    match config.open() {
        Ok(db) => {
            let recovered = db.was_recovered();
            Ok((db, recovered))
        }
        Err(e) => Err(e),
    }
}

/// Relies on sled::Tree::get: returns the value stored under `key`, if any.
#[verifier::external_body]
pub fn store_get(db: &sled::Db, key: &[u8]) -> (r: Result<Option<Vec<u8>>, sled::Error>)
    ensures
        r matches Ok(Some(v)) ==> store_view(*db).contains_key(key@) && v@ == store_view(*db)[key@],
        r matches Ok(None) ==> !store_view(*db).contains_key(key@),
{
    match db.get(key) {
        Ok(Some(iv)) => Ok(Some(iv.to_vec())),
        Ok(None) => Ok(None),
        Err(e) => Err(e),
    }
}

/// Relies on sled::Tree::insert: maps `key` to `val` and returns the value
/// previously stored there. Insertion touches a single key; on an error the
/// update either took effect or did not, and no other key changes.
#[verifier::external_body]
pub fn store_put(db: &mut sled::Db, key: &[u8], val: &[u8]) -> (r: Result<Option<Vec<u8>>, sled::Error>)
    ensures
        r matches Ok(prev) ==> {
            &&& store_view(*final(db)) == store_view(*old(db)).insert(key@, val@)
            &&& (prev matches Some(p) ==> store_view(*old(db)).contains_key(key@)
                    && p@ == store_view(*old(db))[key@])
            &&& (prev is None ==> !store_view(*old(db)).contains_key(key@))
        },
        r is Err ==> store_view(*final(db)) == store_view(*old(db))
            || store_view(*final(db)) == store_view(*old(db)).insert(key@, val@),
{
    match db.insert(key, val) {
        Ok(Some(iv)) => Ok(Some(iv.to_vec())),
        Ok(None) => Ok(None),
        Err(e) => Err(e),
    }
}

/// Relies on sled::Tree::remove: deletes `key` and returns the value
/// previously stored there. Deletion touches a single key; on an error the
/// update either took effect or did not, and no other key changes.
#[verifier::external_body]
pub fn store_del(db: &mut sled::Db, key: &[u8]) -> (r: Result<Option<Vec<u8>>, sled::Error>)
    ensures
        r matches Ok(prev) ==> {
            &&& store_view(*final(db)) == store_view(*old(db)).remove(key@)
            &&& (prev matches Some(p) ==> store_view(*old(db)).contains_key(key@)
                    && p@ == store_view(*old(db))[key@])
            &&& (prev is None ==> !store_view(*old(db)).contains_key(key@))
        },
        r is Err ==> store_view(*final(db)) == store_view(*old(db))
            || store_view(*final(db)) == store_view(*old(db)).remove(key@),
{
    match db.remove(key) {
        Ok(Some(iv)) => Ok(Some(iv.to_vec())),
        Ok(None) => Ok(None),
        Err(e) => Err(e),
    }
}

/// Relies on sled::Tree::scan_prefix: yields exactly the entries whose key
/// begins with `prefix`, in ascending lexicographic key order.
#[verifier::external_body]
pub fn store_scan_prefix(db: &sled::Db, prefix: &[u8]) -> (r: Result<
    Vec<(Vec<u8>, Vec<u8>)>,
    sled::Error,
>)
    ensures
        r matches Ok(ps) ==> {
            &&& forall|j: int|
                0 <= j < ps@.len() ==> {
                    &&& prefix@.is_prefix_of((#[trigger] ps@[j]).0@)
                    &&& store_view(*db).contains_key(ps@[j].0@)
                    &&& ps@[j].1@ == store_view(*db)[ps@[j].0@]
                }
            &&& forall|j: int, k: int|
                0 <= j < k < ps@.len() ==> lex_lt((#[trigger] ps@[j]).0@, (#[trigger] ps@[k]).0@)
            &&& forall|key: Seq<u8>|
                #[trigger] store_view(*db).contains_key(key) && prefix@.is_prefix_of(key)
                    ==> exists|j: int| 0 <= j < ps@.len() && (#[trigger] ps@[j].0@) == key
        },
{
    let mut out: Vec<(Vec<u8>, Vec<u8>)> = Vec::new();
    for item in db.scan_prefix(prefix) {
        match item {
            Ok((k, v)) => out.push((k.to_vec(), v.to_vec())),
            Err(e) => return Err(e),
        }
    }
    Ok(out)
}

/// Relies on sled::Tree::flush: blocks until all prior writes reach disk.
#[verifier::external_body]
pub fn store_flush(db: &sled::Db) -> (r: Result<(), sled::Error>)
{
    match db.flush() {
        Ok(_) => Ok(()),
        Err(e) => Err(e),
    }
}

/// Strict lexicographic order on byte strings, the order sled keeps its
/// keys in: a proper prefix comes first, otherwise the first differing
/// byte decides.
pub open spec fn lex_lt(a: Seq<u8>, b: Seq<u8>) -> bool
    decreases a.len(),
{
    if b.len() == 0 {
        false
    } else if a.len() == 0 {
        true
    } else if a[0] < b[0] {
        true
    } else if a[0] > b[0] {
        false
    } else {
        lex_lt(a.skip(1), b.skip(1))
    }
}

} // verus!
