//! The descriptor: the minimal serializable projection of a collection —
//! path, in-memory capacity, ephemeral flag. It owns no element data;
//! restoring from it reopens the store at the path and re-primes the
//! cache window.

use vstd::prelude::*;

verus! {

/// Everything needed to tear a collection down and reconstruct it
/// without transporting its dataset.
pub struct Descriptor {
    /// Filesystem path the store is rooted at.
    pub path: String,
    /// Bound on the in-memory cache window; `None` means unbounded.
    pub in_mem_cnt: Option<usize>,
    /// Whether the store's files are removed when the collection drops.
    pub is_tmp: bool,
}

impl Descriptor {
    /// Build a descriptor from its three fields.
    pub fn new(path: String, in_mem_cnt: Option<usize>, is_tmp: bool) -> (r: Self)
        ensures
            r.path@ == path@,
            r.in_mem_cnt == in_mem_cnt,
            r.is_tmp == is_tmp,
    {
        Descriptor { path, in_mem_cnt, is_tmp }
    }
}

} // verus!
