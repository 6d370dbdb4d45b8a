//! Common types shared by both collections: the error taxonomy and the
//! read-only `Value` view handed out by every read.

use vstd::prelude::*;
use crate::codec::Codec;

verus! {

/// What can go wrong. An absent index or key is an empty result, never
/// an error.
#[derive(Debug, Clone, Copy, PartialEq, Eq, Structural)]
pub enum FundbError {
    /// The store could not be created or opened.
    Open,
    /// The duplicated length header disagrees with itself (or is missing
    /// from a pre-existing store): corruption, surfaced and never repaired.
    Corruption,
    /// Stored bytes do not decode to an element.
    Decode,
    /// The store reported an I/O failure.
    StoreIo,
}

/// Map a store-level failure to the library's own taxonomy.
pub fn store_err(e: sled::Error) -> (r: FundbError)
    ensures
        r == FundbError::StoreIo,
{
    let _ = e;
    FundbError::StoreIo
}

/// Returned by every read: a read-only view of one element. A cache hit
/// hands out a defensive copy of the cached element, so the view always
/// owns its payload; it never mutates the collection it came from.
/// It compares for equality against a bare value through the codec's
/// (injective) encoding; an ordering against a bare value is not
/// offered, because the codec boundary carries no order.
pub struct Value<V: Codec> {
    v: V,
}

impl<V: Codec> Value<V> {
    /// The encoding of the wrapped element; contracts pin values down
    /// through it.
    pub closed spec fn enc(&self) -> Seq<u8> {
        self.v.enc_spec()
    }

    pub(crate) fn new(v: V) -> (r: Self)
        ensures
            r.enc() == v.enc_spec(),
    {
        Value { v }
    }

    /// Consume the view and take the payload.
    pub fn into_inner(self) -> (r: V)
        ensures
            r.enc_spec() == self.enc(),
    {
        self.v
    }

    /// Read the payload without consuming the view.
    pub fn inner(&self) -> (r: &V)
        ensures
            r.enc_spec() == self.enc(),
    {
        &self.v
    }

    /// Compare the view against a bare value: equal exactly when the
    /// two encode to the same bytes.
    pub fn eq_value(&self, other: &V) -> (r: bool)
        ensures
            r == (self.enc() == other.enc_spec()),
    {
        let a = self.v.encode();
        let b = other.encode();
        crate::bytes::bytes_eq(a.as_slice(), b.as_slice())
    }
}

} // verus!
