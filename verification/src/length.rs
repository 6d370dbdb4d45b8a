//! The length header: the element count, stored under a dedicated
//! metadata key as two equal little-endian copies. A successful read
//! requires both copies equal; a mismatch is corruption and is never
//! silently resolved, because a torn write to a single counter would be
//! indistinguishable from a valid short value.

use vstd::prelude::*;
use crate::bytes::{u64_le, u64_to_le, u64_from_le, lemma_le_bytes_len, lemma_u64_le_injective};
use crate::helper::FundbError;
use crate::store::{store_view, store_get, store_put};
use crate::helper::store_err;

verus! {

/// The metadata key the header lives under; element keys never start
/// with this tag byte.
pub open spec fn meta_key() -> Seq<u8> {
    seq![0u8]
}

/// The sixteen header bytes for count `n`: two equal copies.
pub open spec fn len_header(n: u64) -> Seq<u8> {
    u64_le(n) + u64_le(n)
}

/// A well-formed header determines its count: the two halves agree and
/// encode `n`.
pub proof fn lemma_len_header_injective(a: u64, b: u64)
    requires
        len_header(a) == len_header(b),
    ensures
        a == b,
{
    lemma_le_bytes_len(a as nat, 8);
    lemma_le_bytes_len(b as nat, 8);
    assert(len_header(a).subrange(0, 8) =~= u64_le(a));
    assert(len_header(b).subrange(0, 8) =~= u64_le(b));
    lemma_u64_le_injective(a, b);
}

/// Encode the count as its duplicated sixteen-byte header.
pub fn encode_len(n: u64) -> (r: Vec<u8>)
    ensures
        r@ == len_header(n),
{
    let mut r = u64_to_le(n);
    let mut second = u64_to_le(n);
    r.append(&mut second);
    proof {
        assert(r@ =~= len_header(n));
    }
    r
}

/// Decode a header: equal copies yield the count, anything else is
/// corruption — never either stored value.
pub fn decode_len(b: &[u8]) -> (r: Result<u64, FundbError>)
    ensures
        r matches Ok(n) ==> b@ == len_header(n),
        forall|n: u64| b@ == len_header(n) ==> r == Ok::<u64, FundbError>(n),
        b@.len() == 16 && b@.subrange(0, 8) != b@.subrange(8, 16) ==> r == Err::<
            u64,
            FundbError,
        >(FundbError::Corruption),
        b@.len() != 16 ==> r == Err::<u64, FundbError>(FundbError::Corruption),
        r matches Err(e) ==> e == FundbError::Corruption,
{
    proof {
        assert forall|n: u64| #[trigger] len_header(n).len() == 16 by {
            lemma_le_bytes_len(n as nat, 8);
        }
    }
    if b.len() != 16 {
        return Err(FundbError::Corruption);
    }
    let first = u64_from_le(vstd::slice::slice_subrange(b, 0, 8));
    let second = u64_from_le(vstd::slice::slice_subrange(b, 8, 16));
    if first == second {
        proof {
            assert(b@ =~= len_header(first));
            assert forall|n: u64| b@ == len_header(n) implies n == first by {
                lemma_len_header_injective(n, first);
            }
        }
        Ok(first)
    } else {
        proof {
            assert(b@.subrange(0, 8) != b@.subrange(8, 16)) by {
                if b@.subrange(0, 8) == b@.subrange(8, 16) {
                    lemma_u64_le_injective(first, second);
                }
            }
            assert forall|n: u64| b@ != len_header(n) by {
                if b@ == len_header(n) {
                    lemma_le_bytes_len(n as nat, 8);
                    assert(b@.subrange(0, 8) =~= u64_le(n));
                    assert(b@.subrange(8, 16) =~= u64_le(n));
                }
            }
        }
        Err(FundbError::Corruption)
    }
}

/// Write the header for count `n` under the metadata key.
pub fn write_length(db: &mut sled::Db, n: u64) -> (r: Result<(), FundbError>)
    ensures
        r is Ok ==> store_view(*final(db)) == store_view(*old(db)).insert(meta_key(), len_header(n)),
        r is Err ==> store_view(*final(db)) == store_view(*old(db)) || store_view(*final(db))
            == store_view(*old(db)).insert(meta_key(), len_header(n)),
{
    let header = encode_len(n);
    let key: Vec<u8> = vec![0u8];
    proof {
        assert(key@ =~= meta_key());
    }
    match store_put(db, key.as_slice(), header.as_slice()) {
        Ok(_) => Ok(()),
        Err(e) => Err(store_err(e)),
    }
}

/// Read the header back: the count when both copies agree, corruption
/// when they disagree or the header is missing from the store.
pub fn read_length(db: &sled::Db) -> (r: Result<u64, FundbError>)
    ensures
        r matches Ok(n) ==> store_view(*db).contains_key(meta_key()) && store_view(*db)[meta_key()]
            == len_header(n),
        r == Err::<u64, FundbError>(FundbError::Corruption) ==> !store_view(*db).contains_key(
            meta_key(),
        ) || (forall|n: u64| store_view(*db)[meta_key()] != len_header(n)),
        r matches Err(e) ==> e == FundbError::Corruption || e == FundbError::StoreIo,
{
    let key: Vec<u8> = vec![0u8];
    proof {
        assert(key@ =~= meta_key());
    }
    match store_get(db, key.as_slice()) {
        Ok(Some(bytes)) => decode_len(bytes.as_slice()),
        Ok(None) => Err(FundbError::Corruption),
        Err(e) => Err(store_err(e)),
    }
}

} // verus!

