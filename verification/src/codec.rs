//! The value codec boundary: every element stored by the collections is
//! encoded to bytes and decoded back through this trait. Contracts are
//! stated over the spec-level encoding, so a decoded element is pinned
//! down exactly up to its (injective) encoding.

use vstd::prelude::*;
use crate::bytes::{u64_le, u64_to_le, u64_from_le, lemma_le_bytes_len, lemma_u64_le_injective};

verus! {

/// An element that can be stored: it encodes itself to bytes, decodes
/// canonical bytes back, and can be duplicated without changing its
/// encoding.
pub trait Codec: Sized {
    /// The spec-level byte encoding of this value.
    spec fn enc_spec(&self) -> Seq<u8>;

    /// Encode the value; the result is exactly `enc_spec`.
    fn encode(&self) -> (r: Vec<u8>)
        ensures
            r@ == self.enc_spec(),
    ;

    /// Decode bytes: canonical bytes (the encoding of some value) always
    /// decode, and whatever decodes re-encodes to the given bytes.
    fn decode(bytes: &[u8]) -> (r: Option<Self>)
        ensures
            (r matches Some(v) ==> v.enc_spec() == bytes@),
            (exists|v: Self| (#[trigger] v.enc_spec()) == bytes@) ==> r is Some,
    ;

    /// Duplicate the value; the copy has the same encoding.
    fn copy(&self) -> (r: Self)
        ensures
            r.enc_spec() == self.enc_spec(),
    ;
}

impl Codec for u64 {
    open spec fn enc_spec(&self) -> Seq<u8> {
        u64_le(*self)
    }

    fn encode(&self) -> (r: Vec<u8>) {
        u64_to_le(*self)
    }

    fn decode(bytes: &[u8]) -> (r: Option<Self>) {
        if bytes.len() != 8 {
            proof {
                lemma_le_bytes_len(0, 8);
                assert forall|v: u64| (#[trigger] v.enc_spec()) != bytes@ by {
                    lemma_le_bytes_len(v as nat, 8);
                }
            }
            None
        } else {
            let x = u64_from_le(bytes);
            proof {
                assert forall|v: u64| (#[trigger] v.enc_spec()) == bytes@ implies Some(x) == Some(v) by {
                    lemma_u64_le_injective(x, v);
                }
            }
            Some(x)
        }
    }

    fn copy(&self) -> (r: Self) {
        *self
    }
}

/// A sample record of the shape the tests push through the collections:
/// an index and a run of numbers.
#[derive(Debug, Clone, PartialEq, Eq)]
pub struct SampleBlock {
    pub idx: u64,
    pub data: Vec<u64>,
}

/// The concatenated encodings of a run of numbers, in order.
pub open spec fn run_enc(s: Seq<u64>) -> Seq<u8>
    decreases s.len(),
{
    if s.len() == 0 {
        Seq::<u8>::empty()
    } else {
        run_enc(s.drop_last()) + u64_le(s.last())
    }
}

pub proof fn lemma_run_enc_len(s: Seq<u64>)
    ensures
        run_enc(s).len() == 8 * s.len(),
    decreases s.len(),
{
    if s.len() > 0 {
        lemma_run_enc_len(s.drop_last());
        lemma_le_bytes_len(s.last() as nat, 8);
    }
}

impl SampleBlock {
    /// The encoding: index, then element count, then the elements,
    /// each as eight little-endian bytes.
    pub open spec fn sample_enc(self) -> Seq<u8> {
        u64_le(self.idx) + u64_le(self.data@.len() as u64) + run_enc(self.data@)
    }
}

impl Codec for SampleBlock {
    open spec fn enc_spec(&self) -> Seq<u8> {
        self.sample_enc()
    }

    fn encode(&self) -> (r: Vec<u8>) {
        let mut r = u64_to_le(self.idx);
        let mut count = u64_to_le(self.data.len() as u64);
        r.append(&mut count);
        let n = self.data.len();
        let mut i: usize = 0;
        proof {
            assert(self.data@.take(0) =~= Seq::<u64>::empty());
        }
        while i < n
            invariant
                0 <= i <= n,
                n == self.data@.len(),
                r@ == u64_le(self.idx) + u64_le(n as u64) + run_enc(self.data@.take(i as int)),
            decreases n - i,
        {
            let mut chunk = u64_to_le(self.data[i]);
            r.append(&mut chunk);
            i = i + 1;
            proof {
                let t = self.data@.take(i as int);
                assert(t.drop_last() =~= self.data@.take(i - 1));
                assert(t.last() == self.data@[i - 1]);
                assert(r@ =~= u64_le(self.idx) + u64_le(n as u64) + run_enc(t));
            }
        }
        proof {
            assert(self.data@.take(n as int) =~= self.data@);
        }
        r
    }

    fn decode(bytes: &[u8]) -> (r: Option<Self>) {
        proof {
            lemma_sample_shape(bytes@);
        }
        if bytes.len() < 16 {
            return None;
        }
        let m = bytes.len() - 16;
        if m % 8 != 0 {
            return None;
        }
        proof {
            vstd::arithmetic::div_mod::lemma_fundamental_div_mod(m as int, 8);
        }
        let idx = u64_from_le(vstd::slice::slice_subrange(bytes, 0, 8));
        let count = u64_from_le(vstd::slice::slice_subrange(bytes, 8, 16));
        let n = m / 8;
        if count != n as u64 {
            proof {
                assert forall|v: SampleBlock| (#[trigger] v.enc_spec()) == bytes@ implies false by {
                    lemma_sample_parts(v, bytes@);
                    lemma_u64_le_injective(count, v.data@.len() as u64);
                }
            }
            return None;
        }
        let mut data: Vec<u64> = Vec::new();
        let mut i: usize = 0;
        proof {
            assert(run_enc(data@) =~= bytes@.subrange(16, 16));
        }
        while i < n
            invariant
                0 <= i <= n,
                16 + 8 * n == bytes@.len(),
                16 + 8 * n <= usize::MAX,
                data@.len() == i,
                run_enc(data@) == bytes@.subrange(16, 16 + 8 * i),
            decreases n - i,
        {
            let lo = 16 + 8 * i;
            let chunk = u64_from_le(vstd::slice::slice_subrange(bytes, lo, lo + 8));
            let ghost d0 = data@;
            data.push(chunk);
            i = i + 1;
            proof {
                assert(data@.drop_last() =~= d0);
                assert(run_enc(data@) =~= bytes@.subrange(16, 16 + 8 * i));
            }
        }
        let out = SampleBlock { idx, data };
        proof {
            assert(out.enc_spec() =~= bytes@);
        }
        Some(out)
    }

    fn copy(&self) -> (r: Self) {
        SampleBlock { idx: self.idx, data: self.data.clone() }
    }
}

/// Any encoding of a sample block is at least 16 bytes, a multiple of 8
/// past the header, and carries the element count in its second field.
proof fn lemma_sample_shape(bytes: Seq<u8>)
    ensures
        forall|v: SampleBlock| (#[trigger] v.enc_spec()) == bytes ==> {
            &&& bytes.len() >= 16
            &&& (bytes.len() - 16) % 8 == 0
            &&& bytes.len() == 16 + 8 * v.data@.len()
        },
{
    assert forall|v: SampleBlock| (#[trigger] v.enc_spec()) == bytes implies {
        &&& bytes.len() >= 16
        &&& (bytes.len() - 16) % 8 == 0
        &&& bytes.len() == 16 + 8 * v.data@.len()
    } by {
        lemma_le_bytes_len(v.idx as nat, 8);
        lemma_le_bytes_len((v.data@.len() as u64) as nat, 8);
        lemma_run_enc_len(v.data@);
        vstd::arithmetic::div_mod::lemma_mod_multiples_basic(v.data@.len() as int, 8);
    }
}

/// Split a sample encoding into its three fields.
proof fn lemma_sample_parts(v: SampleBlock, bytes: Seq<u8>)
    requires
        v.enc_spec() == bytes,
    ensures
        bytes.len() == 16 + 8 * v.data@.len(),
        bytes.subrange(0, 8) == u64_le(v.idx),
        bytes.subrange(8, 16) == u64_le(v.data@.len() as u64),
        bytes.subrange(16, bytes.len() as int) == run_enc(v.data@),
{
    lemma_le_bytes_len(v.idx as nat, 8);
    lemma_le_bytes_len((v.data@.len() as u64) as nat, 8);
    lemma_run_enc_len(v.data@);
    assert(bytes.subrange(0, 8) =~= u64_le(v.idx));
    assert forall|j: int| 0 <= j < 8 implies #[trigger] bytes[8 + j] == u64_le(
        v.data@.len() as u64,
    )[j] by {
        assert(bytes[8 + j] == (u64_le(v.idx) + u64_le(v.data@.len() as u64))[8 + j]);
    }
    assert(bytes.subrange(8, 16) =~= u64_le(v.data@.len() as u64));
    assert(bytes.subrange(16, bytes.len() as int) =~= run_enc(v.data@));
}

/// Build the sample record the tests use: index `idx` carrying the
/// one-element run `[idx]`.
pub fn gen_sample(idx: u64) -> (r: SampleBlock)
    ensures
        r.idx == idx,
        r.data@ == seq![idx],
{
    let data = vec![idx];
    SampleBlock { idx, data }
}

} // verus!
