//! Little-endian byte encoding of `u64` values, with the facts the
//! length header and the element codecs need: the encoding is eight
//! bytes long, decoding inverts it, and it is injective.

use vstd::prelude::*;
use vstd::arithmetic::div_mod::lemma_fundamental_div_mod;

verus! {

/// `n`-byte little-endian encoding of `x`, least significant byte first.
pub open spec fn le_bytes(x: nat, n: nat) -> Seq<u8>
    decreases n,
{
    if n == 0 {
        Seq::<u8>::empty()
    } else {
        seq![(x % 256) as u8] + le_bytes(x / 256, (n - 1) as nat)
    }
}

/// The eight-byte little-endian encoding of a `u64`.
pub open spec fn u64_le(x: u64) -> Seq<u8> {
    le_bytes(x as nat, 8)
}

/// 256 to the power `n`: the number of values an `n`-byte field can hold.
pub open spec fn pow256(n: nat) -> nat
    decreases n,
{
    if n == 0 {
        1
    } else {
        256 * pow256((n - 1) as nat)
    }
}

pub proof fn lemma_le_bytes_len(x: nat, n: nat)
    ensures
        le_bytes(x, n).len() == n,
    decreases n,
{
    if n > 0 {
        lemma_le_bytes_len(x / 256, (n - 1) as nat);
    }
}

pub proof fn lemma_u64_fits(x: u64)
    ensures
        (x as nat) < pow256(8),
{
    assert(pow256(8) == 256 * pow256(7));
    assert(pow256(7) == 256 * pow256(6));
    assert(pow256(6) == 256 * pow256(5));
    assert(pow256(5) == 256 * pow256(4));
    assert(pow256(4) == 256 * pow256(3));
    assert(pow256(3) == 256 * pow256(2));
    assert(pow256(2) == 256 * pow256(1));
    assert(pow256(1) == 256 * pow256(0));
}

/// Two numbers below `pow256(n)` with the same `n`-byte encoding are equal.
pub proof fn lemma_le_bytes_injective(x: nat, y: nat, n: nat)
    requires
        x < pow256(n),
        y < pow256(n),
        le_bytes(x, n) == le_bytes(y, n),
    ensures
        x == y,
    decreases n,
{
    if n == 0 {
        assert(x == 0 && y == 0);
    } else {
        assert(le_bytes(x, n)[0] == (x % 256) as u8);
        assert(le_bytes(y, n)[0] == (y % 256) as u8);
        assert(x % 256 == y % 256);
        assert(le_bytes(x, n).skip(1) =~= le_bytes(x / 256, (n - 1) as nat)) by {
            lemma_le_bytes_len(x / 256, (n - 1) as nat);
        }
        assert(le_bytes(y, n).skip(1) =~= le_bytes(y / 256, (n - 1) as nat)) by {
            lemma_le_bytes_len(y / 256, (n - 1) as nat);
        }
        assert(x / 256 < pow256((n - 1) as nat)) by {
            lemma_div_bound(x, (n - 1) as nat);
        }
        assert(y / 256 < pow256((n - 1) as nat)) by {
            lemma_div_bound(y, (n - 1) as nat);
        }
        lemma_le_bytes_injective(x / 256, y / 256, (n - 1) as nat);
        lemma_fundamental_div_mod(x as int, 256);
        lemma_fundamental_div_mod(y as int, 256);
    }
}

proof fn lemma_div_bound(x: nat, m: nat)
    requires
        x < 256 * pow256(m),
    ensures
        x / 256 < pow256(m),
{
    if x / 256 >= pow256(m) {
        lemma_fundamental_div_mod(x as int, 256);
        assert(x as int == 256 * (x as int / 256) + (x as int % 256));
        assert(x as int / 256 >= pow256(m));
        assert(256 * (x as int / 256) >= 256 * pow256(m)) by (nonlinear_arith)
            requires x as int / 256 >= pow256(m);
        assert(false);
    }
}

/// Encode `x` as its eight little-endian bytes.
pub fn u64_to_le(x: u64) -> (r: Vec<u8>)
    ensures
        r@ == u64_le(x),
        r@.len() == 8,
{
    let mut r: Vec<u8> = Vec::new();
    let mut cur: u64 = x;
    let mut i: usize = 0;
    while i < 8
        invariant
            0 <= i <= 8,
            r@.len() == i,
            le_bytes(x as nat, 8) == r@ + le_bytes(cur as nat, (8 - i) as nat),
        decreases 8 - i,
    {
        proof {
            lemma_fundamental_div_mod(cur as int, 256);
        }
        let b: u8 = (cur % 256) as u8;
        r.push(b);
        cur = cur / 256;
        i = i + 1;
        proof {
            lemma_le_bytes_len(cur as nat, (8 - i) as nat);
            assert(le_bytes(x as nat, 8) =~= r@ + le_bytes(cur as nat, (8 - i) as nat));
        }
    }
    proof {
        lemma_le_bytes_len(x as nat, 8);
        assert(r@ =~= u64_le(x));
    }
    r
}

/// Decode eight little-endian bytes back into the `u64` they encode.
pub fn u64_from_le(b: &[u8]) -> (r: u64)
    requires
        b@.len() == 8,
    ensures
        u64_le(r) == b@,
{
    let mut cur: u64 = 0;
    let mut i: usize = 8;
    proof {
        lemma_le_bytes_len(0, 0);
        assert(le_bytes(cur as nat, 0) =~= b@.subrange(8, 8));
    }
    while i > 0
        invariant
            0 <= i <= 8,
            b@.len() == 8,
            (cur as nat) < pow256((8 - i) as nat),
            le_bytes(cur as nat, (8 - i) as nat) == b@.subrange(i as int, 8),
        decreases i,
    {
        let byte = b[i - 1];
        proof {
            assert(pow256((8 - i + 1) as nat) == 256 * pow256((8 - i) as nat));
            assert(256 * (cur as nat) + 256 <= 256 * pow256((8 - i) as nat)) by (nonlinear_arith)
                requires (cur as nat) < pow256((8 - i) as nat);
            lemma_pow256_eight();
            lemma_pow256_le((8 - i + 1) as nat, 8);
            let p: nat = pow256((8 - i) as nat);
            let q: nat = pow256((8 - i + 1) as nat);
            assert((cur as nat) * 256 + (byte as nat) < q) by (nonlinear_arith)
                requires (cur as nat) < p, byte < 256, q == 256 * p;
            assert((cur as nat) * 256 + (byte as nat) <= u64::MAX as nat);
        }
        let next: u64 = cur * 256 + (byte as u64);
        proof {
            assert((next as nat) % 256 == byte as nat && (next as nat) / 256 == cur as nat) by (nonlinear_arith)
                requires next == cur * 256 + byte, byte < 256;
            assert(le_bytes(next as nat, (8 - i + 1) as nat)
                =~= b@.subrange(i - 1, 8)) by {
                lemma_le_bytes_len(cur as nat, (8 - i) as nat);
            }
        }
        cur = next;
        i = i - 1;
    }
    proof {
        assert(u64_le(cur) =~= b@);
    }
    cur
}

proof fn lemma_pow256_eight()
    ensures
        pow256(8) == 0x1_0000_0000_0000_0000,
{
    assert(pow256(8) == 256 * pow256(7));
    assert(pow256(7) == 256 * pow256(6));
    assert(pow256(6) == 256 * pow256(5));
    assert(pow256(5) == 256 * pow256(4));
    assert(pow256(4) == 256 * pow256(3));
    assert(pow256(3) == 256 * pow256(2));
    assert(pow256(2) == 256 * pow256(1));
    assert(pow256(1) == 256 * pow256(0));
}

proof fn lemma_pow256_le(a: nat, b: nat)
    requires
        a <= b,
    ensures
        pow256(a) <= pow256(b),
    decreases b,
{
    if a < b {
        lemma_pow256_le(a, (b - 1) as nat);
        assert(pow256(b) == 256 * pow256((b - 1) as nat));
        assert(pow256((b - 1) as nat) <= 256 * pow256((b - 1) as nat)) by (nonlinear_arith)
            requires pow256((b - 1) as nat) >= 0;
    }
}

/// `u64_le` is injective: the headline fact the length header rests on.
pub proof fn lemma_u64_le_injective(x: u64, y: u64)
    requires
        u64_le(x) == u64_le(y),
    ensures
        x == y,
{
    lemma_u64_fits(x);
    lemma_u64_fits(y);
    lemma_le_bytes_injective(x as nat, y as nat, 8);
}

/// Compare two byte slices for equality of contents.
pub fn bytes_eq(a: &[u8], b: &[u8]) -> (r: bool)
    ensures
        r == (a@ == b@),
{
    if a.len() != b.len() {
        proof {
            assert(a@.len() != b@.len());
        }
        return false;
    }
    let n = a.len();
    let mut i: usize = 0;
    while i < n
        invariant
            0 <= i <= n,
            n == a@.len(),
            n == b@.len(),
            forall|j: int| 0 <= j < i ==> a@[j] == b@[j],
        decreases n - i,
    {
        if a[i] != b[i] {
            return false;
        }
        i = i + 1;
    }
    proof {
        assert(a@ =~= b@);
    }
    true
}

} // verus!
