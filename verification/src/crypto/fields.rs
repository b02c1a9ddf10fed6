//! Field arithmetic over `F_p`, `p = 0x1eeed4e13a526bab`.
//!
//! Field elements are `u64` values in `[0, p)`. Since `2·p < 2^64`, adding
//! canonical elements cannot overflow. Since `2^56 < p`, any 7-byte input
//! packs losslessly into one element.

use vstd::arithmetic::div_mod::{
    lemma_add_mod_noop, lemma_fundamental_div_mod_converse, lemma_small_mod, lemma_sub_mod_noop,
};
use vstd::prelude::*;

use crate::bytes::{read_le, write_le};

verus! {

/// Prime modulus.
pub const P: u64 = 0x1eeed4e13a526bab;

/// Bytes packed per field element by the IBLT and payload encoders.
pub const PACK_BYTES: usize = 7;

/// Bytes per field element on the wire, encoded as a little-endian `u64`.
pub const WIRE_BYTES: usize = 8;

/// First value that does not pack into `PACK_BYTES` bytes: `2^56`.
pub const PACK_LIMIT: u64 = 0x100_0000_0000_0000;

/// The sum of two words in `F_p`.
pub open spec fn fadd(a: u64, b: u64) -> u64 {
    ((a + b) % (P as int)) as u64
}

/// The difference of two words in `F_p`.
pub open spec fn fsub(a: u64, b: u64) -> u64 {
    ((a - b) % (P as int)) as u64
}

/// `x` is the representative in `[0, p)` of its residue class.
pub open spec fn canonical(x: u64) -> bool {
    x < P
}

/// Every element of `s` is canonical.
pub open spec fn all_canonical(s: Seq<u64>) -> bool {
    forall|i: int| 0 <= i < s.len() ==> #[trigger] canonical(s[i])
}

/// `a` with `b` added to it element by element, as far as both reach.
pub open spec fn vadd(a: Seq<u64>, b: Seq<u64>) -> Seq<u64> {
    Seq::new(
        a.len(),
        |i: int|
            if i < b.len() {
                fadd(a[i], b[i])
            } else {
                a[i]
            },
    )
}

/// `a` with `b` subtracted from it element by element, as far as both reach.
pub open spec fn vsub(a: Seq<u64>, b: Seq<u64>) -> Seq<u64> {
    Seq::new(
        a.len(),
        |i: int|
            if i < b.len() {
                fsub(a[i], b[i])
            } else {
                a[i]
            },
    )
}

/// The vector of `n` zeros.
pub open spec fn vzero(n: nat) -> Seq<u64> {
    Seq::new(n, |i: int| 0u64)
}

/// Decode up to `PACK_BYTES` little-endian bytes into a field element. The
/// resulting value is `< 2^56 < p`, so no reduction is needed.
pub fn from_le_bytes_packed(b: &[u8]) -> (x: u64)
    requires
        b@.len() <= PACK_BYTES,
    ensures
        x == crate::bytes::le_nat(b@),
        x < PACK_LIMIT,
        canonical(x),
{
    proof {
        crate::bytes::lemma_le_nat_bound(b@);
        crate::bytes::lemma_pow256_monotone(b@.len(), 7);
        crate::bytes::lemma_pow256_values();
    }
    read_le(b)
}

/// Encode a field element `< 2^56` to `PACK_BYTES` little-endian bytes.
pub fn to_le_bytes_packed(x: u64) -> (out: [u8; PACK_BYTES])
    requires
        x < PACK_LIMIT,
    ensures
        out@ == crate::bytes::le_seq(x as nat, PACK_BYTES as nat),
{
    let v = write_le(x, PACK_BYTES);
    let out: [u8; PACK_BYTES] = [v[0], v[1], v[2], v[3], v[4], v[5], v[6]];
    proof {
        assert(out@ =~= v@);
    }
    out
}

/// Decode a field element from `WIRE_BYTES` little-endian bytes. Used on
/// deserialized wire payloads; values are expected to be canonical (`< p`),
/// callers may choose to enforce that.
pub fn from_le_bytes_wire(b: &[u8; WIRE_BYTES]) -> (x: u64)
    ensures
        x == crate::bytes::le_nat(b@),
{
    read_le(b)
}

/// Encode a field element to `WIRE_BYTES` little-endian bytes.
pub fn to_le_bytes_wire(x: u64) -> (out: [u8; WIRE_BYTES])
    ensures
        out@ == crate::bytes::le_seq(x as nat, WIRE_BYTES as nat),
{
    let v = write_le(x, WIRE_BYTES);
    let out: [u8; WIRE_BYTES] = [v[0], v[1], v[2], v[3], v[4], v[5], v[6], v[7]];
    proof {
        assert(out@ =~= v@);
    }
    out
}

/// Reduce any `u64` modulo p.
pub fn reduce(x: u64) -> (r: u64)
    ensures
        r == x % P,
        canonical(r),
{
    x % P
}

/// `(a + b) mod q`.
pub fn add_mod(a: u64, b: u64, q: u64) -> (r: u64)
    requires
        q > 0,
    ensures
        r == (a + b) % (q as int),
{
    let x: u64 = a % q;
    let y: u64 = b % q;
    proof {
        lemma_add_mod_noop(a as int, b as int, q as int);
    }
    if x >= q - y {
        proof {
            lemma_fundamental_div_mod_converse(x + y, q as int, 1, x + y - q);
        }
        x - (q - y)
    } else {
        proof {
            lemma_small_mod((x + y) as nat, q as nat);
        }
        x + y
    }
}

/// `(a - b) mod q`.
pub fn sub_mod(a: u64, b: u64, q: u64) -> (r: u64)
    requires
        q > 0,
    ensures
        r == (a - b) % (q as int),
{
    let x: u64 = a % q;
    let y: u64 = b % q;
    proof {
        lemma_sub_mod_noop(a as int, b as int, q as int);
    }
    if x >= y {
        proof {
            lemma_small_mod((x - y) as nat, q as nat);
        }
        x - y
    } else {
        proof {
            lemma_fundamental_div_mod_converse(x - y, q as int, -1, x - y + q);
        }
        q - (y - x)
    }
}

/// `dst[i] = (dst[i] + src[i]) mod p` for `i in 0..min(dst.len(), src.len())`.
pub fn add_mod_slice(dst: &mut [u64], src: &[u64])
    ensures
        final(dst)@ == vadd(old(dst)@, src@),
{
    let mut i: usize = 0;
    while i < dst.len() && i < src.len()
        invariant
            i <= dst@.len(),
            i <= src@.len(),
            dst@.len() == old(dst)@.len(),
            forall|k: int| 0 <= k < i ==> dst@[k] == fadd(old(dst)@[k], src@[k]),
            forall|k: int| i <= k < dst@.len() ==> dst@[k] == old(dst)@[k],
        decreases dst@.len() - i,
    {
        dst[i] = add_mod(dst[i], src[i], P);
        i = i + 1;
    }
    proof {
        assert(dst@ =~= vadd(old(dst)@, src@));
    }
}

/// `dst[i] = (dst[i] - src[i]) mod p` for `i in 0..min(dst.len(), src.len())`.
pub fn sub_mod_slice(dst: &mut [u64], src: &[u64])
    ensures
        final(dst)@ == vsub(old(dst)@, src@),
{
    let mut i: usize = 0;
    while i < dst.len() && i < src.len()
        invariant
            i <= dst@.len(),
            i <= src@.len(),
            dst@.len() == old(dst)@.len(),
            forall|k: int| 0 <= k < i ==> dst@[k] == fsub(old(dst)@[k], src@[k]),
            forall|k: int| i <= k < dst@.len() ==> dst@[k] == old(dst)@[k],
        decreases dst@.len() - i,
    {
        dst[i] = sub_mod(dst[i], src[i], P);
        i = i + 1;
    }
    proof {
        assert(dst@ =~= vsub(old(dst)@, src@));
    }
}

/// Whether every element of `s` is canonical.
pub fn is_all_canonical(s: &[u64]) -> (r: bool)
    ensures
        r == all_canonical(s@),
{
    let mut i: usize = 0;
    while i < s.len()
        invariant
            i <= s@.len(),
            forall|k: int| 0 <= k < i ==> canonical(s@[k]),
        decreases s@.len() - i,
    {
        if s[i] >= P {
            proof {
                assert(!canonical(s@[i as int]));
            }
            return false;
        }
        i = i + 1;
    }
    true
}

/// A vector of `n` zeros.
pub fn zeros(n: usize) -> (v: Vec<u64>)
    ensures
        v@ == vzero(n as nat),
{
    let v: Vec<u64> = vec![0u64; n];
    proof {
        assert(v@ =~= vzero(n as nat));
    }
    v
}

/// Packing is lossless: up to seven bytes survive a trip through a field
/// element, filled up with zero bytes.
pub proof fn law_pack_round_trip(b: Seq<u8>)
    requires
        b.len() <= PACK_BYTES,
    ensures
        crate::bytes::le_nat(b) < PACK_LIMIT < P,
        crate::bytes::le_seq(crate::bytes::le_nat(b), PACK_BYTES as nat) == b + Seq::new(
            (PACK_BYTES - b.len()) as nat,
            |i: int| 0u8,
        ),
{
    let pad = Seq::new((PACK_BYTES - b.len()) as nat, |i: int| 0u8);
    crate::bytes::lemma_le_nat_bound(b);
    crate::bytes::lemma_pow256_monotone(b.len(), 7);
    crate::bytes::lemma_pow256_values();
    crate::bytes::lemma_le_nat_zero_extended(b, pad);
    crate::bytes::lemma_le_seq_of_le_nat(b + pad);
}

/// Unpacking is lossless: an element below `2^56` survives a trip through its
/// packed bytes.
pub proof fn law_unpack_round_trip(x: u64)
    requires
        x < PACK_LIMIT,
    ensures
        crate::bytes::le_nat(crate::bytes::le_seq(x as nat, PACK_BYTES as nat)) == x,
{
    crate::bytes::lemma_pow256_values();
    crate::bytes::lemma_le_nat_of_le_seq(x as nat, PACK_BYTES as nat);
}

/// The wire form is lossless: every word survives a trip through its eight
/// wire bytes, and every eight bytes survive a trip through their word.
pub proof fn law_wire_round_trip(x: u64, b: Seq<u8>)
    requires
        b.len() == WIRE_BYTES,
    ensures
        crate::bytes::le_nat(crate::bytes::le_seq(x as nat, WIRE_BYTES as nat)) == x,
        crate::bytes::le_seq(crate::bytes::le_nat(b), WIRE_BYTES as nat) == b,
{
    crate::bytes::lemma_pow256_values();
    crate::bytes::lemma_le_nat_of_le_seq(x as nat, WIRE_BYTES as nat);
    crate::bytes::lemma_le_seq_of_le_nat(b);
}

/// Subtracting what was added restores the canonical element, and the other
/// way round.
pub proof fn law_add_sub_cancel(a: u64, b: u64)
    requires
        canonical(a),
    ensures
        fsub(fadd(a, b), b) == a,
        fadd(fsub(a, b), b) == a,
        canonical(fadd(a, b)),
        canonical(fsub(a, b)),
{
    let p = P as int;
    lemma_small_mod(a as nat, P as nat);
    lemma_sub_mod_noop(a + b, b as int, p);
    lemma_sub_mod_noop((a + b) % p, b as int, p);
    vstd::arithmetic::div_mod::lemma_mod_twice(a + b, p);
    lemma_add_mod_noop(a - b, b as int, p);
    lemma_add_mod_noop((a - b) % p, b as int, p);
    vstd::arithmetic::div_mod::lemma_mod_twice(a - b, p);
}

/// Vector form of [`law_add_sub_cancel`]: subtracting what was added restores
/// a canonical vector.
pub proof fn law_vector_add_sub_cancel(a: Seq<u64>, b: Seq<u64>)
    requires
        all_canonical(a),
    ensures
        vsub(vadd(a, b), b) == a,
        vadd(vsub(a, b), b) == a,
{
    assert forall|i: int| 0 <= i < a.len() && i < b.len() implies fsub(fadd(a[i], b[i]), b[i])
        == a[i] && fadd(fsub(a[i], b[i]), b[i]) == a[i] by {
        assert(canonical(a[i]));
        law_add_sub_cancel(a[i], b[i]);
    }
    assert(vsub(vadd(a, b), b) =~= a);
    assert(vadd(vsub(a, b), b) =~= a);
}

/// Elements are added and subtracted modulo p.
pub proof fn law_elements_add_modulo_p(a: u64, b: u64)
    ensures
        fadd(a, b) == (a + b) % 0x1eeed4e13a526bab,
        fsub(a, b) == (a - b) % 0x1eeed4e13a526bab,
        canonical(a) <==> a < 0x1eeed4e13a526bab,
{
}

/// Vectors are added and subtracted element by element modulo p. Where the
/// second vector is shorter, the rest of the first stays, and where it is
/// longer, its rest is left out.
pub proof fn law_vectors_add_element_by_element(a: Seq<u64>, b: Seq<u64>, i: int)
    requires
        0 <= i < a.len(),
    ensures
        vadd(a, b).len() == a.len(),
        vsub(a, b).len() == a.len(),
        i < b.len() ==> vadd(a, b)[i] == (a[i] + b[i]) % 0x1eeed4e13a526bab,
        i < b.len() ==> vsub(a, b)[i] == (a[i] - b[i]) % 0x1eeed4e13a526bab,
        i >= b.len() ==> vadd(a, b)[i] == a[i] && vsub(a, b)[i] == a[i],
{
}

} // verus!
