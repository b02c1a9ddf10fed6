//! PRF-based blinding vectors.
//!
//! Two flavors of pad derivation, both keyed by `SHA3-256(round || secret)`'s
//! low 128 bits used as an AES-128-CTR key:
//! - [`derive_blinding_vector`]: produces a vector of field elements
//!   (`u64`, each `< p`) by rejection-sampling AES-CTR words and summing
//!   per-secret contributions in `F_p`.
//! - [`derive_xor_blinding_vector`]: produces a byte vector by XORing the
//!   per-secret keystreams.
//!
//! A field pad draws its words from the `2^64` blocks that the counter can
//! number. [`has_field_pad`] tells whether these hold enough words below the
//! sampling threshold.

use vstd::prelude::*;

use crate::bytes::{append_slice, be_seq, le_nat, read_le, write_be};
use crate::sorting::views;

use super::ciphers::{aes128, aes128_encrypt};
use super::fields::{add_mod_slice, all_canonical, canonical, vadd, vzero, zeros, P};
use super::hashing::{sha3_256, sha3_256_digest};
use super::types::SharedKey;

verus! {

/// First word that the sampler rejects: the largest multiple of p up to
/// `2^64`, so that each residue has equally many preimages.
pub const FIELD_SAMPLE_THRESHOLD: u64 = 0xf776a709d2935d58;

// ---------------------------------------------------------------------------
// Model
// ---------------------------------------------------------------------------

/// The AES key of a secret for a round.
pub open spec fn pad_key(secret: Seq<u8>, round: u32) -> Seq<u8> {
    sha3_256(be_seq(round as nat, 4) + secret).take(16)
}

/// The counter block with number `i`: eight zero bytes, then the number.
pub open spec fn counter_block(i: nat) -> Seq<u8> {
    Seq::new(8, |k: int| 0u8) + be_seq(i, 8)
}

/// Block `i` of the keystream.
pub open spec fn keystream_block(key: Seq<u8>, i: nat) -> Seq<u8> {
    aes128(key, counter_block(i))
}

/// Word `j` of the keystream: eight bytes read little-endian.
pub open spec fn keystream_word(key: Seq<u8>, j: nat) -> u64 {
    let block = keystream_block(key, j / 2);
    le_nat(
        if j % 2 == 0 {
            block.subrange(0, 8)
        } else {
            block.subrange(8, 16)
        },
    ) as u64
}

/// The field element that the sampler makes of a word, unless it rejects it.
pub open spec fn candidate(word: u64) -> Option<u64> {
    if word < FIELD_SAMPLE_THRESHOLD {
        Some(word % P)
    } else {
        None
    }
}

/// The field elements that the sampler makes of the first `m` words.
pub open spec fn accepted(key: Seq<u8>, m: nat) -> Seq<u64>
    decreases m,
{
    if m == 0 {
        Seq::empty()
    } else {
        let before = accepted(key, (m - 1) as nat);
        match candidate(keystream_word(key, (m - 1) as nat)) {
            Some(x) => before.push(x),
            None => before,
        }
    }
}

/// The number of words in `2^64` blocks.
pub open spec fn all_words() -> nat {
    0x2_0000_0000_0000_0000
}

/// The blocks of a secret hold a field pad of `n` elements for the round.
pub open spec fn field_pad_exists(secret: Seq<u8>, round: u32, n: nat) -> bool {
    accepted(pad_key(secret, round), all_words()).len() >= n
}

/// The field pad of `n` elements of a secret for a round.
pub open spec fn field_pad(secret: Seq<u8>, round: u32, n: nat) -> Seq<u64> {
    accepted(pad_key(secret, round), all_words()).take(n as int)
}

/// Every secret has a field pad of `n` elements for the round.
pub open spec fn field_pads_exist(secrets: Seq<Seq<u8>>, round: u32, n: nat) -> bool {
    forall|i: int| 0 <= i < secrets.len() ==> #[trigger] field_pad_exists(secrets[i], round, n)
}

/// The field pads of several secrets added up.
pub open spec fn blinding_vector(secrets: Seq<Seq<u8>>, round: u32, n: nat) -> Seq<u64>
    decreases secrets.len(),
{
    if secrets.len() == 0 {
        vzero(n)
    } else {
        vadd(
            blinding_vector(secrets.drop_last(), round, n),
            field_pad(secrets.last(), round, n),
        )
    }
}

/// `a` with `b` XORed into it, as far as both reach.
pub open spec fn vxor(a: Seq<u8>, b: Seq<u8>) -> Seq<u8> {
    Seq::new(
        a.len(),
        |i: int|
            if i < b.len() {
                a[i] ^ b[i]
            } else {
                a[i]
            },
    )
}

/// The XOR pad of `n` bytes of a secret for a round.
pub open spec fn xor_pad(secret: Seq<u8>, round: u32, n: nat) -> Seq<u8> {
    Seq::new(
        n,
        |i: int| keystream_block(pad_key(secret, round), (i / 16) as nat)[i % 16],
    )
}

/// The XOR pads of several secrets XORed together.
pub open spec fn xor_blinding_vector(secrets: Seq<Seq<u8>>, round: u32, n: nat) -> Seq<u8>
    decreases secrets.len(),
{
    if secrets.len() == 0 {
        Seq::new(n, |i: int| 0u8)
    } else {
        vxor(xor_blinding_vector(secrets.drop_last(), round, n), xor_pad(secrets.last(), round, n))
    }
}

// ---------------------------------------------------------------------------
// Byte vectors
// ---------------------------------------------------------------------------

/// Prepend a 1-byte domain tag to a shared secret. Used to derive
/// independent pads for different sub-protocols (e.g. `0u8` for field-additive
/// auction pads, `1u8` for XOR-additive message pads) from the same ECDH
/// secret.
pub fn domain_prefixed(secret: &SharedKey, domain: u8) -> (r: SharedKey)
    ensures
        r@ == seq![domain] + secret@,
{
    let mut buf: Vec<u8> = Vec::new();
    buf.push(domain);
    append_slice(&mut buf, secret.as_bytes());
    proof {
        assert(buf@ =~= seq![domain] + secret@);
    }
    SharedKey(buf)
}

/// Different domains or different secrets give different prefixed secrets.
pub proof fn law_domains_are_separate(a: Seq<u8>, b: Seq<u8>, domain_a: u8, domain_b: u8)
    requires
        seq![domain_a] + a == seq![domain_b] + b,
    ensures
        domain_a == domain_b,
        a == b,
{
    let s = seq![domain_a] + a;
    assert(s[0] == domain_a && s[0] == domain_b);
    assert(s.drop_first() =~= a);
    assert((seq![domain_b] + b).drop_first() =~= b);
}

/// `l[i] ^= r[i]` for `i in 0..min(l.len(), r.len())`.
pub fn xor_inplace(l: &mut [u8], r: &[u8])
    ensures
        final(l)@ == vxor(old(l)@, r@),
{
    let mut i: usize = 0;
    while i < l.len() && i < r.len()
        invariant
            i <= l@.len(),
            i <= r@.len(),
            l@.len() == old(l)@.len(),
            forall|k: int| 0 <= k < i ==> l@[k] == old(l)@[k] ^ r@[k],
            forall|k: int| i <= k < l@.len() ==> l@[k] == old(l)@[k],
        decreases l@.len() - i,
    {
        l[i] = l[i] ^ r[i];
        i = i + 1;
    }
    proof {
        assert(l@ =~= vxor(old(l)@, r@));
    }
}

/// A vector of `n` zero bytes.
pub fn zero_vec(n: usize) -> (v: Vec<u8>)
    ensures
        v@ == Seq::new(n as nat, |i: int| 0u8),
{
    let v: Vec<u8> = vec![0u8; n];
    proof {
        assert(v@ =~= Seq::new(n as nat, |i: int| 0u8));
    }
    v
}

// ---------------------------------------------------------------------------
// Keystream
// ---------------------------------------------------------------------------

fn round_key(secret: &SharedKey, round: u32) -> (key: [u8; 16])
    ensures
        key@ == pad_key(secret@, round),
{
    let mut buf = write_be(round as u64, 4);
    append_slice(&mut buf, secret.as_bytes());
    let h = sha3_256_digest(&buf);
    let mut key = [0u8; 16];
    let mut i: usize = 0;
    while i < 16
        invariant
            i <= 16,
            forall|k: int| 0 <= k < i ==> #[trigger] key@[k] == h@[k],
        decreases 16 - i,
    {
        key[i] = h[i];
        i = i + 1;
    }
    proof {
        assert(key@ =~= h@.take(16));
    }
    key
}

fn block_at(key: &[u8; 16], counter: u64) -> (out: [u8; 16])
    ensures
        out@ == keystream_block(key@, counter as nat),
{
    let digits = write_be(counter, 8);
    let mut block = [0u8; 16];
    let mut i: usize = 0;
    while i < 8
        invariant
            i <= 8,
            digits@.len() == 8,
            forall|k: int| 0 <= k < 8 ==> #[trigger] block@[k] == 0,
            forall|k: int| 8 <= k < 8 + i ==> #[trigger] block@[k] == digits@[k - 8],
        decreases 8 - i,
    {
        block[8 + i] = digits[i];
        i = i + 1;
    }
    proof {
        assert(block@ =~= counter_block(counter as nat));
    }
    aes128_encrypt(key, &block)
}

/// The two words of a keystream block.
fn words_at(key: &[u8; 16], counter: u64) -> (r: (u64, u64))
    ensures
        r.0 == keystream_word(key@, 2 * counter as nat),
        r.1 == keystream_word(key@, 2 * counter as nat + 1),
{
    let block = block_at(key, counter);
    proof {
        let c = counter as nat;
        assert((2 * c) / 2 == c && (2 * c) % 2 == 0);
        assert((2 * c + 1) / 2 == c && (2 * c + 1) % 2 == 1);
    }
    (read_le(&block[0..8]), read_le(&block[8..16]))
}

// ---------------------------------------------------------------------------
// Field pads
// ---------------------------------------------------------------------------

/// The field element that the sampler makes of a word, unless it rejects it.
pub fn field_candidate(word: u64) -> (r: Option<u64>)
    ensures
        r == candidate(word),
{
    if word < FIELD_SAMPLE_THRESHOLD {
        Some(word % P)
    } else {
        None
    }
}

/// Sampling is even: the threshold is the largest multiple of p in the range of
/// words, and a word gives `x` exactly if it is one of the eight below the
/// threshold that lie in the residue class of `x`.
pub proof fn law_sampling_is_even(word: u64, x: u64)
    requires
        canonical(x),
    ensures
        FIELD_SAMPLE_THRESHOLD == (0x1_0000_0000_0000_0000int / P as int) * P,
        candidate(word) == Some(x) <==> word % P == x && word / P < 8,
{
}

/// The first `n` of `s`, or all of them.
spec fn head(s: Seq<u64>, n: nat) -> Seq<u64> {
    if s.len() <= n {
        s
    } else {
        s.take(n as int)
    }
}

proof fn lemma_accepted_prefix(key: Seq<u8>, m: nat, n: nat)
    requires
        m <= n,
    ensures
        accepted(key, m).len() <= accepted(key, n).len(),
        accepted(key, n).take(accepted(key, m).len() as int) == accepted(key, m),
    decreases n,
{
    let a = accepted(key, m);
    if m < n {
        lemma_accepted_prefix(key, m, (n - 1) as nat);
        let b = accepted(key, (n - 1) as nat);
        assert(accepted(key, n).take(a.len() as int) =~= b.take(a.len() as int));
    } else {
        assert(a.take(a.len() as int) =~= a);
    }
}

/// Whether the keystream blocks of a secret hold a field pad of `n_els`
/// elements for the round.
pub fn has_field_pad(shared_secret: &SharedKey, round: u32, n_els: usize) -> (r: bool)
    ensures
        r == field_pad_exists(shared_secret@, round, n_els as nat),
{
    let key = round_key(shared_secret, round);
    let mut found: usize = 0;
    let mut counter: u128 = 0;
    while found < n_els
        invariant
            key@ == pad_key(shared_secret@, round),
            counter <= 0x1_0000_0000_0000_0000,
            found <= n_els,
            found < n_els ==> found == accepted(key@, 2 * counter as nat).len(),
            found == n_els ==> field_pad_exists(shared_secret@, round, n_els as nat),
        decreases 0x1_0000_0000_0000_0000 - counter,
    {
        if counter == 0x1_0000_0000_0000_0000 {
            return false;
        }
        let (w0, w1) = words_at(&key, counter as u64);
        let ghost c = counter as nat;
        proof {
            lemma_accepted_prefix(key@, 2 * c + 1, all_words());
            lemma_accepted_prefix(key@, 2 * c + 2, all_words());
            assert((2 * c + 2 - 1) as nat == 2 * c + 1);
        }
        if field_candidate(w0).is_some() {
            found = found + 1;
        }
        if found < n_els && field_candidate(w1).is_some() {
            found = found + 1;
        }
        counter = counter + 1;
    }
    true
}

/// One secret's field pad, rejection-sampled from little-endian AES-CTR words.
pub fn single_field_pad(shared_secret: &SharedKey, round: u32, n_els: usize) -> (out: Vec<u64>)
    requires
        field_pad_exists(shared_secret@, round, n_els as nat),
    ensures
        out@ == field_pad(shared_secret@, round, n_els as nat),
        out@.len() == n_els,
{
    let key = round_key(shared_secret, round);
    let ghost n = n_els as nat;
    let mut out: Vec<u64> = Vec::new();
    let mut counter: u128 = 0;
    while out.len() < n_els
        invariant
            n == n_els,
            key@ == pad_key(shared_secret@, round),
            field_pad_exists(shared_secret@, round, n),
            counter <= 0x1_0000_0000_0000_0000,
            out@ == head(accepted(key@, 2 * counter as nat), n),
        decreases 0x1_0000_0000_0000_0000 - counter,
    {
        let ghost c = counter as nat;
        proof {
            assert(counter < 0x1_0000_0000_0000_0000) by {
                if counter == 0x1_0000_0000_0000_0000 {
                    assert(2 * c == all_words());
                }
            }
        }
        let (w0, w1) = words_at(&key, counter as u64);
        proof {
            assert((2 * c + 1 - 1) as nat == 2 * c);
            assert((2 * c + 2 - 1) as nat == 2 * c + 1);
        }
        let ghost s0 = accepted(key@, 2 * c);
        let ghost s1 = accepted(key@, 2 * c + 1);
        let ghost s2 = accepted(key@, 2 * c + 2);
        if let Some(x) = field_candidate(w0) {
            out.push(x);
        }
        proof {
            assert(out@ =~= head(s1, n));
        }
        if out.len() < n_els {
            if let Some(x) = field_candidate(w1) {
                out.push(x);
            }
        }
        proof {
            assert(out@ =~= head(s2, n));
        }
        counter = counter + 1;
    }
    proof {
        let s = accepted(key@, 2 * counter as nat);
        let all = accepted(key@, all_words());
        lemma_accepted_prefix(key@, 2 * counter as nat, all_words());
        assert(out@ =~= s.take(n as int));
        assert(all.take(s.len() as int).take(n as int) =~= all.take(n as int));
    }
    out
}

proof fn lemma_accepted_canonical(key: Seq<u8>, m: nat)
    ensures
        all_canonical(accepted(key, m)),
    decreases m,
{
    if m > 0 {
        lemma_accepted_canonical(key, (m - 1) as nat);
        let before = accepted(key, (m - 1) as nat);
        let all = accepted(key, m);
        assert forall|i: int| 0 <= i < all.len() implies #[trigger] canonical(all[i]) by {
            if i < before.len() {
                assert(canonical(before[i]));
            }
        }
    }
}

/// A field pad consists of canonical elements, and shorter pads are prefixes of
/// longer ones.
pub proof fn law_field_pads_are_canonical_prefixes(secret: Seq<u8>, round: u32, m: nat, n: nat)
    requires
        m <= n,
        field_pad_exists(secret, round, n),
    ensures
        field_pad_exists(secret, round, m),
        all_canonical(field_pad(secret, round, n)),
        field_pad(secret, round, n).take(m as int) == field_pad(secret, round, m),
{
    let key = pad_key(secret, round);
    let all = accepted(key, all_words());
    lemma_accepted_canonical(key, all_words());
    let pad = field_pad(secret, round, n);
    assert forall|i: int| 0 <= i < pad.len() implies #[trigger] canonical(pad[i]) by {
        assert(canonical(all[i]));
    }
    assert(pad.take(m as int) =~= all.take(m as int));
}

/// Field-element pad. Sums per-secret contributions in `F_p`.
pub fn derive_blinding_vector(shared_secrets: &[SharedKey], round: u32, n_els: usize) -> (acc: Vec<
    u64,
>)
    requires
        field_pads_exist(views(shared_secrets@), round, n_els as nat),
    ensures
        acc@ == blinding_vector(views(shared_secrets@), round, n_els as nat),
        acc@.len() == n_els,
{
    let ghost secrets = views(shared_secrets@);
    let mut acc = zeros(n_els);
    let mut i: usize = 0;
    proof {
        assert(secrets.take(0) =~= Seq::empty());
    }
    while i < shared_secrets.len()
        invariant
            i <= shared_secrets@.len(),
            secrets == views(shared_secrets@),
            field_pads_exist(secrets, round, n_els as nat),
            acc@ == blinding_vector(secrets.take(i as int), round, n_els as nat),
            acc@.len() == n_els,
        decreases shared_secrets@.len() - i,
    {
        proof {
            assert(field_pad_exists(secrets[i as int], round, n_els as nat));
            assert(secrets.take(i + 1).drop_last() =~= secrets.take(i as int));
        }
        let pad = single_field_pad(&shared_secrets[i], round, n_els);
        add_mod_slice(&mut acc, &pad);
        i = i + 1;
    }
    proof {
        assert(secrets.take(i as int) =~= secrets);
    }
    acc
}

/// Whether every secret has a field pad of `n_els` elements for the round.
pub fn has_field_pads(shared_secrets: &[SharedKey], round: u32, n_els: usize) -> (r: bool)
    ensures
        r == field_pads_exist(views(shared_secrets@), round, n_els as nat),
{
    let ghost secrets = views(shared_secrets@);
    let mut i: usize = 0;
    while i < shared_secrets.len()
        invariant
            i <= shared_secrets@.len(),
            secrets == views(shared_secrets@),
            forall|k: int|
                0 <= k < i ==> #[trigger] field_pad_exists(secrets[k], round, n_els as nat),
        decreases shared_secrets@.len() - i,
    {
        if !has_field_pad(&shared_secrets[i], round, n_els) {
            proof {
                assert(!field_pad_exists(secrets[i as int], round, n_els as nat));
            }
            return false;
        }
        i = i + 1;
    }
    true
}

/// [`derive_blinding_vector`] if every secret has a pad of that length.
pub fn checked_blinding_vector(shared_secrets: &[SharedKey], round: u32, n_els: usize) -> (r:
    Option<Vec<u64>>)
    ensures
        match r {
            Some(acc) => field_pads_exist(views(shared_secrets@), round, n_els as nat) && acc@
                == blinding_vector(views(shared_secrets@), round, n_els as nat) && acc@.len()
                == n_els,
            None => !field_pads_exist(views(shared_secrets@), round, n_els as nat),
        },
{
    if has_field_pads(shared_secrets, round, n_els) {
        Some(derive_blinding_vector(shared_secrets, round, n_els))
    } else {
        None
    }
}

// ---------------------------------------------------------------------------
// XOR pads
// ---------------------------------------------------------------------------

/// One secret's XOR pad: the head of its AES-CTR keystream.
fn single_xor_pad(shared_secret: &SharedKey, round: u32, n_bytes: usize) -> (out: Vec<u8>)
    ensures
        out@ == xor_pad(shared_secret@, round, n_bytes as nat),
{
    let key = round_key(shared_secret, round);
    let mut out: Vec<u8> = Vec::new();
    let mut counter: u64 = 0;
    while out.len() < n_bytes
        invariant
            key@ == pad_key(shared_secret@, round),
            out@.len() <= n_bytes,
            out@.len() < n_bytes ==> out@.len() == 16 * counter,
            n_bytes <= usize::MAX,
            forall|i: int|
                0 <= i < out@.len() ==> #[trigger] out@[i] == keystream_block(
                    key@,
                    (i / 16) as nat,
                )[i % 16],
        decreases n_bytes - out@.len(),
    {
        let block = block_at(&key, counter);
        let mut k: usize = 0;
        while k < 16 && out.len() < n_bytes
            invariant
                k <= 16,
                out@.len() <= n_bytes,
                out@.len() == 16 * counter + k,
                block@ == keystream_block(key@, counter as nat),
                forall|i: int|
                    0 <= i < out@.len() ==> #[trigger] out@[i] == keystream_block(
                        key@,
                        (i / 16) as nat,
                    )[i % 16],
            decreases 16 - k,
        {
            proof {
                let i = 16 * counter + k;
                assert(i / 16 == counter as int && i % 16 == k as int);
            }
            out.push(block[k]);
            k = k + 1;
        }
        counter = counter + 1;
    }
    proof {
        assert(out@ =~= xor_pad(shared_secret@, round, n_bytes as nat));
    }
    out
}

/// AES-CTR keystream XORed together over all shared secrets.
pub fn derive_xor_blinding_vector(
    shared_secrets: &[SharedKey],
    round: u32,
    n_bytes: usize,
) -> (acc: Vec<u8>)
    ensures
        acc@ == xor_blinding_vector(views(shared_secrets@), round, n_bytes as nat),
        acc@.len() == n_bytes,
{
    let ghost secrets = views(shared_secrets@);
    let mut acc = zero_vec(n_bytes);
    let mut i: usize = 0;
    proof {
        assert(secrets.take(0) =~= Seq::empty());
    }
    while i < shared_secrets.len()
        invariant
            i <= shared_secrets@.len(),
            secrets == views(shared_secrets@),
            acc@ == xor_blinding_vector(secrets.take(i as int), round, n_bytes as nat),
            acc@.len() == n_bytes,
        decreases shared_secrets@.len() - i,
    {
        proof {
            assert(secrets.take(i + 1).drop_last() =~= secrets.take(i as int));
        }
        let pad = single_xor_pad(&shared_secrets[i], round, n_bytes);
        xor_inplace(&mut acc, &pad);
        i = i + 1;
    }
    proof {
        assert(secrets.take(i as int) =~= secrets);
    }
    acc
}

/// XORing a vector in twice restores what was there.
pub proof fn law_xor_is_self_inverse(a: Seq<u8>, b: Seq<u8>)
    ensures
        vxor(vxor(a, b), b) == a,
{
    assert forall|i: int| 0 <= i < a.len() && i < b.len() implies (a[i] ^ b[i]) ^ b[i] == a[i] by {
        let x = a[i];
        let y = b[i];
        assert((x ^ y) ^ y == x) by (bit_vector);
    }
    assert(vxor(vxor(a, b), b) =~= a);
}

} // verus!
