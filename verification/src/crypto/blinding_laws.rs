//! Laws of the pads: which bytes of which keystream a pad is made of, and what
//! the pads of several secrets add up to.

use vstd::prelude::*;

use crate::bytes::{be_seq, le_nat};
use crate::sums::{lemma_sum_same, lemma_xor_sum_same, sum, xor_sum};

use super::blinding::{
    accepted, all_words, blinding_vector, field_pad, field_pad_exists, field_pads_exist,
    keystream_word, pad_key, vxor, xor_blinding_vector, xor_pad,
};
use super::ciphers::aes128;
use super::hashing::sha3_256;

verus! {

/// Byte `k` of block `b` of the AES-128 counter-mode keystream whose key is the
/// first half of the SHA3-256 digest of the round, in four big-endian bytes,
/// and the secret. The counter takes the last eight bytes of a block.
pub open spec fn ctr_byte(secret: Seq<u8>, round: u32, b: nat, k: int) -> u8 {
    aes128(
        sha3_256(be_seq(round as nat, 4) + secret).subrange(0, 16),
        seq![0u8, 0, 0, 0, 0, 0, 0, 0] + be_seq(b, 8),
    )[k]
}

/// Word `j` of the same keystream: half a block, least significant byte first.
pub open spec fn ctr_word(secret: Seq<u8>, round: u32, j: nat) -> u64 {
    let half = (j % 2) as int;
    le_nat(
        aes128(
            sha3_256(be_seq(round as nat, 4) + secret).subrange(0, 16),
            seq![0u8, 0, 0, 0, 0, 0, 0, 0] + be_seq(j / 2, 8),
        ).subrange(8 * half, 8 * half + 8),
    ) as u64
}

proof fn lemma_counter_block(b: nat)
    ensures
        super::blinding::counter_block(b) == seq![0u8, 0, 0, 0, 0, 0, 0, 0] + be_seq(b, 8),
{
    assert(Seq::new(8, |k: int| 0u8) =~= seq![0u8, 0, 0, 0, 0, 0, 0, 0]);
}

proof fn lemma_word(secret: Seq<u8>, round: u32, j: nat)
    ensures
        keystream_word(pad_key(secret, round), j) == ctr_word(secret, round, j),
{
    lemma_counter_block(j / 2);
}

/// An XOR pad is the head of the keystream at every length: byte `i` of it is
/// byte `i % 16` of block `i / 16`.
pub proof fn law_xor_pad_is_the_keystream(secret: Seq<u8>, round: u32, n: nat)
    ensures
        xor_pad(secret, round, n).len() == n,
        forall|i: int|
            0 <= i < n ==> #[trigger] xor_pad(secret, round, n)[i] == ctr_byte(
                secret,
                round,
                (i / 16) as nat,
                i % 16,
            ),
        forall|b: nat, k: int|
            0 <= k < 16 && 16 * b + k < n ==> #[trigger] ctr_byte(secret, round, b, k) == xor_pad(
                secret,
                round,
                n,
            )[16 * b + k],
{
    let pad = xor_pad(secret, round, n);
    assert forall|i: int| 0 <= i < n implies #[trigger] pad[i] == ctr_byte(
        secret,
        round,
        (i / 16) as nat,
        i % 16,
    ) by {
        lemma_counter_block((i / 16) as nat);
    }
    assert forall|b: nat, k: int| 0 <= k < 16 && 16 * b + k < n implies #[trigger] ctr_byte(
        secret,
        round,
        b,
        k,
    ) == pad[16 * b + k] by {
        let i = 16 * b + k;
        assert(i / 16 == b && i % 16 == k);
        assert(pad[i] == ctr_byte(secret, round, (i / 16) as nat, i % 16));
    }
}

/// Whole blocks of the keystream stand in an XOR pad as they are: bytes
/// `16 * b .. 16 * b + 16` are block `b`.
pub proof fn law_xor_pad_holds_whole_blocks(secret: Seq<u8>, round: u32, n: nat, b: int)
    requires
        0 <= b,
        16 * b + 16 <= n,
    ensures
        ({
            let block = aes128(
                sha3_256(be_seq(round as nat, 4) + secret).take(16),
                seq![0u8, 0, 0, 0, 0, 0, 0, 0] + be_seq(b as nat, 8),
            );
            block.len() == 16 ==> xor_pad(secret, round, n).subrange(
                16 * b,
                16 * b + 16,
            ) == block
        }),
{
    let block = aes128(
        sha3_256(be_seq(round as nat, 4) + secret).take(16),
        seq![0u8, 0, 0, 0, 0, 0, 0, 0] + be_seq(b as nat, 8),
    );
    let part = xor_pad(secret, round, n).subrange(16 * b, 16 * b + 16);
    law_xor_pad_is_the_keystream(secret, round, n);
    if block.len() == 16 {
        assert forall|k: int| 0 <= k < 16 implies part[k] == block[k] by {
            assert(ctr_byte(secret, round, b as nat, k) == xor_pad(secret, round, n)[16 * b + k]);
        }
        assert(part =~= block);
    }
}

/// A shorter XOR pad is a prefix of a longer one.
pub proof fn law_xor_pads_are_prefixes(secret: Seq<u8>, round: u32, m: nat, n: nat)
    requires
        m <= n,
    ensures
        xor_pad(secret, round, n).take(m as int) == xor_pad(secret, round, m),
{
    assert(xor_pad(secret, round, n).take(m as int) =~= xor_pad(secret, round, m));
}

/// Byte `i` of an XOR blinding vector is the XOR of byte `i` of the keystreams
/// of all secrets, at every length.
pub proof fn law_xor_blinding_is_the_keystreams(
    secrets: Seq<Seq<u8>>,
    round: u32,
    n: nat,
    i: int,
)
    requires
        0 <= i < n,
    ensures
        xor_blinding_vector(secrets, round, n).len() == n,
        xor_blinding_vector(secrets, round, n)[i] == xor_sum(
            |s: int| ctr_byte(secrets[s], round, (i / 16) as nat, i % 16),
            secrets.len() as int,
        ),
    decreases secrets.len(),
{
    if secrets.len() > 0 {
        let init = secrets.drop_last();
        law_xor_blinding_is_the_keystreams(init, round, n, i);
        law_xor_pad_is_the_keystream(secrets.last(), round, n);
        lemma_xor_sum_same(
            |s: int| ctr_byte(init[s], round, (i / 16) as nat, i % 16),
            |s: int| ctr_byte(secrets[s], round, (i / 16) as nat, i % 16),
            secrets.len() - 1,
        );
    }
}

/// `pad` consists of the words at the positions `at`, in order and reduced
/// modulo p: the first words of the keystream below the largest multiple of p
/// in the range of words. No other word below it is passed over.
pub open spec fn sampled(secret: Seq<u8>, round: u32, pad: Seq<u64>, at: Seq<nat>) -> bool {
    &&& at.len() == pad.len()
    &&& forall|i: int, j: int| 0 <= i < j < at.len() ==> #[trigger] at[i] < #[trigger] at[j]
    &&& forall|i: int|
        0 <= i < at.len() ==> {
            &&& #[trigger] at[i] < 0x2_0000_0000_0000_0000
            &&& ctr_word(secret, round, at[i]) < 0xf776a709d2935d58
            &&& pad[i] == ctr_word(secret, round, at[i]) % 0x1eeed4e13a526bab
        }
    &&& forall|j: nat, i: int|
        0 <= i < at.len() && j < #[trigger] at[i] && !at.contains(j) ==> #[trigger] ctr_word(
            secret,
            round,
            j,
        ) >= 0xf776a709d2935d58
}

/// The positions of the words that the sampler keeps among the first `m`.
proof fn lemma_kept(secret: Seq<u8>, round: u32, m: nat) -> (at: Seq<nat>)
    ensures
        at.len() == accepted(pad_key(secret, round), m).len(),
        forall|i: int, j: int| 0 <= i < j < at.len() ==> #[trigger] at[i] < #[trigger] at[j],
        forall|i: int|
            0 <= i < at.len() ==> {
                &&& #[trigger] at[i] < m
                &&& ctr_word(secret, round, at[i]) < 0xf776a709d2935d58
                &&& accepted(pad_key(secret, round), m)[i] == ctr_word(secret, round, at[i])
                    % 0x1eeed4e13a526bab
            },
        forall|j: nat|
            j < m && !at.contains(j) ==> #[trigger] ctr_word(secret, round, j)
                >= 0xf776a709d2935d58,
    decreases m,
{
    if m == 0 {
        Seq::empty()
    } else {
        let last = (m - 1) as nat;
        let before = lemma_kept(secret, round, last);
        lemma_word(secret, round, last);
        if ctr_word(secret, round, last) < 0xf776a709d2935d58 {
            let at = before.push(last);
            assert forall|j: nat| j < m && !at.contains(j) implies #[trigger] ctr_word(
                secret,
                round,
                j,
            ) >= 0xf776a709d2935d58 by {
                assert(at[before.len() as int] == last);
                if before.contains(j) {
                    let i = choose|i: int| 0 <= i < before.len() && before[i] == j;
                    assert(at[i] == j);
                }
            }
            at
        } else {
            before
        }
    }
}

/// A field pad is made of the words of the keystream that lie below the sampling
/// threshold, in order and none passed over, each reduced modulo p.
pub proof fn law_field_pad_samples_the_keystream(secret: Seq<u8>, round: u32, n: nat)
    requires
        field_pad_exists(secret, round, n),
    ensures
        field_pad(secret, round, n).len() == n,
        exists|at: Seq<nat>| #[trigger] sampled(secret, round, field_pad(secret, round, n), at),
{
    let all = lemma_kept(secret, round, all_words());
    let pad = field_pad(secret, round, n);
    let at = all.take(n as int);
    assert forall|i: int, j: int| 0 <= i < j < at.len() implies #[trigger] at[i]
        < #[trigger] at[j] by {
        assert(all[i] < all[j]);
    }
    assert forall|i: int| 0 <= i < at.len() implies {
        &&& #[trigger] at[i] < 0x2_0000_0000_0000_0000
        &&& ctr_word(secret, round, at[i]) < 0xf776a709d2935d58
        &&& pad[i] == ctr_word(secret, round, at[i]) % 0x1eeed4e13a526bab
    } by {
        assert(at[i] == all[i]);
    }
    assert forall|j: nat, i: int|
        0 <= i < at.len() && j < #[trigger] at[i] && !at.contains(j) implies #[trigger] ctr_word(
        secret,
        round,
        j,
    ) >= 0xf776a709d2935d58 by {
        if all.contains(j) {
            let k = choose|k: int| 0 <= k < all.len() && all[k] == j;
            assert(at[i] == all[i]);
            if k >= n {
                assert(all[i] < all[k]);
            }
            assert(at[k] == j);
        }
    }
    assert(sampled(secret, round, pad, at));
}

/// Words below the threshold at ascending positions among the first `m` are no
/// more than the sampler keeps.
proof fn lemma_kept_is_all(secret: Seq<u8>, round: u32, m: nat, at: Seq<nat>)
    requires
        forall|i: int, j: int| 0 <= i < j < at.len() ==> #[trigger] at[i] < #[trigger] at[j],
        forall|i: int|
            0 <= i < at.len() ==> #[trigger] at[i] < m && ctr_word(secret, round, at[i])
                < 0xf776a709d2935d58,
    ensures
        at.len() <= accepted(pad_key(secret, round), m).len(),
    decreases m,
{
    if at.len() > 0 {
        let n = at.len() - 1;
        assert(at[n] < m);
        let last = (m - 1) as nat;
        let init = at.drop_last();
        lemma_word(secret, round, last);
        assert forall|i: int, j: int| 0 <= i < j < init.len() implies #[trigger] init[i]
            < #[trigger] init[j] by {
            assert(at[i] < at[j]);
        }
        if at[n] == last {
            assert forall|i: int| 0 <= i < init.len() implies #[trigger] init[i] < last && ctr_word(
                secret,
                round,
                init[i],
            ) < 0xf776a709d2935d58 by {
                assert(at[i] < at[n]);
            }
            lemma_kept_is_all(secret, round, last, init);
        } else {
            assert forall|i: int| 0 <= i < at.len() implies #[trigger] at[i] < last by {
                if i < n {
                    assert(at[i] < at[n]);
                }
            }
            lemma_kept_is_all(secret, round, last, at);
        }
    }
}

/// A field pad exists as soon as the keystream has that many words below the
/// threshold, wherever they stand.
pub proof fn law_enough_words_make_a_field_pad(
    secret: Seq<u8>,
    round: u32,
    n: nat,
    at: Seq<nat>,
)
    requires
        at.len() >= n,
        forall|i: int, j: int| 0 <= i < j < at.len() ==> #[trigger] at[i] < #[trigger] at[j],
        forall|i: int|
            0 <= i < at.len() ==> #[trigger] at[i] < 0x2_0000_0000_0000_0000 && ctr_word(
                secret,
                round,
                at[i],
            ) < 0xf776a709d2935d58,
    ensures
        field_pad_exists(secret, round, n),
{
    lemma_kept_is_all(secret, round, all_words(), at);
}

/// Element `i` of a field blinding vector is the sum modulo p of element `i` of
/// the pads of all secrets, at every length.
pub proof fn law_field_blinding_adds_up(secrets: Seq<Seq<u8>>, round: u32, n: nat, i: int)
    requires
        field_pads_exist(secrets, round, n),
        0 <= i < n,
    ensures
        blinding_vector(secrets, round, n).len() == n,
        blinding_vector(secrets, round, n)[i] == sum(
            |s: int| field_pad(secrets[s], round, n)[i] as int,
            secrets.len() as int,
        ) % 0x1eeed4e13a526bab,
    decreases secrets.len(),
{
    let p: int = 0x1eeed4e13a526bab;
    let f = |s: int| field_pad(secrets[s], round, n)[i] as int;
    if secrets.len() == 0 {
        vstd::arithmetic::div_mod::lemma_small_mod(0, p as nat);
    } else {
        let init = secrets.drop_last();
        let m = secrets.len() - 1;
        assert(field_pads_exist(init, round, n)) by {
            assert forall|k: int| 0 <= k < init.len() implies #[trigger] field_pad_exists(
                init[k],
                round,
                n,
            ) by {
                assert(init[k] == secrets[k]);
                assert(field_pad_exists(secrets[k], round, n));
            }
        }
        law_field_blinding_adds_up(init, round, n, i);
        lemma_sum_same(|s: int| field_pad(init[s], round, n)[i] as int, f, m);
        assert(field_pad_exists(secrets[m], round, n));
        let t = sum(f, m);
        vstd::arithmetic::div_mod::lemma_add_mod_noop(t, f(m), p);
        vstd::arithmetic::div_mod::lemma_add_mod_noop(t % p, f(m), p);
        vstd::arithmetic::div_mod::lemma_mod_twice(t, p);
    }
}

/// Several secrets have field pads exactly if each of them has one.
pub proof fn law_every_secret_needs_a_pad(secrets: Seq<Seq<u8>>, round: u32, n: nat)
    ensures
        field_pads_exist(secrets, round, n) <==> !(exists|i: int|
            0 <= i < secrets.len() && !field_pad_exists(#[trigger] secrets[i], round, n)),
{
    if field_pads_exist(secrets, round, n) {
        assert forall|i: int| 0 <= i < secrets.len() implies field_pad_exists(
            #[trigger] secrets[i],
            round,
            n,
        ) by {}
    } else {
        let i = choose|i: int|
            0 <= i < secrets.len() && !#[trigger] field_pad_exists(secrets[i], round, n);
        assert(!field_pad_exists(secrets[i], round, n));
    }
}

/// Byte strings are XORed byte by byte. Where the second string is shorter, the
/// rest of the first stays, and where it is longer, its rest is left out.
pub proof fn law_strings_are_xored_byte_by_byte(a: Seq<u8>, b: Seq<u8>, i: int)
    requires
        0 <= i < a.len(),
    ensures
        vxor(a, b).len() == a.len(),
        i < b.len() ==> vxor(a, b)[i] == a[i] ^ b[i],
        i >= b.len() ==> vxor(a, b)[i] == a[i],
{
}

} // verus!
