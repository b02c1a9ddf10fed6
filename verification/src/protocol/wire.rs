//! The byte form of messages: fixed-width little-endian integers, sequences
//! behind a 64-bit count.

use vstd::prelude::*;

use crate::bytes::{append_slice, law_little_endian_digits, le_seq, lemma_le_seq_len, pow256};
use crate::crypto::types::{PublicKey, ServerId};
use crate::sorting::views;

use super::messages::u64_vec_bytes::{self, words_bytes};

verus! {

/// A signed number in eight bytes of two's complement.
pub open spec fn i64_bytes(x: i64) -> Seq<u8> {
    le_seq(
        if x >= 0 {
            x as nat
        } else {
            (x + 0x1_0000_0000_0000_0000) as nat
        },
        8,
    )
}

/// A byte string behind its length.
pub open spec fn bytes_field(b: Seq<u8>) -> Seq<u8> {
    le_seq(b.len(), 8) + b
}

/// Words behind their number, each in eight bytes.
pub open spec fn words_field(v: Seq<u64>) -> Seq<u8> {
    le_seq(v.len(), 8) + words_bytes(v)
}

/// Server identifiers one after the other.
pub open spec fn bare_ids(ids: Seq<ServerId>) -> Seq<u8>
    decreases ids.len(),
{
    if ids.len() == 0 {
        Seq::empty()
    } else {
        bare_ids(ids.drop_last()) + le_seq(ids.last().0 as nat, 4)
    }
}

/// Server identifiers behind their number.
pub open spec fn ids_field(ids: Seq<ServerId>) -> Seq<u8> {
    le_seq(ids.len(), 8) + bare_ids(ids)
}

/// Public keys one after the other, each behind its length.
pub open spec fn bare_keys(keys: Seq<Seq<u8>>) -> Seq<u8>
    decreases keys.len(),
{
    if keys.len() == 0 {
        Seq::empty()
    } else {
        bare_keys(keys.drop_last()) + bytes_field(keys.last())
    }
}

/// Public keys behind their number.
pub open spec fn keys_field(keys: Seq<Seq<u8>>) -> Seq<u8> {
    le_seq(keys.len(), 8) + bare_keys(keys)
}

/// Wraps `bincode::serialize` on an `i64`. Claims that it writes eight
/// little-endian bytes of two's complement.
#[verifier::external_body]
pub(crate) fn encode_i64(x: i64) -> (out: Vec<u8>)
    ensures
        out@ == i64_bytes(x),
{
    bincode::serialize(&x).unwrap()
}

/// Wraps `bincode::serialize` on a `u32`. Claims that it writes four
/// little-endian bytes.
#[verifier::external_body]
pub(crate) fn encode_u32(x: u32) -> (out: Vec<u8>)
    ensures
        out@ == le_seq(x as nat, 4),
{
    bincode::serialize(&x).unwrap()
}

/// Wraps `bincode::serialize` on a `u64`. Claims that it writes eight
/// little-endian bytes, the form in which it also writes the number of elements
/// of a sequence.
#[verifier::external_body]
pub(crate) fn encode_u64(x: u64) -> (out: Vec<u8>)
    ensures
        out@ == le_seq(x as nat, 8),
{
    bincode::serialize(&x).unwrap()
}

/// Wraps `bincode::serialize` on a byte string. Claims that it writes the
/// length in eight little-endian bytes and then the bytes.
#[verifier::external_body]
pub(crate) fn encode_bytes(b: &[u8]) -> (out: Vec<u8>)
    ensures
        out@ == bytes_field(b@),
{
    bincode::serialize(serde_bytes::Bytes::new(b)).unwrap()
}

pub(crate) fn encode_words(v: &[u64]) -> (out: Vec<u8>)
    ensures
        out@ == words_field(v@),
{
    let mut out = encode_u64(v.len() as u64);
    append_slice(&mut out, &u64_vec_bytes::serialize(v));
    out
}

pub(crate) fn encode_ids(ids: &[ServerId]) -> (out: Vec<u8>)
    ensures
        out@ == ids_field(ids@),
{
    let mut out = encode_u64(ids.len() as u64);
    let ghost head = out@;
    let mut i: usize = 0;
    proof {
        assert(ids@.take(0) =~= Seq::empty());
        assert(head + bare_ids(ids@.take(0)) =~= head);
    }
    while i < ids.len()
        invariant
            i <= ids@.len(),
            out@ == head + bare_ids(ids@.take(i as int)),
        decreases ids@.len() - i,
    {
        let id = encode_u32(ids[i].0);
        append_slice(&mut out, &id);
        i = i + 1;
        proof {
            assert(ids@.take(i as int).drop_last() =~= ids@.take(i - 1));
            assert(out@ =~= head + bare_ids(ids@.take(i as int)));
        }
    }
    proof {
        assert(ids@.take(i as int) =~= ids@);
    }
    out
}

pub(crate) fn encode_keys(keys: &[PublicKey]) -> (out: Vec<u8>)
    ensures
        out@ == keys_field(views(keys@)),
{
    let mut out = encode_u64(keys.len() as u64);
    let ghost head = out@;
    let ghost all = views(keys@);
    let mut i: usize = 0;
    proof {
        assert(all.take(0) =~= Seq::empty());
        assert(head + bare_keys(all.take(0)) =~= head);
    }
    while i < keys.len()
        invariant
            i <= keys@.len(),
            all == views(keys@),
            out@ == head + bare_keys(all.take(i as int)),
        decreases keys@.len() - i,
    {
        let key = encode_bytes(keys[i].as_bytes());
        append_slice(&mut out, &key);
        i = i + 1;
        proof {
            assert(all.take(i as int).drop_last() =~= all.take(i - 1));
            assert(out@ =~= head + bare_keys(all.take(i as int)));
        }
    }
    proof {
        assert(all.take(i as int) =~= all);
    }
    out
}

// ---------------------------------------------------------------------------
// Laws
// ---------------------------------------------------------------------------

/// A signed number takes eight bytes, byte `k` of which is its digit of weight
/// `256^k`; a negative one is written as the number that is `2^64` larger.
pub proof fn law_signed_numbers(x: i64, k: int)
    requires
        0 <= k < 8,
    ensures
        i64_bytes(x).len() == 8,
        x >= 0 ==> i64_bytes(x)[k] == (x as nat / pow256(k as nat)) % 256,
        x < 0 ==> i64_bytes(x)[k] == ((x + 0x1_0000_0000_0000_0000) as nat / pow256(k as nat))
            % 256,
{
    law_little_endian_digits(
        if x >= 0 {
            x as nat
        } else {
            (x + 0x1_0000_0000_0000_0000) as nat
        },
        8,
        k,
    );
}

/// A byte string stands behind its length in eight bytes, least significant
/// first.
pub proof fn law_byte_strings_behind_their_length(b: Seq<u8>)
    ensures
        bytes_field(b).len() == 8 + b.len(),
        forall|k: int|
            0 <= k < 8 ==> #[trigger] bytes_field(b)[k] == (b.len() / pow256(k as nat)) % 256,
        forall|i: int| 0 <= i < b.len() ==> bytes_field(b)[8 + i] == #[trigger] b[i],
{
    lemma_le_seq_len(b.len(), 8);
    assert forall|k: int| 0 <= k < 8 implies #[trigger] bytes_field(b)[k] == (b.len() / pow256(
        k as nat,
    )) % 256 by {
        law_little_endian_digits(b.len(), 8, k);
    }
}

/// Server identifiers stand behind their number, four bytes each, least
/// significant first.
pub proof fn law_ids_behind_their_number(ids: Seq<ServerId>)
    ensures
        ids_field(ids).len() == 8 + 4 * ids.len(),
        forall|k: int|
            0 <= k < 8 ==> #[trigger] ids_field(ids)[k] == (ids.len() / pow256(k as nat)) % 256,
        forall|i: int|
            0 <= i < ids.len() ==> id_at(ids_field(ids), 8 + 4 * i, #[trigger] ids[i]),
{
    lemma_le_seq_len(ids.len(), 8);
    lemma_bare_ids(ids);
    assert forall|k: int| 0 <= k < 8 implies #[trigger] ids_field(ids)[k] == (ids.len() / pow256(
        k as nat,
    )) % 256 by {
        law_little_endian_digits(ids.len(), 8, k);
    }
    assert forall|i: int| 0 <= i < ids.len() implies id_at(
        ids_field(ids),
        8 + 4 * i,
        #[trigger] ids[i],
    ) by {
        assert(id_at(bare_ids(ids), 4 * i, ids[i]));
        assert forall|k: int| 0 <= k < 4 implies #[trigger] ids_field(ids)[8 + 4 * i + k] == (
        ids[i].0 as nat / pow256(k as nat)) % 256 by {
            assert(bare_ids(ids)[4 * i + k] == (ids[i].0 as nat / pow256(k as nat)) % 256);
        }
    }
}

/// The four bytes from position `at` on are the identifier, least significant
/// first.
pub open spec fn id_at(bytes: Seq<u8>, at: int, id: ServerId) -> bool {
    forall|k: int|
        0 <= k < 4 ==> #[trigger] bytes[at + k] == (id.0 as nat / pow256(k as nat)) % 256
}

proof fn lemma_bare_ids(ids: Seq<ServerId>)
    ensures
        bare_ids(ids).len() == 4 * ids.len(),
        forall|i: int| 0 <= i < ids.len() ==> id_at(bare_ids(ids), 4 * i, #[trigger] ids[i]),
    decreases ids.len(),
{
    if ids.len() > 0 {
        let init = ids.drop_last();
        let n = ids.len() - 1;
        let b = bare_ids(ids);
        lemma_bare_ids(init);
        lemma_le_seq_len(ids.last().0 as nat, 4);
        assert forall|i: int| 0 <= i < ids.len() implies id_at(b, 4 * i, #[trigger] ids[i]) by {
            assert forall|k: int| 0 <= k < 4 implies #[trigger] b[4 * i + k] == (ids[i].0 as nat
                / pow256(k as nat)) % 256 by {
                if i < n {
                    assert(init[i] == ids[i]);
                    assert(id_at(bare_ids(init), 4 * i, init[i]));
                    assert(bare_ids(init)[4 * i + k] == (ids[i].0 as nat / pow256(k as nat))
                        % 256);
                    assert(b[4 * i + k] == bare_ids(init)[4 * i + k]);
                } else {
                    law_little_endian_digits(ids[i].0 as nat, 4, k);
                    assert(b[4 * i + k] == le_seq(ids[i].0 as nat, 4)[k]);
                }
            }
        }
    }
}

/// Words stand behind their number, eight bytes each.
pub proof fn law_words_behind_their_number(v: Seq<u64>, i: int)
    requires
        0 <= i < v.len(),
    ensures
        words_field(v).len() == 8 + 8 * v.len(),
        words_field(v).subrange(0, 8) == le_seq(v.len(), 8),
        words_field(v).subrange(8 + 8 * i, 16 + 8 * i) == le_seq(v[i] as nat, 8),
{
    lemma_le_seq_len(v.len(), 8);
    u64_vec_bytes::law_words_on_the_wire(v, i);
    assert(words_field(v).subrange(0, 8) =~= le_seq(v.len(), 8));
    assert(words_field(v).subrange(8 + 8 * i, 16 + 8 * i) =~= words_bytes(v).subrange(
        8 * i,
        8 * i + 8,
    ));
}

/// Public keys stand behind their number, one after the other, each behind its
/// length.
pub proof fn law_keys_behind_their_number(keys: Seq<Seq<u8>>, i: int)
    requires
        0 <= i < keys.len(),
    ensures
        keys_field(keys) == le_seq(keys.len(), 8) + bare_keys(keys),
        bare_keys(keys) == bare_keys(keys.take(i)) + (le_seq(keys[i].len(), 8) + keys[i])
            + bare_keys(keys.skip(i + 1)),
        bare_keys(Seq::empty()) == Seq::<u8>::empty(),
    decreases keys.len(),
{
    let n = keys.len() - 1;
    let init = keys.drop_last();
    if i == n {
        assert(keys.take(i) =~= init);
        assert(keys.skip(i + 1) =~= Seq::empty());
        assert(bare_keys(keys) =~= bare_keys(keys.take(i)) + (le_seq(keys[i].len(), 8) + keys[i])
            + bare_keys(keys.skip(i + 1)));
    } else {
        law_keys_behind_their_number(init, i);
        assert(init.take(i) =~= keys.take(i));
        assert(keys.skip(i + 1).drop_last() =~= init.skip(i + 1));
        assert(keys.skip(i + 1).last() == keys.last());
        let a = bare_keys(keys.take(i));
        let b = le_seq(keys[i].len(), 8) + keys[i];
        let c = bare_keys(init.skip(i + 1));
        let d = bytes_field(keys.last());
        assert(bare_keys(keys) == a + b + c + d);
        assert(a + b + c + d =~= a + b + (c + d));
    }
}

} // verus!
