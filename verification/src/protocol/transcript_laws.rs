//! What a signature covers: the bytes that are hashed and signed determine the
//! message and the key, so that an envelope with another message or another key
//! is checked against another byte string.

use vstd::prelude::*;

use crate::auction::iblt::{IbltVector, Table};
use crate::bytes::{
    le_seq, lemma_le_nat_of_le_seq, lemma_le_seq_len, lemma_pow256_values, pow256,
};
use crate::crypto::types::ServerId;

use super::envelope::Transcript;
use super::messages::u64_vec_bytes::{bytes_words, lemma_words_come_back, words_bytes};
use super::messages::{
    Aggregate, AggregatedClientMessages, Broadcast, ClientRoundMessage, Partial, RoundBroadcast,
    ServerPartialDecryptionMessage, Submission,
};
use super::session::one_round::{ClientContribution, Contributed, ServerShare, Shared};
use super::wire::{
    bare_ids, bare_keys, bytes_field, i64_bytes, ids_field, keys_field, words_field,
};

verus! {

/// `n` can be written in the eight bytes of a length.
pub open spec fn countable(n: nat) -> bool {
    n <= u64::MAX
}

/// Every key has a length that can be written.
pub open spec fn keys_countable(keys: Seq<Seq<u8>>) -> bool {
    &&& countable(keys.len())
    &&& forall|i: int| 0 <= i < keys.len() ==> countable((#[trigger] keys[i]).len())
}

/// The parts of a submission have lengths that can be written.
pub open spec fn submission_countable(m: Submission) -> bool {
    &&& countable(m.all_server_ids.len())
    &&& countable(8 * m.auction_vector.len())
    &&& countable(m.message_vector.len())
}

/// The parts of an aggregate have lengths that can be written.
pub open spec fn aggregate_countable(m: Aggregate) -> bool {
    &&& countable(m.all_server_ids.len())
    &&& countable(8 * m.auction_vector.len())
    &&& countable(m.message_vector.len())
    &&& keys_countable(m.user_pks)
}

/// The parts of a partial have lengths that can be written.
pub open spec fn partial_countable(m: Partial) -> bool {
    &&& aggregate_countable(m.original_aggregate)
    &&& keys_countable(m.user_pks)
    &&& countable(8 * m.auction_vector.len())
    &&& countable(m.message_vector.len())
}

/// The parts of a table have lengths that can be written.
pub open spec fn table_countable(t: Table) -> bool {
    &&& countable(t.counters.len())
    &&& countable(t.keys.len())
    &&& countable(t.values.len())
}

/// The parts of a broadcast have lengths that can be written.
pub open spec fn broadcast_countable(m: Broadcast) -> bool {
    table_countable(m.auction_vector) && countable(m.message_vector.len())
}

// ---------------------------------------------------------------------------
// Fields
// ---------------------------------------------------------------------------

/// Byte strings with fronts of one length are equal only part by part.
proof fn lemma_parts(a: Seq<u8>, b: Seq<u8>, x: Seq<u8>, y: Seq<u8>)
    requires
        a + x == b + y,
        a.len() == b.len(),
    ensures
        a == b,
        x == y,
{
    assert(a =~= (a + x).take(a.len() as int));
    assert(b =~= (b + y).take(b.len() as int));
    assert(x =~= (a + x).skip(a.len() as int));
    assert(y =~= (b + y).skip(b.len() as int));
}

/// What is appended to a byte string can be appended to its last part.
proof fn lemma_shift(front: Seq<u8>, part: Seq<u8>, x: Seq<u8>)
    ensures
        (front + part) + x == front + (part + x),
{
    assert((front + part) + x =~= front + (part + x));
}

proof fn lemma_number(a: nat, b: nat, n: nat, x: Seq<u8>, y: Seq<u8>)
    requires
        a < pow256(n),
        b < pow256(n),
        le_seq(a, n) + x == le_seq(b, n) + y,
    ensures
        a == b,
        x == y,
{
    lemma_le_seq_len(a, n);
    lemma_le_seq_len(b, n);
    lemma_parts(le_seq(a, n), le_seq(b, n), x, y);
    lemma_le_nat_of_le_seq(a, n);
    lemma_le_nat_of_le_seq(b, n);
}

proof fn lemma_i64(a: i64, b: i64, x: Seq<u8>, y: Seq<u8>)
    requires
        i64_bytes(a) + x == i64_bytes(b) + y,
    ensures
        a == b,
        x == y,
{
    lemma_pow256_values();
    let na = if a >= 0 {
        a as nat
    } else {
        (a + 0x1_0000_0000_0000_0000) as nat
    };
    let nb = if b >= 0 {
        b as nat
    } else {
        (b + 0x1_0000_0000_0000_0000) as nat
    };
    lemma_number(na, nb, 8, x, y);
}

proof fn lemma_bytes(a: Seq<u8>, b: Seq<u8>, x: Seq<u8>, y: Seq<u8>)
    requires
        countable(a.len()),
        countable(b.len()),
        bytes_field(a) + x == bytes_field(b) + y,
    ensures
        a == b,
        x == y,
{
    lemma_pow256_values();
    assert(bytes_field(a) + x =~= le_seq(a.len(), 8) + (a + x));
    assert(bytes_field(b) + y =~= le_seq(b.len(), 8) + (b + y));
    lemma_number(a.len(), b.len(), 8, a + x, b + y);
    lemma_parts(a, b, x, y);
}

proof fn lemma_words(a: Seq<u64>, b: Seq<u64>, x: Seq<u8>, y: Seq<u8>)
    requires
        countable(8 * a.len()),
        countable(8 * b.len()),
        bytes_field(words_bytes(a)) + x == bytes_field(words_bytes(b)) + y,
    ensures
        a == b,
        x == y,
{
    lemma_words_come_back(a);
    lemma_words_come_back(b);
    lemma_bytes(words_bytes(a), words_bytes(b), x, y);
    assert(a == bytes_words(words_bytes(a)));
}

proof fn lemma_counted_words(a: Seq<u64>, b: Seq<u64>, x: Seq<u8>, y: Seq<u8>)
    requires
        countable(a.len()),
        countable(b.len()),
        words_field(a) + x == words_field(b) + y,
    ensures
        a == b,
        x == y,
{
    lemma_pow256_values();
    lemma_words_come_back(a);
    lemma_words_come_back(b);
    assert(words_field(a) + x =~= le_seq(a.len(), 8) + (words_bytes(a) + x));
    assert(words_field(b) + y =~= le_seq(b.len(), 8) + (words_bytes(b) + y));
    lemma_number(a.len(), b.len(), 8, words_bytes(a) + x, words_bytes(b) + y);
    lemma_parts(words_bytes(a), words_bytes(b), x, y);
}

proof fn lemma_bare_ids(a: Seq<ServerId>, b: Seq<ServerId>, x: Seq<u8>, y: Seq<u8>)
    requires
        a.len() == b.len(),
        bare_ids(a) + x == bare_ids(b) + y,
    ensures
        a == b,
        x == y,
    decreases a.len(),
{
    if a.len() == 0 {
        assert(a =~= b);
        assert(bare_ids(a) + x =~= x);
        assert(bare_ids(b) + y =~= y);
    } else {
        let la = le_seq(a.last().0 as nat, 4);
        let lb = le_seq(b.last().0 as nat, 4);
        assert(bare_ids(a) + x =~= bare_ids(a.drop_last()) + (la + x));
        assert(bare_ids(b) + y =~= bare_ids(b.drop_last()) + (lb + y));
        lemma_bare_ids(a.drop_last(), b.drop_last(), la + x, lb + y);
        lemma_pow256_values();
        lemma_number(a.last().0 as nat, b.last().0 as nat, 4, x, y);
        assert(a =~= a.drop_last().push(a.last()));
        assert(b =~= b.drop_last().push(b.last()));
    }
}

proof fn lemma_ids(a: Seq<ServerId>, b: Seq<ServerId>, x: Seq<u8>, y: Seq<u8>)
    requires
        countable(a.len()),
        countable(b.len()),
        ids_field(a) + x == ids_field(b) + y,
    ensures
        a == b,
        x == y,
{
    lemma_pow256_values();
    assert(ids_field(a) + x =~= le_seq(a.len(), 8) + (bare_ids(a) + x));
    assert(ids_field(b) + y =~= le_seq(b.len(), 8) + (bare_ids(b) + y));
    lemma_number(a.len(), b.len(), 8, bare_ids(a) + x, bare_ids(b) + y);
    lemma_bare_ids(a, b, x, y);
}

proof fn lemma_bare_keys(a: Seq<Seq<u8>>, b: Seq<Seq<u8>>, x: Seq<u8>, y: Seq<u8>)
    requires
        a.len() == b.len(),
        keys_countable(a),
        keys_countable(b),
        bare_keys(a) + x == bare_keys(b) + y,
    ensures
        a == b,
        x == y,
    decreases a.len(),
{
    if a.len() == 0 {
        assert(a =~= b);
        assert(bare_keys(a) + x =~= x);
        assert(bare_keys(b) + y =~= y);
    } else {
        let n = a.len() - 1;
        let ia = a.drop_last();
        let ib = b.drop_last();
        assert(countable(a[n].len()) && countable(b[n].len()));
        assert forall|i: int| 0 <= i < ia.len() implies countable((#[trigger] ia[i]).len()) by {
            assert(ia[i] == a[i]);
        }
        assert forall|i: int| 0 <= i < ib.len() implies countable((#[trigger] ib[i]).len()) by {
            assert(ib[i] == b[i]);
        }
        let la = bytes_field(a.last());
        let lb = bytes_field(b.last());
        assert(bare_keys(a) + x =~= bare_keys(ia) + (la + x));
        assert(bare_keys(b) + y =~= bare_keys(ib) + (lb + y));
        lemma_bare_keys(ia, ib, la + x, lb + y);
        lemma_bytes(a.last(), b.last(), x, y);
        assert(a =~= ia.push(a.last()));
        assert(b =~= ib.push(b.last()));
    }
}

proof fn lemma_keys(a: Seq<Seq<u8>>, b: Seq<Seq<u8>>, x: Seq<u8>, y: Seq<u8>)
    requires
        keys_countable(a),
        keys_countable(b),
        keys_field(a) + x == keys_field(b) + y,
    ensures
        a == b,
        x == y,
{
    lemma_pow256_values();
    assert(keys_field(a) + x =~= le_seq(a.len(), 8) + (bare_keys(a) + x));
    assert(keys_field(b) + y =~= le_seq(b.len(), 8) + (bare_keys(b) + y));
    lemma_number(a.len(), b.len(), 8, bare_keys(a) + x, bare_keys(b) + y);
    lemma_bare_keys(a, b, x, y);
}

// ---------------------------------------------------------------------------
// Messages
// ---------------------------------------------------------------------------

proof fn lemma_submission_layout(m: Submission, x: Seq<u8>)
    ensures
        ClientRoundMessage::transcript(m) + x == i64_bytes(m.round_number) + (
            ids_field(m.all_server_ids) + (
            bytes_field(words_bytes(m.auction_vector)) + (
            bytes_field(m.message_vector) + x))),
{
    let p0 = i64_bytes(m.round_number);
    let p1 = ids_field(m.all_server_ids);
    let p2 = bytes_field(words_bytes(m.auction_vector));
    let p3 = bytes_field(m.message_vector);
    let f0 = p0;
    let f1 = f0 + p1;
    let f2 = f1 + p2;
    let x3 = p3 + x;
    let x2 = p2 + x3;
    lemma_shift(f2, p3, x);
    lemma_shift(f1, p2, x3);
    lemma_shift(f0, p1, x2);
}

proof fn lemma_aggregate_layout(m: Aggregate, x: Seq<u8>)
    ensures
        AggregatedClientMessages::transcript(m) + x == i64_bytes(m.round_number) + (
            ids_field(m.all_server_ids) + (
            bytes_field(words_bytes(m.auction_vector)) + (
            bytes_field(m.message_vector) + (
            keys_field(m.user_pks) + x)))),
{
    let p0 = i64_bytes(m.round_number);
    let p1 = ids_field(m.all_server_ids);
    let p2 = bytes_field(words_bytes(m.auction_vector));
    let p3 = bytes_field(m.message_vector);
    let p4 = keys_field(m.user_pks);
    let f0 = p0;
    let f1 = f0 + p1;
    let f2 = f1 + p2;
    let f3 = f2 + p3;
    let x4 = p4 + x;
    let x3 = p3 + x4;
    let x2 = p2 + x3;
    lemma_shift(f3, p4, x);
    lemma_shift(f2, p3, x4);
    lemma_shift(f1, p2, x3);
    lemma_shift(f0, p1, x2);
}

proof fn lemma_partial_layout(m: Partial, x: Seq<u8>)
    ensures
        ServerPartialDecryptionMessage::transcript(m) + x == le_seq(m.server_id.0 as nat, 4) + (
            AggregatedClientMessages::transcript(m.original_aggregate) + (
            keys_field(m.user_pks) + (
            bytes_field(words_bytes(m.auction_vector)) + (
            bytes_field(m.message_vector) + x)))),
{
    let p0 = le_seq(m.server_id.0 as nat, 4);
    let p1 = AggregatedClientMessages::transcript(m.original_aggregate);
    let p2 = keys_field(m.user_pks);
    let p3 = bytes_field(words_bytes(m.auction_vector));
    let p4 = bytes_field(m.message_vector);
    let f0 = p0;
    let f1 = f0 + p1;
    let f2 = f1 + p2;
    let f3 = f2 + p3;
    let x4 = p4 + x;
    let x3 = p3 + x4;
    let x2 = p2 + x3;
    lemma_shift(f3, p4, x);
    lemma_shift(f2, p3, x4);
    lemma_shift(f1, p2, x3);
    lemma_shift(f0, p1, x2);
}

proof fn lemma_table_layout(m: Table, x: Seq<u8>)
    ensures
        IbltVector::transcript(m) + x == le_seq(m.estimated_elements as nat, 4) + (
            le_seq(m.gamma as nat, 8) + (
            le_seq(m.delta as nat, 8) + (
            le_seq(m.xi as nat, 8) + (
            words_field(m.counters) + (
            words_field(m.keys) + (
            words_field(m.values) + x)))))),
{
    let p0 = le_seq(m.estimated_elements as nat, 4);
    let p1 = le_seq(m.gamma as nat, 8);
    let p2 = le_seq(m.delta as nat, 8);
    let p3 = le_seq(m.xi as nat, 8);
    let p4 = words_field(m.counters);
    let p5 = words_field(m.keys);
    let p6 = words_field(m.values);
    let f0 = p0;
    let f1 = f0 + p1;
    let f2 = f1 + p2;
    let f3 = f2 + p3;
    let f4 = f3 + p4;
    let f5 = f4 + p5;
    let x6 = p6 + x;
    let x5 = p5 + x6;
    let x4 = p4 + x5;
    let x3 = p3 + x4;
    let x2 = p2 + x3;
    lemma_shift(f5, p6, x);
    lemma_shift(f4, p5, x6);
    lemma_shift(f3, p4, x5);
    lemma_shift(f2, p3, x4);
    lemma_shift(f1, p2, x3);
    lemma_shift(f0, p1, x2);
}

proof fn lemma_broadcast_layout(m: Broadcast, x: Seq<u8>)
    ensures
        RoundBroadcast::transcript(m) + x == i64_bytes(m.round_number) + (
            IbltVector::transcript(m.auction_vector) + (
            bytes_field(m.message_vector) + x)),
{
    let p0 = i64_bytes(m.round_number);
    let p1 = IbltVector::transcript(m.auction_vector);
    let p2 = bytes_field(m.message_vector);
    let f0 = p0;
    let f1 = f0 + p1;
    let x2 = p2 + x;
    lemma_shift(f1, p2, x);
    lemma_shift(f0, p1, x2);
}

proof fn lemma_contribution_layout(m: Contributed, x: Seq<u8>)
    ensures
        ClientContribution::transcript(m) + x == le_seq(m.round as nat, 4) + (
            bytes_field(words_bytes(m.blinded)) + x),
{
    let p0 = le_seq(m.round as nat, 4);
    let p1 = bytes_field(words_bytes(m.blinded));
    let f0 = p0;
    lemma_shift(f0, p1, x);
}

proof fn lemma_share_layout(m: Shared, x: Seq<u8>)
    ensures
        ServerShare::transcript(m) + x == le_seq(m.server_id.0 as nat, 4) + (
            le_seq(m.round as nat, 4) + (
            bytes_field(words_bytes(m.share)) + x)),
{
    let p0 = le_seq(m.server_id.0 as nat, 4);
    let p1 = le_seq(m.round as nat, 4);
    let p2 = bytes_field(words_bytes(m.share));
    let f0 = p0;
    let f1 = f0 + p1;
    let x2 = p2 + x;
    lemma_shift(f1, p2, x);
    lemma_shift(f0, p1, x2);
}

/// The signed bytes of a client's submission determine the submission and the
/// key.
pub proof fn law_signature_covers_submission(
    a: Submission,
    b: Submission,
    key_a: Seq<u8>,
    key_b: Seq<u8>,
)
    requires
        submission_countable(a),
        submission_countable(b),
        ClientRoundMessage::transcript(a) + key_a == ClientRoundMessage::transcript(b) + key_b,
    ensures
        a == b,
        key_a == key_b,
{
    let a3 = bytes_field(a.message_vector) + key_a;
    let b3 = bytes_field(b.message_vector) + key_b;
    let a2 = bytes_field(words_bytes(a.auction_vector)) + a3;
    let b2 = bytes_field(words_bytes(b.auction_vector)) + b3;
    let a1 = ids_field(a.all_server_ids) + a2;
    let b1 = ids_field(b.all_server_ids) + b2;
    lemma_submission_layout(a, key_a);
    lemma_submission_layout(b, key_b);
    lemma_i64(a.round_number, b.round_number, a1, b1);
    lemma_ids(a.all_server_ids, b.all_server_ids, a2, b2);
    lemma_words(a.auction_vector, b.auction_vector, a3, b3);
    lemma_bytes(a.message_vector, b.message_vector, key_a, key_b);
}

/// The bytes of an aggregate determine the aggregate and what follows it.
pub proof fn law_transcript_covers_aggregate(
    a: Aggregate,
    b: Aggregate,
    x: Seq<u8>,
    y: Seq<u8>,
)
    requires
        aggregate_countable(a),
        aggregate_countable(b),
        AggregatedClientMessages::transcript(a) + x == AggregatedClientMessages::transcript(b) + y,
    ensures
        a == b,
        x == y,
{
    let a4 = keys_field(a.user_pks) + x;
    let b4 = keys_field(b.user_pks) + y;
    let a3 = bytes_field(a.message_vector) + a4;
    let b3 = bytes_field(b.message_vector) + b4;
    let a2 = bytes_field(words_bytes(a.auction_vector)) + a3;
    let b2 = bytes_field(words_bytes(b.auction_vector)) + b3;
    let a1 = ids_field(a.all_server_ids) + a2;
    let b1 = ids_field(b.all_server_ids) + b2;
    lemma_aggregate_layout(a, x);
    lemma_aggregate_layout(b, y);
    lemma_i64(a.round_number, b.round_number, a1, b1);
    lemma_ids(a.all_server_ids, b.all_server_ids, a2, b2);
    lemma_words(a.auction_vector, b.auction_vector, a3, b3);
    lemma_bytes(a.message_vector, b.message_vector, a4, b4);
    lemma_keys(a.user_pks, b.user_pks, x, y);
}

/// The signed bytes of a partial decryption determine the partial and the key.
pub proof fn law_signature_covers_partial(
    a: Partial,
    b: Partial,
    key_a: Seq<u8>,
    key_b: Seq<u8>,
)
    requires
        partial_countable(a),
        partial_countable(b),
        ServerPartialDecryptionMessage::transcript(a) + key_a
            == ServerPartialDecryptionMessage::transcript(b) + key_b,
    ensures
        a == b,
        key_a == key_b,
{
    let a4 = bytes_field(a.message_vector) + key_a;
    let b4 = bytes_field(b.message_vector) + key_b;
    let a3 = bytes_field(words_bytes(a.auction_vector)) + a4;
    let b3 = bytes_field(words_bytes(b.auction_vector)) + b4;
    let a2 = keys_field(a.user_pks) + a3;
    let b2 = keys_field(b.user_pks) + b3;
    let a1 = AggregatedClientMessages::transcript(a.original_aggregate) + a2;
    let b1 = AggregatedClientMessages::transcript(b.original_aggregate) + b2;
    lemma_partial_layout(a, key_a);
    lemma_partial_layout(b, key_b);
    lemma_pow256_values();
    lemma_number(a.server_id.0 as nat, b.server_id.0 as nat, 4, a1, b1);
    law_transcript_covers_aggregate(a.original_aggregate, b.original_aggregate, a2, b2);
    lemma_keys(a.user_pks, b.user_pks, a3, b3);
    lemma_words(a.auction_vector, b.auction_vector, a4, b4);
    lemma_bytes(a.message_vector, b.message_vector, key_a, key_b);
}

/// The signed bytes of a broadcast determine the broadcast and the key.
pub proof fn law_signature_covers_broadcast(
    a: Broadcast,
    b: Broadcast,
    key_a: Seq<u8>,
    key_b: Seq<u8>,
)
    requires
        broadcast_countable(a),
        broadcast_countable(b),
        RoundBroadcast::transcript(a) + key_a == RoundBroadcast::transcript(b) + key_b,
    ensures
        a == b,
        key_a == key_b,
{
    let a2 = bytes_field(a.message_vector) + key_a;
    let b2 = bytes_field(b.message_vector) + key_b;
    let a1 = IbltVector::transcript(a.auction_vector) + a2;
    let b1 = IbltVector::transcript(b.auction_vector) + b2;
    lemma_broadcast_layout(a, key_a);
    lemma_broadcast_layout(b, key_b);
    lemma_i64(a.round_number, b.round_number, a1, b1);
    law_transcript_covers_table(a.auction_vector, b.auction_vector, a2, b2);
    lemma_bytes(a.message_vector, b.message_vector, key_a, key_b);
}

/// The bytes of a table determine the table and what follows it.
pub proof fn law_transcript_covers_table(a: Table, b: Table, x: Seq<u8>, y: Seq<u8>)
    requires
        table_countable(a),
        table_countable(b),
        IbltVector::transcript(a) + x == IbltVector::transcript(b) + y,
    ensures
        a == b,
        x == y,
{
    let a6 = words_field(a.values) + x;
    let b6 = words_field(b.values) + y;
    let a5 = words_field(a.keys) + a6;
    let b5 = words_field(b.keys) + b6;
    let a4 = words_field(a.counters) + a5;
    let b4 = words_field(b.counters) + b5;
    let a3 = le_seq(a.xi as nat, 8) + a4;
    let b3 = le_seq(b.xi as nat, 8) + b4;
    let a2 = le_seq(a.delta as nat, 8) + a3;
    let b2 = le_seq(b.delta as nat, 8) + b3;
    let a1 = le_seq(a.gamma as nat, 8) + a2;
    let b1 = le_seq(b.gamma as nat, 8) + b2;
    lemma_table_layout(a, x);
    lemma_table_layout(b, y);
    lemma_pow256_values();
    lemma_number(a.estimated_elements as nat, b.estimated_elements as nat, 4, a1, b1);
    lemma_number(a.gamma as nat, b.gamma as nat, 8, a2, b2);
    lemma_number(a.delta as nat, b.delta as nat, 8, a3, b3);
    lemma_number(a.xi as nat, b.xi as nat, 8, a4, b4);
    lemma_counted_words(a.counters, b.counters, a5, b5);
    lemma_counted_words(a.keys, b.keys, a6, b6);
    lemma_counted_words(a.values, b.values, x, y);
}

/// The signed bytes of a one-round contribution determine the contribution and
/// the key.
pub proof fn law_signature_covers_contribution(
    a: Contributed,
    b: Contributed,
    key_a: Seq<u8>,
    key_b: Seq<u8>,
)
    requires
        countable(8 * a.blinded.len()),
        countable(8 * b.blinded.len()),
        ClientContribution::transcript(a) + key_a == ClientContribution::transcript(b) + key_b,
    ensures
        a == b,
        key_a == key_b,
{
    let a1 = bytes_field(words_bytes(a.blinded)) + key_a;
    let b1 = bytes_field(words_bytes(b.blinded)) + key_b;
    lemma_contribution_layout(a, key_a);
    lemma_contribution_layout(b, key_b);
    lemma_pow256_values();
    lemma_number(a.round as nat, b.round as nat, 4, a1, b1);
    lemma_words(a.blinded, b.blinded, key_a, key_b);
}

/// The signed bytes of a one-round share determine the share and the key.
pub proof fn law_signature_covers_share(a: Shared, b: Shared, key_a: Seq<u8>, key_b: Seq<u8>)
    requires
        countable(8 * a.share.len()),
        countable(8 * b.share.len()),
        ServerShare::transcript(a) + key_a == ServerShare::transcript(b) + key_b,
    ensures
        a == b,
        key_a == key_b,
{
    let a2 = bytes_field(words_bytes(a.share)) + key_a;
    let b2 = bytes_field(words_bytes(b.share)) + key_b;
    let a1 = le_seq(a.round as nat, 4) + a2;
    let b1 = le_seq(b.round as nat, 4) + b2;
    lemma_share_layout(a, key_a);
    lemma_share_layout(b, key_b);
    lemma_pow256_values();
    lemma_number(a.server_id.0 as nat, b.server_id.0 as nat, 4, a1, b1);
    lemma_number(a.round as nat, b.round as nat, 4, a2, b2);
    lemma_words(a.share, b.share, key_a, key_b);
}

/// The parts of the byte forms and the order in which they stand.
pub proof fn law_order_of_parts(
    s: Submission,
    a: Aggregate,
    p: Partial,
    b: Broadcast,
    c: Contributed,
    h: Shared,
)
    ensures
        ClientRoundMessage::transcript(s) == i64_bytes(s.round_number) + ids_field(
            s.all_server_ids,
        ) + bytes_field(words_bytes(s.auction_vector)) + bytes_field(s.message_vector),
        AggregatedClientMessages::transcript(a) == i64_bytes(a.round_number) + ids_field(
            a.all_server_ids,
        ) + bytes_field(words_bytes(a.auction_vector)) + bytes_field(a.message_vector)
            + keys_field(a.user_pks),
        ServerPartialDecryptionMessage::transcript(p) == le_seq(p.server_id.0 as nat, 4)
            + AggregatedClientMessages::transcript(p.original_aggregate) + keys_field(p.user_pks)
            + bytes_field(words_bytes(p.auction_vector)) + bytes_field(p.message_vector),
        RoundBroadcast::transcript(b) == i64_bytes(b.round_number) + IbltVector::transcript(
            b.auction_vector,
        ) + bytes_field(b.message_vector),
        IbltVector::transcript(b.auction_vector) == le_seq(
            b.auction_vector.estimated_elements as nat,
            4,
        ) + le_seq(b.auction_vector.gamma as nat, 8) + le_seq(b.auction_vector.delta as nat, 8)
            + le_seq(b.auction_vector.xi as nat, 8) + words_field(b.auction_vector.counters)
            + words_field(b.auction_vector.keys) + words_field(b.auction_vector.values),
        ClientContribution::transcript(c) == le_seq(c.round as nat, 4) + bytes_field(
            words_bytes(c.blinded),
        ),
        ServerShare::transcript(h) == le_seq(h.server_id.0 as nat, 4) + le_seq(h.round as nat, 4)
            + bytes_field(words_bytes(h.share)),
{
}

} // verus!
