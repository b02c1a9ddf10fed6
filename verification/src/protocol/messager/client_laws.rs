//! Laws of the client's messages: which slot a message gets, where it stands in
//! the message vector, and what blinding adds to the vectors.

use vstd::prelude::*;

use crate::auction::auction::{auction, offset, Award, Bid};
use crate::auction::iblt::{empty_table, packed, Packed, Table};
use crate::auction::iblt_laws::{law_insert_adds_entry, law_new_table_is_empty};
use crate::collections::{
    in_order, law_finite_maps_can_be_listed, lemma_map_keys, lemma_map_value, values_of,
};
use crate::crypto::blinding::field_pad;
use crate::crypto::blinding_laws::ctr_byte;
use crate::crypto::hashing::sha256;
use crate::crypto::types::ServerId;
use crate::encoders::auction_iblt::recovered_bids;
use crate::primitives::{field_round, xor_round};
use crate::protocol::config::{AdcNetConfig, AuctionResult};
use crate::protocol::messages::{Broadcast, Refusal, Submission};
use crate::sums::{lemma_sum_same, lemma_xor_sum_same, sum, xor_sum};

use super::client::{
    bid_table, blinded_submission, prepared, servers_of, slot_among, slot_for, slotted, winner_with,
};
use super::pad_round;

verus! {

// ---------------------------------------------------------------------------
// Slots
// ---------------------------------------------------------------------------

proof fn lemma_winner(ws: Seq<Award>, hash: Seq<u8>, i: int)
    requires
        0 <= i <= ws.len(),
    ensures
        match winner_with(ws, hash, i) {
            Some(k) => {
                &&& i <= k < ws.len()
                &&& ws[k].bid.message_hash.take(14) == hash
                &&& forall|j: int|
                    i <= j < k ==> (#[trigger] ws[j]).bid.message_hash.take(14) != hash
            },
            None => forall|j: int|
                i <= j < ws.len() ==> (#[trigger] ws[j]).bid.message_hash.take(14) != hash,
        },
    decreases ws.len() - i,
{
    if i < ws.len() && ws[i].bid.message_hash.take(14) != hash {
        lemma_winner(ws, hash, i + 1);
    }
}

proof fn lemma_offset_is_sum(ws: Seq<Award>, n: int)
    requires
        0 <= n,
    ensures
        offset(ws, n) == sum(|j: int| ws[j].slot_size as int, n),
    decreases n,
{
    if n > 0 {
        lemma_offset_is_sum(ws, n - 1);
    }
}

/// A message goes out exactly if the first fourteen bytes of its SHA-256 digest
/// are those of a winner's hash; it then goes to the slot of the first such
/// winner. The slots of all winners are allocated in either case.
pub proof fn law_messages_find_their_slot(ws: Seq<Award>, msg: Seq<u8>)
    requires
        sum(|j: int| ws[j].slot_size as int, ws.len() as int) <= u32::MAX,
    ensures
        ({
            let r = slot_among(ws, msg);
            let hash = sha256(msg).take(14);
            &&& r.total_allocated == sum(|j: int| ws[j].slot_size as int, ws.len() as int)
            &&& r.should_send <==> exists|i: int|
                0 <= i < ws.len() && (#[trigger] ws[i]).bid.message_hash.take(14) == hash
            &&& r.should_send ==> exists|i: int|
                0 <= i < ws.len() && (#[trigger] ws[i]).bid.message_hash.take(14) == hash
                    && r.message_start_index == ws[i].slot_idx && forall|j: int|
                    0 <= j < i ==> (#[trigger] ws[j]).bid.message_hash.take(14) != hash
            &&& !r.should_send ==> r.message_start_index == 0
        }),
{
    let hash = sha256(msg).take(14);
    lemma_winner(ws, hash, 0);
    lemma_offset_is_sum(ws, ws.len() as int);
    match winner_with(ws, hash, 0) {
        Some(k) => {
            assert(ws[k].bid.message_hash.take(14) == hash);
        },
        None => {},
    }
}

/// The slot of a message comes from the auction over the bids of the table, for
/// the low 32 bits of the message length in bytes, with a minimum of one byte
/// and chunks of 1024. A table that does not hold bids or gives none back
/// leaves nothing allocated.
pub proof fn law_slots_come_from_the_auction(message_length: usize, table: Table, msg: Seq<u8>)
    ensures
        table.xi == 4 && recovered_bids(table) is Ok ==> slot_for(message_length, table, msg)
            == slot_among(
            auction(recovered_bids(table)->Ok_0, message_length as u32, 1, 1024),
            msg,
        ),
        table.xi != 4 || recovered_bids(table) is Err ==> slot_for(message_length, table, msg) == (
        AuctionResult { should_send: false, message_start_index: 0, total_allocated: 0 }),
        message_length <= u32::MAX ==> message_length as u32 == message_length,
{
}

/// A message vector is as long as what is allocated. The message stands in its
/// slot, and all other bytes are zero; without a slot all are. A message that
/// would reach beyond what is allocated is refused.
pub proof fn law_messages_stand_in_their_slot(slot: AuctionResult, msg: Seq<u8>)
    ensures
        ({
            let r = slotted(slot, msg);
            let start = slot.message_start_index as int;
            let fits = start + msg.len() <= slot.total_allocated;
            &&& r is Ok <==> !slot.should_send || fits
            &&& r matches Ok(v) ==> {
                &&& v.len() == slot.total_allocated
                &&& slot.should_send ==> forall|k: int|
                    0 <= k < msg.len() ==> v[start + k] == #[trigger] msg[k]
                &&& forall|k: int|
                    0 <= k < v.len() && (!slot.should_send || k < start || k >= start + msg.len())
                        ==> #[trigger] v[k] == 0
            }
            &&& slot.should_send && !fits ==> r == Err::<Seq<u8>, Refusal>(
                Refusal::MessageExceedsAllocatedSlot {
                    needed: msg.len() as usize,
                    available: if start <= slot.total_allocated {
                        (slot.total_allocated - start) as usize
                    } else {
                        0
                    },
                },
            )
        }),
{
}

// ---------------------------------------------------------------------------
// Blinding
// ---------------------------------------------------------------------------

/// The servers of a submission are those with which a secret is shared, each
/// once and in ascending order, and its secrets are theirs, in the same order.
pub proof fn law_servers_ascend(secrets: Map<ServerId, Seq<u8>>)
    requires
        secrets.dom().finite(),
    ensures
        ({
            let es = in_order::<ServerId, Seq<u8>>(secrets);
            let ids = servers_of(es);
            &&& forall|i: int, j: int|
                0 <= i < j < ids.len() ==> (#[trigger] ids[i]).0 < (#[trigger] ids[j]).0
            &&& forall|id: ServerId| #[trigger]
                secrets.contains_key(id) <==> exists|i: int|
                    0 <= i < ids.len() && #[trigger] ids[i] == id
            &&& values_of(es).len() == ids.len()
            &&& forall|i: int|
                0 <= i < ids.len() ==> #[trigger] values_of(es)[i] == secrets[ids[i]]
        }),
{
    let es = in_order::<ServerId, Seq<u8>>(secrets);
    let ids = servers_of(es);
    law_finite_maps_can_be_listed::<ServerId, Seq<u8>>(secrets);
    assert forall|i: int, j: int| 0 <= i < j < ids.len() implies (#[trigger] ids[i]).0 < (
    #[trigger] ids[j]).0 by {
        assert(es[i].0 == ids[i] && es[j].0 == ids[j]);
    }
    assert forall|id: ServerId| #[trigger] secrets.contains_key(id) <==> exists|i: int|
        0 <= i < ids.len() && #[trigger] ids[i] == id by {
        lemma_map_keys::<ServerId, Seq<u8>>(es, id);
        if secrets.contains_key(id) {
            let i = choose|i: int| 0 <= i < es.len() && (#[trigger] es[i]).0 == id;
            assert(ids[i] == id);
        }
        if exists|i: int| 0 <= i < ids.len() && #[trigger] ids[i] == id {
            let i = choose|i: int| 0 <= i < ids.len() && #[trigger] ids[i] == id;
            assert(es[i].0 == id);
        }
    }
    assert forall|i: int| 0 <= i < ids.len() implies #[trigger] values_of(es)[i]
        == secrets[ids[i]] by {
        lemma_map_value::<ServerId, Seq<u8>>(es, i);
    }
}

/// A submission is for its round and names its servers. Each element of its
/// auction vector is the plain one plus the field pads of all secrets, modulo p,
/// and each byte of its message vector is the plain one XORed with the
/// keystreams of all secrets. It is refused only where a keystream is used up.
pub proof fn law_submissions_are_blinded(
    es: Seq<(ServerId, Seq<u8>)>,
    round: i64,
    message: Seq<u8>,
    words: Seq<u64>,
)
    ensures
        ({
            let r = blinded_submission(es, round, message, words);
            let pads = field_round::pads_exist(values_of(es), pad_round(round), words.len());
            &&& r is Ok <==> pads
            &&& !pads ==> r == Err::<Submission, Refusal>(Refusal::PadExhausted)
            &&& r matches Ok(s) ==> {
                &&& s.round_number == round
                &&& s.all_server_ids.len() == es.len()
                &&& forall|i: int|
                    0 <= i < es.len() ==> #[trigger] s.all_server_ids[i] == es[i].0
                &&& s.auction_vector.len() == words.len()
                &&& s.message_vector.len() == message.len()
                &&& forall|i: int|
                    0 <= i < words.len() ==> #[trigger] s.auction_vector[i] == (words[i] + sum(
                        |k: int|
                            field_pad(
                                seq![0u8] + es[k].1,
                                pad_round(round),
                                words.len(),
                            )[i] as int,
                        es.len() as int,
                    )) % 0x1eeed4e13a526bab
                &&& forall|i: int|
                    0 <= i < message.len() ==> #[trigger] s.message_vector[i] == message[i]
                        ^ xor_sum(
                        |k: int|
                            ctr_byte(
                                seq![1u8] + es[k].1,
                                pad_round(round),
                                (i / 16) as nat,
                                i % 16,
                            ),
                        es.len() as int,
                    )
            }
        }),
{
    let r = pad_round(round);
    let mine = values_of(es);
    if field_round::pads_exist(mine, r, words.len()) {
        let s = blinded_submission(es, round, message, words)->Ok_0;
        let n = words.len();
        assert forall|i: int| 0 <= i < n implies #[trigger] s.auction_vector[i] == (words[i] + sum(
            |k: int| field_pad(seq![0u8] + es[k].1, r, n)[i] as int,
            es.len() as int,
        )) % 0x1eeed4e13a526bab by {
            field_round::law_blinding_adds_the_pads(mine, r, words, i);
            lemma_sum_same(
                |k: int| field_pad(seq![0u8] + mine[k], r, n)[i] as int,
                |k: int| field_pad(seq![0u8] + es[k].1, r, n)[i] as int,
                es.len() as int,
            );
        }
        assert forall|i: int| 0 <= i < message.len() implies #[trigger] s.message_vector[i]
            == message[i] ^ xor_sum(
            |k: int| ctr_byte(seq![1u8] + es[k].1, r, (i / 16) as nat, i % 16),
            es.len() as int,
        ) by {
            xor_round::law_blinding_is_the_keystreams(mine, r, message, i);
            lemma_xor_sum_same(
                |k: int| ctr_byte(seq![1u8] + mine[k], r, (i / 16) as nat, i % 16),
                |k: int| ctr_byte(seq![1u8] + es[k].1, r, (i / 16) as nat, i % 16),
                es.len() as int,
            );
        }
    }
}

/// The auction table of a client holds its bid under the key, and nothing else;
/// without a bid it holds nothing.
pub proof fn law_bid_tables(slots: u32, bid: Bid, key: Seq<u8>)
    ensures
        bid_table(slots, None, key).holds(Seq::empty()),
        bid_table(slots, Some(bid), key).holds(seq![packed(key, bid.values())]),
        bid_table(slots, None, key).estimated_elements == slots,
        bid_table(slots, Some(bid), key).estimated_elements == slots,
        bid_table(slots, None, key).xi == 4,
        bid_table(slots, Some(bid), key).xi == 4,
{
    let blank = empty_table(slots, crate::auction::auction::AUCTION_BID_XI);
    let e = packed(key, bid.values());
    law_new_table_is_empty(slots, crate::auction::auction::AUCTION_BID_XI);
    law_insert_adds_entry(blank, Seq::empty(), e);
    assert(Seq::<Packed>::empty().push(e) =~= seq![e]);
}

/// What a client prepares is the blinded form of its message vector and of its
/// auction table. It is refused only if the broadcast is not that of the round
/// before, the message exceeds what is allocated, or a keystream is used up, in
/// this order.
pub proof fn law_messages_are_prepared(
    config: AdcNetConfig,
    es: Seq<(ServerId, Seq<u8>)>,
    round: i64,
    previous: Broadcast,
    msg: Seq<u8>,
    bid: Option<Bid>,
    key: Seq<u8>,
)
    ensures
        ({
            let r = prepared(config, es, round, previous, msg, bid, key);
            let slot = slot_for(config.message_length, previous.auction_vector, msg);
            let plain = slotted(slot, msg);
            let sent = blinded_submission(
                es,
                round,
                plain->Ok_0,
                bid_table(config.auction_slots, bid, key).elements(),
            );
            let on_time = previous.round_number == round - 1;
            &&& r is Ok <==> on_time && plain is Ok && sent is Ok
            &&& !on_time ==> r == Err::<(Submission, bool), Refusal>(
                Refusal::UnknownPreviousRound,
            )
            &&& on_time && plain is Err ==> r == Err::<(Submission, bool), Refusal>(
                plain->Err_0,
            )
            &&& on_time && plain is Ok && sent is Err ==> r == Err::<(Submission, bool), Refusal>(
                sent->Err_0,
            )
            &&& r matches Ok(p) ==> p.0 == sent->Ok_0 && p.1 == slot.should_send
        }),
{
}

} // verus!
