//! Client side: slot lookup, message preparation and blinding.

use vstd::prelude::*;

use crate::auction::auction::{
    auction, offset, AuctionData, AuctionEngine, AuctionWinner, Award, Bid,
    AUCTION_BID_XI, AUCTION_HASH_TRUNC_BYTES, KNAPSACK_CHUNK_BYTES,
};
use crate::auction::iblt::{
    empty_table, lemma_table_fits, packed, IbltVector, Table, KEY_BYTES,
};
use crate::bytes::bytes_equal;
use crate::collections::{in_order, values_of, IdMap};
use crate::crypto::blinding::zero_vec;
use crate::crypto::hashing::{sha256, sha256_digest};
use crate::crypto::types::{ServerId, SharedKey};
use crate::encoders::auction_iblt::{insert_bid_with_key, recover_bids, recovered_bids};
use crate::encoders::message_slots::{write_slot, written};
use crate::primitives::{field_round, xor_round};
use crate::protocol::config::{AdcNetConfig, AuctionResult};
use crate::protocol::messages::{
    outcome, Broadcast, ClientRoundMessage, ProtocolError, Refusal, RoundBroadcast, Submission,
};
use crate::randomness::KeySource;
use crate::sorting::views;

use super::pad_round;

verus! {

pub struct ClientMessager<'a> {
    pub config: &'a AdcNetConfig,
    pub shared_secrets: &'a IdMap<SharedKey>,
}

/// No slot was won, and nothing was allocated.
pub open spec fn no_slot() -> AuctionResult {
    AuctionResult { should_send: false, message_start_index: 0, total_allocated: 0 }
}

/// The position of the first winner from `i` on whose truncated hash is `hash`.
pub open spec fn winner_with(ws: Seq<Award>, hash: Seq<u8>, i: int) -> Option<int>
    decreases ws.len() - i,
{
    if i < 0 || i >= ws.len() {
        None
    } else if ws[i].bid.message_hash.take(AUCTION_HASH_TRUNC_BYTES as int) == hash {
        Some(i)
    } else {
        winner_with(ws, hash, i + 1)
    }
}

/// The slot of the message `msg` among the winners `ws`.
pub open spec fn slot_among(ws: Seq<Award>, msg: Seq<u8>) -> AuctionResult {
    let total = offset(ws, ws.len() as int) as usize;
    match winner_with(ws, sha256(msg).take(AUCTION_HASH_TRUNC_BYTES as int), 0) {
        Some(i) => AuctionResult {
            should_send: true,
            message_start_index: ws[i].slot_idx as usize,
            total_allocated: total,
        },
        None => AuctionResult {
            should_send: false,
            message_start_index: 0,
            total_allocated: total,
        },
    }
}

/// The slot that the auction over `table` gives the message `msg`.
pub open spec fn slot_for(message_length: usize, table: Table, msg: Seq<u8>) -> AuctionResult {
    if table.xi != AUCTION_BID_XI {
        no_slot()
    } else {
        match recovered_bids(table) {
            Err(_) => no_slot(),
            Ok(bids) => slot_among(
                auction(bids, message_length as u32, 1, KNAPSACK_CHUNK_BYTES),
                msg,
            ),
        }
    }
}

/// The message vector with `msg` in the slot that it won, if it won one.
pub open spec fn slotted(slot: AuctionResult, msg: Seq<u8>) -> Result<Seq<u8>, Refusal> {
    let blank = Seq::new(slot.total_allocated as nat, |i: int| 0u8);
    if !slot.should_send {
        Ok(blank)
    } else if slot.message_start_index + msg.len() > slot.total_allocated {
        Err(
            Refusal::MessageExceedsAllocatedSlot {
                needed: msg.len() as usize,
                available: if slot.total_allocated >= slot.message_start_index {
                    (slot.total_allocated - slot.message_start_index) as usize
                } else {
                    0
                },
            },
        )
    } else {
        Ok(written(blank, slot.message_start_index as int, msg))
    }
}

/// The servers of a list of entries.
pub open spec fn servers_of(es: Seq<(ServerId, Seq<u8>)>) -> Seq<ServerId> {
    Seq::new(es.len(), |i: int| es[i].0)
}

/// The submission of vectors blinded with the secrets of `es`.
pub open spec fn blinded_submission(
    es: Seq<(ServerId, Seq<u8>)>,
    round: i64,
    message: Seq<u8>,
    auction_elements: Seq<u64>,
) -> Result<Submission, Refusal> {
    if !field_round::pads_exist(values_of(es), pad_round(round), auction_elements.len()) {
        Err(Refusal::PadExhausted)
    } else {
        Ok(
            Submission {
                round_number: round,
                all_server_ids: servers_of(es),
                auction_vector: field_round::blinded(
                    values_of(es),
                    pad_round(round),
                    auction_elements,
                ),
                message_vector: xor_round::blinded(values_of(es), pad_round(round), message),
            },
        )
    }
}

/// The auction table of a client: empty, or with its bid under `key`.
pub open spec fn bid_table(slots: u32, bid: Option<Bid>, key: Seq<u8>) -> Table {
    match bid {
        None => empty_table(slots, AUCTION_BID_XI),
        Some(b) => empty_table(slots, AUCTION_BID_XI).inserted(packed(key, b.values())),
    }
}

/// The message that a client prepares for `round`, with its bid under `key`, and
/// whether it won a slot.
pub open spec fn prepared(
    config: AdcNetConfig,
    es: Seq<(ServerId, Seq<u8>)>,
    round: i64,
    previous: Broadcast,
    msg: Seq<u8>,
    bid: Option<Bid>,
    key: Seq<u8>,
) -> Result<(Submission, bool), Refusal> {
    let slot = slot_for(config.message_length, previous.auction_vector, msg);
    if previous.round_number + 1 != round {
        Err(Refusal::UnknownPreviousRound)
    } else {
        match slotted(slot, msg) {
            Err(e) => Err(e),
            Ok(message) => match blinded_submission(
                es,
                round,
                message,
                bid_table(config.auction_slots, bid, key).elements(),
            ) {
                Err(e) => Err(e),
                Ok(s) => Ok((s, slot.should_send)),
            },
        }
    }
}

/// The view of an optional bid.
pub open spec fn bid_view(bid: Option<&AuctionData>) -> Option<Bid> {
    match bid {
        None => None,
        Some(b) => Some(b@),
    }
}

proof fn lemma_offset_prefix(ws: Seq<Award>, n: int)
    requires
        0 <= n <= ws.len(),
    ensures
        offset(ws, n) <= offset(ws, ws.len() as int),
    decreases ws.len() - n,
{
    if n < ws.len() {
        lemma_offset_prefix(ws, n + 1);
    }
}

/// The slot of the message `msg` among the winners of an auction.
fn find_slot(winners: &[AuctionWinner], msg: &[u8]) -> (r: AuctionResult)
    requires
        offset(views(winners@), winners@.len() as int) <= u32::MAX,
    ensures
        r == slot_among(views(winners@), msg@),
{
    let ghost ws = views(winners@);
    let mut total_allocated: usize = 0;
    let mut i: usize = 0;
    while i < winners.len()
        invariant
            i <= winners@.len(),
            ws == views(winners@),
            offset(ws, ws.len() as int) <= u32::MAX,
            total_allocated == offset(ws, i as int),
        decreases winners@.len() - i,
    {
        proof {
            lemma_offset_prefix(ws, i + 1);
            assert(ws[i as int] == winners@[i as int]@);
        }
        total_allocated = total_allocated + winners[i].slot_size as usize;
        i = i + 1;
    }
    let digest = sha256_digest(msg);
    let ghost hash = sha256(msg@).take(AUCTION_HASH_TRUNC_BYTES as int);
    proof {
        assert(digest@.subrange(0, AUCTION_HASH_TRUNC_BYTES as int) =~= hash);
    }
    let mut k: usize = 0;
    while k < winners.len()
        invariant
            k <= winners@.len(),
            ws == views(winners@),
            hash == sha256(msg@).take(AUCTION_HASH_TRUNC_BYTES as int),
            digest@.subrange(0, AUCTION_HASH_TRUNC_BYTES as int) == hash,
            total_allocated == offset(ws, ws.len() as int),
            winner_with(ws, hash, 0) == winner_with(ws, hash, k as int),
        decreases winners@.len() - k,
    {
        proof {
            assert(ws[k as int] == winners@[k as int]@);
        }
        let theirs = winners[k].bid.truncated_hash();
        if bytes_equal(&theirs, &digest[0..AUCTION_HASH_TRUNC_BYTES]) {
            return AuctionResult {
                should_send: true,
                message_start_index: winners[k].slot_idx as usize,
                total_allocated,
            };
        }
        k = k + 1;
    }
    AuctionResult { should_send: false, message_start_index: 0, total_allocated }
}

impl<'a> ClientMessager<'a> {
    /// Resolve whether this client won a slot in the previous round's auction
    /// and where to place its message.
    pub fn process_previous_auction(
        &self,
        auction_iblt: &IbltVector,
        previous_round_message: &[u8],
    ) -> (r: AuctionResult)
        ensures
            r == slot_for(self.config.message_length, auction_iblt@, previous_round_message@),
    {
        if auction_iblt.xi != AUCTION_BID_XI {
            return AuctionResult::default();
        }
        let bids = match recover_bids(auction_iblt) {
            Ok(bids) => bids,
            Err(_) => return AuctionResult::default(),
        };
        let bandwidth = self.config.message_length as u32;
        let engine = AuctionEngine::new(bandwidth, 1);
        let winners = engine.run_auction(&bids);
        proof {
            crate::auction::auction::lemma_auction_fits(
                views(bids@),
                bandwidth,
                1,
                KNAPSACK_CHUNK_BYTES,
            );
        }
        find_slot(&winners, previous_round_message)
    }

    /// The servers and the secrets shared with them, in the order of the
    /// servers.
    fn sorted_secrets(&self) -> (r: (Vec<ServerId>, Vec<SharedKey>))
        ensures
            r.0@ == servers_of(in_order::<ServerId, Seq<u8>>(self.shared_secrets@)),
            views(r.1@) == values_of(in_order::<ServerId, Seq<u8>>(self.shared_secrets@)),
    {
        let ghost es = self.shared_secrets.entries();
        let n = self.shared_secrets.len();
        let mut ids: Vec<ServerId> = Vec::new();
        let mut secrets: Vec<SharedKey> = Vec::new();
        let mut i: usize = 0;
        while i < n
            invariant
                i <= n,
                n == es.len(),
                es == self.shared_secrets.entries(),
                es == in_order::<ServerId, Seq<u8>>(self.shared_secrets@),
                ids@.len() == i,
                secrets@.len() == i,
                forall|k: int| 0 <= k < i ==> #[trigger] ids@[k] == es[k].0,
                forall|k: int| 0 <= k < i ==> (#[trigger] secrets@[k])@ == es[k].1,
            decreases n - i,
        {
            let (id, secret) = self.shared_secrets.at(i);
            ids.push(*id);
            secrets.push(secret.clone());
            i = i + 1;
        }
        proof {
            assert(ids@ =~= servers_of(es));
            assert(views(secrets@) =~= values_of(es));
        }
        (ids, secrets)
    }

    /// Apply field- and XOR-blinding using shared secrets with all servers.
    pub fn blind(
        &self,
        current_round: i64,
        message_vector: Vec<u8>,
        auction_elements: Vec<u64>,
    ) -> (r: Result<ClientRoundMessage, ProtocolError>)
        ensures
            outcome(r) == blinded_submission(
                in_order::<ServerId, Seq<u8>>(self.shared_secrets@),
                current_round,
                message_vector@,
                auction_elements@,
            ),
    {
        let (server_ids, secrets) = self.sorted_secrets();
        let round = current_round as u32;
        let blinded_auction = match field_round::checked_client_blind(
            &secrets,
            round,
            auction_elements,
        ) {
            Some(v) => v,
            None => return Err(ProtocolError::PadExhausted),
        };
        let blinded_message = xor_round::client_blind(&secrets, round, message_vector);
        Ok(
            ClientRoundMessage {
                round_number: current_round,
                all_server_ids: server_ids,
                auction_vector: blinded_auction,
                message_vector: blinded_message,
            },
        )
    }

    /// [`Self::prepare_message`] with the bid under the given key.
    pub fn prepare_message_with_key(
        &self,
        current_round: i64,
        previous: &RoundBroadcast,
        previous_round_message: &[u8],
        current_round_auction_data: Option<&AuctionData>,
        key: &[u8; KEY_BYTES],
    ) -> (r: Result<(ClientRoundMessage, bool), ProtocolError>)
        requires
            self.config.ok(),
            previous.round_number < i64::MAX,
        ensures
            outcome(r) == prepared(
                *self.config,
                in_order::<ServerId, Seq<u8>>(self.shared_secrets@),
                current_round,
                previous@,
                previous_round_message@,
                bid_view(current_round_auction_data),
                key@,
            ),
    {
        if previous.round_number + 1 != current_round {
            return Err(ProtocolError::UnknownPreviousRound);
        }
        let slot = self.process_previous_auction(
            &previous.auction_vector,
            previous_round_message,
        );
        proof {
            lemma_table_fits(self.config.auction_slots, AUCTION_BID_XI);
        }
        let mut table = IbltVector::new_with_xi(self.config.auction_slots, AUCTION_BID_XI);
        match current_round_auction_data {
            Some(bid) => {
                proof {
                    lemma_bid_fits(bid@);
                    packed(key@, bid@.values()).lemma_has_room(table@);
                }
                match insert_bid_with_key(&mut table, bid, key) {
                    Ok(_) => {},
                    Err(e) => return Err(ProtocolError::Iblt(e)),
                }
            },
            None => {},
        }
        let auction_elements = table.encode_as_field_elements();
        let mut message_vector = zero_vec(slot.total_allocated);
        if slot.should_send {
            let start = slot.message_start_index;
            match write_slot(&mut message_vector, start, previous_round_message) {
                Ok(_) => {},
                Err(_) => {
                    let available: usize = if slot.total_allocated >= start {
                        slot.total_allocated - start
                    } else {
                        0
                    };
                    return Err(
                        ProtocolError::MessageExceedsAllocatedSlot {
                            needed: previous_round_message.len(),
                            available,
                        },
                    );
                },
            }
        }
        match self.blind(current_round, message_vector, auction_elements) {
            Ok(m) => Ok((m, slot.should_send)),
            Err(e) => Err(e),
        }
    }

    /// Build a (still unsigned) ClientRoundMessage for `current_round`.
    /// Returns the message plus whether the client won the previous-round
    /// auction. `rng` draws the key of the bid.
    pub fn prepare_message<R: KeySource>(
        &self,
        current_round: i64,
        previous: &RoundBroadcast,
        previous_round_message: &[u8],
        current_round_auction_data: Option<&AuctionData>,
        rng: &mut R,
    ) -> (r: Result<(ClientRoundMessage, bool), ProtocolError>)
        requires
            self.config.ok(),
            previous.round_number < i64::MAX,
        ensures
            exists|key: Seq<u8>|
                key.len() == KEY_BYTES && outcome(r) == #[trigger] prepared(
                    *self.config,
                    in_order::<ServerId, Seq<u8>>(self.shared_secrets@),
                    current_round,
                    previous@,
                    previous_round_message@,
                    bid_view(current_round_auction_data),
                    key,
                ),
    {
        // Only a bid takes a key.
        let key: [u8; KEY_BYTES] = if current_round_auction_data.is_some()
            && previous.round_number + 1 == current_round {
            rng.draw_key()
        } else {
            [0u8; KEY_BYTES]
        };
        let r = self.prepare_message_with_key(
            current_round,
            previous,
            previous_round_message,
            current_round_auction_data,
            &key,
        );
        proof {
            assert(key@.len() == KEY_BYTES);
        }
        r
    }
}

/// The values of a bid fit a table of bids.
proof fn lemma_bid_fits(bid: Bid)
    requires
        bid.message_hash.len() == 32,
    ensures
        bid.values().len() == AUCTION_BID_XI,
        crate::auction::iblt::first_too_large(bid.values()) is None,
{
    let vs = bid.values();
    crate::bytes::lemma_le_seq_len(bid.weight as nat, 4);
    crate::bytes::lemma_le_seq_len(bid.size as nat, 4);
    reveal_with_fuel(crate::auction::iblt::first_too_large, 5);
    assert(vs.drop_first()[0] == vs[1]);
    assert(vs.drop_first().drop_first()[0] == vs[2]);
    assert(vs.drop_first().drop_first().drop_first()[0] == vs[3]);
    assert(vs.drop_first().drop_first().drop_first().drop_first().len() == 0);
}

} // verus!
