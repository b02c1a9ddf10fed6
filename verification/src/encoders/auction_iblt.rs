//! Encode bids into an IBLT and decode winners from the recovered
//! field-element vector. Pure functions; no protocol state.
//!
//! Each bid rides in a single multi-V IBLT cell: the key is a 7-byte random
//! nonce (so identical bids from distinct clients land in distinct cells),
//! and ξ=4 V slots carry the bid's `(weight, size, hash[..14])`.

use vstd::prelude::*;

use crate::auction::auction::{
    auction, bid_of_values, law_bid_round_trip, readable_values, AuctionData, AuctionEngine,
    AuctionWinner, Award, Bid, AUCTION_BID_XI, AUCTION_KEY_BYTES, KNAPSACK_CHUNK_BYTES,
};
use crate::auction::iblt::{
    byte_views, empty_table, insert_refused, lemma_table_fits, packed, table_fits, unpack_all,
    unpacked, IbltError, IbltVector, Packed, Table,
};
use crate::auction::iblt_laws::{
    all_fit, law_recovery_is_sound, law_recovery_of_held, peelable,
};
use crate::bytes::{lemma_le_seq_len, lemma_le_seq_of_le_nat};
use crate::crypto::fields::{PACK_BYTES, PACK_LIMIT, P};
use crate::randomness::KeySource;
use crate::sorting::{lemma_images, views};

verus! {

#[derive(Clone, Copy, Debug, PartialEq, Eq, Structural)]
pub enum AuctionDecodeError {
    Iblt(IbltError),
}

/// The bids that recovered entries carry.
pub open spec fn bids_of(es: Seq<Packed>) -> Seq<Bid> {
    Seq::new(es.len(), |i: int| bid_of_values(unpacked(es[i]).values))
}

/// The bids recovered from a table.
pub open spec fn recovered_bids(t: Table) -> Result<Seq<Bid>, IbltError> {
    match t.recovered() {
        Ok(es) => Ok(bids_of(es)),
        Err(e) => Err(e),
    }
}

/// The outcome of the auction over a recovered vector.
pub open spec fn winners_of(recovered: Seq<u64>, n: u32, bandwidth: u32, min: u32) -> Result<
    Seq<Award>,
    AuctionDecodeError,
> {
    match empty_table(n, AUCTION_BID_XI).decoded(recovered) {
        Err(e) => Err(AuctionDecodeError::Iblt(e)),
        Ok(t) => match recovered_bids(t) {
            Err(e) => Err(AuctionDecodeError::Iblt(e)),
            Ok(bids) => Ok(auction(bids, bandwidth, min, KNAPSACK_CHUNK_BYTES)),
        },
    }
}

/// Create an empty auction-IBLT sized for `estimated_elements`.
pub fn empty_iblt(estimated_elements: u32) -> (r: IbltVector)
    requires
        table_fits(estimated_elements, AUCTION_BID_XI as nat),
    ensures
        r@ == empty_table(estimated_elements, AUCTION_BID_XI),
        r@.laid_out(),
        r@.shape_ok(),
{
    proof {
        lemma_table_fits(estimated_elements, AUCTION_BID_XI);
    }
    IbltVector::new_with_xi(estimated_elements, AUCTION_BID_XI)
}

/// Insert one bid under the given key.
pub fn insert_bid_with_key(
    iblt: &mut IbltVector,
    bid: &AuctionData,
    key: &[u8; AUCTION_KEY_BYTES],
) -> (r: Result<(), IbltError>)
    requires
        old(iblt).xi == AUCTION_BID_XI ==> old(iblt)@.has_room(packed(key@, bid@.values())),
    ensures
        match insert_refused(old(iblt)@, bid@.values()) {
            Some(e) => r == Err::<(), IbltError>(e) && final(iblt)@ == old(iblt)@,
            None => r is Ok && final(iblt)@ == old(iblt)@.inserted(packed(key@, bid@.values())),
        },
{
    let values = bid.encode_values();
    let mut slices: Vec<&[u8]> = Vec::new();
    slices.push(values[0].as_slice());
    slices.push(values[1].as_slice());
    slices.push(values[2].as_slice());
    slices.push(values[3].as_slice());
    proof {
        let all = Seq::new(4, |i: int| values@[i]@);
        assert(all[0] == values@[0]@ && all[1] == values@[1]@ && all[2] == values@[2]@ && all[3]
            == values@[3]@);
        assert(byte_views(slices@) =~= bid@.values());
    }
    iblt.insert(key, &slices)
}

/// Insert one bid into the IBLT. `rng` draws the random per-bid key.
pub fn insert_bid<R: KeySource>(iblt: &mut IbltVector, bid: &AuctionData, rng: &mut R) -> (r:
    Result<(), IbltError>)
    requires
        old(iblt).xi == AUCTION_BID_XI ==> forall|key: Seq<u8>|
            key.len() == AUCTION_KEY_BYTES ==> old(iblt)@.has_room(
                #[trigger] packed(key, bid@.values()),
            ),
    ensures
        match insert_refused(old(iblt)@, bid@.values()) {
            Some(e) => r == Err::<(), IbltError>(e) && final(iblt)@ == old(iblt)@,
            None => {
                &&& r is Ok
                &&& exists|key: Seq<u8>|
                    key.len() == AUCTION_KEY_BYTES && final(iblt)@ == old(iblt)@.inserted(
                        #[trigger] packed(key, bid@.values()),
                    )
            },
        },
{
    let key = rng.draw_key();
    proof {
        assert(key@.len() == AUCTION_KEY_BYTES);
        let e = packed(key@, bid@.values());
    }
    insert_bid_with_key(iblt, bid, &key)
}

/// Encode the IBLT into the field-element vector that the field-additive
/// primitive carries.
pub fn encode_iblt(iblt: &IbltVector) -> (r: Vec<u64>)
    ensures
        r@ == iblt@.elements(),
{
    iblt.encode_as_field_elements()
}

/// An entry with four values of at most seven bytes each can be read as a bid.
pub proof fn lemma_entry_is_readable(e: Packed)
    requires
        e.values.len() == AUCTION_BID_XI,
    ensures
        readable_values(unpacked(e).values),
{
    lemma_le_seq_len(e.values[0] as nat, PACK_BYTES as nat);
    lemma_le_seq_len(e.values[1] as nat, PACK_BYTES as nat);
    lemma_le_seq_len(e.values[2] as nat, PACK_BYTES as nat);
    lemma_le_seq_len(e.values[3] as nat, PACK_BYTES as nat);
}

/// Recover the bids that a table of bids holds.
pub fn recover_bids(iblt: &IbltVector) -> (r: Result<Vec<AuctionData>, IbltError>)
    requires
        iblt.xi == AUCTION_BID_XI,
    ensures
        match r {
            Ok(bids) => recovered_bids(iblt@) == Ok::<Seq<Bid>, IbltError>(views(bids@)),
            Err(e) => recovered_bids(iblt@) == Err::<Seq<Bid>, IbltError>(e),
        },
{
    let entries = match iblt.recover() {
        Ok(entries) => entries,
        Err(e) => return Err(e),
    };
    let ghost es = iblt@.recovered()->Ok_0;
    proof {
        law_recovery_is_sound(iblt@);
        assert(views(entries@).len() == unpack_all(es).len());
    }
    let mut bids: Vec<AuctionData> = Vec::new();
    let mut i: usize = 0;
    while i < entries.len()
        invariant
            i <= entries@.len(),
            es.len() == entries@.len(),
            views(entries@) == unpack_all(es),
            all_fit(es, AUCTION_BID_XI as nat),
            bids@.len() == i,
            forall|k: int|
                0 <= k < i ==> (#[trigger] bids@[k])@ == bid_of_values(unpacked(es[k]).values),
        decreases entries@.len() - i,
    {
        proof {
            assert(views(entries@)[i as int] == unpack_all(es)[i as int]);
            assert(es[i as int].fits(AUCTION_BID_XI as nat));
            lemma_entry_is_readable(es[i as int]);
        }
        bids.push(AuctionData::from_values(&entries[i].values));
        i = i + 1;
    }
    proof {
        assert(views(bids@) =~= bids_of(es));
    }
    Ok(bids)
}

/// Decode the recovered field-element vector back into bids, then run the
/// auction's knapsack winner selection.
pub fn decode_winners(
    recovered: &[u64],
    estimated_elements: u32,
    total_bandwidth: u32,
    min_message_size: u32,
) -> (r: Result<Vec<AuctionWinner>, AuctionDecodeError>)
    requires
        table_fits(estimated_elements, AUCTION_BID_XI as nat),
    ensures
        match r {
            Ok(ws) => winners_of(
                recovered@,
                estimated_elements,
                total_bandwidth,
                min_message_size,
            ) == Ok::<Seq<Award>, AuctionDecodeError>(views(ws@)),
            Err(e) => winners_of(
                recovered@,
                estimated_elements,
                total_bandwidth,
                min_message_size,
            ) == Err::<Seq<Award>, AuctionDecodeError>(e),
        },
{
    let mut iblt = empty_iblt(estimated_elements);
    match iblt.decode_from_elements(recovered) {
        Ok(_) => {},
        Err(e) => return Err(AuctionDecodeError::Iblt(e)),
    }
    let bids = match recover_bids(&iblt) {
        Ok(bids) => bids,
        Err(e) => return Err(AuctionDecodeError::Iblt(e)),
    };
    let engine = AuctionEngine::new(total_bandwidth, min_message_size);
    Ok(engine.run_auction(&bids))
}

// ---------------------------------------------------------------------------
// Laws
// ---------------------------------------------------------------------------

/// The entries that bids make under their keys.
pub open spec fn bid_entries(keys: Seq<Seq<u8>>, bids: Seq<Bid>) -> Seq<Packed> {
    Seq::new(bids.len(), |i: int| packed(keys[i], bids[i].values()))
}

/// Bids with their hashes truncated.
pub open spec fn truncated_all(bids: Seq<Bid>) -> Seq<Bid> {
    Seq::new(bids.len(), |i: int| bids[i].truncated())
}

/// An entry made of a bid reads back as the bid with its hash truncated.
pub proof fn lemma_bid_entry(key: Seq<u8>, bid: Bid)
    requires
        key.len() == AUCTION_KEY_BYTES,
        bid.message_hash.len() == 32,
    ensures
        packed(key, bid.values()).fits(AUCTION_BID_XI as nat),
        bid_of_values(unpacked(packed(key, bid.values())).values) == bid.truncated(),
{
    let vs = bid.values();
    let e = packed(key, vs);
    crate::bytes::lemma_pow256_values();
    lemma_le_seq_len(bid.weight as nat, 4);
    lemma_le_seq_len(bid.size as nat, 4);
    crate::bytes::lemma_le_nat_bound(key);
    assert forall|i: int| 0 <= i < 4 implies (#[trigger] vs[i]).len() == 7 by {}
    assert forall|i: int| 0 <= i < 4 implies #[trigger] e.values[i] < PACK_LIMIT
        && unpacked(e).values[i] == vs[i] by {
        assert(vs[i].len() == 7);
        crate::bytes::lemma_le_nat_bound(vs[i]);
        lemma_le_seq_of_le_nat(vs[i]);
    }
    assert(unpacked(e).values =~= vs);
    law_bid_round_trip(bid);
}

/// What bids go in, come out: a table that holds bids gives them back, in some
/// order and with their hashes truncated, if their entries can be peeled, and
/// reports a stall if not.
pub proof fn law_bids_come_back(t: Table, keys: Seq<Seq<u8>>, bids: Seq<Bid>)
    requires
        t.shape_ok(),
        t.xi == AUCTION_BID_XI,
        keys.len() == bids.len(),
        bids.len() < P,
        forall|i: int| 0 <= i < keys.len() ==> (#[trigger] keys[i]).len() == AUCTION_KEY_BYTES,
        forall|i: int| 0 <= i < bids.len() ==> (#[trigger] bids[i]).message_hash.len() == 32,
        t.holds(bid_entries(keys, bids)),
    ensures
        match recovered_bids(t) {
            Ok(out) => {
                &&& peelable(bid_entries(keys, bids), t.gamma as nat, t.delta as nat)
                &&& out.to_multiset() == truncated_all(bids).to_multiset()
            },
            Err(e) => {
                &&& !peelable(bid_entries(keys, bids), t.gamma as nat, t.delta as nat)
                &&& e is PeelStalled
            },
        },
{
    let es = bid_entries(keys, bids);
    let f = |e: Packed| bid_of_values(unpacked(e).values);
    assert forall|i: int| 0 <= i < es.len() implies (#[trigger] es[i]).fits(t.xi as nat) && f(es[i])
        == truncated_all(bids)[i] by {
        assert(keys[i].len() == AUCTION_KEY_BYTES);
        assert(bids[i].message_hash.len() == 32);
        lemma_bid_entry(keys[i], bids[i]);
    }
    law_recovery_of_held(t, es);
    if t.recovered() is Ok {
        let out = t.recovered()->Ok_0;
        lemma_images(out, es, f);
        assert(bids_of(out) =~= out.map_values(f));
        assert(truncated_all(bids) =~= es.map_values(f));
    }
}

} // verus!
