//! Laws of the byte layouts: where a payload stands in its frame, a bid in its
//! values and a message in its slot, and what is not a frame.

use vstd::prelude::*;

use crate::auction::auction::{auction, bid_of_values, readable_values, Award, Bid};
use crate::auction::iblt::{empty_table, packed, unpacked, Packed};
use crate::auction::iblt_laws::{law_insert_adds_entry, law_new_table_is_empty};
use crate::bytes::{be_nat, law_big_endian_digits, lemma_le_seq_len, pow256};

use super::auction_iblt::{winners_of, AuctionDecodeError};
use super::iblt_msg::{
    framed, joined, payload_values, payloads_of, unframed, usable, xi_for, IbltMsgError,
    IbltMsgParams,
};
use super::laws::{contribution, Keyed};
use super::message_slots::{all_slot_bytes, slot_bytes, written};

verus! {

/// An entry has the fewest values of seven bytes that hold the largest payload
/// and its four-byte length; the rest of them can be used as well.
pub proof fn law_values_per_entry(max: nat)
    ensures
        7 * xi_for(max) >= max + 4,
        7 * (xi_for(max) - 1) < max + 4,
        usable(max) == 7 * xi_for(max) - 4,
        usable(max) >= max,
{
}

/// A frame begins with the length of the payload in four big-endian bytes, goes
/// on with the payload, and ends with zeros.
pub proof fn law_frame_layout(payload: Seq<u8>, n: nat)
    requires
        payload.len() + 4 <= n,
    ensures
        framed(payload, n).len() == n,
        forall|k: int|
            0 <= k < 4 ==> #[trigger] framed(payload, n)[k] == (payload.len() / pow256(
                (3 - k) as nat,
            )) % 256,
        forall|k: int|
            0 <= k < payload.len() ==> framed(payload, n)[4 + k] == #[trigger] payload[k],
        forall|k: int|
            4 + payload.len() <= k < n ==> #[trigger] framed(payload, n)[k] == 0,
{
    lemma_le_seq_len(payload.len(), 4);
    assert forall|k: int| 0 <= k < 4 implies #[trigger] framed(payload, n)[k] == (payload.len()
        / pow256((3 - k) as nat)) % 256 by {
        law_big_endian_digits(payload.len(), 4, k);
    }
}

/// The values of a payload are its frame, seven bytes at a time.
pub proof fn law_values_are_the_frame(payload: Seq<u8>, max: nat)
    requires
        payload.len() <= usable(max),
    ensures
        payload_values(payload, max).len() == xi_for(max),
        forall|v: int|
            0 <= v < xi_for(max) ==> (#[trigger] payload_values(payload, max)[v]).len() == 7,
        forall|v: int, k: int|
            0 <= v < xi_for(max) && 0 <= k < 7 ==> #[trigger] payload_values(payload, max)[v][k]
                == framed(payload, 7 * xi_for(max))[7 * v + k],
{
    lemma_le_seq_len(payload.len(), 4);
}

/// Values of seven bytes each are joined one after the other.
pub proof fn law_values_are_joined(vs: Seq<Seq<u8>>)
    requires
        forall|v: int| 0 <= v < vs.len() ==> (#[trigger] vs[v]).len() == 7,
    ensures
        joined(vs).len() == 7 * vs.len(),
        forall|v: int, k: int|
            0 <= v < vs.len() && 0 <= k < 7 ==> joined(vs)[7 * v + k] == #[trigger] vs[v][k],
    decreases vs.len(),
{
    if vs.len() > 0 {
        let init = vs.drop_last();
        let n = vs.len() - 1;
        assert forall|v: int| 0 <= v < init.len() implies (#[trigger] init[v]).len() == 7 by {
            assert(init[v] == vs[v]);
        }
        law_values_are_joined(init);
        assert(vs[n].len() == 7);
        assert forall|v: int, k: int| 0 <= v < vs.len() && 0 <= k < 7 implies joined(vs)[7 * v + k]
            == #[trigger] vs[v][k] by {
            if v < n {
                assert(joined(init)[7 * v + k] == init[v][k]);
            }
        }
    }
}

/// A frame is refused exactly if the length that it begins with exceeds what can
/// be used; otherwise that many bytes behind the length are the payload.
pub proof fn law_frames_are_refused_only_if(flat: Seq<u8>, max: nat)
    ensures
        ({
            let claimed = be_nat(flat.subrange(0, 4));
            &&& claimed > usable(max) ==> unframed(flat, max) == Err::<Seq<u8>, IbltMsgError>(
                IbltMsgError::BadFraming {
                    claimed: claimed as usize,
                    capacity: usable(max) as usize,
                },
            )
            &&& claimed <= usable(max) ==> unframed(flat, max) == Ok::<Seq<u8>, IbltMsgError>(
                flat.subrange(4, 4 + claimed as int),
            )
        }),
{
}

/// Entries give their payloads in order, one for each, if every one of them is a
/// frame; otherwise what is wrong with the first that is not is reported.
pub proof fn law_payloads_are_read_in_order(es: Seq<Packed>, max: nat)
    ensures
        payloads_of(es, max) matches Ok(out) ==> {
            &&& out.len() == es.len()
            &&& forall|i: int|
                0 <= i < es.len() ==> unframed(joined(unpacked(#[trigger] es[i]).values), max)
                    == Ok::<Seq<u8>, IbltMsgError>(out[i])
        },
        payloads_of(es, max) matches Err(e) ==> exists|j: int|
            0 <= j < es.len() && unframed(joined(unpacked(#[trigger] es[j]).values), max) == Err::<
                Seq<u8>,
                IbltMsgError,
            >(e) && payloads_of(es.take(j), max) is Ok,
    decreases es.len(),
{
    if es.len() > 0 {
        let init = es.drop_last();
        let n = es.len() - 1;
        law_payloads_are_read_in_order(init, max);
        match payloads_of(init, max) {
            Err(e) => {
                let j = choose|j: int|
                    0 <= j < init.len() && unframed(
                        joined(unpacked(#[trigger] init[j]).values),
                        max,
                    ) == Err::<Seq<u8>, IbltMsgError>(e) && payloads_of(init.take(j), max) is Ok;
                assert(es[j] == init[j]);
                assert(es.take(j) =~= init.take(j));
            },
            Ok(before) => {
                assert(es.take(n) =~= init);
                match unframed(joined(unpacked(es[n]).values), max) {
                    Err(e) => {},
                    Ok(p) => {
                        let out = payloads_of(es, max)->Ok_0;
                        assert(out == before.push(p));
                        assert forall|i: int| 0 <= i < es.len() implies unframed(
                            joined(unpacked(#[trigger] es[i]).values),
                            max,
                        ) == Ok::<Seq<u8>, IbltMsgError>(out[i]) by {
                            if i < n {
                                assert(init[i] == es[i]);
                            }
                        }
                    },
                }
            },
        }
    }
}

/// A bid is carried by four values of seven bytes: its weight and its size in
/// four big-endian bytes each, before three zeros, and the first fourteen bytes
/// of its hash, seven in each.
pub proof fn law_bid_layout(b: Bid)
    requires
        b.message_hash.len() == 32,
    ensures
        b.values().len() == 4,
        forall|v: int| 0 <= v < 4 ==> (#[trigger] b.values()[v]).len() == 7,
        forall|k: int|
            0 <= k < 4 ==> #[trigger] b.values()[0][k] == (b.weight as nat / pow256(
                (3 - k) as nat,
            )) % 256,
        forall|k: int|
            0 <= k < 4 ==> #[trigger] b.values()[1][k] == (b.size as nat / pow256((3 - k) as nat))
                % 256,
        forall|k: int| 4 <= k < 7 ==> #[trigger] b.values()[0][k] == 0,
        forall|k: int| 4 <= k < 7 ==> #[trigger] b.values()[1][k] == 0,
        forall|k: int| 0 <= k < 7 ==> #[trigger] b.values()[2][k] == b.message_hash[k],
        forall|k: int| 0 <= k < 7 ==> #[trigger] b.values()[3][k] == b.message_hash[7 + k],
{
    lemma_le_seq_len(b.weight as nat, 4);
    lemma_le_seq_len(b.size as nat, 4);
    assert forall|k: int| 0 <= k < 4 implies #[trigger] b.values()[0][k] == (b.weight as nat
        / pow256((3 - k) as nat)) % 256 by {
        law_big_endian_digits(b.weight as nat, 4, k);
    }
    assert forall|k: int| 0 <= k < 4 implies #[trigger] b.values()[1][k] == (b.size as nat
        / pow256((3 - k) as nat)) % 256 by {
        law_big_endian_digits(b.size as nat, 4, k);
    }
}

/// A bid that is read has the fourteen bytes of the last two values and eighteen
/// zeros as its hash, and the big-endian numbers in the first four bytes of the
/// first two values as its weight and its size.
pub proof fn law_bids_are_read(vs: Seq<Seq<u8>>)
    requires
        readable_values(vs),
    ensures
        ({
            let b = bid_of_values(vs);
            &&& b.message_hash.len() == 32
            &&& forall|k: int| 0 <= k < 7 ==> #[trigger] b.message_hash[k] == vs[2][k]
            &&& forall|k: int| 7 <= k < 14 ==> #[trigger] b.message_hash[k] == vs[3][k - 7]
            &&& forall|k: int| 14 <= k < 32 ==> #[trigger] b.message_hash[k] == 0
            &&& b.weight == be_nat(vs[0].subrange(0, 4))
            &&& b.size == be_nat(vs[1].subrange(0, 4))
        }),
{
    crate::bytes::lemma_le_nat_bound(vs[0].take(4).reverse());
    crate::bytes::lemma_le_nat_bound(vs[1].take(4).reverse());
    crate::bytes::lemma_pow256_values();
}

/// The winners of a recovered vector are those of the auction, in chunks of 1024
/// bytes, over the bids that its entries carry, in the order in which they are
/// recovered. A vector that is no table, or a table that gives nothing back, is
/// reported.
pub proof fn law_winners_of_a_vector(words: Seq<u64>, n: u32, bandwidth: u32, min: u32)
    ensures
        ({
            let r = winners_of(words, n, bandwidth, min);
            let t = empty_table(n, 4).decoded(words);
            let es = t->Ok_0.recovered();
            &&& t is Err ==> r == Err::<Seq<Award>, AuctionDecodeError>(
                AuctionDecodeError::Iblt(t->Err_0),
            )
            &&& t is Ok && es is Err ==> r == Err::<Seq<Award>, AuctionDecodeError>(
                AuctionDecodeError::Iblt(es->Err_0),
            )
            &&& t is Ok && es is Ok ==> r == Ok::<Seq<Award>, AuctionDecodeError>(
                auction(
                    Seq::new(
                        es->Ok_0.len(),
                        |i: int| bid_of_values(unpacked(es->Ok_0[i]).values),
                    ),
                    bandwidth,
                    min,
                    1024,
                ),
            )
        }),
{
}

/// A slot is read byte by byte from its start, as far as it and the vector
/// reach.
pub proof fn law_slots_are_read(vec: Seq<u8>, w: Award)
    ensures
        ({
            let s = slot_bytes(vec, w);
            &&& w.slot_idx + w.slot_size <= vec.len() ==> s.len() == w.slot_size
            &&& w.slot_idx <= vec.len() < w.slot_idx + w.slot_size ==> s.len() == vec.len()
                - w.slot_idx
            &&& vec.len() < w.slot_idx ==> s.len() == 0
            &&& forall|k: int| 0 <= k < s.len() ==> #[trigger] s[k] == vec[w.slot_idx + k]
        }),
{
}

/// Every slot is read, in order.
pub proof fn law_every_slot_is_read(vec: Seq<u8>, ws: Seq<Award>)
    ensures
        all_slot_bytes(vec, ws).len() == ws.len(),
        forall|i: int|
            0 <= i < ws.len() ==> #[trigger] all_slot_bytes(vec, ws)[i] == slot_bytes(vec, ws[i]),
{
}

/// Writing puts the payload from the offset on and leaves every other byte.
pub proof fn law_payloads_are_written(vec: Seq<u8>, slot: int, payload: Seq<u8>)
    requires
        0 <= slot,
        slot + payload.len() <= vec.len(),
    ensures
        written(vec, slot, payload).len() == vec.len(),
        forall|k: int|
            0 <= k < payload.len() ==> written(vec, slot, payload)[slot + k]
                == #[trigger] payload[k],
        forall|k: int|
            0 <= k < vec.len() && !(slot <= k < slot + payload.len()) ==> #[trigger] written(
                vec,
                slot,
                payload,
            )[k] == vec[k],
{
}

/// The table of a payload holds one entry, of the key and the values that carry
/// the payload, and has the size that the parameters call for.
pub proof fn law_payload_tables(params: IbltMsgParams, payload: Seq<u8>, key: Seq<u8>)
    requires
        params.ok(),
        payload.len() <= usable(params.max_payload_bytes as nat),
    ensures
        ({
            let max = params.max_payload_bytes as nat;
            let t = params.loaded(payload, key);
            &&& t.estimated_elements == params.estimated_messages
            &&& t.xi == xi_for(max)
            &&& t.holds(seq![packed(key, payload_values(payload, max))])
            &&& params.blank().estimated_elements == params.estimated_messages
            &&& params.blank().xi == xi_for(max)
            &&& params.blank().holds(Seq::empty())
            &&& contribution(params, None).holds(Seq::empty())
            &&& contribution(params, Some(Keyed { key, payload })) == t
        }),
{
    let max = params.max_payload_bytes as nat;
    let e = packed(key, payload_values(payload, max));
    lemma_le_seq_len(payload.len(), 4);
    law_new_table_is_empty(params.estimated_messages, xi_for(max) as usize);
    law_insert_adds_entry(params.blank(), Seq::empty(), e);
    assert(Seq::<Packed>::empty().push(e) =~= seq![e]);
}

} // verus!
