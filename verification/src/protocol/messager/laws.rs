//! What the two rounds of the auction protocol give back: the partials of all
//! servers take the pads off the aggregate, the bids come out of the auction
//! vector, and every message comes out of its slot.

use vstd::prelude::*;

use crate::auction::auction::{
    auction, bid_on, law_single_bid_wins, law_slots_are_disjoint, offset, zero_bytes, Award, Bid,
    AUCTION_BID_XI, AUCTION_HASH_TRUNC_BYTES, KNAPSACK_CHUNK_BYTES,
};
use crate::auction::iblt::{
    delta_for, empty_table, lemma_table_fits, packed, table_fits, Packed, Table, IBLT_GAMMA,
    KEY_BYTES,
};
use crate::auction::iblt_laws::{
    law_few_entries_are_peelable, law_insert_adds_entry, law_new_table_is_empty, peelable,
};
use crate::collections::{
    in_order, law_finite_maps_can_be_listed, law_values_at_keys, lemma_map_keys, values_of,
};
use crate::crypto::fields::{all_canonical, canonical, vzero, P};
use crate::crypto::hashing::sha256;
use crate::crypto::types::ServerId;
use crate::encoders::auction_iblt::{
    bid_entries, law_bids_come_back, recovered_bids, truncated_all,
};
use crate::encoders::laws::{
    all_elements, all_entries, law_many_tables_add_up, same_shape_holding,
};
use crate::encoders::message_slots::slot_bytes;
use crate::primitives::{column, field_round, xor_round};
use crate::protocol::config::{AdcNetConfig, AuctionResult};
use crate::protocol::messages::{
    Aggregate, Broadcast, Partial, Refusal, ServerPartialDecryptionMessage, Submission,
};
use crate::sorting::{
    in_rank_order, law_sorting_ignores_order, law_sorting_orders, law_sorting_permutes,
    ranks_tell_apart, sorted, Ranked,
};
use crate::sums::lemma_xor_sum_single;

use super::aggregator::{auctions_of, folded, messages_of, shape_of, Verified};
use super::aggregator_laws::{all_good, terms_of};
use super::client::{
    bid_table, blinded_submission, no_slot, prepared, servers_of, slot_among, slot_for, slotted,
    winner_with,
};
use super::server::{
    adjacent_twins, auction_shares, first_misfit, ids_distinct, member_secrets, message_shares,
    partial_for, partials_refused, servers_match, unblinded,
};
use super::{auction_len, pad_round};

verus! {

/// A client of a round: its key, the secrets that it shares with the servers,
/// and the plaintext vectors that it sends.
pub struct Party {
    pub key: Seq<u8>,
    pub secrets: Map<ServerId, Seq<u8>>,
    pub auction: Seq<u64>,
    pub message: Seq<u8>,
}

impl Party {
    /// What the client submits.
    pub open spec fn submission(self, round: i64) -> Result<Submission, Refusal> {
        blinded_submission(
            in_order::<ServerId, Seq<u8>>(self.secrets),
            round,
            self.message,
            self.auction,
        )
    }

    /// The submission and its signer.
    pub open spec fn verified(self, round: i64) -> Verified {
        Verified { message: self.submission(round)->Ok_0, signer: self.key }
    }
}

/// The submissions of clients and their signers.
pub open spec fn all_verified(cs: Seq<Party>, round: i64) -> Seq<Verified> {
    Seq::new(cs.len(), |c: int| cs[c].verified(round))
}

/// The plaintext auction vectors of clients.
pub open spec fn plain_auctions(cs: Seq<Party>) -> Seq<Seq<u64>> {
    Seq::new(cs.len(), |c: int| cs[c].auction)
}

/// The plaintext message vectors of clients.
pub open spec fn plain_messages(cs: Seq<Party>) -> Seq<Seq<u8>> {
    Seq::new(cs.len(), |c: int| cs[c].message)
}

/// The clients can submit vectors of the lengths of the round, to the same
/// servers.
pub open spec fn parties_ready(cs: Seq<Party>, round: i64, slots: u32, m: nat) -> bool {
    forall|c: int|
        0 <= c < cs.len() ==> {
            let p = #[trigger] cs[c];
            &&& p.secrets.dom().finite()
            &&& p.submission(round) is Ok
            &&& p.submission(round)->Ok_0.all_server_ids == cs[0].submission(
                round,
            )->Ok_0.all_server_ids
            &&& p.auction.len() == auction_len(slots)
            &&& p.message.len() == m
        }
}

/// The secrets of the servers agree with those of the clients. `holders` gives
/// the secrets of each server by client key.
pub open spec fn agree(
    cs: Seq<Party>,
    holders: Map<ServerId, Map<Seq<u8>, Seq<u8>>>,
) -> bool {
    forall|c: int, id: ServerId|
        0 <= c < cs.len() && (#[trigger] cs[c]).secrets.contains_key(id)
            ==> #[trigger] holders[id][cs[c].key] == cs[c].secrets[id]
}

/// The partials are those of the servers that `agg` names, one of each, in
/// whatever order.
pub open spec fn complete(
    ps: Seq<Partial>,
    holders: Map<ServerId, Map<Seq<u8>, Seq<u8>>>,
    slots: u32,
    agg: Aggregate,
) -> bool {
    &&& ps.len() == agg.all_server_ids.len()
    &&& forall|i: int, j: int|
        0 <= i < j < ps.len() ==> (#[trigger] ps[i]).server_id != (#[trigger] ps[j]).server_id
    &&& forall|i: int|
        0 <= i < ps.len() ==> partial_for(
            (#[trigger] ps[i]).server_id,
            holders[ps[i].server_id],
            slots,
            agg.round_number,
            agg,
        ) == Ok::<Partial, Refusal>(ps[i])
}

/// The broadcast of plaintext vectors.
pub open spec fn plain_broadcast(cs: Seq<Party>, round: i64, slots: u32, m: nat) -> Broadcast {
    Broadcast {
        round_number: round,
        auction_vector: empty_table(slots, AUCTION_BID_XI).decoded(
            field_round::add_all(vzero(auction_len(slots)), plain_auctions(cs)),
        )->Ok_0,
        message_vector: xor_round::xor_all(xor_round::xzero(m), plain_messages(cs)),
    }
}

/// The elements of an empty auction table are as many as an auction vector has.
proof fn lemma_auction_len(slots: u32)
    ensures
        empty_table(slots, AUCTION_BID_XI).elements().len() == auction_len(slots),
{
    let t = empty_table(slots, AUCTION_BID_XI);
    assert(t.elements().len() == 2 * t.cells() + t.values.len());
    let d = crate::auction::iblt::delta_for(slots);
    assert(2 * (4 * d) + (4 * d) * 4 == 4 * d * (2 + 4)) by (nonlinear_arith);
}

proof fn lemma_no_twins(ps: Seq<Partial>, i: int)
    requires
        0 <= i,
        forall|a: int, b: int|
            0 <= a < b < ps.len() ==> (#[trigger] ps[a]).server_id != (#[trigger] ps[b]).server_id,
    ensures
        adjacent_twins(ps, i) is None,
    decreases ps.len() - i,
{
    if i + 1 < ps.len() {
        lemma_no_twins(ps, i + 1);
    }
}

proof fn lemma_no_misfit(ps: Seq<Partial>, agg: Aggregate, i: int)
    requires
        0 <= i,
        forall|k: int|
            0 <= k < ps.len() ==> (#[trigger] ps[k]).original_aggregate == agg
                && ps[k].message_vector.len() == agg.message_vector.len()
                && ps[k].auction_vector.len() == agg.auction_vector.len(),
    ensures
        first_misfit(ps, i) is None,
    decreases ps.len() - i,
{
    if i < ps.len() {
        assert(ps[0].original_aggregate == agg);
        lemma_no_misfit(ps, agg, i + 1);
    }
}

/// As many distinct identifiers out of a list as the list is long exhaust it.
proof fn lemma_exhausted(taken: Seq<ServerId>, ids: Seq<ServerId>, id: ServerId)
    requires
        taken.no_duplicates(),
        taken.len() == ids.len(),
        forall|i: int| 0 <= i < taken.len() ==> ids.contains(#[trigger] taken[i]),
        ids.contains(id),
    ensures
        taken.contains(id),
        ids.no_duplicates(),
{
    let a = taken.to_set();
    let b = ids.to_set();
    taken.unique_seq_to_set();
    ids.lemma_cardinality_of_set();
    assert(a.subset_of(b));
    vstd::set_lib::lemma_len_subset(a, b);
    vstd::set_lib::lemma_subset_equality(a, b);
    assert(b.contains(id));
    assert(a.contains(id));
    ids.lemma_no_dup_set_cardinality();
}

/// The pads come off: the partials of all servers turn the aggregate of blinded
/// submissions into the sums of the plaintext vectors, whatever the order of the
/// partials.
pub proof fn law_partials_unblind(
    cs: Seq<Party>,
    holders: Map<ServerId, Map<Seq<u8>, Seq<u8>>>,
    ps: Seq<Partial>,
    round: i64,
    slots: u32,
    m: nat,
)
    requires
        table_fits(slots, AUCTION_BID_XI as nat),
        cs.len() > 0,
        ps.len() > 0,
        parties_ready(cs, round, slots, m),
        agree(cs, holders),
        complete(ps, holders, slots, folded(all_verified(cs, round), auction_len(slots))),
    ensures
        unblinded(slots, ps) == Ok::<Broadcast, Refusal>(plain_broadcast(cs, round, slots, m)),
{
    let n = auction_len(slots);
    let vs = all_verified(cs, round);
    let agg = folded(vs, n);
    let ids = agg.all_server_ids;
    let keys = agg.user_pks;
    let pr = pad_round(round);
    let named = Seq::new(ps.len(), |s: int| ps[s].server_id);
    let rows = Seq::new(
        cs.len(),
        |c: int| named.map_values(|id: ServerId| cs[c].secrets[id]),
    );
    let auctions = plain_auctions(cs);
    let messages = plain_messages(cs);
    assert(vs[0] == cs[0].verified(round));
    assert(cs[0].message.len() == m);
    assert(vs[0].message.message_vector.len() == m);
    assert(named.no_duplicates());
    assert forall|s: int| 0 <= s < named.len() implies ids.contains(#[trigger] named[s]) by {
        assert(partial_for(ps[s].server_id, holders[ps[s].server_id], slots, round, agg) is Ok);
    }
    assert forall|c: int| 0 <= c < cs.len() implies (#[trigger] rows[c]).len() == ps.len()
        && field_round::pads_exist(rows[c], pr, n) && vs[c].message.auction_vector
        == field_round::blinded(rows[c], pr, auctions[c]) && vs[c].message.message_vector
        == xor_round::blinded(rows[c], pr, messages[c]) && auctions[c].len() == n
        && messages[c].len() == m && (forall|s: int|
        0 <= s < ps.len() ==> cs[c].secrets.contains_key((#[trigger] ps[s]).server_id)) by {
        let p = cs[c];
        let es = in_order::<ServerId, Seq<u8>>(p.secrets);
        assert(p.submission(round) is Ok);
        assert(servers_of(es) == ids);
        law_finite_maps_can_be_listed::<ServerId, Seq<u8>>(p.secrets);
        assert forall|id: ServerId| #[trigger] p.secrets.contains_key(id) <==> named.contains(
            id,
        ) by {
            lemma_map_keys::<ServerId, Seq<u8>>(es, id);
            if p.secrets.contains_key(id) {
                let i = choose|i: int| 0 <= i < es.len() && (#[trigger] es[i]).0 == id;
                assert(servers_of(es)[i] == id);
                lemma_exhausted(named, ids, id);
            }
            if named.contains(id) {
                let s = choose|s: int| 0 <= s < named.len() && named[s] == id;
                assert(ids.contains(named[s]));
                let i = choose|i: int| 0 <= i < ids.len() && ids[i] == id;
                assert(es[i].0 == id);
            }
        }
        law_values_at_keys::<ServerId, Seq<u8>>(p.secrets, named);
        assert(rows[c] =~= named.map_values(|k: ServerId| p.secrets[k]));
        field_round::law_share_ignores_order(values_of(es), rows[c], pr, n);
        xor_round::law_share_ignores_order(values_of(es), rows[c], pr, m);
        assert forall|s: int| 0 <= s < ps.len() implies cs[c].secrets.contains_key(
            (#[trigger] ps[s]).server_id,
        ) by {
            assert(named[s] == ps[s].server_id);
            assert(named.contains(named[s]));
        }
    }
    assert(field_round::rows_ok(rows, ps.len(), pr, n));
    assert(field_round::all_of_len(auctions, n)) by {
        assert forall|c: int| 0 <= c < auctions.len() implies (#[trigger] auctions[c]).len()
            == n by {
            assert(rows[c].len() == ps.len());
        }
    }
    assert(xor_round::all_of_len(messages, m)) by {
        assert forall|c: int| 0 <= c < messages.len() implies (#[trigger] messages[c]).len()
            == m by {
            assert(rows[c].len() == ps.len());
        }
    }
    assert(auctions_of(vs) =~= field_round::all_blinded(rows, pr, auctions)) by {
        assert forall|c: int| 0 <= c < cs.len() implies auctions_of(vs)[c]
            == field_round::blinded(rows[c], pr, auctions[c]) by {
            assert(rows[c].len() == ps.len());
        }
    }
    assert(messages_of(vs) =~= xor_round::all_blinded(rows, pr, messages)) by {
        assert forall|c: int| 0 <= c < cs.len() implies messages_of(vs)[c] == xor_round::blinded(
            rows[c],
            pr,
            messages[c],
        ) by {
            assert(rows[c].len() == ps.len());
        }
    }
    field_round::lemma_add_all_len(vzero(n), auctions_of(vs));
    xor_round::lemma_xor_all_len(xor_round::xzero(m), messages_of(vs));
    assert forall|s: int| 0 <= s < ps.len() implies (#[trigger] ps[s]).original_aggregate == agg
        && ps[s].auction_vector == field_round::share(column(rows, s), pr, n)
        && ps[s].message_vector == xor_round::share(column(rows, s), pr, m) && ps[s].user_pks
        == keys by {
        let id = ps[s].server_id;
        let mine = member_secrets(holders[id], keys);
        assert(partial_for(id, holders[id], slots, round, agg) == Ok::<Partial, Refusal>(ps[s]));
        assert(mine =~= column(rows, s)) by {
            assert forall|c: int| 0 <= c < cs.len() implies mine[c] == rows[c][s] by {
                assert(rows[c].len() == ps.len());
                assert(cs[c].secrets.contains_key(ps[s].server_id));
                assert(keys[c] == cs[c].key);
                assert(holders[id][cs[c].key] == cs[c].secrets[id]);
            }
        }
    }
    assert(auction_shares(ps) =~= field_round::all_shares(rows, ps.len(), pr, n));
    assert(message_shares(ps) =~= xor_round::all_shares(rows, ps.len(), pr, m));
    field_round::law_pads_cancel(rows, ps.len(), pr, auctions, n);
    xor_round::law_pads_cancel(rows, ps.len(), pr, messages, m);
    assert forall|s: int| 0 <= s < ps.len() implies (#[trigger] ps[s]).original_aggregate == agg
        && ps[s].message_vector.len() == agg.message_vector.len()
        && ps[s].auction_vector.len() == agg.auction_vector.len() && all_canonical(
        ps[s].auction_vector,
    ) by {
        assert(auction_shares(ps)[s].len() == n);
        assert(message_shares(ps)[s].len() == m);
        field_round::lemma_column_pads(rows, ps.len(), pr, n, s);
        field_round::lemma_share_canonical(column(rows, s), pr, n);
    }
    lemma_no_twins(ps, 0);
    lemma_no_misfit(ps, agg, 1);
    assert(ids_distinct(ids)) by {
        assert(named.contains(named[0]));
        lemma_exhausted(named, ids, ids[0]);
    }
    assert(servers_match(ps)) by {
        assert forall|i: int| 0 <= i < ps.len() implies ids.contains(
            (#[trigger] ps[i]).server_id,
        ) by {
            assert(named[i] == ps[i].server_id);
        }
    }
    assert(ps[0].original_aggregate == agg);
    assert(all_canonical(agg.auction_vector)) by {
        assert(partial_for(ps[0].server_id, holders[ps[0].server_id], slots, round, agg) is Ok);
    }
    assert(partials_refused(ps) is None);
    let total = field_round::add_all(vzero(n), auctions);
    field_round::lemma_add_all_len(vzero(n), auctions);
    assert(all_canonical(total)) by {
        assert forall|i: int| 0 <= i < total.len() implies canonical(#[trigger] total[i]) by {
            field_round::lemma_add_all_at(vzero(n), auctions, i);
        }
    }
    let blank = empty_table(slots, AUCTION_BID_XI);
    lemma_table_fits(slots, AUCTION_BID_XI);
    assert(blank.decoded(total) is Ok);
}

/// Sorting the partials leaves them complete.
pub proof fn law_sorted_partials_are_complete(
    ps: Seq<Partial>,
    holders: Map<ServerId, Map<Seq<u8>, Seq<u8>>>,
    slots: u32,
    agg: Aggregate,
)
    requires
        complete(ps, holders, slots, agg),
    ensures
        complete(sorted::<ServerPartialDecryptionMessage>(ps), holders, slots, agg),
{
    broadcast use vstd::seq_lib::group_to_multiset_ensures;

    let out = sorted::<ServerPartialDecryptionMessage>(ps);
    law_sorting_permutes::<ServerPartialDecryptionMessage>(ps);
    assert forall|i: int| 0 <= i < out.len() implies ps.contains(#[trigger] out[i]) by {
        assert(out.contains(out[i]));
        assert(out.to_multiset().count(out[i]) > 0);
    }
    assert forall|i: int| 0 <= i < out.len() implies partial_for(
        (#[trigger] out[i]).server_id,
        holders[out[i].server_id],
        slots,
        agg.round_number,
        agg,
    ) == Ok::<Partial, Refusal>(out[i]) by {
        assert(ps.contains(out[i]));
        let j = choose|j: int| 0 <= j < ps.len() && ps[j] == out[i];
        assert(ps[j] == out[i]);
    }
    let f = |p: Partial| p.server_id;
    crate::sorting::lemma_images(ps, out, f);
    let a = ps.map_values(f);
    let b = out.map_values(f);
    assert(a.no_duplicates());
    a.lemma_multiset_has_no_duplicates();
    b.lemma_multiset_has_no_duplicates_conv();
    assert forall|i: int, j: int| 0 <= i < j < out.len() implies (#[trigger] out[i]).server_id != (
    #[trigger] out[j]).server_id by {
        assert(b[i] == out[i].server_id && b[j] == out[j].server_id);
    }
}

/// What partials of distinct servers combine to does not depend on the order in
/// which they come.
pub proof fn law_order_of_partials_is_free(slots: u32, a: Seq<Partial>, b: Seq<Partial>)
    requires
        a.to_multiset() == b.to_multiset(),
        from_distinct_servers(a),
    ensures
        unblinded(slots, sorted::<ServerPartialDecryptionMessage>(a)) == unblinded(
            slots,
            sorted::<ServerPartialDecryptionMessage>(b),
        ),
{
    lemma_sorts_alike(a, b);
}

/// No two partials come from one server.
pub open spec fn from_distinct_servers(ps: Seq<Partial>) -> bool {
    forall|i: int, j: int|
        0 <= i < j < ps.len() ==> (#[trigger] ps[i]).server_id != (#[trigger] ps[j]).server_id
}

pub proof fn lemma_sorts_alike(a: Seq<Partial>, b: Seq<Partial>)
    requires
        a.to_multiset() == b.to_multiset(),
        from_distinct_servers(a),
    ensures
        sorted::<ServerPartialDecryptionMessage>(a) == sorted::<ServerPartialDecryptionMessage>(b),
{
    assert(ranks_tell_apart::<ServerPartialDecryptionMessage>(a)) by {
        assert forall|i: int, j: int|
            0 <= i < a.len() && 0 <= j < a.len() && ServerPartialDecryptionMessage::ranks_le(
                #[trigger] a[i],
                #[trigger] a[j],
            ) && ServerPartialDecryptionMessage::ranks_le(a[j], a[i]) implies a[i] == a[j] by {
            assert(a[i].server_id == a[j].server_id);
            if i < j {
                assert(a[i].server_id != a[j].server_id);
            } else if j < i {
                assert(a[j].server_id != a[i].server_id);
            }
        }
    }
    law_sorting_ignores_order::<ServerPartialDecryptionMessage>(a, b);
}

/// Partials in the order of their servers without twins side by side come from
/// ascending servers.
proof fn lemma_ascending(ps: Seq<Partial>, i: int, j: int)
    requires
        in_rank_order::<ServerPartialDecryptionMessage>(ps),
        adjacent_twins(ps, 0) is None,
        0 <= i < j < ps.len(),
    ensures
        ps[i].server_id.0 < ps[j].server_id.0,
    decreases j - i,
{
    lemma_neighbours_differ(ps, 0, j - 1);
    assert(ServerPartialDecryptionMessage::ranks_le(ps[j - 1], ps[j]));
    if i < j - 1 {
        lemma_ascending(ps, i, j - 1);
    }
}

proof fn lemma_neighbours_differ(ps: Seq<Partial>, i: int, k: int)
    requires
        adjacent_twins(ps, i) is None,
        0 <= i <= k < ps.len() - 1,
    ensures
        ps[k].server_id != ps[k + 1].server_id,
    decreases k - i,
{
    if i < k {
        lemma_neighbours_differ(ps, i + 1, k);
    }
}

/// Recovery takes the share of every server: partials that combine have one of
/// each server that their aggregate names.
pub proof fn law_every_share_is_needed(slots: u32, ps: Seq<Partial>, p: Partial, id: ServerId)
    requires
        unblinded(slots, sorted::<ServerPartialDecryptionMessage>(ps)) is Ok,
        ps.contains(p),
        p.original_aggregate.all_server_ids.contains(id),
    ensures
        exists|i: int| 0 <= i < ps.len() && (#[trigger] ps[i]).server_id == id,
{
    broadcast use vstd::seq_lib::group_to_multiset_ensures;

    let out = sorted::<ServerPartialDecryptionMessage>(ps);
    law_sorting_permutes::<ServerPartialDecryptionMessage>(ps);
    law_sorting_orders::<ServerPartialDecryptionMessage>(ps);
    assert(ps.to_multiset().count(p) > 0);
    assert(out.contains(p));
    let k = choose|k: int| 0 <= k < out.len() && out[k] == p;
    if k > 0 {
        lemma_all_fit(out, 1, k);
    }
    let ids = out[0].original_aggregate.all_server_ids;
    assert(p.original_aggregate == out[0].original_aggregate);
    let named = out.map_values(|q: Partial| q.server_id);
    assert(named.no_duplicates()) by {
        assert forall|i: int, j: int| 0 <= i < named.len() && 0 <= j < named.len() && i
            != j implies named[i] != named[j] by {
            if i < j {
                lemma_ascending(out, i, j);
            } else {
                lemma_ascending(out, j, i);
            }
        }
    }
    named.unique_seq_to_set();
    ids.unique_seq_to_set();
    assert(named.to_set().subset_of(ids.to_set())) by {
        assert forall|x: ServerId| named.to_set().contains(x) implies ids.to_set().contains(x) by {
            let i = choose|i: int| 0 <= i < named.len() && named[i] == x;
            assert(ids.contains(out[i].server_id));
        }
    }
    vstd::set_lib::lemma_subset_equality(named.to_set(), ids.to_set());
    assert(named.to_set().contains(id));
    let i = choose|i: int| 0 <= i < named.len() && named[i] == id;
    assert(out.contains(out[i]));
    assert(out.to_multiset().count(out[i]) > 0);
    assert(ps.contains(out[i]));
    let j = choose|j: int| 0 <= j < ps.len() && ps[j] == out[i];
    assert(ps[j].server_id == id);
}

proof fn lemma_all_fit(ps: Seq<Partial>, i: int, k: int)
    requires
        first_misfit(ps, i) is None,
        0 <= i <= k < ps.len(),
    ensures
        ps[k].original_aggregate == ps[0].original_aggregate,
    decreases k - i,
{
    if i < k {
        lemma_all_fit(ps, i + 1, k);
    }
}

// ---------------------------------------------------------------------------
// Bids
// ---------------------------------------------------------------------------

/// A bid and the key that it rides under.
pub struct Offer {
    pub key: Seq<u8>,
    pub bid: Bid,
}

/// The table that carries an offer, or none.
pub open spec fn offer_table(slots: u32, o: Option<Offer>) -> Table {
    match o {
        None => bid_table(slots, None, Seq::empty()),
        Some(o) => bid_table(slots, Some(o.bid), o.key),
    }
}

/// The vectors that carry offers.
pub open spec fn offer_vectors(slots: u32, os: Seq<Option<Offer>>) -> Seq<Seq<u64>> {
    Seq::new(os.len(), |c: int| offer_table(slots, os[c]).elements())
}

/// The offers that were made.
pub open spec fn offers_made(os: Seq<Option<Offer>>) -> Seq<Offer>
    decreases os.len(),
{
    if os.len() == 0 {
        Seq::empty()
    } else {
        match os.last() {
            None => offers_made(os.drop_last()),
            Some(o) => offers_made(os.drop_last()).push(o),
        }
    }
}

/// The bids of offers.
pub open spec fn offer_bids(os: Seq<Offer>) -> Seq<Bid> {
    Seq::new(os.len(), |i: int| os[i].bid)
}

/// The keys of offers.
pub open spec fn offer_keys(os: Seq<Offer>) -> Seq<Seq<u8>> {
    Seq::new(os.len(), |i: int| os[i].key)
}

/// The key is a key, and the hash of the bid is a hash.
pub open spec fn offer_ok(o: Offer) -> bool {
    o.key.len() == KEY_BYTES && o.bid.message_hash.len() == 32
}

spec fn offer_list(o: Option<Offer>) -> Seq<Packed> {
    match o {
        None => Seq::empty(),
        Some(o) => seq![packed(o.key, o.bid.values())],
    }
}

proof fn lemma_offer_lists(os: Seq<Option<Offer>>)
    requires
        forall|c: int| 0 <= c < os.len() ==> (#[trigger] os[c] matches Some(o) ==> offer_ok(o)),
    ensures
        all_entries(Seq::new(os.len(), |c: int| offer_list(os[c]))) == bid_entries(
            offer_keys(offers_made(os)),
            offer_bids(offers_made(os)),
        ),
        offers_made(os).len() <= os.len(),
        forall|i: int| 0 <= i < offers_made(os).len() ==> offer_ok(#[trigger] offers_made(os)[i]),
    decreases os.len(),
{
    let lists = Seq::new(os.len(), |c: int| offer_list(os[c]));
    let made = offers_made(os);
    if os.len() > 0 {
        let init = os.drop_last();
        assert forall|c: int| 0 <= c < init.len() implies (#[trigger] init[c] matches Some(o)
            ==> offer_ok(o)) by {
            assert(init[c] == os[c]);
        }
        lemma_offer_lists(init);
        assert(lists.drop_last() =~= Seq::new(init.len(), |c: int| offer_list(init[c])));
        assert(os.last() == os[os.len() - 1]);
        assert forall|i: int| 0 <= i < made.len() implies offer_ok(#[trigger] made[i]) by {
            if i < offers_made(init).len() {
                assert(made[i] == offers_made(init)[i]);
            } else {
                assert(os[os.len() - 1] == Some(made[i]));
            }
        }
    }
    assert(all_entries(lists) =~= bid_entries(offer_keys(made), offer_bids(made)));
}

/// The entries of offers can be peeled out of a table of bids.
pub open spec fn offers_peelable(slots: u32, os: Seq<Offer>) -> bool {
    peelable(
        bid_entries(offer_keys(os), offer_bids(os)),
        IBLT_GAMMA as nat,
        delta_for(slots),
    )
}

/// The sum of the auction vectors of a round decodes to the bids in it, hashes
/// truncated, in some order, if their entries can be peeled, as that of one bid
/// always can, and reports a stall if not.
pub proof fn law_summed_bids_come_back(slots: u32, os: Seq<Option<Offer>>)
    requires
        table_fits(slots, AUCTION_BID_XI as nat),
        os.len() < P,
        forall|c: int| 0 <= c < os.len() ==> (#[trigger] os[c] matches Some(o) ==> offer_ok(o)),
    ensures
        ({
            let total = field_round::add_all(vzero(auction_len(slots)), offer_vectors(slots, os));
            let t = empty_table(slots, AUCTION_BID_XI).decoded(total);
            &&& t is Ok
            &&& match recovered_bids(t->Ok_0) {
                Ok(bids) => {
                    &&& offers_peelable(slots, offers_made(os))
                    &&& bids.to_multiset() == truncated_all(
                        offer_bids(offers_made(os)),
                    ).to_multiset()
                },
                Err(e) => !offers_peelable(slots, offers_made(os)) && e is PeelStalled,
            }
        }),
        offers_made(os).len() <= 1 ==> offers_peelable(slots, offers_made(os)),
{
    let blank = empty_table(slots, AUCTION_BID_XI);
    let tables = Seq::new(os.len(), |c: int| offer_table(slots, os[c]));
    let lists = Seq::new(os.len(), |c: int| offer_list(os[c]));
    let made = offers_made(os);
    lemma_table_fits(slots, AUCTION_BID_XI);
    law_new_table_is_empty(slots, AUCTION_BID_XI);
    lemma_auction_len(slots);
    assert forall|c: int| 0 <= c < tables.len() implies #[trigger] same_shape_holding(
        tables[c],
        blank,
        lists[c],
    ) by {
        match os[c] {
            None => {},
            Some(o) => {
                let e = packed(o.key, o.bid.values());
                law_insert_adds_entry(blank, Seq::empty(), e);
                assert(Seq::<Packed>::empty().push(e) =~= lists[c]);
            },
        }
    }
    lemma_offer_lists(os);
    law_many_tables_add_up(blank, tables, lists);
    assert(all_elements(tables) =~= offer_vectors(slots, os));
    let total = field_round::add_all(vzero(auction_len(slots)), offer_vectors(slots, os));
    let t = blank.decoded(total)->Ok_0;
    assert forall|i: int| 0 <= i < made.len() implies (#[trigger] offer_keys(made)[i]).len()
        == KEY_BYTES && (#[trigger] offer_bids(made)[i]).message_hash.len() == 32 by {
        assert(offer_ok(made[i]));
    }
    law_bids_come_back(t, offer_keys(made), offer_bids(made));
    law_few_entries_are_peelable(
        bid_entries(offer_keys(made), offer_bids(made)),
        IBLT_GAMMA as nat,
        delta_for(slots),
    );
}

// ---------------------------------------------------------------------------
// Messages
// ---------------------------------------------------------------------------

/// The winner whose slot `msg` takes.
pub open spec fn slot_of(ws: Seq<Award>, msg: Seq<u8>) -> Option<int> {
    winner_with(ws, sha256(msg).take(AUCTION_HASH_TRUNC_BYTES as int), 0)
}

/// No two messages take one slot, and each fits the slot that it takes.
pub open spec fn slots_suffice(ws: Seq<Award>, msgs: Seq<Seq<u8>>) -> bool {
    &&& forall|c: int|
        0 <= c < msgs.len() && slot_of(ws, #[trigger] msgs[c]) is Some ==> msgs[c].len()
            <= ws[slot_of(ws, msgs[c])->0].slot_size
    &&& forall|c: int, d: int|
        0 <= c < d < msgs.len() && slot_of(ws, #[trigger] msgs[c]) is Some ==> slot_of(
            ws,
            msgs[c],
        ) != slot_of(ws, #[trigger] msgs[d])
}

/// The message vectors of clients that hold the given messages.
pub open spec fn slotted_all(ws: Seq<Award>, msgs: Seq<Seq<u8>>) -> Seq<Seq<u8>> {
    Seq::new(msgs.len(), |c: int| slotted(slot_among(ws, msgs[c]), msgs[c])->Ok_0)
}

proof fn lemma_winner_in_range(ws: Seq<Award>, hash: Seq<u8>, i: int)
    requires
        0 <= i,
    ensures
        winner_with(ws, hash, i) matches Some(k) ==> i <= k < ws.len()
            && ws[k].bid.message_hash.take(AUCTION_HASH_TRUNC_BYTES as int) == hash,
    decreases ws.len() - i,
{
    if i < ws.len() {
        lemma_winner_in_range(ws, hash, i + 1);
    }
}

/// Every message comes out of the slot that it won: the XOR of the message
/// vectors of a round holds it there, followed by zeros.
pub proof fn law_messages_come_out_of_slots(
    bids: Seq<Bid>,
    bandwidth: u32,
    msgs: Seq<Seq<u8>>,
    c: int,
)
    requires
        0 <= c < msgs.len(),
        slots_suffice(auction(bids, bandwidth, 1, KNAPSACK_CHUNK_BYTES), msgs),
        slot_of(auction(bids, bandwidth, 1, KNAPSACK_CHUNK_BYTES), msgs[c]) is Some,
    ensures
        ({
            let ws = auction(bids, bandwidth, 1, KNAPSACK_CHUNK_BYTES);
            let total = offset(ws, ws.len() as int);
            let w = ws[slot_of(ws, msgs[c])->0];
            let out = xor_round::xor_all(xor_round::xzero(total), slotted_all(ws, msgs));
            &&& forall|d: int|
                0 <= d < msgs.len() ==> slotted(slot_among(ws, #[trigger] msgs[d]), msgs[d]) is Ok
            &&& slot_bytes(out, w) == msgs[c] + zero_bytes((w.slot_size - msgs[c].len()) as nat)
        }),
{
    let ws = auction(bids, bandwidth, 1, KNAPSACK_CHUNK_BYTES);
    let total = offset(ws, ws.len() as int);
    let vs = slotted_all(ws, msgs);
    let zero = xor_round::xzero(total);
    let out = xor_round::xor_all(zero, vs);
    law_slots_are_disjoint(bids, bandwidth, 1, KNAPSACK_CHUNK_BYTES);
    assert forall|d: int| 0 <= d < msgs.len() implies slotted(
        slot_among(ws, #[trigger] msgs[d]),
        msgs[d],
    ) is Ok && vs[d].len() == total by {
        lemma_winner_in_range(ws, sha256(msgs[d]).take(AUCTION_HASH_TRUNC_BYTES as int), 0);
        if slot_of(ws, msgs[d]) is Some {
            let w = ws[slot_of(ws, msgs[d])->0];
            assert(w.slot_idx + w.slot_size <= total);
        }
    }
    assert(xor_round::all_of_len(vs, total)) by {
        assert forall|d: int| 0 <= d < vs.len() implies (#[trigger] vs[d]).len() == total by {
            assert(slotted(slot_among(ws, msgs[d]), msgs[d]) is Ok);
        }
    }
    xor_round::lemma_xor_all_len(zero, vs);
    lemma_winner_in_range(ws, sha256(msgs[c]).take(AUCTION_HASH_TRUNC_BYTES as int), 0);
    let k = slot_of(ws, msgs[c])->0;
    let w = ws[k];
    assert(w.slot_idx + w.slot_size <= total);
    let want = msgs[c] + zero_bytes((w.slot_size - msgs[c].len()) as nat);
    assert forall|b: int| 0 <= b < w.slot_size implies out[w.slot_idx + b] == want[b] by {
        let at = w.slot_idx + b;
        let f = |d: int| vs[d][at];
        xor_round::lemma_xor_all_at(zero, vs, at);
        assert forall|d: int| 0 <= d < vs.len() && d != c implies #[trigger] f(d) == 0 by {
            assert(slotted(slot_among(ws, msgs[d]), msgs[d]) is Ok);
            lemma_winner_in_range(ws, sha256(msgs[d]).take(AUCTION_HASH_TRUNC_BYTES as int), 0);
            if slot_of(ws, msgs[d]) is Some {
                let j = slot_of(ws, msgs[d])->0;
                assert(j != k) by {
                    if c < d {
                        assert(slot_of(ws, msgs[c]) != slot_of(ws, msgs[d]));
                    } else {
                        assert(slot_of(ws, msgs[d]) != slot_of(ws, msgs[c]));
                    }
                }
                if j < k {
                    assert(ws[j].slot_idx + ws[j].slot_size <= ws[k].slot_idx);
                } else {
                    assert(ws[k].slot_idx + ws[k].slot_size <= ws[j].slot_idx);
                }
            }
        }
        lemma_xor_sum_single(f, vs.len() as int, c);
        let x = f(c);
        assert(0u8 ^ x == x) by (bit_vector);
        assert(slotted(slot_among(ws, msgs[c]), msgs[c]) is Ok);
    }
    assert(slot_bytes(out, w) =~= want);
}

/// The bytes of the smallest slot that holds `n` bytes.
pub open spec fn slot_len(n: nat) -> nat {
    KNAPSACK_CHUNK_BYTES as nat * ((n + KNAPSACK_CHUNK_BYTES - 1) / KNAPSACK_CHUNK_BYTES as int)
        as nat
}

/// A bid that is alone in its round wins: its message gets the first slot, of
/// the smallest length that holds it, and a message of another hash gets none.
pub proof fn law_single_bid_gets_a_slot(
    message_length: usize,
    t: Table,
    key: Seq<u8>,
    msg: Seq<u8>,
    weight: u32,
    other: Seq<u8>,
)
    requires
        t.shape_ok(),
        t.xi == AUCTION_BID_XI,
        key.len() == KEY_BYTES,
        bid_on(msg, weight).message_hash.len() == 32,
        t.holds(seq![packed(key, bid_on(msg, weight).values())]),
        msg.len() > 0,
        weight > 0,
        slot_len(msg.len()) <= message_length <= u32::MAX,
    ensures
        slot_for(message_length, t, msg) == (AuctionResult {
            should_send: true,
            message_start_index: 0,
            total_allocated: slot_len(msg.len()) as usize,
        }),
        sha256(other).take(AUCTION_HASH_TRUNC_BYTES as int) != sha256(msg).take(
            AUCTION_HASH_TRUNC_BYTES as int,
        ) ==> slot_for(message_length, t, other) == (AuctionResult {
            should_send: false,
            message_start_index: 0,
            total_allocated: slot_len(msg.len()) as usize,
        }),
{
    broadcast use vstd::seq_lib::group_to_multiset_ensures;

    let b = bid_on(msg, weight);
    let keys = seq![key];
    let bids = seq![b];
    assert(bid_entries(keys, bids) =~= seq![packed(key, b.values())]);
    law_few_entries_are_peelable(bid_entries(keys, bids), t.gamma as nat, t.delta as nat);
    law_bids_come_back(t, keys, bids);
    let got = recovered_bids(t)->Ok_0;
    let want = truncated_all(bids);
    assert(want =~= seq![b.truncated()]);
    assert(got.len() == got.to_multiset().len());
    assert(want.len() == want.to_multiset().len());
    assert(got.contains(got[0]));
    assert(got.to_multiset().count(got[0]) > 0);
    assert(want.contains(got[0]));
    assert(got =~= want);
    let n = msg.len() as int;
    let total = slot_len(msg.len());
    assert(n <= total);
    vstd::arithmetic::div_mod::lemma_small_mod(msg.len(), 0x1_0000_0000);
    let bandwidth = message_length as u32;
    law_single_bid_wins(b.truncated(), bandwidth, 1, KNAPSACK_CHUNK_BYTES);
    let ws = auction(got, bandwidth, 1, KNAPSACK_CHUNK_BYTES);
    let hash = sha256(msg).take(AUCTION_HASH_TRUNC_BYTES as int);
    assert(b.truncated().message_hash.take(AUCTION_HASH_TRUNC_BYTES as int) =~= hash);
    assert(ws.len() == 1 && ws[0].bid == b.truncated() && ws[0].slot_size == total);
    assert(offset(ws, 0) == 0);
    assert(offset(ws, 1) == total);
    let theirs = sha256(other).take(AUCTION_HASH_TRUNC_BYTES as int);
    assert(winner_with(ws, theirs, 1) is None);
}

/// A table of another layout than bids have, or one that cannot be peeled, gives
/// nobody a slot and allocates nothing.
pub proof fn law_unreadable_table_gives_no_slot(message_length: usize, t: Table, msg: Seq<u8>)
    requires
        t.xi != AUCTION_BID_XI || t.recovered() is Err,
    ensures
        slot_for(message_length, t, msg) == no_slot(),
{
}

// ---------------------------------------------------------------------------
// A whole round
// ---------------------------------------------------------------------------

/// A client of the protocol: its key, its secrets, the message that it sends if
/// it won a slot for it, and what it offers for the next round.
pub struct Member {
    pub key: Seq<u8>,
    pub secrets: Map<ServerId, Seq<u8>>,
    pub message: Seq<u8>,
    pub offer: Option<Offer>,
}

impl Member {
    /// What the client prepares.
    pub open spec fn prepares(self, config: AdcNetConfig, round: i64, previous: Broadcast) -> Result<
        (Submission, bool),
        Refusal,
    > {
        prepared(
            config,
            in_order::<ServerId, Seq<u8>>(self.secrets),
            round,
            previous,
            self.message,
            (match self.offer {
                Some(o) => Some(o.bid),
                None => None,
            }),
            (match self.offer {
                Some(o) => o.key,
                None => Seq::empty(),
            }),
        )
    }

    /// The plaintext behind what the client prepares, when `ws` are the winners
    /// of the previous round.
    pub open spec fn party(self, slots: u32, ws: Seq<Award>) -> Party {
        Party {
            key: self.key,
            secrets: self.secrets,
            auction: offer_table(slots, self.offer).elements(),
            message: slotted(slot_among(ws, self.message), self.message)->Ok_0,
        }
    }
}

/// The bids that a broadcast carries; none if they cannot be recovered.
pub open spec fn bids_in(bc: Broadcast) -> Seq<Bid> {
    if bc.auction_vector.xi == AUCTION_BID_XI && recovered_bids(bc.auction_vector) is Ok {
        recovered_bids(bc.auction_vector)->Ok_0
    } else {
        Seq::empty()
    }
}

/// The winners of the auction that a broadcast carries.
pub open spec fn winners_in(config: AdcNetConfig, bc: Broadcast) -> Seq<Award> {
    auction(bids_in(bc), config.message_length as u32, 1, KNAPSACK_CHUNK_BYTES)
}

/// What clients prepare, and who they are.
pub open spec fn prepared_all(
    ms: Seq<Member>,
    config: AdcNetConfig,
    round: i64,
    previous: Broadcast,
) -> Seq<Verified> {
    Seq::new(
        ms.len(),
        |c: int|
            Verified {
                message: ms[c].prepares(config, round, previous)->Ok_0.0,
                signer: ms[c].key,
            },
    )
}

/// The messages of clients.
pub open spec fn messages_held(ms: Seq<Member>) -> Seq<Seq<u8>> {
    Seq::new(ms.len(), |c: int| ms[c].message)
}

/// The offers of clients.
pub open spec fn offers_held(ms: Seq<Member>) -> Seq<Option<Offer>> {
    Seq::new(ms.len(), |c: int| ms[c].offer)
}

/// Every client can prepare its message, and all do so for the same servers.
pub open spec fn members_ready(
    ms: Seq<Member>,
    config: AdcNetConfig,
    round: i64,
    previous: Broadcast,
) -> bool {
    forall|c: int|
        0 <= c < ms.len() ==> {
            let m = #[trigger] ms[c];
            &&& m.secrets.dom().finite()
            &&& m.offer matches Some(o) ==> offer_ok(o)
            &&& m.prepares(config, round, previous) is Ok
            &&& m.prepares(config, round, previous)->Ok_0.0.all_server_ids == ms[0].prepares(
                config,
                round,
                previous,
            )->Ok_0.0.all_server_ids
        }
}

/// The secrets of the servers agree with those of the clients.
pub open spec fn members_agree(
    ms: Seq<Member>,
    holders: Map<ServerId, Map<Seq<u8>, Seq<u8>>>,
) -> bool {
    forall|c: int, id: ServerId|
        0 <= c < ms.len() && (#[trigger] ms[c]).secrets.contains_key(id)
            ==> #[trigger] holders[id][ms[c].key] == ms[c].secrets[id]
}

/// The heart of the protocol: a round of honest clients and servers delivers.
/// Out of the partials of all servers, in whatever order, comes a broadcast from
/// which the bids of the round can be recovered exactly if their entries can be
/// peeled, as that of one bid always can, and in which every message stands in
/// the slot that it won. If the previous table could not be peeled, nobody won a
/// slot.
pub proof fn law_round_delivers(
    config: AdcNetConfig,
    ms: Seq<Member>,
    holders: Map<ServerId, Map<Seq<u8>, Seq<u8>>>,
    ps: Seq<Partial>,
    round: i64,
    previous: Broadcast,
)
    requires
        config.ok(),
        0 < ms.len() < P,
        ps.len() > 0,
        members_ready(ms, config, round, previous),
        members_agree(ms, holders),
        slots_suffice(winners_in(config, previous), messages_held(ms)),
        complete(
            ps,
            holders,
            config.auction_slots,
            folded(
                prepared_all(ms, config, round, previous),
                auction_len(config.auction_slots),
            ),
        ),
    ensures
        ({
            let ws = winners_in(config, previous);
            let r = unblinded(
                config.auction_slots,
                sorted::<ServerPartialDecryptionMessage>(ps),
            );
            let bc = r->Ok_0;
            &&& r is Ok
            &&& bc.round_number == round
            &&& match recovered_bids(bc.auction_vector) {
                Ok(bids) => {
                    &&& offers_peelable(config.auction_slots, offers_made(offers_held(ms)))
                    &&& bids.to_multiset() == truncated_all(
                        offer_bids(offers_made(offers_held(ms))),
                    ).to_multiset()
                },
                Err(e) => {
                    &&& !offers_peelable(config.auction_slots, offers_made(offers_held(ms)))
                    &&& e is PeelStalled
                },
            }
            &&& offers_made(offers_held(ms)).len() <= 1 ==> offers_peelable(
                config.auction_slots,
                offers_made(offers_held(ms)),
            )
            &&& forall|c: int|
                0 <= c < ms.len() && slot_of(ws, (#[trigger] ms[c]).message) is Some ==> {
                    let w = ws[slot_of(ws, ms[c].message)->0];
                    slot_bytes(bc.message_vector, w) == ms[c].message + zero_bytes(
                        (w.slot_size - ms[c].message.len()) as nat,
                    )
                }
        }),
{
    let slots = config.auction_slots;
    let ws = winners_in(config, previous);
    let bids = bids_in(previous);
    let bandwidth = config.message_length as u32;
    let msgs = messages_held(ms);
    let os = offers_held(ms);
    let cs = Seq::new(ms.len(), |c: int| ms[c].party(slots, ws));
    law_slots_are_disjoint(bids, bandwidth, 1, KNAPSACK_CHUNK_BYTES);
    let m = offset(ws, ws.len() as int);
    lemma_auction_len(slots);
    assert forall|c: int| 0 <= c < ms.len() implies {
        &&& (#[trigger] cs[c]).submission(round) is Ok
        &&& cs[c].submission(round)->Ok_0 == ms[c].prepares(config, round, previous)->Ok_0.0
        &&& cs[c].auction.len() == auction_len(slots)
        &&& cs[c].message.len() == m
    } by {
        let one = ms[c];
        assert(one.prepares(config, round, previous) is Ok);
        assert(slot_for(config.message_length, previous.auction_vector, one.message) == slot_among(
            ws,
            one.message,
        ));
        assert(cs[c].auction.len() == empty_table(slots, AUCTION_BID_XI).elements().len());
    }
    assert(cs[0].submission(round) is Ok);
    assert forall|c: int| 0 <= c < cs.len() implies (#[trigger] cs[c]).submission(
        round,
    )->Ok_0.all_server_ids == cs[0].submission(round)->Ok_0.all_server_ids
        && cs[c].secrets.dom().finite() by {
        assert(ms[c].secrets == cs[c].secrets);
        assert(cs[c].submission(round) is Ok);
    }
    assert(parties_ready(cs, round, slots, m));
    assert(agree(cs, holders)) by {
        assert forall|c: int, id: ServerId|
            0 <= c < cs.len() && (#[trigger] cs[c]).secrets.contains_key(
                id,
            ) implies #[trigger] holders[id][cs[c].key] == cs[c].secrets[id] by {
            assert(ms[c].secrets.contains_key(id));
            assert(holders[id][ms[c].key] == ms[c].secrets[id]);
        }
    }
    assert(all_verified(cs, round) =~= prepared_all(ms, config, round, previous)) by {
        assert forall|c: int| 0 <= c < ms.len() implies cs[c].verified(round) == (Verified {
            message: ms[c].prepares(config, round, previous)->Ok_0.0,
            signer: ms[c].key,
        }) by {
            assert(cs[c].submission(round) is Ok);
        }
    }
    let agg = folded(all_verified(cs, round), auction_len(slots));
    law_sorted_partials_are_complete(ps, holders, slots, agg);
    law_sorting_permutes::<ServerPartialDecryptionMessage>(ps);
    let out = sorted::<ServerPartialDecryptionMessage>(ps);
    law_partials_unblind(cs, holders, out, round, slots, m);
    assert(plain_auctions(cs) =~= offer_vectors(slots, os));
    assert(plain_messages(cs) =~= slotted_all(ws, msgs));
    assert forall|c: int| 0 <= c < os.len() implies (#[trigger] os[c] matches Some(o) ==> offer_ok(
        o,
    )) by {
        assert(ms[c].offer == os[c]);
    }
    law_summed_bids_come_back(slots, os);
    let bc = unblinded(slots, out)->Ok_0;
    assert forall|c: int|
        0 <= c < ms.len() && slot_of(ws, (#[trigger] ms[c]).message) is Some implies {
        let w = ws[slot_of(ws, ms[c].message)->0];
        slot_bytes(bc.message_vector, w) == ms[c].message + zero_bytes(
            (w.slot_size - ms[c].message.len()) as nat,
        )
    } by {
        assert(msgs[c] == ms[c].message);
        law_messages_come_out_of_slots(bids, bandwidth, msgs, c);
    }
}

/// What honest clients prepare for a round is good: an aggregator that knows
/// the clients lets all of it through.
pub proof fn law_prepared_messages_are_good(
    config: AdcNetConfig,
    ms: Seq<Member>,
    round: i64,
    previous: Broadcast,
    authorized: Map<Seq<u8>, bool>,
)
    requires
        config.ok(),
        members_ready(ms, config, round, previous),
        forall|c: int|
            0 <= c < ms.len() ==> authorized.contains_key((#[trigger] ms[c]).key)
                && authorized[ms[c].key],
        forall|c: int, d: int|
            0 <= c < d < ms.len() ==> (#[trigger] ms[c]).key != (#[trigger] ms[d]).key,
    ensures
        all_good(
            prepared_all(ms, config, round, previous),
            terms_of(config.auction_slots, round, authorized),
        ),
{
    let slots = config.auction_slots;
    let vs = prepared_all(ms, config, round, previous);
    let terms = terms_of(slots, round, authorized);
    let total = slot_for(
        config.message_length,
        previous.auction_vector,
        Seq::empty(),
    ).total_allocated;
    lemma_auction_len(slots);
    assert forall|c: int| 0 <= c < vs.len() implies {
        let v = #[trigger] vs[c];
        &&& v.message.round_number == terms.round
        &&& terms.authorized.contains_key(v.signer) && terms.authorized[v.signer]
        &&& v.message.auction_vector.len() == terms.auction_len
        &&& all_canonical(v.message.auction_vector)
        &&& v.message.message_vector.len() == total
    } by {
        let one = ms[c];
        assert(one.prepares(config, round, previous) is Ok);
        let es = in_order::<ServerId, Seq<u8>>(one.secrets);
        let table = offer_table(slots, one.offer);
        assert(table.elements().len() == empty_table(slots, AUCTION_BID_XI).elements().len());
        field_round::lemma_share_canonical(
            values_of(es),
            pad_round(round),
            table.elements().len(),
        );
        let b = vs[c].message.auction_vector;
        assert(b == field_round::blinded(values_of(es), pad_round(round), table.elements()));
        assert forall|i: int| 0 <= i < b.len() implies canonical(#[trigger] b[i]) by {}
    }
    assert forall|c: int| 0 <= c < vs.len() implies shape_of((#[trigger] vs[c]).message)
        == shape_of(vs[0].message) by {
        assert(ms[c].prepares(config, round, previous) is Ok);
        assert(vs[0].message.message_vector.len() == total);
    }
    assert forall|c: int, d: int| 0 <= c < d < vs.len() implies (#[trigger] vs[c]).signer != (
    #[trigger] vs[d]).signer by {
        assert(ms[c].key != ms[d].key);
    }
}

} // verus!
