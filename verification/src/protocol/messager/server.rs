//! Server side: unblinding shares and their combination.

use vstd::prelude::*;

use crate::auction::auction::AUCTION_BID_XI;
use crate::auction::iblt::{
    empty_table, iblt_field_element_count, lemma_table_fits, IbltVector,
};
use crate::bytes::{to_vec, words_equal, bytes_equal};
use crate::collections::KeyMap;
use crate::crypto::blinding::xor_inplace;
use crate::crypto::fields::{all_canonical, is_all_canonical, sub_mod_slice};
use crate::crypto::hexadecimal::hex_text;
use crate::crypto::types::{PublicKey, ServerId, SharedKey};
use crate::primitives::{field_round, xor_round};
use crate::sorting::{sorted, stable_sort_slice, views};

use super::{auction_len, pad_round};
use crate::protocol::config::AdcNetConfig;
use crate::protocol::messages::{
    clone_keys, find_repeated_key, id_among, ids_equal, keys_equal, outcome, repeated_key,
    Aggregate, AggregatedClientMessages, Broadcast, Partial, ProtocolError, Refusal,
    RoundBroadcast, ServerPartialDecryptionMessage,
};

verus! {

pub struct ServerMessager<'a> {
    pub config: &'a AdcNetConfig,
    pub server_id: ServerId,
    pub shared_secrets: &'a KeyMap<SharedKey>,
}

/// The server of the first partial from position `i` on whose successor comes
/// from the same server.
pub open spec fn adjacent_twins(ps: Seq<Partial>, i: int) -> Option<ServerId>
    decreases ps.len() - i,
{
    if i < 0 || i + 1 >= ps.len() {
        None
    } else if ps[i].server_id == ps[i + 1].server_id {
        Some(ps[i].server_id)
    } else {
        adjacent_twins(ps, i + 1)
    }
}

/// How the first partial from position `i` on that does not fit the first
/// partial fails to.
pub open spec fn first_misfit(ps: Seq<Partial>, i: int) -> Option<Refusal>
    decreases ps.len() - i,
{
    if i < 0 || i >= ps.len() {
        None
    } else if ps[i].original_aggregate != ps[0].original_aggregate {
        Some(Refusal::MismatchingAggregate)
    } else if ps[i].message_vector.len() != ps[0].message_vector.len()
        || ps[i].auction_vector.len() != ps[0].original_aggregate.auction_vector.len() {
        Some(Refusal::MismatchingVectorLengths)
    } else {
        first_misfit(ps, i + 1)
    }
}

/// No identifier occurs twice.
pub open spec fn ids_distinct(ids: Seq<ServerId>) -> bool {
    forall|i: int, j: int| 0 <= i < j < ids.len() ==> #[trigger] ids[i] != #[trigger] ids[j]
}

/// The partials come from the servers that the aggregate names, one from each.
pub open spec fn servers_match(ps: Seq<Partial>) -> bool {
    let ids = ps[0].original_aggregate.all_server_ids;
    &&& ids_distinct(ids)
    &&& ps.len() == ids.len()
    &&& forall|i: int| 0 <= i < ps.len() ==> ids.contains((#[trigger] ps[i]).server_id)
}

/// Every partial names the members of the aggregate.
pub open spec fn members_match(ps: Seq<Partial>) -> bool {
    forall|i: int|
        0 <= i < ps.len() ==> (#[trigger] ps[i]).user_pks == ps[0].original_aggregate.user_pks
}

/// Every auction vector of the partials is canonical.
pub open spec fn shares_canonical(ps: Seq<Partial>) -> bool {
    forall|i: int| 0 <= i < ps.len() ==> all_canonical((#[trigger] ps[i]).auction_vector)
}

/// Why partials in the order of their servers cannot be combined, if they
/// cannot.
pub open spec fn partials_refused(ps: Seq<Partial>) -> Option<Refusal> {
    if ps.len() == 0 {
        Some(Refusal::EmptyPartials)
    } else if adjacent_twins(ps, 0) is Some {
        Some(Refusal::DuplicatePartial(adjacent_twins(ps, 0)->0))
    } else if ps[0].auction_vector.len() != ps[0].original_aggregate.auction_vector.len()
        || ps[0].message_vector.len() != ps[0].original_aggregate.message_vector.len() {
        Some(Refusal::MismatchingVectorLengths)
    } else if first_misfit(ps, 1) is Some {
        first_misfit(ps, 1)
    } else if !servers_match(ps) {
        Some(Refusal::MismatchingServers)
    } else if !members_match(ps) {
        Some(Refusal::MismatchingAggregate)
    } else if !all_canonical(ps[0].original_aggregate.auction_vector) || !shares_canonical(ps) {
        Some(Refusal::NonCanonicalFieldElement)
    } else {
        None
    }
}

/// The auction vectors of the partials.
pub open spec fn auction_shares(ps: Seq<Partial>) -> Seq<Seq<u64>> {
    Seq::new(ps.len(), |i: int| ps[i].auction_vector)
}

/// The message vectors of the partials.
pub open spec fn message_shares(ps: Seq<Partial>) -> Seq<Seq<u8>> {
    Seq::new(ps.len(), |i: int| ps[i].message_vector)
}

/// The broadcast that partials in the order of their servers combine to.
pub open spec fn unblinded(slots: u32, ps: Seq<Partial>) -> Result<Broadcast, Refusal> {
    match partials_refused(ps) {
        Some(e) => Err(e),
        None => {
            let agg = ps[0].original_aggregate;
            let auction = field_round::sub_all(agg.auction_vector, auction_shares(ps));
            match empty_table(slots, AUCTION_BID_XI).decoded(auction) {
                Err(e) => Err(Refusal::Iblt(e)),
                Ok(t) => Ok(
                    Broadcast {
                        round_number: agg.round_number,
                        auction_vector: t,
                        message_vector: xor_round::xor_all(
                            agg.message_vector,
                            message_shares(ps),
                        ),
                    },
                ),
            }
        },
    }
}

/// Whether two aggregates are the same.
pub fn aggregates_equal(a: &AggregatedClientMessages, b: &AggregatedClientMessages) -> (r: bool)
    ensures
        r == (a@ == b@),
{
    let same = a.round_number == b.round_number && ids_equal(&a.all_server_ids, &b.all_server_ids)
        && words_equal(&a.auction_vector, &b.auction_vector) && bytes_equal(
        &a.message_vector,
        &b.message_vector,
    ) && keys_equal(&a.user_pks, &b.user_pks);
    proof {
        if same {
            assert(a@ =~= b@);
        }
    }
    same
}

/// Whether no identifier occurs twice.
pub fn are_distinct(ids: &[ServerId]) -> (r: bool)
    ensures
        r == ids_distinct(ids@),
{
    let mut i: usize = 0;
    while i < ids.len()
        invariant
            i <= ids@.len(),
            forall|a: int, b: int|
                0 <= a < b < ids@.len() && a < i ==> #[trigger] ids@[a] != #[trigger] ids@[b],
        decreases ids@.len() - i,
    {
        let mut j: usize = i + 1;
        while j < ids.len()
            invariant
                i < ids@.len(),
                i + 1 <= j <= ids@.len(),
                forall|b: int| i < b < j ==> ids@[i as int] != #[trigger] ids@[b],
            decreases ids@.len() - j,
        {
            if ids[i] == ids[j] {
                return false;
            }
            j = j + 1;
        }
        i = i + 1;
    }
    true
}

/// The server of the first partial whose successor comes from the same server.
fn find_twins(msgs: &[ServerPartialDecryptionMessage]) -> (r: Option<ServerId>)
    ensures
        r == adjacent_twins(views(msgs@), 0),
{
    let ghost ps = views(msgs@);
    let n = msgs.len();
    let mut i: usize = 0;
    while i < n && i < n - 1
        invariant
            n == msgs@.len(),
            i <= n,
            ps == views(msgs@),
            adjacent_twins(ps, 0) == adjacent_twins(ps, i as int),
        decreases n - i,
    {
        proof {
            assert(ps[i as int] == msgs@[i as int]@ && ps[i + 1] == msgs@[i + 1]@);
        }
        if msgs[i].server_id == msgs[i + 1].server_id {
            return Some(msgs[i].server_id);
        }
        i = i + 1;
    }
    None
}

/// How the first partial that does not fit the first one fails to.
fn find_misfit(msgs: &[ServerPartialDecryptionMessage]) -> (r: Option<ProtocolError>)
    requires
        msgs@.len() > 0,
    ensures
        match r {
            Some(e) => first_misfit(views(msgs@), 1) == Some(e@),
            None => first_misfit(views(msgs@), 1) is None,
        },
{
    let ghost ps = views(msgs@);
    let head = &msgs[0];
    let mut k: usize = 1;
    while k < msgs.len()
        invariant
            1 <= k <= msgs@.len(),
            ps == views(msgs@),
            head@ == ps[0],
            first_misfit(ps, 1) == first_misfit(ps, k as int),
        decreases msgs@.len() - k,
    {
        let m = &msgs[k];
        proof {
            assert(ps[k as int] == m@);
        }
        if !aggregates_equal(&m.original_aggregate, &head.original_aggregate) {
            return Some(ProtocolError::MismatchingAggregate);
        }
        if m.message_vector.len() != head.message_vector.len() || m.auction_vector.len()
            != head.original_aggregate.auction_vector.len() {
            return Some(ProtocolError::MismatchingVectorLengths);
        }
        k = k + 1;
    }
    None
}

/// Whether the partials come from the servers of the aggregate, one from each.
fn are_from_servers(msgs: &[ServerPartialDecryptionMessage]) -> (r: bool)
    requires
        msgs@.len() > 0,
    ensures
        r == servers_match(views(msgs@)),
{
    let ghost ps = views(msgs@);
    let ids = &msgs[0].original_aggregate.all_server_ids;
    proof {
        assert(ps[0].original_aggregate.all_server_ids == ids@);
    }
    if !are_distinct(ids) || msgs.len() != ids.len() {
        return false;
    }
    let mut k: usize = 0;
    while k < msgs.len()
        invariant
            k <= msgs@.len(),
            ps == views(msgs@),
            ps[0].original_aggregate.all_server_ids == ids@,
            forall|q: int| 0 <= q < k ==> ids@.contains((#[trigger] ps[q]).server_id),
        decreases msgs@.len() - k,
    {
        proof {
            assert(ps[k as int] == msgs@[k as int]@);
        }
        if !id_among(ids, msgs[k].server_id) {
            return false;
        }
        k = k + 1;
    }
    true
}

/// Whether every partial names the members of the aggregate.
fn name_members(msgs: &[ServerPartialDecryptionMessage]) -> (r: bool)
    requires
        msgs@.len() > 0,
    ensures
        r == members_match(views(msgs@)),
{
    let ghost ps = views(msgs@);
    let members = &msgs[0].original_aggregate.user_pks;
    proof {
        assert(ps[0].original_aggregate.user_pks == views(members@));
    }
    let mut k: usize = 0;
    while k < msgs.len()
        invariant
            k <= msgs@.len(),
            ps == views(msgs@),
            ps[0].original_aggregate.user_pks == views(members@),
            forall|q: int| 0 <= q < k ==> (#[trigger] ps[q]).user_pks == views(members@),
        decreases msgs@.len() - k,
    {
        proof {
            assert(ps[k as int] == msgs@[k as int]@);
        }
        if !keys_equal(&msgs[k].user_pks, members) {
            return false;
        }
        k = k + 1;
    }
    true
}

/// Whether every auction vector of the partials is canonical.
fn are_canonical(msgs: &[ServerPartialDecryptionMessage]) -> (r: bool)
    ensures
        r == shares_canonical(views(msgs@)),
{
    let ghost ps = views(msgs@);
    let mut k: usize = 0;
    while k < msgs.len()
        invariant
            k <= msgs@.len(),
            ps == views(msgs@),
            forall|q: int| 0 <= q < k ==> all_canonical((#[trigger] ps[q]).auction_vector),
        decreases msgs@.len() - k,
    {
        proof {
            assert(ps[k as int] == msgs@[k as int]@);
        }
        if !is_all_canonical(&msgs[k].auction_vector) {
            return false;
        }
        k = k + 1;
    }
    true
}

impl<'a> ServerMessager<'a> {
    /// Recover the final broadcast by subtracting all server shares from the
    /// aggregate. The partials are put in the order of their servers.
    ///
    /// Validates that:
    /// - `msgs` is non-empty (else `EmptyPartials`).
    /// - All partials reference the *same* `original_aggregate` — else
    ///   `MismatchingAggregate`. Per-partial vector lengths must agree (else
    ///   `MismatchingVectorLengths`).
    /// - No two partials carry the same `server_id` after sort (else
    ///   `DuplicatePartial`).
    /// - The partials come from exactly the servers of the aggregate (else
    ///   `MismatchingServers`).
    pub fn unblind_partial_messages(
        &self,
        msgs: &mut [ServerPartialDecryptionMessage],
    ) -> (r: Result<RoundBroadcast, ProtocolError>)
        requires
            self.config.ok(),
        ensures
            views(final(msgs)@) == sorted::<ServerPartialDecryptionMessage>(views(old(msgs)@)),
            outcome(r) == unblinded(
                self.config.auction_slots,
                sorted::<ServerPartialDecryptionMessage>(views(old(msgs)@)),
            ),
    {
        stable_sort_slice(msgs);
        self.combine_sorted(msgs)
    }

    /// Combine partials that are in the order of their servers.
    pub fn combine_sorted(&self, msgs: &[ServerPartialDecryptionMessage]) -> (r: Result<
        RoundBroadcast,
        ProtocolError,
    >)
        requires
            self.config.ok(),
        ensures
            outcome(r) == unblinded(self.config.auction_slots, views(msgs@)),
    {
        let ghost ps = views(msgs@);
        if msgs.len() == 0 {
            return Err(ProtocolError::EmptyPartials);
        }
        match find_twins(msgs) {
            Some(id) => return Err(ProtocolError::DuplicatePartial(id)),
            None => {},
        }
        let head = &msgs[0];
        proof {
            assert(ps[0] == head@);
        }
        if head.auction_vector.len() != head.original_aggregate.auction_vector.len()
            || head.message_vector.len() != head.original_aggregate.message_vector.len() {
            return Err(ProtocolError::MismatchingVectorLengths);
        }
        match find_misfit(msgs) {
            Some(e) => return Err(e),
            None => {},
        }
        if !are_from_servers(msgs) {
            return Err(ProtocolError::MismatchingServers);
        }
        if !name_members(msgs) {
            return Err(ProtocolError::MismatchingAggregate);
        }
        if !is_all_canonical(&head.original_aggregate.auction_vector) || !are_canonical(msgs) {
            return Err(ProtocolError::NonCanonicalFieldElement);
        }
        let mut auction_vector = to_vec(&head.original_aggregate.auction_vector);
        let mut message_vector = to_vec(&head.original_aggregate.message_vector);
        let ghost a0 = auction_vector@;
        let ghost m0 = message_vector@;
        let ghost asx = auction_shares(ps);
        let ghost msx = message_shares(ps);
        let mut k: usize = 0;
        proof {
            assert(asx.take(0) =~= Seq::empty());
            assert(msx.take(0) =~= Seq::empty());
        }
        while k < msgs.len()
            invariant
                k <= msgs@.len(),
                ps == views(msgs@),
                asx == auction_shares(ps),
                msx == message_shares(ps),
                auction_vector@ == field_round::sub_all(a0, asx.take(k as int)),
                message_vector@ == xor_round::xor_all(m0, msx.take(k as int)),
            decreases msgs@.len() - k,
        {
            proof {
                assert(ps[k as int] == msgs@[k as int]@);
                assert(asx.take(k + 1).drop_last() =~= asx.take(k as int));
                assert(msx.take(k + 1).drop_last() =~= msx.take(k as int));
            }
            sub_mod_slice(&mut auction_vector, &msgs[k].auction_vector);
            xor_inplace(&mut message_vector, &msgs[k].message_vector);
            k = k + 1;
        }
        proof {
            assert(asx.take(k as int) =~= asx);
            assert(msx.take(k as int) =~= msx);
            lemma_table_fits(self.config.auction_slots, AUCTION_BID_XI);
        }
        let mut iblt = IbltVector::new_with_xi(self.config.auction_slots, AUCTION_BID_XI);
        match iblt.decode_from_elements(&auction_vector) {
            Ok(_) => {},
            Err(e) => return Err(ProtocolError::Iblt(e)),
        }
        Ok(
            RoundBroadcast {
                round_number: head.original_aggregate.round_number,
                auction_vector: iblt,
                message_vector,
            },
        )
    }
}

/// The first member from position `i` on with whom no secret is shared.
pub open spec fn stranger(
    secrets: Map<Seq<u8>, Seq<u8>>,
    keys: Seq<Seq<u8>>,
    i: int,
) -> Option<Seq<u8>>
    decreases keys.len() - i,
{
    if i < 0 || i >= keys.len() {
        None
    } else if !secrets.contains_key(keys[i]) {
        Some(keys[i])
    } else {
        stranger(secrets, keys, i + 1)
    }
}

/// The secrets shared with members, in the order of the members.
pub open spec fn member_secrets(secrets: Map<Seq<u8>, Seq<u8>>, keys: Seq<Seq<u8>>) -> Seq<
    Seq<u8>,
> {
    Seq::new(keys.len(), |i: int| secrets[keys[i]])
}

/// The partial decryption of `agg` by server `id`.
pub open spec fn partial_for(
    id: ServerId,
    secrets: Map<Seq<u8>, Seq<u8>>,
    slots: u32,
    round: i64,
    agg: Aggregate,
) -> Result<Partial, Refusal> {
    let mine = member_secrets(secrets, agg.user_pks);
    if agg.round_number != round {
        Err(Refusal::WrongRound { got: agg.round_number, expected: round })
    } else if !agg.all_server_ids.contains(id) {
        Err(Refusal::InvalidServer(id))
    } else if agg.auction_vector.len() != auction_len(slots) {
        Err(Refusal::MismatchingVectorLengths)
    } else if !all_canonical(agg.auction_vector) {
        Err(Refusal::NonCanonicalFieldElement)
    } else if repeated_key(agg.user_pks, 0) is Some {
        Err(Refusal::DuplicateSubmission(hex_text(repeated_key(agg.user_pks, 0)->0)))
    } else if stranger(secrets, agg.user_pks, 0) is Some {
        Err(Refusal::NoSharedKey(hex_text(stranger(secrets, agg.user_pks, 0)->0)))
    } else if !field_round::pads_exist(mine, pad_round(round), agg.auction_vector.len()) {
        Err(Refusal::PadExhausted)
    } else {
        Ok(
            Partial {
                server_id: id,
                original_aggregate: agg,
                user_pks: agg.user_pks,
                auction_vector: field_round::share(
                    mine,
                    pad_round(round),
                    agg.auction_vector.len(),
                ),
                message_vector: xor_round::share(
                    mine,
                    pad_round(round),
                    agg.message_vector.len(),
                ),
            },
        )
    }
}

/// The secrets shared with members, or the hexadecimal form of the first member
/// with whom none is shared.
fn collect_secrets(secrets: &KeyMap<SharedKey>, keys: &[PublicKey]) -> (r: Result<
    Vec<SharedKey>,
    String,
>)
    ensures
        match r {
            Ok(mine) => stranger(secrets@, views(keys@), 0) is None && views(mine@)
                == member_secrets(secrets@, views(keys@)),
            Err(hex) => stranger(secrets@, views(keys@), 0) is Some && hex@ == hex_text(
                stranger(secrets@, views(keys@), 0)->0,
            ),
        },
{
    let ghost all = views(keys@);
    let mut mine: Vec<SharedKey> = Vec::new();
    let mut i: usize = 0;
    while i < keys.len()
        invariant
            i <= keys@.len(),
            all == views(keys@),
            stranger(secrets@, all, 0) == stranger(secrets@, all, i as int),
            mine@.len() == i,
            forall|k: int| 0 <= k < i ==> (#[trigger] mine@[k])@ == secrets@[all[k]],
        decreases keys@.len() - i,
    {
        let pk = &keys[i];
        proof {
            assert(all[i as int] == pk@);
        }
        match secrets.get(pk) {
            Some(s) => mine.push(s.clone()),
            None => return Err(pk.to_hex()),
        }
        i = i + 1;
    }
    proof {
        assert(views(mine@) =~= member_secrets(secrets@, all));
    }
    Ok(mine)
}

impl<'a> ServerMessager<'a> {
    /// Compute this server's blinding contribution to a (per-client or
    /// aggregated) batch.
    pub fn unblind_aggregate(
        &self,
        current_round: i64,
        aggregate: &AggregatedClientMessages,
    ) -> (r: Result<ServerPartialDecryptionMessage, ProtocolError>)
        requires
            self.config.ok(),
        ensures
            outcome(r) == partial_for(
                self.server_id,
                self.shared_secrets@,
                self.config.auction_slots,
                current_round,
                aggregate@,
            ),
    {
        if aggregate.round_number != current_round {
            return Err(
                ProtocolError::WrongRound { got: aggregate.round_number, expected: current_round },
            );
        }
        if !id_among(&aggregate.all_server_ids, self.server_id) {
            return Err(ProtocolError::InvalidServer(self.server_id));
        }
        if aggregate.auction_vector.len() != iblt_field_element_count(
            self.config.auction_slots,
            AUCTION_BID_XI,
        ) {
            return Err(ProtocolError::MismatchingVectorLengths);
        }
        if !is_all_canonical(&aggregate.auction_vector) {
            return Err(ProtocolError::NonCanonicalFieldElement);
        }
        match find_repeated_key(&aggregate.user_pks) {
            Some(hex) => return Err(ProtocolError::DuplicateSubmission(hex)),
            None => {},
        }
        let mine = match collect_secrets(self.shared_secrets, &aggregate.user_pks) {
            Ok(mine) => mine,
            Err(hex) => return Err(ProtocolError::NoSharedKey(hex)),
        };
        let round = current_round as u32;
        let auction_blind = match field_round::checked_server_share(
            &mine,
            round,
            aggregate.auction_vector.len(),
        ) {
            Some(v) => v,
            None => return Err(ProtocolError::PadExhausted),
        };
        let message_blind = xor_round::server_share(&mine, round, aggregate.message_vector.len());
        Ok(
            ServerPartialDecryptionMessage {
                server_id: self.server_id,
                original_aggregate: aggregate.clone(),
                user_pks: clone_keys(&aggregate.user_pks),
                auction_vector: auction_blind,
                message_vector: message_blind,
            },
        )
    }
}

} // verus!
