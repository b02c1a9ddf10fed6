//! Laws of the server's state: what the batches of a round add up to, what
//! direct submissions do, and why a step is refused.

use vstd::prelude::*;

use crate::crypto::blinding::field_pad;
use crate::crypto::blinding_laws::ctr_byte;
use crate::crypto::hexadecimal::hex_text;
use crate::crypto::types::ServerId;
use crate::protocol::messager::aggregator::collected;
use crate::protocol::messager::aggregator_laws::{
    law_collected_members_are_distinct, members_of,
};
use crate::protocol::messager::pad_round;
use crate::protocol::messager::server::partial_for;
use crate::protocol::messager::server_laws::{
    law_partials_add_the_pads, law_partials_are_refused_only_if, law_partials_of_batches_add_up,
};
use crate::protocol::messages::{
    keys_distinct, law_blank_is_neutral, lemma_reduced_is_canonical,
    members_distinct, Aggregate, Partial, Refusal, Submission,
};
use crate::protocol::round::Round;
use crate::sums::{byte_at, sum, word_at, xor_sum};

use super::server::{RoundState, ServerState};

verus! {

// ---------------------------------------------------------------------------
// Batches
// ---------------------------------------------------------------------------

/// The state after batches came in one by one.
pub open spec fn after_batches(s: ServerState, aggs: Seq<Aggregate>) -> ServerState
    decreases aggs.len(),
{
    if aggs.len() == 0 {
        s
    } else {
        after_batches(s, aggs.drop_last()).after_aggregate(aggs.last())
    }
}

/// Every one of the batches is accepted as it comes in.
pub open spec fn batches_accepted(s: ServerState, aggs: Seq<Aggregate>) -> bool
    decreases aggs.len(),
{
    aggs.len() == 0 || {
        &&& batches_accepted(s, aggs.drop_last())
        &&& after_batches(s, aggs.drop_last()).aggregate_outcome(aggs.last()) is Ok
    }
}

/// A second batch that is accepted leaves the partial decryption of both batches
/// together: what the server would have given for their union.
pub proof fn law_two_batches_are_their_union(s: ServerState, own: Partial, agg: Aggregate)
    requires
        s.round is Some,
        s.round->0.own_partial == Some(own),
        partial_for(
            s.server_id,
            s.shared_secrets,
            s.config.auction_slots,
            s.current_round,
            own.original_aggregate,
        ) == Ok::<Partial, Refusal>(own),
        s.aggregate_outcome(agg) is Ok,
    ensures
        ({
            let all = own.original_aggregate.unioned(agg);
            &&& all is Ok
            &&& s.aggregate_outcome(agg) == partial_for(
                s.server_id,
                s.shared_secrets,
                s.config.auction_slots,
                s.current_round,
                all->Ok_0,
            )
            &&& s.after_aggregate(agg) == s.with_round(
                (RoundState {
                    own_partial: Some(s.aggregate_outcome(agg)->Ok_0),
                    ..s.round->0
                }),
            )
        }),
{
    law_partials_of_batches_add_up(
        s.server_id,
        s.shared_secrets,
        s.config.auction_slots,
        s.current_round,
        own.original_aggregate,
        agg,
    );
    let all = own.original_aggregate.unioned(agg)->Ok_0;
    let want = partial_for(
        s.server_id,
        s.shared_secrets,
        s.config.auction_slots,
        s.current_round,
        all,
    )->Ok_0;
    assert(s.aggregate_outcome(agg)->Ok_0 =~= want);
    assert(s.after_aggregate(agg) =~= s.with_round(
        (RoundState { own_partial: Some(want), ..s.round->0 }),
    ));
}

/// Batches of a round that are accepted one after the other leave, and return
/// with the last of them, the partial decryption of all of them together, and
/// change nothing else.
pub proof fn law_batches_are_their_union(s: ServerState, aggs: Seq<Aggregate>)
    requires
        s.round is Some,
        s.round->0.own_partial is None,
        aggs.len() > 0,
        batches_accepted(s, aggs),
    ensures
        collected(s.current_round, aggs) is Ok,
        ({
            let all = collected(s.current_round, aggs)->Ok_0;
            let p = partial_for(
                s.server_id,
                s.shared_secrets,
                s.config.auction_slots,
                s.current_round,
                all,
            );
            &&& p is Ok
            &&& p->Ok_0.original_aggregate == all
            &&& after_batches(s, aggs.drop_last()).aggregate_outcome(aggs.last()) == p
            &&& after_batches(s, aggs) == s.with_round(
                (RoundState { own_partial: Some(p->Ok_0), ..s.round->0 }),
            )
        }),
    decreases aggs.len(),
{
    let init = aggs.drop_last();
    let last = aggs.last();
    let before = after_batches(s, init);
    if init.len() == 0 {
        assert(before == s);
        law_partials_are_refused_only_if(
            s.server_id,
            s.shared_secrets,
            s.config.auction_slots,
            s.current_round,
            last,
        );
        lemma_reduced_is_canonical(last.auction_vector);
        assert(keys_distinct(last.user_pks));
        assert(members_distinct(last));
        law_blank_is_neutral(last);
        assert(collected(s.current_round, init) == Ok::<Aggregate, Refusal>(Aggregate::blank()));
        assert(after_batches(s, aggs) =~= s.with_round(
            (RoundState {
                own_partial: Some(s.aggregate_outcome(last)->Ok_0),
                ..s.round->0
            }),
        ));
    } else {
        law_batches_are_their_union(s, init);
        let own = before.round->0.own_partial->0;
        law_two_batches_are_their_union(before, own, last);
        assert(last.round_number == s.current_round);
        assert(after_batches(s, aggs) =~= s.with_round(
            (RoundState {
                own_partial: Some(before.aggregate_outcome(last)->Ok_0),
                ..s.round->0
            }),
        ));
    }
}

/// What a server returns after the batches of a round holds the pads of all
/// members of all batches: added up modulo p, element by element, and by XOR,
/// byte by byte.
pub proof fn law_batches_add_all_pads(s: ServerState, aggs: Seq<Aggregate>)
    requires
        s.round is Some,
        s.round->0.own_partial is None,
        aggs.len() > 0,
        batches_accepted(s, aggs),
    ensures
        ({
            let r = after_batches(s, aggs.drop_last()).aggregate_outcome(aggs.last());
            let members = members_of(aggs);
            &&& r is Ok
            &&& r->Ok_0.server_id == s.server_id
            &&& r->Ok_0.user_pks == members
            &&& r->Ok_0.original_aggregate.user_pks == members
            &&& r->Ok_0.auction_vector.len() == r->Ok_0.original_aggregate.auction_vector.len()
            &&& r->Ok_0.message_vector.len() == r->Ok_0.original_aggregate.message_vector.len()
            &&& forall|i: int|
                0 <= i < r->Ok_0.auction_vector.len() ==> #[trigger] r->Ok_0.auction_vector[i]
                    == sum(
                    |m: int|
                        field_pad(
                            seq![0u8] + s.shared_secrets[members[m]],
                            pad_round(s.current_round),
                            r->Ok_0.auction_vector.len(),
                        )[i] as int,
                    members.len() as int,
                ) % 0x1eeed4e13a526bab
            &&& forall|i: int|
                0 <= i < r->Ok_0.message_vector.len() ==> #[trigger] r->Ok_0.message_vector[i]
                    == xor_sum(
                    |m: int|
                        ctr_byte(
                            seq![1u8] + s.shared_secrets[members[m]],
                            pad_round(s.current_round),
                            (i / 16) as nat,
                            i % 16,
                        ),
                    members.len() as int,
                )
        }),
{
    law_batches_are_their_union(s, aggs);
    law_collected_members_are_distinct(s.current_round, aggs);
    let all = collected(s.current_round, aggs)->Ok_0;
    law_partials_add_the_pads(
        s.server_id,
        s.shared_secrets,
        s.config.auction_slots,
        s.current_round,
        all,
    );
}

/// When a batch is accepted, and why it is not otherwise. A batch that is
/// refused for itself changes nothing.
pub proof fn law_batches_are_refused_only_if(s: ServerState, agg: Aggregate)
    ensures
        ({
            let r = s.aggregate_outcome(agg);
            let named = agg.all_server_ids.contains(s.server_id);
            let on_time = agg.round_number == s.current_round;
            let share = partial_for(
                s.server_id,
                s.shared_secrets,
                s.config.auction_slots,
                s.current_round,
                agg,
            );
            let joins = s.round is Some && (s.round->0.own_partial is None
                || s.round->0.own_partial->0.original_aggregate.unioned(agg) is Ok);
            &&& r is Ok <==> named && on_time && share is Ok && joins
            &&& !named ==> r == Err::<Partial, Refusal>(Refusal::InvalidServer(s.server_id))
            &&& named && !on_time ==> r == Err::<Partial, Refusal>(
                Refusal::WrongRound { got: agg.round_number, expected: s.current_round },
            )
            &&& named && on_time && share is Err ==> r == share
            &&& named && on_time && share is Ok && s.round is None ==> r == Err::<
                Partial,
                Refusal,
            >(Refusal::ClientNotInitialized)
            &&& named && on_time && share is Ok && s.round is Some && !joins ==> r is Err
                && s.round->0.own_partial->0.original_aggregate.unioned(agg) is Err && r->Err_0
                == s.round->0.own_partial->0.original_aggregate.unioned(agg)->Err_0
            &&& !named || !on_time || share is Err || s.round is None ==> s.after_aggregate(agg)
                == s
            &&& named && on_time && share is Ok && s.round is Some && s.round->0.own_partial
                is None ==> r == share
        }),
{
}

/// A batch with a share of its own that cannot join the aggregate of earlier
/// ones leaves that share behind: its members join the members of the partial,
/// and its pads are added to it, while the aggregate stays.
pub proof fn law_refused_batches_leave_their_share(s: ServerState, own: Partial, agg: Aggregate)
    requires
        s.round is Some,
        s.round->0.own_partial == Some(own),
        agg.all_server_ids.contains(s.server_id),
        agg.round_number == s.current_round,
        partial_for(
            s.server_id,
            s.shared_secrets,
            s.config.auction_slots,
            s.current_round,
            agg,
        ) is Ok,
        own.original_aggregate.unioned(agg) is Err,
    ensures
        ({
            let share = partial_for(
                s.server_id,
                s.shared_secrets,
                s.config.auction_slots,
                s.current_round,
                agg,
            )->Ok_0;
            let then = s.after_aggregate(agg);
            let p = then.round->0.own_partial->0;
            &&& then == s.with_round((RoundState { own_partial: Some(p), ..s.round->0 }))
            &&& p.server_id == own.server_id
            &&& p.original_aggregate == own.original_aggregate
            &&& p.user_pks == own.user_pks + share.user_pks
            &&& p.auction_vector.len() == own.auction_vector.len()
            &&& p.message_vector.len() == own.message_vector.len()
            &&& forall|i: int|
                0 <= i < own.auction_vector.len() && i < share.auction_vector.len()
                    ==> #[trigger] p.auction_vector[i] == (own.auction_vector[i]
                    + share.auction_vector[i]) % 0x1eeed4e13a526bab
            &&& forall|i: int|
                0 <= i < own.message_vector.len() && i < share.message_vector.len()
                    ==> #[trigger] p.message_vector[i] == own.message_vector[i]
                    ^ share.message_vector[i]
        }),
{
}

// ---------------------------------------------------------------------------
// Direct submissions
// ---------------------------------------------------------------------------

/// When a direct submission is accepted, and why it is not otherwise: in this
/// order, no round has begun, it is for another round, its servers or its
/// lengths differ from those of the submissions before it, or its signer has
/// submitted already.
pub proof fn law_submissions_are_refused_only_if(s: ServerState, m: Submission, signer: Seq<u8>)
    ensures
        ({
            let r = s.direct(m, signer);
            let begun = s.round is Some;
            let on_time = m.round_number == s.current_round;
            let first = s.round->0.direct_aggregate is None;
            let agg = s.round->0.direct_aggregate->0;
            let servers = first || agg.all_server_ids == m.all_server_ids;
            let lengths = first || (agg.auction_vector.len() == m.auction_vector.len()
                && agg.message_vector.len() == m.message_vector.len());
            let new = first || !agg.user_pks.contains(signer);
            &&& r is Ok <==> begun && on_time && servers && lengths && new
            &&& !begun ==> r == Err::<Aggregate, Refusal>(Refusal::ClientNotInitialized)
            &&& begun && !on_time ==> r == Err::<Aggregate, Refusal>(
                Refusal::WrongRound { got: m.round_number, expected: s.current_round },
            )
            &&& begun && on_time && !servers ==> r == Err::<Aggregate, Refusal>(
                Refusal::MismatchingServers,
            )
            &&& begun && on_time && servers && !lengths ==> r == Err::<Aggregate, Refusal>(
                Refusal::MismatchingVectorLengths,
            )
            &&& begun && on_time && servers && lengths && !new ==> r == Err::<Aggregate, Refusal>(
                Refusal::DuplicateSubmission(hex_text(signer)),
            )
        }),
{
}

/// A direct submission that is accepted is added to those before it: modulo p,
/// element by element, and by XOR, byte by byte, and its signer joins the
/// members.
pub proof fn law_submissions_add_up(s: ServerState, m: Submission, signer: Seq<u8>)
    requires
        s.direct(m, signer) is Ok,
    ensures
        ({
            let out = s.direct(m, signer)->Ok_0;
            let had = match s.round->0.direct_aggregate {
                Some(agg) => agg,
                None => Aggregate { round_number: m.round_number, ..Aggregate::blank() },
            };
            &&& out.round_number == had.round_number
            &&& out.all_server_ids == m.all_server_ids
            &&& out.user_pks == had.user_pks.push(signer)
            &&& out.auction_vector.len() == m.auction_vector.len()
            &&& out.message_vector.len() == m.message_vector.len()
            &&& forall|i: int|
                0 <= i < out.auction_vector.len() ==> #[trigger] out.auction_vector[i] == (word_at(
                    had.auction_vector,
                    i,
                ) + m.auction_vector[i]) % 0x1eeed4e13a526bab
            &&& forall|i: int|
                0 <= i < out.message_vector.len() ==> #[trigger] out.message_vector[i] == byte_at(
                    had.message_vector,
                    i,
                ) ^ m.message_vector[i]
        }),
{
}

// ---------------------------------------------------------------------------
// Partials and rounds
// ---------------------------------------------------------------------------

/// When a partial is taken in, and why it is not otherwise: in this order, it is
/// for another round, no round has begun, its server is not named by its
/// aggregate, or that server's partial is there already. Once the round has its
/// output only the first two count.
pub proof fn law_partials_are_taken_in_unless(s: ServerState, p: Partial)
    ensures
        ({
            let r = s.partial_refused(p);
            let on_time = p.original_aggregate.round_number == s.current_round;
            let begun = s.round is Some;
            let done = s.round->0.round_output is Some;
            let named = p.original_aggregate.all_server_ids.contains(p.server_id);
            let new = !s.round->0.partials.contains_key(p.server_id);
            &&& r is None <==> on_time && begun && (done || (named && new))
            &&& !on_time ==> r == Some(
                Refusal::WrongRound {
                    got: p.original_aggregate.round_number,
                    expected: s.current_round,
                },
            )
            &&& on_time && !begun ==> r == Some(Refusal::ClientNotInitialized)
            &&& on_time && begun && !done && !named ==> r == Some(
                Refusal::InvalidServer(p.server_id),
            )
            &&& on_time && begun && !done && named && !new ==> r == Some(
                Refusal::DuplicatePartial(p.server_id),
            )
        }),
{
}

/// A partial that is taken in before the output is there joins the partials of
/// the round under its server, next to those of the others, and nothing but the
/// partials and the output changes.
pub proof fn law_partials_join_the_round(s: ServerState, p: Partial)
    requires
        s.partial_refused(p) is None,
        s.round->0.round_output is None,
    ensures
        ({
            let then = s.after_partial(p);
            &&& then.round is Some
            &&& then.round->0.partials.contains_key(p.server_id)
            &&& then.round->0.partials[p.server_id] == p
            &&& forall|id: ServerId|
                id != p.server_id ==> (#[trigger] then.round->0.partials.contains_key(id)
                    <==> s.round->0.partials.contains_key(id))
            &&& forall|id: ServerId|
                id != p.server_id && s.round->0.partials.contains_key(id)
                    ==> #[trigger] then.round->0.partials[id] == s.round->0.partials[id]
            &&& then.round->0.own_partial == s.round->0.own_partial
            &&& then.round->0.direct_aggregate == s.round->0.direct_aggregate
            &&& then.shared_secrets == s.shared_secrets
            &&& then.peers == s.peers
            &&& then.current_round == s.current_round
            &&& then.server_id == s.server_id
            &&& then.config == s.config
            &&& then.signing_key == s.signing_key
            &&& then.exchange_key == s.exchange_key
        }),
{
}

/// A signed partial is looked at exactly if its signature is good and its signer
/// is registered as the server that it claims to come from.
pub proof fn law_senders_are_refused_only_if(
    s: ServerState,
    authentic: bool,
    claimed: ServerId,
    signer: Seq<u8>,
)
    ensures
        s.sender_refused(authentic, claimed, signer) is None <==> authentic
            && s.peers.contains_key(claimed) && s.peers[claimed] == signer,
        !authentic ==> s.sender_refused(authentic, claimed, signer) == Some(
            Refusal::BadSignature,
        ),
        authentic && !s.peers.contains_key(claimed) ==> s.sender_refused(
            authentic,
            claimed,
            signer,
        ) == Some(Refusal::UnknownPeerServer(claimed)),
        authentic && s.peers.contains_key(claimed) && s.peers[claimed] != signer
            ==> s.sender_refused(authentic, claimed, signer) == Some(
            Refusal::SignerIdentityMismatch { claimed },
        ),
{
}

/// The move to a later round starts it with nothing in it and keeps the rest; a
/// move to the current or an earlier round changes nothing.
pub proof fn law_new_rounds_start_blank(s: ServerState, round: Round)
    ensures
        round.number <= s.current_round ==> s.advanced(round) == s,
        round.number > s.current_round ==> {
            let then = s.advanced(round);
            &&& then.current_round == round.number
            &&& then.round is Some
            &&& then.round->0.own_partial is None
            &&& then.round->0.round_output is None
            &&& then.round->0.direct_aggregate is None
            &&& forall|id: ServerId| !(#[trigger] then.round->0.partials.contains_key(id))
            &&& then.shared_secrets == s.shared_secrets
            &&& then.peers == s.peers
            &&& then.server_id == s.server_id
            &&& then.config == s.config
            &&& then.signing_key == s.signing_key
            &&& then.exchange_key == s.exchange_key
        },
{
}

} // verus!
