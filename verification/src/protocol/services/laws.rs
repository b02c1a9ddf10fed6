//! Laws of the services over several steps.

use vstd::prelude::*;

use crate::collections::{in_order, law_finite_maps_can_be_listed, lemma_map_value};
use crate::crypto::fields::vzero;
use crate::crypto::hashing::blake3_256;
use crate::crypto::signing::ed25519_accepts;
use crate::crypto::types::ServerId;
use crate::primitives::{field_round, xor_round};
use crate::protocol::envelope::Transcript;
use crate::protocol::messager::aggregator::{
    all_authentic, auctions_of, extended, folded, messages_of, signers_of, stripped, Verified,
};
use crate::protocol::messager::aggregator_laws::law_resent_batch_changes_nothing;
use crate::protocol::messager::laws::{complete, from_distinct_servers, lemma_sorts_alike};
use crate::protocol::messager::server::{partial_for, unblinded};
use crate::protocol::messages::{
    Aggregate, Broadcast, ClientRoundMessage, Partial, Refusal, ServerPartialDecryptionMessage,
    Signed,
};
use crate::protocol::round::Round;
use crate::sorting::sorted;

use super::aggregator::{first_stray, AggregatorState};
use super::client::ClientState;
use super::server::{partials_in_order, started_by, RoundState, ServerState};

verus! {

// ---------------------------------------------------------------------------
// Server
// ---------------------------------------------------------------------------

/// Rounds only go forward, and moving to a round twice is moving there once.
pub proof fn law_server_rounds_go_forward(s: ServerState, round: Round)
    ensures
        s.advanced(round).current_round >= s.current_round,
        s.advanced(round).current_round >= round.number,
        s.advanced(round).advanced(round) == s.advanced(round),
{
}

/// Once a round has its output, every further partial of the round is answered
/// with it, and nothing changes any more.
pub proof fn law_output_is_final(s: ServerState, p: Partial)
    requires
        s.round is Some,
        s.round->0.round_output is Some,
        p.original_aggregate.round_number == s.current_round,
    ensures
        s.partial_outcome(p) == Ok::<Option<Broadcast>, Refusal>(s.round->0.round_output),
        s.after_partial(p) == s,
{
}

/// A server's partial counts once: until the output is there, a second one from
/// the same server is refused and changes nothing.
pub proof fn law_partial_counts_once(s: ServerState, p: Partial, again: Partial)
    requires
        s.round is Some,
        s.round->0.round_output is None,
        s.partial_refused(p) is None,
        s.after_partial(p).round->0.round_output is None,
        again.server_id == p.server_id,
        again.original_aggregate.round_number == s.current_round,
        again.original_aggregate.all_server_ids.contains(again.server_id),
    ensures
        s.after_partial(p).partial_outcome(again) == Err::<Option<Broadcast>, Refusal>(
            Refusal::DuplicatePartial(p.server_id),
        ),
        s.after_partial(p).after_partial(again) == s.after_partial(p),
{
}

/// A partial that is refused changes nothing, except that one which completes
/// the set stays in it when the set cannot be combined.
pub proof fn law_refused_partial_changes_nothing(s: ServerState, p: Partial)
    requires
        s.partial_refused(p) is Some,
    ensures
        s.after_partial(p) == s,
        s.partial_outcome(p) is Err,
{
}

/// The state after partials came in one by one.
pub open spec fn after_partials(s: ServerState, ps: Seq<Partial>) -> ServerState
    decreases ps.len(),
{
    if ps.len() == 0 {
        s
    } else {
        after_partials(s, ps.drop_last()).after_partial(ps.last())
    }
}

/// Partials by their servers.
pub open spec fn by_server(ps: Seq<Partial>) -> Map<ServerId, Partial>
    decreases ps.len(),
{
    if ps.len() == 0 {
        Map::empty()
    } else {
        by_server(ps.drop_last()).insert(ps.last().server_id, ps.last())
    }
}

proof fn lemma_by_server(ps: Seq<Partial>)
    requires
        from_distinct_servers(ps),
    ensures
        by_server(ps).dom().finite(),
        forall|id: ServerId| #[trigger]
            by_server(ps).contains_key(id) <==> exists|i: int|
                0 <= i < ps.len() && (#[trigger] ps[i]).server_id == id,
        forall|i: int|
            0 <= i < ps.len() ==> by_server(ps)[(#[trigger] ps[i]).server_id] == ps[i],
    decreases ps.len(),
{
    if ps.len() > 0 {
        let init = ps.drop_last();
        let m = by_server(ps);
        assert(from_distinct_servers(init)) by {
            assert forall|i: int, j: int| 0 <= i < j < init.len() implies (
            #[trigger] init[i]).server_id != (#[trigger] init[j]).server_id by {
                assert(init[i] == ps[i] && init[j] == ps[j]);
            }
        }
        lemma_by_server(init);
        let n = ps.len() - 1;
        assert forall|id: ServerId| #[trigger] m.contains_key(id) <==> exists|i: int|
            0 <= i < ps.len() && (#[trigger] ps[i]).server_id == id by {
            if by_server(init).contains_key(id) {
                let i = choose|i: int| 0 <= i < init.len() && (#[trigger] init[i]).server_id == id;
                assert(ps[i].server_id == id);
            }
            if exists|i: int| 0 <= i < ps.len() && (#[trigger] ps[i]).server_id == id {
                let i = choose|i: int| 0 <= i < ps.len() && (#[trigger] ps[i]).server_id == id;
                if i < n {
                    assert(init[i].server_id == id);
                } else {
                    assert(ps.last().server_id == id);
                }
            }
        }
        assert forall|i: int| 0 <= i < ps.len() implies m[(#[trigger] ps[i]).server_id]
            == ps[i] by {
            if i < n {
                assert(init[i] == ps[i]);
                assert(ps[i].server_id != ps[n].server_id);
            }
        }
    }
}

/// The partials of a round, listed by server, are those that came in.
proof fn lemma_listed_by_server(ps: Seq<Partial>)
    requires
        from_distinct_servers(ps),
    ensures
        partials_in_order(by_server(ps)).to_multiset() == ps.to_multiset(),
        partials_in_order(by_server(ps)).len() == ps.len(),
{
    broadcast use vstd::seq_lib::group_to_multiset_ensures;

    let m = by_server(ps);
    lemma_by_server(ps);
    let ids = ps.map_values(|p: Partial| p.server_id);
    assert forall|id: ServerId| #[trigger] m.contains_key(id) <==> ids.contains(id) by {
        if m.contains_key(id) {
            let i = choose|i: int| 0 <= i < ps.len() && (#[trigger] ps[i]).server_id == id;
            assert(ids[i] == id);
        }
        if ids.contains(id) {
            let i = choose|i: int| 0 <= i < ids.len() && ids[i] == id;
            assert(ps[i].server_id == id);
        }
    }
    assert(ids.no_duplicates()) by {
        assert forall|i: int, j: int| 0 <= i < ids.len() && 0 <= j < ids.len() && i
            != j implies ids[i] != ids[j] by {
            if i < j {
                assert(ps[i].server_id != ps[j].server_id);
            } else {
                assert(ps[j].server_id != ps[i].server_id);
            }
        }
    }
    crate::collections::law_values_at_keys::<ServerId, Partial>(m, ids);
    let out = partials_in_order(m);
    assert(out =~= crate::collections::values_of(in_order::<ServerId, Partial>(m)));
    assert(ids.map_values(|k: ServerId| m[k]) =~= ps) by {
        assert forall|i: int| 0 <= i < ps.len() implies m[ids[i]] == ps[i] by {
            assert(m[ps[i].server_id] == ps[i]);
        }
    }
    assert(out.len() == out.to_multiset().len());
    assert(ps.len() == ps.to_multiset().len());
}

/// A partial for every server of the aggregate `agg`, one of each.
pub open spec fn one_of_each(ps: Seq<Partial>, agg: Aggregate) -> bool {
    &&& ps.len() == agg.all_server_ids.len()
    &&& from_distinct_servers(ps)
    &&& forall|i: int|
        0 <= i < ps.len() ==> (#[trigger] ps[i]).original_aggregate == agg
            && agg.all_server_ids.contains(ps[i].server_id)
}

/// The partial decryptions of all servers of an aggregate are one of each.
pub proof fn law_complete_partials_are_one_of_each(
    ps: Seq<Partial>,
    holders: Map<ServerId, Map<Seq<u8>, Seq<u8>>>,
    slots: u32,
    agg: Aggregate,
)
    requires
        complete(ps, holders, slots, agg),
    ensures
        one_of_each(ps, agg),
{
}

/// As long as partials are missing, those that came in wait.
proof fn lemma_partials_wait(s: ServerState, agg: Aggregate, ps: Seq<Partial>, k: int)
    requires
        s.round is Some,
        s.round->0.partials == Map::<ServerId, Partial>::empty(),
        s.round->0.round_output is None,
        agg.round_number == s.current_round,
        one_of_each(ps, agg),
        0 <= k < ps.len(),
    ensures
        from_distinct_servers(ps.take(k)),
        after_partials(s, ps.take(k)) == s.with_round(
            RoundState { partials: by_server(ps.take(k)), ..s.round->0 },
        ),
        after_partials(s, ps.take(k)).partial_refused(ps[k]) is None,
        after_partials(s, ps.take(k)).partials_with(ps[k]) == by_server(ps.take(k + 1)),
        partials_in_order(by_server(ps.take(k + 1))).to_multiset() == ps.take(
            k + 1,
        ).to_multiset(),
        partials_in_order(by_server(ps.take(k + 1))).len() == k + 1,
    decreases k,
{
    let head = ps.take(k);
    let more = ps.take(k + 1);
    assert(more.drop_last() =~= head);
    assert(more.last() == ps[k]);
    assert(from_distinct_servers(more)) by {
        assert forall|i: int, j: int| 0 <= i < j < more.len() implies (#[trigger] more[i]).server_id
            != (#[trigger] more[j]).server_id by {
            assert(more[i] == ps[i] && more[j] == ps[j]);
        }
    }
    assert(from_distinct_servers(head)) by {
        assert forall|i: int, j: int| 0 <= i < j < head.len() implies (#[trigger] head[i]).server_id
            != (#[trigger] head[j]).server_id by {
            assert(head[i] == ps[i] && head[j] == ps[j]);
        }
    }
    lemma_listed_by_server(more);
    lemma_by_server(head);
    if k == 0 {
        assert(head =~= Seq::empty());
        assert(s =~= s.with_round(RoundState { partials: by_server(head), ..s.round->0 }));
    } else {
        lemma_partials_wait(s, agg, ps, k - 1);
        assert(head.drop_last() =~= ps.take(k - 1));
        assert(head.last() == ps[k - 1]);
        let before = after_partials(s, ps.take(k - 1));
        assert(ps[k - 1].original_aggregate == agg);
        assert(!before.completed_by(ps[k - 1]));
        assert(after_partials(s, head) =~= s.with_round(
            RoundState { partials: by_server(head), ..s.round->0 },
        ));
    }
    assert(ps[k].original_aggregate == agg);
    assert(!by_server(head).contains_key(ps[k].server_id)) by {
        if by_server(head).contains_key(ps[k].server_id) {
            let i = choose|i: int|
                0 <= i < head.len() && (#[trigger] head[i]).server_id == ps[k].server_id;
            assert(ps[i] == head[i]);
        }
    }
}

/// A round's partials, one of each server and in whatever order, are collected
/// until the last one is there, and then answered with what they combine to.
/// Until then a partial that came in already is refused as a duplicate, and one
/// for another round is refused at any time.
pub proof fn law_last_partial_completes_the_round(
    s: ServerState,
    agg: Aggregate,
    ps: Seq<Partial>,
)
    requires
        s.round is Some,
        s.round->0.partials == Map::<ServerId, Partial>::empty(),
        s.round->0.round_output is None,
        agg.round_number == s.current_round,
        ps.len() > 0,
        one_of_each(ps, agg),
    ensures
        forall|k: int|
            0 <= k < ps.len() - 1 ==> #[trigger] after_partials(s, ps.take(k)).partial_outcome(
                ps[k],
            ) == Ok::<Option<Broadcast>, Refusal>(None),
        ({
            let all = unblinded(
                s.config.auction_slots,
                sorted::<ServerPartialDecryptionMessage>(ps),
            );
            let last = after_partials(s, ps.drop_last());
            &&& last.partial_outcome(ps.last()) == match all {
                Ok(bc) => Ok::<Option<Broadcast>, Refusal>(Some(bc)),
                Err(e) => Err::<Option<Broadcast>, Refusal>(e),
            }
            &&& all matches Ok(bc) ==> after_partials(s, ps).round->0.round_output == Some(bc)
        }),
        forall|k: int, j: int|
            0 <= j < k < ps.len() ==> #[trigger] after_partials(s, ps.take(k)).partial_outcome(
                #[trigger] ps[j],
            ) == Err::<Option<Broadcast>, Refusal>(Refusal::DuplicatePartial(ps[j].server_id)),
        forall|k: int, q: Partial|
            0 <= k <= ps.len() && q.original_aggregate.round_number != s.current_round
                ==> #[trigger] after_partials(s, ps.take(k)).partial_outcome(q) == Err::<
                Option<Broadcast>,
                Refusal,
            >(
                Refusal::WrongRound {
                    got: q.original_aggregate.round_number,
                    expected: s.current_round,
                },
            ),
{
    let n = ps.len() as int;
    assert forall|k: int| 0 <= k < n - 1 implies #[trigger] after_partials(
        s,
        ps.take(k),
    ).partial_outcome(ps[k]) == Ok::<Option<Broadcast>, Refusal>(None) by {
        lemma_partials_wait(s, agg, ps, k);
        assert(ps[k].original_aggregate == agg);
    }
    assert forall|k: int, j: int| 0 <= j < k < n implies #[trigger] after_partials(
        s,
        ps.take(k),
    ).partial_outcome(#[trigger] ps[j]) == Err::<Option<Broadcast>, Refusal>(
        Refusal::DuplicatePartial(ps[j].server_id),
    ) by {
        lemma_partials_wait(s, agg, ps, k);
        lemma_by_server(ps.take(k));
        assert(ps.take(k)[j] == ps[j]);
        assert(ps[j].original_aggregate == agg);
        assert(by_server(ps.take(k)).contains_key(ps[j].server_id));
    }
    lemma_partials_wait(s, agg, ps, n - 1);
    assert(ps.drop_last() =~= ps.take(n - 1));
    assert(ps.take(n) =~= ps);
    assert(ps.last() == ps[n - 1]);
    assert(ps[n - 1].original_aggregate == agg);
    let last = after_partials(s, ps.drop_last());
    lemma_sorts_alike(ps, partials_in_order(by_server(ps)));
    assert(last.completed_by(ps.last()));
    assert(after_partials(s, ps) == last.after_partial(ps.last()));
    assert forall|k: int, q: Partial|
        0 <= k <= n && q.original_aggregate.round_number
            != s.current_round implies #[trigger] after_partials(s, ps.take(k)).partial_outcome(q)
        == Err::<Option<Broadcast>, Refusal>(
        Refusal::WrongRound {
            got: q.original_aggregate.round_number,
            expected: s.current_round,
        },
    ) by {
        if k < n {
            lemma_partials_wait(s, agg, ps, k);
        }
    }
}

/// The state after submissions came in one by one.
pub open spec fn after_direct(s: ServerState, vs: Seq<Verified>) -> ServerState
    decreases vs.len(),
{
    if vs.len() == 0 {
        s
    } else {
        let before = after_direct(s, vs.drop_last());
        before.with_round(
            RoundState {
                direct_aggregate: Some(
                    before.direct(vs.last().message, vs.last().signer)->Ok_0,
                ),
                ..before.round->0
            },
        )
    }
}

/// Every one of the submissions is accepted as it comes in.
pub open spec fn all_accepted(s: ServerState, vs: Seq<Verified>) -> bool
    decreases vs.len(),
{
    vs.len() == 0 || {
        &&& all_accepted(s, vs.drop_last())
        &&& after_direct(s, vs.drop_last()).direct(vs.last().message, vs.last().signer) is Ok
    }
}

/// Submissions that come in directly make the aggregate that the aggregator
/// would make of them, with every signer once.
pub proof fn law_direct_matches_aggregator(s: ServerState, vs: Seq<Verified>)
    requires
        s.round is Some,
        s.round->0.direct_aggregate is None,
        vs.len() > 0,
        all_accepted(s, vs),
    ensures
        after_direct(s, vs).round->0.direct_aggregate == Some(
            folded(vs, vs[0].message.auction_vector.len()),
        ),
        after_direct(s, vs) == s.with_round(
            (RoundState {
                direct_aggregate: Some(folded(vs, vs[0].message.auction_vector.len())),
                ..s.round->0
            }),
        ),
        forall|i: int, j: int|
            0 <= i < j < vs.len() ==> (#[trigger] vs[i]).signer != (#[trigger] vs[j]).signer,
    decreases vs.len(),
{
    let init = vs.drop_last();
    let v = vs.last();
    let n = vs[0].message.auction_vector.len();
    let before = after_direct(s, init);
    let base = if init.len() == 0 {
        started_by(v.message)
    } else {
        folded(init, n)
    };
    if init.len() > 0 {
        law_direct_matches_aggregator(s, init);
        assert(init[0] == vs[0]);
    }
    assert(auctions_of(vs).drop_last() =~= auctions_of(init));
    assert(messages_of(vs).drop_last() =~= messages_of(init));
    assert(signers_of(vs) =~= signers_of(init).push(v.signer));
    if init.len() == 0 {
        assert(auctions_of(init) =~= Seq::empty());
        assert(messages_of(init) =~= Seq::empty());
        assert(signers_of(init) =~= Seq::empty());
    }
    assert(auctions_of(vs).last() == v.message.auction_vector);
    assert(messages_of(vs).last() == v.message.message_vector);
    let out = after_direct(s, vs).round->0.direct_aggregate->0;
    assert(out == super::server::joined_by(base, v.message, v.signer));
    let want = folded(vs, n);
    let m = vs[0].message.message_vector.len();
    assert(field_round::add_all(vzero(n), auctions_of(init)) == base.auction_vector);
    assert(xor_round::xor_all(xor_round::xzero(m), messages_of(init)) == base.message_vector);
    assert(out.auction_vector =~= want.auction_vector);
    assert(out.message_vector =~= want.message_vector);
    assert(out.user_pks =~= want.user_pks);
    assert(out =~= want);
    assert(after_direct(s, vs) =~= s.with_round(
        (RoundState { direct_aggregate: Some(folded(vs, n)), ..s.round->0 }),
    ));
    assert forall|i: int, j: int| 0 <= i < j < vs.len() implies (#[trigger] vs[i]).signer != (
    #[trigger] vs[j]).signer by {
        assert(init[i] == vs[i]);
        if j < init.len() {
            assert(init[j] == vs[j]);
        } else {
            assert(base.user_pks[i] == vs[i].signer);
        }
    }
}

/// A second submission by one signer in a round is refused.
pub proof fn law_direct_signer_counts_once(s: ServerState, vs: Seq<Verified>, i: int, again: Verified)
    requires
        s.round is Some,
        s.round->0.direct_aggregate is None,
        all_accepted(s, vs),
        0 <= i < vs.len(),
        again.signer == vs[i].signer,
    ensures
        after_direct(s, vs).direct(again.message, again.signer) is Err,
{
    law_direct_matches_aggregator(s, vs);
    let agg = folded(vs, vs[0].message.auction_vector.len());
    assert(agg.user_pks[i] == again.signer);
}

/// A round's partials, one of each server, are complete in the order in which
/// they are combined.
pub proof fn law_collected_partials_are_complete(
    m: Map<ServerId, Partial>,
    holders: Map<ServerId, Map<Seq<u8>, Seq<u8>>>,
    slots: u32,
    agg: Aggregate,
)
    requires
        m.dom().finite(),
        agg.all_server_ids.no_duplicates(),
        forall|id: ServerId| #[trigger] m.contains_key(id) <==> agg.all_server_ids.contains(id),
        forall|id: ServerId|
            m.contains_key(id) ==> (#[trigger] m[id]).server_id == id && partial_for(
                id,
                holders[id],
                slots,
                agg.round_number,
                agg,
            ) == Ok::<Partial, Refusal>(m[id]),
    ensures
        complete(partials_in_order(m), holders, slots, agg),
{
    broadcast use vstd::seq_lib::group_to_multiset_ensures;

    law_finite_maps_can_be_listed::<ServerId, Partial>(m);
    let es = in_order::<ServerId, Partial>(m);
    let ps = partials_in_order(m);
    crate::collections::law_values_at_keys::<ServerId, Partial>(m, agg.all_server_ids);
    let want = agg.all_server_ids.map_values(|k: ServerId| m[k]);
    let vals = crate::collections::values_of(es);
    assert(ps =~= vals);
    assert(vals.len() == vals.to_multiset().len());
    assert(want.len() == want.to_multiset().len());
    assert forall|i: int| 0 <= i < ps.len() implies m.contains_key(es[i].0) && #[trigger] ps[i]
        == m[es[i].0] by {
        lemma_map_value::<ServerId, Partial>(es, i);
    }
    assert forall|i: int, j: int| 0 <= i < j < ps.len() implies (#[trigger] ps[i]).server_id != (
    #[trigger] ps[j]).server_id by {
        assert(es[i].0 != es[j].0);
        assert(ps[i] == m[es[i].0] && ps[j] == m[es[j].0]);
        assert(m[es[i].0].server_id == es[i].0 && m[es[j].0].server_id == es[j].0);
    }
    assert forall|i: int| 0 <= i < ps.len() implies partial_for(
        (#[trigger] ps[i]).server_id,
        holders[ps[i].server_id],
        slots,
        agg.round_number,
        agg,
    ) == Ok::<Partial, Refusal>(ps[i]) by {
        assert(m[es[i].0].server_id == es[i].0);
    }
}

// ---------------------------------------------------------------------------
// Aggregator
// ---------------------------------------------------------------------------

/// Rounds only go forward, and moving to a round twice is moving there once.
pub proof fn law_aggregator_rounds_go_forward(s: AggregatorState, round: Round)
    ensures
        s.advanced(round).current_round >= s.current_round,
        s.advanced(round).current_round >= round.number,
        s.advanced(round).advanced(round) == s.advanced(round),
{
}

/// Sending a batch again leaves the aggregate of the round as it is.
pub proof fn law_resent_batch_is_harmless(s: AggregatorState, vs: Seq<Verified>)
    requires
        s.batch_outcome(vs) is Ok,
    ensures
        s.after_batch(vs).batch_outcome(vs) == s.batch_outcome(vs),
        s.after_batch(vs).after_batch(vs) == s.after_batch(vs),
{
    law_resent_batch_changes_nothing(
        s.config.auction_slots,
        s.current_round,
        s.aggregate,
        vs,
        s.authorized,
    );
}

/// A batch is refused at once exactly if it has a message for another round, and
/// then the round of the first such message is reported; otherwise it extends
/// what the aggregator holds. Only a batch that is accepted changes the state,
/// and only the aggregate.
pub proof fn law_batches_go_to_their_round(s: AggregatorState, vs: Seq<Verified>)
    ensures
        ({
            let r = s.batch_outcome(vs);
            let stray = exists|i: int|
                0 <= i < vs.len() && (#[trigger] vs[i]).message.round_number != s.current_round;
            let then = s.after_batch(vs);
            &&& stray ==> exists|i: int|
                0 <= i < vs.len() && (#[trigger] vs[i]).message.round_number != s.current_round && r
                    == Err::<Aggregate, Refusal>(
                    Refusal::WrongRound {
                        got: vs[i].message.round_number,
                        expected: s.current_round,
                    },
                ) && forall|j: int|
                    0 <= j < i ==> (#[trigger] vs[j]).message.round_number == s.current_round
            &&& !stray ==> r == extended(
                s.config.auction_slots,
                s.current_round,
                s.aggregate,
                vs,
                s.authorized,
            )
            &&& r is Err ==> then == s
            &&& r matches Ok(agg) ==> then.aggregate == Some(agg)
            &&& then.config == s.config
            &&& then.authorized == s.authorized
            &&& then.current_round == s.current_round
        }),
{
    lemma_first_stray(vs, s.current_round, 0);
}

proof fn lemma_first_stray(vs: Seq<Verified>, round: i64, i: int)
    requires
        0 <= i <= vs.len(),
        forall|j: int| 0 <= j < i ==> (#[trigger] vs[j]).message.round_number == round,
    ensures
        first_stray(vs, round, i) is None <==> !(exists|k: int|
            0 <= k < vs.len() && (#[trigger] vs[k]).message.round_number != round),
        first_stray(vs, round, i) matches Some(got) ==> exists|k: int|
            0 <= k < vs.len() && (#[trigger] vs[k]).message.round_number != round && got
                == vs[k].message.round_number && forall|j: int|
                0 <= j < k ==> (#[trigger] vs[j]).message.round_number == round,
    decreases vs.len() - i,
{
    if i < vs.len() {
        if vs[i].message.round_number == round {
            lemma_first_stray(vs, round, i + 1);
        } else {
            assert(vs[i].message.round_number != round);
        }
    }
}

/// The move to a later round starts it without an aggregate and keeps the rest;
/// a move to the current or an earlier round changes nothing.
pub proof fn law_aggregator_rounds_start_blank(s: AggregatorState, round: Round)
    ensures
        round.number <= s.current_round ==> s.advanced(round) == s,
        round.number > s.current_round ==> {
            let then = s.advanced(round);
            &&& then.current_round == round.number
            &&& then.aggregate is None
            &&& then.config == s.config
            &&& then.authorized == s.authorized
        },
{
}

/// What is stripped of its envelope is the object and the public key of each
/// message, in order, and a batch is authentic exactly if each of its messages
/// is.
pub proof fn law_envelopes_are_stripped(msgs: Seq<Signed<ClientRoundMessage>>)
    ensures
        stripped(msgs).len() == msgs.len(),
        forall|i: int|
            0 <= i < msgs.len() ==> (#[trigger] stripped(msgs)[i]).message == msgs[i].object@
                && stripped(msgs)[i].signer == msgs[i].public_key@,
        all_authentic(msgs) <==> !(exists|i: int|
            0 <= i < msgs.len() && !(#[trigger] msgs[i]).authentic()),
{
}

/// An envelope is authentic exactly if its signature is one of 64 bytes that
/// Ed25519 accepts under its public key of 32 bytes for the BLAKE3 digest of the
/// byte form of its object and its public key.
pub proof fn law_authentic_envelopes<T: Transcript>(s: Signed<T>)
    ensures
        s.authentic() <==> s.public_key@.len() == 32 && s.signature@.len() == 64
            && ed25519_accepts(
            s.public_key@,
            blake3_256(T::transcript(s.object@) + s.public_key@),
            s.signature@,
        ),
{
}

// ---------------------------------------------------------------------------
// Client
// ---------------------------------------------------------------------------

/// A message that was bid for goes out in the round after its bid: not in the
/// round of the bid, and it is gone in any later round.
pub proof fn law_message_follows_its_bid(s: ClientState, next: Round, late: Round, bc: Broadcast)
    requires
        s.pending is Some,
        s.follows_broadcast(),
        next.number == s.current_round + 1,
        late.number > s.current_round + 1,
    ensures
        s.outgoing_bid() == Some(s.pending->0.bid),
        s.after_messages().pending is None,
        ({
            let then = s.after_messages().advanced(next);
            &&& then.due()
            &&& then.outgoing() == s.pending->0.message
        }),
        ({
            let then = s.after_messages().advanced(late);
            &&& !then.due()
            &&& then.outgoing() == Seq::<u8>::empty()
        }),
{
}

/// A message goes out once: after it went out it is not due again.
pub proof fn law_message_goes_out_once(s: ClientState)
    requires
        s.follows_broadcast(),
        s.due(),
    ensures
        !s.after_messages().due(),
{
}

/// Rounds only go forward, and moving to a round twice is moving there once.
pub proof fn law_client_rounds_go_forward(s: ClientState, round: Round)
    ensures
        s.advanced(round).current_round >= s.current_round,
        s.advanced(round).current_round >= round.number,
        s.advanced(round).advanced(round) == s.advanced(round),
{
}

} // verus!
