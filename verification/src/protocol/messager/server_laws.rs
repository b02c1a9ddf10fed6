//! Laws of the server: what its partial decryption of an aggregate is made of,
//! when it is refused, how partials of several batches fit together, and what
//! the partials of all servers combine to.

use vstd::prelude::*;

use crate::auction::auction::AUCTION_BID_XI;
use crate::auction::iblt::{delta_for, empty_table};
use crate::crypto::blinding::{field_pad, vxor};
use crate::crypto::blinding_laws::ctr_byte;
use crate::crypto::fields::{all_canonical, vadd};
use crate::crypto::hexadecimal::hex_text;
use crate::crypto::types::ServerId;
use crate::primitives::{field_round, xor_round};
use crate::protocol::messages::{
    keys_distinct, law_repeated_key, law_union_members_are_distinct, law_unions_add_up,
    law_unions_are_refused_only_if, lemma_reduced_is_canonical, repeated_key, repeats_first,
    words_reduced, Aggregate, Partial, Refusal,
};
use crate::sums::{lemma_sum_same, lemma_xor_sum_same, sum, xor_sum};

use super::server::{
    adjacent_twins, auction_shares, first_misfit, member_secrets, message_shares, partial_for,
    partials_refused, servers_match, stranger, unblinded,
};
use super::{auction_len, pad_round};

verus! {

/// Pads are derived from the low 32 bits of the round number.
pub proof fn law_pads_see_the_low_bits(round: i64)
    ensures
        0 <= round ==> pad_round(round) == round as int % 0x1_0000_0000,
        0 <= round <= u32::MAX ==> pad_round(round) == round,
{
    if 0 <= round {
        assert(round as u32 == round % 0x1_0000_0000i64) by (bit_vector)
            requires
                0 <= round,
        ;
    }
}

/// An auction vector holds, for each of four rows of `⌈1.5·n⌉` buckets and at
/// least one, a counter, a key and four values.
pub proof fn law_auction_vector_length(n: u32)
    requires
        3 * n + 1 <= 2 * usize::MAX,
    ensures
        n > 0 ==> auction_len(n) == 24 * ((3 * n + 1) / 2),
        n == 0 ==> auction_len(n) == 24,
{
    let d = delta_for(n);
    assert(4 * d * (2 + 4) == 24 * d) by (nonlinear_arith);
}

// ---------------------------------------------------------------------------
// Partials
// ---------------------------------------------------------------------------

/// A secret is shared with every one of `keys`.
pub open spec fn all_known(secrets: Map<Seq<u8>, Seq<u8>>, keys: Seq<Seq<u8>>) -> bool {
    forall|i: int| 0 <= i < keys.len() ==> secrets.contains_key(#[trigger] keys[i])
}

proof fn lemma_stranger(secrets: Map<Seq<u8>, Seq<u8>>, keys: Seq<Seq<u8>>, i: int)
    requires
        0 <= i <= keys.len(),
        all_known(secrets, keys.take(i)),
    ensures
        stranger(secrets, keys, i) is None <==> all_known(secrets, keys),
        stranger(secrets, keys, i) matches Some(k) ==> exists|j: int|
            0 <= j < keys.len() && keys[j] == k && all_known(secrets, #[trigger] keys.take(j))
                && !secrets.contains_key(k),
    decreases keys.len() - i,
{
    if i == keys.len() {
        assert(keys.take(i) =~= keys);
    } else if secrets.contains_key(keys[i]) {
        let more = keys.take(i + 1);
        assert forall|j: int| 0 <= j < more.len() implies secrets.contains_key(
            #[trigger] more[j],
        ) by {
            if j < i {
                assert(keys.take(i)[j] == more[j]);
            }
        }
        lemma_stranger(secrets, keys, i + 1);
    } else {
        assert(!secrets.contains_key(keys[i]));
        assert(all_known(secrets, keys.take(i)) && keys[i] == stranger(secrets, keys, i)->0);
    }
}

/// There is no stranger exactly if a secret is shared with every key; otherwise
/// it is the first key with which none is shared.
pub proof fn law_first_stranger(secrets: Map<Seq<u8>, Seq<u8>>, keys: Seq<Seq<u8>>)
    ensures
        stranger(secrets, keys, 0) is None <==> all_known(secrets, keys),
        stranger(secrets, keys, 0) matches Some(k) ==> exists|j: int|
            0 <= j < keys.len() && keys[j] == k && all_known(secrets, #[trigger] keys.take(j))
                && !secrets.contains_key(k),
{
    assert(all_known(secrets, keys.take(0)));
    lemma_stranger(secrets, keys, 0);
}

/// When a server gives its partial decryption of an aggregate, and why it does
/// not otherwise: in this order, the round is another one, the server is not
/// named, the auction vector has the wrong length or an element that is not
/// reduced, a member occurs twice or shares no secret with the server, or a
/// keystream is used up.
pub proof fn law_partials_are_refused_only_if(
    id: ServerId,
    secrets: Map<Seq<u8>, Seq<u8>>,
    slots: u32,
    round: i64,
    agg: Aggregate,
)
    ensures
        ({
            let r = partial_for(id, secrets, slots, round, agg);
            let on_time = agg.round_number == round;
            let named = agg.all_server_ids.contains(id);
            let length = agg.auction_vector.len() == auction_len(slots);
            let reduced = words_reduced(agg.auction_vector);
            let distinct = keys_distinct(agg.user_pks);
            let known = all_known(secrets, agg.user_pks);
            let pads = field_round::pads_exist(
                member_secrets(secrets, agg.user_pks),
                pad_round(round),
                agg.auction_vector.len(),
            );
            &&& r is Ok <==> on_time && named && length && reduced && distinct && known && pads
            &&& !on_time ==> r == Err::<Partial, Refusal>(
                Refusal::WrongRound { got: agg.round_number, expected: round },
            )
            &&& on_time && !named ==> r == Err::<Partial, Refusal>(Refusal::InvalidServer(id))
            &&& on_time && named && !length ==> r == Err::<Partial, Refusal>(
                Refusal::MismatchingVectorLengths,
            )
            &&& on_time && named && length && !reduced ==> r == Err::<Partial, Refusal>(
                Refusal::NonCanonicalFieldElement,
            )
            &&& on_time && named && length && reduced && !distinct ==> exists|j: int| #[trigger]
                repeats_first(agg.user_pks, j) && r == Err::<Partial, Refusal>(
                    Refusal::DuplicateSubmission(hex_text(agg.user_pks[j])),
                )
            &&& on_time && named && length && reduced && distinct && !known ==> exists|j: int|
                0 <= j < agg.user_pks.len() && all_known(
                    secrets,
                    #[trigger] agg.user_pks.take(j),
                ) && !secrets.contains_key(agg.user_pks[j]) && r == Err::<Partial, Refusal>(
                    Refusal::NoSharedKey(hex_text(agg.user_pks[j])),
                )
            &&& on_time && named && length && reduced && distinct && known && !pads ==> r == Err::<
                Partial,
                Refusal,
            >(Refusal::PadExhausted)
        }),
{
    let keys = agg.user_pks;
    law_repeated_key(keys);
    if !keys_distinct(keys) {
        let j = choose|j: int|
            0 <= j < keys.len() && keys[j] == repeated_key(keys, 0)->0 && keys_distinct(
                #[trigger] keys.take(j),
            ) && keys.take(j).contains(repeated_key(keys, 0)->0);
        assert(repeats_first(keys, j));
    }
    law_first_stranger(secrets, agg.user_pks);
    lemma_reduced_is_canonical(agg.auction_vector);
}

/// A partial decryption names the server, the aggregate and its members, and
/// holds the pads of all members added up: modulo p, element by element, in the
/// auction vector, and by XOR, byte by byte, in the message vector.
pub proof fn law_partials_add_the_pads(
    id: ServerId,
    secrets: Map<Seq<u8>, Seq<u8>>,
    slots: u32,
    round: i64,
    agg: Aggregate,
)
    requires
        partial_for(id, secrets, slots, round, agg) is Ok,
    ensures
        ({
            let p = partial_for(id, secrets, slots, round, agg)->Ok_0;
            let n = agg.auction_vector.len();
            &&& p.server_id == id
            &&& p.original_aggregate == agg
            &&& p.user_pks == agg.user_pks
            &&& p.auction_vector.len() == n
            &&& p.message_vector.len() == agg.message_vector.len()
            &&& forall|i: int|
                0 <= i < n ==> #[trigger] p.auction_vector[i] == sum(
                    |m: int|
                        field_pad(
                            seq![0u8] + secrets[agg.user_pks[m]],
                            pad_round(round),
                            n,
                        )[i] as int,
                    agg.user_pks.len() as int,
                ) % 0x1eeed4e13a526bab
            &&& forall|i: int|
                0 <= i < p.message_vector.len() ==> #[trigger] p.message_vector[i] == xor_sum(
                    |m: int|
                        ctr_byte(
                            seq![1u8] + secrets[agg.user_pks[m]],
                            pad_round(round),
                            (i / 16) as nat,
                            i % 16,
                        ),
                    agg.user_pks.len() as int,
                )
        }),
{
    let p = partial_for(id, secrets, slots, round, agg)->Ok_0;
    let mine = member_secrets(secrets, agg.user_pks);
    let n = agg.auction_vector.len();
    let m = agg.message_vector.len();
    let r = pad_round(round);
    let k = agg.user_pks.len() as int;
    field_round::lemma_share_canonical(mine, r, n);
    assert forall|i: int| 0 <= i < n implies #[trigger] p.auction_vector[i] == sum(
        |j: int| field_pad(seq![0u8] + secrets[agg.user_pks[j]], r, n)[i] as int,
        k,
    ) % 0x1eeed4e13a526bab by {
        field_round::law_share_adds_the_pads(mine, r, n, i);
        lemma_sum_same(
            |j: int| field_pad(seq![0u8] + mine[j], r, n)[i] as int,
            |j: int| field_pad(seq![0u8] + secrets[agg.user_pks[j]], r, n)[i] as int,
            k,
        );
    }
    xor_round::lemma_share_len(mine, r, m);
    assert forall|i: int| 0 <= i < p.message_vector.len() implies #[trigger] p.message_vector[i]
        == xor_sum(
        |j: int| ctr_byte(seq![1u8] + secrets[agg.user_pks[j]], r, (i / 16) as nat, i % 16),
        k,
    ) by {
        xor_round::law_share_is_the_keystreams(mine, r, m, i);
        lemma_xor_sum_same(
            |j: int| ctr_byte(seq![1u8] + mine[j], r, (i / 16) as nat, i % 16),
            |j: int| ctr_byte(seq![1u8] + secrets[agg.user_pks[j]], r, (i / 16) as nat, i % 16),
            k,
        );
    }
}

/// The partial decryption of two aggregates that add up is the sum of their
/// partial decryptions.
pub proof fn law_partials_of_batches_add_up(
    id: ServerId,
    secrets: Map<Seq<u8>, Seq<u8>>,
    slots: u32,
    round: i64,
    a: Aggregate,
    b: Aggregate,
)
    requires
        partial_for(id, secrets, slots, round, a) is Ok,
        partial_for(id, secrets, slots, round, b) is Ok,
        a.unioned(b) is Ok,
    ensures
        ({
            let x = partial_for(id, secrets, slots, round, a)->Ok_0;
            let y = partial_for(id, secrets, slots, round, b)->Ok_0;
            let all = a.unioned(b)->Ok_0;
            partial_for(id, secrets, slots, round, all) == Ok::<Partial, Refusal>(
                Partial {
                    server_id: id,
                    original_aggregate: all,
                    user_pks: a.user_pks + b.user_pks,
                    auction_vector: vadd(x.auction_vector, y.auction_vector),
                    message_vector: vxor(x.message_vector, y.message_vector),
                },
            )
        }),
{
    let all = a.unioned(b)->Ok_0;
    let ma = member_secrets(secrets, a.user_pks);
    let mb = member_secrets(secrets, b.user_pks);
    let r = pad_round(round);
    law_unions_are_refused_only_if(a, b);
    law_unions_add_up(a, b);
    law_union_members_are_distinct(a, b);
    law_partials_are_refused_only_if(id, secrets, slots, round, a);
    law_partials_are_refused_only_if(id, secrets, slots, round, b);
    law_partials_are_refused_only_if(id, secrets, slots, round, all);
    lemma_reduced_is_canonical(all.auction_vector);
    assert(member_secrets(secrets, all.user_pks) =~= ma + mb);
    assert(all_known(secrets, all.user_pks)) by {
        assert forall|i: int| 0 <= i < all.user_pks.len() implies secrets.contains_key(
            #[trigger] all.user_pks[i],
        ) by {
            if i < a.user_pks.len() {
                assert(all.user_pks[i] == a.user_pks[i]);
            } else {
                assert(all.user_pks[i] == b.user_pks[i - a.user_pks.len()]);
            }
        }
    }
    assert(!a.is_blank()) by {
        assert(a.all_server_ids.len() > 0);
    }
    field_round::law_shares_add_up(ma, mb, r, all.auction_vector.len());
    xor_round::law_shares_add_up(ma, mb, r, all.message_vector.len());
}

// ---------------------------------------------------------------------------
// Combination
// ---------------------------------------------------------------------------

/// Every partial is for the same aggregate.
pub open spec fn one_aggregate(ps: Seq<Partial>) -> bool {
    forall|i: int|
        0 <= i < ps.len() ==> (#[trigger] ps[i]).original_aggregate == ps[0].original_aggregate
}

/// The vectors of every partial are as long as those of the aggregate.
pub open spec fn lengths_agree(ps: Seq<Partial>) -> bool {
    forall|i: int|
        0 <= i < ps.len() ==> (#[trigger] ps[i]).auction_vector.len()
            == ps[0].original_aggregate.auction_vector.len() && ps[i].message_vector.len()
            == ps[0].original_aggregate.message_vector.len()
}

/// The servers of the partials ascend, so that none occurs twice.
pub open spec fn servers_ascend(ps: Seq<Partial>) -> bool {
    forall|i: int, j: int|
        0 <= i < j < ps.len() ==> (#[trigger] ps[i]).server_id.0 < (#[trigger] ps[j]).server_id.0
}

/// The partials come from the servers that the aggregate names, as many as
/// there are, and the aggregate names none twice.
pub open spec fn from_the_servers(ps: Seq<Partial>) -> bool {
    let ids = ps[0].original_aggregate.all_server_ids;
    &&& ps.len() == ids.len()
    &&& forall|i: int, j: int| 0 <= i < j < ids.len() ==> #[trigger] ids[i] != #[trigger] ids[j]
    &&& forall|i: int|
        0 <= i < ps.len() ==> exists|j: int|
            0 <= j < ids.len() && (#[trigger] ps[i]).server_id == #[trigger] ids[j]
}

/// Every partial names the members of the aggregate.
pub open spec fn members_agree_with(ps: Seq<Partial>) -> bool {
    forall|i: int|
        0 <= i < ps.len() ==> (#[trigger] ps[i]).user_pks == ps[0].original_aggregate.user_pks
}

/// The auction vectors of the aggregate and of the partials are reduced.
pub open spec fn vectors_reduced(ps: Seq<Partial>) -> bool {
    &&& words_reduced(ps[0].original_aggregate.auction_vector)
    &&& forall|i: int| 0 <= i < ps.len() ==> words_reduced((#[trigger] ps[i]).auction_vector)
}

proof fn lemma_twins(ps: Seq<Partial>, i: int)
    requires
        0 <= i,
        forall|k: int, l: int|
            0 <= k < l < ps.len() ==> (#[trigger] ps[k]).server_id.0 <= (
            #[trigger] ps[l]).server_id.0,
    ensures
        adjacent_twins(ps, i) is None <==> (forall|k: int, l: int|
            i <= k < l < ps.len() ==> (#[trigger] ps[k]).server_id.0 < (
            #[trigger] ps[l]).server_id.0),
    decreases ps.len() - i,
{
    if i + 1 < ps.len() {
        lemma_twins(ps, i + 1);
        if ps[i].server_id == ps[i + 1].server_id {
            assert(!(ps[i].server_id.0 < ps[i + 1].server_id.0));
        } else {
            assert(ps[i].server_id.0 < ps[i + 1].server_id.0);
            if adjacent_twins(ps, i + 1) is None {
                assert forall|k: int, l: int| i <= k < l < ps.len() implies (
                #[trigger] ps[k]).server_id.0 < (#[trigger] ps[l]).server_id.0 by {
                    if k == i && l > i + 1 {
                        assert(ps[i + 1].server_id.0 < ps[l].server_id.0);
                    }
                }
            }
        }
    }
}

proof fn lemma_misfit(ps: Seq<Partial>, i: int)
    requires
        1 <= i,
        ps.len() > 0,
        ps[0].message_vector.len() == ps[0].original_aggregate.message_vector.len(),
    ensures
        first_misfit(ps, i) is None <==> (forall|k: int|
            i <= k < ps.len() ==> (#[trigger] ps[k]).original_aggregate
                == ps[0].original_aggregate && ps[k].auction_vector.len()
                == ps[0].original_aggregate.auction_vector.len() && ps[k].message_vector.len()
                == ps[0].original_aggregate.message_vector.len()),
    decreases ps.len() - i,
{
    if i < ps.len() {
        lemma_misfit(ps, i + 1);
        if first_misfit(ps, i) is None {
            assert forall|k: int| i <= k < ps.len() implies (#[trigger] ps[k]).original_aggregate
                == ps[0].original_aggregate && ps[k].auction_vector.len()
                == ps[0].original_aggregate.auction_vector.len() && ps[k].message_vector.len()
                == ps[0].original_aggregate.message_vector.len() by {
                if k > i {
                    assert(i + 1 <= k < ps.len());
                }
            }
        } else {
            assert(ps[i] == ps[i]);
        }
    }
}

proof fn lemma_from_the_servers(ps: Seq<Partial>)
    requires
        ps.len() > 0,
    ensures
        servers_match(ps) <==> from_the_servers(ps),
{
    let ids = ps[0].original_aggregate.all_server_ids;
    if servers_match(ps) {
        assert forall|i: int| 0 <= i < ps.len() implies exists|j: int|
            0 <= j < ids.len() && (#[trigger] ps[i]).server_id == #[trigger] ids[j] by {
            assert(ids.contains(ps[i].server_id));
            let j = choose|j: int| 0 <= j < ids.len() && ids[j] == ps[i].server_id;
            assert(ps[i].server_id == ids[j]);
        }
    }
    if from_the_servers(ps) {
        assert forall|i: int| 0 <= i < ps.len() implies ids.contains(
            (#[trigger] ps[i]).server_id,
        ) by {
            let j = choose|j: int| 0 <= j < ids.len() && ps[i].server_id == #[trigger] ids[j];
            assert(ids[j] == ps[i].server_id);
        }
    }
}

/// Partials in the order of their servers combine exactly if there are any,
/// none of the servers occurs twice, all are for one aggregate and of its
/// lengths, they come from all its servers and name its members, and all
/// auction vectors are reduced.
pub proof fn law_partials_combine_only_if(ps: Seq<Partial>)
    requires
        forall|i: int, j: int|
            0 <= i < j < ps.len() ==> (#[trigger] ps[i]).server_id.0 <= (
            #[trigger] ps[j]).server_id.0,
    ensures
        partials_refused(ps) is None <==> ps.len() > 0 && servers_ascend(ps) && one_aggregate(ps)
            && lengths_agree(ps) && from_the_servers(ps) && members_agree_with(ps)
            && vectors_reduced(ps),
        ps.len() == 0 ==> partials_refused(ps) == Some(Refusal::EmptyPartials),
        ps.len() > 0 && !servers_ascend(ps) ==> partials_refused(ps) is Some && partials_refused(
            ps,
        )->0 is DuplicatePartial,
        ps.len() > 0 && servers_ascend(ps) && (ps[0].auction_vector.len()
            != ps[0].original_aggregate.auction_vector.len() || ps[0].message_vector.len()
            != ps[0].original_aggregate.message_vector.len()) ==> partials_refused(ps) == Some(
            Refusal::MismatchingVectorLengths,
        ),
        ps.len() > 0 && servers_ascend(ps) && one_aggregate(ps) && !lengths_agree(ps)
            ==> partials_refused(ps) == Some(Refusal::MismatchingVectorLengths),
        ps.len() > 0 && servers_ascend(ps) && one_aggregate(ps) && lengths_agree(ps)
            && !from_the_servers(ps) ==> partials_refused(ps) == Some(
            Refusal::MismatchingServers,
        ),
        ps.len() > 0 && servers_ascend(ps) && !one_aggregate(ps) && lengths_agree(ps)
            ==> partials_refused(ps) == Some(Refusal::MismatchingAggregate),
        ps.len() > 0 && servers_ascend(ps) && one_aggregate(ps) && lengths_agree(ps)
            && from_the_servers(ps) && !members_agree_with(ps) ==> partials_refused(ps) == Some(
            Refusal::MismatchingAggregate,
        ),
        ps.len() > 0 && servers_ascend(ps) && one_aggregate(ps) && lengths_agree(ps)
            && from_the_servers(ps) && members_agree_with(ps) && !vectors_reduced(ps)
            ==> partials_refused(ps) == Some(Refusal::NonCanonicalFieldElement),
{
    lemma_twins(ps, 0);
    if ps.len() > 0 {
        lemma_from_the_servers(ps);
        if ps[0].message_vector.len() == ps[0].original_aggregate.message_vector.len() {
            lemma_misfit(ps, 1);
        }
        lemma_first_misfit_kind(ps, 1);
        lemma_reduced_is_canonical(ps[0].original_aggregate.auction_vector);
        assert forall|i: int| 0 <= i < ps.len() implies (words_reduced(
            (#[trigger] ps[i]).auction_vector,
        ) <==> all_canonical(ps[i].auction_vector)) by {
            lemma_reduced_is_canonical(ps[i].auction_vector);
        }
    }
}

proof fn lemma_first_misfit_kind(ps: Seq<Partial>, i: int)
    requires
        1 <= i,
        ps.len() > 0,
    ensures
        one_aggregate(ps) && first_misfit(ps, i) is Some ==> first_misfit(ps, i) == Some(
            Refusal::MismatchingVectorLengths,
        ),
        lengths_agree(ps) && first_misfit(ps, i) is Some ==> first_misfit(ps, i) == Some(
            Refusal::MismatchingAggregate,
        ),
    decreases ps.len() - i,
{
    if i < ps.len() {
        lemma_first_misfit_kind(ps, i + 1);
        assert(ps[i] == ps[i] && ps[0] == ps[0]);
    }
}

proof fn lemma_first_twins(ps: Seq<Partial>, i: int)
    requires
        0 <= i,
    ensures
        adjacent_twins(ps, i) matches Some(id) ==> exists|k: int|
            i <= k && k + 1 < ps.len() && (#[trigger] ps[k]).server_id == id && ps[k + 1].server_id
                == id && adjacent_twins(ps.take(k + 1), i) is None,
    decreases ps.len() - i,
{
    if i + 1 < ps.len() {
        if ps[i].server_id == ps[i + 1].server_id {
            assert(adjacent_twins(ps.take(i + 1), i) is None);
            assert(ps[i].server_id == adjacent_twins(ps, i)->0);
        } else if adjacent_twins(ps, i) is Some {
            lemma_first_twins(ps, i + 1);
            let id = adjacent_twins(ps, i)->0;
            let k = choose|k: int|
                i + 1 <= k && k + 1 < ps.len() && (#[trigger] ps[k]).server_id == id && ps[k
                    + 1].server_id == id && adjacent_twins(ps.take(k + 1), i + 1) is None;
            assert(ps.take(k + 1)[i] == ps[i] && ps.take(k + 1)[i + 1] == ps[i + 1]);
            assert(adjacent_twins(ps.take(k + 1), i) is None);
            assert(ps[k].server_id == id);
        }
    }
}

/// Of servers that occur twice, the first is reported.
pub proof fn law_first_duplicate_is_reported(ps: Seq<Partial>)
    requires
        forall|i: int, j: int|
            0 <= i < j < ps.len() ==> (#[trigger] ps[i]).server_id.0 <= (
            #[trigger] ps[j]).server_id.0,
        ps.len() > 0,
        !servers_ascend(ps),
    ensures
        exists|k: int|
            0 <= k && k + 1 < ps.len() && (#[trigger] ps[k]).server_id == ps[k + 1].server_id
                && servers_ascend(ps.take(k + 1)) && partials_refused(ps) == Some(
                Refusal::DuplicatePartial(ps[k].server_id),
            ),
{
    lemma_twins(ps, 0);
    lemma_first_twins(ps, 0);
    let id = adjacent_twins(ps, 0)->0;
    let k = choose|k: int|
        0 <= k && k + 1 < ps.len() && (#[trigger] ps[k]).server_id == id && ps[k + 1].server_id
            == id && adjacent_twins(ps.take(k + 1), 0) is None;
    let head = ps.take(k + 1);
    assert forall|i: int, j: int| 0 <= i < j < head.len() implies (#[trigger] head[i]).server_id.0
        <= (#[trigger] head[j]).server_id.0 by {
        assert(head[i] == ps[i] && head[j] == ps[j]);
    }
    lemma_twins(head, 0);
    assert(ps[k].server_id == ps[k + 1].server_id);
}

proof fn lemma_first_misfit(ps: Seq<Partial>, i: int)
    requires
        1 <= i,
        first_misfit(ps, i) is Some,
    ensures
        exists|k: int|
            i <= k < ps.len() && first_misfit(ps.take(k), i) is None && first_misfit(ps, i)
                == Some(
                if (#[trigger] ps[k]).original_aggregate != ps[0].original_aggregate {
                    Refusal::MismatchingAggregate
                } else {
                    Refusal::MismatchingVectorLengths
                },
            ) && (ps[k].original_aggregate != ps[0].original_aggregate
                || ps[k].message_vector.len() != ps[0].message_vector.len()
                || ps[k].auction_vector.len()
                != ps[0].original_aggregate.auction_vector.len()),
    decreases ps.len() - i,
{
    let here = ps[i].original_aggregate != ps[0].original_aggregate
        || ps[i].message_vector.len() != ps[0].message_vector.len() || ps[i].auction_vector.len()
        != ps[0].original_aggregate.auction_vector.len();
    if here {
        assert(first_misfit(ps.take(i), i) is None);
        assert(ps[i] == ps[i]);
    } else {
        lemma_first_misfit(ps, i + 1);
        let k = choose|k: int|
            i + 1 <= k < ps.len() && first_misfit(ps.take(k), i + 1) is None && first_misfit(
                ps,
                i + 1,
            ) == Some(
                if (#[trigger] ps[k]).original_aggregate != ps[0].original_aggregate {
                    Refusal::MismatchingAggregate
                } else {
                    Refusal::MismatchingVectorLengths
                },
            ) && (ps[k].original_aggregate != ps[0].original_aggregate
                || ps[k].message_vector.len() != ps[0].message_vector.len()
                || ps[k].auction_vector.len()
                != ps[0].original_aggregate.auction_vector.len());
        assert(ps.take(k)[i] == ps[i] && ps.take(k)[0] == ps[0]);
        assert(first_misfit(ps.take(k), i) is None);
        assert(ps[k] == ps[k]);
    }
}

/// Of partials that do not fit the first one, the first is reported: for another
/// aggregate, and if not for other lengths.
pub proof fn law_first_misfit_is_reported(ps: Seq<Partial>)
    requires
        forall|i: int, j: int|
            0 <= i < j < ps.len() ==> (#[trigger] ps[i]).server_id.0 <= (
            #[trigger] ps[j]).server_id.0,
        ps.len() > 0,
        servers_ascend(ps),
        !one_aggregate(ps) || !lengths_agree(ps),
        ps[0].auction_vector.len() == ps[0].original_aggregate.auction_vector.len(),
        ps[0].message_vector.len() == ps[0].original_aggregate.message_vector.len(),
    ensures
        exists|k: int|
            0 < k < ps.len() && one_aggregate(ps.take(k)) && lengths_agree(ps.take(k))
                && partials_refused(ps) == Some(
                if (#[trigger] ps[k]).original_aggregate != ps[0].original_aggregate {
                    Refusal::MismatchingAggregate
                } else {
                    Refusal::MismatchingVectorLengths
                },
            ),
{
    lemma_twins(ps, 0);
    lemma_misfit(ps, 1);
    if first_misfit(ps, 1) is None {
        assert(one_aggregate(ps) && lengths_agree(ps)) by {
            assert forall|i: int| 0 <= i < ps.len() implies (#[trigger] ps[i]).original_aggregate
                == ps[0].original_aggregate && ps[i].auction_vector.len()
                == ps[0].original_aggregate.auction_vector.len() && ps[i].message_vector.len()
                == ps[0].original_aggregate.message_vector.len() by {
                if i > 0 {
                    assert(1 <= i < ps.len());
                }
            }
        }
    }
    lemma_first_misfit(ps, 1);
    let k = choose|k: int|
        1 <= k < ps.len() && first_misfit(ps.take(k), 1) is None && first_misfit(ps, 1) == Some(
            if (#[trigger] ps[k]).original_aggregate != ps[0].original_aggregate {
                Refusal::MismatchingAggregate
            } else {
                Refusal::MismatchingVectorLengths
            },
        ) && (ps[k].original_aggregate != ps[0].original_aggregate || ps[k].message_vector.len()
            != ps[0].message_vector.len() || ps[k].auction_vector.len()
            != ps[0].original_aggregate.auction_vector.len());
    let head = ps.take(k);
    assert(head[0] == ps[0]);
    lemma_misfit(head, 1);
    assert forall|i: int| 0 <= i < head.len() implies (#[trigger] head[i]).original_aggregate
        == head[0].original_aggregate && head[i].auction_vector.len()
        == head[0].original_aggregate.auction_vector.len() && head[i].message_vector.len()
        == head[0].original_aggregate.message_vector.len() by {
        if i > 0 {
            assert(1 <= i < head.len());
        }
    }
    assert(ps[k] == ps[k]);
}

/// A broadcast is for the round of the aggregate, its message vector is the XOR
/// of the message vectors of the aggregate and of all partials, byte by byte,
/// and its table, written as a vector, is the auction vector of the aggregate
/// minus those of all partials, element by element and modulo p.
pub proof fn law_combined_partials_are_taken_off(slots: u32, ps: Seq<Partial>)
    requires
        forall|i: int, j: int|
            0 <= i < j < ps.len() ==> (#[trigger] ps[i]).server_id.0 <= (
            #[trigger] ps[j]).server_id.0,
        unblinded(slots, ps) is Ok,
    ensures
        ({
            let bc = unblinded(slots, ps)->Ok_0;
            let agg = ps[0].original_aggregate;
            &&& ps.len() > 0
            &&& bc.round_number == agg.round_number
            &&& bc.message_vector.len() == agg.message_vector.len()
            &&& forall|i: int|
                0 <= i < bc.message_vector.len() ==> #[trigger] bc.message_vector[i]
                    == agg.message_vector[i] ^ xor_sum(
                    |j: int| ps[j].message_vector[i],
                    ps.len() as int,
                )
            &&& bc.auction_vector.estimated_elements == slots
            &&& bc.auction_vector.xi == 4
            &&& bc.auction_vector.elements().len() == agg.auction_vector.len()
            &&& forall|i: int|
                0 <= i < agg.auction_vector.len() ==> #[trigger] bc.auction_vector.elements()[i]
                    == (agg.auction_vector[i] - sum(
                    |j: int| ps[j].auction_vector[i] as int,
                    ps.len() as int,
                )) % 0x1eeed4e13a526bab
        }),
{
    let bc = unblinded(slots, ps)->Ok_0;
    let agg = ps[0].original_aggregate;
    law_partials_combine_only_if(ps);
    let rows = auction_shares(ps);
    let texts = message_shares(ps);
    assert forall|j: int| 0 <= j < rows.len() implies (#[trigger] rows[j]).len()
        == agg.auction_vector.len() by {
        assert(ps[j].auction_vector.len() == agg.auction_vector.len());
    }
    assert forall|j: int| 0 <= j < texts.len() implies (#[trigger] texts[j]).len()
        == agg.message_vector.len() by {
        assert(ps[j].message_vector.len() == agg.message_vector.len());
    }
    xor_round::lemma_xor_all_len(agg.message_vector, texts);
    field_round::lemma_sub_all_len(agg.auction_vector, rows);
    let auction = field_round::sub_all(agg.auction_vector, rows);
    let blank = empty_table(slots, AUCTION_BID_XI);
    let k = blank.counters.len() as int;
    assert(bc.auction_vector.elements() =~= auction.subrange(0, k) + auction.subrange(k, 2 * k)
        + auction.subrange(2 * k, auction.len() as int));
    assert(bc.auction_vector.elements() =~= auction);
    assert forall|i: int| 0 <= i < bc.message_vector.len() implies #[trigger] bc.message_vector[i]
        == agg.message_vector[i] ^ xor_sum(
        |j: int| ps[j].message_vector[i],
        ps.len() as int,
    ) by {
        xor_round::law_vectors_are_xored_in(agg.message_vector, texts, i);
        lemma_xor_sum_same(
            |j: int| texts[j][i],
            |j: int| ps[j].message_vector[i],
            ps.len() as int,
        );
    }
    assert forall|i: int|
        0 <= i < agg.auction_vector.len() implies #[trigger] bc.auction_vector.elements()[i] == (
    agg.auction_vector[i] - sum(|j: int| ps[j].auction_vector[i] as int, ps.len() as int))
        % 0x1eeed4e13a526bab by {
        field_round::law_shares_are_taken_out(agg.auction_vector, rows, i);
        lemma_sum_same(
            |j: int| rows[j][i] as int,
            |j: int| ps[j].auction_vector[i] as int,
            ps.len() as int,
        );
    }
}

/// Partials that may be combined give a broadcast if their auction vector has
/// the length of the round.
pub proof fn law_matching_partials_give_a_broadcast(slots: u32, ps: Seq<Partial>)
    requires
        partials_refused(ps) is None,
        empty_table(slots, AUCTION_BID_XI).shape_ok(),
        ps[0].original_aggregate.auction_vector.len() == auction_len(slots),
    ensures
        unblinded(slots, ps) is Ok,
{
    let agg = ps[0].original_aggregate;
    let rows = auction_shares(ps);
    assert(ps.len() > 0);
    field_round::lemma_sub_all_len(agg.auction_vector, rows);
    let auction = field_round::sub_all(agg.auction_vector, rows);
    let init = rows.drop_last();
    field_round::lemma_sub_all_len(agg.auction_vector, init);
    assert(all_canonical(auction)) by {
        assert forall|i: int| 0 <= i < auction.len() implies #[trigger]
            crate::crypto::fields::canonical(auction[i]) by {
            lemma_sub_all_canonical(agg.auction_vector, rows, i);
        }
    }
    let d = delta_for(slots);
    assert(4 * d * (2 + 4) == 2 * (4 * d) + 4 * d * 4) by (nonlinear_arith);
}

proof fn lemma_sub_all_canonical(dst: Seq<u64>, vs: Seq<Seq<u64>>, i: int)
    requires
        0 <= i < dst.len(),
        crate::crypto::fields::canonical(dst[i]),
    ensures
        crate::crypto::fields::canonical(field_round::sub_all(dst, vs)[i]),
    decreases vs.len(),
{
    if vs.len() > 0 {
        let init = vs.drop_last();
        lemma_sub_all_canonical(dst, init, i);
        field_round::lemma_sub_all_len(dst, init);
        let x = field_round::sub_all(dst, init)[i];
        if i < vs.last().len() {
            crate::crypto::fields::law_add_sub_cancel(x, vs.last()[i]);
        }
    }
}

} // verus!
