//! Laws of the aggregator: nobody counts twice, bad messages change nothing,
//! and good ones all count.

use vstd::arithmetic::div_mod::{lemma_add_mod_noop, lemma_mod_twice, lemma_small_mod};
use vstd::prelude::*;

use crate::crypto::fields::{all_canonical, canonical, vzero};
use crate::crypto::hexadecimal::hex_text;
use crate::primitives::{field_round, xor_round};
use crate::protocol::messages::{
    keys_distinct, law_blank_is_neutral, law_union_members_are_distinct, law_unions_add_up,
    law_unions_are_refused_only_if, lemma_reduced_is_canonical, members_distinct, repeats_first,
    words_reduced, Aggregate, Refusal,
};
use crate::sums::{
    byte_at, lemma_sum_append, lemma_sum_same, lemma_sum_zero, lemma_xor, lemma_xor_sum_append,
    lemma_xor_sum_same, lemma_xor_sum_zero, sum, word_at, xor_sum,
};

use super::aggregator::{
    auctions_of, collected, extended, folded, messages_of, shape_of, sieve_for, signers_of, Shape,
    Sieve, Terms, Verified,
};
use super::auction_len;

verus! {

/// What messages of a round have to meet.
pub open spec fn terms_of(slots: u32, round: i64, authorized: Map<Seq<u8>, bool>) -> Terms {
    Terms { round, authorized, auction_len: auction_len(slots) }
}

/// A message that meets the terms and comes from a signer of its own.
pub open spec fn all_good(vs: Seq<Verified>, terms: Terms) -> bool {
    &&& forall|i: int|
        0 <= i < vs.len() ==> {
            let v = #[trigger] vs[i];
            &&& v.message.round_number == terms.round
            &&& terms.authorized.contains_key(v.signer) && terms.authorized[v.signer]
            &&& v.message.auction_vector.len() == terms.auction_len
            &&& all_canonical(v.message.auction_vector)
            &&& shape_of(v.message) == shape_of(vs[0].message)
        }
    &&& forall|i: int, j: int|
        0 <= i < j < vs.len() ==> (#[trigger] vs[i]).signer != (#[trigger] vs[j]).signer
}

proof fn lemma_all_pass(vs: Seq<Verified>, terms: Terms, n: int)
    requires
        all_good(vs, terms),
        0 <= n <= vs.len(),
    ensures
        ({
            let s = sieve_for(Aggregate::blank()).after_all(vs.take(n), terms);
            &&& s.fresh == vs.take(n)
            &&& s.seen == signers_of(vs.take(n))
            &&& n > 0 ==> s.shape == Some(shape_of(vs[0].message))
            &&& n == 0 ==> s.shape is None
        }),
    decreases n,
{
    let start = sieve_for(Aggregate::blank());
    let head = vs.take(n);
    let s = start.after_all(head, terms);
    if n == 0 {
        assert(s.fresh =~= head);
        assert(s.seen =~= signers_of(head));
    } else {
        lemma_all_pass(vs, terms, n - 1);
        assert(head.drop_last() =~= vs.take(n - 1));
        let before = start.after_all(vs.take(n - 1), terms);
        let v = vs[n - 1];
        assert(!before.seen.contains(v.signer)) by {
            assert forall|k: int| 0 <= k < before.seen.len() implies before.seen[k] != v.signer by {
                assert(vs[k].signer != vs[n - 1].signer);
            }
        }
        assert(before.admits(v, terms));
        assert(s.fresh =~= head);
        assert(s.seen =~= signers_of(head));
    }
}

/// Good messages all count: a batch of them makes an aggregate that holds each
/// of them once, in order.
pub proof fn law_good_messages_all_count(
    slots: u32,
    round: i64,
    vs: Seq<Verified>,
    authorized: Map<Seq<u8>, bool>,
)
    requires
        vs.len() > 0,
        all_good(vs, terms_of(slots, round, authorized)),
    ensures
        extended(slots, round, None, vs, authorized) == Ok::<Aggregate, Refusal>(
            folded(vs, auction_len(slots)),
        ),
        folded(vs, auction_len(slots)).user_pks == signers_of(vs),
{
    let n = auction_len(slots);
    let terms = terms_of(slots, round, authorized);
    lemma_all_pass(vs, terms, vs.len() as int);
    assert(vs.take(vs.len() as int) =~= vs);
    let agg = folded(vs, n);
    assert(members_distinct(agg)) by {
        assert forall|i: int, j: int| 0 <= i < j < agg.user_pks.len() implies #[trigger]
            agg.user_pks[i] != #[trigger] agg.user_pks[j] by {
            assert(vs[i].signer != vs[j].signer);
        }
    }
    let rows = auctions_of(vs);
    assert(field_round::all_of_len(rows, n)) by {
        assert forall|i: int| 0 <= i < rows.len() implies (#[trigger] rows[i]).len() == n by {
            assert(vs[i].message.auction_vector.len() == terms.auction_len);
        }
    }
    field_round::lemma_add_all_len(vzero(n), rows);
    assert(all_canonical(agg.auction_vector)) by {
        assert forall|i: int| 0 <= i < agg.auction_vector.len() implies canonical(
            #[trigger] agg.auction_vector[i],
        ) by {
            field_round::lemma_add_all_at(vzero(n), rows, i);
        }
    }
    law_blank_is_neutral(agg);
    let blank = Aggregate::blank();
    assert(blank.is_blank());
}

/// What the sieve lets through has signers of its own, none of whom was seen
/// before.
proof fn lemma_fresh_signers(start: Sieve, vs: Seq<Verified>, terms: Terms)
    requires
        start.fresh.len() == 0,
    ensures
        ({
            let s = start.after_all(vs, terms);
            &&& s.seen == start.seen + signers_of(s.fresh)
            &&& forall|i: int|
                0 <= i < s.fresh.len() ==> !start.seen.contains((#[trigger] s.fresh[i]).signer)
            &&& forall|i: int, j: int|
                0 <= i < j < s.fresh.len() ==> (#[trigger] s.fresh[i]).signer != (
                #[trigger] s.fresh[j]).signer
            &&& forall|i: int| 0 <= i < s.fresh.len() ==> vs.contains(#[trigger] s.fresh[i])
        }),
    decreases vs.len(),
{
    let s = start.after_all(vs, terms);
    if vs.len() == 0 {
        assert(s.seen =~= start.seen + signers_of(s.fresh));
    } else {
        let init = vs.drop_last();
        lemma_fresh_signers(start, init, terms);
        let before = start.after_all(init, terms);
        let v = vs.last();
        assert(vs[vs.len() - 1] == v);
        assert forall|i: int| 0 <= i < before.fresh.len() implies vs.contains(
            #[trigger] before.fresh[i],
        ) by {
            assert(init.contains(before.fresh[i]));
            let k = choose|k: int| 0 <= k < init.len() && init[k] == before.fresh[i];
            assert(vs[k] == before.fresh[i]);
        }
        if before.admits(v, terms) {
            assert(signers_of(s.fresh) =~= signers_of(before.fresh).push(v.signer));
            assert(s.seen =~= start.seen + signers_of(s.fresh));
            assert forall|i: int| 0 <= i < before.fresh.len() implies (
            #[trigger] before.fresh[i]).signer != v.signer by {
                assert(before.seen[start.seen.len() + i] == before.fresh[i].signer);
            }
            assert(!start.seen.contains(v.signer)) by {
                assert forall|k: int| 0 <= k < start.seen.len() implies start.seen[k]
                    != v.signer by {
                    assert(before.seen[k] == start.seen[k]);
                }
            }
            assert forall|i: int, j: int| 0 <= i < j < s.fresh.len() implies (
            #[trigger] s.fresh[i]).signer != (#[trigger] s.fresh[j]).signer by {
                assert(s.fresh[i] == before.fresh[i]);
                if j < before.fresh.len() {
                    assert(s.fresh[j] == before.fresh[j]);
                }
            }
        }
    }
}

/// An aggregate that messages extended has each member once: those it had, and
/// then signers of the messages.
pub proof fn law_nobody_counts_twice(
    slots: u32,
    round: i64,
    previous: Option<Aggregate>,
    vs: Seq<Verified>,
    authorized: Map<Seq<u8>, bool>,
)
    requires
        extended(slots, round, previous, vs, authorized) is Ok,
    ensures
        ({
            let out = extended(slots, round, previous, vs, authorized)->Ok_0;
            let had = match previous {
                None => Seq::<Seq<u8>>::empty(),
                Some(p) => p.user_pks,
            };
            &&& members_distinct(out)
            &&& had.len() <= out.user_pks.len()
            &&& out.user_pks.take(had.len() as int) == had
            &&& forall|i: int|
                had.len() <= i < out.user_pks.len() ==> exists|j: int|
                    0 <= j < vs.len() && vs[j].signer == #[trigger] out.user_pks[i]
        }),
{
    let terms = terms_of(slots, round, authorized);
    let had = match previous {
        None => Seq::<Seq<u8>>::empty(),
        Some(p) => p.user_pks,
    };
    let base = match previous {
        None => Aggregate::blank(),
        Some(p) => Aggregate::blank().unioned(p)->Ok_0,
    };
    if previous is Some {
        law_union_members_are_distinct(Aggregate::blank(), previous->0);
    }
    assert(base.user_pks =~= had);
    let start = sieve_for(base);
    let fresh = start.after_all(vs, terms).fresh;
    lemma_fresh_signers(start, vs, terms);
    let out = extended(slots, round, previous, vs, authorized)->Ok_0;
    if fresh.len() == 0 {
        assert(out.user_pks.take(had.len() as int) =~= had);
    } else {
        let more = folded(fresh, auction_len(slots));
        law_union_members_are_distinct(base, more);
        assert(out.user_pks.take(had.len() as int) =~= had);
        assert forall|i: int| had.len() <= i < out.user_pks.len() implies exists|j: int|
            0 <= j < vs.len() && vs[j].signer == #[trigger] out.user_pks[i] by {
            let f = fresh[i - had.len()];
            assert(out.user_pks[i] == f.signer);
            assert(vs.contains(f));
            let j = choose|j: int| 0 <= j < vs.len() && vs[j] == f;
            assert(vs[j].signer == out.user_pks[i]);
        }
    }
}

/// A replay changes nothing: messages whose signers are all members already, or
/// that do not meet the terms, leave the aggregate as it was.
pub proof fn law_replays_change_nothing(
    slots: u32,
    round: i64,
    agg: Aggregate,
    vs: Seq<Verified>,
    authorized: Map<Seq<u8>, bool>,
)
    requires
        members_distinct(agg),
        all_canonical(agg.auction_vector),
        forall|i: int|
            0 <= i < vs.len() ==> agg.user_pks.contains((#[trigger] vs[i]).signer)
                || vs[i].message.round_number != round || !authorized.contains_key(vs[i].signer)
                || !authorized[vs[i].signer] || vs[i].message.auction_vector.len() != auction_len(
                slots,
            ) || !all_canonical(vs[i].message.auction_vector),
    ensures
        extended(slots, round, Some(agg), vs, authorized) == Ok::<Aggregate, Refusal>(agg),
{
    law_blank_is_neutral(agg);
    let terms = terms_of(slots, round, authorized);
    let start = sieve_for(agg);
    let fresh = start.after_all(vs, terms).fresh;
    lemma_fresh_signers(start, vs, terms);
    lemma_admitted_meet_terms(start, vs, terms);
    if fresh.len() > 0 {
        let v = fresh[0];
        assert(vs.contains(v));
        let i = choose|i: int| 0 <= i < vs.len() && vs[i] == v;
        assert(vs[i] == v);
        assert(!start.seen.contains(v.signer));
    }
}

/// What the sieve lets through meets the terms.
proof fn lemma_admitted_meet_terms(start: Sieve, vs: Seq<Verified>, terms: Terms)
    requires
        start.fresh.len() == 0,
    ensures
        ({
            let s = start.after_all(vs, terms);
            forall|i: int|
                0 <= i < s.fresh.len() ==> {
                    let v = #[trigger] s.fresh[i];
                    &&& v.message.round_number == terms.round
                    &&& terms.authorized.contains_key(v.signer) && terms.authorized[v.signer]
                    &&& v.message.auction_vector.len() == terms.auction_len
                    &&& all_canonical(v.message.auction_vector)
                }
        }),
    decreases vs.len(),
{
    if vs.len() > 0 {
        let s = start.after_all(vs, terms);
        let before = start.after_all(vs.drop_last(), terms);
        lemma_admitted_meet_terms(start, vs.drop_last(), terms);
        assert forall|i: int| 0 <= i < s.fresh.len() implies {
            let v = #[trigger] s.fresh[i];
            &&& v.message.round_number == terms.round
            &&& terms.authorized.contains_key(v.signer) && terms.authorized[v.signer]
            &&& v.message.auction_vector.len() == terms.auction_len
            &&& all_canonical(v.message.auction_vector)
        } by {
            if i < before.fresh.len() {
                assert(s.fresh[i] == before.fresh[i]);
            }
        }
    }
}

/// The members of aggregates, one list after the other.
pub open spec fn members_of(aggs: Seq<Aggregate>) -> Seq<Seq<u8>>
    decreases aggs.len(),
{
    if aggs.len() == 0 {
        Seq::empty()
    } else {
        members_of(aggs.drop_last()) + aggs.last().user_pks
    }
}

/// Aggregates add up to one that has the members of all of them, each once.
pub proof fn law_collected_members_are_distinct(round: i64, aggs: Seq<Aggregate>)
    requires
        collected(round, aggs) is Ok,
    ensures
        collected(round, aggs)->Ok_0.user_pks == members_of(aggs),
        members_distinct(collected(round, aggs)->Ok_0),
    decreases aggs.len(),
{
    if aggs.len() > 0 {
        law_collected_members_are_distinct(round, aggs.drop_last());
        law_union_members_are_distinct(collected(round, aggs.drop_last())->Ok_0, aggs.last());
    }
}

/// Aggregates that add up give the sum modulo p of all their auction vectors,
/// element by element, and the XOR of all their message vectors, byte by byte.
/// The round is the one asked for, and the servers and the lengths are those of
/// the last aggregate.
pub proof fn law_collected_aggregates_add_up(round: i64, aggs: Seq<Aggregate>)
    requires
        aggs.len() > 0,
        collected(round, aggs) is Ok,
    ensures
        ({
            let all = collected(round, aggs)->Ok_0;
            &&& all.round_number == round
            &&& all.all_server_ids == aggs.last().all_server_ids
            &&& all.auction_vector.len() == aggs.last().auction_vector.len()
            &&& all.message_vector.len() == aggs.last().message_vector.len()
            &&& forall|i: int|
                0 <= i < all.auction_vector.len() ==> #[trigger] all.auction_vector[i] == sum(
                    |j: int| word_at(aggs[j].auction_vector, i),
                    aggs.len() as int,
                ) % 0x1eeed4e13a526bab
            &&& forall|i: int|
                0 <= i < all.message_vector.len() ==> #[trigger] all.message_vector[i] == xor_sum(
                    |j: int| byte_at(aggs[j].message_vector, i),
                    aggs.len() as int,
                )
        }),
    decreases aggs.len(),
{
    let p: int = 0x1eeed4e13a526bab;
    let init = aggs.drop_last();
    let last = aggs.last();
    let before = collected(round, init)->Ok_0;
    let all = collected(round, aggs)->Ok_0;
    let n = aggs.len() - 1;
    law_unions_add_up(before, last);
    if init.len() > 0 {
        law_collected_aggregates_add_up(round, init);
    }
    assert forall|i: int| 0 <= i < all.auction_vector.len() implies #[trigger] all.auction_vector[i]
        == sum(|j: int| word_at(aggs[j].auction_vector, i), aggs.len() as int) % p by {
        let f = |j: int| word_at(aggs[j].auction_vector, i);
        lemma_sum_same(|j: int| word_at(init[j].auction_vector, i), f, n);
        let t = sum(f, n);
        assert(word_at(before.auction_vector, i) == t % p) by {
            if init.len() == 0 {
                lemma_small_mod(0, p as nat);
            } else if i >= before.auction_vector.len() {
                lemma_collected_is_longest(round, init);
                assert forall|j: int| 0 <= j < n implies #[trigger] f(j) == 0 by {
                    assert(init[j] == aggs[j]);
                }
                lemma_sum_same(f, |j: int| 0, n);
                lemma_sum_zero(n);
                lemma_small_mod(0, p as nat);
            }
        }
        lemma_add_mod_noop(t, f(n), p);
        lemma_add_mod_noop(t % p, f(n), p);
        lemma_mod_twice(t, p);
    }
    assert forall|i: int| 0 <= i < all.message_vector.len() implies #[trigger] all.message_vector[i]
        == xor_sum(|j: int| byte_at(aggs[j].message_vector, i), aggs.len() as int) by {
        let f = |j: int| byte_at(aggs[j].message_vector, i);
        lemma_xor_sum_same(|j: int| byte_at(init[j].message_vector, i), f, n);
        if init.len() > 0 && i >= before.message_vector.len() {
            lemma_collected_is_longest(round, init);
            assert forall|j: int| 0 <= j < n implies #[trigger] f(j) == 0 by {
                assert(init[j] == aggs[j]);
            }
            lemma_xor_sum_same(f, |j: int| 0u8, n);
            lemma_xor_sum_zero(n);
        }
    }
}

/// No aggregate is longer than what it adds up to.
proof fn lemma_collected_is_longest(round: i64, aggs: Seq<Aggregate>)
    requires
        collected(round, aggs) is Ok,
    ensures
        forall|j: int|
            0 <= j < aggs.len() ==> (#[trigger] aggs[j]).auction_vector.len() <= collected(
                round,
                aggs,
            )->Ok_0.auction_vector.len() && aggs[j].message_vector.len() <= collected(
                round,
                aggs,
            )->Ok_0.message_vector.len(),
    decreases aggs.len(),
{
    if aggs.len() > 0 {
        let init = aggs.drop_last();
        lemma_collected_is_longest(round, init);
        law_unions_add_up(collected(round, init)->Ok_0, aggs.last());
        assert forall|j: int| 0 <= j < aggs.len() implies (#[trigger] aggs[j]).auction_vector.len()
            <= collected(round, aggs)->Ok_0.auction_vector.len() && aggs[j].message_vector.len()
            <= collected(round, aggs)->Ok_0.message_vector.len() by {
            if j < init.len() {
                assert(init[j] == aggs[j]);
            }
        }
    }
}

/// Aggregates of one round, for the same servers and of the same lengths, add
/// up if their elements are reduced and no member occurs in two of them.
pub proof fn law_matching_aggregates_are_collected(round: i64, aggs: Seq<Aggregate>)
    requires
        forall|j: int|
            0 <= j < aggs.len() ==> {
                &&& (#[trigger] aggs[j]).round_number == round
                &&& aggs[j].all_server_ids == aggs[0].all_server_ids
                &&& aggs[j].auction_vector.len() == aggs[0].auction_vector.len()
                &&& aggs[j].message_vector.len() == aggs[0].message_vector.len()
                &&& words_reduced(aggs[j].auction_vector)
            },
        keys_distinct(members_of(aggs)),
    ensures
        collected(round, aggs) is Ok,
        collected(round, aggs)->Ok_0.user_pks == members_of(aggs),
    decreases aggs.len(),
{
    if aggs.len() > 0 {
        let init = aggs.drop_last();
        let last = aggs.last();
        assert(last == aggs[aggs.len() - 1]);
        assert forall|j: int| 0 <= j < init.len() implies {
            &&& (#[trigger] init[j]).round_number == round
            &&& init[j].all_server_ids == init[0].all_server_ids
            &&& init[j].auction_vector.len() == init[0].auction_vector.len()
            &&& init[j].message_vector.len() == init[0].message_vector.len()
            &&& words_reduced(init[j].auction_vector)
        } by {
            assert(init[j] == aggs[j] && init[0] == aggs[0]);
        }
        let all = members_of(aggs);
        let some = members_of(init);
        assert(keys_distinct(some)) by {
            assert forall|i: int, j: int| 0 <= i < j < some.len() implies #[trigger] some[i]
                != #[trigger] some[j] by {
                assert(all[i] == some[i] && all[j] == some[j]);
            }
        }
        law_matching_aggregates_are_collected(round, init);
        let before = collected(round, init)->Ok_0;
        law_unions_are_refused_only_if(before, last);
        if init.len() > 0 {
            law_collected_aggregates_add_up(round, init);
            assert(init.last() == aggs[init.len() - 1]);
            law_unions_add_up(collected(round, init.drop_last())->Ok_0, init.last());
            law_union_members_are_distinct(
                collected(round, init.drop_last())->Ok_0,
                init.last(),
            );
            lemma_reduced_is_canonical(before.auction_vector);
        }
        law_unions_add_up(before, last);
    }
}

/// An aggregate of another round spoils the batch.
pub proof fn law_aggregates_of_other_rounds_are_refused(
    round: i64,
    aggs: Seq<Aggregate>,
    j: int,
)
    requires
        0 <= j < aggs.len(),
        aggs[j].round_number != round,
    ensures
        collected(round, aggs) is Err,
    decreases aggs.len(),
{
    if j < aggs.len() - 1 {
        assert(aggs.drop_last()[j] == aggs[j]);
        law_aggregates_of_other_rounds_are_refused(round, aggs.drop_last(), j);
    }
}

/// Collecting stops at the first aggregate that is refused: whatever comes after
/// it, the refusal stays.
pub proof fn law_first_refused_aggregate_is_reported(
    round: i64,
    aggs: Seq<Aggregate>,
    more: Seq<Aggregate>,
)
    requires
        collected(round, aggs) is Err,
    ensures
        collected(round, aggs + more) == collected(round, aggs),
    decreases more.len(),
{
    if more.len() == 0 {
        assert(aggs + more =~= aggs);
    } else {
        assert((aggs + more).drop_last() =~= aggs + more.drop_last());
        law_first_refused_aggregate_is_reported(round, aggs, more.drop_last());
    }
}

/// After aggregates that were collected, one of another round is refused for its
/// round, and any other exactly if it does not add up with them.
pub proof fn law_next_aggregate(round: i64, aggs: Seq<Aggregate>, next: Aggregate)
    requires
        collected(round, aggs) is Ok,
    ensures
        next.round_number != round ==> collected(round, aggs.push(next)) == Err::<
            Aggregate,
            Refusal,
        >(Refusal::WrongRound { got: next.round_number, expected: round }),
        next.round_number == round ==> collected(round, aggs.push(next)) == collected(
            round,
            aggs,
        )->Ok_0.unioned(next),
        collected(round, Seq::empty()) == Ok::<Aggregate, Refusal>(Aggregate::blank()),
{
    assert(aggs.push(next).drop_last() =~= aggs);
}

/// Messages added up give the sum modulo p of their auction vectors, element by
/// element, the XOR of their message vectors, byte by byte, and their signers
/// in order.
pub proof fn law_folded_messages_add_up(vs: Seq<Verified>, n: nat)
    requires
        vs.len() > 0,
        forall|j: int|
            0 <= j < vs.len() ==> (#[trigger] vs[j]).message.auction_vector.len() == n
                && vs[j].message.message_vector.len() == vs[0].message.message_vector.len(),
    ensures
        ({
            let all = folded(vs, n);
            &&& all.round_number == vs[0].message.round_number
            &&& all.all_server_ids == vs[0].message.all_server_ids
            &&& all.user_pks.len() == vs.len()
            &&& forall|j: int|
                0 <= j < vs.len() ==> #[trigger] all.user_pks[j] == vs[j].signer
            &&& all.auction_vector.len() == n
            &&& all.message_vector.len() == vs[0].message.message_vector.len()
            &&& forall|i: int|
                0 <= i < n ==> #[trigger] all.auction_vector[i] == sum(
                    |j: int| vs[j].message.auction_vector[i] as int,
                    vs.len() as int,
                ) % 0x1eeed4e13a526bab
            &&& forall|i: int|
                0 <= i < all.message_vector.len() ==> #[trigger] all.message_vector[i] == xor_sum(
                    |j: int| vs[j].message.message_vector[i],
                    vs.len() as int,
                )
        }),
{
    let all = folded(vs, n);
    let rows = auctions_of(vs);
    let texts = messages_of(vs);
    let m = vs[0].message.message_vector.len();
    assert forall|j: int| 0 <= j < rows.len() implies (#[trigger] rows[j]).len() == n by {
        assert(vs[j].message.auction_vector.len() == n);
    }
    assert forall|j: int| 0 <= j < texts.len() implies (#[trigger] texts[j]).len() == m by {
        assert(vs[j].message.message_vector.len() == m);
    }
    field_round::lemma_add_all_len(vzero(n), rows);
    xor_round::lemma_xor_all_len(xor_round::xzero(m), texts);
    assert forall|i: int| 0 <= i < n implies #[trigger] all.auction_vector[i] == sum(
        |j: int| vs[j].message.auction_vector[i] as int,
        vs.len() as int,
    ) % 0x1eeed4e13a526bab by {
        field_round::lemma_add_all_at(vzero(n), rows, i);
        lemma_sum_same(
            |j: int| rows[j][i] as int,
            |j: int| vs[j].message.auction_vector[i] as int,
            vs.len() as int,
        );
    }
    assert forall|i: int| 0 <= i < all.message_vector.len() implies #[trigger] all.message_vector[i]
        == xor_sum(|j: int| vs[j].message.message_vector[i], vs.len() as int) by {
        xor_round::law_vectors_are_xored_in(xor_round::xzero(m), texts, i);
        lemma_xor_sum_same(
            |j: int| texts[j][i],
            |j: int| vs[j].message.message_vector[i],
            vs.len() as int,
        );
        let x = xor_sum(|j: int| vs[j].message.message_vector[i], vs.len() as int);
        lemma_xor(x, 0, 0, 0);
    }
}

/// A batch of good messages may be split: the aggregates of its parts add up to
/// the aggregate of the whole.
pub proof fn law_split_batch_adds_up(
    slots: u32,
    round: i64,
    a: Seq<Verified>,
    b: Seq<Verified>,
    authorized: Map<Seq<u8>, bool>,
)
    requires
        a.len() > 0,
        b.len() > 0,
        all_good(a + b, terms_of(slots, round, authorized)),
    ensures
        extended(slots, round, None, a, authorized) is Ok,
        extended(slots, round, None, b, authorized) is Ok,
        collected(
            round,
            seq![
                extended(slots, round, None, a, authorized)->Ok_0,
                extended(slots, round, None, b, authorized)->Ok_0,
            ],
        ) == extended(slots, round, None, a + b, authorized),
{
    let p: int = 0x1eeed4e13a526bab;
    let n = auction_len(slots);
    let terms = terms_of(slots, round, authorized);
    let vs = a + b;
    let k = a.len() as int;
    lemma_part_is_good(vs, terms, 0, k);
    lemma_part_is_good(vs, terms, k, vs.len() as int);
    assert(vs.subrange(0, k) =~= a);
    assert(vs.subrange(k, vs.len() as int) =~= b);
    law_good_messages_all_count(slots, round, a, authorized);
    law_good_messages_all_count(slots, round, b, authorized);
    law_good_messages_all_count(slots, round, vs, authorized);
    lemma_good_add_up(a, terms);
    lemma_good_add_up(b, terms);
    lemma_good_add_up(vs, terms);
    let fa = folded(a, n);
    let fb = folded(b, n);
    let whole = folded(vs, n);
    let both = seq![fa, fb];
    assert(vs[0] == a[0] && vs[k] == b[0]);
    assert(shape_of(vs[k].message) == shape_of(vs[0].message));
    assert(both.drop_last() =~= seq![fa]);
    assert(both.drop_last().drop_last() =~= Seq::empty());
    assert(members_of(seq![fa].drop_last()) =~= Seq::empty());
    assert(seq![fa].drop_last() =~= Seq::empty());
    assert(members_of(both) =~= whole.user_pks) by {
        assert(members_of(both.drop_last()) =~= fa.user_pks);
    }
    assert(keys_distinct(members_of(both))) by {
        assert forall|i: int, j: int| 0 <= i < j < whole.user_pks.len() implies #[trigger]
            whole.user_pks[i] != #[trigger] whole.user_pks[j] by {
            assert(vs[i].signer != vs[j].signer);
        }
    }
    law_matching_aggregates_are_collected(round, both);
    law_collected_aggregates_add_up(round, both);
    let out = collected(round, both)->Ok_0;
    assert forall|i: int| 0 <= i < n implies out.auction_vector[i] == whole.auction_vector[i] by {
        let g = |v: Verified| v.message.auction_vector[i] as int;
        let x = sum(|j: int| g(a[j]), a.len() as int);
        let y = sum(|j: int| g(b[j]), b.len() as int);
        lemma_sum_append(g, a, b);
        lemma_sum_same(
            |j: int| a[j].message.auction_vector[i] as int,
            |j: int| g(a[j]),
            a.len() as int,
        );
        lemma_sum_same(
            |j: int| b[j].message.auction_vector[i] as int,
            |j: int| g(b[j]),
            b.len() as int,
        );
        lemma_sum_same(
            |j: int| vs[j].message.auction_vector[i] as int,
            |j: int| g(vs[j]),
            vs.len() as int,
        );
        let f = |j: int| word_at(both[j].auction_vector, i);
        assert(sum(f, 2) == f(0) + f(1)) by {
            assert(sum(f, 0) == 0);
            assert(sum(f, 1) == sum(f, 0) + f(0));
        }
        lemma_add_mod_noop(x, y, p);
        assert(fa.auction_vector[i] == x % p);
        assert(fb.auction_vector[i] == y % p);
        assert(whole.auction_vector[i] == (x + y) % p);
    }
    assert forall|i: int| 0 <= i < out.message_vector.len() implies out.message_vector[i]
        == whole.message_vector[i] by {
        let g = |v: Verified| v.message.message_vector[i];
        lemma_xor_sum_append(g, a, b);
        lemma_xor_sum_same(
            |j: int| a[j].message.message_vector[i],
            |j: int| g(a[j]),
            a.len() as int,
        );
        lemma_xor_sum_same(
            |j: int| b[j].message.message_vector[i],
            |j: int| g(b[j]),
            b.len() as int,
        );
        lemma_xor_sum_same(
            |j: int| vs[j].message.message_vector[i],
            |j: int| g(vs[j]),
            vs.len() as int,
        );
        let f = |j: int| byte_at(both[j].message_vector, i);
        assert(xor_sum(f, 2) == (0u8 ^ f(0)) ^ f(1)) by {
            assert(xor_sum(f, 0) == 0);
            assert(xor_sum(f, 1) == xor_sum(f, 0) ^ f(0));
        }
        lemma_xor(0, f(0), 0, 0);
        lemma_xor(f(0), 0, 0, 0);
        assert(fa.message_vector[i] == xor_sum(|j: int| g(a[j]), a.len() as int));
        assert(fb.message_vector[i] == xor_sum(|j: int| g(b[j]), b.len() as int));
    }
    assert(out.auction_vector =~= whole.auction_vector);
    assert(out.message_vector =~= whole.message_vector);
    assert(out =~= whole);
}

/// A part of a good batch is a good batch.
proof fn lemma_part_is_good(vs: Seq<Verified>, terms: Terms, from: int, to: int)
    requires
        all_good(vs, terms),
        0 <= from < to <= vs.len(),
    ensures
        all_good(vs.subrange(from, to), terms),
{
    let part = vs.subrange(from, to);
    assert(vs[from] == part[0]);
    assert forall|i: int| 0 <= i < part.len() implies {
        let v = #[trigger] part[i];
        &&& v.message.round_number == terms.round
        &&& terms.authorized.contains_key(v.signer) && terms.authorized[v.signer]
        &&& v.message.auction_vector.len() == terms.auction_len
        &&& all_canonical(v.message.auction_vector)
        &&& shape_of(v.message) == shape_of(part[0].message)
    } by {
        assert(part[i] == vs[from + i]);
        assert(shape_of(vs[from].message) == shape_of(vs[0].message));
    }
    assert forall|i: int, j: int| 0 <= i < j < part.len() implies (#[trigger] part[i]).signer != (
    #[trigger] part[j]).signer by {
        assert(part[i] == vs[from + i] && part[j] == vs[from + j]);
    }
}

/// What a good batch adds up to.
proof fn lemma_good_add_up(vs: Seq<Verified>, terms: Terms)
    requires
        vs.len() > 0,
        all_good(vs, terms),
    ensures
        ({
            let all = folded(vs, terms.auction_len);
            &&& all.round_number == terms.round
            &&& all.all_server_ids == vs[0].message.all_server_ids
            &&& all.user_pks == signers_of(vs)
            &&& all.auction_vector.len() == terms.auction_len
            &&& all.message_vector.len() == vs[0].message.message_vector.len()
            &&& words_reduced(all.auction_vector)
            &&& forall|i: int|
                0 <= i < terms.auction_len ==> #[trigger] all.auction_vector[i] == sum(
                    |j: int| vs[j].message.auction_vector[i] as int,
                    vs.len() as int,
                ) % 0x1eeed4e13a526bab
            &&& forall|i: int|
                0 <= i < all.message_vector.len() ==> #[trigger] all.message_vector[i] == xor_sum(
                    |j: int| vs[j].message.message_vector[i],
                    vs.len() as int,
                )
        }),
{
    assert forall|j: int| 0 <= j < vs.len() implies (
    #[trigger] vs[j]).message.auction_vector.len() == terms.auction_len
        && vs[j].message.message_vector.len() == vs[0].message.message_vector.len() by {
        assert(shape_of(vs[j].message) == shape_of(vs[0].message));
    }
    law_folded_messages_add_up(vs, terms.auction_len);
}

/// The message is for the round, by an authorized signer, and its auction vector
/// has the right length and reduced elements.
pub open spec fn is_due(
    v: Verified,
    slots: u32,
    round: i64,
    authorized: Map<Seq<u8>, bool>,
) -> bool {
    &&& v.message.round_number == round
    &&& authorized.contains_key(v.signer)
    &&& authorized[v.signer]
    &&& v.message.auction_vector.len() == auction_len(slots)
    &&& words_reduced(v.message.auction_vector)
}

/// Message `j` is passed over for a reason: it is not due, its signer counts
/// already, or its servers or its length are not those of the messages that
/// count.
pub open spec fn passed_over(
    had: Aggregate,
    vs: Seq<Verified>,
    out: Aggregate,
    due: bool,
    at: Seq<int>,
    j: int,
) -> bool {
    ||| !due
    ||| had.user_pks.contains(vs[j].signer)
    ||| exists|k: int|
        0 <= k < at.len() && #[trigger] at[k] < j && vs[at[k]].signer == vs[j].signer
    ||| {
        &&& had.auction_vector.len() > 0 || (at.len() > 0 && at[0] < j)
        &&& vs[j].message.all_server_ids != out.all_server_ids
            || vs[j].message.message_vector.len() != out.message_vector.len()
    }
}

/// The aggregate that messages extend; the blank one to begin with.
pub open spec fn held_before(previous: Option<Aggregate>) -> Aggregate {
    match previous {
        None => Aggregate::blank(),
        Some(agg) => agg,
    }
}

/// `out` is `had` with the messages at the ascending positions `at` counted in,
/// each of them once, and no other message should count.
pub open spec fn counted(
    slots: u32,
    round: i64,
    authorized: Map<Seq<u8>, bool>,
    had: Aggregate,
    vs: Seq<Verified>,
    out: Aggregate,
    at: Seq<int>,
) -> bool {
    &&& forall|k: int, l: int| 0 <= k < l < at.len() ==> #[trigger] at[k] < #[trigger] at[l]
    &&& forall|k: int|
        0 <= k < at.len() ==> {
            &&& 0 <= #[trigger] at[k] < vs.len()
            &&& is_due(vs[at[k]], slots, round, authorized)
            &&& vs[at[k]].message.all_server_ids == out.all_server_ids
            &&& vs[at[k]].message.message_vector.len() == out.message_vector.len()
        }
    &&& forall|j: int|
        0 <= j < vs.len() && !at.contains(j) ==> #[trigger] passed_over(
            had,
            vs,
            out,
            is_due(vs[j], slots, round, authorized),
            at,
            j,
        )
    &&& out.user_pks == had.user_pks + at.map_values(|k: int| vs[k].signer)
    &&& keys_distinct(out.user_pks)
    &&& at.len() == 0 ==> out == had
    &&& at.len() > 0 ==> out.round_number == round
    &&& forall|i: int|
        0 <= i < out.auction_vector.len() ==> #[trigger] out.auction_vector[i] == (word_at(
            had.auction_vector,
            i,
        ) + sum(|k: int| word_at(vs[at[k]].message.auction_vector, i), at.len() as int))
            % 0x1eeed4e13a526bab
    &&& forall|i: int|
        0 <= i < out.message_vector.len() ==> #[trigger] out.message_vector[i] == byte_at(
            had.message_vector,
            i,
        ) ^ xor_sum(|k: int| byte_at(vs[at[k]].message.message_vector, i), at.len() as int)
}

/// Where the messages stand that the sieve lets through, and why it holds the
/// others back.
proof fn lemma_let_through(start: Sieve, vs: Seq<Verified>, terms: Terms, n: int) -> (at: Seq<int>)
    requires
        start.fresh.len() == 0,
        0 <= n <= vs.len(),
    ensures
        ({
            let s = start.after_all(vs.take(n), terms);
            &&& at.len() == s.fresh.len()
            &&& forall|k: int, l: int|
                0 <= k < l < at.len() ==> #[trigger] at[k] < #[trigger] at[l]
            &&& forall|k: int|
                0 <= k < at.len() ==> {
                    &&& 0 <= #[trigger] at[k] < n
                    &&& s.fresh[k] == vs[at[k]]
                    &&& s.shape == Some(shape_of(vs[at[k]].message))
                }
            &&& s.seen == start.seen + signers_of(s.fresh)
            &&& start.shape is Some ==> s.shape == start.shape
            &&& start.shape is None && at.len() == 0 ==> s.shape is None
            &&& forall|j: int|
                0 <= j < n && !at.contains(j) ==> #[trigger] held_back(start, vs, terms, s, at, j)
        }),
    decreases n,
{
    let s = start.after_all(vs.take(n), terms);
    if n == 0 {
        assert(s.seen =~= start.seen + signers_of(s.fresh));
        Seq::empty()
    } else {
        let before = start.after_all(vs.take(n - 1), terms);
        let was = lemma_let_through(start, vs, terms, n - 1);
        assert(vs.take(n).drop_last() =~= vs.take(n - 1));
        let v = vs[n - 1];
        assert(vs.take(n).last() == v);
        if before.admits(v, terms) {
            let at = was.push(n - 1);
            assert(signers_of(s.fresh) =~= signers_of(before.fresh).push(v.signer));
            assert(s.seen =~= start.seen + signers_of(s.fresh));
            assert forall|k: int| 0 <= k < at.len() implies {
                &&& 0 <= #[trigger] at[k] < n
                &&& s.fresh[k] == vs[at[k]]
                &&& s.shape == Some(shape_of(vs[at[k]].message))
            } by {
                if k < was.len() {
                    assert(at[k] == was[k]);
                    assert(before.shape == Some(shape_of(vs[was[k]].message)));
                }
            }
            assert forall|j: int| 0 <= j < n && !at.contains(j) implies #[trigger] held_back(
                start,
                vs,
                terms,
                s,
                at,
                j,
            ) by {
                assert(at[was.len() as int] == n - 1);
                assert(j < n - 1);
                if was.contains(j) {
                    let k = choose|k: int| 0 <= k < was.len() && was[k] == j;
                    assert(at[k] == j);
                }
                assert(held_back(start, vs, terms, before, was, j));
                if exists|k: int|
                    0 <= k < was.len() && #[trigger] was[k] < j && vs[was[k]].signer
                        == vs[j].signer {
                    let k = choose|k: int|
                        0 <= k < was.len() && #[trigger] was[k] < j && vs[was[k]].signer
                            == vs[j].signer;
                    assert(at[k] < j);
                }
                if was.len() > 0 {
                    assert(at[0] == was[0]);
                    assert(before.shape == Some(shape_of(vs[was[0]].message)));
                }
            }
            at
        } else {
            assert forall|j: int| 0 <= j < n && !was.contains(j) implies #[trigger] held_back(
                start,
                vs,
                terms,
                s,
                was,
                j,
            ) by {
                if j < n - 1 {
                    assert(held_back(start, vs, terms, before, was, j));
                } else {
                    if before.seen.contains(v.signer) && !start.seen.contains(v.signer) {
                        let i = choose|i: int| 0 <= i < before.seen.len() && before.seen[i]
                            == v.signer;
                        if i < start.seen.len() {
                            assert(start.seen[i] == v.signer);
                        }
                        let k = i - start.seen.len();
                        assert(before.fresh[k].signer == v.signer);
                        assert(was[k] < j);
                    }
                    if before.shape is Some && start.shape is None {
                        assert(was[0] < j);
                    }
                }
            }
            was
        }
    }
}

/// Why the sieve holds message `j` back.
spec fn held_back(
    start: Sieve,
    vs: Seq<Verified>,
    terms: Terms,
    s: Sieve,
    at: Seq<int>,
    j: int,
) -> bool {
    let v = vs[j];
    ||| v.message.round_number != terms.round
    ||| !terms.authorized.contains_key(v.signer)
    ||| !terms.authorized[v.signer]
    ||| v.message.auction_vector.len() != terms.auction_len
    ||| !all_canonical(v.message.auction_vector)
    ||| start.seen.contains(v.signer)
    ||| exists|k: int| 0 <= k < at.len() && #[trigger] at[k] < j && vs[at[k]].signer == v.signer
    ||| {
        &&& start.shape is Some || (at.len() > 0 && at[0] < j)
        &&& s.shape != Some(shape_of(v.message))
    }
}

/// An aggregate that messages extended holds what it held before and exactly the
/// messages that should count, each once, added up modulo p and by XOR.
pub proof fn law_exactly_the_due_messages_count(
    slots: u32,
    round: i64,
    previous: Option<Aggregate>,
    vs: Seq<Verified>,
    authorized: Map<Seq<u8>, bool>,
)
    requires
        extended(slots, round, previous, vs, authorized) is Ok,
    ensures
        exists|at: Seq<int>| #[trigger]
            counted(
                slots,
                round,
                authorized,
                held_before(previous),
                vs,
                extended(slots, round, previous, vs, authorized)->Ok_0,
                at,
            ),
{
    let n = auction_len(slots);
    let p: int = 0x1eeed4e13a526bab;
    let terms = terms_of(slots, round, authorized);
    let out = extended(slots, round, previous, vs, authorized)->Ok_0;
    let blank = Aggregate::blank();
    let had = held_before(previous);
    assert(match previous {
        None => true,
        Some(q) => blank.unioned(q) == Ok::<Aggregate, Refusal>(q) && words_reduced(
            q.auction_vector,
        ) && keys_distinct(q.user_pks),
    }) by {
        if previous is Some {
            law_unions_are_refused_only_if(blank, previous->0);
            assert(blank.user_pks + previous->0.user_pks =~= previous->0.user_pks);
        }
    }
    let start = sieve_for(had);
    let s = start.after_all(vs, terms);
    assert(vs.take(vs.len() as int) =~= vs);
    let at = lemma_let_through(start, vs, terms, vs.len() as int);
    lemma_admitted_meet_terms(start, vs, terms);
    law_nobody_counts_twice(slots, round, previous, vs, authorized);
    lemma_auction_vectors_are_not_empty(slots);
    let fresh = s.fresh;
    assert(fresh.len() == at.len());
    let names = at.map_values(|k: int| vs[k].signer);
    if at.len() == 0 {
        assert(names =~= Seq::empty());
        assert(out == had);
        assert(out.user_pks =~= had.user_pks + names);
    } else {
        let more = folded(fresh, n);
        assert forall|k: int| 0 <= k < fresh.len() implies (
        #[trigger] fresh[k]).message.auction_vector.len() == n
            && fresh[k].message.message_vector.len()
            == fresh[0].message.message_vector.len() by {
            assert(fresh[k] == vs[at[k]] && fresh[0] == vs[at[0]]);
        }
        law_folded_messages_add_up(fresh, n);
        law_unions_add_up(had, more);
        assert(names =~= more.user_pks) by {
            assert forall|k: int| 0 <= k < names.len() implies names[k] == more.user_pks[k] by {
                assert(fresh[k] == vs[at[k]]);
            }
        }
        assert(fresh[0] == vs[at[0]]);
    }
    assert(keys_distinct(out.user_pks)) by {
        assert(members_distinct(out));
    }
    assert forall|k: int| 0 <= k < at.len() implies {
        &&& 0 <= #[trigger] at[k] < vs.len()
        &&& is_due(vs[at[k]], slots, round, authorized)
        &&& vs[at[k]].message.all_server_ids == out.all_server_ids
        &&& vs[at[k]].message.message_vector.len() == out.message_vector.len()
    } by {
        assert(fresh[k] == vs[at[k]] && fresh[0] == vs[at[0]]);
        lemma_reduced_is_canonical(vs[at[k]].message.auction_vector);
        assert(shape_of(vs[at[k]].message) == shape_of(vs[at[0]].message));
    }
    assert forall|j: int| 0 <= j < vs.len() && !at.contains(j) implies #[trigger] passed_over(
        had,
        vs,
        out,
        is_due(vs[j], slots, round, authorized),
        at,
        j,
    ) by {
        assert(held_back(start, vs, terms, s, at, j));
        lemma_reduced_is_canonical(vs[j].message.auction_vector);
        if at.len() > 0 {
            assert(s.shape == Some(shape_of(vs[at[0]].message)));
            assert(fresh[0] == vs[at[0]]);
        }
        if s.shape is Some && s.shape->0 != shape_of(vs[j].message) {
            assert(s.shape->0 =~= Shape {
                server_ids: out.all_server_ids,
                message_len: out.message_vector.len(),
            });
            if vs[j].message.all_server_ids == out.all_server_ids
                && vs[j].message.message_vector.len() == out.message_vector.len() {
                assert(shape_of(vs[j].message) =~= s.shape->0);
            }
        }
    }
    assert forall|i: int| 0 <= i < out.auction_vector.len() implies #[trigger] out.auction_vector[i]
        == (word_at(had.auction_vector, i) + sum(
        |k: int| word_at(vs[at[k]].message.auction_vector, i),
        at.len() as int,
    )) % p by {
        let f = |k: int| word_at(vs[at[k]].message.auction_vector, i);
        if at.len() == 0 {
            lemma_small_mod(had.auction_vector[i] as nat, p as nat);
        } else {
            let g = |k: int| fresh[k].message.auction_vector[i] as int;
            assert forall|k: int| 0 <= k < at.len() implies #[trigger] g(k) == f(k) by {
                assert(fresh[k] == vs[at[k]]);
            }
            lemma_sum_same(g, f, at.len() as int);
            let more = folded(fresh, n);
            let t = sum(f, at.len() as int);
            let h = word_at(had.auction_vector, i);
            assert(more.auction_vector[i] == t % p);
            lemma_add_mod_noop(h, t, p);
            lemma_add_mod_noop(h, t % p, p);
            lemma_mod_twice(t, p);
        }
    }
    assert forall|i: int| 0 <= i < out.message_vector.len() implies #[trigger] out.message_vector[i]
        == byte_at(had.message_vector, i) ^ xor_sum(
        |k: int| byte_at(vs[at[k]].message.message_vector, i),
        at.len() as int,
    ) by {
        let f = |k: int| byte_at(vs[at[k]].message.message_vector, i);
        if at.len() == 0 {
            lemma_xor(had.message_vector[i], 0, 0, 0);
        } else {
            let g = |k: int| fresh[k].message.message_vector[i];
            assert forall|k: int| 0 <= k < at.len() implies #[trigger] g(k) == f(k) by {
                assert(fresh[k] == vs[at[k]]);
            }
            lemma_xor_sum_same(g, f, at.len() as int);
        }
    }
    assert(counted(slots, round, authorized, had, vs, out, at));
}

/// A batch is never refused for its messages: it extends nothing, and it extends
/// any aggregate of the round whose auction vector has the right length and
/// reduced elements and whose members are distinct.
pub proof fn law_batches_are_accepted(
    slots: u32,
    round: i64,
    agg: Aggregate,
    vs: Seq<Verified>,
    authorized: Map<Seq<u8>, bool>,
)
    requires
        agg.round_number == round,
        agg.auction_vector.len() == auction_len(slots),
        words_reduced(agg.auction_vector),
        keys_distinct(agg.user_pks),
    ensures
        extended(slots, round, None, vs, authorized) is Ok,
        extended(slots, round, Some(agg), vs, authorized) is Ok,
{
    let blank = Aggregate::blank();
    assert(blank.user_pks + agg.user_pks =~= agg.user_pks);
    law_unions_are_refused_only_if(blank, agg);
    lemma_accepted(slots, round, None, blank, vs, authorized);
    lemma_accepted(slots, round, Some(agg), agg, vs, authorized);
}

/// A batch that extends an aggregate is refused only for the aggregate: because a
/// member of it occurs twice, because an element is not reduced or, if a message
/// is due, because its round or the length of its auction vector is another.
pub proof fn law_batches_are_refused_for_the_aggregate(
    slots: u32,
    round: i64,
    agg: Aggregate,
    vs: Seq<Verified>,
    authorized: Map<Seq<u8>, bool>,
)
    ensures
        ({
            let r = extended(slots, round, Some(agg), vs, authorized);
            let distinct = keys_distinct(agg.user_pks);
            let reduced = words_reduced(agg.auction_vector);
            let blank = agg.all_server_ids.len() == 0 && agg.auction_vector.len() == 0
                && agg.message_vector.len() == 0 && agg.user_pks.len() == 0;
            &&& !distinct ==> exists|j: int| #[trigger]
                repeats_first(agg.user_pks, j) && r == Err::<Aggregate, Refusal>(
                    Refusal::DuplicateSubmission(hex_text(agg.user_pks[j])),
                )
            &&& distinct && !reduced ==> r == Err::<Aggregate, Refusal>(
                Refusal::NonCanonicalFieldElement,
            )
            &&& distinct && reduced && blank ==> r is Ok
            &&& distinct && reduced && !blank && agg.round_number != round ==> r == Ok::<
                Aggregate,
                Refusal,
            >(agg) || r == Err::<Aggregate, Refusal>(Refusal::MismatchingRounds)
            &&& distinct && reduced && agg.auction_vector.len() > 0 && agg.round_number == round
                && agg.auction_vector.len() != auction_len(slots) ==> r == Ok::<
                Aggregate,
                Refusal,
            >(agg) || r == Err::<Aggregate, Refusal>(Refusal::MismatchingVectorLengths)
        }),
{
    let blank = Aggregate::blank();
    assert(blank.user_pks + agg.user_pks =~= agg.user_pks);
    law_unions_are_refused_only_if(blank, agg);
    if keys_distinct(agg.user_pks) && words_reduced(agg.auction_vector) {
        let n = auction_len(slots);
        let terms = terms_of(slots, round, authorized);
        let start = sieve_for(agg);
        let fresh = start.after_all(vs, terms).fresh;
        assert(vs.take(vs.len() as int) =~= vs);
        let at = lemma_let_through(start, vs, terms, vs.len() as int);
        lemma_admitted_meet_terms(start, vs, terms);
        lemma_fresh_signers(start, vs, terms);
        if fresh.len() > 0 {
            let more = folded(fresh, n);
            assert forall|k: int| 0 <= k < fresh.len() implies (
            #[trigger] fresh[k]).message.auction_vector.len() == n
                && fresh[k].message.message_vector.len()
                == fresh[0].message.message_vector.len() by {
                assert(fresh[k] == vs[at[k]] && fresh[0] == vs[at[0]]);
            }
            law_folded_messages_add_up(fresh, n);
            assert(fresh[0] == vs[at[0]]);
            lemma_fresh_members_differ(agg, fresh);
            law_unions_are_refused_only_if(agg, more);
        }
    }
}

/// Members and new signers are distinct together.
proof fn lemma_fresh_members_differ(agg: Aggregate, fresh: Seq<Verified>)
    requires
        keys_distinct(agg.user_pks),
        forall|i: int|
            0 <= i < fresh.len() ==> !agg.user_pks.contains((#[trigger] fresh[i]).signer),
        forall|i: int, j: int|
            0 <= i < j < fresh.len() ==> (#[trigger] fresh[i]).signer != (
            #[trigger] fresh[j]).signer,
    ensures
        keys_distinct(agg.user_pks + signers_of(fresh)),
{
    let all = agg.user_pks + signers_of(fresh);
    let m = agg.user_pks.len() as int;
    assert forall|i: int, j: int| 0 <= i < j < all.len() implies #[trigger] all[i]
        != #[trigger] all[j] by {
        if j < m {
            assert(agg.user_pks[i] != agg.user_pks[j]);
        } else if i < m {
            assert(all[j] == fresh[j - m].signer);
            assert(agg.user_pks[i] == all[i]);
        } else {
            assert(fresh[i - m].signer != fresh[j - m].signer);
        }
    }
}

proof fn lemma_accepted(
    slots: u32,
    round: i64,
    previous: Option<Aggregate>,
    agg: Aggregate,
    vs: Seq<Verified>,
    authorized: Map<Seq<u8>, bool>,
)
    requires
        previous is None ==> agg == Aggregate::blank(),
        previous is Some ==> previous->0 == agg && Aggregate::blank().unioned(agg) == Ok::<
            Aggregate,
            Refusal,
        >(agg) && agg.round_number == round && agg.auction_vector.len() == auction_len(slots),
        words_reduced(agg.auction_vector),
        keys_distinct(agg.user_pks),
    ensures
        extended(slots, round, previous, vs, authorized) is Ok,
{
    let n = auction_len(slots);
    let terms = terms_of(slots, round, authorized);
    let start = sieve_for(agg);
    let s = start.after_all(vs, terms);
    let fresh = s.fresh;
    assert(vs.take(vs.len() as int) =~= vs);
    let at = lemma_let_through(start, vs, terms, vs.len() as int);
    lemma_admitted_meet_terms(start, vs, terms);
    lemma_fresh_signers(start, vs, terms);
    lemma_auction_vectors_are_not_empty(slots);
    if fresh.len() > 0 {
        let more = folded(fresh, n);
        assert forall|k: int| 0 <= k < fresh.len() implies (
        #[trigger] fresh[k]).message.auction_vector.len() == n
            && fresh[k].message.message_vector.len()
            == fresh[0].message.message_vector.len() by {
            assert(fresh[k] == vs[at[k]] && fresh[0] == vs[at[0]]);
        }
        law_folded_messages_add_up(fresh, n);
        assert(fresh[0] == vs[at[0]]);
        lemma_fresh_members_differ(agg, fresh);
        law_unions_are_refused_only_if(agg, more);
    }
}

/// What the sieve let through once, or kept back once, it keeps back from then
/// on.
proof fn lemma_sieve_settles(start: Sieve, vs: Seq<Verified>, terms: Terms, n: int)
    requires
        start.fresh.len() == 0,
        0 <= n <= vs.len(),
    ensures
        ({
            let s = start.after_all(vs.take(n), terms);
            &&& forall|i: int| 0 <= i < n ==> !s.admits(#[trigger] vs[i], terms)
            &&& start.shape is Some ==> s.shape == start.shape
            &&& s.fresh.len() == 0 ==> s == start
            &&& forall|i: int|
                0 <= i < s.fresh.len() ==> s.shape == Some(shape_of((#[trigger] s.fresh[i]).message))
        }),
    decreases n,
{
    let s = start.after_all(vs.take(n), terms);
    if n == 0 {
        assert(s == start);
    } else {
        lemma_sieve_settles(start, vs, terms, n - 1);
        assert(vs.take(n).drop_last() =~= vs.take(n - 1));
        let before = start.after_all(vs.take(n - 1), terms);
        let v = vs[n - 1];
        assert(vs.take(n).last() == v);
        if before.admits(v, terms) {
            assert(s.seen[s.seen.len() - 1] == v.signer);
            assert forall|i: int| 0 <= i < n implies !s.admits(#[trigger] vs[i], terms) by {
                if i < n - 1 {
                    let u = vs[i];
                    assert(!before.admits(u, terms));
                    if before.seen.contains(u.signer) {
                        let k = choose|k: int| 0 <= k < before.seen.len() && before.seen[k]
                            == u.signer;
                        assert(s.seen[k] == u.signer);
                    }
                    if before.shape is Some {
                        assert(s.shape == before.shape);
                    }
                }
            }
            assert forall|i: int| 0 <= i < s.fresh.len() implies s.shape == Some(
                shape_of((#[trigger] s.fresh[i]).message),
            ) by {
                if i < before.fresh.len() {
                    assert(s.fresh[i] == before.fresh[i]);
                    assert(before.shape == Some(shape_of(before.fresh[i].message)));
                }
            }
        }
    }
}

proof fn lemma_none_pass(start: Sieve, vs: Seq<Verified>, terms: Terms)
    requires
        forall|i: int| 0 <= i < vs.len() ==> !start.admits(#[trigger] vs[i], terms),
    ensures
        start.after_all(vs, terms) == start,
    decreases vs.len(),
{
    if vs.len() > 0 {
        let init = vs.drop_last();
        assert forall|i: int| 0 <= i < init.len() implies !start.admits(
            #[trigger] init[i],
            terms,
        ) by {
            assert(init[i] == vs[i]);
        }
        lemma_none_pass(start, init, terms);
        assert(vs.last() == vs[vs.len() - 1]);
    }
}

/// Sending a batch again changes nothing.
pub proof fn law_resent_batch_changes_nothing(
    slots: u32,
    round: i64,
    previous: Option<Aggregate>,
    vs: Seq<Verified>,
    authorized: Map<Seq<u8>, bool>,
)
    requires
        extended(slots, round, previous, vs, authorized) is Ok,
    ensures
        extended(
            slots,
            round,
            Some(extended(slots, round, previous, vs, authorized)->Ok_0),
            vs,
            authorized,
        ) == extended(slots, round, previous, vs, authorized),
{
    let terms = terms_of(slots, round, authorized);
    let n = auction_len(slots);
    let blank = Aggregate::blank();
    let base = match previous {
        None => blank,
        Some(p) => blank.unioned(p)->Ok_0,
    };
    let out = extended(slots, round, previous, vs, authorized)->Ok_0;
    let start = sieve_for(base);
    let s = start.after_all(vs, terms);
    lemma_sieve_settles(start, vs, terms, vs.len() as int);
    assert(vs.take(vs.len() as int) =~= vs);
    lemma_fresh_signers(start, vs, terms);
    law_nobody_counts_twice(slots, round, previous, vs, authorized);
    if previous is Some {
        law_union_members_are_distinct(blank, previous->0);
    }
    if s.fresh.len() > 0 {
        let more = folded(s.fresh, n);
        law_union_members_are_distinct(base, more);
        field_round::lemma_add_all_len(vzero(n), auctions_of(s.fresh));
        xor_round::lemma_xor_all_len(
            xor_round::xzero(s.fresh[0].message.message_vector.len()),
            messages_of(s.fresh),
        );
        assert(n > 0) by {
            lemma_auction_vectors_are_not_empty(slots);
        }
        assert(s.shape == Some(shape_of(s.fresh[0].message)));
    }
    law_blank_is_neutral(out);
    let again = sieve_for(out);
    assert(again.seen =~= s.seen);
    assert(again.shape == s.shape);
    assert forall|i: int| 0 <= i < vs.len() implies !again.admits(#[trigger] vs[i], terms) by {
        assert(!s.admits(vs[i], terms));
    }
    lemma_none_pass(again, vs, terms);
}

/// An auction vector has elements.
proof fn lemma_auction_vectors_are_not_empty(slots: u32)
    ensures
        auction_len(slots) > 0,
{
    let d = crate::auction::iblt::delta_for(slots);
    assert(4 * d * (2 + 4) > 0) by (nonlinear_arith)
        requires
            d >= 1,
    ;
}

} // verus!
