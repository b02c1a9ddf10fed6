//! Aggregator side: verification and union of client messages.

use vstd::prelude::*;

use crate::auction::auction::AUCTION_BID_XI;
use crate::auction::iblt::iblt_field_element_count;
use crate::bytes::to_vec;
use crate::collections::KeyMap;
use crate::crypto::blinding::{xor_inplace, zero_vec};
use crate::crypto::fields::{add_mod_slice, all_canonical, is_all_canonical, vzero, zeros};
use crate::crypto::types::{PublicKey, ServerId};
use crate::primitives::{field_round, xor_round};
use crate::protocol::config::AdcNetConfig;
use crate::protocol::messages::{
    clone_keys, ids_equal, key_among, outcome, Aggregate, AggregatedClientMessages,
    ClientRoundMessage, ProtocolError, Refusal, Signed, Submission,
};
use crate::sorting::views;

use super::auction_len;

verus! {

pub struct AggregatorMessager<'a> {
    pub config: &'a AdcNetConfig,
}

/// Pre-verified client message — sig already checked, signer extracted.
#[derive(Debug)]
pub struct VerifiedClientMessage {
    pub message: ClientRoundMessage,
    pub signer: PublicKey,
}

/// A [`VerifiedClientMessage`] as the contracts see it.
#[verifier::ext_equal]
pub struct Verified {
    pub message: Submission,
    pub signer: Seq<u8>,
}

impl View for VerifiedClientMessage {
    type V = Verified;

    open spec fn view(&self) -> Verified {
        Verified { message: self.message@, signer: self.signer@ }
    }
}

impl Clone for VerifiedClientMessage {
    fn clone(&self) -> (r: Self)
        ensures
            r@ == self@,
    {
        VerifiedClientMessage { message: self.message.clone(), signer: self.signer.clone() }
    }
}

pub struct VerifyClientMessages;

/// The payloads and signers of signed messages.
pub open spec fn stripped(msgs: Seq<Signed<ClientRoundMessage>>) -> Seq<Verified> {
    Seq::new(
        msgs.len(),
        |i: int| Verified { message: msgs[i].object@, signer: msgs[i].public_key@ },
    )
}

/// Every signature is good.
pub open spec fn all_authentic(msgs: Seq<Signed<ClientRoundMessage>>) -> bool {
    forall|i: int| 0 <= i < msgs.len() ==> (#[trigger] msgs[i]).authentic()
}

impl VerifyClientMessages {
    /// Check every signature and strip the envelopes. One bad signature refuses
    /// the batch.
    pub fn verify(msgs: &[Signed<ClientRoundMessage>]) -> (r: Result<
        Vec<VerifiedClientMessage>,
        ProtocolError,
    >)
        ensures
            match r {
                Ok(out) => all_authentic(msgs@) && views(out@) == stripped(msgs@),
                Err(e) => !all_authentic(msgs@) && e@ == Refusal::BadSignature,
            },
    {
        let mut out: Vec<VerifiedClientMessage> = Vec::new();
        let mut i: usize = 0;
        while i < msgs.len()
            invariant
                i <= msgs@.len(),
                out@.len() == i,
                forall|k: int| 0 <= k < i ==> (#[trigger] msgs@[k]).authentic(),
                forall|k: int| 0 <= k < i ==> (#[trigger] out@[k])@ == stripped(msgs@)[k],
            decreases msgs@.len() - i,
        {
            match msgs[i].recover() {
                Ok((raw, signer)) => {
                    out.push(
                        VerifiedClientMessage { message: raw.clone(), signer: signer.clone() },
                    );
                },
                Err(e) => {
                    proof {
                        assert(!msgs@[i as int].authentic());
                    }
                    return Err(e);
                },
            }
            i = i + 1;
        }
        proof {
            assert(views(out@) =~= stripped(msgs@));
        }
        Ok(out)
    }
}

// ---------------------------------------------------------------------------
// Sieve
// ---------------------------------------------------------------------------

/// What the messages of one aggregate have in common.
#[verifier::ext_equal]
pub struct Shape {
    pub server_ids: Seq<ServerId>,
    pub message_len: nat,
}

/// The shape of a message.
pub open spec fn shape_of(m: Submission) -> Shape {
    Shape { server_ids: m.all_server_ids, message_len: m.message_vector.len() }
}

/// What the sieve knows after some messages: the servers and the message length
/// that later ones must have, the signers seen, and the messages let through.
#[verifier::ext_equal]
pub struct Sieve {
    pub shape: Option<Shape>,
    pub seen: Seq<Seq<u8>>,
    pub fresh: Seq<Verified>,
}

/// What messages have to meet whatever came before.
pub struct Terms {
    pub round: i64,
    pub authorized: Map<Seq<u8>, bool>,
    pub auction_len: nat,
}

impl Sieve {
    /// The message is let through.
    pub open spec fn admits(self, v: Verified, terms: Terms) -> bool {
        &&& v.message.round_number == terms.round
        &&& terms.authorized.contains_key(v.signer) && terms.authorized[v.signer]
        &&& v.message.auction_vector.len() == terms.auction_len
        &&& all_canonical(v.message.auction_vector)
        &&& self.shape is Some ==> self.shape->0 == shape_of(v.message)
        &&& !self.seen.contains(v.signer)
    }

    /// The sieve after one message.
    pub open spec fn after(self, v: Verified, terms: Terms) -> Sieve {
        if self.admits(v, terms) {
            Sieve {
                shape: Some(shape_of(v.message)),
                seen: self.seen.push(v.signer),
                fresh: self.fresh.push(v),
            }
        } else {
            self
        }
    }

    /// The sieve after several messages.
    pub open spec fn after_all(self, vs: Seq<Verified>, terms: Terms) -> Sieve
        decreases vs.len(),
    {
        if vs.len() == 0 {
            self
        } else {
            self.after_all(vs.drop_last(), terms).after(vs.last(), terms)
        }
    }
}

/// The sieve that extends the aggregate `agg`.
pub open spec fn sieve_for(agg: Aggregate) -> Sieve {
    Sieve {
        shape: if agg.auction_vector.len() == 0 {
            None
        } else {
            Some(
                Shape { server_ids: agg.all_server_ids, message_len: agg.message_vector.len() },
            )
        },
        seen: agg.user_pks,
        fresh: Seq::empty(),
    }
}

/// The auction vectors of messages.
pub open spec fn auctions_of(vs: Seq<Verified>) -> Seq<Seq<u64>> {
    Seq::new(vs.len(), |i: int| vs[i].message.auction_vector)
}

/// The message vectors of messages.
pub open spec fn messages_of(vs: Seq<Verified>) -> Seq<Seq<u8>> {
    Seq::new(vs.len(), |i: int| vs[i].message.message_vector)
}

/// The signers of messages.
pub open spec fn signers_of(vs: Seq<Verified>) -> Seq<Seq<u8>> {
    Seq::new(vs.len(), |i: int| vs[i].signer)
}

/// The messages let through, added up.
pub open spec fn folded(vs: Seq<Verified>, n: nat) -> Aggregate {
    Aggregate {
        round_number: vs[0].message.round_number,
        all_server_ids: vs[0].message.all_server_ids,
        auction_vector: field_round::add_all(vzero(n), auctions_of(vs)),
        message_vector: xor_round::xor_all(
            xor_round::xzero(vs[0].message.message_vector.len()),
            messages_of(vs),
        ),
        user_pks: signers_of(vs),
    }
}

/// The outcome of extending `previous` by messages.
pub open spec fn extended(
    slots: u32,
    round: i64,
    previous: Option<Aggregate>,
    vs: Seq<Verified>,
    authorized: Map<Seq<u8>, bool>,
) -> Result<Aggregate, Refusal> {
    let base = match previous {
        None => Ok(Aggregate::blank()),
        Some(p) => Aggregate::blank().unioned(p),
    };
    match base {
        Err(e) => Err(e),
        Ok(agg) => {
            let terms = Terms { round, authorized, auction_len: auction_len(slots) };
            let fresh = sieve_for(agg).after_all(vs, terms).fresh;
            if fresh.len() == 0 {
                Ok(agg)
            } else {
                agg.unioned(folded(fresh, auction_len(slots)))
            }
        },
    }
}

/// The outcome of adding up aggregates of one round.
pub open spec fn collected(round: i64, aggs: Seq<Aggregate>) -> Result<Aggregate, Refusal>
    decreases aggs.len(),
{
    if aggs.len() == 0 {
        Ok(Aggregate::blank())
    } else {
        match collected(round, aggs.drop_last()) {
            Err(e) => Err(e),
            Ok(agg) => if aggs.last().round_number != round {
                Err(Refusal::WrongRound { got: aggs.last().round_number, expected: round })
            } else {
                agg.unioned(aggs.last())
            },
        }
    }
}

/// The messages at given positions.
spec fn picked(vs: Seq<Verified>, at: Seq<usize>) -> Seq<Verified> {
    Seq::new(at.len(), |i: int| vs[at[i] as int])
}

impl<'a> AggregatorMessager<'a> {
    /// The positions of the messages that the sieve lets through.
    fn sift(
        &self,
        round: i64,
        agg: &AggregatedClientMessages,
        verified: &[VerifiedClientMessage],
        authorized: &KeyMap<bool>,
        expected_auction: usize,
    ) -> (at: Vec<usize>)
        ensures
            forall|k: int| 0 <= k < at@.len() ==> (#[trigger] at@[k]) < verified@.len(),
            picked(views(verified@), at@) == sieve_for(agg@).after_all(
                views(verified@),
                (Terms { round, authorized: authorized@, auction_len: expected_auction as nat }),
            ).fresh,
    {
        let ghost terms = Terms {
            round,
            authorized: authorized@,
            auction_len: expected_auction as nat,
        };
        let ghost vs = views(verified@);
        let ghost start = sieve_for(agg@);
        let mut at: Vec<usize> = Vec::new();
        let mut has_shape = agg.auction_vector.len() != 0;
        let mut shape_ids = to_vec(&agg.all_server_ids);
        let mut shape_len: usize = agg.message_vector.len();
        let mut seen = clone_keys(&agg.user_pks);
        let mut i: usize = 0;
        proof {
            assert(vs.take(0) =~= Seq::empty());
            assert(picked(vs, at@) =~= Seq::empty());
        }
        while i < verified.len()
            invariant
                i <= verified@.len(),
                vs == views(verified@),
                terms == (Terms {
                    round,
                    authorized: authorized@,
                    auction_len: expected_auction as nat,
                }),
                forall|k: int| 0 <= k < at@.len() ==> (#[trigger] at@[k]) < verified@.len(),
                ({
                    let now = start.after_all(vs.take(i as int), terms);
                    &&& picked(vs, at@) == now.fresh
                    &&& views(seen@) == now.seen
                    &&& has_shape == (now.shape is Some)
                    &&& has_shape ==> now.shape->0 == (Shape {
                        server_ids: shape_ids@,
                        message_len: shape_len as nat,
                    })
                }),
            decreases verified@.len() - i,
        {
            let v = &verified[i];
            let ghost now = start.after_all(vs.take(i as int), terms);
            let ghost before = at@;
            proof {
                assert(vs[i as int] == v@);
                assert(vs.take(i + 1).drop_last() =~= vs.take(i as int));
                assert(views(seen@).take(seen@.len() as int) =~= views(seen@));
            }
            let is_authorized = match authorized.get(&v.signer) {
                Some(b) => *b,
                None => false,
            };
            let admitted = v.message.round_number == round && is_authorized
                && v.message.auction_vector.len() == expected_auction && is_all_canonical(
                &v.message.auction_vector,
            ) && (!has_shape || (ids_equal(&shape_ids, &v.message.all_server_ids) && shape_len
                == v.message.message_vector.len())) && !key_among(&seen, seen.len(), &v.signer);
            proof {
                assert(admitted == now.admits(v@, terms));
            }
            if admitted {
                let ghost old_seen = seen@;
                has_shape = true;
                shape_ids = to_vec(&v.message.all_server_ids);
                shape_len = v.message.message_vector.len();
                seen.push(v.signer.clone());
                at.push(i);
                proof {
                    assert(views(seen@) =~= views(old_seen).push(v@.signer));
                    assert(picked(vs, at@) =~= picked(vs, before).push(v@));
                }
            }
            i = i + 1;
        }
        proof {
            assert(vs.take(i as int) =~= vs);
        }
        at
    }

    /// Add up the messages at the given positions.
    fn fold(&self, verified: &[VerifiedClientMessage], at: &[usize], n: usize) -> (r:
        AggregatedClientMessages)
        requires
            at@.len() > 0,
            forall|k: int| 0 <= k < at@.len() ==> (#[trigger] at@[k]) < verified@.len(),
        ensures
            r@ == folded(picked(views(verified@), at@), n as nat),
    {
        let ghost vs = picked(views(verified@), at@);
        let head = &verified[at[0]];
        proof {
            assert(vs[0] == head@);
        }
        let mut auction_vector = zeros(n);
        let mut message_vector = zero_vec(head.message.message_vector.len());
        let mut user_pks: Vec<PublicKey> = Vec::new();
        let ghost m0 = message_vector@;
        let ghost asx = auctions_of(vs);
        let ghost msx = messages_of(vs);
        let mut k: usize = 0;
        proof {
            assert(asx.take(0) =~= Seq::empty());
            assert(msx.take(0) =~= Seq::empty());
        }
        while k < at.len()
            invariant
                k <= at@.len(),
                vs == picked(views(verified@), at@),
                asx == auctions_of(vs),
                msx == messages_of(vs),
                forall|j: int| 0 <= j < at@.len() ==> (#[trigger] at@[j]) < verified@.len(),
                auction_vector@ == field_round::add_all(vzero(n as nat), asx.take(k as int)),
                message_vector@ == xor_round::xor_all(m0, msx.take(k as int)),
                user_pks@.len() == k,
                forall|j: int| 0 <= j < k ==> (#[trigger] user_pks@[j])@ == vs[j].signer,
            decreases at@.len() - k,
        {
            let v = &verified[at[k]];
            proof {
                assert(vs[k as int] == v@);
                assert(asx.take(k + 1).drop_last() =~= asx.take(k as int));
                assert(msx.take(k + 1).drop_last() =~= msx.take(k as int));
            }
            add_mod_slice(&mut auction_vector, &v.message.auction_vector);
            xor_inplace(&mut message_vector, &v.message.message_vector);
            user_pks.push(v.signer.clone());
            k = k + 1;
        }
        proof {
            assert(asx.take(k as int) =~= asx);
            assert(msx.take(k as int) =~= msx);
            assert(views(user_pks@) =~= signers_of(vs));
        }
        AggregatedClientMessages {
            round_number: head.message.round_number,
            all_server_ids: to_vec(&head.message.all_server_ids),
            auction_vector,
            message_vector,
            user_pks,
        }
    }

    /// Extend `previous` by the messages that fit. Bad messages and replays are
    /// skipped instead of failing the whole batch.
    pub fn aggregate_verified_messages(
        &self,
        round: i64,
        previous: Option<&AggregatedClientMessages>,
        verified: &[VerifiedClientMessage],
        authorized: &KeyMap<bool>,
    ) -> (r: Result<AggregatedClientMessages, ProtocolError>)
        requires
            self.config.ok(),
        ensures
            outcome(r) == extended(
                self.config.auction_slots,
                round,
                (match previous {
                    None => None,
                    Some(p) => Some(p@),
                }),
                views(verified@),
                authorized@,
            ),
    {
        let mut agg = AggregatedClientMessages::empty();
        match previous {
            Some(p) => {
                match agg.union_inplace(p) {
                    Ok(_) => {},
                    Err(e) => return Err(e),
                }
            },
            None => {},
        }
        let expected_auction = iblt_field_element_count(self.config.auction_slots, AUCTION_BID_XI);
        let at = self.sift(round, &agg, verified, authorized, expected_auction);
        if at.len() == 0 {
            return Ok(agg);
        }
        let folded = self.fold(verified, &at, expected_auction);
        match agg.union_inplace(&folded) {
            Ok(_) => Ok(agg),
            Err(e) => Err(e),
        }
    }

    /// Add up aggregates of one round.
    pub fn aggregate_aggregates(&self, round: i64, msgs: &[AggregatedClientMessages]) -> (r: Result<
        AggregatedClientMessages,
        ProtocolError,
    >)
        ensures
            outcome(r) == collected(round, views(msgs@)),
    {
        let ghost all = views(msgs@);
        let mut agg = AggregatedClientMessages::empty();
        let mut i: usize = 0;
        proof {
            assert(all.take(0) =~= Seq::empty());
        }
        while i < msgs.len()
            invariant
                i <= msgs@.len(),
                all == views(msgs@),
                collected(round, all.take(i as int)) == Ok::<Aggregate, Refusal>(agg@),
            decreases msgs@.len() - i,
        {
            let m = &msgs[i];
            proof {
                assert(all.take(i + 1).drop_last() =~= all.take(i as int));
                assert(all.take(i + 1).last() == m@);
            }
            if m.round_number != round {
                proof {
                    lemma_first_refusal(round, all, i + 1);
                }
                return Err(ProtocolError::WrongRound { got: m.round_number, expected: round });
            }
            match agg.union_inplace(m) {
                Ok(_) => {},
                Err(e) => {
                    proof {
                        lemma_first_refusal(round, all, i + 1);
                    }
                    return Err(e);
                },
            }
            i = i + 1;
        }
        proof {
            assert(all.take(i as int) =~= all);
        }
        Ok(agg)
    }
}

/// A refusal among the first `n` aggregates is the refusal of the batch.
proof fn lemma_first_refusal(round: i64, aggs: Seq<Aggregate>, n: int)
    requires
        0 <= n <= aggs.len(),
        collected(round, aggs.take(n)) is Err,
    ensures
        collected(round, aggs) == collected(round, aggs.take(n)),
    decreases aggs.len() - n,
{
    if n < aggs.len() {
        assert(aggs.take(n + 1).drop_last() =~= aggs.take(n));
        lemma_first_refusal(round, aggs, n + 1);
    } else {
        assert(aggs.take(n) =~= aggs);
    }
}

} // verus!
