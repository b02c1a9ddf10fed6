//! The aggregator's state over the rounds.

use vstd::prelude::*;

use crate::collections::KeyMap;
use crate::crypto::types::PublicKey;
use crate::protocol::config::AdcNetConfig;
use crate::protocol::messager::aggregator::{all_authentic, extended, stripped, Verified};
use crate::protocol::messager::{AggregatorMessager, VerifiedClientMessage, VerifyClientMessages};
use crate::protocol::messages::{
    outcome, Aggregate, AggregatedClientMessages, ClientRoundMessage, ProtocolError, Refusal, Signed,
};
use crate::protocol::round::Round;
use crate::sorting::{seen, views};

verus! {

pub struct AggregatorService {
    config: AdcNetConfig,
    authorized: KeyMap<bool>,
    current_round: i64,
    aggregate: Option<AggregatedClientMessages>,
}

// ---------------------------------------------------------------------------
// Model
// ---------------------------------------------------------------------------

/// The state of an aggregator.
#[verifier::ext_equal]
pub struct AggregatorState {
    pub config: AdcNetConfig,
    pub authorized: Map<Seq<u8>, bool>,
    pub current_round: i64,
    pub aggregate: Option<Aggregate>,
}

/// The round of the first message from position `i` on that belongs to another
/// round than `round`.
pub open spec fn first_stray(vs: Seq<Verified>, round: i64, i: int) -> Option<i64>
    decreases vs.len() - i,
{
    if i < 0 || i >= vs.len() {
        None
    } else if vs[i].message.round_number != round {
        Some(vs[i].message.round_number)
    } else {
        first_stray(vs, round, i + 1)
    }
}

impl AggregatorState {
    /// The state after the move to `round`.
    pub open spec fn advanced(self, round: Round) -> AggregatorState {
        if self.current_round >= round.number {
            self
        } else {
            AggregatorState { current_round: round.number, aggregate: None, ..self }
        }
    }

    /// The aggregate after a batch of messages, or why the batch is refused.
    pub open spec fn batch_outcome(self, vs: Seq<Verified>) -> Result<Aggregate, Refusal> {
        match first_stray(vs, self.current_round, 0) {
            Some(got) => Err(Refusal::WrongRound { got, expected: self.current_round }),
            None => extended(
                self.config.auction_slots,
                self.current_round,
                self.aggregate,
                vs,
                self.authorized,
            ),
        }
    }

    /// The state after a batch of messages.
    pub open spec fn after_batch(self, vs: Seq<Verified>) -> AggregatorState {
        match self.batch_outcome(vs) {
            Err(_) => self,
            Ok(agg) => AggregatorState { aggregate: Some(agg), ..self },
        }
    }
}

impl View for AggregatorService {
    type V = AggregatorState;

    closed spec fn view(&self) -> AggregatorState {
        AggregatorState {
            config: self.config,
            authorized: self.authorized@,
            current_round: self.current_round,
            aggregate: seen(self.aggregate),
        }
    }
}

/// The round of the first message that belongs to another round than `round`.
fn find_stray(verified: &[VerifiedClientMessage], round: i64) -> (r: Option<i64>)
    ensures
        r == first_stray(views(verified@), round, 0),
{
    let ghost vs = views(verified@);
    let mut i: usize = 0;
    while i < verified.len()
        invariant
            i <= verified@.len(),
            vs == views(verified@),
            first_stray(vs, round, 0) == first_stray(vs, round, i as int),
        decreases verified@.len() - i,
    {
        proof {
            assert(vs[i as int] == verified@[i as int]@);
        }
        if verified[i].message.round_number != round {
            return Some(verified[i].message.round_number);
        }
        i = i + 1;
    }
    None
}

impl AggregatorService {
    pub fn new(config: AdcNetConfig) -> (r: Self)
        ensures
            r@ == (AggregatorState {
                config,
                authorized: Map::empty(),
                current_round: 0,
                aggregate: None,
            }),
    {
        AggregatorService { config, authorized: KeyMap::new(), current_round: 0, aggregate: None }
    }

    pub fn advance_to_round(&mut self, round: Round)
        ensures
            final(self)@ == old(self)@.advanced(round),
    {
        if self.current_round >= round.number {
            return;
        }
        self.current_round = round.number;
        self.aggregate = None;
    }

    pub fn register_client(&mut self, pk: &PublicKey)
        ensures
            final(self)@ == (AggregatorState {
                authorized: old(self)@.authorized.insert(pk@, true),
                ..old(self)@
            }),
    {
        self.authorized.insert(pk.clone(), true);
    }

    pub fn deregister_client(&mut self, pk: &PublicKey)
        ensures
            final(self)@ == (AggregatorState {
                authorized: old(self)@.authorized.remove(pk@),
                ..old(self)@
            }),
    {
        self.authorized.remove(pk);
    }

    /// Check the signatures of a batch and add it to the aggregate of the round.
    pub fn process_client_messages(&mut self, msgs: &[Signed<ClientRoundMessage>]) -> (r: Result<
        AggregatedClientMessages,
        ProtocolError,
    >)
        requires
            old(self)@.config.ok(),
        ensures
            if all_authentic(msgs@) {
                &&& outcome(r) == old(self)@.batch_outcome(stripped(msgs@))
                &&& final(self)@ == old(self)@.after_batch(stripped(msgs@))
            } else {
                &&& outcome(r) == Err::<Aggregate, Refusal>(Refusal::BadSignature)
                &&& final(self)@ == old(self)@
            },
    {
        match VerifyClientMessages::verify(msgs) {
            Ok(verified) => self.process_verified_messages(&verified),
            Err(e) => Err(e),
        }
    }

    /// Add a batch whose signatures have been checked to the aggregate of the
    /// round.
    pub fn process_verified_messages(&mut self, verified: &[VerifiedClientMessage]) -> (r: Result<
        AggregatedClientMessages,
        ProtocolError,
    >)
        requires
            old(self)@.config.ok(),
        ensures
            outcome(r) == old(self)@.batch_outcome(views(verified@)),
            final(self)@ == old(self)@.after_batch(views(verified@)),
    {
        match find_stray(verified, self.current_round) {
            Some(got) => return Err(
                ProtocolError::WrongRound { got, expected: self.current_round },
            ),
            None => {},
        }
        let m = AggregatorMessager { config: &self.config };
        let r = m.aggregate_verified_messages(
            self.current_round,
            self.aggregate.as_ref(),
            verified,
            &self.authorized,
        );
        match r {
            Ok(agg) => {
                self.aggregate = Some(agg.clone());
                Ok(agg)
            },
            Err(e) => Err(e),
        }
    }

    pub fn current_aggregate(&self) -> (r: Option<AggregatedClientMessages>)
        ensures
            seen(r) == self@.aggregate,
    {
        match &self.aggregate {
            Some(agg) => Some(agg.clone()),
            None => None,
        }
    }
}

} // verus!
