//! The client's state over the rounds.

use vstd::prelude::*;

use crate::auction::auction::{bid_on, AuctionData, Bid};
use crate::auction::iblt::KEY_BYTES;
use crate::bytes::to_vec;
use crate::collections::{in_order, IdMap};
use crate::crypto::exchange::{is_p256_secret, p256_public, p256_shared};
use crate::crypto::types::{
    halves_match, public_half, signature_of, ExchangePrivateKey, ExchangePublicKey, KeyError,
    PrivateKey, ServerId, SharedKey,
};
use crate::protocol::config::AdcNetConfig;
use crate::protocol::envelope::signed_digest;
use crate::protocol::messager::client::{prepared, ClientMessager};
use crate::protocol::messages::{
    Broadcast, ClientRoundMessage, ProtocolError, Refusal, RoundBroadcast, Signed, Submission,
};
use crate::protocol::round::Round;
use crate::randomness::{thread_source, KeySource};
use crate::sorting::seen;

verus! {

pub struct ClientService {
    config: AdcNetConfig,
    exchange_key: ExchangePrivateKey,
    signing_key: PrivateKey,
    shared_secrets: IdMap<SharedKey>,
    current_round: i64,
    pending: Option<PendingMessage>,
    scheduled: Option<ScheduledMessage>,
    last_broadcast: Option<RoundBroadcast>,
}

struct PendingMessage {
    message: Vec<u8>,
    auction_data: AuctionData,
}

struct ScheduledMessage {
    message: Vec<u8>,
    auction_round: i64,
}

// ---------------------------------------------------------------------------
// Model
// ---------------------------------------------------------------------------

/// A message that waits for its bid to be sent.
#[verifier::ext_equal]
pub struct Pending {
    pub message: Seq<u8>,
    pub bid: Bid,
}

/// A message whose bid was sent in round `auction_round`.
#[verifier::ext_equal]
pub struct Scheduled {
    pub message: Seq<u8>,
    pub auction_round: i64,
}

/// The state of a client.
#[verifier::ext_equal]
pub struct ClientState {
    pub config: AdcNetConfig,
    pub exchange_key: Seq<u8>,
    pub signing_key: Seq<u8>,
    pub shared_secrets: Map<ServerId, Seq<u8>>,
    pub current_round: i64,
    pub pending: Option<Pending>,
    pub scheduled: Option<Scheduled>,
    pub last_broadcast: Option<Broadcast>,
}

impl ClientState {
    /// The state after the move to `round`. A scheduled message whose slot has
    /// gone by is dropped.
    pub open spec fn advanced(self, round: Round) -> ClientState {
        if round.number <= self.current_round {
            self
        } else {
            ClientState {
                scheduled: if self.scheduled is Some && self.scheduled->0.auction_round + 1
                    < round.number {
                    None
                } else {
                    self.scheduled
                },
                current_round: round.number,
                ..self
            }
        }
    }

    /// Why a message cannot be scheduled, if it cannot.
    pub open spec fn schedule_refused(self, msg: Seq<u8>) -> Option<Refusal> {
        if msg.len() == 0 {
            Some(Refusal::NilMessage)
        } else if self.current_round == 0 {
            Some(Refusal::ClientNotInitialized)
        } else if self.pending is Some {
            Some(Refusal::AlreadyPending)
        } else {
            None
        }
    }

    /// The broadcast of the round before the current one is at hand.
    pub open spec fn follows_broadcast(self) -> bool {
        self.last_broadcast is Some && self.last_broadcast->0.round_number + 1
            == self.current_round
    }

    /// The scheduled message is due in the current round.
    pub open spec fn due(self) -> bool {
        self.scheduled is Some && self.scheduled->0.auction_round + 1 == self.current_round
    }

    /// The message that goes out in the current round.
    pub open spec fn outgoing(self) -> Seq<u8> {
        if self.due() {
            self.scheduled->0.message
        } else {
            Seq::empty()
        }
    }

    /// The bid that goes out in the current round.
    pub open spec fn outgoing_bid(self) -> Option<Bid> {
        match self.pending {
            Some(p) => Some(p.bid),
            None => None,
        }
    }

    /// The state after the messages of the current round were asked for. The
    /// due message is gone, and the pending one is due in the next round.
    pub open spec fn after_messages(self) -> ClientState {
        if !self.follows_broadcast() {
            self
        } else {
            ClientState {
                pending: None,
                scheduled: match self.pending {
                    Some(p) => Some(
                        Scheduled { message: p.message, auction_round: self.current_round },
                    ),
                    None => if self.due() {
                        None
                    } else {
                        self.scheduled
                    },
                },
                ..self
            }
        }
    }

    /// The submission for the current round, with the bid under `key`, and
    /// whether the outgoing message won a slot.
    pub open spec fn submission(self, key: Seq<u8>) -> Result<(Submission, bool), Refusal> {
        if !self.follows_broadcast() {
            Err(Refusal::NoPreviousBroadcast)
        } else {
            match prepared(
                self.config,
                in_order::<ServerId, Seq<u8>>(self.shared_secrets),
                self.current_round,
                self.last_broadcast->0,
                self.outgoing(),
                self.outgoing_bid(),
                key,
            ) {
                Err(e) => Err(e),
                Ok(p) => match public_half(self.signing_key) {
                    Err(e) => Err(Refusal::Key(e)),
                    Ok(_) => Ok(p),
                },
            }
        }
    }

    /// `r` is the submission for the current round with the bid under `key`, in
    /// an envelope signed by this client.
    pub open spec fn sends(
        self,
        r: Result<(Signed<ClientRoundMessage>, bool), ProtocolError>,
        key: Seq<u8>,
    ) -> bool {
        match r {
            Err(e) => self.submission(key) == Err::<(Submission, bool), Refusal>(e@),
            Ok(p) => {
                &&& self.submission(key) == Ok::<(Submission, bool), Refusal>((p.0.object@, p.1))
                &&& public_half(self.signing_key) == Ok::<Seq<u8>, KeyError>(p.0.public_key@)
                &&& signature_of(
                    self.signing_key,
                    signed_digest::<ClientRoundMessage>(p.0.object@, p.0.public_key@),
                ) == Ok::<Seq<u8>, KeyError>(p.0.signature@)
                &&& halves_match(self.signing_key) ==> p.0.authentic()
            },
        }
    }
}

impl View for PendingMessage {
    type V = Pending;

    closed spec fn view(&self) -> Pending {
        Pending { message: self.message@, bid: self.auction_data@ }
    }
}

impl View for ScheduledMessage {
    type V = Scheduled;

    closed spec fn view(&self) -> Scheduled {
        Scheduled { message: self.message@, auction_round: self.auction_round }
    }
}

impl View for ClientService {
    type V = ClientState;

    closed spec fn view(&self) -> ClientState {
        ClientState {
            config: self.config,
            exchange_key: self.exchange_key@,
            signing_key: self.signing_key@,
            shared_secrets: self.shared_secrets@,
            current_round: self.current_round,
            pending: seen(self.pending),
            scheduled: seen(self.scheduled),
            last_broadcast: seen(self.last_broadcast),
        }
    }
}

impl ClientService {
    pub fn new(
        config: AdcNetConfig,
        signing_key: PrivateKey,
        exchange_key: ExchangePrivateKey,
    ) -> (r: Self)
        ensures
            r@ == (ClientState {
                config,
                exchange_key: exchange_key@,
                signing_key: signing_key@,
                shared_secrets: Map::empty(),
                current_round: 0,
                pending: None,
                scheduled: None,
                last_broadcast: None,
            }),
    {
        ClientService {
            config,
            exchange_key,
            signing_key,
            shared_secrets: IdMap::new(),
            current_round: 0,
            pending: None,
            scheduled: None,
            last_broadcast: None,
        }
    }

    pub fn exchange_public(&self) -> (r: ExchangePublicKey)
        ensures
            r@ == p256_public(self@.exchange_key),
            is_p256_secret(self@.exchange_key),
    {
        self.exchange_key.public()
    }

    pub fn signing_key(&self) -> (r: &PrivateKey)
        ensures
            r@ == self@.signing_key,
    {
        &self.signing_key
    }

    pub fn advance_to_round(&mut self, round: Round)
        ensures
            final(self)@ == old(self)@.advanced(round),
    {
        if round.number <= self.current_round {
            return;
        }
        let stale = match &self.scheduled {
            Some(s) => s.auction_round < round.number - 1,
            None => false,
        };
        if stale {
            self.scheduled = None;
        }
        self.current_round = round.number;
    }

    /// Share a secret with a server. The server that owns the exchange key
    /// shares the same secret with this client.
    pub fn register_server(
        &mut self,
        server_id: ServerId,
        server_exchange: &ExchangePublicKey,
    ) -> (r: Result<(), ProtocolError>)
        ensures
            r is Ok,
            final(self)@ == (ClientState {
                shared_secrets: old(self)@.shared_secrets.insert(
                    server_id,
                    p256_shared(old(self)@.exchange_key, server_exchange@),
                ),
                ..old(self)@
            }),
            forall|t: Seq<u8>|
                is_p256_secret(t) && server_exchange@ == #[trigger] p256_public(t)
                    ==> final(self)@.shared_secrets[server_id] == p256_shared(
                    t,
                    p256_public(old(self)@.exchange_key),
                ),
    {
        let shared = self.exchange_key.ecdh(server_exchange);
        self.shared_secrets.insert(server_id, shared);
        Ok(())
    }

    pub fn deregister_server(&mut self, server_id: ServerId)
        ensures
            final(self)@ == (ClientState {
                shared_secrets: old(self)@.shared_secrets.remove(server_id),
                ..old(self)@
            }),
    {
        self.shared_secrets.remove(&server_id);
    }

    /// Bid for a slot in the next round's message vector.
    pub fn schedule_message_for_next_round(&mut self, msg: &[u8], bid_value: u32) -> (r: Result<
        (),
        ProtocolError,
    >)
        ensures
            match r {
                Ok(_) => {
                    &&& old(self)@.schedule_refused(msg@) is None
                    &&& final(self)@ == (ClientState {
                        pending: Some((Pending { message: msg@, bid: bid_on(msg@, bid_value) })),
                        ..old(self)@
                    })
                },
                Err(e) => old(self)@.schedule_refused(msg@) == Some(e@) && final(self)@ == old(
                    self,
                )@,
            },
    {
        if msg.len() == 0 {
            return Err(ProtocolError::NilMessage);
        }
        if self.current_round == 0 {
            return Err(ProtocolError::ClientNotInitialized);
        }
        if self.pending.is_some() {
            return Err(ProtocolError::AlreadyPending);
        }
        self.pending = Some(
            PendingMessage {
                message: to_vec(msg),
                auction_data: AuctionData::from_message(msg, bid_value),
            },
        );
        Ok(())
    }

    /// Generate a signed `ClientRoundMessage` for the current round.
    pub fn messages_for_current_round(&mut self) -> (r: Result<
        (Signed<ClientRoundMessage>, bool),
        ProtocolError,
    >)
        requires
            old(self)@.config.ok(),
        ensures
            exists|key: Seq<u8>| key.len() == KEY_BYTES && #[trigger] old(self)@.sends(r, key),
            final(self)@ == old(self)@.after_messages(),
    {
        let mut source = thread_source();
        let key = source.draw_key();
        let r = self.messages_for_current_round_with_key(&key);
        proof {
            assert(key@.len() == KEY_BYTES);
        }
        r
    }

    /// [`Self::messages_for_current_round`] with the bid under the given key.
    pub fn messages_for_current_round_with_key(&mut self, key: &[u8; KEY_BYTES]) -> (r: Result<
        (Signed<ClientRoundMessage>, bool),
        ProtocolError,
    >)
        requires
            old(self)@.config.ok(),
        ensures
            old(self)@.sends(r, key@),
            final(self)@ == old(self)@.after_messages(),
    {
        let ghost before = self@;
        let cur = self.current_round;
        let last_bc = match &self.last_broadcast {
            Some(bc) => bc.clone(),
            None => return Err(ProtocolError::NoPreviousBroadcast),
        };
        if last_bc.round_number == i64::MAX || last_bc.round_number + 1 != cur {
            return Err(ProtocolError::NoPreviousBroadcast);
        }
        let mut scheduled: Option<ScheduledMessage> = None;
        std::mem::swap(&mut scheduled, &mut self.scheduled);
        let message_to_transmit = match scheduled {
            Some(s) => {
                if s.auction_round == cur - 1 {
                    s.message
                } else {
                    self.scheduled = Some(s);
                    Vec::new()
                }
            },
            None => Vec::new(),
        };
        proof {
            assert(message_to_transmit@ =~= before.outgoing());
        }
        let mut pending: Option<PendingMessage> = None;
        std::mem::swap(&mut pending, &mut self.pending);
        let auction_bid = match pending {
            Some(p) => {
                self.scheduled = Some(ScheduledMessage { message: p.message, auction_round: cur });
                Some(p.auction_data)
            },
            None => None,
        };
        proof {
            assert(self@ =~= before.after_messages());
            assert(seen(auction_bid) == before.outgoing_bid());
        }
        let messager = ClientMessager {
            config: &self.config,
            shared_secrets: &self.shared_secrets,
        };
        let (msg, won) = match messager.prepare_message_with_key(
            cur,
            &last_bc,
            &message_to_transmit,
            auction_bid.as_ref(),
            key,
        ) {
            Ok(pair) => pair,
            Err(e) => return Err(e),
        };
        match Signed::new(&self.signing_key, msg) {
            Ok(signed) => Ok((signed, won)),
            Err(e) => Err(e),
        }
    }

    pub fn process_round_broadcast(&mut self, rb: RoundBroadcast)
        ensures
            final(self)@ == (ClientState { last_broadcast: Some(rb@), ..old(self)@ }),
    {
        self.last_broadcast = Some(rb);
    }
}

} // verus!
