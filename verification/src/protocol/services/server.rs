//! The server's state over the rounds.

use vstd::prelude::*;

use crate::bytes::{bytes_equal, to_vec};
use crate::collections::{in_order, IdMap, KeyMap};
use crate::crypto::blinding::{vxor, xor_inplace, zero_vec};
use crate::crypto::exchange::{is_p256_secret, p256_public, p256_shared};
use crate::crypto::fields::{add_mod_slice, vadd, vzero, zeros};
use crate::crypto::hexadecimal::hex_text;
use crate::crypto::types::{
    halves_match, public_half, signature_of, ExchangePrivateKey, ExchangePublicKey, KeyError,
    PrivateKey, PublicKey, ServerId, SharedKey,
};
use crate::primitives::xor_round::xzero;
use crate::protocol::config::AdcNetConfig;
use crate::protocol::envelope::signed_digest;
use crate::protocol::messager::server::{partial_for, unblinded};
use crate::protocol::messager::ServerMessager;
use crate::protocol::messages::{
    append_keys, id_among, ids_equal, key_among, outcome, Aggregate, AggregatedClientMessages,
    Broadcast, ClientRoundMessage, Partial, ProtocolError, Refusal, RoundBroadcast,
    ServerPartialDecryptionMessage, Signed, Submission,
};
use crate::protocol::round::Round;
use crate::sorting::{seen, sorted, views};

verus! {

pub struct ServerService {
    config: AdcNetConfig,
    server_id: ServerId,
    server_signing_key: PrivateKey,
    server_exchange_key: ExchangePrivateKey,
    shared_secrets: KeyMap<SharedKey>,
    /// Registered signing pubkeys for every peer server (including self). Used
    /// by [`Self::process_signed_partial_decryption_message`] to verify that
    /// the claimed `server_id` matches the signer's identity.
    peer_pubkeys: IdMap<PublicKey>,
    current_round: i64,
    round: Option<ServerRoundData>,
}

struct ServerRoundData {
    partials: IdMap<ServerPartialDecryptionMessage>,
    own_partial: Option<ServerPartialDecryptionMessage>,
    round_output: Option<RoundBroadcast>,
    /// Running aggregate built from direct client submissions when aggregation
    /// is disabled.
    direct_aggregate: Option<AggregatedClientMessages>,
}

// ---------------------------------------------------------------------------
// Model
// ---------------------------------------------------------------------------

/// What a server holds for the current round.
#[verifier::ext_equal]
pub struct RoundState {
    pub partials: Map<ServerId, Partial>,
    pub own_partial: Option<Partial>,
    pub round_output: Option<Broadcast>,
    pub direct_aggregate: Option<Aggregate>,
}

/// The state of a server.
#[verifier::ext_equal]
pub struct ServerState {
    pub config: AdcNetConfig,
    pub server_id: ServerId,
    pub signing_key: Seq<u8>,
    pub exchange_key: Seq<u8>,
    pub shared_secrets: Map<Seq<u8>, Seq<u8>>,
    pub peers: Map<ServerId, Seq<u8>>,
    pub current_round: i64,
    pub round: Option<RoundState>,
}

/// The partials of a round in ascending order of their servers.
pub open spec fn partials_in_order(m: Map<ServerId, Partial>) -> Seq<Partial> {
    let es = in_order::<ServerId, Partial>(m);
    Seq::new(es.len(), |i: int| es[i].1)
}

impl RoundState {
    /// Nothing has come in.
    pub open spec fn blank() -> RoundState {
        RoundState {
            partials: Map::empty(),
            own_partial: None,
            round_output: None,
            direct_aggregate: None,
        }
    }
}

/// The running aggregate that a first submission starts from.
pub open spec fn started_by(m: Submission) -> Aggregate {
    Aggregate {
        round_number: m.round_number,
        all_server_ids: m.all_server_ids,
        auction_vector: vzero(m.auction_vector.len()),
        message_vector: xzero(m.message_vector.len()),
        user_pks: Seq::empty(),
    }
}

/// The running aggregate with one more submission in it.
pub open spec fn joined_by(agg: Aggregate, m: Submission, signer: Seq<u8>) -> Aggregate {
    Aggregate {
        auction_vector: vadd(agg.auction_vector, m.auction_vector),
        message_vector: vxor(agg.message_vector, m.message_vector),
        user_pks: agg.user_pks.push(signer),
        ..agg
    }
}

/// A partial with another one for a further batch merged into it; the aggregate
/// that it refers to is left alone.
pub open spec fn merged(p: Partial, more: Partial) -> Partial {
    Partial {
        user_pks: p.user_pks + more.user_pks,
        auction_vector: vadd(p.auction_vector, more.auction_vector),
        message_vector: vxor(p.message_vector, more.message_vector),
        ..p
    }
}

impl ServerState {
    pub open spec fn with_round(self, rd: RoundState) -> ServerState {
        ServerState { round: Some(rd), ..self }
    }

    /// The state after the move to `round`.
    pub open spec fn advanced(self, round: Round) -> ServerState {
        if self.current_round >= round.number {
            self
        } else {
            ServerState {
                current_round: round.number,
                round: Some(RoundState::blank()),
                ..self
            }
        }
    }

    /// The running aggregate after a submission, or why it is refused.
    pub open spec fn direct(self, m: Submission, signer: Seq<u8>) -> Result<Aggregate, Refusal> {
        if self.round is None {
            Err(Refusal::ClientNotInitialized)
        } else if m.round_number != self.current_round {
            Err(Refusal::WrongRound { got: m.round_number, expected: self.current_round })
        } else {
            let agg = match self.round->0.direct_aggregate {
                Some(agg) => agg,
                None => started_by(m),
            };
            if agg.all_server_ids != m.all_server_ids {
                Err(Refusal::MismatchingServers)
            } else if agg.message_vector.len() != m.message_vector.len()
                || agg.auction_vector.len() != m.auction_vector.len() {
                Err(Refusal::MismatchingVectorLengths)
            } else if agg.user_pks.contains(signer) {
                Err(Refusal::DuplicateSubmission(hex_text(signer)))
            } else {
                Ok(joined_by(agg, m, signer))
            }
        }
    }

    /// The share that this server adds for the batch `agg`, or why it does not.
    pub open spec fn additional(self, agg: Aggregate) -> Result<Partial, Refusal> {
        if !agg.all_server_ids.contains(self.server_id) {
            Err(Refusal::InvalidServer(self.server_id))
        } else if agg.round_number != self.current_round {
            Err(Refusal::WrongRound { got: agg.round_number, expected: self.current_round })
        } else {
            match partial_for(
                self.server_id,
                self.shared_secrets,
                self.config.auction_slots,
                self.current_round,
                agg,
            ) {
                Err(e) => Err(e),
                Ok(p) => if self.round is None {
                    Err(Refusal::ClientNotInitialized)
                } else {
                    Ok(p)
                },
            }
        }
    }

    /// The outcome of the batch `agg`.
    pub open spec fn aggregate_outcome(self, agg: Aggregate) -> Result<Partial, Refusal> {
        match self.additional(agg) {
            Err(e) => Err(e),
            Ok(more) => match self.round->0.own_partial {
                None => Ok(more),
                Some(own) => match own.original_aggregate.unioned(agg) {
                    Err(e) => Err(e),
                    Ok(all) => Ok(Partial { original_aggregate: all, ..merged(own, more) }),
                },
            },
        }
    }

    /// The state after the batch `agg`. A batch that cannot join the aggregate
    /// of earlier ones still leaves its share behind.
    pub open spec fn after_aggregate(self, agg: Aggregate) -> ServerState {
        match self.additional(agg) {
            Err(_) => self,
            Ok(more) => {
                let rd = self.round->0;
                let own = match rd.own_partial {
                    None => more,
                    Some(own) => match own.original_aggregate.unioned(agg) {
                        Err(_) => merged(own, more),
                        Ok(all) => Partial { original_aggregate: all, ..merged(own, more) },
                    },
                };
                self.with_round(RoundState { own_partial: Some(own), ..rd })
            },
        }
    }

    /// Why a partial is not taken in, if it is not. `None` with an output at
    /// hand means that the output is given again.
    pub open spec fn partial_refused(self, p: Partial) -> Option<Refusal> {
        if p.original_aggregate.round_number != self.current_round {
            Some(
                Refusal::WrongRound {
                    got: p.original_aggregate.round_number,
                    expected: self.current_round,
                },
            )
        } else if self.round is None {
            Some(Refusal::ClientNotInitialized)
        } else if self.round->0.round_output is Some {
            None
        } else if !p.original_aggregate.all_server_ids.contains(p.server_id) {
            Some(Refusal::InvalidServer(p.server_id))
        } else if self.round->0.partials.contains_key(p.server_id) {
            Some(Refusal::DuplicatePartial(p.server_id))
        } else {
            None
        }
    }

    /// The partials of the round with `p` among them.
    pub open spec fn partials_with(self, p: Partial) -> Map<ServerId, Partial> {
        self.round->0.partials.insert(p.server_id, p)
    }

    /// `p` completes the partials of its round.
    pub open spec fn completed_by(self, p: Partial) -> bool {
        partials_in_order(self.partials_with(p)).len() >= p.original_aggregate.all_server_ids.len()
    }

    /// What the partials of the round combine to once `p` is among them.
    pub open spec fn combined_with(self, p: Partial) -> Result<Broadcast, Refusal> {
        unblinded(
            self.config.auction_slots,
            sorted::<ServerPartialDecryptionMessage>(partials_in_order(self.partials_with(p))),
        )
    }

    /// The outcome of a partial.
    pub open spec fn partial_outcome(self, p: Partial) -> Result<Option<Broadcast>, Refusal> {
        match self.partial_refused(p) {
            Some(e) => Err(e),
            None => if self.round->0.round_output is Some {
                Ok(self.round->0.round_output)
            } else if !self.completed_by(p) {
                Ok(None)
            } else {
                match self.combined_with(p) {
                    Err(e) => Err(e),
                    Ok(bc) => Ok(Some(bc)),
                }
            },
        }
    }

    /// The state after a partial. A partial that completes the set stays in it
    /// even if the set cannot be combined.
    pub open spec fn after_partial(self, p: Partial) -> ServerState {
        let rd = self.round->0;
        if self.partial_refused(p) is Some || rd.round_output is Some {
            self
        } else {
            self.with_round(
                RoundState {
                    partials: self.partials_with(p),
                    round_output: if self.completed_by(p) && self.combined_with(p) is Ok {
                        Some(self.combined_with(p)->Ok_0)
                    } else {
                        None
                    },
                    ..rd
                },
            )
        }
    }

    /// Why a signed partial is not even looked at, if it is not.
    pub open spec fn sender_refused(self, authentic: bool, claimed: ServerId, signer: Seq<u8>) ->
        Option<Refusal> {
        if !authentic {
            Some(Refusal::BadSignature)
        } else if !self.peers.contains_key(claimed) {
            Some(Refusal::UnknownPeerServer(claimed))
        } else if signer != self.peers[claimed] {
            Some(Refusal::SignerIdentityMismatch { claimed })
        } else {
            None
        }
    }
}

impl View for ServerRoundData {
    type V = RoundState;

    closed spec fn view(&self) -> RoundState {
        RoundState {
            partials: self.partials@,
            own_partial: seen(self.own_partial),
            round_output: seen(self.round_output),
            direct_aggregate: seen(self.direct_aggregate),
        }
    }
}

impl View for ServerService {
    type V = ServerState;

    closed spec fn view(&self) -> ServerState {
        ServerState {
            config: self.config,
            server_id: self.server_id,
            signing_key: self.server_signing_key@,
            exchange_key: self.server_exchange_key@,
            shared_secrets: self.shared_secrets@,
            peers: self.peer_pubkeys@,
            current_round: self.current_round,
            round: seen(self.round),
        }
    }
}

/// The partials of a round, copied in ascending order of their servers.
fn list_partials(m: &IdMap<ServerPartialDecryptionMessage>) -> (out: Vec<
    ServerPartialDecryptionMessage,
>)
    ensures
        views(out@) == partials_in_order(m@),
{
    let n = m.len();
    let ghost es = m.entries();
    let mut out: Vec<ServerPartialDecryptionMessage> = Vec::new();
    let mut i: usize = 0;
    while i < n
        invariant
            i <= n,
            n == es.len(),
            es == m.entries(),
            es == in_order::<ServerId, Partial>(m@),
            out@.len() == i,
            forall|k: int| 0 <= k < i ==> (#[trigger] out@[k])@ == es[k].1,
        decreases n - i,
    {
        let (_, p) = m.at(i);
        out.push(p.clone());
        i = i + 1;
    }
    proof {
        assert(views(out@) =~= partials_in_order(m@));
    }
    out
}

impl ServerRoundData {
    fn blank() -> (r: Self)
        ensures
            r@ == RoundState::blank(),
    {
        ServerRoundData {
            partials: IdMap::new(),
            own_partial: None,
            round_output: None,
            direct_aggregate: None,
        }
    }
}

impl ServerService {
    pub fn new(
        config: AdcNetConfig,
        server_id: ServerId,
        server_signing_key: PrivateKey,
        server_exchange_key: ExchangePrivateKey,
    ) -> (r: Self)
        requires
            server_signing_key@.len() >= 64,
        ensures
            r@ == (ServerState {
                config,
                server_id,
                signing_key: server_signing_key@,
                exchange_key: server_exchange_key@,
                shared_secrets: Map::empty(),
                peers: Map::empty().insert(server_id, server_signing_key@.subrange(32, 64)),
                current_round: 0,
                round: None,
            }),
    {
        // Register self automatically — the leader's own partial trivially
        // verifies against its own signing key.
        let mut peer_pubkeys: IdMap<PublicKey> = IdMap::new();
        match server_signing_key.public_key() {
            Ok(own) => peer_pubkeys.insert(server_id, own),
            Err(_) => {},
        }
        ServerService {
            config,
            server_id,
            server_signing_key,
            server_exchange_key,
            shared_secrets: KeyMap::new(),
            peer_pubkeys,
            current_round: 0,
            round: None,
        }
    }

    /// Register a peer server's signing pubkey. Required before accepting
    /// signed partial-decryption messages from that peer.
    pub fn register_peer_server(&mut self, server_id: ServerId, pubkey: PublicKey)
        ensures
            final(self)@ == (ServerState {
                peers: old(self)@.peers.insert(server_id, pubkey@),
                ..old(self)@
            }),
    {
        self.peer_pubkeys.insert(server_id, pubkey);
    }

    pub fn server_id(&self) -> (r: ServerId)
        ensures
            r == self@.server_id,
    {
        self.server_id
    }

    pub fn signing_key(&self) -> (r: &PrivateKey)
        ensures
            r@ == self@.signing_key,
    {
        &self.server_signing_key
    }

    pub fn advance_to_round(&mut self, round: Round)
        ensures
            final(self)@ == old(self)@.advanced(round),
    {
        if self.current_round >= round.number {
            return;
        }
        self.current_round = round.number;
        self.round = Some(ServerRoundData::blank());
    }

    /// Share a secret with a client. The client that owns the exchange key
    /// shares the same secret with this server.
    pub fn register_client(
        &mut self,
        client_pubkey: &PublicKey,
        client_ecdh_pubkey: &ExchangePublicKey,
    ) -> (r: Result<(), ProtocolError>)
        ensures
            r is Ok,
            final(self)@ == (ServerState {
                shared_secrets: old(self)@.shared_secrets.insert(
                    client_pubkey@,
                    p256_shared(old(self)@.exchange_key, client_ecdh_pubkey@),
                ),
                ..old(self)@
            }),
            forall|t: Seq<u8>|
                is_p256_secret(t) && client_ecdh_pubkey@ == #[trigger] p256_public(t)
                    ==> final(self)@.shared_secrets[client_pubkey@] == p256_shared(
                    t,
                    p256_public(old(self)@.exchange_key),
                ),
    {
        let shared = self.server_exchange_key.ecdh(client_ecdh_pubkey);
        self.shared_secrets.insert(client_pubkey.clone(), shared);
        Ok(())
    }

    pub fn deregister_client(&mut self, client_pubkey: &PublicKey)
        ensures
            final(self)@ == (ServerState {
                shared_secrets: old(self)@.shared_secrets.remove(client_pubkey@),
                ..old(self)@
            }),
    {
        self.shared_secrets.remove(client_pubkey);
    }

    /// Used in the aggregation-disabled mode: fold a signed client message into
    /// the round aggregate, in place. Returns nothing — the running aggregate
    /// stays inside the server's per-round state and is consumed later by
    /// [`Self::finalize_partial_for_direct_aggregate`]. A second message by one
    /// signer is refused.
    pub fn process_client_message(&mut self, msg: &Signed<ClientRoundMessage>) -> (r: Result<
        (),
        ProtocolError,
    >)
        ensures
            match r {
                Ok(_) => {
                    &&& msg.authentic()
                    &&& old(self)@.direct(msg.object@, msg.public_key@) is Ok
                    &&& final(self)@ == old(self)@.with_round(
                        (RoundState {
                            direct_aggregate: Some(
                                old(self)@.direct(msg.object@, msg.public_key@)->Ok_0,
                            ),
                            ..old(self)@.round->0
                        }),
                    )
                },
                Err(e) => {
                    &&& final(self)@ == old(self)@
                    &&& if msg.authentic() {
                        old(self)@.direct(msg.object@, msg.public_key@) == Err::<
                            Aggregate,
                            Refusal,
                        >(e@)
                    } else {
                        e@ == Refusal::BadSignature
                    }
                },
            },
    {
        let (raw, signer) = match msg.recover() {
            Ok(pair) => pair,
            Err(e) => return Err(e),
        };
        let cur = self.current_round;
        let mut slot: Option<ServerRoundData> = None;
        std::mem::swap(&mut slot, &mut self.round);
        let (rd, r) = match slot {
            Some(rd) => {
                let (rd, r) = fold_submission(rd, cur, raw, signer);
                (Some(rd), r)
            },
            None => (None, Err(ProtocolError::ClientNotInitialized)),
        };
        self.round = rd;
        r
    }
}

/// Fold a submission into the running aggregate of a round.
fn fold_submission(
    rd: ServerRoundData,
    cur: i64,
    raw: &ClientRoundMessage,
    signer: &PublicKey,
) -> (r: (ServerRoundData, Result<(), ProtocolError>))
    ensures
        ({
            let agg = match rd@.direct_aggregate {
                Some(agg) => agg,
                None => started_by(raw@),
            };
            match r.1 {
                Ok(_) => {
                    &&& raw.round_number == cur
                    &&& agg.all_server_ids == raw@.all_server_ids
                    &&& agg.message_vector.len() == raw@.message_vector.len()
                    &&& agg.auction_vector.len() == raw@.auction_vector.len()
                    &&& !agg.user_pks.contains(signer@)
                    &&& r.0@ == (RoundState {
                        direct_aggregate: Some(joined_by(agg, raw@, signer@)),
                        ..rd@
                    })
                },
                Err(e) => {
                    &&& r.0@ == rd@
                    &&& e@ == if raw.round_number != cur {
                        Refusal::WrongRound { got: raw.round_number, expected: cur }
                    } else if agg.all_server_ids != raw@.all_server_ids {
                        Refusal::MismatchingServers
                    } else if agg.message_vector.len() != raw@.message_vector.len()
                        || agg.auction_vector.len() != raw@.auction_vector.len() {
                        Refusal::MismatchingVectorLengths
                    } else {
                        Refusal::DuplicateSubmission(hex_text(signer@))
                    }
                    &&& raw.round_number != cur || agg.all_server_ids != raw@.all_server_ids
                        || agg.message_vector.len() != raw@.message_vector.len()
                        || agg.auction_vector.len() != raw@.auction_vector.len()
                        || agg.user_pks.contains(signer@)
                },
            }
        }),
{
    let ghost start = rd@;
    if raw.round_number != cur {
        return (
            rd,
            Err(ProtocolError::WrongRound { got: raw.round_number, expected: cur }),
        );
    }
    let mut rd = rd;
    let mut found: Option<AggregatedClientMessages> = None;
    std::mem::swap(&mut found, &mut rd.direct_aggregate);
    match found {
        Some(agg) => {
            let mut agg = agg;
            let ghost before = agg@;
            let refusal = if !ids_equal(&agg.all_server_ids, &raw.all_server_ids) {
                Some(ProtocolError::MismatchingServers)
            } else if agg.message_vector.len() != raw.message_vector.len()
                || agg.auction_vector.len() != raw.auction_vector.len() {
                Some(ProtocolError::MismatchingVectorLengths)
            } else if key_among(&agg.user_pks, agg.user_pks.len(), signer) {
                Some(ProtocolError::DuplicateSubmission(signer.to_hex()))
            } else {
                None
            };
            proof {
                assert(before.user_pks.take(before.user_pks.len() as int) =~= before.user_pks);
                assert(before.user_pks.len() == agg.user_pks@.len());
            }
            match refusal {
                Some(e) => {
                    rd.direct_aggregate = Some(agg);
                    proof {
                        assert(rd@ =~= start);
                    }
                    (rd, Err(e))
                },
                None => {
                    join(&mut agg, raw, signer);
                    rd.direct_aggregate = Some(agg);
                    (rd, Ok(()))
                },
            }
        },
        None => {
            let mut agg = AggregatedClientMessages {
                round_number: raw.round_number,
                all_server_ids: to_vec(&raw.all_server_ids),
                auction_vector: zeros(raw.auction_vector.len()),
                message_vector: zero_vec(raw.message_vector.len()),
                user_pks: Vec::new(),
            };
            proof {
                assert(agg@ =~= started_by(raw@));
            }
            join(&mut agg, raw, signer);
            rd.direct_aggregate = Some(agg);
            (rd, Ok(()))
        },
    }
}

fn join(agg: &mut AggregatedClientMessages, raw: &ClientRoundMessage, signer: &PublicKey)
    ensures
        final(agg)@ == joined_by(old(agg)@, raw@, signer@),
{
    let ghost before = agg@;
    let ghost keys = agg.user_pks@;
    add_mod_slice(&mut agg.auction_vector, &raw.auction_vector);
    xor_inplace(&mut agg.message_vector, &raw.message_vector);
    agg.user_pks.push(signer.clone());
    proof {
        assert(views(agg.user_pks@) =~= views(keys).push(signer@));
        assert(agg@ =~= joined_by(before, raw@, signer@));
    }
}

impl ServerService {
    /// Run server-side unblinding over the running aggregate. Used in
    /// aggregation-disabled mode to finalize the per-server share. Takes
    /// ownership of the running aggregate (subsequent calls in the same round
    /// will see it gone).
    pub fn finalize_partial_for_direct_aggregate(&mut self) -> (r: Result<
        ServerPartialDecryptionMessage,
        ProtocolError,
    >)
        requires
            old(self)@.config.ok(),
        ensures
            ({
                let before = old(self)@;
                if before.round is None || before.round->0.direct_aggregate is None {
                    outcome(r) == Err::<Partial, Refusal>(Refusal::ClientNotInitialized)
                        && final(self)@ == before
                } else {
                    let agg = before.round->0.direct_aggregate->0;
                    let taken = before.with_round(
                        (RoundState { direct_aggregate: None, ..before.round->0 }),
                    );
                    outcome(r) == taken.aggregate_outcome(agg) && final(self)@
                        == taken.after_aggregate(agg)
                }
            }),
    {
        let ghost before = self@;
        let mut slot: Option<ServerRoundData> = None;
        std::mem::swap(&mut slot, &mut self.round);
        match slot {
            Some(rd) => {
                let mut rd = rd;
                let mut found: Option<AggregatedClientMessages> = None;
                std::mem::swap(&mut found, &mut rd.direct_aggregate);
                self.round = Some(rd);
                match found {
                    Some(agg) => {
                        proof {
                            assert(self@ =~= before.with_round(
                                (RoundState { direct_aggregate: None, ..before.round->0 }),
                            ));
                        }
                        self.process_aggregate_message(&agg)
                    },
                    None => {
                        proof {
                            assert(self@ =~= before);
                        }
                        Err(ProtocolError::ClientNotInitialized)
                    },
                }
            },
            None => {
                proof {
                    assert(self@ =~= before);
                }
                Err(ProtocolError::ClientNotInitialized)
            },
        }
    }

    /// Add this server's share of a batch to what it holds for the round, and
    /// return the sum. The server's own partial joins the partials of the round
    /// through [`Self::process_partial_decryption_message`], not here.
    pub fn process_aggregate_message(&mut self, msg: &AggregatedClientMessages) -> (r: Result<
        ServerPartialDecryptionMessage,
        ProtocolError,
    >)
        requires
            old(self)@.config.ok(),
        ensures
            outcome(r) == old(self)@.aggregate_outcome(msg@),
            final(self)@ == old(self)@.after_aggregate(msg@),
    {
        let ghost before = self@;
        let cur = self.current_round;
        if !id_among(&msg.all_server_ids, self.server_id) {
            return Err(ProtocolError::InvalidServer(self.server_id));
        }
        if msg.round_number != cur {
            return Err(ProtocolError::WrongRound { got: msg.round_number, expected: cur });
        }
        let messager = ServerMessager {
            config: &self.config,
            server_id: self.server_id,
            shared_secrets: &self.shared_secrets,
        };
        let additional = match messager.unblind_aggregate(cur, msg) {
            Ok(p) => p,
            Err(e) => return Err(e),
        };
        let mut slot: Option<ServerRoundData> = None;
        std::mem::swap(&mut slot, &mut self.round);
        match slot {
            None => {
                proof {
                    assert(self@ =~= before);
                }
                Err(ProtocolError::ClientNotInitialized)
            },
            Some(rd) => {
                let mut rd = rd;
                let mut own: Option<ServerPartialDecryptionMessage> = None;
                std::mem::swap(&mut own, &mut rd.own_partial);
                let (now, refusal) = match own {
                    None => (additional, None),
                    Some(current) => {
                        let mut current = current;
                        merge(&mut current, &additional);
                        match current.original_aggregate.union_inplace(msg) {
                            Ok(_) => (current, None),
                            Err(e) => (current, Some(e)),
                        }
                    },
                };
                let out = now.clone();
                rd.own_partial = Some(now);
                self.round = Some(rd);
                proof {
                    assert(self@ =~= before.after_aggregate(msg@));
                }
                match refusal {
                    Some(e) => Err(e),
                    None => Ok(out),
                }
            },
        }
    }

    /// Sign this server's own partial-decryption output. Use the returned
    /// `Signed<...>` envelope when forwarding to peer servers so they can
    /// authenticate it via [`Self::process_signed_partial_decryption_message`].
    pub fn sign_partial(&self, partial: ServerPartialDecryptionMessage) -> (r: Result<
        Signed<ServerPartialDecryptionMessage>,
        ProtocolError,
    >)
        ensures
            match r {
                Ok(s) => {
                    &&& s.object == partial
                    &&& public_half(self@.signing_key) == Ok::<Seq<u8>, KeyError>(s.public_key@)
                    &&& signature_of(
                        self@.signing_key,
                        signed_digest::<ServerPartialDecryptionMessage>(
                            partial@,
                            s.public_key@,
                        ),
                    ) == Ok::<Seq<u8>, KeyError>(s.signature@)
                    &&& halves_match(self@.signing_key) ==> s.authentic()
                },
                Err(e) => public_half(self@.signing_key) == Err::<Seq<u8>, KeyError>(
                    KeyError::InvalidPrivateKeySize,
                ) && e@ == Refusal::Key(KeyError::InvalidPrivateKeySize),
            },
    {
        Signed::new(&self.server_signing_key, partial)
    }

    /// Accept a *signed* partial from another server. Verifies the signature
    /// and checks the claimed `server_id` against the registered peer-pubkey
    /// map (see [`Self::register_peer_server`]). Rejects forged or
    /// unregistered partials before they ever touch the per-round state.
    pub fn process_signed_partial_decryption_message(
        &mut self,
        signed: Signed<ServerPartialDecryptionMessage>,
    ) -> (r: Result<Option<RoundBroadcast>, ProtocolError>)
        requires
            old(self)@.config.ok(),
        ensures
            match old(self)@.sender_refused(
                signed.authentic(),
                signed.object.server_id,
                signed.public_key@,
            ) {
                Some(e) => broadcast_outcome(r) == Err::<Option<Broadcast>, Refusal>(e)
                    && final(self)@ == old(self)@,
                None => broadcast_outcome(r) == old(self)@.partial_outcome(signed.object@)
                    && final(self)@ == old(self)@.after_partial(signed.object@),
            },
    {
        let claimed = signed.object.server_id;
        match signed.recover() {
            Ok(_) => {},
            Err(e) => return Err(e),
        }
        match self.peer_pubkeys.get(&claimed) {
            None => return Err(ProtocolError::UnknownPeerServer(claimed)),
            Some(expected) => if !bytes_equal(signed.public_key.as_bytes(), expected.as_bytes()) {
                return Err(ProtocolError::SignerIdentityMismatch { claimed });
            },
        }
        self.process_partial_decryption_message(signed.object)
    }

    /// Accept a partial from another server. Once all partials have arrived,
    /// returns the reconstructed [`RoundBroadcast`].
    ///
    /// **This is the trusted-input variant**: it expects the caller to have
    /// authenticated `msg` already. For untrusted transport, prefer
    /// [`Self::process_signed_partial_decryption_message`] which gates on the
    /// peer-pubkey registry. Either way, the function rejects duplicate
    /// `server_id`s within a round.
    pub fn process_partial_decryption_message(
        &mut self,
        msg: ServerPartialDecryptionMessage,
    ) -> (r: Result<Option<RoundBroadcast>, ProtocolError>)
        requires
            old(self)@.config.ok(),
        ensures
            broadcast_outcome(r) == old(self)@.partial_outcome(msg@),
            final(self)@ == old(self)@.after_partial(msg@),
    {
        let ghost before = self@;
        let cur = self.current_round;
        if msg.original_aggregate.round_number != cur {
            return Err(
                ProtocolError::WrongRound {
                    got: msg.original_aggregate.round_number,
                    expected: cur,
                },
            );
        }
        let mut slot: Option<ServerRoundData> = None;
        std::mem::swap(&mut slot, &mut self.round);
        match slot {
            None => {
                proof {
                    assert(self@ =~= before);
                }
                Err(ProtocolError::ClientNotInitialized)
            },
            Some(rd) => {
                let messager = ServerMessager {
                    config: &self.config,
                    server_id: self.server_id,
                    shared_secrets: &self.shared_secrets,
                };
                let (rd, r) = take_partial(&messager, rd, msg);
                self.round = Some(rd);
                proof {
                    assert(self@ =~= before.after_partial(msg@));
                }
                r
            },
        }
    }
}

/// The outcome of a partial as the contracts see it.
pub open spec fn broadcast_outcome(r: Result<Option<RoundBroadcast>, ProtocolError>) -> Result<
    Option<Broadcast>,
    Refusal,
> {
    match r {
        Ok(v) => Ok(seen(v)),
        Err(e) => Err(e@),
    }
}

/// Add another share to a partial.
fn merge(current: &mut ServerPartialDecryptionMessage, more: &ServerPartialDecryptionMessage)
    ensures
        final(current)@ == merged(old(current)@, more@),
{
    let ghost before = current@;
    append_keys(&mut current.user_pks, &more.user_pks);
    add_mod_slice(&mut current.auction_vector, &more.auction_vector);
    xor_inplace(&mut current.message_vector, &more.message_vector);
    proof {
        assert(current@ =~= merged(before, more@));
    }
}

/// Take a partial of the current round into the round's state.
fn take_partial(
    messager: &ServerMessager,
    rd: ServerRoundData,
    msg: ServerPartialDecryptionMessage,
) -> (r: (ServerRoundData, Result<Option<RoundBroadcast>, ProtocolError>))
    requires
        messager.config.ok(),
    ensures
        forall|s: ServerState|
            s.config == *messager.config && s.round == Some(rd@) && s.current_round
                == msg.original_aggregate.round_number ==> {
                &&& broadcast_outcome(r.1) == #[trigger] s.partial_outcome(msg@)
                &&& s.after_partial(msg@) == s.with_round(r.0@)
            },
{
    let ghost start = rd@;
    let ghost given = msg@;
    let mut rd = rd;
    match &rd.round_output {
        Some(out) => {
            let again = out.clone();
            return (rd, Ok(Some(again)));
        },
        None => {},
    }
    if !id_among(&msg.original_aggregate.all_server_ids, msg.server_id) {
        return (rd, Err(ProtocolError::InvalidServer(msg.server_id)));
    }
    let n_servers = msg.original_aggregate.all_server_ids.len();
    // Reject duplicate partials from the same server within a round
    // (collision-detection, prevents one peer from racing another's
    // submission even in the unauthenticated path).
    let sid = msg.server_id;
    if rd.partials.contains_key(&sid) {
        return (rd, Err(ProtocolError::DuplicatePartial(sid)));
    }
    rd.partials.insert(sid, msg);
    let mut msgs = list_partials(&rd.partials);
    if msgs.len() < n_servers {
        return (rd, Ok(None));
    }
    match messager.unblind_partial_messages(&mut msgs) {
        Err(e) => (rd, Err(e)),
        Ok(bc) => {
            rd.round_output = Some(bc.clone());
            (rd, Ok(Some(bc)))
        },
    }
}

} // verus!
