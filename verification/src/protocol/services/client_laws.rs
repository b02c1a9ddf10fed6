//! Laws of the client's state: when a message can be scheduled, what goes out in
//! a round, and what each step leaves alone.

use vstd::prelude::*;

use crate::auction::auction::{bid_on, Bid};
use crate::collections::in_order;
use crate::crypto::hashing::{blake3_256, sha256};
use crate::crypto::signing::ed25519_signature;
use crate::crypto::types::{KeyError, ServerId};
use crate::protocol::messager::client::prepared;
use crate::protocol::envelope::{Signed, Transcript};
use crate::protocol::messages::{ClientRoundMessage, ProtocolError, Refusal, Submission};
use crate::protocol::round::Round;

use super::client::{ClientState, Scheduled};

verus! {

/// A message can be scheduled exactly if it is not empty, a round has begun and
/// no other message waits for its bid; whatever is scheduled already, and
/// whatever else the client holds, does not matter.
pub proof fn law_scheduling_is_refused_only_if(s: ClientState, msg: Seq<u8>)
    ensures
        s.schedule_refused(msg) is None <==> msg.len() > 0 && s.current_round != 0 && s.pending
            is None,
        msg.len() == 0 ==> s.schedule_refused(msg) == Some(Refusal::NilMessage),
        msg.len() > 0 && s.current_round == 0 ==> s.schedule_refused(msg) == Some(
            Refusal::ClientNotInitialized,
        ),
        msg.len() > 0 && s.current_round != 0 && s.pending is Some ==> s.schedule_refused(msg)
            == Some(Refusal::AlreadyPending),
{
}

/// Two clients in the same round of which neither or both have a message that
/// waits for its bid answer alike, whatever each has scheduled.
pub proof fn law_scheduling_ignores_what_is_scheduled(
    s: ClientState,
    t: ClientState,
    msg: Seq<u8>,
)
    requires
        s.current_round == t.current_round,
        s.pending is Some <==> t.pending is Some,
    ensures
        s.schedule_refused(msg) == t.schedule_refused(msg),
{
}

/// Once the bid of a round went out, the next message can be scheduled at once,
/// in that round and after the move to a later one.
pub proof fn law_next_message_can_be_scheduled(s: ClientState, msg: Seq<u8>, next: Round)
    requires
        s.follows_broadcast(),
        s.current_round != 0,
        msg.len() > 0,
        next.number != 0,
    ensures
        s.after_messages().schedule_refused(msg) is None,
        s.after_messages().advanced(next).schedule_refused(msg) is None,
{
}

/// The broadcast that a client builds on is the one of the round before.
pub proof fn law_client_builds_on_the_round_before(s: ClientState)
    ensures
        s.follows_broadcast() <==> s.last_broadcast is Some
            && s.last_broadcast->0.round_number == s.current_round - 1,
{
}

/// What goes out in a round is the message whose bid went out in the round
/// before, or nothing; with it goes the bid of the message that waits, or none.
pub proof fn law_what_goes_out(s: ClientState)
    ensures
        s.scheduled is Some && s.scheduled->0.auction_round == s.current_round - 1
            ==> s.outgoing() == s.scheduled->0.message,
        !(s.scheduled is Some && s.scheduled->0.auction_round == s.current_round - 1)
            ==> s.outgoing() == Seq::<u8>::empty(),
        s.pending is Some ==> s.outgoing_bid() == Some(s.pending->0.bid),
        s.pending is None ==> s.outgoing_bid() == None::<Bid>,
{
}

/// After the messages of a round were asked for, nothing waits for its bid. The
/// message that waited is scheduled with this round as the round of its bid;
/// where none waited, a message that is not due stays scheduled. Without the
/// broadcast of the round before nothing changes.
pub proof fn law_messages_move_on(s: ClientState)
    ensures
        !s.follows_broadcast() ==> s.after_messages() == s,
        s.follows_broadcast() ==> {
            let then = s.after_messages();
            &&& then.pending is None
            &&& s.pending is Some ==> then.scheduled == Some(
                (Scheduled { message: s.pending->0.message, auction_round: s.current_round }),
            )
            &&& s.pending is None && s.scheduled is Some && s.scheduled->0.auction_round
                == s.current_round - 1 ==> then.scheduled is None
            &&& s.pending is None && !(s.scheduled is Some && s.scheduled->0.auction_round
                == s.current_round - 1) ==> then.scheduled == s.scheduled
            &&& then.config == s.config
            &&& then.exchange_key == s.exchange_key
            &&& then.signing_key == s.signing_key
            &&& then.shared_secrets == s.shared_secrets
            &&& then.current_round == s.current_round
            &&& then.last_broadcast == s.last_broadcast
        },
{
}

/// The move to a later round drops a scheduled message exactly if its bid went
/// out more than one round before, and keeps the rest; a move to the current or
/// an earlier round changes nothing.
pub proof fn law_moving_on_keeps_what_is_due(s: ClientState, round: Round)
    ensures
        round.number <= s.current_round ==> s.advanced(round) == s,
        round.number > s.current_round ==> {
            let then = s.advanced(round);
            &&& then.current_round == round.number
            &&& s.scheduled is Some && s.scheduled->0.auction_round < round.number - 1
                ==> then.scheduled is None
            &&& s.scheduled is Some && s.scheduled->0.auction_round >= round.number - 1
                ==> then.scheduled == s.scheduled
            &&& s.scheduled is None ==> then.scheduled is None
            &&& then.pending == s.pending
            &&& then.last_broadcast == s.last_broadcast
            &&& then.config == s.config
            &&& then.exchange_key == s.exchange_key
            &&& then.signing_key == s.signing_key
            &&& then.shared_secrets == s.shared_secrets
        },
{
}

/// A client submits what its messager prepares, over the broadcast of the round
/// before, of the message and the bid that go out. Without that broadcast it
/// submits nothing, and a signing key that is too short is reported after
/// everything else.
pub proof fn law_clients_submit_what_is_prepared(s: ClientState, key: Seq<u8>)
    ensures
        ({
            let r = s.submission(key);
            let ready = prepared(
                s.config,
                in_order::<ServerId, Seq<u8>>(s.shared_secrets),
                s.current_round,
                s.last_broadcast->0,
                s.outgoing(),
                s.outgoing_bid(),
                key,
            );
            &&& !s.follows_broadcast() ==> r == Err::<(Submission, bool), Refusal>(
                Refusal::NoPreviousBroadcast,
            )
            &&& s.follows_broadcast() && ready is Err ==> r == ready
            &&& s.follows_broadcast() && ready is Ok && s.signing_key.len() < 64 ==> r == Err::<
                (Submission, bool),
                Refusal,
            >(Refusal::Key(KeyError::InvalidPrivateKeySize))
            &&& s.follows_broadcast() && ready is Ok && s.signing_key.len() >= 64 ==> r == ready
        }),
{
}

/// A bid carries the SHA-256 digest of its message, the weight given, and the
/// length of the message, of which it keeps the low 32 bits.
pub proof fn law_bids_describe_their_message(msg: Seq<u8>, weight: u32)
    ensures
        bid_on(msg, weight).message_hash == sha256(msg),
        bid_on(msg, weight).weight == weight,
        msg.len() <= u32::MAX ==> bid_on(msg, weight).size == msg.len(),
        bid_on(msg, weight).size == msg.len() % 0x1_0000_0000,
{
}

/// What a client sends is its submission in an envelope: with the public half of
/// its signing key, and the Ed25519 signature under the secret half of the BLAKE3
/// digest of the byte form of the submission and the public half. It sends
/// exactly if it has a submission, and otherwise reports why it has none.
pub proof fn law_submissions_are_sent_signed(
    s: ClientState,
    r: Result<(Signed<ClientRoundMessage>, bool), ProtocolError>,
    key: Seq<u8>,
)
    requires
        s.sends(r, key),
    ensures
        r is Ok <==> s.submission(key) is Ok,
        r matches Err(e) ==> s.submission(key) == Err::<(Submission, bool), Refusal>(e@),
        r matches Ok(p) ==> {
            let public = s.signing_key.subrange(32, 64);
            &&& s.submission(key) == Ok::<(Submission, bool), Refusal>((p.0.object@, p.1))
            &&& p.0.public_key@ == public
            &&& p.0.signature@ == ed25519_signature(
                s.signing_key.subrange(0, 32),
                blake3_256(ClientRoundMessage::transcript(p.0.object@) + public),
            )
        },
{
    assert(s.signing_key.subrange(0, 32) == s.signing_key.take(32));
}

} // verus!
