//! Wire-level message types. The generic signed envelope stands in
//! [`crate::protocol::envelope`].

use vstd::prelude::*;

use crate::auction::iblt::{IbltError, IbltVector, Table};
use crate::bytes::{append_slice, bytes_equal, le_seq, to_vec};
use crate::crypto::blinding::{vxor, xor_inplace};
use crate::crypto::fields::{
    add_mod_slice, all_canonical, canonical, is_all_canonical, sub_mod_slice, vadd, vsub,
};
use crate::crypto::hexadecimal::hex_text;
use crate::crypto::types::{KeyError, PublicKey, ServerId};
use crate::sorting::{views, Ranked};
use crate::sums::{byte_at, lemma_xor, word_at};

use super::envelope::Transcript;
use super::wire::{
    bytes_field, encode_bytes, encode_i64, encode_ids, encode_keys, encode_u32, encode_u64,
    encode_words, i64_bytes, ids_field, keys_field, words_field,
};
use u64_vec_bytes::words_bytes;

pub mod u64_vec_bytes;

pub use super::envelope::Signed;

verus! {

/// Why a protocol step is refused.
#[derive(Debug)]
pub enum ProtocolError {
    NonCanonicalFieldElement,
    BadSignature,
    MismatchingRounds,
    MismatchingServers,
    MismatchingVectorLengths,
    WrongRound { got: i64, expected: i64 },
    InvalidServer(ServerId),
    NoSharedKey(String),
    ClientNotInitialized,
    AlreadyPending,
    NoPreviousBroadcast,
    UnknownPreviousRound,
    NilMessage,
    MessageExceedsAllocatedSlot { needed: usize, available: usize },
    EmptyPartials,
    DuplicatePartial(ServerId),
    DuplicateSubmission(String),
    MismatchingAggregate,
    SignerIdentityMismatch { claimed: ServerId },
    UnknownPeerServer(ServerId),
    Bincode(String),
    Key(KeyError),
    Iblt(IbltError),
    /// The keystream of a secret does not hold a pad of the length asked for.
    PadExhausted,
}

/// A [`ProtocolError`] as the contracts see it.
#[verifier::ext_equal]
pub enum Refusal {
    NonCanonicalFieldElement,
    BadSignature,
    MismatchingRounds,
    MismatchingServers,
    MismatchingVectorLengths,
    WrongRound { got: i64, expected: i64 },
    InvalidServer(ServerId),
    NoSharedKey(Seq<char>),
    ClientNotInitialized,
    AlreadyPending,
    NoPreviousBroadcast,
    UnknownPreviousRound,
    NilMessage,
    MessageExceedsAllocatedSlot { needed: usize, available: usize },
    EmptyPartials,
    DuplicatePartial(ServerId),
    DuplicateSubmission(Seq<char>),
    MismatchingAggregate,
    SignerIdentityMismatch { claimed: ServerId },
    UnknownPeerServer(ServerId),
    Bincode(Seq<char>),
    Key(KeyError),
    Iblt(IbltError),
    PadExhausted,
}

impl View for ProtocolError {
    type V = Refusal;

    open spec fn view(&self) -> Refusal {
        match *self {
            ProtocolError::NonCanonicalFieldElement => Refusal::NonCanonicalFieldElement,
            ProtocolError::BadSignature => Refusal::BadSignature,
            ProtocolError::MismatchingRounds => Refusal::MismatchingRounds,
            ProtocolError::MismatchingServers => Refusal::MismatchingServers,
            ProtocolError::MismatchingVectorLengths => Refusal::MismatchingVectorLengths,
            ProtocolError::WrongRound { got, expected } => Refusal::WrongRound { got, expected },
            ProtocolError::InvalidServer(id) => Refusal::InvalidServer(id),
            ProtocolError::NoSharedKey(s) => Refusal::NoSharedKey(s@),
            ProtocolError::ClientNotInitialized => Refusal::ClientNotInitialized,
            ProtocolError::AlreadyPending => Refusal::AlreadyPending,
            ProtocolError::NoPreviousBroadcast => Refusal::NoPreviousBroadcast,
            ProtocolError::UnknownPreviousRound => Refusal::UnknownPreviousRound,
            ProtocolError::NilMessage => Refusal::NilMessage,
            ProtocolError::MessageExceedsAllocatedSlot { needed, available } => {
                Refusal::MessageExceedsAllocatedSlot { needed, available }
            },
            ProtocolError::EmptyPartials => Refusal::EmptyPartials,
            ProtocolError::DuplicatePartial(id) => Refusal::DuplicatePartial(id),
            ProtocolError::DuplicateSubmission(s) => Refusal::DuplicateSubmission(s@),
            ProtocolError::MismatchingAggregate => Refusal::MismatchingAggregate,
            ProtocolError::SignerIdentityMismatch { claimed } => {
                Refusal::SignerIdentityMismatch { claimed }
            },
            ProtocolError::UnknownPeerServer(id) => Refusal::UnknownPeerServer(id),
            ProtocolError::Bincode(s) => Refusal::Bincode(s@),
            ProtocolError::Key(e) => Refusal::Key(e),
            ProtocolError::Iblt(e) => Refusal::Iblt(e),
            ProtocolError::PadExhausted => Refusal::PadExhausted,
        }
    }
}

/// The outcome of a protocol step as the contracts see it.
pub open spec fn outcome<T: View>(r: Result<T, ProtocolError>) -> Result<T::V, Refusal> {
    match r {
        Ok(v) => Ok(v@),
        Err(e) => Err(e@),
    }
}

// ---------------------------------------------------------------------------
// Client messages
// ---------------------------------------------------------------------------

/// Per-round, per-client submission.
#[derive(Debug)]
pub struct ClientRoundMessage {
    pub round_number: i64,
    pub all_server_ids: Vec<ServerId>,
    pub auction_vector: Vec<u64>,
    pub message_vector: Vec<u8>,
}

/// A [`ClientRoundMessage`] as the contracts see it.
#[verifier::ext_equal]
pub struct Submission {
    pub round_number: i64,
    pub all_server_ids: Seq<ServerId>,
    pub auction_vector: Seq<u64>,
    pub message_vector: Seq<u8>,
}

impl View for ClientRoundMessage {
    type V = Submission;

    open spec fn view(&self) -> Submission {
        Submission {
            round_number: self.round_number,
            all_server_ids: self.all_server_ids@,
            auction_vector: self.auction_vector@,
            message_vector: self.message_vector@,
        }
    }
}

impl Clone for ClientRoundMessage {
    fn clone(&self) -> (r: Self)
        ensures
            r@ == self@,
    {
        ClientRoundMessage {
            round_number: self.round_number,
            all_server_ids: to_vec(&self.all_server_ids),
            auction_vector: to_vec(&self.auction_vector),
            message_vector: to_vec(&self.message_vector),
        }
    }
}

impl Transcript for ClientRoundMessage {
    open spec fn transcript(m: Submission) -> Seq<u8> {
        i64_bytes(m.round_number) + ids_field(m.all_server_ids) + bytes_field(
            words_bytes(m.auction_vector),
        ) + bytes_field(m.message_vector)
    }

    fn to_transcript(&self) -> (out: Vec<u8>) {
        let mut out = encode_i64(self.round_number);
        append_slice(&mut out, &encode_ids(&self.all_server_ids));
        append_slice(&mut out, &encode_bytes(&u64_vec_bytes::serialize(&self.auction_vector)));
        append_slice(&mut out, &encode_bytes(&self.message_vector));
        out
    }
}

// ---------------------------------------------------------------------------
// Aggregates
// ---------------------------------------------------------------------------

/// Aggregator output (or single-client equivalent if aggregation is disabled).
#[derive(Debug)]
pub struct AggregatedClientMessages {
    pub round_number: i64,
    pub all_server_ids: Vec<ServerId>,
    pub auction_vector: Vec<u64>,
    pub message_vector: Vec<u8>,
    pub user_pks: Vec<PublicKey>,
}

/// An [`AggregatedClientMessages`] as the contracts see it.
#[verifier::ext_equal]
pub struct Aggregate {
    pub round_number: i64,
    pub all_server_ids: Seq<ServerId>,
    pub auction_vector: Seq<u64>,
    pub message_vector: Seq<u8>,
    pub user_pks: Seq<Seq<u8>>,
}

impl View for AggregatedClientMessages {
    type V = Aggregate;

    open spec fn view(&self) -> Aggregate {
        Aggregate {
            round_number: self.round_number,
            all_server_ids: self.all_server_ids@,
            auction_vector: self.auction_vector@,
            message_vector: self.message_vector@,
            user_pks: views(self.user_pks@),
        }
    }
}

/// Copies of public keys.
pub fn clone_keys(keys: &[PublicKey]) -> (out: Vec<PublicKey>)
    ensures
        views(out@) == views(keys@),
{
    let mut out: Vec<PublicKey> = Vec::new();
    append_keys(&mut out, keys);
    proof {
        assert(views(out@) =~= views(keys@));
    }
    out
}

/// Append copies of public keys.
pub fn append_keys(out: &mut Vec<PublicKey>, keys: &[PublicKey])
    ensures
        views(final(out)@) == views(old(out)@) + views(keys@),
{
    let mut i: usize = 0;
    while i < keys.len()
        invariant
            i <= keys@.len(),
            out@.len() == old(out)@.len() + i,
            forall|k: int|
                0 <= k < old(out)@.len() ==> (#[trigger] out@[k])@ == old(out)@[k]@,
            forall|k: int|
                old(out)@.len() <= k < out@.len() ==> (#[trigger] out@[k])@ == keys@[k
                    - old(out)@.len()]@,
        decreases keys@.len() - i,
    {
        out.push(keys[i].clone());
        i = i + 1;
    }
    proof {
        assert(views(out@) =~= views(old(out)@) + views(keys@));
    }
}

/// Whether `key` is among the first `n` of `keys`.
pub fn key_among(keys: &[PublicKey], n: usize, key: &PublicKey) -> (r: bool)
    requires
        n <= keys@.len(),
    ensures
        r == views(keys@).take(n as int).contains(key@),
{
    let ghost all = views(keys@);
    let mut i: usize = 0;
    while i < n
        invariant
            i <= n <= keys@.len(),
            all == views(keys@),
            forall|k: int| 0 <= k < i ==> #[trigger] all[k] != key@,
        decreases n - i,
    {
        if bytes_equal(keys[i].as_bytes(), key.as_bytes()) {
            proof {
                assert(all.take(n as int)[i as int] == key@);
            }
            return true;
        }
        i = i + 1;
    }
    proof {
        let head = all.take(n as int);
        assert forall|k: int| 0 <= k < head.len() implies head[k] != key@ by {
            assert(head[k] == all[k]);
        }
    }
    false
}

/// Whether two lists of public keys are the same.
pub fn keys_equal(a: &[PublicKey], b: &[PublicKey]) -> (r: bool)
    ensures
        r == (views(a@) == views(b@)),
{
    if a.len() != b.len() {
        proof {
            assert(views(a@).len() != views(b@).len());
        }
        return false;
    }
    let mut i: usize = 0;
    while i < a.len()
        invariant
            a@.len() == b@.len(),
            i <= a@.len(),
            forall|k: int| 0 <= k < i ==> (#[trigger] a@[k])@ == b@[k]@,
        decreases a@.len() - i,
    {
        if !bytes_equal(a[i].as_bytes(), b[i].as_bytes()) {
            proof {
                assert(views(a@)[i as int] != views(b@)[i as int]);
            }
            return false;
        }
        i = i + 1;
    }
    proof {
        assert(views(a@) =~= views(b@));
    }
    true
}

/// Whether two lists of server identifiers are the same.
pub fn ids_equal(a: &[ServerId], b: &[ServerId]) -> (r: bool)
    ensures
        r == (a@ == b@),
{
    if a.len() != b.len() {
        return false;
    }
    let mut i: usize = 0;
    while i < a.len()
        invariant
            a@.len() == b@.len(),
            i <= a@.len(),
            forall|k: int| 0 <= k < i ==> a@[k] == b@[k],
        decreases a@.len() - i,
    {
        if a[i] != b[i] {
            return false;
        }
        i = i + 1;
    }
    proof {
        assert(a@ =~= b@);
    }
    true
}

/// Whether `id` is among `ids`.
pub fn id_among(ids: &[ServerId], id: ServerId) -> (r: bool)
    ensures
        r == ids@.contains(id),
{
    let mut i: usize = 0;
    while i < ids.len()
        invariant
            i <= ids@.len(),
            forall|k: int| 0 <= k < i ==> ids@[k] != id,
        decreases ids@.len() - i,
    {
        if ids[i] == id {
            return true;
        }
        i = i + 1;
    }
    false
}

/// The first key from position `i` on that stands further in front already.
pub open spec fn repeated_key(keys: Seq<Seq<u8>>, i: int) -> Option<Seq<u8>>
    decreases keys.len() - i,
{
    if i < 0 || i >= keys.len() {
        None
    } else if keys.take(i).contains(keys[i]) {
        Some(keys[i])
    } else {
        repeated_key(keys, i + 1)
    }
}

/// The hexadecimal form of the first key that occurs twice in `keys`, if there
/// is one.
pub fn find_repeated_key(keys: &[PublicKey]) -> (r: Option<String>)
    ensures
        match r {
            Some(hex) => repeated_key(views(keys@), 0) is Some && hex@ == hex_text(
                repeated_key(views(keys@), 0)->0,
            ),
            None => repeated_key(views(keys@), 0) is None,
        },
{
    let ghost all = views(keys@);
    let mut i: usize = 0;
    while i < keys.len()
        invariant
            i <= keys@.len(),
            all == views(keys@),
            repeated_key(all, 0) == repeated_key(all, i as int),
        decreases keys@.len() - i,
    {
        if key_among(keys, i, &keys[i]) {
            return Some(keys[i].to_hex());
        }
        i = i + 1;
    }
    None
}

impl Clone for AggregatedClientMessages {
    fn clone(&self) -> (r: Self)
        ensures
            r@ == self@,
    {
        AggregatedClientMessages {
            round_number: self.round_number,
            all_server_ids: to_vec(&self.all_server_ids),
            auction_vector: to_vec(&self.auction_vector),
            message_vector: to_vec(&self.message_vector),
            user_pks: clone_keys(&self.user_pks),
        }
    }
}

impl Aggregate {
    /// The aggregate of no client.
    pub open spec fn blank() -> Aggregate {
        Aggregate {
            round_number: 0,
            all_server_ids: Seq::empty(),
            auction_vector: Seq::empty(),
            message_vector: Seq::empty(),
            user_pks: Seq::empty(),
        }
    }

    /// Nothing has been put into the aggregate.
    pub open spec fn is_blank(self) -> bool {
        &&& self.all_server_ids.len() == 0
        &&& self.auction_vector.len() == 0
        &&& self.message_vector.len() == 0
        &&& self.user_pks.len() == 0
    }

    /// Why `o` cannot be added to this aggregate, if it cannot.
    pub open spec fn union_refused(self, o: Aggregate) -> Option<Refusal> {
        let members = self.user_pks + o.user_pks;
        if !self.is_blank() && self.round_number != o.round_number {
            Some(Refusal::MismatchingRounds)
        } else if !self.is_blank() && self.all_server_ids != o.all_server_ids {
            Some(Refusal::MismatchingServers)
        } else if !self.is_blank() && (self.auction_vector.len() != o.auction_vector.len()
            || self.message_vector.len() != o.message_vector.len()) {
            Some(Refusal::MismatchingVectorLengths)
        } else if repeated_key(members, 0) is Some {
            Some(Refusal::DuplicateSubmission(hex_text(repeated_key(members, 0)->0)))
        } else if !all_canonical(self.auction_vector) || !all_canonical(o.auction_vector) {
            Some(Refusal::NonCanonicalFieldElement)
        } else {
            None
        }
    }

    /// This aggregate with `o` added to it.
    pub open spec fn union(self, o: Aggregate) -> Aggregate {
        if self.is_blank() {
            o
        } else {
            Aggregate {
                auction_vector: vadd(self.auction_vector, o.auction_vector),
                message_vector: vxor(self.message_vector, o.message_vector),
                user_pks: self.user_pks + o.user_pks,
                ..self
            }
        }
    }

    /// The outcome of adding `o` to this aggregate.
    pub open spec fn unioned(self, o: Aggregate) -> Result<Aggregate, Refusal> {
        match self.union_refused(o) {
            Some(e) => Err(e),
            None => Ok(self.union(o)),
        }
    }
}

impl AggregatedClientMessages {
    pub fn empty() -> (r: Self)
        ensures
            r@ == Aggregate::blank(),
    {
        let r = AggregatedClientMessages {
            round_number: 0,
            all_server_ids: Vec::new(),
            auction_vector: Vec::new(),
            message_vector: Vec::new(),
            user_pks: Vec::new(),
        };
        proof {
            assert(r@ =~= Aggregate::blank());
        }
        r
    }

    /// Field-add the auction vectors, XOR the message vectors, and concatenate
    /// user PK lists. A refusal leaves the aggregate as it was.
    pub fn union_inplace(&mut self, o: &AggregatedClientMessages) -> (r: Result<
        (),
        ProtocolError,
    >)
        ensures
            match r {
                Ok(_) => old(self)@.unioned(o@) == Ok::<Aggregate, Refusal>(final(self)@),
                Err(e) => old(self)@.unioned(o@) == Err::<Aggregate, Refusal>(e@) && final(self)@
                    == old(self)@,
            },
    {
        let empty = self.all_server_ids.len() == 0 && self.auction_vector.len() == 0
            && self.message_vector.len() == 0 && self.user_pks.len() == 0;
        if !empty {
            if self.round_number != o.round_number {
                return Err(ProtocolError::MismatchingRounds);
            }
            if !ids_equal(&self.all_server_ids, &o.all_server_ids) {
                return Err(ProtocolError::MismatchingServers);
            }
            if self.auction_vector.len() != o.auction_vector.len() || self.message_vector.len()
                != o.message_vector.len() {
                return Err(ProtocolError::MismatchingVectorLengths);
            }
        }
        let mut members = clone_keys(&self.user_pks);
        append_keys(&mut members, &o.user_pks);
        match find_repeated_key(&members) {
            Some(hex) => return Err(ProtocolError::DuplicateSubmission(hex)),
            None => {},
        }
        if !is_all_canonical(&self.auction_vector) || !is_all_canonical(&o.auction_vector) {
            return Err(ProtocolError::NonCanonicalFieldElement);
        }
        if empty {
            *self = o.clone();
            return Ok(());
        }
        add_mod_slice(&mut self.auction_vector, &o.auction_vector);
        xor_inplace(&mut self.message_vector, &o.message_vector);
        self.user_pks = members;
        proof {
            assert(self@ =~= old(self)@.union(o@));
        }
        Ok(())
    }
}

impl Transcript for AggregatedClientMessages {
    open spec fn transcript(m: Aggregate) -> Seq<u8> {
        i64_bytes(m.round_number) + ids_field(m.all_server_ids) + bytes_field(
            words_bytes(m.auction_vector),
        ) + bytes_field(m.message_vector) + keys_field(m.user_pks)
    }

    fn to_transcript(&self) -> (out: Vec<u8>) {
        let mut out = encode_i64(self.round_number);
        append_slice(&mut out, &encode_ids(&self.all_server_ids));
        append_slice(&mut out, &encode_bytes(&u64_vec_bytes::serialize(&self.auction_vector)));
        append_slice(&mut out, &encode_bytes(&self.message_vector));
        append_slice(&mut out, &encode_keys(&self.user_pks));
        out
    }
}

// ---------------------------------------------------------------------------
// Partial decryptions and broadcasts
// ---------------------------------------------------------------------------

/// A server's partial-decryption share: contains its unblinding vectors plus
/// the aggregate they were derived from.
#[derive(Debug)]
pub struct ServerPartialDecryptionMessage {
    pub server_id: ServerId,
    pub original_aggregate: AggregatedClientMessages,
    pub user_pks: Vec<PublicKey>,
    pub auction_vector: Vec<u64>,
    pub message_vector: Vec<u8>,
}

/// A [`ServerPartialDecryptionMessage`] as the contracts see it.
#[verifier::ext_equal]
pub struct Partial {
    pub server_id: ServerId,
    pub original_aggregate: Aggregate,
    pub user_pks: Seq<Seq<u8>>,
    pub auction_vector: Seq<u64>,
    pub message_vector: Seq<u8>,
}

impl View for ServerPartialDecryptionMessage {
    type V = Partial;

    open spec fn view(&self) -> Partial {
        Partial {
            server_id: self.server_id,
            original_aggregate: self.original_aggregate@,
            user_pks: views(self.user_pks@),
            auction_vector: self.auction_vector@,
            message_vector: self.message_vector@,
        }
    }
}

impl Clone for ServerPartialDecryptionMessage {
    fn clone(&self) -> (r: Self)
        ensures
            r@ == self@,
    {
        ServerPartialDecryptionMessage {
            server_id: self.server_id,
            original_aggregate: self.original_aggregate.clone(),
            user_pks: clone_keys(&self.user_pks),
            auction_vector: to_vec(&self.auction_vector),
            message_vector: to_vec(&self.message_vector),
        }
    }
}

/// Partials rank by their server.
impl Ranked for ServerPartialDecryptionMessage {
    open spec fn ranks_le(a: Partial, b: Partial) -> bool {
        a.server_id.0 <= b.server_id.0
    }

    proof fn lemma_total(a: Partial, b: Partial) {
    }

    proof fn lemma_transitive(a: Partial, b: Partial, c: Partial) {
    }

    fn not_above(&self, other: &Self) -> (r: bool) {
        self.server_id.0 <= other.server_id.0
    }
}

impl Transcript for ServerPartialDecryptionMessage {
    open spec fn transcript(m: Partial) -> Seq<u8> {
        le_seq(m.server_id.0 as nat, 4) + AggregatedClientMessages::transcript(
            m.original_aggregate,
        ) + keys_field(m.user_pks) + bytes_field(words_bytes(m.auction_vector)) + bytes_field(
            m.message_vector,
        )
    }

    fn to_transcript(&self) -> (out: Vec<u8>) {
        let mut out = encode_u32(self.server_id.0);
        append_slice(&mut out, &self.original_aggregate.to_transcript());
        append_slice(&mut out, &encode_keys(&self.user_pks));
        append_slice(&mut out, &encode_bytes(&u64_vec_bytes::serialize(&self.auction_vector)));
        append_slice(&mut out, &encode_bytes(&self.message_vector));
        out
    }
}

#[derive(Debug)]
pub struct RoundBroadcast {
    pub round_number: i64,
    pub auction_vector: IbltVector,
    pub message_vector: Vec<u8>,
}

/// A [`RoundBroadcast`] as the contracts see it.
#[verifier::ext_equal]
pub struct Broadcast {
    pub round_number: i64,
    pub auction_vector: Table,
    pub message_vector: Seq<u8>,
}

impl View for RoundBroadcast {
    type V = Broadcast;

    open spec fn view(&self) -> Broadcast {
        Broadcast {
            round_number: self.round_number,
            auction_vector: self.auction_vector@,
            message_vector: self.message_vector@,
        }
    }
}

impl Transcript for IbltVector {
    open spec fn transcript(t: Table) -> Seq<u8> {
        le_seq(t.estimated_elements as nat, 4) + le_seq(t.gamma as nat, 8) + le_seq(
            t.delta as nat,
            8,
        ) + le_seq(t.xi as nat, 8) + words_field(t.counters) + words_field(t.keys) + words_field(
            t.values,
        )
    }

    fn to_transcript(&self) -> (out: Vec<u8>) {
        let mut out = encode_u32(self.estimated_elements);
        append_slice(&mut out, &encode_u64(self.gamma as u64));
        append_slice(&mut out, &encode_u64(self.delta as u64));
        append_slice(&mut out, &encode_u64(self.xi as u64));
        append_slice(&mut out, &encode_words(&self.counters));
        append_slice(&mut out, &encode_words(&self.keys));
        append_slice(&mut out, &encode_words(&self.values));
        out
    }
}

impl Transcript for RoundBroadcast {
    open spec fn transcript(m: Broadcast) -> Seq<u8> {
        i64_bytes(m.round_number) + IbltVector::transcript(m.auction_vector) + bytes_field(
            m.message_vector,
        )
    }

    fn to_transcript(&self) -> (out: Vec<u8>) {
        let mut out = encode_i64(self.round_number);
        append_slice(&mut out, &self.auction_vector.to_transcript());
        append_slice(&mut out, &encode_bytes(&self.message_vector));
        out
    }
}

impl Clone for RoundBroadcast {
    fn clone(&self) -> (r: Self)
        ensures
            r@ == self@,
    {
        RoundBroadcast {
            round_number: self.round_number,
            auction_vector: self.auction_vector.clone(),
            message_vector: to_vec(&self.message_vector),
        }
    }
}

/// In-place field subtraction `a -= b` over the auction vector, mirroring
/// [`AggregatedClientMessages::union_inplace`]'s add semantics.
pub fn sub_assign_field(a: &mut [u64], b: &[u64])
    ensures
        final(a)@ == vsub(old(a)@, b@),
{
    sub_mod_slice(a, b);
}

// ---------------------------------------------------------------------------
// Laws
// ---------------------------------------------------------------------------

/// Every member of an aggregate occurs once.
pub open spec fn members_distinct(a: Aggregate) -> bool {
    forall|i: int, j: int|
        0 <= i < j < a.user_pks.len() ==> #[trigger] a.user_pks[i] != #[trigger] a.user_pks[j]
}

proof fn lemma_no_repeats(keys: Seq<Seq<u8>>, i: int)
    requires
        0 <= i,
        repeated_key(keys, i) is None,
    ensures
        forall|m: int, n: int|
            0 <= m < n < keys.len() && i <= n ==> #[trigger] keys[m] != #[trigger] keys[n],
    decreases keys.len() - i,
{
    if i < keys.len() {
        lemma_no_repeats(keys, i + 1);
        assert forall|m: int, n: int| 0 <= m < n < keys.len() && i <= n implies #[trigger] keys[m]
            != #[trigger] keys[n] by {
            if n == i {
                assert(keys.take(i)[m] == keys[m]);
            }
        }
    }
}

/// A union that is accepted has distinct members and canonical elements, so
/// that no client counts twice.
pub proof fn law_union_members_are_distinct(a: Aggregate, b: Aggregate)
    requires
        a.unioned(b) is Ok,
    ensures
        members_distinct(a.unioned(b)->Ok_0),
        a.unioned(b)->Ok_0.user_pks == a.user_pks + b.user_pks,
        all_canonical(a.unioned(b)->Ok_0.auction_vector),
{
    let all = a.user_pks + b.user_pks;
    lemma_no_repeats(all, 0);
    if a.is_blank() {
        assert(all =~= b.user_pks);
    } else {
        let sum = vadd(a.auction_vector, b.auction_vector);
        assert forall|i: int| 0 <= i < sum.len() implies #[trigger] crate::crypto::fields::canonical(
            sum[i],
        ) by {
            crate::crypto::fields::law_add_sub_cancel(
                a.auction_vector[i] % crate::crypto::fields::P,
                b.auction_vector[i],
            );
            assert(crate::crypto::fields::canonical(a.auction_vector[i]));
        }
    }
}

proof fn lemma_repeat_found(keys: Seq<Seq<u8>>, i: int, m: int, n: int)
    requires
        0 <= i <= n,
        0 <= m < n < keys.len(),
        keys[m] == keys[n],
    ensures
        repeated_key(keys, i) is Some,
    decreases n - i,
{
    if i == n {
        assert(keys.take(i)[m] == keys[m]);
    } else if !keys.take(i).contains(keys[i]) {
        lemma_repeat_found(keys, i + 1, m, n);
    }
}

/// An aggregate with members cannot be added to itself, nor to any other that
/// shares a member with it.
pub proof fn law_shared_member_is_refused(a: Aggregate, b: Aggregate, i: int, j: int)
    requires
        0 <= i < a.user_pks.len(),
        0 <= j < b.user_pks.len(),
        a.user_pks[i] == b.user_pks[j],
    ensures
        a.unioned(b) is Err,
        a.round_number == b.round_number && a.all_server_ids == b.all_server_ids
            && a.auction_vector.len() == b.auction_vector.len() && a.message_vector.len()
            == b.message_vector.len() ==> a.unioned(b)->Err_0 is DuplicateSubmission,
{
    let all = a.user_pks + b.user_pks;
    assert(all[i] == a.user_pks[i]);
    assert(all[a.user_pks.len() + j] == b.user_pks[j]);
    lemma_repeat_found(all, 0, i, a.user_pks.len() + j);
}

/// An aggregate is neutral to the blank one.
pub proof fn law_blank_is_neutral(a: Aggregate)
    requires
        members_distinct(a),
        all_canonical(a.auction_vector),
    ensures
        Aggregate::blank().unioned(a) == Ok::<Aggregate, Refusal>(a),
{
    let all = Aggregate::blank().user_pks + a.user_pks;
    assert(all =~= a.user_pks);
    lemma_distinct_has_no_repeats(all, 0);
}

pub proof fn lemma_distinct_has_no_repeats(keys: Seq<Seq<u8>>, i: int)
    requires
        0 <= i,
        forall|m: int, n: int|
            0 <= m < n < keys.len() ==> #[trigger] keys[m] != #[trigger] keys[n],
    ensures
        repeated_key(keys, i) is None,
    decreases keys.len() - i,
{
    if i < keys.len() {
        assert(!keys.take(i).contains(keys[i])) by {
            assert forall|m: int| 0 <= m < i implies keys.take(i)[m] != keys[i] by {
                assert(keys.take(i)[m] == keys[m]);
            }
        }
        lemma_distinct_has_no_repeats(keys, i + 1);
    }
}

/// Keys of which none occurs twice.
pub open spec fn keys_distinct(keys: Seq<Seq<u8>>) -> bool {
    forall|i: int, j: int| 0 <= i < j < keys.len() ==> #[trigger] keys[i] != #[trigger] keys[j]
}

/// Words that all lie below p.
pub open spec fn words_reduced(v: Seq<u64>) -> bool {
    forall|i: int| 0 <= i < v.len() ==> #[trigger] v[i] < 0x1eeed4e13a526bab
}

/// Key `j` is the first that stands further in front already.
pub open spec fn repeats_first(keys: Seq<Seq<u8>>, j: int) -> bool {
    0 <= j < keys.len() && keys_distinct(keys.take(j)) && keys.take(j).contains(keys[j])
}

/// There is no repeated key exactly if the keys are distinct; otherwise it is
/// the first one that stands further in front already.
pub proof fn law_repeated_key(keys: Seq<Seq<u8>>)
    ensures
        repeated_key(keys, 0) is None <==> keys_distinct(keys),
        repeated_key(keys, 0) matches Some(k) ==> exists|j: int|
            0 <= j < keys.len() && keys[j] == k && keys_distinct(#[trigger] keys.take(j))
                && keys.take(j).contains(k),
{
    if repeated_key(keys, 0) is None {
        lemma_no_repeats(keys, 0);
    } else {
        lemma_first_repeat(keys, 0);
        if keys_distinct(keys) {
            lemma_distinct_has_no_repeats(keys, 0);
        }
    }
}

proof fn lemma_first_repeat(keys: Seq<Seq<u8>>, i: int)
    requires
        0 <= i <= keys.len(),
        repeated_key(keys, i) is Some,
        keys_distinct(keys.take(i)),
    ensures
        exists|j: int|
            0 <= j < keys.len() && keys[j] == repeated_key(keys, i)->0 && keys_distinct(
                #[trigger] keys.take(j),
            ) && keys.take(j).contains(keys[j]),
    decreases keys.len() - i,
{
    if !keys.take(i).contains(keys[i]) {
        let more = keys.take(i + 1);
        assert forall|m: int, n: int| 0 <= m < n < more.len() implies #[trigger] more[m]
            != #[trigger] more[n] by {
            assert(more[m] == keys.take(i)[m]);
            if n < i {
                assert(more[n] == keys.take(i)[n]);
            }
        }
        lemma_first_repeat(keys, i + 1);
    }
}

/// When aggregates add up, and why they do not otherwise: in this order, the
/// rounds, the servers or the lengths differ, a member would count twice, or an
/// element is not reduced. Nothing but the last two stands between the blank
/// aggregate and another.
pub proof fn law_unions_are_refused_only_if(a: Aggregate, b: Aggregate)
    ensures
        ({
            let blank = a.all_server_ids.len() == 0 && a.auction_vector.len() == 0
                && a.message_vector.len() == 0 && a.user_pks.len() == 0;
            let rounds = blank || a.round_number == b.round_number;
            let servers = blank || a.all_server_ids == b.all_server_ids;
            let lengths = blank || (a.auction_vector.len() == b.auction_vector.len()
                && a.message_vector.len() == b.message_vector.len());
            let members = keys_distinct(a.user_pks + b.user_pks);
            let reduced = words_reduced(a.auction_vector) && words_reduced(b.auction_vector);
            &&& a.unioned(b) is Ok <==> rounds && servers && lengths && members && reduced
            &&& !rounds ==> a.unioned(b) == Err::<Aggregate, Refusal>(Refusal::MismatchingRounds)
            &&& rounds && !servers ==> a.unioned(b) == Err::<Aggregate, Refusal>(
                Refusal::MismatchingServers,
            )
            &&& rounds && servers && !lengths ==> a.unioned(b) == Err::<Aggregate, Refusal>(
                Refusal::MismatchingVectorLengths,
            )
            &&& rounds && servers && lengths && !members ==> exists|j: int| #[trigger]
                repeats_first(a.user_pks + b.user_pks, j) && a.unioned(b) == Err::<
                    Aggregate,
                    Refusal,
                >(Refusal::DuplicateSubmission(hex_text((a.user_pks + b.user_pks)[j])))
            &&& rounds && servers && lengths && members && !reduced ==> a.unioned(b) == Err::<
                Aggregate,
                Refusal,
            >(Refusal::NonCanonicalFieldElement)
        }),
{
    let members = a.user_pks + b.user_pks;
    law_repeated_key(members);
    if !keys_distinct(members) {
        let j = choose|j: int|
            0 <= j < members.len() && members[j] == repeated_key(members, 0)->0 && keys_distinct(
                #[trigger] members.take(j),
            ) && members.take(j).contains(repeated_key(members, 0)->0);
        assert(repeats_first(members, j));
    }
    lemma_reduced_is_canonical(a.auction_vector);
    lemma_reduced_is_canonical(b.auction_vector);
}

pub proof fn lemma_reduced_is_canonical(v: Seq<u64>)
    ensures
        words_reduced(v) <==> all_canonical(v),
{
    if all_canonical(v) {
        assert forall|i: int| 0 <= i < v.len() implies #[trigger] v[i] < 0x1eeed4e13a526bab by {
            assert(canonical(v[i]));
        }
    }
}

/// Two aggregates that add up give the sum modulo p of their auction vectors,
/// element by element, the XOR of their message vectors, byte by byte, and the
/// members of both, for the round and the servers of the second.
pub proof fn law_unions_add_up(a: Aggregate, b: Aggregate)
    requires
        a.unioned(b) is Ok,
    ensures
        ({
            let u = a.unioned(b)->Ok_0;
            &&& u.round_number == b.round_number
            &&& u.all_server_ids == b.all_server_ids
            &&& u.user_pks == a.user_pks + b.user_pks
            &&& u.auction_vector.len() == b.auction_vector.len()
            &&& u.message_vector.len() == b.message_vector.len()
            &&& a.auction_vector.len() <= u.auction_vector.len()
            &&& a.message_vector.len() <= u.message_vector.len()
            &&& forall|i: int|
                0 <= i < u.auction_vector.len() ==> #[trigger] u.auction_vector[i] == (word_at(
                    a.auction_vector,
                    i,
                ) + word_at(b.auction_vector, i)) % 0x1eeed4e13a526bab
            &&& forall|i: int|
                0 <= i < u.message_vector.len() ==> #[trigger] u.message_vector[i] == byte_at(
                    a.message_vector,
                    i,
                ) ^ byte_at(b.message_vector, i)
        }),
{
    let u = a.unioned(b)->Ok_0;
    if a.is_blank() {
        assert(a.user_pks + b.user_pks =~= b.user_pks);
        assert forall|i: int| 0 <= i < u.auction_vector.len() implies #[trigger] u.auction_vector[i]
            == (word_at(a.auction_vector, i) + word_at(b.auction_vector, i))
            % 0x1eeed4e13a526bab by {
            assert(canonical(b.auction_vector[i]));
            vstd::arithmetic::div_mod::lemma_small_mod(
                b.auction_vector[i] as nat,
                0x1eeed4e13a526bab,
            );
        }
        assert forall|i: int| 0 <= i < u.message_vector.len() implies #[trigger] u.message_vector[i]
            == byte_at(a.message_vector, i) ^ byte_at(b.message_vector, i) by {
            lemma_xor(0, b.message_vector[i], 0, 0);
            lemma_xor(b.message_vector[i], 0, 0, 0);
        }
    }
}

/// The aggregate of no client has nothing in it and is for round 0.
pub proof fn law_blank_aggregate(a: Aggregate)
    ensures
        Aggregate::blank().round_number == 0,
        Aggregate::blank().all_server_ids.len() == 0,
        Aggregate::blank().auction_vector.len() == 0,
        Aggregate::blank().message_vector.len() == 0,
        Aggregate::blank().user_pks.len() == 0,
        a.is_blank() <==> a.all_server_ids.len() == 0 && a.auction_vector.len() == 0
            && a.message_vector.len() == 0 && a.user_pks.len() == 0,
{
}

} // verus!
