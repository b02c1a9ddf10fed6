//! Reference 1-round session: IBLT-message broadcast without auction.
//!
//! Each client encodes its payload into a fresh multi-V IBLT entry (key =
//! random, V slots = length-prefixed payload), blinds the field-element
//! representation with the field-additive primitive, and signs the result.
//! Servers aggregate, contribute their shares, and combine partials to
//! recover the field-element vector. Decoding peels payloads atomically.
//!
//! No auction round, no slot assignment, no scheduling — payload size and
//! per-round message count are session config.

use vstd::prelude::*;

use crate::auction::iblt::KEY_BYTES;
use crate::bytes::{append_slice, le_seq, to_vec};
use crate::collections::{in_order, values_of, IdMap, KeyMap, MapKey, SortedMap};
use crate::crypto::fields::{all_canonical, is_all_canonical, vzero, zeros};
use crate::crypto::types::{
    halves_match, public_half, signature_of, KeyError, PrivateKey, PublicKey, ServerId, SharedKey,
};
use crate::encoders::iblt_msg::{
    decode_round, encode_empty, encode_payload_with_key, usable, IbltMsgError, IbltMsgParams,
};
use crate::encoders::laws::{contribution, Keyed};
use crate::primitives::field_round;
use crate::protocol::envelope::{signed_digest, Transcript};
use crate::protocol::messages::{u64_vec_bytes, ProtocolError, Refusal, Signed};
use crate::protocol::wire::{bytes_field, encode_bytes, encode_u32};
use crate::randomness::KeySource;
use crate::sorting::views;
use u64_vec_bytes::words_bytes;

verus! {

/// Session-level config shared by all participants.
#[derive(Debug)]
pub struct OneRoundConfig {
    pub iblt: IbltMsgParamsOwned,
}

/// Owned form of [`IbltMsgParams`].
#[derive(Debug)]
pub struct IbltMsgParamsOwned {
    pub estimated_messages: u32,
    pub max_payload_bytes: usize,
}

impl Clone for OneRoundConfig {
    fn clone(&self) -> (r: Self)
        ensures
            r == *self,
    {
        OneRoundConfig { iblt: self.iblt.clone() }
    }
}

impl Clone for IbltMsgParamsOwned {
    fn clone(&self) -> (r: Self)
        ensures
            r == *self,
    {
        IbltMsgParamsOwned {
            estimated_messages: self.estimated_messages,
            max_payload_bytes: self.max_payload_bytes,
        }
    }
}

impl IbltMsgParamsOwned {
    /// The same parameters as the encoder takes them.
    pub open spec fn params(self) -> IbltMsgParams {
        IbltMsgParams {
            estimated_messages: self.estimated_messages,
            max_payload_bytes: self.max_payload_bytes,
        }
    }

    pub fn as_params(&self) -> (r: IbltMsgParams)
        ensures
            r == self.params(),
    {
        IbltMsgParams {
            estimated_messages: self.estimated_messages,
            max_payload_bytes: self.max_payload_bytes,
        }
    }
}

/// Per-round, per-client payload contribution riding on the field-additive
/// primitive.
#[derive(Debug)]
pub struct ClientContribution {
    pub round: u32,
    pub blinded: Vec<u64>,
}

/// A [`ClientContribution`] as the contracts see it.
#[verifier::ext_equal]
pub struct Contributed {
    pub round: u32,
    pub blinded: Seq<u64>,
}

/// Per-round, per-server share. Subtracted from the aggregate during decode.
#[derive(Debug)]
pub struct ServerShare {
    pub server_id: ServerId,
    pub round: u32,
    pub share: Vec<u64>,
}

/// A [`ServerShare`] as the contracts see it.
#[verifier::ext_equal]
pub struct Shared {
    pub server_id: ServerId,
    pub round: u32,
    pub share: Seq<u64>,
}

impl View for ClientContribution {
    type V = Contributed;

    open spec fn view(&self) -> Contributed {
        Contributed { round: self.round, blinded: self.blinded@ }
    }
}

impl View for ServerShare {
    type V = Shared;

    open spec fn view(&self) -> Shared {
        Shared { server_id: self.server_id, round: self.round, share: self.share@ }
    }
}

impl Clone for ClientContribution {
    fn clone(&self) -> (r: Self)
        ensures
            r@ == self@,
    {
        ClientContribution { round: self.round, blinded: to_vec(&self.blinded) }
    }
}

impl Clone for ServerShare {
    fn clone(&self) -> (r: Self)
        ensures
            r@ == self@,
    {
        ServerShare {
            server_id: self.server_id,
            round: self.round,
            share: to_vec(&self.share),
        }
    }
}

impl Transcript for ClientContribution {
    open spec fn transcript(m: Contributed) -> Seq<u8> {
        le_seq(m.round as nat, 4) + bytes_field(words_bytes(m.blinded))
    }

    fn to_transcript(&self) -> (out: Vec<u8>) {
        let mut out = encode_u32(self.round);
        append_slice(&mut out, &encode_bytes(&u64_vec_bytes::serialize(&self.blinded)));
        out
    }
}

impl Transcript for ServerShare {
    open spec fn transcript(m: Shared) -> Seq<u8> {
        le_seq(m.server_id.0 as nat, 4) + le_seq(m.round as nat, 4) + bytes_field(
            words_bytes(m.share),
        )
    }

    fn to_transcript(&self) -> (out: Vec<u8>) {
        let mut out = encode_u32(self.server_id.0);
        append_slice(&mut out, &encode_u32(self.round));
        append_slice(&mut out, &encode_bytes(&u64_vec_bytes::serialize(&self.share)));
        out
    }
}

/// Why a step of the session is refused.
#[derive(Debug)]
pub enum OneRoundError {
    Encoder(IbltMsgError),
    Protocol(ProtocolError),
    ServerShareCount { expected: usize, got: usize },
    WrongRound { got: u32, expected: u32 },
    NonCanonicalFieldElement,
}

/// A [`OneRoundError`] as the contracts see it.
#[verifier::ext_equal]
pub enum Objection {
    Encoder(IbltMsgError),
    Protocol(Refusal),
    ServerShareCount { expected: usize, got: usize },
    WrongRound { got: u32, expected: u32 },
    NonCanonicalFieldElement,
}

impl View for OneRoundError {
    type V = Objection;

    open spec fn view(&self) -> Objection {
        match *self {
            OneRoundError::Encoder(e) => Objection::Encoder(e),
            OneRoundError::Protocol(e) => Objection::Protocol(e@),
            OneRoundError::ServerShareCount { expected, got } => {
                Objection::ServerShareCount { expected, got }
            },
            OneRoundError::WrongRound { got, expected } => Objection::WrongRound { got, expected },
            OneRoundError::NonCanonicalFieldElement => Objection::NonCanonicalFieldElement,
        }
    }
}

// ---------------------------------------------------------------------------
// Model
// ---------------------------------------------------------------------------

/// The contribution of a client with the given secrets.
pub open spec fn contributed(
    params: IbltMsgParams,
    round: u32,
    secrets: Map<ServerId, Seq<u8>>,
    payload: Option<Keyed>,
) -> Result<Contributed, Objection> {
    let mine = values_of(in_order::<ServerId, Seq<u8>>(secrets));
    let contents = contribution(params, payload).elements();
    let room = usable(params.max_payload_bytes as nat);
    if payload is Some && payload->0.payload.len() > room {
        Err(
            Objection::Encoder(
                IbltMsgError::PayloadTooLarge {
                    got: payload->0.payload.len() as usize,
                    usable: room as usize,
                },
            ),
        )
    } else if !field_round::pads_exist(mine, round, contents.len()) {
        Err(Objection::Protocol(Refusal::PadExhausted))
    } else {
        Ok(Contributed { round, blinded: field_round::blinded(mine, round, contents) })
    }
}

/// The share of a server with the given secrets.
pub open spec fn shared(
    params: IbltMsgParams,
    round: u32,
    id: ServerId,
    secrets: Map<Seq<u8>, Seq<u8>>,
) -> Result<Shared, Objection> {
    let mine = values_of(in_order::<PublicKey, Seq<u8>>(secrets));
    let n = params.blank().elements().len();
    if !field_round::pads_exist(mine, round, n) {
        Err(Objection::Protocol(Refusal::PadExhausted))
    } else {
        Ok(Shared { server_id: id, round, share: field_round::share(mine, round, n) })
    }
}

/// `r` is `want` in an envelope signed with `key`.
pub open spec fn signed_as<T: Transcript>(
    r: Result<Signed<T>, OneRoundError>,
    want: Result<T::V, Objection>,
    key: Seq<u8>,
) -> bool {
    match r {
        Ok(s) => {
            &&& want == Ok::<T::V, Objection>(s.object@)
            &&& public_half(key) == Ok::<Seq<u8>, KeyError>(s.public_key@)
            &&& signature_of(key, signed_digest::<T>(s.object@, s.public_key@)) == Ok::<
                Seq<u8>,
                KeyError,
            >(s.signature@)
            &&& halves_match(key) ==> s.authentic()
        },
        Err(e) => match want {
            Err(o) => e@ == o,
            Ok(_) => public_half(key) is Err && e@ == Objection::Protocol(
                Refusal::Key(KeyError::InvalidPrivateKeySize),
            ),
        },
    }
}

/// The server of the first share from position `i` on whose server has a share
/// further in front.
pub open spec fn repeated_server(ss: Seq<Shared>, i: int) -> Option<ServerId>
    decreases ss.len() - i,
{
    if i < 0 || i >= ss.len() {
        None
    } else if server_before(ss, i) {
        Some(ss[i].server_id)
    } else {
        repeated_server(ss, i + 1)
    }
}

/// The server of share `i` has a share further in front.
pub open spec fn server_before(ss: Seq<Shared>, i: int) -> bool {
    exists|j: int| 0 <= j < i && (#[trigger] ss[j]).server_id == ss[i].server_id
}

/// The round of the first contribution from position `i` on that is not for
/// `round`.
pub open spec fn stray_client(cs: Seq<Contributed>, round: u32, i: int) -> Option<u32>
    decreases cs.len() - i,
{
    if i < 0 || i >= cs.len() {
        None
    } else if cs[i].round != round {
        Some(cs[i].round)
    } else {
        stray_client(cs, round, i + 1)
    }
}

/// The round of the first share from position `i` on that is not for `round`.
pub open spec fn stray_server(ss: Seq<Shared>, round: u32, i: int) -> Option<u32>
    decreases ss.len() - i,
{
    if i < 0 || i >= ss.len() {
        None
    } else if ss[i].round != round {
        Some(ss[i].round)
    } else {
        stray_server(ss, round, i + 1)
    }
}

/// The vectors of contributions.
pub open spec fn blinded_of(cs: Seq<Contributed>) -> Seq<Seq<u64>> {
    Seq::new(cs.len(), |i: int| cs[i].blinded)
}

/// The vectors of shares.
pub open spec fn shares_of(ss: Seq<Shared>) -> Seq<Seq<u64>> {
    Seq::new(ss.len(), |i: int| ss[i].share)
}

/// Every element of every vector is canonical.
pub open spec fn rows_canonical(vs: Seq<Seq<u64>>) -> bool {
    forall|i: int| 0 <= i < vs.len() ==> all_canonical(#[trigger] vs[i])
}

/// The payloads that contributions and shares combine to.
pub open spec fn combined(
    params: IbltMsgParams,
    round: u32,
    cs: Seq<Contributed>,
    ss: Seq<Shared>,
    expected: usize,
) -> Result<Seq<Seq<u8>>, Objection> {
    let n = params.blank().elements().len();
    if ss.len() != expected {
        Err(Objection::ServerShareCount { expected, got: ss.len() as usize })
    } else if repeated_server(ss, 0) is Some {
        Err(Objection::Protocol(Refusal::DuplicatePartial(repeated_server(ss, 0)->0)))
    } else if stray_client(cs, round, 0) is Some {
        Err(Objection::WrongRound { got: stray_client(cs, round, 0)->0, expected: round })
    } else if stray_server(ss, round, 0) is Some {
        Err(Objection::WrongRound { got: stray_server(ss, round, 0)->0, expected: round })
    } else if !field_round::all_of_len(blinded_of(cs), n) || !field_round::all_of_len(
        shares_of(ss),
        n,
    ) {
        Err(Objection::Protocol(Refusal::MismatchingVectorLengths))
    } else if !rows_canonical(blinded_of(cs)) || !rows_canonical(shares_of(ss)) {
        Err(Objection::NonCanonicalFieldElement)
    } else {
        match params.payloads(
            field_round::sub_all(
                field_round::add_all(vzero(n), blinded_of(cs)),
                shares_of(ss),
            ),
        ) {
            Ok(out) => Ok(out),
            Err(e) => Err(Objection::Encoder(e)),
        }
    }
}

// ---------------------------------------------------------------------------
// Contributing
// ---------------------------------------------------------------------------

/// The secrets of a map in ascending order of its keys.
fn sorted_secrets<K: MapKey>(secrets: &SortedMap<K, SharedKey>) -> (out: Vec<SharedKey>)
    ensures
        views(out@) == values_of(in_order::<K, Seq<u8>>(secrets@)),
{
    let n = secrets.len();
    let ghost es = secrets.entries();
    let mut out: Vec<SharedKey> = Vec::new();
    let mut i: usize = 0;
    while i < n
        invariant
            i <= n,
            n == es.len(),
            es == secrets.entries(),
            es == in_order::<K, Seq<u8>>(secrets@),
            out@.len() == i,
            forall|k: int| 0 <= k < i ==> (#[trigger] out@[k])@ == es[k].1,
        decreases n - i,
    {
        let (_, secret) = secrets.at(i);
        out.push(secret.clone());
        i = i + 1;
    }
    proof {
        assert(views(out@) =~= values_of(es));
    }
    out
}

/// An optional payload under `key`.
pub open spec fn keyed(payload: Option<&[u8]>, key: Seq<u8>) -> Option<Keyed> {
    match payload {
        Some(p) => Some(Keyed { key, payload: p@ }),
        None => None,
    }
}

/// Client-side: encode `payload` and blind for `round`. Returns the signed
/// contribution wire object. `rng` draws the key of the payload.
///
/// `shared_secrets` maps each server's `ServerId` to the client's shared
/// secret with that server. The set of servers must match what the servers
/// use to compute their shares.
pub fn client_contribute<R: KeySource>(
    cfg: &OneRoundConfig,
    round: u32,
    signing_key: &PrivateKey,
    shared_secrets: &IdMap<SharedKey>,
    payload: Option<&[u8]>,
    rng: &mut R,
) -> (r: Result<Signed<ClientContribution>, OneRoundError>)
    requires
        cfg.iblt.params().ok(),
    ensures
        exists|key: Seq<u8>|
            key.len() == KEY_BYTES && signed_as(
                r,
                #[trigger] contributed(
                    cfg.iblt.params(),
                    round,
                    shared_secrets@,
                    keyed(payload, key),
                ),
                signing_key@,
            ),
{
    // Only a payload that fits takes a key.
    let takes_key = match payload {
        Some(p) => p.len() <= cfg.iblt.as_params().usable_payload_bytes(),
        None => false,
    };
    let key: [u8; KEY_BYTES] = if takes_key {
        rng.draw_key()
    } else {
        [0u8; KEY_BYTES]
    };
    let r = client_contribute_with_key(cfg, round, signing_key, shared_secrets, payload, &key);
    proof {
        assert(key@.len() == KEY_BYTES);
    }
    r
}

/// [`client_contribute`] with the payload under the given key.
pub fn client_contribute_with_key(
    cfg: &OneRoundConfig,
    round: u32,
    signing_key: &PrivateKey,
    shared_secrets: &IdMap<SharedKey>,
    payload: Option<&[u8]>,
    key: &[u8; KEY_BYTES],
) -> (r: Result<Signed<ClientContribution>, OneRoundError>)
    requires
        cfg.iblt.params().ok(),
    ensures
        signed_as(
            r,
            contributed(cfg.iblt.params(), round, shared_secrets@, keyed(payload, key@)),
            signing_key@,
        ),
{
    let params = cfg.iblt.as_params();
    let contents = match payload {
        Some(p) => match encode_payload_with_key(&params, p, key) {
            Ok(v) => v,
            Err(e) => return Err(OneRoundError::Encoder(e)),
        },
        None => encode_empty(&params),
    };
    let secrets = sorted_secrets(shared_secrets);
    let blinded = match field_round::checked_client_blind(&secrets, round, contents) {
        Some(v) => v,
        None => return Err(OneRoundError::Protocol(ProtocolError::PadExhausted)),
    };
    let obj = ClientContribution { round, blinded };
    match Signed::new(signing_key, obj) {
        Ok(s) => Ok(s),
        Err(e) => Err(OneRoundError::Protocol(e)),
    }
}

/// Server-side: build this server's share for `round` and sign it.
///
/// `shared_secrets` maps each client's `PublicKey` to the server's shared
/// secret with that client.
pub fn server_contribute(
    cfg: &OneRoundConfig,
    round: u32,
    server_id: ServerId,
    signing_key: &PrivateKey,
    shared_secrets: &KeyMap<SharedKey>,
) -> (r: Result<Signed<ServerShare>, OneRoundError>)
    requires
        cfg.iblt.params().ok(),
    ensures
        signed_as(
            r,
            shared(cfg.iblt.params(), round, server_id, shared_secrets@),
            signing_key@,
        ),
{
    let params = cfg.iblt.as_params();
    let secrets = sorted_secrets(shared_secrets);
    let share = match field_round::checked_server_share(&secrets, round, params.encoded_len()) {
        Some(v) => v,
        None => return Err(OneRoundError::Protocol(ProtocolError::PadExhausted)),
    };
    let obj = ServerShare { server_id, round, share };
    match Signed::new(signing_key, obj) {
        Ok(s) => Ok(s),
        Err(e) => Err(OneRoundError::Protocol(e)),
    }
}

// ---------------------------------------------------------------------------
// Combining
// ---------------------------------------------------------------------------

fn find_repeated_server(servers: &[ServerShare]) -> (r: Option<ServerId>)
    ensures
        r == repeated_server(views(servers@), 0),
{
    let ghost ss = views(servers@);
    let mut i: usize = 0;
    while i < servers.len()
        invariant
            i <= servers@.len(),
            ss == views(servers@),
            repeated_server(ss, 0) == repeated_server(ss, i as int),
        decreases servers@.len() - i,
    {
        let id = servers[i].server_id;
        proof {
            assert(ss[i as int] == servers@[i as int]@);
        }
        let mut j: usize = 0;
        while j < i
            invariant
                j <= i < servers@.len(),
                ss == views(servers@),
                ss[i as int].server_id == id,
                repeated_server(ss, 0) == repeated_server(ss, i as int),
                forall|k: int| 0 <= k < j ==> (#[trigger] ss[k]).server_id != id,
            decreases i - j,
        {
            proof {
                assert(ss[j as int] == servers@[j as int]@);
            }
            if servers[j].server_id == id {
                proof {
                    assert(server_before(ss, i as int));
                }
                return Some(id);
            }
            j = j + 1;
        }
        i = i + 1;
    }
    None
}

fn find_stray_client(clients: &[ClientContribution], round: u32) -> (r: Option<u32>)
    ensures
        r == stray_client(views(clients@), round, 0),
{
    let ghost cs = views(clients@);
    let mut i: usize = 0;
    while i < clients.len()
        invariant
            i <= clients@.len(),
            cs == views(clients@),
            stray_client(cs, round, 0) == stray_client(cs, round, i as int),
        decreases clients@.len() - i,
    {
        proof {
            assert(cs[i as int] == clients@[i as int]@);
        }
        if clients[i].round != round {
            return Some(clients[i].round);
        }
        i = i + 1;
    }
    None
}

fn find_stray_server(servers: &[ServerShare], round: u32) -> (r: Option<u32>)
    ensures
        r == stray_server(views(servers@), round, 0),
{
    let ghost ss = views(servers@);
    let mut i: usize = 0;
    while i < servers.len()
        invariant
            i <= servers@.len(),
            ss == views(servers@),
            stray_server(ss, round, 0) == stray_server(ss, round, i as int),
        decreases servers@.len() - i,
    {
        proof {
            assert(ss[i as int] == servers@[i as int]@);
        }
        if servers[i].round != round {
            return Some(servers[i].round);
        }
        i = i + 1;
    }
    None
}

/// Borrow the vectors of contributions.
fn client_rows(clients: &[ClientContribution]) -> (rows: Vec<&[u64]>)
    ensures
        field_round::word_views(rows@) == blinded_of(views(clients@)),
{
    let mut rows: Vec<&[u64]> = Vec::new();
    let mut i: usize = 0;
    while i < clients.len()
        invariant
            i <= clients@.len(),
            rows@.len() == i,
            forall|k: int| 0 <= k < i ==> (#[trigger] rows@[k])@ == clients@[k].blinded@,
        decreases clients@.len() - i,
    {
        rows.push(clients[i].blinded.as_slice());
        i = i + 1;
    }
    proof {
        assert(field_round::word_views(rows@) =~= blinded_of(views(clients@)));
    }
    rows
}

/// Borrow the vectors of shares.
fn server_rows(servers: &[ServerShare]) -> (rows: Vec<&[u64]>)
    ensures
        field_round::word_views(rows@) == shares_of(views(servers@)),
{
    let mut rows: Vec<&[u64]> = Vec::new();
    let mut i: usize = 0;
    while i < servers.len()
        invariant
            i <= servers@.len(),
            rows@.len() == i,
            forall|k: int| 0 <= k < i ==> (#[trigger] rows@[k])@ == servers@[k].share@,
        decreases servers@.len() - i,
    {
        rows.push(servers[i].share.as_slice());
        i = i + 1;
    }
    proof {
        assert(field_round::word_views(rows@) =~= shares_of(views(servers@)));
    }
    rows
}

/// Whether every row has `n` elements.
fn rows_have_len(rows: &[&[u64]], n: usize) -> (r: bool)
    ensures
        r == field_round::all_of_len(field_round::word_views(rows@), n as nat),
{
    let ghost vs = field_round::word_views(rows@);
    let mut i: usize = 0;
    while i < rows.len()
        invariant
            i <= rows@.len(),
            vs == field_round::word_views(rows@),
            forall|k: int| 0 <= k < i ==> (#[trigger] vs[k]).len() == n,
        decreases rows@.len() - i,
    {
        proof {
            assert(vs[i as int] == rows@[i as int]@);
        }
        if rows[i].len() != n {
            return false;
        }
        i = i + 1;
    }
    true
}

/// Whether every row is canonical.
fn rows_are_canonical(rows: &[&[u64]]) -> (r: bool)
    ensures
        r == rows_canonical(field_round::word_views(rows@)),
{
    let ghost vs = field_round::word_views(rows@);
    let mut i: usize = 0;
    while i < rows.len()
        invariant
            i <= rows@.len(),
            vs == field_round::word_views(rows@),
            forall|k: int| 0 <= k < i ==> all_canonical(#[trigger] vs[k]),
        decreases rows@.len() - i,
    {
        proof {
            assert(vs[i as int] == rows@[i as int]@);
        }
        if !is_all_canonical(rows[i]) {
            return false;
        }
        i = i + 1;
    }
    true
}

/// Combine all client contributions and all server shares to recover the
/// set of payloads contributed this round.
///
/// Caller verifies signatures upstream (this function takes raw payloads).
/// `expected_servers` is the number of servers that must contribute; an
/// undersupplied set returns `ServerShareCount`.
pub fn combine_round(
    cfg: &OneRoundConfig,
    round: u32,
    clients: &[ClientContribution],
    servers: &[ServerShare],
    expected_servers: usize,
) -> (r: Result<Vec<Vec<u8>>, OneRoundError>)
    requires
        cfg.iblt.params().ok(),
    ensures
        match r {
            Ok(out) => combined(
                cfg.iblt.params(),
                round,
                views(clients@),
                views(servers@),
                expected_servers,
            ) == Ok::<Seq<Seq<u8>>, Objection>(views(out@)),
            Err(e) => combined(
                cfg.iblt.params(),
                round,
                views(clients@),
                views(servers@),
                expected_servers,
            ) == Err::<Seq<Seq<u8>>, Objection>(e@),
        },
{
    if servers.len() != expected_servers {
        return Err(
            OneRoundError::ServerShareCount { expected: expected_servers, got: servers.len() },
        );
    }
    match find_repeated_server(servers) {
        Some(id) => return Err(OneRoundError::Protocol(ProtocolError::DuplicatePartial(id))),
        None => {},
    }
    match find_stray_client(clients, round) {
        Some(got) => return Err(OneRoundError::WrongRound { got, expected: round }),
        None => {},
    }
    match find_stray_server(servers, round) {
        Some(got) => return Err(OneRoundError::WrongRound { got, expected: round }),
        None => {},
    }
    let params = cfg.iblt.as_params();
    let len = params.encoded_len();
    let blinded_slices = client_rows(clients);
    let share_slices = server_rows(servers);
    if !rows_have_len(&blinded_slices, len) || !rows_have_len(&share_slices, len) {
        return Err(OneRoundError::Protocol(ProtocolError::MismatchingVectorLengths));
    }
    if !rows_are_canonical(&blinded_slices) || !rows_are_canonical(&share_slices) {
        return Err(OneRoundError::NonCanonicalFieldElement);
    }
    let mut agg = zeros(len);
    field_round::aggregate_clients_into(&mut agg, &blinded_slices);
    let recovered = field_round::combine_partials(&agg, &share_slices);
    match decode_round(&params, &recovered) {
        Ok(out) => Ok(out),
        Err(e) => Err(OneRoundError::Encoder(e)),
    }
}

} // verus!
