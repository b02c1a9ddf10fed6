//! Key types, server IDs, signatures.
//!
//! Ed25519 signing (see [`crate::crypto::signing`]); P-256 key exchange (see
//! [`crate::crypto::exchange`]).

use vstd::prelude::*;
use vstd::string::StringSliceAdditionalSpecFns;

use crate::bytes::{append_slice, be_nat, lemma_le_nat_zero_extended, read_be, to_vec};
use crate::sums::{lemma_sum_same, sum};

use super::exchange::{
    is_p256_secret, p256_point, p256_public, p256_secret, p256_shared, parse_point, parse_secret,
    public_of_secret, random_secret, shared_secret,
};
use super::hashing::{sha256, sha256_digest};
use super::hexadecimal::{hex_decode, hex_decoded, hex_encode, hex_text, HexError};
use super::signing::{
    ed25519_accepts, ed25519_public, ed25519_signature, public_of_seed, random_seed,
    sign_with_seed, signature_accepted,
};

verus! {

/// Length of an Ed25519 seed.
pub const SECRET_KEY_LENGTH: usize = 32;

#[derive(Clone, Copy, Debug, PartialEq, Eq, Structural)]
pub enum KeyError {
    InvalidPrivateKeySize,
    InvalidExchangeKey,
}

/// Ed25519 public key (32 bytes).
#[derive(Debug, PartialEq, Eq, Hash)]
pub struct PublicKey(pub Vec<u8>);

impl View for PublicKey {
    type V = Seq<u8>;

    open spec fn view(&self) -> Seq<u8> {
        self.0@
    }
}

impl Clone for PublicKey {
    fn clone(&self) -> (r: Self)
        ensures
            r@ == self@,
    {
        PublicKey(to_vec(&self.0))
    }
}

impl PublicKey {
    pub fn from_bytes(b: &[u8]) -> (r: Self)
        ensures
            r@ == b@,
    {
        PublicKey(to_vec(b))
    }

    pub fn from_hex(s: &str) -> (r: Result<Self, HexError>)
        ensures
            match r {
                Ok(k) => hex_decoded(s.spec_bytes()) == Ok::<Seq<u8>, HexError>(k@),
                Err(e) => hex_decoded(s.spec_bytes()) == Err::<Seq<u8>, HexError>(e),
            },
    {
        match hex_decode(s) {
            Ok(v) => Ok(PublicKey(v)),
            Err(e) => Err(e),
        }
    }

    pub fn as_bytes(&self) -> (r: &[u8])
        ensures
            r@ == self@,
    {
        &self.0
    }

    pub fn to_hex(&self) -> (r: String)
        ensures
            r@ == hex_text(self@),
    {
        hex_encode(&self.0)
    }
}

/// Ed25519 private key, stored in 64-byte expanded form `seed || pub`.
pub struct PrivateKey(pub Vec<u8>);

impl View for PrivateKey {
    type V = Seq<u8>;

    open spec fn view(&self) -> Seq<u8> {
        self.0@
    }
}

impl Clone for PrivateKey {
    fn clone(&self) -> (r: Self)
        ensures
            r@ == self@,
    {
        PrivateKey(to_vec(&self.0))
    }
}

/// The public half of an expanded private key, if it is long enough.
pub open spec fn public_half(key: Seq<u8>) -> Result<Seq<u8>, KeyError> {
    if key.len() < 64 {
        Err(KeyError::InvalidPrivateKeySize)
    } else {
        Ok(key.subrange(32, 64))
    }
}

/// The two halves of an expanded private key belong together.
pub open spec fn halves_match(key: Seq<u8>) -> bool {
    key.len() >= 64 && key.subrange(32, 64) == ed25519_public(key.take(32))
}

/// The signature that an expanded private key gives `data`.
pub open spec fn signature_of(key: Seq<u8>, data: Seq<u8>) -> Result<Seq<u8>, KeyError> {
    if key.len() < SECRET_KEY_LENGTH {
        Err(KeyError::InvalidPrivateKeySize)
    } else {
        Ok(ed25519_signature(key.take(32), data))
    }
}

/// `signature` is a good signature for `data` under `public`.
pub open spec fn verifies(public: Seq<u8>, data: Seq<u8>, signature: Seq<u8>) -> bool {
    public.len() == 32 && signature.len() == 64 && ed25519_accepts(public, data, signature)
}

impl PrivateKey {
    pub fn from_bytes(b: &[u8]) -> (r: Self)
        ensures
            r@ == b@,
    {
        PrivateKey(to_vec(b))
    }

    pub fn public_key(&self) -> (r: Result<PublicKey, KeyError>)
        ensures
            match r {
                Ok(k) => public_half(self@) == Ok::<Seq<u8>, KeyError>(k@),
                Err(e) => public_half(self@) == Err::<Seq<u8>, KeyError>(e),
            },
    {
        if self.0.len() < 64 {
            return Err(KeyError::InvalidPrivateKeySize);
        }
        Ok(PublicKey(to_vec(&self.0[32..64])))
    }

    /// The seed half.
    fn seed(&self) -> (r: Result<[u8; 32], KeyError>)
        ensures
            match r {
                Ok(seed) => self@.len() >= SECRET_KEY_LENGTH && seed@ == self@.take(32),
                Err(e) => self@.len() < SECRET_KEY_LENGTH && e is InvalidPrivateKeySize,
            },
    {
        if self.0.len() < SECRET_KEY_LENGTH {
            return Err(KeyError::InvalidPrivateKeySize);
        }
        let mut seed = [0u8; 32];
        let mut i: usize = 0;
        while i < 32
            invariant
                i <= 32,
                self.0@.len() >= 32,
                forall|k: int| 0 <= k < i ==> #[trigger] seed@[k] == self.0@[k],
            decreases 32 - i,
        {
            seed[i] = self.0[i];
            i = i + 1;
        }
        proof {
            assert(seed@ =~= self@.take(32));
        }
        Ok(seed)
    }

    /// The text that stands for a private key in diagnostics; it shows nothing
    /// of the key.
    pub fn debug_text(&self) -> (r: String)
        ensures
            r@ == "PrivateKey([REDACTED])"@,
    {
        "PrivateKey([REDACTED])".to_owned()
    }
}

/// Generate a fresh Ed25519 keypair, returned in `(pubkey, privkey)` order.
pub fn generate_keypair() -> (r: (PublicKey, PrivateKey))
    ensures
        r.1@.len() == 64,
        r.0@ == ed25519_public(r.1@.take(32)),
        public_half(r.1@) == Ok::<Seq<u8>, KeyError>(r.0@),
        halves_match(r.1@),
{
    let seed = random_seed();
    let public = public_of_seed(&seed);
    let mut both = to_vec(&seed);
    append_slice(&mut both, &public);
    proof {
        assert(both@.take(32) =~= seed@);
        assert(both@.subrange(32, 64) =~= public@);
    }
    (PublicKey(to_vec(&public)), PrivateKey(both))
}

/// Ed25519 signature.
#[derive(Debug, PartialEq, Eq)]
pub struct Signature(pub Vec<u8>);

impl View for Signature {
    type V = Seq<u8>;

    open spec fn view(&self) -> Seq<u8> {
        self.0@
    }
}

impl Clone for Signature {
    fn clone(&self) -> (r: Self)
        ensures
            r@ == self@,
    {
        Signature(to_vec(&self.0))
    }
}

impl Signature {
    pub fn from_bytes(b: &[u8]) -> (r: Self)
        ensures
            r@ == b@,
    {
        Signature(to_vec(b))
    }

    pub fn as_bytes(&self) -> (r: &[u8])
        ensures
            r@ == self@,
    {
        &self.0
    }
}

/// Sign `data`. A signature by a key whose halves belong together verifies
/// under the public half.
pub fn sign(priv_key: &PrivateKey, data: &[u8]) -> (r: Result<Signature, KeyError>)
    ensures
        match r {
            Ok(s) => {
                &&& signature_of(priv_key@, data@) == Ok::<Seq<u8>, KeyError>(s@)
                &&& halves_match(priv_key@) ==> verifies(priv_key@.subrange(32, 64), data@, s@)
            },
            Err(e) => signature_of(priv_key@, data@) == Err::<Seq<u8>, KeyError>(e),
        },
{
    match priv_key.seed() {
        Ok(seed) => {
            let signature = sign_with_seed(&seed, data);
            Ok(Signature(to_vec(&signature)))
        },
        Err(e) => Err(e),
    }
}

/// Whether `sig` is a good signature for `data` under `pub_key`.
pub fn verify(pub_key: &PublicKey, data: &[u8], sig: &Signature) -> (r: bool)
    ensures
        r == verifies(pub_key@, data@, sig@),
{
    if pub_key.0.len() != 32 || sig.0.len() != 64 {
        return false;
    }
    let mut public = [0u8; 32];
    let mut i: usize = 0;
    while i < 32
        invariant
            i <= 32,
            pub_key.0@.len() == 32,
            forall|k: int| 0 <= k < i ==> #[trigger] public@[k] == pub_key.0@[k],
        decreases 32 - i,
    {
        public[i] = pub_key.0[i];
        i = i + 1;
    }
    let mut signature = [0u8; 64];
    let mut j: usize = 0;
    while j < 64
        invariant
            j <= 64,
            sig.0@.len() == 64,
            forall|k: int| 0 <= k < j ==> #[trigger] signature@[k] == sig.0@[k],
        decreases 64 - j,
    {
        signature[j] = sig.0[j];
        j = j + 1;
    }
    proof {
        assert(public@ =~= pub_key@);
        assert(signature@ =~= sig@);
    }
    signature_accepted(&public, data, &signature)
}

/// Server identifier — non-zero u32 derived from a public key.
#[derive(Copy, Clone, Debug, PartialEq, Eq, Hash, PartialOrd, Ord, Structural)]
pub struct ServerId(pub u32);

/// The identifier that a public key has: the first four bytes of its SHA-256
/// digest, with 1 in place of 0.
pub open spec fn server_id_of(key: Seq<u8>) -> u32 {
    let id = be_nat(sha256(key).take(4));
    if id == 0 {
        1
    } else {
        id as u32
    }
}

/// The identifier that belongs to a public key.
pub fn public_key_to_server_id(pk: &PublicKey) -> (r: ServerId)
    ensures
        r.0 == server_id_of(pk@),
        r.0 != 0,
{
    let hash = sha256_digest(&pk.0);
    let id = read_be(&hash[0..4]);
    proof {
        assert(hash@.subrange(0, 4) =~= hash@.take(4));
        crate::bytes::lemma_le_nat_bound(hash@.take(4).reverse());
        crate::bytes::lemma_pow256_values();
    }
    ServerId(
        if id == 0 {
            1
        } else {
            id as u32
        },
    )
}

/// How many of `ids` are no larger than `id`.
pub open spec fn rank(ids: Seq<ServerId>, id: ServerId) -> nat
    decreases ids.len(),
{
    if ids.len() == 0 {
        0
    } else {
        rank(ids.drop_last(), id) + if ids.last().0 <= id.0 {
            1nat
        } else {
            0nat
        }
    }
}

/// The x-coordinate of `id` among `ids`: its 1-indexed rank, or 0 if it is not
/// among them.
pub open spec fn x_eval(ids: Seq<ServerId>, id: ServerId) -> nat {
    if ids.contains(id) {
        rank(ids, id)
    } else {
        0
    }
}

proof fn lemma_rank_bound(ids: Seq<ServerId>, id: ServerId)
    ensures
        rank(ids, id) <= ids.len(),
    decreases ids.len(),
{
    if ids.len() > 0 {
        lemma_rank_bound(ids.drop_last(), id);
    }
}

/// Maps server IDs to integer x-coordinates (1-indexed rank within the sorted
/// round ID set) for polynomial evaluation. `0` marks an ID not in `round_sids`.
pub fn server_ids_to_x_evals(round_sids: &[ServerId], available_sids: &[ServerId]) -> (r: Vec<u64>)
    ensures
        r@.len() == available_sids@.len(),
        forall|k: int|
            0 <= k < r@.len() ==> #[trigger] r@[k] == x_eval(round_sids@, available_sids@[k]),
{
    let mut out: Vec<u64> = Vec::new();
    let mut k: usize = 0;
    while k < available_sids.len()
        invariant
            k <= available_sids@.len(),
            out@.len() == k,
            forall|j: int|
                0 <= j < k ==> #[trigger] out@[j] == x_eval(round_sids@, available_sids@[j]),
        decreases available_sids@.len() - k,
    {
        let id = available_sids[k];
        let mut count: u64 = 0;
        let mut found = false;
        let mut i: usize = 0;
        proof {
            assert(round_sids@.take(0) =~= Seq::empty());
        }
        while i < round_sids.len()
            invariant
                i <= round_sids@.len(),
                count == rank(round_sids@.take(i as int), id),
                count <= i,
                found == round_sids@.take(i as int).contains(id),
            decreases round_sids@.len() - i,
        {
            proof {
                let head = round_sids@.take(i as int);
                let next = round_sids@.take(i + 1);
                assert(next.drop_last() =~= head);
                assert(next =~= head.push(round_sids@[i as int]));
                if head.contains(id) {
                    let m = choose|m: int| 0 <= m < head.len() && head[m] == id;
                    assert(next[m] == id);
                }
                if round_sids@[i as int] == id {
                    assert(next[i as int] == id);
                }
            }
            if round_sids[i].0 <= id.0 {
                count = count + 1;
            }
            if round_sids[i] == id {
                found = true;
            }
            i = i + 1;
        }
        proof {
            assert(round_sids@.take(i as int) =~= round_sids@);
        }
        out.push(
            if found {
                count
            } else {
                0
            },
        );
        k = k + 1;
    }
    out
}

/// An identifier of the round has rank at least one and at most the number of
/// identifiers, and larger identifiers rank higher.
pub proof fn law_ranks_follow_ids(ids: Seq<ServerId>, a: ServerId, b: ServerId)
    requires
        ids.contains(a),
        ids.contains(b),
        a.0 < b.0,
    ensures
        1 <= x_eval(ids, a) < x_eval(ids, b) <= ids.len(),
{
    lemma_rank_bound(ids, b);
    lemma_rank_positive(ids, a);
    lemma_rank_grows(ids, a, b);
}

proof fn lemma_rank_positive(ids: Seq<ServerId>, a: ServerId)
    requires
        ids.contains(a),
    ensures
        rank(ids, a) >= 1,
    decreases ids.len(),
{
    let m = choose|m: int| 0 <= m < ids.len() && ids[m] == a;
    if m < ids.len() - 1 {
        assert(ids.drop_last()[m] == a);
        lemma_rank_positive(ids.drop_last(), a);
    }
}

proof fn lemma_rank_monotone(ids: Seq<ServerId>, a: ServerId, b: ServerId)
    requires
        a.0 <= b.0,
    ensures
        rank(ids, a) <= rank(ids, b),
    decreases ids.len(),
{
    if ids.len() > 0 {
        lemma_rank_monotone(ids.drop_last(), a, b);
    }
}

proof fn lemma_rank_grows(ids: Seq<ServerId>, a: ServerId, b: ServerId)
    requires
        ids.contains(b),
        a.0 < b.0,
    ensures
        rank(ids, a) < rank(ids, b),
    decreases ids.len(),
{
    let m = choose|m: int| 0 <= m < ids.len() && ids[m] == b;
    if m < ids.len() - 1 {
        assert(ids.drop_last()[m] == b);
        lemma_rank_grows(ids.drop_last(), a, b);
    } else {
        lemma_rank_monotone(ids.drop_last(), a, b);
    }
}

/// Symmetric DH shared secret used to derive blinding vectors.
#[derive(PartialEq, Eq, Hash)]
pub struct SharedKey(pub Vec<u8>);

impl View for SharedKey {
    type V = Seq<u8>;

    open spec fn view(&self) -> Seq<u8> {
        self.0@
    }
}

impl Clone for SharedKey {
    fn clone(&self) -> (r: Self)
        ensures
            r@ == self@,
    {
        SharedKey(to_vec(&self.0))
    }
}

impl SharedKey {
    pub fn from_bytes(b: &[u8]) -> (r: Self)
        ensures
            r@ == b@,
    {
        SharedKey(to_vec(b))
    }

    pub fn as_bytes(&self) -> (r: &[u8])
        ensures
            r@ == self@,
    {
        &self.0
    }

    /// The text that stands for a shared key in diagnostics; it shows nothing
    /// of the key.
    pub fn debug_text(&self) -> (r: String)
        ensures
            r@ == "SharedKey([REDACTED])"@,
    {
        "SharedKey([REDACTED])".to_owned()
    }
}

// --- P-256 key exchange -----------------------------------------------------

/// P-256 secret scalar in its 32-byte form.
pub struct ExchangePrivateKey {
    scalar: [u8; 32],
}

/// P-256 public point in its uncompressed SEC1 form.
#[derive(Debug)]
pub struct ExchangePublicKey {
    point: Vec<u8>,
}

impl View for ExchangePrivateKey {
    type V = Seq<u8>;

    closed spec fn view(&self) -> Seq<u8> {
        self.scalar@
    }
}

impl View for ExchangePublicKey {
    type V = Seq<u8>;

    closed spec fn view(&self) -> Seq<u8> {
        self.point@
    }
}

impl Clone for ExchangePrivateKey {
    fn clone(&self) -> (r: Self)
        ensures
            r@ == self@,
    {
        proof {
            use_type_invariant(self);
        }
        ExchangePrivateKey { scalar: self.scalar }
    }
}

impl Clone for ExchangePublicKey {
    fn clone(&self) -> (r: Self)
        ensures
            r@ == self@,
    {
        proof {
            use_type_invariant(self);
        }
        ExchangePublicKey { point: to_vec(&self.point) }
    }
}

impl ExchangePrivateKey {
    #[verifier::type_invariant]
    spec fn is_secret(&self) -> bool {
        is_p256_secret(self.scalar@)
    }

    pub fn generate() -> (r: Self)
        ensures
            is_p256_secret(r@),
    {
        ExchangePrivateKey { scalar: random_secret() }
    }

    pub fn public(&self) -> (r: ExchangePublicKey)
        ensures
            r@ == p256_public(self@),
            is_p256_secret(self@),
    {
        proof {
            use_type_invariant(self);
        }
        ExchangePublicKey { point: public_of_secret(&self.scalar) }
    }

    /// The secret shared with the owner of `other`, who computes the same
    /// secret from the public key of `self`.
    pub fn ecdh(&self, other: &ExchangePublicKey) -> (r: SharedKey)
        ensures
            r@ == p256_shared(self@, other@),
            is_p256_secret(self@),
            forall|t: Seq<u8>|
                is_p256_secret(t) && other@ == #[trigger] p256_public(t) ==> r@ == p256_shared(
                    t,
                    p256_public(self@),
                ),
    {
        proof {
            use_type_invariant(self);
            use_type_invariant(other);
        }
        let shared = shared_secret(&self.scalar, &other.point);
        SharedKey(to_vec(&shared))
    }

    pub fn from_bytes(b: &[u8]) -> (r: Result<Self, KeyError>)
        ensures
            match r {
                Ok(k) => p256_secret(b@) == Some(k@),
                Err(e) => p256_secret(b@) is None && e is InvalidExchangeKey,
            },
    {
        match parse_secret(b) {
            Some(scalar) => Ok(ExchangePrivateKey { scalar }),
            None => Err(KeyError::InvalidExchangeKey),
        }
    }

    pub fn to_bytes(&self) -> (r: Vec<u8>)
        ensures
            r@ == self@,
            is_p256_secret(r@),
    {
        proof {
            use_type_invariant(self);
        }
        to_vec(&self.scalar)
    }
}

impl ExchangePublicKey {
    #[verifier::type_invariant]
    spec fn is_point(&self) -> bool {
        self.point@.len() == 65 && p256_point(self.point@) == Some(self.point@)
    }

    /// Uncompressed SEC1 encoding (65 bytes for P-256).
    pub fn to_sec1_bytes(&self) -> (r: Vec<u8>)
        ensures
            r@ == self@,
            r@.len() == 65,
            p256_point(r@) == Some(r@),
    {
        proof {
            use_type_invariant(self);
        }
        to_vec(&self.point)
    }

    pub fn from_sec1_bytes(b: &[u8]) -> (r: Result<Self, KeyError>)
        ensures
            match r {
                Ok(k) => p256_point(b@) == Some(k@),
                Err(e) => p256_point(b@) is None && e is InvalidExchangeKey,
            },
    {
        match parse_point(b) {
            Some(point) => Ok(ExchangePublicKey { point }),
            None => Err(KeyError::InvalidExchangeKey),
        }
    }
}

/// The 32-byte form of a secret scalar reads back as the scalar.
pub proof fn law_exchange_key_round_trip(b: Seq<u8>)
    requires
        is_p256_secret(b),
    ensures
        p256_secret(b) == Some(b),
{
    assert(Seq::new(0, |i: int| 0u8) + b =~= b);
}

// --- Laws ---------------------------------------------------------------------

/// An x-coordinate counts the identifiers of the round that are no larger, and
/// is 0 for an identifier that is not among them.
pub proof fn law_x_coordinates_count_ids(ids: Seq<ServerId>, id: ServerId)
    ensures
        (exists|i: int| 0 <= i < ids.len() && #[trigger] ids[i] == id) ==> x_eval(ids, id) == sum(
            |i: int|
                if ids[i].0 <= id.0 {
                    1
                } else {
                    0
                },
            ids.len() as int,
        ),
        !(exists|i: int| 0 <= i < ids.len() && #[trigger] ids[i] == id) ==> x_eval(ids, id) == 0,
{
    lemma_rank_counts(ids, id);
}

proof fn lemma_rank_counts(ids: Seq<ServerId>, id: ServerId)
    ensures
        rank(ids, id) == sum(
            |i: int|
                if ids[i].0 <= id.0 {
                    1
                } else {
                    0
                },
            ids.len() as int,
        ),
    decreases ids.len(),
{
    if ids.len() > 0 {
        let init = ids.drop_last();
        lemma_rank_counts(init, id);
        lemma_sum_same(
            |i: int|
                if init[i].0 <= id.0 {
                    1
                } else {
                    0
                },
            |i: int|
                if ids[i].0 <= id.0 {
                    1
                } else {
                    0
                },
            ids.len() - 1,
        );
    }
}

/// A server identifier is the number that the first four bytes of the SHA-256
/// digest of the public key write, most significant byte first, and 1 where
/// that number is 0.
pub proof fn law_server_ids_come_from_digests(key: Seq<u8>)
    requires
        sha256(key).len() == 32,
    ensures
        ({
            let d = sha256(key);
            let n = 0x100_0000 * d[0] + 0x1_0000 * d[1] + 0x100 * d[2] + d[3];
            server_id_of(key) == if n == 0 {
                1
            } else {
                n
            }
        }),
{
    let d = sha256(key);
    let s = d.take(4);
    let t = s.reverse();
    crate::bytes::law_little_endian_value(t);
    let f = |i: int| t[i] * crate::bytes::pow256(i as nat);
    reveal_with_fuel(crate::bytes::pow256, 5);
    assert(crate::bytes::pow256(0) == 1 && crate::bytes::pow256(1) == 0x100);
    assert(crate::bytes::pow256(2) == 0x1_0000 && crate::bytes::pow256(3) == 0x100_0000);
    assert(t[0] == d[3] && t[1] == d[2] && t[2] == d[1] && t[3] == d[0]);
    lemma_scaled(t, 0, 1);
    lemma_scaled(t, 1, 0x100);
    lemma_scaled(t, 2, 0x1_0000);
    lemma_scaled(t, 3, 0x100_0000);
    assert(sum(f, 0) == 0);
    assert(sum(f, 1) == sum(f, 0) + f(0));
    assert(sum(f, 2) == sum(f, 1) + f(1));
    assert(sum(f, 3) == sum(f, 2) + f(2));
    assert(sum(f, 4) == sum(f, 3) + f(3));
}

proof fn lemma_scaled(t: Seq<u8>, i: int, p: int)
    requires
        0 <= i,
        crate::bytes::pow256(i as nat) == p,
    ensures
        t[i] * crate::bytes::pow256(i as nat) == p * t[i],
{
    let x = t[i] as int;
    let q = crate::bytes::pow256(i as nat);
    assert(x * q == p * x) by (nonlinear_arith)
        requires
            q == p,
    ;
}

/// An expanded private key gives its public half from 64 bytes on, and signs
/// with its first 32 bytes from 32 bytes on; a shorter one is refused.
pub proof fn law_short_private_keys_are_refused(key: Seq<u8>, data: Seq<u8>)
    ensures
        key.len() < 64 ==> public_half(key) == Err::<Seq<u8>, KeyError>(
            KeyError::InvalidPrivateKeySize,
        ),
        key.len() >= 64 ==> public_half(key) is Ok && public_half(key)->Ok_0.len() == 32
            && key.take(32) + public_half(key)->Ok_0 == key.take(64),
        key.len() < 32 ==> signature_of(key, data) == Err::<Seq<u8>, KeyError>(
            KeyError::InvalidPrivateKeySize,
        ),
        key.len() >= 32 ==> signature_of(key, data) == Ok::<Seq<u8>, KeyError>(
            ed25519_signature(key.subrange(0, 32), data),
        ),
{
    if key.len() >= 64 {
        assert(key.take(32) + key.subrange(32, 64) =~= key.take(64));
    }
}

/// A signature is good exactly if key and signature have the lengths of their
/// kind and Ed25519 accepts them for the data.
pub proof fn law_good_signatures(public: Seq<u8>, data: Seq<u8>, signature: Seq<u8>)
    ensures
        verifies(public, data, signature) <==> public.len() == 32 && signature.len() == 64
            && ed25519_accepts(public, data, signature),
{
}

/// A secret scalar is read exactly from 24 to 32 bytes that write, most
/// significant byte first, a number above 0 and below the order of the curve. It
/// keeps the number, in 32 bytes.
pub proof fn law_secret_scalars_are_read_only_if(b: Seq<u8>)
    ensures
        p256_secret(b) is Some <==> 24 <= b.len() <= 32 && 0 < be_nat(b)
            < 0xffffffff_00000000_ffffffff_ffffffff_bce6faad_a7179e84_f3b9cac2_fc632551nat,
        p256_secret(b) matches Some(k) ==> k.len() == 32 && be_nat(k) == be_nat(b),
{
    if 24 <= b.len() <= 32 {
        let zeros = Seq::new((32 - b.len()) as nat, |i: int| 0u8);
        let full = zeros + b;
        let back = b.reverse();
        assert(full.reverse() =~= back + zeros);
        lemma_le_nat_zero_extended(back, zeros);
        assert(be_nat(full) == be_nat(b));
    }
}

} // verus!
