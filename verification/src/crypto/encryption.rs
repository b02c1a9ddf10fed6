//! ECIES (P-256 + AES-256-GCM) for sealed-envelope encryption between protocol
//! participants.

use vstd::prelude::*;

use crate::bytes::{append_slice, to_vec};

use super::ciphers::{gcm_limit, gcm_open, gcm_opened, gcm_seal, gcm_sealed, random_nonce};
use super::exchange::{is_p256_secret, p256_point, p256_public, p256_shared};
use super::hashing::{sha3_256, sha3_256_digest};
use super::types::{ExchangePrivateKey, ExchangePublicKey, KeyError};

verus! {

#[derive(Clone, Copy, Debug, PartialEq, Eq, Structural)]
pub enum EncError {
    TooShort,
    Aead,
    BadNonce,
    Key(KeyError),
}

/// Length of an uncompressed SEC1 public key.
pub const PUBKEY_LEN: usize = 65;

/// Length of an AES-GCM nonce.
pub const NONCE_LEN: usize = 12;

#[derive(Debug)]
pub struct EncryptedMessage {
    /// SEC1 uncompressed (65 bytes for P-256).
    pub ephemeral_pubkey: Vec<u8>,
    /// 12 bytes.
    pub nonce: Vec<u8>,
    /// Ends with the 16-byte GCM tag.
    pub ciphertext: Vec<u8>,
}

/// The parts of an encrypted message.
#[verifier::ext_equal]
pub struct Envelope {
    pub ephemeral_pubkey: Seq<u8>,
    pub nonce: Seq<u8>,
    pub ciphertext: Seq<u8>,
}

impl Envelope {
    /// The parts one after the other.
    pub open spec fn bytes(self) -> Seq<u8> {
        self.ephemeral_pubkey + self.nonce + self.ciphertext
    }
}

impl View for EncryptedMessage {
    type V = Envelope;

    open spec fn view(&self) -> Envelope {
        Envelope {
            ephemeral_pubkey: self.ephemeral_pubkey@,
            nonce: self.nonce@,
            ciphertext: self.ciphertext@,
        }
    }
}

impl Clone for EncryptedMessage {
    fn clone(&self) -> (r: Self)
        ensures
            r@ == self@,
    {
        EncryptedMessage {
            ephemeral_pubkey: to_vec(&self.ephemeral_pubkey),
            nonce: to_vec(&self.nonce),
            ciphertext: to_vec(&self.ciphertext),
        }
    }
}

impl EncryptedMessage {
    pub fn to_bytes(&self) -> (out: Vec<u8>)
        ensures
            out@ == self@.bytes(),
    {
        let mut out = to_vec(&self.ephemeral_pubkey);
        append_slice(&mut out, &self.nonce);
        append_slice(&mut out, &self.ciphertext);
        out
    }
}

/// The parts that `data` is made of, if it is long enough.
pub open spec fn parsed(data: Seq<u8>) -> Result<Envelope, EncError> {
    if data.len() < 93 {
        Err(EncError::TooShort)
    } else {
        Ok(
            Envelope {
                ephemeral_pubkey: data.take(65),
                nonce: data.subrange(65, 77),
                ciphertext: data.skip(77),
            },
        )
    }
}

pub fn parse_encrypted_message(data: &[u8]) -> (r: Result<EncryptedMessage, EncError>)
    ensures
        match r {
            Ok(m) => parsed(data@) == Ok::<Envelope, EncError>(m@),
            Err(e) => parsed(data@) == Err::<Envelope, EncError>(e),
        },
{
    let min_len: usize = PUBKEY_LEN + NONCE_LEN + 16;
    if data.len() < min_len {
        return Err(EncError::TooShort);
    }
    let m = EncryptedMessage {
        ephemeral_pubkey: to_vec(&data[0..PUBKEY_LEN]),
        nonce: to_vec(&data[PUBKEY_LEN..PUBKEY_LEN + NONCE_LEN]),
        ciphertext: to_vec(&data[PUBKEY_LEN + NONCE_LEN..data.len()]),
    };
    proof {
        assert(m@.ephemeral_pubkey =~= data@.take(65));
        assert(m@.ciphertext =~= data@.skip(77));
    }
    Ok(m)
}

/// Parsing the bytes of a message gives the message back.
pub proof fn law_message_bytes_round_trip(m: Envelope)
    requires
        m.ephemeral_pubkey.len() == PUBKEY_LEN,
        m.nonce.len() == NONCE_LEN,
        m.ciphertext.len() >= 16,
    ensures
        parsed(m.bytes()) == Ok::<Envelope, EncError>(m),
{
    let data = m.bytes();
    assert(data.take(65) =~= m.ephemeral_pubkey);
    assert(data.subrange(65, 77) =~= m.nonce);
    assert(data.skip(77) =~= m.ciphertext);
}

/// The domain-separation label of the key derivation.
pub open spec fn ecies_label() -> Seq<u8> {
    seq![97u8, 100, 99, 110, 101, 116, 45, 101, 99, 105, 101, 115, 45, 118, 49]
}

/// The AES key that a shared secret gives.
pub open spec fn ecies_key(shared: Seq<u8>) -> Seq<u8> {
    sha3_256(ecies_label() + shared)
}

fn derive_aes_key(shared_secret: &[u8]) -> (key: [u8; 32])
    ensures
        key@ == ecies_key(shared_secret@),
{
    // "adcnet-ecies-v1"
    let label: [u8; 15] = [97, 100, 99, 110, 101, 116, 45, 101, 99, 105, 101, 115, 45, 118, 49];
    let mut data = to_vec(&label);
    proof {
        assert(data@ =~= ecies_label());
    }
    append_slice(&mut data, shared_secret);
    sha3_256_digest(&data)
}

/// The message that the owner of `ephemeral` seals for `recipient`.
pub open spec fn sealed_for(
    recipient: Seq<u8>,
    ephemeral: Seq<u8>,
    nonce: Seq<u8>,
    plaintext: Seq<u8>,
) -> Envelope {
    Envelope {
        ephemeral_pubkey: p256_public(ephemeral),
        nonce,
        ciphertext: gcm_sealed(
            ecies_key(p256_shared(ephemeral, recipient)),
            nonce,
            plaintext,
            p256_public(ephemeral),
        ),
    }
}

/// What the owner of the secret scalar `secret` makes of `m`.
pub open spec fn opened(secret: Seq<u8>, m: Envelope) -> Result<Seq<u8>, EncError> {
    match p256_point(m.ephemeral_pubkey) {
        None => Err(EncError::Key(KeyError::InvalidExchangeKey)),
        Some(point) => if m.nonce.len() != NONCE_LEN {
            Err(EncError::BadNonce)
        } else {
            match gcm_opened(
                ecies_key(p256_shared(secret, point)),
                m.nonce,
                m.ciphertext,
                m.ephemeral_pubkey,
            ) {
                Some(plaintext) => Ok(plaintext),
                None => Err(EncError::Aead),
            }
        },
    }
}

/// Seal `plaintext` for `recipient` with the ephemeral key and nonce given. The
/// recipient opens the message to the plaintext.
pub fn encrypt_with(
    recipient: &ExchangePublicKey,
    plaintext: &[u8],
    ephemeral: &ExchangePrivateKey,
    nonce: &[u8; NONCE_LEN],
) -> (r: Result<EncryptedMessage, EncError>)
    ensures
        match r {
            Ok(m) => {
                &&& plaintext@.len() <= gcm_limit()
                &&& m@ == sealed_for(recipient@, ephemeral@, nonce@, plaintext@)
                &&& m@.ephemeral_pubkey.len() == PUBKEY_LEN
                &&& m@.ciphertext.len() == plaintext@.len() + 16
                &&& forall|t: Seq<u8>|
                    is_p256_secret(t) && recipient@ == #[trigger] p256_public(t) ==> opened(t, m@)
                        == Ok::<Seq<u8>, EncError>(plaintext@)
            },
            Err(e) => e is Aead && plaintext@.len() > gcm_limit(),
        },
{
    let shared = ephemeral.ecdh(recipient);
    let key = derive_aes_key(shared.as_bytes());
    let ephemeral_pub = ephemeral.public().to_sec1_bytes();
    match gcm_seal(&key, nonce, plaintext, &ephemeral_pub) {
        Some(ciphertext) => Ok(
            EncryptedMessage {
                ephemeral_pubkey: ephemeral_pub,
                nonce: to_vec(nonce),
                ciphertext,
            },
        ),
        None => Err(EncError::Aead),
    }
}

/// Seal `plaintext` for `recipient` under a fresh ephemeral key and nonce. The
/// recipient opens the message to the plaintext.
pub fn encrypt(recipient: &ExchangePublicKey, plaintext: &[u8]) -> (r: Result<
    EncryptedMessage,
    EncError,
>)
    ensures
        match r {
            Ok(m) => {
                &&& plaintext@.len() <= gcm_limit()
                &&& exists|ephemeral: Seq<u8>, nonce: Seq<u8>|
                    is_p256_secret(ephemeral) && nonce.len() == NONCE_LEN && m@
                        == #[trigger] sealed_for(recipient@, ephemeral, nonce, plaintext@)
                &&& m@.ephemeral_pubkey.len() == PUBKEY_LEN
                &&& m@.nonce.len() == NONCE_LEN
                &&& m@.ciphertext.len() == plaintext@.len() + 16
                &&& forall|t: Seq<u8>|
                    is_p256_secret(t) && recipient@ == #[trigger] p256_public(t) ==> opened(t, m@)
                        == Ok::<Seq<u8>, EncError>(plaintext@)
            },
            Err(e) => e is Aead && plaintext@.len() > gcm_limit(),
        },
{
    let ephemeral = ExchangePrivateKey::generate();
    let nonce = random_nonce();
    encrypt_with(recipient, plaintext, &ephemeral, &nonce)
}

/// Open a message sealed for the owner of `recipient_priv`.
pub fn decrypt(recipient_priv: &ExchangePrivateKey, msg: &EncryptedMessage) -> (r: Result<
    Vec<u8>,
    EncError,
>)
    ensures
        match r {
            Ok(plaintext) => opened(recipient_priv@, msg@) == Ok::<Seq<u8>, EncError>(plaintext@),
            Err(e) => opened(recipient_priv@, msg@) == Err::<Seq<u8>, EncError>(e),
        },
{
    let eph_pub = match ExchangePublicKey::from_sec1_bytes(&msg.ephemeral_pubkey) {
        Ok(k) => k,
        Err(e) => return Err(EncError::Key(e)),
    };
    let shared = recipient_priv.ecdh(&eph_pub);
    let key = derive_aes_key(shared.as_bytes());
    if msg.nonce.len() != NONCE_LEN {
        return Err(EncError::BadNonce);
    }
    let mut nonce = [0u8; NONCE_LEN];
    let mut i: usize = 0;
    while i < NONCE_LEN
        invariant
            i <= NONCE_LEN,
            msg.nonce@.len() == NONCE_LEN,
            forall|k: int| 0 <= k < i ==> #[trigger] nonce@[k] == msg.nonce@[k],
        decreases NONCE_LEN - i,
    {
        nonce[i] = msg.nonce[i];
        i = i + 1;
    }
    proof {
        assert(nonce@ =~= msg.nonce@);
    }
    match gcm_open(&key, &nonce, &msg.ciphertext, &msg.ephemeral_pubkey) {
        Some(plaintext) => Ok(plaintext),
        None => Err(EncError::Aead),
    }
}

/// Bytes are an encrypted message exactly if there are at least 93 of them: a
/// key of 65 bytes, a nonce of 12, and the rest, one after the other.
pub proof fn law_messages_are_parsed_only_if(data: Seq<u8>)
    ensures
        data.len() < 93 ==> parsed(data) == Err::<Envelope, EncError>(EncError::TooShort),
        data.len() >= 93 ==> parsed(data) is Ok && {
            let m = parsed(data)->Ok_0;
            &&& m.ephemeral_pubkey.len() == 65
            &&& m.nonce.len() == 12
            &&& m.ephemeral_pubkey + m.nonce + m.ciphertext == data
        },
{
    if data.len() >= 93 {
        let m = parsed(data)->Ok_0;
        assert(m.ephemeral_pubkey + m.nonce + m.ciphertext =~= data);
    }
}

/// The AES key is the SHA3-256 digest of the text `adcnet-ecies-v1` and the
/// shared secret.
pub proof fn law_aes_key_is_labelled(shared: Seq<u8>)
    ensures
        ecies_key(shared) == sha3_256(
            Seq::new("adcnet-ecies-v1"@.len(), |i: int| "adcnet-ecies-v1"@[i] as u8) + shared,
        ),
{
    reveal_strlit("adcnet-ecies-v1");
    assert(Seq::new("adcnet-ecies-v1"@.len(), |i: int| "adcnet-ecies-v1"@[i] as u8)
        =~= ecies_label());
}

/// What is sealed carries the public key of the ephemeral secret, the nonce, and
/// the plaintext under AES-GCM with that public key as associated data; the AES
/// key comes from the secret shared with the recipient.
pub proof fn law_sealing(
    recipient: Seq<u8>,
    ephemeral: Seq<u8>,
    nonce: Seq<u8>,
    plaintext: Seq<u8>,
)
    ensures
        ({
            let m = sealed_for(recipient, ephemeral, nonce, plaintext);
            &&& m.ephemeral_pubkey == p256_public(ephemeral)
            &&& m.nonce == nonce
            &&& m.ciphertext == gcm_sealed(
                sha3_256(ecies_label() + p256_shared(ephemeral, recipient)),
                nonce,
                plaintext,
                p256_public(ephemeral),
            )
        }),
{
}

/// A message opens exactly if its key is a point of the curve, its nonce has
/// twelve bytes and AES-GCM opens its ciphertext with the key as associated
/// data; the first of these that fails is reported.
pub proof fn law_messages_open_only_if(secret: Seq<u8>, m: Envelope)
    ensures
        p256_point(m.ephemeral_pubkey) is None ==> opened(secret, m) == Err::<Seq<u8>, EncError>(
            EncError::Key(KeyError::InvalidExchangeKey),
        ),
        p256_point(m.ephemeral_pubkey) is Some && m.nonce.len() != 12 ==> opened(secret, m)
            == Err::<Seq<u8>, EncError>(EncError::BadNonce),
        p256_point(m.ephemeral_pubkey) is Some && m.nonce.len() == 12 ==> {
            let r = gcm_opened(
                sha3_256(
                    ecies_label() + p256_shared(secret, p256_point(m.ephemeral_pubkey)->0),
                ),
                m.nonce,
                m.ciphertext,
                m.ephemeral_pubkey,
            );
            &&& r is None ==> opened(secret, m) == Err::<Seq<u8>, EncError>(EncError::Aead)
            &&& r is Some ==> opened(secret, m) == Ok::<Seq<u8>, EncError>(r->0)
        },
{
}

} // verus!
