//! AES, alone and in Galois/counter mode.

use aes::cipher::BlockEncrypt;
use aes::cipher::KeyInit;
use aes_gcm::aead::Aead;
use rand::RngCore;
use vstd::prelude::*;

verus! {

/// The AES-128 encryption of one 16-byte block.
pub uninterp spec fn aes128(key: Seq<u8>, block: Seq<u8>) -> Seq<u8>;

/// Wraps `aes::Aes128::encrypt_block`. Claims that the 16 bytes it leaves in
/// the block depend on the key and the block alone.
#[verifier::external_body]
pub(crate) fn aes128_encrypt(key: &[u8; 16], block: &[u8; 16]) -> (out: [u8; 16])
    ensures
        out@ == aes128(key@, block@),
{
    let mut block = aes::Block::from(*block);
    aes::Aes128::new(&(*key).into()).encrypt_block(&mut block);
    block.into()
}

/// The longest message and the longest associated data that AES-GCM takes.
pub open spec fn gcm_limit() -> nat {
    0x10_0000_0000
}

/// The AES-256-GCM sealing of `msg` with `aad` as associated data: the
/// ciphertext and its 16-byte tag.
pub uninterp spec fn gcm_sealed(
    key: Seq<u8>,
    nonce: Seq<u8>,
    msg: Seq<u8>,
    aad: Seq<u8>,
) -> Seq<u8>;

/// What AES-256-GCM makes of `sealed` with `aad` as associated data, if the tag
/// is right.
pub uninterp spec fn gcm_opened(
    key: Seq<u8>,
    nonce: Seq<u8>,
    sealed: Seq<u8>,
    aad: Seq<u8>,
) -> Option<Seq<u8>>;

/// Wraps `aes_gcm::Aes256Gcm::encrypt`. Claims that it succeeds exactly within
/// the length limits, that the result depends on the four arguments alone and
/// is 16 bytes longer than the message, and that it opens to the message.
#[verifier::external_body]
pub(crate) fn gcm_seal(key: &[u8; 32], nonce: &[u8; 12], msg: &[u8], aad: &[u8]) -> (r: Option<
    Vec<u8>,
>)
    ensures
        match r {
            Some(sealed) => {
                &&& msg@.len() <= gcm_limit() && aad@.len() <= gcm_limit()
                &&& sealed@ == gcm_sealed(key@, nonce@, msg@, aad@)
                &&& sealed@.len() == msg@.len() + 16
                &&& gcm_opened(key@, nonce@, sealed@, aad@) == Some(msg@)
            },
            None => msg@.len() > gcm_limit() || aad@.len() > gcm_limit(),
        },
{
    let cipher = aes_gcm::Aes256Gcm::new(key.into());
    let payload = aes_gcm::aead::Payload { msg, aad };
    cipher.encrypt(aes_gcm::Nonce::from_slice(nonce), payload).ok()
}

/// Wraps `aes_gcm::Aes256Gcm::decrypt`. Claims that the result depends on the
/// four arguments alone.
#[verifier::external_body]
pub(crate) fn gcm_open(key: &[u8; 32], nonce: &[u8; 12], sealed: &[u8], aad: &[u8]) -> (r: Option<
    Vec<u8>,
>)
    ensures
        match r {
            Some(msg) => gcm_opened(key@, nonce@, sealed@, aad@) == Some(msg@),
            None => gcm_opened(key@, nonce@, sealed@, aad@) is None,
        },
{
    let cipher = aes_gcm::Aes256Gcm::new(key.into());
    let payload = aes_gcm::aead::Payload { msg: sealed, aad };
    cipher.decrypt(aes_gcm::Nonce::from_slice(nonce), payload).ok()
}

/// Wraps `rand::rngs::OsRng::fill_bytes`. Draws twelve bytes from the operating
/// system; nothing is claimed of them.
#[verifier::external_body]
pub(crate) fn random_nonce() -> (nonce: [u8; 12]) {
    let mut nonce = [0u8; 12];
    rand::rngs::OsRng.fill_bytes(&mut nonce);
    nonce
}

} // verus!
