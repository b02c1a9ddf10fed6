//! Ed25519 on byte strings.

use ed25519_dalek::Signer;
use ed25519_dalek::Verifier;
use vstd::prelude::*;

verus! {

/// The public key that belongs to a 32-byte seed.
pub uninterp spec fn ed25519_public(seed: Seq<u8>) -> Seq<u8>;

/// The signature that a seed gives `data`.
pub uninterp spec fn ed25519_signature(seed: Seq<u8>, data: Seq<u8>) -> Seq<u8>;

/// Whether `public` is a public key under which `signature` is good for `data`.
pub uninterp spec fn ed25519_accepts(
    public: Seq<u8>,
    data: Seq<u8>,
    signature: Seq<u8>,
) -> bool;

/// Wraps `ed25519_dalek::SigningKey::generate`. Draws a seed from the
/// operating system; nothing is claimed of it.
#[verifier::external_body]
pub(crate) fn random_seed() -> (seed: [u8; 32]) {
    ed25519_dalek::SigningKey::generate(&mut rand::rngs::OsRng).to_bytes()
}

/// Wraps `ed25519_dalek::SigningKey::verifying_key`. Claims that the public key
/// depends on the seed alone.
#[verifier::external_body]
pub(crate) fn public_of_seed(seed: &[u8; 32]) -> (public: [u8; 32])
    ensures
        public@ == ed25519_public(seed@),
{
    ed25519_dalek::SigningKey::from_bytes(seed).verifying_key().to_bytes()
}

/// Wraps `ed25519_dalek::SigningKey::sign`. Claims that the signature depends
/// on the seed and the data alone, and that it is good for the data under the
/// public key of the seed.
#[verifier::external_body]
pub(crate) fn sign_with_seed(seed: &[u8; 32], data: &[u8]) -> (signature: [u8; 64])
    ensures
        signature@ == ed25519_signature(seed@, data@),
        ed25519_accepts(ed25519_public(seed@), data@, signature@),
{
    ed25519_dalek::SigningKey::from_bytes(seed).sign(data).to_bytes()
}

/// Wraps `ed25519_dalek::VerifyingKey::verify`. Claims that the verdict depends
/// on the three byte strings alone; bytes that are no public key accept
/// nothing.
#[verifier::external_body]
pub(crate) fn signature_accepted(public: &[u8; 32], data: &[u8], signature: &[u8; 64]) -> (r: bool)
    ensures
        r == ed25519_accepts(public@, data@, signature@),
{
    let signature = ed25519_dalek::Signature::from_bytes(signature);
    match ed25519_dalek::VerifyingKey::from_bytes(public) {
        Ok(key) => key.verify(data, &signature).is_ok(),
        Err(_) => false,
    }
}

} // verus!
