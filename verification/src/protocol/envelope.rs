//! Signed envelope for any wire-level message.

use vstd::prelude::*;

use crate::bytes::append_slice;
use crate::crypto::hashing::{blake3_256, blake3_digest};
use crate::crypto::types::{
    halves_match, public_half, sign, signature_of, verifies, verify, KeyError, PrivateKey,
    PublicKey, Signature,
};

use super::messages::{ProtocolError, Refusal};

verus! {

/// A message with a byte form that a signature can cover.
pub trait Transcript: View + Sized {
    /// The byte form.
    spec fn transcript(m: Self::V) -> Seq<u8>;

    fn to_transcript(&self) -> (out: Vec<u8>)
        ensures
            out@ == Self::transcript(self@),
    ;
}

/// Generic signed envelope. The signature covers the BLAKE3 digest of
/// `transcript(object) || pubkey`.
#[derive(Debug)]
pub struct Signed<T> {
    pub public_key: PublicKey,
    pub signature: Signature,
    pub object: T,
}

/// The digest that a signature by `key` on `object` covers.
pub open spec fn signed_digest<T: Transcript>(object: T::V, key: Seq<u8>) -> Seq<u8> {
    blake3_256(T::transcript(object) + key)
}

impl<T: Clone> Clone for Signed<T> {
    fn clone(&self) -> (r: Self)
        ensures
            r.public_key@ == self.public_key@,
            r.signature@ == self.signature@,
            cloned(self.object, r.object),
    {
        Signed {
            public_key: self.public_key.clone(),
            signature: self.signature.clone(),
            object: self.object.clone(),
        }
    }
}

fn digest<T: Transcript>(object: &T, key: &PublicKey) -> (r: [u8; 32])
    ensures
        r@ == signed_digest::<T>(object@, key@),
{
    let mut data = object.to_transcript();
    append_slice(&mut data, key.as_bytes());
    blake3_digest(&data)
}

impl<T: Transcript> Signed<T> {
    /// The signature is good for the object under the public key.
    pub open spec fn authentic(self) -> bool {
        verifies(
            self.public_key@,
            signed_digest::<T>(self.object@, self.public_key@),
            self.signature@,
        )
    }

    /// Hash the object's byte form and pubkey with BLAKE3 (32-byte digest),
    /// then sign that digest with Ed25519.
    pub fn new(priv_key: &PrivateKey, obj: T) -> (r: Result<Self, ProtocolError>)
        ensures
            match r {
                Ok(s) => {
                    &&& s.object == obj
                    &&& public_half(priv_key@) == Ok::<Seq<u8>, KeyError>(s.public_key@)
                    &&& signature_of(
                        priv_key@,
                        signed_digest::<T>(obj@, s.public_key@),
                    ) == Ok::<Seq<u8>, KeyError>(s.signature@)
                    &&& halves_match(priv_key@) ==> s.authentic()
                },
                Err(e) => public_half(priv_key@) == Err::<Seq<u8>, KeyError>(
                    KeyError::InvalidPrivateKeySize,
                ) && e@ == Refusal::Key(KeyError::InvalidPrivateKeySize),
            },
    {
        let public_key = match priv_key.public_key() {
            Ok(k) => k,
            Err(e) => return Err(ProtocolError::Key(e)),
        };
        let d = digest(&obj, &public_key);
        let signature = match sign(priv_key, &d) {
            Ok(s) => s,
            Err(e) => return Err(ProtocolError::Key(e)),
        };
        Ok(Signed { public_key, signature, object: obj })
    }

    /// Verify the signature and return references to the authenticated payload.
    pub fn recover(&self) -> (r: Result<(&T, &PublicKey), ProtocolError>)
        ensures
            match r {
                Ok(pair) => self.authentic() && *pair.0 == self.object && *pair.1
                    == self.public_key,
                Err(e) => !self.authentic() && e@ == Refusal::BadSignature,
            },
    {
        let d = digest(&self.object, &self.public_key);
        if !verify(&self.public_key, &d, &self.signature) {
            return Err(ProtocolError::BadSignature);
        }
        Ok((&self.object, &self.public_key))
    }
}

} // verus!
