//! P-256 key exchange on byte strings.

use p256::elliptic_curve::sec1::FromEncodedPoint;
use p256::elliptic_curve::sec1::ToEncodedPoint;
use vstd::prelude::*;

use crate::bytes::be_nat;

verus! {

/// The order of the P-256 group.
pub open spec fn p256_order() -> nat {
    0xffffffff_00000000_ffffffff_ffffffff_bce6faad_a7179e84_f3b9cac2_fc632551nat
}

/// `b` is a secret scalar in its 32-byte big-endian form.
pub open spec fn is_p256_secret(b: Seq<u8>) -> bool {
    b.len() == 32 && 0 < be_nat(b) < p256_order()
}

/// The secret scalar that `b` writes: 24 to 32 bytes, zeros put in front of
/// fewer than 32.
pub open spec fn p256_secret(b: Seq<u8>) -> Option<Seq<u8>> {
    if 24 <= b.len() <= 32 {
        let full = Seq::new((32 - b.len()) as nat, |i: int| 0u8) + b;
        if is_p256_secret(full) {
            Some(full)
        } else {
            None
        }
    } else {
        None
    }
}

/// The uncompressed SEC1 form of the public point that a secret scalar has.
pub uninterp spec fn p256_public(secret: Seq<u8>) -> Seq<u8>;

/// The uncompressed SEC1 form of the public point that the SEC1 encoding `b`
/// stands for, if it stands for one.
pub uninterp spec fn p256_point(b: Seq<u8>) -> Option<Seq<u8>>;

/// The Diffie-Hellman secret of a scalar and a point.
pub uninterp spec fn p256_shared(secret: Seq<u8>, point: Seq<u8>) -> Seq<u8>;

/// Wraps `p256::SecretKey::random`. Draws a secret scalar from the operating
/// system; claims that it is one.
#[verifier::external_body]
pub(crate) fn random_secret() -> (secret: [u8; 32])
    ensures
        is_p256_secret(secret@),
{
    p256::SecretKey::random(&mut rand::rngs::OsRng).to_bytes().into()
}

/// Wraps `p256::SecretKey::from_slice`. Claims that it accepts 24 to 32 bytes,
/// put behind zeros up to 32, that write a number above zero and below the
/// group order, and nothing else.
#[verifier::external_body]
pub(crate) fn parse_secret(b: &[u8]) -> (r: Option<[u8; 32]>)
    ensures
        match r {
            Some(secret) => p256_secret(b@) == Some(secret@),
            None => p256_secret(b@) is None,
        },
{
    match p256::SecretKey::from_slice(b) {
        Ok(secret) => Some(secret.to_bytes().into()),
        Err(_) => None,
    }
}

/// Wraps `p256::SecretKey::public_key`. Claims that the public point depends on
/// the scalar alone, and that its 65-byte encoding reads back as itself.
#[verifier::external_body]
pub(crate) fn public_of_secret(secret: &[u8; 32]) -> (point: Vec<u8>)
    requires
        is_p256_secret(secret@),
    ensures
        point@ == p256_public(secret@),
        point@.len() == 65,
        p256_point(point@) == Some(point@),
{
    let secret = p256::SecretKey::from_slice(secret).unwrap();
    secret.public_key().to_encoded_point(false).as_bytes().to_vec()
}

/// Wraps `p256::PublicKey::from_encoded_point`. Claims that what is read
/// depends on the bytes alone, that the 65-byte uncompressed encoding of it
/// reads back as itself, and that 65 bytes read as a point are its encoding.
#[verifier::external_body]
pub(crate) fn parse_point(b: &[u8]) -> (r: Option<Vec<u8>>)
    ensures
        match r {
            Some(point) => {
                &&& p256_point(b@) == Some(point@)
                &&& point@.len() == 65
                &&& p256_point(point@) == Some(point@)
                &&& b@.len() == 65 ==> point@ == b@
            },
            None => p256_point(b@) is None,
        },
{
    let encoded = match p256::EncodedPoint::from_bytes(b) {
        Ok(encoded) => encoded,
        Err(_) => return None,
    };
    let key: Option<p256::PublicKey> = p256::PublicKey::from_encoded_point(&encoded).into();
    match key {
        Some(key) => Some(key.to_encoded_point(false).as_bytes().to_vec()),
        None => None,
    }
}

/// Wraps `p256::ecdh::diffie_hellman`. Claims that the 32-byte secret depends on
/// the scalar and the point alone, and that the owner of the point computes the
/// same secret from the public point of the scalar.
#[verifier::external_body]
pub(crate) fn shared_secret(secret: &[u8; 32], point: &[u8]) -> (shared: [u8; 32])
    requires
        is_p256_secret(secret@),
        p256_point(point@) == Some(point@),
    ensures
        shared@ == p256_shared(secret@, point@),
        forall|t: Seq<u8>|
            is_p256_secret(t) && point@ == #[trigger] p256_public(t) ==> shared@ == p256_shared(
                t,
                p256_public(secret@),
            ),
{
    let secret = p256::SecretKey::from_slice(secret).unwrap();
    let point = p256::PublicKey::from_sec1_bytes(point).unwrap();
    let shared = p256::ecdh::diffie_hellman(secret.to_nonzero_scalar(), point.as_affine());
    (*shared.raw_secret_bytes()).into()
}

} // verus!
