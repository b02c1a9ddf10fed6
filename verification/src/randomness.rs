//! Sources of random IBLT keys.

use rand::RngCore;
use vstd::prelude::*;

use crate::auction::iblt::KEY_BYTES;

verus! {

/// The seedable generator of `rand_chacha`.
#[verifier::external_type_specification]
#[verifier::external_body]
pub struct ExChaCha20Rng(rand_chacha::ChaCha20Rng);

/// The thread-local generator of `rand`.
#[verifier::external_type_specification]
#[verifier::external_body]
pub struct ExThreadRng(rand::rngs::ThreadRng);

/// A source of random keys. Nothing is known of a key that it draws.
pub trait KeySource {
    fn draw_key(&mut self) -> [u8; KEY_BYTES];
}

/// Wraps `rand_chacha::ChaCha20Rng::fill_bytes`. Draws a key; nothing is
/// claimed of it.
#[verifier::external_body]
fn chacha_key(rng: &mut rand_chacha::ChaCha20Rng) -> (key: [u8; KEY_BYTES]) {
    let mut key = [0u8; KEY_BYTES];
    rng.fill_bytes(&mut key);
    key
}

/// Wraps `rand::rngs::ThreadRng::fill_bytes`. Draws a key; nothing is claimed
/// of it.
#[verifier::external_body]
fn thread_key(rng: &mut rand::rngs::ThreadRng) -> (key: [u8; KEY_BYTES]) {
    let mut key = [0u8; KEY_BYTES];
    rng.fill_bytes(&mut key);
    key
}

/// Wraps `rand::thread_rng`. Gives the generator of this thread; nothing is
/// claimed of it.
#[verifier::external_body]
pub(crate) fn thread_source() -> (rng: rand::rngs::ThreadRng) {
    rand::thread_rng()
}

impl KeySource for rand_chacha::ChaCha20Rng {
    fn draw_key(&mut self) -> [u8; KEY_BYTES] {
        chacha_key(self)
    }
}

impl KeySource for rand::rngs::ThreadRng {
    fn draw_key(&mut self) -> [u8; KEY_BYTES] {
        thread_key(self)
    }
}

} // verus!
