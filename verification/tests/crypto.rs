//! Field, hashes, keys, signatures, key exchange, encryption and pads.

use adcnet::crypto::blinding::{
    checked_blinding_vector, derive_blinding_vector, derive_xor_blinding_vector, domain_prefixed,
    field_candidate, single_field_pad, xor_inplace, FIELD_SAMPLE_THRESHOLD,
};
use adcnet::crypto::encryption::{decrypt, encrypt, parse_encrypted_message, EncError};
use adcnet::crypto::fields::{
    add_mod, add_mod_slice, from_le_bytes_packed, from_le_bytes_wire, reduce, sub_mod,
    sub_mod_slice, to_le_bytes_packed, to_le_bytes_wire, P, PACK_BYTES,
};
use adcnet::crypto::types::{
    generate_keypair, public_key_to_server_id, server_ids_to_x_evals, sign, verify,
    ExchangePrivateKey, ExchangePublicKey, KeyError, PrivateKey, PublicKey, ServerId, SharedKey,
    Signature,
};
use aes::cipher::generic_array::GenericArray;
use aes::cipher::{KeyIvInit, StreamCipher};
use aes::Aes128;
use sha3::{Digest, Sha3_256};

// ---------------------------------------------------------------------------
// Field
// ---------------------------------------------------------------------------

#[test]
fn p_is_61_bit() {
    assert_eq!(64 - P.leading_zeros(), 61);
}

#[test]
fn add_wraps() {
    assert_eq!(add_mod(P - 1, 1, P), 0);
    assert_eq!(add_mod(P - 1, P - 1, P), P - 2);
}

#[test]
fn sub_wraps() {
    assert_eq!(sub_mod(0, 1, P), P - 1);
    assert_eq!(sub_mod(3, 5, P), P - 2);
}

#[test]
fn pack_roundtrip() {
    let bytes: [u8; PACK_BYTES] = [0xde, 0xad, 0xbe, 0xef, 0x12, 0x34, 0x56];
    let x = from_le_bytes_packed(&bytes);
    assert!(x < P);
    assert_eq!(to_le_bytes_packed(x), bytes);
}

#[test]
fn pack_max_value_fits() {
    let max_packed = (1u64 << (PACK_BYTES * 8)) - 1;
    assert!(max_packed < P);
}

#[test]
fn add_mod_slice_matches_scalar() {
    for n in [0usize, 1, 3, 4, 5, 8, 17, 256, 1000] {
        let a: Vec<u64> = (0..n).map(|i| (i as u64 * 12345) % P).collect();
        let b: Vec<u64> = (0..n).map(|i| ((i as u64 + 7) * 6789) % P).collect();
        let mut got = a.clone();
        add_mod_slice(&mut got, &b);
        let mut want = a.clone();
        for i in 0..n {
            want[i] = add_mod(want[i], b[i], P);
        }
        assert_eq!(got, want, "n={}", n);
    }
}

#[test]
fn sub_mod_slice_matches_scalar() {
    for n in [0usize, 1, 3, 4, 5, 8, 17, 256, 1000] {
        let a: Vec<u64> = (0..n).map(|i| (i as u64 * 12345) % P).collect();
        let b: Vec<u64> = (0..n).map(|i| ((i as u64 + 7) * 6789) % P).collect();
        let mut got = a.clone();
        sub_mod_slice(&mut got, &b);
        let mut want = a.clone();
        for i in 0..n {
            want[i] = sub_mod(want[i], b[i], P);
        }
        assert_eq!(got, want, "n={}", n);
    }
}

#[test]
fn add_mod_slice_edge_cases() {
    // Carefully chosen near-modulus values that hit the conditional subtract.
    let n = 8;
    let a = vec![P - 1; n];
    let b = vec![1u64; n];
    let mut got = a.clone();
    add_mod_slice(&mut got, &b);
    assert_eq!(got, vec![0u64; n]);

    let a = vec![P - 1; n];
    let b = vec![P - 1; n];
    let mut got = a.clone();
    add_mod_slice(&mut got, &b);
    assert_eq!(got, vec![P - 2; n]);
}

#[test]
fn sub_mod_slice_edge_cases() {
    let n = 8;
    let a = vec![0u64; n];
    let b = vec![1u64; n];
    let mut got = a.clone();
    sub_mod_slice(&mut got, &b);
    assert_eq!(got, vec![P - 1; n]);
}

#[test]
fn slices_of_unequal_length_meet_as_far_as_both_reach() {
    let mut a = vec![1u64, 2, 3];
    add_mod_slice(&mut a, &[10]);
    assert_eq!(a, vec![11, 2, 3]);
    sub_mod_slice(&mut a, &[1, 1, 1, 1, 1]);
    assert_eq!(a, vec![10, 1, 2]);
    let mut x = vec![1u8, 2, 3];
    xor_inplace(&mut x, &[1]);
    assert_eq!(x, vec![0, 2, 3]);
}

#[test]
fn reduce_handles_the_full_u64_range() {
    for (input, expected) in [
        (0, 0),
        (P - 1, P - 1),
        (P, 0),
        (2 * P - 1, P - 1),
        (2 * P, 0),
        (u64::MAX, 0x88958f62d6ca2a7),
    ] {
        assert_eq!(reduce(input), expected);
    }
}

#[test]
fn reduce_accepts_the_full_u64_range() {
    for x in [0, P - 1, P, 2 * P, u64::MAX] {
        assert_eq!(adcnet::crypto::fields::reduce(x), x % P);
    }
}

#[test]
fn scalar_arithmetic_matches_wide_reference() {
    for a in [0, 1, 2, P / 2, P - 2, P - 1] {
        for b in [0, 1, 2, P / 2, P - 2, P - 1] {
            let expected_add = ((a as u128 + b as u128) % P as u128) as u64;
            let expected_sub = ((a as u128 + P as u128 - b as u128) % P as u128) as u64;
            assert_eq!(add_mod(a, b, P), expected_add);
            assert_eq!(sub_mod(a, b, P), expected_sub);
        }
    }
}

#[test]
fn wire_form_is_eight_bytes_little_endian() {
    assert_eq!(to_le_bytes_wire(0x0102_0304_0506_0708), [8, 7, 6, 5, 4, 3, 2, 1]);
    assert_eq!(from_le_bytes_wire(&[8, 7, 6, 5, 4, 3, 2, 1]), 0x0102_0304_0506_0708);
    assert_eq!(from_le_bytes_packed(&[1, 2]), 0x0201);
    assert_eq!(P, 0x1eee_d4e1_3a52_6bab);
}

// ---------------------------------------------------------------------------
// Pads
// ---------------------------------------------------------------------------

#[test]
fn xor_blinding_self_inverse() {
    let s = SharedKey::from_bytes(&[1, 2, 3, 4]);
    let v1 = derive_xor_blinding_vector(std::slice::from_ref(&s), 7, 100);
    let mut v2 = v1.clone();
    xor_inplace(&mut v2, &derive_xor_blinding_vector(&[s], 7, 100));
    assert!(v2.iter().all(|&b| b == 0));
}

#[test]
fn field_blinding_self_inverse() {
    let s = SharedKey::from_bytes(&[5, 6, 7, 8]);
    let a = derive_blinding_vector(std::slice::from_ref(&s), 3, 10);
    let b = derive_blinding_vector(&[s], 3, 10);
    for (x, y) in a.iter().zip(b.iter()) {
        assert_eq!(x, y);
    }
}

#[test]
fn field_sampler_rejection_boundaries() {
    assert_eq!(field_candidate(0), Some(0));
    assert_eq!(field_candidate(P - 1), Some(P - 1));
    assert_eq!(field_candidate(P), Some(0));
    assert_eq!(field_candidate(FIELD_SAMPLE_THRESHOLD - 1), Some(P - 1));
    assert_eq!(field_candidate(FIELD_SAMPLE_THRESHOLD), None);
    assert_eq!(field_candidate(u64::MAX), None);
}

fn ctr_stream(secret: &[u8], round: u32, n: usize) -> Vec<u8> {
    let mut input = round.to_be_bytes().to_vec();
    input.extend_from_slice(secret);
    let digest = Sha3_256::digest(&input);
    let mut cipher = ctr::Ctr128BE::<Aes128>::new(
        GenericArray::from_slice(&digest[..16]),
        GenericArray::from_slice(&[0; 16]),
    );
    let mut stream = vec![0; n];
    cipher.apply_keystream(&mut stream);
    stream
}

#[test]
fn field_pad_matches_ctr_reference_and_preserves_prefixes() {
    let secret = SharedKey::from_bytes(&[37; 32]);
    let round = 123u32;
    let stream = ctr_stream(secret.as_bytes(), round, 8192);
    let words: Vec<_> =
        stream.chunks_exact(8).map(|b| u64::from_le_bytes(b.try_into().unwrap())).collect();
    assert!(words.iter().any(|&x| x >= FIELD_SAMPLE_THRESHOLD));
    let expected: Vec<_> = words
        .into_iter()
        .filter(|&x| x < FIELD_SAMPLE_THRESHOLD)
        .map(|x| x % P)
        .take(512)
        .collect();
    assert_eq!(expected.len(), 512);
    assert!(expected.iter().any(|&x| x >= 1 << 56));
    for len in [0, 1, 2, 3, 7, 16, 127, 512] {
        assert_eq!(single_field_pad(&secret, round, len), expected[..len]);
    }
    assert_ne!(single_field_pad(&secret, round + 1, 16), expected[..16]);
}

#[test]
fn xor_pad_is_the_ctr_keystream() {
    let secret = SharedKey::from_bytes(b"a secret of some length");
    for n in [0usize, 1, 15, 16, 17, 100] {
        assert_eq!(
            derive_xor_blinding_vector(std::slice::from_ref(&secret), 9, n),
            ctr_stream(secret.as_bytes(), 9, n)
        );
    }
}

#[test]
fn blinding_vectors_add_up_the_pads_of_all_secrets() {
    let a = SharedKey::from_bytes(b"a");
    let b = SharedKey::from_bytes(b"b");
    let mut want = single_field_pad(&a, 5, 20);
    add_mod_slice(&mut want, &single_field_pad(&b, 5, 20));
    assert_eq!(derive_blinding_vector(&[a.clone(), b.clone()], 5, 20), want);
    assert_eq!(derive_blinding_vector(&[b.clone(), a.clone()], 5, 20), want);
    assert_eq!(checked_blinding_vector(&[a.clone(), b.clone()], 5, 20), Some(want));
    let mut want = derive_xor_blinding_vector(std::slice::from_ref(&a), 5, 20);
    xor_inplace(&mut want, &derive_xor_blinding_vector(std::slice::from_ref(&b), 5, 20));
    assert_eq!(derive_xor_blinding_vector(&[a, b], 5, 20), want);
    assert_eq!(derive_blinding_vector(&[], 5, 3), vec![0; 3]);
    assert_eq!(derive_xor_blinding_vector(&[], 5, 3), vec![0; 3]);
}

#[test]
fn domain_tags_stand_in_front_of_the_secret() {
    let s = SharedKey::from_bytes(b"xyz");
    assert_eq!(domain_prefixed(&s, 7).as_bytes(), b"\x07xyz");
}

// ---------------------------------------------------------------------------
// Encryption
// ---------------------------------------------------------------------------

#[test]
fn ecies_roundtrip() {
    let sk = ExchangePrivateKey::generate();
    let pk = sk.public();
    let ct = encrypt(&pk, b"hello adcnet").unwrap();
    let pt = decrypt(&sk, &ct).unwrap();
    assert_eq!(pt, b"hello adcnet");
}

#[test]
fn decryption_fails_for_another_key_or_a_changed_message() {
    let sk = ExchangePrivateKey::generate();
    let mut ct = encrypt(&sk.public(), b"hello").unwrap();
    assert_ne!(ct.ciphertext[..5], b"hello"[..]);
    assert!(decrypt(&ExchangePrivateKey::generate(), &ct).is_err());
    ct.ciphertext[0] ^= 1;
    assert!(decrypt(&sk, &ct).is_err());
}

#[test]
fn encrypted_message_bytes_roundtrip() {
    let sk = ExchangePrivateKey::generate();
    let ct = encrypt(&sk.public(), b"over the wire").unwrap();
    let bytes = ct.to_bytes();
    let back = parse_encrypted_message(&bytes).unwrap();
    assert_eq!(decrypt(&sk, &back).unwrap(), b"over the wire");
    assert!(matches!(parse_encrypted_message(&bytes[..10]), Err(EncError::TooShort)));
}

// ---------------------------------------------------------------------------
// Keys
// ---------------------------------------------------------------------------

#[test]
fn sign_verify_roundtrip() {
    let (pk, sk) = generate_keypair();
    let sig = sign(&sk, b"hello").unwrap();
    assert!(verify(&pk, b"hello", &sig));
    assert!(!verify(&pk, b"world", &sig));
}

#[test]
fn signature_matches_the_published_vector() {
    // The first test vector of RFC 8032, section 7.1.
    let seed = [
        0x9d, 0x61, 0xb1, 0x9d, 0xef, 0xfd, 0x5a, 0x60, 0xba, 0x84, 0x4a, 0xf4, 0x92, 0xec, 0x2c,
        0xc4, 0x44, 0x49, 0xc5, 0x69, 0x7b, 0x32, 0x69, 0x19, 0x70, 0x3b, 0xac, 0x03, 0x1c, 0xae,
        0x7f, 0x60,
    ];
    let public = "d75a980182b10ab7d54bfed3c964073a0ee172f3daa62325af021a68f707511a";
    let pk = PublicKey::from_hex(public).unwrap();
    let sk = PrivateKey::from_bytes(&[&seed[..], pk.as_bytes()].concat());
    assert_eq!(sk.public_key().unwrap(), pk);
    let sig = sign(&sk, b"").unwrap();
    assert_eq!(
        hex::encode(sig.as_bytes()),
        "e5564300c360ac729086e2cc806e828a84877f1eb8e5d974d873e06522490155\
         5fb8821590a33bacc61e39701cf9b46bd25bf5f0595bbe24655141438e7a100b"
    );
    assert!(verify(&pk, b"", &sig));
}

#[test]
fn malformed_keys_and_signatures_are_refused() {
    let (pk, sk) = generate_keypair();
    let sig = sign(&sk, b"x").unwrap();
    assert!(!verify(&PublicKey::from_bytes(&[1, 2, 3]), b"x", &sig));
    assert!(!verify(&pk, b"x", &Signature::from_bytes(&[0; 63])));
    let short = PrivateKey::from_bytes(&[1; 63]);
    // Signing needs the seed alone.
    assert!(sign(&short, b"x").is_ok());
    let stub = PrivateKey::from_bytes(&[1; 31]);
    assert_eq!(sign(&stub, b"x").unwrap_err(), KeyError::InvalidPrivateKeySize);
    assert_eq!(short.public_key().unwrap_err(), KeyError::InvalidPrivateKeySize);
    assert_eq!(
        ExchangePrivateKey::from_bytes(&[0; 32]).err(),
        Some(KeyError::InvalidExchangeKey)
    );
    assert_eq!(
        ExchangePublicKey::from_sec1_bytes(&[4; 65]).err(),
        Some(KeyError::InvalidExchangeKey)
    );
}

#[test]
fn ecdh_agrees() {
    let a = ExchangePrivateKey::generate();
    let b = ExchangePrivateKey::generate();
    let ab = a.ecdh(&b.public());
    let ba = b.ecdh(&a.public());
    assert_eq!(ab.as_bytes(), ba.as_bytes());
}

#[test]
fn exchange_keys_survive_their_byte_forms() {
    let a = ExchangePrivateKey::generate();
    let again = ExchangePrivateKey::from_bytes(&a.to_bytes()).unwrap();
    assert_eq!(again.to_bytes(), a.to_bytes());
    let public = ExchangePublicKey::from_sec1_bytes(&a.public().to_sec1_bytes()).unwrap();
    let b = ExchangePrivateKey::generate();
    assert_eq!(b.ecdh(&public).as_bytes(), a.ecdh(&b.public()).as_bytes());
    // The public key of the scalar one is the base point.
    let mut one = [0u8; 32];
    one[31] = 1;
    let g = ExchangePrivateKey::from_bytes(&one).unwrap().public().to_sec1_bytes();
    assert!(hex::encode(g)
        .contains("6b17d1f2e12c4247f8bce6e563a440f277037d812deb33a0f4a13945d898c296"));
}

#[test]
fn hexadecimal_keys_roundtrip() {
    let pk = PublicKey::from_bytes(&[0x00, 0xab, 0xff]);
    assert_eq!(pk.to_hex(), "00abff");
    assert_eq!(PublicKey::from_hex("00ABff").unwrap(), pk);
    assert!(PublicKey::from_hex("0").is_err());
    assert!(PublicKey::from_hex("zz").is_err());
}

#[test]
fn server_id_is_the_head_of_the_hash_of_the_key() {
    // SHA-256 of "abc" starts with ba7816bf.
    let id = public_key_to_server_id(&PublicKey::from_bytes(b"abc"));
    assert_eq!(id, ServerId(0xba78_16bf));
}

#[test]
fn x_evals_rank_the_servers_of_the_round() {
    let round = [ServerId(30), ServerId(10), ServerId(20)];
    assert_eq!(server_ids_to_x_evals(&round, &round), vec![3, 1, 2]);
    assert_eq!(server_ids_to_x_evals(&round, &[ServerId(20), ServerId(99)]), vec![2, 0]);
}

#[test]
fn secret_debug_output_is_redacted() {
    assert_eq!(PrivateKey::from_bytes(&[42; 64]).debug_text(), "PrivateKey([REDACTED])");
    assert_eq!(SharedKey::from_bytes(&[42; 32]).debug_text(), "SharedKey([REDACTED])");
}
