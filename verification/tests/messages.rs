//! Wire-level messages: unions of aggregates, byte forms, envelopes.

use adcnet::crypto::fields::P;
use adcnet::crypto::types::{generate_keypair, KeyError, PrivateKey};
use adcnet::protocol::envelope::Transcript;
use adcnet::protocol::messages::u64_vec_bytes::{deserialize, serialize, WireError};
use adcnet::protocol::messages::{
    sub_assign_field, AggregatedClientMessages, ClientRoundMessage, ProtocolError,
    ServerPartialDecryptionMessage, Signed,
};
use adcnet::{IbltVector, PublicKey, RoundBroadcast, ServerId};
use serde_bytes::ByteBuf;

fn batch(round: i64, client: u8) -> AggregatedClientMessages {
    AggregatedClientMessages {
        round_number: round,
        all_server_ids: vec![ServerId(1)],
        auction_vector: vec![1, 2],
        message_vector: vec![3, 4],
        user_pks: vec![PublicKey::from_bytes(&[client; 32])],
    }
}

#[test]
fn union_preserves_round_zero_and_combines_vectors() {
    let mut a = AggregatedClientMessages::empty();
    let mut b = batch(0, 1);
    b.auction_vector[0] = P - 1;
    a.union_inplace(&b).unwrap();
    assert_eq!(a.to_transcript(), b.to_transcript());
    a.union_inplace(&batch(0, 2)).unwrap();
    assert_eq!(a.round_number, 0);
    assert_eq!(a.auction_vector, vec![0, 4]);
    assert_eq!(a.message_vector, vec![0, 0]);
    assert_eq!(a.user_pks.len(), 2);
    let before = a.to_transcript();
    assert!(matches!(a.union_inplace(&batch(1, 3)), Err(ProtocolError::MismatchingRounds)));
    assert_eq!(a.to_transcript(), before);
}

#[test]
fn union_rejects_duplicate_members_without_mutation() {
    for mut a in [AggregatedClientMessages::empty(), batch(1, 1)] {
        let mut b = batch(1, 2);
        b.user_pks.push(b.user_pks[0].clone());
        let before = a.to_transcript();
        assert!(matches!(a.union_inplace(&b), Err(ProtocolError::DuplicateSubmission(_))));
        assert_eq!(a.to_transcript(), before);
    }
    let mut a = batch(1, 1);
    let before = a.to_transcript();
    assert!(matches!(a.union_inplace(&batch(1, 1)), Err(ProtocolError::DuplicateSubmission(_))));
    assert_eq!(a.to_transcript(), before);
}

#[test]
fn union_rejects_invalid_shapes_and_elements_without_mutation() {
    for case in 0..5 {
        let mut a = batch(1, 1);
        let mut b = batch(1, 2);
        match case {
            0 => b.all_server_ids.push(ServerId(2)),
            1 => b.auction_vector.clear(),
            2 => a.message_vector.clear(),
            3 => b.auction_vector[0] = P,
            _ => a.auction_vector[0] = u64::MAX,
        }
        let before = a.to_transcript();
        let error = a.union_inplace(&b).unwrap_err();
        match case {
            0 => assert!(matches!(error, ProtocolError::MismatchingServers)),
            1 | 2 => assert!(matches!(error, ProtocolError::MismatchingVectorLengths)),
            _ => assert!(matches!(error, ProtocolError::NonCanonicalFieldElement)),
        }
        assert_eq!(a.to_transcript(), before);
    }
}

#[test]
fn duplicate_submission_names_the_member() {
    let mut a = batch(1, 0xab);
    match a.union_inplace(&batch(1, 0xab)) {
        Err(ProtocolError::DuplicateSubmission(hex)) => assert_eq!(hex, "ab".repeat(32)),
        other => panic!("got {other:?}"),
    }
}

#[test]
fn blank_aggregate_is_neutral() {
    let mut a = AggregatedClientMessages::empty();
    a.union_inplace(&AggregatedClientMessages::empty()).unwrap();
    assert_eq!(a.to_transcript(), AggregatedClientMessages::empty().to_transcript());
    a.union_inplace(&batch(5, 1)).unwrap();
    assert_eq!(a.to_transcript(), batch(5, 1).to_transcript());
}

#[test]
fn field_subtraction_undoes_a_union() {
    let mut a = batch(1, 1);
    a.union_inplace(&batch(1, 2)).unwrap();
    let mut left = a.auction_vector.clone();
    sub_assign_field(&mut left, &batch(1, 2).auction_vector);
    assert_eq!(left, batch(1, 1).auction_vector);
}

#[test]
fn transcripts_are_what_bincode_writes() {
    let m = ClientRoundMessage {
        round_number: -3,
        all_server_ids: vec![ServerId(1), ServerId(0xffff_fffe)],
        auction_vector: vec![1, P - 1],
        message_vector: vec![9, 8, 7],
    };
    let tuple = (
        -3i64,
        vec![1u32, 0xffff_fffe],
        ByteBuf::from(serialize(&m.auction_vector)),
        ByteBuf::from(vec![9u8, 8, 7]),
    );
    // A vector of bytes and a byte string look the same on the wire.
    assert_eq!(m.to_transcript(), bincode::serialize(&tuple).unwrap());

    let a = batch(4, 1);
    let aggregate = (
        4i64,
        vec![1u32],
        ByteBuf::from(serialize(&a.auction_vector)),
        ByteBuf::from(vec![3u8, 4]),
        vec![ByteBuf::from(vec![1u8; 32])],
    );
    assert_eq!(a.to_transcript(), bincode::serialize(&aggregate).unwrap());

    let p = ServerPartialDecryptionMessage {
        server_id: ServerId(7),
        original_aggregate: a.clone(),
        user_pks: vec![],
        auction_vector: vec![5],
        message_vector: vec![6],
    };
    let partial = (
        7u32,
        aggregate,
        Vec::<ByteBuf>::new(),
        ByteBuf::from(serialize(&[5])),
        ByteBuf::from(vec![6u8]),
    );
    assert_eq!(p.to_transcript(), bincode::serialize(&partial).unwrap());
}

#[test]
fn vectors_survive_the_wire_and_noncanonical_ones_do_not() {
    let v = vec![0, 1, P - 1];
    let bytes = serialize(&v);
    assert_eq!(bytes.len(), 24);
    assert_eq!(bytes[8..16], [1, 0, 0, 0, 0, 0, 0, 0]);
    assert_eq!(deserialize(&bytes).unwrap(), v);
    assert_eq!(deserialize(&[]).unwrap(), Vec::<u64>::new());
    assert!(matches!(deserialize(&bytes[..23]), Err(WireError::PartialElement)));
    for bad in [P, u64::MAX] {
        assert!(matches!(
            deserialize(&serialize(&[0, bad])),
            Err(WireError::NonCanonicalFieldElement)
        ));
    }
}

#[test]
fn envelopes_open_only_unchanged() {
    let (pk, sk) = generate_keypair();
    let signed = Signed::new(&sk, batch(1, 1)).unwrap();
    assert_eq!(signed.public_key, pk);
    let (object, signer) = signed.recover().unwrap();
    assert_eq!(object.to_transcript(), batch(1, 1).to_transcript());
    assert_eq!(signer, &pk);

    let mut changed = signed.clone();
    changed.object.round_number = 2;
    assert!(matches!(changed.recover(), Err(ProtocolError::BadSignature)));
    let mut stolen = signed.clone();
    stolen.public_key = generate_keypair().0;
    assert!(matches!(stolen.recover(), Err(ProtocolError::BadSignature)));
}

#[test]
fn envelopes_cover_the_digest_of_object_and_key() {
    let (pk, sk) = generate_keypair();
    let signed = Signed::new(&sk, batch(1, 1)).unwrap();
    let mut data = batch(1, 1).to_transcript();
    data.extend_from_slice(pk.as_bytes());
    let digest = blake3::hash(&data);
    assert!(adcnet::crypto::verify(&pk, digest.as_bytes(), &signed.signature));
}

#[test]
fn envelopes_need_a_whole_key() {
    let err = Signed::new(&PrivateKey::from_bytes(&[1; 10]), batch(1, 1)).unwrap_err();
    assert!(matches!(err, ProtocolError::Key(KeyError::InvalidPrivateKeySize)), "got {err:?}");
}

#[test]
fn broadcasts_can_be_signed() {
    let mut table = IbltVector::new_with_xi(3, 1);
    table.insert(&[1; 7], &[&[2; 7]]).unwrap();
    let bc = RoundBroadcast {
        round_number: -1,
        auction_vector: table.clone(),
        message_vector: vec![5, 6, 7],
    };
    let fields = (
        -1i64,
        (3u32, 4usize, 5usize, 1usize, table.counters, table.keys, table.values),
        vec![5u8, 6, 7],
    );
    assert_eq!(bc.to_transcript(), bincode::serialize(&fields).unwrap());

    let (pk, sk) = generate_keypair();
    let signed = Signed::new(&sk, bc).unwrap();
    assert_eq!(signed.recover().unwrap().1, &pk);
    let mut changed = signed.clone();
    changed.object.auction_vector.counters[0] += 1;
    assert!(matches!(changed.recover(), Err(ProtocolError::BadSignature)));
}
