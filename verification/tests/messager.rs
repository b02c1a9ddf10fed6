//! Stateless protocol operations.

use adcnet::auction::auction::{AuctionData, AUCTION_BID_XI};
use adcnet::auction::iblt::{iblt_field_element_count, IbltVector};
use adcnet::auction_iblt;
use adcnet::collections::{IdMap, KeyMap};
use adcnet::crypto::generate_keypair;
use adcnet::protocol::envelope::Transcript;
use adcnet::protocol::messager::{
    AggregatorMessager, ClientMessager, ServerMessager, VerifiedClientMessage,
    VerifyClientMessages,
};
use adcnet::protocol::messages::{
    AggregatedClientMessages, ClientRoundMessage, ProtocolError, RoundBroadcast, Signed,
};
use adcnet::protocol::AdcNetConfig;
use adcnet::{PublicKey, ServerId, SharedKey};
use rand::SeedableRng;
use rand_chacha::ChaCha20Rng;

fn contribution(config: &AdcNetConfig, client: u8, server: u32) -> VerifiedClientMessage {
    VerifiedClientMessage {
        signer: PublicKey::from_bytes(&[client; 32]),
        message: ClientRoundMessage {
            round_number: 1,
            all_server_ids: vec![ServerId(server)],
            auction_vector: vec![
                1;
                iblt_field_element_count(config.auction_slots, AUCTION_BID_XI)
            ],
            message_vector: Vec::new(),
        },
    }
}

fn authorized(messages: &[VerifiedClientMessage]) -> KeyMap<bool> {
    let mut map = KeyMap::new();
    for m in messages {
        map.insert(m.signer.clone(), true);
    }
    map
}

#[test]
fn aggregation_skips_mismatched_rosters_without_consuming_signer() {
    let config = AdcNetConfig::default();
    let messager = AggregatorMessager { config: &config };
    let messages =
        [contribution(&config, 1, 1), contribution(&config, 2, 2), contribution(&config, 2, 1)];
    let agg = messager
        .aggregate_verified_messages(1, None, &messages, &authorized(&messages))
        .unwrap();
    assert_eq!(agg.all_server_ids, vec![ServerId(1)]);
    assert_eq!(agg.user_pks, vec![messages[0].signer.clone(), messages[2].signer.clone()]);
    assert!(agg.auction_vector.iter().all(|&x| x == 2));
}

#[test]
fn aggregation_preserves_previous_roster_and_empty_message_length() {
    let config = AdcNetConfig::default();
    let messager = AggregatorMessager { config: &config };
    let first = [contribution(&config, 1, 1)];
    let previous =
        messager.aggregate_verified_messages(1, None, &first, &authorized(&first)).unwrap();
    let mut messages =
        [contribution(&config, 2, 2), contribution(&config, 3, 1), contribution(&config, 4, 1)];
    messages[1].message.message_vector.push(1);
    let agg = messager
        .aggregate_verified_messages(1, Some(&previous), &messages, &authorized(&messages))
        .unwrap();
    assert_eq!(agg.user_pks, vec![first[0].signer.clone(), messages[2].signer.clone()]);
    assert!(agg.message_vector.is_empty());
    assert!(agg.auction_vector.iter().all(|&x| x == 2));
}

#[test]
fn aggregation_skips_noncanonical_values_before_selecting_roster() {
    let config = AdcNetConfig::default();
    let messager = AggregatorMessager { config: &config };
    for value in [adcnet::crypto::fields::P, u64::MAX] {
        let mut messages = [contribution(&config, 1, 2), contribution(&config, 1, 1)];
        messages[0].message.auction_vector[0] = value;
        let agg = messager
            .aggregate_verified_messages(1, None, &messages, &authorized(&messages))
            .unwrap();
        assert_eq!(agg.all_server_ids, vec![ServerId(1)]);
        assert_eq!(agg.user_pks, vec![messages[1].signer.clone()]);
        assert!(agg.auction_vector.iter().all(|&x| x == 1));
    }
}

#[test]
fn server_rejects_malformed_aggregates_before_deriving_shares() {
    let config = AdcNetConfig::default();
    let client = PublicKey::from_bytes(&[1; 32]);
    let mut shared = KeyMap::new();
    shared.insert(client.clone(), SharedKey::from_bytes(&[2; 32]));
    let server =
        ServerMessager { config: &config, server_id: ServerId(1), shared_secrets: &shared };
    let aggregate = AggregatedClientMessages {
        round_number: 1,
        all_server_ids: vec![ServerId(1)],
        auction_vector: vec![0; iblt_field_element_count(config.auction_slots, AUCTION_BID_XI)],
        message_vector: vec![],
        user_pks: vec![client.clone()],
    };
    let len = aggregate.auction_vector.len();
    for bad_len in [0, len - 1, len + 1] {
        let mut bad = aggregate.clone();
        bad.auction_vector.resize(bad_len, 0);
        assert!(matches!(
            server.unblind_aggregate(1, &bad),
            Err(ProtocolError::MismatchingVectorLengths)
        ));
    }
    for value in [adcnet::crypto::fields::P, u64::MAX] {
        let mut bad = aggregate.clone();
        bad.auction_vector[0] = value;
        assert!(matches!(
            server.unblind_aggregate(1, &bad),
            Err(ProtocolError::NonCanonicalFieldElement)
        ));
    }
    let mut duplicate = aggregate.clone();
    duplicate.user_pks.push(client);
    assert!(matches!(
        server.unblind_aggregate(1, &duplicate),
        Err(ProtocolError::DuplicateSubmission(_))
    ));
    assert!(server.unblind_aggregate(1, &aggregate).is_ok());
}

#[test]
fn server_refuses_other_rounds_rosters_and_strangers() {
    let config = AdcNetConfig::default();
    let shared = KeyMap::new();
    let server =
        ServerMessager { config: &config, server_id: ServerId(1), shared_secrets: &shared };
    let aggregate = AggregatedClientMessages {
        round_number: 1,
        all_server_ids: vec![ServerId(1)],
        auction_vector: vec![0; iblt_field_element_count(config.auction_slots, AUCTION_BID_XI)],
        message_vector: vec![],
        user_pks: vec![PublicKey::from_bytes(&[0xcd])],
    };
    assert!(matches!(
        server.unblind_aggregate(2, &aggregate),
        Err(ProtocolError::WrongRound { got: 1, expected: 2 })
    ));
    let mut other = aggregate.clone();
    other.all_server_ids = vec![ServerId(2)];
    assert!(matches!(
        server.unblind_aggregate(1, &other),
        Err(ProtocolError::InvalidServer(ServerId(1)))
    ));
    match server.unblind_aggregate(1, &aggregate) {
        Err(ProtocolError::NoSharedKey(hex)) => assert_eq!(hex, "cd"),
        other => panic!("got {other:?}"),
    }
}

#[test]
fn previous_auction_rejects_non_bid_layouts() {
    let config = AdcNetConfig::default();
    let shared = IdMap::new();
    let client = ClientMessager { config: &config, shared_secrets: &shared };
    for xi in [0, 1, 2, 3, 5] {
        let mut table = IbltVector::new_with_xi(config.auction_slots, xi);
        let values = vec![&[1u8; 7][..]; xi];
        table.insert(&[2; 7], &values).unwrap();
        let result = client.process_previous_auction(&table, b"payload");
        assert!(!result.should_send);
        assert_eq!(result.total_allocated, 0);
    }
}

#[test]
fn aggregator_does_not_mix_server_rosters() {
    let config = AdcNetConfig::default();
    let len = adcnet::auction::iblt::iblt_field_element_count(config.auction_slots, 4);
    let keys: Vec<PublicKey> = (0..2).map(|_| generate_keypair().0).collect();
    let mut known = KeyMap::new();
    for pk in &keys {
        known.insert(pk.clone(), true);
    }
    let messages: Vec<_> = keys
        .iter()
        .enumerate()
        .map(|(i, pk)| VerifiedClientMessage {
            signer: pk.clone(),
            message: ClientRoundMessage {
                round_number: 1,
                all_server_ids: vec![ServerId(i as u32 + 1)],
                auction_vector: vec![0; len],
                message_vector: vec![],
            },
        })
        .collect();
    let agg = AggregatorMessager { config: &config }
        .aggregate_verified_messages(1, None, &messages, &known)
        .unwrap();
    assert_eq!(agg.user_pks, vec![keys[0].clone()]);
}

#[test]
fn aggregation_skips_the_unauthorized() {
    let config = AdcNetConfig::default();
    let messager = AggregatorMessager { config: &config };
    let messages =
        [contribution(&config, 1, 1), contribution(&config, 2, 1), contribution(&config, 3, 1)];
    let mut known = KeyMap::new();
    known.insert(messages[1].signer.clone(), true);
    known.insert(messages[2].signer.clone(), false);
    let agg = messager.aggregate_verified_messages(1, None, &messages, &known).unwrap();
    assert_eq!(agg.user_pks, vec![messages[1].signer.clone()]);
    let none = messager.aggregate_verified_messages(1, None, &messages, &KeyMap::new()).unwrap();
    assert_eq!(none.to_transcript(), AggregatedClientMessages::empty().to_transcript());
}

#[test]
fn resending_a_batch_changes_nothing() {
    let config = AdcNetConfig::default();
    let messager = AggregatorMessager { config: &config };
    let messages =
        [contribution(&config, 1, 1), contribution(&config, 2, 2), contribution(&config, 3, 1)];
    let known = authorized(&messages);
    let once = messager.aggregate_verified_messages(1, None, &messages, &known).unwrap();
    let twice = messager.aggregate_verified_messages(1, Some(&once), &messages, &known).unwrap();
    assert_eq!(once.to_transcript(), twice.to_transcript());
    assert_eq!(once.user_pks.len(), 2);
}

#[test]
fn aggregates_of_one_round_add_up() {
    let config = AdcNetConfig::default();
    let messager = AggregatorMessager { config: &config };
    let parts: Vec<AggregatedClientMessages> = (1..=3u8)
        .map(|c| {
            let one = [contribution(&config, c, 1)];
            messager.aggregate_verified_messages(1, None, &one, &authorized(&one)).unwrap()
        })
        .collect();
    let all = messager.aggregate_aggregates(1, &parts).unwrap();
    assert_eq!(all.user_pks.len(), 3);
    assert!(all.auction_vector.iter().all(|&x| x == 3));
    assert!(matches!(
        messager.aggregate_aggregates(2, &parts),
        Err(ProtocolError::WrongRound { got: 1, expected: 2 })
    ));
    let doubled = [parts[0].clone(), parts[0].clone()];
    assert!(matches!(
        messager.aggregate_aggregates(1, &doubled),
        Err(ProtocolError::DuplicateSubmission(_))
    ));
}

#[test]
fn one_bad_signature_refuses_the_batch() {
    let config = AdcNetConfig::default();
    let (_, sk) = generate_keypair();
    let good = Signed::new(&sk, contribution(&config, 1, 1).message).unwrap();
    let mut bad = good.clone();
    bad.object.round_number = 9;
    assert_eq!(VerifyClientMessages::verify(&[good.clone()]).unwrap().len(), 1);
    assert!(matches!(
        VerifyClientMessages::verify(&[good, bad]),
        Err(ProtocolError::BadSignature)
    ));
}

fn broadcast_with(config: &AdcNetConfig, round: i64, msgs: &[&[u8]]) -> RoundBroadcast {
    let mut table = IbltVector::new_with_xi(config.auction_slots, AUCTION_BID_XI);
    let mut rng = ChaCha20Rng::from_seed([21; 32]);
    for m in msgs {
        auction_iblt::insert_bid(&mut table, &AuctionData::from_message(m, 10), &mut rng).unwrap();
    }
    RoundBroadcast { round_number: round, auction_vector: table, message_vector: vec![] }
}

#[test]
fn previous_auction_gives_winners_their_slots() {
    let config = AdcNetConfig { message_length: 3 * 1024, ..Default::default() };
    let shared = IdMap::new();
    let client = ClientMessager { config: &config, shared_secrets: &shared };
    let bc = broadcast_with(&config, 1, &[b"first", b"second"]);
    let a = client.process_previous_auction(&bc.auction_vector, b"first");
    let b = client.process_previous_auction(&bc.auction_vector, b"second");
    assert!(a.should_send && b.should_send);
    assert_eq!(a.total_allocated, 2048);
    assert_eq!(a.message_start_index + b.message_start_index, 1024);
    let c = client.process_previous_auction(&bc.auction_vector, b"third");
    assert!(!c.should_send);
    assert_eq!(c.total_allocated, 2048);
}

#[test]
fn clients_refuse_a_broadcast_of_another_round() {
    let config = AdcNetConfig { message_length: 1024, ..Default::default() };
    let shared = IdMap::new();
    let client = ClientMessager { config: &config, shared_secrets: &shared };
    let bc = broadcast_with(&config, 1, &[]);
    let mut rng = ChaCha20Rng::from_seed([1; 32]);
    assert!(matches!(
        client.prepare_message(3, &bc, b"", None, &mut rng),
        Err(ProtocolError::UnknownPreviousRound)
    ));
    assert!(client.prepare_message(2, &bc, b"", None, &mut rng).is_ok());
}

#[test]
fn a_message_longer_than_its_slot_is_refused() {
    let config = AdcNetConfig { message_length: 1024, ..Default::default() };
    let shared = IdMap::new();
    let client = ClientMessager { config: &config, shared_secrets: &shared };
    let long = vec![5u8; 1025];
    // A bid that understates the size of its message.
    let mut bid = AuctionData::from_message(&long, 10);
    bid.size = 1;
    let mut table = IbltVector::new_with_xi(config.auction_slots, AUCTION_BID_XI);
    auction_iblt::insert_bid_with_key(&mut table, &bid, &[1; 7]).unwrap();
    let bc = RoundBroadcast { round_number: 1, auction_vector: table, message_vector: vec![] };
    let mut rng = ChaCha20Rng::from_seed([1; 32]);
    assert!(matches!(
        client.prepare_message(2, &bc, &long, None, &mut rng),
        Err(ProtocolError::MessageExceedsAllocatedSlot { needed: 1025, available: 1024 })
    ));
}

#[test]
fn a_single_bid_gets_the_first_slot() {
    let config = AdcNetConfig { message_length: 4 * 1024, ..Default::default() };
    let shared = IdMap::new();
    let client = ClientMessager { config: &config, shared_secrets: &shared };
    for (len, total) in [(1, 1024), (1024, 1024), (1025, 2048), (4096, 4096)] {
        let msg = vec![7u8; len];
        let bc = broadcast_with(&config, 1, &[&msg]);
        let won = client.process_previous_auction(&bc.auction_vector, &msg);
        assert!(won.should_send);
        assert_eq!(won.message_start_index, 0);
        assert_eq!(won.total_allocated, total);
        let lost = client.process_previous_auction(&bc.auction_vector, b"another message");
        assert!(!lost.should_send);
        assert_eq!(lost.total_allocated, total);
    }
}
