//! Bids, payloads and message slots.

use adcnet::auction::auction::{AuctionData, AuctionWinner};
use adcnet::auction::iblt::IbltError;
use adcnet::auction_iblt::{
    decode_winners, empty_iblt, encode_iblt, insert_bid, insert_bid_with_key, recover_bids,
    AuctionDecodeError,
};
use adcnet::field_round;
use adcnet::iblt_msg::{
    decode_round, encode_empty, encode_payload, encode_payload_with_key, IbltMsgError,
    IbltMsgParams,
};
use adcnet::message_slots::{read_slots, write_slot, SlotError};
use rand::SeedableRng;
use rand_chacha::ChaCha20Rng;

#[test]
fn insert_encode_decode_one() {
    let mut rng = ChaCha20Rng::from_seed([1; 32]);
    let mut iblt = empty_iblt(8);
    let bid = AuctionData { message_hash: [7; 32], weight: 50, size: 512 };
    insert_bid(&mut iblt, &bid, &mut rng).unwrap();
    let els = encode_iblt(&iblt);
    // Bandwidth = 2 KiB (= 2 chunks at the default 1 KiB granularity).
    let winners = decode_winners(&els, 8, 2 * 1024, 1).unwrap();
    assert_eq!(winners.len(), 1);
    assert_eq!(winners[0].bid.weight, bid.weight);
    assert_eq!(winners[0].bid.size, bid.size);
    assert_eq!(&winners[0].bid.message_hash[..14], &bid.message_hash[..14]);
}

#[test]
fn identical_bids_under_distinct_keys_both_come_back() {
    let mut iblt = empty_iblt(8);
    let bid = AuctionData { message_hash: [7; 32], weight: 50, size: 512 };
    insert_bid_with_key(&mut iblt, &bid, &[1; 7]).unwrap();
    insert_bid_with_key(&mut iblt, &bid, &[2; 7]).unwrap();
    let bids = recover_bids(&iblt).unwrap();
    assert_eq!(bids.len(), 2);
    for b in bids {
        assert_eq!((b.weight, b.size), (50, 512));
        assert_eq!(b.message_hash[..14], [7; 14]);
        assert_eq!(b.message_hash[14..], [0; 18]);
    }
}

#[test]
fn winners_of_a_vector_of_the_wrong_length_are_refused() {
    let err = decode_winners(&[0; 3], 8, 1024, 1).unwrap_err();
    assert!(matches!(
        err,
        AuctionDecodeError::Iblt(IbltError::FieldElementCountMismatch { got: 3, .. })
    ));
}

fn msg_params(max_payload: usize, n_msgs: u32) -> IbltMsgParams {
    IbltMsgParams { estimated_messages: n_msgs, max_payload_bytes: max_payload }
}

#[test]
fn xi_sized_for_1kb() {
    let p = msg_params(1024, 16);
    // ceil((1024+4)/7) = 147
    assert_eq!(p.xi(), 147);
    assert!(p.usable_payload_bytes() >= 1024);
}

#[test]
fn one_payload_roundtrip() {
    let mut rng = ChaCha20Rng::from_seed([1; 32]);
    let p = msg_params(64, 4);
    let payload = b"hello adcnet one-round".to_vec();
    let encoded = encode_payload(&p, &payload, &mut rng).unwrap();
    assert_eq!(encoded.len(), p.encoded_len());
    let decoded = decode_round(&p, &encoded).unwrap();
    assert_eq!(decoded, vec![payload]);
}

#[test]
fn many_payloads_via_field_aggregation() {
    let n: u32 = 8;
    let p = msg_params(64, n);
    let mut rng = ChaCha20Rng::from_seed([2; 32]);
    let mut all_encoded: Vec<Vec<u64>> = Vec::new();
    let mut expected: Vec<Vec<u8>> = Vec::new();
    for i in 0..n {
        let payload = format!("msg-{:02}-payload-contents", i).into_bytes();
        expected.push(payload.clone());
        let enc = encode_payload(&p, &payload, &mut rng).unwrap();
        all_encoded.push(enc);
    }
    let agg = field_round::aggregate_clients(
        &all_encoded.iter().map(|v| v.as_slice()).collect::<Vec<_>>(),
    );
    let mut decoded = decode_round(&p, &agg).unwrap();
    decoded.sort();
    expected.sort();
    assert_eq!(decoded, expected);
}

#[test]
fn payload_too_large_errors() {
    let mut rng = ChaCha20Rng::from_seed([3; 32]);
    let p = msg_params(16, 4);
    let too_big = vec![0u8; 100];
    let err = encode_payload(&p, &too_big, &mut rng).unwrap_err();
    assert!(matches!(err, IbltMsgError::PayloadTooLarge { .. }));
}

#[test]
fn empty_contribution_is_neutral() {
    let mut rng = ChaCha20Rng::from_seed([4; 32]);
    let p = msg_params(32, 4);
    let payload = b"only-one-real-msg".to_vec();
    let real = encode_payload(&p, &payload, &mut rng).unwrap();
    let zero = encode_empty(&p);
    let agg = field_round::aggregate_clients(&[&real, &zero, &zero]);
    let decoded = decode_round(&p, &agg).unwrap();
    assert_eq!(decoded, vec![payload]);
}

#[test]
fn payload_sizes_are_exact() {
    for (max, xi, usable) in [(0usize, 1usize, 3usize), (3, 1, 3), (4, 2, 10), (64, 10, 66)] {
        let p = msg_params(max, 4);
        assert_eq!(p.xi(), xi);
        assert_eq!(p.usable_payload_bytes(), usable);
        // δ = 6 for four payloads.
        assert_eq!(p.encoded_len(), 4 * 6 * (2 + xi));
    }
    let p = msg_params(4, 4);
    assert!(encode_payload_with_key(&p, &[9; 10], &[1; 7]).is_ok());
    assert_eq!(
        encode_payload_with_key(&p, &[9; 11], &[1; 7]).unwrap_err(),
        IbltMsgError::PayloadTooLarge { got: 11, usable: 10 }
    );
}

#[test]
fn empty_and_full_payloads_roundtrip() {
    let p = msg_params(10, 4);
    for payload in [vec![], vec![0u8; 10], vec![0xff; p.usable_payload_bytes()]] {
        let encoded = encode_payload_with_key(&p, &payload, &[5; 7]).unwrap();
        assert_eq!(decode_round(&p, &encoded).unwrap(), vec![payload]);
    }
}

#[test]
fn a_frame_that_claims_too_much_is_refused() {
    let p = msg_params(4, 4);
    let mut t = p.empty_iblt();
    t.insert(&[1; 7], &[&[0, 0, 0, 11, 0, 0, 0], &[0; 7]]).unwrap();
    let err = decode_round(&p, &t.encode_as_field_elements()).unwrap_err();
    assert_eq!(err, IbltMsgError::BadFraming { claimed: 11, capacity: 10 });
}

#[test]
fn decoding_passes_table_errors_on() {
    let p = msg_params(4, 4);
    assert!(matches!(
        decode_round(&p, &[]),
        Err(IbltMsgError::Iblt(IbltError::FieldElementCountMismatch { got: 0, .. }))
    ));
    // Two payloads under one key cannot be told apart.
    let a = encode_payload_with_key(&p, b"a", &[1; 7]).unwrap();
    let b = encode_payload_with_key(&p, b"b", &[1; 7]).unwrap();
    let agg = field_round::aggregate_clients(&[&a, &b]);
    assert_eq!(decode_round(&p, &agg).unwrap_err(), IbltMsgError::Iblt(IbltError::PeelStalled));
}

#[test]
fn write_then_read() {
    let mut buf = vec![0u8; 32];
    write_slot(&mut buf, 4, b"hello").unwrap();
    write_slot(&mut buf, 16, b"world").unwrap();
    let winners = vec![
        AuctionWinner {
            bid: AuctionData { message_hash: [0; 32], weight: 1, size: 5 },
            slot_idx: 4,
            slot_size: 5,
        },
        AuctionWinner {
            bid: AuctionData { message_hash: [0; 32], weight: 1, size: 5 },
            slot_idx: 16,
            slot_size: 5,
        },
    ];
    let payloads = read_slots(&buf, &winners);
    assert_eq!(payloads, vec![b"hello".to_vec(), b"world".to_vec()]);
}

#[test]
fn write_overflow_errors() {
    let mut buf = vec![0u8; 8];
    let err = write_slot(&mut buf, 6, b"too long").unwrap_err();
    assert!(matches!(err, SlotError::Overflow { .. }));
}

#[test]
fn read_truncates_oversized_slots() {
    let winners: Vec<_> = [1, 4, u32::MAX]
        .into_iter()
        .map(|slot_idx| AuctionWinner {
            bid: AuctionData { message_hash: [0; 32], weight: 1, size: 1 },
            slot_idx,
            slot_size: u32::MAX,
        })
        .collect();
    assert_eq!(read_slots(b"data", &winners), vec![b"ata".to_vec(), vec![], vec![]]);
}

#[test]
fn a_refused_write_leaves_the_vector_alone() {
    let mut buf = vec![7u8; 4];
    assert_eq!(
        write_slot(&mut buf, usize::MAX, b"x").unwrap_err(),
        SlotError::Overflow { slot: usize::MAX, payload_len: 1, vec_len: 4 }
    );
    assert_eq!(buf, vec![7; 4]);
    write_slot(&mut buf, 3, b"x").unwrap();
    assert_eq!(buf, b"\x07\x07\x07x");
}
