//! The knapsack auction and the encoding of bids.

use adcnet::auction::auction::{
    AuctionData, AuctionEngine, AuctionWinner, AUCTION_BID_XI, AUCTION_HASH_TRUNC_BYTES,
    KNAPSACK_CHUNK_BYTES,
};

#[test]
fn knapsack_picks_best_combo() {
    // chunk_bytes=1 to keep the test byte-granular.
    let engine = AuctionEngine::with_chunk_bytes(10, 1, 1);
    let bids = vec![
        AuctionData { message_hash: [1; 32], weight: 6, size: 6 },
        AuctionData { message_hash: [2; 32], weight: 5, size: 5 },
        AuctionData { message_hash: [3; 32], weight: 4, size: 4 },
    ];
    let winners = engine.run_auction(&bids);
    // optimal: bids 1 & 3 with sizes 6+4=10 → total weight 10.
    let total_weight: u32 = winners.iter().map(|w| w.bid.weight).sum();
    assert_eq!(total_weight, 10);
    let total_slot: u32 = winners.iter().map(|w| w.slot_size).sum();
    assert_eq!(total_slot, 10);
}

#[test]
fn knapsack_diverges_from_greedy() {
    // 5 items where greedy (by weight/size ratio) picks the wrong subset.
    // capacity = 10. Optimal: {size=6,w=10} + {size=4,w=6} = 16 weight,
    // size 10. Greedy by w/s ratio would pick {size=1,w=2} (ratio 2.0)
    // first then can't pack the size=6 — ends at <16.
    let engine = AuctionEngine::with_chunk_bytes(10, 1, 1);
    let bids = vec![
        AuctionData { message_hash: [1; 32], weight: 10, size: 6 },
        AuctionData { message_hash: [2; 32], weight: 6, size: 4 },
        AuctionData { message_hash: [3; 32], weight: 2, size: 1 },
        AuctionData { message_hash: [4; 32], weight: 3, size: 2 },
        AuctionData { message_hash: [5; 32], weight: 4, size: 3 },
    ];
    let winners = engine.run_auction(&bids);
    let total_weight: u32 = winners.iter().map(|w| w.bid.weight).sum();
    assert_eq!(total_weight, 16, "DP must beat greedy");
    let selected_hashes: Vec<u8> = winners.iter().map(|w| w.bid.message_hash[0]).collect();
    assert_eq!(selected_hashes, vec![1, 2]);
}

#[test]
fn knapsack_quantizes_to_chunks() {
    // Default chunk = 1024 B. A bid of 1500 bytes consumes 2 KiB.
    let engine = AuctionEngine::new(4096, 1);
    let bids = vec![
        // Three bids of 1500 B each → quantized to 2 KiB → total 6 KiB,
        // but capacity is 4 KiB (= 4 chunks). Two of three fit; the
        // highest-weight pair wins.
        AuctionData { message_hash: [1; 32], weight: 5, size: 1500 },
        AuctionData { message_hash: [2; 32], weight: 7, size: 1500 },
        AuctionData { message_hash: [3; 32], weight: 9, size: 1500 },
    ];
    let winners = engine.run_auction(&bids);
    assert_eq!(winners.len(), 2);
    let weights: Vec<u32> = {
        let mut w: Vec<u32> = winners.iter().map(|w| w.bid.weight).collect();
        w.sort();
        w
    };
    assert_eq!(weights, vec![7, 9]);
    // Each slot is rounded up to a 1 KiB multiple.
    for w in &winners {
        assert_eq!(w.slot_size, 2048);
    }
}

#[test]
fn knapsack_memory_is_bounded() {
    // 100 bids, 1 MiB total bandwidth. At 1 KiB chunks the keep bitmap is
    // 100 × 1024 bits = 12.5 KiB.
    let engine = AuctionEngine::new(1 << 20, 1);
    let bids: Vec<AuctionData> = (0..100u32)
        .map(|i| AuctionData { message_hash: [i as u8; 32], weight: i + 1, size: 4096 + i })
        .collect();
    let winners = engine.run_auction(&bids);
    assert!(!winners.is_empty());
    let total_slot: u32 = winners.iter().map(|w| w.slot_size).sum();
    assert!(total_slot <= 1 << 20);
}

#[test]
fn values_roundtrip() {
    let a = AuctionData { message_hash: [42; 32], weight: 7, size: 99 };
    let vs = a.encode_values();
    let bs: Vec<Vec<u8>> = vs.iter().map(|v| v.to_vec()).collect();
    let b = AuctionData::from_values(&bs);
    assert_eq!(b.weight, a.weight);
    assert_eq!(b.size, a.size);
    // Only the first 14 bytes of the hash are preserved.
    assert_eq!(&b.message_hash[..14], &a.message_hash[..14]);
}

#[test]
fn knapsack_handles_total_weight_above_u32() {
    let engine = AuctionEngine::with_chunk_bytes(2, 1, 1);
    let bids = [
        AuctionData { message_hash: [1; 32], weight: u32::MAX, size: 2 },
        AuctionData { message_hash: [2; 32], weight: u32::MAX - 1, size: 1 },
        AuctionData { message_hash: [3; 32], weight: u32::MAX - 1, size: 1 },
    ];
    let winners = engine.run_auction(&bids);
    let selected: Vec<_> = winners.iter().map(|w| w.bid.message_hash[0]).collect();
    assert_eq!(selected, vec![2, 3]);
    assert_eq!(
        winners.iter().map(|w| u64::from(w.bid.weight)).sum::<u64>(),
        2 * u64::from(u32::MAX - 1)
    );
}

#[test]
fn knapsack_handles_zero_size_bids() {
    let engine = AuctionEngine::with_chunk_bytes(1, 0, 1);
    let bids = [
        AuctionData { message_hash: [1; 32], weight: 2, size: 0 },
        AuctionData { message_hash: [2; 32], weight: 3, size: 1 },
        AuctionData { message_hash: [3; 32], weight: 4, size: 0 },
    ];
    let winners = engine.run_auction(&bids);
    let selected: Vec<_> = winners.iter().map(|w| w.bid.message_hash[0]).collect();
    assert_eq!(selected, vec![1, 2, 3]);
    assert_eq!(winners.iter().map(|w| w.slot_size).sum::<u32>(), 1);
    assert_eq!(winners.iter().map(|w| w.bid.weight).sum::<u32>(), 9);
}

#[test]
fn auction_handles_zero_size_and_large_total_weight() {
    let bids = [
        AuctionData { message_hash: [1; 32], weight: u32::MAX, size: 0 },
        AuctionData { message_hash: [2; 32], weight: u32::MAX, size: 1 },
    ];
    let winners = AuctionEngine::with_chunk_bytes(2, 0, 1).run_auction(&bids);
    assert_eq!(winners.len(), 2);
    assert_eq!(
        winners.iter().map(|w| u64::from(w.bid.weight)).sum::<u64>(),
        2 * u64::from(u32::MAX)
    );
}

#[test]
fn bid_on_a_message_names_its_hash_and_length() {
    let bid = AuctionData::from_message(b"abc", 7);
    assert_eq!(bid.weight, 7);
    assert_eq!(bid.size, 3);
    // SHA-256 of "abc".
    assert_eq!(
        bid.message_hash,
        [
            0xba, 0x78, 0x16, 0xbf, 0x8f, 0x01, 0xcf, 0xea, 0x41, 0x41, 0x40, 0xde, 0x5d, 0xae,
            0x22, 0x23, 0xb0, 0x03, 0x61, 0xa3, 0x96, 0x17, 0x7a, 0x9c, 0xb4, 0x10, 0xff, 0x61,
            0xf2, 0x00, 0x15, 0xad
        ]
    );
    assert_eq!(bid.truncated_hash()[..], bid.message_hash[..AUCTION_HASH_TRUNC_BYTES]);
}

#[test]
fn bid_values_have_their_exact_layout() {
    let mut hash = [0u8; 32];
    for (i, b) in hash.iter_mut().enumerate() {
        *b = i as u8;
    }
    let bid = AuctionData { message_hash: hash, weight: 0x01020304, size: 0x0a0b0c0d };
    let vs = bid.encode_values();
    assert_eq!(vs.len(), AUCTION_BID_XI);
    assert_eq!(vs[0], [1, 2, 3, 4, 0, 0, 0]);
    assert_eq!(vs[1], [0x0a, 0x0b, 0x0c, 0x0d, 0, 0, 0]);
    assert_eq!(vs[2], [0, 1, 2, 3, 4, 5, 6]);
    assert_eq!(vs[3], [7, 8, 9, 10, 11, 12, 13]);
}

#[test]
fn zero_weight_and_oversized_bids_never_win() {
    let engine = AuctionEngine::with_chunk_bytes(10, 1, 1);
    let bids = [
        AuctionData { message_hash: [1; 32], weight: 0, size: 1 },
        AuctionData { message_hash: [2; 32], weight: 100, size: 11 },
        AuctionData { message_hash: [3; 32], weight: 1, size: 3 },
    ];
    let winners = engine.run_auction(&bids);
    let selected: Vec<_> = winners.iter().map(|w| w.bid.message_hash[0]).collect();
    assert_eq!(selected, vec![3]);
}

#[test]
fn nothing_wins_without_bids_or_without_a_chunk_of_bandwidth() {
    assert!(AuctionEngine::new(4096, 1).run_auction(&[]).is_empty());
    let bids = [AuctionData { message_hash: [1; 32], weight: 5, size: 1 }];
    assert!(AuctionEngine::new(KNAPSACK_CHUNK_BYTES - 1, 1).run_auction(&bids).is_empty());
    assert_eq!(AuctionEngine::new(KNAPSACK_CHUNK_BYTES, 1).run_auction(&bids).len(), 1);
}

#[test]
fn slots_lie_end_to_end_in_hash_order() {
    let engine = AuctionEngine::with_chunk_bytes(64, 4, 4);
    let bids = [
        AuctionData { message_hash: [9; 32], weight: 1, size: 5 },
        AuctionData { message_hash: [3; 32], weight: 1, size: 1 },
        AuctionData { message_hash: [6; 32], weight: 1, size: 9 },
    ];
    let winners = engine.run_auction(&bids);
    let laid: Vec<(u8, u32, u32, u32)> = winners
        .iter()
        .map(|w| (w.bid.message_hash[0], w.bid.size, w.slot_idx, w.slot_size))
        .collect();
    // The bid of one byte is raised to the minimum of four.
    assert_eq!(laid, vec![(3, 4, 0, 4), (6, 9, 4, 12), (9, 5, 16, 8)]);
}

#[test]
fn knapsack_selection_beats_every_other_selection() {
    let bids: Vec<AuctionData> = [(7u32, 3u32), (2, 1), (9, 5), (4, 2), (6, 4), (1, 1)]
        .iter()
        .enumerate()
        .map(|(i, &(weight, size))| AuctionData { message_hash: [i as u8; 32], weight, size })
        .collect();
    for bandwidth in 1..16u32 {
        let winners: Vec<AuctionWinner> =
            AuctionEngine::with_chunk_bytes(bandwidth, 1, 1).run_auction(&bids);
        let got: u32 = winners.iter().map(|w| w.bid.weight).sum();
        let mut best = 0;
        for mask in 0..(1u32 << bids.len()) {
            let picked = bids.iter().enumerate().filter(|(i, _)| mask >> i & 1 == 1);
            let (weight, size) =
                picked.fold((0, 0), |(w, s), (_, b)| (w + b.weight, s + b.size));
            if size <= bandwidth && weight > best {
                best = weight;
            }
        }
        assert_eq!(got, best, "bandwidth {}", bandwidth);
    }
}

#[test]
fn winners_come_in_hash_order_with_slots_end_to_end() {
    let engine = AuctionEngine::with_chunk_bytes(12, 1, 4);
    let bids = [
        AuctionData { message_hash: [9; 32], weight: 1, size: 3 },
        AuctionData { message_hash: [4; 32], weight: 2, size: 4 },
        AuctionData { message_hash: [7; 32], weight: 3, size: 1 },
    ];
    let winners = engine.run_auction(&bids);
    let placed: Vec<(u8, u32, u32)> = winners
        .iter()
        .map(|w| (w.bid.message_hash[0], w.slot_idx, w.slot_size))
        .collect();
    assert_eq!(placed, vec![(4, 0, 4), (7, 4, 4), (9, 8, 4)]);
}

#[test]
fn less_than_one_chunk_has_no_winners() {
    let engine = AuctionEngine::with_chunk_bytes(3, 0, 4);
    let bids = [AuctionData { message_hash: [1; 32], weight: 5, size: 0 }];
    assert!(engine.run_auction(&bids).is_empty());
}

#[test]
fn equal_bids_win_separately() {
    let engine = AuctionEngine::with_chunk_bytes(3, 1, 1);
    let bid = AuctionData { message_hash: [1; 32], weight: 2, size: 1 };
    let winners = engine.run_auction(&[bid, bid]);
    let slots: Vec<u32> = winners.iter().map(|w| w.slot_idx).collect();
    assert_eq!(slots, vec![0, 1]);
}
