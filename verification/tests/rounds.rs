//! Blinded rounds, phases of a round, configuration and durations.

use adcnet::crypto::fields::{add_mod, P};
use adcnet::protocol::config::{auction_slots_for_config, RoundDuration};
use adcnet::protocol::duration_text::{format_duration, parse_duration};
use adcnet::protocol::{AdcNetConfig, AggregationMode, AuctionResult};
use adcnet::crypto::ExchangePrivateKey;
use adcnet::{auction_iblt, field_round, xor_round, AuctionData, Round, RoundContext, SharedKey};

fn secret(s: &str) -> SharedKey {
    SharedKey::from_bytes(s.as_bytes())
}

#[test]
fn field_round_single_client_single_server_roundtrip() {
    let s = secret("c1s1");
    let contents = vec![42u64, 1729u64];
    let blinded = field_round::client_blind(std::slice::from_ref(&s), 7, contents.clone());
    assert_ne!(blinded, contents);
    let share = field_round::server_share(&[s], 7, contents.len());
    let recovered = field_round::combine_partials(&blinded, &[&share]);
    assert_eq!(recovered, contents);
}

#[test]
fn field_round_two_clients_two_servers_roundtrip() {
    let c1s1 = secret("c1s1");
    let c1s2 = secret("c1s2");
    let c2s1 = secret("c2s1");
    let c2s2 = secret("c2s2");

    let len = 5;
    let c1 = vec![10u64; len];
    let c2 = vec![20u64; len];

    let b1 = field_round::client_blind(&[c1s1.clone(), c1s2.clone()], 3, c1.clone());
    let b2 = field_round::client_blind(&[c2s1.clone(), c2s2.clone()], 3, c2.clone());
    let agg = field_round::aggregate_clients(&[&b1, &b2]);

    let s1 = field_round::server_share(&[c1s1, c2s1], 3, len);
    let s2 = field_round::server_share(&[c1s2, c2s2], 3, len);
    let recovered = field_round::combine_partials(&agg, &[&s1, &s2]);

    let expected: Vec<u64> = c1.iter().zip(c2.iter()).map(|(&a, &b)| add_mod(a, b, P)).collect();
    assert_eq!(recovered, expected);
}

#[test]
fn xor_round_single_client_single_server_roundtrip() {
    let s = secret("c1s1");
    let contents = b"hello adcnet world".to_vec();
    let blinded = xor_round::client_blind(std::slice::from_ref(&s), 11, contents.clone());
    assert_ne!(blinded, contents);
    let share = xor_round::server_share(&[s], 11, contents.len());
    let recovered = xor_round::combine_partials(&blinded, &[&share]);
    assert_eq!(recovered, contents);
}

#[test]
fn xor_round_two_clients_two_servers_roundtrip() {
    let c1s1 = secret("c1s1");
    let c1s2 = secret("c1s2");
    let c2s1 = secret("c2s1");
    let c2s2 = secret("c2s2");

    let c1 = b"aaaaaaaaaaaa".to_vec();
    let c2 = b"bbbbbbbbbbbb".to_vec();

    let b1 = xor_round::client_blind(&[c1s1.clone(), c1s2.clone()], 1, c1.clone());
    let b2 = xor_round::client_blind(&[c2s1.clone(), c2s2.clone()], 1, c2.clone());
    let agg = xor_round::aggregate_clients(&[&b1, &b2]);

    let s1 = xor_round::server_share(&[c1s1, c2s1], 1, c1.len());
    let s2 = xor_round::server_share(&[c1s2, c2s2], 1, c1.len());
    let recovered = xor_round::combine_partials(&agg, &[&s1, &s2]);

    let expected: Vec<u8> = c1.iter().zip(c2.iter()).map(|(a, b)| a ^ b).collect();
    assert_eq!(recovered, expected);
}

#[test]
fn domain_separation_field_vs_xor() {
    // The same shared secret produces independent pads for the field- and
    // XOR-additive primitives.
    let s = secret("identical-secret");
    let xor_pad = xor_round::server_share(std::slice::from_ref(&s), 0, 8);
    let field_pad = field_round::server_share(&[s], 0, 1);
    let field_bytes = field_pad[0].to_le_bytes();
    assert_ne!(&xor_pad[..7], &field_bytes[..7]);
}

#[test]
fn shares_do_not_depend_on_the_order_of_secrets() {
    let a = secret("a");
    let b = secret("b");
    let c = secret("c");
    let one = [a.clone(), b.clone(), c.clone()];
    let other = [c, a, b];
    assert_eq!(field_round::server_share(&one, 4, 9), field_round::server_share(&other, 4, 9));
    assert_eq!(xor_round::server_share(&one, 4, 9), xor_round::server_share(&other, 4, 9));
}

#[test]
fn checked_rounds_agree_with_the_unchecked_ones() {
    let s = [secret("a"), secret("b")];
    assert_eq!(
        field_round::checked_server_share(&s, 4, 9),
        Some(field_round::server_share(&s, 4, 9))
    );
    assert_eq!(
        field_round::checked_client_blind(&s, 4, vec![1, 2]),
        Some(field_round::client_blind(&s, 4, vec![1, 2]))
    );
}

#[test]
fn aggregation_extends_a_running_sum() {
    let mut dst = vec![1u64, P - 1];
    field_round::aggregate_clients_into(&mut dst, &[&[2, 1], &[3, 5]]);
    assert_eq!(dst, vec![6, 5]);
    assert!(field_round::aggregate_clients(&[]).is_empty());
    let mut dst = vec![1u8, 2];
    xor_round::aggregate_clients_into(&mut dst, &[&[1, 0], &[4, 2]]);
    assert_eq!(dst, vec![4, 0]);
    assert!(xor_round::aggregate_clients(&[]).is_empty());
}

#[test]
fn advance_cycles_through_phases() {
    let r0 = Round::new(0, RoundContext::Client);
    let r1 = r0.advance();
    let r2 = r1.advance();
    let r3 = r2.advance();
    let r4 = r3.advance();
    assert_eq!(r1.context, RoundContext::Aggregator);
    assert_eq!(r2.context, RoundContext::ServerPartial);
    assert_eq!(r3.context, RoundContext::ServerLeader);
    assert_eq!(r4, Round::new(1, RoundContext::Client));
}

#[test]
fn is_after_orders_by_number_then_phase() {
    let a = Round::new(1, RoundContext::ServerLeader);
    let b = Round::new(2, RoundContext::Client);
    assert!(b.is_after(a));
}

#[test]
fn no_phase_is_after_itself_or_its_successor() {
    let mut r = Round::new(-1, RoundContext::Client);
    for _ in 0..9 {
        let next = r.advance();
        assert!(next.is_after(r));
        assert!(!r.is_after(next));
        assert!(!r.is_after(r));
        r = next;
    }
    assert_eq!(r, Round::new(1, RoundContext::Aggregator));
}

#[test]
fn default_configuration_is_as_documented() {
    let c = AdcNetConfig::default();
    assert_eq!(c.auction_slots, 10);
    assert_eq!(c.message_length, 0);
    assert_eq!(c.min_clients, 1);
    assert_eq!(c.round_duration, RoundDuration { millis: 10_000 });
    assert_eq!(c.rounds_per_window, 0);
    assert_eq!(c.aggregation, AggregationMode::Enabled);
    // 4 rows × 15 columns × 6 elements × 8 bytes.
    assert_eq!(auction_slots_for_config(&c), 2880);
    let none = AuctionResult::default();
    assert!(!none.should_send);
    assert_eq!((none.message_start_index, none.total_allocated), (0, 0));
}

fn written(millis: u128) -> String {
    format_duration(&RoundDuration { millis }).iter().collect()
}

#[test]
fn durations_are_written_in_milliseconds() {
    assert_eq!(written(0), "0ms");
    assert_eq!(written(10_000), "10000ms");
    assert_eq!(written(u128::MAX), "340282366920938463463374607431768211455ms");
}

#[test]
fn durations_are_read_with_their_unit() {
    for (text, millis) in [
        ("500ms", 500u128),
        ("10s", 10_000),
        ("7", 7_000),
        (" 3 ms", 3),
        ("+4s", 4_000),
        ("\u{a0}5\u{2003}", 5_000),
        ("18446744073709551615ms", u64::MAX as u128),
        ("0018446744073709551615", 1000 * u64::MAX as u128),
    ] {
        assert_eq!(parse_duration(text), Ok(RoundDuration { millis }), "{}", text);
    }
    for text in ["", "ms", "s", "+", "-1", "1.5s", "1m", "18446744073709551616", "1 0s", "10S"] {
        assert!(parse_duration(text).is_err(), "{}", text);
    }
    for millis in [0, 1, 999, 10_000, u64::MAX as u128] {
        assert_eq!(parse_duration(&written(millis)), Ok(RoundDuration { millis }));
    }
    assert!(parse_duration(&written(u64::MAX as u128 + 1)).is_err());
}

#[test]
fn primitives_and_encoders_compose_by_hand() {
    let round: u32 = 42;
    let auction_slots: u32 = 16;

    let clients: Vec<_> = (0..3).map(|_| ExchangePrivateKey::generate()).collect();
    let servers: Vec<_> = (0..2).map(|_| ExchangePrivateKey::generate()).collect();
    let client_secrets: Vec<Vec<SharedKey>> = clients
        .iter()
        .map(|client| servers.iter().map(|server| client.ecdh(&server.public())).collect())
        .collect();
    let server_secrets: Vec<Vec<SharedKey>> = servers
        .iter()
        .map(|server| clients.iter().map(|client| server.ecdh(&client.public())).collect())
        .collect();

    // Each client encodes a bid into an identically-sized IBLT and blinds it.
    let blinded: Vec<Vec<u64>> = client_secrets
        .iter()
        .enumerate()
        .map(|(c, secrets)| {
            let mut iblt = auction_iblt::empty_iblt(auction_slots);
            let bid =
                AuctionData { message_hash: [c as u8; 32], weight: 10 + c as u32, size: 20 };
            auction_iblt::insert_bid(&mut iblt, &bid, &mut rand::thread_rng()).unwrap();
            field_round::client_blind(secrets, round, auction_iblt::encode_iblt(&iblt))
        })
        .collect();

    // Aggregate client contributions, gather server shares, combine to unblind.
    let agg =
        field_round::aggregate_clients(&blinded.iter().map(Vec::as_slice).collect::<Vec<_>>());
    let shares: Vec<Vec<u64>> = server_secrets
        .iter()
        .map(|s| field_round::server_share(s, round, agg.len()))
        .collect();
    let recovered = field_round::combine_partials(
        &agg,
        &shares.iter().map(Vec::as_slice).collect::<Vec<_>>(),
    );

    // Decode the recovered IBLT and run the auction.
    // Each bid occupies a 1 KiB slot; the budget admits the two highest bids.
    let winners = auction_iblt::decode_winners(&recovered, auction_slots, 2 * 1024, 1).unwrap();
    assert_eq!(winners.len(), 2);
    assert_eq!(winners.iter().map(|w| w.bid.weight).sum::<u32>(), 23);
}
