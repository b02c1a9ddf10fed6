//! The services over several rounds.

use adcnet::auction::auction::AUCTION_BID_XI;
use adcnet::auction::iblt::IbltVector;
use adcnet::crypto::types::{generate_keypair, ExchangePrivateKey};
use adcnet::crypto::{PrivateKey, PublicKey};
use adcnet::message_slots::read_slots;
use adcnet::auction_iblt::recover_bids;
use adcnet::protocol::envelope::Transcript;
use adcnet::protocol::messages::{
    AggregatedClientMessages, ClientRoundMessage, ProtocolError, RoundBroadcast, Signed,
};
use adcnet::session::two_round::{AggregatorService, ClientService, ServerService};
use adcnet::{AdcNetConfig, AuctionEngine, Round, RoundContext, ServerId};

fn net_config() -> AdcNetConfig {
    AdcNetConfig { auction_slots: 10, message_length: 3 * 1024, ..Default::default() }
}

fn at(number: i64) -> Round {
    Round::new(number, RoundContext::Client)
}

fn blank_broadcast(round: i64) -> RoundBroadcast {
    RoundBroadcast {
        round_number: round,
        auction_vector: IbltVector::new_with_xi(10, AUCTION_BID_XI),
        message_vector: vec![],
    }
}

struct Net {
    clients: Vec<ClientService>,
    aggregator: AggregatorService,
    servers: Vec<ServerService>,
}

fn build_net(n_clients: usize, n_servers: usize) -> Net {
    let mut servers = Vec::new();
    let mut server_pubs = Vec::new();
    for s in 0..n_servers {
        let (_, sk) = generate_keypair();
        let xk = ExchangePrivateKey::generate();
        server_pubs.push(xk.public());
        servers.push(ServerService::new(net_config(), ServerId(s as u32 + 1), sk, xk));
    }
    let mut aggregator = AggregatorService::new(net_config());
    let mut clients = Vec::new();
    for _ in 0..n_clients {
        let (pk, sk) = generate_keypair();
        let mut client = ClientService::new(net_config(), sk, ExchangePrivateKey::generate());
        for (s, server) in servers.iter_mut().enumerate() {
            server.register_client(&pk, &client.exchange_public()).unwrap();
            client.register_server(ServerId(s as u32 + 1), &server_pubs[s]).unwrap();
        }
        aggregator.register_client(&pk);
        clients.push(client);
    }
    Net { clients, aggregator, servers }
}

fn run_round(net: &mut Net, round: i64) -> (RoundBroadcast, Vec<bool>) {
    for c in &mut net.clients {
        c.advance_to_round(at(round));
    }
    net.aggregator.advance_to_round(at(round));
    for s in &mut net.servers {
        s.advance_to_round(at(round));
    }
    let mut won = Vec::new();
    for c in &mut net.clients {
        let (signed, w) = c.messages_for_current_round().unwrap();
        won.push(w);
        net.aggregator.process_client_messages(&[signed]).unwrap();
    }
    let agg = net.aggregator.current_aggregate().unwrap();
    let mut out = None;
    let partials: Vec<_> =
        net.servers.iter_mut().map(|s| s.process_aggregate_message(&agg).unwrap()).collect();
    for p in partials {
        out = net.servers[0].process_partial_decryption_message(p).unwrap();
    }
    let bc = out.expect("all partials are in");
    for c in &mut net.clients {
        c.process_round_broadcast(bc.clone());
    }
    (bc, won)
}

#[test]
fn messages_travel_from_bid_to_slot() {
    let mut net = build_net(3, 2);
    for c in &mut net.clients {
        c.process_round_broadcast(blank_broadcast(0));
        c.advance_to_round(at(1));
    }
    net.clients[0].schedule_message_for_next_round(b"from the first", 5).unwrap();
    net.clients[2].schedule_message_for_next_round(b"from the third", 9).unwrap();

    let (first, won) = run_round(&mut net, 1);
    assert_eq!(won, vec![false; 3]);
    let bids = recover_bids(&first.auction_vector).unwrap();
    let mut weights: Vec<u32> = bids.iter().map(|b| b.weight).collect();
    weights.sort();
    assert_eq!(weights, vec![5, 9]);

    let (second, won) = run_round(&mut net, 2);
    assert_eq!(won, vec![true, false, true]);
    let winners = AuctionEngine::new(3 * 1024, 1).run_auction(&bids);
    let mut texts: Vec<Vec<u8>> = read_slots(&second.message_vector, &winners)
        .into_iter()
        .zip(&winners)
        .map(|(slot, w)| {
            assert!(slot[w.bid.size as usize..].iter().all(|&b| b == 0));
            slot[..w.bid.size as usize].to_vec()
        })
        .collect();
    texts.sort();
    assert_eq!(texts, vec![b"from the first".to_vec(), b"from the third".to_vec()]);

    // Nothing was bid in the second round, so nobody speaks in the third.
    let (third, won) = run_round(&mut net, 3);
    assert_eq!(won, vec![false; 3]);
    assert!(third.message_vector.is_empty());
}

#[test]
fn scheduling_is_refused_without_message_round_or_room() {
    let mut net = build_net(1, 1);
    let c = &mut net.clients[0];
    assert!(matches!(
        c.schedule_message_for_next_round(b"", 1),
        Err(ProtocolError::NilMessage)
    ));
    assert!(matches!(
        c.schedule_message_for_next_round(b"x", 1),
        Err(ProtocolError::ClientNotInitialized)
    ));
    c.advance_to_round(at(1));
    c.schedule_message_for_next_round(b"x", 1).unwrap();
    assert!(matches!(
        c.schedule_message_for_next_round(b"y", 1),
        Err(ProtocolError::AlreadyPending)
    ));
}

#[test]
fn messages_need_the_broadcast_of_the_round_before() {
    let mut net = build_net(1, 1);
    let c = &mut net.clients[0];
    c.advance_to_round(at(2));
    assert!(matches!(
        c.messages_for_current_round(),
        Err(ProtocolError::NoPreviousBroadcast)
    ));
    c.process_round_broadcast(blank_broadcast(0));
    assert!(matches!(
        c.messages_for_current_round(),
        Err(ProtocolError::NoPreviousBroadcast)
    ));
    c.process_round_broadcast(blank_broadcast(1));
    let (signed, won) = c.messages_for_current_round().unwrap();
    assert!(!won);
    assert_eq!(signed.recover().unwrap().0.round_number, 2);
    assert_eq!(signed.object.all_server_ids, vec![ServerId(1)]);
}

#[test]
fn a_message_whose_slot_has_gone_by_is_dropped() {
    let mut net = build_net(1, 1);
    let c = &mut net.clients[0];
    c.process_round_broadcast(blank_broadcast(0));
    c.advance_to_round(at(1));
    c.schedule_message_for_next_round(b"too late", 1).unwrap();
    let mut key = [0u8; 7];
    key[0] = 1;
    let (bid_round, _) = c.messages_for_current_round_with_key(&key).unwrap();
    assert_eq!(bid_round.object.message_vector.len(), 0);
    // The bid wins, but its round is skipped.
    let mut table = IbltVector::new_with_xi(10, AUCTION_BID_XI);
    adcnet::auction_iblt::insert_bid_with_key(
        &mut table,
        &adcnet::AuctionData::from_message(b"too late", 1),
        &key,
    )
    .unwrap();
    c.advance_to_round(at(3));
    c.process_round_broadcast(RoundBroadcast {
        round_number: 2,
        auction_vector: table,
        message_vector: vec![],
    });
    let (_, won) = c.messages_for_current_round().unwrap();
    assert!(!won);
}

#[test]
fn rounds_only_go_forward() {
    let mut net = build_net(1, 1);
    let (_, sk) = generate_keypair();
    net.clients[0].advance_to_round(at(5));
    net.clients[0].advance_to_round(at(4));
    net.clients[0].process_round_broadcast(blank_broadcast(4));
    assert_eq!(net.clients[0].messages_for_current_round().unwrap().0.object.round_number, 5);
    net.servers[0].advance_to_round(at(5));
    net.servers[0].advance_to_round(at(4));
    let stale = Signed::new(&sk, submission(4, 1)).unwrap();
    assert!(matches!(
        net.servers[0].process_client_message(&stale),
        Err(ProtocolError::WrongRound { got: 4, expected: 5 })
    ));
    net.aggregator.advance_to_round(at(5));
    net.aggregator.advance_to_round(at(4));
    assert!(matches!(
        net.aggregator.process_client_messages(&[stale]),
        Err(ProtocolError::WrongRound { got: 4, expected: 5 })
    ));
}

fn submission(round: i64, fill: u8) -> ClientRoundMessage {
    ClientRoundMessage {
        round_number: round,
        all_server_ids: vec![ServerId(1)],
        auction_vector: vec![u64::from(fill); 360],
        message_vector: vec![fill; 8],
    }
}

#[test]
fn direct_submissions_are_checked_one_by_one() {
    let (_, sk) = generate_keypair();
    let mut server = ServerService::new(
        net_config(),
        ServerId(1),
        generate_keypair().1,
        ExchangePrivateKey::generate(),
    );
    let sign = |m: ClientRoundMessage| Signed::new(&generate_keypair().1, m).unwrap();
    let first = Signed::new(&sk, submission(1, 1)).unwrap();
    assert!(matches!(
        server.process_client_message(&first),
        Err(ProtocolError::ClientNotInitialized)
    ));
    assert!(matches!(
        server.finalize_partial_for_direct_aggregate(),
        Err(ProtocolError::ClientNotInitialized)
    ));
    server.advance_to_round(at(1));
    let mut forged = first.clone();
    forged.object.message_vector[0] = 9;
    assert!(matches!(
        server.process_client_message(&forged),
        Err(ProtocolError::BadSignature)
    ));
    server.process_client_message(&first).unwrap();
    let mut roster = submission(1, 2);
    roster.all_server_ids = vec![ServerId(1), ServerId(2)];
    assert!(matches!(
        server.process_client_message(&sign(roster)),
        Err(ProtocolError::MismatchingServers)
    ));
    let mut short = submission(1, 2);
    short.message_vector.pop();
    assert!(matches!(
        server.process_client_message(&sign(short)),
        Err(ProtocolError::MismatchingVectorLengths)
    ));
    // A second message by the same signer, even a different one.
    assert!(matches!(
        server.process_client_message(&Signed::new(&sk, submission(1, 3)).unwrap()),
        Err(ProtocolError::DuplicateSubmission(_))
    ));
}

#[test]
fn direct_and_aggregated_rounds_agree() {
    let mut net = build_net(3, 1);
    for c in &mut net.clients {
        c.process_round_broadcast(blank_broadcast(0));
        c.advance_to_round(at(1));
    }
    net.aggregator.advance_to_round(at(1));
    net.servers[0].advance_to_round(at(1));
    let signed: Vec<_> =
        net.clients.iter_mut().map(|c| c.messages_for_current_round().unwrap().0).collect();
    let agg = net.aggregator.process_client_messages(&signed).unwrap();
    for s in &signed {
        net.servers[0].process_client_message(s).unwrap();
    }
    let direct = net.servers[0].finalize_partial_for_direct_aggregate().unwrap();
    assert_eq!(direct.original_aggregate.to_transcript(), agg.to_transcript());
    // The running aggregate is gone.
    assert!(matches!(
        net.servers[0].finalize_partial_for_direct_aggregate(),
        Err(ProtocolError::ClientNotInitialized)
    ));
}

#[test]
fn batches_of_a_round_add_up_on_a_server() {
    let mut net = build_net(2, 1);
    for c in &mut net.clients {
        c.process_round_broadcast(blank_broadcast(0));
        c.advance_to_round(at(1));
    }
    net.servers[0].advance_to_round(at(1));
    let mut batches: Vec<AggregatedClientMessages> = Vec::new();
    for c in &mut net.clients {
        let (signed, _) = c.messages_for_current_round().unwrap();
        net.aggregator.advance_to_round(at(1));
        batches.push(net.aggregator.process_client_messages(&[signed]).unwrap());
    }
    // The second batch holds both clients already.
    net.servers[0].process_aggregate_message(&batches[0]).unwrap();
    assert!(matches!(
        net.servers[0].process_aggregate_message(&batches[1]),
        Err(ProtocolError::DuplicateSubmission(_))
    ));
    let mut other = batches[1].clone();
    other.all_server_ids = vec![ServerId(7)];
    assert!(matches!(
        net.servers[0].process_aggregate_message(&other),
        Err(ProtocolError::InvalidServer(ServerId(1)))
    ));
}

#[test]
fn resent_batches_do_not_count_twice() {
    let mut net = build_net(2, 1);
    for c in &mut net.clients {
        c.process_round_broadcast(blank_broadcast(0));
        c.advance_to_round(at(1));
    }
    net.aggregator.advance_to_round(at(1));
    assert!(net.aggregator.current_aggregate().is_none());
    let signed: Vec<_> =
        net.clients.iter_mut().map(|c| c.messages_for_current_round().unwrap().0).collect();
    let once = net.aggregator.process_client_messages(&signed).unwrap();
    let twice = net.aggregator.process_client_messages(&signed).unwrap();
    assert_eq!(once.to_transcript(), twice.to_transcript());
    assert_eq!(
        net.aggregator.current_aggregate().unwrap().to_transcript(),
        once.to_transcript()
    );
    // One bad signature refuses the batch and changes nothing.
    let mut bad = signed.clone();
    bad[1].object.message_vector.push(1);
    assert!(matches!(
        net.aggregator.process_client_messages(&bad),
        Err(ProtocolError::BadSignature)
    ));
    // A client that is no longer registered is skipped.
    let pk: PublicKey = signed[0].public_key.clone();
    net.aggregator.deregister_client(&pk);
    net.aggregator.advance_to_round(at(2));
    assert!(net.aggregator.current_aggregate().is_none());
}

#[test]
fn deregistered_parties_are_forgotten() {
    let mut net = build_net(1, 2);
    let c = &mut net.clients[0];
    c.deregister_server(ServerId(1));
    c.process_round_broadcast(blank_broadcast(0));
    c.advance_to_round(at(1));
    let (signed, _) = c.messages_for_current_round().unwrap();
    assert_eq!(signed.object.all_server_ids, vec![ServerId(2)]);
    net.aggregator.advance_to_round(at(1));
    let agg = net.aggregator.process_client_messages(&[signed.clone()]).unwrap();
    net.servers[1].advance_to_round(at(1));
    net.servers[1].deregister_client(&signed.public_key);
    assert!(matches!(
        net.servers[1].process_aggregate_message(&agg),
        Err(ProtocolError::NoSharedKey(_))
    ));
}

#[test]
fn services_show_their_own_keys() {
    let (pk, sk) = generate_keypair();
    let xk = ExchangePrivateKey::generate();
    let public = xk.public().to_sec1_bytes();
    let copy = PrivateKey::from_bytes(&sk.0);
    let client = ClientService::new(net_config(), sk, xk);
    assert_eq!(client.exchange_public().to_sec1_bytes(), public);
    assert_eq!(client.signing_key().public_key().unwrap(), pk);
    let server =
        ServerService::new(net_config(), ServerId(3), copy, ExchangePrivateKey::generate());
    assert_eq!(server.server_id(), ServerId(3));
    assert_eq!(server.signing_key().public_key().unwrap(), pk);
}

#[test]
fn a_client_with_half_a_key_cannot_send() {
    let mut client = ClientService::new(
        net_config(),
        PrivateKey::from_bytes(&[1; 32]),
        ExchangePrivateKey::generate(),
    );
    client.process_round_broadcast(blank_broadcast(0));
    client.advance_to_round(at(1));
    assert!(matches!(client.messages_for_current_round(), Err(ProtocolError::Key(_))));
}
