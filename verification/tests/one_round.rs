//! The 1-round session.

use adcnet::auction::iblt::IbltError;
use adcnet::collections::{IdMap, KeyMap};
use adcnet::crypto::{
    generate_keypair, ExchangePrivateKey, KeyError, PrivateKey, PublicKey, ServerId, SharedKey,
};
use adcnet::iblt_msg::IbltMsgError;
use adcnet::protocol::envelope::Transcript;
use adcnet::protocol::messages::u64_vec_bytes::serialize;
use adcnet::protocol::messages::{ProtocolError, Signed};
use adcnet::session::one_round::{
    client_contribute, client_contribute_with_key, combine_round, server_contribute,
    ClientContribution, IbltMsgParamsOwned, OneRoundConfig, OneRoundError, ServerShare,
};
use rand::SeedableRng;
use rand_chacha::ChaCha20Rng;
use serde_bytes::ByteBuf;

fn session_config(max_payload: usize, n_msgs: u32) -> OneRoundConfig {
    OneRoundConfig {
        iblt: IbltMsgParamsOwned { estimated_messages: n_msgs, max_payload_bytes: max_payload },
    }
}

#[test]
fn end_to_end_3_clients_2_servers_1kb_payloads() {
    let n_clients = 3;
    let n_servers = 2;
    let round = 7u32;
    let cfg = session_config(1024, n_clients as u32);

    // Server identities.
    let mut server_signing: Vec<PrivateKey> = Vec::new();
    let mut server_xkey: Vec<ExchangePrivateKey> = Vec::new();
    let mut server_ids: Vec<ServerId> = Vec::new();
    for s in 0..n_servers {
        let (_pk, sk) = generate_keypair();
        server_signing.push(sk);
        server_xkey.push(ExchangePrivateKey::generate());
        server_ids.push(ServerId((s as u32) + 1));
    }

    // Client identities + ECDH with each server.
    let mut client_signing: Vec<PrivateKey> = Vec::new();
    let mut client_pubs: Vec<PublicKey> = Vec::new();
    let mut client_xkey: Vec<ExchangePrivateKey> = Vec::new();
    let mut client_secrets: Vec<IdMap<SharedKey>> =
        (0..n_clients).map(|_| IdMap::new()).collect();
    for csec in &mut client_secrets {
        let (pk, sk) = generate_keypair();
        let xk = ExchangePrivateKey::generate();
        for s in 0..n_servers {
            let secret = xk.ecdh(&server_xkey[s].public());
            csec.insert(server_ids[s], secret);
        }
        client_signing.push(sk);
        client_pubs.push(pk);
        client_xkey.push(xk);
    }

    // Server side: each server learns each client's shared secret.
    let mut server_secrets: Vec<KeyMap<SharedKey>> =
        (0..n_servers).map(|_| KeyMap::new()).collect();
    for s in 0..n_servers {
        for c in 0..n_clients {
            let secret = server_xkey[s].ecdh(&client_xkey[c].public());
            server_secrets[s].insert(client_pubs[c].clone(), secret);
        }
    }

    // Client contributions.
    let mut rng = ChaCha20Rng::from_seed([42u8; 32]);
    let payloads: Vec<Vec<u8>> = (0..n_clients)
        .map(|i| {
            let mut v = vec![0u8; 1024];
            for (j, b) in v.iter_mut().enumerate() {
                *b = ((i * 1024 + j) % 251) as u8;
            }
            v
        })
        .collect();
    let mut signed_clients: Vec<Signed<ClientContribution>> = Vec::new();
    for c in 0..n_clients {
        let s = client_contribute(
            &cfg,
            round,
            &client_signing[c],
            &client_secrets[c],
            Some(&payloads[c]),
            &mut rng,
        )
        .unwrap();
        signed_clients.push(s);
    }

    // Server contributions.
    let mut signed_servers: Vec<Signed<ServerShare>> = Vec::new();
    for s in 0..n_servers {
        let signed = server_contribute(
            &cfg,
            round,
            server_ids[s],
            &server_signing[s],
            &server_secrets[s],
        )
        .unwrap();
        signed_servers.push(signed);
    }

    // Verify signatures, strip envelopes.
    let clients_raw: Vec<ClientContribution> =
        signed_clients.iter().map(|s| s.recover().unwrap().0.clone()).collect();
    let servers_raw: Vec<ServerShare> =
        signed_servers.iter().map(|s| s.recover().unwrap().0.clone()).collect();

    let mut decoded = combine_round(&cfg, round, &clients_raw, &servers_raw, n_servers).unwrap();
    let mut expected = payloads.clone();
    decoded.sort();
    expected.sort();
    assert_eq!(decoded, expected);
}

#[test]
fn missing_server_share_errors() {
    let cfg = session_config(64, 4);
    let err = combine_round(&cfg, 0, &[], &[], 2).unwrap_err();
    assert!(matches!(err, OneRoundError::ServerShareCount { .. }));

    // Right count, but one server_id duplicated (and another missing)
    // must not be silently treated as full coverage.
    let dup = ServerShare { server_id: ServerId(1), round: 0, share: vec![0u64; 4] };
    let err = combine_round(&cfg, 0, &[], &[dup.clone(), dup], 2).unwrap_err();
    assert!(
        matches!(err, OneRoundError::Protocol(ProtocolError::DuplicatePartial(_))),
        "got {err:?}"
    );
}

#[test]
fn contributions_and_shares_of_other_rounds_are_refused() {
    let cfg = session_config(8, 2);
    let share = ServerShare { server_id: ServerId(1), round: 3, share: vec![] };
    let stray = ClientContribution { round: 4, blinded: vec![] };
    assert!(matches!(
        combine_round(&cfg, 3, &[stray], &[share.clone()], 1),
        Err(OneRoundError::WrongRound { got: 4, expected: 3 })
    ));
    assert!(matches!(
        combine_round(&cfg, 5, &[], &[share], 1),
        Err(OneRoundError::WrongRound { got: 3, expected: 5 })
    ));
}

#[test]
fn payloads_come_back_whatever_the_order() {
    let cfg = session_config(16, 4);
    let (_, sk) = generate_keypair();
    let keys: Vec<PublicKey> = (0..3).map(|_| generate_keypair().0).collect();
    let ids = [ServerId(9), ServerId(4)];
    let secret = |c: usize, s: usize| SharedKey::from_bytes(format!("{c}-{s}").as_bytes());
    let payloads: [Option<&[u8]>; 3] = [Some(b"one"), None, Some(b"two")];
    let mut clients: Vec<ClientContribution> = (0..3)
        .map(|c| {
            let mut mine = IdMap::new();
            for s in 0..2 {
                mine.insert(ids[s], secret(c, s));
            }
            let key = [c as u8 + 1; 7];
            client_contribute_with_key(&cfg, 2, &sk, &mine, payloads[c], &key).unwrap().object
        })
        .collect();
    let mut servers: Vec<ServerShare> = (0..2)
        .map(|s| {
            let mut mine = KeyMap::new();
            for c in 0..3 {
                mine.insert(keys[c].clone(), secret(c, s));
            }
            server_contribute(&cfg, 2, ids[s], &sk, &mine).unwrap().object
        })
        .collect();
    for _ in 0..3 {
        clients.rotate_left(1);
        servers.rotate_left(1);
        let mut out = combine_round(&cfg, 2, &clients, &servers, 2).unwrap();
        out.sort();
        assert_eq!(out, vec![b"one".to_vec(), b"two".to_vec()]);
    }
    // Without all servers the pads stay on.
    let err = combine_round(&cfg, 2, &clients, &servers[..1], 1).unwrap_err();
    assert!(matches!(err, OneRoundError::Encoder(IbltMsgError::Iblt(_))), "got {err:?}");
}

#[test]
fn payloads_under_one_key_stall() {
    let cfg = session_config(16, 4);
    let (_, sk) = generate_keypair();
    let none = IdMap::new();
    let clients: Vec<ClientContribution> = [b"a", b"b"]
        .iter()
        .map(|p| {
            client_contribute_with_key(&cfg, 1, &sk, &none, Some(&p[..]), &[1; 7]).unwrap().object
        })
        .collect();
    let err = combine_round(&cfg, 1, &clients, &[], 0).unwrap_err();
    assert!(
        matches!(err, OneRoundError::Encoder(IbltMsgError::Iblt(IbltError::PeelStalled))),
        "got {err:?}"
    );
}

#[test]
fn contributing_passes_errors_on() {
    let cfg = session_config(4, 2);
    let (_, sk) = generate_keypair();
    let none = IdMap::new();
    let err =
        client_contribute_with_key(&cfg, 1, &sk, &none, Some(&[0; 11]), &[1; 7]).unwrap_err();
    assert!(
        matches!(
            err,
            OneRoundError::Encoder(IbltMsgError::PayloadTooLarge { got: 11, usable: 10 })
        ),
        "got {err:?}"
    );
    let short = PrivateKey::from_bytes(&[]);
    let err = server_contribute(&cfg, 1, ServerId(1), &short, &KeyMap::new()).unwrap_err();
    assert!(
        matches!(
            err,
            OneRoundError::Protocol(ProtocolError::Key(KeyError::InvalidPrivateKeySize))
        ),
        "got {err:?}"
    );
}

#[test]
fn session_transcripts_are_what_bincode_writes() {
    let c = ClientContribution { round: 5, blinded: vec![1, 2] };
    let want = bincode::serialize(&(5u32, ByteBuf::from(serialize(&[1, 2])))).unwrap();
    assert_eq!(c.to_transcript(), want);
    let s = ServerShare { server_id: ServerId(8), round: 5, share: vec![3] };
    let want = bincode::serialize(&(8u32, 5u32, ByteBuf::from(serialize(&[3])))).unwrap();
    assert_eq!(s.to_transcript(), want);
}

#[test]
fn a_single_payload_never_stalls() {
    let cfg = session_config(40, 1);
    let (_, sk) = generate_keypair();
    let keys: Vec<PublicKey> = (0..4).map(|_| generate_keypair().0).collect();
    let secret = |c: usize| SharedKey::from_bytes(format!("secret {c}").as_bytes());
    for sender in 0..4 {
        let mut rng = ChaCha20Rng::from_seed([sender as u8; 32]);
        let mut held = KeyMap::new();
        let mut clients = Vec::new();
        for c in 0..4 {
            let mut mine = IdMap::new();
            mine.insert(ServerId(1), secret(c));
            held.insert(keys[c].clone(), secret(c));
            let payload: Option<&[u8]> =
                if c == sender { Some(b"the only payload of the round") } else { None };
            clients.push(
                client_contribute(&cfg, 3, &sk, &mine, payload, &mut rng).unwrap().object,
            );
        }
        let share = server_contribute(&cfg, 3, ServerId(1), &sk, &held).unwrap().object;
        let out = combine_round(&cfg, 3, &clients, &[share], 1).unwrap();
        assert_eq!(out, vec![b"the only payload of the round".to_vec()]);
    }
}
