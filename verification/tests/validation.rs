//! Inputs that must be refused.

use adcnet::crypto::{fields::P, generate_keypair, ServerId};
use adcnet::protocol::envelope::Transcript;
use adcnet::protocol::messages::{AggregatedClientMessages, ProtocolError};
use adcnet::session::one_round::{
    combine_round, ClientContribution, IbltMsgParamsOwned, OneRoundConfig, OneRoundError,
    ServerShare,
};

fn aggregate(round: i64) -> AggregatedClientMessages {
    AggregatedClientMessages {
        round_number: round,
        all_server_ids: vec![ServerId(1)],
        auction_vector: vec![0; 4],
        message_vector: vec![0; 4],
        user_pks: vec![generate_keypair().0],
    }
}

#[test]
fn round_zero_cannot_merge_with_another_round() {
    let mut a = aggregate(0);
    let before = a.to_transcript();
    assert!(matches!(a.union_inplace(&aggregate(1)), Err(ProtocolError::MismatchingRounds)));
    assert_eq!(a.to_transcript(), before);
}

#[test]
fn duplicate_members_inside_a_batch_are_rejected_atomically() {
    let mut a = AggregatedClientMessages::empty();
    let mut b = aggregate(1);
    b.user_pks.push(b.user_pks[0].clone());
    let before = a.to_transcript();
    assert!(matches!(a.union_inplace(&b), Err(ProtocolError::DuplicateSubmission(_))));
    assert_eq!(a.to_transcript(), before);
}

#[test]
fn noncanonical_aggregate_is_rejected() {
    let mut a = aggregate(1);
    let mut b = aggregate(1);
    b.auction_vector[0] = u64::MAX;
    assert!(matches!(a.union_inplace(&b), Err(ProtocolError::NonCanonicalFieldElement)));
}

#[test]
fn one_round_rejects_invalid_vectors_without_panicking() {
    let cfg = OneRoundConfig {
        iblt: IbltMsgParamsOwned { estimated_messages: 2, max_payload_bytes: 32 },
    };
    let len = cfg.iblt.as_params().encoded_len();
    for bad_len in [0, len - 1, len + 1] {
        let clients = [ClientContribution { round: 7, blinded: vec![0; bad_len] }];
        let servers = [ServerShare { server_id: ServerId(1), round: 7, share: vec![0; len] }];
        assert!(matches!(
            combine_round(&cfg, 7, &clients, &servers, 1),
            Err(OneRoundError::Protocol(ProtocolError::MismatchingVectorLengths))
        ));
        let clients = [ClientContribution { round: 7, blinded: vec![0; len] }];
        let servers = [ServerShare { server_id: ServerId(1), round: 7, share: vec![0; bad_len] }];
        assert!(matches!(
            combine_round(&cfg, 7, &clients, &servers, 1),
            Err(OneRoundError::Protocol(ProtocolError::MismatchingVectorLengths))
        ));
    }
    for bad in [P, u64::MAX] {
        let clients = [ClientContribution { round: 7, blinded: vec![bad; len] }];
        let servers = [ServerShare { server_id: ServerId(1), round: 7, share: vec![0; len] }];
        assert!(matches!(
            combine_round(&cfg, 7, &clients, &servers, 1),
            Err(OneRoundError::NonCanonicalFieldElement)
        ));
    }
    let servers = [ServerShare { server_id: ServerId(1), round: 7, share: vec![0; len] }];
    assert!(combine_round(&cfg, 7, &[], &servers, 1).unwrap().is_empty());
}
