use sailfish::keys::PublicKey;
use sailfish::node::client::{
    worker_addresses, AuthorityWorkers, CertificateAck, ClientParameters, SlotTransactionReply,
};
use sailfish::node::shutdown::{has_time_limit, shutdown_pauses, ShutdownReason};
use std::time::Duration;

#[test]
fn test_client_parameters_default() {
    let params = ClientParameters::default();
    assert_eq!(params.transaction_size, 512);
    assert_eq!(params.transaction_rate, 1000);
    assert_eq!(params.worker_count, 1);
    assert_eq!(params.threshold, 1);
    assert_eq!(params.duration, Duration::from_secs(20));
}

#[test]
fn default_timeout() {
    assert_eq!(ClientParameters::default().transaction_timeout, 150);
}

fn sample_reply() -> SlotTransactionReply {
    SlotTransactionReply {
        slot: 258,
        worker_key: PublicKey([7; 32]),
        committed_transactions: vec![1, u64::MAX],
    }
}

#[test]
fn reply_bytes() {
    let bytes = sample_reply().encode();
    let mut expected = vec![2, 1, 0, 0, 0, 0, 0, 0];
    expected.extend_from_slice(&[7; 32]);
    expected.extend_from_slice(&[2, 0, 0, 0, 0, 0, 0, 0]);
    expected.extend_from_slice(&[1, 0, 0, 0, 0, 0, 0, 0]);
    expected.extend_from_slice(&[255; 8]);
    assert_eq!(bytes, expected);
}

#[test]
fn reply_is_read_back() {
    let mut bytes = sample_reply().encode();
    bytes.extend_from_slice(&[9, 9, 9]);
    let reply = SlotTransactionReply::decode(&bytes).unwrap();
    assert_eq!(reply.slot, 258);
    assert_eq!(reply.worker_key, PublicKey([7; 32]));
    assert_eq!(reply.committed_transactions, vec![1, u64::MAX]);
}

#[test]
fn short_reply_is_refused() {
    let bytes = sample_reply().encode();
    assert!(SlotTransactionReply::decode(&bytes[..bytes.len() - 1]).is_none());
    assert!(SlotTransactionReply::decode(&[]).is_none());
}

#[test]
fn ack_bytes_and_read_back() {
    let ack = CertificateAck {
        acked_transactions: vec![5, 6],
    };
    let bytes = ack.encode();
    assert_eq!(
        bytes,
        vec![2, 0, 0, 0, 0, 0, 0, 0, 5, 0, 0, 0, 0, 0, 0, 0, 6, 0, 0, 0, 0, 0, 0, 0]
    );
    let read = CertificateAck::decode(&bytes).unwrap();
    assert_eq!(read.acked_transactions, vec![5, 6]);
    assert!(CertificateAck::decode(&bytes[..23]).is_none());
}

#[test]
fn ack_with_an_absurd_length_is_refused() {
    assert!(CertificateAck::decode(&[255; 16]).is_none());
}

#[test]
fn addresses_follow_the_numbers_of_the_authorities() {
    let authorities = vec![
        AuthorityWorkers {
            id: 2,
            transactions: vec!["c0", "c1"],
        },
        AuthorityWorkers {
            id: 0,
            transactions: vec!["a0"],
        },
        AuthorityWorkers {
            id: 1,
            transactions: vec![],
        },
        AuthorityWorkers {
            id: 0,
            transactions: vec!["a1"],
        },
    ];
    assert_eq!(worker_addresses(&authorities), vec!["a0", "a1", "c0", "c1"]);
}

#[test]
fn shutdown_waits_for_replies_only_when_the_time_is_over() {
    assert!(!has_time_limit(Duration::from_secs(0)));
    assert!(has_time_limit(Duration::from_nanos(1)));
    assert_eq!(
        shutdown_pauses(ShutdownReason::DurationElapsed),
        (10_000, 200)
    );
    assert_eq!(shutdown_pauses(ShutdownReason::Signal), (0, 200));
}
