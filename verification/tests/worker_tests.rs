use sailfish::keys::{Digest, KeyMap, PublicKey};
use sailfish::node::client::{CertificateAck, ClientParameters};
use sailfish::node::transaction_sender::{PlannedTransaction, TransactionSender};
use sailfish::wire::batch_digest;
use sailfish::worker::asynchrony::{AsynchronyParameters, ReadOutcome};
use sailfish::worker::batch_maker::BatchMaker;
use sailfish::worker::certificate_ack_sender::{AckAction, CertificateAckSender};
use sailfish::worker::helper;
use sailfish::worker::metadata::{collect_counters, BatchTransactionMap};
use sailfish::worker::processor::{transaction_metadata, Processor};
use sailfish::worker::reply_sender::{forget, Delivery, ReplySender};
use sailfish::worker::synchronizer;
use std::collections::VecDeque;

fn key(byte: u8) -> PublicKey {
    PublicKey([byte; 32])
}

fn digest(byte: u8) -> Digest {
    Digest([byte; 32])
}

fn transaction() -> Vec<u8> {
    vec![0; 100]
}

/// The transactions in the message of a batch.
fn decode(bytes: &[u8]) -> Vec<Vec<u8>> {
    let (variant, batch): (u32, Vec<Vec<u8>>) = bincode::deserialize(bytes).unwrap();
    assert_eq!(variant, 0, "Unexpected message");
    batch
}

#[test]
fn make_batch() {
    let mut maker = BatchMaker::new(/* max_batch_size */ 200);

    assert!(maker.on_transaction(transaction(), 1).is_none());
    let batch = maker.on_transaction(transaction(), 2).unwrap();

    let expected_batch = vec![transaction(), transaction()];
    assert_eq!(decode(&batch.bytes), expected_batch);
}

#[test]
fn batch_timeout() {
    let mut maker = BatchMaker::new(/* max_batch_size */ 200);

    assert!(maker.on_transaction(transaction(), 1).is_none());
    let batch = maker.on_timer();

    let expected_batch = vec![transaction()];
    assert_eq!(decode(&batch.bytes), expected_batch);
}

#[test]
fn sealed_bytes_and_digest() {
    let mut maker = BatchMaker::new(2);
    let batch = maker.on_transaction(vec![7, 8], ()).unwrap();
    assert_eq!(
        batch.bytes,
        vec![
            0, 0, 0, 0, 1, 0, 0, 0, 0, 0, 0, 0, 2, 0, 0, 0, 0, 0, 0, 0, 7, 8
        ]
    );
    assert_eq!(batch.digest, batch_digest(&batch.bytes));
}

#[test]
fn digest_of_nothing() {
    // The first half of the SHA-512 hash of the empty string.
    assert_eq!(
        batch_digest(&vec![]).0,
        [
            0xcf, 0x83, 0xe1, 0x35, 0x7e, 0xef, 0xb8, 0xbd, 0xf1, 0x54, 0x28, 0x50, 0xd6, 0x6d,
            0x80, 0x07, 0xd6, 0x20, 0xe4, 0x05, 0x0b, 0x57, 0x15, 0xdc, 0x83, 0xf4, 0xa9, 0x21,
            0xd3, 0x6c, 0xe9, 0xce
        ]
    );
}

#[test]
fn empty_batches_are_filled() {
    let mut maker: BatchMaker<u8> = BatchMaker::new(200);
    let batch = maker.seal_on_timer(6);
    assert_eq!(decode(&batch.bytes), vec![vec![6u8; 128]]);
    let batch = maker.on_timer();
    let filled = decode(&batch.bytes);
    assert_eq!(filled.len(), 1);
    assert_eq!(filled[0], vec![filled[0][0]; 128]);
    assert!(maker.reply_all(&batch.digest).is_empty());
}

#[test]
fn senders_are_told_once() {
    let mut maker = BatchMaker::new(3);
    maker.on_transaction(vec![1], "first");
    let batch = maker.on_transaction(vec![2, 3], "second").unwrap();
    assert!(maker.on_transaction(vec![4], "third").is_none());
    assert!(maker.reply_all(&digest(0)).is_empty());
    assert_eq!(maker.reply_all(&batch.digest), vec!["first", "second"]);
    assert!(maker.reply_all(&batch.digest).is_empty());
    assert_eq!(maker.current_batch, vec![vec![4]]);
}

#[test]
fn batches_hold_the_transactions_in_order() {
    let mut maker = BatchMaker::new(3);
    let mut seen = Vec::new();
    for i in 0..10u8 {
        if let Some(batch) = maker.on_transaction(vec![i; (i % 3) as usize], ()) {
            seen.extend(decode(&batch.bytes));
        }
    }
    seen.extend(maker.current_batch.clone());
    let expected: Vec<Vec<u8>> = (0..10u8).map(|i| vec![i; (i % 3) as usize]).collect();
    assert_eq!(seen, expected);
}

#[test]
fn timers_lose_no_transaction() {
    let mut maker = BatchMaker::new(3);
    let mut batches = Vec::new();
    batches.push(maker.seal_on_timer(9)); // nothing there: filled
    assert!(maker.on_transaction(vec![1], ()).is_none());
    batches.push(maker.seal_on_timer(9));
    assert!(maker.on_transaction(vec![2, 2], ()).is_none());
    batches.push(maker.on_transaction(vec![3, 3], ()).unwrap());
    batches.push(maker.seal_on_timer(8)); // nothing there: filled
    assert!(maker.on_transaction(vec![4], ()).is_none());
    let decoded: Vec<Vec<Vec<u8>>> = batches.iter().map(|batch| decode(&batch.bytes)).collect();
    assert_eq!(
        decoded,
        vec![
            vec![vec![9; 128]],
            vec![vec![1]],
            vec![vec![2, 2], vec![3, 3]],
            vec![vec![8; 128]],
        ]
    );
    assert_eq!(maker.current_batch, vec![vec![4]]);
}

fn built(client_id: u8, id: u64) -> Vec<u8> {
    let sender = TransactionSender {
        client_id,
        worker_addresses: vec!["a"],
        parameters: ClientParameters::default(),
    };
    sender.fresh_transaction(PlannedTransaction {
        id,
        is_sample: id % 2 == 0,
    })
}

#[test]
fn labels_are_read_back() {
    let mut maker = BatchMaker::new(1024);
    maker.on_transaction(built(3, 70_000), ());
    let batch = maker.on_transaction(built(4, u64::MAX), ()).unwrap();
    assert_eq!(
        Processor::extract_transaction_metadata(&batch.bytes),
        Some(vec![(3, 70_000), (4, u64::MAX)])
    );
}

#[test]
fn labels_that_are_not_there() {
    let transactions = vec![
        vec![0, 1, 0, 0, 0, 0, 0, 0, 0],       // one byte short
        vec![2, 1, 0, 0, 0, 0, 0, 0, 0, 9],    // neither sample nor standard
        vec![1, 1, 0, 0, 0, 0, 0, 0, 1, 9, 5], // labelled
        vec![],
    ];
    assert_eq!(transaction_metadata(&transactions), vec![(1, 265)]);
}

#[test]
fn what_is_no_batch_has_no_labels() {
    assert_eq!(Processor::extract_transaction_metadata(&[]), None);
    let mut other = vec![1, 0, 0, 0];
    other.extend_from_slice(&[0; 8]);
    assert_eq!(Processor::extract_transaction_metadata(&other), None);
    let mut batch = vec![0, 0, 0, 0];
    batch.extend_from_slice(&[0; 8]);
    assert_eq!(Processor::extract_transaction_metadata(&batch), Some(vec![]));
    assert_eq!(
        Processor::extract_transaction_metadata(&batch[..11]),
        None
    );
}

#[test]
fn processed_batches_are_announced() {
    let mut map: BatchTransactionMap = KeyMap::new();
    let mut maker = BatchMaker::new(1);
    let batch = maker.on_transaction(built(3, 5), ()).unwrap();
    let (digest, message) = Processor::process(&mut map, 258, &batch.bytes, true);
    assert_eq!(digest, batch.digest);
    let mut expected = vec![0, 0, 0, 0];
    expected.extend_from_slice(&digest.0);
    expected.extend_from_slice(&[2, 1, 0, 0]);
    assert_eq!(message, expected);
    assert_eq!(map.get(&digest.0), Some(&vec![(3, 5)]));
    let (other, message) = Processor::process(&mut map, 0, &vec![9], false);
    assert_eq!(message[..4], [1, 0, 0, 0]);
    assert!(!map.contains_key(&other.0));
}

fn metadata() -> BatchTransactionMap {
    let mut map = KeyMap::new();
    map.insert([1; 32], vec![(0, 10), (5, 11), (0, 12)]);
    map.insert([2; 32], vec![(0, 20), (9, 21)]);
    map
}

#[test]
fn counters_of_a_client() {
    let map = metadata();
    assert_eq!(
        collect_counters(&map, &vec![digest(2), digest(7), digest(1)], 0),
        vec![20, 10, 12]
    );
    assert!(collect_counters(&map, &vec![digest(2)], 256).is_empty());
}

#[test]
fn early_acknowledgements_go_to_the_client_next_door() {
    let map = metadata();
    let digests = vec![digest(1), digest(2)];
    let mut sender = CertificateAckSender::new(key(1), 0, 4, 0);
    match sender.on_certificate(&map, &digests, true) {
        AckAction::ConnectAndSend(client, bytes) => {
            assert_eq!(client, 0);
            let ack = CertificateAck::decode(&bytes).unwrap();
            assert_eq!(ack.acked_transactions, vec![10, 12, 20]);
        }
        _ => panic!("Unexpected message"),
    }
    assert!(matches!(
        sender.on_certificate(&map, &digests, false),
        AckAction::Nothing
    ));
    assert!(!sender.on_connect(false));
    assert!(!sender.connected);
    assert!(sender.on_connect(true));
    assert!(matches!(
        sender.on_certificate(&map, &digests, false),
        AckAction::Send(_)
    ));
    sender.on_sent(true);
    assert!(sender.connected);
    sender.on_sent(false);
    assert!(!sender.connected);
    let stranger = CertificateAckSender::new(key(1), 0, 4, 300);
    assert!(matches!(
        stranger.on_certificate(&map, &digests, true),
        AckAction::Nothing
    ));
}

#[test]
fn one_reply_per_client() {
    let mut map = metadata();
    let sender = ReplySender::new(0, key(3));
    let digests = vec![digest(1), digest(2), digest(8)];
    let replies = sender.on_slot_committed(&map, 44, &digests);
    let told: Vec<(u8, Vec<u64>)> = replies
        .iter()
        .map(|(client, reply)| (*client, reply.committed_transactions.clone()))
        .collect();
    assert_eq!(
        told,
        vec![(0, vec![10, 12, 20]), (5, vec![11]), (9, vec![21])]
    );
    assert_eq!(replies[0].1.slot, 44);
    assert_eq!(replies[0].1.worker_key, key(3));
    let processed = sender.processed(&map, &digests);
    assert_eq!(processed, vec![digest(1), digest(2)]);
    forget(&mut map, &processed);
    assert!(sender.on_slot_committed(&map, 44, &digests).is_empty());
    assert_eq!(map.len(), 0);
}

#[test]
fn replies_are_delivered_over_kept_connections() {
    let mut sender = ReplySender::new(0, key(3));
    assert_eq!(sender.delivery(5, false), Delivery::Skip);
    assert_eq!(sender.delivery(5, true), Delivery::ConnectAndSend);
    assert!(!sender.on_connect(5, false));
    assert_eq!(sender.delivery(5, true), Delivery::ConnectAndSend);
    assert!(sender.on_connect(5, true));
    assert_eq!(sender.delivery(5, false), Delivery::Send);
    assert_eq!(sender.delivery(6, false), Delivery::Skip);
}

fn parameters(
    types: &[u8],
    starts: &[u64],
    durations: &[u64],
    affected: &[u64],
) -> AsynchronyParameters {
    AsynchronyParameters {
        simulate_asynchrony: true,
        asynchrony_type: types.iter().copied().collect(),
        asynchrony_start: starts.iter().copied().collect(),
        asynchrony_duration: durations.iter().copied().collect(),
        affected_nodes: affected.iter().copied().collect(),
        egress_penalty: 33,
    }
}

fn no_asynchrony() -> AsynchronyParameters {
    AsynchronyParameters {
        simulate_asynchrony: false,
        asynchrony_type: VecDeque::new(),
        asynchrony_start: VecDeque::new(),
        asynchrony_duration: VecDeque::new(),
        affected_nodes: VecDeque::new(),
        egress_penalty: 0,
    }
}

fn committee() -> Vec<PublicKey> {
    vec![key(30), key(10), key(20)]
}

#[test]
fn effects_by_number() {
    let helper_effects: Vec<String> = (0..5)
        .map(|v| format!("{:?}", helper::uint_to_enum(v)))
        .collect();
    assert_eq!(
        helper_effects,
        vec!["Off", "TempBlip", "Failure", "Partition", "Egress"]
    );
    assert_eq!(
        synchronizer::uint_to_enum(4),
        synchronizer::AsyncEffectType::Egress
    );
    assert_eq!(
        synchronizer::uint_to_enum(5),
        synchronizer::AsyncEffectType::Slowdown
    );
}

#[test]
fn unreadable_periods() {
    assert!(parameters(&[4], &[1], &[1], &[1]).is_readable(4));
    assert!(!parameters(&[5], &[1], &[1], &[1]).is_readable(4));
    assert!(!parameters(&[2], &[1], &[1], &[]).is_readable(4));
    assert!(parameters(&[3], &[1], &[1], &[]).is_readable(4));
    assert!(!parameters(&[], &[1], &[1], &[1]).is_readable(4));
    assert!(parameters(&[1, 4], &[1, 2], &[1], &[1, 1]).names_authorities(4));
    assert!(!parameters(&[1, 4], &[1], &[1], &[1, 1]).names_authorities(4));
}

fn found(bytes: &[u8]) -> ReadOutcome {
    ReadOutcome::Found(bytes.to_vec())
}

fn sent(replies: Vec<helper::BatchReply<&'static str>>) -> Vec<(&'static str, Vec<u8>, u64)> {
    replies
        .into_iter()
        .map(|reply| match reply {
            helper::BatchReply::Send(address, bytes) => (address, bytes, 0),
            helper::BatchReply::Delay(address, bytes, penalty) => (address, bytes, penalty),
        })
        .collect()
}

#[test]
fn helper_replies_with_what_the_store_holds() {
    let helper = helper::Helper::new(key(10), 0, &committee(), no_asynchrony());
    assert!(helper.accepts(&Some("x")));
    assert!(!helper.accepts(&None::<&str>));
    let reads = vec![found(&[1]), ReadOutcome::Missing, ReadOutcome::Failed, found(&[2])];
    assert_eq!(
        sent(helper.reply(Some("x"), reads)),
        vec![("x", vec![1], 0), ("x", vec![2], 0)]
    );
    assert!(helper.reply(None::<&str>, vec![found(&[1])]).is_empty());
    assert!(helper.timers().is_empty());
}

#[test]
fn helper_goes_through_the_periods() {
    let config = parameters(&[2, 4], &[1, 10], &[2, 5], &[1, 2]);
    let mut first = helper::Helper::new(key(10), 0, &committee(), config);
    assert!(first.should_simulate_failure);
    assert!(first.should_simulate_egress);
    assert!(first.timers_computable());
    assert_eq!(first.timers(), vec![1_000, 3_000, 10_000, 15_000]);
    assert!(first.knows_next_effect());
    first.on_timer();
    assert!(!first.accepts(&Some("x")));
    assert!(first.reply(Some("x"), vec![found(&[1])]).is_empty());
    first.on_timer();
    assert_eq!(sent(first.reply(Some("x"), vec![found(&[1])])).len(), 1);
    first.on_timer();
    assert_eq!(
        sent(first.reply(Some("x"), vec![found(&[1])])),
        vec![("x", vec![1], 33)]
    );
    first.on_timer();
    assert_eq!(first.current_effect_type, helper::AsyncEffectType::Off);
    // Nothing is left: a period without an effect begins.
    first.on_timer();
    assert!(first.during_simulated_asynchrony);
    assert_eq!(first.current_effect_type, helper::AsyncEffectType::Off);
}

#[test]
fn helper_ranks_authorities_by_key() {
    let config = || parameters(&[2, 4], &[1, 10], &[2, 5], &[1, 2]);
    let second = helper::Helper::new(key(20), 0, &committee(), config());
    assert!(!second.should_simulate_failure);
    assert!(second.should_simulate_egress);
    let third = helper::Helper::new(key(30), 0, &committee(), config());
    assert!(!third.should_simulate_failure);
    assert!(!third.should_simulate_egress);
    assert_eq!(third.keys, vec![[10; 32], [20; 32], [30; 32]]);
}

#[test]
fn helper_timers_that_are_too_late() {
    let late = parameters(&[1], &[u64::MAX], &[0], &[0]);
    assert!(!helper::Helper::new(key(10), 0, &committee(), late).timers_computable());
    let missing = parameters(&[1], &[1], &[], &[0]);
    assert!(!helper::Helper::new(key(10), 0, &committee(), missing).timers_computable());
}

type Sync = synchronizer::Synchronizer<u32>;

fn expected_request(missing: &[u8], name: u8) -> Vec<u8> {
    let mut bytes = vec![1, 0, 0, 0, missing.len() as u8, 0, 0, 0, 0, 0, 0, 0];
    for digest in missing {
        bytes.extend_from_slice(&[*digest; 32]);
    }
    bytes.extend_from_slice(&[name; 32]);
    bytes
}

fn direct(outgoing: synchronizer::Outgoing<&'static str>) -> Option<(&'static str, Vec<u8>, u64)> {
    match outgoing {
        synchronizer::Outgoing::Now(synchronizer::SyncMessage::Direct(address, bytes)) => {
            Some((address, bytes, 0))
        }
        synchronizer::Outgoing::Later(
            synchronizer::SyncMessage::Direct(address, bytes),
            penalty,
        ) => Some((address, bytes, penalty)),
        _ => None,
    }
}

fn broadcast(
    outgoing: synchronizer::Outgoing<&'static str>,
) -> Option<(Vec<&'static str>, Vec<u8>, u64)> {
    match outgoing {
        synchronizer::Outgoing::Now(synchronizer::SyncMessage::Broadcast(addresses, bytes)) => {
            Some((addresses, bytes, 0))
        }
        synchronizer::Outgoing::Later(
            synchronizer::SyncMessage::Broadcast(addresses, bytes),
            penalty,
        ) => Some((addresses, bytes, penalty)),
        _ => None,
    }
}

#[test]
fn missing_batches_are_requested_once() {
    let mut task: Sync = Sync::new(key(10), 0, &committee(), 100, no_asynchrony());
    let lookup = |byte: u8, outcome: ReadOutcome| synchronizer::Lookup {
        key: [byte; 32],
        outcome,
        handler: byte as u32,
    };
    let missing = task.on_lookups(
        vec![
            lookup(5, ReadOutcome::Missing),
            lookup(6, found(&[1])),
            lookup(5, ReadOutcome::Missing),
            lookup(7, ReadOutcome::Failed),
            lookup(4, ReadOutcome::Missing),
        ],
        1_000,
    );
    assert_eq!(missing, vec![digest(5), digest(4)]);
    assert!(!task.wants(&digest(5)));
    assert!(!task.wants(&digest(6)));
    assert!(task.wants(&digest(7)));
    assert_eq!(
        direct(task.request(&missing, Some("x"))),
        Some(("x", expected_request(&[5, 4], 10), 0))
    );
    assert_eq!(direct(task.request(&missing, None)), None);
    // A request goes out even if nothing is missing.
    assert_eq!(
        direct(task.request(&vec![], Some("x"))),
        Some(("x", expected_request(&[], 10), 0))
    );
    // Only what is pending for longer than the delay is asked for again, in order.
    assert_eq!(broadcast(task.on_retry_timer(1_100, vec!["y", "z"])), None);
    assert_eq!(
        broadcast(task.on_retry_timer(1_101, vec!["y", "z"])),
        Some((vec!["y", "z"], expected_request(&[4, 5, 6], 10), 0))
    );
    task.on_arrival(&digest(5));
    task.on_arrival(&digest(6));
    assert!(task.wants(&digest(5)));
    assert_eq!(task.overdue_batches(1_101), vec![[4; 32]]);
}

#[test]
fn single_lookups() {
    let mut task: Sync = Sync::new(key(10), 0, &committee(), 100, no_asynchrony());
    let mut missing = Vec::new();
    task.on_lookup(&digest(5), &ReadOutcome::Missing, 1, 50, &mut missing);
    task.on_lookup(&digest(5), &ReadOutcome::Missing, 2, 60, &mut missing);
    assert_eq!(missing, vec![digest(5)]);
    let pending = task.pending.get(&[5; 32]).unwrap();
    assert_eq!((pending.handler, pending.timestamp, pending.round), (1, 50, 0));
}

#[test]
fn cleanup_drops_what_was_asked_for_long_ago() {
    let mut task: Sync = Sync::new(key(10), 0, &committee(), 100, no_asynchrony());
    let mut missing = Vec::new();
    task.on_lookup(&digest(9), &ReadOutcome::Missing, 90, 0, &mut missing);
    assert!(task.on_cleanup(4, 5).is_empty()); // too early for the depth
    assert_eq!(task.round, 4);
    task.on_lookup(&digest(3), &ReadOutcome::Missing, 30, 0, &mut missing);
    assert!(task.on_cleanup(8, 9).is_empty());
    task.on_lookup(&digest(5), &ReadOutcome::Missing, 50, 0, &mut missing);
    // Rounds 0 and 4 are at least five rounds before 9, round 8 is not.
    assert_eq!(task.on_cleanup(9, 5), vec![30, 90]);
    assert_eq!(task.round, 9);
    assert_eq!(task.pending.keys(), vec![[5; 32]]);
    assert!(task.wants(&digest(9)));
    assert_eq!(task.on_cleanup(20, 0), vec![50]);
}

#[test]
fn planned_periods() {
    let config = || {
        parameters(
            &[1, 2, 5, 4, 2],
            &[1, 2, 3, 4, 5],
            &[10, 20, 30, 40, 50],
            &[0, 3, 2, 1, 2],
        )
    };
    let mut task: Sync = Sync::new(key(20), 0, &committee(), 100, config());
    assert!(task.plan_possible());
    assert!(task.should_simulate_failure);
    assert!(!task.should_simulate_egress);
    assert_eq!(
        task.plan_periods(),
        vec![1_000, 11_000, 2_000, 22_000, 3_000, 5_000, 55_000]
    );
    assert_eq!(task.parameters.asynchrony_type, vec![1, 2, 5, 2]);
    assert_eq!(
        task.parameters.asynchrony_duration,
        vec![10_000, 20_000, 30_000, 50_000]
    );
    let stranger: Sync = Sync::new(key(99), 0, &vec![key(99)], 100, config());
    assert!(stranger.plan_possible());
}

#[test]
fn impossible_plans() {
    let short = parameters(&[1], &[1], &[], &[1]);
    let task: Sync = Sync::new(key(20), 0, &committee(), 100, short);
    assert!(!task.plan_possible());
    let late = parameters(&[1], &[u64::MAX / 1000], &[1], &[1]);
    let task: Sync = Sync::new(key(20), 0, &committee(), 100, late);
    assert!(!task.plan_possible());
    let outsider: Sync = Sync::new(key(99), 0, &committee(), 100, no_asynchrony());
    assert!(!outsider.plan_possible());
}

#[test]
fn periods_without_simulation() {
    let mut task: Sync = Sync::new(key(20), 0, &committee(), 100, no_asynchrony());
    assert!(task.plan_periods().is_empty());
}

#[test]
fn synchronizer_goes_through_the_periods() {
    let config = parameters(&[2, 5, 4], &[1, 10, 20], &[2, 5, 7], &[1, 1, 1]);
    let mut task: Sync = Sync::new(key(10), 0, &committee(), 100, config);
    task.plan_periods();
    assert!(task.knows_next_effect());
    let mut missing = Vec::new();
    task.on_lookup(&digest(5), &ReadOutcome::Missing, 1, 0, &mut missing);
    // Cut off.
    assert_eq!(task.on_async_timer(), 0);
    assert_eq!(direct(task.request(&missing, Some("x"))), None);
    assert_eq!(broadcast(task.on_retry_timer(500, vec!["y"])), None);
    assert_eq!(task.on_async_timer(), 0);
    assert!(direct(task.request(&missing, Some("x"))).is_some());
    // Slowed down: over at once, after a pause.
    assert_eq!(task.on_async_timer(), 5_000);
    assert!(!task.during_simulated_asynchrony);
    // Delayed.
    assert_eq!(task.on_async_timer(), 0);
    assert_eq!(
        direct(task.request(&missing, Some("x"))),
        Some(("x", expected_request(&[5], 10), 33))
    );
    assert_eq!(
        broadcast(task.on_retry_timer(500, vec!["y"])),
        Some((vec!["y"], expected_request(&[5], 10), 33))
    );
    assert_eq!(task.on_async_timer(), 0);
    assert_eq!(
        task.current_effect_type,
        synchronizer::AsyncEffectType::Off
    );
}
