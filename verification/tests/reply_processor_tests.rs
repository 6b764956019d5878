use sailfish::keys::PublicKey;
use sailfish::node::client::SlotTransactionReply;
use sailfish::node::reply_processor::{ReplyProcessor, TransactionState};
use std::collections::HashMap;

fn new_processor(threshold: usize) -> ReplyProcessor {
    ReplyProcessor::new(0, threshold)
}

fn reply_from(worker: u8, slot: u64, transactions: Vec<u64>) -> SlotTransactionReply {
    SlotTransactionReply {
        slot,
        worker_key: PublicKey([worker; 32]),
        committed_transactions: transactions,
    }
}

#[test]
fn test_reply_processor_threshold() {
    let mut processor = new_processor(2);

    let reply1 = SlotTransactionReply {
        slot: 1,
        worker_key: PublicKey::default(),
        committed_transactions: vec![100],
    };
    processor.process_reply(&reply1, 0);

    let slot_states = processor.slot_transaction_states.get(&1).unwrap();
    let state = slot_states.get(&100).unwrap();
    assert_eq!(state.confirmations, 1);
    assert!(!state.is_committed);

    let reply2 = SlotTransactionReply {
        slot: 1,
        worker_key: PublicKey::default(),
        committed_transactions: vec![100],
    };
    processor.process_reply(&reply2, 0);

    assert!(processor.committed_slots.contains(&1));
    assert!(!processor.slot_transaction_states.contains_key(&1));

    let reply3 = SlotTransactionReply {
        slot: 2,
        worker_key: PublicKey::default(),
        committed_transactions: vec![100],
    };
    processor.process_reply(&reply3, 0);

    assert!(!processor.committed_slots.contains(&1));
    assert!(!processor.committed_slots.contains(&2));
}

#[test]
fn test_reply_processor_slot_tracking() {
    let mut processor = new_processor(3);

    let reply1 = SlotTransactionReply {
        slot: 5,
        worker_key: PublicKey::default(),
        committed_transactions: vec![200],
    };
    processor.process_reply(&reply1, 0);

    assert!(processor
        .slot_transaction_states
        .get(&5)
        .and_then(|m| m.get(&200))
        .is_some());

    let reply2 = SlotTransactionReply {
        slot: 6,
        worker_key: PublicKey::default(),
        committed_transactions: vec![200],
    };
    processor.process_reply(&reply2, 0);

    assert!(processor
        .slot_transaction_states
        .get(&6)
        .and_then(|m| m.get(&200))
        .is_some());
    assert!(processor
        .slot_transaction_states
        .get(&5)
        .and_then(|m| m.get(&200))
        .is_some());

    let reply3 = SlotTransactionReply {
        slot: 4,
        worker_key: PublicKey::default(),
        committed_transactions: vec![200],
    };
    processor.process_reply(&reply3, 0);

    assert!(processor
        .slot_transaction_states
        .get(&4)
        .and_then(|m| m.get(&200))
        .is_some());
}

#[test]
fn test_reply_processor_commit_after_threshold_same_slot() {
    let mut processor = new_processor(3);

    for _ in 0..3 {
        let reply = SlotTransactionReply {
            slot: 4,
            worker_key: PublicKey::default(),
            committed_transactions: vec![300],
        };
        processor.process_reply(&reply, 0);
    }

    assert!(processor.committed_slots.contains(&4));
    assert!(!processor.slot_transaction_states.contains_key(&4));
}

#[test]
fn test_transaction_stats() {
    let mut processor = new_processor(2);

    let mut slot1 = HashMap::new();
    let mut state1 = TransactionState::default();
    state1.confirmations = 2;
    state1.is_committed = true;
    slot1.insert(100, state1);
    processor.slot_transaction_states.insert(1, slot1);

    let mut slot2 = HashMap::new();
    let mut state2 = TransactionState::default();
    state2.confirmations = 1;
    slot2.insert(101, state2);
    processor.slot_transaction_states.insert(2, slot2);

    let stats = processor.get_stats();
    assert_eq!(stats.total_transactions, 2);
    assert_eq!(stats.committed_transactions, 1);
    assert_eq!(stats.pending_transactions, 1);
    assert_eq!(stats.transactions_with_confirmations, 2);
}

#[test]
fn test_watermark_garbage_collection() {
    let mut processor = new_processor(1);

    let reply1 = SlotTransactionReply {
        slot: 10,
        worker_key: PublicKey::default(),
        committed_transactions: vec![400],
    };
    processor.process_reply(&reply1, 0);
    assert!(processor.committed_slots.contains(&10));
    assert!(!processor.slot_transaction_states.contains_key(&10));

    let reply2 = SlotTransactionReply {
        slot: 12,
        worker_key: PublicKey::default(),
        committed_transactions: vec![401],
    };
    processor.process_reply(&reply2, 0);

    assert!(!processor.committed_slots.contains(&10));
    assert!(processor.committed_slots.contains(&12));
    assert!(!processor.slot_transaction_states.contains_key(&12));
}

#[test]
fn transactions_are_committed_when_the_threshold_is_reached() {
    let mut processor = new_processor(2);
    assert_eq!(
        processor.process_reply(&reply_from(1, 3, vec![10, 11]), 5),
        Vec::<u64>::new()
    );
    assert_eq!(processor.slot_confirmations.get(&3), Some(&1));
    assert_eq!(
        processor.process_reply(&reply_from(2, 3, vec![11, 12]), 6),
        vec![11]
    );
    // The slot is committed, and later replies commit nothing.
    assert_eq!(
        processor.process_reply(&reply_from(3, 3, vec![10, 12]), 7),
        Vec::<u64>::new()
    );
    assert!(processor.slot_confirmations.is_empty());
}

#[test]
fn a_transaction_named_twice_in_one_reply() {
    let mut processor = new_processor(2);
    assert_eq!(
        processor.process_reply(&reply_from(1, 3, vec![10, 10, 10]), 5),
        vec![10, 10]
    );
    assert!(!processor.slot_transaction_states.contains_key(&3));
    assert!(!processor.committed_slots.contains(&3));
}

#[test]
fn the_watermark_is_the_lowest_latest_slot() {
    let mut processor = new_processor(1);
    assert_eq!(processor.current_watermark(), None);
    processor.process_reply(&reply_from(1, 10, vec![]), 0);
    processor.process_reply(&reply_from(2, 4, vec![]), 0);
    processor.process_reply(&reply_from(1, 8, vec![]), 0);
    assert_eq!(processor.current_watermark(), Some(4));
    assert!(processor.committed_slots.contains(&4));
    processor.update_worker_slot(&PublicKey([2; 32]), 9);
    assert_eq!(processor.current_watermark(), Some(9));
    processor.garbage_collect_committed_slots();
    assert!(!processor.committed_slots.contains(&4));
    assert!(!processor.committed_slots.contains(&8));
    assert!(processor.committed_slots.contains(&10));
}

#[test]
fn first_confirmation_time_is_kept() {
    let mut processor = new_processor(3);
    processor.process_reply(&reply_from(1, 3, vec![10]), 50);
    processor.process_reply(&reply_from(2, 3, vec![10]), 60);
    let state = processor.slot_transaction_states[&3][&10];
    assert_eq!(state.confirmations, 2);
    assert_eq!(state.first_confirmation_time, Some(50));
    assert_eq!(state.commit_time, None);
}

fn committed_at(time: u128) -> TransactionState {
    let mut state = TransactionState::default();
    state.is_committed = true;
    state.commit_time = Some(time);
    state
}

#[test]
fn old_committed_transactions_are_forgotten() {
    let now: u128 = 1_000_000_000_000;
    let cutoff: u128 = now - 300_000_000_000;
    let mut processor = new_processor(2);
    let mut old_slot = HashMap::new();
    for id in 0..998u64 {
        old_slot.insert(id, committed_at(cutoff));
    }
    processor.slot_transaction_states.insert(1, old_slot);
    let mut mixed = HashMap::new();
    mixed.insert(1, committed_at(cutoff + 1));
    processor.slot_transaction_states.insert(2, mixed);
    // 999 transactions: nothing happens.
    processor.cleanup_old_transactions(now);
    assert_eq!(processor.get_stats().total_transactions, 999);
    processor
        .slot_transaction_states
        .get_mut(&2)
        .unwrap()
        .insert(2, TransactionState::default());
    processor.cleanup_old_transactions(now);
    assert!(!processor.slot_transaction_states.contains_key(&1));
    assert_eq!(processor.slot_transaction_states[&2].len(), 2);
}

#[test]
fn a_slot_commits_what_all_of_its_replies_name() {
    let mut processor = new_processor(3);
    let nothing = Vec::<u64>::new();
    assert_eq!(processor.process_reply(&reply_from(1, 7, vec![1, 2, 3]), 0), nothing);
    assert_eq!(processor.process_reply(&reply_from(1, 8, vec![1, 2]), 0), nothing);
    assert_eq!(processor.process_reply(&reply_from(2, 7, vec![3, 2]), 0), nothing);
    assert!(!processor.committed_slots.contains(&7));
    assert_eq!(processor.slot_confirmations[&7], 2);
    let committed = processor.process_reply(&reply_from(3, 7, vec![4, 2, 3]), 0);
    assert_eq!(committed, vec![2, 3]);
    assert!(processor.committed_slots.contains(&7));
    assert!(!processor.slot_confirmations.contains_key(&7));
    // The other slot goes on as before.
    assert_eq!(processor.slot_confirmations[&8], 1);
    assert_eq!(processor.slot_transaction_states[&8].len(), 2);
    assert!(processor.slot_transaction_states[&8]
        .values()
        .all(|state| !state.is_committed));
}

#[test]
fn a_slot_below_the_watermark_is_not_kept_as_committed() {
    let mut processor = new_processor(1);
    processor.process_reply(&reply_from(1, 10, vec![]), 0);
    assert_eq!(processor.process_reply(&reply_from(1, 4, vec![9]), 0), vec![9]);
    assert!(!processor.committed_slots.contains(&4));
}

#[test]
fn a_reply_without_transactions_leaves_no_states() {
    let mut processor = new_processor(2);
    processor.process_reply(&reply_from(1, 4, vec![]), 0);
    assert_eq!(processor.slot_confirmations[&4], 1);
    assert!(processor.slot_transaction_states.is_empty());
}

#[test]
fn replies_that_can_be_counted() {
    let processor = new_processor(usize::MAX);
    assert!(processor.can_process(&reply_from(1, 1, vec![])));
    assert!(processor.can_process(&reply_from(1, 1, vec![5, 6, 7])));
    assert!(!processor.can_process(&reply_from(1, 1, vec![5, 6, 5])));
    assert!(new_processor(2).can_process(&reply_from(1, 1, vec![5, 6, 5])));
    let mut processor = processor;
    assert!(processor.process_reply(&reply_from(1, 1, vec![5, 6]), 0).is_empty());
    assert_eq!(processor.slot_transaction_states[&1][&5].confirmations, 1);
}
