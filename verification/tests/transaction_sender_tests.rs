use sailfish::node::client::ClientParameters;
use sailfish::node::transaction_sender::{
    assign_connections, choose_retry, drop_failed, plan_retry, AfterSend, PlannedTransaction,
    RetryPlan, RetryQueue, SendError, SendState, TransactionSender,
};
use std::time::Duration;

fn sender(client_id: u8, workers: Vec<&'static str>, worker_count: usize) -> TransactionSender<&'static str> {
    let mut parameters = ClientParameters::default();
    parameters.worker_count = worker_count;
    TransactionSender {
        client_id,
        worker_addresses: workers,
        parameters,
    }
}

#[test]
fn test_select_workers() {
    let worker_addresses = vec!["127.0.0.1:2000", "127.0.0.1:2001", "127.0.0.1:2002"];
    let mut parameters = ClientParameters::default();
    parameters.worker_count = 2;

    let sender = TransactionSender {
        client_id: 0,
        worker_addresses: worker_addresses.clone(),
        parameters,
    };

    let selected = sender.select_workers();
    assert_eq!(selected.len(), 2);
    // Client 0 should select workers starting from index 0
    assert_eq!(selected[0], worker_addresses[0]);
    assert_eq!(selected[1], worker_addresses[1]);
}

#[test]
fn test_deterministic_worker_distribution() {
    let worker_addresses = vec![
        "127.0.0.1:2000",
        "127.0.0.1:2001",
        "127.0.0.1:2002",
        "127.0.0.1:2003",
    ];
    let mut parameters = ClientParameters::default();
    parameters.worker_count = 1;

    // Test that different clients get different workers
    for client_id in 0..4 {
        let sender = TransactionSender {
            client_id,
            worker_addresses: worker_addresses.clone(),
            parameters: parameters.clone(),
        };

        let selected = sender.select_workers();
        assert_eq!(selected.len(), 1);
        // Each client should get a different worker
        assert_eq!(selected[0], worker_addresses[client_id as usize]);
    }
}

#[test]
fn test_select_all_workers() {
    let worker_addresses = vec!["127.0.0.1:2000", "127.0.0.1:2001"];
    let mut parameters = ClientParameters::default();
    parameters.worker_count = 5; // More than available

    let sender = TransactionSender {
        client_id: 0,
        worker_addresses: worker_addresses.clone(),
        parameters,
    };

    let selected = sender.select_workers();
    assert_eq!(selected.len(), 2); // Should get all available workers
    assert_eq!(selected, worker_addresses);
}

#[test]
fn selection_goes_round_the_list() {
    let selected = sender(5, vec!["a", "b", "c", "d"], 3).select_workers();
    assert_eq!(selected, vec!["b", "c", "d"]);
    let selected = sender(3, vec!["a", "b", "c", "d"], 2).select_workers();
    assert_eq!(selected, vec!["d", "a"]);
}

#[test]
fn selection_without_workers_and_without_wish() {
    assert!(sender(0, vec![], 3).select_workers().is_empty());
    assert_eq!(sender(1, vec!["a", "b"], 0).select_workers(), vec!["b"]);
}

#[test]
fn too_small_transactions_are_refused() {
    let mut small = sender(0, vec!["a"], 1);
    small.parameters.transaction_size = 9;
    assert_eq!(small.prepare(), Err(SendError::TransactionTooSmall));
    assert_eq!(
        SendError::TransactionTooSmall.message(),
        "Transaction size must be at least 10 bytes"
    );
    small.parameters.transaction_size = 10;
    assert_eq!(small.prepare(), Ok(vec!["a"]));
}

#[test]
fn connections_are_assigned_in_order() {
    assert_eq!(assign_connections(&vec![true, false, true]), Ok((0, vec![2])));
    assert_eq!(assign_connections(&vec![false, true, true]), Ok((1, vec![2])));
    assert_eq!(
        assign_connections(&vec![false, false]),
        Err(SendError::NoWorkers)
    );
    assert_eq!(assign_connections(&vec![]), Err(SendError::NoWorkers));
    assert_eq!(
        SendError::NoWorkers.message(),
        "No workers available for connection"
    );
}

#[test]
fn transaction_bytes() {
    let mut sender = sender(42, vec!["a"], 1);
    sender.parameters.transaction_size = 13;
    let sample = PlannedTransaction {
        id: 0x0102_0304_0506_0708,
        is_sample: true,
    };
    assert_eq!(
        sender.build_transaction(sample, &vec![9, 9, 9]),
        vec![0, 42, 1, 2, 3, 4, 5, 6, 7, 8, 9, 9, 9]
    );
    let standard = PlannedTransaction {
        id: 1,
        is_sample: false,
    };
    let bytes = sender.fresh_transaction(standard);
    assert_eq!(bytes.len(), 13);
    assert_eq!(&bytes[..10], &[1, 42, 0, 0, 0, 0, 0, 0, 0, 1]);
}

#[test]
fn transaction_without_padding() {
    let mut sender = sender(1, vec!["a"], 1);
    sender.parameters.transaction_size = 10;
    let planned = PlannedTransaction {
        id: 256,
        is_sample: true,
    };
    assert_eq!(
        sender.fresh_transaction(planned),
        vec![0, 1, 0, 0, 0, 0, 0, 0, 1, 0]
    );
}

#[test]
fn padding_differs_from_one_transaction_to_the_next() {
    let sender = sender(1, vec!["a"], 1);
    let planned = PlannedTransaction {
        id: 256,
        is_sample: true,
    };
    assert_ne!(
        sender.fresh_transaction(planned),
        sender.fresh_transaction(planned)
    );
}

#[test]
fn burst_holds_a_hundred_samples_with_unique_numbers() {
    let mut sender = sender(0, vec!["a"], 1);
    sender.parameters.transaction_rate = 4_000; // 200 per burst, every second one a sample
    let mut state = SendState {
        counter: 0,
        position: 0,
        last_id: 1_000_000,
    };
    let mut samples = Vec::new();
    let mut standards = Vec::new();
    for _ in 0..2 {
        while let Some(planned) = sender.next_transaction(&mut state) {
            if planned.is_sample {
                samples.push(planned.id);
            } else {
                standards.push(planned.id);
            }
        }
    }
    assert_eq!(samples.len(), 200);
    assert_eq!(samples[0], 0);
    assert_eq!(samples[1], 2);
    assert_eq!(samples[100], 200);
    let mut distinct = samples.clone();
    distinct.dedup();
    assert_eq!(distinct.len(), 200);
    assert_eq!(standards[0], 1_000_001);
    assert_eq!(standards[199], 1_000_200);
    assert_eq!(
        state,
        SendState {
            counter: 2,
            position: 0,
            last_id: 1_000_200
        }
    );
}

#[test]
fn start_has_sent_nothing() {
    let state = TransactionSender::<&'static str>::start();
    assert_eq!((state.counter, state.position), (0, 0));
}

#[test]
fn standard_numbers_follow_the_first() {
    let mut sender = sender(0, vec!["a"], 1);
    sender.parameters.transaction_rate = 4_000;
    let mut state = TransactionSender::<&'static str>::start_from(77);
    assert_eq!(
        state,
        SendState {
            counter: 0,
            position: 0,
            last_id: 77
        }
    );
    let sample = sender.next_transaction(&mut state).unwrap();
    assert_eq!((sample.id, sample.is_sample), (0, true));
    let standard = sender.next_transaction(&mut state).unwrap();
    assert_eq!((standard.id, standard.is_sample), (78, false));
}

/// The transactions of one burst.
fn burst_of(sender: &TransactionSender<&'static str>, state: &mut SendState) -> Vec<PlannedTransaction> {
    let mut planned = Vec::new();
    loop {
        assert!(sender.step_possible(state));
        match sender.next_transaction(state) {
            Some(transaction) => planned.push(transaction),
            None => return planned,
        }
    }
}

#[test]
fn default_parameters_send_fifty_transactions_per_burst() {
    let sender = TransactionSender {
        client_id: 0,
        worker_addresses: vec!["a"],
        parameters: ClientParameters::default(),
    };
    let mut state = TransactionSender::<&'static str>::start_from(5);
    assert_eq!(sender.burst(), 50);
    assert_eq!(sender.interval(), 1);
    for counter in 0..3 {
        let planned = burst_of(&sender, &mut state);
        let ids: Vec<u64> = planned.iter().map(|transaction| transaction.id).collect();
        assert_eq!(ids, (counter * 50..counter * 50 + 50).collect::<Vec<u64>>());
        assert!(planned.iter().all(|transaction| transaction.is_sample));
    }
    assert_eq!(state.last_id, 5);
}

#[test]
fn rates_on_either_side_of_the_sample_interval() {
    let mut sender = sender(0, vec!["a"], 1);
    let samples = |sender: &TransactionSender<&'static str>| {
        let mut state = TransactionSender::<&'static str>::start_from(0);
        let planned = burst_of(sender, &mut state);
        let samples = planned.iter().filter(|transaction| transaction.is_sample).count();
        (planned.len(), samples)
    };
    for (rate, expected) in [
        (19, (0, 0)),
        (20, (1, 1)),
        (1_999, (99, 99)),
        (2_000, (100, 100)),
        (3_000, (150, 150)),
        (4_000, (200, 100)),
        (5_000, (250, 125)),
    ] {
        sender.parameters.transaction_rate = rate;
        assert_eq!(samples(&sender), expected, "rate {}", rate);
    }
}

#[test]
fn steps_end_with_the_numbers() {
    let mut sender = sender(0, vec!["a"], 1);
    sender.parameters.transaction_rate = 4_000; // 200 per burst, every second one a sample
    let state = |counter, position, last_id| SendState {
        counter,
        position,
        last_id,
    };
    assert!(sender.step_possible(&state(0, 0, 0)));
    // A sample needs room for its number alone.
    assert!(!sender.step_possible(&state(u64::MAX, 0, 0)));
    assert!(sender.step_possible(&state(0, 0, u64::MAX)));
    // A standard transaction needs room for the next number alone.
    assert!(!sender.step_possible(&state(0, 1, u64::MAX)));
    assert!(sender.step_possible(&state(u64::MAX, 1, 0)));
    // The end of a burst needs room for the next burst alone.
    assert!(!sender.step_possible(&state(u64::MAX, 200, 0)));
    assert!(sender.step_possible(&state(0, 200, u64::MAX)));
}

#[test]
fn what_follows_a_send() {
    let mut sender = sender(0, vec!["a"], 1);
    assert_eq!(sender.after_send(true), AfterSend::ScheduleTimeout);
    assert_eq!(sender.after_send(false), AfterSend::Stop);
    sender.parameters.transaction_timeout = 0;
    assert_eq!(sender.after_send(true), AfterSend::Continue);
    assert!(!sender.timeouts_enabled());
}

#[test]
fn duration_and_rate_limits() {
    let mut sender = sender(0, vec!["a"], 1);
    assert!(!sender.duration_over(Duration::from_secs(19)));
    assert!(sender.duration_over(Duration::from_secs(20)));
    sender.parameters.duration = Duration::from_secs(0);
    assert!(!sender.duration_over(Duration::from_secs(1_000_000)));
    assert!(!sender.rate_too_high(50));
    assert!(sender.rate_too_high(51));
    assert_eq!(sender.max_retry_workers(), 0);
    sender.parameters.worker_count = 0;
    assert_eq!(sender.max_retry_workers(), 0);
    sender.parameters.worker_count = 4;
    assert_eq!(sender.max_retry_workers(), 3);
}

#[test]
fn acknowledged_transactions_are_not_sent_again() {
    let mut queue: RetryQueue<&str> = RetryQueue::new();
    assert!(queue.schedule(7));
    queue.insert(7, vec![1, 2], "timer 7");
    assert!(queue.schedule(8));
    queue.insert(8, vec![3], "timer 8");
    assert!(!queue.schedule(8)); // waits already
    assert_eq!(queue.cancel(&vec![7, 9]), vec!["timer 7"]);
    assert_eq!(queue.expire(7), None);
    assert!(!queue.schedule(9)); // acknowledged before it was scheduled
    assert!(queue.schedule(9)); // which counts once
    assert_eq!(queue.expire(8), Some(vec![3]));
    assert_eq!(queue.expire(8), None);
}

#[test]
fn an_unacknowledged_transaction_is_sent_again_once_with_its_first_bytes() {
    let mut queue: RetryQueue<u32> = RetryQueue::new();
    assert!(queue.schedule(4));
    queue.insert(4, vec![1, 1], 40);
    assert!(queue.schedule(5));
    queue.insert(5, vec![2], 50);
    assert!(!queue.schedule(4)); // the first bytes stand
    assert_eq!(queue.cancel(&vec![5]), vec![50]);
    queue.close();
    assert_eq!(queue.expire(4), Some(vec![1, 1]));
    assert_eq!(queue.expire(4), None);
    assert!(queue.pending.is_empty());
    assert!(queue.finished(0));
}

#[test]
fn an_acknowledgement_that_comes_twice() {
    let mut queue: RetryQueue<u32> = RetryQueue::new();
    assert!(queue.schedule(1));
    queue.insert(1, vec![], 10);
    assert_eq!(queue.cancel(&vec![1, 1]), vec![10]);
    assert!(queue.cancelled_before_insert.contains(&1));
    assert!(queue.pending.is_empty());
}

#[test]
fn queue_ends_when_nothing_comes_and_no_timer_runs() {
    let mut queue: RetryQueue<u32> = RetryQueue::new();
    assert!(!queue.finished(0));
    queue.close();
    assert!(!queue.finished(1));
    assert!(queue.finished(0));
}

#[test]
fn retry_plans() {
    assert_eq!(plan_retry(0, 3, 0), RetryPlan::Nowhere);
    assert_eq!(plan_retry(3, 0, 1), RetryPlan::Nowhere);
    assert_eq!(plan_retry(3, 1, 2), RetryPlan::Single(2));
    assert_eq!(plan_retry(1, 1, 0), RetryPlan::First(1));
    assert_eq!(plan_retry(1, 5, 0), RetryPlan::First(1));
    assert_eq!(plan_retry(5, 3, 4), RetryPlan::First(3));
}

#[test]
fn spans_of_retry_plans() {
    assert_eq!(RetryPlan::Nowhere.span(), (0, 0));
    assert_eq!(RetryPlan::Single(4).span(), (4, 1));
    assert_eq!(RetryPlan::First(3).span(), (0, 3));
}

#[test]
fn a_finished_queue_has_sent_everything_again() {
    let mut queue: RetryQueue<u64> = RetryQueue::new();
    let mut timers = Vec::new();
    for id in 0..5u64 {
        assert!(queue.schedule(id));
        queue.insert(id, vec![id as u8], 10 + id);
        timers.push(10 + id);
    }
    for key in queue.cancel(&vec![1, 3]) {
        timers.retain(|timer| *timer != key);
    }
    assert_eq!(timers.len(), queue.pending.len());
    queue.close();
    let mut retried = Vec::new();
    while !queue.finished(timers.len()) {
        let id = timers.remove(0) - 10;
        retried.push(queue.expire(id).unwrap());
        assert!(queue.cancel(&vec![id]).is_empty()); // too late
    }
    assert_eq!(retried, vec![vec![0], vec![2], vec![4]]);
    assert!(queue.pending.is_empty());
}

#[test]
fn random_retry_uses_an_existing_connection() {
    let mut used = [false; 3];
    for _ in 0..300 {
        match choose_retry(3, 1) {
            RetryPlan::Single(index) => used[index] = true,
            other => panic!("{:?}", other),
        }
    }
    assert_eq!(used, [true, true, true]);
    assert_eq!(choose_retry(3, 2), RetryPlan::First(2));
    assert_eq!(choose_retry(0, 1), RetryPlan::Nowhere);
}

#[test]
fn failed_connections_are_dropped() {
    let mut transports = vec!["a", "b", "c", "d"];
    drop_failed(
        &mut transports,
        RetryPlan::First(3),
        &vec![false, true, false],
    );
    assert_eq!(transports, vec!["b", "d"]);
    drop_failed(&mut transports, RetryPlan::Single(1), &vec![false]);
    assert_eq!(transports, vec!["b"]);
    drop_failed(&mut transports, RetryPlan::Single(0), &vec![true]);
    drop_failed(&mut transports, RetryPlan::Nowhere, &vec![]);
    assert_eq!(transports, vec!["b"]);
}
