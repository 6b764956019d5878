use sailfish::keys::{Digest, PublicKey};
use sailfish::primary::committer::{
    Certificate, Committer, Execution, Proposal, Proposals, State,
};
use sailfish::primary::proposer::{MessageKind, Proposer};

fn key(byte: u8) -> PublicKey {
    PublicKey([byte; 32])
}

fn digest(byte: u8) -> Digest {
    Digest([byte; 32])
}

fn certificate(author: u8, height: u64) -> Certificate {
    Certificate {
        origin: key(author),
        height,
        digest: digest(author),
    }
}

fn genesis() -> Vec<Certificate> {
    vec![certificate(1, 0), certificate(2, 0), certificate(3, 0)]
}

fn proposals(heights: &[(u8, u64)]) -> Proposals {
    heights
        .iter()
        .map(|(author, height)| {
            (
                key(*author),
                Proposal {
                    header_digest: digest(*author),
                    height: *height,
                },
            )
        })
        .collect()
}

fn short(plan: &[Execution]) -> Vec<(u64, u8, u64, u64)> {
    plan.iter()
        .map(|e| (e.slot, e.author.0[0], e.stop_height, e.proposal.height))
        .collect()
}

fn committer() -> Committer {
    Committer {
        name: key(1),
        gc_depth: 50,
    }
}

fn commit(state: &mut State, slot: u64, heights: &[(u8, u64)]) -> Vec<(u64, u8, u64, u64)> {
    assert!(state.can_commit(MessageKind::Commit, slot, &proposals(heights)));
    short(&committer().process_commit_message(
        state,
        MessageKind::Commit,
        slot,
        proposals(heights),
    ))
}

#[test]
fn genesis_state() {
    let state = State::new(&genesis());
    assert_eq!(state.last_committed_round, 0);
    assert_eq!(state.last_executed_slot, 0);
    assert_eq!(state.last_executed_heights.len(), 3);
    assert_eq!(state.last_executed_heights.get(&[2; 32]), Some(&0));
    assert_eq!(state.dag[&0].len(), 3);
    assert!(state.log.is_empty());
}

#[test]
fn slots_are_executed_in_order() {
    let mut state = State::new(&genesis());
    assert_eq!(commit(&mut state, 2, &[(1, 4), (2, 1)]), vec![]);
    assert_eq!(
        commit(&mut state, 1, &[(1, 3), (3, 2)]),
        vec![(1, 1, 0, 3), (1, 3, 0, 2), (2, 1, 3, 4), (2, 2, 0, 1)]
    );
    assert_eq!(state.last_executed_slot, 2);
    // A slot that has been executed is ignored.
    assert_eq!(commit(&mut state, 2, &[(1, 9)]), vec![]);
    // A proposal that is not above what has been executed is skipped.
    assert_eq!(
        commit(&mut state, 3, &[(1, 4), (2, 5)]),
        vec![(3, 2, 1, 5)]
    );
}

#[test]
fn the_order_of_commits_does_not_matter() {
    let mut one = State::new(&genesis());
    let mut other = State::new(&genesis());
    let mut first = commit(&mut one, 1, &[(1, 2)]);
    first.extend(commit(&mut one, 2, &[(1, 5), (2, 2)]));
    let mut second = commit(&mut other, 2, &[(1, 5), (2, 2)]);
    second.extend(commit(&mut other, 1, &[(1, 2)]));
    assert_eq!(first, second);
    assert_eq!(one.last_executed_slot, other.last_executed_slot);
    assert_eq!(one.last_executed_heights.get(&[1; 32]), Some(&5));
    assert_eq!(other.last_executed_heights.get(&[1; 32]), Some(&5));
}

#[test]
fn other_messages_commit_nothing() {
    let mut state = State::new(&genesis());
    let plan = committer().process_commit_message(&mut state, MessageKind::Prepare, 1, proposals(&[(1, 2)]));
    assert!(plan.is_empty());
    let plan = committer().process_commit_message(&mut state, MessageKind::Confirm, 1, proposals(&[(1, 2)]));
    assert!(plan.is_empty());
    assert!(state.log.is_empty());
}

#[test]
fn unknown_lanes_cannot_be_executed() {
    let mut state = State::new(&genesis());
    assert!(!state.can_commit(MessageKind::Commit, 1, &proposals(&[(9, 1)])));
    assert!(state.can_commit(MessageKind::Commit, 2, &proposals(&[(9, 1)])));
    committer().process_commit_message(&mut state, MessageKind::Commit, 2, proposals(&[(9, 1)]));
    assert!(!state.can_commit(MessageKind::Commit, 1, &proposals(&[(1, 1)])));
    assert!(!state.can_commit(MessageKind::Commit, u64::MAX, &proposals(&[])));
}

#[test]
fn update_clears_the_dag() {
    let mut state = State::new(&genesis());
    state.update(&certificate(1, 1), 10);
    // Of author 1 everything below height 1 is gone, the others are kept.
    assert_eq!(state.last_committed_round, 1);
    assert_eq!(state.dag[&0].len(), 2);
    assert!(!state.dag[&0].contains_key(&[1; 32]));
    // An older certificate does not lower the height.
    state.update(&certificate(1, 0), 10);
    assert_eq!(state.last_executed_heights.get(&[1; 32]), Some(&1));
    // A round that is too far below the last committed one is gone.
    state.update(&certificate(4, 11), 10);
    assert_eq!(state.last_committed_round, 11);
    assert!(state.dag.is_empty());
}

#[test]
fn update_drops_rounds_without_certificates() {
    let mut state = State::new(&vec![certificate(1, 0)]);
    state.update(&certificate(1, 1), 10);
    assert!(state.dag.is_empty());
}

#[test]
fn slot_committed_bytes() {
    assert_eq!(committer().slot_committed_message(1, &vec![], true), None);
    assert_eq!(committer().slot_committed_message(1, &vec![[5; 32]], false), None);
    let bytes = committer().slot_committed_message(258, &vec![[5; 32]], true).unwrap();
    let mut expected = vec![2, 0, 0, 0, 2, 1, 0, 0, 0, 0, 0, 0, 1, 0, 0, 0, 0, 0, 0, 0];
    expected.extend_from_slice(&[5; 32]);
    assert_eq!(bytes, expected);
}

#[test]
fn a_header_takes_everything_that_waits() {
    let mut proposer: Proposer<&str, &str> = Proposer::new(key(1), 64, "genesis");
    assert!(!proposer.ready(false));
    assert!(proposer.ready(true));
    proposer.on_digest(digest(8), 0);
    assert!(!proposer.ready(false));
    proposer.on_digest(digest(7), 1);
    assert!(proposer.ready(false));
    proposer.on_digest(digest(8), 2);
    proposer.on_instance(MessageKind::Prepare, &digest(20), "prepare");
    proposer.on_instance(MessageKind::Confirm, &digest(21), "confirm");
    proposer.on_instance(MessageKind::Commit, &digest(22), "commit");
    let header = proposer.make_header();
    assert_eq!(header.author, key(1));
    assert_eq!(header.height, 0);
    assert_eq!(header.parent, "genesis");
    assert_eq!(header.payload.keys(), vec![[7; 32], [8; 32]]);
    assert_eq!(header.payload.get(&[8; 32]), Some(&2));
    assert_eq!(header.consensus_instances.len(), 3);
    assert_eq!(header.consensus_instances.get(&[22; 32]), Some(&"commit"));
    assert_eq!(header.num_active_instances, 2);
    assert!(!header.special);
    // Without another parent there is no further header.
    proposer.on_digest(digest(1), 0);
    proposer.on_digest(digest(2), 0);
    assert!(!proposer.ready(true));
    assert_eq!(proposer.num_active_instances, 0);
    assert_eq!(proposer.consensus_instances.len(), 0);
}

#[test]
fn a_certificate_is_announced_and_becomes_the_parent() {
    let mut proposer: Proposer<&str, &str> = Proposer::new(key(1), 64, "genesis");
    proposer.on_digest(digest(8), 0);
    proposer.make_header();
    let message = proposer.on_certificate(0, "certificate 0", true).unwrap();
    let mut expected = vec![3, 0, 0, 0, 1, 0, 0, 0, 0, 0, 0, 0];
    expected.extend_from_slice(&[8; 32]);
    assert_eq!(message, expected);
    assert_eq!(proposer.height, 1);
    assert_eq!(proposer.last_parent, Some("certificate 0"));
    // One from a previous height is ignored.
    assert_eq!(proposer.on_certificate(0, "old", true), None);
    assert_eq!(proposer.last_parent, Some("certificate 0"));
    assert_eq!(proposer.height, 1);
    // Nothing is announced without a worker or without batches.
    assert_eq!(proposer.on_certificate(1, "certificate 1", false), None);
    assert_eq!(proposer.height, 2);
    proposer.make_header();
    assert_eq!(proposer.on_certificate(2, "certificate 2", true), None);
    assert_eq!(proposer.last_parent, Some("certificate 2"));
}

#[test]
fn the_special_rule_makes_special_headers() {
    let mut proposer: Proposer<u8, u8> = Proposer::new(key(1), 64, 0);
    proposer.use_special_rule = true;
    proposer.on_instance(MessageKind::Commit, &digest(1), 1);
    assert!(!proposer.is_special);
    proposer.on_instance(MessageKind::Prepare, &digest(2), 2);
    assert!(proposer.is_special);
    assert!(proposer.make_header().special);
    assert!(proposer.ready(true));
}

#[test]
fn a_run_of_headers() {
    let mut proposer: Proposer<&str, &str> = Proposer::new(key(1), 32, "genesis");
    let mut headers = Vec::new();
    let events: Vec<(Option<u8>, Option<(u64, &str)>)> = vec![
        (Some(1), None),
        (Some(2), None), // waits for a parent
        (None, Some((0, "first"))),
        (None, Some((0, "late"))), // from a previous height
        (Some(3), None),
        (None, Some((1, "second"))),
        (Some(4), None),
    ];
    for (batch, certificate) in events {
        if let Some(byte) = batch {
            proposer.on_digest(digest(byte), byte as u32);
        }
        if let Some((height, certificate)) = certificate {
            proposer.on_certificate(height, certificate, true);
        }
        if proposer.ready(false) {
            let header = proposer.make_header();
            headers.push((header.height, header.parent, header.payload.keys()));
        }
    }
    assert_eq!(
        headers,
        vec![
            (0, "genesis", vec![[1; 32]]),
            (1, "first", vec![[2; 32]]),
            (2, "second", vec![[3; 32]]),
        ]
    );
    assert_eq!(proposer.digests, vec![(digest(4), 4)]);
}

#[test]
fn commits_in_any_order_reach_the_same_end() {
    let slots: Vec<(u64, Vec<(u8, u64)>)> = vec![
        (1, vec![(1, 2), (2, 1)]),
        (2, vec![(1, 2), (3, 4)]),
        (3, vec![(2, 5)]),
        (4, vec![(3, 3), (1, 7)]),
    ];
    let orders = [
        [0, 1, 2, 3],
        [3, 2, 1, 0],
        [1, 3, 0, 2],
        [2, 0, 3, 1],
    ];
    let expected = vec![
        (1, 1, 0, 2),
        (1, 2, 0, 1),
        (2, 3, 0, 4),
        (3, 2, 1, 5),
        (4, 1, 2, 7),
    ];
    for order in orders {
        let mut state = State::new(&genesis());
        let mut executed = Vec::new();
        for index in order {
            let (slot, heights) = &slots[index];
            executed.extend(commit(&mut state, *slot, heights));
            // A commit that comes again changes nothing.
            executed.extend(commit(&mut state, *slot, heights));
        }
        assert_eq!(executed, expected);
        assert_eq!(state.last_executed_slot, 4);
        assert_eq!(state.last_executed_heights.get(&[3; 32]), Some(&4));
    }
}

#[test]
fn a_gap_stops_the_execution() {
    let mut state = State::new(&genesis());
    assert_eq!(commit(&mut state, 1, &[(1, 1)]).len(), 1);
    assert!(commit(&mut state, 3, &[(1, 3)]).is_empty());
    assert!(commit(&mut state, 4, &[(1, 4)]).is_empty());
    assert_eq!(state.last_executed_slot, 1);
    assert_eq!(commit(&mut state, 2, &[(1, 2)]).len(), 3);
    assert_eq!(state.last_executed_slot, 4);
}
