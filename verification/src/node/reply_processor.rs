//! Counts the replies of workers and decides when a transaction is committed.
use crate::keys::{entry_index, ClientId, KeyMap, PublicKey};
use crate::maps::{key_list, lemma_positions_below, member_list, positions_below};
use crate::node::client::SlotTransactionReply;
use std::collections::{BTreeSet, HashMap};
use vstd::prelude::*;

verus! {

/// Old transactions are looked for whenever a multiple of this many is tracked.
pub const CLEANUP_INTERVAL_TRANSACTIONS: usize = 1000;

/// How old, in nanoseconds, a committed transaction may become before it is forgotten.
pub const MAX_AGE_NANOS: u128 = 300_000_000_000;

/// Transaction state tracking for threshold-based confirmation. Times are in nanoseconds.
#[derive(Debug, Clone, Copy)]
pub struct TransactionState {
    /// Number of confirmations received for this transaction.
    pub confirmations: usize,
    /// Time when the first confirmation was received.
    pub first_confirmation_time: Option<u128>,
    /// Time when the transaction was marked as committed (threshold reached).
    pub commit_time: Option<u128>,
    /// Whether this transaction has been marked as committed.
    pub is_committed: bool,
}

impl Default for TransactionState {
    fn default() -> (state: Self)
        ensures
            state == fresh_state(),
    {
        TransactionState {
            confirmations: 0,
            first_confirmation_time: None,
            commit_time: None,
            is_committed: false,
        }
    }
}

/// The state of a transaction of which nothing is known.
pub open spec fn fresh_state() -> TransactionState {
    TransactionState {
        confirmations: 0,
        first_confirmation_time: None,
        commit_time: None,
        is_committed: false,
    }
}

/// Statistics about transaction processing for monitoring.
#[derive(Debug)]
pub struct TransactionStats {
    pub total_transactions: usize,
    pub committed_transactions: usize,
    pub pending_transactions: usize,
    pub transactions_with_confirmations: usize,
}

impl Default for TransactionStats {
    fn default() -> (stats: Self)
        ensures
            stats.total_transactions == 0,
            stats.committed_transactions == 0,
            stats.pending_transactions == 0,
            stats.transactions_with_confirmations == 0,
    {
        TransactionStats {
            total_transactions: 0,
            committed_transactions: 0,
            pending_transactions: 0,
            transactions_with_confirmations: 0,
        }
    }
}

/// The states of the transactions of each slot.
pub type SlotStates = Map<u64, Map<u64, TransactionState>>;

/// Processes transaction replies and implements threshold-based confirmation logic.
pub struct ReplyProcessor {
    /// The unique identifier for this client.
    pub client_id: ClientId,
    /// Number of confirmations required before marking a transaction as committed.
    pub threshold: usize,
    /// Map tracking the state of each transaction, grouped by slot.
    pub slot_transaction_states: HashMap<u64, HashMap<u64, TransactionState>>,
    /// Tracks how many worker confirmations we have per slot.
    pub slot_confirmations: HashMap<u64, usize>,
    /// Slots that have already met the confirmation threshold.
    pub committed_slots: BTreeSet<u64>,
    /// Latest slot seen per worker to compute the watermark.
    pub latest_slots: KeyMap<u64>,
}

/// The state of a transaction after one more confirmation.
pub open spec fn confirmed(state: TransactionState, threshold: usize, now: u128) -> TransactionState {
    let confirmations = (state.confirmations + 1) as usize;
    TransactionState {
        confirmations,
        first_confirmation_time: if state.first_confirmation_time is None {
            Some(now)
        } else {
            state.first_confirmation_time
        },
        commit_time: if confirmations >= threshold {
            Some(now)
        } else {
            state.commit_time
        },
        is_committed: state.is_committed || confirmations >= threshold,
    }
}

/// The state of a transaction, or that of an unknown one.
pub open spec fn state_in(states: Map<u64, TransactionState>, id: u64) -> TransactionState {
    if states.dom().contains(id) {
        states[id]
    } else {
        fresh_state()
    }
}

/// The states of a slot's transactions and the transactions that reach the threshold when
/// `ids` are confirmed one after the other.
pub open spec fn after_confirmations(
    states: Map<u64, TransactionState>,
    ids: Seq<u64>,
    threshold: usize,
    now: u128,
) -> (Map<u64, TransactionState>, Seq<u64>)
    decreases ids.len(),
{
    if ids.len() == 0 {
        (states, Seq::empty())
    } else {
        let (before, committed) = after_confirmations(states, ids.drop_last(), threshold, now);
        let id = ids.last();
        let state = confirmed(state_in(before, id), threshold, now);
        (
            before.insert(id, state),
            if state.confirmations >= threshold {
                committed.push(id)
            } else {
                committed
            },
        )
    }
}

/// Whether the confirmations in a reply can be counted within the limits of the numbers. A reply
/// that names no transaction twice always can.
pub open spec fn has_room(threshold: usize, ids: Seq<u64>) -> bool {
    ids.no_duplicates() || threshold + ids.len() <= usize::MAX
}

/// Whether no worker's latest slot is below `slot`, and that of some worker is `slot`.
pub open spec fn is_lowest(slot: u64, latest: Map<[u8; 32], u64>) -> bool {
    &&& exists|key: [u8; 32]| latest.dom().contains(key) && #[trigger] latest[key] == slot
    &&& forall|key: [u8; 32]| latest.dom().contains(key) ==> slot <= #[trigger] latest[key]
}

/// The latest slots after a worker was heard of in `slot`.
pub open spec fn heard(latest: Map<[u8; 32], u64>, key: [u8; 32], slot: u64) -> Map<[u8; 32], u64> {
    latest.insert(
        key,
        if latest.dom().contains(key) && latest[key] > slot {
            latest[key]
        } else {
            slot
        },
    )
}

/// Whether a slot is not below the watermark, the lowest of the workers' latest slots.
pub open spec fn not_below_watermark(slot: u64, latest: Map<[u8; 32], u64>) -> bool {
    forall|w: u64| #[trigger] is_lowest(w, latest) ==> slot >= w
}

/// The committed slots that are not below the watermark.
pub open spec fn kept_slots(committed: Set<u64>, latest: Map<[u8; 32], u64>) -> Set<u64> {
    committed.filter(|slot: u64| not_below_watermark(slot, latest))
}

/// The number of replies that were counted for a slot.
pub open spec fn count_in(counts: Map<u64, usize>, slot: u64) -> nat {
    if counts.dom().contains(slot) {
        counts[slot] as nat
    } else {
        0
    }
}

/// The states of a slot.
pub open spec fn states_in(states: SlotStates, slot: u64) -> Map<u64, TransactionState> {
    if states.dom().contains(slot) {
        states[slot]
    } else {
        Map::empty()
    }
}

/// What is known of replies.
pub struct ReplyModel {
    /// The states of the transactions of each slot.
    pub states: SlotStates,
    /// The number of replies that were counted for each slot.
    pub counts: Map<u64, usize>,
    /// The slots that have met the confirmation threshold.
    pub committed: Set<u64>,
    /// The latest slot of each worker.
    pub latest: Map<[u8; 32], u64>,
}

/// No count has reached the threshold; slots with states are counted slots, and none of them is
/// without a state; no transaction that is kept is committed; and nothing is kept of a committed
/// slot.
pub open spec fn consistent(
    states: SlotStates,
    counts: Map<u64, usize>,
    committed: Set<u64>,
    threshold: usize,
) -> bool {
    &&& forall|slot: u64| #[trigger]
        counts.dom().contains(slot) ==> 1 <= counts[slot] < threshold
    &&& forall|slot: u64| #[trigger]
        states.dom().contains(slot) ==> counts.dom().contains(slot) && states[slot].dom() != Set::<
            u64,
        >::empty()
    &&& forall|slot: u64, id: u64|
        states.dom().contains(slot) && #[trigger] states[slot].dom().contains(id) ==> 1
            <= states[slot][id].confirmations < threshold && !states[slot][id].is_committed
    &&& forall|slot: u64| #[trigger]
        committed.contains(slot) ==> !counts.dom().contains(slot) && !states.dom().contains(slot)
}

/// What is known after a reply of the worker `key` for `slot` that names the transactions `ids`,
/// and the transactions that it commits. A reply for a slot that has been committed counts only
/// for the watermark.
pub open spec fn after_reply(
    model: ReplyModel,
    threshold: usize,
    slot: u64,
    key: [u8; 32],
    ids: Seq<u64>,
    now: u128,
) -> (ReplyModel, Seq<u64>) {
    let latest = heard(model.latest, key, slot);
    if model.committed.contains(slot) {
        (ReplyModel { latest, ..model }, Seq::empty())
    } else {
        let count = count_in(model.counts, slot) + 1;
        let reached = count >= threshold;
        let (states, committed) = after_confirmations(
            states_in(model.states, slot),
            ids,
            threshold,
            now,
        );
        let left = states.remove_keys(committed.to_set());
        (
            ReplyModel {
                states: if reached || left.dom() == Set::<u64>::empty() {
                    model.states.remove(slot)
                } else {
                    model.states.insert(slot, left)
                },
                counts: if reached {
                    model.counts.remove(slot)
                } else {
                    model.counts.insert(slot, count as usize)
                },
                committed: kept_slots(
                    if reached {
                        model.committed.insert(slot)
                    } else {
                        model.committed
                    },
                    latest,
                ),
                latest,
            },
            committed,
        )
    }
}

impl ReplyProcessor {
    /// The states of the transactions of each slot.
    pub open spec fn states(&self) -> SlotStates {
        self.slot_transaction_states@.map_values(|states: HashMap<u64, TransactionState>| states@)
    }

    /// What the processor knows.
    pub open spec fn model(&self) -> ReplyModel {
        ReplyModel {
            states: self.states(),
            counts: self.slot_confirmations@,
            committed: self.committed_slots@,
            latest: self.latest_slots@,
        }
    }

    /// The latest slots stand in order, and what the processor knows is consistent.
    pub open spec fn wf(&self) -> bool {
        &&& self.latest_slots.wf()
        &&& consistent(
            self.states(),
            self.slot_confirmations@,
            self.committed_slots@,
            self.threshold,
        )
    }

    /// A processor before its first reply.
    pub fn new(client_id: ClientId, threshold: usize) -> (processor: Self)
        ensures
            processor.wf(),
            processor.client_id == client_id,
            processor.threshold == threshold,
            processor.slot_transaction_states@ == Map::<
                u64,
                HashMap<u64, TransactionState>,
            >::empty(),
            processor.slot_confirmations@ == Map::<u64, usize>::empty(),
            processor.committed_slots@ == Set::<u64>::empty(),
            processor.latest_slots@ == Map::<[u8; 32], u64>::empty(),
    {
        ReplyProcessor {
            client_id,
            threshold,
            slot_transaction_states: HashMap::new(),
            slot_confirmations: HashMap::new(),
            committed_slots: BTreeSet::new(),
            latest_slots: KeyMap::new(),
        }
    }

    /// Takes note that a worker was heard of in a slot.
    pub fn update_worker_slot(&mut self, worker_key: &PublicKey, slot: u64)
        requires
            old(self).wf(),
        ensures
            final(self).wf(),
            final(self).latest_slots@ == heard(old(self).latest_slots@, worker_key.0, slot),
            *final(self) == (ReplyProcessor {
                latest_slots: final(self).latest_slots,
                ..*old(self)
            }),
    {
        let latest: u64 = match self.latest_slots.get(&worker_key.0) {
            Some(latest) => if *latest > slot {
                *latest
            } else {
                slot
            },
            None => slot,
        };
        self.latest_slots.insert(worker_key.0, latest);
    }

    /// The watermark: the lowest of the workers' latest slots.
    pub fn current_watermark(&self) -> (watermark: Option<u64>)
        requires
            self.wf(),
        ensures
            match watermark {
                Some(slot) => is_lowest(slot, self.latest_slots@),
                None => self.latest_slots@ == Map::<[u8; 32], u64>::empty(),
            },
    {
        proof {
            self.latest_slots.lemma_domain();
        }
        if self.latest_slots.entries.len() == 0 {
            assert(self.latest_slots@ =~= Map::<[u8; 32], u64>::empty());
            return None;
        }
        let mut lowest: u64 = self.latest_slots.entries[0].1;
        let mut i: usize = 1;
        let ghost mut found: int = 0;
        while i < self.latest_slots.entries.len()
            invariant
                1 <= i <= self.latest_slots.entries@.len(),
                0 <= found < i,
                self.latest_slots.entries@[found].1 == lowest,
                forall|j: int|
                    0 <= j < i ==> lowest <= (#[trigger] self.latest_slots.entries@[j]).1,
            decreases self.latest_slots.entries@.len() - i,
        {
            if self.latest_slots.entries[i].1 < lowest {
                lowest = self.latest_slots.entries[i].1;
                proof {
                    found = i as int;
                }
            }
            i += 1;
        }
        proof {
            self.latest_slots.lemma_entry(found);
            assert forall|key: [u8; 32]| self.latest_slots@.dom().contains(key) implies lowest
                <= #[trigger] self.latest_slots@[key] by {
                self.latest_slots.lemma_entry(entry_index(self.latest_slots.entries@, key));
            }
        }
        Some(lowest)
    }

    /// Forgets the committed slots that are below the watermark.
    pub fn garbage_collect_committed_slots(&mut self)
        requires
            old(self).wf(),
        ensures
            final(self).wf(),
            final(self).committed_slots@ == kept_slots(
                old(self).committed_slots@,
                old(self).latest_slots@,
            ),
            *final(self) == (ReplyProcessor {
                committed_slots: final(self).committed_slots,
                ..*old(self)
            }),
    {
        broadcast use vstd::std_specs::btree::group_btree_axioms;
        let watermark: u64 = match self.current_watermark() {
            Some(watermark) => watermark,
            None => {
                assert forall|w: u64| !is_lowest(w, self.latest_slots@) by {}
                assert(self.committed_slots@ =~= kept_slots(
                    self.committed_slots@,
                    self.latest_slots@,
                ));
                return;
            },
        };
        let slots = member_list(&self.committed_slots);
        let mut i: usize = 0;
        while i < slots.len()
            invariant
                i <= slots@.len(),
                slots@.no_duplicates(),
                slots@.to_set() == old(self).committed_slots@,
                *self == (ReplyProcessor { committed_slots: self.committed_slots, ..*old(self) }),
                self.committed_slots@.subset_of(old(self).committed_slots@),
                forall|j: int|
                    i <= j < slots@.len() ==> self.committed_slots@.contains(#[trigger] slots@[j]),
                forall|j: int|
                    0 <= j < i ==> (self.committed_slots@.contains(#[trigger] slots@[j])
                        <==> slots@[j] >= watermark),
            decreases slots@.len() - i,
        {
            broadcast use vstd::std_specs::btree::group_btree_axioms;
            let ghost before = self.committed_slots@;
            let slot: u64 = slots[i];
            if slot < watermark {
                self.committed_slots.remove(&slot);
            }
            assert forall|j: int| 0 <= j < slots@.len() && j != i implies
                self.committed_slots@.contains(#[trigger] slots@[j]) == before.contains(slots@[j]) by {
                assert(slots@[j] != slot);
            }
            i += 1;
        }
        proof {
            let kept = kept_slots(old(self).committed_slots@, self.latest_slots@);
            assert forall|slot: u64| #[trigger]
                self.committed_slots@.contains(slot) <==> kept.contains(slot) by {
                if old(self).committed_slots@.contains(slot) {
                    assert(slots@.to_set().contains(slot));
                    let j = choose|j: int| 0 <= j < slots@.len() && slots@[j] == slot;
                    assert(slots@[j] == slot);
                    lemma_lowest_unique(watermark, self.latest_slots@);
                }
            }
            assert(self.committed_slots@ =~= kept);
        }
    }

    /// Counts a reply for a slot. Says whether that reaches the threshold.
    fn count_reply(&mut self, slot: u64) -> (reached: bool)
        requires
            old(self).wf(),
            !old(self).committed_slots@.contains(slot),
        ensures
            reached == (count_in(old(self).slot_confirmations@, slot) + 1 >= old(self).threshold),
            final(self).slot_confirmations@ == (if reached {
                old(self).slot_confirmations@.remove(slot)
            } else {
                old(self).slot_confirmations@.insert(
                    slot,
                    (count_in(old(self).slot_confirmations@, slot) + 1) as usize,
                )
            }),
            final(self).committed_slots@ == (if reached {
                old(self).committed_slots@.insert(slot)
            } else {
                old(self).committed_slots@
            }),
            *final(self) == (ReplyProcessor {
                slot_confirmations: final(self).slot_confirmations,
                committed_slots: final(self).committed_slots,
                ..*old(self)
            }),
    {
        broadcast use vstd::std_specs::hash::group_hash_axioms;
        broadcast use vstd::std_specs::btree::group_btree_axioms;
        let counted: usize = match self.slot_confirmations.get(&slot) {
            Some(count) => *count,
            None => 0,
        };
        let confirmations: usize = counted + 1;
        if confirmations >= self.threshold {
            self.slot_confirmations.remove(&slot);
            assert(self.slot_confirmations@ =~= old(self).slot_confirmations@.remove(slot));
            self.committed_slots.insert(slot);
            true
        } else {
            self.slot_confirmations.insert(slot, confirmations);
            false
        }
    }

    /// Checks that the confirmations in a reply can be counted.
    pub fn can_process(&self, reply: &SlotTransactionReply) -> (possible: bool)
        ensures
            possible == has_room(self.threshold, reply.committed_transactions@),
    {
        let ids = &reply.committed_transactions;
        if self.threshold <= usize::MAX - ids.len() {
            return true;
        }
        for i in 0..ids.len()
            invariant
                ids@ == reply.committed_transactions@,
                self.threshold + ids@.len() > usize::MAX,
                forall|a: int, b: int|
                    0 <= a < b < i ==> #[trigger] ids@[a] != #[trigger] ids@[b],
        {
            for j in 0..i
                invariant
                    i < ids@.len(),
                    ids@ == reply.committed_transactions@,
                    self.threshold + ids@.len() > usize::MAX,
                    forall|a: int| 0 <= a < j ==> #[trigger] ids@[a] != ids@[i as int],
            {
                if ids[j] == ids[i] {
                    assert(!ids@.no_duplicates());
                    return false;
                }
            }
        }
        true
    }

    /// Process a single reply message, updating transaction confirmation counts. Gives back the
    /// transactions that reach the threshold, once for each confirmation at or above it. A reply
    /// for a slot that has been committed counts only for the watermark.
    pub fn process_reply(&mut self, reply: &SlotTransactionReply, now: u128) -> (committed: Vec<u64>)
        requires
            old(self).wf(),
            has_room(old(self).threshold, reply.committed_transactions@),
        ensures
            final(self).wf(),
            final(self).client_id == old(self).client_id,
            final(self).threshold == old(self).threshold,
            (final(self).model(), committed@) == after_reply(
                old(self).model(),
                old(self).threshold,
                reply.slot,
                reply.worker_key.0,
                reply.committed_transactions@,
                now,
            ),
    {
        broadcast use vstd::std_specs::hash::group_hash_axioms;
        broadcast use vstd::std_specs::btree::group_btree_axioms;
        let slot: u64 = reply.slot;
        self.update_worker_slot(&reply.worker_key, slot);
        if self.committed_slots.contains(&slot) {
            return Vec::new();
        }
        let reached = self.count_reply(slot);
        let ghost before = old(self).states();
        let mut states: HashMap<u64, TransactionState> = HashMap::new();
        assert(states@ =~= Map::<u64, TransactionState>::empty());
        match self.slot_transaction_states.remove(&slot) {
            Some(known) => {
                states = known;
            },
            None => {},
        }
        assert(states@ == states_in(before, slot));
        assert(self.states() =~= before.remove(slot));
        let committed = confirm_all(
            &mut states,
            &reply.committed_transactions,
            self.threshold,
            now,
        );
        let ghost after = after_confirmations(
            states_in(before, slot),
            reply.committed_transactions@,
            self.threshold,
            now,
        );
        let ghost left = states@;
        if states.len() > 0 && !reached {
            assert(left.dom() != Set::<u64>::empty());
            self.slot_transaction_states.insert(slot, states);
            assert(self.states() =~= before.insert(slot, left));
        } else {
            proof {
                if left.dom().len() == 0 {
                    assert(left.dom() =~= Set::<u64>::empty());
                }
            }
        }
        assert(self.wf()) by {
            lemma_unfinished(
                states_in(before, slot),
                reply.committed_transactions@,
                self.threshold,
                now,
            );
            assert forall|s: u64, id: u64|
                self.states().dom().contains(s) && #[trigger] self.states()[s].dom().contains(
                    id,
                ) implies 1 <= self.states()[s][id].confirmations < self.threshold
                && !self.states()[s][id].is_committed by {
                if s == slot {
                    assert(left.dom().contains(id));
                    assert(after.0.dom().contains(id));
                } else {
                    assert(before[s].dom().contains(id));
                }
            }
            assert forall|s: u64| #[trigger] self.states().dom().contains(s) implies
                self.slot_confirmations@.dom().contains(s) && self.states()[s].dom() != Set::<
                u64,
            >::empty() by {
                if s != slot {
                    assert(before.dom().contains(s));
                }
            }
        }
        self.garbage_collect_committed_slots();
        committed
    }

    /// The slot and the number of each tracked transaction, each once.
    fn list_pairs(&self) -> (list: Vec<(u64, u64)>)
        ensures
            list@.no_duplicates(),
            list@.to_set() == known_pairs(self.states()),
    {
        broadcast use vstd::std_specs::hash::group_hash_axioms;
        let mut list: Vec<(u64, u64)> = Vec::new();
        let ghost all = known_pairs(self.states());
        let slots = key_list(&self.slot_transaction_states);
        let mut i: usize = 0;
        while i < slots.len()
            invariant
                i <= slots@.len(),
                slots@.no_duplicates(),
                slots@.to_set() == self.slot_transaction_states@.dom(),
                all == known_pairs(self.states()),
                list@.no_duplicates(),
                forall|pair: (u64, u64)| #[trigger]
                    list@.contains(pair) <==> all.contains(pair) && slots@.take(i as int).contains(
                        pair.0,
                    ),
            decreases slots@.len() - i,
        {
            broadcast use vstd::std_specs::hash::group_hash_axioms;
            let slot: u64 = slots[i];
            let ghost done = slots@.take(i as int);
            assert(slots@.take(i + 1) =~= done.push(slot));
            assert(!done.contains(slot));
            assert(slots@.to_set().contains(slot));
            if let Some(states) = self.slot_transaction_states.get(&slot) {
                let ids = key_list(states);
                let ghost before = list@;
                assert(self.states()[slot] == states@);
                let mut j: usize = 0;
                while j < ids.len()
                    invariant
                        j <= ids@.len(),
                        ids@.no_duplicates(),
                        ids@.to_set() == self.states()[slot].dom(),
                        self.states().dom().contains(slot),
                        all == known_pairs(self.states()),
                        !done.contains(slot),
                        list@.no_duplicates(),
                        forall|pair: (u64, u64)| #[trigger]
                            list@.contains(pair) <==> all.contains(pair) && (done.contains(pair.0)
                                || (pair.0 == slot && ids@.take(j as int).contains(pair.1))),
                    decreases ids@.len() - j,
                {
                    let id: u64 = ids[j];
                    let ghost listed = list@;
                    let ghost seen = ids@.take(j as int);
                    assert(ids@.take(j + 1) =~= seen.push(id));
                    assert(!seen.contains(id));
                    assert(ids@.to_set().contains(id));
                    assert(all.contains((slot, id)));
                    list.push((slot, id));
                    proof {
                        assert(!listed.contains((slot, id)));
                        lemma_push_contains(listed, (slot, id));
                        lemma_push_contains(seen, id);
                        assert(list@.no_duplicates()) by {
                            assert forall|a: int, b: int|
                                0 <= a < list@.len() && 0 <= b < list@.len() && a
                                    != b implies list@[a] != list@[b] by {
                                if a == listed.len() {
                                    assert(listed.contains(list@[b]));
                                } else if b == listed.len() {
                                    assert(listed.contains(list@[a]));
                                }
                            }
                        }
                    }
                    j += 1;
                }
                assert(ids@.take(ids@.len() as int) =~= ids@);
                assert forall|pair: (u64, u64)| #[trigger]
                    list@.contains(pair) <==> all.contains(pair) && done.push(slot).contains(
                    pair.0,
                ) by {
                    lemma_push_contains(done, slot);
                    if all.contains(pair) && pair.0 == slot {
                        assert(ids@.to_set().contains(pair.1));
                    }
                }
            }
            i += 1;
        }
        assert(slots@.take(slots@.len() as int) =~= slots@);
        assert forall|pair: (u64, u64)| #[trigger] list@.to_set().contains(pair) <==> all.contains(
            pair,
        ) by {
            if all.contains(pair) {
                assert(slots@.to_set().contains(pair.0));
                assert(list@.contains(pair));
            }
        }
        assert(list@.to_set() =~= all);
        list
    }

    /// Get statistics about transaction confirmation for monitoring.
    pub fn get_stats(&self) -> (stats: TransactionStats)
        ensures
            ({
                let states = self.states();
                let all = known_pairs(states);
                &&& stats.total_transactions == all.len()
                &&& stats.committed_transactions == all.filter(
                    |pair: (u64, u64)| states[pair.0][pair.1].is_committed,
                ).len()
                &&& stats.pending_transactions == all.filter(
                    |pair: (u64, u64)| !states[pair.0][pair.1].is_committed,
                ).len()
                &&& stats.transactions_with_confirmations == all.filter(
                    |pair: (u64, u64)| states[pair.0][pair.1].confirmations > 0,
                ).len()
            }),
    {
        broadcast use vstd::std_specs::hash::group_hash_axioms;
        let mut stats = TransactionStats::default();
        let list = self.list_pairs();
        let ghost states = self.states();
        let ghost committed = |pair: (u64, u64)| states[pair.0][pair.1].is_committed;
        let ghost pending = |pair: (u64, u64)| !states[pair.0][pair.1].is_committed;
        let ghost replied = |pair: (u64, u64)| states[pair.0][pair.1].confirmations > 0;
        proof {
            list@.unique_seq_to_set();
            assert(list@.take(0).to_set() =~= Set::<(u64, u64)>::empty());
            assert(list@.take(0).to_set().filter(committed) =~= Set::<(u64, u64)>::empty());
            assert(list@.take(0).to_set().filter(pending) =~= Set::<(u64, u64)>::empty());
            assert(list@.take(0).to_set().filter(replied) =~= Set::<(u64, u64)>::empty());
        }
        for i in 0..list.len()
            invariant
                states == self.states(),
                list@.no_duplicates(),
                list@.to_set() == known_pairs(states),
                committed == (|pair: (u64, u64)| states[pair.0][pair.1].is_committed),
                pending == (|pair: (u64, u64)| !states[pair.0][pair.1].is_committed),
                replied == (|pair: (u64, u64)| states[pair.0][pair.1].confirmations > 0),
                stats.total_transactions == i,
                stats.committed_transactions <= i,
                stats.pending_transactions <= i,
                stats.transactions_with_confirmations <= i,
                stats.committed_transactions == list@.take(i as int).to_set().filter(
                    committed,
                ).len(),
                stats.pending_transactions == list@.take(i as int).to_set().filter(pending).len(),
                stats.transactions_with_confirmations == list@.take(i as int).to_set().filter(
                    replied,
                ).len(),
        {
            broadcast use vstd::std_specs::hash::group_hash_axioms;
            let (slot, id) = list[i];
            proof {
                assert(list@.to_set().contains((slot, id)));
                lemma_count_next(list@, i as int, committed);
                lemma_count_next(list@, i as int, pending);
                lemma_count_next(list@, i as int, replied);
            }
            stats.total_transactions = stats.total_transactions + 1;
            if let Some(known) = self.slot_transaction_states.get(&slot) {
                assert(known@ == states[slot]);
                if let Some(state) = known.get(&id) {
                    assert(*state == states[slot][id]);
                    if state.is_committed {
                        stats.committed_transactions = stats.committed_transactions + 1;
                    } else {
                        stats.pending_transactions = stats.pending_transactions + 1;
                    }
                    if state.confirmations > 0 {
                        stats.transactions_with_confirmations =
                        stats.transactions_with_confirmations + 1;
                    }
                }
            }
        }
        assert(list@.take(list@.len() as int) =~= list@);
        stats
    }

    /// Remove old committed transactions from the state map to prevent memory growth. That is
    /// done only where the number of tracked transactions is a multiple of a thousand.
    pub fn cleanup_old_transactions(&mut self, now: u128)
        requires
            known_pairs(old(self).states()).len() as int % CLEANUP_INTERVAL_TRANSACTIONS as int == 0
                ==> now >= MAX_AGE_NANOS,
        ensures
            final(self).states() == (if known_pairs(old(self).states()).len() as int
                % CLEANUP_INTERVAL_TRANSACTIONS as int == 0 {
                without_old(old(self).states(), now - MAX_AGE_NANOS)
            } else {
                old(self).states()
            }),
            known_pairs(old(self).states()).len() as int % 1000 == 0 ==> final(self).states()
                == without_old(old(self).states(), now - 300_000_000_000),
            known_pairs(old(self).states()).len() as int % 1000 != 0 ==> final(self).states()
                == old(self).states(),
            *final(self) == (ReplyProcessor {
                slot_transaction_states: final(self).slot_transaction_states,
                ..*old(self)
            }),
            old(self).wf() ==> final(self).wf(),
    {
        broadcast use vstd::std_specs::hash::group_hash_axioms;
        let list = self.list_pairs();
        proof {
            list@.unique_seq_to_set();
        }
        if list.len() % CLEANUP_INTERVAL_TRANSACTIONS != 0 {
            return;
        }
        let cutoff: u128 = now - MAX_AGE_NANOS;
        let slots = key_list(&self.slot_transaction_states);
        let ghost all = self.states();
        let mut i: usize = 0;
        while i < slots.len()
            invariant
                i <= slots@.len(),
                slots@.no_duplicates(),
                slots@.to_set() == all.dom(),
                all == old(self).states(),
                *self == (ReplyProcessor {
                    slot_transaction_states: self.slot_transaction_states,
                    ..*old(self)
                }),
                self.states().dom().subset_of(all.dom()),
                forall|j: int|
                    i <= j < slots@.len() ==> self.states().dom().contains(#[trigger] slots@[j])
                        && self.states()[slots@[j]] == all[slots@[j]],
                forall|j: int|
                    0 <= j < i ==> {
                        let slot = #[trigger] slots@[j];
                        let left = recent(all[slot], cutoff as int);
                        &&& self.states().dom().contains(slot) <==> exists|id: u64|
                            left.dom().contains(id)
                        &&& self.states().dom().contains(slot) ==> self.states()[slot] == left
                    },
            decreases slots@.len() - i,
        {
            broadcast use vstd::std_specs::hash::group_hash_axioms;
            let slot: u64 = slots[i];
            let ghost before = self.states();
            assert(before.dom().contains(slot));
            if let Some(mut states) = self.slot_transaction_states.remove(&slot) {
                assert(states@ == all[slot]);
                drop_old(&mut states, cutoff);
                let ghost left = states@;
                let empty = states.is_empty();
                proof {
                    if empty {
                        assert(left.dom() =~= Set::<u64>::empty());
                    } else {
                        assert(left.dom() != Set::<u64>::empty());
                        assert(exists|id: u64| left.dom().contains(id)) by {
                            if forall|id: u64| !left.dom().contains(id) {
                                assert(left.dom() =~= Set::<u64>::empty());
                            }
                        }
                    }
                }
                if !empty {
                    self.slot_transaction_states.insert(slot, states);
                    assert(self.states() =~= before.insert(slot, left));
                } else {
                    assert(self.states() =~= before.remove(slot));
                }
            }
            assert forall|j: int| 0 <= j < slots@.len() && j != i implies {
                let s = #[trigger] slots@[j];
                &&& self.states().dom().contains(s) == before.dom().contains(s)
                &&& before.dom().contains(s) ==> self.states()[s] == before[s]
            } by {
                assert(slots@[j] != slot);
            }
            i += 1;
        }
        proof {
            let result = without_old(all, cutoff as int);
            assert forall|slot: u64| #![trigger self.states().dom().contains(slot)]
                #![trigger self.states()[slot]]
                self.states().dom().contains(slot) == result.dom().contains(slot) && (
                self.states().dom().contains(slot) ==> self.states()[slot] == result[slot]) by {
                if all.dom().contains(slot) {
                    assert(slots@.to_set().contains(slot));
                    let j = choose|j: int| 0 <= j < slots@.len() && slots@[j] == slot;
                    assert(slots@[j] == slot);
                }
            }
            assert(self.states() =~= result);
            if old(self).wf() {
                assert forall|slot: u64, id: u64|
                    self.states().dom().contains(slot)
                        && #[trigger] self.states()[slot].dom().contains(id) implies 1
                    <= self.states()[slot][id].confirmations < self.threshold
                    && !self.states()[slot][id].is_committed by {
                    assert(all[slot].dom().contains(id));
                }
                assert forall|slot: u64| #[trigger] self.states().dom().contains(slot) implies
                    self.slot_confirmations@.dom().contains(slot) && self.states()[slot].dom()
                    != Set::<u64>::empty() by {
                    assert(all.dom().contains(slot));
                    let id = choose|id: u64| recent(all[slot], cutoff as int).dom().contains(id);
                    assert(self.states()[slot].dom().contains(id));
                }
            }
        }
    }
}

/// The slot and the number of each tracked transaction.
pub open spec fn known_pairs(states: SlotStates) -> Set<(u64, u64)> {
    Set::new(
        |pair: (u64, u64)|
            states.dom().contains(pair.0) && states[pair.0].dom().contains(pair.1),
    )
}

/// The states without those of transactions that were committed at `cutoff` or before.
pub open spec fn recent(states: Map<u64, TransactionState>, cutoff: int) -> Map<
    u64,
    TransactionState,
> {
    Map::new(
        |id: u64|
            states.dom().contains(id) && !(states[id].is_committed && match states[id].commit_time {
                Some(time) => time <= cutoff,
                None => false,
            }),
        |id: u64| states[id],
    )
}

/// The states without those of transactions that were committed at `cutoff` or before, and
/// without the slots in which there are none left.
pub open spec fn without_old(states: SlotStates, cutoff: int) -> SlotStates {
    Map::new(
        |slot: u64|
            states.dom().contains(slot) && exists|id: u64|
                recent(states[slot], cutoff).dom().contains(id),
        |slot: u64| recent(states[slot], cutoff),
    )
}

/// Drops the transactions that were committed at `cutoff` or before.
fn drop_old(states: &mut HashMap<u64, TransactionState>, cutoff: u128)
    ensures
        final(states)@ == recent(old(states)@, cutoff as int),
{
    broadcast use vstd::std_specs::hash::group_hash_axioms;
    let ghost all = states@;
    let ids = key_list(states);
    let mut i: usize = 0;
    while i < ids.len()
        invariant
            i <= ids@.len(),
            ids@.no_duplicates(),
            ids@.to_set() == all.dom(),
            states@.dom().subset_of(all.dom()),
            forall|id: u64| #[trigger] states@.dom().contains(id) ==> states@[id] == all[id],
            forall|j: int| i <= j < ids@.len() ==> states@.dom().contains(#[trigger] ids@[j]),
            forall|j: int|
                0 <= j < i ==> (states@.dom().contains(#[trigger] ids@[j]) <==> recent(
                    all,
                    cutoff as int,
                ).dom().contains(ids@[j])),
        decreases ids@.len() - i,
    {
        broadcast use vstd::std_specs::hash::group_hash_axioms;
        let id: u64 = ids[i];
        let ghost before = states@;
        assert(all.dom().contains(id)) by {
            assert(ids@.to_set().contains(id));
        }
        let old = match states.get(&id) {
            Some(state) => state.is_committed && (match state.commit_time {
                Some(time) => time <= cutoff,
                None => false,
            }),
            None => false,
        };
        if old {
            states.remove(&id);
        }
        assert forall|j: int| 0 <= j < ids@.len() && j != i implies states@.dom().contains(
            #[trigger] ids@[j],
        ) == before.dom().contains(ids@[j]) by {
            assert(ids@[j] != id);
        }
        i += 1;
    }
    proof {
        let left = recent(all, cutoff as int);
        assert forall|id: u64| #![trigger states@.dom().contains(id)]
            #![trigger states@[id]]
            states@.dom().contains(id) == left.dom().contains(id) && (states@.dom().contains(id)
                ==> states@[id] == left[id]) by {
            if all.dom().contains(id) {
                assert(ids@.to_set().contains(id));
                let j = choose|j: int| 0 <= j < ids@.len() && ids@[j] == id;
                assert(ids@[j] == id);
            }
        }
        assert(states@ =~= left);
    }
}

proof fn lemma_push_contains<T>(seq: Seq<T>, last: T)
    ensures
        forall|item: T| #[trigger]
            seq.push(last).contains(item) <==> seq.contains(item) || item == last,
{
    assert forall|item: T| #[trigger] seq.push(last).contains(item) <==> seq.contains(item) || item
        == last by {
        if seq.contains(item) {
            let j = choose|j: int| 0 <= j < seq.len() && seq[j] == item;
            assert(seq.push(last)[j] == item);
        }
        assert(seq.push(last)[seq.len() as int] == last);
    }
}

/// Counting one more item of a list without repetitions.
proof fn lemma_count_next(
    list: Seq<(u64, u64)>,
    i: int,
    counts: spec_fn((u64, u64)) -> bool,
)
    requires
        list.no_duplicates(),
        0 <= i < list.len(),
    ensures
        list.take(i + 1).to_set().filter(counts).len() == list.take(i).to_set().filter(counts).len()
            + (if counts(list[i]) {
            1int
        } else {
            0int
        }),
{
    let before = list.take(i);
    let item = list[i];
    assert(list.take(i + 1) =~= before.push(item));
    lemma_push_contains(before, item);
    assert(before.push(item).to_set() =~= before.to_set().insert(item));
    assert(!before.contains(item));
    assert(before.to_set().finite()) by {
        vstd::seq_lib::seq_to_set_is_finite(before);
    }
    let counted = before.to_set().filter(counts);
    if counts(item) {
        assert(before.push(item).to_set().filter(counts) =~= counted.insert(item));
    } else {
        assert(before.push(item).to_set().filter(counts) =~= counted);
    }
}

/// Confirms transactions of a slot one after the other, and drops those that reach the
/// threshold. Gives back those.
fn confirm_all(
    states: &mut HashMap<u64, TransactionState>,
    ids: &Vec<u64>,
    threshold: usize,
    now: u128,
) -> (committed: Vec<u64>)
    requires
        forall|id: u64| #[trigger]
            old(states)@.dom().contains(id) ==> 1 <= old(states)@[id].confirmations < threshold,
        has_room(threshold, ids@),
    ensures
        ({
            let (after, reached) = after_confirmations(old(states)@, ids@, threshold, now);
            &&& committed@ == reached
            &&& final(states)@ == after.remove_keys(reached.to_set())
        }),
{
    broadcast use vstd::std_specs::hash::group_hash_axioms;
    let mut committed: Vec<u64> = Vec::new();
    let ghost before = states@;
    assert(ids@.take(0) =~= Seq::<u64>::empty());
    for i in 0..ids.len()
        invariant
            has_room(threshold, ids@),
            forall|id: u64| #[trigger]
                before.dom().contains(id) ==> 1 <= before[id].confirmations < threshold,
            (states@, committed@) == after_confirmations(
                before,
                ids@.take(i as int),
                threshold,
                now,
            ),
    {
        broadcast use vstd::std_specs::hash::group_hash_axioms;
        assert(ids@.take(i + 1).drop_last() =~= ids@.take(i as int));
        let id: u64 = ids[i];
        let mut state = match states.get(&id) {
            Some(known) => *known,
            None => TransactionState::default(),
        };
        assert(state == state_in(states@, id));
        proof {
            lemma_room(before, ids@, threshold, id);
            lemma_fewer_occurrences(ids@, i + 1, id);
            law_committed_at_threshold(before, ids@.take(i as int), threshold, now, id);
        }
        state.confirmations = state.confirmations + 1;
        if state.first_confirmation_time.is_none() {
            state.first_confirmation_time = Some(now);
        }
        let reached = state.confirmations >= threshold;
        if reached {
            state.is_committed = true;
            state.commit_time = Some(now);
            committed.push(id);
        }
        states.insert(id, state);
    }
    assert(ids@.take(ids@.len() as int) =~= ids@);
    let ghost after = states@;
    assert(states@ =~= after.remove_keys(committed@.take(0).to_set()));
    for i in 0..committed.len()
        invariant
            states@ == after.remove_keys(committed@.take(i as int).to_set()),
    {
        broadcast use vstd::std_specs::hash::group_hash_axioms;
        let ghost gone = committed@.take(i as int);
        let ghost id = committed@[i as int];
        let ghost left = states@;
        states.remove(&committed[i]);
        proof {
            assert(committed@.take(i + 1) =~= gone.push(id));
            lemma_push_to_set(gone, id);
            assert(states@ =~= left.remove(id));
            assert(states@ =~= after.remove_keys(gone.push(id).to_set()));
        }
    }
    assert(committed@.take(committed@.len() as int) =~= committed@);
    committed
}

proof fn lemma_push_to_set(seq: Seq<u64>, last: u64)
    ensures
        seq.push(last).to_set() == seq.to_set().insert(last),
{
    assert forall|k: u64| #[trigger] seq.push(last).contains(k) <==> seq.contains(k) || k
        == last by {
        if seq.contains(k) {
            let j = choose|j: int| 0 <= j < seq.len() && seq[j] == k;
            assert(seq.push(last)[j] == k);
        }
        assert(seq.push(last)[seq.len() as int] == last);
    }
    assert(seq.push(last).to_set() =~= seq.to_set().insert(last));
}

/// The confirmations of a transaction after a reply with room for them fit.
proof fn lemma_room(
    states: Map<u64, TransactionState>,
    ids: Seq<u64>,
    threshold: usize,
    id: u64,
)
    requires
        forall|id: u64| #[trigger]
            states.dom().contains(id) ==> 1 <= states[id].confirmations < threshold,
        has_room(threshold, ids),
    ensures
        state_in(states, id).confirmations < threshold || state_in(states, id).confirmations == 0,
        state_in(states, id).confirmations + occurrences(ids, id) <= usize::MAX,
{
    lemma_occurrences(ids, id);
    if ids.no_duplicates() {
        lemma_named_at_most_once(ids, id);
    }
}

proof fn lemma_fewer_occurrences(ids: Seq<u64>, n: int, id: u64)
    requires
        0 <= n <= ids.len(),
    ensures
        occurrences(ids.take(n), id) <= occurrences(ids, id),
        n > 0 ==> occurrences(ids.take(n), id) == occurrences(ids.take(n - 1), id) + (if ids[n - 1]
            == id {
            1int
        } else {
            0int
        }),
    decreases ids.len() - n,
{
    if n > 0 {
        assert(ids.take(n).drop_last() =~= ids.take(n - 1));
    }
    if n < ids.len() {
        lemma_fewer_occurrences(ids, n + 1, id);
    } else {
        assert(ids.take(n) =~= ids);
    }
}

/// A transaction is known after confirmations if it was known before or is named, and is marked
/// as committed only if it was before or reached the threshold.
proof fn lemma_marked(
    states: Map<u64, TransactionState>,
    ids: Seq<u64>,
    threshold: usize,
    now: u128,
    id: u64,
)
    ensures
        ({
            let (after, committed) = after_confirmations(states, ids, threshold, now);
            &&& after.dom().contains(id) <==> states.dom().contains(id) || ids.contains(id)
            &&& state_in(after, id).is_committed ==> state_in(states, id).is_committed
                || committed.contains(id)
        }),
    decreases ids.len(),
{
    if ids.len() > 0 {
        let head = ids.drop_last();
        lemma_marked(states, head, threshold, now, id);
        let (before, earlier) = after_confirmations(states, head, threshold, now);
        lemma_push_contains(earlier, ids.last());
        lemma_push_contains(head, ids.last());
        assert(ids =~= head.push(ids.last()));
    }
}

/// A transaction that is not among those that reached the threshold has not reached it.
proof fn lemma_unfinished(
    states: Map<u64, TransactionState>,
    ids: Seq<u64>,
    threshold: usize,
    now: u128,
)
    requires
        forall|id: u64| #[trigger]
            states.dom().contains(id) ==> 1 <= states[id].confirmations < threshold
                && !states[id].is_committed,
        has_room(threshold, ids),
    ensures
        ({
            let (after, committed) = after_confirmations(states, ids, threshold, now);
            forall|id: u64| #[trigger]
                after.dom().contains(id) ==> 1 <= after[id].confirmations && (
                after[id].confirmations < threshold && !after[id].is_committed
                    || committed.contains(id))
        }),
{
    let (after, committed) = after_confirmations(states, ids, threshold, now);
    assert forall|id: u64| #[trigger] after.dom().contains(id) implies 1 <= after[id].confirmations
        && (after[id].confirmations < threshold && !after[id].is_committed || committed.contains(
        id,
    )) by {
        lemma_room(states, ids, threshold, id);
        lemma_occurrences(ids, id);
        lemma_marked(states, ids, threshold, now, id);
        law_committed_at_threshold(states, ids, threshold, now, id);
    }
}

/// There is at most one lowest slot.
proof fn lemma_lowest_unique(slot: u64, latest: Map<[u8; 32], u64>)
    requires
        is_lowest(slot, latest),
    ensures
        forall|w: u64| #[trigger] is_lowest(w, latest) ==> w == slot,
{
    assert forall|w: u64| #[trigger] is_lowest(w, latest) implies w == slot by {
        let a = choose|key: [u8; 32]| latest.dom().contains(key) && #[trigger] latest[key] == slot;
        let b = choose|key: [u8; 32]| latest.dom().contains(key) && #[trigger] latest[key] == w;
        assert(slot <= latest[b] && w <= latest[a]);
    }
}

/// How often a number occurs in a list.
pub open spec fn occurrences(ids: Seq<u64>, id: u64) -> nat
    decreases ids.len(),
{
    if ids.len() == 0 {
        0
    } else {
        occurrences(ids.drop_last(), id) + if ids.last() == id {
            1nat
        } else {
            0nat
        }
    }
}

/// A transaction is committed by a reply that names it exactly if the confirmations from
/// before and those in the reply together reach the threshold.
pub proof fn law_committed_at_threshold(
    states: Map<u64, TransactionState>,
    ids: Seq<u64>,
    threshold: usize,
    now: u128,
    id: u64,
)
    requires
        state_in(states, id).confirmations < threshold || threshold == 0,
        state_in(states, id).confirmations + occurrences(ids, id) <= usize::MAX,
    ensures
        ({
            let (after, committed) = after_confirmations(states, ids, threshold, now);
            let total = state_in(states, id).confirmations + occurrences(ids, id);
            &&& state_in(after, id).confirmations == total
            &&& committed.contains(id) <==> occurrences(ids, id) > 0 && total >= threshold
        }),
    decreases ids.len(),
{
    lemma_occurrences(ids, id);
    if ids.len() > 0 {
        law_committed_at_threshold(states, ids.drop_last(), threshold, now, id);
        let (_, earlier) = after_confirmations(states, ids.drop_last(), threshold, now);
        let (_, committed) = after_confirmations(states, ids, threshold, now);
        lemma_push_contains(earlier, ids.last());
    }
}

proof fn lemma_occurrences(ids: Seq<u64>, id: u64)
    ensures
        occurrences(ids, id) <= ids.len(),
        occurrences(ids, id) > 0 <==> ids.contains(id),
    decreases ids.len(),
{
    if ids.len() > 0 {
        lemma_occurrences(ids.drop_last(), id);
        lemma_push_contains(ids.drop_last(), ids.last());
        assert(ids =~= ids.drop_last().push(ids.last()));
    }
}

/// A reply that names no transaction twice commits none twice.
pub proof fn law_committed_once(
    states: Map<u64, TransactionState>,
    ids: Seq<u64>,
    threshold: usize,
    now: u128,
)
    requires
        ids.no_duplicates(),
    ensures
        after_confirmations(states, ids, threshold, now).1.no_duplicates(),
        forall|id: u64| #[trigger]
            after_confirmations(states, ids, threshold, now).1.contains(id) ==> ids.contains(id),
    decreases ids.len(),
{
    if ids.len() > 0 {
        let head = ids.drop_last();
        law_committed_once(states, head, threshold, now);
        let (_, earlier) = after_confirmations(states, head, threshold, now);
        let (_, committed) = after_confirmations(states, ids, threshold, now);
        lemma_push_contains(earlier, ids.last());
        lemma_push_contains(head, ids.last());
        assert(ids =~= head.push(ids.last()));
        if head.contains(ids.last()) {
            let i = choose|i: int| 0 <= i < head.len() && head[i] == ids.last();
            assert(ids[i] == ids[ids.len() - 1]);
        }
        assert(!earlier.contains(ids.last()));
        assert forall|a: int, b: int|
            0 <= a < committed.len() && 0 <= b < committed.len() && a != b implies committed[a]
            != committed[b] by {
            if a < earlier.len() {
                assert(earlier.contains(committed[a]));
            }
            if b < earlier.len() {
                assert(earlier.contains(committed[b]));
            }
        }
    }
}

/// A worker's latest slot never falls, and is at least the slot of each of its replies.
pub proof fn law_latest_slots_never_fall(
    latest: Map<[u8; 32], u64>,
    key: [u8; 32],
    slot: u64,
    other: [u8; 32],
)
    requires
        latest.dom().contains(other),
    ensures
        heard(latest, key, slot).dom().contains(other),
        latest[other] <= heard(latest, key, slot)[other],
        slot <= heard(latest, key, slot)[key],
{
}

/// The committed slots that are kept are those from the watermark on.
pub proof fn law_kept_from_watermark(
    committed: Set<u64>,
    latest: Map<[u8; 32], u64>,
    watermark: u64,
)
    requires
        is_lowest(watermark, latest),
    ensures
        forall|slot: u64| #[trigger]
            kept_slots(committed, latest).contains(slot) <==> committed.contains(slot) && slot
                >= watermark,
{
    lemma_lowest_unique(watermark, latest);
}

/// A transaction that every reply for a slot names is committed by the reply that commits the
/// slot, and by no earlier one: as long as it has one confirmation per counted reply, the next
/// reply that names it once commits both or neither.
pub proof fn law_committed_with_its_slot(
    states: Map<u64, TransactionState>,
    counts: Map<u64, usize>,
    slot: u64,
    ids: Seq<u64>,
    threshold: usize,
    now: u128,
    id: u64,
)
    requires
        state_in(states, id).confirmations == count_in(counts, slot),
        count_in(counts, slot) < threshold,
        occurrences(ids, id) == 1,
    ensures
        ({
            let (after, committed) = after_confirmations(states, ids, threshold, now);
            &&& committed.contains(id) <==> count_in(counts, slot) + 1 >= threshold
            &&& state_in(after, id).confirmations == count_in(counts, slot) + 1
        }),
{
    law_committed_at_threshold(states, ids, threshold, now, id);
}

/// A reply of a worker, and when it came.
pub struct ReplyEvent {
    /// The slot that it is for.
    pub slot: u64,
    /// The worker that sent it.
    pub key: [u8; 32],
    /// The transactions that it names.
    pub ids: Seq<u64>,
    /// When it came.
    pub now: u128,
}

/// What is known before the first reply.
pub open spec fn nothing_known() -> ReplyModel {
    ReplyModel {
        states: Map::empty(),
        counts: Map::empty(),
        committed: Set::empty(),
        latest: Map::empty(),
    }
}

/// What is known after a run of replies.
pub open spec fn known_after(threshold: usize, replies: Seq<ReplyEvent>) -> ReplyModel
    decreases replies.len(),
{
    if replies.len() == 0 {
        nothing_known()
    } else {
        let reply = replies.last();
        after_reply(
            known_after(threshold, replies.drop_last()),
            threshold,
            reply.slot,
            reply.key,
            reply.ids,
            reply.now,
        ).0
    }
}

/// The transactions that the last reply of a run commits.
pub open spec fn committed_by_last(threshold: usize, replies: Seq<ReplyEvent>) -> Seq<u64> {
    let reply = replies.last();
    after_reply(
        known_after(threshold, replies.drop_last()),
        threshold,
        reply.slot,
        reply.key,
        reply.ids,
        reply.now,
    ).1
}

/// Whether every reply can be counted within the limits of the numbers.
pub open spec fn countable(threshold: usize, replies: Seq<ReplyEvent>) -> bool {
    forall|i: int|
        0 <= i < replies.len() ==> has_room(threshold, (#[trigger] replies[i]).ids)
}

/// Whether no reply for a slot names a transaction twice.
pub open spec fn named_once(replies: Seq<ReplyEvent>, slot: u64) -> bool {
    forall|i: int|
        0 <= i < replies.len() && (#[trigger] replies[i]).slot == slot
            ==> replies[i].ids.no_duplicates()
}

/// The number of replies for a slot.
pub open spec fn replies_for(replies: Seq<ReplyEvent>, slot: u64) -> nat
    decreases replies.len(),
{
    if replies.len() == 0 {
        0
    } else {
        replies_for(replies.drop_last(), slot) + if replies.last().slot == slot {
            1nat
        } else {
            0nat
        }
    }
}

/// Whether every reply for a slot names a transaction.
pub open spec fn named_by_all(replies: Seq<ReplyEvent>, slot: u64, id: u64) -> bool {
    forall|i: int|
        0 <= i < replies.len() && (#[trigger] replies[i]).slot == slot ==> replies[i].ids.contains(
            id,
        )
}

/// How many replies for a slot name a transaction, each counted as often as it does.
spec fn namings(replies: Seq<ReplyEvent>, slot: u64, id: u64) -> nat
    decreases replies.len(),
{
    if replies.len() == 0 {
        0
    } else {
        namings(replies.drop_last(), slot, id) + if replies.last().slot == slot {
            occurrences(replies.last().ids, id)
        } else {
            0
        }
    }
}

proof fn lemma_named_at_most_once(ids: Seq<u64>, id: u64)
    requires
        ids.no_duplicates(),
    ensures
        occurrences(ids, id) <= 1,
    decreases ids.len(),
{
    if ids.len() > 0 {
        let head = ids.drop_last();
        lemma_named_at_most_once(head, id);
        lemma_occurrences(head, id);
        if ids.last() == id && head.contains(id) {
            let i = choose|i: int| 0 <= i < head.len() && head[i] == id;
            assert(ids[i] == ids[ids.len() - 1]);
        }
    }
}

proof fn lemma_shorter_run(replies: Seq<ReplyEvent>, slot: u64)
    requires
        replies.len() > 0,
        named_once(replies, slot),
    ensures
        named_once(replies.drop_last(), slot),
        replies.last().slot == slot ==> replies.last().ids.no_duplicates(),
{
    let head = replies.drop_last();
    assert forall|i: int|
        0 <= i < head.len() && (#[trigger] head[i]).slot
            == slot implies head[i].ids.no_duplicates() by {
        assert(head[i] == replies[i]);
    }
    assert(replies[replies.len() - 1] == replies.last());
}

proof fn lemma_namings(replies: Seq<ReplyEvent>, slot: u64, id: u64)
    requires
        named_once(replies, slot),
    ensures
        namings(replies, slot, id) <= replies_for(replies, slot),
        namings(replies, slot, id) == replies_for(replies, slot) <==> named_by_all(
            replies,
            slot,
            id,
        ),
    decreases replies.len(),
{
    if replies.len() > 0 {
        let head = replies.drop_last();
        let last = replies.last();
        assert(named_once(head, slot)) by {
            assert forall|i: int|
                0 <= i < head.len() && (#[trigger] head[i]).slot
                    == slot implies head[i].ids.no_duplicates() by {
                assert(head[i] == replies[i]);
            }
        }
        assert(replies[replies.len() - 1] == last);
        lemma_namings(head, slot, id);
        if last.slot == slot {
            lemma_named_at_most_once(last.ids, id);
            lemma_occurrences(last.ids, id);
        }
        if named_by_all(replies, slot, id) {
            assert forall|i: int|
                0 <= i < head.len() && (#[trigger] head[i]).slot
                    == slot implies head[i].ids.contains(id) by {
                assert(head[i] == replies[i]);
            }
        }
        if named_by_all(head, slot, id) && (last.slot == slot ==> last.ids.contains(id)) {
            assert forall|i: int|
                0 <= i < replies.len() && (#[trigger] replies[i]).slot
                    == slot implies replies[i].ids.contains(id) by {
                if i < head.len() {
                    assert(head[i] == replies[i]);
                }
            }
        }
    }
}

/// As long as fewer replies for a slot than the threshold have come, they are counted, every
/// transaction has one confirmation for each that names it, and the slot is not committed.
proof fn lemma_below_threshold(threshold: usize, replies: Seq<ReplyEvent>, slot: u64)
    requires
        named_once(replies, slot),
        replies_for(replies, slot) < threshold,
    ensures
        ({
            let model = known_after(threshold, replies);
            &&& count_in(model.counts, slot) == replies_for(replies, slot)
            &&& !model.committed.contains(slot)
            &&& forall|id: u64|
                (#[trigger] state_in(states_in(model.states, slot), id)).confirmations == namings(
                    replies,
                    slot,
                    id,
                )
            &&& replies.len() > 0 && replies.last().slot == slot ==> committed_by_last(
                threshold,
                replies,
            ).len() == 0
        }),
    decreases replies.len(),
{
    if replies.len() > 0 {
        let head = replies.drop_last();
        let last = replies.last();
        lemma_shorter_run(replies, slot);
        lemma_below_threshold(threshold, head, slot);
        let before = known_after(threshold, head);
        let model = known_after(threshold, replies);
        if last.slot == slot {
            let states = states_in(before.states, slot);
            let (after, committed) = after_confirmations(states, last.ids, threshold, last.now);
            assert forall|id: u64|
                #![trigger committed.contains(id)]
                #![trigger state_in(after, id)]
                !committed.contains(id) && state_in(after, id).confirmations == namings(
                    replies,
                    slot,
                    id,
                ) by {
                lemma_namings(head, slot, id);
                lemma_namings(replies, slot, id);
                assert(state_in(states, id).confirmations == namings(head, slot, id));
                law_committed_at_threshold(states, last.ids, threshold, last.now, id);
            }
            if committed.len() > 0 {
                assert(committed.contains(committed[0]));
            }
            assert(committed =~= Seq::<u64>::empty());
            let left = after.remove_keys(committed.to_set());
            assert(left =~= after);
            assert(states_in(model.states, slot) =~= after);
            assert forall|id: u64|
                (#[trigger] state_in(states_in(model.states, slot), id)).confirmations == namings(
                    replies,
                    slot,
                    id,
                ) by {
                assert(state_in(after, id).confirmations == namings(replies, slot, id));
            }
        } else {
            assert(states_in(model.states, slot) =~= states_in(before.states, slot));
            assert forall|id: u64|
                (#[trigger] state_in(states_in(model.states, slot), id)).confirmations == namings(
                    replies,
                    slot,
                    id,
                ) by {
                assert(state_in(states_in(before.states, slot), id).confirmations == namings(
                    head,
                    slot,
                    id,
                ));
            }
        }
    } else {
        assert(states_in(known_after(threshold, replies).states, slot) =~= Map::<
            u64,
            TransactionState,
        >::empty());
    }
}

/// Threshold-based confirmation over a whole run, from a fresh processor on, with replies for
/// other slots in between. The replies for a slot before the one with which their number reaches
/// the threshold commit nothing, and the slot is not committed. That reply commits exactly the
/// transactions that all replies for the slot so far name, each once; the slot is then
/// committed, and is kept as such unless it is below the watermark.
pub proof fn law_run_commits_at_threshold(
    threshold: usize,
    replies: Seq<ReplyEvent>,
    slot: u64,
)
    requires
        threshold >= 1,
        named_once(replies, slot),
        replies.len() > 0,
        replies.last().slot == slot,
        replies_for(replies, slot) <= threshold,
    ensures
        ({
            let model = known_after(threshold, replies);
            let committed = committed_by_last(threshold, replies);
            if replies_for(replies, slot) < threshold {
                &&& committed.len() == 0
                &&& !model.committed.contains(slot)
            } else {
                &&& committed.no_duplicates()
                &&& forall|id: u64| #[trigger]
                    committed.contains(id) <==> named_by_all(replies, slot, id)
                &&& !model.counts.dom().contains(slot)
                &&& !model.states.dom().contains(slot)
                &&& model.committed.contains(slot) <==> not_below_watermark(slot, model.latest)
            }
        }),
{
    if replies_for(replies, slot) < threshold {
        lemma_below_threshold(threshold, replies, slot);
    } else {
        let head = replies.drop_last();
        let last = replies.last();
        lemma_shorter_run(replies, slot);
        lemma_below_threshold(threshold, head, slot);
        let before = known_after(threshold, head);
        let states = states_in(before.states, slot);
        let committed = committed_by_last(threshold, replies);
        law_committed_once(states, last.ids, threshold, last.now);
        assert forall|id: u64| #[trigger] committed.contains(id) <==> named_by_all(
            replies,
            slot,
            id,
        ) by {
            lemma_namings(head, slot, id);
            lemma_namings(replies, slot, id);
            lemma_named_at_most_once(last.ids, id);
            assert(state_in(states, id).confirmations == namings(head, slot, id));
            law_committed_at_threshold(states, last.ids, threshold, last.now, id);
        }
        let model = known_after(threshold, replies);
        assert(model.committed == kept_slots(before.committed.insert(slot), model.latest));
        assert(model.committed.contains(slot) <==> not_below_watermark(slot, model.latest));
    }
}

/// What is known stays consistent over any run of replies: no count and no confirmation reaches
/// the threshold, slots with states are counted and have some, nothing that is kept is
/// committed, and nothing is kept of a committed slot.
pub proof fn law_run_stays_consistent(threshold: usize, replies: Seq<ReplyEvent>)
    requires
        countable(threshold, replies),
    ensures
        ({
            let model = known_after(threshold, replies);
            consistent(model.states, model.counts, model.committed, threshold)
        }),
    decreases replies.len(),
{
    if replies.len() > 0 {
        let head = replies.drop_last();
        let last = replies.last();
        assert(countable(threshold, head)) by {
            assert forall|i: int| 0 <= i < head.len() implies has_room(
                threshold,
                (#[trigger] head[i]).ids,
            ) by {
                assert(head[i] == replies[i]);
            }
        }
        assert(replies[replies.len() - 1] == last);
        law_run_stays_consistent(threshold, head);
        let before = known_after(threshold, head);
        let slot = last.slot;
        if !before.committed.contains(slot) {
            let states = states_in(before.states, slot);
            let model = known_after(threshold, replies);
            assert forall|id: u64| #[trigger] states.dom().contains(id) implies 1
                <= states[id].confirmations < threshold && !states[id].is_committed by {
                assert(before.states[slot].dom().contains(id));
            }
            lemma_unfinished(states, last.ids, threshold, last.now);
            let (after, committed) = after_confirmations(states, last.ids, threshold, last.now);
            assert forall|s: u64, id: u64|
                model.states.dom().contains(s) && #[trigger] model.states[s].dom().contains(
                    id,
                ) implies 1 <= model.states[s][id].confirmations < threshold
                && !model.states[s][id].is_committed by {
                if s == slot {
                    assert(after.dom().contains(id));
                } else {
                    assert(before.states[s].dom().contains(id));
                }
            }
        }
    }
}

/// A reply for a slot that has been committed commits nothing, whoever sent it and whatever it
/// names, and counts nothing: only the latest slot of its worker may change.
pub proof fn law_committed_slot_commits_nothing(
    model: ReplyModel,
    threshold: usize,
    slot: u64,
    key: [u8; 32],
    ids: Seq<u64>,
    now: u128,
)
    requires
        model.committed.contains(slot),
    ensures
        ({
            let (after, committed) = after_reply(model, threshold, slot, key, ids, now);
            &&& committed.len() == 0
            &&& after.states == model.states
            &&& after.counts == model.counts
            &&& after.committed == model.committed
        }),
{
}

/// The latest slot of the worker that sent a reply is the larger of what it was and the slot of
/// the reply; those of the other workers stay as they are.
pub proof fn law_latest_slot(
    model: ReplyModel,
    threshold: usize,
    slot: u64,
    key: [u8; 32],
    ids: Seq<u64>,
    now: u128,
    other: [u8; 32],
)
    ensures
        ({
            let after = after_reply(model, threshold, slot, key, ids, now).0;
            &&& after.latest == heard(model.latest, key, slot)
            &&& after.latest.dom().contains(key)
            &&& after.latest[key] >= slot
            &&& model.latest.dom().contains(key) ==> after.latest[key] >= model.latest[key]
            &&& after.latest[key] == slot || (model.latest.dom().contains(key)
                && after.latest[key] == model.latest[key])
            &&& other != key ==> {
                &&& after.latest.dom().contains(other) <==> model.latest.dom().contains(other)
                &&& model.latest.dom().contains(other) ==> after.latest[other]
                    == model.latest[other]
            }
        }),
{
}

/// A reply for a slot that is not committed is counted for that slot and no other. With it the
/// slot is committed exactly if the count reaches the threshold. Then nothing is kept of the
/// slot; otherwise the states are kept of those of its transactions that it did not commit. The
/// states of other slots stay as they are.
pub proof fn law_reply_counts_for_its_slot(
    model: ReplyModel,
    threshold: usize,
    slot: u64,
    key: [u8; 32],
    ids: Seq<u64>,
    now: u128,
    other: u64,
    id: u64,
)
    requires
        !model.committed.contains(slot),
    ensures
        ({
            let (after, committed) = after_reply(model, threshold, slot, key, ids, now);
            let counted = if model.counts.dom().contains(slot) {
                model.counts[slot] + 1
            } else {
                1
            };
            let (states, _) = after_confirmations(
                states_in(model.states, slot),
                ids,
                threshold,
                now,
            );
            &&& counted >= threshold ==> {
                &&& !after.counts.dom().contains(slot)
                &&& !after.states.dom().contains(slot)
            }
            &&& counted < threshold ==> {
                &&& after.counts.dom().contains(slot)
                &&& after.counts[slot] == counted
                &&& !after.committed.contains(slot)
                &&& after.states.dom().contains(slot) ==> (after.states[slot].dom().contains(id)
                    <==> states.dom().contains(id) && !committed.contains(id))
                &&& !after.states.dom().contains(slot) ==> (states.dom().contains(id)
                    ==> committed.contains(id))
                &&& after.states.dom().contains(slot) && after.states[slot].dom().contains(id)
                    ==> after.states[slot][id] == states[id]
            }
            &&& other != slot ==> {
                &&& after.counts.dom().contains(other) <==> model.counts.dom().contains(other)
                &&& model.counts.dom().contains(other) ==> after.counts[other]
                    == model.counts[other]
                &&& after.states.dom().contains(other) <==> model.states.dom().contains(other)
                &&& model.states.dom().contains(other) ==> after.states[other]
                    == model.states[other]
                &&& after.committed.contains(other) ==> model.committed.contains(other)
            }
        }),
{
    let (states, committed) = after_confirmations(states_in(model.states, slot), ids, threshold, now);
    let left = states.remove_keys(committed.to_set());
    if left.dom() == Set::<u64>::empty() {
        assert(!left.dom().contains(id));
    }
}

/// After a reply, exactly those committed slots are kept, among them the slot of the reply where
/// it reached the threshold, that are not below the lowest of the workers' latest slots.
pub proof fn law_kept_after_reply(
    model: ReplyModel,
    threshold: usize,
    slot: u64,
    key: [u8; 32],
    ids: Seq<u64>,
    now: u128,
    lowest: [u8; 32],
    other: u64,
)
    requires
        !model.committed.contains(slot),
        ({
            let latest = after_reply(model, threshold, slot, key, ids, now).0.latest;
            &&& latest.dom().contains(lowest)
            &&& forall|worker: [u8; 32]|
                latest.dom().contains(worker) ==> latest[lowest] <= #[trigger] latest[worker]
        }),
    ensures
        ({
            let after = after_reply(model, threshold, slot, key, ids, now).0;
            let reached = count_in(model.counts, slot) + 1 >= threshold;
            after.committed.contains(other) <==> (model.committed.contains(other) || (other == slot
                && reached)) && other >= after.latest[lowest]
        }),
{
    let after = after_reply(model, threshold, slot, key, ids, now).0;
    assert(is_lowest(after.latest[lowest], after.latest));
    lemma_lowest_unique(after.latest[lowest], after.latest);
}

/// The watermark is the lowest of the workers' latest slots.
pub proof fn law_watermark(slot: u64, latest: Map<[u8; 32], u64>)
    ensures
        is_lowest(slot, latest) <==> {
            &&& exists|worker: [u8; 32]|
                latest.dom().contains(worker) && #[trigger] latest[worker] == slot
            &&& forall|worker: [u8; 32]|
                latest.dom().contains(worker) ==> slot <= #[trigger] latest[worker]
        },
{
}

/// The transactions that a reply gives back, in order: each time that it names one, that one is
/// given back exactly if the confirmations from before and those in the reply up to there reach
/// the threshold.
pub proof fn law_given_back_in_order(
    states: Map<u64, TransactionState>,
    ids: Seq<u64>,
    threshold: usize,
    now: u128,
)
    requires
        forall|id: u64| #[trigger]
            states.dom().contains(id) ==> 1 <= states[id].confirmations < threshold,
        has_room(threshold, ids),
    ensures
        after_confirmations(states, ids, threshold, now).1 == positions_below(ids.len()).filter_map(
            |i: int|
                if confirmations_up_to(states, ids, i) >= threshold {
                    Some(ids[i])
                } else {
                    None
                },
        ),
{
    lemma_given_back(states, ids, threshold, now, ids.len());
    assert(ids.take(ids.len() as int) =~= ids);
}

/// The confirmations of the transaction at a position, from before and in the reply up to there.
pub open spec fn confirmations_up_to(
    states: Map<u64, TransactionState>,
    ids: Seq<u64>,
    i: int,
) -> int {
    ids.take(i + 1).to_multiset().count(ids[i]) + (if states.dom().contains(ids[i]) {
        states[ids[i]].confirmations as int
    } else {
        0
    })
}

proof fn lemma_occurrences_count(ids: Seq<u64>, id: u64)
    ensures
        occurrences(ids, id) == ids.to_multiset().count(id),
    decreases ids.len(),
{
    broadcast use vstd::multiset::group_multiset_axioms;
    broadcast use vstd::seq_lib::group_to_multiset_ensures;

    if ids.len() > 0 {
        lemma_occurrences_count(ids.drop_last(), id);
        assert(ids =~= ids.drop_last().push(ids.last()));
    } else {
        assert(ids =~= Seq::<u64>::empty());
    }
}

proof fn lemma_given_back(
    states: Map<u64, TransactionState>,
    ids: Seq<u64>,
    threshold: usize,
    now: u128,
    n: nat,
)
    requires
        forall|id: u64| #[trigger]
            states.dom().contains(id) ==> 1 <= states[id].confirmations < threshold,
        has_room(threshold, ids),
        n <= ids.len(),
    ensures
        after_confirmations(states, ids.take(n as int), threshold, now).1 == positions_below(
            n,
        ).filter_map(
            |i: int|
                if confirmations_up_to(states, ids, i) >= threshold {
                    Some(ids[i])
                } else {
                    None
                },
        ),
    decreases n,
{
    let given = |i: int|
        if confirmations_up_to(states, ids, i) >= threshold {
            Some(ids[i])
        } else {
            None
        };
    if n > 0 {
        let m = n - 1;
        let id = ids[m];
        lemma_given_back(states, ids, threshold, now, m as nat);
        lemma_positions_below(n);
        assert(ids.take(n as int).drop_last() =~= ids.take(m));
        assert(ids.take(n as int).last() == id);
        lemma_room(states, ids, threshold, id);
        lemma_fewer_occurrences(ids, n as int, id);
        law_committed_at_threshold(states, ids.take(m), threshold, now, id);
        lemma_occurrences_count(ids.take(n as int), id);
    }
    assert(after_confirmations(states, ids.take(n as int), threshold, now).1 =~= positions_below(
        n,
    ).filter_map(given));
}

/// What a reply does to a transaction of its slot. One that it names gets one confirmation for
/// each time; the time of its first confirmation is kept, or is now where there was none; and it
/// is marked as committed, now, exactly if it reaches the threshold. One that it does not name
/// stays as it is.
pub proof fn law_confirmed_transaction(
    states: Map<u64, TransactionState>,
    ids: Seq<u64>,
    threshold: usize,
    now: u128,
    id: u64,
)
    requires
        states.dom().contains(id) ==> 1 <= states[id].confirmations < threshold
            && !states[id].is_committed,
        (if states.dom().contains(id) {
            states[id].confirmations as int
        } else {
            0
        }) + ids.to_multiset().count(id) <= usize::MAX,
    ensures
        ({
            let (after, committed) = after_confirmations(states, ids, threshold, now);
            let before = if states.dom().contains(id) {
                states[id].confirmations as int
            } else {
                0
            };
            let total = before + ids.to_multiset().count(id);
            if ids.contains(id) {
                &&& after.dom().contains(id)
                &&& after[id].confirmations == total
                &&& after[id].first_confirmation_time == (if states.dom().contains(id)
                    && states[id].first_confirmation_time is Some {
                    states[id].first_confirmation_time
                } else {
                    Some(now)
                })
                &&& after[id].is_committed <==> total >= threshold
                &&& total >= threshold ==> after[id].commit_time == Some(now)
                &&& total < threshold ==> after[id].commit_time == (if states.dom().contains(id) {
                    states[id].commit_time
                } else {
                    None
                })
                &&& committed.contains(id) <==> total >= threshold
            } else {
                &&& after.dom().contains(id) <==> states.dom().contains(id)
                &&& states.dom().contains(id) ==> after[id] == states[id]
                &&& !committed.contains(id)
            }
        }),
    decreases ids.len(),
{
    lemma_occurrences_count(ids, id);
    lemma_occurrences(ids, id);
    law_committed_at_threshold(states, ids, threshold, now, id);
    lemma_marked(states, ids, threshold, now, id);
    if ids.len() > 0 {
        let head = ids.drop_last();
        lemma_occurrences_count(head, id);
        lemma_occurrences(head, id);
        law_confirmed_transaction(states, head, threshold, now, id);
        lemma_push_contains(head, ids.last());
        assert(ids =~= head.push(ids.last()));
    }
}

/// What is known after a run of replies, from what was known before.
pub open spec fn known_from(model: ReplyModel, threshold: usize, replies: Seq<ReplyEvent>) -> ReplyModel
    decreases replies.len(),
{
    if replies.len() == 0 {
        model
    } else {
        let reply = replies.last();
        after_reply(
            known_from(model, threshold, replies.drop_last()),
            threshold,
            reply.slot,
            reply.key,
            reply.ids,
            reply.now,
        ).0
    }
}

/// How often the replies for a slot name a transaction.
pub open spec fn times_named(replies: Seq<ReplyEvent>, slot: u64, id: u64) -> nat {
    replies.filter_map(
        |reply: ReplyEvent|
            if reply.slot == slot {
                Some(reply.ids)
            } else {
                None
            },
    ).flatten().to_multiset().count(id)
}

proof fn lemma_times_named(replies: Seq<ReplyEvent>, slot: u64, id: u64)
    ensures
        times_named(replies, slot, id) == namings(replies, slot, id),
    decreases replies.len(),
{
    broadcast use vstd::multiset::group_multiset_axioms;
    broadcast use vstd::seq_lib::group_to_multiset_ensures;

    let for_slot = |reply: ReplyEvent|
        if reply.slot == slot {
            Some(reply.ids)
        } else {
            None
        };
    if replies.len() > 0 {
        let head = replies.drop_last();
        lemma_times_named(head, slot, id);
        let before = head.filter_map(for_slot);
        if replies.last().slot == slot {
            let ids = replies.last().ids;
            before.lemma_flatten_push(ids);
            assert(before + seq![ids] =~= before.push(ids));
            vstd::seq_lib::lemma_multiset_commutative(before.flatten(), ids);
            lemma_occurrences_count(ids, id);
        }
    }
}

/// A transaction is given back for a slot only by a reply for that slot that names it, and only
/// if the replies for the slot have named it as often as the threshold since nothing was counted
/// for the slot. With the law on committed slots this bounds what any later reply can commit.
pub proof fn law_given_back_only_at_threshold(
    model: ReplyModel,
    threshold: usize,
    replies: Seq<ReplyEvent>,
    id: u64,
)
    requires
        consistent(model.states, model.counts, model.committed, threshold),
        countable(threshold, replies),
        replies.len() > 0,
        !model.states.dom().contains(replies.last().slot),
        ({
            let reply = replies.last();
            after_reply(
                known_from(model, threshold, replies.drop_last()),
                threshold,
                reply.slot,
                reply.key,
                reply.ids,
                reply.now,
            ).1.contains(id)
        }),
    ensures
        replies.last().ids.contains(id),
        times_named(replies, replies.last().slot, id) >= threshold,
{
    let head = replies.drop_last();
    let reply = replies.last();
    assert(replies[replies.len() - 1] == reply);
    assert(countable(threshold, head)) by {
        assert forall|i: int| 0 <= i < head.len() implies has_room(
            threshold,
            (#[trigger] head[i]).ids,
        ) by {
            assert(head[i] == replies[i]);
        }
    }
    lemma_confirmations_bounded(model, threshold, head, reply.slot, id);
    let before = known_from(model, threshold, head);
    let states = states_in(before.states, reply.slot);
    assert forall|x: u64| #[trigger] states.dom().contains(x) implies 1 <= states[x].confirmations
        < threshold by {
        assert(before.states[reply.slot].dom().contains(x));
    }
    lemma_room(states, reply.ids, threshold, id);
    lemma_occurrences(reply.ids, id);
    law_committed_at_threshold(states, reply.ids, threshold, reply.now, id);
    lemma_times_named(replies, reply.slot, id);
}

/// What is known stays consistent over a run of replies, and a transaction never has more
/// confirmations than it was named.
proof fn lemma_confirmations_bounded(
    model: ReplyModel,
    threshold: usize,
    replies: Seq<ReplyEvent>,
    slot: u64,
    id: u64,
)
    requires
        consistent(model.states, model.counts, model.committed, threshold),
        countable(threshold, replies),
        !model.states.dom().contains(slot),
    ensures
        ({
            let after = known_from(model, threshold, replies);
            &&& consistent(after.states, after.counts, after.committed, threshold)
            &&& state_in(states_in(after.states, slot), id).confirmations <= namings(
                replies,
                slot,
                id,
            )
        }),
    decreases replies.len(),
{
    if replies.len() > 0 {
        let head = replies.drop_last();
        let last = replies.last();
        assert(replies[replies.len() - 1] == last);
        assert(countable(threshold, head)) by {
            assert forall|i: int| 0 <= i < head.len() implies has_room(
                threshold,
                (#[trigger] head[i]).ids,
            ) by {
                assert(head[i] == replies[i]);
            }
        }
        lemma_confirmations_bounded(model, threshold, head, slot, id);
        let before = known_from(model, threshold, head);
        let after = known_from(model, threshold, replies);
        if !before.committed.contains(last.slot) {
            let states = states_in(before.states, last.slot);
            assert forall|x: u64| #[trigger] states.dom().contains(x) implies 1
                <= states[x].confirmations < threshold && !states[x].is_committed by {
                assert(before.states[last.slot].dom().contains(x));
            }
            lemma_unfinished(states, last.ids, threshold, last.now);
            let (confirmed_states, committed) = after_confirmations(
                states,
                last.ids,
                threshold,
                last.now,
            );
            assert forall|s: u64, x: u64|
                after.states.dom().contains(s) && #[trigger] after.states[s].dom().contains(
                    x,
                ) implies 1 <= after.states[s][x].confirmations < threshold
                && !after.states[s][x].is_committed by {
                if s == last.slot {
                    assert(confirmed_states.dom().contains(x));
                } else {
                    assert(before.states[s].dom().contains(x));
                }
            }
            if last.slot == slot {
                lemma_room(states, last.ids, threshold, id);
                law_committed_at_threshold(states, last.ids, threshold, last.now, id);
            }
        }
    }
}

/// The transactions that are counted are those that are kept, each in its slot.
pub proof fn law_counted_transactions(states: SlotStates, slot: u64, id: u64)
    ensures
        known_pairs(states).contains((slot, id)) <==> states.dom().contains(slot)
            && states[slot].dom().contains(id),
{
}

/// A cleanup keeps exactly the transactions that are not committed or were committed after the
/// limit, as they are, and keeps no slot without any.
pub proof fn law_cleanup(states: SlotStates, cutoff: int, slot: u64, id: u64)
    ensures
        ({
            let after = without_old(states, cutoff);
            &&& (after.dom().contains(slot) && after[slot].dom().contains(id)) <==> {
                &&& states.dom().contains(slot)
                &&& states[slot].dom().contains(id)
                &&& !states[slot][id].is_committed || states[slot][id].commit_time is None || (
                states[slot][id].commit_time->0) > cutoff
            }
            &&& after.dom().contains(slot) && after[slot].dom().contains(id) ==> after[slot][id]
                == states[slot][id]
            &&& after.dom().contains(slot) ==> exists|some: u64| after[slot].dom().contains(some)
        }),
{
    let after = without_old(states, cutoff);
    if after.dom().contains(slot) {
        let some = choose|some: u64| recent(states[slot], cutoff).dom().contains(some);
        assert(after[slot].dom().contains(some));
    }
    if states.dom().contains(slot) && recent(states[slot], cutoff).dom().contains(id) {
        assert(after.dom().contains(slot));
    }
}

/// A reply can be counted exactly if it names no transaction twice, or there is room for all that
/// it names beside the threshold.
pub proof fn law_room(threshold: usize, ids: Seq<u64>)
    ensures
        has_room(threshold, ids) <==> threshold + ids.len() <= usize::MAX || (forall|i: int, j: int|
            0 <= i < j < ids.len() ==> #[trigger] ids[i] != #[trigger] ids[j]),
{
    if forall|i: int, j: int| 0 <= i < j < ids.len() ==> #[trigger] ids[i] != #[trigger] ids[j] {
        assert(ids.no_duplicates());
    }
}

/// Of a transaction that was never named nothing is known: it has no confirmation and is not
/// committed, at no time.
pub proof fn law_fresh_state()
    ensures
        fresh_state().confirmations == 0,
        fresh_state().first_confirmation_time is None,
        fresh_state().commit_time is None,
        !fresh_state().is_committed,
{
}

/// A committed slot is forgotten exactly if every worker that was heard of has reached a slot above
/// it, and there is at least one.
pub proof fn law_forgotten_slots(committed: Set<u64>, latest: Map<[u8; 32], u64>, slot: u64)
    requires
        latest.dom().finite(),
    ensures
        kept_slots(committed, latest).contains(slot) <==> committed.contains(slot) && (
        latest.dom().is_empty() || exists|worker: [u8; 32]|
            latest.dom().contains(worker) && #[trigger] latest[worker] <= slot),
{
    if exists|watermark: u64| #[trigger] is_lowest(watermark, latest) {
        let watermark = choose|watermark: u64| #[trigger] is_lowest(watermark, latest);
        law_kept_from_watermark(committed, latest, watermark);
        law_watermark(watermark, latest);
    } else if !latest.dom().is_empty() {
        let lowest = lemma_lowest_exists(latest, latest.dom());
        assert(is_lowest(latest[lowest], latest));
    }
}

proof fn lemma_lowest_exists(latest: Map<[u8; 32], u64>, workers: Set<[u8; 32]>) -> (lowest: [u8; 32])
    requires
        workers.finite(),
        !workers.is_empty(),
    ensures
        workers.contains(lowest),
        forall|worker: [u8; 32]| #[trigger]
            workers.contains(worker) ==> latest[lowest] <= latest[worker],
    decreases workers.len(),
{
    let worker = workers.choose();
    let rest = workers.remove(worker);
    if rest.is_empty() {
        assert forall|other: [u8; 32]| #[trigger] workers.contains(other) implies latest[worker]
            <= latest[other] by {
            assert(!rest.contains(other));
        }
        worker
    } else {
        let lowest = lemma_lowest_exists(latest, rest);
        let found = if latest[worker] < latest[lowest] {
            worker
        } else {
            lowest
        };
        assert forall|other: [u8; 32]| #[trigger] workers.contains(other) implies latest[found]
            <= latest[other] by {
            if other != worker {
                assert(rest.contains(other));
            }
        }
        found
    }
}

} // verus!
