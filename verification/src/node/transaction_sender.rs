//! Which transactions a client sends, to whom, and when it sends one again.
use crate::buffer::{buffered, freeze, put_u64, put_u8};
use crate::chance::{random_below, random_bytes, random_word};
use crate::clock::span_nanos;
use crate::keys::ClientId;
use crate::maps::{lemma_positions_below, positions_below};
use crate::node::client::ClientParameters;
use crate::wire::{
    big_endian, law_big_endian_word, lemma_big_endian_roundtrip, lemma_byte_limits,
};
use bytes::BytesMut;
use std::collections::{HashMap, HashSet};
use std::time::Duration;
use vstd::prelude::*;

verus! {

/// How many bursts of transactions there are in a second.
pub const PRECISION: u64 = 20;

/// The time between two bursts in milliseconds.
pub const BURST_DURATION: u64 = 50;

/// The number of sample transactions per burst.
pub const SAMPLES_PER_BURST: u64 = 100;

/// The length of the part of a transaction that is not padding: one byte for its kind, one for
/// the client, and eight for its number.
pub const MIN_TRANSACTION_SIZE: usize = 10;

/// Why a client cannot send.
#[derive(Clone, Copy, Debug, PartialEq, Eq, Structural)]
pub enum SendError {
    /// The configured size leaves no room for the head of a transaction.
    TransactionTooSmall,
    /// No worker accepted a connection.
    NoWorkers,
}

impl SendError {
    /// The error in words.
    pub fn message(&self) -> (text: &'static str)
        ensures
            text@ == (match *self {
                SendError::TransactionTooSmall => "Transaction size must be at least 10 bytes"@,
                SendError::NoWorkers => "No workers available for connection"@,
            }),
    {
        match self {
            SendError::TransactionTooSmall => "Transaction size must be at least 10 bytes",
            SendError::NoWorkers => "No workers available for connection",
        }
    }
}

/// The number of transactions in a burst.
pub open spec fn burst_size(rate: u64) -> u64 {
    (rate / 20) as u64
}

/// Every how many transactions of a burst there is a sample. Where a burst holds fewer than
/// there are to be samples, every transaction is one.
pub open spec fn sample_interval(rate: u64) -> u64 {
    if burst_size(rate) / 100 == 0 {
        1
    } else {
        (burst_size(rate) / 100) as u64
    }
}

/// The number of a sample: how many transactions the bursts before it and its own burst hold
/// before it.
pub open spec fn sample_id(burst: u64, counter: u64, position: u64) -> int {
    counter * burst + position
}

/// Where the sender stands in its sequence of transactions.
#[derive(Clone, Copy, Debug, PartialEq, Eq, Structural)]
pub struct SendState {
    /// The number of bursts that are complete.
    pub counter: u64,
    /// The number of transactions of the current burst that have been planned.
    pub position: u64,
    /// The number of the last standard transaction.
    pub last_id: u64,
}

/// Whether every number that the next step from `state` computes is a `u64`.
pub open spec fn step_fits(rate: u64, state: SendState) -> bool {
    if state.position >= burst_size(rate) {
        state.counter < u64::MAX
    } else if state.position as int % sample_interval(rate) as int == 0 {
        sample_id(burst_size(rate), state.counter, state.position) <= u64::MAX
    } else {
        state.last_id < u64::MAX
    }
}

/// The next transaction of the current burst and the state after it. At the end of the burst
/// there is none, and the next burst begins.
pub open spec fn step_from(rate: u64, state: SendState) -> (Option<PlannedTransaction>, SendState) {
    if state.position >= burst_size(rate) {
        (
            None,
            SendState {
                counter: (state.counter + 1) as u64,
                position: 0,
                last_id: state.last_id,
            },
        )
    } else if state.position as int % sample_interval(rate) as int == 0 {
        (
            Some(
                PlannedTransaction {
                    id: sample_id(burst_size(rate), state.counter, state.position) as u64,
                    is_sample: true,
                },
            ),
            SendState { position: (state.position + 1) as u64, ..state },
        )
    } else {
        (
            Some(PlannedTransaction { id: (state.last_id + 1) as u64, is_sample: false }),
            SendState {
                counter: state.counter,
                position: (state.position + 1) as u64,
                last_id: (state.last_id + 1) as u64,
            },
        )
    }
}

/// A transaction that is to be sent.
#[derive(Clone, Copy, Debug, PartialEq, Eq, Structural)]
pub struct PlannedTransaction {
    /// The number by which replies and acknowledgements name it.
    pub id: u64,
    /// Whether it is a sample.
    pub is_sample: bool,
}

/// What follows an attempt to send a transaction.
#[derive(Clone, Copy, Debug, PartialEq, Eq, Structural)]
pub enum AfterSend {
    /// Wait for an early acknowledgement, and send again where none comes in time.
    ScheduleTimeout,
    /// Go on with the next transaction.
    Continue,
    /// Stop sending.
    Stop,
}

/// The first ten bytes of a transaction.
pub open spec fn transaction_head(client_id: ClientId, transaction: PlannedTransaction) -> Seq<u8> {
    seq![
        if transaction.is_sample {
            0u8
        } else {
            1u8
        },
        client_id,
    ] + big_endian(transaction.id as nat, 8)
}

/// Decides what a client sends and to which workers.
pub struct TransactionSender<A> {
    /// The unique identifier for this client.
    pub client_id: ClientId,
    /// List of worker addresses to send transactions to.
    pub worker_addresses: Vec<A>,
    /// Configuration parameters for transaction sending.
    pub parameters: ClientParameters,
}

/// The positions of the workers that a client sends to: the one with the client's own number,
/// and those that follow it round the list.
pub open spec fn selected_positions(client_id: ClientId, wanted: int, available: int) -> Seq<int> {
    if available == 0 {
        Seq::empty()
    } else if wanted >= available {
        Seq::new(available as nat, |i: int| i)
    } else {
        Seq::new(
            (if wanted == 0 {
                1
            } else {
                wanted as nat
            }),
            |i: int| (client_id as int % available + i) % available,
        )
    }
}

/// The positions at which `connected` holds, in order.
pub open spec fn successes(connected: Seq<bool>) -> Seq<usize>
    decreases connected.len(),
{
    if connected.len() == 0 {
        Seq::empty()
    } else if connected.last() {
        successes(connected.drop_last()).push((connected.len() - 1) as usize)
    } else {
        successes(connected.drop_last())
    }
}

impl<A: Copy> TransactionSender<A> {
    /// The addresses at the selected positions.
    pub open spec fn selection(&self) -> Seq<A> {
        selected_positions(
            self.client_id,
            self.parameters.worker_count as int,
            self.worker_addresses@.len() as int,
        ).map_values(|i: int| self.worker_addresses@[i])
    }

    /// Select workers to send transactions to, based on the worker_count parameter.
    /// Uses same-ID mapping for primary worker, then round-robin for additional workers.
    pub fn select_workers(&self) -> (selected: Vec<A>)
        ensures
            selected@ == self.selection(),
    {
        let mut selected: Vec<A> = Vec::new();
        let total = self.worker_addresses.len();
        let wanted = self.parameters.worker_count;
        if total == 0 {
            assert(selected@ =~= self.selection());
            return selected;
        }
        if wanted >= total {
            for i in 0..total
                invariant
                    total == self.worker_addresses@.len(),
                    selected@ == self.worker_addresses@.take(i as int),
            {
                selected.push(self.worker_addresses[i]);
                assert(self.worker_addresses@.take(i + 1) =~= self.worker_addresses@.take(
                    i as int,
                ).push(self.worker_addresses@[i as int]));
            }
            assert(selected@ =~= self.selection());
            return selected;
        }
        let first: usize = self.client_id as usize % total;
        selected.push(self.worker_addresses[first]);
        proof {
            vstd::arithmetic::div_mod::lemma_small_mod(first as nat, total as nat);
        }
        let mut i: usize = 1;
        while i < wanted
            invariant
                1 <= i,
                wanted > 0 ==> i <= wanted,
                wanted == 0 ==> i == 1,
                wanted < total,
                total == self.worker_addresses@.len(),
                first == self.client_id as int % total as int,
                selected@.len() == i,
                forall|j: int|
                    0 <= j < i ==> selected@[j] == #[trigger] self.worker_addresses@[(first + j)
                        % total as int],
            decreases wanted - i,
        {
            let index: usize = if i < total - first {
                first + i
            } else {
                i - (total - first)
            };
            proof {
                if i < total - first {
                    vstd::arithmetic::div_mod::lemma_small_mod((first + i) as nat, total as nat);
                } else {
                    vstd::arithmetic::div_mod::lemma_mod_add_multiples_vanish(
                        index as int,
                        total as int,
                    );
                    vstd::arithmetic::div_mod::lemma_small_mod(index as nat, total as nat);
                }
                assert(index == (first + i) % total as int);
            }
            selected.push(self.worker_addresses[index]);
            i += 1;
        }
        assert(selected@ =~= self.selection());
        selected
    }

    /// Checks the configuration and picks the workers to connect to.
    pub fn prepare(&self) -> (result: Result<Vec<A>, SendError>)
        ensures
            match result {
                Ok(selected) => self.parameters.transaction_size >= 10 && selected@
                    == self.selection(),
                Err(error) => self.parameters.transaction_size < 10 && error
                    == SendError::TransactionTooSmall,
            },
    {
        if self.parameters.transaction_size < MIN_TRANSACTION_SIZE {
            return Err(SendError::TransactionTooSmall);
        }
        Ok(self.select_workers())
    }

    /// The number of transactions in a burst.
    pub fn burst(&self) -> (burst: u64)
        ensures
            burst == burst_size(self.parameters.transaction_rate),
    {
        self.parameters.transaction_rate / PRECISION
    }

    /// Every how many transactions of a burst there is a sample.
    pub fn interval(&self) -> (interval: u64)
        ensures
            interval == sample_interval(self.parameters.transaction_rate),
            interval > 0,
    {
        let interval: u64 = self.burst() / SAMPLES_PER_BURST;
        if interval == 0 {
            1
        } else {
            interval
        }
    }

    /// Whether the sender can take its next step from `state`: every number that the step
    /// computes is a `u64`.
    pub open spec fn can_step(&self, state: SendState) -> bool {
        step_fits(self.parameters.transaction_rate, state)
    }

    /// Whether the sender can take its next step from `state`.
    pub fn step_possible(&self, state: &SendState) -> (possible: bool)
        ensures
            possible == self.can_step(*state),
    {
        let burst = self.burst();
        if state.position >= burst {
            return state.counter < u64::MAX;
        }
        if state.position % self.interval() != 0 {
            return state.last_id < u64::MAX;
        }
        match state.counter.checked_mul(burst) {
            Some(before) => before.checked_add(state.position).is_some(),
            None => false,
        }
    }

    /// The state from which a client starts: no transaction has been planned, and the numbers
    /// of standard transactions follow a random one.
    pub fn start() -> (state: SendState)
        ensures
            state.counter == 0,
            state.position == 0,
    {
        Self::start_from(random_word())
    }

    /// The state from which a client starts whose standard transactions are numbered from the
    /// one after `last_id` on.
    pub fn start_from(last_id: u64) -> (state: SendState)
        ensures
            state == (SendState { counter: 0, position: 0, last_id }),
    {
        SendState { counter: 0, position: 0, last_id }
    }

    /// The next transaction of the current burst. At the end of the burst there is none, and
    /// the next burst begins.
    pub fn next_transaction(&self, state: &mut SendState) -> (planned: Option<PlannedTransaction>)
        requires
            self.can_step(*old(state)),
        ensures
            (planned, *final(state)) == step_from(self.parameters.transaction_rate, *old(state)),
    {
        let burst = self.burst();
        if state.position < burst {
            let interval: u64 = self.interval();
            if state.position % interval == 0 {
                proof {
                    assert(state.counter * burst <= sample_id(burst, state.counter, state.position));
                }
                let id: u64 = state.counter * burst + state.position;
                state.position = state.position + 1;
                Some(PlannedTransaction { id, is_sample: true })
            } else {
                state.last_id = state.last_id + 1;
                state.position = state.position + 1;
                Some(PlannedTransaction { id: state.last_id, is_sample: false })
            }
        } else {
            state.counter = state.counter + 1;
            state.position = 0;
            None
        }
    }

    /// The bytes of a transaction: its head, and then `padding` up to the configured size.
    pub fn build_transaction(&self, transaction: PlannedTransaction, padding: &Vec<u8>) -> (bytes:
        Vec<u8>)
        requires
            10 <= self.parameters.transaction_size <= isize::MAX,
            padding@.len() == self.parameters.transaction_size - 10,
        ensures
            bytes@ == transaction_head(self.client_id, transaction) + padding@,
            bytes@.len() == self.parameters.transaction_size,
    {
        proof {
            lemma_byte_limits();
            lemma_big_endian_roundtrip(transaction.id as nat, 8);
        }
        let mut buffer = BytesMut::with_capacity(self.parameters.transaction_size);
        put_u8(
            &mut buffer,
            if transaction.is_sample {
                0u8
            } else {
                1u8
            },
        );
        put_u8(&mut buffer, self.client_id);
        put_u64(&mut buffer, transaction.id);
        assert(buffered(buffer) =~= transaction_head(self.client_id, transaction));
        if buffer.len() < self.parameters.transaction_size {
            buffer.extend_from_slice(padding.as_slice());
        }
        assert(buffered(buffer) =~= transaction_head(self.client_id, transaction) + padding@);
        freeze(buffer)
    }

    /// The bytes of a transaction, padded with random bytes up to the configured size.
    pub fn fresh_transaction(&self, transaction: PlannedTransaction) -> (bytes: Vec<u8>)
        requires
            10 <= self.parameters.transaction_size <= isize::MAX,
        ensures
            bytes@.len() == self.parameters.transaction_size,
            bytes@.take(10) == transaction_head(self.client_id, transaction),
    {
        let padding = random_bytes(self.parameters.transaction_size - MIN_TRANSACTION_SIZE);
        let bytes = self.build_transaction(transaction, &padding);
        proof {
            lemma_byte_limits();
            lemma_big_endian_roundtrip(transaction.id as nat, 8);
            assert(bytes@.take(10) =~= transaction_head(self.client_id, transaction));
        }
        bytes
    }

    /// Whether unacknowledged transactions are sent again.
    pub fn timeouts_enabled(&self) -> (enabled: bool)
        ensures
            enabled == (self.parameters.transaction_timeout > 0),
    {
        self.parameters.transaction_timeout > 0
    }

    /// What follows an attempt to send a transaction to the primary worker.
    pub fn after_send(&self, sent: bool) -> (next: AfterSend)
        ensures
            next == (if !sent {
                AfterSend::Stop
            } else if self.parameters.transaction_timeout > 0 {
                AfterSend::ScheduleTimeout
            } else {
                AfterSend::Continue
            }),
    {
        if !sent {
            AfterSend::Stop
        } else if self.timeouts_enabled() {
            AfterSend::ScheduleTimeout
        } else {
            AfterSend::Continue
        }
    }

    /// Whether the configured duration is over. A duration of zero never is.
    pub fn duration_over(&self, elapsed: Duration) -> (over: bool)
        ensures
            over == (0 < span_nanos(self.parameters.duration) <= span_nanos(elapsed)),
    {
        let limit = self.parameters.duration.as_nanos();
        limit > 0 && elapsed.as_nanos() >= limit
    }

    /// Whether a burst took longer than the time between two bursts.
    pub fn rate_too_high(&self, elapsed_ms: u128) -> (late: bool)
        ensures
            late == (elapsed_ms > BURST_DURATION),
            late <==> elapsed_ms > 50,
    {
        elapsed_ms > BURST_DURATION as u128
    }

    /// To how many workers besides the primary one a transaction is sent again at most.
    pub fn max_retry_workers(&self) -> (count: usize)
        ensures
            count == (if self.parameters.worker_count == 0 {
                0
            } else {
                self.parameters.worker_count - 1
            }),
    {
        if self.parameters.worker_count == 0 {
            0
        } else {
            self.parameters.worker_count - 1
        }
    }
}

/// Decides which of the connections is for sending and which are for sending again:
/// `connected` says of each selected worker whether it accepted a connection. The first that
/// did becomes the primary worker, and the others that did, in order, the fallbacks.
pub fn assign_connections(connected: &Vec<bool>) -> (result: Result<(usize, Vec<usize>), SendError>)
    ensures
        match result {
            Ok((primary, fallbacks)) => successes(connected@) == seq![primary] + fallbacks@,
            Err(error) => successes(connected@).len() == 0 && error == SendError::NoWorkers,
        },
{
    let mut primary: Option<usize> = None;
    let mut fallbacks: Vec<usize> = Vec::new();
    for i in 0..connected.len()
        invariant
            match primary {
                Some(p) => successes(connected@.take(i as int)) == seq![p] + fallbacks@,
                None => successes(connected@.take(i as int)).len() == 0 && fallbacks@.len() == 0,
            },
    {
        let ghost found = fallbacks@;
        assert(connected@.take(i + 1).drop_last() =~= connected@.take(i as int));
        if connected[i] {
            match primary {
                Some(p) => {
                    fallbacks.push(i);
                    assert((seq![p] + found).push(i) =~= seq![p] + fallbacks@);
                },
                None => {
                    primary = Some(i);
                    assert(successes(connected@.take(i + 1)) =~= seq![i] + fallbacks@);
                },
            }
        }
    }
    assert(connected@.take(connected@.len() as int) =~= connected@);
    match primary {
        Some(p) => Ok((p, fallbacks)),
        None => Err(SendError::NoWorkers),
    }
}

/// What a retry queue holds of a transaction that was sent and not yet acknowledged. `K` is the
/// handle by which its timer can be stopped.
pub struct PendingTransaction<K> {
    /// The bytes to send again.
    pub tx_bytes: Vec<u8>,
    /// The handle of the timer.
    pub delay_key: K,
}

/// To which of the retry connections a transaction is sent again.
#[derive(Clone, Copy, Debug, PartialEq, Eq, Structural)]
pub enum RetryPlan {
    /// To none.
    Nowhere,
    /// To the one at this position.
    Single(usize),
    /// To this many, from the first on.
    First(usize),
}

/// The transactions that wait for an early acknowledgement.
pub struct RetryQueue<K> {
    /// The transactions whose timers run.
    pub pending: HashMap<u64, PendingTransaction<K>>,
    /// The transactions that were acknowledged before they were scheduled.
    pub cancelled_before_insert: HashSet<u64>,
    /// Whether nothing more will be scheduled or acknowledged.
    pub rx_closed: bool,
}

/// The waiting transactions, the early acknowledgements and the timers to stop after the
/// acknowledgements `ids` were taken one after the other.
pub open spec fn after_cancel<K>(
    pending: Map<u64, PendingTransaction<K>>,
    early: Set<u64>,
    ids: Seq<u64>,
) -> (Map<u64, PendingTransaction<K>>, Set<u64>, Seq<K>)
    decreases ids.len(),
{
    if ids.len() == 0 {
        (pending, early, Seq::empty())
    } else {
        let (waiting, acknowledged, stopped) = after_cancel(pending, early, ids.drop_last());
        let id = ids.last();
        if waiting.dom().contains(id) {
            (waiting.remove(id), acknowledged, stopped.push(waiting[id].delay_key))
        } else {
            (waiting, acknowledged.insert(id), stopped)
        }
    }
}

/// What happens to a retry queue.
pub enum QueueEvent<K> {
    /// A transaction was sent; its timer is started if it has to wait.
    Sent(u64, PendingTransaction<K>),
    /// Transactions were acknowledged.
    Acknowledged(Seq<u64>),
    /// The timer of a transaction ended.
    Expired(u64),
}

/// What waits and what was acknowledged early after an event.
pub open spec fn queue_after<K>(
    pending: Map<u64, PendingTransaction<K>>,
    early: Set<u64>,
    event: QueueEvent<K>,
) -> (Map<u64, PendingTransaction<K>>, Set<u64>) {
    match event {
        QueueEvent::Sent(id, transaction) => (
            if early.contains(id) || pending.dom().contains(id) {
                pending
            } else {
                pending.insert(id, transaction)
            },
            early.remove(id),
        ),
        QueueEvent::Acknowledged(ids) => {
            let (waiting, acknowledged, _) = after_cancel(pending, early, ids);
            (waiting, acknowledged)
        },
        QueueEvent::Expired(id) => (pending.remove(id), early),
    }
}

impl<K> RetryQueue<K> {
    /// No transaction is both waiting and acknowledged.
    pub open spec fn wf(&self) -> bool {
        self.pending@.dom().disjoint(self.cancelled_before_insert@)
    }

    /// A queue in which nothing waits.
    pub fn new() -> (queue: Self)
        ensures
            queue.wf(),
            queue.pending@ == Map::<u64, PendingTransaction<K>>::empty(),
            queue.cancelled_before_insert@ == Set::<u64>::empty(),
            !queue.rx_closed,
    {
        broadcast use vstd::std_specs::hash::group_hash_axioms;
        RetryQueue {
            pending: HashMap::new(),
            cancelled_before_insert: HashSet::new(),
            rx_closed: false,
        }
    }

    /// Takes a batch of acknowledgements. Gives back the handles of the timers that are to be
    /// stopped.
    pub fn cancel(&mut self, tx_ids: &Vec<u64>) -> (stopped: Vec<K>)
        requires
            old(self).wf(),
        ensures
            final(self).wf(),
            (final(self).pending@, final(self).cancelled_before_insert@, stopped@) == after_cancel(
                old(self).pending@,
                old(self).cancelled_before_insert@,
                tx_ids@,
            ),
            (final(self).pending@, final(self).cancelled_before_insert@) == queue_after(
                old(self).pending@,
                old(self).cancelled_before_insert@,
                QueueEvent::Acknowledged(tx_ids@),
            ),
            final(self).rx_closed == old(self).rx_closed,
    {
        broadcast use vstd::std_specs::hash::group_hash_axioms;
        let mut stopped: Vec<K> = Vec::new();
        let ghost pending = self.pending@;
        let ghost early = self.cancelled_before_insert@;
        let ghost closed = self.rx_closed;
        assert(tx_ids@.take(0) =~= Seq::<u64>::empty());
        for i in 0..tx_ids.len()
            invariant
                self.wf(),
                self.rx_closed == closed,
                (self.pending@, self.cancelled_before_insert@, stopped@) == after_cancel(
                    pending,
                    early,
                    tx_ids@.take(i as int),
                ),
        {
            broadcast use vstd::std_specs::hash::group_hash_axioms;
            assert(tx_ids@.take(i + 1).drop_last() =~= tx_ids@.take(i as int));
            let id: u64 = tx_ids[i];
            match self.pending.remove(&id) {
                Some(transaction) => {
                    stopped.push(transaction.delay_key);
                },
                None => {
                    self.cancelled_before_insert.insert(id);
                },
            }
        }
        assert(tx_ids@.take(tx_ids@.len() as int) =~= tx_ids@);
        stopped
    }

    /// Decides whether a transaction that was sent has to wait: not if it was acknowledged
    /// already, and not if it waits already. An acknowledgement counts once.
    pub fn schedule(&mut self, tx_id: u64) -> (waits: bool)
        requires
            old(self).wf(),
        ensures
            final(self).wf(),
            waits == (!old(self).cancelled_before_insert@.contains(tx_id) && !old(
                self,
            ).pending@.dom().contains(tx_id)),
            final(self).pending@ == old(self).pending@,
            final(self).cancelled_before_insert@ == old(self).cancelled_before_insert@.remove(
                tx_id,
            ),
            final(self).rx_closed == old(self).rx_closed,
            forall|transaction: PendingTransaction<K>| #[trigger]
                queue_after(
                    old(self).pending@,
                    old(self).cancelled_before_insert@,
                    QueueEvent::Sent(tx_id, transaction),
                ) == (
                    if waits {
                        final(self).pending@.insert(tx_id, transaction)
                    } else {
                        final(self).pending@
                    },
                    final(self).cancelled_before_insert@,
                ),
    {
        broadcast use vstd::std_specs::hash::group_hash_axioms;
        if self.cancelled_before_insert.remove(&tx_id) {
            return false;
        }
        assert(self.cancelled_before_insert@ =~= old(self).cancelled_before_insert@.remove(tx_id));
        !self.pending.contains_key(&tx_id)
    }

    /// Lets a transaction wait whose timer has been started.
    pub fn insert(&mut self, tx_id: u64, tx_bytes: Vec<u8>, delay_key: K)
        requires
            old(self).wf(),
            !old(self).cancelled_before_insert@.contains(tx_id),
            !old(self).pending@.dom().contains(tx_id),
        ensures
            final(self).wf(),
            final(self).pending@ == old(self).pending@.insert(
                tx_id,
                (PendingTransaction { tx_bytes, delay_key }),
            ),
            final(self).cancelled_before_insert@ == old(self).cancelled_before_insert@,
            final(self).rx_closed == old(self).rx_closed,
    {
        broadcast use vstd::std_specs::hash::group_hash_axioms;
        self.pending.insert(tx_id, PendingTransaction { tx_bytes, delay_key });
    }

    /// Takes the end of the messages: nothing more will be scheduled or acknowledged.
    pub fn close(&mut self)
        ensures
            *final(self) == (RetryQueue { rx_closed: true, ..*old(self) }),
    {
        self.rx_closed = true;
    }

    /// Takes the end of a timer. Gives back the bytes to send again, where the transaction
    /// still waits; it does not wait any longer.
    pub fn expire(&mut self, tx_id: u64) -> (tx_bytes: Option<Vec<u8>>)
        requires
            old(self).wf(),
        ensures
            final(self).wf(),
            tx_bytes == (if old(self).pending@.dom().contains(tx_id) {
                Some(old(self).pending@[tx_id].tx_bytes)
            } else {
                None
            }),
            final(self).pending@ == old(self).pending@.remove(tx_id),
            final(self).cancelled_before_insert@ == old(self).cancelled_before_insert@,
            (final(self).pending@, final(self).cancelled_before_insert@) == queue_after(
                old(self).pending@,
                old(self).cancelled_before_insert@,
                QueueEvent::<K>::Expired(tx_id),
            ),
            final(self).rx_closed == old(self).rx_closed,
    {
        broadcast use vstd::std_specs::hash::group_hash_axioms;
        match self.pending.remove(&tx_id) {
            Some(transaction) => Some(transaction.tx_bytes),
            None => {
                assert(self.pending@ =~= old(self).pending@.remove(tx_id));
                None
            },
        }
    }

    /// Whether there is nothing left to do: no message comes any more and no timer runs.
    pub open spec fn is_finished(&self, timers: nat) -> bool {
        self.rx_closed && timers == 0
    }

    /// Whether there is nothing left to do, given the number of timers that run.
    pub fn finished(&self, timers: usize) -> (done: bool)
        ensures
            done == self.is_finished(timers as nat),
            done && timers == self.pending@.dom().len() ==> self.pending@ == Map::<
                u64,
                PendingTransaction<K>,
            >::empty(),
    {
        broadcast use vstd::std_specs::hash::group_hash_axioms;
        proof {
            if timers == 0 && self.pending@.dom().len() == 0 {
                assert(self.pending@.dom() =~= Set::<u64>::empty());
                assert(self.pending@ =~= Map::<u64, PendingTransaction<K>>::empty());
            }
        }
        self.rx_closed && timers == 0
    }
}

/// To which of `transports` connections a transaction is sent again when at most
/// `max_retry_workers` of them may be used: to the first ones, or, where one is to be used out
/// of several, to the one at position `choice`.
pub open spec fn retry_plan(transports: usize, max_retry_workers: usize, choice: usize) -> RetryPlan {
    if transports == 0 || max_retry_workers == 0 {
        RetryPlan::Nowhere
    } else if max_retry_workers == 1 && transports > 1 {
        RetryPlan::Single(choice)
    } else if transports <= max_retry_workers {
        RetryPlan::First(transports)
    } else {
        RetryPlan::First(max_retry_workers)
    }
}

/// Decides to which connections a transaction is sent again, given the position to use where
/// one is to be picked.
pub fn plan_retry(transports: usize, max_retry_workers: usize, choice: usize) -> (plan: RetryPlan)
    ensures
        plan == retry_plan(transports, max_retry_workers, choice),
{
    let count: usize = if transports <= max_retry_workers {
        transports
    } else {
        max_retry_workers
    };
    if count == 0 {
        RetryPlan::Nowhere
    } else if count == 1 && transports > 1 {
        RetryPlan::Single(choice)
    } else {
        RetryPlan::First(count)
    }
}

/// Decides to which connections a transaction is sent again; where one is to be picked, it is
/// picked at random.
pub fn choose_retry(transports: usize, max_retry_workers: usize) -> (plan: RetryPlan)
    ensures
        exists|choice: usize|
            (transports > 0 ==> choice < transports) && plan == #[trigger] retry_plan(
                transports,
                max_retry_workers,
                choice,
            ),
{
    let choice: usize = if max_retry_workers == 1 && transports > 1 {
        random_below(transports)
    } else {
        0
    };
    plan_retry(transports, max_retry_workers, choice)
}

impl RetryPlan {
    /// Whether the plan uses the connection at a position.
    pub open spec fn uses(self, position: int) -> bool {
        match self {
            RetryPlan::Nowhere => false,
            RetryPlan::Single(index) => position == index,
            RetryPlan::First(count) => 0 <= position < count,
        }
    }

    /// The position of the first connection that the plan uses, and how many it uses from there
    /// on.
    pub fn span(&self) -> (span: (usize, usize))
        ensures
            forall|position: int| #[trigger]
                self.uses(position) <==> span.0 <= position < span.0 + span.1,
            span.0 == (match *self {
                RetryPlan::Single(index) => index,
                _ => 0,
            }),
    {
        match self {
            RetryPlan::Nowhere => (0, 0),
            RetryPlan::Single(index) => (*index, 1),
            RetryPlan::First(count) => (0, *count),
        }
    }

    /// Whether the plan uses only connections that exist, and `sent` has one outcome for each
    /// connection that it uses.
    pub open spec fn answered_by(self, transports: nat, sent: Seq<bool>) -> bool {
        match self {
            RetryPlan::Nowhere => sent.len() == 0,
            RetryPlan::Single(index) => index < transports && sent.len() == 1,
            RetryPlan::First(count) => count <= transports && sent.len() == count,
        }
    }

    /// Whether the plan uses the connection at a position, and sending there failed.
    pub open spec fn failed_at(self, sent: Seq<bool>, position: int) -> bool {
        match self {
            RetryPlan::Nowhere => false,
            RetryPlan::Single(index) => position == index && !sent[0],
            RetryPlan::First(count) => 0 <= position < count && !sent[position],
        }
    }
}

/// What is left of `items`, in order, without those at which sending failed.
pub open spec fn survivors<T>(items: Seq<T>, plan: RetryPlan, sent: Seq<bool>) -> Seq<T>
    decreases items.len(),
{
    if items.len() == 0 {
        Seq::empty()
    } else {
        let before = survivors(items.drop_last(), plan, sent);
        if plan.failed_at(sent, items.len() - 1) {
            before
        } else {
            before.push(items.last())
        }
    }
}

/// Drops the connections over which sending again failed. `sent` says of each connection of
/// the plan, in order, whether sending succeeded.
pub fn drop_failed<T>(transports: &mut Vec<T>, plan: RetryPlan, sent: &Vec<bool>)
    requires
        plan.answered_by(old(transports)@.len(), sent@),
    ensures
        final(transports)@ == survivors(old(transports)@, plan, sent@),
{
    let ghost items = transports@;
    let total = transports.len();
    let mut kept: usize = 0;
    let mut position: usize = 0;
    proof {
        assert(items.take(0) =~= Seq::<T>::empty());
        assert(items.skip(0) =~= items);
        assert(survivors(items.take(0), plan, sent@) + items.skip(0) =~= items);
    }
    while position < total
        invariant
            plan.answered_by(items.len(), sent@),
            total == items.len(),
            kept <= position <= total,
            kept == survivors(items.take(position as int), plan, sent@).len(),
            transports@ == survivors(items.take(position as int), plan, sent@) + items.skip(
                position as int,
            ),
        decreases total - position,
    {
        let ghost done = survivors(items.take(position as int), plan, sent@);
        assert(items.take(position + 1).drop_last() =~= items.take(position as int));
        assert(items.take(position + 1).last() == items[position as int]);
        let failed = match plan {
            RetryPlan::Nowhere => false,
            RetryPlan::Single(index) => position == index && !sent[0],
            RetryPlan::First(count) => position < count && !sent[position],
        };
        if failed {
            let gone = transports.remove(kept);
            assert(transports@ =~= done + items.skip(position + 1));
        } else {
            kept = kept + 1;
            assert(transports@ =~= done.push(items[position as int]) + items.skip(position + 1));
        }
        position = position + 1;
    }
    assert(items.take(total as int) =~= items);
    assert(transports@ =~= survivors(items, plan, sent@));
}

/// Two samples of a client that have the same number are the same sample.
pub proof fn law_sample_ids_unique(
    burst: u64,
    counter_a: u64,
    position_a: u64,
    counter_b: u64,
    position_b: u64,
)
    requires
        position_a < burst,
        position_b < burst,
        sample_id(burst, counter_a, position_a) == sample_id(burst, counter_b, position_b),
    ensures
        counter_a == counter_b,
        position_a == position_b,
{
    vstd::arithmetic::div_mod::lemma_fundamental_div_mod_converse(
        counter_a * burst + position_a,
        burst as int,
        counter_a as int,
        position_a as int,
    );
    vstd::arithmetic::div_mod::lemma_fundamental_div_mod_converse(
        counter_b * burst + position_b,
        burst as int,
        counter_b as int,
        position_b as int,
    );
}

/// The transactions of `n` steps from `state`, and the state after them.
pub open spec fn steps_from(rate: u64, state: SendState, n: nat) -> (
    Seq<Option<PlannedTransaction>>,
    SendState,
)
    decreases n,
{
    if n == 0 {
        (Seq::empty(), state)
    } else {
        let (planned, before) = steps_from(rate, state, (n - 1) as nat);
        let (next, after) = step_from(rate, before);
        (planned.push(next), after)
    }
}

/// From the start of a burst, whatever the rate, as many steps can be taken as the burst has
/// transactions, and each gives one. A transaction whose position is a multiple of the sample
/// interval is a sample, with the number of its position; the others are standard ones. After
/// them the burst is complete.
pub proof fn law_burst_is_sent(rate: u64, state: SendState, n: nat)
    requires
        state.position == 0,
        n <= burst_size(rate),
        (state.counter + 1) * burst_size(rate) <= u64::MAX,
        state.last_id + burst_size(rate) <= u64::MAX,
        state.counter < u64::MAX,
    ensures
        ({
            let (planned, after) = steps_from(rate, state, n);
            &&& planned.len() == n
            &&& forall|i: int|
                0 <= i < n ==> {
                    &&& (#[trigger] planned[i]) is Some
                    &&& (planned[i]->0).is_sample <==> i % sample_interval(rate) as int == 0
                    &&& (planned[i]->0).is_sample ==> (planned[i]->0).id == sample_id(
                        burst_size(rate),
                        state.counter,
                        i as u64,
                    )
                    &&& !(planned[i]->0).is_sample ==> state.last_id < (planned[i]->0).id
                        <= after.last_id
                }
            &&& after.counter == state.counter
            &&& after.position == n
            &&& state.last_id <= after.last_id <= state.last_id + n
            &&& step_fits(rate, after)
            &&& n == burst_size(rate) ==> step_from(rate, after).0 is None
        }),
    decreases n,
{
    let burst = burst_size(rate) as int;
    let counter = state.counter as int;
    assert((counter + 1) * burst == counter * burst + burst) by (nonlinear_arith);
    if n > 0 {
        law_burst_is_sent(rate, state, (n - 1) as nat);
    }
}

/// How many of the first `count` positions of a burst are samples.
pub open spec fn samples_before(interval: int, count: nat) -> nat
    decreases count,
{
    if count == 0 {
        0
    } else {
        let before = samples_before(interval, (count - 1) as nat);
        if (count - 1) % interval == 0 {
            before + 1
        } else {
            before
        }
    }
}

proof fn lemma_samples_before(interval: int, count: nat)
    requires
        interval > 0,
    ensures
        samples_before(interval, count) == (count + interval - 1) / interval,
    decreases count,
{
    if count > 0 {
        lemma_samples_before(interval, (count - 1) as nat);
        let quotient = (count - 1) / interval;
        let rest = (count - 1) % interval;
        vstd::arithmetic::div_mod::lemma_fundamental_div_mod(count - 1, interval);
        vstd::arithmetic::mul::lemma_mul_is_commutative(interval, quotient);
        vstd::arithmetic::mul::lemma_mul_is_distributive_add_other_way(interval, quotient, 1);
        vstd::arithmetic::div_mod::lemma_fundamental_div_mod_converse(
            count + interval - 1,
            interval,
            quotient + 1,
            rest,
        );
        if rest == 0 {
            vstd::arithmetic::div_mod::lemma_fundamental_div_mod_converse(
                count - 1 + interval - 1,
                interval,
                quotient,
                interval - 1,
            );
        } else {
            vstd::arithmetic::div_mod::lemma_fundamental_div_mod_converse(
                count - 1 + interval - 1,
                interval,
                quotient + 1,
                rest - 1,
            );
        }
    } else {
        vstd::arithmetic::div_mod::lemma_fundamental_div_mod_converse(
            interval - 1,
            interval,
            0,
            interval - 1,
        );
    }
}

/// A burst with room for them holds at least a hundred samples, and exactly a hundred where its
/// size is a multiple of a hundred. In a smaller burst every transaction is a sample.
pub proof fn law_samples_per_burst(rate: u64)
    ensures
        ({
            let burst = burst_size(rate) as nat;
            let samples = samples_before(sample_interval(rate) as int, burst);
            &&& burst < SAMPLES_PER_BURST ==> samples == burst
            &&& burst >= SAMPLES_PER_BURST ==> samples >= SAMPLES_PER_BURST
            &&& burst > 0 && burst % SAMPLES_PER_BURST as nat == 0 ==> samples
                == SAMPLES_PER_BURST
        }),
{
    let burst = burst_size(rate) as int;
    let interval = sample_interval(rate) as int;
    lemma_samples_before(interval, burst as nat);
    if burst >= 100 {
        assert(interval * 100 <= burst);
        assert((burst + interval - 1) / interval >= 100) by (nonlinear_arith)
            requires
                interval > 0,
                interval * 100 <= burst,
        ;
        if burst % 100 == 0 {
            vstd::arithmetic::div_mod::lemma_fundamental_div_mod_converse(
                burst + interval - 1,
                interval,
                100,
                interval - 1,
            );
        }
    }
}

/// Every selected position is that of a worker, none is selected twice, and a client gets at
/// least one worker where there is any.
pub proof fn law_selected_positions(client_id: ClientId, wanted: int, available: int)
    requires
        0 <= wanted,
        0 <= available,
    ensures
        ({
            let positions = selected_positions(client_id, wanted, available);
            &&& available > 0 ==> positions.len() > 0
            &&& positions.no_duplicates()
            &&& forall|i: int| 0 <= i < positions.len() ==> 0 <= #[trigger] positions[i] < available
        }),
{
    let positions = selected_positions(client_id, wanted, available);
    if available > 0 && wanted < available {
        let first = client_id as int % available;
        assert forall|i: int, j: int| 0 <= i < j < positions.len() implies #[trigger] positions[i]
            != #[trigger] positions[j] by {
            if (first + i) % available == (first + j) % available {
                vstd::arithmetic::div_mod::lemma_fundamental_div_mod(first + i, available);
                vstd::arithmetic::div_mod::lemma_fundamental_div_mod(first + j, available);
                let a = (first + i) / available;
                let b = (first + j) / available;
                assert(j - i == available * b - available * a);
                assert(false) by (nonlinear_arith)
                    requires
                        0 < j - i < available,
                        j - i == available * b - available * a,
                ;
            }
        }
    }
}

/// Where not all workers are selected, clients with different numbers below the number of
/// workers have different primary workers: each the one with its own number.
pub proof fn law_own_worker_first(client_id: ClientId, wanted: int, available: int)
    requires
        0 <= wanted < available,
        client_id < available,
    ensures
        selected_positions(client_id, wanted, available)[0] == client_id,
{
    vstd::arithmetic::div_mod::lemma_small_mod(client_id as nat, available as nat);
}

/// An acknowledged transaction does not wait any longer. One that did not wait yet is
/// remembered, so that it will not wait when it is scheduled. The others wait on unchanged.
pub proof fn law_acknowledged<K>(
    pending: Map<u64, PendingTransaction<K>>,
    early: Set<u64>,
    ids: Seq<u64>,
)
    ensures
        ({
            let (waiting, acknowledged, _) = after_cancel(pending, early, ids);
            &&& forall|id: u64| #[trigger]
                waiting.dom().contains(id) <==> pending.dom().contains(id) && !ids.contains(id)
            &&& forall|id: u64| #[trigger]
                waiting.dom().contains(id) ==> waiting[id] == pending[id]
            &&& forall|id: u64|
                ids.contains(id) && !pending.dom().contains(id) ==> #[trigger] acknowledged.contains(id)
            &&& early.subset_of(acknowledged)
        }),
    decreases ids.len(),
{
    if ids.len() > 0 {
        law_acknowledged(pending, early, ids.drop_last());
        assert(ids =~= ids.drop_last().push(ids.last()));
        assert forall|id: u64| ids.contains(id) <==> #[trigger] ids.drop_last().contains(id) || id
            == ids.last() by {
            if ids.contains(id) && id != ids.last() {
                let i = choose|i: int| 0 <= i < ids.len() && ids[i] == id;
                assert(ids.drop_last()[i] == id);
            }
            if ids.drop_last().contains(id) {
                let i = choose|i: int| 0 <= i < ids.len() - 1 && ids.drop_last()[i] == id;
                assert(ids[i] == id);
            }
            assert(ids[ids.len() - 1] == ids.last());
        }
        let (waiting, acknowledged, _) = after_cancel(pending, early, ids);
        let (waiting0, acknowledged0, _) = after_cancel(pending, early, ids.drop_last());
        assert forall|id: u64| #[trigger]
            waiting.dom().contains(id) <==> pending.dom().contains(id) && !ids.contains(id) by {
            assert(waiting0.dom().contains(id) <==> pending.dom().contains(id)
                && !ids.drop_last().contains(id));
        }
        assert forall|id: u64|
            ids.contains(id) && !pending.dom().contains(id) implies #[trigger] acknowledged.contains(
            id,
        ) by {
            assert(ids.drop_last().contains(id) || id == ids.last());
            assert(!waiting0.dom().contains(id));
            if ids.drop_last().contains(id) {
                assert(acknowledged0.contains(id));
            }
        }
    } else {
        assert forall|id: u64| !ids.contains(id) by {}
    }
}

/// A transaction is sent again over no more connections than allowed and existing, and over at
/// least one where that is possible.
pub proof fn law_retry_within_limit(transports: usize, max_retry_workers: usize, choice: usize)
    requires
        transports > 0 ==> choice < transports,
    ensures
        match retry_plan(transports, max_retry_workers, choice) {
            RetryPlan::Nowhere => transports == 0 || max_retry_workers == 0,
            RetryPlan::Single(index) => index < transports && max_retry_workers == 1,
            RetryPlan::First(count) => 0 < count <= transports && count <= max_retry_workers,
        },
{
}

/// What waits and what was acknowledged early after a history of events.
pub open spec fn queue_history<K>(
    pending: Map<u64, PendingTransaction<K>>,
    early: Set<u64>,
    events: Seq<QueueEvent<K>>,
) -> (Map<u64, PendingTransaction<K>>, Set<u64>)
    decreases events.len(),
{
    if events.len() == 0 {
        (pending, early)
    } else {
        let (waiting, acknowledged) = queue_history(pending, early, events.drop_last());
        queue_after(waiting, acknowledged, events.last())
    }
}

/// How often a transaction is sent again in a history of events.
pub open spec fn retries<K>(
    pending: Map<u64, PendingTransaction<K>>,
    early: Set<u64>,
    events: Seq<QueueEvent<K>>,
    id: u64,
) -> nat
    decreases events.len(),
{
    if events.len() == 0 {
        0
    } else {
        let before = retries(pending, early, events.drop_last(), id);
        let waiting = queue_history(pending, early, events.drop_last()).0;
        if events.last() == QueueEvent::<K>::Expired(id) && waiting.dom().contains(id) {
            before + 1
        } else {
            before
        }
    }
}

/// How often a transaction is first sent in a history of events.
pub open spec fn sendings<K>(events: Seq<QueueEvent<K>>, id: u64) -> nat
    decreases events.len(),
{
    if events.len() == 0 {
        0
    } else {
        let before = sendings(events.drop_last(), id);
        match events.last() {
            QueueEvent::Sent(sent, _) => if sent == id {
                before + 1
            } else {
                before
            },
            _ => before,
        }
    }
}

/// A transaction is sent again at most once for each time that it was first sent.
pub proof fn law_retried_at_most_once<K>(events: Seq<QueueEvent<K>>, id: u64)
    ensures
        retries(Map::<u64, PendingTransaction<K>>::empty(), Set::<u64>::empty(), events, id)
            <= sendings(events, id),
{
    lemma_retries(Map::<u64, PendingTransaction<K>>::empty(), Set::<u64>::empty(), events, id);
}

/// A transaction that was acknowledged is not sent again, unless it is first sent once more.
pub proof fn law_acknowledged_not_retried<K>(
    pending: Map<u64, PendingTransaction<K>>,
    early: Set<u64>,
    ids: Seq<u64>,
    events: Seq<QueueEvent<K>>,
    id: u64,
)
    requires
        ids.contains(id),
        sendings(events, id) == 0,
    ensures
        ({
            let (waiting, acknowledged) = queue_after(
                pending,
                early,
                QueueEvent::<K>::Acknowledged(ids),
            );
            retries(waiting, acknowledged, events, id) == 0
        }),
{
    law_acknowledged(pending, early, ids);
    let (waiting, acknowledged) = queue_after(pending, early, QueueEvent::<K>::Acknowledged(ids));
    assert(!waiting.dom().contains(id));
    lemma_retries(waiting, acknowledged, events, id);
}

/// A transaction that was acknowledged before it was known to be sent is not sent again either,
/// unless it is first sent once more.
pub proof fn law_early_acknowledgement_counts<K>(
    pending: Map<u64, PendingTransaction<K>>,
    early: Set<u64>,
    ids: Seq<u64>,
    transaction: PendingTransaction<K>,
    events: Seq<QueueEvent<K>>,
    id: u64,
)
    requires
        ids.contains(id),
        !pending.dom().contains(id),
        sendings(events, id) == 0,
    ensures
        ({
            let (waiting, acknowledged) = queue_after(
                pending,
                early,
                QueueEvent::<K>::Acknowledged(ids),
            );
            let (after, rest) = queue_after(
                waiting,
                acknowledged,
                QueueEvent::Sent(id, transaction),
            );
            retries(after, rest, events, id) == 0
        }),
{
    law_acknowledged(pending, early, ids);
    let (waiting, acknowledged) = queue_after(pending, early, QueueEvent::<K>::Acknowledged(ids));
    assert(acknowledged.contains(id));
    assert(!waiting.dom().contains(id));
    let (after, rest) = queue_after(waiting, acknowledged, QueueEvent::Sent(id, transaction));
    lemma_retries(after, rest, events, id);
}

proof fn lemma_retries<K>(
    pending: Map<u64, PendingTransaction<K>>,
    early: Set<u64>,
    events: Seq<QueueEvent<K>>,
    id: u64,
)
    ensures
        ({
            let waiting = queue_history(pending, early, events).0;
            retries(pending, early, events, id) + (if waiting.dom().contains(id) {
                1nat
            } else {
                0nat
            }) <= sendings(events, id) + (if pending.dom().contains(id) {
                1nat
            } else {
                0nat
            })
        }),
    decreases events.len(),
{
    if events.len() > 0 {
        lemma_retries(pending, early, events.drop_last(), id);
        let (waiting, acknowledged) = queue_history(pending, early, events.drop_last());
        match events.last() {
            QueueEvent::Acknowledged(ids) => {
                law_acknowledged(waiting, acknowledged, ids);
            },
            _ => {},
        }
    }
}

/// Whether an event acknowledges a transaction.
pub open spec fn acknowledges<K>(event: QueueEvent<K>, id: u64) -> bool {
    match event {
        QueueEvent::Acknowledged(ids) => ids.contains(id),
        _ => false,
    }
}

/// Whether an event sends a transaction for the first time.
pub open spec fn sends<K>(event: QueueEvent<K>, id: u64) -> bool {
    match event {
        QueueEvent::Sent(sent, _) => sent == id,
        _ => false,
    }
}

/// Whether no event acknowledges a transaction.
pub open spec fn unacknowledged<K>(events: Seq<QueueEvent<K>>, id: u64) -> bool {
    forall|i: int| 0 <= i < events.len() ==> !acknowledges(#[trigger] events[i], id)
}

/// Whether no event acknowledges a transaction before the end of a timer of it.
pub open spec fn not_acknowledged_in_time<K>(events: Seq<QueueEvent<K>>, id: u64) -> bool {
    forall|i: int|
        0 <= i < events.len() && acknowledges(#[trigger] events[i], id) ==> expires(
            events.take(i),
            id,
        )
}

/// Whether a transaction is not sent anew after the end of a timer of it.
pub open spec fn not_sent_after_expiry<K>(events: Seq<QueueEvent<K>>, id: u64) -> bool {
    forall|i: int, j: int|
        0 <= i < j < events.len() && #[trigger] events[i] == QueueEvent::<K>::Expired(id)
            ==> !sends(#[trigger] events[j], id)
}

/// Whether the timer of a transaction ends somewhere in the history.
pub open spec fn expires<K>(events: Seq<QueueEvent<K>>, id: u64) -> bool {
    exists|i: int|
        0 <= i < events.len() && #[trigger] events[i] == QueueEvent::<K>::Expired(id)
}

/// What an event that is no acknowledgement of a transaction does to it.
proof fn lemma_other_event<K>(
    pending: Map<u64, PendingTransaction<K>>,
    early: Set<u64>,
    event: QueueEvent<K>,
    id: u64,
)
    requires
        !acknowledges(event, id),
    ensures
        ({
            let (waiting, acknowledged) = queue_after(pending, early, event);
            &&& !early.contains(id) ==> !acknowledged.contains(id)
            &&& event != QueueEvent::<K>::Expired(id) && pending.dom().contains(id)
                ==> waiting.dom().contains(id) && waiting[id] == pending[id]
            &&& !sends(event, id) && !pending.dom().contains(id) ==> !waiting.dom().contains(id)
        }),
{
    match event {
        QueueEvent::Acknowledged(ids) => {
            law_acknowledged(pending, early, ids);
            lemma_early_only_named(pending, early, ids, id);
        },
        _ => {},
    }
}

proof fn lemma_early_only_named<K>(
    pending: Map<u64, PendingTransaction<K>>,
    early: Set<u64>,
    ids: Seq<u64>,
    id: u64,
)
    requires
        !ids.contains(id),
    ensures
        after_cancel(pending, early, ids).1.contains(id) ==> early.contains(id),
    decreases ids.len(),
{
    if ids.len() > 0 {
        let head = ids.drop_last();
        assert(ids[ids.len() - 1] != id);
        if head.contains(id) {
            let i = choose|i: int| 0 <= i < head.len() && head[i] == id;
            assert(ids[i] == id);
        }
        lemma_early_only_named(pending, early, head, id);
    }
}

proof fn lemma_unacknowledged_run<K>(
    pending: Map<u64, PendingTransaction<K>>,
    early: Set<u64>,
    events: Seq<QueueEvent<K>>,
    id: u64,
)
    requires
        !pending.dom().contains(id),
        !early.contains(id),
        not_acknowledged_in_time(events, id),
        not_sent_after_expiry(events, id),
    ensures
        ({
            let (waiting, acknowledged) = queue_history(pending, early, events);
            &&& !expires(events, id) ==> !acknowledged.contains(id)
            &&& waiting.dom().contains(id) <==> sendings(events, id) > 0 && !expires(events, id)
            &&& retries(pending, early, events, id) == (if sendings(events, id) > 0 && expires(
                events,
                id,
            ) {
                1nat
            } else {
                0nat
            })
        }),
    decreases events.len(),
{
    if events.len() > 0 {
        let head = events.drop_last();
        let event = events.last();
        let n = events.len() - 1;
        assert(events[n] == event);
        assert(events.take(n) =~= head);
        assert forall|i: int|
            0 <= i < head.len() && acknowledges(#[trigger] head[i], id) implies expires(
            head.take(i),
            id,
        ) by {
            assert(head[i] == events[i]);
            assert(head.take(i) =~= events.take(i));
        }
        assert forall|i: int, j: int|
            0 <= i < j < head.len() && #[trigger] head[i] == QueueEvent::<K>::Expired(
                id,
            ) implies !sends(#[trigger] head[j], id) by {
            assert(head[i] == events[i] && head[j] == events[j]);
        }
        lemma_unacknowledged_run(pending, early, head, id);
        let (waiting, acknowledged) = queue_history(pending, early, head);
        if acknowledges(event, id) {
            law_acknowledged(waiting, acknowledged, event->Acknowledged_0);
        } else {
            lemma_other_event(waiting, acknowledged, event, id);
        }
        if expires(head, id) {
            let i = choose|i: int|
                0 <= i < head.len() && #[trigger] head[i] == QueueEvent::<K>::Expired(id);
            assert(events[i] == QueueEvent::<K>::Expired(id));
            assert(!sends(events[n], id));
            assert(expires(events, id));
        } else if event == QueueEvent::<K>::Expired(id) {
            assert(expires(events, id));
        } else {
            if expires(events, id) {
                let i = choose|i: int|
                    0 <= i < events.len() && #[trigger] events[i] == QueueEvent::<K>::Expired(id);
                assert(head[i] == events[i]);
            }
        }
    }
}

/// A transaction that is sent, not acknowledged in time, and not sent anew after the end of its
/// timer has been sent again exactly once when it does not wait any longer.
pub proof fn law_unacknowledged_retried_exactly_once<K>(events: Seq<QueueEvent<K>>, id: u64)
    requires
        sendings(events, id) > 0,
        not_acknowledged_in_time(events, id),
        not_sent_after_expiry(events, id),
        !queue_history(
            Map::<u64, PendingTransaction<K>>::empty(),
            Set::<u64>::empty(),
            events,
        ).0.dom().contains(id),
    ensures
        retries(Map::<u64, PendingTransaction<K>>::empty(), Set::<u64>::empty(), events, id) == 1,
{
    lemma_unacknowledged_run(
        Map::<u64, PendingTransaction<K>>::empty(),
        Set::<u64>::empty(),
        events,
        id,
    );
}

/// How many timers run after a history of events, from none: one is started for each transaction
/// that has to wait, those of acknowledged transactions are stopped, and one is gone when it
/// ends.
pub open spec fn running_timers<K>(events: Seq<QueueEvent<K>>) -> int
    decreases events.len(),
{
    if events.len() == 0 {
        0
    } else {
        let before = running_timers(events.drop_last());
        let (pending, early) = queue_history(
            Map::<u64, PendingTransaction<K>>::empty(),
            Set::<u64>::empty(),
            events.drop_last(),
        );
        match events.last() {
            QueueEvent::Sent(id, _) => if early.contains(id) || pending.dom().contains(id) {
                before
            } else {
                before + 1
            },
            QueueEvent::Acknowledged(ids) => before - after_cancel(pending, early, ids).2.len(),
            QueueEvent::Expired(id) => if pending.dom().contains(id) {
                before - 1
            } else {
                before
            },
        }
    }
}

proof fn lemma_stopped_timers<K>(
    pending: Map<u64, PendingTransaction<K>>,
    early: Set<u64>,
    ids: Seq<u64>,
)
    requires
        pending.dom().finite(),
    ensures
        ({
            let (waiting, _, stopped) = after_cancel(pending, early, ids);
            &&& waiting.dom().finite()
            &&& waiting.dom().len() + stopped.len() == pending.dom().len()
        }),
    decreases ids.len(),
{
    if ids.len() > 0 {
        lemma_stopped_timers(pending, early, ids.drop_last());
    }
}

/// As many timers run as transactions wait.
pub proof fn law_one_timer_per_waiting<K>(events: Seq<QueueEvent<K>>)
    ensures
        ({
            let pending = queue_history(
                Map::<u64, PendingTransaction<K>>::empty(),
                Set::<u64>::empty(),
                events,
            ).0;
            &&& pending.dom().finite()
            &&& running_timers(events) == pending.dom().len()
        }),
    decreases events.len(),
{
    if events.len() > 0 {
        law_one_timer_per_waiting(events.drop_last());
        let (pending, early) = queue_history(
            Map::<u64, PendingTransaction<K>>::empty(),
            Set::<u64>::empty(),
            events.drop_last(),
        );
        match events.last() {
            QueueEvent::Acknowledged(ids) => {
                lemma_stopped_timers(pending, early, ids);
            },
            QueueEvent::Expired(id) => {
                if !pending.dom().contains(id) {
                    assert(pending.remove(id) =~= pending);
                }
            },
            _ => {},
        }
    }
}

/// A queue that is finished has nothing that waits, and every transaction that was sent, not
/// acknowledged in time, and not sent anew after the end of its timer has been sent again
/// exactly once.
pub proof fn law_all_retried_when_finished<K>(
    queue: RetryQueue<K>,
    events: Seq<QueueEvent<K>>,
    id: u64,
)
    requires
        (queue.pending@, queue.cancelled_before_insert@) == queue_history(
            Map::<u64, PendingTransaction<K>>::empty(),
            Set::<u64>::empty(),
            events,
        ),
        queue.is_finished(running_timers(events) as nat),
    ensures
        queue.pending@ == Map::<u64, PendingTransaction<K>>::empty(),
        sendings(events, id) > 0 && not_acknowledged_in_time(events, id) && not_sent_after_expiry(
            events,
            id,
        ) ==> retries(
            Map::<u64, PendingTransaction<K>>::empty(),
            Set::<u64>::empty(),
            events,
            id,
        ) == 1,
{
    law_one_timer_per_waiting(events);
    assert(queue.pending@.dom() =~= Set::<u64>::empty());
    assert(queue.pending@ =~= Map::<u64, PendingTransaction<K>>::empty());
    if sendings(events, id) > 0 && not_acknowledged_in_time(events, id) && not_sent_after_expiry(
        events,
        id,
    ) {
        law_unacknowledged_retried_exactly_once(events, id);
    }
}

/// A transaction that is sent when it neither waits nor was acknowledged, and whose timer then
/// ends with no acknowledgement and no other end of its timer in between, is sent again exactly
/// once, with the bytes with which it was first sent. Sending it anew in between changes
/// nothing.
pub proof fn law_expired_is_retried<K>(
    pending: Map<u64, PendingTransaction<K>>,
    early: Set<u64>,
    transaction: PendingTransaction<K>,
    between: Seq<QueueEvent<K>>,
    id: u64,
)
    requires
        !pending.dom().contains(id),
        !early.contains(id),
        unacknowledged(between, id),
        !expires(between, id),
    ensures
        ({
            let before = seq![QueueEvent::Sent(id, transaction)] + between;
            let waiting = queue_history(pending, early, before).0;
            &&& waiting.dom().contains(id)
            &&& waiting[id] == transaction
            &&& retries(pending, early, before.push(QueueEvent::<K>::Expired(id)), id) == 1
        }),
{
    let sent = seq![QueueEvent::Sent(id, transaction)];
    let before = sent + between;
    lemma_kept_waiting(pending, early, transaction, between, id);
    assert(before.push(QueueEvent::<K>::Expired(id)).drop_last() =~= before);
}

proof fn lemma_kept_waiting<K>(
    pending: Map<u64, PendingTransaction<K>>,
    early: Set<u64>,
    transaction: PendingTransaction<K>,
    between: Seq<QueueEvent<K>>,
    id: u64,
)
    requires
        !pending.dom().contains(id),
        !early.contains(id),
        unacknowledged(between, id),
        !expires(between, id),
    ensures
        ({
            let before = seq![QueueEvent::Sent(id, transaction)] + between;
            let waiting = queue_history(pending, early, before).0;
            &&& waiting.dom().contains(id)
            &&& waiting[id] == transaction
            &&& retries(pending, early, before, id) == 0
        }),
    decreases between.len(),
{
    let sent = seq![QueueEvent::Sent(id, transaction)];
    let before = sent + between;
    if between.len() == 0 {
        assert(before =~= sent);
        assert(sent.drop_last() =~= Seq::<QueueEvent<K>>::empty());
        assert(queue_history(pending, early, Seq::<QueueEvent<K>>::empty()) == (pending, early));
        assert(retries(pending, early, Seq::<QueueEvent<K>>::empty(), id) == 0);
    } else {
        let head = between.drop_last();
        let event = between.last();
        assert(between[between.len() - 1] == event);
        assert forall|i: int| 0 <= i < head.len() implies !acknowledges(#[trigger] head[i], id) by {
            assert(head[i] == between[i]);
        }
        if expires(head, id) {
            let i = choose|i: int|
                0 <= i < head.len() && #[trigger] head[i] == QueueEvent::<K>::Expired(id);
            assert(between[i] == QueueEvent::<K>::Expired(id));
        }
        lemma_kept_waiting(pending, early, transaction, head, id);
        assert(before.drop_last() =~= sent + head);
        assert(before.last() == event);
        let (waiting, acknowledged) = queue_history(pending, early, sent + head);
        lemma_other_event(waiting, acknowledged, event, id);
    }
}

/// Whether so many steps can be taken from a state that all numbers fit.
pub open spec fn steps_fit(rate: u64, state: SendState, n: nat) -> bool {
    let burst = rate as int / 20;
    &&& state.position <= burst
    &&& state.counter + n <= u64::MAX
    &&& state.last_id + n <= u64::MAX
    &&& (state.counter + n + 1) * burst <= u64::MAX
}

/// The numbers of the standard transactions among what is planned, in order.
pub open spec fn standard_numbers(planned: Seq<Option<PlannedTransaction>>) -> Seq<u64> {
    planned.filter_map(
        |next: Option<PlannedTransaction>|
            match next {
                Some(transaction) => if transaction.is_sample {
                    None
                } else {
                    Some(transaction.id)
                },
                None => None,
            },
    )
}

/// The standard transactions of a run are numbered one after the other: the first has the number
/// after the last one used, each next one the number after, and the last number used is kept. So
/// no two of them have the same number.
pub proof fn law_standard_numbers_follow_each_other(rate: u64, state: SendState, n: nat)
    requires
        steps_fit(rate, state, n),
    ensures
        ({
            let (planned, after) = steps_from(rate, state, n);
            let numbers = standard_numbers(planned);
            &&& forall|k: int|
                0 <= k < numbers.len() ==> #[trigger] numbers[k] == state.last_id + 1 + k
            &&& after.last_id == state.last_id + numbers.len()
            &&& numbers.len() <= n
        }),
    decreases n,
{
    if n > 0 {
        assert((state.counter + n) * (rate as int / 20) <= (state.counter + n + 1) * (rate as int
            / 20)) by (nonlinear_arith)
            requires
                rate as int / 20 >= 0,
        ;
        law_standard_numbers_follow_each_other(rate, state, (n - 1) as nat);
        let (planned, after) = steps_from(rate, state, n);
        let (earlier, before) = steps_from(rate, state, (n - 1) as nat);
        assert(planned.drop_last() =~= earlier);
        assert(planned.last() == step_from(rate, before).0);
    }
}

/// How far a sender is: it moves by one with each step, and a burst takes one step more than it
/// has transactions.
pub open spec fn progress(rate: u64, state: SendState) -> int {
    state.counter * (rate as int / 20 + 1) + state.position
}

/// Over a run, each step moves the sender on by one. A burst has a twentieth of the rate as many
/// transactions, and at its end there is one step without any. Within a burst, the transactions
/// at the multiples of a hundredth of its size, or all where that is less than one, are samples,
/// and a sample has the number of the transactions that come before it if all bursts are counted
/// from the start. So of two samples the later one has the larger number.
pub proof fn law_samples_of_a_run(rate: u64, state: SendState, n: nat)
    requires
        steps_fit(rate, state, n),
    ensures
        ({
            let burst = rate as int / 20;
            let interval = if burst / 100 == 0 {
                1
            } else {
                burst / 100
            };
            let (planned, after) = steps_from(rate, state, n);
            &&& planned.len() == n
            &&& after.position <= burst
            &&& progress(rate, after) == progress(rate, state) + n
            &&& state.counter <= after.counter <= state.counter + n
            &&& forall|i: int|
                0 <= i < n ==> {
                    let at = steps_from(rate, state, i as nat).1;
                    &&& (#[trigger] planned[i]) is None <==> at.position == burst
                    &&& planned[i] is Some ==> {
                        &&& (planned[i]->0).is_sample <==> at.position as int % interval == 0
                        &&& (planned[i]->0).is_sample ==> (planned[i]->0).id == at.counter * burst
                            + at.position
                        &&& (planned[i]->0).is_sample ==> (planned[i]->0).id < after.counter * burst
                            + after.position
                    }
                }
            &&& forall|i: int, j: int|
                0 <= i < j < n && (#[trigger] planned[i]) is Some && (#[trigger] planned[j]) is Some
                    && (planned[i]->0).is_sample && (planned[j]->0).is_sample ==> (planned[i]->0).id
                    < (planned[j]->0).id
        }),
    decreases n,
{
    let burst = rate as int / 20;
    if n > 0 {
        let m = (n - 1) as nat;
        assert((state.counter + n) * burst <= (state.counter + n + 1) * burst) by (nonlinear_arith)
            requires
                burst >= 0,
        ;
        law_samples_of_a_run(rate, state, m);
        let (earlier, before) = steps_from(rate, state, m);
        let (planned, after) = steps_from(rate, state, n);
        let counter = before.counter as int;
        assert(counter * burst + burst <= (state.counter + n + 1) * burst) by (nonlinear_arith)
            requires
                burst >= 0,
                counter <= state.counter + n - 1,
        ;
        assert((counter + 1) * burst == counter * burst + burst) by (nonlinear_arith);
        assert((counter + 1) * (burst + 1) == counter * (burst + 1) + burst + 1)
            by (nonlinear_arith);
        assert forall|i: int| 0 <= i < n implies {
            let at = steps_from(rate, state, i as nat).1;
            let interval = if burst / 100 == 0 {
                1
            } else {
                burst / 100
            };
            &&& (#[trigger] planned[i]) is None <==> at.position == burst
            &&& planned[i] is Some ==> {
                &&& (planned[i]->0).is_sample <==> at.position as int % interval == 0
                &&& (planned[i]->0).is_sample ==> (planned[i]->0).id == at.counter * burst
                    + at.position
                &&& (planned[i]->0).is_sample ==> (planned[i]->0).id < after.counter * burst
                    + after.position
            }
        } by {
            if i < m {
                assert(planned[i] == earlier[i]);
            } else {
                assert(planned[i] == step_from(rate, before).0);
            }
        }
        assert forall|i: int, j: int|
            0 <= i < j < n && (#[trigger] planned[i]) is Some && (#[trigger] planned[j]) is Some
                && (planned[i]->0).is_sample && (planned[j]->0).is_sample implies (planned[i]->0).id
            < (planned[j]->0).id by {
            assert(planned[i] == earlier[i]);
            if j < m {
                assert(planned[j] == earlier[j]);
            } else {
                assert(planned[j] == step_from(rate, before).0);
            }
        }
    }
}

/// A step is possible exactly if the number that it computes is a `u64`: at the end of a burst
/// that of the bursts, for a sample its own, for a standard transaction the one after the last.
pub proof fn law_step_fits(rate: u64, state: SendState)
    ensures
        ({
            let burst = rate as int / 20;
            let interval = if burst / 100 == 0 {
                1
            } else {
                burst / 100
            };
            step_fits(rate, state) <==> (if state.position >= burst {
                state.counter + 1 <= u64::MAX
            } else if state.position as int % interval == 0 {
                state.counter * burst + state.position <= u64::MAX
            } else {
                state.last_id + 1 <= u64::MAX
            })
        }),
{
}

/// A transaction starts with a byte that tells samples from standard ones, the client, and its
/// number in eight bytes, most significant first.
pub proof fn law_transaction_head_bytes(client_id: ClientId, transaction: PlannedTransaction)
    ensures
        ({
            let head = transaction_head(client_id, transaction);
            &&& head.len() == 10
            &&& head[0] == (if transaction.is_sample {
                0u8
            } else {
                1u8
            })
            &&& head[1] == client_id
            &&& transaction.id == head[2] * 0x100_0000_0000_0000 + head[3] * 0x1_0000_0000_0000
                + head[4] * 0x100_0000_0000 + head[5] * 0x1_0000_0000 + head[6] * 0x100_0000
                + head[7] * 0x1_0000 + head[8] * 0x100 + head[9]
        }),
{
    lemma_byte_limits();
    lemma_big_endian_roundtrip(transaction.id as nat, 8);
    law_big_endian_word(big_endian(transaction.id as nat, 8));
}

/// How many workers are selected, and which: all of them in their order where as many are wanted,
/// and otherwise as many as wanted, but at least one, from the one with the client's number on,
/// each followed by the next one round the list.
pub proof fn law_round_robin(client_id: ClientId, wanted: int, available: int)
    requires
        0 <= wanted,
        0 < available,
    ensures
        ({
            let positions = selected_positions(client_id, wanted, available);
            &&& wanted >= available ==> {
                &&& positions.len() == available
                &&& forall|i: int| 0 <= i < available ==> #[trigger] positions[i] == i
            }
            &&& wanted < available ==> {
                &&& positions.len() == (if wanted == 0 {
                    1
                } else {
                    wanted
                })
                &&& positions[0] == client_id as int % available
                &&& forall|i: int, j: int|
                    0 <= i && j == i + 1 && j < positions.len() ==> #[trigger] positions[j] == (if (
                    #[trigger] positions[i]) + 1 == available {
                        0
                    } else {
                        positions[i] + 1
                    })
            }
        }),
{
    let positions = selected_positions(client_id, wanted, available);
    if wanted < available {
        let first = client_id as int % available;
        vstd::arithmetic::div_mod::lemma_small_mod(first as nat, available as nat);
        assert forall|i: int, j: int| 0 <= i && j == i + 1 && j < positions.len() implies
            #[trigger] positions[j] == (if (#[trigger] positions[i]) + 1 == available {
            0
        } else {
            positions[i] + 1
        }) by {
            let x = first + i;
            let p = x % available;
            vstd::arithmetic::div_mod::lemma_fundamental_div_mod(x, available);
            if p + 1 == available {
                assert((x / available + 1) * available == available * (x / available) + available)
                    by (nonlinear_arith);
                vstd::arithmetic::div_mod::lemma_fundamental_div_mod_converse(
                    x + 1,
                    available,
                    x / available + 1,
                    0,
                );
            } else {
                assert((x / available) * available == available * (x / available))
                    by (nonlinear_arith);
                vstd::arithmetic::div_mod::lemma_fundamental_div_mod_converse(
                    x + 1,
                    available,
                    x / available,
                    p + 1,
                );
            }
        }
    }
}

/// No worker is selected where there is none.
pub proof fn law_no_workers(client_id: ClientId, wanted: int)
    ensures
        selected_positions(client_id, wanted, 0).len() == 0,
{
}

/// The connections that are used are exactly those that succeeded, once each and in order.
pub proof fn law_used_connections(connected: Seq<bool>)
    requires
        connected.len() <= usize::MAX,
    ensures
        successes(connected) == positions_below(connected.len()).filter_map(
            |i: int|
                if connected[i] {
                    Some(i as usize)
                } else {
                    None
                },
        ),
{
    lemma_used_connections(connected, connected.len());
    assert(connected.take(connected.len() as int) =~= connected);
}

proof fn lemma_used_connections(connected: Seq<bool>, n: nat)
    requires
        n <= connected.len(),
    ensures
        successes(connected.take(n as int)) == positions_below(n).filter_map(
            |i: int|
                if connected[i] {
                    Some(i as usize)
                } else {
                    None
                },
        ),
    decreases n,
{
    let used = |i: int|
        if connected[i] {
            Some(i as usize)
        } else {
            None
        };
    if n > 0 {
        lemma_used_connections(connected, (n - 1) as nat);
        lemma_positions_below(n);
        assert(connected.take(n as int).drop_last() =~= connected.take(n - 1));
    }
    assert(successes(connected.take(n as int)) =~= positions_below(n).filter_map(used));
}

/// Whether an acknowledgement is the first of its transaction in a batch of acknowledgements.
pub open spec fn named_first(ids: Seq<u64>, i: int) -> bool {
    forall|j: int| 0 <= j < i ==> #[trigger] ids[j] != ids[i]
}

/// A batch of acknowledgements stops the timers of exactly the waiting transactions that it names,
/// once each, in order. Remembered as acknowledged early are, besides what was before, exactly the
/// transactions that it names without their waiting, or more often than once.
pub proof fn law_stopped_timers<K>(
    pending: Map<u64, PendingTransaction<K>>,
    early: Set<u64>,
    ids: Seq<u64>,
)
    ensures
        ({
            let (_, acknowledged, stopped) = after_cancel(pending, early, ids);
            &&& stopped == positions_below(ids.len()).filter_map(
                |i: int|
                    if pending.dom().contains(ids[i]) && named_first(ids, i) {
                        Some(pending[ids[i]].delay_key)
                    } else {
                        None
                    },
            )
            &&& forall|id: u64| #[trigger]
                acknowledged.contains(id) <==> early.contains(id) || exists|i: int|
                    0 <= i < ids.len() && #[trigger] ids[i] == id && (!pending.dom().contains(id)
                        || !named_first(ids, i))
        }),
{
    lemma_cancelled(pending, early, ids, ids.len());
    assert(ids.take(ids.len() as int) =~= ids);
}

proof fn lemma_cancelled<K>(
    pending: Map<u64, PendingTransaction<K>>,
    early: Set<u64>,
    ids: Seq<u64>,
    n: nat,
)
    requires
        n <= ids.len(),
    ensures
        ({
            let (_, acknowledged, stopped) = after_cancel(pending, early, ids.take(n as int));
            &&& stopped == positions_below(n).filter_map(
                |i: int|
                    if pending.dom().contains(ids[i]) && named_first(ids, i) {
                        Some(pending[ids[i]].delay_key)
                    } else {
                        None
                    },
            )
            &&& forall|id: u64| #[trigger]
                acknowledged.contains(id) <==> early.contains(id) || exists|i: int|
                    0 <= i < n && #[trigger] ids[i] == id && (!pending.dom().contains(id)
                        || !named_first(ids, i))
        }),
    decreases n,
{
    let keys = |i: int|
        if pending.dom().contains(ids[i]) && named_first(ids, i) {
            Some(pending[ids[i]].delay_key)
        } else {
            None
        };
    let (_, acknowledged, stopped) = after_cancel(pending, early, ids.take(n as int));
    if n > 0 {
        let m = n - 1;
        lemma_cancelled(pending, early, ids, m as nat);
        lemma_positions_below(n);
        let head = ids.take(m);
        assert(ids.take(n as int).drop_last() =~= head);
        let (waiting, before, _) = after_cancel(pending, early, head);
        let id = ids[m];
        law_acknowledged(pending, early, head);
        assert(waiting.dom().contains(id) <==> pending.dom().contains(id) && !head.contains(id));
        assert(head.contains(id) <==> !named_first(ids, m)) by {
            if head.contains(id) {
                let j = choose|j: int| 0 <= j < head.len() && head[j] == id;
                assert(ids[j] == id);
            }
            if !named_first(ids, m) {
                let j = choose|j: int| 0 <= j < m && #[trigger] ids[j] == id;
                assert(head[j] == id);
            }
        }
        assert forall|x: u64| #[trigger] acknowledged.contains(x) <==> early.contains(x)
            || exists|i: int|
            0 <= i < n && #[trigger] ids[i] == x && (!pending.dom().contains(x) || !named_first(
                ids,
                i,
            )) by {
            if before.contains(x) && !early.contains(x) {
                let i = choose|i: int|
                    0 <= i < m && #[trigger] ids[i] == x && (!pending.dom().contains(x)
                        || !named_first(ids, i));
                assert(ids[i] == x);
            }
            if acknowledged.contains(x) && !before.contains(x) {
                assert(x == id);
                assert(ids[m] == x);
            }
        }
    }
    assert(stopped =~= positions_below(n).filter_map(keys));
}

/// What an event changes. A transaction that is sent waits from then on, with its own bytes,
/// unless it waits already or was acknowledged early; an early acknowledgement is used up by it. A
/// timer that ends takes its own transaction out. Nothing else changes, and acknowledgements
/// change nothing for transactions that they do not name.
pub proof fn law_queue_events<K>(
    pending: Map<u64, PendingTransaction<K>>,
    early: Set<u64>,
    id: u64,
    transaction: PendingTransaction<K>,
    other: u64,
)
    ensures
        ({
            let (waiting, acknowledged) = queue_after(
                pending,
                early,
                QueueEvent::Sent(id, transaction),
            );
            &&& waiting.dom().contains(id) <==> pending.dom().contains(id) || !early.contains(id)
            &&& pending.dom().contains(id) ==> waiting[id] == pending[id]
            &&& !pending.dom().contains(id) && !early.contains(id) ==> waiting[id] == transaction
            &&& !acknowledged.contains(id)
            &&& other != id ==> {
                &&& waiting.dom().contains(other) <==> pending.dom().contains(other)
                &&& pending.dom().contains(other) ==> waiting[other] == pending[other]
                &&& acknowledged.contains(other) <==> early.contains(other)
            }
        }),
        ({
            let (waiting, acknowledged) = queue_after(
                pending,
                early,
                QueueEvent::<K>::Expired(id),
            );
            &&& !waiting.dom().contains(id)
            &&& acknowledged == early
            &&& other != id ==> {
                &&& waiting.dom().contains(other) <==> pending.dom().contains(other)
                &&& pending.dom().contains(other) ==> waiting[other] == pending[other]
            }
        }),
{
}

/// A transaction is sent again over as many connections as there are and as may be used: over the
/// first ones, or, where one of several is to be used, over the chosen one.
pub proof fn law_retry_plan(transports: usize, max_retry_workers: usize, choice: usize)
    ensures
        ({
            let count = if transports <= max_retry_workers {
                transports
            } else {
                max_retry_workers
            };
            let plan = retry_plan(transports, max_retry_workers, choice);
            &&& count == 0 ==> plan == RetryPlan::Nowhere
            &&& count == 1 && transports > 1 ==> plan == RetryPlan::Single(choice)
            &&& count > 1 || (count == 1 && transports == 1) ==> plan == RetryPlan::First(count)
        }),
{
}

/// Of the connections, exactly those are dropped over which the plan sent and sending failed; the
/// others are kept, in order.
pub proof fn law_kept_connections<T>(items: Seq<T>, plan: RetryPlan, sent: Seq<bool>)
    requires
        plan.answered_by(items.len(), sent),
    ensures
        survivors(items, plan, sent) == positions_below(items.len()).filter_map(
            |i: int|
                if match plan {
                    RetryPlan::Nowhere => true,
                    RetryPlan::Single(index) => i != index || sent[0],
                    RetryPlan::First(count) => i >= count || sent[i],
                } {
                    Some(items[i])
                } else {
                    None
                },
        ),
        match plan {
            RetryPlan::Nowhere => sent.len() == 0,
            RetryPlan::Single(index) => sent.len() == 1,
            RetryPlan::First(count) => sent.len() == count,
        },
{
    lemma_kept_connections(items, plan, sent, items.len());
    assert(items.take(items.len() as int) =~= items);
}

proof fn lemma_kept_connections<T>(items: Seq<T>, plan: RetryPlan, sent: Seq<bool>, n: nat)
    requires
        n <= items.len(),
    ensures
        survivors(items.take(n as int), plan, sent) == positions_below(n).filter_map(
            |i: int|
                if match plan {
                    RetryPlan::Nowhere => true,
                    RetryPlan::Single(index) => i != index || sent[0],
                    RetryPlan::First(count) => i >= count || sent[i],
                } {
                    Some(items[i])
                } else {
                    None
                },
        ),
    decreases n,
{
    let kept = |i: int|
        if match plan {
            RetryPlan::Nowhere => true,
            RetryPlan::Single(index) => i != index || sent[0],
            RetryPlan::First(count) => i >= count || sent[i],
        } {
            Some(items[i])
        } else {
            None
        };
    if n > 0 {
        lemma_kept_connections(items, plan, sent, (n - 1) as nat);
        lemma_positions_below(n);
        assert(items.take(n as int).drop_last() =~= items.take(n - 1));
    }
    assert(survivors(items.take(n as int), plan, sent) =~= positions_below(n).filter_map(kept));
}

/// A client sends to the workers at the selected positions, in that order.
pub proof fn law_selected_addresses<A: Copy>(sender: TransactionSender<A>)
    ensures
        ({
            let positions = selected_positions(
                sender.client_id,
                sender.parameters.worker_count as int,
                sender.worker_addresses@.len() as int,
            );
            &&& sender.selection().len() == positions.len()
            &&& forall|i: int|
                0 <= i < positions.len() ==> #[trigger] sender.selection()[i]
                    == sender.worker_addresses@[positions[i]]
        }),
{
}

/// A queue is finished exactly if no message comes any more and no timer runs.
pub proof fn law_finished<K>(queue: RetryQueue<K>, timers: nat)
    ensures
        queue.is_finished(timers) <==> queue.rx_closed && timers == 0,
{
}

/// A sender can take its next step exactly if the number that it computes is a `u64`, at the rate
/// that its parameters give.
pub proof fn law_can_step<A: Copy>(sender: TransactionSender<A>, state: SendState)
    ensures
        ({
            let burst = sender.parameters.transaction_rate as int / 20;
            let interval = if burst < 100 {
                1
            } else {
                burst / 100
            };
            sender.can_step(state) <==> (if state.position >= burst {
                state.counter < u64::MAX
            } else if state.position as int % interval == 0 {
                state.counter * burst + state.position <= u64::MAX
            } else {
                state.last_id < u64::MAX
            })
        }),
{
    law_step_fits(sender.parameters.transaction_rate, state);
}

/// Over which connections a transaction is sent again: over all where there are no more than may be
/// used; otherwise, where one may be used, over the chosen one alone, and where several may, over
/// the first of them.
pub proof fn law_connections_of_a_retry(
    transports: usize,
    max_retry_workers: usize,
    choice: usize,
    position: int,
)
    ensures
        ({
            let used = retry_plan(transports, max_retry_workers, choice).uses(position);
            &&& transports <= max_retry_workers ==> (used <==> 0 <= position < transports)
            &&& transports > max_retry_workers && max_retry_workers == 1 ==> (used <==> position
                == choice)
            &&& transports > max_retry_workers && max_retry_workers != 1 ==> (used <==> 0
                <= position < max_retry_workers)
        }),
{
}

} // verus!
