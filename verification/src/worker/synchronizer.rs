//! Keeps a worker in sync with the others: which batches it asks for, whom, and when again.
use crate::keys::{
    authority_keys, digest_keys, entry_index, increasing_keys, keys_of_digests, lemma_one_position, position_of,
    sorted_authorities, Digest, KeyMap, PublicKey, Round, WorkerId,
};
use crate::maps::{lemma_positions_below, positions_below};
use crate::wire::{
    encoded_keys, law_encoded_keys, law_variant_bytes, lemma_encoded_keys_len,
    lemma_little_endian_len, little_endian, serialize_keys_and_key,
};
use crate::worker::asynchrony::{AsynchronyParameters, Fate, ReadOutcome};
use std::collections::VecDeque;
use vstd::prelude::*;

verus! {

/// Resolution of the timer managing retrials of sync requests (in ms).
pub const TIMER_RESOLUTION: u64 = 100;

/// The number of the variant of a worker message that asks for batches.
pub const BATCH_REQUEST: u32 = 1;

/// What a period of simulated asynchrony does to the synchronizer.
#[derive(Clone, Copy, Debug, PartialEq, Eq, Structural)]
pub enum AsyncEffectType {
    Off,
    TempBlip,
    Failure,
    Partition,
    Egress,
    Slowdown,
}

/// The number of the last effect.
pub const LAST_EFFECT: u8 = 5;

/// The effect with a given number.
pub open spec fn effect_of(v: u8) -> AsyncEffectType {
    if v == 0 {
        AsyncEffectType::Off
    } else if v == 1 {
        AsyncEffectType::TempBlip
    } else if v == 2 {
        AsyncEffectType::Failure
    } else if v == 3 {
        AsyncEffectType::Partition
    } else if v == 4 {
        AsyncEffectType::Egress
    } else {
        AsyncEffectType::Slowdown
    }
}

/// The effect with a given number.
pub fn uint_to_enum(v: u8) -> (effect: AsyncEffectType)
    requires
        v <= LAST_EFFECT,
    ensures
        effect == effect_of(v),
{
    match v {
        0 => AsyncEffectType::Off,
        1 => AsyncEffectType::TempBlip,
        2 => AsyncEffectType::Failure,
        3 => AsyncEffectType::Partition,
        4 => AsyncEffectType::Egress,
        _ => AsyncEffectType::Slowdown,
    }
}

/// A request for batches on its way.
pub enum SyncMessage<A> {
    /// To one worker.
    Direct(A, Vec<u8>),
    /// To some of these workers.
    Broadcast(Vec<A>, Vec<u8>),
}

/// What to do with a request for batches.
pub enum Outgoing<A> {
    /// Nothing is sent.
    Nothing,
    /// It is sent at once.
    Now(SyncMessage<A>),
    /// It is sent after a delay in milliseconds.
    Later(SyncMessage<A>, u64),
}

/// What is known of a batch that the primary waits for. `H` is the handle by which the task
/// that watches the store for it is stopped.
pub struct PendingBatch<H> {
    /// The primary's round, as far as it was known when the batch was asked for.
    pub round: Round,
    /// The handle of the task that waits for the batch.
    pub handler: H,
    /// When the batch was asked for, in milliseconds.
    pub timestamp: u128,
}

/// Decides which batches a worker asks for, whom, and when again.
pub struct Synchronizer<H> {
    /// The public key of this authority.
    pub name: PublicKey,
    /// The id of this worker.
    pub id: WorkerId,
    /// The delay to wait before re-trying to send sync requests.
    pub sync_retry_delay: u64,
    /// The primary's round number, as of the last cleanup.
    pub round: Round,
    /// The batches that the primary waits for.
    pub pending: KeyMap<PendingBatch<H>>,
    /// The periods of simulated asynchrony: those that are still to begin.
    pub parameters: AsynchronyParameters,
    /// The keys of all authorities in increasing order.
    pub keys: Vec<[u8; 32]>,
    /// Whether a period of simulated asynchrony is on.
    pub during_simulated_asynchrony: bool,
    /// The effect of the current period.
    pub current_effect_type: AsyncEffectType,
    /// Whether some period cuts this authority off.
    pub should_simulate_failure: bool,
    /// Whether some period delays the messages of this authority.
    pub should_simulate_egress: bool,
}

/// The bytes of a request for batches.
pub open spec fn batch_request(missing: Seq<[u8; 32]>, name: [u8; 32]) -> Seq<u8> {
    little_endian(BATCH_REQUEST as nat, 4) + encoded_keys(missing) + name@
}

/// Whether the period at a position leaves the authority at position `rank` alone.
pub open spec fn spared(parameters: AsynchronyParameters, rank: int, i: int) -> bool {
    let effect = effect_of(parameters.asynchrony_type@[i]);
    &&& effect == AsyncEffectType::Failure || effect == AsyncEffectType::Egress || effect
        == AsyncEffectType::Slowdown
    &&& rank >= parameters.affected_nodes@[i]
}

/// What is planned for the first `n` configured periods: when timers fire, in milliseconds,
/// and the kinds and the lengths, in milliseconds, of the periods that concern the authority.
pub open spec fn planned(parameters: AsynchronyParameters, rank: int, n: nat) -> (
    Seq<u64>,
    Seq<u8>,
    Seq<u64>,
)
    decreases n,
{
    if n == 0 {
        (Seq::empty(), Seq::empty(), Seq::empty())
    } else {
        let i = n - 1;
        let (offsets, types, durations) = planned(parameters, rank, i as nat);
        let start = parameters.asynchrony_start@[i] * 1000;
        let duration = parameters.asynchrony_duration@[i] * 1000;
        if spared(parameters, rank, i) {
            (offsets, types, durations)
        } else {
            (
                if effect_of(parameters.asynchrony_type@[i]) == AsyncEffectType::Slowdown {
                    offsets.push(start as u64)
                } else {
                    offsets.push(start as u64).push((start + duration) as u64)
                },
                types.push(parameters.asynchrony_type@[i]),
                durations.push(duration as u64),
            )
        }
    }
}

/// Whether what is planned for the period at a position can be computed in milliseconds.
pub open spec fn period_fits(parameters: AsynchronyParameters, rank: int, i: int) -> bool {
    let start = parameters.asynchrony_start@[i] * 1000;
    let duration = parameters.asynchrony_duration@[i] * 1000;
    &&& parameters.asynchrony_type@[i] <= LAST_EFFECT
    &&& start <= u64::MAX
    &&& duration <= u64::MAX
    &&& !spared(parameters, rank, i) && effect_of(parameters.asynchrony_type@[i])
        != AsyncEffectType::Slowdown ==> start + duration <= u64::MAX
}

/// Whether the periods can be planned for the authority at position `rank`.
pub open spec fn plannable(parameters: AsynchronyParameters, rank: int) -> bool {
    let n = parameters.asynchrony_start@.len();
    &&& n <= parameters.asynchrony_type@.len()
    &&& n <= parameters.asynchrony_duration@.len()
    &&& n <= parameters.affected_nodes@.len()
    &&& forall|i: int| 0 <= i < n ==> #[trigger] period_fits(parameters, rank, i)
}

/// One step of a request of the primary: the batch asked for, what the store says of it, and
/// the handle of the task that would wait for it.
pub struct Lookup<H> {
    /// The batch asked for.
    pub key: [u8; 32],
    /// What the store says of it.
    pub outcome: ReadOutcome,
    /// The handle of the task that would wait for it.
    pub handler: H,
}

/// The batches that are pending and the batches that are missing after `lookups`.
pub open spec fn after_lookups<H>(
    pending: Map<[u8; 32], PendingBatch<H>>,
    round: Round,
    now: u128,
    lookups: Seq<Lookup<H>>,
) -> (Map<[u8; 32], PendingBatch<H>>, Seq<[u8; 32]>)
    decreases lookups.len(),
{
    if lookups.len() == 0 {
        (pending, Seq::empty())
    } else {
        let (waiting, missing) = after_lookups(pending, round, now, lookups.drop_last());
        let lookup = lookups.last();
        if waiting.dom().contains(lookup.key) || lookup.outcome is Failed {
            (waiting, missing)
        } else {
            (
                waiting.insert(
                    lookup.key,
                    PendingBatch { round, handler: lookup.handler, timestamp: now },
                ),
                if lookup.outcome is Missing {
                    missing.push(lookup.key)
                } else {
                    missing
                },
            )
        }
    }
}

/// The pending batches, in increasing order, that were asked for longer ago than `delay`.
pub open spec fn overdue<H>(
    entries: Seq<([u8; 32], PendingBatch<H>)>,
    delay: u64,
    now: u128,
) -> Seq<[u8; 32]>
    decreases entries.len(),
{
    if entries.len() == 0 {
        Seq::empty()
    } else {
        let before = overdue(entries.drop_last(), delay, now);
        if entries.last().1.timestamp + delay < now {
            before.push(entries.last().0)
        } else {
            before
        }
    }
}

/// The handles of the pending batches that were asked for in round `limit` or before, in
/// increasing order of the batches.
pub open spec fn stale_handlers<H>(entries: Seq<([u8; 32], PendingBatch<H>)>, limit: Round) -> Seq<H>
    decreases entries.len(),
{
    if entries.len() == 0 {
        Seq::empty()
    } else {
        let before = stale_handlers(entries.drop_last(), limit);
        if entries.last().1.round <= limit {
            before.push(entries.last().1.handler)
        } else {
            before
        }
    }
}

/// The pending batches that were asked for after round `limit`.
pub open spec fn asked_after<H>(pending: Map<[u8; 32], PendingBatch<H>>, limit: Round) -> Map<
    [u8; 32],
    PendingBatch<H>,
> {
    Map::new(
        |key: [u8; 32]| pending.dom().contains(key) && pending[key].round > limit,
        |key: [u8; 32]| pending[key],
    )
}

impl<A> Outgoing<A> {
    /// Whether this is what the fate of `message` asks for.
    pub open spec fn obeys(self, fate: Fate, penalty: u64, message: SyncMessage<A>) -> bool {
        match fate {
            Fate::Drop => self is Nothing,
            Fate::Delay => self == Outgoing::Later(message, penalty),
            Fate::Send => self == Outgoing::Now(message),
        }
    }
}

impl<H> Synchronizer<H> {
    /// The pending batches and the authorities stand in order, and outside a period of
    /// simulated asynchrony there is no effect.
    pub open spec fn wf(&self) -> bool {
        &&& self.pending.wf()
        &&& increasing_keys(self.keys@)
        &&& !self.during_simulated_asynchrony ==> self.current_effect_type == AsyncEffectType::Off
    }

    /// What becomes of a request now.
    pub open spec fn fate(&self) -> Fate {
        if !self.during_simulated_asynchrony {
            Fate::Send
        } else if self.current_effect_type == AsyncEffectType::Failure
            && self.should_simulate_failure {
            Fate::Drop
        } else if self.current_effect_type == AsyncEffectType::Egress
            && self.should_simulate_egress {
            Fate::Delay
        } else {
            Fate::Send
        }
    }

    /// The task before the first message of its primary.
    pub fn new(
        name: PublicKey,
        id: WorkerId,
        authorities: &Vec<PublicKey>,
        sync_retry_delay: u64,
        parameters: AsynchronyParameters,
    ) -> (synchronizer: Self)
        requires
            parameters.simulate_asynchrony ==> parameters.readable(LAST_EFFECT),
            parameters.simulate_asynchrony && parameters.singles_out() ==> authority_keys(
                authorities@,
            ).contains(name.0),
        ensures
            synchronizer.wf(),
            synchronizer.name == name,
            synchronizer.id == id,
            synchronizer.sync_retry_delay == sync_retry_delay,
            synchronizer.round == 0,
            synchronizer.pending@ == Map::<[u8; 32], PendingBatch<H>>::empty(),
            synchronizer.parameters == parameters,
            synchronizer.keys@.to_set() == authority_keys(authorities@).to_set(),
            !synchronizer.during_simulated_asynchrony,
            synchronizer.should_simulate_failure == (parameters.simulate_asynchrony
                && parameters.hits(2, synchronizer.keys@.index_of(name.0))),
            synchronizer.should_simulate_egress == (parameters.simulate_asynchrony
                && parameters.hits(4, synchronizer.keys@.index_of(name.0))),
    {
        let keys = sorted_authorities(authorities);
        let mut should_simulate_failure = false;
        let mut should_simulate_egress = false;
        if parameters.simulate_asynchrony {
            match position_of(&keys, &name.0) {
                Some(index) => {
                    proof {
                        assert(keys@.contains(name.0));
                        lemma_one_position(keys@, index as int, keys@.index_of(name.0));
                    }
                    should_simulate_failure = parameters.affects(2, LAST_EFFECT, index);
                    should_simulate_egress = parameters.affects(4, LAST_EFFECT, index);
                },
                None => {
                    assert(!keys@.to_set().contains(name.0));
                    assert(!parameters.singles_out());
                },
            }
        }
        Synchronizer {
            name,
            id,
            sync_retry_delay,
            round: 0,
            pending: KeyMap::new(),
            parameters,
            keys,
            during_simulated_asynchrony: false,
            current_effect_type: AsyncEffectType::Off,
            should_simulate_failure,
            should_simulate_egress,
        }
    }

    /// Whether the periods can be planned: this authority is a member of the committee, and
    /// the configuration is complete and within the limits of the numbers.
    pub open spec fn can_plan(&self) -> bool {
        &&& self.keys@.contains(self.name.0)
        &&& plannable(self.parameters, self.keys@.index_of(self.name.0))
    }

    /// Checks that the periods can be planned.
    pub fn plan_possible(&self) -> (possible: bool)
        requires
            self.wf(),
        ensures
            possible == self.can_plan(),
    {
        let rank: usize = match position_of(&self.keys, &self.name.0) {
            Some(index) => {
                proof {
                    assert(self.keys@.contains(self.name.0));
                    lemma_one_position(
                        self.keys@,
                        index as int,
                        self.keys@.index_of(self.name.0),
                    );
                }
                index
            },
            None => {
                return false;
            },
        };
        let n = self.parameters.asynchrony_start.len();
        if n > self.parameters.asynchrony_type.len() || n
            > self.parameters.asynchrony_duration.len() || n
            > self.parameters.affected_nodes.len() {
            return false;
        }
        let mut i: usize = 0;
        while i < n
            invariant
                i <= n,
                n == self.parameters.asynchrony_start@.len(),
                n <= self.parameters.asynchrony_type@.len(),
                n <= self.parameters.asynchrony_duration@.len(),
                n <= self.parameters.affected_nodes@.len(),
                rank == self.keys@.index_of(self.name.0),
                forall|j: int|
                    0 <= j < i ==> #[trigger] period_fits(self.parameters, rank as int, j),
            decreases n - i,
        {
            let number: u8 = self.parameters.asynchrony_type[i];
            let start: u128 = self.parameters.asynchrony_start[i] as u128 * 1000;
            let duration: u128 = self.parameters.asynchrony_duration[i] as u128 * 1000;
            let limit: u128 = u64::MAX as u128;
            let ghost fits = period_fits(self.parameters, rank as int, i as int);
            if number > LAST_EFFECT || start > limit || duration > limit {
                assert(!fits);
                return false;
            }
            let effect = uint_to_enum(number);
            let selective = effect == AsyncEffectType::Failure || effect == AsyncEffectType::Egress
                || effect == AsyncEffectType::Slowdown;
            let timed = effect != AsyncEffectType::Slowdown && !(selective && (rank as u64)
                >= self.parameters.affected_nodes[i]);
            if timed && start + duration > limit {
                assert(!fits);
                return false;
            }
            i += 1;
        }
        true
    }

    /// Plans the periods of simulated asynchrony. Gives back when timers have to fire, in
    /// milliseconds from now, and keeps the kinds and lengths of the periods that concern this
    /// authority.
    pub fn plan_periods(&mut self) -> (offsets: Vec<u64>)
        requires
            old(self).wf(),
            old(self).parameters.simulate_asynchrony ==> old(self).can_plan(),
        ensures
            final(self).wf(),
            old(self).parameters.simulate_asynchrony ==> (
                offsets@,
                final(self).parameters.asynchrony_type@,
                final(self).parameters.asynchrony_duration@,
            ) == planned(
                old(self).parameters,
                old(self).keys@.index_of(old(self).name.0),
                old(self).parameters.asynchrony_start@.len(),
            ),
            !old(self).parameters.simulate_asynchrony ==> offsets@.len() == 0 && *final(self)
                == *old(self),
            *final(self) == (Synchronizer {
                parameters: (AsynchronyParameters {
                    asynchrony_type: final(self).parameters.asynchrony_type,
                    asynchrony_duration: final(self).parameters.asynchrony_duration,
                    ..old(self).parameters
                }),
                ..*old(self)
            }),
    {
        let mut offsets: Vec<u64> = Vec::new();
        if !self.parameters.simulate_asynchrony {
            return offsets;
        }
        let rank: usize = match position_of(&self.keys, &self.name.0) {
            Some(index) => {
                proof {
                    lemma_one_position(
                        self.keys@,
                        index as int,
                        self.keys@.index_of(self.name.0),
                    );
                }
                index
            },
            None => {
                return offsets;
            },
        };
        let mut types: VecDeque<u8> = VecDeque::new();
        let mut durations: VecDeque<u64> = VecDeque::new();
        let ghost parameters = self.parameters;
        let mut i: usize = 0;
        while i < self.parameters.asynchrony_start.len()
            invariant
                *self == *old(self),
                parameters == self.parameters,
                i <= parameters.asynchrony_start@.len(),
                plannable(parameters, rank as int),
                (offsets@, types@, durations@) == planned(parameters, rank as int, i as nat),
            decreases parameters.asynchrony_start@.len() - i,
        {
            assert(period_fits(parameters, rank as int, i as int));
            let effect = uint_to_enum(self.parameters.asynchrony_type[i]);
            let start_offset: u64 = self.parameters.asynchrony_start[i] * 1000;
            let duration: u64 = self.parameters.asynchrony_duration[i] * 1000;
            let selective = effect == AsyncEffectType::Failure || effect == AsyncEffectType::Egress
                || effect == AsyncEffectType::Slowdown;
            if !(selective && (rank as u64) >= self.parameters.affected_nodes[i]) {
                if effect == AsyncEffectType::Slowdown {
                    offsets.push(start_offset);
                } else {
                    offsets.push(start_offset);
                    offsets.push(start_offset + duration);
                }
                types.push_back(self.parameters.asynchrony_type[i]);
                durations.push_back(duration);
            }
            i += 1;
        }
        self.parameters.asynchrony_type = types;
        self.parameters.asynchrony_duration = durations;
        offsets
    }

    /// Whether the store has to be asked for a batch: only if it is not pending.
    pub fn wants(&self, digest: &Digest) -> (wanted: bool)
        requires
            self.wf(),
        ensures
            wanted == !self.pending@.dom().contains(digest.0),
    {
        !self.pending.contains_key(&digest.0)
    }

    /// Takes what the store says of a batch that the primary asks for. A batch that is not
    /// pending becomes so, unless the store failed, and is missing if the store does not hold
    /// it.
    pub fn on_lookup(
        &mut self,
        digest: &Digest,
        outcome: &ReadOutcome,
        handler: H,
        now: u128,
        missing: &mut Vec<Digest>,
    )
        requires
            old(self).wf(),
        ensures
            final(self).wf(),
            ({
                let known = old(self).pending@.dom().contains(digest.0) || *outcome is Failed;
                &&& final(self).pending@ == (if known {
                    old(self).pending@
                } else {
                    old(self).pending@.insert(
                        digest.0,
                        PendingBatch { round: old(self).round, handler, timestamp: now },
                    )
                })
                &&& final(missing)@ == (if !known && *outcome is Missing {
                    old(missing)@.push(*digest)
                } else {
                    old(missing)@
                })
            }),
            *final(self) == (Synchronizer { pending: final(self).pending, ..*old(self) }),
    {
        if self.pending.contains_key(&digest.0) {
            return;
        }
        match outcome {
            ReadOutcome::Missing => {
                missing.push(*digest);
            },
            ReadOutcome::Found(_) => {},
            ReadOutcome::Failed => {
                return;
            },
        }
        self.pending.insert(digest.0, PendingBatch { round: self.round, handler, timestamp: now });
    }

    /// Takes a whole request of the primary, with what the store says of each batch. Gives back
    /// the batches that are missing.
    pub fn on_lookups(&mut self, lookups: Vec<Lookup<H>>, now: u128) -> (missing: Vec<Digest>)
        requires
            old(self).wf(),
        ensures
            final(self).wf(),
            (final(self).pending@, digest_keys(missing@)) == after_lookups(
                old(self).pending@,
                old(self).round,
                now,
                lookups@,
            ),
            *final(self) == (Synchronizer { pending: final(self).pending, ..*old(self) }),
    {
        let mut missing: Vec<Digest> = Vec::new();
        let ghost all = lookups@;
        let ghost round = self.round;
        assert(all.take(0) =~= Seq::<Lookup<H>>::empty());
        assert(digest_keys(missing@) =~= Seq::<[u8; 32]>::empty());
        for lookup in walk: lookups
            invariant
                self.wf(),
                round == old(self).round,
                *self == (Synchronizer { pending: self.pending, ..*old(self) }),
                walk.seq() == all,
                (self.pending@, digest_keys(missing@)) == after_lookups(
                    old(self).pending@,
                    round,
                    now,
                    all.take(walk.index()),
                ),
        {
            let ghost i = walk.index();
            let ghost found = missing@;
            assert(all.take(i + 1).drop_last() =~= all.take(i));
            assert(all.take(i + 1).last() == lookup);
            let digest = Digest(lookup.key);
            self.on_lookup(&digest, &lookup.outcome, lookup.handler, now, &mut missing);
            assert(digest_keys(found.push(digest)) =~= digest_keys(found).push(digest.0));
        }
        assert(all.take(all.len() as int) =~= all);
        missing
    }

    /// What to do with a message now.
    fn dispatch<A>(&self, message: SyncMessage<A>) -> (outgoing: Outgoing<A>)
        ensures
            outgoing.obeys(self.fate(), self.parameters.egress_penalty, message),
    {
        if self.during_simulated_asynchrony && self.current_effect_type == AsyncEffectType::Failure
            && self.should_simulate_failure {
            Outgoing::Nothing
        } else if self.during_simulated_asynchrony && self.current_effect_type
            == AsyncEffectType::Egress && self.should_simulate_egress {
            Outgoing::Later(message, self.parameters.egress_penalty)
        } else {
            Outgoing::Now(message)
        }
    }

    /// The request for missing batches to the worker that the primary named, given its address
    /// where it is known. It is sent even if no batch is missing.
    pub fn request<A>(&self, missing: &Vec<Digest>, address: Option<A>) -> (outgoing: Outgoing<A>)
        ensures
            match address {
                Some(a) => exists|bytes: Vec<u8>|
                    bytes@ == batch_request(digest_keys(missing@), self.name.0)
                        && #[trigger] outgoing.obeys(
                        self.fate(),
                        self.parameters.egress_penalty,
                        SyncMessage::Direct(a, bytes),
                    ),
                None => outgoing is Nothing,
            },
    {
        match address {
            Some(address) => {
                let keys = keys_of_digests(missing);
                let bytes = serialize_keys_and_key(BATCH_REQUEST, &keys, self.name.0);
                assert(bytes@ == batch_request(digest_keys(missing@), self.name.0));
                self.dispatch(SyncMessage::Direct(address, bytes))
            },
            None => Outgoing::Nothing,
        }
    }

    /// Takes a batch that arrived in the store: it is not pending any longer.
    pub fn on_arrival(&mut self, digest: &Digest)
        requires
            old(self).wf(),
        ensures
            final(self).wf(),
            final(self).pending@ == old(self).pending@.remove(digest.0),
            *final(self) == (Synchronizer { pending: final(self).pending, ..*old(self) }),
    {
        self.pending.remove(&digest.0);
    }

    /// Takes the primary's round number. The batches that were asked for `gc_depth` or more
    /// rounds before it are not pending any longer. Gives back the handles of the tasks that
    /// wait for them, which are to be stopped.
    pub fn on_cleanup(&mut self, round: Round, gc_depth: Round) -> (cancelled: Vec<H>)
        requires
            old(self).wf(),
        ensures
            final(self).wf(),
            final(self).round == round,
            final(self).pending@ == (if round >= gc_depth {
                asked_after(old(self).pending@, (round - gc_depth) as Round)
            } else {
                old(self).pending@
            }),
            cancelled@ == (if round >= gc_depth {
                stale_handlers(old(self).pending.entries@, (round - gc_depth) as Round)
            } else {
                Seq::empty()
            }),
            *final(self) == (Synchronizer {
                round: final(self).round,
                pending: final(self).pending,
                ..*old(self)
            }),
    {
        self.round = round;
        if round < gc_depth {
            return Vec::new();
        }
        let gc_round: Round = round - gc_depth;
        let mut all: KeyMap<PendingBatch<H>> = KeyMap::new();
        std::mem::swap(&mut self.pending, &mut all);
        let ghost entries = all.entries@;
        let ghost before = all@;
        let mut kept: KeyMap<PendingBatch<H>> = KeyMap::new();
        let mut cancelled: Vec<H> = Vec::new();
        assert(entries.take(0) =~= Seq::<([u8; 32], PendingBatch<H>)>::empty());
        for entry in walk: all.entries
            invariant
                old(self).pending.wf(),
                entries == old(self).pending.entries@,
                before == old(self).pending@,
                walk.seq() == entries,
                kept.wf(),
                cancelled@ == stale_handlers(entries.take(walk.index()), gc_round),
                forall|i: int|
                    0 <= i < walk.index() && (#[trigger] entries[i]).1.round > gc_round
                        ==> kept@.dom().contains(entries[i].0),
                forall|key: [u8; 32]| #[trigger]
                    kept@.dom().contains(key) ==> before.dom().contains(key) && before[key].round
                        > gc_round && kept@[key] == before[key],
        {
            let ghost i = walk.index();
            assert(entries.take(i + 1).drop_last() =~= entries.take(i));
            assert(entries.take(i + 1).last() == entry);
            proof {
                old(self).pending.lemma_entry(i);
            }
            if entry.1.round <= gc_round {
                cancelled.push(entry.1.handler);
            } else {
                kept.insert(entry.0, entry.1);
            }
        }
        proof {
            assert(entries.take(entries.len() as int) =~= entries);
            let expected = asked_after(before, gc_round);
            assert forall|key: [u8; 32]|
                #![trigger kept@.dom().contains(key)]
                #![trigger kept@[key]]
                kept@.dom().contains(key) == expected.dom().contains(key) && (
                kept@.dom().contains(key) ==> kept@[key] == expected[key]) by {
                if expected.dom().contains(key) {
                    let i = entry_index(entries, key);
                    old(self).pending.lemma_entry(i);
                    assert(entries[i].0 == key);
                }
            }
            assert(kept@ =~= expected);
        }
        self.pending = kept;
        cancelled
    }

    /// The pending batches that were asked for too long ago, in increasing order.
    pub fn overdue_batches(&self, now: u128) -> (retry: Vec<[u8; 32]>)
        ensures
            retry@ == overdue(self.pending.entries@, self.sync_retry_delay, now),
    {
        let mut retry: Vec<[u8; 32]> = Vec::new();
        let delay: u128 = self.sync_retry_delay as u128;
        let ghost entries = self.pending.entries@;
        assert(entries.take(0) =~= Seq::<([u8; 32], PendingBatch<H>)>::empty());
        for i in 0..self.pending.entries.len()
            invariant
                entries == self.pending.entries@,
                delay == self.sync_retry_delay,
                retry@ == overdue(entries.take(i as int), self.sync_retry_delay, now),
        {
            assert(entries.take(i + 1).drop_last() =~= entries.take(i as int));
            assert(entries.take(i + 1).last() == entries[i as int]);
            if now > delay && self.pending.entries[i].1.timestamp < now - delay {
                retry.push(self.pending.entries[i].0);
            }
        }
        assert(entries.take(entries.len() as int) =~= entries);
        retry
    }

    /// Takes the retry timer: the batches that were asked for too long ago are asked for again,
    /// of the workers at `addresses`.
    pub fn on_retry_timer<A>(&self, now: u128, addresses: Vec<A>) -> (outgoing: Outgoing<A>)
        ensures
            ({
                let retry = overdue(self.pending.entries@, self.sync_retry_delay, now);
                if retry.len() == 0 {
                    outgoing is Nothing
                } else {
                    exists|bytes: Vec<u8>|
                        bytes@ == batch_request(retry, self.name.0) && #[trigger] outgoing.obeys(
                            self.fate(),
                            self.parameters.egress_penalty,
                            SyncMessage::Broadcast(addresses, bytes),
                        )
                }
            }),
    {
        let retry = self.overdue_batches(now);
        if retry.len() == 0 {
            return Outgoing::Nothing;
        }
        let bytes = serialize_keys_and_key(BATCH_REQUEST, &retry, self.name.0);
        assert(bytes@ == batch_request(retry@, self.name.0));
        self.dispatch(SyncMessage::Broadcast(addresses, bytes))
    }

    /// Whether the effect of the next period can be read.
    pub open spec fn next_effect_known(&self) -> bool {
        !self.during_simulated_asynchrony && self.parameters.asynchrony_type@.len() > 0
            ==> self.parameters.asynchrony_type@[0] <= LAST_EFFECT
    }

    /// Checks that the effect of the next period can be read.
    pub fn knows_next_effect(&self) -> (known: bool)
        ensures
            known == self.next_effect_known(),
    {
        self.during_simulated_asynchrony || self.parameters.asynchrony_type.len() == 0
            || self.parameters.asynchrony_type[0] <= LAST_EFFECT
    }

    /// Takes a timer of the simulated asynchrony: a period begins where none was on, and ends
    /// otherwise. A slowdown is over at once. Gives back for how many milliseconds the task
    /// has to pause.
    pub fn on_async_timer(&mut self) -> (pause: u64)
        requires
            old(self).wf(),
            old(self).next_effect_known(),
        ensures
            final(self).wf(),
            ({
                let types = old(self).parameters.asynchrony_type@;
                let durations = old(self).parameters.asynchrony_duration@;
                let begins = !old(self).during_simulated_asynchrony;
                let popped = begins && types.len() > 0;
                let slow = popped && effect_of(types[0]) == AsyncEffectType::Slowdown;
                &&& final(self).during_simulated_asynchrony == (begins && !slow)
                &&& final(self).current_effect_type == (if popped && !slow {
                    effect_of(types[0])
                } else {
                    AsyncEffectType::Off
                })
                &&& final(self).parameters.asynchrony_type@ == (if popped {
                    types.drop_first()
                } else {
                    types
                })
                &&& final(self).parameters.asynchrony_duration@ == (if popped && durations.len()
                    > 0 {
                    durations.drop_first()
                } else {
                    durations
                })
                &&& pause == (if slow && durations.len() > 0 {
                    durations[0]
                } else {
                    0
                })
            }),
            *final(self) == (Synchronizer {
                during_simulated_asynchrony: final(self).during_simulated_asynchrony,
                current_effect_type: final(self).current_effect_type,
                parameters: (AsynchronyParameters {
                    asynchrony_type: final(self).parameters.asynchrony_type,
                    asynchrony_duration: final(self).parameters.asynchrony_duration,
                    ..old(self).parameters
                }),
                ..*old(self)
            }),
    {
        self.during_simulated_asynchrony = !self.during_simulated_asynchrony;
        if !self.during_simulated_asynchrony {
            self.current_effect_type = AsyncEffectType::Off;
            return 0;
        }
        match self.parameters.asynchrony_type.pop_front() {
            Some(effect) => {
                assert(self.parameters.asynchrony_type@
                    =~= old(self).parameters.asynchrony_type@.drop_first());
                self.current_effect_type = uint_to_enum(effect);
                let duration: u64 = match self.parameters.asynchrony_duration.pop_front() {
                    Some(duration) => {
                        assert(self.parameters.asynchrony_duration@
                            =~= old(self).parameters.asynchrony_duration@.drop_first());
                        duration
                    },
                    None => 0,
                };
                if self.current_effect_type == AsyncEffectType::Slowdown {
                    self.during_simulated_asynchrony = false;
                    self.current_effect_type = AsyncEffectType::Off;
                    return duration;
                }
                0
            },
            None => 0,
        }
    }
}

/// No batch is asked for twice while it is pending: a request of the primary adds to the
/// missing batches none that was pending, and none twice; all that are asked for are pending
/// afterwards, and what was pending stays so.
pub proof fn law_requested_once<H>(
    pending: Map<[u8; 32], PendingBatch<H>>,
    round: Round,
    now: u128,
    lookups: Seq<Lookup<H>>,
)
    ensures
        ({
            let (waiting, missing) = after_lookups(pending, round, now, lookups);
            &&& missing.no_duplicates()
            &&& forall|i: int|
                0 <= i < missing.len() ==> !pending.dom().contains(#[trigger] missing[i])
                    && waiting.dom().contains(missing[i])
            &&& pending.submap_of(waiting)
        }),
    decreases lookups.len(),
{
    if lookups.len() > 0 {
        law_requested_once(pending, round, now, lookups.drop_last());
    }
}

/// The pending batches that are asked for again are those that were asked for longer ago than
/// the delay, each once.
pub proof fn law_overdue<H>(pending: KeyMap<PendingBatch<H>>, delay: u64, now: u128)
    requires
        pending.wf(),
    ensures
        overdue(pending.entries@, delay, now).no_duplicates(),
        forall|key: [u8; 32]| #[trigger]
            overdue(pending.entries@, delay, now).contains(key) <==> pending@.dom().contains(key)
                && pending@[key].timestamp + delay < now,
{
    let entries = pending.entries@;
    lemma_overdue_prefix(pending, delay, now, entries.len());
    assert(entries.take(entries.len() as int) =~= entries);
    let retry = overdue(entries, delay, now);
    assert forall|key: [u8; 32]| #[trigger] retry.contains(key) <==> pending@.dom().contains(key)
        && pending@[key].timestamp + delay < now by {
        if pending@.dom().contains(key) {
            let i = entry_index(entries, key);
            pending.lemma_entry(i);
            assert(entries[i].0 == key);
        }
    }
}

proof fn lemma_overdue_prefix<H>(
    pending: KeyMap<PendingBatch<H>>,
    delay: u64,
    now: u128,
    n: nat,
)
    requires
        pending.wf(),
        n <= pending.entries@.len(),
    ensures
        ({
            let entries = pending.entries@;
            let retry = overdue(entries.take(n as int), delay, now);
            &&& retry.no_duplicates()
            &&& forall|key: [u8; 32]| #[trigger]
                retry.contains(key) ==> (exists|i: int|
                    0 <= i < n && (#[trigger] entries[i]).0 == key) && pending@.dom().contains(key)
                    && pending@[key].timestamp + delay < now
            &&& forall|i: int|
                0 <= i < n && (#[trigger] entries[i]).1.timestamp + delay < now ==> retry.contains(
                    entries[i].0,
                )
        }),
    decreases n,
{
    let entries = pending.entries@;
    if n > 0 {
        let m = (n - 1) as nat;
        lemma_overdue_prefix(pending, delay, now, m);
        assert(entries.take(n as int).drop_last() =~= entries.take(m as int));
        let before = overdue(entries.take(m as int), delay, now);
        let retry = overdue(entries.take(n as int), delay, now);
        pending.lemma_entry(m as int);
        let key = entries[m as int].0;
        if before.contains(key) {
            let i = choose|i: int| 0 <= i < m && (#[trigger] entries[i]).0 == key;
            lemma_one_position(pending.key_seq(), i, m as int);
        }
        assert forall|k: [u8; 32]| #[trigger] retry.contains(k) implies (exists|i: int|
            0 <= i < n && (#[trigger] entries[i]).0 == k) && pending@.dom().contains(k)
            && pending@[k].timestamp + delay < now by {
            let j = choose|j: int| 0 <= j < retry.len() && retry[j] == k;
            if j < before.len() {
                assert(before[j] == k);
                assert(before.contains(k));
            } else {
                assert(entries[m as int].0 == k);
            }
        }
        assert forall|i: int|
            0 <= i < n && (#[trigger] entries[i]).1.timestamp + delay
                < now implies retry.contains(entries[i].0) by {
            if i < m {
                assert(before.contains(entries[i].0));
                let j = choose|j: int| 0 <= j < before.len() && before[j] == entries[i].0;
                assert(retry[j] == entries[i].0);
            } else {
                assert(retry[retry.len() - 1] == entries[i].0);
            }
        }
    }
}

/// While a failure of this authority is simulated, nothing is sent, now or later.
pub proof fn law_failing_synchronizer_is_silent<H, A>(
    synchronizer: Synchronizer<H>,
    message: SyncMessage<A>,
    outgoing: Outgoing<A>,
)
    requires
        synchronizer.during_simulated_asynchrony,
        synchronizer.current_effect_type == AsyncEffectType::Failure,
        synchronizer.should_simulate_failure,
        outgoing.obeys(synchronizer.fate(), synchronizer.parameters.egress_penalty, message),
    ensures
        outgoing is Nothing,
{
}

/// The plan keeps one kind and one length per period that concerns the authority, all of a
/// known kind, and at least one and at most two timers for each.
pub proof fn law_plan_is_consistent(parameters: AsynchronyParameters, rank: int, n: nat)
    requires
        plannable(parameters, rank),
        n <= parameters.asynchrony_start@.len(),
    ensures
        ({
            let (offsets, types, durations) = planned(parameters, rank, n);
            &&& types.len() == durations.len() <= n
            &&& types.len() <= offsets.len() <= 2 * types.len()
            &&& forall|i: int| 0 <= i < types.len() ==> #[trigger] types[i] <= LAST_EFFECT
        }),
    decreases n,
{
    if n > 0 {
        law_plan_is_consistent(parameters, rank, (n - 1) as nat);
        assert(period_fits(parameters, rank, n - 1));
    }
}

/// The effects by their numbers.
pub proof fn law_effects()
    ensures
        effect_of(0) == AsyncEffectType::Off,
        effect_of(1) == AsyncEffectType::TempBlip,
        effect_of(2) == AsyncEffectType::Failure,
        effect_of(3) == AsyncEffectType::Partition,
        effect_of(4) == AsyncEffectType::Egress,
        effect_of(5) == AsyncEffectType::Slowdown,
{
}

/// Requests are dropped exactly while a failure is simulated that affects this authority, delayed
/// exactly while an egress delay is simulated that does, and sent at once otherwise.
pub proof fn law_fate<H>(synchronizer: Synchronizer<H>)
    ensures
        synchronizer.fate() == Fate::Drop <==> synchronizer.during_simulated_asynchrony
            && synchronizer.current_effect_type == AsyncEffectType::Failure
            && synchronizer.should_simulate_failure,
        synchronizer.fate() == Fate::Delay <==> synchronizer.during_simulated_asynchrony
            && synchronizer.current_effect_type == AsyncEffectType::Egress
            && synchronizer.should_simulate_egress,
{
}

/// What becomes of a message: it is not sent, sent as it is at once, or sent as it is after the
/// delay.
pub proof fn law_outgoing<A>(
    outgoing: Outgoing<A>,
    fate: Fate,
    penalty: u64,
    message: SyncMessage<A>,
)
    requires
        outgoing.obeys(fate, penalty, message),
    ensures
        outgoing is Nothing <==> fate == Fate::Drop,
        fate == Fate::Send ==> outgoing == Outgoing::Now(message),
        fate == Fate::Delay ==> outgoing == Outgoing::Later(message, penalty),
{
}

/// A request names every missing batch, in order, and who asks.
pub proof fn law_batch_request_bytes(missing: Seq<[u8; 32]>, name: [u8; 32])
    ensures
        ({
            let bytes = batch_request(missing, name);
            let end = 12 + 32 * missing.len() as int;
            &&& bytes.len() == end + 32
            &&& bytes.subrange(0, 4) == seq![1u8, 0u8, 0u8, 0u8]
            &&& bytes.subrange(4, 12) == little_endian(missing.len(), 8)
            &&& forall|i: int|
                0 <= i < missing.len() ==> bytes.subrange(12 + 32 * i, 44 + 32 * i) == (
                #[trigger] missing[i])@
            &&& bytes.subrange(end, end + 32) == name@
        }),
{
    let bytes = batch_request(missing, name);
    let end = 12 + 32 * missing.len() as int;
    law_variant_bytes(1);
    lemma_little_endian_len(missing.len(), 8);
    lemma_encoded_keys_len(missing);
    assert(bytes.subrange(0, 4) =~= seq![1u8, 0u8, 0u8, 0u8]);
    assert(bytes.subrange(4, 12) =~= little_endian(missing.len(), 8));
    assert forall|i: int| 0 <= i < missing.len() implies bytes.subrange(12 + 32 * i, 44 + 32 * i)
        == (#[trigger] missing[i])@ by {
        law_encoded_keys(missing, i);
        assert(bytes.subrange(12 + 32 * i, 44 + 32 * i) =~= encoded_keys(missing).subrange(
            8 + 32 * i,
            40 + 32 * i,
        ));
    }
    assert(bytes.subrange(end, end + 32) =~= name@);
}

/// The periods that concern an authority are those of a kind that concerns all, and of the kinds
/// failure, egress and slowdown those that affect its position. Of each, in order, the kind and
/// the length are kept, and there are timers at its start and, unless it is a slowdown, at its
/// end.
pub proof fn law_planned_periods(parameters: AsynchronyParameters, rank: int, n: nat)
    ensures
        ({
            let types = parameters.asynchrony_type@;
            let starts = parameters.asynchrony_start@;
            let lengths = parameters.asynchrony_duration@;
            let affected = parameters.affected_nodes@;
            let (offsets, kept_types, kept_lengths) = planned(parameters, rank, n);
            &&& kept_types == positions_below(n).filter_map(
                |i: int|
                    if concerns(types[i], affected[i], rank) {
                        Some(types[i])
                    } else {
                        None
                    },
            )
            &&& kept_lengths == positions_below(n).filter_map(
                |i: int|
                    if concerns(types[i], affected[i], rank) {
                        Some((lengths[i] * 1000) as u64)
                    } else {
                        None
                    },
            )
            &&& offsets == positions_below(n).filter_map(
                |i: int|
                    if !concerns(types[i], affected[i], rank) {
                        None
                    } else if types[i] >= 5 {
                        Some(seq![(starts[i] * 1000) as u64])
                    } else {
                        Some(
                            seq![
                                (starts[i] * 1000) as u64,
                                (starts[i] * 1000 + lengths[i] * 1000) as u64,
                            ],
                        )
                    },
            ).flatten()
        }),
    decreases n,
{
    let types = parameters.asynchrony_type@;
    let starts = parameters.asynchrony_start@;
    let lengths = parameters.asynchrony_duration@;
    let affected = parameters.affected_nodes@;
    let kind = |i: int|
        if concerns(types[i], affected[i], rank) {
            Some(types[i])
        } else {
            None
        };
    let length = |i: int|
        if concerns(types[i], affected[i], rank) {
            Some((lengths[i] * 1000) as u64)
        } else {
            None
        };
    let timers = |i: int|
        if !concerns(types[i], affected[i], rank) {
            None
        } else if types[i] >= 5 {
            Some(seq![(starts[i] * 1000) as u64])
        } else {
            Some(
                seq![
                    (starts[i] * 1000) as u64,
                    (starts[i] * 1000 + lengths[i] * 1000) as u64,
                ],
            )
        };
    let (offsets, kept_types, kept_lengths) = planned(parameters, rank, n);
    if n > 0 {
        law_planned_periods(parameters, rank, (n - 1) as nat);
        lemma_positions_below(n);
        let before = positions_below((n - 1) as nat).filter_map(timers);
        if concerns(types[n - 1], affected[n - 1], rank) {
            let added = timers(n - 1)->0;
            before.lemma_flatten_push(added);
            assert(before + seq![added] =~= before.push(added));
        }
    }
    assert(kept_types =~= positions_below(n).filter_map(kind));
    assert(kept_lengths =~= positions_below(n).filter_map(length));
    assert(offsets =~= positions_below(n).filter_map(timers).flatten());
}

/// Whether a period of a kind concerns the authority at a position, where it affects the first
/// `affected` ones: a failure, an egress delay or a slowdown only those, any other kind all.
pub open spec fn concerns(kind: u8, affected: u64, rank: int) -> bool {
    kind == 0 || kind == 1 || kind == 3 || rank < affected
}

/// Whether a lookup makes a batch pending: the batch was not pending, the store did not fail, and
/// it had failed at every earlier lookup of that batch.
pub open spec fn makes_pending<H>(
    pending: Map<[u8; 32], PendingBatch<H>>,
    lookups: Seq<Lookup<H>>,
    i: int,
) -> bool {
    &&& !pending.dom().contains(lookups[i].key)
    &&& !(lookups[i].outcome is Failed)
    &&& forall|j: int|
        0 <= j < i && (#[trigger] lookups[j]).key == lookups[i].key ==> lookups[j].outcome is Failed
}

/// A request of the primary makes pending exactly the batches that were not and for which the
/// store answered, each with the handle of the first answer, and leaves the others as they were.
/// Missing are exactly those of them that the store said it does not hold, in order.
pub proof fn law_lookups<H>(
    pending: Map<[u8; 32], PendingBatch<H>>,
    round: Round,
    now: u128,
    lookups: Seq<Lookup<H>>,
)
    ensures
        ({
            let (waiting, missing) = after_lookups(pending, round, now, lookups);
            &&& missing == positions_below(lookups.len()).filter_map(
                |i: int|
                    if makes_pending(pending, lookups, i) && lookups[i].outcome is Missing {
                        Some(lookups[i].key)
                    } else {
                        None
                    },
            )
            &&& forall|key: [u8; 32]| #[trigger]
                waiting.dom().contains(key) <==> pending.dom().contains(key) || exists|i: int|
                    0 <= i < lookups.len() && #[trigger] makes_pending(pending, lookups, i)
                        && lookups[i].key == key
            &&& forall|key: [u8; 32]|
                pending.dom().contains(key) ==> #[trigger] waiting[key] == pending[key]
            &&& forall|i: int|
                0 <= i < lookups.len() && #[trigger] makes_pending(pending, lookups, i)
                    ==> waiting[lookups[i].key] == (PendingBatch {
                    round,
                    handler: lookups[i].handler,
                    timestamp: now,
                })
        }),
{
    lemma_lookups(pending, round, now, lookups, lookups.len());
    assert(lookups.take(lookups.len() as int) =~= lookups);
}

proof fn lemma_lookups<H>(
    pending: Map<[u8; 32], PendingBatch<H>>,
    round: Round,
    now: u128,
    lookups: Seq<Lookup<H>>,
    n: nat,
)
    requires
        n <= lookups.len(),
    ensures
        ({
            let (waiting, missing) = after_lookups(pending, round, now, lookups.take(n as int));
            &&& missing == positions_below(n).filter_map(
                |i: int|
                    if makes_pending(pending, lookups, i) && lookups[i].outcome is Missing {
                        Some(lookups[i].key)
                    } else {
                        None
                    },
            )
            &&& forall|key: [u8; 32]| #[trigger]
                waiting.dom().contains(key) <==> pending.dom().contains(key) || exists|i: int|
                    0 <= i < n && #[trigger] makes_pending(pending, lookups, i) && lookups[i].key
                        == key
            &&& forall|key: [u8; 32]|
                pending.dom().contains(key) ==> #[trigger] waiting[key] == pending[key]
            &&& forall|i: int|
                0 <= i < n && #[trigger] makes_pending(pending, lookups, i)
                    ==> waiting[lookups[i].key] == (PendingBatch {
                    round,
                    handler: lookups[i].handler,
                    timestamp: now,
                })
        }),
    decreases n,
{
    let new_missing = |i: int|
        if makes_pending(pending, lookups, i) && lookups[i].outcome is Missing {
            Some(lookups[i].key)
        } else {
            None
        };
    let (waiting, missing) = after_lookups(pending, round, now, lookups.take(n as int));
    if n > 0 {
        let m = n - 1;
        lemma_lookups(pending, round, now, lookups, m as nat);
        lemma_positions_below(n);
        assert(lookups.take(n as int).drop_last() =~= lookups.take(m));
        let (before, earlier) = after_lookups(pending, round, now, lookups.take(m));
        let lookup = lookups[m];
        // The last lookup changes something exactly if it makes the batch pending.
        if makes_pending(pending, lookups, m) {
            if before.dom().contains(lookup.key) {
                let i = choose|i: int|
                    0 <= i < m && #[trigger] makes_pending(pending, lookups, i) && lookups[i].key
                        == lookup.key;
                assert(lookups[i].outcome is Failed);
            }
        } else if !before.dom().contains(lookup.key) && !(lookup.outcome is Failed) {
            let j = choose|j: int|
                0 <= j < m && (#[trigger] lookups[j]).key == lookup.key && !(
                lookups[j].outcome is Failed);
            lemma_first_answer(pending, lookups, j);
            let i = choose|i: int|
                0 <= i <= j && #[trigger] makes_pending(pending, lookups, i) && lookups[i].key
                    == lookup.key;
            assert(before.dom().contains(lookup.key));
        }
        assert forall|key: [u8; 32]| #[trigger]
            waiting.dom().contains(key) <==> pending.dom().contains(key) || exists|i: int|
            0 <= i < n && #[trigger] makes_pending(pending, lookups, i) && lookups[i].key == key by {
            if before.dom().contains(key) && !pending.dom().contains(key) {
                let i = choose|i: int|
                    0 <= i < m && #[trigger] makes_pending(pending, lookups, i) && lookups[i].key
                        == key;
                assert(makes_pending(pending, lookups, i));
            }
        }
        assert forall|i: int|
            0 <= i < n && #[trigger] makes_pending(pending, lookups, i) implies waiting[lookups[i].key]
            == (PendingBatch { round, handler: lookups[i].handler, timestamp: now }) by {
            if i < m && makes_pending(pending, lookups, m) && lookups[i].key == lookup.key {
                assert(lookups[i].outcome is Failed);
            }
        }
    }
    assert(missing =~= positions_below(n).filter_map(new_missing));
}

/// Where the store answered for a batch that was not pending, some answer was the first.
proof fn lemma_first_answer<H>(
    pending: Map<[u8; 32], PendingBatch<H>>,
    lookups: Seq<Lookup<H>>,
    j: int,
)
    requires
        0 <= j < lookups.len(),
        !pending.dom().contains(lookups[j].key),
        !(lookups[j].outcome is Failed),
    ensures
        exists|i: int|
            0 <= i <= j && #[trigger] makes_pending(pending, lookups, i) && lookups[i].key
                == lookups[j].key,
    decreases j,
{
    if !makes_pending(pending, lookups, j) {
        let k = choose|k: int|
            0 <= k < j && (#[trigger] lookups[k]).key == lookups[j].key && !(
            lookups[k].outcome is Failed);
        lemma_first_answer(pending, lookups, k);
        let i = choose|i: int|
            0 <= i <= k && #[trigger] makes_pending(pending, lookups, i) && lookups[i].key
                == lookups[k].key;
        assert(makes_pending(pending, lookups, i));
    } else {
        assert(makes_pending(pending, lookups, j));
    }
}

/// The batches that are asked for again are all those whose waiting time is over, once each, in
/// the order in which they stand.
pub proof fn law_overdue_in_order<H>(
    entries: Seq<([u8; 32], PendingBatch<H>)>,
    delay: u64,
    now: u128,
)
    ensures
        overdue(entries, delay, now) == entries.filter_map(
            |entry: ([u8; 32], PendingBatch<H>)|
                if entry.1.timestamp + delay < now {
                    Some(entry.0)
                } else {
                    None
                },
        ),
    decreases entries.len(),
{
    let late = |entry: ([u8; 32], PendingBatch<H>)|
        if entry.1.timestamp + delay < now {
            Some(entry.0)
        } else {
            None
        };
    if entries.len() > 0 {
        law_overdue_in_order(entries.drop_last(), delay, now);
    }
    assert(overdue(entries, delay, now) =~= entries.filter_map(late));
}

/// A cleanup stops the waiting for all batches that were asked for up to the limit, once each,
/// and keeps all others.
pub proof fn law_cleanup<H>(
    entries: Seq<([u8; 32], PendingBatch<H>)>,
    pending: Map<[u8; 32], PendingBatch<H>>,
    limit: Round,
)
    ensures
        stale_handlers(entries, limit) == entries.filter_map(
            |entry: ([u8; 32], PendingBatch<H>)|
                if entry.1.round <= limit {
                    Some(entry.1.handler)
                } else {
                    None
                },
        ),
        forall|key: [u8; 32]| #[trigger]
            asked_after(pending, limit).dom().contains(key) <==> pending.dom().contains(key)
                && pending[key].round > limit,
        forall|key: [u8; 32]| #[trigger]
            asked_after(pending, limit).dom().contains(key) ==> asked_after(pending, limit)[key]
                == pending[key],
    decreases entries.len(),
{
    let stale = |entry: ([u8; 32], PendingBatch<H>)|
        if entry.1.round <= limit {
            Some(entry.1.handler)
        } else {
            None
        };
    if entries.len() > 0 {
        law_cleanup(entries.drop_last(), pending, limit);
    }
    assert(stale_handlers(entries, limit) =~= entries.filter_map(stale));
}

/// Whether the period at a position can be planned for an authority: its kind is one of the six
/// that there are, its start and its length can be computed in milliseconds, and so can its end
/// where a timer is set for that.
pub open spec fn in_reach(parameters: AsynchronyParameters, rank: int, i: int) -> bool {
    let kind = parameters.asynchrony_type@[i];
    let start = 1000 * parameters.asynchrony_start@[i];
    let length = 1000 * parameters.asynchrony_duration@[i];
    &&& kind < 6
    &&& start <= u64::MAX
    &&& length <= u64::MAX
    &&& kind < 5 && concerns(kind, parameters.affected_nodes@[i], rank) ==> start + length
        <= u64::MAX
}

/// The next period can begin exactly if one is going on, none is left, or its kind is one of the
/// six that there are. The periods can be planned exactly if this authority is a member of the
/// committee and each period is complete and within the limits of the numbers.
pub proof fn law_periods_in_reach<H>(synchronizer: Synchronizer<H>)
    ensures
        ({
            let types = synchronizer.parameters.asynchrony_type@;
            synchronizer.next_effect_known() <==> synchronizer.during_simulated_asynchrony
                || types.len() == 0 || types[0] < 6
        }),
        ({
            let parameters = synchronizer.parameters;
            let n = parameters.asynchrony_start@.len();
            let rank = synchronizer.keys@.index_of(synchronizer.name.0);
            synchronizer.can_plan() <==> {
                &&& synchronizer.keys@.contains(synchronizer.name.0)
                &&& n <= parameters.asynchrony_type@.len()
                &&& n <= parameters.asynchrony_duration@.len()
                &&& n <= parameters.affected_nodes@.len()
                &&& forall|i: int| 0 <= i < n ==> #[trigger] in_reach(parameters, rank, i)
            }
        }),
{
    let parameters = synchronizer.parameters;
    let n = parameters.asynchrony_start@.len();
    let rank = synchronizer.keys@.index_of(synchronizer.name.0);
    assert forall|i: int| 0 <= i < n implies #[trigger] in_reach(parameters, rank, i)
        == period_fits(parameters, rank, i) by {}
    assert forall|i: int| 0 <= i < n implies #[trigger] period_fits(parameters, rank, i)
        == in_reach(parameters, rank, i) by {}
}

} // verus!
