//! Replies to the batch requests of other authorities.
use crate::keys::{
    authority_keys, increasing_keys, lemma_one_position, position_of, sorted_authorities, PublicKey,
    WorkerId,
};
use crate::worker::asynchrony::{AsynchronyParameters, Fate, ReadOutcome};
use vstd::prelude::*;

verus! {

/// What a period of simulated asynchrony does to the helper.
#[derive(Clone, Copy, Debug, PartialEq, Eq, Structural)]
pub enum AsyncEffectType {
    Off,
    TempBlip,
    Failure,
    Partition,
    Egress,
}

/// The number of the last effect.
pub const LAST_EFFECT: u8 = 4;

/// The effect with a given number.
pub open spec fn effect_of(v: u8) -> AsyncEffectType {
    if v == 0 {
        AsyncEffectType::Off
    } else if v == 1 {
        AsyncEffectType::TempBlip
    } else if v == 2 {
        AsyncEffectType::Failure
    } else if v == 3 {
        AsyncEffectType::Partition
    } else {
        AsyncEffectType::Egress
    }
}

/// The effect with a given number.
pub fn uint_to_enum(v: u8) -> (effect: AsyncEffectType)
    requires
        v <= LAST_EFFECT,
    ensures
        effect == effect_of(v),
{
    match v {
        0 => AsyncEffectType::Off,
        1 => AsyncEffectType::TempBlip,
        2 => AsyncEffectType::Failure,
        3 => AsyncEffectType::Partition,
        _ => AsyncEffectType::Egress,
    }
}

/// A reply to a batch request.
pub enum BatchReply<A> {
    /// Send the bytes to the address.
    Send(A, Vec<u8>),
    /// Send the bytes to the address after a delay in milliseconds.
    Delay(A, Vec<u8>, u64),
}

/// Decides how to reply to the batch requests of other authorities.
pub struct Helper {
    /// The public key of this authority.
    pub name: PublicKey,
    /// The id of this worker.
    pub id: WorkerId,
    /// The periods of simulated asynchrony that are configured; of their kinds, those that are
    /// still to begin.
    pub parameters: AsynchronyParameters,
    /// The keys of all authorities in increasing order.
    pub keys: Vec<[u8; 32]>,
    /// Whether a period of simulated asynchrony is on.
    pub during_simulated_asynchrony: bool,
    /// The effect of the current period.
    pub current_effect_type: AsyncEffectType,
    /// Whether some period cuts this authority off.
    pub should_simulate_failure: bool,
    /// Whether some period delays the messages of this authority.
    pub should_simulate_egress: bool,
}

/// The start and the end of each period in milliseconds.
pub open spec fn period_ends(starts: Seq<u64>, durations: Seq<u64>) -> Seq<int> {
    Seq::new(
        2 * starts.len(),
        |k: int|
            if k % 2 == 0 {
                starts[k / 2] * 1000
            } else {
                starts[k / 2] * 1000 + durations[k / 2] * 1000
            },
    )
}

/// The replies to a request, one for each batch that was found, in the order of the request.
pub open spec fn replies_to<A>(
    fate: Fate,
    penalty: u64,
    address: A,
    reads: Seq<ReadOutcome>,
) -> Seq<BatchReply<A>>
    decreases reads.len(),
{
    if reads.len() == 0 || fate == Fate::Drop {
        Seq::empty()
    } else {
        let before = replies_to(fate, penalty, address, reads.drop_last());
        match reads.last() {
            ReadOutcome::Found(bytes) => before.push(
                if fate == Fate::Delay {
                    BatchReply::Delay(address, bytes, penalty)
                } else {
                    BatchReply::Send(address, bytes)
                },
            ),
            _ => before,
        }
    }
}

impl Helper {
    /// Outside a period of simulated asynchrony there is no effect.
    pub open spec fn wf(&self) -> bool {
        !self.during_simulated_asynchrony ==> self.current_effect_type == AsyncEffectType::Off
    }

    /// What becomes of a reply now.
    pub open spec fn fate(&self) -> Fate {
        if !self.during_simulated_asynchrony {
            Fate::Send
        } else if self.current_effect_type == AsyncEffectType::Failure
            && self.should_simulate_failure {
            Fate::Drop
        } else if self.current_effect_type == AsyncEffectType::Egress
            && self.should_simulate_egress {
            Fate::Delay
        } else {
            Fate::Send
        }
    }

    /// The task before its first request.
    pub fn new(
        name: PublicKey,
        id: WorkerId,
        authorities: &Vec<PublicKey>,
        parameters: AsynchronyParameters,
    ) -> (helper: Self)
        requires
            parameters.simulate_asynchrony ==> parameters.readable(LAST_EFFECT),
            parameters.simulate_asynchrony && parameters.singles_out() ==> authority_keys(
                authorities@,
            ).contains(name.0),
        ensures
            helper.wf(),
            helper.name == name,
            helper.id == id,
            helper.parameters == parameters,
            increasing_keys(helper.keys@),
            helper.keys@.to_set() == authority_keys(authorities@).to_set(),
            !helper.during_simulated_asynchrony,
            helper.should_simulate_failure == (parameters.simulate_asynchrony && parameters.hits(
                2,
                helper.keys@.index_of(name.0),
            )),
            helper.should_simulate_egress == (parameters.simulate_asynchrony && parameters.hits(
                4,
                helper.keys@.index_of(name.0),
            )),
    {
        let keys = sorted_authorities(authorities);
        let mut should_simulate_failure = false;
        let mut should_simulate_egress = false;
        if parameters.simulate_asynchrony {
            match position_of(&keys, &name.0) {
                Some(index) => {
                    proof {
                        assert(keys@.contains(name.0));
                        lemma_one_position(keys@, index as int, keys@.index_of(name.0));
                    }
                    should_simulate_failure = parameters.affects(2, LAST_EFFECT, index);
                    should_simulate_egress = parameters.affects(4, LAST_EFFECT, index);
                },
                None => {
                    assert(!keys@.to_set().contains(name.0));
                    assert(!parameters.singles_out());
                },
            }
        }
        Helper {
            name,
            id,
            parameters,
            keys,
            during_simulated_asynchrony: false,
            current_effect_type: AsyncEffectType::Off,
            should_simulate_failure,
            should_simulate_egress,
        }
    }

    /// Whether the ends of all periods can be computed in milliseconds.
    pub open spec fn timers_fit(&self) -> bool {
        &&& self.parameters.asynchrony_start@.len() <= self.parameters.asynchrony_duration@.len()
        &&& forall|i: int|
            0 <= i < self.parameters.asynchrony_start@.len()
                ==> #[trigger] self.parameters.asynchrony_start@[i] * 1000
                + self.parameters.asynchrony_duration@[i] * 1000 <= u64::MAX
    }

    /// Checks that the ends of all periods can be computed in milliseconds.
    pub fn timers_computable(&self) -> (fits: bool)
        ensures
            fits == self.timers_fit(),
    {
        if self.parameters.asynchrony_start.len() > self.parameters.asynchrony_duration.len() {
            return false;
        }
        let mut i: usize = 0;
        while i < self.parameters.asynchrony_start.len()
            invariant
                i <= self.parameters.asynchrony_start@.len()
                    <= self.parameters.asynchrony_duration@.len(),
                forall|j: int|
                    0 <= j < i ==> #[trigger] self.parameters.asynchrony_start@[j] * 1000
                        + self.parameters.asynchrony_duration@[j] * 1000 <= u64::MAX,
            decreases self.parameters.asynchrony_start@.len() - i,
        {
            let start: u128 = self.parameters.asynchrony_start[i] as u128;
            if start * 1000 + self.parameters.asynchrony_duration[i] as u128 * 1000
                > u64::MAX as u128 {
                assert(self.parameters.asynchrony_start@[i as int] == start);
                return false;
            }
            i += 1;
        }
        true
    }

    /// When timers have to fire, in milliseconds from now: at the start and at the end of each
    /// period.
    pub fn timers(&self) -> (offsets: Vec<u64>)
        requires
            self.parameters.simulate_asynchrony ==> self.timers_fit(),
        ensures
            offsets@.map_values(|offset: u64| offset as int) == (
            if self.parameters.simulate_asynchrony {
                period_ends(
                    self.parameters.asynchrony_start@,
                    self.parameters.asynchrony_duration@,
                )
            } else {
                Seq::empty()
            }),
    {
        let mut offsets: Vec<u64> = Vec::new();
        if self.parameters.simulate_asynchrony {
            let ghost ends = period_ends(
                self.parameters.asynchrony_start@,
                self.parameters.asynchrony_duration@,
            );
            let mut i: usize = 0;
            while i < self.parameters.asynchrony_start.len()
                invariant
                    i <= self.parameters.asynchrony_start@.len(),
                    self.timers_fit(),
                    ends == period_ends(
                        self.parameters.asynchrony_start@,
                        self.parameters.asynchrony_duration@,
                    ),
                    offsets@.len() == 2 * i,
                    forall|k: int| 0 <= k < 2 * i ==> #[trigger] offsets@[k] == ends[k],
                decreases self.parameters.asynchrony_start@.len() - i,
            {
                assert(self.parameters.asynchrony_start@[i as int] * 1000
                    + self.parameters.asynchrony_duration@[i as int] * 1000 <= u64::MAX);
                let start_offset: u64 = self.parameters.asynchrony_start[i] * 1000;
                let end_offset: u64 = start_offset + self.parameters.asynchrony_duration[i] * 1000;
                assert(2 * i / 2 == i && (2 * i + 1) / 2 == i);
                offsets.push(start_offset);
                offsets.push(end_offset);
                i += 1;
            }
            assert(offsets@.map_values(|offset: u64| offset as int) =~= ends);
        } else {
            assert(offsets@.map_values(|offset: u64| offset as int) =~= Seq::<int>::empty());
        }
        offsets
    }

    /// Whether a request is to be answered: not if the address of its origin is unknown, and
    /// not while a failure is simulated.
    pub fn accepts<A>(&self, address: &Option<A>) -> (accepted: bool)
        ensures
            accepted == (*address is Some && self.fate() != Fate::Drop),
    {
        address.is_some() && !(self.during_simulated_asynchrony && self.current_effect_type
            == AsyncEffectType::Failure && self.should_simulate_failure)
    }

    /// The replies to a request, given the address of its origin, where it is known, and what
    /// the store said of each batch asked for.
    pub fn reply<A: Copy>(&self, address: Option<A>, reads: Vec<ReadOutcome>) -> (replies: Vec<
        BatchReply<A>,
    >)
        ensures
            replies@ == (match address {
                Some(a) => replies_to(self.fate(), self.parameters.egress_penalty, a, reads@),
                None => Seq::empty(),
            }),
    {
        let mut replies: Vec<BatchReply<A>> = Vec::new();
        if !self.accepts(&address) {
            return replies;
        }
        let delayed = self.during_simulated_asynchrony && self.current_effect_type
            == AsyncEffectType::Egress && self.should_simulate_egress;
        if let Some(address) = address {
            let ghost fate = self.fate();
            let ghost penalty = self.parameters.egress_penalty;
            let ghost all = reads@;
            assert(all.take(0) =~= Seq::<ReadOutcome>::empty());
            for outcome in walk: reads
                invariant
                    fate == self.fate(),
                    fate != Fate::Drop,
                    delayed == (fate == Fate::Delay),
                    penalty == self.parameters.egress_penalty,
                    walk.seq() == all,
                    replies@ == replies_to(fate, penalty, address, all.take(walk.index())),
            {
                let ghost i = walk.index();
                assert(all.take(i + 1).drop_last() =~= all.take(i));
                assert(all.take(i + 1).last() == outcome);
                if let ReadOutcome::Found(bytes) = outcome {
                    if delayed {
                        replies.push(
                            BatchReply::Delay(address, bytes, self.parameters.egress_penalty),
                        );
                    } else {
                        replies.push(BatchReply::Send(address, bytes));
                    }
                }
            }
            assert(all.take(all.len() as int) =~= all);
        }
        replies
    }

    /// Whether the effect of the next period can be read.
    pub open spec fn next_effect_known(&self) -> bool {
        !self.during_simulated_asynchrony && self.parameters.asynchrony_type@.len() > 0
            ==> self.parameters.asynchrony_type@[0] <= LAST_EFFECT
    }

    /// Checks that the effect of the next period can be read.
    pub fn knows_next_effect(&self) -> (known: bool)
        ensures
            known == self.next_effect_known(),
    {
        self.during_simulated_asynchrony || self.parameters.asynchrony_type.len() == 0
            || self.parameters.asynchrony_type[0] <= LAST_EFFECT
    }

    /// Takes a timer: a period begins where none was on, and ends otherwise.
    pub fn on_timer(&mut self)
        requires
            old(self).wf(),
            old(self).next_effect_known(),
        ensures
            final(self).wf(),
            final(self).during_simulated_asynchrony == !old(self).during_simulated_asynchrony,
            ({
                let types = old(self).parameters.asynchrony_type@;
                if old(self).during_simulated_asynchrony || types.len() == 0 {
                    &&& final(self).current_effect_type == AsyncEffectType::Off
                    &&& final(self).parameters.asynchrony_type@ == types
                } else {
                    &&& final(self).current_effect_type == effect_of(types[0])
                    &&& final(self).parameters.asynchrony_type@ == types.drop_first()
                }
            }),
            *final(self) == (Helper {
                during_simulated_asynchrony: final(self).during_simulated_asynchrony,
                current_effect_type: final(self).current_effect_type,
                parameters: (AsynchronyParameters {
                    asynchrony_type: final(self).parameters.asynchrony_type,
                    ..old(self).parameters
                }),
                ..*old(self)
            }),
    {
        self.during_simulated_asynchrony = !self.during_simulated_asynchrony;
        if self.during_simulated_asynchrony {
            match self.parameters.asynchrony_type.pop_front() {
                Some(effect) => {
                    assert(self.parameters.asynchrony_type@
                        =~= old(self).parameters.asynchrony_type@.drop_first());
                    self.current_effect_type = uint_to_enum(effect);
                },
                None => {},
            }
        } else {
            self.current_effect_type = AsyncEffectType::Off;
        }
    }
}

/// While a failure of this authority is simulated, no request is answered, whoever asks and
/// whatever the store holds.
pub proof fn law_failing_helper_is_silent<A>(helper: Helper, address: A, reads: Seq<ReadOutcome>)
    requires
        helper.during_simulated_asynchrony,
        helper.current_effect_type == AsyncEffectType::Failure,
        helper.should_simulate_failure,
    ensures
        replies_to(helper.fate(), helper.parameters.egress_penalty, address, reads).len() == 0,
{
}

/// Outside the simulated periods every batch that was found is sent at once, and nothing else.
pub proof fn law_found_batches_are_sent<A>(
    helper: Helper,
    address: A,
    reads: Seq<ReadOutcome>,
    bytes: Vec<u8>,
)
    requires
        !helper.during_simulated_asynchrony,
    ensures
        ({
            let replies = replies_to(
                helper.fate(),
                helper.parameters.egress_penalty,
                address,
                reads,
            );
            &&& replies.contains(BatchReply::Send(address, bytes)) <==> reads.contains(
                ReadOutcome::Found(bytes),
            )
            &&& forall|i: int|
                0 <= i < replies.len() ==> (#[trigger] replies[i]) is Send && replies[i]->Send_0
                    == address
        }),
    decreases reads.len(),
{
    if reads.len() > 0 {
        let penalty = helper.parameters.egress_penalty;
        let head = reads.drop_last();
        law_found_batches_are_sent(helper, address, head, bytes);
        let before = replies_to(helper.fate(), penalty, address, head);
        let replies = replies_to(helper.fate(), penalty, address, reads);
        let reply = BatchReply::Send(address, bytes);
        let found = ReadOutcome::Found(bytes);
        if before.contains(reply) {
            let i = choose|i: int| 0 <= i < before.len() && before[i] == reply;
            assert(replies[i] == reply);
        }
        if head.contains(found) {
            let i = choose|i: int| 0 <= i < head.len() && head[i] == found;
            assert(reads[i] == found);
        }
        if replies.contains(reply) {
            let i = choose|i: int| 0 <= i < replies.len() && replies[i] == reply;
            if i < before.len() {
                assert(before[i] == reply);
            } else {
                assert(reads.last() == found);
                assert(reads[reads.len() - 1] == found);
            }
        }
        if reads.contains(found) {
            let i = choose|i: int| 0 <= i < reads.len() && reads[i] == found;
            if i < head.len() {
                assert(head[i] == found);
            } else {
                assert(replies[replies.len() - 1] == reply);
            }
        }
    }
}

/// The effects by their numbers.
pub proof fn law_effects()
    ensures
        effect_of(0) == AsyncEffectType::Off,
        effect_of(1) == AsyncEffectType::TempBlip,
        effect_of(2) == AsyncEffectType::Failure,
        effect_of(3) == AsyncEffectType::Partition,
        effect_of(4) == AsyncEffectType::Egress,
{
}

/// Replies are dropped exactly while a failure is simulated that affects this authority, delayed
/// exactly while an egress delay is simulated that does, and sent at once otherwise.
pub proof fn law_fate(helper: Helper)
    ensures
        helper.fate() == Fate::Drop <==> helper.during_simulated_asynchrony
            && helper.current_effect_type == AsyncEffectType::Failure
            && helper.should_simulate_failure,
        helper.fate() == Fate::Delay <==> helper.during_simulated_asynchrony
            && helper.current_effect_type == AsyncEffectType::Egress
            && helper.should_simulate_egress,
{
}

/// A request is answered with the batches that the store holds, all of them, once each, to the
/// one who asked and in the order of the request; delayed if that is their fate.
pub proof fn law_replies<A>(fate: Fate, penalty: u64, address: A, reads: Seq<ReadOutcome>)
    ensures
        fate == Fate::Drop ==> replies_to(fate, penalty, address, reads).len() == 0,
        fate == Fate::Send ==> replies_to(fate, penalty, address, reads) == reads.filter_map(
            |read: ReadOutcome|
                match read {
                    ReadOutcome::Found(bytes) => Some(BatchReply::Send(address, bytes)),
                    _ => None,
                },
        ),
        fate == Fate::Delay ==> replies_to(fate, penalty, address, reads) == reads.filter_map(
            |read: ReadOutcome|
                match read {
                    ReadOutcome::Found(bytes) => Some(BatchReply::Delay(address, bytes, penalty)),
                    _ => None,
                },
        ),
    decreases reads.len(),
{
    let send = |read: ReadOutcome|
        match read {
            ReadOutcome::Found(bytes) => Some(BatchReply::Send(address, bytes)),
            _ => None,
        };
    let delay = |read: ReadOutcome|
        match read {
            ReadOutcome::Found(bytes) => Some(BatchReply::Delay(address, bytes, penalty)),
            _ => None,
        };
    if reads.len() > 0 {
        law_replies(fate, penalty, address, reads.drop_last());
    }
    if fate == Fate::Send {
        assert(replies_to(fate, penalty, address, reads) =~= reads.filter_map(send));
    }
    if fate == Fate::Delay {
        assert(replies_to(fate, penalty, address, reads) =~= reads.filter_map(delay));
    }
}

/// Each period has a timer at its start and one at its end, in milliseconds, one period after
/// the other.
pub proof fn law_two_timers_per_period(starts: Seq<u64>, durations: Seq<u64>, i: int)
    requires
        0 <= i < starts.len(),
    ensures
        period_ends(starts, durations).len() == 2 * starts.len(),
        period_ends(starts, durations)[2 * i] == starts[i] * 1000,
        period_ends(starts, durations)[2 * i + 1] == (starts[i] + durations[i]) * 1000,
{
    assert((2 * i) / 2 == i && (2 * i + 1) / 2 == i);
}

/// The next period can begin exactly if one is going on, none is left, or its kind is one of the
/// five that there are. The timers can be computed exactly if every period has a length and ends
/// within the limits of a `u64` in milliseconds.
pub proof fn law_periods_in_reach(helper: Helper)
    ensures
        ({
            let types = helper.parameters.asynchrony_type@;
            helper.next_effect_known() <==> helper.during_simulated_asynchrony || types.len() == 0
                || types[0] < 5
        }),
        ({
            let starts = helper.parameters.asynchrony_start@;
            let lengths = helper.parameters.asynchrony_duration@;
            helper.timers_fit() <==> {
                &&& starts.len() <= lengths.len()
                &&& forall|i: int|
                    0 <= i < starts.len() ==> 1000 * ((#[trigger] starts[i]) + lengths[i])
                        <= u64::MAX
            }
        }),
{
}

} // verus!
