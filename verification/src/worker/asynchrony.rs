//! The periods of simulated asynchrony that the tasks of a worker share.
use std::collections::VecDeque;
use vstd::prelude::*;

verus! {

/// The configured periods of simulated asynchrony: their kinds, when they start and how long
/// they last in seconds, and how many authorities they affect.
pub struct AsynchronyParameters {
    /// Whether there are such periods at all.
    pub simulate_asynchrony: bool,
    /// The number of the effect of each period.
    pub asynchrony_type: VecDeque<u8>,
    /// When each period starts, in seconds.
    pub asynchrony_start: VecDeque<u64>,
    /// How long each period lasts, in seconds.
    pub asynchrony_duration: VecDeque<u64>,
    /// How many authorities, in the order of their keys, each period affects.
    pub affected_nodes: VecDeque<u64>,
    /// By how many milliseconds an outgoing message is delayed.
    pub egress_penalty: u64,
}

impl AsynchronyParameters {
    /// Whether the effect numbers of all periods are known, and those of the periods that cut
    /// off or delay messages come with a number of affected authorities.
    pub open spec fn readable(&self, last_effect: u8) -> bool {
        &&& self.asynchrony_start@.len() <= self.asynchrony_type@.len()
        &&& forall|i: int|
            0 <= i < self.asynchrony_start@.len() ==> {
                &&& #[trigger] self.asynchrony_type@[i] <= last_effect
                &&& self.asynchrony_type@[i] == 2 || self.asynchrony_type@[i] == 4 ==> i
                    < self.affected_nodes@.len()
            }
    }

    /// Whether some period cuts off or delays the messages of particular authorities.
    pub open spec fn singles_out(&self) -> bool {
        exists|i: int|
            0 <= i < self.asynchrony_start@.len() && (#[trigger] self.asynchrony_type@[i] == 2
                || self.asynchrony_type@[i] == 4)
    }

    /// Whether some period with the given effect affects the authority at position `rank`.
    pub open spec fn hits(&self, effect: u8, rank: int) -> bool {
        exists|i: int|
            #![trigger self.asynchrony_type@[i]]
            0 <= i < self.asynchrony_start@.len() && self.asynchrony_type@[i] == effect && rank
                < self.affected_nodes@[i]
    }

    /// Checks that the effects of all periods can be read.
    pub fn is_readable(&self, last_effect: u8) -> (usable: bool)
        ensures
            usable == self.readable(last_effect),
    {
        if self.asynchrony_start.len() > self.asynchrony_type.len() {
            return false;
        }
        let mut i: usize = 0;
        while i < self.asynchrony_start.len()
            invariant
                i <= self.asynchrony_start@.len() <= self.asynchrony_type@.len(),
                forall|j: int|
                    0 <= j < i ==> {
                        &&& #[trigger] self.asynchrony_type@[j] <= last_effect
                        &&& self.asynchrony_type@[j] == 2 || self.asynchrony_type@[j] == 4 ==> j
                            < self.affected_nodes@.len()
                    },
            decreases self.asynchrony_start@.len() - i,
        {
            let effect: u8 = self.asynchrony_type[i];
            if effect > last_effect || ((effect == 2 || effect == 4) && i
                >= self.affected_nodes.len()) {
                return false;
            }
            i += 1;
        }
        true
    }

    /// Whether some period cuts off or delays the messages of particular authorities.
    pub fn names_authorities(&self, last_effect: u8) -> (found: bool)
        requires
            self.readable(last_effect),
        ensures
            found == self.singles_out(),
    {
        let mut i: usize = 0;
        while i < self.asynchrony_start.len()
            invariant
                i <= self.asynchrony_start@.len(),
                self.readable(last_effect),
                forall|j: int|
                    0 <= j < i ==> #[trigger] self.asynchrony_type@[j] != 2
                        && self.asynchrony_type@[j] != 4,
            decreases self.asynchrony_start@.len() - i,
        {
            let effect: u8 = self.asynchrony_type[i];
            if effect == 2 || effect == 4 {
                return true;
            }
            i += 1;
        }
        false
    }

    /// Whether some period with the given effect affects the authority at position `rank`.
    pub fn affects(&self, effect: u8, last_effect: u8, rank: usize) -> (affected: bool)
        requires
            self.readable(last_effect),
            effect == 2 || effect == 4,
        ensures
            affected == self.hits(effect, rank as int),
    {
        let mut i: usize = 0;
        while i < self.asynchrony_start.len()
            invariant
                i <= self.asynchrony_start@.len(),
                self.readable(last_effect),
                effect == 2 || effect == 4,
                forall|j: int|
                    0 <= j < i && #[trigger] self.asynchrony_type@[j] == effect ==> rank
                        >= self.affected_nodes@[j],
            decreases self.asynchrony_start@.len() - i,
        {
            assert(self.asynchrony_type@[i as int] <= last_effect);
            if self.asynchrony_type[i] == effect && (rank as u64) < self.affected_nodes[i] {
                return true;
            }
            i += 1;
        }
        false
    }
}

/// What becomes of an outgoing message.
#[derive(Clone, Copy, Debug, PartialEq, Eq, Structural)]
pub enum Fate {
    /// It is sent.
    Send,
    /// It is sent after a delay.
    Delay,
    /// It is not sent.
    Drop,
}

/// The outcome of looking a batch up in the store.
pub enum ReadOutcome {
    /// The store holds these bytes.
    Found(Vec<u8>),
    /// The store holds nothing.
    Missing,
    /// The store could not be read.
    Failed,
}

/// A period affects the authorities at the positions below the number that is configured for it.
pub proof fn law_affected_authorities(parameters: AsynchronyParameters, effect: u8, rank: int)
    ensures
        parameters.hits(effect, rank) <==> exists|i: int|
            0 <= i < parameters.asynchrony_start@.len() && #[trigger] parameters.asynchrony_type@[i]
                == effect && rank < parameters.affected_nodes@[i],
        parameters.singles_out() <==> exists|i: int|
            0 <= i < parameters.asynchrony_start@.len() && (
            #[trigger] parameters.asynchrony_type@[i] == 2 || parameters.asynchrony_type@[i] == 4),
{
}

/// A configuration can be read exactly if every period has an effect that is known, and every
/// period that cuts off or delays messages has a number of affected authorities.
pub proof fn law_readable(parameters: AsynchronyParameters, last_effect: u8)
    ensures
        parameters.readable(last_effect) <==> {
            &&& parameters.asynchrony_start@.len() <= parameters.asynchrony_type@.len()
            &&& forall|i: int|
                0 <= i < parameters.asynchrony_start@.len()
                    ==> #[trigger] parameters.asynchrony_type@[i] <= last_effect
            &&& forall|i: int|
                0 <= i < parameters.asynchrony_start@.len() && (
                #[trigger] parameters.asynchrony_type@[i] == 2 || parameters.asynchrony_type@[i]
                    == 4) ==> i < parameters.affected_nodes@.len()
        },
{
}

} // verus!
