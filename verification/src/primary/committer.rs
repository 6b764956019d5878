//! In which order a primary executes what consensus has committed.
use crate::keys::{entry_index, Digest, Height, KeyMap, PublicKey, Slot};
use crate::maps::{key_list, lemma_positions_below, positions_below};
use crate::primary::proposer::MessageKind;
use crate::wire::{
    encoded_keys, law_encoded_keys, law_variant_bytes, lemma_encoded_keys_len,
    lemma_little_endian_len, little_endian, serialize_slot_and_keys,
};
use std::collections::HashMap;
use vstd::prelude::*;

verus! {

/// The number of the variant of a message to a worker that says that a slot was committed.
pub const SLOT_COMMITTED: u32 = 2;

/// A certificate, as far as it is read here.
#[derive(Clone, Copy, Debug)]
pub struct Certificate {
    /// The author of the certified header.
    pub origin: PublicKey,
    /// The height of the certified header.
    pub height: Height,
    /// The digest of the certificate.
    pub digest: Digest,
}

/// A header that is proposed for commitment, with all that lie below it in its lane.
#[derive(Clone, Copy, Debug)]
pub struct Proposal {
    /// The digest of the header.
    pub header_digest: Digest,
    /// The height of the header.
    pub height: Height,
}

/// The execution of a lane up to a proposal: the headers above the stop height, up to that of
/// the proposal.
#[derive(Clone, Copy, Debug)]
pub struct Execution {
    /// The slot that is executed.
    pub slot: Slot,
    /// The author whose lane it is.
    pub author: PublicKey,
    /// The proposal.
    pub proposal: Proposal,
    /// The height up to which the lane had been executed before.
    pub stop_height: Height,
}

/// The lanes and their proposals in a slot.
pub type Proposals = Vec<(PublicKey, Proposal)>;

/// The certificates of a round, under their authors.
pub type RoundCertificates = KeyMap<(Digest, Certificate)>;

/// The state that needs to be persisted for crash-recovery.
pub struct State {
    /// The last committed round.
    pub last_committed_round: Height,
    /// Keeps the last executed height for each authority.
    pub last_executed_heights: KeyMap<Height>,
    /// Keeps the latest committed certificate (and its parents) for every authority.
    pub dag: HashMap<Height, RoundCertificates>,
    /// The proposals of the slots that were committed.
    pub log: HashMap<Slot, Proposals>,
    /// The last executed slot.
    pub last_executed_slot: Slot,
}

/// The certificates, under their authors; of two by the same author the last one counts.
pub open spec fn by_author(certificates: Seq<Certificate>) -> Map<[u8; 32], (Digest, Certificate)>
    decreases certificates.len(),
{
    if certificates.len() == 0 {
        Map::empty()
    } else {
        by_author(certificates.drop_last()).insert(
            certificates.last().origin.0,
            (certificates.last().digest, certificates.last()),
        )
    }
}

/// Whether `height` is the largest of the executed heights.
pub open spec fn is_highest(height: Height, heights: Map<[u8; 32], Height>) -> bool {
    &&& exists|key: [u8; 32]| heights.dom().contains(key) && #[trigger] heights[key] == height
    &&& forall|key: [u8; 32]| heights.dom().contains(key) ==> #[trigger] heights[key] <= height
}

/// The certificates of round `round` that are not below what has been executed of their lanes.
pub open spec fn still_needed(
    certificates: Map<[u8; 32], (Digest, Certificate)>,
    heights: Map<[u8; 32], Height>,
    round: Height,
) -> Map<[u8; 32], (Digest, Certificate)> {
    Map::new(
        |key: [u8; 32]|
            certificates.dom().contains(key) && (heights.dom().contains(key) ==> round
                >= heights[key]),
        |key: [u8; 32]| certificates[key],
    )
}

/// The dag without the certificates that are not needed, without the rounds in which there are
/// none left, and without those that are more than `gc_depth` below the last committed one.
pub open spec fn cleared(
    dag: Map<Height, Map<[u8; 32], (Digest, Certificate)>>,
    heights: Map<[u8; 32], Height>,
    gc_depth: Height,
    last_committed_round: Height,
) -> Map<Height, Map<[u8; 32], (Digest, Certificate)>> {
    Map::new(
        |round: Height|
            {
                &&& dag.dom().contains(round)
                &&& exists|key: [u8; 32]|
                    still_needed(dag[round], heights, round).dom().contains(key)
                &&& round + gc_depth >= last_committed_round
            },
        |round: Height| still_needed(dag[round], heights, round),
    )
}

/// The lanes' heights and the executions after the proposals of a slot, taken one after the
/// other. A proposal that is not above what has been executed of its lane is skipped.
pub open spec fn after_proposals(
    heights: Map<[u8; 32], Height>,
    slot: Slot,
    proposals: Seq<(PublicKey, Proposal)>,
) -> (Map<[u8; 32], Height>, Seq<Execution>)
    decreases proposals.len(),
{
    if proposals.len() == 0 {
        (heights, Seq::empty())
    } else {
        let (reached, executions) = after_proposals(heights, slot, proposals.drop_last());
        let (author, proposal) = proposals.last();
        let stop_height = reached[author.0];
        if proposal.height <= stop_height {
            (reached, executions)
        } else {
            (
                reached.insert(author.0, proposal.height),
                executions.push(Execution { slot, author, proposal, stop_height }),
            )
        }
    }
}

/// The lanes' heights, the executions and the last executed slot after all slots have been
/// executed that follow `last` without a gap in the log.
pub open spec fn after_slots(
    heights: Map<[u8; 32], Height>,
    log: Map<Slot, Proposals>,
    last: Slot,
) -> (Map<[u8; 32], Height>, Seq<Execution>, Slot)
    decreases u64::MAX - last,
{
    if last < u64::MAX && log.dom().contains((last + 1) as u64) {
        let slot = (last + 1) as u64;
        let (reached, executions) = after_proposals(heights, slot, log[slot]@);
        let (end, rest, executed) = after_slots(reached, log, slot);
        (end, executions + rest, executed)
    } else {
        (heights, Seq::empty(), last)
    }
}

/// Whether all lanes that are named in the slots that follow `last` without a gap in the log
/// are known.
pub open spec fn lanes_known(lanes: Set<[u8; 32]>, log: Map<Slot, Proposals>, last: Slot) -> bool
    decreases u64::MAX - last,
{
    if last < u64::MAX && log.dom().contains((last + 1) as u64) {
        let slot = (last + 1) as u64;
        &&& named_lanes_known(lanes, log[slot]@)
        &&& lanes_known(lanes, log, slot)
    } else {
        true
    }
}

/// Whether all lanes that are named in a slot are known.
pub open spec fn named_lanes_known(
    lanes: Set<[u8; 32]>,
    proposals: Seq<(PublicKey, Proposal)>,
) -> bool {
    forall|i: int| 0 <= i < proposals.len() ==> lanes.contains((#[trigger] proposals[i]).0.0)
}

/// What the execution of slots goes by.
pub struct CommitModel {
    /// The last executed height of each lane.
    pub heights: Map<[u8; 32], Height>,
    /// The proposals of the slots that were committed.
    pub log: Map<Slot, Proposals>,
    /// The last executed slot.
    pub last: Slot,
}

/// A consensus message about a slot.
pub struct CommitEvent {
    /// What it is about.
    pub kind: MessageKind,
    /// The slot.
    pub slot: Slot,
    /// The proposals of the slot.
    pub proposals: Proposals,
}

/// What the execution of slots goes by after a message, and what the message has executed. A
/// commit of a slot that was not executed yet is logged, and then the slots that follow the last
/// executed one without a gap are executed; any other message is ignored.
pub open spec fn after_message(model: CommitModel, event: CommitEvent) -> (
    CommitModel,
    Seq<Execution>,
) {
    if event.kind == MessageKind::Commit && event.slot > model.last {
        let log = model.log.insert(event.slot, event.proposals);
        let (heights, executions, last) = after_slots(model.heights, log, model.last);
        (CommitModel { heights, log, last }, executions)
    } else {
        (model, Seq::empty())
    }
}

/// The bytes of the message that a slot was committed.
pub open spec fn slot_committed(slot: Slot, keys: Seq<[u8; 32]>) -> Seq<u8> {
    little_endian(SLOT_COMMITTED as nat, 4) + little_endian(slot as nat, 8) + encoded_keys(keys)
}

proof fn lemma_after_proposals_lanes(
    heights: Map<[u8; 32], Height>,
    slot: Slot,
    proposals: Seq<(PublicKey, Proposal)>,
)
    requires
        named_lanes_known(heights.dom(), proposals),
    ensures
        after_proposals(heights, slot, proposals).0.dom() == heights.dom(),
    decreases proposals.len(),
{
    if proposals.len() > 0 {
        assert(named_lanes_known(heights.dom(), proposals.drop_last())) by {
            assert forall|i: int| 0 <= i < proposals.drop_last().len() implies heights.dom().contains(
                (#[trigger] proposals.drop_last()[i]).0.0,
            ) by {
                assert(proposals.drop_last()[i] == proposals[i]);
            }
        }
        lemma_after_proposals_lanes(heights, slot, proposals.drop_last());
        assert(heights.dom().contains(proposals[proposals.len() - 1].0.0));
        assert(after_proposals(heights, slot, proposals).0.dom() =~= heights.dom());
    }
}

impl State {
    /// The maps in the state stand in order, and no logged slot is the last one that there is.
    pub open spec fn wf(&self) -> bool {
        &&& self.last_executed_heights.wf()
        &&& forall|round: Height| #[trigger]
            self.dag@.dom().contains(round) ==> self.dag@[round].wf()
        &&& !self.log@.dom().contains(u64::MAX)
    }

    /// What the execution of slots goes by.
    pub open spec fn model(&self) -> CommitModel {
        CommitModel {
            heights: self.last_executed_heights@,
            log: self.log@,
            last: self.last_executed_slot,
        }
    }

    /// The certificates in the dag, by round and author.
    pub open spec fn certificates(&self) -> Map<Height, Map<[u8; 32], (Digest, Certificate)>> {
        self.dag@.map_values(|round: RoundCertificates| round@)
    }

    /// The state before any slot was committed.
    pub fn new(genesis: &Vec<Certificate>) -> (state: Self)
        ensures
            state.wf(),
            state.last_committed_round == 0,
            state.last_executed_heights@ == by_author(genesis@).map_values(
                |entry: (Digest, Certificate)| 0u64,
            ),
            state.certificates() == Map::<Height, Map<[u8; 32], (Digest, Certificate)>>::empty().insert(
                0,
                by_author(genesis@),
            ),
            state.log@ == Map::<Slot, Proposals>::empty(),
            state.last_executed_slot == 0,
            state.model() == before_commits(state.last_executed_heights@),
    {
        broadcast use vstd::std_specs::hash::group_hash_axioms;
        let mut round: RoundCertificates = KeyMap::new();
        let mut heights: KeyMap<Height> = KeyMap::new();
        assert(genesis@.take(0) =~= Seq::<Certificate>::empty());
        assert(heights@ =~= by_author(genesis@.take(0)).map_values(
            |entry: (Digest, Certificate)| 0u64,
        ));
        for i in 0..genesis.len()
            invariant
                round.wf(),
                heights.wf(),
                round@ == by_author(genesis@.take(i as int)),
                heights@ == by_author(genesis@.take(i as int)).map_values(
                    |entry: (Digest, Certificate)| 0u64,
                ),
        {
            assert(genesis@.take(i + 1).drop_last() =~= genesis@.take(i as int));
            let certificate = genesis[i];
            round.insert(certificate.origin.0, (certificate.digest, certificate));
            heights.insert(certificate.origin.0, 0);
            assert(heights@ =~= by_author(genesis@.take(i + 1)).map_values(
                |entry: (Digest, Certificate)| 0u64,
            ));
        }
        assert(genesis@.take(genesis@.len() as int) =~= genesis@);
        let mut dag: HashMap<Height, RoundCertificates> = HashMap::new();
        dag.insert(0, round);
        let state = State {
            last_committed_round: 0,
            last_executed_heights: heights,
            dag,
            log: HashMap::new(),
            last_executed_slot: 0,
        };
        assert(state.certificates() =~= Map::<
            Height,
            Map<[u8; 32], (Digest, Certificate)>,
        >::empty().insert(0, by_author(genesis@)));
        state
    }

    /// Executes the proposals of a slot.
    fn execute_proposals(&mut self, slot: Slot, proposals: &Proposals, plan: &mut Vec<Execution>)
        requires
            old(self).wf(),
            named_lanes_known(old(self).last_executed_heights@.dom(), proposals@),
        ensures
            final(self).wf(),
            (
                final(self).last_executed_heights@,
                final(plan)@,
            ) == ({
                let (heights, executions) = after_proposals(
                    old(self).last_executed_heights@,
                    slot,
                    proposals@,
                );
                (heights, old(plan)@ + executions)
            }),
            *final(self) == (State {
                last_executed_heights: final(self).last_executed_heights,
                ..*old(self)
            }),
    {
        let ghost heights = self.last_executed_heights@;
        assert(proposals@.take(0) =~= Seq::<(PublicKey, Proposal)>::empty());
        assert(plan@ =~= old(plan)@ + Seq::<Execution>::empty());
        for i in 0..proposals.len()
            invariant
                self.wf(),
                *self == (State {
                    last_executed_heights: self.last_executed_heights,
                    ..*old(self)
                }),
                named_lanes_known(heights.dom(), proposals@),
                self.last_executed_heights@.dom() == heights.dom(),
                self.last_executed_heights@ == after_proposals(
                    heights,
                    slot,
                    proposals@.take(i as int),
                ).0,
                plan@ == old(plan)@ + after_proposals(heights, slot, proposals@.take(i as int)).1,
        {
            let ghost done = after_proposals(heights, slot, proposals@.take(i as int)).1;
            assert(proposals@.take(i + 1).drop_last() =~= proposals@.take(i as int));
            assert(heights.dom().contains(proposals@[i as int].0.0));
            let (author, proposal) = proposals[i];
            let stop_height: Height = match self.last_executed_heights.get(&author.0) {
                Some(height) => *height,
                None => 0,
            };
            if proposal.height > stop_height {
                self.last_executed_heights.insert(author.0, proposal.height);
                let execution = Execution { slot, author, proposal, stop_height };
                plan.push(execution);
                assert(plan@ =~= old(plan)@ + done.push(execution));
                assert(self.last_executed_heights@.dom() =~= heights.dom());
            }
        }
        assert(proposals@.take(proposals@.len() as int) =~= proposals@);
    }

    /// Checks that a commit message can be taken: all lanes in the slots that would be executed
    /// are known, and the slot is not the last one that there is.
    pub fn can_commit(&self, kind: MessageKind, slot: Slot, proposals: &Proposals) -> (possible:
        bool)
        requires
            self.wf(),
        ensures
            possible == self.accepts_commit(kind, slot, *proposals),
    {
        broadcast use vstd::std_specs::hash::group_hash_axioms;
        if kind != MessageKind::Commit || slot <= self.last_executed_slot {
            return true;
        }
        if slot == u64::MAX {
            return false;
        }
        let ghost log = self.log@.insert(slot, *proposals);
        let ghost lanes = self.last_executed_heights@.dom();
        let mut last: Slot = self.last_executed_slot;
        while last < u64::MAX && (last + 1 == slot || self.log.contains_key(&(last + 1)))
            invariant
                self.wf(),
                kind == MessageKind::Commit,
                self.last_executed_slot < slot < u64::MAX,
                log == self.log@.insert(slot, *proposals),
                lanes == self.last_executed_heights@.dom(),
                lanes_known(lanes, log, self.last_executed_slot) == lanes_known(lanes, log, last),
            decreases u64::MAX - last,
        {
            broadcast use vstd::std_specs::hash::group_hash_axioms;
            let next: Slot = last + 1;
            let known = if next == slot {
                self.names_known_lanes(proposals)
            } else {
                match self.log.get(&next) {
                    Some(logged) => self.names_known_lanes(logged),
                    None => true,
                }
            };
            if !known {
                return false;
            }
            last = next;
        }
        true
    }

    /// Whether all lanes that are named in a slot are known.
    fn names_known_lanes(&self, proposals: &Proposals) -> (known: bool)
        requires
            self.wf(),
        ensures
            known == named_lanes_known(self.last_executed_heights@.dom(), proposals@),
    {
        for i in 0..proposals.len()
            invariant
                self.wf(),
                forall|j: int|
                    0 <= j < i ==> self.last_executed_heights@.dom().contains(
                        (#[trigger] proposals@[j]).0.0,
                    ),
        {
            if !self.last_executed_heights.contains_key(&proposals[i].0.0) {
                assert(!self.last_executed_heights@.dom().contains(proposals@[i as int].0.0));
                return false;
            }
        }
        true
    }

    /// Whether a commit message can be taken.
    pub open spec fn accepts_commit(
        &self,
        kind: MessageKind,
        slot: Slot,
        proposals: Proposals,
    ) -> bool {
        kind == MessageKind::Commit && slot > self.last_executed_slot ==> {
            &&& slot < u64::MAX
            &&& lanes_known(
                self.last_executed_heights@.dom(),
                self.log@.insert(slot, proposals),
                self.last_executed_slot,
            )
        }
    }

    /// Takes a committed certificate: its lane has been executed up to its height, and the dag
    /// is cleared of what is below the executed heights or more than `gc_depth` rounds below
    /// the highest of them.
    pub fn update(&mut self, certificate: &Certificate, gc_depth: Height)
        requires
            old(self).wf(),
        ensures
            final(self).wf(),
            ({
                let heights = old(self).last_executed_heights@;
                let key = certificate.origin.0;
                let height = if heights.dom().contains(key) && heights[key] > certificate.height {
                    heights[key]
                } else {
                    certificate.height
                };
                final(self).last_executed_heights@ == heights.insert(key, height)
            }),
            is_highest(final(self).last_committed_round, final(self).last_executed_heights@),
            final(self).certificates() == cleared(
                old(self).certificates(),
                final(self).last_executed_heights@,
                gc_depth,
                final(self).last_committed_round,
            ),
            final(self).log == old(self).log,
            final(self).last_executed_slot == old(self).last_executed_slot,
    {
        let height: Height = match self.last_executed_heights.get(&certificate.origin.0) {
            Some(executed) => if *executed > certificate.height {
                *executed
            } else {
                certificate.height
            },
            None => certificate.height,
        };
        self.last_executed_heights.insert(certificate.origin.0, height);
        assert(self.last_executed_heights@.dom().contains(certificate.origin.0));
        let last_committed_round = highest(&self.last_executed_heights);
        self.last_committed_round = last_committed_round;
        self.clear_dag(gc_depth);
    }

    /// Clears the dag of what is below the executed heights or too far below the last committed
    /// round.
    fn clear_dag(&mut self, gc_depth: Height)
        requires
            old(self).wf(),
        ensures
            final(self).wf(),
            final(self).certificates() == cleared(
                old(self).certificates(),
                old(self).last_executed_heights@,
                gc_depth,
                old(self).last_committed_round,
            ),
            *final(self) == (State { dag: final(self).dag, ..*old(self) }),
    {
        broadcast use vstd::std_specs::hash::group_hash_axioms;
        let rounds = key_list(&self.dag);
        let limit: Height = if self.last_committed_round > gc_depth {
            self.last_committed_round - gc_depth
        } else {
            0
        };
        let ghost heights = self.last_executed_heights@;
        let ghost all = old(self).certificates();
        let mut i: usize = 0;
        while i < rounds.len()
            invariant
                i <= rounds@.len(),
                rounds@.no_duplicates(),
                rounds@.to_set() == all.dom(),
                heights == old(self).last_executed_heights@,
                limit == (if old(self).last_committed_round > gc_depth {
                    old(self).last_committed_round - gc_depth
                } else {
                    0
                }),
                all == old(self).certificates(),
                self.wf(),
                *self == (State { dag: self.dag, ..*old(self) }),
                forall|j: int|
                    i <= j < rounds@.len() ==> self.dag@.dom().contains(#[trigger] rounds@[j])
                        && self.dag@[rounds@[j]]@ == all[rounds@[j]],
                forall|j: int|
                    0 <= j < i ==> {
                        let round = #[trigger] rounds@[j];
                        let needed = still_needed(all[round], heights, round);
                        &&& self.dag@.dom().contains(round) <==> (exists|key: [u8; 32]|
                            needed.dom().contains(key)) && round >= limit
                        &&& self.dag@.dom().contains(round) ==> self.dag@[round]@ == needed
                    },
                self.dag@.dom().subset_of(all.dom()),
            decreases rounds@.len() - i,
        {
            broadcast use vstd::std_specs::hash::group_hash_axioms;
            let round: Height = rounds[i];
            let ghost before = self.dag@;
            assert(before.dom().contains(round));
            if let Some(mut certificates) = self.dag.remove(&round) {
                drop_executed(&mut certificates, &self.last_executed_heights, round);
                let ghost needed = still_needed(all[round], heights, round);
                let left = certificates.len();
                proof {
                    certificates.lemma_domain();
                    if left == 0 {
                        assert(needed.dom() =~= Set::<[u8; 32]>::empty());
                    } else {
                        certificates.lemma_entry(0);
                        assert(needed.dom().contains(certificates.entries@[0].0));
                    }
                }
                if left > 0 && round >= limit {
                    self.dag.insert(round, certificates);
                }
            }
            assert forall|j: int|
                i + 1 <= j < rounds@.len() implies self.dag@.dom().contains(#[trigger] rounds@[j])
                && self.dag@[rounds@[j]]@ == all[rounds@[j]] by {
                assert(rounds@[j] != round);
                assert(before.dom().contains(rounds@[j]));
            }
            assert forall|j: int| 0 <= j < i + 1 implies {
                let r = #[trigger] rounds@[j];
                let needed = still_needed(all[r], heights, r);
                &&& self.dag@.dom().contains(r) <==> (exists|key: [u8; 32]|
                    needed.dom().contains(key)) && r >= limit
                &&& self.dag@.dom().contains(r) ==> self.dag@[r]@ == needed
            } by {
                if j < i {
                    assert(rounds@[j] != round);
                    let r = rounds@[j];
                    assert(self.dag@.dom().contains(r) == before.dom().contains(r));
                }
            }
            i += 1;
        }
        proof {
            let result = cleared(all, heights, gc_depth, old(self).last_committed_round);
            assert forall|round: Height| #![trigger self.certificates().dom().contains(round)]
                #![trigger self.certificates()[round]]
                self.certificates().dom().contains(round) == result.dom().contains(round) && (
                self.certificates().dom().contains(round) ==> self.certificates()[round]
                    == result[round]) by {
                if all.dom().contains(round) {
                    assert(rounds@.to_set().contains(round));
                    let j = choose|j: int| 0 <= j < rounds@.len() && rounds@[j] == round;
                    assert(rounds@[j] == round);
                }
            }
            assert(self.certificates() =~= result);
        }
    }
}

/// Decides what a primary executes, and what its workers are told of it.
pub struct Committer {
    /// The name of this primary.
    pub name: PublicKey,
    /// How many rounds of the dag are kept below the last committed one.
    pub gc_depth: Height,
}

impl Committer {
    /// Takes a consensus message about a slot. A commit of a slot that was not executed yet is
    /// logged, and then the slots that follow the last executed one without a gap are executed
    /// in order. Gives back what has to be executed.
    pub fn process_commit_message(
        &self,
        state: &mut State,
        kind: MessageKind,
        slot: Slot,
        proposals: Proposals,
    ) -> (plan: Vec<Execution>)
        requires
            old(state).wf(),
            old(state).accepts_commit(kind, slot, proposals),
        ensures
            final(state).wf(),
            (final(state).model(), plan@) == after_message(
                old(state).model(),
                CommitEvent { kind, slot, proposals },
            ),
            final(state).dag == old(state).dag,
            final(state).last_committed_round == old(state).last_committed_round,
    {
        broadcast use vstd::std_specs::hash::group_hash_axioms;
        let mut plan: Vec<Execution> = Vec::new();
        if kind != MessageKind::Commit || slot <= state.last_executed_slot {
            return plan;
        }
        state.log.insert(slot, proposals);
        let ghost log = state.log@;
        let ghost all = after_slots(state.last_executed_heights@, log, state.last_executed_slot);
        assert(plan@ + all.1 =~= all.1);
        while state.log.contains_key(&(state.last_executed_slot + 1))
            invariant
                state.wf(),
                state.last_executed_slot < u64::MAX,
                state.log@ == log,
                state.dag == old(state).dag,
                state.last_committed_round == old(state).last_committed_round,
                lanes_known(state.last_executed_heights@.dom(), log, state.last_executed_slot),
                ({
                    let (end, rest, executed) = after_slots(
                        state.last_executed_heights@,
                        log,
                        state.last_executed_slot,
                    );
                    all == (end, plan@ + rest, executed)
                }),
            decreases u64::MAX - state.last_executed_slot,
        {
            broadcast use vstd::std_specs::hash::group_hash_axioms;
            let executed_slot: Slot = state.last_executed_slot + 1;
            let ghost heights = state.last_executed_heights@;
            let ghost before = plan@;
            let mut current: Proposals = Vec::new();
            if let Some(logged) = state.log.get(&executed_slot) {
                current = copy_proposals(logged);
            }
            proof {
                lemma_after_proposals_lanes(heights, executed_slot, current@);
            }
            state.execute_proposals(executed_slot, &current, &mut plan);
            state.last_executed_slot = executed_slot;
            proof {
                let (reached, executions) = after_proposals(heights, executed_slot, current@);
                let rest = after_slots(reached, log, executed_slot).1;
                assert(before + (executions + rest) =~= before + executions + rest);
            }
        }
        assert(plan@ + Seq::<Execution>::empty() =~= plan@);
        plan
    }

    /// What worker zero is told of the batches of an executed header, given their digests in
    /// increasing order: nothing if there are none. `worker_known` says whether the committee has
    /// that worker.
    pub fn slot_committed_message(
        &self,
        slot: Slot,
        payload: &Vec<[u8; 32]>,
        worker_known: bool,
    ) -> (message: Option<Vec<u8>>)
        ensures
            match message {
                Some(bytes) => payload@.len() > 0 && worker_known && bytes@ == slot_committed(
                    slot,
                    payload@,
                ),
                None => payload@.len() == 0 || !worker_known,
            },
    {
        if payload.len() == 0 || !worker_known {
            return None;
        }
        Some(serialize_slot_and_keys(SLOT_COMMITTED, slot, payload))
    }
}

/// The largest of the executed heights.
fn highest(heights: &KeyMap<Height>) -> (height: Height)
    requires
        heights.wf(),
        exists|key: [u8; 32]| heights@.dom().contains(key),
    ensures
        is_highest(height, heights@),
{
    proof {
        heights.lemma_domain();
        if heights.entries@.len() == 0 {
            let key = choose|key: [u8; 32]| heights@.dom().contains(key);
            assert(heights.key_seq().contains(key));
        }
    }
    let mut height: Height = heights.entries[0].1;
    let mut i: usize = 1;
    let ghost mut found: int = 0;
    while i < heights.entries.len()
        invariant
            1 <= i <= heights.entries@.len(),
            0 <= found < i,
            heights.entries@[found].1 == height,
            forall|j: int| 0 <= j < i ==> (#[trigger] heights.entries@[j]).1 <= height,
        decreases heights.entries@.len() - i,
    {
        if heights.entries[i].1 > height {
            height = heights.entries[i].1;
            proof {
                found = i as int;
            }
        }
        i += 1;
    }
    proof {
        heights.lemma_entry(found);
        assert forall|key: [u8; 32]| heights@.dom().contains(key) implies #[trigger] heights@[key]
            <= height by {
            let j = entry_index(heights.entries@, key);
            heights.lemma_entry(j);
        }
    }
    height
}

/// Drops the certificates of a round that are below what has been executed of their lanes.
fn drop_executed(certificates: &mut RoundCertificates, heights: &KeyMap<Height>, round: Height)
    requires
        old(certificates).wf(),
        heights.wf(),
    ensures
        final(certificates).wf(),
        final(certificates)@ == still_needed(old(certificates)@, heights@, round),
{
    let ghost all = certificates@;
    let keys = certificates.keys();
    let mut i: usize = 0;
    while i < keys.len()
        invariant
            i <= keys@.len(),
            certificates.wf(),
            heights.wf(),
            keys@.no_duplicates(),
            keys@.to_set() == all.dom(),
            certificates@.dom().subset_of(all.dom()),
            forall|key: [u8; 32]| #[trigger]
                certificates@.dom().contains(key) ==> certificates@[key] == all[key],
            forall|j: int|
                i <= j < keys@.len() ==> certificates@.dom().contains(#[trigger] keys@[j]),
            forall|j: int|
                0 <= j < i ==> (certificates@.dom().contains(#[trigger] keys@[j]) <==> (
                heights@.dom().contains(keys@[j]) ==> round >= heights@[keys@[j]])),
        decreases keys@.len() - i,
    {
        let ghost before = certificates@;
        let ghost key = keys@[i as int];
        let executed = match heights.get(&keys[i]) {
            Some(height) => round < *height,
            None => false,
        };
        if executed {
            certificates.remove(&keys[i]);
        }
        assert forall|j: int|
            0 <= j < keys@.len() && j != i implies certificates@.dom().contains(
            #[trigger] keys@[j],
        ) == before.dom().contains(keys@[j]) by {
            assert(keys@[j] != key);
        }
        i += 1;
    }
    proof {
        let needed = still_needed(all, heights@, round);
        assert forall|key: [u8; 32]| #![trigger certificates@.dom().contains(key)]
            #![trigger certificates@[key]]
            certificates@.dom().contains(key) == needed.dom().contains(key) && (
            certificates@.dom().contains(key) ==> certificates@[key] == needed[key]) by {
            if all.dom().contains(key) {
                assert(keys@.to_set().contains(key));
                let j = choose|j: int| 0 <= j < keys@.len() && keys@[j] == key;
                assert(keys@[j] == key);
            }
        }
        assert(certificates@ =~= needed);
    }
}

/// A copy of the proposals of a slot.
fn copy_proposals(proposals: &Proposals) -> (copy: Proposals)
    ensures
        copy@ == proposals@,
{
    let mut copy: Proposals = Vec::new();
    for i in 0..proposals.len()
        invariant
            copy@ == proposals@.take(i as int),
    {
        copy.push(proposals[i]);
        assert(proposals@.take(i + 1) =~= proposals@.take(i as int).push(proposals@[i as int]));
    }
    assert(proposals@.take(proposals@.len() as int) =~= proposals@);
    copy
}

proof fn lemma_after_proposals(
    heights: Map<[u8; 32], Height>,
    slot: Slot,
    proposals: Seq<(PublicKey, Proposal)>,
    lane: [u8; 32],
)
    ensures
        ({
            let (reached, executions) = after_proposals(heights, slot, proposals);
            &&& lane_connected(executions, lane, heights[lane])
            &&& lane_end(executions, lane, heights[lane]) == reached[lane]
            &&& forall|i: int| 0 <= i < executions.len() ==> (#[trigger] executions[i]).slot == slot
        }),
    decreases proposals.len(),
{
    if proposals.len() > 0 {
        lemma_after_proposals(heights, slot, proposals.drop_last(), lane);
        let (reached, executions) = after_proposals(heights, slot, proposals.drop_last());
        let (author, proposal) = proposals.last();
        let execution = Execution { slot, author, proposal, stop_height: reached[author.0] };
        assert(executions.push(execution).drop_last() =~= executions);
    }
}

/// The height up to which the executions take a lane that starts at `start`.
pub open spec fn lane_end(executions: Seq<Execution>, lane: [u8; 32], start: Height) -> Height
    decreases executions.len(),
{
    if executions.len() == 0 {
        start
    } else if executions.last().author.0 == lane {
        executions.last().proposal.height
    } else {
        lane_end(executions.drop_last(), lane, start)
    }
}

/// Whether the executions of a lane that starts at `start` go upwards, each from where the one
/// before it ended.
pub open spec fn lane_connected(
    executions: Seq<Execution>,
    lane: [u8; 32],
    start: Height,
) -> bool
    decreases executions.len(),
{
    if executions.len() == 0 {
        true
    } else {
        let execution = executions.last();
        &&& lane_connected(executions.drop_last(), lane, start)
        &&& execution.author.0 == lane ==> {
            &&& execution.stop_height == lane_end(executions.drop_last(), lane, start)
            &&& execution.stop_height < execution.proposal.height
        }
    }
}

proof fn lemma_lane_append(
    first: Seq<Execution>,
    second: Seq<Execution>,
    lane: [u8; 32],
    start: Height,
)
    requires
        lane_connected(first, lane, start),
        lane_connected(second, lane, lane_end(first, lane, start)),
    ensures
        lane_connected(first + second, lane, start),
        lane_end(first + second, lane, start) == lane_end(
            second,
            lane,
            lane_end(first, lane, start),
        ),
    decreases second.len(),
{
    if second.len() == 0 {
        assert(first + second =~= first);
    } else {
        lemma_lane_append(first, second.drop_last(), lane, start);
        assert((first + second).drop_last() =~= first + second.drop_last());
        assert((first + second).last() == second.last());
    }
}

/// Every header of a lane is executed once and in order: the executions of a lane begin where
/// it had been executed to, each goes on where the one before it ended, and the state keeps
/// where the last one ended.
pub proof fn law_lanes_executed_without_gap(
    heights: Map<[u8; 32], Height>,
    log: Map<Slot, Proposals>,
    last: Slot,
    lane: [u8; 32],
)
    ensures
        ({
            let (reached, executions, _) = after_slots(heights, log, last);
            &&& lane_connected(executions, lane, heights[lane])
            &&& lane_end(executions, lane, heights[lane]) == reached[lane]
        }),
    decreases u64::MAX - last,
{
    if last < u64::MAX && log.dom().contains((last + 1) as u64) {
        let slot = (last + 1) as u64;
        lemma_after_proposals(heights, slot, log[slot]@, lane);
        let (reached, executions) = after_proposals(heights, slot, log[slot]@);
        law_lanes_executed_without_gap(reached, log, slot, lane);
        let (_, rest, _) = after_slots(reached, log, slot);
        lemma_lane_append(executions, rest, lane, heights[lane]);
    }
}

proof fn lemma_lane_rises(executions: Seq<Execution>, lane: [u8; 32], start: Height)
    requires
        lane_connected(executions, lane, start),
    ensures
        start <= lane_end(executions, lane, start),
    decreases executions.len(),
{
    if executions.len() > 0 {
        lemma_lane_rises(executions.drop_last(), lane, start);
    }
}

/// The executed height of a lane never falls.
pub proof fn law_heights_never_fall(
    heights: Map<[u8; 32], Height>,
    log: Map<Slot, Proposals>,
    last: Slot,
    lane: [u8; 32],
)
    ensures
        heights[lane] <= after_slots(heights, log, last).0[lane],
{
    law_lanes_executed_without_gap(heights, log, last, lane);
    lemma_lane_rises(after_slots(heights, log, last).1, lane, heights[lane]);
}

/// Slots are executed in order and without a gap: all slots up to the last executed one are in
/// the log, the next one is not, and the executions are about these slots, in order.
pub proof fn law_slots_executed_in_order(
    heights: Map<[u8; 32], Height>,
    log: Map<Slot, Proposals>,
    last: Slot,
)
    requires
        !log.dom().contains(u64::MAX),
        last < u64::MAX,
    ensures
        ({
            let (_, executions, executed) = after_slots(heights, log, last);
            &&& last <= executed < u64::MAX
            &&& forall|slot: Slot| last < slot <= executed ==> #[trigger] log.dom().contains(slot)
            &&& !log.dom().contains((executed + 1) as u64)
            &&& forall|i: int|
                0 <= i < executions.len() ==> last < (#[trigger] executions[i]).slot <= executed
            &&& forall|i: int, j: int|
                0 <= i < j < executions.len() ==> (#[trigger] executions[i]).slot <= (
                #[trigger] executions[j]).slot
        }),
    decreases u64::MAX - last,
{
    if log.dom().contains((last + 1) as u64) {
        let slot = (last + 1) as u64;
        lemma_after_proposals(heights, slot, log[slot]@, arbitrary());
        let (reached, executions) = after_proposals(heights, slot, log[slot]@);
        law_slots_executed_in_order(reached, log, slot);
    }
}

/// The last executed slot is not before the one from which the execution goes on.
proof fn lemma_last_not_before(
    heights: Map<[u8; 32], Height>,
    log: Map<Slot, Proposals>,
    last: Slot,
)
    ensures
        last <= after_slots(heights, log, last).2,
    decreases u64::MAX - last,
{
    if last < u64::MAX && log.dom().contains((last + 1) as u64) {
        let slot = (last + 1) as u64;
        lemma_last_not_before(after_proposals(heights, slot, log[slot]@).0, log, slot);
    }
}

/// The execution stops before a slot that is not in the log.
proof fn lemma_stops_before_gap(
    heights: Map<[u8; 32], Height>,
    log: Map<Slot, Proposals>,
    last: Slot,
    slot: Slot,
)
    requires
        last < slot,
        !log.dom().contains(slot),
    ensures
        after_slots(heights, log, last).2 < slot,
    decreases u64::MAX - last,
{
    if log.dom().contains((last + 1) as u64) {
        let next = (last + 1) as u64;
        lemma_stops_before_gap(after_proposals(heights, next, log[next]@).0, log, next, slot);
    }
}

/// What has been executed stays a prefix of what is executed when one more slot is logged.
proof fn lemma_resume(
    heights: Map<[u8; 32], Height>,
    log: Map<Slot, Proposals>,
    last: Slot,
    slot: Slot,
    proposals: Proposals,
)
    requires
        after_slots(heights, log, last).2 < slot,
    ensures
        ({
            let (reached, executions, executed) = after_slots(heights, log, last);
            let longer = log.insert(slot, proposals);
            let (end, rest, final_slot) = after_slots(reached, longer, executed);
            &&& after_slots(heights, longer, last) == (end, executions + rest, final_slot)
        }),
    decreases u64::MAX - last,
{
    let longer = log.insert(slot, proposals);
    if last < u64::MAX && log.dom().contains((last + 1) as u64) {
        let next = (last + 1) as u64;
        let (reached, executions) = after_proposals(heights, next, log[next]@);
        lemma_last_not_before(reached, log, next);
        lemma_resume(reached, log, next, slot, proposals);
        let (r2, e2, s2) = after_slots(reached, log, next);
        let (_, rest, _) = after_slots(r2, longer, s2);
        assert(executions + (e2 + rest) =~= (executions + e2) + rest);
    } else {
        let rest = after_slots(heights, longer, last).1;
        assert(Seq::<Execution>::empty() + rest =~= rest);
    }
}

/// Commits may arrive in any order: of two slots that have not been logged, it does not matter
/// which is committed first. Both ways the same is executed in the same order, and the same
/// heights and the same last executed slot are reached.
pub proof fn law_commit_order_irrelevant(
    heights: Map<[u8; 32], Height>,
    log: Map<Slot, Proposals>,
    last: Slot,
    slot_a: Slot,
    a: Proposals,
    slot_b: Slot,
    b: Proposals,
)
    requires
        slot_a != slot_b,
        last < slot_a,
        last < slot_b,
        !log.dom().contains(slot_a),
        !log.dom().contains(slot_b),
    ensures
        ({
            let with_a = log.insert(slot_a, a);
            let with_b = log.insert(slot_b, b);
            let (heights_a, first_a, last_a) = after_slots(heights, with_a, last);
            let (heights_b, first_b, last_b) = after_slots(heights, with_b, last);
            let (end_ab, then_b, last_ab) = after_slots(
                heights_a,
                with_a.insert(slot_b, b),
                last_a,
            );
            let (end_ba, then_a, last_ba) = after_slots(
                heights_b,
                with_b.insert(slot_a, a),
                last_b,
            );
            &&& last_a < slot_b
            &&& last_b < slot_a
            &&& end_ab == end_ba
            &&& first_a + then_b == first_b + then_a
            &&& last_ab == last_ba
        }),
{
    lemma_stops_before_gap(heights, log.insert(slot_a, a), last, slot_b);
    lemma_stops_before_gap(heights, log.insert(slot_b, b), last, slot_a);
    lemma_resume(heights, log.insert(slot_a, a), last, slot_b, b);
    lemma_resume(heights, log.insert(slot_b, b), last, slot_a, a);
    assert(log.insert(slot_a, a).insert(slot_b, b) =~= log.insert(slot_b, b).insert(slot_a, a));
}

/// What the execution goes by after a run of messages, and the executions of all of them, one
/// message after the other.
pub open spec fn after_messages(model: CommitModel, events: Seq<CommitEvent>) -> (
    CommitModel,
    Seq<Execution>,
)
    decreases events.len(),
{
    if events.len() == 0 {
        (model, Seq::empty())
    } else {
        let (before, executions) = after_messages(model, events.drop_last());
        let (after, more) = after_message(before, events.last());
        (after, executions + more)
    }
}

/// What the execution goes by before the first commit.
pub open spec fn before_commits(heights: Map<[u8; 32], Height>) -> CommitModel {
    CommitModel { heights, log: Map::empty(), last: 0 }
}

/// Whether a slot is committed in a run of messages.
pub open spec fn is_committed(events: Seq<CommitEvent>, slot: Slot) -> bool {
    exists|i: int|
        0 <= i < events.len() && (#[trigger] events[i]).kind == MessageKind::Commit
            && events[i].slot == slot
}

/// Over any run of messages, what was executed, in which order, the heights that were reached
/// and the last executed slot are what executing the final log from the start gives. So they do
/// not depend on the order in which the commits came.
pub proof fn law_run_executes_the_log(
    heights: Map<[u8; 32], Height>,
    events: Seq<CommitEvent>,
)
    ensures
        ({
            let (model, executions) = after_messages(before_commits(heights), events);
            after_slots(heights, model.log, 0) == (model.heights, executions, model.last)
        }),
    decreases events.len(),
{
    if events.len() > 0 {
        law_run_executes_the_log(heights, events.drop_last());
        let (before, executions) = after_messages(before_commits(heights), events.drop_last());
        let event = events.last();
        if event.kind == MessageKind::Commit && event.slot > before.last {
            lemma_resume(heights, before.log, 0, event.slot, event.proposals);
        } else {
            assert(executions + Seq::<Execution>::empty() =~= executions);
        }
    }
}

/// The log of a run holds the committed slots, but for those that had been executed already when
/// they were committed.
proof fn lemma_run_log(heights: Map<[u8; 32], Height>, events: Seq<CommitEvent>, slot: Slot)
    requires
        !is_committed(events, u64::MAX),
        slot > 0,
    ensures
        ({
            let (model, _) = after_messages(before_commits(heights), events);
            &&& model.log.dom().contains(slot) <==> is_committed(events, slot)
            &&& !model.log.dom().contains(u64::MAX)
        }),
    decreases events.len(),
{
    if events.len() > 0 {
        let head = events.drop_last();
        let event = events.last();
        assert(events[events.len() - 1] == event);
        assert forall|s: Slot| is_committed(head, s) implies #[trigger] is_committed(events, s) by {
            let i = choose|i: int|
                0 <= i < head.len() && (#[trigger] head[i]).kind == MessageKind::Commit
                    && head[i].slot == s;
            assert(events[i] == head[i]);
        }
        assert forall|s: Slot| #[trigger] is_committed(events, s) implies is_committed(head, s) || (
        event.kind == MessageKind::Commit && event.slot == s) by {
            let i = choose|i: int|
                0 <= i < events.len() && (#[trigger] events[i]).kind == MessageKind::Commit
                    && events[i].slot == s;
            if i < head.len() {
                assert(head[i] == events[i]);
            }
        }
        assert(!is_committed(head, u64::MAX));
        lemma_run_log(heights, head, slot);
        let (before, _) = after_messages(before_commits(heights), head);
        if event.kind == MessageKind::Commit && event.slot == slot && slot <= before.last {
            law_run_executes_the_log(heights, head);
            law_slots_executed_in_order(heights, before.log, 0);
            assert(before.log.dom().contains(slot));
        }
    }
}

/// After any run of messages, the last executed slot is the largest one up to which all slots
/// have been committed: a gap stops the execution, and nothing else does.
pub proof fn law_run_stops_at_first_gap(
    heights: Map<[u8; 32], Height>,
    events: Seq<CommitEvent>,
)
    requires
        !is_committed(events, u64::MAX),
    ensures
        ({
            let last = after_messages(before_commits(heights), events).0.last;
            &&& last < u64::MAX
            &&& forall|slot: Slot| 1 <= slot <= last ==> #[trigger] is_committed(events, slot)
            &&& !is_committed(events, (last + 1) as Slot)
        }),
{
    let model = after_messages(before_commits(heights), events).0;
    lemma_run_log(heights, events, 1);
    law_run_executes_the_log(heights, events);
    law_slots_executed_in_order(heights, model.log, 0);
    assert forall|slot: Slot| 1 <= slot <= model.last implies #[trigger] is_committed(
        events,
        slot,
    ) by {
        lemma_run_log(heights, events, slot);
    }
    lemma_run_log(heights, events, (model.last + 1) as Slot);
}

/// When the commits of the slots from one to `n` have come, in any order and however often, and
/// no other, the last executed slot is `n`.
pub proof fn law_commits_in_any_order(
    heights: Map<[u8; 32], Height>,
    events: Seq<CommitEvent>,
    n: Slot,
)
    requires
        n < u64::MAX,
        forall|slot: Slot| slot > 0 ==> (#[trigger] is_committed(events, slot) <==> slot <= n),
    ensures
        after_messages(before_commits(heights), events).0.last == n,
{
    assert(!is_committed(events, u64::MAX));
    law_run_stops_at_first_gap(heights, events);
    let last = after_messages(before_commits(heights), events).0.last;
    assert(!is_committed(events, (last + 1) as Slot));
    if last > n {
        assert(is_committed(events, last));
    }
}

/// Over any run of messages, the executions of a lane begin where it had been executed to, each
/// goes on where the one before it ended, and the state keeps where the last one ended.
pub proof fn law_run_lanes_without_gap(
    heights: Map<[u8; 32], Height>,
    events: Seq<CommitEvent>,
    lane: [u8; 32],
)
    ensures
        ({
            let (model, executions) = after_messages(before_commits(heights), events);
            &&& lane_connected(executions, lane, heights[lane])
            &&& lane_end(executions, lane, heights[lane]) == model.heights[lane]
        }),
{
    law_run_executes_the_log(heights, events);
    law_lanes_executed_without_gap(
        heights,
        after_messages(before_commits(heights), events).0.log,
        0,
        lane,
    );
}

proof fn lemma_lane_disjoint(
    executions: Seq<Execution>,
    lane: [u8; 32],
    start: Height,
    i: int,
)
    requires
        lane_connected(executions, lane, start),
        0 <= i < executions.len(),
        executions[i].author.0 == lane,
    ensures
        executions[i].stop_height < executions[i].proposal.height <= lane_end(
            executions,
            lane,
            start,
        ),
        forall|j: int|
            i < j < executions.len() && (#[trigger] executions[j]).author.0 == lane
                ==> executions[i].proposal.height <= executions[j].stop_height,
    decreases executions.len(),
{
    let head = executions.drop_last();
    let n = executions.len() - 1;
    if i < n {
        assert(head[i] == executions[i]);
        lemma_lane_disjoint(head, lane, start, i);
        assert forall|j: int|
            i < j < executions.len() && (#[trigger] executions[j]).author.0
                == lane implies executions[i].proposal.height <= executions[j].stop_height by {
            if j < n {
                assert(head[j] == executions[j]);
            }
        }
    }
}

/// No header is executed twice over any run of messages: of two executions of the same lane, the
/// later one starts above where the earlier one ended. And the slots are executed in order.
pub proof fn law_no_header_executed_twice(
    heights: Map<[u8; 32], Height>,
    events: Seq<CommitEvent>,
)
    requires
        !is_committed(events, u64::MAX),
    ensures
        ({
            let executions = after_messages(before_commits(heights), events).1;
            &&& forall|i: int, j: int|
                0 <= i < j < executions.len() && (#[trigger] executions[i]).author == (
                #[trigger] executions[j]).author ==> executions[i].proposal.height
                    <= executions[j].stop_height
            &&& forall|i: int|
                0 <= i < executions.len() ==> (#[trigger] executions[i]).stop_height
                    < executions[i].proposal.height
            &&& forall|i: int, j: int|
                0 <= i < j < executions.len() ==> (#[trigger] executions[i]).slot <= (
                #[trigger] executions[j]).slot
        }),
{
    let (model, executions) = after_messages(before_commits(heights), events);
    assert forall|i: int, j: int|
        0 <= i < j < executions.len() && (#[trigger] executions[i]).author == (
        #[trigger] executions[j]).author implies executions[i].proposal.height
        <= executions[j].stop_height by {
        let lane = executions[i].author.0;
        law_run_lanes_without_gap(heights, events, lane);
        lemma_lane_disjoint(executions, lane, heights[lane], i);
    }
    assert forall|i: int| 0 <= i < executions.len() implies (
    #[trigger] executions[i]).stop_height < executions[i].proposal.height by {
        let lane = executions[i].author.0;
        law_run_lanes_without_gap(heights, events, lane);
        lemma_lane_disjoint(executions, lane, heights[lane], i);
    }
    lemma_run_log(heights, events, 1);
    law_run_executes_the_log(heights, events);
    law_slots_executed_in_order(heights, model.log, 0);
    assert(after_slots(heights, model.log, 0).1 == executions);
}

/// Over any run of messages no lane's height ever falls, and what has been executed stays at the
/// front of what is executed later.
pub proof fn law_run_heights_never_fall(
    heights: Map<[u8; 32], Height>,
    events: Seq<CommitEvent>,
    k: int,
    lane: [u8; 32],
)
    requires
        0 <= k <= events.len(),
    ensures
        ({
            let (earlier, first) = after_messages(before_commits(heights), events.take(k));
            let (later, all) = after_messages(before_commits(heights), events);
            &&& heights[lane] <= earlier.heights[lane] <= later.heights[lane]
            &&& earlier.last <= later.last
            &&& first.is_prefix_of(all)
        }),
    decreases events.len(),
{
    let start = before_commits(heights);
    let (later, all) = after_messages(start, events);
    if k == events.len() {
        assert(events.take(k) =~= events);
        law_run_executes_the_log(heights, events);
        law_heights_never_fall(heights, later.log, 0, lane);
    } else {
        let head = events.drop_last();
        assert(head.take(k) =~= events.take(k));
        law_run_heights_never_fall(heights, head, k, lane);
        let (before, executions) = after_messages(start, head);
        let event = events.last();
        if event.kind == MessageKind::Commit && event.slot > before.last {
            let log = before.log.insert(event.slot, event.proposals);
            law_heights_never_fall(before.heights, log, before.last, lane);
            lemma_last_not_before(before.heights, log, before.last);
        }
    }
}

/// Whether the proposal at a position is above what its lane had reached when it was taken: above
/// what had been executed of the lane, and above all earlier proposals of the lane in the slot.
pub open spec fn is_new(
    heights: Map<[u8; 32], Height>,
    proposals: Seq<(PublicKey, Proposal)>,
    i: int,
) -> bool {
    &&& heights[proposals[i].0.0] < proposals[i].1.height
    &&& forall|j: int|
        0 <= j < i && (#[trigger] proposals[j]).0.0 == proposals[i].0.0 ==> proposals[j].1.height
            < proposals[i].1.height
}

/// Whether a height is the one that a lane has reached: the largest of what had been executed of
/// it and what was proposed for it.
pub open spec fn is_reached(
    heights: Map<[u8; 32], Height>,
    proposals: Seq<(PublicKey, Proposal)>,
    lane: [u8; 32],
    height: Height,
) -> bool {
    &&& heights[lane] <= height
    &&& forall|i: int|
        0 <= i < proposals.len() && (#[trigger] proposals[i]).0.0 == lane
            ==> proposals[i].1.height <= height
    &&& height == heights[lane] || exists|i: int|
        0 <= i < proposals.len() && (#[trigger] proposals[i]).0.0 == lane && proposals[i].1.height
            == height
}

/// A slot is executed completely: every lane is executed up to the largest of its height before
/// and all heights that the slot proposes for it. And every proposal that is above what its lane
/// had reached when it was taken is executed, once and in order, from there on; no other is.
pub proof fn law_slot_executed_completely(
    heights: Map<[u8; 32], Height>,
    slot: Slot,
    proposals: Seq<(PublicKey, Proposal)>,
)
    ensures
        ({
            let (reached, executions) = after_proposals(heights, slot, proposals);
            &&& forall|lane: [u8; 32]|
                is_reached(heights, proposals, lane, #[trigger] reached[lane])
            &&& executions.map_values(
                |execution: Execution| (execution.slot, execution.author, execution.proposal),
            ) == positions_below(proposals.len()).filter_map(
                |i: int|
                    if is_new(heights, proposals, i) {
                        Some((slot, proposals[i].0, proposals[i].1))
                    } else {
                        None
                    },
            )
            &&& executions.map_values(|execution: Execution| execution.stop_height)
                == positions_below(proposals.len()).filter_map(
                |i: int|
                    if is_new(heights, proposals, i) {
                        Some(reached_before(heights, proposals, i))
                    } else {
                        None
                    },
            )
            &&& forall|i: int|
                0 <= i < proposals.len() ==> is_reached(
                    heights,
                    proposals.take(i),
                    (#[trigger] proposals[i]).0.0,
                    reached_before(heights, proposals, i),
                )
        }),
{
    lemma_slot_prefix(heights, slot, proposals, proposals.len());
    assert(proposals.take(proposals.len() as int) =~= proposals);
    assert forall|i: int| 0 <= i < proposals.len() implies is_reached(
        heights,
        proposals.take(i),
        (#[trigger] proposals[i]).0.0,
        reached_before(heights, proposals, i),
    ) by {
        lemma_reached_before(heights, proposals, i);
    }
}

/// The height that the lane of the proposal at a position has reached when it is taken.
pub open spec fn reached_before(
    heights: Map<[u8; 32], Height>,
    proposals: Seq<(PublicKey, Proposal)>,
    i: int,
) -> Height {
    choose|height: Height| is_reached(heights, proposals.take(i), proposals[i].0.0, height)
}

proof fn lemma_reached_unique(
    heights: Map<[u8; 32], Height>,
    proposals: Seq<(PublicKey, Proposal)>,
    lane: [u8; 32],
    a: Height,
    b: Height,
)
    requires
        is_reached(heights, proposals, lane, a),
        is_reached(heights, proposals, lane, b),
    ensures
        a == b,
{
}

proof fn lemma_reached(
    heights: Map<[u8; 32], Height>,
    slot: Slot,
    proposals: Seq<(PublicKey, Proposal)>,
    lane: [u8; 32],
)
    ensures
        is_reached(
            heights,
            proposals,
            lane,
            after_proposals(heights, slot, proposals).0[lane],
        ),
    decreases proposals.len(),
{
    if proposals.len() > 0 {
        let head = proposals.drop_last();
        let n = proposals.len() - 1;
        lemma_reached(heights, slot, head, lane);
        let before = after_proposals(heights, slot, head).0;
        let reached = after_proposals(heights, slot, proposals).0;
        assert(proposals[n] == proposals.last());
        assert forall|i: int|
            0 <= i < proposals.len() && (#[trigger] proposals[i]).0.0
                == lane implies proposals[i].1.height <= reached[lane] by {
            if i < n {
                assert(head[i] == proposals[i]);
            }
        }
        if reached[lane] != heights[lane] {
            if reached[lane] == before[lane] {
                let i = choose|i: int|
                    0 <= i < head.len() && (#[trigger] head[i]).0.0 == lane && head[i].1.height
                        == before[lane];
                assert(proposals[i] == head[i]);
            } else {
                assert(proposals[n].0.0 == lane);
            }
        }
    }
}

proof fn lemma_reached_before(
    heights: Map<[u8; 32], Height>,
    proposals: Seq<(PublicKey, Proposal)>,
    i: int,
)
    requires
        0 <= i < proposals.len(),
    ensures
        is_reached(
            heights,
            proposals.take(i),
            proposals[i].0.0,
            reached_before(heights, proposals, i),
        ),
        forall|slot: Slot|
            reached_before(heights, proposals, i) == (#[trigger] after_proposals(
                heights,
                slot,
                proposals.take(i),
            )).0[proposals[i].0.0],
{
    let lane = proposals[i].0.0;
    lemma_reached(heights, 0, proposals.take(i), lane);
    assert forall|slot: Slot|
        reached_before(heights, proposals, i) == (#[trigger] after_proposals(
            heights,
            slot,
            proposals.take(i),
        )).0[lane] by {
        lemma_reached(heights, slot, proposals.take(i), lane);
        lemma_reached_unique(
            heights,
            proposals.take(i),
            lane,
            reached_before(heights, proposals, i),
            after_proposals(heights, slot, proposals.take(i)).0[lane],
        );
    }
}

proof fn lemma_slot_prefix(
    heights: Map<[u8; 32], Height>,
    slot: Slot,
    proposals: Seq<(PublicKey, Proposal)>,
    n: nat,
)
    requires
        n <= proposals.len(),
    ensures
        ({
            let (reached, executions) = after_proposals(heights, slot, proposals.take(n as int));
            &&& forall|lane: [u8; 32]|
                is_reached(heights, proposals.take(n as int), lane, #[trigger] reached[lane])
            &&& executions.map_values(
                |execution: Execution| (execution.slot, execution.author, execution.proposal),
            ) == positions_below(n).filter_map(
                |i: int|
                    if is_new(heights, proposals, i) {
                        Some((slot, proposals[i].0, proposals[i].1))
                    } else {
                        None
                    },
            )
            &&& executions.map_values(|execution: Execution| execution.stop_height)
                == positions_below(n).filter_map(
                |i: int|
                    if is_new(heights, proposals, i) {
                        Some(reached_before(heights, proposals, i))
                    } else {
                        None
                    },
            )
        }),
    decreases n,
{
    let what = |execution: Execution| (execution.slot, execution.author, execution.proposal);
    let stop = |execution: Execution| execution.stop_height;
    let new_what = |i: int|
        if is_new(heights, proposals, i) {
            Some((slot, proposals[i].0, proposals[i].1))
        } else {
            None
        };
    let new_stop = |i: int|
        if is_new(heights, proposals, i) {
            Some(reached_before(heights, proposals, i))
        } else {
            None
        };
    let (reached, executions) = after_proposals(heights, slot, proposals.take(n as int));
    if n > 0 {
        let m = n - 1;
        lemma_slot_prefix(heights, slot, proposals, m as nat);
        lemma_positions_below(n);
        let head = proposals.take(m);
        assert(proposals.take(n as int).drop_last() =~= head);
        assert(proposals.take(n as int).last() == proposals[m]);
        let (before, earlier) = after_proposals(heights, slot, head);
        lemma_reached_before(heights, proposals, m);
        let lane = proposals[m].0.0;
        assert(is_reached(heights, head, lane, before[lane]));
        assert(is_new(heights, proposals, m) <==> proposals[m].1.height > before[lane]) by {
            if is_new(heights, proposals, m) && before[lane] != heights[lane] {
                let j = choose|j: int|
                    0 <= j < head.len() && (#[trigger] head[j]).0.0 == lane && head[j].1.height
                        == before[lane];
                assert(proposals[j] == head[j]);
            }
            if proposals[m].1.height > before[lane] {
                assert forall|j: int|
                    0 <= j < m && (#[trigger] proposals[j]).0.0
                        == lane implies proposals[j].1.height < proposals[m].1.height by {
                    assert(head[j] == proposals[j]);
                }
            }
        }
        if executions.len() > earlier.len() {
            assert(executions.map_values(what) =~= earlier.map_values(what).push(
                what(executions.last()),
            ));
            assert(executions.map_values(stop) =~= earlier.map_values(stop).push(
                stop(executions.last()),
            ));
        }
    }
    assert(executions.map_values(what) =~= positions_below(n).filter_map(new_what));
    assert(executions.map_values(stop) =~= positions_below(n).filter_map(new_stop));
    assert forall|lane: [u8; 32]| is_reached(
        heights,
        proposals.take(n as int),
        lane,
        #[trigger] reached[lane],
    ) by {
        lemma_reached(heights, slot, proposals.take(n as int), lane);
    }
}

/// Whether a proposal stands in the log at a slot.
pub open spec fn is_logged(log: Map<Slot, Proposals>, slot: Slot, i: int) -> bool {
    log.dom().contains(slot) && 0 <= i < log[slot]@.len()
}

/// Whether a proposal of a slot is above what had been executed of its lane, and above all
/// proposals of the lane that come before it: in the slots after `last` that come before, and
/// earlier in its own slot.
pub open spec fn is_new_in_log(
    heights: Map<[u8; 32], Height>,
    log: Map<Slot, Proposals>,
    last: Slot,
    slot: Slot,
    i: int,
) -> bool {
    let (author, proposal) = log[slot]@[i];
    &&& heights[author.0] < proposal.height
    &&& forall|s: Slot, j: int|
        last < s <= slot && #[trigger] is_logged(log, s, j) && (s < slot || j < i)
            && log[s]@[j].0.0 == author.0 ==> log[s]@[j].1.height < proposal.height
}

/// Whether the slots after `last`, up to `executed`, were executed completely: every lane ends at
/// the largest of its height before and all heights proposed for it in these slots; every
/// proposal that is above all that came before it for its lane has an execution in its slot; and
/// every execution is of a proposal of its slot.
pub open spec fn executed_completely(
    heights: Map<[u8; 32], Height>,
    log: Map<Slot, Proposals>,
    last: Slot,
    reached: Map<[u8; 32], Height>,
    executions: Seq<Execution>,
    executed: Slot,
) -> bool {
    &&& forall|lane: [u8; 32]| heights[lane] <= #[trigger] reached[lane]
    &&& forall|slot: Slot, i: int|
        last < slot <= executed && #[trigger] is_logged(log, slot, i) ==> log[slot]@[i].1.height
            <= reached[log[slot]@[i].0.0]
    &&& forall|lane: [u8; 32]| #[trigger]
        reached[lane] == heights[lane] || exists|slot: Slot, i: int|
            last < slot <= executed && #[trigger] is_logged(log, slot, i) && log[slot]@[i].0.0
                == lane && log[slot]@[i].1.height == reached[lane]
    &&& forall|slot: Slot, i: int|
        last < slot <= executed && #[trigger] is_logged(log, slot, i) && is_new_in_log(
            heights,
            log,
            last,
            slot,
            i,
        ) ==> exists|k: int|
            0 <= k < executions.len() && (#[trigger] executions[k]).slot == slot
                && executions[k].author == log[slot]@[i].0 && executions[k].proposal
                == log[slot]@[i].1
    &&& forall|k: int|
        0 <= k < executions.len() ==> is_of_the_log(log, last, executed, #[trigger] executions[k])
}

/// Whether an execution is of a proposal of its slot, and the slot is after `last` and not after
/// `executed`.
pub open spec fn is_of_the_log(
    log: Map<Slot, Proposals>,
    last: Slot,
    executed: Slot,
    execution: Execution,
) -> bool {
    &&& last < execution.slot <= executed
    &&& exists|i: int| #[trigger]
        is_logged(log, execution.slot, i) && log[execution.slot]@[i] == (
            execution.author,
            execution.proposal,
        )
}

/// Executing the slots of the log executes all of them completely: every lane ends at the largest
/// of its height before and all heights proposed for it in the executed slots; every proposal
/// that is above all that came before it for its lane has an execution in its slot; and every
/// execution is of a proposal of its slot.
pub proof fn law_log_executed_completely(
    heights: Map<[u8; 32], Height>,
    log: Map<Slot, Proposals>,
    last: Slot,
)
    ensures
        ({
            let (reached, executions, executed) = after_slots(heights, log, last);
            executed_completely(heights, log, last, reached, executions, executed)
        }),
{
    let (reached, executions, executed) = after_slots(heights, log, last);
    assert forall|lane: [u8; 32]| heights[lane] <= #[trigger] reached[lane] by {
        lemma_log_lane(heights, log, last, lane);
    }
    assert forall|slot: Slot, i: int|
        last < slot <= executed && #[trigger] is_logged(log, slot, i) implies log[slot]@[i].1.height
        <= reached[log[slot]@[i].0.0] by {
        lemma_log_lane(heights, log, last, log[slot]@[i].0.0);
    }
    assert forall|lane: [u8; 32]| #[trigger]
        reached[lane] == heights[lane] || exists|slot: Slot, i: int|
        last < slot <= executed && #[trigger] is_logged(log, slot, i) && log[slot]@[i].0.0 == lane
            && log[slot]@[i].1.height == reached[lane] by {
        lemma_log_lane(heights, log, last, lane);
    }
    assert forall|slot: Slot, i: int|
        last < slot <= executed && #[trigger] is_logged(log, slot, i) && is_new_in_log(
            heights,
            log,
            last,
            slot,
            i,
        ) implies exists|k: int|
        0 <= k < executions.len() && (#[trigger] executions[k]).slot == slot
            && executions[k].author == log[slot]@[i].0 && executions[k].proposal
            == log[slot]@[i].1 by {
        let k = lemma_log_new(heights, log, last, slot, i);
        assert(executions[k].slot == slot);
    }
    assert forall|k: int| 0 <= k < executions.len() implies is_of_the_log(
        log,
        last,
        executed,
        #[trigger] executions[k],
    ) by {
        lemma_log_execution(heights, log, last, k);
    }
}

proof fn lemma_log_lane(
    heights: Map<[u8; 32], Height>,
    log: Map<Slot, Proposals>,
    last: Slot,
    lane: [u8; 32],
)
    ensures
        ({
            let (reached, _, executed) = after_slots(heights, log, last);
            &&& heights[lane] <= reached[lane]
            &&& forall|slot: Slot, i: int|
                last < slot <= executed && #[trigger] is_logged(log, slot, i)
                    && log[slot]@[i].0.0 == lane ==> log[slot]@[i].1.height <= reached[lane]
            &&& reached[lane] == heights[lane] || exists|slot: Slot, i: int|
                last < slot <= executed && #[trigger] is_logged(log, slot, i)
                    && log[slot]@[i].0.0 == lane && log[slot]@[i].1.height == reached[lane]
        }),
    decreases u64::MAX - last,
{
    let (reached, _, executed) = after_slots(heights, log, last);
    if last < u64::MAX && log.dom().contains((last + 1) as u64) {
        let next = (last + 1) as u64;
        let proposals = log[next]@;
        let middle = after_proposals(heights, next, proposals).0;
        lemma_reached(heights, next, proposals, lane);
        lemma_log_lane(middle, log, next, lane);
        lemma_last_not_before(middle, log, next);
        assert forall|slot: Slot, i: int|
            last < slot <= executed && #[trigger] is_logged(log, slot, i) && log[slot]@[i].0.0
                == lane implies log[slot]@[i].1.height <= reached[lane] by {
            if slot == next {
                assert(proposals[i].0.0 == lane);
            }
        }
        if reached[lane] != heights[lane] {
            if reached[lane] == middle[lane] {
                let i = choose|i: int|
                    0 <= i < proposals.len() && (#[trigger] proposals[i]).0.0 == lane
                        && proposals[i].1.height == middle[lane];
                assert(is_logged(log, next, i));
            } else {
                let (slot, i) = choose|slot: Slot, i: int|
                    next < slot <= executed && #[trigger] is_logged(log, slot, i)
                        && log[slot]@[i].0.0 == lane && log[slot]@[i].1.height == reached[lane];
                assert(is_logged(log, slot, i));
            }
        }
    }
}

proof fn lemma_log_new(
    heights: Map<[u8; 32], Height>,
    log: Map<Slot, Proposals>,
    last: Slot,
    slot: Slot,
    i: int,
) -> (k: int)
    requires
        last < slot <= after_slots(heights, log, last).2,
        is_logged(log, slot, i),
        is_new_in_log(heights, log, last, slot, i),
    ensures
        ({
            let executions = after_slots(heights, log, last).1;
            &&& 0 <= k < executions.len()
            &&& executions[k].slot == slot
            &&& executions[k].author == log[slot]@[i].0
            &&& executions[k].proposal == log[slot]@[i].1
        }),
    decreases u64::MAX - last,
{
    let executions = after_slots(heights, log, last).1;
    let next = (last + 1) as u64;
    let proposals = log[next]@;
    let (middle, first) = after_proposals(heights, next, proposals);
    let (author, proposal) = log[slot]@[i];
    if slot == next {
        assert forall|j: int|
            0 <= j < i && (#[trigger] proposals[j]).0.0 == author.0 implies proposals[j].1.height
            < proposal.height by {
            assert(is_logged(log, next, j));
        }
        let k = lemma_new_is_executed(heights, next, proposals, i);
        assert(executions[k] == first[k]);
        k
    } else {
        let rest = after_slots(middle, log, next).1;
        lemma_reached(heights, next, proposals, author.0);
        if middle[author.0] != heights[author.0] {
            let j = choose|j: int|
                0 <= j < proposals.len() && (#[trigger] proposals[j]).0.0 == author.0
                    && proposals[j].1.height == middle[author.0];
            assert(is_logged(log, next, j));
        }
        let k = lemma_log_new(middle, log, next, slot, i);
        assert(executions[first.len() + k] == rest[k]);
        first.len() + k
    }
}

proof fn lemma_log_execution(
    heights: Map<[u8; 32], Height>,
    log: Map<Slot, Proposals>,
    last: Slot,
    k: int,
)
    requires
        0 <= k < after_slots(heights, log, last).1.len(),
    ensures
        ({
            let (_, executions, executed) = after_slots(heights, log, last);
            is_of_the_log(log, last, executed, executions[k])
        }),
    decreases u64::MAX - last,
{
    if last < u64::MAX && log.dom().contains((last + 1) as u64) {
        let executions = after_slots(heights, log, last).1;
        let next = (last + 1) as u64;
        let proposals = log[next]@;
        let (middle, first) = after_proposals(heights, next, proposals);
        let rest = after_slots(middle, log, next).1;
        lemma_last_not_before(middle, log, next);
        if k < first.len() {
            assert(executions[k] == first[k]);
            let i = lemma_executed_is_proposed(heights, next, proposals, k);
            assert(is_logged(log, next, i));
        } else {
            assert(executions[k] == rest[k - first.len()]);
            lemma_log_execution(middle, log, next, k - first.len());
        }
    }
}

proof fn lemma_new_is_executed(
    heights: Map<[u8; 32], Height>,
    slot: Slot,
    proposals: Seq<(PublicKey, Proposal)>,
    i: int,
) -> (k: int)
    requires
        0 <= i < proposals.len(),
        is_new(heights, proposals, i),
    ensures
        ({
            let executions = after_proposals(heights, slot, proposals).1;
            &&& 0 <= k < executions.len()
            &&& executions[k].slot == slot
            &&& executions[k].author == proposals[i].0
            &&& executions[k].proposal == proposals[i].1
        }),
    decreases proposals.len(),
{
    let head = proposals.drop_last();
    let n = proposals.len() - 1;
    let (before, earlier) = after_proposals(heights, slot, head);
    let executions = after_proposals(heights, slot, proposals).1;
    if i < n {
        assert(head[i] == proposals[i]);
        assert forall|j: int|
            0 <= j < i && (#[trigger] head[j]).0.0 == head[i].0.0 implies head[j].1.height
            < head[i].1.height by {
            assert(head[j] == proposals[j]);
        }
        let k = lemma_new_is_executed(heights, slot, head, i);
        assert(executions[k] == earlier[k]);
        k
    } else {
        let lane = proposals[n].0.0;
        lemma_reached(heights, slot, head, lane);
        if before[lane] != heights[lane] {
            let j = choose|j: int|
                0 <= j < head.len() && (#[trigger] head[j]).0.0 == lane && head[j].1.height
                    == before[lane];
            assert(proposals[j] == head[j]);
        }
        assert(executions[earlier.len() as int].proposal == proposals[n].1);
        earlier.len() as int
    }
}

proof fn lemma_executed_is_proposed(
    heights: Map<[u8; 32], Height>,
    slot: Slot,
    proposals: Seq<(PublicKey, Proposal)>,
    k: int,
) -> (i: int)
    requires
        0 <= k < after_proposals(heights, slot, proposals).1.len(),
    ensures
        ({
            let executions = after_proposals(heights, slot, proposals).1;
            &&& 0 <= i < proposals.len()
            &&& executions[k].slot == slot
            &&& proposals[i] == (executions[k].author, executions[k].proposal)
        }),
    decreases proposals.len(),
{
    let head = proposals.drop_last();
    let earlier = after_proposals(heights, slot, head).1;
    let executions = after_proposals(heights, slot, proposals).1;
    if k < earlier.len() {
        let i = lemma_executed_is_proposed(heights, slot, head, k);
        assert(head[i] == proposals[i]);
        assert(executions[k] == earlier[k]);
        i
    } else {
        proposals.len() - 1
    }
}

/// Over any run of messages, the slots up to the last executed one are executed completely, as the
/// log has them: every lane ends at the largest of its height at the start and all heights
/// proposed for it in these slots, and every proposal in them that is above all that came before
/// it for its lane has an execution.
pub proof fn law_run_executes_completely(
    heights: Map<[u8; 32], Height>,
    events: Seq<CommitEvent>,
)
    ensures
        ({
            let (model, executions) = after_messages(before_commits(heights), events);
            executed_completely(heights, model.log, 0, model.heights, executions, model.last)
        }),
{
    let model = after_messages(before_commits(heights), events).0;
    law_run_executes_the_log(heights, events);
    law_log_executed_completely(heights, model.log, 0);
}

/// What one message does: only a commit of a slot that was not executed yet does anything. It
/// puts its own proposals into the log at its own slot, and nothing else changes there.
pub proof fn law_message_is_logged(model: CommitModel, event: CommitEvent, other: Slot)
    ensures
        ({
            let (after, executions) = after_message(model, event);
            let counts = event.kind == MessageKind::Commit && event.slot > model.last;
            &&& counts ==> {
                &&& after.log.dom().contains(event.slot)
                &&& after.log[event.slot] == event.proposals
                &&& other != event.slot ==> {
                    &&& after.log.dom().contains(other) <==> model.log.dom().contains(other)
                    &&& model.log.dom().contains(other) ==> after.log[other] == model.log[other]
                }
                &&& after_slots(model.heights, after.log, model.last) == (
                    after.heights,
                    executions,
                    after.last,
                )
            }
            &&& !counts ==> {
                &&& after == model
                &&& executions.len() == 0
            }
        }),
{
}

/// What the log of a run holds for a slot is what some commit of that slot proposed.
pub proof fn law_log_holds_commits(
    heights: Map<[u8; 32], Height>,
    events: Seq<CommitEvent>,
    slot: Slot,
)
    ensures
        ({
            let log = after_messages(before_commits(heights), events).0.log;
            log.dom().contains(slot) ==> exists|i: int|
                0 <= i < events.len() && (#[trigger] events[i]).kind == MessageKind::Commit
                    && events[i].slot == slot && events[i].proposals == log[slot]
        }),
    decreases events.len(),
{
    if events.len() > 0 {
        let head = events.drop_last();
        law_log_holds_commits(heights, head, slot);
        let before = after_messages(before_commits(heights), head).0.log;
        let log = after_messages(before_commits(heights), events).0.log;
        assert(events[events.len() - 1] == events.last());
        if log.dom().contains(slot) && before.dom().contains(slot) && log[slot] == before[slot] {
            let i = choose|i: int|
                0 <= i < head.len() && (#[trigger] head[i]).kind == MessageKind::Commit
                    && head[i].slot == slot && head[i].proposals == before[slot];
            assert(events[i] == head[i]);
        }
    }
}

/// Whether a slot is one of those that follow `last` without a gap in the log.
pub open spec fn is_next_in_log(log: Map<Slot, Proposals>, last: Slot, slot: Slot) -> bool {
    &&& last < slot
    &&& forall|s: Slot| last < s <= slot ==> #[trigger] log.dom().contains(s)
}

/// A message can be taken exactly if it is no commit of a slot that is still to be executed; or if
/// its slot is not the last one that there is, and in the slots that follow the last executed one
/// without a gap, with that of the message, no unknown lane is named.
pub proof fn law_known_lanes_are_accepted(
    state: State,
    kind: MessageKind,
    slot: Slot,
    proposals: Proposals,
)
    ensures
        ({
            let log = state.log@.insert(slot, proposals);
            let last = state.last_executed_slot;
            state.accepts_commit(kind, slot, proposals) <==> kind != MessageKind::Commit || slot
                <= last || {
                &&& slot != u64::MAX
                &&& forall|s: Slot, i: int| #[trigger]
                    is_logged(log, s, i) && is_next_in_log(log, last, s)
                        ==> state.last_executed_heights@.dom().contains(log[s]@[i].0.0)
            }
        }),
{
    lemma_lanes_known(
        state.last_executed_heights@.dom(),
        state.log@.insert(slot, proposals),
        state.last_executed_slot,
    );
}

proof fn lemma_lanes_known(lanes: Set<[u8; 32]>, log: Map<Slot, Proposals>, last: Slot)
    ensures
        lanes_known(lanes, log, last) <==> forall|s: Slot, i: int| #[trigger]
            is_logged(log, s, i) && is_next_in_log(log, last, s) ==> lanes.contains(
                log[s]@[i].0.0,
            ),
    decreases u64::MAX - last,
{
    if last < u64::MAX && log.dom().contains((last + 1) as u64) {
        let next = (last + 1) as u64;
        lemma_lanes_known(lanes, log, next);
        assert(is_next_in_log(log, last, next));
        assert forall|s: Slot| s != next implies #[trigger] is_next_in_log(log, last, s)
            == is_next_in_log(log, next, s) by {
            if is_next_in_log(log, next, s) {
                assert forall|t: Slot| last < t <= s implies #[trigger] log.dom().contains(t) by {}
            }
        }
        if lanes_known(lanes, log, last) {
            assert forall|s: Slot, i: int| #[trigger]
                is_logged(log, s, i) && is_next_in_log(log, last, s) implies lanes.contains(
                log[s]@[i].0.0,
            ) by {
                if s == next {
                    assert(lanes.contains(log[next]@[i].0.0));
                } else {
                    assert(is_next_in_log(log, next, s));
                }
            }
        } else if forall|s: Slot, i: int| #[trigger]
            is_logged(log, s, i) && is_next_in_log(log, last, s) ==> lanes.contains(
                log[s]@[i].0.0,
            ) {
            assert forall|i: int| 0 <= i < log[next]@.len() implies lanes.contains(
                (#[trigger] log[next]@[i]).0.0,
            ) by {
                assert(is_logged(log, next, i));
            }
            assert forall|s: Slot, i: int| #[trigger]
                is_logged(log, s, i) && is_next_in_log(log, next, s) implies lanes.contains(
                log[s]@[i].0.0,
            ) by {
                assert(is_next_in_log(log, last, s));
            }
        }
    } else {
        assert forall|s: Slot| !#[trigger] is_next_in_log(log, last, s) by {
            if is_next_in_log(log, last, s) {
                assert(log.dom().contains((last + 1) as u64));
            }
        }
    }
}

/// The genesis certificates stand under their authors: an author has one exactly if there is one
/// by it, and then the last one, with its digest.
pub proof fn law_certificates_by_author(certificates: Seq<Certificate>, author: [u8; 32])
    ensures
        by_author(certificates).dom().contains(author) ==> exists|i: int|
            #[trigger] is_last_by(certificates, author, i),
        forall|i: int| #[trigger]
            is_last_by(certificates, author, i) ==> by_author(certificates).dom().contains(author)
                && by_author(certificates)[author] == (certificates[i].digest, certificates[i]),
    decreases certificates.len(),
{
    if certificates.len() > 0 {
        let head = certificates.drop_last();
        let n = certificates.len() - 1;
        law_certificates_by_author(head, author);
        assert(certificates[n] == certificates.last());
        if certificates[n].origin.0 == author {
            assert(is_last_by(certificates, author, n));
            assert forall|i: int| #[trigger] is_last_by(certificates, author, i) implies i == n by {
                if i < n {
                    assert(certificates[n].origin.0 != author);
                }
            }
        } else {
            assert forall|i: int| #[trigger] is_last_by(certificates, author, i) implies is_last_by(
                head,
                author,
                i,
            ) by {
                assert(head[i] == certificates[i]);
                assert forall|j: int| i < j < head.len() implies (#[trigger] head[j]).origin.0
                    != author by {
                    assert(head[j] == certificates[j]);
                }
            }
            if by_author(head).dom().contains(author) {
                let i = choose|i: int| #[trigger] is_last_by(head, author, i);
                assert(is_last_by(certificates, author, i)) by {
                    assert(head[i] == certificates[i]);
                    assert forall|j: int| i < j < certificates.len() implies (
                    #[trigger] certificates[j]).origin.0 != author by {
                        if j < n {
                            assert(head[j] == certificates[j]);
                        }
                    }
                }
            }
        }
    }
}

/// Whether the certificate at a position is the last one by an author.
pub open spec fn is_last_by(certificates: Seq<Certificate>, author: [u8; 32], i: int) -> bool {
    &&& 0 <= i < certificates.len()
    &&& certificates[i].origin.0 == author
    &&& forall|j: int|
        i < j < certificates.len() ==> (#[trigger] certificates[j]).origin.0 != author
}

/// A certificate stays in the dag exactly if it is not below the executed height of its author and
/// not more than `gc_depth` rounds below the last committed one. It stays as it is, and no round
/// is kept without any.
pub proof fn law_cleared_dag(
    dag: Map<Height, Map<[u8; 32], (Digest, Certificate)>>,
    heights: Map<[u8; 32], Height>,
    gc_depth: Height,
    last_committed_round: Height,
    round: Height,
    author: [u8; 32],
)
    ensures
        ({
            let after = cleared(dag, heights, gc_depth, last_committed_round);
            &&& (after.dom().contains(round) && after[round].dom().contains(author)) <==> {
                &&& dag.dom().contains(round)
                &&& dag[round].dom().contains(author)
                &&& heights.dom().contains(author) ==> round >= heights[author]
                &&& round + gc_depth >= last_committed_round
            }
            &&& after.dom().contains(round) && after[round].dom().contains(author)
                ==> after[round][author] == dag[round][author]
            &&& after.dom().contains(round) ==> exists|some: [u8; 32]|
                after[round].dom().contains(some)
        }),
{
    let after = cleared(dag, heights, gc_depth, last_committed_round);
    if after.dom().contains(round) {
        let some = choose|some: [u8; 32]|
            still_needed(dag[round], heights, round).dom().contains(some);
        assert(after[round].dom().contains(some));
    }
    if dag.dom().contains(round) && still_needed(dag[round], heights, round).dom().contains(author) {
        assert(after.dom().contains(round) <==> round + gc_depth >= last_committed_round);
    }
}

/// The last committed round is the largest of the executed heights.
pub proof fn law_highest(height: Height, heights: Map<[u8; 32], Height>)
    ensures
        is_highest(height, heights) <==> {
            &&& exists|author: [u8; 32]|
                heights.dom().contains(author) && #[trigger] heights[author] == height
            &&& forall|author: [u8; 32]|
                heights.dom().contains(author) ==> #[trigger] heights[author] <= height
        },
{
}

/// A message that a slot was committed names the slot and every batch, in order.
pub proof fn law_slot_committed_bytes(slot: Slot, keys: Seq<[u8; 32]>)
    ensures
        ({
            let bytes = slot_committed(slot, keys);
            &&& bytes.len() == 20 + 32 * keys.len()
            &&& bytes.subrange(0, 4) == seq![2u8, 0u8, 0u8, 0u8]
            &&& bytes.subrange(4, 12) == little_endian(slot as nat, 8)
            &&& bytes.subrange(12, 20) == little_endian(keys.len(), 8)
            &&& forall|i: int|
                0 <= i < keys.len() ==> bytes.subrange(20 + 32 * i, 52 + 32 * i) == (
                #[trigger] keys[i])@
        }),
{
    let bytes = slot_committed(slot, keys);
    law_variant_bytes(2);
    lemma_little_endian_len(slot as nat, 8);
    lemma_little_endian_len(keys.len(), 8);
    lemma_encoded_keys_len(keys);
    assert(bytes.subrange(0, 4) =~= seq![2u8, 0u8, 0u8, 0u8]);
    assert(bytes.subrange(4, 12) =~= little_endian(slot as nat, 8));
    assert(bytes.subrange(12, 20) =~= little_endian(keys.len(), 8));
    assert forall|i: int| 0 <= i < keys.len() implies bytes.subrange(20 + 32 * i, 52 + 32 * i) == (
    #[trigger] keys[i])@ by {
        law_encoded_keys(keys, i);
        assert(bytes.subrange(20 + 32 * i, 52 + 32 * i) =~= encoded_keys(keys).subrange(
            8 + 32 * i,
            40 + 32 * i,
        ));
    }
}

} // verus!
