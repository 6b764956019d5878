//! When a primary proposes a header, and what is in it.
use crate::keys::{Digest, Height, KeyMap, PublicKey, WorkerId};
use crate::wire::{
    encoded_keys, law_encoded_keys, law_variant_bytes, lemma_encoded_keys_len,
    lemma_little_endian_len, little_endian, serialize_keys,
};
use vstd::prelude::*;

verus! {

/// The number of the variant of a message to a worker that says that a certificate formed.
pub const CERTIFICATE_FORMED: u32 = 3;

/// The number of bytes of a digest.
pub const DIGEST_SIZE: usize = 32;

/// What a consensus message is about.
#[derive(Clone, Copy, Debug, PartialEq, Eq, Structural)]
pub enum MessageKind {
    Prepare,
    Confirm,
    Commit,
}

/// What a new header holds. `C` stands for certificates and `M` for consensus messages.
pub struct HeaderPlan<C, M> {
    /// The primary that proposes it.
    pub author: PublicKey,
    /// Its height in the author's chain.
    pub height: Height,
    /// The batches in it and the workers that hold them.
    pub payload: KeyMap<WorkerId>,
    /// The certificate of the header before it.
    pub parent: C,
    /// The consensus messages in it, under their digests.
    pub consensus_instances: KeyMap<M>,
    /// How many of them open a view or confirm one.
    pub num_active_instances: usize,
    /// Whether it is special.
    pub special: bool,
}

/// Decides when a primary proposes a header, and what is in it.
pub struct Proposer<C, M> {
    /// The public key of this primary.
    pub name: PublicKey,
    /// The size of the headers' payload.
    pub header_size: usize,
    /// The current height of this validator's chain.
    pub height: Height,
    /// Holds the certificate waiting to be included in the next header.
    pub last_parent: Option<C>,
    /// Holds the consensus messages for the next header, under their digests.
    pub consensus_instances: KeyMap<M>,
    /// Holds the batches' digests waiting to be included in the next header.
    pub digests: Vec<(Digest, WorkerId)>,
    /// Keeps track of the size (in bytes) of batches' digests that we received so far.
    pub payload_size: usize,
    /// The digests, in increasing order, in the most recent header.
    pub last_header_payload: Option<Vec<[u8; 32]>>,
    /// How many of the waiting consensus messages open a view or confirm one.
    pub num_active_instances: usize,
    /// Whether such a message makes the next header special.
    pub use_special_rule: bool,
    /// Whether headers are special.
    pub is_special: bool,
}

/// The batches of a header and their workers. Where a batch is named twice, the last one counts.
pub open spec fn payload_of(digests: Seq<(Digest, WorkerId)>) -> Map<[u8; 32], WorkerId>
    decreases digests.len(),
{
    if digests.len() == 0 {
        Map::empty()
    } else {
        payload_of(digests.drop_last()).insert(digests.last().0.0, digests.last().1)
    }
}

/// The bytes of the message that a certificate formed.
pub open spec fn certificate_formed(keys: Seq<[u8; 32]>) -> Seq<u8> {
    little_endian(CERTIFICATE_FORMED as nat, 4) + encoded_keys(keys)
}

/// The batches of a header and their workers.
fn collect_payload(digests: &Vec<(Digest, WorkerId)>) -> (payload: KeyMap<WorkerId>)
    ensures
        payload.wf(),
        payload@ == payload_of(digests@),
{
    let mut payload: KeyMap<WorkerId> = KeyMap::new();
    assert(digests@.take(0) =~= Seq::<(Digest, WorkerId)>::empty());
    for i in 0..digests.len()
        invariant
            payload.wf(),
            payload@ == payload_of(digests@.take(i as int)),
    {
        assert(digests@.take(i + 1).drop_last() =~= digests@.take(i as int));
        payload.insert(digests[i].0.0, digests[i].1);
    }
    assert(digests@.take(digests@.len() as int) =~= digests@);
    payload
}

/// What a proposer goes by when no special rule is in use.
pub struct ProposerModel<C> {
    /// The height of the chain.
    pub height: int,
    /// The certificate waiting to be included in the next header.
    pub parent: Option<C>,
    /// The digests waiting to be included in the next header.
    pub digests: Seq<(Digest, WorkerId)>,
}

impl<C> ProposerModel<C> {
    /// The start of the chain.
    pub open spec fn start(genesis: C) -> Self {
        ProposerModel { height: 0, parent: Some(genesis), digests: Seq::empty() }
    }

    /// Whether a header is due.
    pub open spec fn due(self, header_size: usize, timer_expired: bool) -> bool {
        &&& timer_expired || DIGEST_SIZE * self.digests.len() >= header_size
        &&& self.parent is Some
    }

    /// After a header was made.
    pub open spec fn emptied(self) -> Self {
        ProposerModel { height: self.height, parent: None, digests: Seq::empty() }
    }

    /// After a certificate of the header at a height. One from a previous height is ignored.
    pub open spec fn with_certificate(self, height: Height, certificate: C) -> Self {
        if height < self.height {
            self
        } else {
            ProposerModel { height: self.height + 1, parent: Some(certificate), ..self }
        }
    }

    /// After the digest of a batch.
    pub open spec fn with_digest(self, digest: Digest, worker_id: WorkerId) -> Self {
        ProposerModel { digests: self.digests.push((digest, worker_id)), ..self }
    }
}

impl<C, M> Proposer<C, M> {
    /// What the proposer goes by when no special rule is in use.
    pub open spec fn model(&self) -> ProposerModel<C> {
        ProposerModel {
            height: self.height as int,
            parent: self.last_parent,
            digests: self.digests@,
        }
    }

    /// The size kept for the waiting digests is theirs, the messages stand in order, and
    /// headers are special only by the special rule.
    pub open spec fn wf(&self) -> bool {
        &&& self.consensus_instances.wf()
        &&& self.payload_size == DIGEST_SIZE * self.digests@.len()
        &&& self.is_special ==> self.use_special_rule
    }

    /// Whether a header is due: enough digests wait or the timer has expired, and there is a
    /// parent for it or it is special.
    pub open spec fn due(&self, timer_expired: bool) -> bool {
        &&& timer_expired || self.payload_size >= self.header_size
        &&& self.last_parent is Some || self.is_special
    }

    /// The task before its first message, given the certificate of the genesis header.
    pub fn new(name: PublicKey, header_size: usize, genesis: C) -> (proposer: Self)
        ensures
            proposer.wf(),
            proposer.name == name,
            proposer.header_size == header_size,
            proposer.height == 0,
            proposer.last_parent == Some(genesis),
            proposer.consensus_instances@ == Map::<[u8; 32], M>::empty(),
            proposer.digests@.len() == 0,
            proposer.last_header_payload is None,
            proposer.num_active_instances == 0,
            !proposer.use_special_rule,
            !proposer.is_special,
            proposer.model() == ProposerModel::start(genesis),
    {
        Proposer {
            name,
            header_size,
            height: 0,
            last_parent: Some(genesis),
            consensus_instances: KeyMap::new(),
            digests: Vec::new(),
            payload_size: 0,
            last_header_payload: None,
            num_active_instances: 0,
            use_special_rule: false,
            is_special: false,
        }
    }

    /// Whether a header is due.
    pub fn ready(&self, timer_expired: bool) -> (ready: bool)
        ensures
            ready == self.due(timer_expired),
            self.wf() && !self.use_special_rule ==> ready == self.model().due(
                self.header_size,
                timer_expired,
            ),
    {
        (timer_expired || self.payload_size >= self.header_size) && (self.last_parent.is_some()
            || self.is_special)
    }

    /// Makes a header of what waits. Nothing waits any longer.
    pub fn make_header(&mut self) -> (header: HeaderPlan<C, M>)
        requires
            old(self).wf(),
            old(self).last_parent is Some,
        ensures
            final(self).wf(),
            header.author == old(self).name,
            header.height == old(self).height,
            header.payload.wf(),
            header.payload@ == payload_of(old(self).digests@),
            header.parent == old(self).last_parent->0,
            header.consensus_instances == old(self).consensus_instances,
            header.num_active_instances == old(self).num_active_instances,
            header.special == old(self).is_special,
            final(self).name == old(self).name,
            final(self).header_size == old(self).header_size,
            final(self).height == old(self).height,
            final(self).last_parent is None,
            final(self).consensus_instances@ == Map::<[u8; 32], M>::empty(),
            final(self).digests@.len() == 0,
            final(self).payload_size == 0,
            final(self).last_header_payload is Some,
            (final(self).last_header_payload->0)@ == header.payload.key_seq(),
            final(self).num_active_instances == 0,
            final(self).use_special_rule == old(self).use_special_rule,
            final(self).is_special == old(self).is_special,
            final(self).model() == old(self).model().emptied(),
    {
        let mut digests: Vec<(Digest, WorkerId)> = Vec::new();
        std::mem::swap(&mut self.digests, &mut digests);
        let payload = collect_payload(&digests);
        self.last_header_payload = Some(payload.keys());
        let mut consensus_instances: KeyMap<M> = KeyMap::new();
        std::mem::swap(&mut self.consensus_instances, &mut consensus_instances);
        let num_active_instances = self.num_active_instances;
        self.num_active_instances = 0;
        self.payload_size = 0;
        let mut parent: Option<C> = None;
        std::mem::swap(&mut self.last_parent, &mut parent);
        HeaderPlan {
            author: self.name,
            height: self.height,
            payload,
            parent: parent.unwrap(),
            consensus_instances,
            num_active_instances,
            special: self.is_special,
        }
    }

    /// Takes a consensus message, given its digest. A message that opens a view or confirms one
    /// makes an instance active.
    pub fn on_instance(&mut self, kind: MessageKind, digest: &Digest, message: M)
        requires
            old(self).wf(),
            kind != MessageKind::Commit ==> old(self).num_active_instances < usize::MAX,
        ensures
            final(self).wf(),
            final(self).consensus_instances@ == old(self).consensus_instances@.insert(
                digest.0,
                message,
            ),
            ({
                let active = kind != MessageKind::Commit;
                *final(self) == (Proposer {
                    consensus_instances: final(self).consensus_instances,
                    num_active_instances: if active {
                        (old(self).num_active_instances + 1) as usize
                    } else {
                        old(self).num_active_instances
                    },
                    is_special: old(self).is_special || (active && old(self).use_special_rule),
                    ..*old(self)
                })
            }),
            final(self).model() == old(self).model(),
    {
        match kind {
            MessageKind::Prepare | MessageKind::Confirm => {
                if self.use_special_rule {
                    self.is_special = true;
                }
                self.num_active_instances = self.num_active_instances + 1;
            },
            MessageKind::Commit => {},
        }
        self.consensus_instances.insert(digest.0, message);
    }

    /// Takes the certificate of an own header. One from a previous height is ignored; another
    /// is the parent of the next header. Gives back what worker zero is told of the batches in
    /// the last header, if there are any; `worker_known` says whether the committee has that
    /// worker.
    pub fn on_certificate(&mut self, height: Height, certificate: C, worker_known: bool) -> (message:
        Option<Vec<u8>>)
        requires
            old(self).wf(),
            height >= old(self).height ==> old(self).height < u64::MAX,
        ensures
            final(self).wf(),
            final(self).model() == old(self).model().with_certificate(height, certificate),
            if height < old(self).height {
                message is None && *final(self) == *old(self)
            } else {
                &&& *final(self) == (Proposer {
                    height: (old(self).height + 1) as u64,
                    last_parent: Some(certificate),
                    ..*old(self)
                })
                &&& match message {
                    Some(bytes) => {
                        &&& old(self).last_header_payload is Some
                        &&& (old(self).last_header_payload->0)@.len() > 0
                        &&& worker_known
                        &&& bytes@ == certificate_formed((old(self).last_header_payload->0)@)
                    },
                    None => old(self).last_header_payload is None || (
                    old(self).last_header_payload->0)@.len() == 0 || !worker_known,
                }
            },
    {
        if height < self.height {
            return None;
        }
        let message = match &self.last_header_payload {
            Some(keys) => {
                if keys.len() > 0 && worker_known {
                    Some(serialize_keys(CERTIFICATE_FORMED, keys))
                } else {
                    None
                }
            },
            None => None,
        };
        self.height = self.height + 1;
        self.last_parent = Some(certificate);
        message
    }

    /// Takes the digest of a batch from a worker.
    pub fn on_digest(&mut self, digest: Digest, worker_id: WorkerId)
        requires
            old(self).wf(),
            old(self).payload_size + DIGEST_SIZE <= usize::MAX,
        ensures
            final(self).wf(),
            final(self).digests@ == old(self).digests@.push((digest, worker_id)),
            final(self).model() == old(self).model().with_digest(digest, worker_id),
            *final(self) == (Proposer {
                digests: final(self).digests,
                payload_size: (old(self).payload_size + DIGEST_SIZE) as usize,
                ..*old(self)
            }),
    {
        self.payload_size = self.payload_size + DIGEST_SIZE;
        self.digests.push((digest, worker_id));
    }
}

/// No digest is lost: the payload of a header names every batch that waited for it, and no
/// other, each with a worker that announced it.
pub proof fn law_no_digest_lost(digests: Seq<(Digest, WorkerId)>)
    ensures
        forall|key: [u8; 32]| #[trigger]
            payload_of(digests).dom().contains(key) <==> exists|i: int|
                0 <= i < digests.len() && (#[trigger] digests[i]).0.0 == key,
        forall|key: [u8; 32]| #[trigger]
            payload_of(digests).dom().contains(key) ==> digests.contains(
                (Digest(key), payload_of(digests)[key]),
            ),
    decreases digests.len(),
{
    if digests.len() > 0 {
        let head = digests.drop_last();
        law_no_digest_lost(head);
        let payload = payload_of(digests);
        assert forall|key: [u8; 32]| #[trigger]
            payload.dom().contains(key) <==> exists|i: int|
            0 <= i < digests.len() && (#[trigger] digests[i]).0.0 == key by {
            if payload_of(head).dom().contains(key) {
                let i = choose|i: int| 0 <= i < head.len() && (#[trigger] head[i]).0.0 == key;
                assert(digests[i].0.0 == key);
            }
            if exists|i: int| 0 <= i < digests.len() && (#[trigger] digests[i]).0.0 == key {
                let i = choose|i: int| 0 <= i < digests.len() && (#[trigger] digests[i]).0.0 == key;
                if i < head.len() {
                    assert(head[i].0.0 == key);
                }
            }
            assert(digests[digests.len() - 1].0.0 == digests.last().0.0);
        }
        assert forall|key: [u8; 32]| #[trigger]
            payload.dom().contains(key) implies digests.contains(
            (Digest(key), payload[key]),
        ) by {
            let entry = (Digest(key), payload[key]);
            if key == digests.last().0.0 {
                assert(digests[digests.len() - 1] == entry);
            } else {
                assert(payload_of(head).dom().contains(key));
                let i = choose|i: int| 0 <= i < head.len() && head[i] == entry;
                assert(digests[i] == entry);
            }
        }
    }
}

/// One parent gives one header: without a special rule, no header is due once one has been
/// made, whatever arrives from workers and whether or not the timer expires, until there is a
/// parent again.
pub proof fn law_one_header_per_parent<C, M>(proposer: Proposer<C, M>, timer_expired: bool)
    requires
        proposer.wf(),
        proposer.last_parent is None,
        !proposer.use_special_rule,
    ensures
        !proposer.due(timer_expired),
{
}

/// What happens to a proposer.
pub enum ProposerEvent<C> {
    /// A worker announces a batch.
    Batch(Digest, WorkerId),
    /// The certificate of the header at a height comes.
    Certificate(Height, C),
    /// A consensus message comes.
    Instance,
    /// A header is made if one is due; says whether the timer has expired.
    Check(bool),
}

/// What a header was made of.
pub struct HeaderRecord<C> {
    /// Its height.
    pub height: int,
    /// The certificate of the header before it.
    pub parent: C,
    /// The digests that waited for it.
    pub digests: Seq<(Digest, WorkerId)>,
}

/// What the proposer goes by after a history of events, and the headers that it made, where no
/// special rule is in use.
pub open spec fn proposed<C>(header_size: usize, genesis: C, events: Seq<ProposerEvent<C>>) -> (
    ProposerModel<C>,
    Seq<HeaderRecord<C>>,
)
    decreases events.len(),
{
    if events.len() == 0 {
        (ProposerModel::start(genesis), Seq::empty())
    } else {
        let (model, headers) = proposed(header_size, genesis, events.drop_last());
        match events.last() {
            ProposerEvent::Batch(digest, worker_id) => (
                model.with_digest(digest, worker_id),
                headers,
            ),
            ProposerEvent::Certificate(height, certificate) => (
                model.with_certificate(height, certificate),
                headers,
            ),
            ProposerEvent::Instance => (model, headers),
            ProposerEvent::Check(timer_expired) => if model.due(header_size, timer_expired) {
                (
                    model.emptied(),
                    headers.push(
                        HeaderRecord {
                            height: model.height,
                            parent: model.parent->0,
                            digests: model.digests,
                        },
                    ),
                )
            } else {
                (model, headers)
            },
        }
    }
}

/// The genesis certificate and then the certificates that were not ignored, in order.
pub open spec fn accepted<C>(genesis: C, events: Seq<ProposerEvent<C>>) -> Seq<C>
    decreases events.len(),
{
    if events.len() == 0 {
        seq![genesis]
    } else {
        let before = accepted(genesis, events.drop_last());
        match events.last() {
            ProposerEvent::Certificate(height, certificate) => if height >= before.len() - 1 {
                before.push(certificate)
            } else {
                before
            },
            _ => before,
        }
    }
}

/// The digests that workers announced, in order.
pub open spec fn announced<C>(events: Seq<ProposerEvent<C>>) -> Seq<(Digest, WorkerId)>
    decreases events.len(),
{
    if events.len() == 0 {
        Seq::empty()
    } else {
        match events.last() {
            ProposerEvent::Batch(digest, worker_id) => announced(events.drop_last()).push(
                (digest, worker_id),
            ),
            _ => announced(events.drop_last()),
        }
    }
}

/// The digests of the headers, one header after the other.
pub open spec fn joined_digests<C>(headers: Seq<HeaderRecord<C>>) -> Seq<(Digest, WorkerId)>
    decreases headers.len(),
{
    if headers.len() == 0 {
        Seq::empty()
    } else {
        joined_digests(headers.drop_last()) + headers.last().digests
    }
}

/// The headers of a run have strictly increasing heights. The parent of each is the certificate
/// with whose acceptance the chain reached its height, so that no accepted certificate is the
/// parent of two headers, and a header at height zero has the genesis certificate as parent.
pub proof fn law_run_of_headers<C>(
    header_size: usize,
    genesis: C,
    events: Seq<ProposerEvent<C>>,
)
    ensures
        ({
            let (model, headers) = proposed(header_size, genesis, events);
            let certificates = accepted(genesis, events);
            &&& 0 <= model.height == certificates.len() - 1
            &&& certificates[0] == genesis
            &&& model.parent is Some ==> model.parent->0 == certificates[model.height]
            &&& forall|i: int|
                0 <= i < headers.len() ==> {
                    &&& 0 <= (#[trigger] headers[i]).height <= model.height
                    &&& model.parent is Some ==> headers[i].height < model.height
                    &&& headers[i].parent == certificates[headers[i].height]
                }
            &&& forall|i: int, j: int|
                0 <= i < j < headers.len() ==> (#[trigger] headers[i]).height < (
                #[trigger] headers[j]).height
        }),
    decreases events.len(),
{
    if events.len() > 0 {
        law_run_of_headers(header_size, genesis, events.drop_last());
        let (before, earlier) = proposed(header_size, genesis, events.drop_last());
        let (model, headers) = proposed(header_size, genesis, events);
        let certificates = accepted(genesis, events);
        assert forall|i: int| 0 <= i < headers.len() implies {
            &&& 0 <= (#[trigger] headers[i]).height <= model.height
            &&& model.parent is Some ==> headers[i].height < model.height
            &&& headers[i].parent == certificates[headers[i].height]
        } by {
            if i < earlier.len() {
                assert(headers[i] == earlier[i]);
            }
        }
        assert forall|i: int, j: int| 0 <= i < j < headers.len() implies (
        #[trigger] headers[i]).height < (#[trigger] headers[j]).height by {
            assert(headers[i] == earlier[i]);
            if j < earlier.len() {
                assert(headers[j] == earlier[j]);
            }
        }
    }
}

/// Whether no certificate comes before the first header is made.
pub open spec fn certificates_follow_headers<C>(
    header_size: usize,
    genesis: C,
    events: Seq<ProposerEvent<C>>,
) -> bool {
    forall|i: int|
        0 <= i < events.len() && (#[trigger] events[i]) is Certificate ==> proposed(
            header_size,
            genesis,
            events.take(i),
        ).1.len() > 0
}

/// The first header has height zero and the genesis certificate as parent, where no certificate
/// comes before it.
pub proof fn law_first_header_on_genesis<C>(
    header_size: usize,
    genesis: C,
    events: Seq<ProposerEvent<C>>,
)
    requires
        certificates_follow_headers(header_size, genesis, events),
    ensures
        ({
            let (model, headers) = proposed(header_size, genesis, events);
            if headers.len() > 0 {
                headers[0].height == 0 && headers[0].parent == genesis
            } else {
                model.height == 0 && model.parent == Some(genesis)
            }
        }),
    decreases events.len(),
{
    if events.len() > 0 {
        let head = events.drop_last();
        let n = events.len() - 1;
        assert forall|i: int|
            0 <= i < head.len() && (#[trigger] head[i]) is Certificate implies proposed(
            header_size,
            genesis,
            head.take(i),
        ).1.len() > 0 by {
            assert(events[i] == head[i]);
            assert(head.take(i) =~= events.take(i));
        }
        law_first_header_on_genesis(header_size, genesis, head);
        assert(events.take(n) =~= head);
        assert(events[n] == events.last());
    }
}

/// No digest is lost, repeated or overtaken over a run: the digests of the headers, one header
/// after the other, and those that wait are the digests that were announced, in order.
pub proof fn law_run_keeps_digests<C>(
    header_size: usize,
    genesis: C,
    events: Seq<ProposerEvent<C>>,
)
    ensures
        ({
            let (model, headers) = proposed(header_size, genesis, events);
            joined_digests(headers) + model.digests == announced(events)
        }),
    decreases events.len(),
{
    let (model, headers) = proposed(header_size, genesis, events);
    if events.len() > 0 {
        law_run_keeps_digests(header_size, genesis, events.drop_last());
        let (before, earlier) = proposed(header_size, genesis, events.drop_last());
        if headers.len() > earlier.len() {
            assert(headers.drop_last() =~= earlier);
        }
    }
    assert(joined_digests(headers) + model.digests =~= announced(events));
}

/// Where a digest of a header stands among those of all headers.
proof fn lemma_digest_position<C>(headers: Seq<HeaderRecord<C>>, i: int, a: int) -> (position: int)
    requires
        0 <= i < headers.len(),
        0 <= a < headers[i].digests.len(),
    ensures
        position == joined_digests(headers.take(i)).len() + a,
        position < joined_digests(headers.take(i + 1)).len() <= joined_digests(headers).len(),
        joined_digests(headers)[position] == headers[i].digests[a],
    decreases headers.len(),
{
    let last = headers.len() - 1;
    let head = headers.drop_last();
    assert(headers.take(i + 1).drop_last() =~= headers.take(i));
    assert(headers.take(i + 1).last() == headers[i]);
    if i == last {
        assert(headers.take(i) =~= head);
        assert(headers.take(i + 1) =~= headers);
    } else {
        let p = lemma_digest_position(head, i, a);
        assert(head.take(i) =~= headers.take(i));
        assert(head.take(i + 1) =~= headers.take(i + 1));
    }
    joined_digests(headers.take(i)).len() + a
}

proof fn lemma_shorter_joined<C>(headers: Seq<HeaderRecord<C>>, i: int, j: int)
    requires
        0 <= i <= j <= headers.len(),
    ensures
        joined_digests(headers.take(i)).len() <= joined_digests(headers.take(j)).len(),
    decreases j,
{
    if i < j {
        lemma_shorter_joined(headers, i, j - 1);
        assert(headers.take(j).drop_last() =~= headers.take(j - 1));
    }
}

/// Every digest among those of all headers is one of some header.
proof fn lemma_digest_somewhere<C>(headers: Seq<HeaderRecord<C>>, k: int) -> (found: (int, int))
    requires
        0 <= k < joined_digests(headers).len(),
    ensures
        0 <= found.0 < headers.len(),
        0 <= found.1 < headers[found.0].digests.len(),
        headers[found.0].digests[found.1] == joined_digests(headers)[k],
    decreases headers.len(),
{
    let head = headers.drop_last();
    let before = joined_digests(head).len();
    if k < before {
        let found = lemma_digest_somewhere(head, k);
        assert(head[found.0] == headers[found.0]);
        found
    } else {
        (headers.len() - 1, k - before)
    }
}

/// Whether no batch is announced twice.
pub open spec fn announced_once(digests: Seq<(Digest, WorkerId)>) -> bool {
    forall|i: int, j: int|
        0 <= i < j < digests.len() ==> (#[trigger] digests[i]).0.0 != (#[trigger] digests[j]).0.0
}

/// Where no batch is announced twice, every announced batch either waits or is in the payload of
/// exactly one header, with the worker that announced it; and no payload has any other batch.
pub proof fn law_digest_in_exactly_one_header<C>(
    header_size: usize,
    genesis: C,
    events: Seq<ProposerEvent<C>>,
)
    requires
        announced_once(announced(events)),
    ensures
        ({
            let (model, headers) = proposed(header_size, genesis, events);
            let digests = announced(events);
            &&& forall|k: int|
                0 <= k < digests.len() ==> model.digests.contains(#[trigger] digests[k])
                    || exists|i: int|
                    {
                        &&& 0 <= i < headers.len()
                        &&& payload_of((#[trigger] headers[i]).digests).dom().contains(
                            digests[k].0.0,
                        )
                        &&& payload_of(headers[i].digests)[digests[k].0.0] == digests[k].1
                    }
            &&& forall|i: int, key: [u8; 32]|
                0 <= i < headers.len() && #[trigger] payload_of(
                    headers[i].digests,
                ).dom().contains(key) ==> digests.contains(
                    (Digest(key), payload_of(headers[i].digests)[key]),
                ) && !model.digests.contains((Digest(key), payload_of(headers[i].digests)[key]))
            &&& forall|i: int, j: int, key: [u8; 32]|
                0 <= i < j < headers.len() && #[trigger] payload_of(
                    headers[i].digests,
                ).dom().contains(key) ==> !(#[trigger] payload_of(headers[j].digests).dom().contains(
                    key,
                ))
        }),
{
    let (model, headers) = proposed(header_size, genesis, events);
    let digests = announced(events);
    let sent = joined_digests(headers);
    law_run_keeps_digests(header_size, genesis, events);
    assert(sent + model.digests == digests);
    assert forall|k: int| 0 <= k < digests.len() implies model.digests.contains(
        #[trigger] digests[k],
    ) || exists|i: int|
        {
            &&& 0 <= i < headers.len()
            &&& payload_of((#[trigger] headers[i]).digests).dom().contains(digests[k].0.0)
            &&& payload_of(headers[i].digests)[digests[k].0.0] == digests[k].1
        } by {
        if k < sent.len() {
            let (i, a) = lemma_digest_somewhere(headers, k);
            assert(sent[k] == digests[k]);
            lemma_sent_digest(headers, digests, i, a, digests[k].0.0);
            assert(headers[i].digests[a].0.0 == digests[k].0.0);
        } else {
            assert(model.digests[k - sent.len()] == digests[k]);
        }
    }
    assert forall|i: int, key: [u8; 32]|
        0 <= i < headers.len() && #[trigger] payload_of(headers[i].digests).dom().contains(
            key,
        ) implies digests.contains((Digest(key), payload_of(headers[i].digests)[key]))
        && !model.digests.contains((Digest(key), payload_of(headers[i].digests)[key])) by {
        let (a, p) = lemma_payload_position(headers, digests, i, key);
        let entry = (Digest(key), payload_of(headers[i].digests)[key]);
        assert(digests[p] == entry);
        if model.digests.contains(entry) {
            let b = choose|b: int| 0 <= b < model.digests.len() && model.digests[b] == entry;
            assert(digests[sent.len() + b] == entry);
        }
    }
    assert forall|i: int, j: int, key: [u8; 32]|
        0 <= i < j < headers.len() && #[trigger] payload_of(headers[i].digests).dom().contains(
            key,
        ) implies !(#[trigger] payload_of(headers[j].digests).dom().contains(key)) by {
        if payload_of(headers[j].digests).dom().contains(key) {
            let (a, p) = lemma_payload_position(headers, digests, i, key);
            let (b, q) = lemma_payload_position(headers, digests, j, key);
            lemma_shorter_joined(headers, i + 1, j);
            assert(p < q);
            assert(digests[p].0.0 == digests[q].0.0);
        }
    }
}

/// Where a batch of a payload stands among the digests of its header and among those announced.
proof fn lemma_payload_position<C>(
    headers: Seq<HeaderRecord<C>>,
    digests: Seq<(Digest, WorkerId)>,
    i: int,
    key: [u8; 32],
) -> (found: (int, int))
    requires
        0 <= i < headers.len(),
        joined_digests(headers).is_prefix_of(digests),
        payload_of(headers[i].digests).dom().contains(key),
    ensures
        0 <= found.0 < headers[i].digests.len(),
        found.1 == joined_digests(headers.take(i)).len() + found.0,
        found.1 < joined_digests(headers.take(i + 1)).len(),
        found.1 < joined_digests(headers).len() <= digests.len(),
        digests[found.1] == (Digest(key), payload_of(headers[i].digests)[key]),
{
    law_no_digest_lost(headers[i].digests);
    let entry = (Digest(key), payload_of(headers[i].digests)[key]);
    let a = choose|a: int| 0 <= a < headers[i].digests.len() && headers[i].digests[a] == entry;
    let p = lemma_digest_position(headers, i, a);
    assert(digests[p] == joined_digests(headers)[p]);
    (a, p)
}

/// A digest of a header is in its payload, with the worker that announced it, where no batch is
/// announced twice.
proof fn lemma_sent_digest<C>(
    headers: Seq<HeaderRecord<C>>,
    digests: Seq<(Digest, WorkerId)>,
    i: int,
    a: int,
    key: [u8; 32],
)
    requires
        0 <= i < headers.len(),
        0 <= a < headers[i].digests.len(),
        headers[i].digests[a].0.0 == key,
        joined_digests(headers).is_prefix_of(digests),
        announced_once(digests),
    ensures
        payload_of(headers[i].digests).dom().contains(key),
        payload_of(headers[i].digests)[key] == headers[i].digests[a].1,
{
    law_no_digest_lost(headers[i].digests);
    assert(headers[i].digests[a].0.0 == key);
    let (b, q) = lemma_payload_position(headers, digests, i, key);
    let p = lemma_digest_position(headers, i, a);
    assert(digests[p] == joined_digests(headers)[p]);
    assert(digests[p].0.0 == digests[q].0.0);
    if p < q {
        assert(digests[p].0.0 != digests[q].0.0);
    } else if q < p {
        assert(digests[q].0.0 != digests[p].0.0);
    }
}

/// Where there is a parent for the next header, an expired timer makes a header due, whatever
/// digests wait; and so does a payload of at least `header_size` bytes, of 32 for each digest that
/// waits, whether or not the timer has expired. With neither, or without a parent where headers
/// are not special, none is due.
pub proof fn law_header_is_due<C, M>(proposer: Proposer<C, M>, timer_expired: bool)
    requires
        proposer.wf(),
    ensures
        proposer.last_parent is Some ==> proposer.due(true),
        proposer.last_parent is Some && 32 * proposer.digests@.len() >= proposer.header_size
            ==> proposer.due(timer_expired),
        proposer.is_special && (timer_expired || 32 * proposer.digests@.len()
            >= proposer.header_size) ==> proposer.due(timer_expired),
        32 * proposer.digests@.len() < proposer.header_size ==> !proposer.due(false),
        proposer.last_parent is None && !proposer.is_special ==> !proposer.due(timer_expired),
        proposer.due(false) ==> proposer.due(true),
{
}

/// What a check does in a run. With a parent, and an expired timer or at least `header_size` bytes
/// of digests, it makes exactly one header, of the height, of the parent and of all digests that
/// wait: no announced digest is left waiting, and there is no parent any longer. Any other check
/// changes nothing.
pub proof fn law_check_sends_what_waits<C>(
    header_size: usize,
    genesis: C,
    events: Seq<ProposerEvent<C>>,
    timer_expired: bool,
)
    ensures
        ({
            let (before, earlier) = proposed(header_size, genesis, events);
            let (after, headers) = proposed(
                header_size,
                genesis,
                events.push(ProposerEvent::Check(timer_expired)),
            );
            let due = before.parent is Some && (timer_expired || 32 * before.digests.len()
                >= header_size);
            &&& due ==> {
                &&& headers.len() == earlier.len() + 1
                &&& headers.drop_last() == earlier
                &&& headers.last().height == before.height
                &&& Some(headers.last().parent) == before.parent
                &&& headers.last().digests == before.digests
                &&& after.digests.len() == 0
                &&& after.parent is None
                &&& after.height == before.height
                &&& joined_digests(headers) == announced(events)
            }
            &&& !due ==> {
                &&& headers == earlier
                &&& after == before
            }
        }),
{
    let check = ProposerEvent::<C>::Check(timer_expired);
    let (before, earlier) = proposed(header_size, genesis, events);
    let (after, headers) = proposed(header_size, genesis, events.push(check));
    assert(events.push(check).drop_last() =~= events);
    law_run_keeps_digests(header_size, genesis, events.push(check));
    assert(announced(events.push(check)) == announced(events));
    if headers.len() > earlier.len() {
        assert(headers.drop_last() =~= earlier);
        assert(joined_digests(headers) + after.digests =~= joined_digests(headers));
    }
}

/// After a check in a run, a header could not have been made: either there is no parent, or the
/// timer had not expired and fewer than `header_size` bytes of digests wait.
pub proof fn law_nothing_due_after_check<C>(
    header_size: usize,
    genesis: C,
    events: Seq<ProposerEvent<C>>,
)
    requires
        events.len() > 0,
        events.last() is Check,
    ensures
        ({
            let model = proposed(header_size, genesis, events).0;
            &&& events.last() == ProposerEvent::<C>::Check(true) ==> model.parent is None
            &&& model.parent is Some ==> 32 * model.digests.len() < header_size
            &&& proposed(header_size, genesis, events).1.len() > proposed(
                header_size,
                genesis,
                events.drop_last(),
            ).1.len() ==> model.digests.len() == 0
        }),
{
}

/// What the other events do in a run. No header is made. The digest of a batch waits behind the
/// others. A certificate of the current height or above raises the height by one and is the parent
/// of the next header, whatever parent there was; one from below changes nothing. At the start
/// nothing waits, at height zero, with the genesis certificate as parent.
pub proof fn law_run_of_events<C>(
    header_size: usize,
    genesis: C,
    events: Seq<ProposerEvent<C>>,
    event: ProposerEvent<C>,
)
    ensures
        ({
            let (start, none) = proposed(header_size, genesis, Seq::empty());
            &&& start.height == 0
            &&& start.parent == Some(genesis)
            &&& start.digests.len() == 0
            &&& none.len() == 0
        }),
        !(event is Check) ==> {
            let (before, earlier) = proposed(header_size, genesis, events);
            let (after, headers) = proposed(header_size, genesis, events.push(event));
            &&& headers == earlier
            &&& event matches ProposerEvent::Batch(digest, worker_id) ==> {
                &&& after.digests.len() == before.digests.len() + 1
                &&& after.digests.drop_last() == before.digests
                &&& after.digests.last() == (digest, worker_id)
                &&& after.height == before.height
                &&& after.parent == before.parent
            }
            &&& event matches ProposerEvent::Certificate(height, certificate) ==> {
                &&& after.digests == before.digests
                &&& height >= before.height ==> after.height == before.height + 1 && after.parent
                    == Some(certificate)
                &&& height < before.height ==> after.height == before.height && after.parent
                    == before.parent
            }
            &&& event is Instance ==> after == before
        },
{
    assert(events.push(event).drop_last() =~= events);
    let before = proposed(header_size, genesis, events).0;
    let after = proposed(header_size, genesis, events.push(event)).0;
    if event is Batch {
        assert(after.digests.drop_last() =~= before.digests);
    }
}

/// The digests of a run are those of its batches, in the order in which they were announced.
pub proof fn law_announced<C>(events: Seq<ProposerEvent<C>>)
    ensures
        announced(events) == events.filter_map(
            |event: ProposerEvent<C>|
                match event {
                    ProposerEvent::Batch(digest, worker_id) => Some((digest, worker_id)),
                    _ => None,
                },
        ),
    decreases events.len(),
{
    if events.len() > 0 {
        law_announced(events.drop_last());
    }
}

/// The digests of the headers are those of the first, then those of the second, and so on.
pub proof fn law_joined_digests<C>(headers: Seq<HeaderRecord<C>>)
    ensures
        joined_digests(headers) == headers.map_values(
            |header: HeaderRecord<C>| header.digests,
        ).flatten(),
    decreases headers.len(),
{
    let parts = headers.map_values(|header: HeaderRecord<C>| header.digests);
    if headers.len() > 0 {
        let head = headers.drop_last();
        law_joined_digests(head);
        let earlier = head.map_values(|header: HeaderRecord<C>| header.digests);
        assert(parts =~= earlier.push(headers.last().digests));
        earlier.lemma_flatten_push(headers.last().digests);
    } else {
        assert(parts =~= Seq::<Seq<(Digest, WorkerId)>>::empty());
    }
}

/// Whether the digest at a position is the last announcement of a batch.
pub open spec fn is_last_of(digests: Seq<(Digest, WorkerId)>, key: [u8; 32], i: int) -> bool {
    &&& 0 <= i < digests.len()
    &&& digests[i].0.0 == key
    &&& forall|j: int| i < j < digests.len() ==> (#[trigger] digests[j]).0.0 != key
}

/// A header names each batch with the worker that announced it last.
pub proof fn law_last_announcement_counts(digests: Seq<(Digest, WorkerId)>, key: [u8; 32], i: int)
    requires
        is_last_of(digests, key, i),
    ensures
        payload_of(digests).dom().contains(key),
        payload_of(digests)[key] == digests[i].1,
    decreases digests.len(),
{
    let head = digests.drop_last();
    let n = digests.len() - 1;
    if i < n {
        assert(digests[n].0.0 != key);
        assert(head[i] == digests[i]);
        assert forall|j: int| i < j < head.len() implies (#[trigger] head[j]).0.0 != key by {
            assert(head[j] == digests[j]);
        }
        law_last_announcement_counts(head, key, i);
    }
}

/// A message that a certificate formed names every batch, in order.
pub proof fn law_certificate_formed_bytes(keys: Seq<[u8; 32]>)
    ensures
        ({
            let bytes = certificate_formed(keys);
            &&& bytes.len() == 12 + 32 * keys.len()
            &&& bytes.subrange(0, 4) == seq![3u8, 0u8, 0u8, 0u8]
            &&& bytes.subrange(4, 12) == little_endian(keys.len(), 8)
            &&& forall|i: int|
                0 <= i < keys.len() ==> bytes.subrange(12 + 32 * i, 44 + 32 * i) == (
                #[trigger] keys[i])@
        }),
{
    let bytes = certificate_formed(keys);
    law_variant_bytes(3);
    lemma_little_endian_len(keys.len(), 8);
    lemma_encoded_keys_len(keys);
    assert(bytes.subrange(0, 4) =~= seq![3u8, 0u8, 0u8, 0u8]);
    assert(bytes.subrange(4, 12) =~= little_endian(keys.len(), 8));
    assert forall|i: int| 0 <= i < keys.len() implies bytes.subrange(12 + 32 * i, 44 + 32 * i) == (
    #[trigger] keys[i])@ by {
        law_encoded_keys(keys, i);
        assert(bytes.subrange(12 + 32 * i, 44 + 32 * i) =~= encoded_keys(keys).subrange(
            8 + 32 * i,
            40 + 32 * i,
        ));
    }
}

} // verus!
