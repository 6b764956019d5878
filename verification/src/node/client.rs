//! What a client is configured with, what it is told, and where it sends its transactions.
use crate::clock::span_nanos;
use crate::keys::PublicKey;
use crate::wire::{
    deserialize_reply, deserialize_words, encoded_reply, encoded_words, law_encoded_words,
    lemma_encoded_reply_unique, lemma_encoded_words_unique, lemma_little_endian_len,
    lemma_word_bytes_len, little_endian, serialize_reply, serialize_words,
};
use std::time::Duration;
use vstd::prelude::*;

verus! {

/// Reply channel capacity sized for >200k tx/s workloads.
pub const CHANNEL_CAPACITY: usize = 1_000_000;

/// Transaction reply message received from workers.
#[derive(Debug, Clone)]
pub struct SlotTransactionReply {
    pub slot: u64,
    pub worker_key: PublicKey,
    pub committed_transactions: Vec<u64>,
}

/// Early ACK message received from the co-located worker when a certificate forms.
#[derive(Debug, Clone)]
pub struct CertificateAck {
    pub acked_transactions: Vec<u64>,
}

impl SlotTransactionReply {
    /// The bytes that stand for the reply on the network.
    pub open spec fn encoding(&self) -> Seq<u8> {
        encoded_reply(self.slot, self.worker_key.0, self.committed_transactions@)
    }

    /// Whether two replies have the same fields.
    pub open spec fn same_as(&self, other: &SlotTransactionReply) -> bool {
        &&& self.slot == other.slot
        &&& self.worker_key == other.worker_key
        &&& self.committed_transactions@ == other.committed_transactions@
    }

    /// What reading `bytes` gives: the reply whose encoding stands at their front, if any does.
    pub open spec fn read_from(bytes: Seq<u8>, result: Option<SlotTransactionReply>) -> bool {
        match result {
            Some(reply) => {
                &&& reply.encoding().is_prefix_of(bytes)
                &&& reply.committed_transactions@.len() <= u64::MAX
            },
            None => forall|slot: u64, key: [u8; 32], transactions: Seq<u64>|
                transactions.len() <= u64::MAX ==> !(#[trigger] encoded_reply(
                    slot,
                    key,
                    transactions,
                )).is_prefix_of(bytes),
        }
    }

    /// Encodes the reply.
    pub fn encode(&self) -> (bytes: Vec<u8>)
        ensures
            bytes@ == self.encoding(),
    {
        serialize_reply(self.slot, self.worker_key.0, &self.committed_transactions)
    }

    /// Decodes a received message. A message that holds no reply gives `None`.
    pub fn decode(bytes: &[u8]) -> (result: Option<SlotTransactionReply>)
        ensures
            SlotTransactionReply::read_from(bytes@, result),
    {
        match deserialize_reply(bytes) {
            Some((slot, key, committed_transactions)) => {
                assert(committed_transactions.len() <= u64::MAX);
                Some(
                    SlotTransactionReply {
                        slot,
                        worker_key: PublicKey(key),
                        committed_transactions,
                    },
                )
            },
            None => None,
        }
    }

    /// A reply that was sent is read back as it was, whatever follows it in the message.
    pub proof fn law_reply_read_back(
        sent: SlotTransactionReply,
        rest: Seq<u8>,
        result: Option<SlotTransactionReply>,
    )
        requires
            sent.committed_transactions@.len() <= u64::MAX,
            SlotTransactionReply::read_from(sent.encoding() + rest, result),
        ensures
            result is Some,
            result->0.same_as(&sent),
    {
        let bytes = sent.encoding() + rest;
        assert(sent.encoding().is_prefix_of(bytes));
        let reply = result->0;
        lemma_encoded_reply_unique(
            reply.slot,
            reply.worker_key.0,
            reply.committed_transactions@,
            sent.slot,
            sent.worker_key.0,
            sent.committed_transactions@,
            bytes,
        );
    }
}

impl CertificateAck {
    /// The bytes that stand for the acknowledgement on the network.
    pub open spec fn encoding(&self) -> Seq<u8> {
        encoded_words(self.acked_transactions@)
    }

    /// What reading `bytes` gives: the acknowledgement whose encoding stands at their front, if
    /// any does.
    pub open spec fn read_from(bytes: Seq<u8>, result: Option<CertificateAck>) -> bool {
        match result {
            Some(ack) => {
                &&& ack.encoding().is_prefix_of(bytes)
                &&& ack.acked_transactions@.len() <= u64::MAX
            },
            None => forall|transactions: Seq<u64>|
                transactions.len() <= u64::MAX ==> !(#[trigger] encoded_words(
                    transactions,
                )).is_prefix_of(bytes),
        }
    }

    /// Encodes the acknowledgement.
    pub fn encode(&self) -> (bytes: Vec<u8>)
        ensures
            bytes@ == self.encoding(),
    {
        serialize_words(&self.acked_transactions)
    }

    /// Decodes a received message. A message that holds no acknowledgement gives `None`.
    pub fn decode(bytes: &[u8]) -> (result: Option<CertificateAck>)
        ensures
            CertificateAck::read_from(bytes@, result),
    {
        match deserialize_words(bytes) {
            Some(acked_transactions) => {
                assert(acked_transactions.len() <= u64::MAX);
                Some(CertificateAck { acked_transactions })
            },
            None => None,
        }
    }

    /// An acknowledgement that was sent is read back as it was, whatever follows it in the
    /// message.
    pub proof fn law_ack_read_back(
        sent: CertificateAck,
        rest: Seq<u8>,
        result: Option<CertificateAck>,
    )
        requires
            sent.acked_transactions@.len() <= u64::MAX,
            CertificateAck::read_from(sent.encoding() + rest, result),
        ensures
            result is Some,
            result->0.acked_transactions@ == sent.acked_transactions@,
    {
        let bytes = sent.encoding() + rest;
        assert(sent.encoding().is_prefix_of(bytes));
        lemma_encoded_words_unique(
            result->0.acked_transactions@,
            sent.acked_transactions@,
            bytes,
        );
    }
}

/// Client configuration parameters.
#[derive(Clone, Copy)]
pub struct ClientParameters {
    /// The size of each transaction in bytes.
    pub transaction_size: usize,
    /// The rate (txs/s) at which to send transactions.
    pub transaction_rate: u64,
    /// The number of workers to send transactions to.
    pub worker_count: usize,
    /// The number of reply confirmations required before marking a transaction as committed.
    pub threshold: usize,
    /// How long the client should send transactions before initiating shutdown.
    pub duration: Duration,
    /// Timeout duration in milliseconds for waiting for early ACKs before retrying to remaining workers.
    /// If 0, timeout mechanism is disabled.
    pub transaction_timeout: u64,
}

impl Default for ClientParameters {
    fn default() -> (parameters: Self)
        ensures
            parameters.transaction_size == 512,
            parameters.transaction_rate == 1000,
            parameters.worker_count == 1,
            parameters.threshold == 1,
            span_nanos(parameters.duration) == 20_000_000_000,
            parameters.transaction_timeout == 150,
    {
        ClientParameters {
            transaction_size: 512,
            transaction_rate: 1000,
            worker_count: 1,
            threshold: 1,
            duration: Duration::from_secs(20),
            transaction_timeout: 150,
        }
    }
}

/// An authority of the committee, as far as a client reads it.
pub struct AuthorityWorkers<A> {
    /// The number of the authority.
    pub id: usize,
    /// Where the workers of the authority receive transactions.
    pub transactions: Vec<A>,
}

/// Whether `order` lists the positions of `authorities` by increasing number, and authorities
/// of the same number as they stand.
pub open spec fn listed_by_id<A>(order: Seq<int>, authorities: Seq<AuthorityWorkers<A>>) -> bool {
    &&& order.len() == authorities.len()
    &&& forall|i: int| 0 <= i < order.len() ==> 0 <= #[trigger] order[i] < authorities.len()
    &&& forall|i: int, j: int|
        0 <= i < j < order.len() ==> comes_before(#[trigger] order[i], #[trigger] order[j], authorities)
}

/// Whether the authority at `a` is listed before the authority at `b`.
pub open spec fn comes_before<A>(a: int, b: int, authorities: Seq<AuthorityWorkers<A>>) -> bool {
    authorities[a].id < authorities[b].id || (authorities[a].id == authorities[b].id && a < b)
}

/// The addresses of the authorities at the listed positions, one authority after the other.
pub open spec fn addresses_in<A>(order: Seq<int>, authorities: Seq<AuthorityWorkers<A>>) -> Seq<A>
    decreases order.len(),
{
    if order.len() == 0 {
        Seq::empty()
    } else {
        addresses_in(order.drop_last(), authorities) + authorities[order.last()].transactions@
    }
}

/// The positions that a vector holds.
pub open spec fn positions(order: Seq<usize>) -> Seq<int> {
    order.map_values(|i: usize| i as int)
}

/// The position in `order` at which the authority at `next`, which stands behind all that are
/// listed, goes.
fn place_by_id<A>(order: &Vec<usize>, authorities: &Vec<AuthorityWorkers<A>>, next: usize) -> (pos:
    usize)
    requires
        next < authorities@.len(),
        forall|i: int| 0 <= i < order@.len() ==> (#[trigger] order@[i]) < next,
    ensures
        pos <= order@.len(),
        pos < order@.len() ==> authorities@[next as int].id < authorities@[order@[pos as int] as int].id,
        forall|i: int|
            0 <= i < pos ==> authorities@[(#[trigger] order@[i]) as int].id
                <= authorities@[next as int].id,
{
    let mut pos: usize = 0;
    while pos < order.len() && authorities[order[pos]].id <= authorities[next].id
        invariant
            pos <= order@.len(),
            next < authorities@.len(),
            forall|i: int| 0 <= i < order@.len() ==> (#[trigger] order@[i]) < next,
            forall|i: int|
                0 <= i < pos ==> authorities@[(#[trigger] order@[i]) as int].id
                    <= authorities@[next as int].id,
        decreases order@.len() - pos,
    {
        pos += 1;
    }
    pos
}

/// The addresses to which a client can send transactions, by increasing number of their
/// authority, so that a client and the authority with its number can be matched.
pub fn worker_addresses<A: Copy>(authorities: &Vec<AuthorityWorkers<A>>) -> (addresses: Vec<A>)
    ensures
        exists|order: Seq<int>|
            listed_by_id(order, authorities@) && addresses@ == #[trigger] addresses_in(
                order,
                authorities@,
            ),
{
    let mut order: Vec<usize> = Vec::new();
    for next in 0..authorities.len()
        invariant
            order@.len() == next,
            forall|i: int| 0 <= i < order@.len() ==> (#[trigger] order@[i]) < next,
            forall|i: int, j: int|
                0 <= i < j < order@.len() ==> comes_before(
                    (#[trigger] order@[i]) as int,
                    (#[trigger] order@[j]) as int,
                    authorities@,
                ),
    {
        let ghost before = order@;
        let pos = place_by_id(&order, authorities, next);
        order.insert(pos, next);
        proof {
            assert(order@ == before.insert(pos as int, next));
            assert forall|i: int, j: int| 0 <= i < j < order@.len() implies comes_before(
                (#[trigger] order@[i]) as int,
                (#[trigger] order@[j]) as int,
                authorities@,
            ) by {
                if i < pos && j == pos {
                    assert(order@[i] == before[i]);
                } else if i == pos {
                    assert(order@[j] == before[j - 1]);
                    if pos < j - 1 {
                        assert(comes_before(
                            before[pos as int] as int,
                            before[j - 1] as int,
                            authorities@,
                        ));
                    }
                } else {
                    let i0 = if i < pos { i } else { i - 1 };
                    let j0 = if j < pos { j } else { j - 1 };
                    assert(comes_before(before[i0] as int, before[j0] as int, authorities@));
                }
            }
        }
    }
    let ghost listing = positions(order@);
    let mut addresses: Vec<A> = Vec::new();
    for i in 0..order.len()
        invariant
            listing == positions(order@),
            forall|i: int| 0 <= i < order@.len() ==> (#[trigger] order@[i]) < authorities@.len(),
            addresses@ == addresses_in(listing.take(i as int), authorities@),
    {
        let ghost before = addresses@;
        let workers = &authorities[order[i]].transactions;
        for j in 0..workers.len()
            invariant
                addresses@ == before + workers@.take(j as int),
        {
            addresses.push(workers[j]);
            assert(workers@.take(j + 1) =~= workers@.take(j as int).push(workers@[j as int]));
        }
        assert(workers@.take(workers@.len() as int) =~= workers@);
        assert(listing.take(i + 1).drop_last() =~= listing.take(i as int));
    }
    proof {
        assert(listing.take(order@.len() as int) =~= listing);
        assert(listed_by_id(listing, authorities@)) by {
            assert forall|i: int, j: int| 0 <= i < j < listing.len() implies comes_before(
                #[trigger] listing[i],
                #[trigger] listing[j],
                authorities@,
            ) by {
                assert(comes_before(order@[i] as int, order@[j] as int, authorities@));
            }
        }
    }
    addresses
}

/// A reply is written as its slot in eight bytes, the key of its worker, the number of its
/// transactions in eight bytes, and then each transaction in eight bytes, in order.
pub proof fn law_reply_bytes(reply: SlotTransactionReply)
    ensures
        ({
            let bytes = reply.encoding();
            let ids = reply.committed_transactions@;
            &&& bytes.len() == 48 + 8 * ids.len()
            &&& bytes.subrange(0, 8) == little_endian(reply.slot as nat, 8)
            &&& bytes.subrange(8, 40) == reply.worker_key.0@
            &&& bytes.subrange(40, 48) == little_endian(ids.len(), 8)
            &&& forall|i: int|
                0 <= i < ids.len() ==> bytes.subrange(48 + 8 * i, 56 + 8 * i) == little_endian(
                    (#[trigger] ids[i]) as nat,
                    8,
                )
        }),
{
    let bytes = reply.encoding();
    let ids = reply.committed_transactions@;
    lemma_little_endian_len(reply.slot as nat, 8);
    lemma_little_endian_len(ids.len(), 8);
    lemma_word_bytes_len(ids);
    assert(bytes.subrange(0, 8) =~= little_endian(reply.slot as nat, 8));
    assert(bytes.subrange(8, 40) =~= reply.worker_key.0@);
    assert(bytes.subrange(40, 48) =~= little_endian(ids.len(), 8));
    assert forall|i: int| 0 <= i < ids.len() implies bytes.subrange(48 + 8 * i, 56 + 8 * i)
        == little_endian((#[trigger] ids[i]) as nat, 8) by {
        law_encoded_words(ids, i);
        assert(bytes.subrange(48 + 8 * i, 56 + 8 * i) =~= encoded_words(ids).subrange(
            8 + 8 * i,
            16 + 8 * i,
        ));
    }
}

/// An acknowledgement is written as the number of its transactions in eight bytes, and then each
/// in eight bytes, in order.
pub proof fn law_ack_bytes(ack: CertificateAck)
    ensures
        ({
            let bytes = ack.encoding();
            let ids = ack.acked_transactions@;
            &&& bytes.len() == 8 + 8 * ids.len()
            &&& bytes.subrange(0, 8) == little_endian(ids.len(), 8)
            &&& forall|i: int|
                0 <= i < ids.len() ==> bytes.subrange(8 + 8 * i, 16 + 8 * i) == little_endian(
                    (#[trigger] ids[i]) as nat,
                    8,
                )
        }),
{
    let ids = ack.acked_transactions@;
    lemma_little_endian_len(ids.len(), 8);
    lemma_word_bytes_len(ids);
    assert(ack.encoding().subrange(0, 8) =~= little_endian(ids.len(), 8));
    assert forall|i: int| 0 <= i < ids.len() implies ack.encoding().subrange(8 + 8 * i, 16 + 8 * i)
        == little_endian((#[trigger] ids[i]) as nat, 8) by {
        law_encoded_words(ids, i);
    }
}

/// What was read from bytes stands at their front, and nothing is read exactly where nothing
/// stands there.
pub proof fn law_read_is_there(
    bytes: Seq<u8>,
    reply: Option<SlotTransactionReply>,
    ack: Option<CertificateAck>,
    slot: u64,
    key: [u8; 32],
    ids: Seq<u64>,
)
    requires
        SlotTransactionReply::read_from(bytes, reply),
        CertificateAck::read_from(bytes, ack),
        ids.len() <= u64::MAX,
    ensures
        reply is Some ==> (reply->0).encoding().is_prefix_of(bytes),
        reply is None ==> !(little_endian(slot as nat, 8) + key@ + encoded_words(
            ids,
        )).is_prefix_of(bytes),
        ack is Some ==> (ack->0).encoding().is_prefix_of(bytes),
        ack is None ==> !encoded_words(ids).is_prefix_of(bytes),
{
    assert(encoded_reply(slot, key, ids) == little_endian(slot as nat, 8) + key@ + encoded_words(
        ids,
    ));
}

/// The addresses are those of all authorities, each authority's together and in their order, by
/// increasing number of the authority: the list of positions names every authority once, and
/// never one with a larger number before one with a smaller.
pub proof fn law_addresses_by_number<A>(order: Seq<int>, authorities: Seq<AuthorityWorkers<A>>)
    requires
        listed_by_id(order, authorities),
    ensures
        order.len() == authorities.len(),
        order.no_duplicates(),
        forall|i: int| 0 <= i < order.len() ==> 0 <= #[trigger] order[i] < authorities.len(),
        forall|i: int, j: int|
            0 <= i < j < order.len() ==> authorities[#[trigger] order[i]].id
                <= authorities[#[trigger] order[j]].id,
        forall|i: int, j: int|
            0 <= i < j < order.len() && authorities[#[trigger] order[i]].id
                == authorities[#[trigger] order[j]].id ==> order[i] < order[j],
        addresses_in(order, authorities) == order.map_values(
            |position: int| authorities[position].transactions@,
        ).flatten(),
{
    assert forall|i: int, j: int| 0 <= i < j < order.len() implies authorities[
    #[trigger] order[i]].id <= authorities[#[trigger] order[j]].id && order[i] != order[j] by {
        assert(comes_before(order[i], order[j], authorities));
    }
    assert forall|i: int, j: int|
        0 <= i < j < order.len() && authorities[#[trigger] order[i]].id == authorities[
        #[trigger] order[j]].id implies order[i] < order[j] by {
        assert(comes_before(order[i], order[j], authorities));
    }
    lemma_addresses_joined(order, authorities);
}

proof fn lemma_addresses_joined<A>(order: Seq<int>, authorities: Seq<AuthorityWorkers<A>>)
    ensures
        addresses_in(order, authorities) == order.map_values(
            |position: int| authorities[position].transactions@,
        ).flatten(),
    decreases order.len(),
{
    let addresses = |position: int| authorities[position].transactions@;
    if order.len() > 0 {
        let head = order.drop_last();
        lemma_addresses_joined(head, authorities);
        head.map_values(addresses).lemma_flatten_push(addresses(order.last()));
        assert(order.map_values(addresses) =~= head.map_values(addresses).push(
            addresses(order.last()),
        ));
    }
}

} // verus!
