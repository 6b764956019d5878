//! Hashes batches and notes whose transactions are in them.
use crate::keys::{Digest, WorkerId};
use crate::node::transaction_sender::{transaction_head, PlannedTransaction};
use crate::wire::{
    batch_digest, big_endian, big_endian_value, byte_limit, contents, deserialize_batch,
    encoded_batch, law_big_endian_word, law_variant_bytes, lemma_big_endian_roundtrip,
    lemma_byte_limits, lemma_encoded_batch_unique, lemma_little_endian_len,
    lengths_fit, little_endian, serialize_key_and_id, sha512,
};
use crate::worker::batch_maker::BATCH;
use crate::worker::metadata::BatchTransactionMap;
use vstd::prelude::*;

verus! {

/// Indicates a serialized batch message.
pub type SerializedBatchMessage = Vec<u8>;

/// The number of the variant of a message to the primary that announces a batch of our own.
pub const OUR_BATCH: u32 = 0;

/// The number of the variant of a message to the primary that announces the batch of another.
pub const OTHERS_BATCH: u32 = 1;

/// Hashes and stores batches, it then outputs the batch's digest.
pub struct Processor;

/// Whether a transaction starts with a client and a number.
pub open spec fn is_labelled(transaction: Seq<u8>) -> bool {
    transaction.len() > 9 && (transaction[0] == 0 || transaction[0] == 1)
}

/// The client and the number with which a transaction starts.
pub open spec fn label_of(transaction: Seq<u8>) -> (u8, u64) {
    (transaction[1], big_endian_value(transaction.subrange(2, 10)) as u64)
}

/// The client and the number of each transaction that has them, in order.
pub open spec fn labels_of(transactions: Seq<Seq<u8>>) -> Seq<(u8, u64)>
    decreases transactions.len(),
{
    if transactions.len() == 0 {
        Seq::empty()
    } else {
        let before = labels_of(transactions.drop_last());
        if is_labelled(transactions.last()) {
            before.push(label_of(transactions.last()))
        } else {
            before
        }
    }
}

/// The bytes of the message to the primary that announces a batch.
pub open spec fn announcement(digest: Digest, id: WorkerId, own_digest: bool) -> Seq<u8> {
    little_endian(
        if own_digest {
            OUR_BATCH as nat
        } else {
            OTHERS_BATCH as nat
        },
        4,
    ) + digest.0@ + little_endian(id as nat, 4)
}

/// What can be read of a batch: the labels of its transactions, if the bytes start with the
/// message of a batch.
pub open spec fn read_labels(bytes: Seq<u8>, labels: Option<Seq<(u8, u64)>>) -> bool {
    match labels {
        Some(found) => exists|transactions: Seq<Seq<u8>>|
            {
                &&& transactions.len() <= u64::MAX
                &&& lengths_fit(transactions)
                &&& (#[trigger] encoded_batch(BATCH, transactions)).is_prefix_of(bytes)
                &&& found == labels_of(transactions)
            },
        None => forall|transactions: Seq<Seq<u8>>|
            transactions.len() <= u64::MAX && lengths_fit(transactions)
                ==> !(#[trigger] encoded_batch(BATCH, transactions)).is_prefix_of(bytes),
    }
}

/// The view of labels that may be there.
pub open spec fn labels_view(labels: Option<Vec<(u8, u64)>>) -> Option<Seq<(u8, u64)>> {
    match labels {
        Some(found) => Some(found@),
        None => None,
    }
}

/// The number with which a transaction goes on after its first two bytes.
fn read_counter(transaction: &Vec<u8>) -> (counter: u64)
    requires
        transaction@.len() >= 10,
    ensures
        counter == big_endian_value(transaction@.subrange(2, 10)),
{
    let mut counter: u64 = 0;
    let mut i: usize = 2;
    proof {
        lemma_byte_limits();
        assert(transaction@.subrange(2, 2) =~= Seq::<u8>::empty());
    }
    while i < 10
        invariant
            2 <= i <= 10 <= transaction@.len(),
            counter == big_endian_value(transaction@.subrange(2, i as int)),
            counter < byte_limit((i - 2) as nat),
        decreases 10 - i,
    {
        proof {
            let read = transaction@.subrange(2, i + 1);
            assert(read.drop_last() =~= transaction@.subrange(2, i as int));
            reveal_with_fuel(byte_limit, 9);
            assert(byte_limit((i - 1) as nat) == 256 * byte_limit((i - 2) as nat));
            assert(byte_limit((i - 1) as nat) <= 0x1_0000_0000_0000_0000);
        }
        counter = counter * 256 + transaction[i] as u64;
        i += 1;
    }
    counter
}

/// The client and the number of each transaction that has them.
pub fn transaction_metadata(transactions: &Vec<Vec<u8>>) -> (entries: Vec<(u8, u64)>)
    ensures
        entries@ == labels_of(contents(transactions@)),
{
    let mut entries: Vec<(u8, u64)> = Vec::new();
    let ghost all = contents(transactions@);
    assert(all.take(0) =~= Seq::<Seq<u8>>::empty());
    for i in 0..transactions.len()
        invariant
            all == contents(transactions@),
            entries@ == labels_of(all.take(i as int)),
    {
        assert(all.take(i + 1).drop_last() =~= all.take(i as int));
        assert(all.take(i + 1).last() == transactions@[i as int]@);
        let transaction = &transactions[i];
        if transaction.len() > 9 && (transaction[0] == 0 || transaction[0] == 1) {
            entries.push((transaction[1], read_counter(transaction)));
        }
    }
    assert(all.take(all.len() as int) =~= all);
    entries
}

impl Processor {
    /// The client and the number of each transaction of a batch that has them. Bytes that are
    /// no batch give `None`.
    pub fn extract_transaction_metadata(batch: &[u8]) -> (entries: Option<Vec<(u8, u64)>>)
        ensures
            read_labels(batch@, labels_view(entries)),
    {
        match deserialize_batch(batch) {
            Some((variant, transactions)) => {
                proof {
                    assert(transactions.len() <= u64::MAX);
                    assert forall|i: int| 0 <= i < transactions@.len() implies (
                    #[trigger] contents(transactions@)[i]).len() <= u64::MAX by {
                        assert(transactions@[i].len() <= u64::MAX);
                    }
                }
                if variant == BATCH {
                    let entries = transaction_metadata(&transactions);
                    Some(entries)
                } else {
                    proof {
                        assert forall|other: Seq<Seq<u8>>|
                            other.len() <= u64::MAX && lengths_fit(other) implies !(
                        #[trigger] encoded_batch(BATCH, other)).is_prefix_of(batch@) by {
                            if encoded_batch(BATCH, other).is_prefix_of(batch@) {
                                lemma_encoded_batch_unique(
                                    variant,
                                    contents(transactions@),
                                    BATCH,
                                    other,
                                    batch@,
                                );
                            }
                        }
                    }
                    None
                }
            },
            None => None,
        }
    }

    /// Takes a batch. Its transactions are noted under its digest, where they can be read. Gives
    /// back the digest, under which the batch is to be stored, and the message to the primary.
    pub fn process(
        map: &mut BatchTransactionMap,
        id: WorkerId,
        batch: &SerializedBatchMessage,
        own_digest: bool,
    ) -> (result: (Digest, Vec<u8>))
        requires
            old(map).wf(),
        ensures
            final(map).wf(),
            result.0.0@ == sha512(batch@).take(32),
            result.1@ == announcement(result.0, id, own_digest),
            exists|entries: Option<Vec<(u8, u64)>>|
                {
                    &&& read_labels(batch@, #[trigger] labels_view(entries))
                    &&& final(map)@ == match entries {
                        Some(found) => old(map)@.insert(result.0.0, found),
                        None => old(map)@,
                    }
                },
    {
        let digest = batch_digest(batch);
        let entries = Processor::extract_transaction_metadata(batch.as_slice());
        let ghost noted = entries;
        if let Some(found) = entries {
            map.insert(digest.0, found);
        }
        assert(read_labels(batch@, labels_view(noted)));
        let message = serialize_key_and_id(
            if own_digest {
                OUR_BATCH
            } else {
                OTHERS_BATCH
            },
            digest.0,
            id,
        );
        (digest, message)
    }
}

/// The transactions of a client as it builds them, each with its padding.
pub open spec fn built(
    clients: Seq<u8>,
    planned: Seq<PlannedTransaction>,
    paddings: Seq<Seq<u8>>,
) -> Seq<Seq<u8>> {
    Seq::new(
        planned.len(),
        |i: int| transaction_head(clients[i], planned[i]) + paddings[i],
    )
}

/// A transaction as a client builds it has the label that the client gave it.
pub proof fn law_label_read_back(client_id: u8, planned: PlannedTransaction, padding: Seq<u8>)
    ensures
        is_labelled(transaction_head(client_id, planned) + padding),
        label_of(transaction_head(client_id, planned) + padding) == (client_id, planned.id),
{
    let transaction = transaction_head(client_id, planned) + padding;
    lemma_byte_limits();
    lemma_big_endian_roundtrip(planned.id as nat, 8);
    assert(transaction.subrange(2, 10) =~= big_endian(planned.id as nat, 8));
}

/// The labels of a batch of transactions that clients built are the clients and the numbers
/// that they gave them, in order.
pub proof fn law_labels_read_back(
    clients: Seq<u8>,
    planned: Seq<PlannedTransaction>,
    paddings: Seq<Seq<u8>>,
)
    requires
        clients.len() == planned.len() == paddings.len(),
    ensures
        labels_of(built(clients, planned, paddings)) == Seq::new(
            planned.len(),
            |i: int| (clients[i], planned[i].id),
        ),
    decreases planned.len(),
{
    let transactions = built(clients, planned, paddings);
    let labels = Seq::new(planned.len(), |i: int| (clients[i], planned[i].id));
    if planned.len() > 0 {
        let n = planned.len() - 1;
        law_labels_read_back(clients.drop_last(), planned.drop_last(), paddings.drop_last());
        law_label_read_back(clients[n], planned[n], paddings[n]);
        assert(transactions.drop_last() =~= built(
            clients.drop_last(),
            planned.drop_last(),
            paddings.drop_last(),
        ));
        assert(labels_of(transactions) =~= labels);
    } else {
        assert(labels_of(transactions) =~= labels);
    }
}

/// What was sealed can be read: the labels of a sealed batch are those of its transactions,
/// whatever follows the batch.
pub proof fn law_sealed_batch_read_back(
    transactions: Seq<Seq<u8>>,
    rest: Seq<u8>,
    labels: Option<Seq<(u8, u64)>>,
)
    requires
        transactions.len() <= u64::MAX,
        lengths_fit(transactions),
        read_labels(encoded_batch(BATCH, transactions) + rest, labels),
    ensures
        labels == Some(labels_of(transactions)),
{
    let bytes = encoded_batch(BATCH, transactions) + rest;
    assert(encoded_batch(BATCH, transactions).is_prefix_of(bytes));
    let found = labels->0;
    let read = choose|read: Seq<Seq<u8>>|
        {
            &&& read.len() <= u64::MAX
            &&& lengths_fit(read)
            &&& (#[trigger] encoded_batch(BATCH, read)).is_prefix_of(bytes)
            &&& found == labels_of(read)
        };
    lemma_encoded_batch_unique(BATCH, read, BATCH, transactions, bytes);
}

/// The transactions of a batch that are noted are those with more than nine bytes of which the
/// first is zero or one, each once and in order, with the client in the second byte and the
/// number in the eight bytes after it, most significant first.
pub proof fn law_noted_transactions(transactions: Seq<Seq<u8>>)
    ensures
        labels_of(transactions) == transactions.filter_map(
            |transaction: Seq<u8>|
                if transaction.len() > 9 && (transaction[0] == 0 || transaction[0] == 1) {
                    Some((transaction[1], number_in(transaction) as u64))
                } else {
                    None
                },
        ),
    decreases transactions.len(),
{
    let noted = |transaction: Seq<u8>|
        if transaction.len() > 9 && (transaction[0] == 0 || transaction[0] == 1) {
            Some((transaction[1], number_in(transaction) as u64))
        } else {
            None
        };
    if transactions.len() > 0 {
        law_noted_transactions(transactions.drop_last());
        if is_labelled(transactions.last()) {
            law_big_endian_word(transactions.last().subrange(2, 10));
        }
    }
    assert(labels_of(transactions) =~= transactions.filter_map(noted));
}

/// The number in the third to the tenth byte, most significant first.
pub open spec fn number_in(transaction: Seq<u8>) -> int {
    transaction[2] * 0x100_0000_0000_0000 + transaction[3] * 0x1_0000_0000_0000 + transaction[4]
        * 0x100_0000_0000 + transaction[5] * 0x1_0000_0000 + transaction[6] * 0x100_0000
        + transaction[7] * 0x1_0000 + transaction[8] * 0x100 + transaction[9]
}

/// The message to the primary says whether the batch is our own, which one it is, and at which
/// worker.
pub proof fn law_announcement_bytes(digest: Digest, id: WorkerId, own_digest: bool)
    ensures
        ({
            let bytes = announcement(digest, id, own_digest);
            &&& bytes.len() == 40
            &&& own_digest ==> bytes.subrange(0, 4) == seq![0u8, 0u8, 0u8, 0u8]
            &&& !own_digest ==> bytes.subrange(0, 4) == seq![1u8, 0u8, 0u8, 0u8]
            &&& bytes.subrange(4, 36) == digest.0@
            &&& bytes.subrange(36, 40) == little_endian(id as nat, 4)
        }),
{
    let bytes = announcement(digest, id, own_digest);
    law_variant_bytes(0);
    law_variant_bytes(1);
    lemma_little_endian_len(id as nat, 4);
    if own_digest {
        assert(bytes.subrange(0, 4) =~= seq![0u8, 0u8, 0u8, 0u8]);
    } else {
        assert(bytes.subrange(0, 4) =~= seq![1u8, 0u8, 0u8, 0u8]);
    }
    assert(bytes.subrange(4, 36) =~= digest.0@);
    assert(bytes.subrange(36, 40) =~= little_endian(id as nat, 4));
}

/// Nothing is noted of bytes exactly if they start with no batch.
pub proof fn law_no_batch_no_labels(
    bytes: Seq<u8>,
    labels: Option<Seq<(u8, u64)>>,
    transactions: Seq<Seq<u8>>,
)
    requires
        read_labels(bytes, labels),
        transactions.len() <= u64::MAX,
        lengths_fit(transactions),
    ensures
        labels is None ==> !encoded_batch(0, transactions).is_prefix_of(bytes),
        encoded_batch(0, transactions).is_prefix_of(bytes) ==> labels == Some(
            labels_of(transactions),
        ),
        labels is Some ==> exists|found: Seq<Seq<u8>>|
            (#[trigger] encoded_batch(0, found)).is_prefix_of(bytes) && labels == Some(
                labels_of(found),
            ),
{
    if encoded_batch(0, transactions).is_prefix_of(bytes) {
        let rest = bytes.subrange(
            encoded_batch(0, transactions).len() as int,
            bytes.len() as int,
        );
        assert(bytes =~= encoded_batch(0, transactions) + rest);
        law_sealed_batch_read_back(transactions, rest, labels);
    }
}

} // verus!
