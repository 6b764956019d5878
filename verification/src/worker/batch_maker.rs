//! Assembles the transactions of clients into batches.
use crate::chance::random_byte;
use crate::keys::{Digest, KeyMap};
use crate::wire::{batch_digest, contents, encoded_batch, serialize_batch, sha512};
use vstd::prelude::*;

verus! {

/// The message type received from clients.
pub type Transaction = Vec<u8>;

/// The transactions that travel together.
pub type Batch = Vec<Transaction>;

/// The number of the variant of a worker message that carries a batch.
pub const BATCH: u32 = 0;

/// The length of the transaction that stands in for a batch without any.
pub const FILLER_SIZE: usize = 128;

/// A batch that is complete.
pub struct SealedBatch {
    /// The bytes to store and to send to the other workers.
    pub bytes: Vec<u8>,
    /// The digest by which the batch is known.
    pub digest: Digest,
}

/// Assembles the transactions of clients into batches. `W` is the handle by which the sender
/// of a transaction is told that its batch was committed.
pub struct BatchMaker<W> {
    /// The preferred batch size (in bytes).
    pub batch_size: usize,
    /// Holds the current batch.
    pub current_batch: Batch,
    /// Who waits for the current batch.
    pub current_batch_waiters: Vec<W>,
    /// Who waits for each sealed batch, under its digest.
    pub all_batch_waiters: KeyMap<Vec<W>>,
    /// Holds the size of the current batch (in bytes).
    pub current_batch_size: usize,
}

/// The number of bytes in all the strings.
pub open spec fn total_size(strings: Seq<Seq<u8>>) -> nat
    decreases strings.len(),
{
    if strings.len() == 0 {
        0
    } else {
        total_size(strings.drop_last()) + strings.last().len()
    }
}

/// What happens to a batch maker.
pub enum BatchEvent {
    /// A transaction arrives.
    Arrival(Seq<u8>),
    /// The batch timer fires; an empty batch is filled with this byte.
    Timer(u8),
}

/// Why a batch was sealed.
pub enum SealCause {
    /// It reached the preferred size.
    Full,
    /// The timer fired while it held transactions.
    Timer,
    /// The timer fired while it held none.
    Filler,
}

/// The transaction that stands in for those of an empty batch.
pub open spec fn filler_transaction(filler: u8) -> Seq<u8> {
    Seq::new(FILLER_SIZE as nat, |i: int| filler)
}

/// The batch that an event seals, with the cause, if it seals one, and the transactions that are
/// left in the current batch.
pub open spec fn batch_after(batch_size: usize, current: Seq<Seq<u8>>, event: BatchEvent) -> (
    Option<(SealCause, Seq<Seq<u8>>)>,
    Seq<Seq<u8>>,
) {
    match event {
        BatchEvent::Arrival(transaction) => {
            let grown = current.push(transaction);
            if total_size(grown) >= batch_size {
                (Some((SealCause::Full, grown)), Seq::empty())
            } else {
                (None, grown)
            }
        },
        BatchEvent::Timer(filler) => if current.len() == 0 {
            (Some((SealCause::Filler, seq![filler_transaction(filler)])), Seq::empty())
        } else {
            (Some((SealCause::Timer, current)), Seq::empty())
        },
    }
}

impl SealedBatch {
    /// Whether this is the batch with the given transactions.
    pub open spec fn holds(&self, transactions: Seq<Seq<u8>>) -> bool {
        &&& self.bytes@ == encoded_batch(BATCH, transactions)
        &&& self.digest.0@ == sha512(self.bytes@).take(32)
    }
}

impl<W> BatchMaker<W> {
    /// The current batch has the size that is kept for it, is not large enough to be sealed,
    /// and has one waiter per transaction.
    pub open spec fn wf(&self) -> bool {
        &&& self.all_batch_waiters.wf()
        &&& self.current_batch_size == total_size(contents(self.current_batch@))
        &&& self.current_batch_size < self.batch_size || self.current_batch@.len() == 0
        &&& self.current_batch_waiters@.len() == self.current_batch@.len()
    }

    /// The transactions that are sealed when the batch timer fires: those of the current batch,
    /// or one made of the filler where there are none.
    pub open spec fn timed_batch(&self, filler: u8) -> Seq<Seq<u8>> {
        if self.current_batch@.len() == 0 {
            seq![filler_transaction(filler)]
        } else {
            contents(self.current_batch@)
        }
    }

    /// What sealing the transactions does: they go out, and their senders wait under the digest.
    pub open spec fn sealed(
        &self,
        before: &Self,
        transactions: Seq<Seq<u8>>,
        waiters: Seq<W>,
        batch: SealedBatch,
    ) -> bool {
        let all = self.all_batch_waiters@;
        &&& batch.holds(transactions)
        &&& self.current_batch@.len() == 0
        &&& all == before.all_batch_waiters@.insert(batch.digest.0, all[batch.digest.0])
        &&& all[batch.digest.0]@ == waiters
        &&& self.batch_size == before.batch_size
    }

    /// A maker that holds no transaction.
    pub fn new(batch_size: usize) -> (maker: Self)
        ensures
            maker.wf(),
            maker.batch_size == batch_size,
            maker.current_batch@.len() == 0,
            maker.all_batch_waiters@ == Map::<[u8; 32], Vec<W>>::empty(),
    {
        let maker = BatchMaker {
            batch_size,
            current_batch: Vec::new(),
            current_batch_waiters: Vec::new(),
            all_batch_waiters: KeyMap::new(),
            current_batch_size: 0,
        };
        assert(contents(maker.current_batch@) =~= Seq::<Seq<u8>>::empty());
        maker
    }

    /// Takes a transaction and the handle of its sender. The batch is sealed when it has
    /// reached the preferred size.
    pub fn on_transaction(&mut self, transaction: Transaction, waiter: W) -> (batch: Option<
        SealedBatch,
    >)
        requires
            old(self).wf(),
            old(self).current_batch_size + transaction@.len() <= usize::MAX,
        ensures
            final(self).wf(),
            match batch {
                Some(sealed) => {
                    &&& old(self).current_batch_size + transaction@.len() >= old(self).batch_size
                    &&& final(self).sealed(
                        old(self),
                        contents(old(self).current_batch@).push(transaction@),
                        old(self).current_batch_waiters@.push(waiter),
                        sealed,
                    )
                },
                None => {
                    &&& old(self).current_batch_size + transaction@.len() < old(self).batch_size
                    &&& final(self).current_batch@ == old(self).current_batch@.push(transaction)
                    &&& final(self).current_batch_waiters@
                        == old(self).current_batch_waiters@.push(waiter)
                    &&& final(self).all_batch_waiters == old(self).all_batch_waiters
                    &&& final(self).batch_size == old(self).batch_size
                },
            },
            ({
                let (sealed, left) = batch_after(
                    old(self).batch_size,
                    contents(old(self).current_batch@),
                    BatchEvent::Arrival(transaction@),
                );
                &&& contents(final(self).current_batch@) == left
                &&& batch is Some <==> sealed is Some
                &&& batch is Some ==> (batch->0).holds((sealed->0).1)
            }),
    {
        self.current_batch_size = self.current_batch_size + transaction.len();
        self.current_batch.push(transaction);
        self.current_batch_waiters.push(waiter);
        proof {
            let before = contents(old(self).current_batch@);
            assert(contents(self.current_batch@) =~= before.push(transaction@));
            assert(before.push(transaction@).drop_last() =~= before);
        }
        if self.current_batch_size >= self.batch_size {
            Some(self.seal())
        } else {
            None
        }
    }

    /// Takes the batch timer, given the byte with which an empty batch is filled. The batch is
    /// sealed even if it holds few transactions; if it holds none, one made of the filler takes
    /// their place.
    pub fn seal_on_timer(&mut self, filler: u8) -> (batch: SealedBatch)
        requires
            old(self).wf(),
        ensures
            final(self).wf(),
            final(self).sealed(
                old(self),
                old(self).timed_batch(filler),
                old(self).current_batch_waiters@,
                batch,
            ),
            ({
                let (sealed, left) = batch_after(
                    old(self).batch_size,
                    contents(old(self).current_batch@),
                    BatchEvent::Timer(filler),
                );
                &&& contents(final(self).current_batch@) == left
                &&& sealed is Some
                &&& batch.holds((sealed->0).1)
            }),
    {
        if self.current_batch.len() == 0 {
            let mut transaction: Transaction = Vec::new();
            while transaction.len() < FILLER_SIZE
                invariant
                    transaction@.len() <= FILLER_SIZE,
                    forall|i: int| 0 <= i < transaction@.len() ==> transaction@[i] == filler,
                decreases FILLER_SIZE - transaction@.len(),
            {
                transaction.push(filler);
            }
            let ghost bytes = transaction@;
            assert(bytes =~= filler_transaction(filler));
            self.current_batch.push(transaction);
            assert(contents(self.current_batch@) =~= seq![bytes]);
        }
        self.seal()
    }

    /// Takes the batch timer. The batch is sealed even if it holds few transactions; if it
    /// holds none, one made of a random byte takes their place.
    pub fn on_timer(&mut self) -> (batch: SealedBatch)
        requires
            old(self).wf(),
        ensures
            final(self).wf(),
            exists|filler: u8|
                final(self).sealed(
                    old(self),
                    #[trigger] old(self).timed_batch(filler),
                    old(self).current_batch_waiters@,
                    batch,
                ),
    {
        let filler: u8 = random_byte();
        self.seal_on_timer(filler)
    }

    /// Seals the current batch.
    fn seal(&mut self) -> (batch: SealedBatch)
        requires
            old(self).all_batch_waiters.wf(),
        ensures
            final(self).wf(),
            final(self).sealed(
                old(self),
                contents(old(self).current_batch@),
                old(self).current_batch_waiters@,
                batch,
            ),
    {
        self.current_batch_size = 0;
        let mut transactions: Batch = Vec::new();
        std::mem::swap(&mut self.current_batch, &mut transactions);
        let bytes = serialize_batch(BATCH, &transactions);
        let digest = batch_digest(&bytes);
        let mut waiters: Vec<W> = Vec::new();
        std::mem::swap(&mut self.current_batch_waiters, &mut waiters);
        self.all_batch_waiters.insert(digest.0, waiters);
        assert(contents(self.current_batch@) =~= Seq::<Seq<u8>>::empty());
        SealedBatch { bytes, digest }
    }

    /// Takes the digest of a committed batch. Gives back who waited for it, to be told once.
    pub fn reply_all(&mut self, digest: &Digest) -> (waiters: Vec<W>)
        requires
            old(self).wf(),
        ensures
            final(self).wf(),
            waiters@ == (if old(self).all_batch_waiters@.dom().contains(digest.0) {
                old(self).all_batch_waiters@[digest.0]@
            } else {
                Seq::empty()
            }),
            final(self).all_batch_waiters@ == old(self).all_batch_waiters@.remove(digest.0),
            *final(self) == (BatchMaker {
                all_batch_waiters: final(self).all_batch_waiters,
                ..*old(self)
            }),
    {
        match self.all_batch_waiters.remove(&digest.0) {
            Some(waiters) => waiters,
            None => Vec::new(),
        }
    }
}

/// The batches that are sealed, each with the cause, and the transactions that are left after a
/// history of events.
pub open spec fn assembled(batch_size: usize, events: Seq<BatchEvent>) -> (
    Seq<(SealCause, Seq<Seq<u8>>)>,
    Seq<Seq<u8>>,
)
    decreases events.len(),
{
    if events.len() == 0 {
        (Seq::empty(), Seq::empty())
    } else {
        let (batches, current) = assembled(batch_size, events.drop_last());
        let (sealed, left) = batch_after(batch_size, current, events.last());
        (
            match sealed {
                Some(batch) => batches.push(batch),
                None => batches,
            },
            left,
        )
    }
}

/// The transactions that arrive in a history of events.
pub open spec fn arrivals(events: Seq<BatchEvent>) -> Seq<Seq<u8>>
    decreases events.len(),
{
    if events.len() == 0 {
        Seq::empty()
    } else {
        match events.last() {
            BatchEvent::Arrival(transaction) => arrivals(events.drop_last()).push(transaction),
            BatchEvent::Timer(_) => arrivals(events.drop_last()),
        }
    }
}

/// The transactions of the batches, one batch after the other, without those that only fill.
pub open spec fn joined(batches: Seq<(SealCause, Seq<Seq<u8>>)>) -> Seq<Seq<u8>>
    decreases batches.len(),
{
    if batches.len() == 0 {
        Seq::empty()
    } else if batches.last().0 is Filler {
        joined(batches.drop_last())
    } else {
        joined(batches.drop_last()) + batches.last().1
    }
}

/// No transaction is lost, repeated or overtaken, whenever the timer fires: the sealed batches,
/// without those that only fill, and the current one hold the transactions that arrived, in the
/// order in which they arrived.
pub proof fn law_no_transaction_lost(batch_size: usize, events: Seq<BatchEvent>)
    ensures
        ({
            let (batches, current) = assembled(batch_size, events);
            joined(batches) + current == arrivals(events)
        }),
    decreases events.len(),
{
    let (batches, current) = assembled(batch_size, events);
    if events.len() > 0 {
        law_no_transaction_lost(batch_size, events.drop_last());
        let (before, kept) = assembled(batch_size, events.drop_last());
        if batches.len() > before.len() {
            assert(batches.drop_last() =~= before);
        }
    }
    assert(joined(batches) + current =~= arrivals(events));
}

/// A batch is sealed by an arrival as soon as it has the preferred size and not before; the
/// timer seals what there is, or, if nothing, one transaction of equal bytes. No sealed batch is
/// empty.
pub proof fn law_batches_just_full(batch_size: usize, events: Seq<BatchEvent>)
    ensures
        ({
            let (batches, current) = assembled(batch_size, events);
            &&& forall|i: int|
                0 <= i < batches.len() ==> {
                    let batch = (#[trigger] batches[i]).1;
                    &&& batch.len() > 0
                    &&& match batches[i].0 {
                        SealCause::Full => {
                            &&& total_size(batch) >= batch_size
                            &&& batch_size > 0 ==> total_size(batch.drop_last()) < batch_size
                        },
                        SealCause::Timer => total_size(batch) < batch_size,
                        SealCause::Filler => exists|filler: u8|
                            batch == seq![#[trigger] filler_transaction(filler)],
                    }
                }
            &&& current.len() > 0 ==> total_size(current) < batch_size
        }),
    decreases events.len(),
{
    if events.len() > 0 {
        law_batches_just_full(batch_size, events.drop_last());
        let (before, kept) = assembled(batch_size, events.drop_last());
        match events.last() {
            BatchEvent::Arrival(transaction) => {
                assert(kept.push(transaction).drop_last() =~= kept);
            },
            BatchEvent::Timer(_) => {},
        }
    }
}

/// The size of a batch is the number of bytes of its transactions taken together.
pub proof fn law_total_size(strings: Seq<Seq<u8>>)
    ensures
        total_size(strings) == strings.flatten().len(),
    decreases strings.len(),
{
    if strings.len() > 0 {
        law_total_size(strings.drop_last());
        strings.drop_last().lemma_flatten_push(strings.last());
        assert(strings =~= strings.drop_last().push(strings.last()));
    }
}

/// An arrival seals the batch, with all that waited in it and what arrived, exactly if these have
/// at least the preferred number of bytes; otherwise what arrived waits behind the rest. A timer
/// always seals: all that waited, or one transaction of a hundred and twenty-eight equal bytes.
/// What is sealed does not wait any longer.
pub proof fn law_batch_after(batch_size: usize, current: Seq<Seq<u8>>, transaction: Seq<u8>, filler: u8)
    ensures
        ({
            let (sealed, left) = batch_after(
                batch_size,
                current,
                BatchEvent::Arrival(transaction),
            );
            &&& sealed is Some <==> current.flatten().len() + transaction.len() >= batch_size
            &&& sealed is Some ==> (sealed->0).1 == current + seq![transaction] && left.len() == 0
            &&& sealed is None ==> left == current + seq![transaction]
        }),
        ({
            let (sealed, left) = batch_after(batch_size, current, BatchEvent::Timer(filler));
            &&& sealed is Some
            &&& left.len() == 0
            &&& current.len() > 0 ==> (sealed->0).1 == current
            &&& current.len() == 0 ==> {
                &&& (sealed->0).1.len() == 1
                &&& (sealed->0).1[0].len() == 128
                &&& forall|i: int| 0 <= i < 128 ==> (sealed->0).1[0][i] == filler
            }
        }),
{
    law_total_size(current.push(transaction));
    current.lemma_flatten_push(transaction);
    assert(current + seq![transaction] =~= current.push(transaction));
}

/// When transactions have been sealed, the batch is their encoding, its digest is the first half
/// of the hash, all of their senders wait under the digest, those of the other batches wait as
/// before, and the current batch is empty.
pub proof fn law_sealed<W>(
    after: BatchMaker<W>,
    before: BatchMaker<W>,
    transactions: Seq<Seq<u8>>,
    waiters: Seq<W>,
    batch: SealedBatch,
    other: [u8; 32],
)
    requires
        after.sealed(&before, transactions, waiters, batch),
    ensures
        batch.bytes@ == encoded_batch(0, transactions),
        batch.digest.0@ == sha512(batch.bytes@).subrange(0, 32),
        after.current_batch@.len() == 0,
        after.batch_size == before.batch_size,
        after.all_batch_waiters@.dom().contains(batch.digest.0),
        after.all_batch_waiters@[batch.digest.0]@ == waiters,
        other != batch.digest.0 ==> {
            &&& after.all_batch_waiters@.dom().contains(other)
                <==> before.all_batch_waiters@.dom().contains(other)
            &&& after.all_batch_waiters@[other] == before.all_batch_waiters@[other]
        },
{
    assert(sha512(batch.bytes@).take(32) =~= sha512(batch.bytes@).subrange(0, 32));
}

/// The timer seals what waits in the current batch, or one transaction of a hundred and
/// twenty-eight equal bytes.
pub proof fn law_timed_batch<W>(maker: BatchMaker<W>, filler: u8)
    ensures
        maker.current_batch@.len() > 0 ==> {
            &&& maker.timed_batch(filler).len() == maker.current_batch@.len()
            &&& forall|i: int|
                0 <= i < maker.current_batch@.len() ==> maker.timed_batch(filler)[i]
                    == (#[trigger] maker.current_batch@[i])@
        },
        maker.current_batch@.len() == 0 ==> {
            &&& maker.timed_batch(filler).len() == 1
            &&& maker.timed_batch(filler)[0].len() == 128
            &&& forall|i: int| 0 <= i < 128 ==> maker.timed_batch(filler)[0][i] == filler
        },
{
}

/// The current batch has one waiter for each transaction, the size that is kept for it is that of
/// its transactions, and it is never left with the preferred size.
pub proof fn law_waiters_match<W>(maker: BatchMaker<W>)
    requires
        maker.wf(),
    ensures
        maker.current_batch_waiters@.len() == maker.current_batch@.len(),
        maker.current_batch_size == contents(maker.current_batch@).flatten().len(),
        maker.current_batch@.len() > 0 ==> maker.current_batch_size < maker.batch_size,
{
    law_total_size(contents(maker.current_batch@));
}

} // verus!
