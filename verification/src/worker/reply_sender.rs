//! Replies to clients whose transactions were committed.
use crate::keys::{digest_keys, Digest, PublicKey, WorkerId};
use crate::node::client::SlotTransactionReply;
use crate::worker::metadata::{
    collect_counters, counters_for, law_counters_of_batches, BatchTransactionMap,
};
use std::collections::HashSet;
use vstd::prelude::*;

verus! {

/// How a reply reaches its client.
#[derive(Clone, Copy, Debug, PartialEq, Eq, Structural)]
pub enum Delivery {
    /// Over the connection that is open.
    Send,
    /// Over a connection that has to be opened first.
    ConnectAndSend,
    /// Not at all.
    Skip,
}

/// Decides what clients are told when a slot is committed.
pub struct ReplySender {
    /// The worker identifier (used to annotate replies).
    pub worker_id: WorkerId,
    /// The worker's public key (used as reply identifier).
    pub worker_key: PublicKey,
    /// The clients to which there is a connection.
    pub connected: HashSet<u8>,
}

/// What each client below `limit` with committed transactions is told, by increasing number of
/// the client.
pub open spec fn replies_below(
    map: Map<[u8; 32], Vec<(u8, u64)>>,
    keys: Seq<[u8; 32]>,
    limit: int,
) -> Seq<(u8, Seq<u64>)>
    decreases limit,
{
    if limit <= 0 {
        Seq::empty()
    } else {
        let before = replies_below(map, keys, limit - 1);
        let counters = counters_for(map, keys, limit - 1);
        if counters.len() > 0 {
            before.push(((limit - 1) as u8, counters))
        } else {
            before
        }
    }
}

/// The client and the transactions of each reply.
pub open spec fn told(replies: Seq<(u8, SlotTransactionReply)>) -> Seq<(u8, Seq<u64>)> {
    replies.map_values(
        |reply: (u8, SlotTransactionReply)| (reply.0, reply.1.committed_transactions@),
    )
}

/// Which of the digests are known, in order.
pub open spec fn known_keys(map: Map<[u8; 32], Vec<(u8, u64)>>, keys: Seq<[u8; 32]>) -> Seq<
    [u8; 32],
>
    decreases keys.len(),
{
    if keys.len() == 0 {
        Seq::empty()
    } else {
        let before = known_keys(map, keys.drop_last());
        if map.dom().contains(keys.last()) {
            before.push(keys.last())
        } else {
            before
        }
    }
}

impl ReplySender {
    /// The task before the first committed slot.
    pub fn new(worker_id: WorkerId, worker_key: PublicKey) -> (sender: Self)
        ensures
            sender.worker_id == worker_id,
            sender.worker_key == worker_key,
            sender.connected@ == Set::<u8>::empty(),
    {
        ReplySender { worker_id, worker_key, connected: HashSet::new() }
    }

    /// Takes a committed slot with the digests of its batches. Gives the replies, one for each
    /// client that has transactions in these batches.
    pub fn on_slot_committed(
        &self,
        map: &BatchTransactionMap,
        slot: u64,
        digests: &Vec<Digest>,
    ) -> (replies: Vec<(u8, SlotTransactionReply)>)
        requires
            map.wf(),
        ensures
            told(replies@) == replies_below(map@, digest_keys(digests@), 256),
            forall|i: int|
                0 <= i < replies@.len() ==> (#[trigger] replies@[i]).1.slot == slot
                    && replies@[i].1.worker_key == self.worker_key,
    {
        let mut replies: Vec<(u8, SlotTransactionReply)> = Vec::new();
        let ghost keys = digest_keys(digests@);
        assert(told(replies@) =~= Seq::<(u8, Seq<u64>)>::empty());
        let mut client: usize = 0;
        while client < 256
            invariant
                map.wf(),
                client <= 256,
                keys == digest_keys(digests@),
                told(replies@) == replies_below(map@, keys, client as int),
                forall|i: int|
                    0 <= i < replies@.len() ==> (#[trigger] replies@[i]).1.slot == slot
                        && replies@[i].1.worker_key == self.worker_key,
            decreases 256 - client,
        {
            let committed_transactions = collect_counters(map, digests, client);
            if committed_transactions.len() > 0 {
                let ghost before = replies@;
                let ghost counters = committed_transactions@;
                replies.push(
                    (
                        client as u8,
                        SlotTransactionReply {
                            slot,
                            worker_key: self.worker_key,
                            committed_transactions,
                        },
                    ),
                );
                assert(told(replies@) =~= told(before).push((client as u8, counters)));
            }
            client += 1;
        }
        replies
    }

    /// The digests that could be answered for, which are to be forgotten afterwards.
    pub fn processed(&self, map: &BatchTransactionMap, digests: &Vec<Digest>) -> (known: Vec<
        Digest,
    >)
        requires
            map.wf(),
        ensures
            digest_keys(known@) == known_keys(map@, digest_keys(digests@)),
    {
        let mut known: Vec<Digest> = Vec::new();
        let ghost keys = digest_keys(digests@);
        assert(keys.take(0) =~= Seq::<[u8; 32]>::empty());
        assert(digest_keys(known@) =~= Seq::<[u8; 32]>::empty());
        for i in 0..digests.len()
            invariant
                map.wf(),
                keys == digest_keys(digests@),
                digest_keys(known@) == known_keys(map@, keys.take(i as int)),
        {
            assert(keys.take(i + 1).drop_last() =~= keys.take(i as int));
            assert(keys.take(i + 1).last() == digests@[i as int].0);
            if map.contains_key(&digests[i].0) {
                let ghost before = known@;
                known.push(digests[i]);
                assert(digest_keys(known@) =~= digest_keys(before).push(digests@[i as int].0));
            }
        }
        assert(keys.take(keys.len() as int) =~= keys);
        known
    }

    /// How a reply to a client is delivered. `known` says whether the committee has the client.
    pub fn delivery(&self, client: u8, known: bool) -> (delivery: Delivery)
        ensures
            delivery == (if self.connected@.contains(client) {
                Delivery::Send
            } else if known {
                Delivery::ConnectAndSend
            } else {
                Delivery::Skip
            }),
    {
        broadcast use vstd::std_specs::hash::group_hash_axioms;
        if self.connected.contains(&client) {
            Delivery::Send
        } else if known {
            Delivery::ConnectAndSend
        } else {
            Delivery::Skip
        }
    }

    /// Takes the outcome of an attempt to connect to a client. Says whether to go on and send.
    /// A connection is kept for good.
    pub fn on_connect(&mut self, client: u8, succeeded: bool) -> (send: bool)
        ensures
            send == succeeded,
            final(self).worker_id == old(self).worker_id,
            final(self).worker_key == old(self).worker_key,
            final(self).connected@ == (if succeeded {
                old(self).connected@.insert(client)
            } else {
                old(self).connected@
            }),
    {
        broadcast use vstd::std_specs::hash::group_hash_axioms;
        if succeeded {
            self.connected.insert(client);
        }
        succeeded
    }
}

/// Forgets the transactions of batches that were answered for.
pub fn forget(map: &mut BatchTransactionMap, digests: &Vec<Digest>)
    requires
        old(map).wf(),
    ensures
        final(map).wf(),
        final(map)@ == old(map)@.remove_keys(digest_keys(digests@).to_set()),
{
    let ghost before = map@;
    let ghost keys = digest_keys(digests@);
    assert(map@ =~= before.remove_keys(keys.take(0).to_set()));
    for i in 0..digests.len()
        invariant
            map.wf(),
            keys == digest_keys(digests@),
            map@ == before.remove_keys(keys.take(i as int).to_set()),
    {
        let ghost gone = keys.take(i as int);
        map.remove(&digests[i].0);
        proof {
            let key = digests@[i as int].0;
            assert(keys.take(i + 1) =~= gone.push(key));
            assert(gone.push(key).to_set() =~= gone.to_set().insert(key)) by {
                assert forall|k: [u8; 32]| #[trigger]
                    gone.push(key).contains(k) <==> gone.contains(k) || k == key by {
                    if gone.contains(k) {
                        let j = choose|j: int| 0 <= j < gone.len() && gone[j] == k;
                        assert(gone.push(key)[j] == k);
                    }
                    assert(gone.push(key)[gone.len() as int] == key);
                }
            }
            assert(map@ =~= before.remove_keys(gone.push(key).to_set()));
        }
    }
    assert(keys.take(keys.len() as int) =~= keys);
}

proof fn lemma_replies_below(
    map: Map<[u8; 32], Vec<(u8, u64)>>,
    keys: Seq<[u8; 32]>,
    limit: int,
)
    requires
        0 <= limit <= 256,
    ensures
        ({
            let replies = replies_below(map, keys, limit);
            &&& forall|i: int|
                0 <= i < replies.len() ==> (#[trigger] replies[i]).0 < limit && replies[i].1
                    == counters_for(map, keys, replies[i].0 as int) && replies[i].1.len() > 0
            &&& forall|i: int, j: int|
                0 <= i < j < replies.len() ==> (#[trigger] replies[i]).0 < (#[trigger] replies[j]).0
            &&& forall|client: u8|
                client < limit && (#[trigger] counters_for(map, keys, client as int)).len() > 0
                    ==> replies.contains((client, counters_for(map, keys, client as int)))
        }),
    decreases limit,
{
    if limit > 0 {
        lemma_replies_below(map, keys, limit - 1);
        let before = replies_below(map, keys, limit - 1);
        let replies = replies_below(map, keys, limit);
        assert forall|client: u8|
            client < limit && (#[trigger] counters_for(map, keys, client as int)).len()
                > 0 implies replies.contains(
            (client, counters_for(map, keys, client as int)),
        ) by {
            let reply = (client, counters_for(map, keys, client as int));
            if client < limit - 1 {
                let i = choose|i: int| 0 <= i < before.len() && before[i] == reply;
                assert(replies[i] == reply);
            } else {
                assert(replies[replies.len() - 1] == reply);
            }
        }
    }
}

/// Every client with transactions in the committed batches gets one reply, which holds all of
/// them, and no other client gets any.
pub proof fn law_one_reply_per_client(map: Map<[u8; 32], Vec<(u8, u64)>>, keys: Seq<[u8; 32]>)
    ensures
        ({
            let replies = replies_below(map, keys, 256);
            &&& forall|i: int|
                0 <= i < replies.len() ==> (#[trigger] replies[i]).1 == counters_for(
                    map,
                    keys,
                    replies[i].0 as int,
                ) && replies[i].1.len() > 0
            &&& forall|i: int, j: int|
                0 <= i < j < replies.len() ==> (#[trigger] replies[i]).0 != (#[trigger] replies[j]).0
            &&& forall|client: u8|
                (#[trigger] counters_for(map, keys, client as int)).len() > 0 ==> replies.contains(
                    (client, counters_for(map, keys, client as int)),
                )
        }),
{
    lemma_replies_below(map, keys, 256);
}

proof fn lemma_nothing_known(
    map: Map<[u8; 32], Vec<(u8, u64)>>,
    keys: Seq<[u8; 32]>,
    client: int,
)
    requires
        forall|i: int| 0 <= i < keys.len() ==> !map.dom().contains(#[trigger] keys[i]),
    ensures
        counters_for(map, keys, client).len() == 0,
    decreases keys.len(),
{
    if keys.len() > 0 {
        assert forall|i: int| 0 <= i < keys.drop_last().len() implies !map.dom().contains(
            #[trigger] keys.drop_last()[i],
        ) by {
            assert(keys.drop_last()[i] == keys[i]);
        }
        assert(!map.dom().contains(keys[keys.len() - 1]));
        lemma_nothing_known(map, keys.drop_last(), client);
    }
}

proof fn lemma_no_replies(map: Map<[u8; 32], Vec<(u8, u64)>>, keys: Seq<[u8; 32]>, limit: int)
    requires
        forall|i: int| 0 <= i < keys.len() ==> !map.dom().contains(#[trigger] keys[i]),
    ensures
        replies_below(map, keys, limit).len() == 0,
    decreases limit,
{
    if limit > 0 {
        lemma_no_replies(map, keys, limit - 1);
        lemma_nothing_known(map, keys, limit - 1);
    }
}

proof fn lemma_known_keys(map: Map<[u8; 32], Vec<(u8, u64)>>, keys: Seq<[u8; 32]>)
    ensures
        forall|key: [u8; 32]| #[trigger]
            known_keys(map, keys).contains(key) <==> keys.contains(key) && map.dom().contains(key),
    decreases keys.len(),
{
    if keys.len() > 0 {
        let head = keys.drop_last();
        lemma_known_keys(map, head);
        let before = known_keys(map, head);
        let all = known_keys(map, keys);
        assert forall|key: [u8; 32]| #[trigger] all.contains(key) <==> keys.contains(key)
            && map.dom().contains(key) by {
            if before.contains(key) {
                let i = choose|i: int| 0 <= i < before.len() && before[i] == key;
                assert(all[i] == key);
            }
            if head.contains(key) {
                let i = choose|i: int| 0 <= i < head.len() && head[i] == key;
                assert(keys[i] == key);
            }
            if all.contains(key) {
                let i = choose|i: int| 0 <= i < all.len() && all[i] == key;
                if i < before.len() {
                    assert(before[i] == key);
                    assert(before.contains(key));
                } else {
                    assert(keys[keys.len() - 1] == key);
                }
            }
            if keys.contains(key) && map.dom().contains(key) {
                let i = choose|i: int| 0 <= i < keys.len() && keys[i] == key;
                if i < head.len() {
                    assert(head[i] == key);
                    assert(before.contains(key));
                } else {
                    assert(all[all.len() - 1] == key);
                }
            }
        }
    }
}

/// Once the known batches of a slot have been forgotten, the same slot gives no reply again.
pub proof fn law_no_second_reply(map: Map<[u8; 32], Vec<(u8, u64)>>, keys: Seq<[u8; 32]>)
    ensures
        replies_below(map.remove_keys(known_keys(map, keys).to_set()), keys, 256).len() == 0,
{
    let left = map.remove_keys(known_keys(map, keys).to_set());
    lemma_known_keys(map, keys);
    assert forall|i: int| 0 <= i < keys.len() implies !left.dom().contains(#[trigger] keys[i]) by {
        assert(keys.contains(keys[i]));
        if map.dom().contains(keys[i]) {
            assert(known_keys(map, keys).contains(keys[i]));
        }
    }
    lemma_no_replies(left, keys, 256);
}

/// The digests that are forgotten after a slot was answered for are those that are known, in the
/// order in which they came.
pub proof fn law_processed_digests(map: Map<[u8; 32], Vec<(u8, u64)>>, keys: Seq<[u8; 32]>)
    ensures
        known_keys(map, keys) == keys.filter(|key: [u8; 32]| map.dom().contains(key)),
    decreases keys.len(),
{
    reveal(Seq::filter);
    if keys.len() > 0 {
        law_processed_digests(map, keys.drop_last());
    }
    assert(known_keys(map, keys) =~= keys.filter(|key: [u8; 32]| map.dom().contains(key)));
}

/// The replies to a slot go to clients in increasing order. Each client's reply names its own
/// entries in the known batches, one batch after the other, and nothing else; a client without
/// entries gets none.
pub proof fn law_replies_name_own_entries(
    map: Map<[u8; 32], Vec<(u8, u64)>>,
    keys: Seq<[u8; 32]>,
    client: u8,
)
    ensures
        ({
            let replies = replies_below(map, keys, 256);
            let own = keys.filter_map(
                |key: [u8; 32]|
                    if map.dom().contains(key) {
                        Some(
                            map[key]@.filter_map(
                                |entry: (u8, u64)|
                                    if entry.0 == client {
                                        Some(entry.1)
                                    } else {
                                        None
                                    },
                            ),
                        )
                    } else {
                        None
                    },
            ).flatten();
            &&& forall|i: int, j: int|
                0 <= i < j < replies.len() ==> (#[trigger] replies[i]).0 < (#[trigger] replies[j]).0
            &&& forall|i: int|
                0 <= i < replies.len() && (#[trigger] replies[i]).0 == client ==> replies[i].1
                    == own && own.len() > 0
            &&& own.len() > 0 ==> replies.contains((client, own))
        }),
{
    lemma_replies_below(map, keys, 256);
    law_counters_of_batches(map, keys, client as int);
}

/// What each reply tells, and whom.
pub proof fn law_told(replies: Seq<(u8, SlotTransactionReply)>, i: int)
    requires
        0 <= i < replies.len(),
    ensures
        told(replies).len() == replies.len(),
        told(replies)[i].0 == replies[i].0,
        told(replies)[i].1 == replies[i].1.committed_transactions@,
{
}

} // verus!
