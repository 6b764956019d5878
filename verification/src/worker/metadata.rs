//! Which transactions of which clients are in which batches.
use crate::keys::{digest_keys, Digest, KeyMap};
use vstd::prelude::*;

verus! {

/// The client and the number of each transaction of a batch, under the digest of the batch.
pub type BatchTransactionMap = KeyMap<Vec<(u8, u64)>>;

/// The numbers of a client's transactions among the entries of a batch, in order.
pub open spec fn counters_in(entries: Seq<(u8, u64)>, client: int) -> Seq<u64>
    decreases entries.len(),
{
    if entries.len() == 0 {
        Seq::empty()
    } else {
        let before = counters_in(entries.drop_last(), client);
        if entries.last().0 == client {
            before.push(entries.last().1)
        } else {
            before
        }
    }
}

/// The numbers of a client's transactions in the batches with the given digests, as far as
/// they are known, one batch after the other.
pub open spec fn counters_for(
    map: Map<[u8; 32], Vec<(u8, u64)>>,
    keys: Seq<[u8; 32]>,
    client: int,
) -> Seq<u64>
    decreases keys.len(),
{
    if keys.len() == 0 {
        Seq::empty()
    } else {
        let before = counters_for(map, keys.drop_last(), client);
        if map.dom().contains(keys.last()) {
            before + counters_in(map[keys.last()]@, client)
        } else {
            before
        }
    }
}

/// The numbers of a client's transactions in the batches with the given digests.
pub fn collect_counters(map: &BatchTransactionMap, digests: &Vec<Digest>, client: usize) -> (counters:
    Vec<u64>)
    requires
        map.wf(),
    ensures
        counters@ == counters_for(map@, digest_keys(digests@), client as int),
{
    let mut counters: Vec<u64> = Vec::new();
    let ghost keys = digest_keys(digests@);
    assert(keys.take(0) =~= Seq::<[u8; 32]>::empty());
    for i in 0..digests.len()
        invariant
            map.wf(),
            keys == digest_keys(digests@),
            counters@ == counters_for(map@, keys.take(i as int), client as int),
    {
        assert(keys.take(i + 1).drop_last() =~= keys.take(i as int));
        assert(keys.take(i + 1).last() == digests@[i as int].0);
        if let Some(entries) = map.get(&digests[i].0) {
            let ghost before = counters@;
            assert(entries@.take(0) =~= Seq::<(u8, u64)>::empty());
            assert(counters@ =~= before + counters_in(entries@.take(0), client as int));
            for j in 0..entries.len()
                invariant
                    counters@ == before + counters_in(entries@.take(j as int), client as int),
            {
                assert(entries@.take(j + 1).drop_last() =~= entries@.take(j as int));
                assert(entries@.take(j + 1).last() == entries@[j as int]);
                let (client_id, counter) = entries[j];
                let ghost so_far = counters_in(entries@.take(j as int), client as int);
                if client_id as usize == client {
                    counters.push(counter);
                    assert(counters@ =~= before + so_far.push(counter));
                }
            }
            assert(entries@.take(entries@.len() as int) =~= entries@);
        }
    }
    assert(keys.take(keys.len() as int) =~= keys);
    counters
}

proof fn lemma_counters_in(entries: Seq<(u8, u64)>, client: u8, counter: u64)
    ensures
        counters_in(entries, client as int).contains(counter) <==> entries.contains(
            (client, counter),
        ),
    decreases entries.len(),
{
    if entries.len() > 0 {
        let head = entries.drop_last();
        lemma_counters_in(head, client, counter);
        let before = counters_in(head, client as int);
        let all = counters_in(entries, client as int);
        if entries.contains((client, counter)) {
            let i = choose|i: int| 0 <= i < entries.len() && entries[i] == (client, counter);
            if i < head.len() {
                assert(head[i] == (client, counter));
                let j = choose|j: int| 0 <= j < before.len() && before[j] == counter;
                assert(all[j] == counter);
            } else {
                assert(all[all.len() - 1] == counter);
            }
        }
        if all.contains(counter) {
            let j = choose|j: int| 0 <= j < all.len() && all[j] == counter;
            if j < before.len() {
                assert(before[j] == counter);
                let i = choose|i: int| 0 <= i < head.len() && head[i] == (client, counter);
                assert(entries[i] == (client, counter));
            } else {
                assert(entries[entries.len() - 1] == (client, counter));
            }
        }
    }
}

/// Whether a transaction of a client is in a known batch with one of the given digests.
pub open spec fn listed(
    map: Map<[u8; 32], Vec<(u8, u64)>>,
    keys: Seq<[u8; 32]>,
    client: u8,
    counter: u64,
) -> bool {
    exists|i: int|
        #![trigger keys[i]]
        0 <= i < keys.len() && map.dom().contains(keys[i]) && map[keys[i]]@.contains(
            (client, counter),
        )
}

/// A client is told of exactly its own transactions in the known batches with the given
/// digests.
pub proof fn law_counters_are_the_clients_own(
    map: Map<[u8; 32], Vec<(u8, u64)>>,
    keys: Seq<[u8; 32]>,
    client: u8,
    counter: u64,
)
    ensures
        counters_for(map, keys, client as int).contains(counter) <==> listed(
            map,
            keys,
            client,
            counter,
        ),
    decreases keys.len(),
{
    if keys.len() > 0 {
        let head = keys.drop_last();
        law_counters_are_the_clients_own(map, head, client, counter);
        let before = counters_for(map, head, client as int);
        let all = counters_for(map, keys, client as int);
        let key = keys.last();
        assert(keys[keys.len() - 1] == key);
        lemma_counters_in(map[key]@, client, counter);
        let added = counters_in(map[key]@, client as int);
        if all.contains(counter) {
            let j = choose|j: int| 0 <= j < all.len() && all[j] == counter;
            if j < before.len() {
                assert(before[j] == counter);
                let i = choose|i: int|
                    #![trigger head[i]]
                    0 <= i < head.len() && map.dom().contains(head[i]) && map[head[i]]@.contains(
                        (client, counter),
                    );
                assert(keys[i] == head[i]);
            } else {
                assert(added[j - before.len()] == counter);
            }
        }
        if listed(map, keys, client, counter) {
            let i = choose|i: int|
                #![trigger keys[i]]
                0 <= i < keys.len() && map.dom().contains(keys[i]) && map[keys[i]]@.contains(
                    (client, counter),
                );
            if i < head.len() {
                assert(head[i] == keys[i]);
                let j = choose|j: int| 0 <= j < before.len() && before[j] == counter;
                assert(all[j] == counter);
            } else {
                let j = choose|j: int| 0 <= j < added.len() && added[j] == counter;
                assert(all[before.len() + j] == counter);
            }
        }
    }
}

/// A client whose number is no `u8` has no transaction anywhere.
pub proof fn lemma_no_such_client(
    map: Map<[u8; 32], Vec<(u8, u64)>>,
    keys: Seq<[u8; 32]>,
    client: int,
)
    requires
        client > u8::MAX,
    ensures
        counters_for(map, keys, client).len() == 0,
    decreases keys.len(),
{
    if keys.len() > 0 {
        lemma_no_such_client(map, keys.drop_last(), client);
        lemma_no_such_client_in(map[keys.last()]@, client);
    }
}

proof fn lemma_no_such_client_in(entries: Seq<(u8, u64)>, client: int)
    requires
        client > u8::MAX,
    ensures
        counters_in(entries, client).len() == 0,
    decreases entries.len(),
{
    if entries.len() > 0 {
        lemma_no_such_client_in(entries.drop_last(), client);
    }
}

/// Of a batch, a client is told of its own entries and of nothing else: each as often as it is
/// noted, and in the order in which it is noted.
pub proof fn law_counters_of_a_batch(entries: Seq<(u8, u64)>, client: int)
    ensures
        counters_in(entries, client) == entries.filter_map(
            |entry: (u8, u64)|
                if entry.0 == client {
                    Some(entry.1)
                } else {
                    None
                },
        ),
    decreases entries.len(),
{
    let own = |entry: (u8, u64)|
        if entry.0 == client {
            Some(entry.1)
        } else {
            None
        };
    if entries.len() > 0 {
        law_counters_of_a_batch(entries.drop_last(), client);
    }
    assert(counters_in(entries, client) =~= entries.filter_map(own));
}

/// Of several batches, a client is told of its own entries in those that are known, one batch
/// after the other in the order of the digests, each as often as it is noted.
pub proof fn law_counters_of_batches(
    map: Map<[u8; 32], Vec<(u8, u64)>>,
    keys: Seq<[u8; 32]>,
    client: int,
)
    ensures
        counters_for(map, keys, client) == keys.filter_map(
            |key: [u8; 32]|
                if map.dom().contains(key) {
                    Some(
                        map[key]@.filter_map(
                            |entry: (u8, u64)|
                                if entry.0 == client {
                                    Some(entry.1)
                                } else {
                                    None
                                },
                        ),
                    )
                } else {
                    None
                },
        ).flatten(),
    decreases keys.len(),
{
    let own = |key: [u8; 32]|
        if map.dom().contains(key) {
            Some(
                map[key]@.filter_map(
                    |entry: (u8, u64)|
                        if entry.0 == client {
                            Some(entry.1)
                        } else {
                            None
                        },
                ),
            )
        } else {
            None
        };
    if keys.len() > 0 {
        law_counters_of_batches(map, keys.drop_last(), client);
        let before = keys.drop_last().filter_map(own);
        if map.dom().contains(keys.last()) {
            let added = map[keys.last()]@;
            law_counters_of_a_batch(added, client);
            let entries = (own(keys.last()))->0;
            before.lemma_flatten_push(entries);
            assert(before + seq![entries] =~= before.push(entries));
        }
    }
    assert(counters_for(map, keys, client) =~= keys.filter_map(own).flatten());
}

/// A client is told of each transaction exactly as often as it is noted for that client in the
/// batch.
pub proof fn law_counters_multiplicity(entries: Seq<(u8, u64)>, client: u8, counter: u64)
    ensures
        counters_in(entries, client as int).to_multiset().count(counter)
            == entries.to_multiset().count((client, counter)),
    decreases entries.len(),
{
    broadcast use vstd::multiset::group_multiset_axioms;
    broadcast use vstd::seq_lib::group_to_multiset_ensures;

    if entries.len() > 0 {
        let head = entries.drop_last();
        law_counters_multiplicity(head, client, counter);
        assert(entries =~= head.push(entries.last()));
    } else {
        assert(entries =~= Seq::<(u8, u64)>::empty());
    }
}

} // verus!
