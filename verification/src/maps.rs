//! Walking maps and sets of numbers.
use std::collections::{BTreeSet, HashMap};
use vstd::prelude::*;
use vstd::std_specs::iter::IteratorSpec;

verus! {

/// The keys of a map, each once, in some order.
pub fn key_list<V>(map: &HashMap<u64, V>) -> (keys: Vec<u64>)
    ensures
        keys@.no_duplicates(),
        keys@.to_set() == map@.dom(),
{
    broadcast use vstd::std_specs::hash::group_hash_axioms;
    let mut keys: Vec<u64> = Vec::new();
    for key in walk: map.keys()
        invariant
            keys@.len() == walk.index(),
            forall|i: int| 0 <= i < keys@.len() ==> keys@[i] == *walk.seq()[i],
            walk.seq().no_duplicates(),
            walk.seq().unref().to_set() == map@.dom(),
    {
        keys.push(*key);
    }
    assert(keys@ =~= vstd::std_specs::hash::spec_keys_iter(map).remaining().unref());
    keys
}

/// The members of a set, each once, in some order.
pub fn member_list(set: &BTreeSet<u64>) -> (members: Vec<u64>)
    ensures
        members@.no_duplicates(),
        members@.to_set() == set@,
{
    broadcast use vstd::std_specs::btree::group_btree_axioms;
    let mut members: Vec<u64> = Vec::new();
    for member in walk: set.iter()
        invariant
            members@.len() == walk.index(),
            forall|i: int| 0 <= i < members@.len() ==> members@[i] == *walk.seq()[i],
            walk.seq().no_duplicates(),
            walk.seq().unref().to_set() == set@,
    {
        members.push(*member);
    }
    assert(members@ =~= vstd::std_specs::btree::spec_btree_keys_iter(set).remaining().unref());
    members
}

/// The positions below `n`, in order.
pub open spec fn positions_below(n: nat) -> Seq<int> {
    Seq::new(n, |i: int| i)
}

/// The positions below `n` are those below `n - 1` and then `n - 1`.
pub proof fn lemma_positions_below(n: nat)
    requires
        n > 0,
    ensures
        positions_below(n).drop_last() == positions_below((n - 1) as nat),
        positions_below(n).last() == n - 1,
{
    assert(positions_below(n).drop_last() =~= positions_below((n - 1) as nat));
}

} // verus!
