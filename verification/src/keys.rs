//! Thirty-two byte keys (digests and public keys), their order, and maps indexed by them.
use vstd::prelude::*;

verus! {

/// The identifier of a client.
pub type ClientId = u8;

/// The identifier of a worker within its authority.
pub type WorkerId = u32;

/// The height of a header in its author's chain.
pub type Height = u64;

/// The number of a consensus slot.
pub type Slot = u64;

/// The round number that a primary announces to its workers.
pub type Round = u64;

/// The identity of an authority.
#[derive(Clone, Copy, Debug, Hash, PartialEq, Eq, PartialOrd, Ord, Default)]
pub struct PublicKey(pub [u8; 32]);

/// The first half of the SHA-512 hash of a message.
#[derive(Clone, Copy, Debug, Hash, PartialEq, Eq, PartialOrd, Ord, Default)]
pub struct Digest(pub [u8; 32]);

/// Whether `a` and `b` first differ at position `i`, where `a` has the smaller byte.
pub open spec fn smaller_at(a: [u8; 32], b: [u8; 32], i: int) -> bool {
    &&& 0 <= i < 32
    &&& a@[i] < b@[i]
    &&& forall|j: int| 0 <= j < i ==> a@[j] == b@[j]
}

/// The lexicographic order of keys.
pub open spec fn key_less(a: [u8; 32], b: [u8; 32]) -> bool {
    exists|i: int| smaller_at(a, b, i)
}

/// Whether the keys stand in strictly increasing order.
pub open spec fn increasing_keys(keys: Seq<[u8; 32]>) -> bool {
    forall|i: int, j: int| 0 <= i < j < keys.len() ==> key_less(#[trigger] keys[i], #[trigger] keys[j])
}

/// The order of keys is transitive.
pub proof fn lemma_key_less_transitive(a: [u8; 32], b: [u8; 32], c: [u8; 32])
    requires
        key_less(a, b),
        key_less(b, c),
    ensures
        key_less(a, c),
{
    let i = choose|i: int| smaller_at(a, b, i);
    let j = choose|j: int| smaller_at(b, c, j);
    assert(smaller_at(a, c, if i < j { i } else { j }));
}

/// No key is below itself, and of two keys at most one is below the other.
pub proof fn lemma_key_less_asymmetric(a: [u8; 32], b: [u8; 32])
    requires
        key_less(a, b),
    ensures
        a != b,
        !key_less(b, a),
{
    let i = choose|i: int| smaller_at(a, b, i);
    if key_less(b, a) {
        let j = choose|j: int| smaller_at(b, a, j);
        assert(i == j || i < j || j < i);
    }
}

/// How two keys are ordered.
#[derive(Clone, Copy, Debug, PartialEq, Eq, Structural)]
pub enum KeyOrder {
    Below,
    Same,
    Above,
}

/// Compares two keys lexicographically.
pub fn order_of(a: &[u8; 32], b: &[u8; 32]) -> (order: KeyOrder)
    ensures
        order == KeyOrder::Below <==> key_less(*a, *b),
        order == KeyOrder::Same <==> *a == *b,
        order == KeyOrder::Above <==> key_less(*b, *a),
{
    let mut i: usize = 0;
    while i < 32
        invariant
            i <= 32,
            forall|j: int| 0 <= j < i ==> a@[j] == b@[j],
        decreases 32 - i,
    {
        if a[i] < b[i] {
            proof {
                assert(smaller_at(*a, *b, i as int));
                lemma_key_less_asymmetric(*a, *b);
            }
            return KeyOrder::Below;
        }
        if b[i] < a[i] {
            proof {
                assert(smaller_at(*b, *a, i as int));
                lemma_key_less_asymmetric(*b, *a);
            }
            return KeyOrder::Above;
        }
        i += 1;
    }
    assert(*a =~= *b);
    proof {
        if key_less(*a, *b) {
            lemma_key_less_asymmetric(*a, *b);
        }
    }
    KeyOrder::Same
}

/// Compares two keys for equality.
pub fn same_key(a: &[u8; 32], b: &[u8; 32]) -> (same: bool)
    ensures
        same == (*a == *b),
{
    order_of(a, b) == KeyOrder::Same
}

/// The position of the only entry with the given key.
pub open spec fn entry_index<V>(entries: Seq<([u8; 32], V)>, key: [u8; 32]) -> int {
    choose|i: int| 0 <= i < entries.len() && (#[trigger] entries[i]).0 == key
}

/// Whether some entry has the given key.
pub open spec fn has_key<V>(entries: Seq<([u8; 32], V)>, key: [u8; 32]) -> bool {
    exists|i: int| 0 <= i < entries.len() && (#[trigger] entries[i]).0 == key
}

/// A map from keys to values, walked in increasing order of its keys.
#[derive(Clone, Debug)]
pub struct KeyMap<V> {
    /// The entries in strictly increasing order of their keys.
    pub entries: Vec<([u8; 32], V)>,
}

impl<V> View for KeyMap<V> {
    type V = Map<[u8; 32], V>;

    open spec fn view(&self) -> Map<[u8; 32], V> {
        Map::new(
            |key: [u8; 32]| has_key(self.entries@, key),
            |key: [u8; 32]| self.entries@[entry_index(self.entries@, key)].1,
        )
    }
}

impl<V> KeyMap<V> {
    /// The keys in the order in which the entries stand.
    pub open spec fn key_seq(&self) -> Seq<[u8; 32]> {
        self.entries@.map_values(|entry: ([u8; 32], V)| entry.0)
    }

    /// The keys stand in strictly increasing order, so none occurs twice.
    pub open spec fn wf(&self) -> bool {
        increasing_keys(self.key_seq())
    }

    /// The map holds each of its entries under that entry's key.
    pub proof fn lemma_entry(&self, i: int)
        requires
            self.wf(),
            0 <= i < self.entries@.len(),
        ensures
            self@.contains_key(self.entries@[i].0),
            self@[self.entries@[i].0] == self.entries@[i].1,
    {
        let key = self.entries@[i].0;
        let k = entry_index(self.entries@, key);
        assert(has_key(self.entries@, key));
        let keys = self.key_seq();
        assert(keys[i] == key && keys[k] == key);
        if i < k {
            lemma_key_less_asymmetric(keys[i], keys[k]);
        } else if k < i {
            lemma_key_less_asymmetric(keys[k], keys[i]);
        }
    }

    /// The map has one key per entry.
    pub proof fn lemma_domain(&self)
        requires
            self.wf(),
        ensures
            self@.dom().finite(),
            self@.dom().len() == self.entries@.len(),
            self@.dom() == self.key_seq().to_set(),
            self.key_seq().no_duplicates(),
    {
        let keys = self.key_seq();
        assert forall|i: int, j: int| 0 <= i < j < keys.len() implies keys[i] != keys[j] by {
            lemma_key_less_asymmetric(keys[i], keys[j]);
        }
        assert(keys.no_duplicates());
        keys.unique_seq_to_set();
        assert forall|key: [u8; 32]| keys.to_set().contains(key) == self@.contains_key(key) by {
            if keys.to_set().contains(key) {
                let i = choose|i: int| 0 <= i < keys.len() && keys[i] == key;
                assert(self.entries@[i].0 == key);
            }
            if has_key(self.entries@, key) {
                let i = entry_index(self.entries@, key);
                assert(keys[i] == key);
            }
        }
        assert(self@.dom() =~= keys.to_set());
    }

    /// An empty map.
    pub fn new() -> (map: Self)
        ensures
            map.wf(),
            map@ == Map::<[u8; 32], V>::empty(),
            map.entries@.len() == 0,
    {
        let map = KeyMap { entries: Vec::new() };
        assert(map@ =~= Map::<[u8; 32], V>::empty());
        map
    }

    /// The number of entries.
    pub fn len(&self) -> (len: usize)
        requires
            self.wf(),
        ensures
            len == self@.dom().len(),
            len == self.entries@.len(),
    {
        proof {
            self.lemma_domain();
        }
        self.entries.len()
    }

    /// The number of entries whose key is below `key`.
    fn lower_bound(&self, key: &[u8; 32]) -> (pos: usize)
        requires
            self.wf(),
        ensures
            pos <= self.entries@.len(),
            forall|i: int| 0 <= i < pos ==> key_less((#[trigger] self.entries@[i]).0, *key),
            forall|i: int|
                pos <= i < self.entries@.len() ==> !key_less((#[trigger] self.entries@[i]).0, *key),
    {
        let mut low: usize = 0;
        let mut high: usize = self.entries.len();
        while low < high
            invariant
                self.wf(),
                low <= high <= self.entries@.len(),
                forall|i: int| 0 <= i < low ==> key_less((#[trigger] self.entries@[i]).0, *key),
                forall|i: int|
                    high <= i < self.entries@.len() ==> !key_less(
                        (#[trigger] self.entries@[i]).0,
                        *key,
                    ),
            decreases high - low,
        {
            let middle: usize = low + (high - low) / 2;
            let ghost keys = self.key_seq();
            match order_of(&self.entries[middle].0, key) {
                KeyOrder::Below => {
                    assert forall|i: int| 0 <= i < middle + 1 implies key_less(
                        (#[trigger] self.entries@[i]).0,
                        *key,
                    ) by {
                        if i < middle {
                            assert(key_less(keys[i], keys[middle as int]));
                            lemma_key_less_transitive(keys[i], keys[middle as int], *key);
                        }
                    }
                    low = middle + 1;
                },
                _ => {
                    assert forall|i: int| middle <= i < self.entries@.len() implies !key_less(
                        (#[trigger] self.entries@[i]).0,
                        *key,
                    ) by {
                        if middle < i && key_less(self.entries@[i].0, *key) {
                            assert(key_less(keys[middle as int], keys[i]));
                            lemma_key_less_transitive(keys[middle as int], keys[i], *key);
                        }
                    }
                    high = middle;
                },
            }
        }
        low
    }

    /// The position of the entry with the given key, if there is one.
    fn find(&self, key: &[u8; 32]) -> (found: Option<usize>)
        requires
            self.wf(),
        ensures
            match found {
                Some(i) => i < self.entries@.len() && self.entries@[i as int].0 == *key,
                None => !self@.contains_key(*key),
            },
    {
        let pos = self.lower_bound(key);
        if pos < self.entries.len() && same_key(&self.entries[pos].0, key) {
            return Some(pos);
        }
        proof {
            if has_key(self.entries@, *key) {
                let i = entry_index(self.entries@, *key);
                let keys = self.key_seq();
                if i < pos {
                    lemma_key_less_asymmetric(self.entries@[i].0, *key);
                } else {
                    assert(pos < i);
                    assert(key_less(keys[pos as int], keys[i]));
                }
            }
        }
        None
    }

    /// Whether the map has an entry for `key`.
    pub fn contains_key(&self, key: &[u8; 32]) -> (found: bool)
        requires
            self.wf(),
        ensures
            found == self@.contains_key(*key),
    {
        match self.find(key) {
            Some(i) => {
                proof {
                    self.lemma_entry(i as int);
                }
                true
            },
            None => false,
        }
    }

    /// The value under `key`.
    pub fn get(&self, key: &[u8; 32]) -> (value: Option<&V>)
        requires
            self.wf(),
        ensures
            match value {
                Some(v) => self@.contains_key(*key) && *v == self@[*key],
                None => !self@.contains_key(*key),
            },
    {
        match self.find(key) {
            Some(i) => {
                proof {
                    self.lemma_entry(i as int);
                }
                Some(&self.entries[i].1)
            },
            None => None,
        }
    }

    /// Puts `value` under `key`, in place of what was there.
    pub fn insert(&mut self, key: [u8; 32], value: V)
        requires
            old(self).wf(),
        ensures
            final(self).wf(),
            final(self)@ == old(self)@.insert(key, value),
    {
        let pos = self.lower_bound(&key);
        if pos < self.entries.len() && same_key(&self.entries[pos].0, &key) {
            self.entries.set(pos, (key, value));
            assert(self.key_seq() =~= old(self).key_seq());
        } else {
            self.entries.insert(pos, (key, value));
            proof {
                let before = old(self).key_seq();
                let after = self.key_seq();
                assert(after =~= before.insert(pos as int, key));
                assert forall|i: int| pos <= i < before.len() implies key_less(key, before[i]) by {
                    assert(!key_less(old(self).entries@[i].0, key));
                    if pos < i {
                        assert(key_less(before[pos as int], before[i]));
                        lemma_total(key, before[pos as int]);
                        lemma_key_less_transitive(key, before[pos as int], before[i]);
                    } else {
                        lemma_total(key, before[i]);
                    }
                }
                assert forall|i: int, j: int| 0 <= i < j < after.len() implies key_less(
                    #[trigger] after[i],
                    #[trigger] after[j],
                ) by {
                    if i < pos && j == pos {
                        assert(key_less(old(self).entries@[i].0, key));
                    } else if i < pos && j > pos {
                        assert(key_less(before[i], before[j - 1]));
                    } else if i == pos {
                        assert(key_less(key, before[j - 1]));
                    } else if i > pos {
                        assert(key_less(before[i - 1], before[j - 1]));
                    } else {
                        assert(key_less(before[i], before[j]));
                    }
                }
            }
        }
        proof {
            self.lemma_updated(*old(self), pos as int, key, value);
        }
    }

    /// Replacing or adding one entry changes the map under that entry's key alone.
    proof fn lemma_updated(&self, before: Self, pos: int, key: [u8; 32], value: V)
        requires
            before.wf(),
            self.wf(),
            ({
                ||| 0 <= pos < before.entries@.len() && before.entries@[pos].0 == key
                    && self.entries@ == before.entries@.update(pos, (key, value))
                ||| 0 <= pos <= before.entries@.len()
                    && self.entries@ == before.entries@.insert(pos, (key, value))
            }),
        ensures
            self@ == before@.insert(key, value),
    {
        let shift: int = self.entries@.len() - before.entries@.len();
        assert forall|k: [u8; 32]|
            #![trigger self@.dom().contains(k)]
            #![trigger self@[k]]
            self@.dom().contains(k) == before@.insert(key, value).dom().contains(k) && (
            self@.dom().contains(k) ==> self@[k] == before@.insert(key, value)[k]) by {
            if k == key {
                assert(self.entries@[pos].0 == key);
                self.lemma_entry(pos);
            } else {
                if has_key(before.entries@, k) {
                    let i = entry_index(before.entries@, k);
                    before.lemma_entry(i);
                    let j = if i < pos { i } else { i + shift };
                    assert(self.entries@[j] == before.entries@[i]);
                    self.lemma_entry(j);
                }
                if has_key(self.entries@, k) {
                    let j = entry_index(self.entries@, k);
                    let i = if j < pos { j } else { j - shift };
                    assert(before.entries@[i] == self.entries@[j]);
                    before.lemma_entry(i);
                    self.lemma_entry(j);
                }
            }
        }
        assert(self@ =~= before@.insert(key, value));
    }

    /// Takes the entry for `key` out of the map.
    pub fn remove(&mut self, key: &[u8; 32]) -> (removed: Option<V>)
        requires
            old(self).wf(),
        ensures
            final(self).wf(),
            final(self)@ == old(self)@.remove(*key),
            match removed {
                Some(v) => old(self)@.contains_key(*key) && v == old(self)@[*key],
                None => !old(self)@.contains_key(*key),
            },
    {
        match self.find(key) {
            Some(i) => {
                proof {
                    self.lemma_entry(i as int);
                }
                let entry = self.entries.remove(i);
                proof {
                    let before = old(self).key_seq();
                    let after = self.key_seq();
                    assert(after =~= before.remove(i as int));
                    assert forall|a: int, b: int| 0 <= a < b < after.len() implies key_less(
                        #[trigger] after[a],
                        #[trigger] after[b],
                    ) by {
                        let a0 = if a < i { a } else { a + 1 };
                        let b0 = if b < i { b } else { b + 1 };
                        assert(key_less(before[a0], before[b0]));
                    }
                    self.lemma_removed(*old(self), i as int);
                }
                Some(entry.1)
            },
            None => {
                assert(self@ =~= old(self)@.remove(*key));
                None
            },
        }
    }

    /// Taking one entry out changes the map under that entry's key alone.
    proof fn lemma_removed(&self, before: Self, pos: int)
        requires
            before.wf(),
            self.wf(),
            0 <= pos < before.entries@.len(),
            self.entries@ == before.entries@.remove(pos),
        ensures
            self@ == before@.remove(before.entries@[pos].0),
    {
        let key = before.entries@[pos].0;
        let keys = before.key_seq();
        assert forall|k: [u8; 32]|
            #![trigger self@.dom().contains(k)]
            #![trigger self@[k]]
            self@.dom().contains(k) == before@.remove(key).dom().contains(k) && (
            self@.dom().contains(k) ==> self@[k] == before@.remove(key)[k]) by {
            if has_key(self.entries@, k) {
                let j = entry_index(self.entries@, k);
                let i = if j < pos { j } else { j + 1 };
                assert(before.entries@[i] == self.entries@[j]);
                before.lemma_entry(i);
                self.lemma_entry(j);
                if i < pos {
                    lemma_key_less_asymmetric(keys[i], keys[pos]);
                } else {
                    lemma_key_less_asymmetric(keys[pos], keys[i]);
                }
            }
            if has_key(before.entries@, k) && k != key {
                let i = entry_index(before.entries@, k);
                let j = if i < pos { i } else { i - 1 };
                assert(before.entries@[i] == self.entries@[j]);
                before.lemma_entry(i);
                self.lemma_entry(j);
            }
        }
        assert(self@ =~= before@.remove(key));
    }

    /// The keys in increasing order.
    pub fn keys(&self) -> (keys: Vec<[u8; 32]>)
        requires
            self.wf(),
        ensures
            keys@ == self.key_seq(),
            increasing_keys(keys@),
            keys@.no_duplicates(),
            keys@.to_set() == self@.dom(),
    {
        let mut keys: Vec<[u8; 32]> = Vec::new();
        for i in 0..self.entries.len()
            invariant
                keys@.len() == i,
                forall|j: int| 0 <= j < i ==> keys@[j] == (#[trigger] self.entries@[j]).0,
        {
            keys.push(self.entries[i].0);
        }
        proof {
            assert(keys@ =~= self.key_seq());
            self.lemma_domain();
        }
        keys
    }
}

/// Of two different keys one is below the other.
pub proof fn lemma_total(a: [u8; 32], b: [u8; 32])
    ensures
        a == b || key_less(a, b) || key_less(b, a),
{
    lemma_first_difference(a, b, 0);
}

proof fn lemma_first_difference(a: [u8; 32], b: [u8; 32], from: int)
    requires
        0 <= from <= 32,
        forall|j: int| 0 <= j < from ==> a@[j] == b@[j],
    ensures
        a == b || key_less(a, b) || key_less(b, a),
    decreases 32 - from,
{
    if from == 32 {
        assert(a =~= b);
    } else if a@[from] < b@[from] {
        assert(smaller_at(a, b, from));
    } else if b@[from] < a@[from] {
        assert(smaller_at(b, a, from));
    } else {
        lemma_first_difference(a, b, from + 1);
    }
}

/// The bytes of digests.
pub open spec fn digest_keys(digests: Seq<Digest>) -> Seq<[u8; 32]> {
    digests.map_values(|digest: Digest| digest.0)
}

/// The bytes of public keys.
pub open spec fn authority_keys(authorities: Seq<PublicKey>) -> Seq<[u8; 32]> {
    authorities.map_values(|authority: PublicKey| authority.0)
}

/// The bytes of each digest.
pub fn keys_of_digests(digests: &Vec<Digest>) -> (keys: Vec<[u8; 32]>)
    ensures
        keys@ == digest_keys(digests@),
{
    let mut keys: Vec<[u8; 32]> = Vec::new();
    for i in 0..digests.len()
        invariant
            keys@.len() == i,
            forall|j: int| 0 <= j < i ==> keys@[j] == (#[trigger] digests@[j]).0,
    {
        keys.push(digests[i].0);
    }
    assert(keys@ =~= digest_keys(digests@));
    keys
}

/// The members of a committee in increasing order.
pub fn sorted_authorities(authorities: &Vec<PublicKey>) -> (keys: Vec<[u8; 32]>)
    ensures
        increasing_keys(keys@),
        keys@.to_set() == authority_keys(authorities@).to_set(),
{
    let mut members: KeyMap<()> = KeyMap::new();
    let ghost listed = authority_keys(authorities@);
    assert(members@.dom() =~= listed.take(0).to_set());
    for i in 0..authorities.len()
        invariant
            members.wf(),
            listed == authority_keys(authorities@),
            members@.dom() == listed.take(i as int).to_set(),
    {
        members.insert(authorities[i].0, ());
        proof {
            let before = listed.take(i as int);
            let after = listed.take(i + 1);
            assert(after =~= before.push(listed[i as int]));
            assert forall|key: [u8; 32]| #[trigger]
                members@.dom().contains(key) <==> after.to_set().contains(key) by {
                if after.contains(key) && key != listed[i as int] {
                    let j = choose|j: int| 0 <= j < after.len() && after[j] == key;
                    assert(before[j] == key);
                }
                if before.contains(key) {
                    let j = choose|j: int| 0 <= j < before.len() && before[j] == key;
                    assert(after[j] == key);
                }
                assert(after[i as int] == listed[i as int]);
            }
            assert(members@.dom() =~= after.to_set());
        }
    }
    assert(listed.take(listed.len() as int) =~= listed);
    members.keys()
}

/// The position of a key among keys in increasing order, if it is among them.
pub fn position_of(keys: &Vec<[u8; 32]>, key: &[u8; 32]) -> (position: Option<usize>)
    requires
        increasing_keys(keys@),
    ensures
        match position {
            Some(i) => i < keys@.len() && keys@[i as int] == *key,
            None => !keys@.contains(*key),
        },
{
    let mut low: usize = 0;
    let mut high: usize = keys.len();
    while low < high
        invariant
            increasing_keys(keys@),
            low <= high <= keys@.len(),
            forall|i: int| 0 <= i < low ==> #[trigger] keys@[i] != *key,
            forall|i: int| high <= i < keys@.len() ==> #[trigger] keys@[i] != *key,
        decreases high - low,
    {
        let middle: usize = low + (high - low) / 2;
        match order_of(&keys[middle], key) {
            KeyOrder::Same => {
                return Some(middle);
            },
            KeyOrder::Below => {
                assert forall|i: int| 0 <= i < middle + 1 implies #[trigger] keys@[i] != *key by {
                    if i < middle && keys@[i] == *key {
                        lemma_key_less_asymmetric(keys@[i], keys@[middle as int]);
                    }
                }
                low = middle + 1;
            },
            KeyOrder::Above => {
                assert forall|i: int| middle <= i < keys@.len() implies #[trigger] keys@[i]
                    != *key by {
                    if middle < i && keys@[i] == *key {
                        lemma_key_less_asymmetric(keys@[middle as int], keys@[i]);
                    }
                }
                high = middle;
            },
        }
    }
    None
}

/// Keys in increasing order stand at one position each.
pub proof fn lemma_one_position(keys: Seq<[u8; 32]>, i: int, j: int)
    requires
        increasing_keys(keys),
        0 <= i < keys.len(),
        0 <= j < keys.len(),
        keys[i] == keys[j],
    ensures
        i == j,
{
    if i < j {
        lemma_key_less_asymmetric(keys[i], keys[j]);
    } else if j < i {
        lemma_key_less_asymmetric(keys[j], keys[i]);
    }
}

/// The number whose digits to base 256 are the bytes, the first one the highest.
pub open spec fn number_of(bytes: Seq<u8>) -> nat
    decreases bytes.len(),
{
    if bytes.len() == 0 {
        0
    } else {
        256 * number_of(bytes.drop_last()) + bytes.last() as nat
    }
}

/// The order of keys is that of the numbers that they are when their first byte is taken as the
/// highest digit; and different keys are different numbers.
pub proof fn law_keys_ordered_as_numbers(a: [u8; 32], b: [u8; 32])
    ensures
        key_less(a, b) <==> number_of(a@) < number_of(b@),
        a == b <==> number_of(a@) == number_of(b@),
{
    lemma_total(a, b);
    if key_less(a, b) {
        let i = choose|i: int| smaller_at(a, b, i);
        lemma_smaller_number(a, b, i, 32);
        lemma_key_less_asymmetric(a, b);
    }
    if key_less(b, a) {
        let i = choose|i: int| smaller_at(b, a, i);
        lemma_smaller_number(b, a, i, 32);
        lemma_key_less_asymmetric(b, a);
    }
}

proof fn lemma_smaller_number(a: [u8; 32], b: [u8; 32], i: int, n: int)
    requires
        smaller_at(a, b, i),
        i < n <= 32,
    ensures
        number_of(a@.take(n)) < number_of(b@.take(n)),
        n == 32 ==> number_of(a@) < number_of(b@),
    decreases n,
{
    assert(a@.take(n).drop_last() =~= a@.take(n - 1));
    assert(b@.take(n).drop_last() =~= b@.take(n - 1));
    if i < n - 1 {
        lemma_smaller_number(a, b, i, n - 1);
    } else {
        assert(a@.take(i) =~= b@.take(i));
    }
    if n == 32 {
        assert(a@.take(32) =~= a@);
        assert(b@.take(32) =~= b@);
    }
}

/// A map has a key exactly if one of its entries has it, and then that entry's value is under it.
pub proof fn law_map_of_entries<V>(map: KeyMap<V>, key: [u8; 32])
    requires
        map.wf(),
    ensures
        map@.dom().contains(key) <==> exists|i: int|
            0 <= i < map.entries@.len() && (#[trigger] map.entries@[i]).0 == key,
        forall|i: int|
            0 <= i < map.entries@.len() && (#[trigger] map.entries@[i]).0 == key ==> map@[key]
                == map.entries@[i].1,
        map.key_seq().len() == map.entries@.len(),
        forall|i: int|
            0 <= i < map.entries@.len() ==> map.key_seq()[i] == (#[trigger] map.entries@[i]).0,
{
    assert forall|i: int|
        0 <= i < map.entries@.len() && (#[trigger] map.entries@[i]).0 == key implies map@[key]
        == map.entries@[i].1 by {
        map.lemma_entry(i);
    }
}

/// Each digest and each public key stands for its own bytes.
pub proof fn law_keys_in_order(digests: Seq<Digest>, authorities: Seq<PublicKey>)
    ensures
        digest_keys(digests).len() == digests.len(),
        forall|i: int|
            0 <= i < digests.len() ==> digest_keys(digests)[i] == (#[trigger] digests[i]).0,
        authority_keys(authorities).len() == authorities.len(),
        forall|i: int|
            0 <= i < authorities.len() ==> authority_keys(authorities)[i] == (
            #[trigger] authorities[i]).0,
{
}

/// Of keys in increasing order, each is a smaller number than those after it; and keys that are are
/// in increasing order.
pub proof fn law_increasing_keys(keys: Seq<[u8; 32]>)
    ensures
        increasing_keys(keys) <==> forall|i: int, j: int|
            0 <= i < j < keys.len() ==> number_of((#[trigger] keys[i])@) < number_of(
                (#[trigger] keys[j])@,
            ),
{
    assert forall|i: int, j: int| 0 <= i < j < keys.len() implies key_less(
        #[trigger] keys[i],
        #[trigger] keys[j],
    ) == (number_of(keys[i]@) < number_of(keys[j]@)) by {
        law_keys_ordered_as_numbers(keys[i], keys[j]);
    }
}

} // verus!
