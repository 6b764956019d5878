//! The byte formats of the messages between clients, workers and primaries, and the hash
//! that names a batch.
//!
//! The messages are encoded by `bincode`: an integer is written with a fixed number of bytes,
//! least significant first, a sequence is preceded by its length as a `u64`, a tuple is the
//! concatenation of its fields, and a message of an enumeration is preceded by the number of
//! its variant as a `u32`.
use crate::keys::Digest;
use vstd::prelude::*;

verus! {

/// How many numbers `width` bytes can tell apart.
pub open spec fn byte_limit(width: nat) -> nat
    decreases width,
{
    if width == 0 {
        1
    } else {
        256 * byte_limit((width - 1) as nat)
    }
}

/// The `width` bytes of `n`, least significant first.
pub open spec fn little_endian(n: nat, width: nat) -> Seq<u8>
    decreases width,
{
    if width == 0 {
        Seq::empty()
    } else {
        seq![(n % 256) as u8] + little_endian(n / 256, (width - 1) as nat)
    }
}

/// The `width` bytes of `n`, most significant first.
pub open spec fn big_endian(n: nat, width: nat) -> Seq<u8>
    decreases width,
{
    if width == 0 {
        Seq::empty()
    } else {
        big_endian(n / 256, (width - 1) as nat).push((n % 256) as u8)
    }
}

/// The number whose bytes, most significant first, are `bytes`.
pub open spec fn big_endian_value(bytes: Seq<u8>) -> nat
    decreases bytes.len(),
{
    if bytes.len() == 0 {
        0
    } else {
        256 * big_endian_value(bytes.drop_last()) + bytes.last() as nat
    }
}

/// The limits of the integer types.
pub proof fn lemma_byte_limits()
    ensures
        byte_limit(4) == 0x1_0000_0000,
        byte_limit(8) == 0x1_0000_0000_0000_0000,
{
    reveal_with_fuel(byte_limit, 9);
}

/// The little-endian form has the width asked for.
pub proof fn lemma_little_endian_len(n: nat, width: nat)
    ensures
        little_endian(n, width).len() == width,
    decreases width,
{
    if width > 0 {
        lemma_little_endian_len(n / 256, (width - 1) as nat);
    }
}

/// Numbers below the limit with the same little-endian form are the same.
pub proof fn lemma_little_endian_injective(n: nat, m: nat, width: nat)
    requires
        n < byte_limit(width),
        m < byte_limit(width),
        little_endian(n, width) == little_endian(m, width),
    ensures
        n == m,
    decreases width,
{
    if width > 0 {
        let rest = (width - 1) as nat;
        let a = little_endian(n, width);
        let b = little_endian(m, width);
        assert(a[0] == (n % 256) as u8 && b[0] == (m % 256) as u8);
        assert(n % 256 == m % 256);
        assert(little_endian(n / 256, rest) =~= a.subrange(1, a.len() as int));
        assert(little_endian(m / 256, rest) =~= b.subrange(1, b.len() as int));
        assert(n / 256 < byte_limit(rest)) by (nonlinear_arith)
            requires
                n < 256 * byte_limit(rest),
        ;
        assert(m / 256 < byte_limit(rest)) by (nonlinear_arith)
            requires
                m < 256 * byte_limit(rest),
        ;
        lemma_little_endian_injective(n / 256, m / 256, rest);
    }
}

/// Reading the big-endian form gives the number back.
pub proof fn lemma_big_endian_roundtrip(n: nat, width: nat)
    requires
        n < byte_limit(width),
    ensures
        big_endian(n, width).len() == width,
        big_endian_value(big_endian(n, width)) == n,
    decreases width,
{
    if width > 0 {
        let rest = (width - 1) as nat;
        assert(n / 256 < byte_limit(rest)) by (nonlinear_arith)
            requires
                n < 256 * byte_limit(rest),
        ;
        lemma_big_endian_roundtrip(n / 256, rest);
        assert(big_endian(n, width).drop_last() =~= big_endian(n / 256, rest));
    }
}

/// The eight-byte forms of the words, one after the other.
pub open spec fn word_bytes(words: Seq<u64>) -> Seq<u8>
    decreases words.len(),
{
    if words.len() == 0 {
        Seq::empty()
    } else {
        little_endian(words[0] as nat, 8) + word_bytes(words.drop_first())
    }
}

/// The keys, one after the other.
pub open spec fn key_bytes(keys: Seq<[u8; 32]>) -> Seq<u8>
    decreases keys.len(),
{
    if keys.len() == 0 {
        Seq::empty()
    } else {
        keys[0]@ + key_bytes(keys.drop_first())
    }
}

/// The byte strings, one after the other, each preceded by its length.
pub open spec fn string_bytes(strings: Seq<Seq<u8>>) -> Seq<u8>
    decreases strings.len(),
{
    if strings.len() == 0 {
        Seq::empty()
    } else {
        little_endian(strings[0].len(), 8) + strings[0] + string_bytes(strings.drop_first())
    }
}

/// The encoding of a sequence of words.
pub open spec fn encoded_words(words: Seq<u64>) -> Seq<u8> {
    little_endian(words.len(), 8) + word_bytes(words)
}

/// The encoding of a sequence of keys.
pub open spec fn encoded_keys(keys: Seq<[u8; 32]>) -> Seq<u8> {
    little_endian(keys.len(), 8) + key_bytes(keys)
}

/// The encoding of a sequence of byte strings.
pub open spec fn encoded_strings(strings: Seq<Seq<u8>>) -> Seq<u8> {
    little_endian(strings.len(), 8) + string_bytes(strings)
}

/// The encoding of a reply: a slot, a key and a sequence of words.
pub open spec fn encoded_reply(slot: u64, key: [u8; 32], words: Seq<u64>) -> Seq<u8> {
    little_endian(slot as nat, 8) + key@ + encoded_words(words)
}

/// The encoding of a variant that carries a sequence of byte strings.
pub open spec fn encoded_batch(variant: u32, strings: Seq<Seq<u8>>) -> Seq<u8> {
    little_endian(variant as nat, 4) + encoded_strings(strings)
}

/// The byte strings that a vector of vectors holds.
pub open spec fn contents(strings: Seq<Vec<u8>>) -> Seq<Seq<u8>> {
    strings.map_values(|string: Vec<u8>| string@)
}

/// Whether the length of every string is a `u64`.
pub open spec fn lengths_fit(strings: Seq<Seq<u8>>) -> bool {
    forall|i: int| 0 <= i < strings.len() ==> (#[trigger] strings[i]).len() <= u64::MAX
}

/// Encodes a sequence of words.
///
/// Calls `bincode::serialize`, which writes the length and then every word, each as eight
/// bytes with the least significant first. It has no size limit, and writing to memory does
/// not fail.
#[verifier::external_body]
pub(crate) fn serialize_words(words: &Vec<u64>) -> (bytes: Vec<u8>)
    ensures
        bytes@ == encoded_words(words@),
{
    bincode::serialize(words).unwrap()
}

/// Reads a sequence of words from the front of `bytes`.
///
/// Calls `bincode::deserialize`, which accepts bytes after the value that it reads, and fails
/// only where `bytes` ends too early.
#[verifier::external_body]
pub(crate) fn deserialize_words(bytes: &[u8]) -> (words: Option<Vec<u64>>)
    ensures
        match words {
            Some(v) => encoded_words(v@).is_prefix_of(bytes@),
            None => forall|v: Seq<u64>|
                v.len() <= u64::MAX ==> !(#[trigger] encoded_words(v)).is_prefix_of(bytes@),
        },
{
    bincode::deserialize(bytes).ok()
}

/// Encodes a slot, a key and a sequence of words.
///
/// Calls `bincode::serialize` on the three as a tuple, which writes them one after the other,
/// the key as its thirty-two bytes.
#[verifier::external_body]
pub(crate) fn serialize_reply(slot: u64, key: [u8; 32], words: &Vec<u64>) -> (bytes: Vec<u8>)
    ensures
        bytes@ == encoded_reply(slot, key, words@),
{
    bincode::serialize(&(slot, key, words)).unwrap()
}

/// Reads a slot, a key and a sequence of words from the front of `bytes`.
///
/// Calls `bincode::deserialize`, which accepts bytes after the value that it reads, and fails
/// only where `bytes` ends too early.
#[verifier::external_body]
pub(crate) fn deserialize_reply(bytes: &[u8]) -> (reply: Option<(u64, [u8; 32], Vec<u64>)>)
    ensures
        match reply {
            Some(v) => encoded_reply(v.0, v.1, v.2@).is_prefix_of(bytes@),
            None => forall|slot: u64, key: [u8; 32], v: Seq<u64>|
                v.len() <= u64::MAX ==> !(#[trigger] encoded_reply(slot, key, v)).is_prefix_of(
                    bytes@,
                ),
        },
{
    bincode::deserialize(bytes).ok()
}

/// Encodes a variant that carries a sequence of byte strings.
///
/// Calls `bincode::serialize` on the number of the variant and the strings as a pair, which
/// writes the number as four bytes, then how many strings there are, then each string after
/// its length.
#[verifier::external_body]
pub(crate) fn serialize_batch(variant: u32, strings: &Vec<Vec<u8>>) -> (bytes: Vec<u8>)
    ensures
        bytes@ == encoded_batch(variant, contents(strings@)),
{
    bincode::serialize(&(variant, strings)).unwrap()
}

/// Reads a variant that carries a sequence of byte strings from the front of `bytes`.
///
/// Calls `bincode::deserialize`, which accepts bytes after the value that it reads, and fails
/// only where `bytes` ends too early.
#[verifier::external_body]
pub(crate) fn deserialize_batch(bytes: &[u8]) -> (batch: Option<(u32, Vec<Vec<u8>>)>)
    ensures
        match batch {
            Some(v) => encoded_batch(v.0, contents(v.1@)).is_prefix_of(bytes@),
            None => forall|variant: u32, strings: Seq<Seq<u8>>|
                strings.len() <= u64::MAX && lengths_fit(strings) ==> !(#[trigger] encoded_batch(
                    variant,
                    strings,
                )).is_prefix_of(bytes@),
        },
{
    bincode::deserialize(bytes).ok()
}

/// Encodes a variant that carries a sequence of keys and one key more.
///
/// Calls `bincode::serialize` on the number of the variant, the keys and the last key as a
/// tuple.
#[verifier::external_body]
pub(crate) fn serialize_keys_and_key(variant: u32, keys: &Vec<[u8; 32]>, key: [u8; 32]) -> (bytes:
    Vec<u8>)
    ensures
        bytes@ == little_endian(variant as nat, 4) + encoded_keys(keys@) + key@,
{
    bincode::serialize(&(variant, keys, key)).unwrap()
}

/// Encodes a variant that carries a key and a `u32`.
///
/// Calls `bincode::serialize` on the number of the variant, the key and the number as a tuple.
#[verifier::external_body]
pub(crate) fn serialize_key_and_id(variant: u32, key: [u8; 32], id: u32) -> (bytes: Vec<u8>)
    ensures
        bytes@ == little_endian(variant as nat, 4) + key@ + little_endian(id as nat, 4),
{
    bincode::serialize(&(variant, key, id)).unwrap()
}

/// Encodes a variant that carries a slot and a sequence of keys.
///
/// Calls `bincode::serialize` on the number of the variant, the slot and the keys as a tuple.
#[verifier::external_body]
pub(crate) fn serialize_slot_and_keys(variant: u32, slot: u64, keys: &Vec<[u8; 32]>) -> (bytes:
    Vec<u8>)
    ensures
        bytes@ == little_endian(variant as nat, 4) + little_endian(slot as nat, 8) + encoded_keys(
            keys@,
        ),
{
    bincode::serialize(&(variant, slot, keys)).unwrap()
}

/// Encodes a variant that carries a sequence of keys.
///
/// Calls `bincode::serialize` on the number of the variant and the keys as a pair.
#[verifier::external_body]
pub(crate) fn serialize_keys(variant: u32, keys: &Vec<[u8; 32]>) -> (bytes: Vec<u8>)
    ensures
        bytes@ == little_endian(variant as nat, 4) + encoded_keys(keys@),
{
    bincode::serialize(&(variant, keys)).unwrap()
}

/// The SHA-512 hash of `data`.
pub uninterp spec fn sha512(data: Seq<u8>) -> Seq<u8>;

/// Hashes `data`.
///
/// Calls `ed25519_dalek::Sha512::digest`, a function of its argument alone whose result has
/// sixty-four bytes.
#[verifier::external_body]
pub(crate) fn sha512_hash(data: &[u8]) -> (hash: Vec<u8>)
    ensures
        hash@ == sha512(data@),
        hash@.len() == 64,
{
    <ed25519_dalek::Sha512 as ed25519_dalek::Digest>::digest(data).to_vec()
}

/// The digest by which a batch is known: the first half of the hash of its encoding.
pub fn batch_digest(batch: &Vec<u8>) -> (digest: Digest)
    ensures
        digest.0@ == sha512(batch@).take(32),
{
    let hash = sha512_hash(batch.as_slice());
    let mut bytes: [u8; 32] = [0u8; 32];
    let mut i: usize = 0;
    while i < 32
        invariant
            i <= 32,
            hash@.len() == 64,
            forall|j: int| 0 <= j < i ==> bytes@[j] == hash@[j],
        decreases 32 - i,
    {
        bytes[i] = hash[i];
        i += 1;
    }
    assert(bytes@ =~= hash@.take(32));
    Digest(bytes)
}

/// The word bytes have eight bytes per word.
pub proof fn lemma_word_bytes_len(words: Seq<u64>)
    ensures
        word_bytes(words).len() == 8 * words.len(),
    decreases words.len(),
{
    if words.len() > 0 {
        lemma_little_endian_len(words[0] as nat, 8);
        lemma_word_bytes_len(words.drop_first());
    }
}

/// Of two sequences of the same length the word bytes differ.
proof fn lemma_word_bytes_injective(a: Seq<u64>, b: Seq<u64>)
    requires
        a.len() == b.len(),
        word_bytes(a) == word_bytes(b),
    ensures
        a == b,
    decreases a.len(),
{
    if a.len() > 0 {
        lemma_little_endian_len(a[0] as nat, 8);
        lemma_little_endian_len(b[0] as nat, 8);
        let x = word_bytes(a);
        assert(little_endian(a[0] as nat, 8) =~= x.subrange(0, 8));
        assert(little_endian(b[0] as nat, 8) =~= x.subrange(0, 8));
        assert(word_bytes(a.drop_first()) =~= x.subrange(8, x.len() as int));
        assert(word_bytes(b.drop_first()) =~= x.subrange(8, x.len() as int));
        lemma_byte_limits();
        lemma_little_endian_injective(a[0] as nat, b[0] as nat, 8);
        lemma_word_bytes_injective(a.drop_first(), b.drop_first());
        assert(a =~= seq![a[0]] + a.drop_first());
        assert(b =~= seq![b[0]] + b.drop_first());
    } else {
        assert(a =~= b);
    }
}

/// At the front of any bytes stands the encoding of at most one sequence of words.
pub proof fn lemma_encoded_words_unique(a: Seq<u64>, b: Seq<u64>, bytes: Seq<u8>)
    requires
        a.len() <= u64::MAX,
        b.len() <= u64::MAX,
        encoded_words(a).is_prefix_of(bytes),
        encoded_words(b).is_prefix_of(bytes),
    ensures
        a == b,
{
    lemma_byte_limits();
    lemma_little_endian_len(a.len(), 8);
    lemma_little_endian_len(b.len(), 8);
    assert(little_endian(a.len(), 8) =~= encoded_words(a).subrange(0, 8));
    assert(little_endian(b.len(), 8) =~= encoded_words(b).subrange(0, 8));
    assert(encoded_words(a).subrange(0, 8) =~= bytes.subrange(0, 8));
    assert(encoded_words(b).subrange(0, 8) =~= bytes.subrange(0, 8));
    lemma_little_endian_injective(a.len(), b.len(), 8);
    lemma_word_bytes_len(a);
    lemma_word_bytes_len(b);
    let end = 8 + 8 * a.len() as int;
    assert(word_bytes(a) =~= encoded_words(a).subrange(8, end));
    assert(word_bytes(b) =~= encoded_words(b).subrange(8, end));
    assert(encoded_words(a).subrange(8, end) =~= bytes.subrange(8, end));
    assert(encoded_words(b).subrange(8, end) =~= bytes.subrange(8, end));
    lemma_word_bytes_injective(a, b);
}

/// At the front of any bytes stands the encoding of at most one reply.
pub proof fn lemma_encoded_reply_unique(
    slot_a: u64,
    key_a: [u8; 32],
    a: Seq<u64>,
    slot_b: u64,
    key_b: [u8; 32],
    b: Seq<u64>,
    bytes: Seq<u8>,
)
    requires
        a.len() <= u64::MAX,
        b.len() <= u64::MAX,
        encoded_reply(slot_a, key_a, a).is_prefix_of(bytes),
        encoded_reply(slot_b, key_b, b).is_prefix_of(bytes),
    ensures
        slot_a == slot_b,
        key_a == key_b,
        a == b,
{
    lemma_byte_limits();
    lemma_little_endian_len(slot_a as nat, 8);
    lemma_little_endian_len(slot_b as nat, 8);
    let x = encoded_reply(slot_a, key_a, a);
    let y = encoded_reply(slot_b, key_b, b);
    assert(little_endian(slot_a as nat, 8) =~= x.subrange(0, 8));
    assert(little_endian(slot_b as nat, 8) =~= y.subrange(0, 8));
    assert(x.subrange(0, 8) =~= bytes.subrange(0, 8));
    assert(y.subrange(0, 8) =~= bytes.subrange(0, 8));
    lemma_little_endian_injective(slot_a as nat, slot_b as nat, 8);
    assert(key_a@ =~= x.subrange(8, 40));
    assert(key_b@ =~= y.subrange(8, 40));
    assert(x.subrange(8, 40) =~= bytes.subrange(8, 40));
    assert(y.subrange(8, 40) =~= bytes.subrange(8, 40));
    assert(key_a =~= key_b) by {
        assert forall|i: int| 0 <= i < 32 implies key_a[i] == key_b[i] by {
            assert(key_a@[i] == key_b@[i]);
        }
    }
    let rest = bytes.subrange(40, bytes.len() as int);
    assert(encoded_words(a) =~= x.subrange(40, x.len() as int));
    assert(encoded_words(b) =~= y.subrange(40, y.len() as int));
    assert(encoded_words(a).is_prefix_of(rest));
    assert(encoded_words(b).is_prefix_of(rest));
    lemma_encoded_words_unique(a, b, rest);
}

/// At the front of any bytes stand the forms of at most one sequence of a given number of
/// strings.
proof fn lemma_string_bytes_unique(a: Seq<Seq<u8>>, b: Seq<Seq<u8>>, bytes: Seq<u8>)
    requires
        a.len() == b.len(),
        lengths_fit(a),
        lengths_fit(b),
        string_bytes(a).is_prefix_of(bytes),
        string_bytes(b).is_prefix_of(bytes),
    ensures
        a == b,
    decreases a.len(),
{
    if a.len() > 0 {
        lemma_byte_limits();
        lemma_little_endian_len(a[0].len(), 8);
        lemma_little_endian_len(b[0].len(), 8);
        let x = string_bytes(a);
        let y = string_bytes(b);
        assert(little_endian(a[0].len(), 8) =~= x.subrange(0, 8));
        assert(little_endian(b[0].len(), 8) =~= y.subrange(0, 8));
        assert(x.subrange(0, 8) =~= bytes.subrange(0, 8));
        assert(y.subrange(0, 8) =~= bytes.subrange(0, 8));
        lemma_little_endian_injective(a[0].len(), b[0].len(), 8);
        let end = 8 + a[0].len() as int;
        assert(a[0] =~= x.subrange(8, end));
        assert(b[0] =~= y.subrange(8, end));
        assert(x.subrange(8, end) =~= bytes.subrange(8, end));
        assert(y.subrange(8, end) =~= bytes.subrange(8, end));
        let rest = bytes.subrange(end, bytes.len() as int);
        assert(string_bytes(a.drop_first()) =~= x.subrange(end, x.len() as int));
        assert(string_bytes(b.drop_first()) =~= y.subrange(end, y.len() as int));
        assert(string_bytes(a.drop_first()).is_prefix_of(rest));
        assert(string_bytes(b.drop_first()).is_prefix_of(rest));
        lemma_string_bytes_unique(a.drop_first(), b.drop_first(), rest);
        assert(a =~= seq![a[0]] + a.drop_first());
        assert(b =~= seq![b[0]] + b.drop_first());
    } else {
        assert(a =~= b);
    }
}

/// At the front of any bytes stands the encoding of at most one variant with byte strings.
pub proof fn lemma_encoded_batch_unique(
    variant_a: u32,
    a: Seq<Seq<u8>>,
    variant_b: u32,
    b: Seq<Seq<u8>>,
    bytes: Seq<u8>,
)
    requires
        a.len() <= u64::MAX,
        b.len() <= u64::MAX,
        lengths_fit(a),
        lengths_fit(b),
        encoded_batch(variant_a, a).is_prefix_of(bytes),
        encoded_batch(variant_b, b).is_prefix_of(bytes),
    ensures
        variant_a == variant_b,
        a == b,
{
    lemma_byte_limits();
    lemma_little_endian_len(variant_a as nat, 4);
    lemma_little_endian_len(variant_b as nat, 4);
    lemma_little_endian_len(a.len(), 8);
    lemma_little_endian_len(b.len(), 8);
    let x = encoded_batch(variant_a, a);
    let y = encoded_batch(variant_b, b);
    assert(little_endian(variant_a as nat, 4) =~= x.subrange(0, 4));
    assert(little_endian(variant_b as nat, 4) =~= y.subrange(0, 4));
    assert(x.subrange(0, 4) =~= bytes.subrange(0, 4));
    assert(y.subrange(0, 4) =~= bytes.subrange(0, 4));
    lemma_little_endian_injective(variant_a as nat, variant_b as nat, 4);
    assert(little_endian(a.len(), 8) =~= x.subrange(4, 12));
    assert(little_endian(b.len(), 8) =~= y.subrange(4, 12));
    assert(x.subrange(4, 12) =~= bytes.subrange(4, 12));
    assert(y.subrange(4, 12) =~= bytes.subrange(4, 12));
    lemma_little_endian_injective(a.len(), b.len(), 8);
    let rest = bytes.subrange(12, bytes.len() as int);
    assert(string_bytes(a) =~= x.subrange(12, x.len() as int));
    assert(string_bytes(b) =~= y.subrange(12, y.len() as int));
    assert(string_bytes(a).is_prefix_of(rest));
    assert(string_bytes(b).is_prefix_of(rest));
    lemma_string_bytes_unique(a, b, rest);
}

/// A sequence of keys is encoded as their number in eight bytes and then the keys, thirty-two
/// bytes each.
pub proof fn law_encoded_keys(keys: Seq<[u8; 32]>, i: int)
    requires
        0 <= i < keys.len(),
    ensures
        encoded_keys(keys).len() == 8 + 32 * keys.len(),
        encoded_keys(keys).subrange(0, 8) == little_endian(keys.len(), 8),
        encoded_keys(keys).subrange(8 + 32 * i, 40 + 32 * i) == keys[i]@,
{
    lemma_little_endian_len(keys.len(), 8);
    lemma_key_bytes(keys, i);
    assert(encoded_keys(keys).subrange(0, 8) =~= little_endian(keys.len(), 8));
    assert(encoded_keys(keys).subrange(8 + 32 * i, 40 + 32 * i) =~= key_bytes(keys).subrange(
        32 * i,
        32 * i + 32,
    ));
}

/// The encoding of keys has eight bytes and thirty-two for each.
pub proof fn lemma_encoded_keys_len(keys: Seq<[u8; 32]>)
    ensures
        encoded_keys(keys).len() == 8 + 32 * keys.len(),
        encoded_keys(keys).subrange(0, 8) == little_endian(keys.len(), 8),
{
    lemma_little_endian_len(keys.len(), 8);
    lemma_key_bytes_len(keys);
    assert(encoded_keys(keys).subrange(0, 8) =~= little_endian(keys.len(), 8));
}

proof fn lemma_key_bytes_len(keys: Seq<[u8; 32]>)
    ensures
        key_bytes(keys).len() == 32 * keys.len(),
    decreases keys.len(),
{
    if keys.len() > 0 {
        lemma_key_bytes_len(keys.drop_first());
    }
}

proof fn lemma_key_bytes(keys: Seq<[u8; 32]>, i: int)
    requires
        0 <= i < keys.len(),
    ensures
        key_bytes(keys).len() == 32 * keys.len(),
        key_bytes(keys).subrange(32 * i, 32 * i + 32) == keys[i]@,
    decreases keys.len(),
{
    let rest = keys.drop_first();
    lemma_key_bytes_len(keys);
    lemma_key_bytes_len(rest);
    if i > 0 {
        lemma_key_bytes(rest, i - 1);
        assert(rest[i - 1] == keys[i]);
        assert(key_bytes(keys).subrange(32 * i, 32 * i + 32) =~= key_bytes(rest).subrange(
            32 * (i - 1),
            32 * (i - 1) + 32,
        ));
    } else {
        assert(key_bytes(keys).subrange(0, 32) =~= keys[0]@);
    }
}

/// The word at a position is encoded in the eight bytes at that position.
pub proof fn law_encoded_words(words: Seq<u64>, i: int)
    requires
        0 <= i < words.len(),
    ensures
        encoded_words(words).len() == 8 + 8 * words.len(),
        encoded_words(words).subrange(0, 8) == little_endian(words.len(), 8),
        encoded_words(words).subrange(8 + 8 * i, 16 + 8 * i) == little_endian(words[i] as nat, 8),
{
    lemma_little_endian_len(words.len(), 8);
    lemma_word_bytes_len(words);
    lemma_word_at(words, i);
    assert(encoded_words(words).subrange(0, 8) =~= little_endian(words.len(), 8));
    assert(encoded_words(words).subrange(8 + 8 * i, 16 + 8 * i) =~= word_bytes(words).subrange(
        8 * i,
        8 * i + 8,
    ));
}

proof fn lemma_word_at(words: Seq<u64>, i: int)
    requires
        0 <= i < words.len(),
    ensures
        word_bytes(words).subrange(8 * i, 8 * i + 8) == little_endian(words[i] as nat, 8),
    decreases words.len(),
{
    let rest = words.drop_first();
    lemma_word_bytes_len(words);
    lemma_word_bytes_len(rest);
    lemma_little_endian_len(words[0] as nat, 8);
    if i > 0 {
        lemma_word_at(rest, i - 1);
        assert(rest[i - 1] == words[i]);
        assert(word_bytes(words).subrange(8 * i, 8 * i + 8) =~= word_bytes(rest).subrange(
            8 * (i - 1),
            8 * (i - 1) + 8,
        ));
    } else {
        assert(word_bytes(words).subrange(0, 8) =~= little_endian(words[0] as nat, 8));
    }
}

/// The four bytes of the number of a variant below two hundred and fifty-six.
pub proof fn law_variant_bytes(variant: u32)
    requires
        variant < 256,
    ensures
        little_endian(variant as nat, 4) == seq![variant as u8, 0u8, 0u8, 0u8],
{
    reveal_with_fuel(little_endian, 5);
    assert(little_endian(variant as nat, 4) =~= seq![variant as u8, 0u8, 0u8, 0u8]);
}

/// The value of eight bytes, most significant first.
pub proof fn law_big_endian_word(bytes: Seq<u8>)
    requires
        bytes.len() == 8,
    ensures
        big_endian_value(bytes) == bytes[0] * 0x100_0000_0000_0000 + bytes[1] * 0x1_0000_0000_0000
            + bytes[2] * 0x100_0000_0000 + bytes[3] * 0x1_0000_0000 + bytes[4] * 0x100_0000
            + bytes[5] * 0x1_0000 + bytes[6] * 0x100 + bytes[7],
        big_endian_value(bytes) <= u64::MAX,
{
    let b7 = bytes.drop_last();
    let b6 = b7.drop_last();
    let b5 = b6.drop_last();
    let b4 = b5.drop_last();
    let b3 = b4.drop_last();
    let b2 = b3.drop_last();
    let b1 = b2.drop_last();
    let b0 = b1.drop_last();
    assert(big_endian_value(b0) == 0);
    assert(big_endian_value(b1) == bytes[0]);
    assert(big_endian_value(b2) == 256 * big_endian_value(b1) + bytes[1]);
    assert(big_endian_value(b3) == 256 * big_endian_value(b2) + bytes[2]);
    assert(big_endian_value(b4) == 256 * big_endian_value(b3) + bytes[3]);
    assert(big_endian_value(b5) == 256 * big_endian_value(b4) + bytes[4]);
    assert(big_endian_value(b6) == 256 * big_endian_value(b5) + bytes[5]);
    assert(big_endian_value(b7) == 256 * big_endian_value(b6) + bytes[6]);
    assert(big_endian_value(bytes) == 256 * big_endian_value(b7) + bytes[7]);
}

/// The bytes of a number are its digits to base 256: the lowest first in the one form, the highest
/// first in the other.
pub proof fn law_number_bytes(n: u64)
    ensures
        ({
            let bytes = little_endian(n as nat, 8);
            &&& bytes.len() == 8
            &&& n == bytes[0] + bytes[1] * 0x100 + bytes[2] * 0x1_0000 + bytes[3] * 0x100_0000
                + bytes[4] * 0x1_0000_0000 + bytes[5] * 0x100_0000_0000 + bytes[6]
                * 0x1_0000_0000_0000 + bytes[7] * 0x100_0000_0000_0000
        }),
        ({
            let bytes = big_endian(n as nat, 8);
            &&& bytes.len() == 8
            &&& n == bytes[7] + bytes[6] * 0x100 + bytes[5] * 0x1_0000 + bytes[4] * 0x100_0000
                + bytes[3] * 0x1_0000_0000 + bytes[2] * 0x100_0000_0000 + bytes[1]
                * 0x1_0000_0000_0000 + bytes[0] * 0x100_0000_0000_0000
        }),
{
    lemma_byte_limits();
    lemma_big_endian_roundtrip(n as nat, 8);
    law_big_endian_word(big_endian(n as nat, 8));
    reveal_with_fuel(little_endian, 9);
    let bytes = little_endian(n as nat, 8);
    let n1 = n as nat / 256;
    let n2 = n1 / 256;
    let n3 = n2 / 256;
    let n4 = n3 / 256;
    let n5 = n4 / 256;
    let n6 = n5 / 256;
    let n7 = n6 / 256;
    assert(bytes[0] == n as nat % 256);
    assert(bytes[1] == n1 % 256);
    assert(bytes[2] == n2 % 256);
    assert(bytes[3] == n3 % 256);
    assert(bytes[4] == n4 % 256);
    assert(bytes[5] == n5 % 256);
    assert(bytes[6] == n6 % 256);
    assert(bytes[7] == n7 % 256);
    assert(n7 < 256);
}

/// A batch is the number of its variant in four bytes, the number of its strings in eight, and
/// each string, in order, after its own length in eight bytes.
pub proof fn law_encoded_batch(variant: u32, strings: Seq<Seq<u8>>)
    ensures
        encoded_batch(variant, strings) == little_endian(variant as nat, 4) + little_endian(
            strings.len(),
            8,
        ) + strings.map_values(
            |string: Seq<u8>| little_endian(string.len(), 8) + string,
        ).flatten(),
{
    lemma_strings_joined(strings);
    assert(encoded_batch(variant, strings) =~= little_endian(variant as nat, 4) + little_endian(
        strings.len(),
        8,
    ) + string_bytes(strings));
}

proof fn lemma_strings_joined(strings: Seq<Seq<u8>>)
    ensures
        string_bytes(strings) == strings.map_values(
            |string: Seq<u8>| little_endian(string.len(), 8) + string,
        ).flatten(),
    decreases strings.len(),
{
    let framed = |string: Seq<u8>| little_endian(string.len(), 8) + string;
    if strings.len() > 0 {
        lemma_strings_joined(strings.drop_first());
        assert(strings.map_values(framed).drop_first() =~= strings.drop_first().map_values(framed));
    }
}

/// A vector of vectors holds one byte string for each of them, in order.
pub proof fn law_contents(strings: Seq<Vec<u8>>)
    ensures
        contents(strings).len() == strings.len(),
        forall|i: int| 0 <= i < strings.len() ==> contents(strings)[i] == (#[trigger] strings[i])@,
{
}

} // verus!
