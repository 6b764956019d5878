//! Random values.
use vstd::prelude::*;

verus! {

/// Random bytes, as many as asked for.
///
/// Calls `Rng::fill` of the generator that `rand` keeps for the thread. It overwrites every
/// byte and nothing is known of their values.
#[verifier::external_body]
pub(crate) fn random_bytes(len: usize) -> (bytes: Vec<u8>)
    requires
        len <= isize::MAX,
    ensures
        bytes@.len() == len,
{
    let mut bytes = vec![0u8; len];
    rand::Rng::fill(&mut rand::thread_rng(), &mut bytes[..]);
    bytes
}

/// A random number below `limit`.
///
/// Calls `Rng::gen_range` of the generator that `rand` keeps for the thread, with zero and
/// `limit`. The result is at least the first and below the second; the call panics where there
/// is no such number.
#[verifier::external_body]
pub(crate) fn random_below(limit: usize) -> (number: usize)
    requires
        limit > 0,
    ensures
        number < limit,
{
    rand::Rng::gen_range(&mut rand::thread_rng(), 0, limit)
}

/// A random byte.
///
/// Calls `Rng::gen` of the generator that `rand` keeps for the thread. Nothing is known of the
/// result.
#[verifier::external_body]
pub(crate) fn random_byte() -> (byte: u8) {
    rand::Rng::gen(&mut rand::thread_rng())
}

/// A random word.
///
/// Calls `Rng::gen` of the generator that `rand` keeps for the thread. Nothing is known of the
/// result.
#[verifier::external_body]
pub(crate) fn random_word() -> (word: u64) {
    rand::Rng::gen(&mut rand::thread_rng())
}

} // verus!
