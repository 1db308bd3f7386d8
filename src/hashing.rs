//! Hashing and randomness that the filters draw on: xxHash64 from
//! `twox_hash`, random numbers from `rand`.
use core::hash::Hash;
use core::hash::Hasher;
use rand::Rng;
use twox_hash::XxHash64;
use vstd::prelude::*;

verus! {

/// The xxHash64 digest of `data` under `seed`.
pub uninterp spec fn xxh64(seed: u64, data: Seq<u8>) -> u64;

/// Relies on `XxHash64::with_seed`, `Hash::hash` and `Hasher::finish`: the
/// xxHash64 digest of the bytes that `item`'s `Hash` impl feeds the hasher.
/// What those bytes are is up to that impl, so nothing is stated of the
/// result.
#[verifier::external_body]
pub(crate) fn hash_item<T: Hash + ?Sized>(item: &T, seed: u64) -> u64 {
    let mut hasher = XxHash64::with_seed(seed);
    item.hash(&mut hasher);
    hasher.finish()
}

/// Relies on `XxHash64::oneshot`: the xxHash64 digest of the one byte `b`
/// under `seed`.
#[verifier::external_body]
pub(crate) fn hash_byte(seed: u64, b: u8) -> (r: u64)
    ensures
        r == xxh64(seed, seq![b]),
{
    XxHash64::oneshot(seed, &[b])
}

/// Relies on `rand::random::<u64>`: any 64-bit value.
#[verifier::external_body]
pub(crate) fn random_u64() -> u64 {
    rand::random::<u64>()
}

/// Relies on `Rng::gen_range` over `thread_rng()`: a value in `0 .. n`
/// (it panics on an empty range).
#[verifier::external_body]
pub(crate) fn random_below(n: usize) -> (r: usize)
    requires
        n > 0,
    ensures
        r < n,
{
    rand::thread_rng().gen_range(0..n)
}

} // verus!
