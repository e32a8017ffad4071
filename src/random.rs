//! Draws from the thread-local cryptographic random number generator of `rand`.
use vstd::prelude::*;
use rand::{Rng, RngCore};

verus! {

/// Relies on rand's `thread_rng().fill_bytes`: it overwrites every byte of the
/// buffer it is given, so the result has the requested length; nothing is known
/// of the values.
#[verifier::external_body]
pub fn random_bytes(len: usize) -> (r: Vec<u8>)
    ensures
        r@.len() == len,
{
    let mut bytes = std::vec::Vec::new();
    bytes.resize(len, 0u8);
    rand::thread_rng().fill_bytes(&mut bytes);
    bytes
}

/// Relies on rand's `Rng::gen_range(low, high)` (rand 0.7), which returns a value
/// in `[low, high)` and panics when `low >= high`.
#[verifier::external_body]
pub fn random_index(high: usize) -> (r: usize)
    requires
        0 < high,
    ensures
        r < high,
{
    rand::thread_rng().gen_range::<usize, usize, usize>(0, high)
}

} // verus!
