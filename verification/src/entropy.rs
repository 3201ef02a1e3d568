//! Uniform random draws from the thread-local generator.

use vstd::prelude::*;
use rand::Rng;

verus! {

/// A uniform integer in `[0, bound)`.
///
/// Trusted: `rand::Rng::gen_range` on `rand::thread_rng()`, which returns a
/// value of the half-open range and refuses an empty one; nothing more is
/// promised of a random draw.
#[verifier::external_body]
pub(crate) fn random_below(bound: i64) -> (r: i64)
    requires
        bound > 0,
    ensures
        0 <= r < bound,
{
    rand::thread_rng().gen_range(0..bound)
}

/// A uniform index in `[0, bound)`.
///
/// Trusted: `rand::Rng::gen_range` on `rand::thread_rng()`, as for
/// `random_below`, on `usize`.
#[verifier::external_body]
pub(crate) fn random_index(bound: usize) -> (r: usize)
    requires
        bound > 0,
    ensures
        r < bound,
{
    rand::thread_rng().gen_range(0..bound)
}

/// Sixteen random bytes.
///
/// Trusted: `rand::Rng::fill` on `rand::thread_rng()`; nothing is promised
/// of the bytes.
#[verifier::external_body]
pub(crate) fn random_block() -> (block: [u8; 16]) {
    let mut block = [0u8; 16];
    rand::thread_rng().fill(&mut block);
    block
}

} // verus!
