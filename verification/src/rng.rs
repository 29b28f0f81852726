//! Randomness primitives.
//!
//! All randomness enters the library through these wrappers.  Nothing is
//! assumed about a drawn value beyond its range, so every caller is
//! verified for each outcome the generator can produce.

use vstd::prelude::*;

verus! {

/// Relies on `rand::Rng::gen_range` over `0..bound` (via `rand::thread_rng`):
/// returns a uniform value below the bound; the range must be nonempty.
#[verifier::external_body]
pub(crate) fn rand_below(bound: usize) -> (r: usize)
    requires
        bound > 0,
    ensures
        r < bound,
{
    rand::Rng::gen_range(&mut rand::thread_rng(), 0..bound)
}

/// Relies on `rand::Rng::gen_range` over `0..bound` (via `rand::thread_rng`):
/// returns a uniform value below the bound; the range must be nonempty.
#[verifier::external_body]
pub(crate) fn rand_below_u128(bound: u128) -> (r: u128)
    requires
        bound > 0,
    ensures
        r < bound,
{
    rand::Rng::gen_range(&mut rand::thread_rng(), 0..bound)
}

/// Relies on `rand::Rng::gen` (via `rand::thread_rng`): a uniform byte.
#[verifier::external_body]
pub(crate) fn rand_byte() -> u8 {
    rand::Rng::gen(&mut rand::thread_rng())
}

/// Relies on `rand::Rng::gen_ratio` (via `rand::thread_rng`): true with
/// probability `num/den`; panics unless `0 < den` and `num <= den`.
#[verifier::external_body]
pub(crate) fn rand_ratio(num: u32, den: u32) -> bool
    requires
        0 < den,
        num <= den,
{
    rand::Rng::gen_ratio(&mut rand::thread_rng(), num, den)
}

} // verus!
