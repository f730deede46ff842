//! The random source behind the key search, behind trusted wrappers.
//!
//! Nothing can be promised about which value a draw produces, so the
//! contracts state only what holds of every outcome: a drawn candidate key
//! lies in [1, 255].  Key selection itself is verified for every candidate
//! sequence whatsoever (see `search`).

use vstd::prelude::*;
use rand::Rng;

verus! {

#[verifier::external_type_specification]
#[verifier::external_body]
pub struct ExThreadRng(rand::rngs::ThreadRng);

/// Relies on rand::thread_rng: a handle to the thread-local generator.
#[verifier::external_body]
pub(crate) fn new_thread_rng() -> rand::rngs::ThreadRng {
    rand::thread_rng()
}

/// Relies on rand::Rng::gen_range on the range 1..=255: the result lies
/// inside the range, and the call does not panic since the range is
/// non-empty.
#[verifier::external_body]
pub(crate) fn draw_key(rng: &mut rand::rngs::ThreadRng) -> (k: u8)
    ensures
        1 <= k <= 255,
{
    rng.gen_range(1u8..=255u8)
}

} // verus!
