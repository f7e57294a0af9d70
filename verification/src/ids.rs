//! Fresh identifiers for anchors and selections.
//!
//! Identifiers only have to tell anchors and selections apart; nothing in the
//! library's logic depends on their values. They are drawn from std's
//! randomly keyed hasher, so nothing is promised about the value returned.

use std::hash::BuildHasher;
use std::hash::RandomState;
use vstd::prelude::*;

verus! {

/// Calls `std::hash::RandomState::new`, which makes a hasher state with
/// fresh random keys. Nothing is claimed of the state returned.
#[verifier::external_body]
fn fresh_random_state() -> RandomState {
    RandomState::new()
}

/// Calls `BuildHasher::hash_one` on `state` with the value `0u8`. The result
/// depends on the state's random keys, so nothing is claimed of it.
#[verifier::external_body]
fn hash_zero(state: &RandomState) -> u64 {
    state.hash_one(0u8)
}

/// A fresh identifier. Its value is arbitrary.
pub fn fresh_id() -> u64 {
    let state = fresh_random_state();
    hash_zero(&state)
}

} // verus!
