//! Failures surfaced by the scheduler core.

use vstd::prelude::*;

verus! {

/// Everything the scheduler core can signal to its caller.
#[derive(Clone, Copy, Debug, PartialEq, Eq, Structural)]
pub enum Error {
    /// The operation referenced a key absent from the store.
    NotFound,
    /// A numeric rating outside 1..=4 was given.
    InvalidRating,
    /// The scheduler model cannot handle the given review time.
    ModelError,
}

} // verus!
