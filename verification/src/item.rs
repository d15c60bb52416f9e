//! The unit of review: one stored key with its scheduling state.

use vstd::prelude::*;

verus! {

/// One reviewable item. The `strength` payload is owned by the external
/// scheduler model and is opaque to this core; `key`, `due_at` and
/// `session_marker` drive selection.
pub struct Item {
    /// Unique lookup key; immutable once the item is created.
    pub key: String,
    /// When the item next becomes eligible for review (seconds since epoch).
    pub due_at: i64,
    /// Memory-strength payload produced and consumed by the scheduler model.
    pub strength: rs_fsrs::Card,
    /// Time of the most recent review (creation time before any review).
    pub last_reviewed_at: i64,
    /// Session in which the item was last shown; 0 means never shown.
    pub session_marker: i64,
}

} // verus!
