//! The external scheduler model: the forgetting-curve algorithm that turns
//! (current strength state, rating, review time) into (new strength state,
//! new due time). The numeric model itself is not re-specified here; its
//! results carry names, so that what the store persists is provably exactly
//! what the model returned, applied atomically, with a due time that never
//! precedes the review time.

use vstd::prelude::*;
use crate::rating::Rating;

verus! {

/// Latest review time (seconds since the epoch) accepted by the scheduler
/// model: far beyond any realistic clock, yet small enough that the model's
/// largest interval added on top stays within the range of the underlying
/// calendar arithmetic.
pub const MAX_EPOCH: i64 = 100_000_000_000;

#[verifier::external_type_specification]
#[verifier::external_body]
pub struct ExCard(rs_fsrs::Card);

/// The strength state the scheduler model computes from a stored state, a
/// rating and a review time.
pub uninterp spec fn model_card_of(card: rs_fsrs::Card, rating: Rating, now: i64) -> rs_fsrs::Card;

/// The due time the scheduler model computes from a stored state, a rating
/// and a review time.
pub uninterp spec fn model_due_of(card: rs_fsrs::Card, rating: Rating, now: i64) -> i64;

/// Relies on rs_fsrs::Card::new: a fresh memory-strength state in the
/// model's initial phase. Nothing further is assumed about its contents.
#[verifier::external_body]
pub(crate) fn fresh_card() -> rs_fsrs::Card {
    rs_fsrs::Card::new()
}

/// Relies on rs_fsrs::FSRS::next, built with rs_fsrs::Parameters::default:
/// with fuzzing disabled the basic scheduler is a pure function of the card,
/// the rating and the review time (its time-seeded generator is never read),
/// so its card and due time carry the names above. Every branch gives the
/// returned card a due time of `now` plus a non-negative interval of at most
/// 36502 days, so the returned due time never precedes `now`, and with `now`
/// at most `MAX_EPOCH` the calendar arithmetic stays in range.
#[verifier::external_body]
pub(crate) fn model_next(card: &rs_fsrs::Card, rating: Rating, now: i64) -> (r: (
    rs_fsrs::Card,
    i64,
))
    requires
        0 <= now <= MAX_EPOCH,
    ensures
        r.0 == model_card_of(*card, rating, now),
        r.1 == model_due_of(*card, rating, now),
        now <= r.1,
{
    let when = chrono::DateTime::from_timestamp(now, 0).unwrap();
    let fsrs = rs_fsrs::FSRS::new(rs_fsrs::Parameters::default());
    let graded = match rating {
        Rating::Again => rs_fsrs::Rating::Again,
        Rating::Hard => rs_fsrs::Rating::Hard,
        Rating::Good => rs_fsrs::Rating::Good,
        Rating::Easy => rs_fsrs::Rating::Easy,
    };
    let info = fsrs.next(card.clone(), when, graded);
    let due = info.card.due.timestamp();
    (info.card, due)
}

} // verus!
