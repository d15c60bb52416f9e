//! User feedback ratings for a review.

use vstd::prelude::*;

verus! {

/// The four ordinal feedback values a user can give for an item.
#[derive(Clone, Copy, Debug, PartialEq, Eq, Structural)]
pub enum Rating {
    Again,
    Hard,
    Good,
    Easy,
}

/// Numeric encoding used at the user-interface boundary: 1 = Again,
/// 2 = Hard, 3 = Good, 4 = Easy; anything else is invalid.
pub open spec fn rating_of_u8(q: u8) -> Option<Rating> {
    match q {
        1u8 => Some(Rating::Again),
        2u8 => Some(Rating::Hard),
        3u8 => Some(Rating::Good),
        4u8 => Some(Rating::Easy),
        _ => None,
    }
}

/// Decode a numeric rating; the caller must have validated it already.
pub fn rating_from_u8(q: u8) -> (r: Rating)
    requires
        1 <= q <= 4,
    ensures
        rating_of_u8(q) == Some(r),
{
    match q {
        1 => Rating::Again,
        2 => Rating::Hard,
        3 => Rating::Good,
        _ => Rating::Easy,
    }
}

/// Decode a numeric rating, rejecting values outside 1..=4.
pub fn rating_checked_from_u8(q: u8) -> (r: Option<Rating>)
    ensures
        r == rating_of_u8(q),
{
    if 1 <= q && q <= 4 {
        Some(rating_from_u8(q))
    } else {
        None
    }
}

} // verus!
