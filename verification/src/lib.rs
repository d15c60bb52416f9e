//! A spaced-repetition review scheduler with a persistent item store,
//! plus offline-dictionary index parsing and fuzzy key lookup.

pub mod error;
pub mod fuzzy;
pub mod item;
pub mod model;
pub mod laws;
pub mod rating;
pub mod scheduler;
pub mod stardict;
pub mod textutil;

pub use error::Error;
pub use item::Item;
pub use rating::rating_from_u8;
pub use rating::Rating;
pub use scheduler::Scheduler;
pub use stardict::StarDict;
pub use textutil::groom_name;
