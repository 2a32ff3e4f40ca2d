//! What the answers of the library mean: each is related to the fields of what it
//! is given, and to other answers, rather than to how it is worked out.

pub mod entering;
pub mod listing;
pub mod naming;
pub mod ordering;
pub mod reading;
pub mod reclaiming;
pub mod sizes;
pub mod summing;
pub mod telling;
pub mod tiling;
pub mod walking;
pub mod wording;
