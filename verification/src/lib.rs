//! A matching engine for "did you mean?" word suggestions: a
//! transposition-aware edit distance and an online top-N shortlist of the
//! closest candidates, both with verified contracts.

pub mod distance;
pub mod shortlist;
pub mod suggest;

pub use crate::distance::edit_distance;
pub use crate::shortlist::insert_and_shift;
pub use crate::shortlist::TopNSelector;
pub use crate::suggest::best_matches;
