//! The log of reviews.

use vstd::prelude::*;
use crate::clock::Timestamp;

verus! {

/// How well a repetition was recalled.
#[derive(Clone, Copy, Debug, PartialEq, Eq, Structural)]
pub enum Rating {
    Again,
    Hard,
    Good,
    Easy,
}

impl Default for Rating {
    fn default() -> (rating: Self)
        ensures
            rating == Rating::Again,
    {
        Rating::Again
    }
}

/// One review of a cell: when it took place, how long it took and how it went.
#[derive(Clone, Copy, Debug, PartialEq, Eq, Structural)]
pub struct Model {
    pub id: i32,
    pub cell_id: i32,
    pub study_time: i32,
    pub date: Timestamp,
    pub rating: Rating,
}

} // verus!
