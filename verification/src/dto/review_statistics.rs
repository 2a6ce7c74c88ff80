//! The reviews of one day in two numbers.

use vstd::prelude::*;

verus! {

/// How many reviews took place, and the time they took together.
#[derive(Clone, Copy, Debug, PartialEq, Eq, Structural)]
pub struct ReviewStatistics {
    pub number_of_reviews: u64,
    pub total_time: i32,
}

impl Default for ReviewStatistics {
    fn default() -> (statistics: Self)
        ensures
            statistics == (ReviewStatistics { number_of_reviews: 0, total_time: 0 }),
    {
        ReviewStatistics { number_of_reviews: 0, total_time: 0 }
    }
}

} // verus!
