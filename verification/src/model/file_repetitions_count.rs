//! How many repetitions of a file are due, by state.

use vstd::prelude::*;

verus! {

/// The number of due repetitions in each state.
#[derive(Clone, Copy, Debug, PartialEq, Eq, Structural)]
pub struct FileRepetitionCounts {
    pub new: i32,
    pub learning: i32,
    pub relearning: i32,
    pub review: i32,
}

impl Default for FileRepetitionCounts {
    fn default() -> (counts: Self)
        ensures
            counts == (FileRepetitionCounts { new: 0, learning: 0, relearning: 0, review: 0 }),
    {
        FileRepetitionCounts { new: 0, learning: 0, relearning: 0, review: 0 }
    }
}

} // verus!
