//! What a search finds.

use vstd::prelude::*;
use crate::entity::cell;
use crate::entity::repetition;

verus! {

/// The cells that were found, and the repetitions of those cells.
#[derive(Debug, PartialEq, Eq)]
pub struct SearchResult {
    pub cells: Vec<cell::Model>,
    pub repetitions: Vec<repetition::Model>,
}

impl Default for SearchResult {
    fn default() -> (found: Self)
        ensures
            found.cells@.len() == 0,
            found.repetitions@.len() == 0,
    {
        SearchResult { cells: Vec::new(), repetitions: Vec::new() }
    }
}

} // verus!
