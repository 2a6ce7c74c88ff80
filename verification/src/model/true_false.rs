//! The content of a true-or-false cell.

use vstd::prelude::*;

verus! {

/// A statement and whether it is true.
#[derive(Debug, PartialEq, Eq)]
pub struct TrueFalse {
    pub question: String,
    pub is_true: bool,
}

impl Default for TrueFalse {
    fn default() -> (card: Self)
        ensures
            card.question@ == Seq::<char>::empty(),
            !card.is_true,
    {
        TrueFalse { question: String::new(), is_true: false }
    }
}

impl Clone for TrueFalse {
    fn clone(&self) -> (copy: Self)
        ensures
            copy == *self,
    {
        TrueFalse { question: self.question.clone(), is_true: self.is_true }
    }
}

} // verus!
