//! Scheduling records of cells.

use vstd::prelude::*;
use crate::clock::Timestamp;

verus! {

/// Where a repetition stands in its schedule.
#[derive(Clone, Copy, Debug, PartialEq, Eq, Structural)]
pub enum State {
    New,
    Learning,
    Relearning,
    Review,
}

impl Default for State {
    fn default() -> (state: Self)
        ensures
            state == State::New,
    {
        State::New
    }
}

/// One scheduling record of the cell `cell_id`. A cloze cell has one per
/// marker, told apart by `additional_content`. `stability` and `difficulty`
/// hold the bits of the scheduler's 32-bit floating-point values, which the
/// library stores and never reads.
#[derive(Debug, PartialEq, Eq)]
pub struct Model {
    pub id: i32,
    pub file_id: i32,
    pub cell_id: i32,
    pub due: Timestamp,
    pub stability: u32,
    pub difficulty: u32,
    pub elapsed_days: i32,
    pub scheduled_days: i32,
    pub reps: i32,
    pub lapses: i32,
    pub state: State,
    pub last_review: Timestamp,
    pub additional_content: Option<String>,
}

/// A repetition as the contracts see it.
pub struct ModelView {
    pub id: int,
    pub file_id: int,
    pub cell_id: int,
    pub due: Timestamp,
    pub stability: u32,
    pub difficulty: u32,
    pub elapsed_days: i32,
    pub scheduled_days: i32,
    pub reps: i32,
    pub lapses: i32,
    pub state: State,
    pub last_review: Timestamp,
    pub additional_content: Option<Seq<char>>,
}

impl ModelView {
    /// The record that a repetition starts from: due at once, never reviewed.
    pub open spec fn fresh(
        id: int,
        file_id: int,
        cell_id: int,
        additional_content: Option<Seq<char>>,
        now: Timestamp,
    ) -> ModelView {
        ModelView {
            id,
            file_id,
            cell_id,
            due: now,
            stability: 0,
            difficulty: 0,
            elapsed_days: 0,
            scheduled_days: 0,
            reps: 0,
            lapses: 0,
            state: State::New,
            last_review: now,
            additional_content,
        }
    }
}

impl View for Model {
    type V = ModelView;

    open spec fn view(&self) -> ModelView {
        ModelView {
            id: self.id as int,
            file_id: self.file_id as int,
            cell_id: self.cell_id as int,
            due: self.due,
            stability: self.stability,
            difficulty: self.difficulty,
            elapsed_days: self.elapsed_days,
            scheduled_days: self.scheduled_days,
            reps: self.reps,
            lapses: self.lapses,
            state: self.state,
            last_review: self.last_review,
            additional_content: match self.additional_content {
                Some(text) => Some(text@),
                None => None,
            },
        }
    }
}

impl Default for Model {
    fn default() -> (row: Self)
        ensures
            row@ == ModelView::fresh(0, 0, 0, None, Timestamp { seconds: 0, nanos: 0 }),
    {
        let start = Timestamp { seconds: 0, nanos: 0 };
        Model {
            id: 0,
            file_id: 0,
            cell_id: 0,
            due: start,
            stability: 0,
            difficulty: 0,
            elapsed_days: 0,
            scheduled_days: 0,
            reps: 0,
            lapses: 0,
            state: State::New,
            last_review: start,
            additional_content: None,
        }
    }
}

impl Clone for Model {
    fn clone(&self) -> (copy: Self)
        ensures
            copy == *self,
    {
        Model {
            id: self.id,
            file_id: self.file_id,
            cell_id: self.cell_id,
            due: self.due,
            stability: self.stability,
            difficulty: self.difficulty,
            elapsed_days: self.elapsed_days,
            scheduled_days: self.scheduled_days,
            reps: self.reps,
            lapses: self.lapses,
            state: self.state,
            last_review: self.last_review,
            additional_content: match &self.additional_content {
                Some(text) => Some(text.clone()),
                None => None,
            },
        }
    }
}

} // verus!
