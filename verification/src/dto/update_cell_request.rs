//! A request to change what a cell holds.

use vstd::prelude::*;

verus! {

/// The cell to change and its new content.
#[derive(Debug, PartialEq, Eq)]
pub struct UpdateCellRequest {
    pub cell_id: i32,
    pub content: String,
}

/// A request as the contracts see it.
pub struct UpdateCellRequestView {
    pub cell_id: int,
    pub content: Seq<char>,
}

impl View for UpdateCellRequest {
    type V = UpdateCellRequestView;

    open spec fn view(&self) -> UpdateCellRequestView {
        UpdateCellRequestView { cell_id: self.cell_id as int, content: self.content@ }
    }
}

impl Default for UpdateCellRequest {
    fn default() -> (request: Self)
        ensures
            request.cell_id == 0,
            request.content@ == Seq::<char>::empty(),
    {
        UpdateCellRequest { cell_id: 0, content: String::new() }
    }
}

impl Clone for UpdateCellRequest {
    fn clone(&self) -> (copy: Self)
        ensures
            copy == *self,
    {
        UpdateCellRequest { cell_id: self.cell_id, content: self.content.clone() }
    }
}

} // verus!
