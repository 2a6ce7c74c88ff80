//! Content blocks of a file.

use vstd::prelude::*;

verus! {

/// What a cell holds, which decides the repetitions it is studied by.
#[derive(Clone, Copy, Debug, PartialEq, Eq, Structural)]
pub enum CellType {
    FlashCard,
    Note,
    Cloze,
    TrueFalse,
}

impl Default for CellType {
    fn default() -> (cell_type: Self)
        ensures
            cell_type == CellType::FlashCard,
    {
        CellType::FlashCard
    }
}

/// One content block, at position `index` of the file `file_id`.
#[derive(Debug, PartialEq, Eq)]
pub struct Model {
    pub id: i32,
    pub file_id: i32,
    pub index: i32,
    pub content: String,
    pub cell_type: CellType,
}

/// A cell as the contracts see it.
pub struct ModelView {
    pub id: int,
    pub file_id: int,
    pub index: int,
    pub content: Seq<char>,
    pub cell_type: CellType,
}

impl View for Model {
    type V = ModelView;

    open spec fn view(&self) -> ModelView {
        ModelView {
            id: self.id as int,
            file_id: self.file_id as int,
            index: self.index as int,
            content: self.content@,
            cell_type: self.cell_type,
        }
    }
}

impl Clone for Model {
    fn clone(&self) -> (copy: Self)
        ensures
            copy == *self,
    {
        Model {
            id: self.id,
            file_id: self.file_id,
            index: self.index,
            content: self.content.clone(),
            cell_type: self.cell_type,
        }
    }
}

} // verus!
