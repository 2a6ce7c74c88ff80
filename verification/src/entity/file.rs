//! Nodes of the hierarchy: files and folders.

use vstd::prelude::*;

verus! {

/// A file or a folder, found by its id and placed by its materialized path.
#[derive(Debug, PartialEq, Eq)]
pub struct Model {
    pub id: i32,
    pub path: String,
    pub is_folder: bool,
}

/// A node as the contracts see it.
pub struct ModelView {
    pub id: int,
    pub path: Seq<char>,
    pub is_folder: bool,
}

impl View for Model {
    type V = ModelView;

    open spec fn view(&self) -> ModelView {
        ModelView { id: self.id as int, path: self.path@, is_folder: self.is_folder }
    }
}

impl Clone for Model {
    fn clone(&self) -> (copy: Self)
        ensures
            copy == *self,
    {
        Model { id: self.id, path: self.path.clone(), is_folder: self.is_folder }
    }
}

} // verus!
