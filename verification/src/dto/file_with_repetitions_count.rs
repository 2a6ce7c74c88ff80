//! A node together with the repetitions that are due in it.

use vstd::prelude::*;
use crate::model::file_repetitions_count::FileRepetitionCounts;

verus! {

/// A node, and for a file the number of its due repetitions by state.
#[derive(Debug, PartialEq, Eq)]
pub struct FileWithRepetitionsCount {
    pub id: i32,
    pub path: String,
    pub is_folder: bool,
    pub repetition_counts: Option<FileRepetitionCounts>,
}

/// A listed node as the contracts see it.
pub struct FileWithRepetitionsCountView {
    pub id: int,
    pub path: Seq<char>,
    pub is_folder: bool,
    pub repetition_counts: Option<FileRepetitionCounts>,
}

impl View for FileWithRepetitionsCount {
    type V = FileWithRepetitionsCountView;

    open spec fn view(&self) -> FileWithRepetitionsCountView {
        FileWithRepetitionsCountView {
            id: self.id as int,
            path: self.path@,
            is_folder: self.is_folder,
            repetition_counts: self.repetition_counts,
        }
    }
}

impl FileWithRepetitionsCount {
    /// The listed node with these four values.
    pub fn new(
        id: i32,
        path: String,
        is_folder: bool,
        repetition_counts: Option<FileRepetitionCounts>,
    ) -> (listed: Self)
        ensures
            listed.id == id,
            listed.path == path,
            listed.is_folder == is_folder,
            listed.repetition_counts == repetition_counts,
    {
        Self { id, path, is_folder, repetition_counts }
    }
}

impl Default for FileWithRepetitionsCount {
    fn default() -> (listed: Self)
        ensures
            listed@ == (FileWithRepetitionsCountView {
                id: 0,
                path: Seq::empty(),
                is_folder: false,
                repetition_counts: None,
            }),
    {
        Self { id: 0, path: String::new(), is_folder: false, repetition_counts: None }
    }
}

impl Clone for FileWithRepetitionsCount {
    fn clone(&self) -> (copy: Self)
        ensures
            copy == *self,
    {
        Self {
            id: self.id,
            path: self.path.clone(),
            is_folder: self.is_folder,
            repetition_counts: self.repetition_counts,
        }
    }
}

} // verus!
