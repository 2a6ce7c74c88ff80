//! Persistence-and-invariant core of a note and flashcard application: the
//! hierarchy of files and folders, the ordered cells of each file, and the
//! repetitions by which cells are studied.

pub mod clock;
pub mod cloze;
pub mod dto;
pub mod entity;
pub mod error;
pub mod model;
pub mod path;
pub mod sanitize;
pub mod seqs;
pub mod service;
pub mod shuffle;
pub mod store;
