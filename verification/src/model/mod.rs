//! Values that are stored inside a cell's content or beside the store.

pub mod file_repetitions_count;
pub mod settings;
pub mod true_false;
