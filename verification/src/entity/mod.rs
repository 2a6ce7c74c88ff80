//! The rows of the store, one module per table.

pub mod cell;
pub mod file;
pub mod repetition;
pub mod review;
