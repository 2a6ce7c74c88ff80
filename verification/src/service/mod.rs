//! The operations of the library, one module per component.

pub mod cell_service;
pub mod density;
pub mod export_import_service;
pub mod file_service;
pub mod hierarchy;
pub mod reconciliation;
pub mod repetition_service;
pub mod review_service;
pub mod round_trip;
pub mod settings_service;
pub mod subtree;
