//! What the operations take and hand out besides rows.

pub mod exported_item;
pub mod file_with_repetitions_count;
pub mod review_statistics;
pub mod search_result;
pub mod update_cell_request;
pub mod update_settings_dto;
