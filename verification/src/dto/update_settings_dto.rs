//! A request to change the settings.

use vstd::prelude::*;
use crate::model::settings::Theme;

verus! {

/// The settings to change; what is absent stays as it is.
#[derive(Debug, PartialEq, Eq)]
pub struct UpdateSettingsRequest {
    pub database_location: Option<String>,
    pub theme: Option<Theme>,
}

impl Default for UpdateSettingsRequest {
    fn default() -> (request: Self)
        ensures
            request.database_location is None,
            request.theme is None,
    {
        UpdateSettingsRequest { database_location: None, theme: None }
    }
}

} // verus!
