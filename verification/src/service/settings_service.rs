//! The settings: what they are at first, and how a request changes them.

use vstd::prelude::*;
use crate::dto::update_settings_dto::UpdateSettingsRequest;
use crate::model::settings::Settings;
use crate::model::settings::SettingsView;
use crate::model::settings::Theme;

verus! {

/// The settings to write where none were written yet: the store is kept at
/// `default_database_location`, and the theme follows the system. Where
/// settings exist, nothing is to be written.
pub fn init_settings(settings_exist: bool, default_database_location: String) -> (written: Option<
    Settings,
>)
    ensures
        settings_exist ==> written is None,
        !settings_exist ==> written is Some && written->0@ == (SettingsView {
            database_location: default_database_location@,
            theme: Theme::FollowSystem,
        }),
{
    if settings_exist {
        None
    } else {
        Some(Settings::new(default_database_location, Theme::FollowSystem))
    }
}

/// What `settings` are after `new_settings` was applied.
pub open spec fn updated_settings(
    settings: SettingsView,
    database_location: Option<Seq<char>>,
    theme: Option<Theme>,
) -> SettingsView {
    SettingsView {
        database_location: match database_location {
            Some(location) => location,
            None => settings.database_location,
        },
        theme: match theme {
            Some(theme) => theme,
            None => settings.theme,
        },
    }
}

/// `settings` with what `new_settings` holds in the place of what it names.
pub fn update_settings(settings: Settings, new_settings: UpdateSettingsRequest) -> (updated:
    Settings)
    ensures
        updated@ == updated_settings(
            settings@,
            match new_settings.database_location {
                Some(location) => Some(location@),
                None => None,
            },
            new_settings.theme,
        ),
{
    let mut updated = settings;
    if let Some(database_location) = new_settings.database_location {
        updated.database_location = database_location;
    }
    if let Some(theme) = new_settings.theme {
        updated.theme = theme;
    }
    updated
}

} // verus!
