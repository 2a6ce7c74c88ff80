//! What the user has set: where the store is kept, and how the application
//! looks.

use vstd::prelude::*;

verus! {

/// The colours of the user interface.
#[derive(Clone, Copy, Debug, PartialEq, Eq, Structural)]
pub enum Theme {
    FollowSystem,
    Light,
    Dark,
}

impl Default for Theme {
    fn default() -> (theme: Self)
        ensures
            theme == Theme::FollowSystem,
    {
        Theme::FollowSystem
    }
}

/// The settings of the application.
#[derive(Debug, PartialEq, Eq)]
pub struct Settings {
    pub database_location: String,
    pub theme: Theme,
}

/// The settings as the contracts see them.
pub struct SettingsView {
    pub database_location: Seq<char>,
    pub theme: Theme,
}

impl View for Settings {
    type V = SettingsView;

    open spec fn view(&self) -> SettingsView {
        SettingsView { database_location: self.database_location@, theme: self.theme }
    }
}

impl Settings {
    /// The settings with these two values.
    pub fn new(database_location: String, theme: Theme) -> (settings: Self)
        ensures
            settings.database_location == database_location,
            settings.theme == theme,
    {
        Self { database_location, theme }
    }
}

impl Clone for Settings {
    fn clone(&self) -> (copy: Self)
        ensures
            copy == *self,
    {
        Settings { database_location: self.database_location.clone(), theme: self.theme }
    }
}

} // verus!
