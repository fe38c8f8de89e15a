//! Versioned user settings and their validation.
//!
//! Settings persist to a JSON file next to the history database; the file
//! is written atomically (temporary file, then rename) by the caller.

use crate::data_paths::{join_path, path_join};
use crate::text::{decimal, push_decimal, push_str, string_from};
use vstd::prelude::*;

verus! {

pub const SETTINGS_VERSION: u32 = 1;

#[derive(Debug, Clone)]
pub struct Settings {
    pub version: u32,
    /// Foreground sampling interval in milliseconds (valid range 500..=10000).
    pub foreground_interval_ms: u64,
    /// Background sampling interval in milliseconds (valid range 1000..=30000).
    pub background_interval_ms: u64,
    /// Whether to launch at login.  Off by default; the user opts in.
    pub launch_at_login: bool,
    /// UI language override; "system" follows the app default.
    pub language: String,
}

/// The default settings: foreground every second, background every three,
/// launch-at-login off, the system language.
pub open spec fn default_settings(s: Settings) -> bool {
    &&& s.version == SETTINGS_VERSION
    &&& s.foreground_interval_ms == 1000
    &&& s.background_interval_ms == 3000
    &&& !s.launch_at_login
    &&& s.language@ == "system"@
}

impl Default for Settings {
    fn default() -> (s: Self)
        ensures
            default_settings(s),
            settings_valid(s),
    {
        Settings {
            version: SETTINGS_VERSION,
            foreground_interval_ms: 1000,
            background_interval_ms: 3000,
            launch_at_login: false,
            language: string_from("system"),
        }
    }
}

/// Are both sampling intervals inside their allowed ranges?
pub open spec fn settings_valid(s: Settings) -> bool {
    &&& 500 <= s.foreground_interval_ms <= 10_000
    &&& 1000 <= s.background_interval_ms <= 30_000
}

impl Settings {
    /// The message `validate` rejects these settings with, if any.
    pub open spec fn validate_spec_error(&self) -> Option<Seq<char>> {
        if !(500 <= self.foreground_interval_ms <= 10_000) {
            Some("foreground_interval_ms "@ + decimal(self.foreground_interval_ms as nat)
                + " out of range 500-10000"@)
        } else if !(1000 <= self.background_interval_ms <= 30_000) {
            Some("background_interval_ms "@ + decimal(self.background_interval_ms as nat)
                + " out of range 1000-30000"@)
        } else {
            None
        }
    }

    /// Checks the intervals against their ranges; an out-of-range value is
    /// rejected with a message naming the field and the value.
    pub fn validate(&self) -> (r: Result<(), String>)
        ensures
            r is Ok <==> settings_valid(*self),
            r matches Err(e) ==> self.validate_spec_error() == Some(e@),
    {
        if !(500 <= self.foreground_interval_ms && self.foreground_interval_ms <= 10_000) {
            let mut e = string_from("foreground_interval_ms ");
            push_decimal(&mut e, self.foreground_interval_ms);
            push_str(&mut e, " out of range 500-10000");
            return Err(e);
        }
        if !(1000 <= self.background_interval_ms && self.background_interval_ms <= 30_000) {
            let mut e = string_from("background_interval_ms ");
            push_decimal(&mut e, self.background_interval_ms);
            push_str(&mut e, " out of range 1000-30000");
            return Err(e);
        }
        Ok(())
    }
}

/// Where the settings file lives.
pub struct SettingsStore {
    path: String,
}

impl SettingsStore {
    pub closed spec fn spec_path(&self) -> Seq<char> {
        self.path@
    }

    /// A store for `dir/settings.json`.
    pub fn new(dir: String) -> (s: Self)
        ensures
            s.spec_path() == path_join(dir@, "settings.json"@),
    {
        SettingsStore { path: join_path(&dir, "settings.json") }
    }

    /// The settings file.
    pub fn path(&self) -> (p: String)
        ensures
            p@ == self.spec_path(),
    {
        self.path.clone()
    }

    /// The temporary file a save writes before renaming it over the settings
    /// file: the settings file's name with its `json` extension replaced by
    /// `json.tmp`.
    pub fn temp_path(&self) -> (p: String)
        ensures
            p@ == self.spec_path() + ".tmp"@,
    {
        let mut p = self.path.clone();
        push_str(&mut p, ".tmp");
        p
    }
}

/// Where a save writes: the temporary file first, then renamed over the
/// target, so a crash mid-write never leaves a corrupt settings file.
pub struct SaveTargets {
    pub temp: String,
    pub target: String,
}

impl SettingsStore {
    /// The files a save of `settings` writes, or the validation error: an
    /// invalid value is rejected before anything is written.
    pub fn save_targets(&self, settings: &Settings) -> (r: Result<SaveTargets, String>)
        ensures
            r is Ok <==> settings_valid(*settings),
            r matches Ok(t) ==> t.temp@ == self.spec_path() + ".tmp"@ && t.target@ == self.spec_path(),
            r matches Err(e) ==> settings.validate_spec_error() == Some(e@),
    {
        match settings.validate() {
            Err(e) => Err(e),
            Ok(()) => Ok(SaveTargets { temp: self.temp_path(), target: self.path() }),
        }
    }
}

/// Install the settings store for `dir`.
pub fn init(store: &mut Option<SettingsStore>, dir: String)
    ensures
        *final(store) matches Some(s) && s.spec_path() == path_join(dir@, "settings.json"@),
{
    *store = Some(SettingsStore::new(dir));
}

/// The current settings: those loaded from the store, or the defaults when
/// no store is initialized or its file is missing or unreadable.
pub fn get(loaded: Option<Settings>) -> (s: Settings)
    ensures
        match loaded {
            Some(x) => s == x,
            None => default_settings(s),
        },
{
    match loaded {
        Some(x) => x,
        None => Settings::default(),
    }
}

/// Accept a settings update: the store must be initialized and the values
/// valid; the result says where to write them.
pub fn set(store: &Option<SettingsStore>, settings: &Settings) -> (r: Result<SaveTargets, String>)
    ensures
        match store {
            None => r matches Err(e) && e@ == "settings store not initialized"@,
            Some(st) => {
                &&& r is Ok <==> settings_valid(*settings)
                &&& r matches Ok(t) ==> t.temp@ == st.spec_path() + ".tmp"@ && t.target@
                    == st.spec_path()
                &&& r matches Err(e) ==> settings.validate_spec_error() == Some(e@)
            },
        },
{
    match store {
        None => Err(string_from("settings store not initialized")),
        Some(st) => st.save_targets(settings),
    }
}

/// The default settings pass validation.
pub proof fn law_defaults_are_valid(s: Settings)
    requires
        default_settings(s),
    ensures
        settings_valid(s),
{
}

} // verus!
