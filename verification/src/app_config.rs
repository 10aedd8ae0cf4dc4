//! The configuration vocabulary: the setting keys and enumerated values
//! the application persists. The key/string mapping lives here; reading
//! and writing the configuration file is the caller's job.

use vstd::prelude::*;
use crate::text::str_eq;

verus! {

/// The appearance the user interface follows.
#[derive(Clone, Copy, Debug, PartialEq, Eq, Structural)]
pub enum AppearanceMode {
    Auto,
    Light,
    Dark,
}

/// The user interface language.
#[derive(Clone, Copy, Debug, PartialEq, Eq, Structural)]
pub enum Language {
    Auto,
    English,
    Chinese,
}

/// A configuration key; one enum instead of raw strings, so a misspelt
/// key cannot compile.
#[derive(Clone, Copy, Debug, PartialEq, Eq, Structural)]
pub enum ConfigKey {
    AppOwner,
    AudioLibPath,
    ExtraLibSearchPath,
    CustomFontPath,
    AutoLookupClipboard,
    MonitorClipboard,
    AutoLookupSelection,
    HotkeyLetter,
    HotkeyModifier,
    UsePopoverForLookup,
    LastMainProfileId,
    GuiLanguage,
    AppearanceMode,
    FontFace,
    FontColor,
    BackgroundColor,
    AutoResizeImage,
}

/// The section a configuration key belongs to.
#[derive(Clone, Copy, Debug, PartialEq, Eq, Structural)]
pub enum ConfigSection {
    Global,
    View,
}

/// The persisted string for each configuration key.
pub open spec fn key_str(k: ConfigKey) -> Seq<char> {
    match k {
        ConfigKey::AppOwner => "app_owner"@,
        ConfigKey::AudioLibPath => "audio_lib_path"@,
        ConfigKey::CustomFontPath => "custom_font_path"@,
        ConfigKey::ExtraLibSearchPath => "extra_lib_search_path"@,
        ConfigKey::GuiLanguage => "gui_language"@,
        ConfigKey::AutoLookupClipboard => "auto_lookup_clipboard"@,
        ConfigKey::MonitorClipboard => "monitor_clipboard"@,
        ConfigKey::AutoLookupSelection => "auto_lookup_selection"@,
        ConfigKey::HotkeyLetter => "hotkey_letter"@,
        ConfigKey::HotkeyModifier => "hotkey_modifier"@,
        ConfigKey::UsePopoverForLookup => "use_popover_for_lookup"@,
        ConfigKey::LastMainProfileId => "last_main_profile_id"@,
        ConfigKey::AppearanceMode => "appearance_mode"@,
        ConfigKey::FontFace => "font_face"@,
        ConfigKey::FontColor => "font_color"@,
        ConfigKey::BackgroundColor => "background_color"@,
        ConfigKey::AutoResizeImage => "auto_resize_image"@,
    }
}

impl ConfigKey {
    /// The persisted string for this key.
    pub fn as_str(&self) -> (r: &'static str)
        ensures
            r@ == key_str(*self),
    {
        match self {
            ConfigKey::AppOwner => "app_owner",
            ConfigKey::AudioLibPath => "audio_lib_path",
            ConfigKey::CustomFontPath => "custom_font_path",
            ConfigKey::ExtraLibSearchPath => "extra_lib_search_path",
            ConfigKey::GuiLanguage => "gui_language",
            ConfigKey::AutoLookupClipboard => "auto_lookup_clipboard",
            ConfigKey::MonitorClipboard => "monitor_clipboard",
            ConfigKey::AutoLookupSelection => "auto_lookup_selection",
            ConfigKey::HotkeyLetter => "hotkey_letter",
            ConfigKey::HotkeyModifier => "hotkey_modifier",
            ConfigKey::UsePopoverForLookup => "use_popover_for_lookup",
            ConfigKey::LastMainProfileId => "last_main_profile_id",
            ConfigKey::AppearanceMode => "appearance_mode",
            ConfigKey::FontFace => "font_face",
            ConfigKey::FontColor => "font_color",
            ConfigKey::BackgroundColor => "background_color",
            ConfigKey::AutoResizeImage => "auto_resize_image",
        }
    }

    /// The key a persisted string names, if any.
    pub fn from_str(s: &str) -> (r: Option<ConfigKey>)
        ensures
            match r {
                Option::Some(k) => s@ == key_str(k),
                Option::None => forall|k: ConfigKey| s@ != key_str(k),
            },
    {
        if str_eq(s, "app_owner") {
            Option::Some(ConfigKey::AppOwner)
        } else if str_eq(s, "audio_lib_path") {
            Option::Some(ConfigKey::AudioLibPath)
        } else if str_eq(s, "custom_font_path") {
            Option::Some(ConfigKey::CustomFontPath)
        } else if str_eq(s, "extra_lib_search_path") {
            Option::Some(ConfigKey::ExtraLibSearchPath)
        } else if str_eq(s, "gui_language") {
            Option::Some(ConfigKey::GuiLanguage)
        } else if str_eq(s, "auto_lookup_clipboard") {
            Option::Some(ConfigKey::AutoLookupClipboard)
        } else if str_eq(s, "monitor_clipboard") {
            Option::Some(ConfigKey::MonitorClipboard)
        } else if str_eq(s, "auto_lookup_selection") {
            Option::Some(ConfigKey::AutoLookupSelection)
        } else if str_eq(s, "hotkey_letter") {
            Option::Some(ConfigKey::HotkeyLetter)
        } else if str_eq(s, "hotkey_modifier") {
            Option::Some(ConfigKey::HotkeyModifier)
        } else if str_eq(s, "use_popover_for_lookup") {
            Option::Some(ConfigKey::UsePopoverForLookup)
        } else if str_eq(s, "last_main_profile_id") {
            Option::Some(ConfigKey::LastMainProfileId)
        } else if str_eq(s, "appearance_mode") {
            Option::Some(ConfigKey::AppearanceMode)
        } else if str_eq(s, "font_face") {
            Option::Some(ConfigKey::FontFace)
        } else if str_eq(s, "font_color") {
            Option::Some(ConfigKey::FontColor)
        } else if str_eq(s, "background_color") {
            Option::Some(ConfigKey::BackgroundColor)
        } else if str_eq(s, "auto_resize_image") {
            Option::Some(ConfigKey::AutoResizeImage)
        } else {
            proof {
                assert forall|k: ConfigKey| s@ != key_str(k) by {}
            }
            Option::None
        }
    }
}

} // verus!
