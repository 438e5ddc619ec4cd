//! Viewer settings: themes, fonts and keybindings, with their defaults.
//! Reading and writing the settings file is the surrounding application's
//! business; the library only fixes what the settings are.

use vstd::prelude::*;

verus! {

/// The viewer's settings.
#[derive(Debug, Clone, PartialEq)]
pub struct Config {
    pub ui_theme: String,
    pub syntax_theme: String,
    pub font_size: i32,
    pub tab_width: i32,
    pub line_wrap: bool,
    pub key_unified: String,
    pub key_side_by_side: String,
    pub key_scroll_down: String,
    pub key_scroll_up: String,
    pub key_file_next: String,
    pub key_file_prev: String,
    pub key_prev_commit: String,
    pub key_next_commit: String,
}

impl Default for Config {
    /// The settings a fresh installation starts with.
    fn default() -> (r: Self)
        ensures
            r.ui_theme@ == "dark"@,
            r.syntax_theme@ == "base16-ocean.dark"@,
            r.font_size == 14,
            r.tab_width == 4,
            r.line_wrap == false,
            r.key_unified@ == "u"@,
            r.key_side_by_side@ == "s"@,
            r.key_scroll_down@ == "j"@,
            r.key_scroll_up@ == "k"@,
            r.key_file_next@ == "J"@,
            r.key_file_prev@ == "K"@,
            r.key_prev_commit@ == "["@,
            r.key_next_commit@ == "]"@,
    {
        Config {
            ui_theme: "dark".to_owned(),
            syntax_theme: "base16-ocean.dark".to_owned(),
            font_size: 14,
            tab_width: 4,
            line_wrap: false,
            key_unified: "u".to_owned(),
            key_side_by_side: "s".to_owned(),
            key_scroll_down: "j".to_owned(),
            key_scroll_up: "k".to_owned(),
            key_file_next: "J".to_owned(),
            key_file_prev: "K".to_owned(),
            key_prev_commit: "[".to_owned(),
            key_next_commit: "]".to_owned(),
        }
    }
}

} // verus!
