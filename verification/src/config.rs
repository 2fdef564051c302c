//! The settings of the reader.

use vstd::prelude::*;

verus! {

/// How the reader looks and what it opened last.
#[derive(Debug)]
pub struct AppConfig {
    pub font_family: String,
    pub font_size: u32,
    pub theme: String,
    pub font_bold: bool,
    pub show_line_numbers: bool,
    pub word_wrap: bool,
    pub recent_files: Vec<String>,
    pub window_width: u32,
    pub window_height: u32,
}

/// What a setting is where a settings file says nothing of it and the
/// setting is on unless switched off.
pub fn default_true() -> (b: bool)
    ensures
        b,
{
    true
}

impl Default for AppConfig {
    /// The settings of a first start: Segoe UI at 14 points, not bold, on
    /// the dark theme, with line numbers, without word wrap, in a window of
    /// 1200 by 800, and no recent files.
    fn default() -> (config: Self)
        ensures
            config.font_family@ == "Segoe UI"@,
            config.font_size == 14,
            config.theme@ == "dark"@,
            !config.font_bold,
            config.show_line_numbers,
            !config.word_wrap,
            config.recent_files@.len() == 0,
            config.window_width == 1200,
            config.window_height == 800,
    {
        AppConfig {
            font_family: "Segoe UI".to_owned(),
            font_size: 14,
            theme: "dark".to_owned(),
            font_bold: false,
            show_line_numbers: default_true(),
            word_wrap: false,
            recent_files: Vec::new(),
            window_width: 1200,
            window_height: 800,
        }
    }
}

} // verus!
