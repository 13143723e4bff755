use vstd::prelude::*;

verus! {

/// The kind of typing test a user practises by default.
#[derive(Debug, Clone, Copy, PartialEq, Eq, Structural)]
pub enum TypingTestMode {
    Words,
    Time,
    Quote,
}

/// A length class of quotes.
#[derive(Debug, Clone, Copy, PartialEq, Eq, Structural)]
pub enum QuoteModeLength {
    Short,
    Medium,
    Long,
    VeryLong,
}

/// A user's settings for practice sessions.
pub struct Preferences {
    pub current_mode: TypingTestMode,
    pub words_mode_length: u32,
    pub time_mode_duration: u32,
    pub language: String,
    pub quote_mode_min_length: u32,
    pub quote_mode_max_length: Option<u32>,
    pub max_chars_in_line: u32,
    pub show_all_lines: bool,
}

impl Default for TypingTestMode {
    fn default() -> (r: TypingTestMode)
        ensures
            r == TypingTestMode::Words,
    {
        TypingTestMode::Words
    }
}

impl Default for QuoteModeLength {
    fn default() -> (r: QuoteModeLength)
        ensures
            r == QuoteModeLength::Medium,
    {
        QuoteModeLength::Medium
    }
}

impl Default for Preferences {
    /// Words mode, every number zero, no language, no upper quote length, and
    /// only the current lines shown.
    fn default() -> (r: Preferences)
        ensures
            r.current_mode == TypingTestMode::Words,
            r.words_mode_length == 0,
            r.time_mode_duration == 0,
            r.language@ == Seq::<char>::empty(),
            r.quote_mode_min_length == 0,
            r.quote_mode_max_length == None::<u32>,
            r.max_chars_in_line == 0,
            !r.show_all_lines,
    {
        Preferences {
            current_mode: TypingTestMode::Words,
            words_mode_length: 0,
            time_mode_duration: 0,
            language: String::new(),
            quote_mode_min_length: 0,
            quote_mode_max_length: None,
            max_chars_in_line: 0,
            show_all_lines: false,
        }
    }
}

} // verus!
