//! Shared plain types: the parsed command line, the session mode, the
//! error kinds, and terminal coordinates.

use vstd::prelude::*;

verus! {

/// The command-line input: an optional description to look up directly.
/// When absent, the interactive session runs instead.
pub struct Args {
    pub description: Option<String>,
}

/// What the interactive session is doing: taking search input, or letting
/// the user pick one of the displayed suggestions. Only the selecting
/// state carries a selection index, so no stale index can exist while
/// searching.
#[derive(Debug, PartialEq, Eq, Structural, Clone, Copy)]
pub enum ApplicationMode {
    /// The user is typing characters to search for an emoji.
    Search,
    /// The user is choosing among the suggestions; `current_selection`
    /// indexes the suggestion list.
    Select { current_selection: usize },
}

/// Everything that can go wrong outside the session itself.
#[derive(Debug)]
pub enum EmojiError {
    /// The terminal could not be switched to raw mode.
    CannotEnterRawMode,
    /// The persisted index blob could not be read.
    IoError { filename: String },
    /// The persisted index blob was read but does not decode.
    CannotDeserializeBKTree { filename: String },
    /// A direct lookup found no entry with the given description.
    InvalidEmojiName { description: String },
    /// The chosen emoji could not be written to the clipboard.
    CannotCopyEmojiToClipboard { emoji: String },
}

/// A position on the terminal surface, tracked by the presenter.
#[derive(Debug, Clone, Copy)]
pub struct Coordinates {
    pub x: usize,
    pub y: usize,
}

impl Coordinates {
    /// The column, truncated to the width the terminal API takes.
    pub fn x(&self) -> (r: u16)
        ensures
            r == self.x as u16,
    {
        #[verifier::truncate] (self.x as u16)
    }

    /// The row, truncated to the width the terminal API takes.
    pub fn y(&self) -> (r: u16)
        ensures
            r == self.y as u16,
    {
        #[verifier::truncate] (self.y as u16)
    }
}

} // verus!
