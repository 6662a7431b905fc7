//! Commands: what a key or a menu entry stands for.

pub mod app;
pub mod edit;
pub mod infobox;
pub mod mode;
pub mod movement;

use vstd::prelude::*;

verus! {

/// A command that a key can be bound to.
#[derive(Debug, Clone, Copy, PartialEq, Eq, Structural)]
pub enum Command {
    MoveCursorLeft,
    MoveCursorRight,
    MoveCursorUp,
    MoveCursorDown,
    EnterInsertMode,
    EnterNormalMode,
    EnterCommandMode,
    DeleteChar,
    DeleteLine,
    DeleteWord,
    InsertNewline,
    Exit,
    ToggleCommandInfo,
    InsertChar,
    Help,
}

} // verus!
