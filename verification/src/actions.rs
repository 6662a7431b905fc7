//! What commands ask the editor to do.

use crate::text::same;
use vstd::prelude::*;

verus! {

/// A place in the text, in lines and columns.
#[derive(Debug, Clone, Copy, PartialEq, Eq, Structural)]
pub struct TextPosition {
    pub line: usize,
    /// Column in characters.
    pub column: usize,
    /// Byte offset in the line.
    pub byte_offset: usize,
    /// Column on screen, tabs expanded.
    pub visual_column: usize,
}

/// A stretch of text.
#[derive(Debug, Clone, Copy, PartialEq, Eq, Structural)]
pub struct TextRange {
    pub start: TextPosition,
    pub end: TextPosition,
}

/// The mode the editor is in.
#[derive(Debug, PartialEq, Eq)]
pub enum EditMode {
    Normal,
    Insert,
    Command,
    /// A mode that a configuration defines.
    Custom(String),
}

/// One thing for the editor to do.
#[derive(Debug, PartialEq, Eq)]
pub enum EditorAction {
    InsertText { position: TextPosition, text: String },
    DeleteText { range: TextRange },
    MoveCursor { position: TextPosition },
    SetMode { mode: EditMode },
    ToggleCommandInfo,
}

impl TextPosition {
    /// A place whose line holds nothing but single-byte, single-cell
    /// characters before it.
    pub fn new(line: usize, column: usize) -> (p: TextPosition)
        ensures
            p == (TextPosition { line, column, byte_offset: column, visual_column: column }),
    {
        TextPosition { line, column, byte_offset: column, visual_column: column }
    }

    pub fn new_with_byte_offset(
        line: usize,
        column: usize,
        byte_offset: usize,
        visual_column: usize,
    ) -> (p: TextPosition)
        ensures
            p == (TextPosition { line, column, byte_offset, visual_column }),
    {
        TextPosition { line, column, byte_offset, visual_column }
    }
}

impl TextRange {
    pub fn new(start: TextPosition, end: TextPosition) -> (r: TextRange)
        ensures
            r == (TextRange { start, end }),
    {
        TextRange { start, end }
    }
}

/// The name of a mode.
pub open spec fn mode_name(mode: EditMode) -> Seq<char> {
    match mode {
        EditMode::Normal => "normal"@,
        EditMode::Insert => "insert"@,
        EditMode::Command => "command"@,
        EditMode::Custom(name) => name@,
    }
}

/// `mode` is the mode that `name` names: a built-in one where it has a name of
/// those, else a custom one.
pub open spec fn is_mode_named(mode: EditMode, name: Seq<char>) -> bool {
    if name == "normal"@ {
        mode is Normal
    } else if name == "insert"@ {
        mode is Insert
    } else if name == "command"@ {
        mode is Command
    } else {
        mode matches EditMode::Custom(n) && n@ == name
    }
}

/// A mode keeps the name it was made from.
pub proof fn named_mode_keeps_its_name(mode: EditMode, name: Seq<char>)
    requires
        is_mode_named(mode, name),
    ensures
        mode_name(mode) == name,
{
}

impl EditMode {
    pub fn name(&self) -> (name: &str)
        ensures
            name@ == mode_name(*self),
    {
        match self {
            EditMode::Normal => "normal",
            EditMode::Insert => "insert",
            EditMode::Command => "command",
            EditMode::Custom(name) => name.as_str(),
        }
    }

    pub fn from_name(name: &str) -> (mode: EditMode)
        ensures
            is_mode_named(mode, name@),
    {
        if same(name, "normal") {
            EditMode::Normal
        } else if same(name, "insert") {
            EditMode::Insert
        } else if same(name, "command") {
            EditMode::Command
        } else {
            EditMode::Custom(name.to_owned())
        }
    }

    pub fn custom(name: &str) -> (mode: EditMode)
        ensures
            mode matches EditMode::Custom(n) && n@ == name@,
    {
        EditMode::Custom(name.to_owned())
    }
}

impl Clone for EditMode {
    fn clone(&self) -> (c: Self)
        ensures
            c == *self,
    {
        match self {
            EditMode::Normal => EditMode::Normal,
            EditMode::Insert => EditMode::Insert,
            EditMode::Command => EditMode::Command,
            EditMode::Custom(name) => EditMode::Custom(name.clone()),
        }
    }
}

/// Modes go by their names, those that a configuration defines by the one it
/// gives them.
pub proof fn modes_go_by_their_names(mode: EditMode)
    ensures
        mode_name(EditMode::Normal) == "normal"@,
        mode_name(EditMode::Insert) == "insert"@,
        mode_name(EditMode::Command) == "command"@,
        mode matches EditMode::Custom(name) ==> mode_name(mode) == name@,
        is_mode_named(mode, "normal"@) <==> mode is Normal,
        is_mode_named(mode, "insert"@) <==> mode is Insert,
        is_mode_named(mode, "command"@) <==> mode is Command,
{
    reveal_strlit("normal");
    reveal_strlit("insert");
    reveal_strlit("command");
    assert("normal"@[0] != "insert"@[0]);
    assert("normal"@[0] != "command"@[0]);
    assert("insert"@[0] != "command"@[0]);
}

} // verus!
