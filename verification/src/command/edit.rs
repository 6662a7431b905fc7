//! Text editing commands for inserting and deleting text.

use crate::actions::{EditorAction, TextPosition, TextRange};
use crate::command::movement::{
    inside, left_goes_one_character_back, left_of, line_length, place_in, position_on,
};
use crate::processor::{byte_of, byte_to_visual, bytes_and_characters_agree, char_to_byte, visual_of};
use crate::state::EditorState;
use crate::text::{byte_len, chars_of};
use smol_str::SmolStr;
use vstd::prelude::*;

verus! {

/// `smol_str::SmolStr`, a string that is cheap to clone.
#[verifier::external_type_specification]
#[verifier::external_body]
pub struct ExSmolStr(SmolStr);

/// The characters that a `SmolStr` holds.
pub uninterp spec fn smol_chars(s: SmolStr) -> Seq<char>;

/// `SmolStr::to_string`, which writes out the string's characters: the result
/// holds those of `s`.
#[verifier::external_body]
fn smol_to_string(s: &SmolStr) -> (text: String)
    ensures
        text@ == smol_chars(*s),
{
    s.to_string()
}

/// `SmolStr::clone`, which shares or copies the string: the result holds the
/// characters of `s`.
#[verifier::external_body]
fn smol_clone(s: &SmolStr) -> (c: SmolStr)
    ensures
        smol_chars(c) == smol_chars(*s),
{
    s.clone()
}

/// Text editing commands
#[derive(Debug, PartialEq, Eq)]
pub enum EditCommand {
    /// Insert a string at cursor position
    InsertStr(SmolStr),
    /// Insert a newline at cursor position
    InsertNewline,
    /// Delete character before cursor (backspace)
    DeleteChar,
}

impl Clone for EditCommand {
    fn clone(&self) -> (c: Self)
        ensures
            match *self {
                EditCommand::InsertStr(text) => c matches EditCommand::InsertStr(copy)
                    && smol_chars(copy) == smol_chars(text),
                EditCommand::InsertNewline => c is InsertNewline,
                EditCommand::DeleteChar => c is DeleteChar,
            },
    {
        match self {
            EditCommand::InsertStr(text) => EditCommand::InsertStr(smol_clone(text)),
            EditCommand::InsertNewline => EditCommand::InsertNewline,
            EditCommand::DeleteChar => EditCommand::DeleteChar,
        }
    }
}

/// Where deleting backwards from `pos` starts: at the character before, or at
/// the end of the line before. A cursor past the end of its line finds no
/// character before it, and the deletion starts at the line's first byte.
pub open spec fn delete_start(state: EditorState, pos: TextPosition) -> TextPosition {
    if pos.column > 0 {
        let column = (pos.column - 1) as usize;
        if pos.line < state.lines@.len() {
            let line = state.lines@[pos.line as int]@;
            let k = if column < line.len() { column as int } else { 0 };
            TextPosition {
                line: pos.line,
                column,
                byte_offset: byte_of(line, k) as usize,
                visual_column: visual_of(line, k as nat, state.tab_width as nat) as usize,
            }
        } else {
            TextPosition { line: pos.line, column, byte_offset: column, visual_column: column }
        }
    } else {
        let line = state.line_text(pos.line - 1);
        place_in(line, (pos.line - 1) as usize, line.len() as usize, state.tab_width)
    }
}

/// Deletion of the character before the cursor, or of the line break before
/// it; nothing at the start of the text.
pub fn delete_char_action(state: &EditorState) -> (action: Option<EditorAction>)
    requires
        state.wf(),
    ensures
        ({
            let pos = state.cursor.position;
            if pos.line > 0 || pos.column > 0 {
                action == Some(
                    EditorAction::DeleteText {
                        range: TextRange { start: delete_start(*state, pos), end: pos },
                    },
                )
            } else {
                action is None
            }
        }),
{
    let pos = state.cursor_position();
    if pos.line == 0 && pos.column == 0 {
        return None;
    }
    let start: TextPosition = if pos.column > 0 {
        let column: usize = pos.column - 1;
        match state.line(pos.line) {
            Some(line) => {
                let count: usize = chars_of(line).len();
                let k: usize = if column < count { column } else { 0 };
                let byte: usize = char_to_byte(line, k);
                proof {
                    bytes_and_characters_agree(line@, k as int);
                }
                let visual: usize = byte_to_visual(line, byte, state.tab_width);
                TextPosition::new_with_byte_offset(pos.line, column, byte, visual)
            },
            None => TextPosition::new(pos.line, column),
        }
    } else {
        let length: usize = line_length(state, pos.line - 1);
        position_on(state, pos.line - 1, length)
    };
    Some(EditorAction::DeleteText { range: TextRange::new(start, pos) })
}

impl EditCommand {
    pub fn to_action(&self, state: &EditorState) -> (action: Option<EditorAction>)
        requires
            state.wf(),
        ensures
            match *self {
                EditCommand::InsertStr(text) => action matches Some(
                    EditorAction::InsertText { position, text: inserted },
                ) && position == state.cursor.position && inserted@ == smol_chars(text),
                EditCommand::InsertNewline => action matches Some(
                    EditorAction::InsertText { position, text: inserted },
                ) && position == state.cursor.position && inserted@ == "\n"@,
                EditCommand::DeleteChar => ({
                    let pos = state.cursor.position;
                    if pos.line > 0 || pos.column > 0 {
                        action == Some(
                            EditorAction::DeleteText {
                                range: TextRange { start: delete_start(*state, pos), end: pos },
                            },
                        )
                    } else {
                        action is None
                    }
                }),
            },
    {
        match self {
            EditCommand::InsertStr(text) => Some(
                EditorAction::InsertText { position: state.cursor_position(), text: smol_to_string(text) },
            ),
            EditCommand::InsertNewline => Some(
                EditorAction::InsertText {
                    position: state.cursor_position(),
                    text: "\n".to_owned(),
                },
            ),
            EditCommand::DeleteChar => delete_char_action(state),
        }
    }

    pub fn description(&self) -> (text: &'static str)
        ensures
            text@ == (match *self {
                EditCommand::InsertStr(_) => "Insert text"@,
                EditCommand::InsertNewline => "Insert newline"@,
                EditCommand::DeleteChar => "Delete character"@,
            }),
    {
        match self {
            EditCommand::InsertStr(_) => "Insert text",
            EditCommand::InsertNewline => "Insert newline",
            EditCommand::DeleteChar => "Delete character",
        }
    }

    pub fn short_name(&self) -> (text: &'static str)
        ensures
            text@ == (match *self {
                EditCommand::InsertStr(_) => "Insert"@,
                EditCommand::InsertNewline => "Enter"@,
                EditCommand::DeleteChar => "Backsp"@,
            }),
    {
        match self {
            EditCommand::InsertStr(_) => "Insert",
            EditCommand::InsertNewline => "Enter",
            EditCommand::DeleteChar => "Backsp",
        }
    }
}

// ---------------------------------------------------------------------------
// Laws
// ---------------------------------------------------------------------------

/// Deleting backwards takes away what a step to the left passes over: the
/// character before the cursor, or the line break before the line. It ends at
/// the cursor, and at the start of the text there is nothing to delete.
pub proof fn backspace_deletes_what_left_passes_over(
    state: EditorState,
    start: TextPosition,
)
    requires
        state.wf(),
        inside(state, state.cursor.position),
        start == delete_start(state, state.cursor.position),
        state.cursor.position.line > 0 || state.cursor.position.column > 0,
    ensures
        start == left_of(state),
        ({
            let pos = state.cursor.position;
            let line = state.lines@[start.line as int]@;
            &&& if pos.column > 0 {
                start.line == pos.line && start.column == pos.column - 1
            } else {
                start.line == pos.line - 1 && start.column == line.len()
            }
            &&& start.byte_offset == byte_len(line.take(start.column as int)) as usize
            &&& start.visual_column == visual_of(line, start.column as nat, state.tab_width as nat)
        }),
{
    left_goes_one_character_back(state, left_of(state));
}

} // verus!
