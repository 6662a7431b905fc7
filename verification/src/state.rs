//! The text being edited and where the cursor stands in it.

use crate::actions::TextPosition;
use crate::processor::columns_fit;
use vstd::prelude::*;

verus! {

/// The cursor: where it is, and the column on screen that vertical movement
/// tries to keep.
#[derive(Debug, Clone, Copy, PartialEq, Eq, Structural)]
pub struct CursorState {
    pub position: TextPosition,
    pub desired_column: usize,
}

/// The text being edited, line by line without line ends, and the cursor.
#[derive(Debug, PartialEq, Eq)]
pub struct EditorState {
    pub lines: Vec<String>,
    pub cursor: CursorState,
    /// Columns from one tab stop to the next.
    pub tab_width: usize,
}

impl EditorState {
    /// There are tab stops, and every line is narrow enough to number its
    /// columns.
    pub open spec fn wf(&self) -> bool {
        &&& self.tab_width > 0
        &&& forall|i: int|
            0 <= i < self.lines@.len() ==> columns_fit(
                (#[trigger] self.lines@[i])@,
                self.tab_width as nat,
            )
    }

    /// The text of line `i`; empty past the end.
    pub open spec fn line_text(&self, i: int) -> Seq<char> {
        if 0 <= i < self.lines@.len() {
            self.lines@[i]@
        } else {
            Seq::empty()
        }
    }

    pub fn cursor_position(&self) -> (p: TextPosition)
        ensures
            p == self.cursor.position,
    {
        self.cursor.position
    }

    pub fn line(&self, i: usize) -> (line: Option<&str>)
        ensures
            match line {
                Some(l) => i < self.lines@.len() && l@ == self.lines@[i as int]@,
                None => i >= self.lines@.len(),
            },
    {
        if i < self.lines.len() {
            Some(self.lines[i].as_str())
        } else {
            None
        }
    }

    pub fn line_count(&self) -> (n: usize)
        ensures
            n == self.lines@.len(),
    {
        self.lines.len()
    }
}

} // verus!
