use stoat::actions::{EditorAction, TextPosition};
use stoat::command::edit::EditCommand;
use stoat::command::movement::MovementCommand;
use stoat::state::{CursorState, EditorState};

/// An editor over a text, driven by the keys of normal mode.
struct Editor {
    state: EditorState,
    paragraphs: Vec<usize>,
}

impl Editor {
    fn with_text(text: &str) -> Editor {
        Editor {
            state: EditorState {
                lines: text.split('\n').map(|l| l.to_string()).collect(),
                cursor: CursorState { position: TextPosition::new(0, 0), desired_column: 0 },
                tab_width: 8,
            },
            paragraphs: Vec::new(),
        }
    }

    fn with_paragraphs(mut self, starts: &[usize]) -> Editor {
        self.paragraphs = starts.to_vec();
        self
    }

    fn cursor(mut self, line: usize, column: usize) -> Editor {
        self.state.cursor.position = TextPosition::new(line, column);
        self.state.cursor.desired_column = column;
        self
    }

    fn type_keys(mut self, keys: &str) -> Editor {
        for key in keys.chars() {
            let command = match key {
                'h' => MovementCommand::Left,
                'l' => MovementCommand::Right,
                'k' => MovementCommand::Up,
                'j' => MovementCommand::Down,
                '}' => MovementCommand::NextParagraph,
                '{' => MovementCommand::PreviousParagraph,
                _ => panic!("no such key"),
            };
            match command.to_action(&self.state, &self.paragraphs) {
                EditorAction::MoveCursor { position } => {
                    self.state.cursor.position = position;
                    if !matches!(command, MovementCommand::Up | MovementCommand::Down) {
                        self.state.cursor.desired_column = position.visual_column;
                    }
                },
                other => panic!("{:?}", other),
            }
        }
        self
    }

    fn assert_cursor(self, line: usize, column: usize) -> Editor {
        assert_eq!(
            (self.state.cursor.position.line, self.state.cursor.position.column),
            (line, column)
        );
        self
    }
}

#[test]
fn cursor_movement_in_normal_mode() {
    Editor::with_text("Hello World")
        .assert_cursor(0, 0)
        .type_keys("l")
        .assert_cursor(0, 1)
        .type_keys("l")
        .assert_cursor(0, 2)
        .type_keys("h")
        .assert_cursor(0, 1)
        .type_keys("h")
        .assert_cursor(0, 0);
}

#[test]
fn keyboard_input_navigation() {
    Editor::with_text("Hello World")
        .type_keys("l")
        .assert_cursor(0, 1)
        .type_keys("l")
        .assert_cursor(0, 2)
        .type_keys("h")
        .assert_cursor(0, 1)
        .type_keys("h")
        .assert_cursor(0, 0);
}

#[test]
fn vertical_movement() {
    Editor::with_text("Line 1\nLine 2\nLine 3")
        .assert_cursor(0, 0)
        .type_keys("j")
        .assert_cursor(1, 0)
        .type_keys("j")
        .assert_cursor(2, 0)
        .type_keys("k")
        .assert_cursor(1, 0)
        .type_keys("k")
        .assert_cursor(0, 0);
}

#[test]
fn movement_at_boundaries() {
    Editor::with_text("ABC")
        .assert_cursor(0, 0)
        .type_keys("h")
        .assert_cursor(0, 0)
        .type_keys("lll")
        .assert_cursor(0, 3)
        .type_keys("l")
        .assert_cursor(0, 3);
}

#[test]
fn paragraph_navigation_basic() {
    let text = "First paragraph\nwith two lines\n\nSecond paragraph\n\nThird paragraph";
    Editor::with_text(text)
        .with_paragraphs(&[0, 32, 50])
        .assert_cursor(0, 0)
        .type_keys("}")
        .assert_cursor(3, 0)
        .type_keys("}")
        .assert_cursor(5, 0)
        .type_keys("}")
        .assert_cursor(5, 0)
        .type_keys("{")
        .assert_cursor(3, 0)
        .type_keys("{")
        .assert_cursor(0, 0)
        .type_keys("{")
        .assert_cursor(0, 0);
}

#[test]
fn paragraph_navigation_single_paragraph() {
    let text = "This is a single paragraph\nwith multiple lines\nbut no blank lines";
    Editor::with_text(text)
        .with_paragraphs(&[0])
        .assert_cursor(0, 0)
        .type_keys("}")
        .assert_cursor(0, 0)
        .type_keys("{")
        .assert_cursor(0, 0);
}

#[test]
fn paragraph_navigation_empty_lines() {
    let text = "First paragraph\n\n\n\nSecond paragraph";
    Editor::with_text(text)
        // The blank lines after the first break belong to the second one.
        .with_paragraphs(&[0, 17])
        .assert_cursor(0, 0)
        .type_keys("}")
        .assert_cursor(2, 0);
}

#[test]
fn paragraph_navigation_from_middle() {
    let text = "First paragraph\nwith two lines\n\nSecond paragraph\n\nThird paragraph";
    Editor::with_text(text)
        .with_paragraphs(&[0, 32, 50])
        .cursor(1, 5)
        .assert_cursor(1, 5)
        .type_keys("}")
        .assert_cursor(3, 0)
        .type_keys("{")
        .assert_cursor(0, 0);
}

#[test]
fn vertical_movement_keeps_the_column_over_tabs() {
    let editor = Editor::with_text("abcdefghij\n\tx\nabc").type_keys("llllllllljj");
    let p = editor.state.cursor.position;
    assert_eq!((p.line, p.column, p.byte_offset, p.visual_column), (2, 3, 3, 3));
    let editor = Editor::with_text("abcdefghij\n\tx\nabc").type_keys("lllllllllj");
    let p = editor.state.cursor.position;
    assert_eq!((p.line, p.column, p.byte_offset, p.visual_column), (1, 2, 2, 9));
}

#[test]
fn stepping_counts_characters_and_bytes() {
    let editor = Editor::with_text("éa\nb").type_keys("l");
    let p = editor.state.cursor.position;
    assert_eq!((p.line, p.column, p.byte_offset, p.visual_column), (0, 1, 2, 1));
    editor.type_keys("ll").assert_cursor(1, 0).type_keys("h").assert_cursor(0, 2);
}

#[test]
fn deleting_backwards() {
    let mut editor = Editor::with_text("é\tb\nc").cursor(0, 2);
    let deleted = |state: &EditorState| match EditCommand::DeleteChar.to_action(state) {
        Some(EditorAction::DeleteText { range }) => {
            Some((range.start.line, range.start.column, range.start.byte_offset, range.start.visual_column))
        },
        None => None,
        other => panic!("{:?}", other),
    };
    assert_eq!(deleted(&editor.state), Some((0, 1, 2, 1)));
    editor = editor.cursor(1, 0);
    assert_eq!(deleted(&editor.state), Some((0, 3, 4, 9)));
    editor = editor.cursor(0, 0);
    assert_eq!(deleted(&editor.state), None);
    editor = editor.cursor(0, 9);
    assert_eq!(deleted(&editor.state), Some((0, 8, 0, 0)));
}

#[test]
fn inserting_text() {
    let editor = Editor::with_text("abc").cursor(0, 1);
    let insert = EditCommand::InsertStr(smol_str::SmolStr::new("xyz"));
    assert_eq!(insert.clone(), insert);
    match insert.clone().to_action(&editor.state) {
        Some(EditorAction::InsertText { position, text }) => {
            assert_eq!(position, TextPosition::new(0, 1));
            assert_eq!(text, "xyz");
        },
        other => panic!("{:?}", other),
    }
    match EditCommand::InsertNewline.to_action(&editor.state) {
        Some(EditorAction::InsertText { text, .. }) => assert_eq!(text, "\n"),
        other => panic!("{:?}", other),
    }
}

#[test]
fn commands_have_names() {
    assert_eq!(MovementCommand::NextParagraph.short_name(), "NextPara");
    assert_eq!(MovementCommand::Up.description(), "Move cursor up");
    assert_eq!(EditCommand::DeleteChar.short_name(), "Backsp");
    assert_eq!(EditCommand::InsertNewline.description(), "Insert newline");
}
