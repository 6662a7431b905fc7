//! Movement commands for cursor navigation.

use crate::actions::{EditorAction, TextPosition};
use crate::processor::{
    a_byte_is_found, a_column_is_found, byte_of, byte_to_char, byte_to_visual,
    bytes_and_characters_agree, char_at_visual, char_to_byte, chars_upto, columns_fit, columns_grow,
    visual_of, visual_to_byte,
};
use crate::state::EditorState;
use crate::text::{byte_len, bytes_in, chars_of};
use vstd::prelude::*;

verus! {

/// Movement-related commands
#[derive(Debug, Clone, Copy, PartialEq, Eq, Structural)]
pub enum MovementCommand {
    /// Move cursor left one character
    Left,
    /// Move cursor right one character
    Right,
    /// Move cursor up one line
    Up,
    /// Move cursor down one line
    Down,
    /// Move to next paragraph
    NextParagraph,
    /// Move to previous paragraph
    PreviousParagraph,
}

// ---------------------------------------------------------------------------
// Where each movement leads
// ---------------------------------------------------------------------------

/// The place of character `column` of `line`, held to the line's end.
pub open spec fn place_in(line: Seq<char>, number: usize, column: usize, tab: usize) -> TextPosition {
    let k = if column <= line.len() { column as int } else { line.len() as int };
    TextPosition {
        line: number,
        column,
        byte_offset: byte_of(line, k) as usize,
        visual_column: visual_of(line, k as nat, tab as nat) as usize,
    }
}

/// One character to the left; from the start of a line to the end of the one
/// before; nowhere from the start of the text.
pub open spec fn left_of(state: EditorState) -> TextPosition {
    let pos = state.cursor.position;
    if pos.column > 0 {
        place_in(
            state.line_text(pos.line as int),
            pos.line,
            (pos.column - 1) as usize,
            state.tab_width,
        )
    } else if pos.line > 0 {
        let line = state.line_text(pos.line - 1);
        place_in(line, (pos.line - 1) as usize, line.len() as usize, state.tab_width)
    } else {
        pos
    }
}

/// One character to the right; from the end of a line to the start of the next
/// one; nowhere from the end of the text.
pub open spec fn right_of(state: EditorState) -> TextPosition {
    let pos = state.cursor.position;
    let line = state.line_text(pos.line as int);
    if pos.column < line.len() {
        place_in(line, pos.line, (pos.column + 1) as usize, state.tab_width)
    } else if pos.line + 1 < state.lines@.len() {
        TextPosition { line: (pos.line + 1) as usize, column: 0, byte_offset: 0, visual_column: 0 }
    } else {
        pos
    }
}

/// The place on line `number` nearest to the column that the cursor keeps,
/// without passing it.
pub open spec fn kept_column(state: EditorState, number: int) -> TextPosition {
    let line = state.line_text(number);
    let k = char_at_visual(line, state.cursor.desired_column as int, state.tab_width as nat, 0);
    place_in(line, number as usize, k as usize, state.tab_width)
}

/// One line up, keeping the column on screen; nowhere from the first line.
pub open spec fn up_from(state: EditorState) -> TextPosition {
    let pos = state.cursor.position;
    if pos.line > 0 {
        kept_column(state, pos.line - 1)
    } else {
        pos
    }
}

/// One line down, keeping the column on screen; nowhere from the last line.
pub open spec fn down_from(state: EditorState) -> TextPosition {
    let pos = state.cursor.position;
    if pos.line + 1 < state.lines@.len() {
        kept_column(state, pos.line + 1)
    } else {
        pos
    }
}

/// The number of lines that end in a line break or hold text: all but a last
/// one that is empty.
pub open spec fn filled_lines(state: EditorState) -> nat {
    let n = state.lines@.len();
    if n > 0 && state.lines@[n - 1]@.len() == 0 {
        (n - 1) as nat
    } else {
        n
    }
}

/// The byte offset at which line `n` starts.
pub open spec fn line_start(state: EditorState, n: nat) -> nat
    decreases n,
{
    if n == 0 {
        0
    } else {
        line_start(state, (n - 1) as nat) + byte_len(state.lines@[n - 1]@) + 1
    }
}

/// The byte offset of the cursor in the text.
pub open spec fn cursor_offset(state: EditorState) -> nat {
    let pos = state.cursor.position;
    if pos.line < filled_lines(state) {
        let line = state.lines@[pos.line as int]@;
        let k = if pos.column <= line.len() { pos.column as int } else { line.len() as int };
        line_start(state, pos.line as nat) + byte_of(line, k)
    } else {
        line_start(state, filled_lines(state))
    }
}

/// The line that the byte offset lies in, counting from line `n`, whose start
/// lies `rest` bytes before it, with how far into the line it lies. An offset
/// past the text counts from the first line.
pub open spec fn line_of(state: EditorState, rest: nat, n: nat) -> (nat, nat)
    decreases filled_lines(state) - n,
{
    if n >= filled_lines(state) {
        (0, rest)
    } else if rest <= byte_len(state.lines@[n as int]@) {
        (n, rest)
    } else {
        line_of(
            state,
            (rest - byte_len(state.lines@[n as int]@) - 1) as nat,
            n + 1,
        )
    }
}

/// The place of a byte offset of the text, in lines and characters.
pub open spec fn place_of(state: EditorState, offset: nat) -> TextPosition {
    let (n, rest) = line_of(state, offset, 0);
    let column = if n < filled_lines(state) {
        let line = state.lines@[n as int]@;
        let within = if rest <= byte_len(line) { rest } else { byte_len(line) };
        chars_upto(line, within as int, 0) as usize
    } else {
        0
    };
    TextPosition { line: n as usize, column, byte_offset: column, visual_column: column }
}

/// The first paragraph from `i` on that starts after the byte offset.
pub open spec fn paragraph_after(starts: Seq<usize>, offset: nat, i: int) -> Option<nat>
    decreases starts.len() - i,
{
    if i >= starts.len() {
        None
    } else if starts[i] > offset {
        Some(starts[i] as nat)
    } else {
        paragraph_after(starts, offset, i + 1)
    }
}

/// The last of the first `n` paragraphs that starts before the byte offset.
pub open spec fn paragraph_before(starts: Seq<usize>, offset: nat, n: int) -> Option<nat>
    decreases n,
{
    if n <= 0 {
        None
    } else if starts[n - 1] < offset {
        Some(starts[n - 1] as nat)
    } else {
        paragraph_before(starts, offset, n - 1)
    }
}

/// The start of the next paragraph; nowhere from the last one.
pub open spec fn next_paragraph(state: EditorState, starts: Seq<usize>) -> TextPosition {
    match paragraph_after(starts, cursor_offset(state), 0) {
        Some(start) => place_of(state, start),
        None => state.cursor.position,
    }
}

/// The start of the paragraph before, or of the text where there is none.
pub open spec fn previous_paragraph(state: EditorState, starts: Seq<usize>) -> TextPosition {
    match paragraph_before(starts, cursor_offset(state), starts.len() as int) {
        Some(start) => place_of(state, start),
        None => TextPosition { line: 0, column: 0, byte_offset: 0, visual_column: 0 },
    }
}

/// The whole text is short enough to number its bytes.
pub open spec fn offsets_fit(state: EditorState) -> bool {
    line_start(state, state.lines@.len()) <= usize::MAX
}

/// Where the command moves the cursor to.
pub open spec fn target(command: MovementCommand, state: EditorState, starts: Seq<usize>) -> TextPosition {
    match command {
        MovementCommand::Left => left_of(state),
        MovementCommand::Right => right_of(state),
        MovementCommand::Up => up_from(state),
        MovementCommand::Down => down_from(state),
        MovementCommand::NextParagraph => next_paragraph(state, starts),
        MovementCommand::PreviousParagraph => previous_paragraph(state, starts),
    }
}

impl MovementCommand {
    /// The action of the command. `paragraphs` are the byte offsets at which
    /// the text's paragraphs start, in order.
    pub fn to_action(&self, state: &EditorState, paragraphs: &Vec<usize>) -> (action: EditorAction)
        requires
            state.wf(),
            offsets_fit(*state),
        ensures
            action == (EditorAction::MoveCursor { position: target(*self, *state, paragraphs@) }),
    {
        let position = match self {
            MovementCommand::Left => move_cursor_left(state),
            MovementCommand::Right => move_cursor_right(state),
            MovementCommand::Up => move_cursor_up(state),
            MovementCommand::Down => move_cursor_down(state),
            MovementCommand::NextParagraph => move_to_next_paragraph(state, paragraphs),
            MovementCommand::PreviousParagraph => move_to_previous_paragraph(state, paragraphs),
        };
        EditorAction::MoveCursor { position }
    }

    pub fn description(&self) -> (text: &'static str)
        ensures
            text@ == (match *self {
                MovementCommand::Left => "Move cursor left"@,
                MovementCommand::Right => "Move cursor right"@,
                MovementCommand::Up => "Move cursor up"@,
                MovementCommand::Down => "Move cursor down"@,
                MovementCommand::NextParagraph => "Move to next paragraph"@,
                MovementCommand::PreviousParagraph => "Move to previous paragraph"@,
            }),
    {
        match self {
            MovementCommand::Left => "Move cursor left",
            MovementCommand::Right => "Move cursor right",
            MovementCommand::Up => "Move cursor up",
            MovementCommand::Down => "Move cursor down",
            MovementCommand::NextParagraph => "Move to next paragraph",
            MovementCommand::PreviousParagraph => "Move to previous paragraph",
        }
    }

    pub fn short_name(&self) -> (text: &'static str)
        ensures
            text@ == (match *self {
                MovementCommand::Left => "Left"@,
                MovementCommand::Right => "Right"@,
                MovementCommand::Up => "Up"@,
                MovementCommand::Down => "Down"@,
                MovementCommand::NextParagraph => "NextPara"@,
                MovementCommand::PreviousParagraph => "PrevPara"@,
            }),
    {
        match self {
            MovementCommand::Left => "Left",
            MovementCommand::Right => "Right",
            MovementCommand::Up => "Up",
            MovementCommand::Down => "Down",
            MovementCommand::NextParagraph => "NextPara",
            MovementCommand::PreviousParagraph => "PrevPara",
        }
    }
}

/// The place of character `column` of line `number`, held to the line's end.
pub(crate) fn position_on(state: &EditorState, number: usize, column: usize) -> (p: TextPosition)
    requires
        state.wf(),
    ensures
        p == place_in(state.line_text(number as int), number, column, state.tab_width),
{
    match state.line(number) {
        Some(line) => {
            let byte: usize = char_to_byte(line, column);
            proof {
                let k = if column <= line@.len() { column as int } else { line@.len() as int };
                bytes_and_characters_agree(line@, k);
                assert(line@.take(line@.len() as int) =~= line@);
            }
            let visual: usize = byte_to_visual(line, byte, state.tab_width);
            TextPosition::new_with_byte_offset(number, column, byte, visual)
        },
        None => {
            assert(Seq::<char>::empty().take(0) =~= Seq::<char>::empty());
            TextPosition::new_with_byte_offset(number, column, 0, 0)
        },
    }
}

/// The number of characters on line `number`.
pub(crate) fn line_length(state: &EditorState, number: usize) -> (n: usize)
    ensures
        n == state.line_text(number as int).len(),
{
    match state.line(number) {
        Some(line) => chars_of(line).len(),
        None => 0,
    }
}

pub fn move_cursor_left(state: &EditorState) -> (p: TextPosition)
    requires
        state.wf(),
    ensures
        p == left_of(*state),
{
    let pos = state.cursor_position();
    if pos.column > 0 {
        position_on(state, pos.line, pos.column - 1)
    } else if pos.line > 0 {
        let length: usize = line_length(state, pos.line - 1);
        position_on(state, pos.line - 1, length)
    } else {
        pos
    }
}

pub fn move_cursor_right(state: &EditorState) -> (p: TextPosition)
    requires
        state.wf(),
    ensures
        p == right_of(*state),
{
    let pos = state.cursor_position();
    if pos.column < line_length(state, pos.line) {
        position_on(state, pos.line, pos.column + 1)
    } else if pos.line < state.line_count().saturating_sub(1) {
        TextPosition::new_with_byte_offset(pos.line + 1, 0, 0, 0)
    } else {
        pos
    }
}

/// The place on line `number` nearest to the column that the cursor keeps.
fn keep_column(state: &EditorState, number: usize) -> (p: TextPosition)
    requires
        state.wf(),
    ensures
        p == kept_column(*state, number as int),
{
    match state.line(number) {
        Some(line) => {
            let (byte, visual) = visual_to_byte(line, state.cursor.desired_column, state.tab_width);
            let column: usize = byte_to_char(line, byte);
            proof {
                bytes_and_characters_agree(
                    line@,
                    char_at_visual(
                        line@,
                        state.cursor.desired_column as int,
                        state.tab_width as nat,
                        0,
                    ) as int,
                );
            }
            TextPosition::new_with_byte_offset(number, column, byte, visual)
        },
        None => {
            assert(Seq::<char>::empty().take(0) =~= Seq::<char>::empty());
            TextPosition::new_with_byte_offset(number, 0, 0, 0)
        },
    }
}

pub fn move_cursor_up(state: &EditorState) -> (p: TextPosition)
    requires
        state.wf(),
    ensures
        p == up_from(*state),
{
    let pos = state.cursor_position();
    if pos.line > 0 {
        keep_column(state, pos.line - 1)
    } else {
        pos
    }
}

pub fn move_cursor_down(state: &EditorState) -> (p: TextPosition)
    requires
        state.wf(),
    ensures
        p == down_from(*state),
{
    let pos = state.cursor_position();
    if pos.line < state.line_count().saturating_sub(1) {
        keep_column(state, pos.line + 1)
    } else {
        pos
    }
}

fn count_filled(state: &EditorState) -> (n: usize)
    ensures
        n == filled_lines(*state),
        n <= state.lines@.len(),
{
    let n: usize = state.lines.len();
    if n > 0 && state.lines[n - 1].as_str().is_empty() {
        n - 1
    } else {
        n
    }
}

proof fn lemma_line_starts_grow(state: EditorState, i: nat, j: nat)
    requires
        i <= j,
    ensures
        line_start(state, i) <= line_start(state, j),
    decreases j,
{
    if i < j {
        lemma_line_starts_grow(state, i, (j - 1) as nat);
    }
}

fn find_cursor_offset(state: &EditorState) -> (offset: usize)
    requires
        offsets_fit(*state),
    ensures
        offset == cursor_offset(*state),
{
    let pos = state.cursor_position();
    let filled: usize = count_filled(state);
    let mut offset: usize = 0;
    let mut i: usize = 0;
    while i < filled && i < pos.line
        invariant
            offsets_fit(*state),
            filled == filled_lines(*state),
            filled <= state.lines@.len(),
            i <= filled,
            i <= pos.line,
            offset == line_start(*state, i as nat),
        decreases filled - i,
    {
        proof {
            lemma_line_starts_grow(*state, (i + 1) as nat, state.lines@.len());
        }
        offset = offset + bytes_in(state.lines[i].as_str()) + 1;
        i = i + 1;
    }
    if i < filled {
        let line = state.lines[i].as_str();
        proof {
            let k = if pos.column <= line@.len() { pos.column as int } else { line@.len() as int };
            crate::text::byte_len_grows(line@, k, line@.len() as int);
            assert(line@.take(line@.len() as int) =~= line@);
            lemma_line_starts_grow(*state, (i + 1) as nat, state.lines@.len());
        }
        offset = offset + char_to_byte(line, pos.column);
    }
    offset
}

fn find_place(state: &EditorState, start: usize) -> (p: TextPosition)
    ensures
        p == place_of(*state, start as nat),
{
    let filled: usize = count_filled(state);
    let mut n: usize = 0;
    let mut rest: usize = start;
    let mut line: usize = 0;
    let mut found: bool = false;
    while n < filled && !found
        invariant
            filled == filled_lines(*state),
            filled <= state.lines@.len(),
            n <= filled,
            found ==> line < filled && line_of(*state, start as nat, 0) == (line as nat, rest as nat),
            !found ==> line == 0 && line_of(*state, start as nat, 0) == line_of(
                *state,
                rest as nat,
                n as nat,
            ),
        decreases filled - n, if found { 0int } else { 1int },
    {
        let length: usize = bytes_in(state.lines[n].as_str());
        if rest <= length {
            line = n;
            found = true;
        } else {
            rest = rest - length - 1;
            n = n + 1;
        }
    }
    let column: usize = if line < filled {
        let text = state.lines[line].as_str();
        let length: usize = bytes_in(text);
        byte_to_char(text, if rest <= length { rest } else { length })
    } else {
        0
    };
    TextPosition::new(line, column)
}

/// `paragraphs` are the byte offsets at which the text's paragraphs start.
pub fn move_to_next_paragraph(state: &EditorState, paragraphs: &Vec<usize>) -> (p: TextPosition)
    requires
        offsets_fit(*state),
    ensures
        p == next_paragraph(*state, paragraphs@),
{
    let offset: usize = find_cursor_offset(state);
    let mut i: usize = 0;
    while i < paragraphs.len()
        invariant
            i <= paragraphs.len(),
            offset == cursor_offset(*state),
            paragraph_after(paragraphs@, offset as nat, 0) == paragraph_after(
                paragraphs@,
                offset as nat,
                i as int,
            ),
        decreases paragraphs.len() - i,
    {
        if paragraphs[i] > offset {
            return find_place(state, paragraphs[i]);
        }
        i = i + 1;
    }
    state.cursor_position()
}

/// `paragraphs` are the byte offsets at which the text's paragraphs start.
pub fn move_to_previous_paragraph(state: &EditorState, paragraphs: &Vec<usize>) -> (p: TextPosition)
    requires
        offsets_fit(*state),
    ensures
        p == previous_paragraph(*state, paragraphs@),
{
    let offset: usize = find_cursor_offset(state);
    let mut n: usize = paragraphs.len();
    while n > 0
        invariant
            n <= paragraphs.len(),
            offset == cursor_offset(*state),
            paragraph_before(paragraphs@, offset as nat, paragraphs@.len() as int)
                == paragraph_before(paragraphs@, offset as nat, n as int),
        decreases n,
    {
        if paragraphs[n - 1] < offset {
            return find_place(state, paragraphs[n - 1]);
        }
        n = n - 1;
    }
    TextPosition::new(0, 0)
}

// ---------------------------------------------------------------------------
// Laws
// ---------------------------------------------------------------------------

/// The cursor stands on a line of the text, at a character or at its end.
pub open spec fn inside(state: EditorState, pos: TextPosition) -> bool {
    pos.line < state.lines@.len() && pos.column <= state.lines@[pos.line as int]@.len()
}

/// Single steps keep the cursor inside the text.
pub proof fn steps_stay_inside(state: EditorState)
    requires
        state.wf(),
        inside(state, state.cursor.position),
        forall|i: int|
            0 <= i < state.lines@.len() ==> (#[trigger] state.lines@[i])@.len() <= usize::MAX,
    ensures
        inside(state, left_of(state)),
        inside(state, right_of(state)),
        state.lines@.len() <= usize::MAX ==> inside(state, up_from(state)) && inside(
            state,
            down_from(state),
        ),
{
    let pos = state.cursor.position;
    if pos.line > 0 {
        lemma_char_at_visual(
            state.lines@[pos.line - 1]@,
            state.cursor.desired_column as int,
            state.tab_width as nat,
            0,
        );
    }
    if pos.line + 1 < state.lines@.len() {
        lemma_char_at_visual(
            state.lines@[pos.line + 1]@,
            state.cursor.desired_column as int,
            state.tab_width as nat,
            0,
        );
    }
}

proof fn lemma_char_at_visual(line: Seq<char>, visual: int, tab: nat, k: nat)
    requires
        k <= line.len(),
    ensures
        char_at_visual(line, visual, tab, k) <= line.len(),
    decreases line.len() - k,
{
    if k < line.len() && visual_of(line, k + 1, tab) <= visual {
        lemma_char_at_visual(line, visual, tab, k + 1);
    }
}

/// A step to the right and then one to the left lead back to the same line and
/// column, wherever the step to the right leads anywhere.
pub proof fn left_undoes_right(state: EditorState, moved: EditorState)
    requires
        inside(state, state.cursor.position),
        moved.lines == state.lines,
        moved.tab_width == state.tab_width,
        moved.cursor.position == right_of(state),
        right_of(state) != state.cursor.position,
        state.lines@.len() <= usize::MAX,
        state.lines@[state.cursor.position.line as int]@.len() <= usize::MAX,
    ensures
        left_of(moved).line == state.cursor.position.line,
        left_of(moved).column == state.cursor.position.column,
{
}

/// What a vertical step to line `number` comes to: the place furthest right on
/// it whose column on screen does not pass the one that the cursor keeps. On a
/// line without tabs that is the kept column itself, or the line's end.
pub proof fn a_vertical_step_keeps_the_column(state: EditorState, number: int, p: TextPosition)
    requires
        state.wf(),
        0 <= number < state.lines@.len(),
        number <= usize::MAX,
        p == kept_column(state, number),
    ensures
        ({
            let line = state.lines@[number]@;
            let tab = state.tab_width as nat;
            let kept = state.cursor.desired_column;
            &&& p.line == number
            &&& p.column <= line.len()
            &&& p.byte_offset == byte_len(line.take(p.column as int)) as usize
            &&& p.visual_column == visual_of(line, p.column as nat, tab)
            &&& p.visual_column <= kept
            &&& p.column < line.len() ==> kept < visual_of(line, (p.column + 1) as nat, tab)
            &&& (forall|i: int| 0 <= i < line.len() ==> #[trigger] line[i] != '\t') ==> p.column
                == p.visual_column && p.column == if kept <= line.len() {
                kept as int
            } else {
                line.len() as int
            }
        }),
{
    let line = state.lines@[number]@;
    let tab = state.tab_width as nat;
    let kept = state.cursor.desired_column as int;
    let k = char_at_visual(line, kept, tab, 0);
    a_column_is_found(line, kept, tab);
    columns_grow(line, 0, k, tab);
    assert(columns_fit(line, tab));
    assert(visual_of(line, k, tab) <= usize::MAX);
    if forall|i: int| 0 <= i < line.len() ==> #[trigger] line[i] != '\t' {
        if k < line.len() {
            columns_grow(line, 0, k + 1, tab);
        }
    }
}

/// Moving up leads to the line above, on the column that the cursor keeps;
/// from the first line it leads nowhere.
pub proof fn up_leads_to_the_line_above(state: EditorState, p: TextPosition)
    requires
        state.wf(),
        state.cursor.position.line < state.lines@.len(),
        p == up_from(state),
    ensures
        state.cursor.position.line == 0 ==> p == state.cursor.position,
        state.cursor.position.line > 0 ==> ({
            let line = state.lines@[state.cursor.position.line - 1]@;
            let tab = state.tab_width as nat;
            let kept = state.cursor.desired_column;
            &&& p.line == state.cursor.position.line - 1
            &&& p.column <= line.len()
            &&& p.byte_offset == byte_len(line.take(p.column as int)) as usize
            &&& p.visual_column == visual_of(line, p.column as nat, tab)
            &&& p.visual_column <= kept
            &&& p.column < line.len() ==> kept < visual_of(line, (p.column + 1) as nat, tab)
            &&& (forall|i: int| 0 <= i < line.len() ==> #[trigger] line[i] != '\t') ==> p.column
                == if kept <= line.len() {
                kept as int
            } else {
                line.len() as int
            }
        }),
{
    if state.cursor.position.line > 0 {
        a_vertical_step_keeps_the_column(state, state.cursor.position.line - 1, p);
    }
}

/// Moving down leads to the line below, on the column that the cursor keeps;
/// from the last line it leads nowhere.
pub proof fn down_leads_to_the_line_below(state: EditorState, p: TextPosition)
    requires
        state.wf(),
        state.cursor.position.line < state.lines@.len() <= usize::MAX,
        p == down_from(state),
    ensures
        state.cursor.position.line + 1 == state.lines@.len() ==> p == state.cursor.position,
        state.cursor.position.line + 1 < state.lines@.len() ==> ({
            let line = state.lines@[state.cursor.position.line + 1]@;
            let tab = state.tab_width as nat;
            let kept = state.cursor.desired_column;
            &&& p.line == state.cursor.position.line + 1
            &&& p.column <= line.len()
            &&& p.byte_offset == byte_len(line.take(p.column as int)) as usize
            &&& p.visual_column == visual_of(line, p.column as nat, tab)
            &&& p.visual_column <= kept
            &&& p.column < line.len() ==> kept < visual_of(line, (p.column + 1) as nat, tab)
            &&& (forall|i: int| 0 <= i < line.len() ==> #[trigger] line[i] != '\t') ==> p.column
                == if kept <= line.len() {
                kept as int
            } else {
                line.len() as int
            }
        }),
{
    if state.cursor.position.line + 1 < state.lines@.len() {
        a_vertical_step_keeps_the_column(state, state.cursor.position.line + 1, p);
    }
}

/// Moving down undoes moving up, for a cursor that stands on the column it
/// keeps: whatever the line above looks like, the cursor comes back to where
/// it was.
pub proof fn down_undoes_up(state: EditorState, moved: EditorState)
    requires
        state.wf(),
        inside(state, state.cursor.position),
        state.lines@.len() <= usize::MAX,
        state.cursor.position.line > 0,
        state.cursor.desired_column == visual_of(
            state.lines@[state.cursor.position.line as int]@,
            state.cursor.position.column as nat,
            state.tab_width as nat,
        ),
        moved.lines == state.lines,
        moved.tab_width == state.tab_width,
        moved.cursor.position == up_from(state),
        moved.cursor.desired_column == state.cursor.desired_column,
    ensures
        down_from(moved).line == state.cursor.position.line,
        down_from(moved).column == state.cursor.position.column,
        down_from(moved).visual_column == state.cursor.desired_column,
{
    let pos = state.cursor.position;
    let line = state.lines@[pos.line as int]@;
    let tab = state.tab_width as nat;
    let p = down_from(moved);
    up_leads_to_the_line_above(state, moved.cursor.position);
    assert(moved.wf());
    down_leads_to_the_line_below(moved, p);
    if p.column < pos.column {
        columns_grow(line, (p.column + 1) as nat, pos.column as nat, tab);
    } else {
        columns_grow(line, pos.column as nat, p.column as nat, tab);
    }
}

/// Moving left goes one character back, over the start of a line to the end of
/// the one before; from the start of the text it leads nowhere.
pub proof fn left_goes_one_character_back(state: EditorState, p: TextPosition)
    requires
        state.wf(),
        inside(state, state.cursor.position),
        p == left_of(state),
    ensures
        ({
            let pos = state.cursor.position;
            let line = state.lines@[p.line as int]@;
            if pos.column == 0 && pos.line == 0 {
                p == pos
            } else {
                &&& if pos.column > 0 {
                    p.line == pos.line && p.column == pos.column - 1
                } else {
                    p.line == pos.line - 1 && p.column == line.len()
                }
                &&& p.byte_offset == byte_len(line.take(p.column as int)) as usize
                &&& p.visual_column == visual_of(line, p.column as nat, state.tab_width as nat)
            }
        }),
{
    let pos = state.cursor.position;
    let number = if pos.column > 0 { pos.line as int } else { pos.line - 1 };
    if number >= 0 {
        let line = state.lines@[number]@;
        assert(columns_fit(line, state.tab_width as nat));
        columns_grow(line, 0, line.len(), state.tab_width as nat);
        assert(visual_of(line, line.len(), state.tab_width as nat) <= usize::MAX);
        if pos.column > 0 {
            assert(visual_of(line, (pos.column - 1) as nat, state.tab_width as nat) <= usize::MAX);
        }
    }
}

/// Moving right goes one character on, over the end of a line to the start of
/// the next; from the end of the text it leads nowhere.
pub proof fn right_goes_one_character_on(state: EditorState, p: TextPosition)
    requires
        state.wf(),
        inside(state, state.cursor.position),
        state.lines@.len() <= usize::MAX,
        p == right_of(state),
    ensures
        ({
            let pos = state.cursor.position;
            let here = state.lines@[pos.line as int]@;
            if pos.column < here.len() {
                &&& p.line == pos.line && p.column == pos.column + 1
                &&& p.byte_offset == byte_len(here.take(p.column as int)) as usize
                &&& p.visual_column == visual_of(here, p.column as nat, state.tab_width as nat)
            } else if pos.line + 1 < state.lines@.len() {
                p.line == pos.line + 1 && p.column == 0 && p.byte_offset == 0 && p.visual_column
                    == 0
            } else {
                p == pos
            }
        }),
{
    let pos = state.cursor.position;
    let line = state.lines@[pos.line as int]@;
    assert(columns_fit(line, state.tab_width as nat));
    columns_grow(line, 0, line.len(), state.tab_width as nat);
    assert(visual_of(line, line.len(), state.tab_width as nat) <= usize::MAX);
    if pos.column < line.len() {
        assert(visual_of(line, (pos.column + 1) as nat, state.tab_width as nat) <= usize::MAX);
    }
}

/// Each line starts behind the line before it and its line break, the first at
/// the start of the text.
pub proof fn line_starts_follow_each_other(state: EditorState, n: nat)
    requires
        n < state.lines@.len(),
    ensures
        line_start(state, 0) == 0,
        line_start(state, n + 1) == line_start(state, n) + byte_len(state.lines@[n as int]@) + 1,
{
}

/// The cursor's offset is that of its line and of its characters before it.
pub proof fn the_offset_counts_what_is_before(state: EditorState)
    requires
        inside(state, state.cursor.position),
        state.lines@[state.cursor.position.line as int]@.len() > 0 || state.cursor.position.line + 1
            < state.lines@.len(),
    ensures
        cursor_offset(state) == line_start(state, state.cursor.position.line as nat) + byte_len(
            state.lines@[state.cursor.position.line as int]@.take(
                state.cursor.position.column as int,
            ),
        ),
{
}

/// An offset within line `n` is placed on that line, at the character that it
/// lies in.
pub proof fn an_offset_is_placed_on_its_line(state: EditorState, offset: nat, n: nat, p: TextPosition)
    requires
        n < state.lines@.len() <= usize::MAX,
        state.lines@[n as int]@.len() > 0 || n + 1 < state.lines@.len(),
        state.lines@[n as int]@.len() <= usize::MAX,
        line_start(state, n) <= offset <= line_start(state, n) + byte_len(state.lines@[n as int]@),
        p == place_of(state, offset),
    ensures
        p.line == n,
        p.column <= state.lines@[n as int]@.len(),
        line_start(state, n) + byte_len(state.lines@[n as int]@.take(p.column as int)) <= offset,
        p.column < state.lines@[n as int]@.len() ==> offset < line_start(state, n) + byte_len(
            state.lines@[n as int]@.take(p.column + 1),
        ),
{
    lemma_line_of(state, offset, offset, 0, n);
    a_byte_is_found(state.lines@[n as int]@, offset - line_start(state, n));
}

proof fn lemma_line_of(state: EditorState, offset: nat, rest: nat, m: nat, n: nat)
    requires
        m <= n < filled_lines(state),
        line_start(state, n) <= offset <= line_start(state, n) + byte_len(state.lines@[n as int]@),
        rest + line_start(state, m) == offset,
    ensures
        line_of(state, rest, m) == (n, (offset - line_start(state, n)) as nat),
    decreases n - m,
{
    if m < n {
        lemma_line_starts_grow(state, m + 1, n);
        assert(line_start(state, m + 1) == line_start(state, m) + byte_len(state.lines@[m as int]@)
            + 1);
        lemma_line_of(
            state,
            offset,
            (rest - byte_len(state.lines@[m as int]@) - 1) as nat,
            m + 1,
            n,
        );
    }
}

proof fn lemma_paragraph_after(starts: Seq<usize>, offset: nat, from: int)
    requires
        0 <= from <= starts.len(),
    ensures
        match paragraph_after(starts, offset, from) {
            Some(start) => exists|i: int|
                from <= i < starts.len() && #[trigger] starts[i] == start && start > offset
                    && forall|j: int| from <= j < i ==> #[trigger] starts[j] <= offset,
            None => forall|j: int| from <= j < starts.len() ==> #[trigger] starts[j] <= offset,
        },
    decreases starts.len() - from,
{
    if from < starts.len() {
        if starts[from] > offset {
            assert(starts[from] == starts[from]);
        } else {
            lemma_paragraph_after(starts, offset, from + 1);
            match paragraph_after(starts, offset, from) {
                Some(start) => {
                    let i = choose|i: int|
                        from + 1 <= i < starts.len() && #[trigger] starts[i] == start && start
                            > offset && forall|j: int|
                            from + 1 <= j < i ==> #[trigger] starts[j] <= offset;
                    assert(starts[i] == start);
                },
                None => {},
            }
        }
    }
}

proof fn lemma_paragraph_before(starts: Seq<usize>, offset: nat, n: int)
    requires
        0 <= n <= starts.len(),
    ensures
        match paragraph_before(starts, offset, n) {
            Some(start) => exists|i: int|
                0 <= i < n && #[trigger] starts[i] == start && start < offset && forall|j: int|
                    i < j < n ==> #[trigger] starts[j] >= offset,
            None => forall|j: int| 0 <= j < n ==> #[trigger] starts[j] >= offset,
        },
    decreases n,
{
    if n > 0 {
        if starts[n - 1] < offset {
            assert(starts[n - 1] == starts[n - 1]);
        } else {
            lemma_paragraph_before(starts, offset, n - 1);
            match paragraph_before(starts, offset, n) {
                Some(start) => {
                    let i = choose|i: int|
                        0 <= i < n - 1 && #[trigger] starts[i] == start && start < offset
                            && forall|j: int| i < j < n - 1 ==> #[trigger] starts[j] >= offset;
                    assert(starts[i] == start);
                },
                None => {},
            }
        }
    }
}

/// The next paragraph is the nearest that starts behind the cursor; where none
/// does, the cursor stays. `starts` are in order.
pub proof fn the_next_paragraph_is_the_nearest_behind(
    state: EditorState,
    starts: Seq<usize>,
    p: TextPosition,
)
    requires
        forall|i: int, j: int|
            0 <= i <= j < starts.len() ==> #[trigger] starts[i] <= #[trigger] starts[j],
        p == next_paragraph(state, starts),
    ensures
        (forall|j: int| 0 <= j < starts.len() ==> #[trigger] starts[j] <= cursor_offset(state))
            ==> p == state.cursor.position,
        forall|j: int|
            0 <= j < starts.len() && #[trigger] starts[j] > cursor_offset(state) ==> exists|i: int|
                0 <= i <= j && #[trigger] starts[i] > cursor_offset(state) && starts[i] <= starts[j]
                    && p == place_of(state, starts[i] as nat) && forall|k: int|
                    0 <= k < starts.len() && #[trigger] starts[k] > cursor_offset(state)
                        ==> starts[i] <= starts[k],
{
    let offset = cursor_offset(state);
    lemma_paragraph_after(starts, offset, 0);
    match paragraph_after(starts, offset, 0) {
        Some(start) => {
            let i = choose|i: int|
                0 <= i < starts.len() && #[trigger] starts[i] == start && start > offset
                    && forall|j: int| 0 <= j < i ==> #[trigger] starts[j] <= offset;
            assert(starts[i] > offset);
            assert forall|k: int| 0 <= k < starts.len() && #[trigger] starts[k] > offset implies i
                <= k && starts[i] <= starts[k] by {
                if k < i {
                    assert(starts[k] <= offset);
                }
            }
        },
        None => {},
    }
}

/// The previous paragraph is the nearest that starts before the cursor; where
/// none does, the cursor goes to the start of the text. `starts` are in order.
pub proof fn the_previous_paragraph_is_the_nearest_before(
    state: EditorState,
    starts: Seq<usize>,
    p: TextPosition,
)
    requires
        forall|i: int, j: int|
            0 <= i <= j < starts.len() ==> #[trigger] starts[i] <= #[trigger] starts[j],
        p == previous_paragraph(state, starts),
    ensures
        (forall|j: int| 0 <= j < starts.len() ==> #[trigger] starts[j] >= cursor_offset(state))
            ==> p.line == 0 && p.column == 0 && p.byte_offset == 0 && p.visual_column == 0,
        forall|j: int|
            0 <= j < starts.len() && #[trigger] starts[j] < cursor_offset(state) ==> exists|i: int|
                j <= i < starts.len() && #[trigger] starts[i] < cursor_offset(state) && starts[j]
                    <= starts[i] && p == place_of(state, starts[i] as nat) && forall|k: int|
                    0 <= k < starts.len() && #[trigger] starts[k] < cursor_offset(state)
                        ==> starts[k] <= starts[i],
{
    let offset = cursor_offset(state);
    lemma_paragraph_before(starts, offset, starts.len() as int);
    match paragraph_before(starts, offset, starts.len() as int) {
        Some(start) => {
            let i = choose|i: int|
                0 <= i < starts.len() && #[trigger] starts[i] == start && start < offset
                    && forall|j: int| i < j < starts.len() ==> #[trigger] starts[j] >= offset;
            assert(starts[i] < offset);
            assert forall|k: int| 0 <= k < starts.len() && #[trigger] starts[k] < offset implies k
                <= i && starts[k] <= starts[i] by {
                if k > i {
                    assert(starts[k] >= offset);
                }
            }
        },
        None => {},
    }
}

/// Each command moves its own way.
pub proof fn commands_move_their_own_way(state: EditorState, starts: Seq<usize>)
    ensures
        target(MovementCommand::Left, state, starts) == left_of(state),
        target(MovementCommand::Right, state, starts) == right_of(state),
        target(MovementCommand::Up, state, starts) == up_from(state),
        target(MovementCommand::Down, state, starts) == down_from(state),
        target(MovementCommand::NextParagraph, state, starts) == next_paragraph(state, starts),
        target(MovementCommand::PreviousParagraph, state, starts) == previous_paragraph(
            state,
            starts,
        ),
{
}

} // verus!
