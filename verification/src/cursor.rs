//! Cursor and selection management for the editor.
//!
//! Cursors track positions in the buffer and manage selection ranges, enabling
//! text editing operations and visual feedback.

use std::ops::Range;
use vstd::prelude::*;

verus! {

/// A place in a buffer.
#[derive(Debug, Clone, Copy, PartialEq, Eq, Structural)]
pub struct Point {
    pub row: u32,
    pub column: u32,
}

/// `a` stands before `b` in the text.
pub open spec fn point_before(a: Point, b: Point) -> bool {
    a.row < b.row || (a.row == b.row && a.column < b.column)
}

/// The first of two points.
pub open spec fn earlier(a: Point, b: Point) -> Point {
    if point_before(b, a) {
        b
    } else {
        a
    }
}

/// The last of two points.
pub open spec fn later(a: Point, b: Point) -> Point {
    if point_before(b, a) {
        a
    } else {
        b
    }
}

impl Point {
    pub fn new(row: u32, column: u32) -> (p: Self)
        ensures
            p == (Point { row, column }),
    {
        Point { row, column }
    }

    /// Whether this point stands before `other`.
    pub fn is_before(&self, other: &Point) -> (r: bool)
        ensures
            r == point_before(*self, *other),
    {
        self.row < other.row || (self.row == other.row && self.column < other.column)
    }
}

/// A single cursor position in the buffer.
#[derive(Debug, Clone, Copy, PartialEq, Eq, Structural)]
pub struct Cursor {
    /// Current position in the buffer.
    pub position: Point,
    /// Goal column for vertical movement; maintains horizontal position when
    /// possible.
    pub goal_column: Option<u32>,
}

/// The cursor after a move to `position`.
pub open spec fn moved(cursor: Cursor, position: Point, preserve_goal_column: bool) -> Cursor {
    Cursor {
        position,
        goal_column: if preserve_goal_column {
            cursor.goal_column
        } else {
            Some(position.column)
        },
    }
}

/// The column that vertical movement aims for.
pub open spec fn goal(cursor: Cursor) -> u32 {
    match cursor.goal_column {
        Some(column) => column,
        None => cursor.position.column,
    }
}

impl Cursor {
    /// Create a new cursor at the given position.
    pub fn new(position: Point) -> (c: Self)
        ensures
            c == (Cursor { position, goal_column: None }),
    {
        Cursor { position, goal_column: None }
    }

    /// Create a cursor at the origin (0, 0).
    pub fn at_origin() -> (c: Self)
        ensures
            c == (Cursor { position: Point { row: 0, column: 0 }, goal_column: None }),
    {
        Cursor::new(Point::new(0, 0))
    }

    /// Update the cursor position, preserving goal column for vertical moves.
    pub fn move_to(&mut self, position: Point, preserve_goal_column: bool)
        ensures
            *final(self) == moved(*old(self), position, preserve_goal_column),
    {
        self.position = position;
        if !preserve_goal_column {
            self.goal_column = Some(position.column);
        }
    }

    /// Set the goal column explicitly (used for vertical movement).
    pub fn set_goal_column(&mut self, column: u32)
        ensures
            *final(self) == (Cursor { goal_column: Some(column), ..*old(self) }),
    {
        self.goal_column = Some(column);
    }

    /// Get the goal column, falling back to current column.
    pub fn goal_column(&self) -> (column: u32)
        ensures
            column == goal(*self),
    {
        match self.goal_column {
            Some(column) => column,
            None => self.position.column,
        }
    }
}

/// A text selection range with directional information.
#[derive(Debug, Clone, Copy, PartialEq, Eq, Structural)]
pub struct Selection {
    /// Selection start point.
    pub start: Point,
    /// Selection end point (cursor position).
    pub end: Point,
    /// Whether the selection was made backwards (end < start visually).
    pub reversed: bool,
}

/// A selection of nothing at `position`.
pub open spec fn collapsed_at(position: Point) -> Selection {
    Selection { start: position, end: position, reversed: false }
}

/// The end of a selection that moves.
pub open spec fn active_end(s: Selection) -> Point {
    if s.reversed {
        s.start
    } else {
        s.end
    }
}

/// The end of a selection that stays.
pub open spec fn anchor_end(s: Selection) -> Point {
    if s.reversed {
        s.end
    } else {
        s.start
    }
}

/// The selection extended to `position`. The first extension decides the
/// direction; the moving end never comes back.
pub open spec fn extended(s: Selection, position: Point) -> Selection {
    let reversed = if s.start == s.end {
        point_before(position, s.start)
    } else {
        s.reversed
    };
    if reversed {
        Selection { start: earlier(s.start, position), end: s.end, reversed }
    } else {
        Selection { start: s.start, end: later(s.end, position), reversed }
    }
}

impl Selection {
    /// The start does not stand behind the end.
    pub open spec fn wf(&self) -> bool {
        !point_before(self.end, self.start)
    }

    /// Create a new selection from start to end.
    pub fn new(start: Point, end: Point) -> (s: Self)
        ensures
            s.wf(),
            s.start == earlier(start, end),
            s.end == later(start, end),
            s.reversed == point_before(end, start),
    {
        let reversed = end.is_before(&start);
        if reversed {
            Selection { start: end, end: start, reversed }
        } else {
            Selection { start, end, reversed }
        }
    }

    /// Create a collapsed selection (cursor) at the given position.
    pub fn cursor(position: Point) -> (s: Self)
        ensures
            s == collapsed_at(position),
    {
        Selection { start: position, end: position, reversed: false }
    }

    /// Check if the selection is collapsed (cursor only).
    pub fn is_empty(&self) -> (r: bool)
        ensures
            r == (self.start == self.end),
    {
        self.start == self.end
    }

    /// Get the cursor position (active end of selection).
    pub fn cursor_position(&self) -> (p: Point)
        ensures
            p == active_end(*self),
    {
        if self.reversed {
            self.start
        } else {
            self.end
        }
    }

    /// Get the anchor position (inactive end of selection).
    pub fn anchor_position(&self) -> (p: Point)
        ensures
            p == anchor_end(*self),
    {
        if self.reversed {
            self.end
        } else {
            self.start
        }
    }

    /// Get the selection range as start..end.
    pub fn range(&self) -> (r: Range<Point>)
        ensures
            r.start == self.start,
            r.end == self.end,
    {
        self.start..self.end
    }

    /// Extend the selection to a new position.
    pub fn extend_to(&mut self, position: Point)
        ensures
            *final(self) == extended(*old(self), position),
    {
        if self.is_empty() {
            // The first extension determines the direction.
            self.reversed = position.is_before(&self.start);
        }
        if self.reversed {
            if position.is_before(&self.start) {
                self.start = position;
            }
        } else if !position.is_before(&self.end) {
            self.end = position;
        }
    }

    /// Collapse the selection to cursor position.
    pub fn collapse(&mut self)
        ensures
            *final(self) == collapsed_at(active_end(*old(self))),
    {
        let cursor_pos = self.cursor_position();
        self.start = cursor_pos;
        self.end = cursor_pos;
        self.reversed = false;
    }

    /// Move the entire selection by an offset.
    pub fn move_by(&mut self, offset: Point)
        requires
            old(self).start.row + offset.row <= u32::MAX,
            old(self).start.column + offset.column <= u32::MAX,
            old(self).end.row + offset.row <= u32::MAX,
            old(self).end.column + offset.column <= u32::MAX,
        ensures
            final(self).start.row == old(self).start.row + offset.row,
            final(self).start.column == old(self).start.column + offset.column,
            final(self).end.row == old(self).end.row + offset.row,
            final(self).end.column == old(self).end.column + offset.column,
            final(self).reversed == old(self).reversed,
    {
        self.start = Point::new(self.start.row + offset.row, self.start.column + offset.column);
        self.end = Point::new(self.end.row + offset.row, self.end.column + offset.column);
    }
}

/// Manages cursor and selection state for the editor.
#[derive(Debug, Clone, Copy, PartialEq, Eq, Structural)]
pub struct CursorManager {
    /// Current cursor position.
    pub cursor: Cursor,
    /// Current selection (may be collapsed to cursor).
    pub selection: Selection,
    /// Whether we're in selection mode.
    pub selecting: bool,
}

/// The manager after the cursor went to `position`.
pub open spec fn arrived(
    m: CursorManager,
    position: Point,
    preserve_goal_column: bool,
) -> CursorManager {
    CursorManager {
        cursor: moved(m.cursor, position, preserve_goal_column),
        selection: if m.selecting {
            extended(m.selection, position)
        } else {
            collapsed_at(position)
        },
        selecting: m.selecting,
    }
}

/// A manager at the origin.
pub open spec fn at_rest() -> CursorManager {
    let origin = Point { row: 0, column: 0 };
    CursorManager {
        cursor: Cursor { position: origin, goal_column: None },
        selection: collapsed_at(origin),
        selecting: false,
    }
}

impl CursorManager {
    /// Create a new cursor manager at origin.
    pub fn new() -> (m: Self)
        ensures
            m == at_rest(),
    {
        let cursor = Cursor::at_origin();
        let selection = Selection::cursor(cursor.position);
        CursorManager { cursor, selection, selecting: false }
    }

    /// Get the current cursor.
    pub fn cursor(&self) -> (c: &Cursor)
        ensures
            *c == self.cursor,
    {
        &self.cursor
    }

    /// Get the current selection.
    pub fn selection(&self) -> (s: &Selection)
        ensures
            *s == self.selection,
    {
        &self.selection
    }

    /// Check if actively selecting text.
    pub fn is_selecting(&self) -> (r: bool)
        ensures
            r == self.selecting,
    {
        self.selecting
    }

    /// Move cursor to a new position.
    pub fn move_to(&mut self, position: Point)
        ensures
            *final(self) == arrived(*old(self), position, false),
    {
        self.cursor.move_to(position, false);
        if self.selecting {
            self.selection.extend_to(position);
        } else {
            self.selection = Selection::cursor(position);
        }
    }

    /// Move cursor preserving goal column (for vertical movement).
    pub fn move_to_with_goal(&mut self, position: Point)
        ensures
            *final(self) == arrived(*old(self), position, true),
    {
        self.cursor.move_to(position, true);
        if self.selecting {
            self.selection.extend_to(position);
        } else {
            self.selection = Selection::cursor(position);
        }
    }

    /// Start selection mode at current position.
    pub fn start_selection(&mut self)
        ensures
            *final(self) == (CursorManager {
                selection: collapsed_at(old(self).cursor.position),
                selecting: true,
                ..*old(self)
            }),
    {
        self.selecting = true;
        self.selection = Selection::cursor(self.cursor.position);
    }

    /// End selection mode.
    pub fn end_selection(&mut self)
        ensures
            *final(self) == (CursorManager { selecting: false, ..*old(self) }),
    {
        self.selecting = false;
    }

    /// Clear selection and move cursor to position.
    pub fn clear_selection_and_move_to(&mut self, position: Point)
        ensures
            *final(self) == (CursorManager {
                cursor: moved(old(self).cursor, position, false),
                selection: collapsed_at(position),
                selecting: false,
            }),
    {
        self.selecting = false;
        self.cursor.move_to(position, false);
        self.selection = Selection::cursor(position);
    }

    /// Get cursor position.
    pub fn position(&self) -> (p: Point)
        ensures
            p == self.cursor.position,
    {
        self.cursor.position
    }

    /// Get goal column for vertical movement.
    pub fn goal_column(&self) -> (column: u32)
        ensures
            column == goal(self.cursor),
    {
        self.cursor.goal_column()
    }

    /// Set goal column explicitly.
    pub fn set_goal_column(&mut self, column: u32)
        ensures
            *final(self) == (CursorManager {
                cursor: Cursor { goal_column: Some(column), ..old(self).cursor },
                ..*old(self)
            }),
    {
        self.cursor.set_goal_column(column);
    }

    /// Set selection directly.
    pub fn set_selection(&mut self, selection: Selection)
        ensures
            *final(self) == (CursorManager {
                cursor: moved(old(self).cursor, active_end(selection), false),
                selection,
                ..*old(self)
            }),
    {
        let cursor_pos = selection.cursor_position();
        self.selection = selection;
        self.cursor.move_to(cursor_pos, false);
    }
}

impl Default for CursorManager {
    fn default() -> (m: Self)
        ensures
            m == at_rest(),
    {
        CursorManager::new()
    }
}

/// Extending a selection leaves its anchor where it is, keeps its ends in
/// order, and never lets go of a point that was selected.
pub proof fn extension_keeps_the_anchor(s: Selection, position: Point, inside: Point)
    requires
        s.wf(),
        !point_before(inside, s.start),
        !point_before(s.end, inside),
    ensures
        extended(s, position).wf(),
        anchor_end(extended(s, position)) == anchor_end(s),
        !point_before(inside, extended(s, position).start),
        !point_before(extended(s, position).end, inside),
{
}

/// A move outside selection mode leaves nothing selected, with the cursor at
/// the place moved to.
pub proof fn a_plain_move_selects_nothing(m: CursorManager, position: Point, keep_goal: bool)
    requires
        !m.selecting,
    ensures
        arrived(m, position, keep_goal).selection == collapsed_at(position),
        arrived(m, position, keep_goal).cursor.position == position,
{
}

/// While selecting, the place where the selection started stays one of its
/// ends, however often the cursor moves.
pub proof fn selecting_holds_on_to_its_start(m: CursorManager, position: Point, keep_goal: bool)
    requires
        m.selecting,
        m.selection.wf(),
    ensures
        anchor_end(arrived(m, position, keep_goal).selection) == anchor_end(m.selection),
        arrived(m, position, keep_goal).selecting,
        arrived(m, position, keep_goal).selection.wf(),
{
}

/// A selection made from one point to another spans what lies between them,
/// whichever comes first in the text: it is anchored at the one, and the cursor
/// stands at the other.
pub proof fn a_selection_spans_its_points(s: Selection, from: Point, to: Point)
    requires
        s.start == earlier(from, to),
        s.end == later(from, to),
        s.reversed == point_before(to, from),
    ensures
        anchor_end(s) == from,
        active_end(s) == to,
        s.start.row < s.end.row || s.start.row == s.end.row && s.start.column <= s.end.column,
        s.reversed <==> to.row < from.row || to.row == from.row && to.column < from.column,
{
}

/// Extending an empty selection to a point selects what lies between, with the
/// cursor at the point. One that is not empty grows on the cursor's side as far
/// as the point, and does not shrink.
pub proof fn extending_reaches_the_point(s: Selection, position: Point)
    requires
        s.wf(),
    ensures
        s.start == s.end ==> active_end(extended(s, position)) == position && anchor_end(
            extended(s, position),
        ) == s.start,
        s.start != s.end && !s.reversed ==> !extended(s, position).reversed && extended(
            s,
            position,
        ).start == s.start && extended(s, position).end == (if position.row > s.end.row
            || position.row == s.end.row && position.column > s.end.column {
            position
        } else {
            s.end
        }),
        s.start != s.end && s.reversed ==> extended(s, position).reversed && extended(
            s,
            position,
        ).end == s.end && extended(s, position).start == (if position.row < s.start.row
            || position.row == s.start.row && position.column < s.start.column {
            position
        } else {
            s.start
        }),
{
}

/// A move takes the cursor to the point. The column that vertical movement
/// tries to keep becomes the point's, unless it is to be kept; without one the
/// cursor's own column is kept.
pub proof fn a_move_goes_to_the_point(cursor: Cursor, position: Point, keep: bool)
    ensures
        moved(cursor, position, keep).position == position,
        keep ==> moved(cursor, position, keep).goal_column == cursor.goal_column,
        !keep ==> goal(moved(cursor, position, keep)) == position.column,
        cursor.goal_column is None ==> goal(cursor) == cursor.position.column,
        cursor.goal_column is Some ==> goal(cursor) == cursor.goal_column->0,
{
}

/// Moving while selecting brings the selection along: one that was just begun
/// then runs from where the cursor was to where it is.
pub proof fn selecting_brings_the_selection_along(
    m: CursorManager,
    position: Point,
    keep_goal: bool,
)
    requires
        m.selecting,
        m.selection.start == m.cursor.position,
        m.selection.end == m.cursor.position,
    ensures
        anchor_end(arrived(m, position, keep_goal).selection) == m.cursor.position,
        active_end(arrived(m, position, keep_goal).selection) == position,
        arrived(m, position, keep_goal).cursor.position == position,
{
}

/// A new manager has its cursor at the start of the text and selects nothing.
pub proof fn a_manager_starts_at_the_origin()
    ensures
        at_rest().cursor.position.row == 0,
        at_rest().cursor.position.column == 0,
        at_rest().cursor.goal_column is None,
        at_rest().selection.start == at_rest().selection.end,
        at_rest().selection.end == at_rest().cursor.position,
        !at_rest().selection.reversed,
        !at_rest().selecting,
{
}

} // verus!
