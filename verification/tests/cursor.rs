use stoat::cursor::{Cursor, CursorManager, Point, Selection};

fn p(row: u32, column: u32) -> Point {
    Point::new(row, column)
}

#[test]
fn a_cursor_remembers_its_goal_column() {
    let mut c = Cursor::at_origin();
    assert_eq!(c.goal_column(), 0);
    c.move_to(p(0, 9), false);
    c.move_to(p(1, 3), true);
    assert_eq!(c.goal_column(), 9);
    c.set_goal_column(5);
    assert_eq!(c.goal_column(), 5);
    assert_eq!(c.position, p(1, 3));
    assert_eq!(Cursor::new(p(2, 4)).goal_column(), 4);
}

#[test]
fn a_selection_orders_its_ends() {
    let s = Selection::new(p(2, 0), p(1, 5));
    assert_eq!((s.start, s.end, s.reversed), (p(1, 5), p(2, 0), true));
    assert_eq!(s.cursor_position(), p(1, 5));
    assert_eq!(s.anchor_position(), p(2, 0));
    assert_eq!(s.range(), p(1, 5)..p(2, 0));
    let s = Selection::new(p(1, 5), p(1, 5));
    assert!(s.is_empty() && !s.reversed);
}

#[test]
fn extending_keeps_the_anchor_and_never_shrinks() {
    let mut s = Selection::cursor(p(1, 1));
    s.extend_to(p(1, 5));
    s.extend_to(p(1, 3));
    assert_eq!((s.start, s.end, s.reversed), (p(1, 1), p(1, 5), false));
    let mut s = Selection::cursor(p(1, 1));
    s.extend_to(p(0, 4));
    assert!(s.reversed);
    assert_eq!(s.anchor_position(), p(1, 1));
    s.collapse();
    assert_eq!(s, Selection::cursor(p(0, 4)));
}

#[test]
fn a_selection_moves_as_one() {
    let mut s = Selection::new(p(1, 1), p(2, 2));
    s.move_by(p(3, 4));
    assert_eq!((s.start, s.end), (p(4, 5), p(5, 6)));
}

#[test]
fn the_manager_selects_only_in_selection_mode() {
    let mut m = CursorManager::new();
    assert_eq!(m, CursorManager::default());
    m.move_to(p(0, 3));
    assert!(m.selection().is_empty());
    m.start_selection();
    assert!(m.is_selecting());
    m.move_to_with_goal(p(1, 1));
    assert_eq!(m.goal_column(), 3);
    assert_eq!((m.selection().start, m.selection().end), (p(0, 3), p(1, 1)));
    m.end_selection();
    m.move_to(p(2, 2));
    assert_eq!(*m.selection(), Selection::cursor(p(2, 2)));
    assert_eq!(m.position(), p(2, 2));
    m.set_selection(Selection::new(p(3, 3), p(1, 1)));
    assert_eq!(m.cursor().position, p(1, 1));
    m.set_goal_column(8);
    assert_eq!(m.goal_column(), 8);
    m.start_selection();
    m.clear_selection_and_move_to(p(0, 0));
    assert!(!m.is_selecting() && m.selection().is_empty());
}
