use rtext::{confirm_quit, move_cursor, scroll, Document, Motion, Position, Size, QUIT_TIMES};

fn pos(x: usize, y: usize) -> Position {
    Position { x, y }
}

fn doc() -> Document {
    Document::from_text("a.txt", "hello\nhi\n\nworld!\n")
}

#[test]
fn right_wraps_to_next_row() {
    let d = doc();
    assert_eq!(move_cursor(&d, pos(1, 0), Motion::Right, 10), pos(2, 0));
    assert_eq!(move_cursor(&d, pos(5, 0), Motion::Right, 10), pos(0, 1));
    assert_eq!(move_cursor(&d, pos(0, 4), Motion::Right, 10), pos(0, 4));
}

#[test]
fn left_wraps_to_end_of_previous_row() {
    let d = doc();
    assert_eq!(move_cursor(&d, pos(0, 1), Motion::Left, 10), pos(5, 0));
    assert_eq!(move_cursor(&d, pos(0, 0), Motion::Left, 10), pos(0, 0));
}

#[test]
fn vertical_moves_clamp_column() {
    let d = doc();
    assert_eq!(move_cursor(&d, pos(4, 0), Motion::Down, 10), pos(2, 1));
    assert_eq!(move_cursor(&d, pos(2, 1), Motion::Down, 10), pos(0, 2));
    assert_eq!(move_cursor(&d, pos(0, 4), Motion::Down, 10), pos(0, 4));
    assert_eq!(move_cursor(&d, pos(5, 3), Motion::Up, 10), pos(0, 2));
    assert_eq!(move_cursor(&d, pos(1, 0), Motion::Up, 10), pos(1, 0));
}

#[test]
fn pages_and_line_ends() {
    let d = doc();
    assert_eq!(move_cursor(&d, pos(0, 0), Motion::PageDown, 2), pos(0, 2));
    assert_eq!(move_cursor(&d, pos(0, 3), Motion::PageDown, 2), pos(0, 4));
    assert_eq!(move_cursor(&d, pos(0, 3), Motion::PageUp, 2), pos(0, 1));
    assert_eq!(move_cursor(&d, pos(0, 1), Motion::PageUp, 2), pos(0, 0));
    assert_eq!(move_cursor(&d, pos(0, 3), Motion::End, 2), pos(6, 3));
    assert_eq!(move_cursor(&d, pos(4, 3), Motion::Home, 2), pos(0, 3));
}

#[test]
fn scroll_follows_cursor_vertically() {
    let size = Size { width: 10, height: 5 };
    assert_eq!(scroll(pos(0, 2), pos(0, 4), size), pos(0, 2));
    assert_eq!(scroll(pos(0, 9), pos(0, 4), size), pos(0, 5));
    assert_eq!(scroll(pos(0, 6), pos(0, 4), size), pos(0, 4));
}

#[test]
fn scroll_follows_cursor_horizontally() {
    let size = Size { width: 10, height: 5 };
    assert_eq!(scroll(pos(3, 0), pos(5, 0), size), pos(3, 0));
    assert_eq!(scroll(pos(15, 0), pos(5, 0), size), pos(26, 0));
    assert_eq!(scroll(pos(14, 0), pos(5, 0), size), pos(5, 0));
}

#[test]
fn quit_asks_again_while_dirty() {
    assert_eq!(confirm_quit(QUIT_TIMES, true), Some(2));
    assert_eq!(confirm_quit(1, true), Some(0));
    assert_eq!(confirm_quit(0, true), None);
    assert_eq!(confirm_quit(QUIT_TIMES, false), None);
}
