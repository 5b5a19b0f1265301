//! Cursor movement and scrolling: where a key moves the cursor in a document,
//! and which part of the document a screen of a given size then shows.
use crate::document::Document;
use crate::position::{Position, Size};
use crate::segment::graphemes_of;
use vstd::prelude::*;

verus! {

/// A cursor movement a key asks for.
#[derive(Debug, PartialEq, Eq, Structural, Clone, Copy)]
pub enum Motion {
    Up,
    Down,
    Left,
    Right,
    PageUp,
    PageDown,
    Home,
    End,
}

/// The number of clusters of row `y`, zero past the last row.
pub open spec fn row_width(texts: Seq<Seq<char>>, y: int) -> int {
    if 0 <= y < texts.len() {
        graphemes_of(texts[y]).len() as int
    } else {
        0
    }
}

/// The cursor after `motion` from `(x, y)`, before it is clamped to its row.
pub open spec fn stepped(texts: Seq<Seq<char>>, x: int, y: int, motion: Motion, page: int) -> (int, int) {
    let height = texts.len() as int;
    let width = row_width(texts, y);
    match motion {
        Motion::Up => (x, if y > 0 { y - 1 } else { 0 }),
        Motion::Down => (x, if y < height { y + 1 } else { y }),
        Motion::Right => if x < width {
            (x + 1, y)
        } else if y < height {
            (0, y + 1)
        } else {
            (x, y)
        },
        Motion::Left => if x > 0 {
            (x - 1, y)
        } else if y > 0 {
            (row_width(texts, y - 1), y - 1)
        } else {
            (x, y)
        },
        Motion::PageUp => (x, if y > page { y - page } else { 0 }),
        Motion::PageDown => (x, if y + page < height { y + page } else { height }),
        Motion::Home => (0, y),
        Motion::End => (width, y),
    }
}

/// The cursor after `motion` from `(x, y)`: the step, with the column then
/// clamped to the width of the row it lands on.
pub open spec fn moved(texts: Seq<Seq<char>>, x: int, y: int, motion: Motion, page: int) -> (int, int) {
    let (x1, y1) = stepped(texts, x, y, motion, page);
    let w = row_width(texts, y1);
    (if x1 > w { w } else { x1 }, y1)
}

fn width_of(doc: &Document, y: usize) -> (r: usize)
    requires
        doc.wf(),
    ensures
        r == row_width(doc.texts(), y as int),
{
    match doc.row(y) {
        Some(row) => {
            proof {
                assert(doc.rows_spec()[y as int].wf());
            }
            row.len()
        },
        None => 0,
    }
}

/// Moves the cursor `at` in `doc` as `motion` asks; `page` is the number of
/// rows a page up or down moves.
pub fn move_cursor(doc: &Document, at: Position, motion: Motion, page: usize) -> (r: Position)
    requires
        doc.wf(),
    ensures
        (r.x as int, r.y as int) == moved(doc.texts(), at.x as int, at.y as int, motion, page as int),
{
    let height = doc.len();
    let width = width_of(doc, at.y);
    let mut x = at.x;
    let mut y = at.y;
    match motion {
        Motion::Up => {
            y = y.saturating_sub(1);
        },
        Motion::Down => {
            if y < height {
                y = y + 1;
            }
        },
        Motion::Right => {
            if x < width {
                x = x + 1;
            } else if y < height {
                y = y + 1;
                x = 0;
            }
        },
        Motion::Left => {
            if x > 0 {
                x = x - 1;
            } else if y > 0 {
                y = y - 1;
                x = width_of(doc, y);
            }
        },
        Motion::PageUp => {
            y = if y > page {
                y - page
            } else {
                0
            };
        },
        Motion::PageDown => {
            y = if y.saturating_add(page) < height {
                y + page
            } else {
                height
            };
        },
        Motion::Home => {
            x = 0;
        },
        Motion::End => {
            x = width;
        },
    }
    let width = width_of(doc, y);
    if x > width {
        x = width;
    }
    Position { x, y }
}

/// The offset a screen of `size` takes so that it shows `cursor`, starting
/// from `offset`: a cursor above or left of it pulls the offset to the
/// cursor; one at or past the far edge pushes it on.
pub open spec fn scrolled(cursor: Position, offset: Position, size: Size) -> Position {
    let width = size.width as usize;
    let height = size.height as usize;
    let y = if cursor.y < offset.y {
        cursor.y
    } else if cursor.y >= offset.y.saturating_add(height) {
        cursor.y.saturating_sub(height).saturating_add(1)
    } else {
        offset.y
    };
    let x = if cursor.x < offset.x {
        cursor.x
    } else if cursor.x >= offset.x.saturating_add(width) {
        cursor.x.saturating_add(width).saturating_add(1)
    } else {
        offset.x
    };
    Position { x, y }
}

/// The scroll offset after the cursor moved to `cursor`.
pub fn scroll(cursor: Position, offset: Position, size: Size) -> (r: Position)
    ensures
        r == scrolled(cursor, offset, size),
{
    let width = size.width as usize;
    let height = size.height as usize;
    let mut result = offset;
    if cursor.y < offset.y {
        result.y = cursor.y;
    } else if cursor.y >= offset.y.saturating_add(height) {
        result.y = cursor.y.saturating_sub(height).saturating_add(1);
    }
    if cursor.x < offset.x {
        result.x = cursor.x;
    } else if cursor.x >= offset.x.saturating_add(width) {
        result.x = cursor.x.saturating_add(width).saturating_add(1);
    }
    result
}

} // verus!
