//! Cursor coordinates and search direction, as callers hand them to the buffer.
use vstd::prelude::*;

verus! {

/// Which way a search runs from its anchor.
#[derive(Debug, PartialEq, Eq, Structural, Copy, Clone)]
pub enum SearchDirection {
    Forward,
    Backward,
}

/// A point in a document: `x` is a grapheme column, `y` a row index.
#[derive(Default, Debug, PartialEq, Eq, Structural, Clone, Copy)]
pub struct Position {
    pub x: usize,
    pub y: usize,
}

/// The size of a screen area, in cells.
#[derive(Debug, PartialEq, Eq, Structural, Clone, Copy)]
pub struct Size {
    pub width: u16,
    pub height: u16,
}

} // verus!
