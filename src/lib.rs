//! An in-memory text buffer for a line-oriented editor: rows of text addressed
//! by grapheme cluster, point edits, directional search and per-character
//! highlighting.

pub mod color;
pub mod cursor;
pub mod document;
pub mod filetype;
pub mod highlighting;
pub mod position;
pub mod row;
pub mod search;
pub mod segment;
pub mod session;
pub mod splice;

pub use cursor::{move_cursor, scroll, Motion};
pub use document::Document;
pub use filetype::{FileType, HighLightingOptions};
pub use highlighting::Type;
pub use position::{Position, SearchDirection, Size};
pub use row::Row;
pub use session::{confirm_quit, QUIT_TIMES};
