//! Core of a small text editor: a piece-table buffer, a cursor, undo/redo
//! history and the document that ties them together, with no dependency on
//! any rendering framework so that front ends can reuse it unchanged, and
//! the input handling of the terminal and graphical front ends built on it.

mod conversions;
pub mod buffer;
pub mod cursor;
pub mod display;
pub mod document;
pub mod error;
pub mod gui;
pub mod layout;
pub mod history;
pub mod piece_table;
pub mod screen;
pub mod text;
pub mod tui;
pub mod undo_chain;

pub use buffer::Buffer;
pub use cursor::Cursor;
pub use document::{Document, LineEnding};
pub use error::EditorError;
pub use history::History;
pub use piece_table::PieceTable;
