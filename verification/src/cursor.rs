//! Cursor position within a document.
//!
//! A cursor is a (line, col) pair where `col` is a byte offset within the
//! line. Both values are 0-indexed.
use vstd::prelude::*;

verus! {

/// Cursor position in (line, col) coordinates.
///
/// `col` is a byte offset from the start of the line.
#[derive(Debug, Clone, Copy, PartialEq, Eq, Structural)]
pub struct Cursor {
    pub line: usize,
    pub col: usize,
}

impl Cursor {
    /// Create a cursor at the origin.
    pub fn new() -> (c: Self)
        ensures
            c.line == 0,
            c.col == 0,
    {
        Cursor { line: 0, col: 0 }
    }
}

impl Default for Cursor {
    fn default() -> (c: Self)
        ensures
            c.line == 0,
            c.col == 0,
    {
        Cursor::new()
    }
}

} // verus!
