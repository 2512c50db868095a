//! Error types for the editor core.
use vstd::prelude::*;

verus! {

/// The error type returned by all fallible operations of the editor core.
#[derive(Debug)]
pub enum EditorError {
    /// An I/O error occurred while reading or writing a file.
    Io(std::io::Error),
    /// The file contained bytes that are not valid UTF-8.
    NotUtf8(String),
}

} // verus!
