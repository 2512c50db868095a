//! Read-only text buffer backed by a `Vec<String>`.
//!
//! Lines are stored without their trailing newline characters. Both `\n` and
//! `\r\n` line endings are accepted, the way `str::lines` splits text.
use std::path::{Path, PathBuf};
use vstd::prelude::*;
use vstd::slice::slice_subrange;
use vstd::string::*;
use vstd::utf8::*;

use crate::conversions::{path_buf_as_path, path_slice, str_from_utf8, utf8_error_message};
use crate::error::EditorError;
use crate::text::{
    lemma_ascii_boundaries, lemma_as_ints_push, lemma_newline_positions,
    lemma_newline_positions_take, lemma_range_valid, line_bytes, line_end, line_start,
    newline_positions,
};

verus! {

/// `l` without one trailing `'\r'`.
pub open spec fn strip_cr(l: Seq<u8>) -> Seq<u8> {
    if l.len() > 0 && l.last() == 13u8 {
        l.drop_last()
    } else {
        l
    }
}

/// The number of lines `str::lines` yields for `s`: a final `'\n'` does not
/// start another line.
pub open spec fn text_line_count(s: Seq<u8>) -> nat {
    if s.len() == 0 {
        0
    } else if s.last() == 10u8 {
        newline_positions(s).len()
    } else {
        newline_positions(s).len() + 1
    }
}

/// Line `i` as `str::lines` yields it: a line ended by `'\n'` also loses a
/// `'\r'` just before it.
pub open spec fn text_line(s: Seq<u8>, i: int) -> Seq<u8> {
    if i < newline_positions(s).len() {
        strip_cr(line_bytes(s, i))
    } else {
        line_bytes(s, i)
    }
}

/// A read-only view of a UTF-8 text file loaded into memory.
///
/// Lines are stored without their trailing newline characters.
/// Both `\n` and `\r\n` line endings are accepted on load.
pub struct Buffer {
    path: PathBuf,
    lines: Vec<String>,
}

impl Buffer {
    /// The lines, as UTF-8 bytes.
    pub closed spec fn spec_lines(&self) -> Seq<Seq<u8>> {
        self.lines@.map_values(|l: String| encode_utf8(l@))
    }

    /// The path the buffer was loaded from.
    pub closed spec fn spec_path(&self) -> PathBuf {
        self.path
    }

    /// Load the bytes `raw` read from the file at `path`: `NotUtf8` when
    /// they are not valid UTF-8, else the buffer of their lines.
    pub fn from_bytes(path: PathBuf, raw: &[u8]) -> (r: Result<Self, EditorError>)
        ensures
            match r {
                Ok(b) => {
                    &&& valid_utf8(raw@)
                    &&& b.spec_path() == path
                    &&& b.spec_lines().len() == text_line_count(raw@)
                    &&& forall|i: int|
                        0 <= i < b.spec_lines().len() ==> #[trigger] b.spec_lines()[i]
                            == text_line(raw@, i)
                },
                Err(EditorError::NotUtf8(_)) => !valid_utf8(raw@),
                Err(EditorError::Io(_)) => false,
            },
    {
        match str_from_utf8(raw) {
            Ok(text) => Ok(Self::from_text(path, text)),
            Err(e) => Err(EditorError::NotUtf8(utf8_error_message(&e))),
        }
    }

    /// Split the text `content` of the file at `path` into lines.
    pub fn from_text(path: PathBuf, content: &str) -> (b: Self)
        ensures
            b.spec_path() == path,
            b.spec_lines().len() == text_line_count(content.spec_bytes()),
            forall|i: int|
                0 <= i < b.spec_lines().len() ==> #[trigger] b.spec_lines()[i] == text_line(
                    content.spec_bytes(),
                    i,
                ),
    {
        let bytes = content.as_bytes();
        let ghost s = bytes@;
        let n = bytes.len();
        proof {
            encode_utf8_valid_utf8(content@);
            lemma_newline_positions(s);
        }
        let mut lines: Vec<String> = Vec::new();
        let mut start: usize = 0;
        let mut i: usize = 0;
        proof {
            assert(s.subrange(0, 0) =~= Seq::<u8>::empty());
            lemma_as_ints_push(Seq::<usize>::empty(), 0);
        }
        while i < n
            invariant
                s == bytes@,
                n == s.len(),
                valid_utf8(s),
                start <= i <= n,
                lines@.len() == newline_positions(s.subrange(0, i as int)).len(),
                newline_positions(s.subrange(0, i as int)).len() <= newline_positions(s).len(),
                start as int == line_start(s, lines@.len() as int),
                forall|k: int|
                    start <= k < i ==> s[k] != 10u8,
                forall|j: int|
                    0 <= j < lines@.len() ==> #[trigger] encode_utf8(lines@[j]@) == text_line(s, j),
                newline_positions(s.subrange(0, i as int)) =~= newline_positions(s).take(
                    lines@.len() as int,
                ),
            decreases n - i,
        {
            proof {
                lemma_newline_positions_take(s, i as int);
                lemma_prefix_positions(s, i as int);
                lemma_prefix_positions(s, i + 1);
                lemma_newline_positions(s);
            }
            if bytes[i] == 10u8 {
                let ghost j = lines@.len() as int;
                proof {
                    lemma_ascii_boundaries(s, i as int);
                    assert(newline_positions(s)[j] == i);
                    if j > 0 {
                        assert(newline_positions(s)[j - 1] < i);
                        lemma_ascii_boundaries(s, newline_positions(s)[j - 1]);
                    } else {
                        is_char_boundary_start_end_of_seq(s);
                    }
                }
                let end = if i > start && bytes[i - 1] == 13u8 {
                    proof {
                        lemma_ascii_boundaries(s, i - 1);
                    }
                    i - 1
                } else {
                    i
                };
                proof {
                    lemma_range_valid(s, start as int, end as int);
                    assert(line_end(s, j) == i);
                    assert(text_line(s, j) =~= s.subrange(start as int, end as int));
                }
                let piece = slice_subrange(bytes, start, end);
                let line = match str_from_utf8(piece) {
                    Ok(t) => t.to_owned(),
                    Err(_) => String::new(),
                };
                proof {
                    decode_utf8_encode_utf8(piece@);
                    encode_utf8_decode_utf8(line@);
                }
                lines.push(line);
                start = i + 1;
                proof {
                    assert(newline_positions(s).take(j + 1) =~= newline_positions(s).take(j).push(
                        i as int,
                    ));
                }
            }
            i = i + 1;
        }
        proof {
            assert(s.subrange(0, n as int) =~= s);
            assert(newline_positions(s).take(lines@.len() as int) =~= newline_positions(s));
        }
        if start < n {
            let ghost j = lines@.len() as int;
            proof {
                is_char_boundary_start_end_of_seq(s);
                if j > 0 {
                    lemma_ascii_boundaries(s, newline_positions(s)[j - 1]);
                }
                lemma_range_valid(s, start as int, n as int);
                assert(line_end(s, j) == n);
                assert(s.last() != 10u8);
            }
            let piece = slice_subrange(bytes, start, n);
            let line = match str_from_utf8(piece) {
                Ok(t) => t.to_owned(),
                Err(_) => String::new(),
            };
            proof {
                decode_utf8_encode_utf8(piece@);
                encode_utf8_decode_utf8(line@);
            }
            lines.push(line);
        } else {
            proof {
                if n > 0 {
                    let p = newline_positions(s);
                    assert(p.len() > 0);
                    assert(p[p.len() - 1] == n - 1);
                    assert(s.last() == 10u8);
                }
            }
        }
        let b = Buffer { path, lines };
        proof {
            assert forall|i: int| 0 <= i < b.spec_lines().len() implies #[trigger] b.spec_lines()[i]
                == text_line(content.spec_bytes(), i) by {
                assert(b.spec_lines()[i] == encode_utf8(b.lines@[i]@));
            }
        }
        b
    }

    /// Returns every line in the buffer, without trailing newline characters.
    pub fn lines(&self) -> (r: &[String])
        ensures
            r@.map_values(|l: String| encode_utf8(l@)) == self.spec_lines(),
    {
        self.lines.as_slice()
    }

    /// Returns the number of lines in the buffer.
    pub fn line_count(&self) -> (r: usize)
        ensures
            r == self.spec_lines().len(),
    {
        self.lines.len()
    }

    /// Returns the path from which this buffer was loaded.
    pub fn path(&self) -> (r: &Path)
        ensures
            r == path_slice(&self.spec_path()),
    {
        path_buf_as_path(&self.path)
    }
}

/// The newline positions before `i` are a prefix of all of them.
proof fn lemma_prefix_positions(s: Seq<u8>, i: int)
    requires
        0 <= i <= s.len(),
    ensures
        newline_positions(s.subrange(0, i)).len() <= newline_positions(s).len(),
        newline_positions(s.subrange(0, i)) =~= newline_positions(s).take(
            newline_positions(s.subrange(0, i)).len() as int,
        ),
{
    crate::text::lemma_newline_positions_split(s, i);
}

} // verus!
