//! Document: piece-table buffer with cursor, dirty flag, and undo history.
//!
//! All edits go through `Document`; callers never touch `PieceTable` directly.
//! Loading detects and preserves the original line-ending style (`\r\n` vs
//! `\n`) and strips a UTF-8 BOM; the bytes to write back restore the detected
//! line endings.
use std::borrow::Cow;
use std::path::{Path, PathBuf};
use vstd::prelude::*;
use vstd::string::*;
use vstd::slice::{slice_subrange, slice_to_vec};
use vstd::utf8::*;

use crate::conversions::{path_buf_as_path, path_slice, str_from_utf8, utf8_error_message};
use crate::error::EditorError;
use crate::layout::{
    advance, ceil_boundary, clamp_col, clamped, cursor_back, cursor_offset, delete_op,
    detected_ending, down_cursor, end_cursor, floor_boundary, home_cursor, insert_op, left_cursor,
    lemma_advance_step, lemma_backspace_cursor, lemma_ceil_boundary, lemma_clamped_valid,
    lemma_col0_valid, lemma_delete_cursor, lemma_floor_boundary, lemma_insert_cursor,
    lemma_line_end_valid, lemma_line_text, lemma_lines_offset_ge, lemma_lines_offset_step,
    lemma_skip_left, lemma_skip_right, lemma_wide_char_no_newline, line_text, lines_offset,
    next_boundary, normalised, page_down_cursor, page_up_cursor, prev_boundary, right_cursor,
    saved_bytes, skip_left, bom_bytes, first_ending_crlf, has_bom, skip_right, strip_bom,
    up_cursor, valid_cursor, word_left_cursor, word_right_cursor, click_cursor, landing_line,
};
use crate::display::char_to_byte_col;
use crate::cursor::Cursor;
use crate::history::{redo_effect, redo_safe, undo_effect, undo_safe, History, HistoryView};
use crate::piece_table::PieceTable;
use crate::text::{
    crlf_to_lf, every_lf_after_cr, lemma_boundary_at, lemma_crlf_len,
    lemma_crlf_round_trip, lemma_drop_cr_valid, lemma_first_scalar_at, lemma_last_scalar,
    lemma_newline_positions, lemma_range_valid, lemma_split_valid, lf_to_crlf, line_bytes,
    newline_positions,
    line_count_of,
};

verus! {

/// Line-ending convention detected on load and restored on save.
#[derive(Debug, Clone, Copy, PartialEq, Eq, Structural)]
pub enum LineEnding {
    Lf,
    CrLf,
}

/// A text document: piece-table buffer + cursor + file metadata + undo history.
pub struct Document {
    path: PathBuf,
    buf: PieceTable,
    /// Current cursor position.
    pub cursor: Cursor,
    dirty: bool,
    line_ending: LineEnding,
    /// The loaded file began with a UTF-8 byte-order mark.
    bom: bool,
    history: History,
}

/* ── the model ───────────────────────────────────────────────────────────── */

/// The model of a document: its bytes, cursor, history, unsaved-changes flag,
/// line-ending convention, whether its file began with a byte-order mark, and
/// the path of its file.
pub struct DocView {
    pub content: Seq<u8>,
    pub cursor: Cursor,
    pub history: HistoryView,
    pub dirty: bool,
    pub line_ending: LineEnding,
    pub bom: bool,
    pub path: PathBuf,
}

impl DocView {
    /// The byte offset of the cursor.
    pub open spec fn offset(self) -> int {
        cursor_offset(self.content, self.cursor)
    }

    /// The cursor moved to `cur`; the insert being coalesced is committed.
    pub open spec fn moved(self, cur: Cursor) -> DocView {
        DocView { cursor: cur, history: self.history.flush(), ..self }
    }

    /// `text` typed at the cursor: the cursor goes past it, a single char
    /// other than `'\n'` is coalesced, anything else is committed at once.
    pub open spec fn typed(self, text: Seq<char>) -> DocView {
        if text.len() == 0 {
            self
        } else {
            let at = self.offset();
            let t = encode_utf8(text);
            let after = advance(self.cursor, t);
            DocView {
                content: self.content.subrange(0, at) + t + self.content.subrange(
                    at,
                    self.content.len() as int,
                ),
                cursor: after,
                history: if text.len() == 1 && text[0] != '\n' {
                    self.history.push_char(at, text[0], self.cursor, after)
                } else {
                    self.history.flush().commit(insert_op(at, t, self.cursor, after))
                },
                dirty: true,
                ..self
            }
        }
    }

    /// The char before the cursor removed; nothing happens at offset 0.
    pub open spec fn backspaced(self) -> DocView {
        let c = self.content;
        let at = self.offset();
        if at == 0 {
            self
        } else {
            let step = length_of_last_scalar(c.subrange(0, at));
            let c2 = c.subrange(0, at - step) + c.subrange(at, c.len() as int);
            let after = cursor_back(self.cursor, step, c);
            DocView {
                content: c2,
                cursor: after,
                history: self.history.flush().commit(
                    delete_op(at - step, c.subrange(at - step, at), self.cursor, after),
                ),
                dirty: true,
                ..self
            }
        }
    }

    /// The char at the cursor removed; nothing happens at the end.
    pub open spec fn deleted_forward(self) -> DocView {
        let c = self.content;
        let at = self.offset();
        if at >= c.len() {
            self
        } else {
            let step = length_of_first_scalar(c.subrange(at, c.len() as int));
            let c2 = c.subrange(0, at) + c.subrange(at + step, c.len() as int);
            let after = clamped(self.cursor, c2);
            DocView {
                content: c2,
                cursor: after,
                history: self.history.flush().commit(
                    delete_op(at, c.subrange(at, at + step), self.cursor, after),
                ),
                dirty: true,
                ..self
            }
        }
    }

    /// The newest edit reverted; nothing but the history changes when there
    /// is none.
    pub open spec fn undone(self) -> DocView {
        match self.history.next_undo() {
            None => DocView { history: self.history.after_undo(), ..self },
            Some(op) => DocView {
                content: undo_effect(op, self.content),
                cursor: op.before,
                history: self.history.after_undo(),
                dirty: true,
                ..self
            },
        }
    }

    /// The newest undone edit re-applied; unchanged when there is none.
    pub open spec fn redone(self) -> DocView {
        match self.history.next_redo() {
            None => self,
            Some(op) => DocView {
                content: redo_effect(op, self.content),
                cursor: op.after,
                history: self.history.after_redo(),
                dirty: true,
                ..self
            },
        }
    }
}

impl View for Document {
    type V = DocView;

    open spec fn view(&self) -> DocView {
        DocView {
            content: self.content(),
            cursor: self.spec_cursor(),
            history: self.history_view(),
            dirty: self.spec_dirty(),
            line_ending: self.spec_line_ending(),
            bom: self.spec_bom(),
            path: self.spec_path(),
        }
    }
}

/// Saving a document right after loading it writes back exactly the loaded
/// bytes, byte-order mark included, unless the text's first line ending is
/// `\r\n` and a later `\n` comes without its `\r`.
pub proof fn law_save_restores_loaded_text(raw: Seq<u8>)
    requires
        first_ending_crlf(strip_bom(raw)) ==> every_lf_after_cr(strip_bom(raw)),
    ensures
        saved_bytes(normalised(strip_bom(raw)), detected_ending(strip_bom(raw)), has_bom(raw))
            == raw,
{
    let text = strip_bom(raw);
    if first_ending_crlf(text) {
        lemma_crlf_round_trip(text);
    }
    if has_bom(raw) {
        assert(bom_bytes() + text =~= raw);
    } else {
        assert(Seq::<u8>::empty() + text =~= raw);
    }
}

/* ── the document ────────────────────────────────────────────────────────── */

impl Document {
    /// The document's invariant: a well-formed buffer and a history whose
    /// pending insert ends within `usize`.
    pub closed spec fn wf(&self) -> bool {
        &&& self.buf.wf()
        &&& self.history@.pending_fits()
    }

    /// The content, as UTF-8 bytes.
    pub closed spec fn content(&self) -> Seq<u8> {
        self.buf@
    }

    /// The undo/redo history.
    pub closed spec fn history_view(&self) -> HistoryView {
        self.history@
    }

    /// The cursor position.
    pub closed spec fn spec_cursor(&self) -> Cursor {
        self.cursor
    }

    /// The unsaved-changes flag.
    pub closed spec fn spec_dirty(&self) -> bool {
        self.dirty
    }

    /// The line-ending convention.
    pub closed spec fn spec_line_ending(&self) -> LineEnding {
        self.line_ending
    }

    /// The loaded file began with a byte-order mark.
    pub closed spec fn spec_bom(&self) -> bool {
        self.bom
    }

    /// The path of the document's file.
    pub closed spec fn spec_path(&self) -> PathBuf {
        self.path
    }

    /// The content of a well-formed document is valid UTF-8 and fits a buffer.
    pub proof fn lemma_wf_content(&self)
        requires
            self.wf(),
        ensures
            valid_utf8(self.content()),
            self.content().len() < usize::MAX,
            self.history_view().pending matches Some(p) ==> p.insert,
    {
        self.buf.lemma_wf_content();
        self.history.lemma_pending_is_insert();
    }

    /// Build a document from the bytes of a file at `path`.
    ///
    /// Strips a UTF-8 BOM if present, remembering it for saving. Detects
    /// `\r\n` vs `\n` from the first line ending found (defaults to `\n` if
    /// none); for `\r\n` text the content keeps every `\r\n` normalised to
    /// `\n`.
    pub fn from_bytes(path: PathBuf, raw: &[u8]) -> (r: Result<Self, EditorError>)
        requires
            raw@.len() < usize::MAX,
        ensures
            ({
                let text = strip_bom(raw@);
                match r {
                    Ok(doc) => {
                        &&& valid_utf8(text)
                        &&& doc.wf()
                        &&& doc.content() == normalised(text)
                        &&& doc.spec_line_ending() == detected_ending(text)
                        &&& !doc.spec_dirty()
                        &&& doc.spec_cursor() == Cursor { line: 0, col: 0 }
                        &&& doc.spec_path() == path
                        &&& doc.spec_bom() == has_bom(raw@)
                        &&& valid_cursor(doc.content(), doc.spec_cursor())
                        &&& doc.history_view() == HistoryView {
                            undo: Seq::empty(),
                            redo: Seq::empty(),
                            pending: None,
                            capacity: 1000,
                        }
                    },
                    Err(EditorError::NotUtf8(_)) => !valid_utf8(text),
                    Err(EditorError::Io(_)) => false,
                }
            }),
    {
        let bom = raw.len() >= 3 && raw[0] == 0xEFu8 && raw[1] == 0xBBu8 && raw[2] == 0xBFu8;
        let content = if bom {
            slice_subrange(raw, 3, raw.len())
        } else {
            raw
        };
        let text = match str_from_utf8(content) {
            Ok(t) => t,
            Err(e) => {
                return Err(EditorError::NotUtf8(utf8_error_message(&e)));
            },
        };
        let line_ending = if first_ending_is_crlf(content) {
            LineEnding::CrLf
        } else {
            LineEnding::Lf
        };
        let buf = if line_ending == LineEnding::CrLf {
            let normalised = replace_crlf(content);
            match str_from_utf8(normalised.as_slice()) {
                Ok(t) => {
                    proof {
                        lemma_crlf_len(content@);
                    }
                    PieceTable::load(t)
                },
                Err(_) => PieceTable::new(),
            }
        } else {
            PieceTable::load(text)
        };
        proof {
            buf.lemma_wf_content();
            lemma_col0_valid(buf@, 0);
        }
        Ok(
            Document {
                path,
                buf,
                cursor: Cursor::new(),
                dirty: false,
                line_ending,
                bom,
                history: History::new(1000),
            },
        )
    }

    /// The bytes to write back to the file: the content with the detected
    /// line-ending convention restored, after the byte-order mark that the
    /// loaded file began with, if any.
    pub fn encoded_for_save(&self) -> (r: Vec<u8>)
        requires
            self.wf(),
        ensures
            r@ == saved_bytes(self.content(), self.spec_line_ending(), self.spec_bom()),
    {
        let content = self.buf.to_string();
        proof {
            self.buf.lemma_wf_content();
            decode_utf8_encode_utf8(self.buf@);
        }
        let b = content.as_str().as_bytes();
        let mut body = if self.line_ending == LineEnding::CrLf {
            restore_crlf(b)
        } else {
            slice_to_vec(b)
        };
        let mut out: Vec<u8> = Vec::new();
        if self.bom {
            out.push(0xEFu8);
            out.push(0xBBu8);
            out.push(0xBFu8);
        }
        proof {
            assert(out@ =~= if self.bom {
                bom_bytes()
            } else {
                Seq::<u8>::empty()
            });
        }
        out.append(&mut body);
        out
    }

    /// Record that the content has been written out: clears the dirty flag.
    pub fn mark_saved(&mut self)
        requires
            old(self).wf(),
        ensures
            final(self).wf(),
            final(self)@ == (DocView { dirty: false, ..old(self)@ }),
    {
        self.dirty = false;
    }

    /// The cursor position.
    pub fn cursor_position(&self) -> (r: Cursor)
        ensures
            r == self.spec_cursor(),
    {
        self.cursor
    }

    /// `true` if there are unsaved changes.
    pub fn is_dirty(&self) -> (r: bool)
        ensures
            r == self.spec_dirty(),
    {
        self.dirty
    }

    /// Path this document was loaded from.
    pub fn path(&self) -> (r: &Path)
        ensures
            r == path_slice(&self@.path),
    {
        path_buf_as_path(&self.path)
    }

    /// The line-ending convention detected on load.
    pub fn line_ending(&self) -> (r: LineEnding)
        ensures
            r == self.spec_line_ending(),
    {
        self.line_ending
    }

    /// Number of lines in the buffer.
    pub fn line_count(&self) -> (r: usize)
        requires
            self.wf(),
        ensures
            r == line_count_of(self.content()),
    {
        self.buf.line_count()
    }

    /// Content of line `line` (0-indexed), without the trailing `\n`.
    pub fn line_at(&self, line: usize) -> (r: Option<Cow<'_, str>>)
        requires
            self.wf(),
        ensures
            r is Some <==> line < line_count_of(self.content()),
            r matches Some(text) ==> text@ == decode_utf8(line_bytes(self.content(), line as int)),
    {
        self.buf.line_at(line)
    }

    /// The whole content as a `String` (its lines joined by `'\n'`).
    pub fn to_string(&self) -> (r: String)
        requires
            self.wf(),
        ensures
            r@ == decode_utf8(self.content()),
    {
        self.buf.to_string()
    }

    // ── editing ──────────────────────────────────────────────────────────────

    /// Insert `text` at the cursor and advance the cursor past it.
    pub fn insert_at_cursor(&mut self, text: &str)
        requires
            old(self).wf(),
            text@.len() > 0 ==> ({
                let c = old(self).content();
                let at = cursor_offset(c, old(self).spec_cursor());
                &&& at <= c.len()
                &&& is_char_boundary(c, at)
                &&& c.len() + text.spec_bytes().len() < usize::MAX
            }),
        ensures
            final(self).wf(),
            valid_cursor(old(self).content(), old(self).spec_cursor()) ==> valid_cursor(
                final(self).content(),
                final(self).spec_cursor(),
            ),
            final(self)@ == old(self)@.typed(text@),
    {
        if text.is_empty() {
            return;
        }
        let ghost c = self.buf@;
        let ghost cur = self.cursor;
        proof {
            self.buf.lemma_wf_content();
            lemma_lines_offset_ge(c, cur.line as int);
            lemma_newline_positions(text.spec_bytes());
            if valid_cursor(c, cur) {
                encode_utf8_valid_utf8(text@);
                lemma_insert_cursor(c, cur, text.spec_bytes());
            }
        }
        let at = self.cursor_byte_offset();
        let cursor_before = self.cursor;
        self.buf.insert(at, text);
        self.dirty = true;
        self.advance_cursor_by(text);
        let cursor_after = self.cursor;
        // Coalesce single non-newline chars; commit everything else immediately.
        if text.unicode_len() == 1 {
            let ch = text.get_char(0);
            if ch != '\n' {
                proof {
                    assert(text@ =~= seq![ch]);
                    self.buf.lemma_wf_content();
                }
                self.history.push_char(at, ch, cursor_before, cursor_after);
                return;
            }
        }
        self.history.push_insert(at, text.to_owned(), cursor_before, cursor_after);
    }

    /// Delete the character before the cursor (backspace).
    pub fn backspace(&mut self)
        requires
            old(self).wf(),
            cursor_offset(old(self).content(), old(self).spec_cursor()) <= usize::MAX,
            cursor_offset(old(self).content(), old(self).spec_cursor()) > 0 ==> ({
                let c = old(self).content();
                let at = cursor_offset(c, old(self).spec_cursor());
                &&& at <= c.len()
                &&& is_char_boundary(c, at)
            }),
        ensures
            final(self).wf(),
            valid_cursor(old(self).content(), old(self).spec_cursor()) ==> valid_cursor(
                final(self).content(),
                final(self).spec_cursor(),
            ),
            final(self)@ == old(self)@.backspaced(),
    {
        let off = self.cursor_byte_offset();
        if off == 0 {
            return;
        }
        let ghost c = self.buf@;
        proof {
            self.buf.lemma_wf_content();
            if valid_cursor(c, self.cursor) {
                lemma_backspace_cursor(c, self.cursor);
            }
        }
        let step = self.prev_char_len(off);
        proof {
            self.buf.lemma_wf_content();
            lemma_range_valid(c, off - step, off as int);
            decode_utf8_encode_utf8(c.subrange(off - step, off as int));
        }
        let deleted = cow_into_string(self.buf.slice(off - step..off));
        let cursor_before = self.cursor;
        self.move_cursor_back(step);
        self.buf.delete(off - step..off);
        self.dirty = true;
        self.history.push_delete(off - step, deleted, cursor_before, self.cursor);
    }

    /// Delete the character at the cursor (delete key).
    pub fn delete_forward(&mut self)
        requires
            old(self).wf(),
            old(self)@.offset() <= usize::MAX,
            old(self)@.offset() < old(self)@.content.len() ==> is_char_boundary(
                old(self)@.content,
                old(self)@.offset(),
            ),
        ensures
            final(self).wf(),
            valid_cursor(old(self).content(), old(self).spec_cursor()) ==> valid_cursor(
                final(self).content(),
                final(self).spec_cursor(),
            ),
            final(self)@ == old(self)@.deleted_forward(),
    {
        let off = self.cursor_byte_offset();
        if off >= self.buf.len() {
            return;
        }
        let ghost c = self.buf@;
        let step = self.next_char_len(off);
        proof {
            self.buf.lemma_wf_content();
            if valid_cursor(c, self.cursor) {
                lemma_first_scalar_at(c, off as int);
                if step > 1 {
                    lemma_wide_char_no_newline(c, off as int);
                }
                lemma_delete_cursor(c, self.cursor, step as int);
            }
            lemma_range_valid(c, off as int, off + step);
            decode_utf8_encode_utf8(c.subrange(off as int, off + step));
        }
        let deleted = cow_into_string(self.buf.slice(off..off + step));
        let cursor_before = self.cursor;
        self.buf.delete(off..off + step);
        self.dirty = true;
        self.clamp_cursor();
        self.history.push_delete(off, deleted, cursor_before, self.cursor);
    }

    /// Undo the most recent edit. Returns `true` if anything was undone.
    pub fn undo(&mut self) -> (r: bool)
        requires
            old(self).wf(),
            old(self).history_view().next_undo() matches Some(op) ==> undo_safe(op, old(self).content()),
        ensures
            final(self).wf(),
            final(self)@ == old(self)@.undone(),
            r == old(self).history_view().next_undo() is Some,
    {
        if let Some(cursor) = self.history.undo(&mut self.buf) {
            self.cursor = cursor;
            self.dirty = true;
            true
        } else {
            false
        }
    }

    /// Redo the most recently undone edit. Returns `true` if anything was redone.
    pub fn redo(&mut self) -> (r: bool)
        requires
            old(self).wf(),
            old(self).history_view().next_redo() matches Some(op) ==> redo_safe(op, old(self).content()),
        ensures
            final(self).wf(),
            final(self)@ == old(self)@.redone(),
            r == old(self).history_view().next_redo() is Some,
    {
        if let Some(cursor) = self.history.redo(&mut self.buf) {
            self.cursor = cursor;
            self.dirty = true;
            true
        } else {
            false
        }
    }

    // ── cursor movement ──────────────────────────────────────────────────────

    /// Move cursor up one line, clamping the column.
    pub fn move_up(&mut self)
        requires
            old(self).wf(),
        ensures
            final(self).wf(),
            valid_cursor(old(self).content(), old(self).spec_cursor()) ==> valid_cursor(
                final(self).content(),
                final(self).spec_cursor(),
            ),
            final(self)@ == old(self)@.moved(up_cursor(old(self)@.content, old(self)@.cursor)),
    {
        self.history.flush_pending();
        proof {
            self.buf.lemma_wf_content();
        }
        if self.cursor.line == 0 {
            self.cursor.col = 0;
            proof {
                lemma_col0_valid(self.buf@, 0);
            }
            return;
        }
        proof {
            if valid_cursor(self.buf@, self.cursor) {
                lemma_clamped_valid(
                    self.buf@,
                    Cursor { line: (self.cursor.line - 1) as usize, col: self.cursor.col },
                );
            }
        }
        self.cursor.line = self.cursor.line - 1;
        self.clamp_cursor();
    }

    /// Move cursor down one line, clamping the column.
    pub fn move_down(&mut self)
        requires
            old(self).wf(),
            old(self).spec_cursor().line < usize::MAX,
        ensures
            final(self).wf(),
            valid_cursor(old(self).content(), old(self).spec_cursor()) ==> valid_cursor(
                final(self).content(),
                final(self).spec_cursor(),
            ),
            final(self)@ == old(self)@.moved(down_cursor(old(self)@.content, old(self)@.cursor)),
    {
        self.history.flush_pending();
        if self.cursor.line + 1 < self.line_count() {
            proof {
                self.buf.lemma_wf_content();
                lemma_clamped_valid(
                    self.buf@,
                    Cursor { line: (self.cursor.line + 1) as usize, col: self.cursor.col },
                );
            }
            self.cursor.line = self.cursor.line + 1;
            self.clamp_cursor();
        }
    }

    /// Move cursor one char to the left, wrapping to the previous line.
    pub fn move_left(&mut self)
        requires
            old(self).wf(),
        ensures
            final(self).wf(),
            valid_cursor(old(self).content(), old(self).spec_cursor()) ==> valid_cursor(
                final(self).content(),
                final(self).spec_cursor(),
            ),
            final(self)@ == old(self)@.moved(left_cursor(old(self)@.content, old(self)@.cursor)),
    {
        self.history.flush_pending();
        proof {
            self.buf.lemma_wf_content();
            lemma_line_text(self.buf@, self.cursor.line as int);
        }
        if self.cursor.col > 0 {
            let line = self.line_str(self.cursor.line);
            proof {
                lemma_floor_boundary(line_text(self.buf@, self.cursor.line as int), self.cursor.col - 1);
            }
            self.cursor.col = prev_char_boundary(&line, self.cursor.col);
        } else if self.cursor.line > 0 {
            proof {
                if valid_cursor(self.buf@, self.cursor) {
                    lemma_line_end_valid(self.buf@, self.cursor.line - 1);
                }
            }
            self.cursor.line = self.cursor.line - 1;
            self.cursor.col = str_len(&self.line_str(self.cursor.line));
        }
    }

    /// Move cursor one char to the right, wrapping to the next line.
    pub fn move_right(&mut self)
        requires
            old(self).wf(),
            old(self).spec_cursor().line < usize::MAX,
        ensures
            final(self).wf(),
            valid_cursor(old(self).content(), old(self).spec_cursor()) ==> valid_cursor(
                final(self).content(),
                final(self).spec_cursor(),
            ),
            final(self)@ == old(self)@.moved(right_cursor(old(self)@.content, old(self)@.cursor)),
    {
        self.history.flush_pending();
        let line = self.line_str(self.cursor.line);
        proof {
            self.buf.lemma_wf_content();
            lemma_line_text(self.buf@, self.cursor.line as int);
        }
        if self.cursor.col < str_len(&line) {
            proof {
                lemma_ceil_boundary(line_text(self.buf@, self.cursor.line as int), self.cursor.col + 1);
            }
            self.cursor.col = next_char_boundary(&line, self.cursor.col);
        } else if self.cursor.line + 1 < self.line_count() {
            proof {
                lemma_col0_valid(self.buf@, self.cursor.line + 1);
            }
            self.cursor.line = self.cursor.line + 1;
            self.cursor.col = 0;
        }
    }

    /// Move cursor to the start of the current line.
    pub fn move_home(&mut self)
        requires
            old(self).wf(),
        ensures
            final(self).wf(),
            valid_cursor(old(self).content(), old(self).spec_cursor()) ==> valid_cursor(
                final(self).content(),
                final(self).spec_cursor(),
            ),
            final(self)@ == old(self)@.moved(home_cursor(old(self)@.cursor)),
    {
        self.history.flush_pending();
        proof {
            self.buf.lemma_wf_content();
            if valid_cursor(self.buf@, self.cursor) {
                lemma_col0_valid(self.buf@, self.cursor.line as int);
            }
        }
        self.cursor.col = 0;
    }

    /// Move cursor to the end of the current line.
    pub fn move_end(&mut self)
        requires
            old(self).wf(),
        ensures
            final(self).wf(),
            valid_cursor(old(self).content(), old(self).spec_cursor()) ==> valid_cursor(
                final(self).content(),
                final(self).spec_cursor(),
            ),
            final(self)@ == old(self)@.moved(end_cursor(old(self)@.content, old(self)@.cursor)),
    {
        self.history.flush_pending();
        proof {
            self.buf.lemma_wf_content();
            if valid_cursor(self.buf@, self.cursor) {
                lemma_line_end_valid(self.buf@, self.cursor.line as int);
            }
        }
        self.cursor.col = str_len(&self.line_str(self.cursor.line));
    }

    /// Move cursor up by `page_height` lines.
    pub fn page_up(&mut self, page_height: usize)
        requires
            old(self).wf(),
        ensures
            final(self).wf(),
            valid_cursor(old(self).content(), old(self).spec_cursor()) ==> valid_cursor(
                final(self).content(),
                final(self).spec_cursor(),
            ),
            final(self)@ == old(self)@.moved(page_up_cursor(old(self)@.content, old(self)@.cursor, page_height as int)),
    {
        self.history.flush_pending();
        self.cursor.line = self.cursor.line.saturating_sub(page_height);
        proof {
            self.buf.lemma_wf_content();
            if valid_cursor(old(self).buf@, old(self).cursor) {
                lemma_clamped_valid(self.buf@, self.cursor);
            }
        }
        self.clamp_cursor();
    }

    /// Move cursor down by `page_height` lines.
    pub fn page_down(&mut self, page_height: usize)
        requires
            old(self).wf(),
            old(self).spec_cursor().line + page_height <= usize::MAX,
        ensures
            final(self).wf(),
            valid_cursor(old(self).content(), old(self).spec_cursor()) ==> valid_cursor(
                final(self).content(),
                final(self).spec_cursor(),
            ),
            final(self)@ == old(self)@.moved(page_down_cursor(old(self)@.content, old(self)@.cursor, page_height as int)),
    {
        self.history.flush_pending();
        let max = self.line_count().saturating_sub(1);
        let want = self.cursor.line + page_height;
        self.cursor.line = if want < max {
            want
        } else {
            max
        };
        proof {
            self.buf.lemma_wf_content();
            lemma_clamped_valid(self.buf@, self.cursor);
        }
        self.clamp_cursor();
    }

    /// Jump left past whitespace then past word chars (Ctrl+Left).
    pub fn word_left(&mut self)
        requires
            old(self).wf(),
            old(self).spec_cursor().col <= line_text(old(self).content(), old(self).spec_cursor().line as int).len(),
        ensures
            final(self).wf(),
            valid_cursor(old(self).content(), old(self).spec_cursor()) ==> valid_cursor(
                final(self).content(),
                final(self).spec_cursor(),
            ),
            final(self)@ == old(self)@.moved(word_left_cursor(old(self)@.content, old(self)@.cursor)),
    {
        self.history.flush_pending();
        let line = self.line_str(self.cursor.line);
        let ghost s = line_text(self.buf@, self.cursor.line as int);
        proof {
            self.buf.lemma_wf_content();
            lemma_line_text(self.buf@, self.cursor.line as int);
        }
        let b = line.as_str().as_bytes();
        let ghost c0 = self.cursor.col as int;
        proof {
            if valid_cursor(self.buf@, self.cursor) {
                lemma_skip_left(s, c0, true);
                lemma_skip_left(s, skip_left(s, c0, true), false);
            }
        }
        while self.cursor.col > 0
            invariant_except_break
                b@ == s,
                encode_utf8(line@) == s,
                valid_utf8(s),
                self.cursor.col <= s.len(),
                skip_left(s, self.cursor.col as int, true) == skip_left(s, c0, true),
                self.cursor.line == old(self).cursor.line,
                self.buf == old(self).buf,
                self.history@ == old(self).history@.flush(),
                self.dirty == old(self).dirty,
                self.line_ending == old(self).line_ending,
                self.path == old(self).path,
                self.bom == old(self).bom,
            ensures
                self.cursor.col as int == skip_left(s, c0, true),
                self.cursor.col <= s.len(),
                self.cursor.line == old(self).cursor.line,
                self.buf == old(self).buf,
                self.history@ == old(self).history@.flush(),
                self.dirty == old(self).dirty,
                self.line_ending == old(self).line_ending,
                self.path == old(self).path,
                self.bom == old(self).bom,
            decreases self.cursor.col,
        {
            let prev = prev_char_boundary(&line, self.cursor.col);
            proof {
                lemma_floor_boundary(s, self.cursor.col - 1);
            }
            if b[prev] == 32u8 {
                self.cursor.col = prev;
            } else {
                break;
            }
        }
        let ghost c1 = self.cursor.col as int;
        while self.cursor.col > 0
            invariant_except_break
                b@ == s,
                encode_utf8(line@) == s,
                valid_utf8(s),
                self.cursor.col <= s.len(),
                skip_left(s, self.cursor.col as int, false) == skip_left(s, c1, false),
                self.cursor.line == old(self).cursor.line,
                self.buf == old(self).buf,
                self.history@ == old(self).history@.flush(),
                self.dirty == old(self).dirty,
                self.line_ending == old(self).line_ending,
                self.path == old(self).path,
                self.bom == old(self).bom,
            ensures
                self.cursor.col as int == skip_left(s, c1, false),
                self.cursor.line == old(self).cursor.line,
                self.buf == old(self).buf,
                self.history@ == old(self).history@.flush(),
                self.dirty == old(self).dirty,
                self.line_ending == old(self).line_ending,
                self.path == old(self).path,
                self.bom == old(self).bom,
            decreases self.cursor.col,
        {
            let prev = prev_char_boundary(&line, self.cursor.col);
            proof {
                lemma_floor_boundary(s, self.cursor.col - 1);
            }
            if b[prev] != 32u8 {
                self.cursor.col = prev;
            } else {
                break;
            }
        }
    }

    /// Jump right past word chars then past whitespace (Ctrl+Right).
    pub fn word_right(&mut self)
        requires
            old(self).wf(),
            old(self).spec_cursor().line < usize::MAX,
        ensures
            final(self).wf(),
            valid_cursor(old(self).content(), old(self).spec_cursor()) ==> valid_cursor(
                final(self).content(),
                final(self).spec_cursor(),
            ),
            final(self)@ == old(self)@.moved(word_right_cursor(old(self)@.content, old(self)@.cursor)),
    {
        self.history.flush_pending();
        let line = self.line_str(self.cursor.line);
        let ghost s = line_text(self.buf@, self.cursor.line as int);
        proof {
            self.buf.lemma_wf_content();
            lemma_line_text(self.buf@, self.cursor.line as int);
        }
        let b = line.as_str().as_bytes();
        let len = b.len();
        let ghost c0 = self.cursor.col as int;
        proof {
            if valid_cursor(self.buf@, self.cursor) {
                lemma_skip_right(s, c0, false);
                lemma_skip_right(s, skip_right(s, c0, false), true);
                if self.cursor.line + 1 < line_count_of(self.buf@) {
                    lemma_col0_valid(self.buf@, self.cursor.line + 1);
                }
            }
        }
        while self.cursor.col < len
            invariant_except_break
                b@ == s,
                encode_utf8(line@) == s,
                len == s.len(),
                valid_utf8(s),
                skip_right(s, self.cursor.col as int, false) == skip_right(s, c0, false),
                self.cursor.line == old(self).cursor.line,
                self.buf == old(self).buf,
                self.history@ == old(self).history@.flush(),
                self.dirty == old(self).dirty,
                self.line_ending == old(self).line_ending,
                self.path == old(self).path,
                self.bom == old(self).bom,
            ensures
                self.cursor.col as int == skip_right(s, c0, false),
                self.cursor.line == old(self).cursor.line,
                self.buf == old(self).buf,
                self.history@ == old(self).history@.flush(),
                self.dirty == old(self).dirty,
                self.line_ending == old(self).line_ending,
                self.path == old(self).path,
                self.bom == old(self).bom,
            decreases len - self.cursor.col,
        {
            if b[self.cursor.col] != 32u8 {
                proof {
                    lemma_ceil_boundary(s, self.cursor.col + 1);
                }
                self.cursor.col = next_char_boundary(&line, self.cursor.col);
            } else {
                break;
            }
        }
        let ghost c1 = self.cursor.col as int;
        while self.cursor.col < len
            invariant_except_break
                b@ == s,
                encode_utf8(line@) == s,
                len == s.len(),
                valid_utf8(s),
                skip_right(s, self.cursor.col as int, true) == skip_right(s, c1, true),
                self.cursor.line == old(self).cursor.line,
                self.buf == old(self).buf,
                self.history@ == old(self).history@.flush(),
                self.dirty == old(self).dirty,
                self.line_ending == old(self).line_ending,
                self.path == old(self).path,
                self.bom == old(self).bom,
            ensures
                self.cursor.col as int == skip_right(s, c1, true),
                self.cursor.line == old(self).cursor.line,
                self.buf == old(self).buf,
                self.history@ == old(self).history@.flush(),
                self.dirty == old(self).dirty,
                self.line_ending == old(self).line_ending,
                self.path == old(self).path,
                self.bom == old(self).bom,
            decreases len - self.cursor.col,
        {
            if b[self.cursor.col] == 32u8 {
                proof {
                    lemma_ceil_boundary(s, self.cursor.col + 1);
                }
                self.cursor.col = next_char_boundary(&line, self.cursor.col);
            } else {
                break;
            }
        }
        if self.cursor.col >= len && self.cursor.line + 1 < self.line_count() {
            self.cursor.line = self.cursor.line + 1;
            self.cursor.col = 0;
        }
    }

    /// Put the cursor where a click landed: on row `row` (the last line when
    /// the row lies past it), `chars` chars into that line (its end when the
    /// line is shorter). The insert being coalesced is committed.
    pub fn click_to(&mut self, row: usize, chars: usize)
        requires
            old(self).wf(),
        ensures
            final(self).wf(),
            valid_cursor(final(self).content(), final(self).spec_cursor()),
            final(self)@ == old(self)@.moved(click_cursor(old(self)@.content, row as int, chars as int)),
    {
        let n = self.line_count();
        let line = if row < n {
            row
        } else if n == 0 {
            0
        } else {
            n - 1
        };
        let text = self.line_str(line);
        let col = char_to_byte_col(text.as_str(), chars);
        proof {
            let c = self.buf@;
            let s = line_text(c, line as int);
            self.buf.lemma_wf_content();
            lemma_line_text(c, line as int);
            let cs = text@;
            if chars < cs.len() {
                let a = cs.subrange(0, chars as int);
                let b = cs.subrange(chars as int, cs.len() as int);
                assert(cs =~= a + b);
                crate::text::lemma_encode_concat(a, b);
                encode_utf8_valid_utf8(a);
                encode_utf8_valid_utf8(b);
                is_char_boundary_start_end_of_seq(encode_utf8(a));
                crate::text::lemma_concat_boundary(
                    encode_utf8(a),
                    encode_utf8(b),
                    encode_utf8(a).len() as int,
                );
            } else {
                is_char_boundary_start_end_of_seq(s);
            }
        }
        self.cursor = Cursor { line, col };
        self.history.flush_pending();
    }

    /// Move the cursor to line `line` (the last line when it lies past it),
    /// keeping its column as far as that line allows, as a jump from an
    /// overview of the whole text does. The insert being coalesced is
    /// committed. Returns the line jumped to.
    pub fn jump_to_line(&mut self, line: usize) -> (r: usize)
        requires
            old(self).wf(),
        ensures
            final(self).wf(),
            valid_cursor(final(self).content(), final(self).spec_cursor()),
            r == landing_line(old(self)@.content, line as int),
            final(self)@ == old(self)@.moved(
                clamped(Cursor { line: r, col: old(self)@.cursor.col }, old(self)@.content),
            ),
    {
        let n = self.line_count();
        let target = if line < n {
            line
        } else if n == 0 {
            0
        } else {
            n - 1
        };
        proof {
            self.buf.lemma_wf_content();
            lemma_clamped_valid(self.buf@, Cursor { line: target, col: self.cursor.col });
        }
        self.cursor.line = target;
        self.clamp_cursor();
        self.history.flush_pending();
        target
    }

    /// Flush any pending coalesced insert to the history stack.
    ///
    /// Call on cursor movement, mode switch, or idle timeout.
    pub fn flush_history(&mut self)
        requires
            old(self).wf(),
        ensures
            final(self).wf(),
            valid_cursor(old(self).content(), old(self).spec_cursor()) ==> valid_cursor(
                final(self).content(),
                final(self).spec_cursor(),
            ),
            final(self)@ == old(self)@.moved(old(self)@.cursor),
    {
        self.history.flush_pending();
    }

    // ── helpers ──────────────────────────────────────────────────────────────

    /// Flat byte offset of the cursor in the piece table.
    pub fn cursor_byte_offset(&self) -> (r: usize)
        requires
            self.wf(),
            cursor_offset(self.content(), self.spec_cursor()) <= usize::MAX,
        ensures
            r == cursor_offset(self.content(), self.spec_cursor()),
    {
        let ghost c = self.buf@;
        proof {
            self.buf.lemma_wf_content();
            lemma_lines_offset_step(c, 0);
        }
        let mut off: usize = 0;
        let mut l: usize = 0;
        while l < self.cursor.line
            invariant
                self.wf(),
                c == self.buf@,
                l <= self.cursor.line,
                off == lines_offset(c, l as int),
                cursor_offset(c, self.cursor) <= usize::MAX,
            decreases self.cursor.line - l,
        {
            proof {
                self.buf.lemma_wf_content();
                lemma_lines_offset_step(c, l as int);
                lemma_line_text(c, l as int);
                decode_utf8_encode_utf8(line_text(c, l as int));
                lemma_lines_offset_mono(c, l + 1, self.cursor.line as int);
            }
            let n = match self.buf.line_at(l) {
                Some(s) => cow_len(&s),
                None => 0,
            };
            off = off + n + 1;
            l = l + 1;
        }
        off + self.cursor.col
    }

    /// The text of line `line`, or an empty string past the end.
    fn line_str(&self, line: usize) -> (r: String)
        requires
            self.wf(),
        ensures
            r@ == decode_utf8(line_text(self.content(), line as int)),
            encode_utf8(r@) == line_text(self.content(), line as int),
    {
        proof {
            self.buf.lemma_wf_content();
            lemma_line_text(self.buf@, line as int);
            decode_utf8_encode_utf8(line_text(self.buf@, line as int));
        }
        match self.buf.line_at(line) {
            Some(Cow::Borrowed(s)) => s.to_owned(),
            Some(Cow::Owned(s)) => s,
            None => {
                proof {
                    assert(decode_utf8(Seq::<u8>::empty()) =~= Seq::<char>::empty());
                }
                String::new()
            },
        }
    }

    fn advance_cursor_by(&mut self, text: &str)
        requires
            old(self).cursor.col + text.spec_bytes().len() <= usize::MAX,
            old(self).cursor.line + text.spec_bytes().len() <= usize::MAX,
        ensures
            final(self).cursor == advance(old(self).cursor, text.spec_bytes()),
            final(self).buf == old(self).buf,
            final(self).history == old(self).history,
            final(self).dirty == old(self).dirty,
            final(self).line_ending == old(self).line_ending,
            final(self).path == old(self).path,
            final(self).bom == old(self).bom,
    {
        let bytes = text.as_bytes();
        let ghost t = bytes@;
        let ghost cur = self.cursor;
        let mut i: usize = 0;
        proof {
            assert(t.subrange(0, 0) =~= Seq::<u8>::empty());
        }
        while i < bytes.len()
            invariant
                i <= t.len(),
                t == bytes@,
                cur.col + t.len() <= usize::MAX,
                cur.line + t.len() <= usize::MAX,
                self.cursor == advance(cur, t.subrange(0, i as int)),
                self.buf == old(self).buf,
                self.history == old(self).history,
                self.dirty == old(self).dirty,
                self.line_ending == old(self).line_ending,
                self.path == old(self).path,
                self.bom == old(self).bom,
            decreases t.len() - i,
        {
            proof {
                lemma_advance_step(cur, t, i as int);
            }
            if bytes[i] == 10u8 {
                self.cursor.line = self.cursor.line + 1;
                self.cursor.col = 0;
            } else {
                self.cursor.col = self.cursor.col + 1;
            }
            i = i + 1;
        }
        proof {
            assert(t.subrange(0, t.len() as int) =~= t);
        }
    }

    fn move_cursor_back(&mut self, step: usize)
        requires
            old(self).wf(),
        ensures
            final(self).wf(),
            final(self).cursor == cursor_back(old(self).cursor, step as int, old(self).buf@),
            final(self).buf == old(self).buf,
            final(self).history == old(self).history,
            final(self).dirty == old(self).dirty,
            final(self).line_ending == old(self).line_ending,
            final(self).path == old(self).path,
            final(self).bom == old(self).bom,
    {
        if self.cursor.col >= step {
            self.cursor.col = self.cursor.col - step;
        } else if self.cursor.line > 0 {
            self.cursor.line = self.cursor.line - 1;
            self.cursor.col = str_len(&self.line_str(self.cursor.line));
        } else {
            self.cursor.col = 0;
        }
    }

    /// Byte length of the character that ends at `byte_off`.
    fn prev_char_len(&self, byte_off: usize) -> (r: usize)
        requires
            self.wf(),
            0 < byte_off <= self.buf@.len(),
            is_char_boundary(self.buf@, byte_off as int),
        ensures
            r == length_of_last_scalar(self.buf@.subrange(0, byte_off as int)),
            1 <= r <= byte_off,
            is_char_boundary(self.buf@, byte_off - r),
    {
        let ghost c = self.buf@;
        let ghost p = c.subrange(0, byte_off as int);
        proof {
            self.buf.lemma_wf_content();
            is_char_boundary_start_end_of_seq(c);
            lemma_split_valid(c, byte_off as int);
            lemma_last_scalar(p);
            decode_utf8_encode_utf8(p);
        }
        let full = self.buf.slice(0..byte_off);
        let s = cow_as_str(&full);
        let b = s.as_bytes();
        let n = b.len();
        // Length of the last character in `s`.
        let w: usize = if !(0x80u8 <= b[n - 1] && b[n - 1] <= 0xbfu8) {
            1
        } else if !(0x80u8 <= b[n - 2] && b[n - 2] <= 0xbfu8) {
            2
        } else if !(0x80u8 <= b[n - 3] && b[n - 3] <= 0xbfu8) {
            3
        } else {
            4
        };
        proof {
            lemma_boundary_at(c, byte_off - w);
            assert(p[byte_off - w] == c[byte_off - w]);
        }
        if w < byte_off {
            w
        } else {
            byte_off
        }
    }

    /// Byte length of the character that starts at `byte_off`, read off its
    /// leading byte.
    fn next_char_len(&self, byte_off: usize) -> (r: usize)
        requires
            self.wf(),
            byte_off < self.buf@.len(),
            is_char_boundary(self.buf@, byte_off as int),
        ensures
            r == length_of_first_scalar(self.buf@.subrange(byte_off as int, self.buf@.len() as int)),
            1 <= r,
            byte_off + r <= self.buf@.len(),
            is_char_boundary(self.buf@, byte_off + r),
    {
        let ghost c = self.buf@;
        proof {
            self.buf.lemma_wf_content();
            lemma_first_scalar_at(c, byte_off as int);
        }
        let b0 = self.buf.byte_at(byte_off);
        if b0 <= 0x7fu8 {
            1
        } else if 0xc0u8 <= b0 && b0 <= 0xdfu8 {
            2
        } else if 0xe0u8 <= b0 && b0 <= 0xefu8 {
            3
        } else {
            4
        }
    }

    fn clamp_cursor(&mut self)
        requires
            old(self).wf(),
        ensures
            final(self).wf(),
            final(self).buf == old(self).buf,
            final(self).history == old(self).history,
            final(self).dirty == old(self).dirty,
            final(self).line_ending == old(self).line_ending,
            final(self).path == old(self).path,
            final(self).bom == old(self).bom,
            final(self).cursor == (Cursor {
                line: old(self).cursor.line,
                col: clamp_col(
                    line_text(old(self).content(), old(self).cursor.line as int),
                    old(self).cursor.col as int,
                ) as usize,
            }),
    {
        let line = self.line_str(self.cursor.line);
        let ghost s = line_text(self.buf@, self.cursor.line as int);
        proof {
            self.buf.lemma_wf_content();
            lemma_line_text(self.buf@, self.cursor.line as int);
        }
        let len = str_len(&line);
        if self.cursor.col > len {
            self.cursor.col = len;
        }
        let ghost start = self.cursor.col as int;
        while self.cursor.col > 0 && !line.as_str().is_char_boundary(self.cursor.col)
            invariant
                valid_utf8(s),
                encode_utf8(line@) == s,
                0 <= self.cursor.col <= start,
                floor_boundary(s, self.cursor.col as int) == floor_boundary(s, start),
                self.cursor.line == old(self).cursor.line,
                self.buf == old(self).buf,
                self.history == old(self).history,
                self.dirty == old(self).dirty,
                self.line_ending == old(self).line_ending,
                self.path == old(self).path,
                self.bom == old(self).bom,
            decreases self.cursor.col,
        {
            self.cursor.col = self.cursor.col - 1;
        }
    }
}

/// Whether the first line ending of `s` is `\r\n`.
fn first_ending_is_crlf(s: &[u8]) -> (r: bool)
    ensures
        r == first_ending_crlf(s@),
{
    let n = s.len();
    let mut i: usize = 0;
    proof {
        lemma_newline_positions(s@);
    }
    while i < n
        invariant
            i <= n,
            n == s@.len(),
            forall|j: int| 0 <= j < i ==> s@[j] != 10u8,
        decreases n - i,
    {
        if s[i] == 10u8 {
            proof {
                lemma_newline_positions(s@);
                let p = newline_positions(s@);
                let k = choose|k: int| 0 <= k < p.len() && #[trigger] p[k] == i;
                assert(p[0] <= p[k]);
                assert(s@[p[0]] == 10u8);
            }
            return i > 0 && s[i - 1] == 13u8;
        }
        i = i + 1;
    }
    proof {
        let p = newline_positions(s@);
        if p.len() > 0 {
            assert(s@[p[0]] == 10u8);
        }
    }
    false
}

/// `s` with every `"\r\n"` replaced by `"\n"`.
fn replace_crlf(s: &[u8]) -> (r: Vec<u8>)
    requires
        valid_utf8(s@),
    ensures
        r@ == crlf_to_lf(s@),
        valid_utf8(r@),
{
    let ghost t = s@;
    let n = s.len();
    let mut out: Vec<u8> = Vec::new();
    let mut i: usize = 0;
    proof {
        assert(t.subrange(0, 0) =~= Seq::<u8>::empty());
        assert(out@ + t.subrange(0, t.len() as int) =~= t);
    }
    while i < n
        invariant
            n == t.len(),
            t == s@,
            i <= n,
            out@ == crlf_to_lf(t.subrange(0, i as int)),
            valid_utf8(out@ + t.subrange(i as int, n as int)),
            0 < i < n ==> !(t[i - 1] == 13u8 && t[i as int] == 10u8),
        decreases n - i,
    {
        if s[i] == 13u8 && i + 1 < n && s[i + 1] == 10u8 {
            proof {
                let p = t.subrange(0, i + 2);
                assert(p.subrange(0, p.len() - 2) =~= t.subrange(0, i as int));
                let rest = t.subrange(i + 1, n as int);
                assert(out@ + t.subrange(i as int, n as int) =~= out@ + seq![13u8] + rest);
                lemma_drop_cr_valid(out@, rest);
                assert(out@.push(10u8) + t.subrange(i + 2, n as int) =~= out@ + rest);
            }
            out.push(10u8);
            i = i + 2;
        } else {
            proof {
                let p = t.subrange(0, i + 1);
                assert(p.drop_last() =~= t.subrange(0, i as int));
                assert(out@.push(t[i as int]) + t.subrange(i + 1, n as int) =~= out@ + t.subrange(
                    i as int,
                    n as int,
                ));
            }
            out.push(s[i]);
            i = i + 1;
        }
    }
    proof {
        assert(t.subrange(0, n as int) =~= t);
        assert(out@ + t.subrange(n as int, n as int) =~= out@);
    }
    out
}

/// `s` with every `"\n"` replaced by `"\r\n"`.
fn restore_crlf(s: &[u8]) -> (r: Vec<u8>)
    ensures
        r@ == lf_to_crlf(s@),
{
    let ghost t = s@;
    let n = s.len();
    let mut out: Vec<u8> = Vec::new();
    let mut i: usize = 0;
    proof {
        assert(t.subrange(0, 0) =~= Seq::<u8>::empty());
    }
    while i < n
        invariant
            n == t.len(),
            t == s@,
            i <= n,
            out@ == lf_to_crlf(t.subrange(0, i as int)),
        decreases n - i,
    {
        proof {
            assert(t.subrange(0, i + 1).drop_last() =~= t.subrange(0, i as int));
        }
        if s[i] == 10u8 {
            out.push(13u8);
            out.push(10u8);
            proof {
                assert(out@ =~= lf_to_crlf(t.subrange(0, i as int)) + seq![13u8, 10u8]);
            }
        } else {
            out.push(s[i]);
        }
        i = i + 1;
    }
    proof {
        assert(t.subrange(0, n as int) =~= t);
    }
    out
}

/// Byte length of a string slice.
fn str_len(s: &String) -> (r: usize)
    ensures
        r == encode_utf8(s@).len(),
{
    s.as_str().as_bytes().len()
}

/// The string slice inside a borrowed-or-owned string.
fn cow_as_str<'a>(s: &'a Cow<'_, str>) -> (r: &'a str)
    ensures
        r@ == s@,
{
    match s {
        Cow::Borrowed(b) => b,
        Cow::Owned(o) => o.as_str(),
    }
}

/// The owned string of a borrowed-or-owned string.
pub(crate) fn cow_into_string(s: Cow<'_, str>) -> (r: String)
    ensures
        r@ == s@,
{
    match s {
        Cow::Borrowed(b) => b.to_owned(),
        Cow::Owned(o) => o,
    }
}

/// Byte length of a borrowed-or-owned string.
fn cow_len(s: &Cow<'_, str>) -> (r: usize)
    ensures
        r == encode_utf8(s@).len(),
{
    match s {
        Cow::Borrowed(b) => b.as_bytes().len(),
        Cow::Owned(o) => o.as_str().as_bytes().len(),
    }
}

proof fn lemma_lines_offset_mono(c: Seq<u8>, a: int, b: int)
    requires
        0 <= a <= b,
    ensures
        lines_offset(c, a) <= lines_offset(c, b),
    decreases b - a,
{
    if a < b {
        lemma_lines_offset_step(c, a);
        lemma_lines_offset_mono(c, a + 1, b);
    }
}

/// The char boundary before `pos` in `s`.
fn prev_char_boundary(s: &String, pos: usize) -> (r: usize)
    ensures
        r == prev_boundary(encode_utf8(s@), pos as int),
{
    let ghost b = encode_utf8(s@);
    if pos == 0 {
        return 0;
    }
    let mut pos = pos - 1;
    let ghost start = pos as int;
    while pos > 0 && !s.as_str().is_char_boundary(pos)
        invariant
            0 <= pos <= start,
            b == encode_utf8(s@),
            floor_boundary(b, pos as int) == floor_boundary(b, start),
        decreases pos,
    {
        pos = pos - 1;
    }
    pos
}

/// The char boundary after `pos` in `s`.
fn next_char_boundary(s: &String, pos: usize) -> (r: usize)
    ensures
        r == next_boundary(encode_utf8(s@), pos as int),
{
    let ghost b = encode_utf8(s@);
    let len = str_len(s);
    if pos >= len {
        return len;
    }
    let mut pos = pos + 1;
    let ghost start = pos as int;
    while pos < len && !s.as_str().is_char_boundary(pos)
        invariant
            start <= pos <= len,
            len == b.len(),
            b == encode_utf8(s@),
            ceil_boundary(b, pos as int) == ceil_boundary(b, start),
        decreases len - pos,
    {
        pos = pos + 1;
    }
    pos
}

/// Every change of the text marks the document as having unsaved changes;
/// moving the cursor, and an undo or redo with nothing to undo or redo,
/// leave the text and that mark as they were.
pub proof fn law_changes_mark_unsaved(d: DocView, text: Seq<char>, cur: Cursor)
    ensures
        text.len() > 0 ==> d.typed(text).dirty,
        d.offset() > 0 ==> d.backspaced().dirty,
        d.offset() < d.content.len() ==> d.deleted_forward().dirty,
        d.history.next_undo() is Some ==> d.undone().dirty,
        d.history.next_redo() is Some ==> d.redone().dirty,
        d.moved(cur).content == d.content && d.moved(cur).dirty == d.dirty,
        d.history.next_undo() is None ==> d.undone().content == d.content && d.undone().dirty
            == d.dirty,
        d.history.next_redo() is None ==> d.redone().content == d.content && d.redone().dirty
            == d.dirty,
{
}

} // verus!
