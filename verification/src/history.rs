//! Undo/redo history for the editor.
//!
//! Consecutive single non-newline character inserts are coalesced into one
//! undo unit (flushed on cursor movement, newline, or idle time).
//! The undo stack is bounded to `capacity` entries.
use std::collections::VecDeque;
use vstd::prelude::*;
use vstd::string::StringSliceAdditionalSpecFns;
use vstd::utf8::*;

use crate::conversions::string_push;
use crate::cursor::Cursor;
use crate::piece_table::PieceTable;
use crate::text::lemma_encode_concat;

verus! {

// ── EditOp ────────────────────────────────────────────────────────────────────

/// A single undoable/redoable edit.
pub struct EditOp {
    pub(crate) kind: OpKind,
    /// Cursor position before this op was applied; restored on undo.
    pub(crate) cursor_before: Cursor,
    /// Cursor position after this op was applied; restored on redo.
    pub(crate) cursor_after: Cursor,
}

pub(crate) enum OpKind {
    Insert { at: usize, text: String },
    Delete { at: usize, text: String },
}

/// The mathematical model of an edit: an insertion or a deletion of `text`
/// (as UTF-8 bytes) at byte offset `at`, with the cursors around it.
pub struct OpView {
    pub insert: bool,
    pub at: int,
    pub text: Seq<u8>,
    pub before: Cursor,
    pub after: Cursor,
}

impl View for EditOp {
    type V = OpView;

    closed spec fn view(&self) -> OpView {
        match self.kind {
            OpKind::Insert { at, text } => OpView {
                insert: true,
                at: at as int,
                text: encode_utf8(text@),
                before: self.cursor_before,
                after: self.cursor_after,
            },
            OpKind::Delete { at, text } => OpView {
                insert: false,
                at: at as int,
                text: encode_utf8(text@),
                before: self.cursor_before,
                after: self.cursor_after,
            },
        }
    }
}

/// Content after reverting `op` from `c`.
pub open spec fn undo_effect(op: OpView, c: Seq<u8>) -> Seq<u8> {
    if op.insert {
        c.subrange(0, op.at) + c.subrange(op.at + op.text.len(), c.len() as int)
    } else {
        c.subrange(0, op.at) + op.text + c.subrange(op.at, c.len() as int)
    }
}

/// Content after re-applying `op` to `c`.
pub open spec fn redo_effect(op: OpView, c: Seq<u8>) -> Seq<u8> {
    if op.insert {
        c.subrange(0, op.at) + op.text + c.subrange(op.at, c.len() as int)
    } else {
        c.subrange(0, op.at) + c.subrange(op.at + op.text.len(), c.len() as int)
    }
}

/// Removing `len` bytes at `at` from `c` stays within `c` and on char
/// boundaries.
pub open spec fn can_remove(c: Seq<u8>, at: int, len: int) -> bool {
    &&& 0 <= at
    &&& at + len <= c.len()
    &&& len > 0 ==> is_char_boundary(c, at) && is_char_boundary(c, at + len)
}

/// Inserting `len` bytes at `at` into `c` stays within `c`, on a char
/// boundary, and within the size limit of a buffer.
pub open spec fn can_add(c: Seq<u8>, at: int, len: int) -> bool {
    &&& 0 <= at <= c.len()
    &&& len > 0 ==> is_char_boundary(c, at)
    &&& c.len() + len < usize::MAX
}

/// Reverting `op` from `c` is within what the buffer accepts.
pub open spec fn undo_safe(op: OpView, c: Seq<u8>) -> bool {
    if op.insert {
        can_remove(c, op.at, op.text.len() as int)
    } else {
        can_add(c, op.at, op.text.len() as int)
    }
}

/// Re-applying `op` to `c` is within what the buffer accepts.
pub open spec fn redo_safe(op: OpView, c: Seq<u8>) -> bool {
    if op.insert {
        can_add(c, op.at, op.text.len() as int)
    } else {
        can_remove(c, op.at, op.text.len() as int)
    }
}

// ── History ───────────────────────────────────────────────────────────────────

struct PendingInsert {
    at: usize,
    text: String,
    cursor_before: Cursor,
    cursor_after: Cursor,
}

impl View for PendingInsert {
    type V = OpView;

    closed spec fn view(&self) -> OpView {
        OpView {
            insert: true,
            at: self.at as int,
            text: encode_utf8(self.text@),
            before: self.cursor_before,
            after: self.cursor_after,
        }
    }
}

/// Bounded undo/redo history with single-char coalescing.
pub struct History {
    undo_stack: VecDeque<EditOp>,
    redo_stack: Vec<EditOp>,
    capacity: usize,
    pending: Option<PendingInsert>,
}

/// The model of a history: the undo stack (oldest first), the redo stack
/// (next to redo last), the insert still being coalesced, and the bound on
/// the undo stack.
pub struct HistoryView {
    pub undo: Seq<OpView>,
    pub redo: Seq<OpView>,
    pub pending: Option<OpView>,
    pub capacity: nat,
}

/// The models of a sequence of edits.
pub open spec fn ops_view(s: Seq<EditOp>) -> Seq<OpView> {
    s.map_values(|e: EditOp| e@)
}

impl HistoryView {
    /// Record `op` as the newest undo entry: the redo stack is cleared, and the
    /// oldest entry is dropped when the stack is full. A history of capacity 0
    /// keeps no entry.
    pub open spec fn commit(self, op: OpView) -> HistoryView {
        if self.capacity == 0 {
            HistoryView { undo: Seq::empty(), redo: Seq::empty(), ..self }
        } else {
            let kept = if self.undo.len() == self.capacity && self.undo.len() > 0 {
                self.undo.drop_first()
            } else {
                self.undo
            };
            HistoryView { undo: kept.push(op), redo: Seq::empty(), ..self }
        }
    }

    /// Move the insert being coalesced, if any, onto the undo stack.
    pub open spec fn flush(self) -> HistoryView {
        match self.pending {
            None => self,
            Some(p) => HistoryView { pending: None, ..self }.commit(p),
        }
    }

    /// `true` when a character typed at `at` continues the pending insert.
    pub open spec fn continues_pending(self, at: int) -> bool {
        self.pending matches Some(p) && at == p.at + p.text.len()
    }

    /// Record a typed character; like any new edit, it clears the redo stack.
    pub open spec fn push_char(self, at: int, ch: char, before: Cursor, after: Cursor) -> HistoryView {
        if self.continues_pending(at) {
            let p = self.pending->0;
            HistoryView {
                pending: Some(OpView { text: p.text + encode_utf8(seq![ch]), after, ..p }),
                redo: Seq::empty(),
                ..self
            }
        } else {
            HistoryView {
                pending: Some(
                    OpView { insert: true, at, text: encode_utf8(seq![ch]), before, after },
                ),
                redo: Seq::empty(),
                ..self.flush()
            }
        }
    }

    /// The edits that undo reverts, oldest first: the undo stack, then the
    /// insert being coalesced.
    pub open spec fn undoable(self) -> Seq<OpView> {
        match self.pending {
            None => self.undo,
            Some(p) => self.undo.push(p),
        }
    }

    /// The entry that the next undo reverts, if any.
    pub open spec fn next_undo(self) -> Option<OpView> {
        let f = self.flush();
        if f.undo.len() == 0 {
            None
        } else {
            Some(f.undo.last())
        }
    }

    /// The history after an undo.
    pub open spec fn after_undo(self) -> HistoryView {
        let f = self.flush();
        if f.undo.len() == 0 {
            f
        } else {
            HistoryView { undo: f.undo.drop_last(), redo: f.redo.push(f.undo.last()), ..f }
        }
    }

    /// The entry that the next redo re-applies, if any.
    pub open spec fn next_redo(self) -> Option<OpView> {
        if self.redo.len() == 0 {
            None
        } else {
            Some(self.redo.last())
        }
    }

    /// The history after a redo (the entry goes back onto the undo stack,
    /// with no bound applied).
    pub open spec fn after_redo(self) -> HistoryView {
        if self.redo.len() == 0 {
            self
        } else {
            HistoryView { undo: self.undo.push(self.redo.last()), redo: self.redo.drop_last(), ..self }
        }
    }

    /// The undo and redo stacks together hold at most `capacity` edits.
    pub open spec fn within_bound(self) -> bool {
        self.undo.len() + self.redo.len() <= self.capacity
    }

    /// The pending insert's end offset fits in a `usize`.
    pub open spec fn pending_fits(self) -> bool {
        self.pending matches Some(p) ==> p.at + p.text.len() <= usize::MAX
    }
}

/// Committing, flushing, typing a char, undoing and redoing all keep the
/// undo and redo stacks together within the bound; so the undo stack never
/// holds more than `capacity` edits (none at all for a bound of 0).
pub proof fn law_history_within_bound(
    h: HistoryView,
    op: OpView,
    at: int,
    ch: char,
    before: Cursor,
    after: Cursor,
)
    requires
        h.within_bound(),
    ensures
        h.commit(op).within_bound(),
        h.flush().within_bound(),
        h.push_char(at, ch, before, after).within_bound(),
        h.after_undo().within_bound(),
        h.after_redo().within_bound(),
        h.commit(op).undo.len() <= h.capacity,
{
}

/// Recording an edit makes it the newest undo entry and keeps the newest
/// entries before it, as many as the bound leaves room for: all of them
/// while the stack is not full, all but the oldest when it is.
pub proof fn law_commit_keeps_the_newest(h: HistoryView, op: OpView)
    requires
        h.undo.len() <= h.capacity,
        h.capacity > 0,
    ensures
        h.commit(op).undo.len() == (if h.undo.len() < h.capacity {
            h.undo.len() + 1int
        } else {
            h.capacity as int
        }),
        h.commit(op).undo.last() == op,
        h.commit(op).undo.drop_last() == h.undo.skip(h.undo.len() + 1 - h.commit(op).undo.len()),
        h.commit(op).redo.len() == 0,
        h.commit(op).pending == h.pending,
{
    let u = h.commit(op).undo;
    if h.undo.len() == h.capacity {
        assert(u.drop_last() =~= h.undo.skip(1));
    } else {
        assert(u.drop_last() =~= h.undo.skip(0));
    }
}

/// A new edit recorded after an undo clears the redo stack: committing
/// empties it, whether or not an insert was being coalesced, and so does a
/// typed char.
pub proof fn law_new_edit_clears_redo(
    h: HistoryView,
    op: OpView,
    at: int,
    ch: char,
    before: Cursor,
    after: Cursor,
)
    ensures
        h.commit(op).redo.len() == 0,
        h.flush().commit(op).redo.len() == 0,
        h.push_char(at, ch, before, after).redo.len() == 0,
{
}

/// A typed char that continues the insert being coalesced joins it: no undo
/// entry is added, and the coalesced insert's text grows by the char.
pub proof fn law_typed_char_joins_pending(
    h: HistoryView,
    at: int,
    ch: char,
    before: Cursor,
    after: Cursor,
)
    requires
        h.continues_pending(at),
    ensures
        h.push_char(at, ch, before, after).undoable().len() == h.undoable().len(),
        h.push_char(at, ch, before, after).undo == h.undo,
        h.push_char(at, ch, before, after).pending matches Some(p) && p.text == h.pending->0.text
            + encode_utf8(seq![ch]) && p.at == h.pending->0.at,
{
}

impl View for History {
    type V = HistoryView;

    closed spec fn view(&self) -> HistoryView {
        HistoryView {
            undo: ops_view(self.undo_stack@),
            redo: ops_view(self.redo_stack@),
            pending: match self.pending {
                None => None,
                Some(p) => Some(p@),
            },
            capacity: self.capacity as nat,
        }
    }
}

impl History {
    /// The insert being coalesced is an insertion.
    pub proof fn lemma_pending_is_insert(&self)
        ensures
            self@.pending matches Some(p) ==> p.insert,
    {
    }

    /// Create a history with the given maximum undo depth.
    pub fn new(capacity: usize) -> (h: Self)
        ensures
            h@ == (HistoryView {
                undo: Seq::empty(),
                redo: Seq::empty(),
                pending: None,
                capacity: capacity as nat,
            }),
    {
        let h = Self {
            undo_stack: VecDeque::new(),
            redo_stack: Vec::new(),
            capacity,
            pending: None,
        };
        proof {
            assert(ops_view(h.undo_stack@) =~= Seq::<OpView>::empty());
            assert(ops_view(h.redo_stack@) =~= Seq::<OpView>::empty());
        }
        h
    }

    /// Record a single non-newline character insert, coalescing when consecutive.
    ///
    /// `cursor_before`/`cursor_after` are the cursor states immediately before
    /// and after the character was written to the buffer.
    pub fn push_char(&mut self, at: usize, ch: char, cursor_before: Cursor, cursor_after: Cursor)
        requires
            old(self)@.pending_fits(),
        ensures
            final(self)@ == old(self)@.push_char(at as int, ch, cursor_before, cursor_after),
    {
        self.redo_stack.clear();
        let ghost h0 = HistoryView { redo: Seq::empty(), ..old(self)@ };
        proof {
            assert(self@.redo =~= Seq::<OpView>::empty());
            assert(self@ == h0);
        }
        if let Some(p) = &self.pending {
            if at == p.at + p.text.as_str().as_bytes().len() {
                if let Some(mut p) = self.pending.take() {
                    proof {
                        lemma_encode_concat(p.text@, seq![ch]);
                        assert(p.text@.push(ch) =~= p.text@ + seq![ch]);
                        assert(h0.continues_pending(at as int));
                    }
                    string_push(&mut p.text, ch);
                    p.cursor_after = cursor_after;
                    self.pending = Some(p);
                }
                proof {
                    assert(self@ =~= h0.push_char(at as int, ch, cursor_before, cursor_after));
                }
                return;
            }
        }
        // Not consecutive — flush whatever was pending and start fresh.
        self.flush_pending_inner();
        let mut text = String::new();
        string_push(&mut text, ch);
        proof {
            assert(text@ =~= seq![ch]);
        }
        self.pending = Some(PendingInsert { at, text, cursor_before, cursor_after });
        proof {
            assert(self@ =~= h0.push_char(at as int, ch, cursor_before, cursor_after));
        }
    }

    /// Record a multi-char or special (newline/tab) insert immediately.
    pub fn push_insert(&mut self, at: usize, text: String, cursor_before: Cursor, cursor_after: Cursor)
        ensures
            final(self)@ == old(self)@.flush().commit(
                OpView {
                    insert: true,
                    at: at as int,
                    text: encode_utf8(text@),
                    before: cursor_before,
                    after: cursor_after,
                },
            ),
    {
        self.flush_pending_inner();
        self.commit(EditOp { kind: OpKind::Insert { at, text }, cursor_before, cursor_after });
    }

    /// Record a delete immediately.
    pub fn push_delete(&mut self, at: usize, text: String, cursor_before: Cursor, cursor_after: Cursor)
        ensures
            final(self)@ == old(self)@.flush().commit(
                OpView {
                    insert: false,
                    at: at as int,
                    text: encode_utf8(text@),
                    before: cursor_before,
                    after: cursor_after,
                },
            ),
    {
        self.flush_pending_inner();
        self.commit(EditOp { kind: OpKind::Delete { at, text }, cursor_before, cursor_after });
    }

    /// Flush any pending coalesced insert to the undo stack.
    ///
    /// Call this on cursor movement, mode change, or idle timeout.
    pub fn flush_pending(&mut self)
        ensures
            final(self)@ == old(self)@.flush(),
    {
        self.flush_pending_inner();
    }

    /// `true` if there is anything on the undo stack (including pending).
    pub fn can_undo(&self) -> (r: bool)
        ensures
            r == (self@.pending is Some || self@.undo.len() > 0),
    {
        self.pending.is_some() || self.undo_stack.len() > 0
    }

    /// Number of entries on the undo stack (not counting a pending insert).
    pub fn undo_len(&self) -> (r: usize)
        ensures
            r == self@.undo.len(),
    {
        self.undo_stack.len()
    }

    /// `true` if there is anything on the redo stack.
    pub fn can_redo(&self) -> (r: bool)
        ensures
            r == (self@.redo.len() > 0),
    {
        self.redo_stack.len() > 0
    }

    /// Undo the most recent op. Applies the inverse to `buf` and returns the
    /// cursor to restore, or `None` if the stack was empty.
    pub fn undo(&mut self, buf: &mut PieceTable) -> (r: Option<Cursor>)
        requires
            old(buf).wf(),
            old(self)@.next_undo() matches Some(op) ==> undo_safe(op, old(buf)@),
        ensures
            final(buf).wf(),
            final(self)@ == old(self)@.after_undo(),
            match old(self)@.next_undo() {
                None => r is None && final(buf)@ == old(buf)@,
                Some(op) => r == Some(op.before) && final(buf)@ == undo_effect(op, old(buf)@),
            },
    {
        proof {
            old(buf).lemma_wf_content();
        }
        self.flush_pending_inner();
        let ghost h1 = self@;
        let op = match self.undo_stack.pop_back() {
            Some(op) => op,
            None => {
                proof {
                    assert(h1.undo.len() == 0);
                }
                return None;
            },
        };
        proof {
            assert(op@ == h1.undo.last());
        }
        match &op.kind {
            OpKind::Insert { at, text } => {
                let len = text.as_str().as_bytes().len();
                proof {
                    assert(op@.insert);
                    assert(op@.at == *at as int);
                    assert(op@.text == encode_utf8(text@));
                    assert(len == op@.text.len());
                }
                buf.delete(*at..*at + len);
            },
            OpKind::Delete { at, text } => {
                proof {
                    encode_utf8_valid_utf8(text@);
                }
                buf.insert(*at, text.as_str());
            },
        }
        let cursor = op.cursor_before;
        self.redo_stack.push(op);
        proof {
            assert(self@.undo =~= h1.undo.drop_last());
            assert(self@.redo =~= h1.redo.push(h1.undo.last()));
        }
        Some(cursor)
    }

    /// Redo the most recently undone op. Re-applies it to `buf` and returns
    /// the cursor to restore, or `None` if the redo stack was empty.
    pub fn redo(&mut self, buf: &mut PieceTable) -> (r: Option<Cursor>)
        requires
            old(buf).wf(),
            old(self)@.next_redo() matches Some(op) ==> redo_safe(op, old(buf)@),
        ensures
            final(buf).wf(),
            final(self)@ == old(self)@.after_redo(),
            match old(self)@.next_redo() {
                None => r is None && final(buf)@ == old(buf)@,
                Some(op) => r == Some(op.after) && final(buf)@ == redo_effect(op, old(buf)@),
            },
    {
        proof {
            old(buf).lemma_wf_content();
        }
        let ghost h0 = self@;
        let op = match self.redo_stack.pop() {
            Some(op) => op,
            None => {
                return None;
            },
        };
        proof {
            assert(op@ == h0.redo.last());
        }
        match &op.kind {
            OpKind::Insert { at, text } => {
                proof {
                    encode_utf8_valid_utf8(text@);
                }
                buf.insert(*at, text.as_str());
            },
            OpKind::Delete { at, text } => {
                let len = text.as_str().as_bytes().len();
                buf.delete(*at..*at + len);
            },
        }
        let cursor = op.cursor_after;
        self.undo_stack.push_back(op);
        proof {
            assert(self@.undo =~= h0.undo.push(h0.redo.last()));
            assert(self@.redo =~= h0.redo.drop_last());
        }
        Some(cursor)
    }

    // ── private ───────────────────────────────────────────────────────────────

    fn flush_pending_inner(&mut self)
        ensures
            final(self)@ == old(self)@.flush(),
    {
        if let Some(p) = self.pending.take() {
            let ghost h0 = self@;
            self.commit(
                EditOp {
                    kind: OpKind::Insert { at: p.at, text: p.text },
                    cursor_before: p.cursor_before,
                    cursor_after: p.cursor_after,
                },
            );
        }
    }

    fn commit(&mut self, op: EditOp)
        ensures
            final(self)@ == old(self)@.commit(op@),
            final(self).pending == old(self).pending,
    {
        let ghost h0 = self@;
        self.redo_stack.clear();
        if self.capacity == 0 {
            self.undo_stack.clear();
            proof {
                assert(self@.redo =~= Seq::<OpView>::empty());
                assert(self@.undo =~= Seq::<OpView>::empty());
            }
            return;
        }
        if self.undo_stack.len() == self.capacity {
            self.undo_stack.pop_front();
        }
        self.undo_stack.push_back(op);
        proof {
            assert(self@.redo =~= Seq::<OpView>::empty());
            assert(self@.undo =~= h0.commit(op@).undo);
        }
    }
}

} // verus!
