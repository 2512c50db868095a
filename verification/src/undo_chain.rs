//! What undo can always get back to. The edits that a history records,
//! undone newest first, lead from the current content back to the content
//! they started from. The laws here show that undoing and redoing an edit
//! cancel out, that editing, moving the cursor and undoing keep that chain
//! intact, that undo, redo and motions keep every undone edit redoable in
//! turn, that once nothing is left to undo the content is the one the
//! edits started from, and that undoing as often as there were steps since
//! a document was opened gives back the text it was opened with.
use vstd::prelude::*;
use vstd::utf8::*;

use crate::cursor::Cursor;
use crate::document::DocView;
use crate::history::{
    redo_effect, redo_safe, undo_effect, undo_safe, HistoryView, OpView,
};
use crate::layout::{
    delete_op, insert_op, lemma_backspace_cursor, lemma_delete_cursor,
    lemma_insert_cursor, lemma_valid_cursor_offset, lemma_wide_char_no_newline, valid_cursor,
};
use crate::text::{
    lemma_concat_boundary, lemma_first_scalar_at, lemma_newline_positions, lemma_range_valid,
    lemma_split_valid,
};

verus! {

/* ── the chain ───────────────────────────────────────────────────────────── */

/// `c` holds what `op` left behind, so reverting it is sound: the revert is
/// within what the buffer accepts, the edit's text is valid UTF-8, an
/// insertion's text is still in place, and the cursors recorded around the
/// edit are valid after it (in `c`) and before it (once reverted).
pub open spec fn reverts(op: OpView, c: Seq<u8>) -> bool {
    &&& undo_safe(op, c)
    &&& valid_utf8(op.text)
    &&& op.insert ==> c.subrange(op.at, op.at + op.text.len()) == op.text
    &&& valid_cursor(c, op.after)
    &&& valid_cursor(undo_effect(op, c), op.before)
}

/// Re-applying `op` to `c` is sound: within what the buffer accepts, with
/// valid text, a deletion's text in place, and the recorded cursors valid
/// before the edit (in `c`) and after it (once re-applied).
pub open spec fn replays(op: OpView, c: Seq<u8>) -> bool {
    &&& redo_safe(op, c)
    &&& valid_utf8(op.text)
    &&& !op.insert ==> c.subrange(op.at, op.at + op.text.len()) == op.text
    &&& valid_cursor(c, op.before)
    &&& valid_cursor(redo_effect(op, c), op.after)
}

/// Reverting `ops` newest first, starting from `c`: the content reached, if
/// every step is sound.
pub open spec fn unwound(ops: Seq<OpView>, c: Seq<u8>) -> Option<Seq<u8>>
    decreases ops.len(),
{
    if ops.len() == 0 {
        Some(c)
    } else if reverts(ops.last(), c) {
        unwound(ops.drop_last(), undo_effect(ops.last(), c))
    } else {
        None
    }
}

/// The content that undoing everything a history records leads to, from
/// content `c`.
pub open spec fn origin_of(h: HistoryView, c: Seq<u8>) -> Option<Seq<u8>> {
    unwound(h.undoable(), c)
}

/// The content that undoing every recorded edit of a document leads to.
pub open spec fn origin(d: DocView) -> Option<Seq<u8>> {
    origin_of(d.history, d.content)
}

/// A document state that the edits apply to: valid UTF-8 content within a
/// buffer's size limit, a valid cursor, and a coalesced edit (if any) that
/// is an insertion, typed since the last undo (so nothing is left to redo).
pub open spec fn editable(d: DocView) -> bool {
    &&& valid_utf8(d.content)
    &&& d.content.len() < usize::MAX
    &&& valid_cursor(d.content, d.cursor)
    &&& d.history.pending matches Some(p) ==> p.insert
    &&& d.history.pending is Some ==> d.history.redo.len() == 0
}

/// The undo stack, with the insert being coalesced, is below its bound:
/// recording one more edit drops nothing.
pub open spec fn has_room(h: HistoryView) -> bool {
    h.undoable().len() < h.capacity
}

/* ── splitting and joining valid text ────────────────────────────────────── */

/// Valid text cut at two char boundaries is three valid parts.
proof fn lemma_cut(c: Seq<u8>, i: int, j: int)
    requires
        valid_utf8(c),
        0 <= i <= j <= c.len(),
        is_char_boundary(c, i),
        is_char_boundary(c, j),
    ensures
        valid_utf8(c.subrange(0, i)),
        valid_utf8(c.subrange(i, j)),
        valid_utf8(c.subrange(j, c.len() as int)),
        c == c.subrange(0, i) + c.subrange(i, j) + c.subrange(j, c.len() as int),
{
    lemma_split_valid(c, i);
    lemma_split_valid(c, j);
    lemma_range_valid(c, i, j);
    assert(c =~= c.subrange(0, i) + c.subrange(i, j) + c.subrange(j, c.len() as int));
}

/// Three valid parts joined are valid, with char boundaries where they meet.
proof fn lemma_join(x: Seq<u8>, m: Seq<u8>, y: Seq<u8>)
    requires
        valid_utf8(x),
        valid_utf8(m),
        valid_utf8(y),
    ensures
        valid_utf8(x + m + y),
        is_char_boundary(x + m + y, x.len() as int),
        is_char_boundary(x + m + y, (x.len() + m.len()) as int),
        (x + m + y).subrange(0, x.len() as int) == x,
        (x + m + y).subrange(x.len() as int, (x.len() + m.len()) as int) == m,
        (x + m + y).subrange((x.len() + m.len()) as int, (x + m + y).len() as int) == y,
{
    is_char_boundary_start_end_of_seq(x);
    is_char_boundary_start_end_of_seq(m);
    lemma_concat_boundary(x, m, x.len() as int);
    lemma_concat_boundary(x, m, (x.len() + m.len()) as int);
    lemma_concat_boundary(x + m, y, x.len() as int);
    lemma_concat_boundary(x + m, y, (x.len() + m.len()) as int);
    assert((x + m + y).subrange(0, x.len() as int) =~= x);
    assert((x + m + y).subrange(x.len() as int, (x.len() + m.len()) as int) =~= m);
    assert((x + m + y).subrange((x.len() + m.len()) as int, (x + m + y).len() as int) =~= y);
}

/* ── undo and redo cancel out ────────────────────────────────────────────── */

/// Undoing an edit and then redoing it gives back the content it was undone
/// from, and the redo is sound.
pub proof fn law_undo_then_redo(op: OpView, c: Seq<u8>)
    requires
        valid_utf8(c),
        c.len() < usize::MAX,
        reverts(op, c),
    ensures
        replays(op, undo_effect(op, c)),
        redo_effect(op, undo_effect(op, c)) == c,
{
    let at = op.at;
    let n = op.text.len() as int;
    let c1 = undo_effect(op, c);
    if op.insert {
        if n == 0 {
            assert(c1 =~= c);
            assert(redo_effect(op, c1) =~= c);
        } else {
            lemma_cut(c, at, at + n);
            let x = c.subrange(0, at);
            let y = c.subrange(at + n, c.len() as int);
            lemma_join(x, Seq::empty(), y);
            assert(x + Seq::<u8>::empty() + y =~= c1);
            assert(c1.subrange(0, at) =~= x);
            assert(c1.subrange(at, c1.len() as int) =~= y);
        }
        assert(redo_effect(op, c1) =~= c);
    } else {
        if n == 0 {
            assert(c1 =~= c);
            assert(c1.subrange(at, at + n) =~= op.text);
            assert(redo_effect(op, c1) =~= c);
        } else {
            lemma_split_valid(c, at);
            let x = c.subrange(0, at);
            let y = c.subrange(at, c.len() as int);
            lemma_join(x, op.text, y);
            assert(c1 =~= x + op.text + y);
            assert(redo_effect(op, c1) =~= c);
        }
    }
}

/// Redoing an edit and then undoing it gives back the content it was redone
/// from, and the undo is sound.
pub proof fn law_redo_then_undo(op: OpView, c: Seq<u8>)
    requires
        valid_utf8(c),
        c.len() < usize::MAX,
        replays(op, c),
    ensures
        reverts(op, redo_effect(op, c)),
        undo_effect(op, redo_effect(op, c)) == c,
{
    let at = op.at;
    let n = op.text.len() as int;
    let c1 = redo_effect(op, c);
    if op.insert {
        if n == 0 {
            assert(c1 =~= c);
            assert(c1.subrange(at, at + n) =~= op.text);
        } else {
            lemma_split_valid(c, at);
            let x = c.subrange(0, at);
            let y = c.subrange(at, c.len() as int);
            lemma_join(x, op.text, y);
            assert(c1 =~= x + op.text + y);
        }
        assert(undo_effect(op, c1) =~= c);
    } else {
        if n == 0 {
            assert(c1 =~= c);
            assert(undo_effect(op, c1) =~= c);
        } else {
            lemma_cut(c, at, at + n);
            let x = c.subrange(0, at);
            let y = c.subrange(at + n, c.len() as int);
            lemma_join(x, Seq::empty(), y);
            assert(x + Seq::<u8>::empty() + y =~= c1);
            assert(c1.subrange(0, at) =~= x);
            assert(c1.subrange(at, c1.len() as int) =~= y);
            assert(undo_effect(op, c1) =~= c);
        }
    }
}

/* ── the chain under pushes, undo and eviction ───────────────────────────── */

proof fn lemma_unwound_push(ops: Seq<OpView>, op: OpView, c: Seq<u8>)
    ensures
        unwound(ops.push(op), c) == if reverts(op, c) {
            unwound(ops, undo_effect(op, c))
        } else {
            None
        },
{
    assert(ops.push(op).drop_last() =~= ops);
    assert(ops.push(op).last() == op);
}

/// Forgetting the oldest edit keeps the chain sound.
proof fn lemma_unwound_drop_first(ops: Seq<OpView>, c: Seq<u8>)
    requires
        ops.len() > 0,
        unwound(ops, c) is Some,
    ensures
        unwound(ops.drop_first(), c) is Some,
    decreases ops.len(),
{
    if ops.len() == 1 {
        assert(ops.drop_first() =~= Seq::<OpView>::empty());
    } else {
        let rest = ops.drop_first();
        assert(rest.last() == ops.last());
        assert(rest.drop_last() =~= ops.drop_last().drop_first());
        lemma_unwound_drop_first(ops.drop_last(), undo_effect(ops.last(), c));
    }
}

/// Committing the insert being coalesced keeps what undo reverts, but for
/// the oldest entry when the undo stack is full.
proof fn lemma_flush_undoable(h: HistoryView)
    ensures
        h.flush().pending is None,
        h.flush().capacity == h.capacity,
        h.flush().undoable() == h.undoable() || (h.undoable().len() > 1
            && h.flush().undoable() == h.undoable().drop_first()) || h.flush().undoable().len()
            == 0,
        h.undoable().len() <= h.capacity ==> h.flush().undoable() == h.undoable(),
{
    if let Some(p) = h.pending {
        if h.capacity == 0 {
        } else if h.undo.len() == h.capacity && h.undo.len() > 0 {
            assert(h.flush().undo =~= h.undo.push(p).drop_first());
        } else {
            assert(h.flush().undo =~= h.undo.push(p));
        }
    }
}

/// Committing an edit pushes it onto what undo reverts, dropping the oldest
/// entry when the undo stack is full.
proof fn lemma_commit_undoable(h: HistoryView, op: OpView)
    requires
        h.pending is None,
    ensures
        h.commit(op).pending is None,
        h.commit(op).undoable() == h.undo.push(op) || (h.undo.len() > 0
            && h.commit(op).undoable() == h.undo.drop_first().push(op)) || h.commit(
            op,
        ).undoable().len() == 0,
        h.undo.len() < h.capacity ==> h.commit(op).undoable() == h.undo.push(op),
{
}

/// The chain after a flush is sound when it was, and unchanged while the
/// stack is within its bound.
proof fn lemma_flush_origin(h: HistoryView, c: Seq<u8>)
    requires
        origin_of(h, c) is Some,
    ensures
        origin_of(h.flush(), c) is Some,
        h.undoable().len() <= h.capacity ==> origin_of(h.flush(), c) == origin_of(h, c),
{
    lemma_flush_undoable(h);
    if h.flush().undoable().len() == 0 {
    } else if h.flush().undoable() != h.undoable() {
        lemma_unwound_drop_first(h.undoable(), c);
    }
}

/// Recording an edit that took the content from `c` to `c2`, and that
/// reverts from `c2` back to `c`, keeps the chain sound, and keeps its origin
/// while the stack has room.
proof fn lemma_record(h: HistoryView, c: Seq<u8>, op: OpView, c2: Seq<u8>)
    requires
        origin_of(h, c) is Some,
        reverts(op, c2),
        undo_effect(op, c2) == c,
    ensures
        origin_of(h.flush().commit(op), c2) is Some,
        has_room(h) ==> origin_of(h.flush().commit(op), c2) == origin_of(h, c),
{
    let h1 = h.flush();
    lemma_flush_origin(h, c);
    lemma_flush_undoable(h);
    lemma_commit_undoable(h1, op);
    let u1 = h1.undo;
    assert(h1.undoable() == u1);
    if h1.commit(op).undoable().len() == 0 {
    } else if h1.commit(op).undoable() == u1.push(op) {
        lemma_unwound_push(u1, op, c2);
    } else {
        lemma_unwound_drop_first(u1, c);
        lemma_unwound_push(u1.drop_first(), op, c2);
    }
}

/// Recording `op` as the new coalesced insert after committing the old one.
proof fn lemma_record_pending(h: HistoryView, c: Seq<u8>, op: OpView, c2: Seq<u8>)
    requires
        origin_of(h, c) is Some,
        reverts(op, c2),
        undo_effect(op, c2) == c,
    ensures
        origin_of(HistoryView { pending: Some(op), redo: Seq::empty(), ..h.flush() }, c2) is Some,
        h.undoable().len() <= h.capacity ==> origin_of(
            HistoryView { pending: Some(op), redo: Seq::empty(), ..h.flush() },
            c2,
        ) == origin_of(h, c),
{
    lemma_flush_origin(h, c);
    lemma_flush_undoable(h);
    let h2 = HistoryView { pending: Some(op), redo: Seq::empty(), ..h.flush() };
    assert(h2.undoable() == h.flush().undoable().push(op));
    lemma_unwound_push(h.flush().undoable(), op, c2);
}

/* ── edits keep the chain ────────────────────────────────────────────────── */

/// The content after splicing `t` in at `at`, with the facts about its
/// boundaries and pieces.
proof fn lemma_splice_in(c: Seq<u8>, at: int, t: Seq<u8>)
    requires
        valid_utf8(c),
        valid_utf8(t),
        0 <= at <= c.len(),
        is_char_boundary(c, at),
    ensures
        ({
            let c2 = c.subrange(0, at) + t + c.subrange(at, c.len() as int);
            &&& valid_utf8(c2)
            &&& is_char_boundary(c2, at)
            &&& is_char_boundary(c2, at + t.len())
            &&& c2.subrange(0, at) == c.subrange(0, at)
            &&& c2.subrange(at, at + t.len()) == t
            &&& c2.subrange(at + t.len(), c2.len() as int) == c.subrange(at, c.len() as int)
            &&& c2.subrange(0, at) + c2.subrange(at + t.len(), c2.len() as int) == c
        }),
{
    lemma_split_valid(c, at);
    let x = c.subrange(0, at);
    let y = c.subrange(at, c.len() as int);
    lemma_join(x, t, y);
    assert(x + y =~= c);
}

/// The content after cutting out `[i, j)`, with the facts about it.
proof fn lemma_cut_out(c: Seq<u8>, i: int, j: int)
    requires
        valid_utf8(c),
        0 <= i <= j <= c.len(),
        is_char_boundary(c, i),
        is_char_boundary(c, j),
    ensures
        ({
            let c2 = c.subrange(0, i) + c.subrange(j, c.len() as int);
            &&& valid_utf8(c2)
            &&& valid_utf8(c.subrange(i, j))
            &&& is_char_boundary(c2, i)
            &&& c2.subrange(0, i) + c.subrange(i, j) + c2.subrange(i, c2.len() as int) == c
        }),
{
    lemma_cut(c, i, j);
    let x = c.subrange(0, i);
    let y = c.subrange(j, c.len() as int);
    lemma_join(x, Seq::empty(), y);
    assert(x + Seq::<u8>::empty() + y =~= x + y);
    assert((x + y).subrange(0, i) =~= x);
    assert((x + y).subrange(i, (x + y).len() as int) =~= y);
}

/// Non-empty text encodes to at least one byte.
proof fn lemma_text_nonempty(text: Seq<char>)
    ensures
        text.len() > 0 ==> encode_utf8(text).len() > 0,
{
    if text.len() > 0 {
        assert(encode_utf8(text) == encode_scalar(text[0] as u32) + encode_utf8(text.drop_first()));
    }
}

/// The insertion of `t` at `at` reverts from the content it produced back
/// to `c`.
proof fn lemma_insert_reverts(c: Seq<u8>, at: int, t: Seq<u8>, before: Cursor, after: Cursor)
    requires
        valid_utf8(c),
        valid_utf8(t),
        0 <= at <= c.len(),
        is_char_boundary(c, at),
        valid_cursor(c, before),
        valid_cursor(c.subrange(0, at) + t + c.subrange(at, c.len() as int), after),
    ensures
        ({
            let c2 = c.subrange(0, at) + t + c.subrange(at, c.len() as int);
            &&& reverts(insert_op(at, t, before, after), c2)
            &&& undo_effect(insert_op(at, t, before, after), c2) == c
        }),
{
    lemma_splice_in(c, at, t);
    let c2 = c.subrange(0, at) + t + c.subrange(at, c.len() as int);
    assert(undo_effect(insert_op(at, t, before, after), c2) =~= c);
}

/// A char typed where the coalesced insert `p` ends extends it: the longer
/// insert reverts from the new content to where `p` reverted to.
proof fn lemma_extend_pending(p: OpView, c: Seq<u8>, t: Seq<u8>, after: Cursor)
    requires
        valid_utf8(c),
        valid_utf8(t),
        p.insert,
        reverts(p, c),
        is_char_boundary(c, p.at + p.text.len()),
        valid_cursor(
            c.subrange(0, p.at + p.text.len()) + t + c.subrange(p.at + p.text.len(), c.len() as int),
            after,
        ),
    ensures
        ({
            let at = p.at + p.text.len();
            let c2 = c.subrange(0, at) + t + c.subrange(at, c.len() as int);
            let p2 = OpView { text: p.text + t, after, ..p };
            &&& reverts(p2, c2)
            &&& undo_effect(p2, c2) == undo_effect(p, c)
        }),
{
    let at = p.at + p.text.len();
    lemma_splice_in(c, at, t);
    let c2 = c.subrange(0, at) + t + c.subrange(at, c.len() as int);
    let p2 = OpView { text: p.text + t, after, ..p };
    lemma_split_valid(c, at);
    let x = c.subrange(0, at);
    let y = c.subrange(at, c.len() as int);
    if p.text.len() > 0 {
        assert(x + y =~= c);
        lemma_concat_boundary(x, y, p.at);
        assert(c2 =~= x + (t + y));
        valid_utf8_concat(t, y);
        lemma_concat_boundary(x, t + y, p.at);
    }
    valid_utf8_concat(p.text, t);
    assert(c2.subrange(p.at, at) =~= c.subrange(p.at, at));
    assert(c2.subrange(p.at, at + t.len()) =~= c2.subrange(p.at, at) + c2.subrange(
        at,
        at + t.len(),
    ));
    assert(undo_effect(p2, c2) =~= undo_effect(p, c));
}

/// Typing keeps the recorded edits revertible; while the undo stack has
/// room, undoing them all still leads to the same content.
pub proof fn law_typing_keeps_origin(d: DocView, text: Seq<char>)
    requires
        editable(d),
        d.content.len() + encode_utf8(text).len() < usize::MAX,
        origin(d) is Some,
    ensures
        origin(d.typed(text)) is Some,
        has_room(d.history) ==> origin(d.typed(text)) == origin(d),
{
    if text.len() == 0 {
        return;
    }
    let c = d.content;
    let h = d.history;
    let at = d.offset();
    let t = encode_utf8(text);
    lemma_valid_cursor_offset(c, d.cursor);
    encode_utf8_valid_utf8(text);
    lemma_newline_positions(c);
    lemma_text_nonempty(text);
    lemma_insert_cursor(c, d.cursor, t);
    let e = d.typed(text);
    let c2 = e.content;
    assert(c2 == c.subrange(0, at) + t + c.subrange(at, c.len() as int));
    if text.len() == 1 && text[0] != '\n' {
        assert(text =~= seq![text[0]]);
        if h.continues_pending(at) {
            let p = h.pending->0;
            let p2 = OpView { text: p.text + t, after: e.cursor, ..p };
            assert(e.history == HistoryView { pending: Some(p2), redo: Seq::empty(), ..h });
            lemma_unwound_push(h.undo, p, c);
            lemma_extend_pending(p, c, t, e.cursor);
            lemma_unwound_push(h.undo, p2, c2);
        } else {
            let np = insert_op(at, t, d.cursor, e.cursor);
            assert(e.history == HistoryView { pending: Some(np), redo: Seq::empty(), ..h.flush() });
            lemma_insert_reverts(c, at, t, d.cursor, e.cursor);
            lemma_record_pending(h, c, np, c2);
        }
    } else {
        let op = insert_op(at, t, d.cursor, e.cursor);
        lemma_insert_reverts(c, at, t, d.cursor, e.cursor);
        lemma_record(h, c, op, c2);
    }
}

/// A backspace keeps the recorded edits revertible; while the undo stack has
/// room, undoing them all still leads to the same content.
pub proof fn law_backspace_keeps_origin(d: DocView)
    requires
        editable(d),
        origin(d) is Some,
    ensures
        origin(d.backspaced()) is Some,
        has_room(d.history) ==> origin(d.backspaced()) == origin(d),
{
    let c = d.content;
    let at = d.offset();
    lemma_valid_cursor_offset(c, d.cursor);
    if at == 0 {
        return;
    }
    lemma_backspace_cursor(c, d.cursor);
    let step = length_of_last_scalar(c.subrange(0, at));
    lemma_cut_out(c, at - step, at);
    let c2 = d.backspaced().content;
    let op = delete_op(at - step, c.subrange(at - step, at), d.cursor, d.backspaced().cursor);
    assert(undo_effect(op, c2) =~= c);
    assert(reverts(op, c2));
    lemma_record(d.history, c, op, c2);
}

/// A forward delete keeps the recorded edits revertible; while the undo
/// stack has room, undoing them all still leads to the same content.
pub proof fn law_delete_keeps_origin(d: DocView)
    requires
        editable(d),
        origin(d) is Some,
    ensures
        origin(d.deleted_forward()) is Some,
        has_room(d.history) ==> origin(d.deleted_forward()) == origin(d),
{
    let c = d.content;
    let at = d.offset();
    lemma_valid_cursor_offset(c, d.cursor);
    if at >= c.len() {
        return;
    }
    lemma_first_scalar_at(c, at);
    let step = length_of_first_scalar(c.subrange(at, c.len() as int));
    if step > 1 {
        lemma_wide_char_no_newline(c, at);
    }
    lemma_delete_cursor(c, d.cursor, step);
    lemma_cut_out(c, at, at + step);
    let c2 = d.deleted_forward().content;
    let op = delete_op(at, c.subrange(at, at + step), d.cursor, d.deleted_forward().cursor);
    assert(undo_effect(op, c2) =~= c);
    assert(reverts(op, c2));
    lemma_record(d.history, c, op, c2);
}

/// Moving the cursor keeps the recorded edits revertible, and undoing them
/// all still leads to the same content while the stack is within its bound.
pub proof fn law_motion_keeps_origin(d: DocView, cur: Cursor)
    requires
        origin(d) is Some,
    ensures
        origin(d.moved(cur)) is Some,
        d.history.undoable().len() <= d.history.capacity ==> origin(d.moved(cur)) == origin(d),
{
    lemma_flush_origin(d.history, d.content);
}

/* ── undo and redo on the document ───────────────────────────────────────── */

/// Reverting a sound edit keeps the content valid UTF-8 within a buffer's
/// size limit.
proof fn lemma_undo_valid(op: OpView, c: Seq<u8>)
    requires
        valid_utf8(c),
        c.len() < usize::MAX,
        reverts(op, c),
    ensures
        valid_utf8(undo_effect(op, c)),
        undo_effect(op, c).len() < usize::MAX,
{
    law_undo_then_redo(op, c);
    let n = op.text.len() as int;
    if n == 0 {
        if op.insert {
            assert(undo_effect(op, c) =~= c);
        } else {
            assert(undo_effect(op, c) =~= c);
        }
    } else if op.insert {
        lemma_cut_out(c, op.at, op.at + n);
    } else {
        lemma_splice_in(c, op.at, op.text);
    }
}

/// Re-applying a sound edit keeps the content valid UTF-8 within a buffer's
/// size limit.
proof fn lemma_redo_valid(op: OpView, c: Seq<u8>)
    requires
        valid_utf8(c),
        c.len() < usize::MAX,
        replays(op, c),
    ensures
        valid_utf8(redo_effect(op, c)),
        redo_effect(op, c).len() < usize::MAX,
{
    let n = op.text.len() as int;
    if n == 0 {
        assert(redo_effect(op, c) =~= c);
    } else if op.insert {
        lemma_splice_in(c, op.at, op.text);
    } else {
        lemma_cut_out(c, op.at, op.at + n);
    }
}

/// Undo is always sound on a sound chain: the edit it reverts is within
/// what the buffer accepts, the cursor it restores is valid, the chain stays
/// sound, and undoing the rest still leads to the same content while the
/// stack is within its bound.
pub proof fn law_undo_keeps_origin(d: DocView)
    requires
        origin(d) is Some,
    ensures
        d.history.next_undo() matches Some(op) ==> reverts(op, d.content) && undo_safe(
            op,
            d.content,
        ),
        origin(d.undone()) is Some,
        d.history.undoable().len() <= d.history.capacity ==> origin(d.undone()) == origin(d),
        editable(d) ==> editable(d.undone()),
{
    let h = d.history;
    let c = d.content;
    let f = h.flush();
    lemma_flush_origin(h, c);
    lemma_flush_undoable(h);
    assert(f.undoable() == f.undo);
    if f.undo.len() > 0 {
        assert(d.undone().history.undoable() == f.undo.drop_last());
        if editable(d) {
            lemma_undo_valid(f.undo.last(), c);
        }
    }
}

/// Redo, with an edit to redo that replays, keeps the chain sound with the
/// same origin and the state editable.
pub proof fn law_redo_keeps_origin(d: DocView)
    requires
        editable(d),
        origin(d) is Some,
        d.history.next_redo() matches Some(op) ==> replays(op, d.content),
    ensures
        origin(d.redone()) == origin(d),
        editable(d.redone()),
{
    if let Some(op) = d.history.next_redo() {
        law_redo_then_undo(op, d.content);
        lemma_redo_valid(op, d.content);
        lemma_unwound_push(d.history.undo, op, redo_effect(op, d.content));
    }
}

/// Once nothing is left to undo, the content is the one that the recorded
/// edits started from.
pub proof fn law_nothing_left_to_undo(d: DocView)
    requires
        d.history.capacity >= 1,
        origin(d) is Some,
        d.history.next_undo() is None,
    ensures
        origin(d) == Some(d.content),
{
    let h = d.history;
    lemma_flush_undoable(h);
    if let Some(p) = h.pending {
        assert(h.flush().undo.len() > 0);
    }
    assert(h.undoable().len() == 0);
}

/// Redoing right after an undo gives back the content and puts the cursor
/// after the edit; the redo is sound.
pub proof fn law_redo_after_undo(d: DocView)
    requires
        valid_utf8(d.content),
        d.content.len() < usize::MAX,
        origin(d) is Some,
        d.history.next_undo() is Some,
    ensures
        d.undone().history.next_redo() == d.history.next_undo(),
        redo_safe(d.history.next_undo()->0, d.undone().content),
        d.undone().redone().content == d.content,
        d.undone().redone().cursor == d.history.next_undo()->0.after,
{
    law_undo_keeps_origin(d);
    let op = d.history.next_undo()->0;
    law_undo_then_redo(op, d.content);
}

/// On a history whose recorded edits can all be undone from content `c`:
/// undoing the newest edit, redoing it and undoing it again. The redo gives
/// back `c` and the cursor after the edit; the second undo reverts the same
/// edit again, to the same content and cursor as the first.
pub proof fn law_undo_redo_undo(h: HistoryView, c: Seq<u8>)
    requires
        valid_utf8(c),
        c.len() < usize::MAX,
        origin_of(h, c) is Some,
        h.next_undo() is Some,
    ensures
        ({
            let op = h.next_undo()->0;
            let h1 = h.after_undo();
            let c1 = undo_effect(op, c);
            &&& undo_safe(op, c)
            &&& h1.next_redo() == Some(op)
            &&& redo_safe(op, c1)
            &&& redo_effect(op, c1) == c
            &&& h1.after_redo().next_undo() == Some(op)
            &&& undo_safe(op, redo_effect(op, c1))
            &&& undo_effect(op, redo_effect(op, c1)) == c1
        }),
{
    let f = h.flush();
    lemma_flush_origin(h, c);
    lemma_flush_undoable(h);
    assert(f.undoable() == f.undo);
    let op = f.undo.last();
    law_undo_then_redo(op, c);
    let h1 = h.after_undo();
    assert(h1.pending is None);
    assert(h1.after_redo().flush() == h1.after_redo());
}

/* ── the redo chain ──────────────────────────────────────────────────────── */

/// Redoing `ops` newest first, starting from `c`, is sound at every step.
pub open spec fn replayable(ops: Seq<OpView>, c: Seq<u8>) -> bool
    decreases ops.len(),
{
    ops.len() == 0 || (replays(ops.last(), c) && replayable(
        ops.drop_last(),
        redo_effect(ops.last(), c),
    ))
}

/// Every edit on a document's redo stack can be redone in turn.
pub open spec fn redo_chain(d: DocView) -> bool {
    replayable(d.history.redo, d.content)
}

/// A sound redo chain gives the next redo what it requires.
pub proof fn law_redo_chain_replays(d: DocView)
    requires
        redo_chain(d),
    ensures
        d.history.next_redo() matches Some(op) ==> replays(op, d.content),
{
}

/// Committing the insert being coalesced leaves the redo stack as it was,
/// or empties it.
proof fn lemma_flush_redo(h: HistoryView, c: Seq<u8>)
    requires
        replayable(h.redo, c),
    ensures
        replayable(h.flush().redo, c),
{
    if h.pending is Some {
        assert(h.flush().redo.len() == 0);
    }
}

/// Undo, redo and cursor motions keep the redo chain sound, so edits can be
/// redone one after another; typing, a backspace and a forward delete that
/// change the text empty the redo stack.
pub proof fn law_redo_chain_kept(d: DocView, cur: Cursor, text: Seq<char>)
    requires
        editable(d),
        origin(d) is Some,
        redo_chain(d),
    ensures
        redo_chain(d.undone()),
        redo_chain(d.redone()),
        redo_chain(d.moved(cur)),
        redo_chain(d.typed(text)),
        redo_chain(d.backspaced()),
        redo_chain(d.deleted_forward()),
        text.len() > 0 ==> d.typed(text).history.redo.len() == 0,
        d.offset() > 0 ==> d.backspaced().history.redo.len() == 0,
        d.offset() < d.content.len() ==> d.deleted_forward().history.redo.len() == 0,
{
    let h = d.history;
    let c = d.content;
    lemma_flush_redo(h, c);
    law_undo_keeps_origin(d);
    if let Some(op) = h.next_undo() {
        law_undo_then_redo(op, c);
        let f = h.flush();
        let r = f.redo.push(op);
        assert(d.undone().history.redo == r);
        assert(r.last() == op);
        assert(r.drop_last() =~= f.redo);
    }
}

/* ── an edit undone right away ───────────────────────────────────────────── */

/// Typing text and undoing it right away gives back the content and the
/// cursor from before, unless the text is one char that joins the insert
/// being coalesced (then that whole insert is undone with it).
pub proof fn law_undo_reverts_typing(d: DocView, text: Seq<char>)
    requires
        d.history.capacity >= 1,
        editable(d),
        text.len() > 0,
        !(text.len() == 1 && text[0] != '\n' && d.history.continues_pending(d.offset())),
    ensures
        d.typed(text).undone().content == d.content,
        d.typed(text).undone().cursor == d.cursor,
{
    let c = d.content;
    let at = d.offset();
    let t = encode_utf8(text);
    lemma_valid_cursor_offset(c, d.cursor);
    encode_utf8_valid_utf8(text);
    lemma_splice_in(c, at, t);
    let e = d.typed(text);
    let op = insert_op(at, t, d.cursor, e.cursor);
    if text.len() == 1 && text[0] != '\n' {
        assert(text =~= seq![text[0]]);
        assert(e.history == HistoryView { pending: Some(op), redo: Seq::empty(), ..d.history.flush() });
        assert(e.history.flush().undo.last() == op);
    } else {
        assert(e.history.flush() == e.history);
        assert(e.history.undo.last() == op);
    }
    assert(e.undone().content =~= c);
}

/// A char typed where the insert being coalesced ends is undone together
/// with it: undoing right after gives the content and cursor that undoing
/// before typing it would have given.
pub proof fn law_coalesced_char_undone_with_its_group(d: DocView, ch: char)
    requires
        d.history.capacity >= 1,
        editable(d),
        origin(d) is Some,
        ch != '\n',
        d.history.continues_pending(d.offset()),
    ensures
        d.typed(seq![ch]).undone().content == d.undone().content,
        d.typed(seq![ch]).undone().cursor == d.undone().cursor,
{
    let c = d.content;
    let h = d.history;
    let at = d.offset();
    let t = encode_utf8(seq![ch]);
    let p = h.pending->0;
    lemma_valid_cursor_offset(c, d.cursor);
    lemma_unwound_push(h.undo, p, c);
    let e = d.typed(seq![ch]);
    let p2 = OpView { text: p.text + t, after: e.cursor, ..p };
    assert(e.history == HistoryView { pending: Some(p2), redo: Seq::empty(), ..h });
    lemma_flush_undoable(h);
    lemma_flush_undoable(e.history);
    assert(e.history.flush().undo.last() == p2);
    assert(h.flush().undo.last() == p);
    assert(undo_effect(p2, e.content) =~= undo_effect(p, c));
}

/// A backspace undone right away gives back the content and the cursor.
pub proof fn law_undo_reverts_backspace(d: DocView)
    requires
        d.history.capacity >= 1,
        editable(d),
        d.offset() > 0,
    ensures
        d.backspaced().undone().content == d.content,
        d.backspaced().undone().cursor == d.cursor,
{
    let c = d.content;
    let at = d.offset();
    lemma_valid_cursor_offset(c, d.cursor);
    lemma_backspace_cursor(c, d.cursor);
    let step = length_of_last_scalar(c.subrange(0, at));
    lemma_cut_out(c, at - step, at);
    let e = d.backspaced();
    assert(e.history.flush() == e.history);
    assert(e.undone().content =~= c);
}

/// A forward delete undone right away gives back the content and the cursor.
pub proof fn law_undo_reverts_delete(d: DocView)
    requires
        d.history.capacity >= 1,
        editable(d),
        d.offset() < d.content.len(),
    ensures
        d.deleted_forward().undone().content == d.content,
        d.deleted_forward().undone().cursor == d.cursor,
{
    let c = d.content;
    let at = d.offset();
    lemma_valid_cursor_offset(c, d.cursor);
    lemma_first_scalar_at(c, at);
    let step = length_of_first_scalar(c.subrange(at, c.len() as int));
    lemma_cut_out(c, at, at + step);
    let e = d.deleted_forward();
    assert(e.history.flush() == e.history);
    assert(e.undone().content =~= c);
}

/* ── what an edit does ───────────────────────────────────────────────────── */

/// Typing puts exactly the typed text at the cursor and leaves the cursor
/// right after it.
pub proof fn law_typing_inserts_at_cursor(d: DocView, text: Seq<char>)
    requires
        editable(d),
        d.content.len() + encode_utf8(text).len() < usize::MAX,
    ensures
        ({
            let e = d.typed(text);
            let at = d.offset();
            let t = encode_utf8(text);
            &&& e.content == d.content.subrange(0, at) + t + d.content.subrange(
                at,
                d.content.len() as int,
            )
            &&& valid_cursor(e.content, e.cursor)
            &&& e.offset() == at + t.len()
        }),
{
    let c = d.content;
    let at = d.offset();
    lemma_valid_cursor_offset(c, d.cursor);
    if text.len() == 0 {
        assert(encode_utf8(text) =~= Seq::<u8>::empty());
        assert(c =~= c.subrange(0, at) + encode_utf8(text) + c.subrange(at, c.len() as int));
    } else {
        let t = encode_utf8(text);
        encode_utf8_valid_utf8(text);
        lemma_newline_positions(c);
        lemma_text_nonempty(text);
        lemma_insert_cursor(c, d.cursor, t);
    }
}

/// A backspace removes exactly the char before the cursor, and the cursor
/// goes to where that char began; at the start of the text nothing happens.
pub proof fn law_backspace_removes_the_char_before(d: DocView)
    requires
        editable(d),
    ensures
        ({
            let e = d.backspaced();
            let c = d.content;
            let at = d.offset();
            &&& at == 0 ==> e == d
            &&& at > 0 ==> {
                &&& 0 <= e.offset() < at
                &&& is_char_boundary(c, e.offset())
                &&& forall|j: int| e.offset() < j < at ==> !is_char_boundary(c, j)
                &&& e.content == c.subrange(0, e.offset()) + c.subrange(at, c.len() as int)
                &&& valid_cursor(e.content, e.cursor)
            }
        }),
{
    let c = d.content;
    let at = d.offset();
    lemma_valid_cursor_offset(c, d.cursor);
    if at > 0 {
        lemma_backspace_cursor(c, d.cursor);
    }
}

/// A forward delete removes exactly the char at the cursor and leaves the
/// cursor where it was; at the end of the text nothing happens.
pub proof fn law_delete_removes_the_char_at(d: DocView)
    requires
        editable(d),
    ensures
        ({
            let e = d.deleted_forward();
            let c = d.content;
            let at = d.offset();
            let k = c.len() - e.content.len();
            &&& at >= c.len() ==> e == d
            &&& at < c.len() ==> {
                &&& e.cursor == d.cursor
                &&& e.offset() == at
                &&& 1 <= k
                &&& at + k <= c.len()
                &&& is_char_boundary(c, at + k)
                &&& forall|j: int| at < j < at + k ==> !is_char_boundary(c, j)
                &&& e.content == c.subrange(0, at) + c.subrange(at + k, c.len() as int)
            }
        }),
{
    let c = d.content;
    let at = d.offset();
    lemma_valid_cursor_offset(c, d.cursor);
    if at < c.len() {
        lemma_first_scalar_at(c, at);
        let t = c.subrange(at, c.len() as int);
        let step = length_of_first_scalar(t);
        if step > 1 {
            lemma_wide_char_no_newline(c, at);
        }
        lemma_delete_cursor(c, d.cursor, step);
        assert forall|j: int| at < j < at + step implies !is_char_boundary(c, j) by {
            assert(t[j - at] == c[j]);
            is_char_boundary_iff_not_is_continuation_byte(c, j);
        }
    }
}

/* ── undoing everything since the document was opened ────────────────────── */

/// One step of an editing session, as the laws below replay it.
pub enum Edit {
    /// Text typed at the cursor.
    Type(Seq<char>),
    /// The char before the cursor removed.
    Backspace,
    /// The char at the cursor removed.
    Delete,
    /// The cursor moved.
    Move(Cursor),
}

/// The document after one step.
pub open spec fn edited(d: DocView, e: Edit) -> DocView {
    match e {
        Edit::Type(t) => d.typed(t),
        Edit::Backspace => d.backspaced(),
        Edit::Delete => d.deleted_forward(),
        Edit::Move(cur) => d.moved(cur),
    }
}

/// A step that the document can take: typed text fits in a buffer, and the
/// cursor moves to a place in the text.
pub open spec fn fits(d: DocView, e: Edit) -> bool {
    match e {
        Edit::Type(t) => d.content.len() + encode_utf8(t).len() < usize::MAX,
        Edit::Move(cur) => valid_cursor(d.content, cur),
        _ => true,
    }
}

/// The document after the steps `es`, in order.
pub open spec fn replayed(d: DocView, es: Seq<Edit>) -> DocView
    decreases es.len(),
{
    if es.len() == 0 {
        d
    } else {
        replayed(edited(d, es[0]), es.drop_first())
    }
}

/// Every step of `es` can be taken from where the ones before it left the
/// document.
pub open spec fn all_fit(d: DocView, es: Seq<Edit>) -> bool
    decreases es.len(),
{
    es.len() == 0 || (fits(d, es[0]) && all_fit(edited(d, es[0]), es.drop_first()))
}

/// The document after `n` undos.
pub open spec fn undone_times(d: DocView, n: nat) -> DocView
    decreases n,
{
    if n == 0 {
        d
    } else {
        undone_times(d.undone(), (n - 1) as nat)
    }
}

/// One step keeps the state editable and the chain's origin, and adds at
/// most one edit to what undo reverts.
proof fn lemma_step(d: DocView, e: Edit)
    requires
        editable(d),
        origin(d) is Some,
        fits(d, e),
        has_room(d.history),
    ensures
        editable(edited(d, e)),
        origin(edited(d, e)) == origin(d),
        edited(d, e).history.capacity == d.history.capacity,
        edited(d, e).history.undoable().len() <= d.history.undoable().len() + 1,
{
    let c = d.content;
    let h = d.history;
    let at = d.offset();
    lemma_valid_cursor_offset(c, d.cursor);
    lemma_flush_undoable(h);
    match e {
        Edit::Type(text) => {
            law_typing_keeps_origin(d, text);
            if text.len() > 0 {
                let t = encode_utf8(text);
                encode_utf8_valid_utf8(text);
                lemma_newline_positions(c);
                lemma_text_nonempty(text);
                lemma_insert_cursor(c, d.cursor, t);
                lemma_splice_in(c, at, t);
                if !(text.len() == 1 && text[0] != '\n') {
                    lemma_commit_undoable(h.flush(), insert_op(at, t, d.cursor, d.typed(text).cursor));
                }
            }
        },
        Edit::Backspace => {
            law_backspace_keeps_origin(d);
            if at > 0 {
                lemma_backspace_cursor(c, d.cursor);
                let step = length_of_last_scalar(c.subrange(0, at));
                let after = d.backspaced().cursor;
                lemma_commit_undoable(h.flush(), delete_op(at - step, c.subrange(at - step, at), d.cursor, after));
            }
        },
        Edit::Delete => {
            law_delete_keeps_origin(d);
            if at < c.len() {
                lemma_first_scalar_at(c, at);
                let step = length_of_first_scalar(c.subrange(at, c.len() as int));
                if step > 1 {
                    lemma_wide_char_no_newline(c, at);
                }
                lemma_delete_cursor(c, d.cursor, step);
                let after = d.deleted_forward().cursor;
                lemma_commit_undoable(h.flush(), delete_op(at, c.subrange(at, at + step), d.cursor, after));
            }
        },
        Edit::Move(cur) => {
            law_motion_keeps_origin(d, cur);
        },
    }
}

/// Undoing `n` times, with at least as many undos as edits to revert, leads
/// to the chain's origin.
proof fn lemma_undo_all(d: DocView, n: nat)
    requires
        editable(d),
        origin(d) is Some,
        d.history.capacity >= 1,
        d.history.undoable().len() <= d.history.capacity,
        n >= d.history.undoable().len(),
    ensures
        Some(undone_times(d, n).content) == origin(d),
    decreases n,
{
    let h = d.history;
    lemma_flush_undoable(h);
    law_undo_keeps_origin(d);
    if n == 0 {
        law_nothing_left_to_undo(d);
    } else {
        let f = h.flush();
        assert(f.undoable() == f.undo);
        if f.undo.len() > 0 {
            assert(d.undone().history.undoable() == f.undo.drop_last());
        } else {
            assert(d.undone().history.undoable().len() == 0);
        }
        lemma_undo_all(d.undone(), (n - 1) as nat);
    }
}

/// Undoing at least as many times as there were steps since a document was
/// opened gives back the text it was opened with, as long as its history
/// can hold that many edits.
pub proof fn law_undo_all_restores_opened(d: DocView, es: Seq<Edit>, n: nat)
    requires
        editable(d),
        d.history.undo.len() == 0,
        d.history.redo.len() == 0,
        d.history.pending is None,
        d.history.capacity >= 1,
        d.history.capacity >= es.len(),
        all_fit(d, es),
        n >= es.len(),
    ensures
        undone_times(replayed(d, es), n).content == d.content,
{
    lemma_replay(d, es, d.content);
    lemma_undo_all(replayed(d, es), n);
}

/// Replaying steps from a state whose chain leads to `o` keeps it leading to
/// `o`, with one more edit to revert at most per step.
proof fn lemma_replay(d: DocView, es: Seq<Edit>, o: Seq<u8>)
    requires
        editable(d),
        origin(d) == Some(o),
        all_fit(d, es),
        d.history.undoable().len() + es.len() <= d.history.capacity,
    ensures
        editable(replayed(d, es)),
        origin(replayed(d, es)) == Some(o),
        replayed(d, es).history.capacity == d.history.capacity,
        replayed(d, es).history.undoable().len() <= d.history.undoable().len() + es.len(),
    decreases es.len(),
{
    if es.len() > 0 {
        lemma_step(d, es[0]);
        lemma_replay(edited(d, es[0]), es.drop_first(), o);
    }
}

} // verus!
