//! The model of lines and cursor positions over a document's bytes, the
//! motions defined on it, and the facts that relate them.
use vstd::prelude::*;
use vstd::utf8::*;

use crate::cursor::Cursor;
use crate::document::LineEnding;
use crate::history::OpView;
use crate::text::{
    crlf_to_lf, lemma_ascii_boundaries, lemma_boundary_at, lemma_concat_boundary, lemma_line_bounds,
    lemma_newline_positions, lemma_newline_positions_delete, lemma_newline_positions_insert,
    lemma_newline_positions_split, lemma_newline_positions_take, lemma_range_valid,
    lemma_split_valid, lf_to_crlf, line_bytes, line_count_of, line_end, line_start,
    newline_positions, shift,
};

verus! {

/* ── the model of lines and cursor positions ─────────────────────────────── */

/// The bytes of line `l`; empty for a line past the end.
pub open spec fn line_text(c: Seq<u8>, l: int) -> Seq<u8> {
    if 0 <= l < line_count_of(c) {
        line_bytes(c, l)
    } else {
        Seq::empty()
    }
}

/// The byte offset of the start of line `l`, where every line past the end
/// counts as one byte (its missing `'\n'`).
pub open spec fn lines_offset(c: Seq<u8>, l: int) -> int {
    let lc = line_count_of(c) as int;
    if l < lc {
        line_start(c, l)
    } else {
        (if lc == 0 {
            0
        } else {
            c.len() + 1
        }) + (l - lc)
    }
}

/// The flat byte offset that a cursor denotes.
pub open spec fn cursor_offset(c: Seq<u8>, cur: Cursor) -> int {
    lines_offset(c, cur.line as int) + cur.col
}

/// The largest char boundary of `s` that is not above `k`.
pub open spec fn floor_boundary(s: Seq<u8>, k: int) -> int
    decreases k,
{
    if k <= 0 || is_char_boundary(s, k) {
        k
    } else {
        floor_boundary(s, k - 1)
    }
}

/// The smallest char boundary of `s` that is not below `k`.
pub open spec fn ceil_boundary(s: Seq<u8>, k: int) -> int
    decreases s.len() - k,
{
    if k >= s.len() || is_char_boundary(s, k) {
        k
    } else {
        ceil_boundary(s, k + 1)
    }
}

/// The char boundary before `pos`.
pub open spec fn prev_boundary(s: Seq<u8>, pos: int) -> int {
    if pos <= 0 {
        0
    } else {
        floor_boundary(s, pos - 1)
    }
}

/// The char boundary after `pos` (the end for a position at or past it).
pub open spec fn next_boundary(s: Seq<u8>, pos: int) -> int {
    if pos >= s.len() {
        s.len() as int
    } else {
        ceil_boundary(s, pos + 1)
    }
}

/// The column `col` pulled back within `s` and onto a char boundary.
pub open spec fn clamp_col(s: Seq<u8>, col: int) -> int {
    floor_boundary(
        s,
        if col > s.len() {
            s.len() as int
        } else {
            col
        },
    )
}

/// Moving left from `col` while the byte before is (`spaces`) or is not
/// (`!spaces`) a space.
pub open spec fn skip_left(s: Seq<u8>, col: int, spaces: bool) -> int
    decreases col,
{
    if col <= 0 {
        col
    } else {
        let prev = prev_boundary(s, col);
        if 0 <= prev < col && prev < s.len() && (s[prev] == 32u8) == spaces {
            skip_left(s, prev, spaces)
        } else {
            col
        }
    }
}

/// Moving right from `col` while the byte at it is (`spaces`) or is not
/// (`!spaces`) a space.
pub open spec fn skip_right(s: Seq<u8>, col: int, spaces: bool) -> int
    decreases s.len() - col,
{
    if col < 0 || col >= s.len() {
        col
    } else if (s[col] == 32u8) == spaces {
        let next = next_boundary(s, col);
        if col < next <= s.len() {
            skip_right(s, next, spaces)
        } else {
            col
        }
    } else {
        col
    }
}

/// The cursor after typing the bytes `t` at `cur`: one line down per `'\n'`,
/// and the column after the last of them.
pub open spec fn advance(cur: Cursor, t: Seq<u8>) -> Cursor {
    let p = newline_positions(t);
    if p.len() == 0 {
        Cursor { line: cur.line, col: (cur.col + t.len()) as usize }
    } else {
        Cursor { line: (cur.line + p.len()) as usize, col: (t.len() - p.last() - 1) as usize }
    }
}

/// The cursor after a backspace removed `step` bytes before it; `c` is the
/// content before the removal. Removing the `'\n'` before a line joins it to
/// the line above, and the cursor lands where they were joined.
pub open spec fn cursor_back(cur: Cursor, step: int, c: Seq<u8>) -> Cursor {
    if cur.col >= step {
        Cursor { line: cur.line, col: (cur.col - step) as usize }
    } else if cur.line > 0 {
        Cursor { line: (cur.line - 1) as usize, col: line_text(c, cur.line - 1).len() as usize }
    } else {
        Cursor { line: 0, col: 0 }
    }
}

/// The cursor with its column pulled back within its line of `c`.
pub open spec fn clamped(cur: Cursor, c: Seq<u8>) -> Cursor {
    Cursor { line: cur.line, col: clamp_col(line_text(c, cur.line as int), cur.col as int) as usize }
}

/// Line `l`, pulled back to the last line of `c` when it lies past it.
pub open spec fn landing_line(c: Seq<u8>, l: int) -> int {
    if l < line_count_of(c) {
        l
    } else if line_count_of(c) == 0 {
        0
    } else {
        line_count_of(c) - 1
    }
}

/// The byte column `n` chars into line text `s`, or its end when the line
/// has fewer chars.
pub open spec fn char_col(s: Seq<u8>, n: int) -> int {
    let chars = decode_utf8(s);
    if n < chars.len() {
        encode_utf8(chars.subrange(0, n)).len() as int
    } else {
        s.len() as int
    }
}

/// Where a click on row `row`, `n` chars in, puts the cursor: on that line
/// (or the last one), `n` chars into it (or at its end).
pub open spec fn click_cursor(c: Seq<u8>, row: int, n: int) -> Cursor {
    let l = landing_line(c, row);
    Cursor { line: l as usize, col: char_col(line_text(c, l), n) as usize }
}

/// A cursor on an existing line (line 0 of an empty text), within that line
/// and on a char boundary of it.
pub open spec fn valid_cursor(c: Seq<u8>, cur: Cursor) -> bool {
    &&& (cur.line < line_count_of(c) || cur.line == 0)
    &&& cur.col <= line_text(c, cur.line as int).len()
    &&& is_char_boundary(line_text(c, cur.line as int), cur.col as int)
}

/* ── cursor motions ──────────────────────────────────────────────────────── */

/// One line up, the column clamped to that line; from line 0, column 0.
pub open spec fn up_cursor(c: Seq<u8>, cur: Cursor) -> Cursor {
    if cur.line == 0 {
        Cursor { line: 0, col: 0 }
    } else {
        clamped(Cursor { line: (cur.line - 1) as usize, col: cur.col }, c)
    }
}

/// One line down, the column clamped to that line; unchanged on the last line.
pub open spec fn down_cursor(c: Seq<u8>, cur: Cursor) -> Cursor {
    if cur.line + 1 < line_count_of(c) {
        clamped(Cursor { line: (cur.line + 1) as usize, col: cur.col }, c)
    } else {
        cur
    }
}

/// One char left, wrapping to the end of the previous line.
pub open spec fn left_cursor(c: Seq<u8>, cur: Cursor) -> Cursor {
    if cur.col > 0 {
        Cursor { line: cur.line, col: prev_boundary(line_text(c, cur.line as int), cur.col as int) as usize }
    } else if cur.line > 0 {
        Cursor { line: (cur.line - 1) as usize, col: line_text(c, cur.line - 1).len() as usize }
    } else {
        cur
    }
}

/// One char right, wrapping to the start of the next line.
pub open spec fn right_cursor(c: Seq<u8>, cur: Cursor) -> Cursor {
    let s = line_text(c, cur.line as int);
    if cur.col < s.len() {
        Cursor { line: cur.line, col: next_boundary(s, cur.col as int) as usize }
    } else if cur.line + 1 < line_count_of(c) {
        Cursor { line: (cur.line + 1) as usize, col: 0 }
    } else {
        cur
    }
}

/// The start of the cursor's line.
pub open spec fn home_cursor(cur: Cursor) -> Cursor {
    Cursor { line: cur.line, col: 0 }
}

/// The end of the cursor's line.
pub open spec fn end_cursor(c: Seq<u8>, cur: Cursor) -> Cursor {
    Cursor { line: cur.line, col: line_text(c, cur.line as int).len() as usize }
}

/// `h` lines up (at most to line 0), the column clamped.
pub open spec fn page_up_cursor(c: Seq<u8>, cur: Cursor, h: int) -> Cursor {
    let l = if cur.line >= h {
        cur.line - h
    } else {
        0
    };
    clamped(Cursor { line: l as usize, col: cur.col }, c)
}

/// `h` lines down (at most to the last line), the column clamped.
pub open spec fn page_down_cursor(c: Seq<u8>, cur: Cursor, h: int) -> Cursor {
    let lc = line_count_of(c) as int;
    let max = if lc >= 1 {
        lc - 1
    } else {
        0
    };
    let want = cur.line + h;
    let l = if want < max {
        want
    } else {
        max
    };
    clamped(Cursor { line: l as usize, col: cur.col }, c)
}

/// Left past spaces, then past the other bytes, within the line.
pub open spec fn word_left_cursor(c: Seq<u8>, cur: Cursor) -> Cursor {
    let s = line_text(c, cur.line as int);
    Cursor { line: cur.line, col: skip_left(s, skip_left(s, cur.col as int, true), false) as usize }
}

/// Right past the other bytes, then past spaces; from the end of a line on
/// to the start of the next one.
pub open spec fn word_right_cursor(c: Seq<u8>, cur: Cursor) -> Cursor {
    let s = line_text(c, cur.line as int);
    let col = skip_right(s, skip_right(s, cur.col as int, false), true);
    if col >= s.len() && cur.line + 1 < line_count_of(c) {
        Cursor { line: (cur.line + 1) as usize, col: 0 }
    } else {
        Cursor { line: cur.line, col: col as usize }
    }
}

/// The edit that typing `t` at `at` records.
pub open spec fn insert_op(at: int, t: Seq<u8>, before: Cursor, after: Cursor) -> OpView {
    OpView { insert: true, at, text: t, before, after }
}

/// The edit that removing `t` at `at` records.
pub open spec fn delete_op(at: int, t: Seq<u8>, before: Cursor, after: Cursor) -> OpView {
    OpView { insert: false, at, text: t, before, after }
}

/// `raw` starts with a UTF-8 byte-order mark.
pub open spec fn has_bom(raw: Seq<u8>) -> bool {
    raw.len() >= 3 && raw[0] == 0xEFu8 && raw[1] == 0xBBu8 && raw[2] == 0xBFu8
}

/// The UTF-8 byte-order mark.
pub open spec fn bom_bytes() -> Seq<u8> {
    seq![0xEFu8, 0xBBu8, 0xBFu8]
}

/// `raw` without a leading UTF-8 byte-order mark.
pub open spec fn strip_bom(raw: Seq<u8>) -> Seq<u8> {
    if has_bom(raw) {
        raw.subrange(3, raw.len() as int)
    } else {
        raw
    }
}

/// The first line ending of `text` is `\r\n`: its first `'\n'` comes
/// right after a `'\r'`.
pub open spec fn first_ending_crlf(text: Seq<u8>) -> bool {
    let p = newline_positions(text);
    p.len() > 0 && p[0] > 0 && text[p[0] - 1] == 13u8
}

/// The line-ending convention of loaded text, taken from its first line
/// ending (`\n` when it has none).
pub open spec fn detected_ending(text: Seq<u8>) -> LineEnding {
    if first_ending_crlf(text) {
        LineEnding::CrLf
    } else {
        LineEnding::Lf
    }
}

/// The content kept for loaded text: for `\r\n` text, every `\r\n`
/// normalised to `\n`; other text as it is.
pub open spec fn normalised(text: Seq<u8>) -> Seq<u8> {
    if first_ending_crlf(text) {
        crlf_to_lf(text)
    } else {
        text
    }
}

/// The bytes written back for content `c` under line-ending convention `e`,
/// after a byte-order mark when the loaded file had one.
pub open spec fn saved_bytes(c: Seq<u8>, e: LineEnding, bom: bool) -> Seq<u8> {
    (if bom {
        bom_bytes()
    } else {
        Seq::empty()
    }) + match e {
        LineEnding::CrLf => lf_to_crlf(c),
        LineEnding::Lf => c,
    }
}

/* ── facts about the model ───────────────────────────────────────────────── */

pub(crate) proof fn lemma_floor_boundary(s: Seq<u8>, k: int)
    requires
        valid_utf8(s),
        0 <= k,
    ensures
        0 <= floor_boundary(s, k) <= k,
        floor_boundary(s, k) <= s.len(),
        is_char_boundary(s, floor_boundary(s, k)),
    decreases k,
{
    is_char_boundary_start_end_of_seq(s);
    if k > 0 && !is_char_boundary(s, k) {
        lemma_floor_boundary(s, k - 1);
    } else if k > s.len() {
        assert(!is_char_boundary(s, k));
    }
}

pub(crate) proof fn lemma_ceil_boundary(s: Seq<u8>, k: int)
    requires
        valid_utf8(s),
        0 <= k <= s.len(),
    ensures
        k <= ceil_boundary(s, k) <= s.len(),
        is_char_boundary(s, ceil_boundary(s, k)),
    decreases s.len() - k,
{
    is_char_boundary_start_end_of_seq(s);
    if k < s.len() && !is_char_boundary(s, k) {
        lemma_ceil_boundary(s, k + 1);
    }
}

pub(crate) proof fn lemma_line_text(c: Seq<u8>, l: int)
    requires
        valid_utf8(c),
    ensures
        valid_utf8(line_text(c, l)),
        0 <= l < line_count_of(c) ==> line_text(c, l) == line_bytes(c, l) && 0 <= line_start(c, l)
            <= line_end(c, l) <= c.len(),
{
    if 0 <= l < line_count_of(c) {
        lemma_line_bounds(c, l);
    } else {
        assert(valid_utf8(Seq::<u8>::empty()));
    }
}

/// A line's start offset is at least its number.
pub(crate) proof fn lemma_lines_offset_ge(c: Seq<u8>, l: int)
    requires
        0 <= l,
    ensures
        lines_offset(c, l) >= l,
{
    lemma_newline_positions(c);
    let p = newline_positions(c);
    let lc = line_count_of(c) as int;
    if 0 < l < lc {
        lemma_positions_ge_index(p, l - 1);
    }
}

pub(crate) proof fn lemma_positions_ge_index(p: Seq<int>, i: int)
    requires
        0 <= i < p.len(),
        forall|a: int, b: int| 0 <= a < b < p.len() ==> #[trigger] p[a] < #[trigger] p[b],
        forall|a: int| 0 <= a < p.len() ==> 0 <= #[trigger] p[a],
    ensures
        p[i] >= i,
    decreases i,
{
    if i > 0 {
        lemma_positions_ge_index(p, i - 1);
        assert(p[i - 1] < p[i]);
    }
}

/// Typing one more byte moves the cursor one byte right, or to the start of
/// the next line after a `'\n'`.
pub(crate) proof fn lemma_advance_step(cur: Cursor, t: Seq<u8>, i: int)
    requires
        0 <= i < t.len(),
        cur.col + t.len() <= usize::MAX,
        cur.line + t.len() <= usize::MAX,
    ensures
        advance(cur, t.subrange(0, i + 1)) == (if t[i] == 10u8 {
            Cursor { line: (advance(cur, t.subrange(0, i)).line + 1) as usize, col: 0 }
        } else {
            Cursor {
                line: advance(cur, t.subrange(0, i)).line,
                col: (advance(cur, t.subrange(0, i)).col + 1) as usize,
            }
        }),
        advance(cur, t.subrange(0, i)).col <= cur.col + i,
        advance(cur, t.subrange(0, i)).line <= cur.line + i,
{
    lemma_newline_positions_take(t, i);
    lemma_newline_positions(t.subrange(0, i));
    lemma_newline_positions(t.subrange(0, i + 1));
}

/// Each line adds its length and one `'\n'` to the offset of the next.
pub(crate) proof fn lemma_lines_offset_step(c: Seq<u8>, l: int)
    requires
        0 <= l,
    ensures
        lines_offset(c, l + 1) == lines_offset(c, l) + line_text(c, l).len() + 1,
        lines_offset(c, 0) == 0,
        lines_offset(c, l) <= lines_offset(c, l + 1),
{
    lemma_newline_positions(c);
    let p = newline_positions(c);
    let lc = line_count_of(c) as int;
    if l < lc {
        if l + 1 < lc {
            if l > 0 {
                assert(p[l - 1] < p[l]);
            }
        }
        if l > 0 {
            assert(p[l - 1] < c.len());
        }
    }
}


/* ── valid cursors ───────────────────────────────────────────────────────── */

/// Char boundaries of a stretch between two char boundaries are those of the
/// whole text.
pub proof fn lemma_sub_boundary(c: Seq<u8>, i: int, j: int, p: int)
    requires
        valid_utf8(c),
        0 <= i <= p <= j <= c.len(),
        is_char_boundary(c, i),
        is_char_boundary(c, j),
    ensures
        valid_utf8(c.subrange(i, j)),
        is_char_boundary(c, p) <==> is_char_boundary(c.subrange(i, j), p - i),
{
    lemma_range_valid(c, i, j);
    let s = c.subrange(i, j);
    lemma_boundary_at(c, p);
    lemma_boundary_at(s, p - i);
    if p < j {
        assert(s[p - i] == c[p]);
    }
}

/// Where a valid cursor points in the text.
pub proof fn lemma_valid_cursor_offset(c: Seq<u8>, cur: Cursor)
    requires
        valid_utf8(c),
        valid_cursor(c, cur),
    ensures
        ({
            let at = cursor_offset(c, cur);
            let l = cur.line as int;
            &&& 0 <= at <= c.len()
            &&& is_char_boundary(c, at)
            &&& at == line_start(c, l) + cur.col
            &&& line_start(c, l) <= at <= line_end(c, l)
            &&& line_end(c, l) <= c.len()
            &&& newline_positions(c.subrange(0, at)).len() == l
            &&& (c.len() > 0 ==> l < line_count_of(c))
        }),
{
    let l = cur.line as int;
    let at = cursor_offset(c, cur);
    lemma_newline_positions(c);
    let p = newline_positions(c);
    is_char_boundary_start_end_of_seq(c);
    if c.len() == 0 {
        assert(c.subrange(0, 0) =~= Seq::<u8>::empty());
        assert(newline_positions(c.subrange(0, 0)) =~= Seq::<int>::empty());
    } else {
        lemma_line_bounds(c, l);
        lemma_sub_boundary(c, line_start(c, l), line_end(c, l), at);
        lemma_newline_positions_split(c, at);
        let a = newline_positions(c.subrange(0, at));
        if a.len() < l {
            assert(p[l - 1] < at);
            assert(p[a.len() as int] >= at);
            assert(p[a.len() as int] <= p[l - 1]);
        }
        if a.len() > l {
            assert(p[l] < at);
            assert(p[l] == line_end(c, l));
        }
    }
}

/// A cursor whose column is clamped within an existing line is valid.
pub proof fn lemma_clamped_valid(c: Seq<u8>, cur: Cursor)
    requires
        valid_utf8(c),
        cur.line < line_count_of(c) || cur.line == 0,
    ensures
        valid_cursor(c, clamped(cur, c)),
{
    let s = line_text(c, cur.line as int);
    lemma_line_text(c, cur.line as int);
    let k = if cur.col > s.len() {
        s.len() as int
    } else {
        cur.col as int
    };
    lemma_floor_boundary(s, k);
}

/// The end of a line is a valid column.
pub proof fn lemma_line_end_valid(c: Seq<u8>, l: int)
    requires
        valid_utf8(c),
        0 <= l < line_count_of(c) || l == 0,
        l <= usize::MAX,
        c.len() <= usize::MAX,
    ensures
        valid_cursor(c, Cursor { line: l as usize, col: line_text(c, l).len() as usize }),
{
    lemma_line_text(c, l);
    is_char_boundary_start_end_of_seq(line_text(c, l));
    assert(line_text(c, l).len() <= c.len());
}

/// Skipping left from a char boundary stops on a char boundary.
pub proof fn lemma_skip_left(s: Seq<u8>, col: int, spaces: bool)
    requires
        valid_utf8(s),
        0 <= col <= s.len(),
        is_char_boundary(s, col),
    ensures
        0 <= skip_left(s, col, spaces) <= col,
        is_char_boundary(s, skip_left(s, col, spaces)),
    decreases col,
{
    if col > 0 {
        lemma_floor_boundary(s, col - 1);
        let prev = prev_boundary(s, col);
        if 0 <= prev < col && prev < s.len() && (s[prev] == 32u8) == spaces {
            lemma_skip_left(s, prev, spaces);
        }
    }
}

/// Skipping right from a char boundary stops on a char boundary.
pub proof fn lemma_skip_right(s: Seq<u8>, col: int, spaces: bool)
    requires
        valid_utf8(s),
        0 <= col <= s.len(),
        is_char_boundary(s, col),
    ensures
        col <= skip_right(s, col, spaces) <= s.len(),
        is_char_boundary(s, skip_right(s, col, spaces)),
    decreases s.len() - col,
{
    if col < s.len() && (s[col] == 32u8) == spaces {
        lemma_ceil_boundary(s, col + 1);
        let next = next_boundary(s, col);
        if col < next <= s.len() {
            lemma_skip_right(s, next, spaces);
        }
    }
}

/// After typing `t` at a valid cursor, the advanced cursor is valid in the
/// new text and points just after what was typed.
pub proof fn lemma_insert_cursor(c: Seq<u8>, cur: Cursor, t: Seq<u8>)
    requires
        valid_utf8(c),
        valid_utf8(t),
        t.len() > 0,
        valid_cursor(c, cur),
        cur.line + t.len() <= usize::MAX,
        cur.col + t.len() <= usize::MAX,
    ensures
        ({
            let at = cursor_offset(c, cur);
            let c2 = c.subrange(0, at) + t + c.subrange(at, c.len() as int);
            &&& valid_cursor(c2, advance(cur, t))
            &&& cursor_offset(c2, advance(cur, t)) == at + t.len()
        }),
{
    let at = cursor_offset(c, cur);
    lemma_valid_cursor_offset(c, cur);
    let l = cur.line as int;
    let x = c.subrange(0, at);
    let y = c.subrange(at, c.len() as int);
    let c2 = x + t + y;
    lemma_split_valid(c, at);
    lemma_concat_boundary(x, t, at + t.len());
    lemma_concat_boundary(x + t, y, at + t.len());
    assert(valid_utf8(c2));
    assert(is_char_boundary(c2, at + t.len()));
    lemma_newline_positions_split(c, at);
    lemma_newline_positions_insert(c, at, t);
    lemma_newline_positions(t);
    lemma_newline_positions(y);
    let a = newline_positions(x);
    let b = newline_positions(y);
    let tp = newline_positions(t);
    let p = newline_positions(c);
    let p2 = newline_positions(c2);
    assert(a.len() == l);
    assert(p2.len() == a.len() + tp.len() + b.len());
    assert(p.len() == a.len() + b.len());
    let cur2 = advance(cur, t);
    let l2 = cur2.line as int;
    assert(c2.len() > 0);
    if tp.len() == 0 {
        assert(l2 == l);
        assert(line_start(c2, l) == line_start(c, l)) by {
            if l > 0 {
                assert(p2[l - 1] == a[l - 1]);
                assert(p[l - 1] == a[l - 1]);
            }
        }
        assert(line_end(c2, l) == line_end(c, l) + t.len()) by {
            if b.len() > 0 {
                assert(p2[l] == b[0] + at + t.len());
                assert(p[l] == b[0] + at);
            }
        }
    } else {
        let k = tp.len() as int;
        assert(l2 == l + k);
        assert(line_start(c2, l2) == at + tp[k - 1] + 1) by {
            assert(p2[l2 - 1] == at + tp[k - 1]);
        }
        assert(line_end(c2, l2) >= at + t.len()) by {
            if b.len() > 0 {
                assert(p2[l2] == b[0] + at + t.len());
            }
        }
    }
    lemma_line_bounds(c2, l2);
    lemma_sub_boundary(c2, line_start(c2, l2), line_end(c2, l2), at + t.len());
}

/// The text with `c[s..e]` removed has as many lines fewer as `c[s..e]` holds
/// `'\n'` bytes.
pub proof fn lemma_delete_line_count(c: Seq<u8>, s: int, e: int)
    requires
        0 <= s <= e <= c.len(),
    ensures
        newline_positions(c.subrange(0, s) + c.subrange(e, c.len() as int)).len()
            == newline_positions(c).len() - newline_positions(c.subrange(s, e)).len(),
{
    lemma_newline_positions_delete(c, s, e);
}

/// A stretch without `'\n'` bytes has no newline positions.
pub proof fn lemma_no_newline(s: Seq<u8>)
    requires
        forall|i: int| 0 <= i < s.len() ==> s[i] != 10u8,
    ensures
        newline_positions(s).len() == 0,
{
    lemma_newline_positions(s);
    if newline_positions(s).len() > 0 {
        assert(s[newline_positions(s)[0]] == 10u8);
    }
}

/// A lone `'\\n'` has one newline position.
pub proof fn lemma_single_newline(d: Seq<u8>)
    requires
        d.len() == 1,
        d[0] == 10u8,
    ensures
        newline_positions(d).len() == 1,
{
    assert(d.drop_last() =~= Seq::<u8>::empty());
    assert(newline_positions(d.drop_last()) =~= Seq::<int>::empty());
    assert(d.last() == 10u8);
}

/// Deleting the character after a valid cursor keeps its line in the text.
pub proof fn lemma_delete_cursor(c: Seq<u8>, cur: Cursor, step: int)
    requires
        valid_utf8(c),
        valid_cursor(c, cur),
        cursor_offset(c, cur) < c.len(),
        1 <= step,
        cursor_offset(c, cur) + step <= c.len(),
        step == 1 || forall|i: int|
            cursor_offset(c, cur) <= i < cursor_offset(c, cur) + step ==> c[i] != 10u8,
        is_char_boundary(c, cursor_offset(c, cur) + step),
    ensures
        ({
            let at = cursor_offset(c, cur);
            let c2 = c.subrange(0, at) + c.subrange(at + step, c.len() as int);
            &&& valid_utf8(c2)
            &&& valid_cursor(c2, clamped(cur, c2))
            &&& clamped(cur, c2) == cur
            &&& cursor_offset(c2, cur) == at
        }),
{
    let at = cursor_offset(c, cur);
    let l = cur.line as int;
    lemma_valid_cursor_offset(c, cur);
    let c2 = c.subrange(0, at) + c.subrange(at + step, c.len() as int);
    lemma_split_valid(c, at);
    lemma_split_valid(c, at + step);
    lemma_concat_boundary(c.subrange(0, at), c.subrange(at + step, c.len() as int), 0);
    lemma_delete_line_count(c, at, at + step);
    lemma_newline_positions(c);
    let d = c.subrange(at, at + step);
    let p = newline_positions(c);
    if d.len() == 1 && d[0] == 10u8 {
        lemma_single_newline(d);
        // the cursor sits at the end of a line that a '\n' closes
        if l >= p.len() {
            assert(line_end(c, l) == c.len());
            assert(false);
        }
    } else {
        assert forall|i: int| 0 <= i < d.len() implies d[i] != 10u8 by {
            assert(d[i] == c[at + i]);
        }
        lemma_no_newline(d);
    }
    lemma_clamped_valid(c2, cur);
    lemma_newline_positions_delete(c, at, at + step);
    let a = newline_positions(c.subrange(0, at));
    let b = newline_positions(c.subrange(at + step, c.len() as int));
    let p2 = newline_positions(c2);
    assert(a.len() == l);
    assert(p2 == a + shift(b, at));
    if c2.len() == 0 {
        assert(l == 0);
        assert(cur.col == 0);
        is_char_boundary_start_end_of_seq(c2);
    } else {
        lemma_newline_positions_split(c, at);
        assert(line_start(c2, l) == line_start(c, l)) by {
            if l > 0 {
                assert(p2[l - 1] == a[l - 1]);
                assert(p[l - 1] == a[l - 1]);
            }
        }
        assert(line_end(c2, l) >= at) by {
            if b.len() > 0 {
                assert(p2[l] == b[0] + at);
            }
        }
        lemma_line_bounds(c2, l);
        lemma_concat_boundary(c.subrange(0, at), c.subrange(at + step, c.len() as int), at);
        is_char_boundary_start_end_of_seq(c.subrange(0, at));
        lemma_sub_boundary(c2, line_start(c2, l), line_end(c2, l), at);
        assert(line_text(c2, l) == line_bytes(c2, l));
        assert(clamp_col(line_text(c2, l), cur.col as int) == cur.col);
    }
}

/// After a backspace at a valid cursor, the cursor that `cursor_back` gives is
/// valid in the new text.
pub proof fn lemma_backspace_cursor(c: Seq<u8>, cur: Cursor)
    requires
        valid_utf8(c),
        c.len() <= usize::MAX,
        valid_cursor(c, cur),
        cursor_offset(c, cur) > 0,
    ensures
        ({
            let at = cursor_offset(c, cur);
            let step = length_of_last_scalar(c.subrange(0, at));
            let c2 = c.subrange(0, at - step) + c.subrange(at, c.len() as int);
            &&& 1 <= step <= at
            &&& is_char_boundary(c, at - step)
            &&& forall|j: int| at - step < j < at ==> !is_char_boundary(c, j)
            &&& valid_utf8(c2)
            &&& valid_cursor(c2, cursor_back(cur, step, c))
            &&& cursor_offset(c2, cursor_back(cur, step, c)) == at - step
        }),
{
    let at = cursor_offset(c, cur);
    let l = cur.line as int;
    lemma_valid_cursor_offset(c, cur);
    let ls = line_start(c, l);
    let le = line_end(c, l);
    lemma_line_bounds(c, l);
    let pre = c.subrange(0, at);
    lemma_split_valid(c, at);
    crate::text::lemma_last_scalar(pre);
    let step = length_of_last_scalar(pre);
    assert(1 <= step <= pre.len());
    assert forall|j: int| at - step < j < at implies !is_char_boundary(c, j) by {
        assert(pre[j] == c[j]);
        is_char_boundary_iff_not_is_continuation_byte(c, j);
    }
    lemma_boundary_at(c, at - step);
    assert(pre[at - step] == c[at - step]);
    let c2 = c.subrange(0, at - step) + c.subrange(at, c.len() as int);
    lemma_split_valid(c, at - step);
    lemma_concat_boundary(c.subrange(0, at - step), c.subrange(at, c.len() as int), 0);
    lemma_delete_line_count(c, at - step, at);
    lemma_newline_positions(c);
    let p = newline_positions(c);
    if cur.col > 0 {
        // the character before the cursor lies within its line
        let w = c.subrange(ls, at);
        lemma_range_valid(c, ls, at);
        crate::text::lemma_last_scalar(w);
        assert(pre.subrange(ls, pre.len() as int) =~= w);
        lemma_last_scalar_suffix(pre, ls);
        assert(step <= cur.col);
        let d = c.subrange(at - step, at);
        assert forall|i: int| 0 <= i < d.len() implies d[i] != 10u8 by {
            let k = at - step + i;
            assert(d[i] == c[k]);
            if c[k] == 10u8 {
                let j = choose|j: int| 0 <= j < p.len() && #[trigger] p[j] == k;
                if j < l {
                    assert(p[j] <= p[l - 1]);
                    assert(k < ls);
                } else if j == l {
                    assert(k == le);
                } else {
                    assert(p[l] < p[j]);
                    assert(le == p[l]);
                }
            }
        }
        lemma_no_newline(d);
        lemma_backspace_same_line(c, cur, step);
        assert(cursor_back(cur, step, c) == cursor_back(cur, step, c2));
    } else {
        // the cursor is at the start of a later line: the '\n' before it goes
        assert(l > 0) by {
            if l == 0 {
                assert(ls == 0);
            }
        }
        assert(c[at - 1] == 10u8) by {
            assert(p[l - 1] == at - 1);
        }
        assert(step == 1);
        lemma_join_cursor(c, l);
    }
}

/// Removing the `'\n'` that ends line `l - 1` joins lines `l - 1` and `l`;
/// the place where they were joined, at the old end of line `l - 1`, is a
/// valid cursor of the joined text.
pub proof fn lemma_join_cursor(c: Seq<u8>, l: int)
    requires
        valid_utf8(c),
        c.len() <= usize::MAX,
        0 < l < line_count_of(c),
    ensures
        ({
            let at = line_start(c, l);
            let c2 = c.subrange(0, at - 1) + c.subrange(at, c.len() as int);
            let cur = Cursor { line: (l - 1) as usize, col: line_text(c, l - 1).len() as usize };
            &&& valid_cursor(c2, cur)
            &&& cursor_offset(c2, cur) == at - 1
        }),
{
    lemma_newline_positions(c);
    let p = newline_positions(c);
    let at = p[l - 1] + 1;
    assert(at == line_start(c, l));
    lemma_line_bounds(c, l - 1);
    lemma_ascii_boundaries(c, at - 1);
    let x = c.subrange(0, at - 1);
    let y = c.subrange(at, c.len() as int);
    let c2 = x + y;
    lemma_split_valid(c, at - 1);
    lemma_split_valid(c, at);
    lemma_concat_boundary(x, y, at - 1);
    is_char_boundary_start_end_of_seq(x);
    lemma_newline_positions_delete(c, at - 1, at);
    let a = newline_positions(x);
    let m = newline_positions(c.subrange(at - 1, at));
    let b = newline_positions(y);
    lemma_single_newline(c.subrange(at - 1, at));
    lemma_newline_positions(x);
    assert(m[0] == 0) by {
        lemma_newline_positions(c.subrange(at - 1, at));
    }
    let p2 = newline_positions(c2);
    assert(p =~= a + shift(m, at - 1) + shift(b, at));
    assert(p2 =~= a + shift(b, at - 1));
    // `a` lists exactly the newlines before line `l - 1` ends
    assert(a.len() == l - 1) by {
        if a.len() > l - 1 {
            assert(p[l - 1] == a[l - 1]);
            assert(a[l - 1] < x.len());
        }
        if a.len() < l - 1 {
            assert(p[a.len() as int] == shift(m, at - 1)[0]);
            assert(p[a.len() as int] < p[l - 1]);
        }
    }
    let ls = line_start(c, l - 1);
    assert(line_start(c2, l - 1) == ls) by {
        if l - 1 > 0 {
            assert(p2[l - 2] == a[l - 2]);
            assert(p[l - 2] == a[l - 2]);
        }
    }
    assert(line_end(c, l - 1) == at - 1);
    let le2 = line_end(c2, l - 1);
    assert(at - 1 <= le2 <= c2.len()) by {
        if l - 1 < p2.len() {
            assert(p2[l - 1] == shift(b, at - 1)[0]);
            lemma_newline_positions(y);
            assert(b[0] >= 0);
        }
    }
    let col = at - 1 - ls;
    assert(line_text(c, l - 1).len() == col);
    if c2.len() == 0 {
        assert(l - 1 == 0);
        is_char_boundary_start_end_of_seq(c2);
    } else {
        assert(l - 1 < line_count_of(c2));
        lemma_line_bounds(c2, l - 1);
        lemma_sub_boundary(c2, ls, le2, at - 1);
    }
}

/// `length_of_last_scalar` only reads the end of the text.
pub proof fn lemma_last_scalar_suffix(s: Seq<u8>, k: int)
    requires
        0 <= k < s.len(),
        valid_utf8(s.subrange(k, s.len() as int)),
    ensures
        length_of_last_scalar(s) == length_of_last_scalar(s.subrange(k, s.len() as int)),
{
    let t = s.subrange(k, s.len() as int);
    crate::text::lemma_last_scalar(t);
    let n = s.len() as int;
    let m = t.len() as int;
    assert forall|j: int| 1 <= j <= m implies #[trigger] s[n - j] == t[m - j] by {}
}

/// A backspace within a line keeps the cursor's line and moves it back by the
/// removed character.
proof fn lemma_backspace_same_line(c: Seq<u8>, cur: Cursor, step: int)
    requires
        valid_utf8(c),
        valid_cursor(c, cur),
        1 <= step <= cur.col,
        cursor_offset(c, cur) == line_start(c, cur.line as int) + cur.col,
        line_start(c, cur.line as int) <= cursor_offset(c, cur) <= line_end(c, cur.line as int),
        line_end(c, cur.line as int) <= c.len(),
        newline_positions(c.subrange(0, cursor_offset(c, cur))).len() == cur.line,
        c.len() > 0 ==> cur.line < line_count_of(c),
        is_char_boundary(c, cursor_offset(c, cur)),
        is_char_boundary(c, cursor_offset(c, cur) - step),
        newline_positions(c.subrange(cursor_offset(c, cur) - step, cursor_offset(c, cur))).len()
            == 0,
    ensures
        ({
            let at = cursor_offset(c, cur);
            let c2 = c.subrange(0, at - step) + c.subrange(at, c.len() as int);
            &&& valid_cursor(c2, Cursor { line: cur.line, col: (cur.col - step) as usize })
            &&& cursor_offset(c2, Cursor { line: cur.line, col: (cur.col - step) as usize }) == at
                - step
        }),
{
    let at = cursor_offset(c, cur);
    let l = cur.line as int;
    let s0 = at - step;
    let x = c.subrange(0, s0);
    let z = c.subrange(at, c.len() as int);
    let c2 = x + z;
    lemma_split_valid(c, s0);
    lemma_split_valid(c, at);
    lemma_concat_boundary(x, z, s0);
    lemma_newline_positions_delete(c, s0, at);
    lemma_newline_positions_split(c, at);
    let a = newline_positions(x);
    let b = newline_positions(z);
    let p = newline_positions(c);
    let p2 = newline_positions(c2);
    assert(c.subrange(0, at) =~= x + c.subrange(s0, at));
    crate::text::lemma_newline_positions_concat(x, c.subrange(s0, at));
    assert(a.len() == l);
    assert(p2 == a + shift(b, s0));
    if c2.len() == 0 {
        assert(l == 0);
        assert(cur.col == step);
        is_char_boundary_start_end_of_seq(c2);
        return;
    }
    assert(line_start(c2, l) == line_start(c, l)) by {
        if l > 0 {
            assert(p2[l - 1] == a[l - 1]);
            assert(p[l - 1] == a[l - 1]);
        }
    }
    assert(line_end(c2, l) == line_end(c, l) - step) by {
        if b.len() > 0 {
            assert(p2[l] == b[0] + s0);
            assert(p[l] == b[0] + at);
        }
    }
    lemma_line_bounds(c2, l);
    lemma_sub_boundary(c2, line_start(c2, l), line_end(c2, l), s0);
}


/// Column 0 of an existing line is a valid cursor.
pub proof fn lemma_col0_valid(c: Seq<u8>, l: int)
    requires
        valid_utf8(c),
        0 <= l < line_count_of(c) || l == 0,
        l <= usize::MAX,
    ensures
        valid_cursor(c, Cursor { line: l as usize, col: 0 }),
{
    lemma_line_text(c, l);
    is_char_boundary_start_end_of_seq(line_text(c, l));
}

/// The bytes of a character wider than one byte are not `'\\n'`.
pub proof fn lemma_wide_char_no_newline(c: Seq<u8>, at: int)
    requires
        0 <= at < c.len(),
        valid_first_scalar(c.subrange(at, c.len() as int)),
        length_of_first_scalar(c.subrange(at, c.len() as int)) > 1,
    ensures
        forall|i: int|
            at <= i < at + length_of_first_scalar(c.subrange(at, c.len() as int)) ==> c[i]
                != 10u8,
{
    let t = c.subrange(at, c.len() as int);
    assert forall|i: int|
        at <= i < at + length_of_first_scalar(t) implies c[i] != 10u8 by {
        assert(t[i - at] == c[i]);
    }
}

/// No char boundary lies between `j` and the next boundary at or after it.
proof fn lemma_ceil_skips(s: Seq<u8>, j: int, m: int)
    requires
        0 <= j <= m < ceil_boundary(s, j),
    ensures
        !is_char_boundary(s, m),
    decreases m - j,
{
    if m > j {
        lemma_ceil_skips(s, j + 1, m);
    }
}

/// From any place before the next boundary after `col`, the boundary at or
/// before it is `col`.
proof fn lemma_floor_back(s: Seq<u8>, col: int, m: int)
    requires
        0 <= col <= m < ceil_boundary(s, col + 1),
        is_char_boundary(s, col),
    ensures
        floor_boundary(s, m) == col,
    decreases m - col,
{
    if m > col {
        lemma_ceil_skips(s, col + 1, m);
        lemma_floor_back(s, col, m - 1);
    }
}

/// Stepping right and then left comes back to the same place, except at the
/// very end of the text, where stepping right stays put.
pub proof fn law_left_undoes_right(c: Seq<u8>, cur: Cursor)
    requires
        valid_utf8(c),
        c.len() <= usize::MAX,
        valid_cursor(c, cur),
        right_cursor(c, cur) != cur,
    ensures
        left_cursor(c, right_cursor(c, cur)) == cur,
{
    let s = line_text(c, cur.line as int);
    lemma_line_text(c, cur.line as int);
    lemma_newline_positions(c);
    assert(s.len() <= c.len());
    let r = right_cursor(c, cur);
    if cur.col < s.len() {
        lemma_ceil_boundary(s, cur.col + 1);
        let n = ceil_boundary(s, cur.col + 1);
        lemma_floor_back(s, cur.col as int, n - 1);
        assert(r == Cursor { line: cur.line, col: n as usize });
        assert(prev_boundary(s, n) == cur.col);
        assert(left_cursor(c, r).line == cur.line);
        assert(left_cursor(c, r).col == cur.col);
    } else {
        assert(r == Cursor { line: (cur.line + 1) as usize, col: 0 });
        assert(line_text(c, cur.line as int).len() == cur.col);
        assert(left_cursor(c, r).line == cur.line);
        assert(left_cursor(c, r).col == cur.col);
    }
}

/* ── what the cursor motions do ──────────────────────────────────────────── */

/// In line text `s`, aiming for column `want`, the cursor lands on `col`: the
/// last char boundary at or before `want` (the end of a shorter line).
pub open spec fn lands_at(s: Seq<u8>, want: int, col: int) -> bool {
    &&& 0 <= col <= s.len()
    &&& col <= want
    &&& is_char_boundary(s, col)
    &&& forall|j: int| col < j <= want && j <= s.len() ==> !is_char_boundary(s, j)
}

/// The index of the last line of `c` (0 for an empty text).
pub open spec fn last_line(c: Seq<u8>) -> int {
    if line_count_of(c) == 0 {
        0
    } else {
        line_count_of(c) - 1
    }
}

/// No char boundary lies above `floor_boundary(s, k)` and at or below `k`.
proof fn lemma_floor_greatest(s: Seq<u8>, k: int)
    ensures
        forall|j: int| floor_boundary(s, k) < j <= k ==> !is_char_boundary(s, j),
    decreases k,
{
    if k > 0 && !is_char_boundary(s, k) {
        lemma_floor_greatest(s, k - 1);
    }
}

/// No char boundary lies at or above `k` and below `ceil_boundary(s, k)`.
proof fn lemma_ceil_least(s: Seq<u8>, k: int)
    ensures
        forall|j: int| k <= j < ceil_boundary(s, k) ==> !is_char_boundary(s, j),
    decreases s.len() - k,
{
    if k < s.len() && !is_char_boundary(s, k) {
        lemma_ceil_least(s, k + 1);
    }
}

/// Clamping a column lands on the last char boundary at or before it.
proof fn lemma_clamp_lands(s: Seq<u8>, want: int)
    requires
        valid_utf8(s),
        0 <= want,
    ensures
        lands_at(s, want, clamp_col(s, want)),
{
    let k = if want > s.len() {
        s.len() as int
    } else {
        want
    };
    lemma_floor_boundary(s, k);
    lemma_floor_greatest(s, k);
}

/// Page Down moves the cursor `h` lines down, or to the last line when
/// fewer lines follow, and keeps its column as far as that line allows.
pub proof fn law_page_down_moves_a_page(c: Seq<u8>, cur: Cursor, h: int)
    requires
        valid_utf8(c),
        c.len() < usize::MAX,
        0 <= h,
    ensures
        cur.line + h < line_count_of(c) ==> page_down_cursor(c, cur, h).line == cur.line + h,
        cur.line + h >= line_count_of(c) ==> page_down_cursor(c, cur, h).line == last_line(c),
        lands_at(
            line_text(c, page_down_cursor(c, cur, h).line as int),
            cur.col as int,
            page_down_cursor(c, cur, h).col as int,
        ),
{
    lemma_newline_positions(c);
    let r = page_down_cursor(c, cur, h);
    lemma_line_text(c, r.line as int);
    lemma_clamp_lands(line_text(c, r.line as int), cur.col as int);
}

/// Page Up moves the cursor `h` lines up, or to the first line when fewer
/// lines precede it, and keeps its column as far as that line allows.
pub proof fn law_page_up_moves_a_page(c: Seq<u8>, cur: Cursor, h: int)
    requires
        valid_utf8(c),
        0 <= h,
    ensures
        cur.line >= h ==> page_up_cursor(c, cur, h).line == cur.line - h,
        cur.line < h ==> page_up_cursor(c, cur, h).line == 0,
        lands_at(
            line_text(c, page_up_cursor(c, cur, h).line as int),
            cur.col as int,
            page_up_cursor(c, cur, h).col as int,
        ),
{
    let r = page_up_cursor(c, cur, h);
    lemma_line_text(c, r.line as int);
    lemma_clamp_lands(line_text(c, r.line as int), cur.col as int);
}

/// Up moves the cursor one line up, keeping its column as far as that line
/// allows; on the first line it goes to the start of the text.
pub proof fn law_up_moves_a_line(c: Seq<u8>, cur: Cursor)
    requires
        valid_utf8(c),
    ensures
        cur.line > 0 ==> up_cursor(c, cur).line == cur.line - 1 && lands_at(
            line_text(c, cur.line - 1),
            cur.col as int,
            up_cursor(c, cur).col as int,
        ),
        cur.line == 0 ==> up_cursor(c, cur) == (Cursor { line: 0, col: 0 }),
{
    if cur.line > 0 {
        lemma_line_text(c, cur.line - 1);
        lemma_clamp_lands(line_text(c, cur.line - 1), cur.col as int);
    }
}

/// Down moves the cursor one line down, keeping its column as far as that
/// line allows; on the last line it stays put.
pub proof fn law_down_moves_a_line(c: Seq<u8>, cur: Cursor)
    requires
        valid_utf8(c),
        c.len() < usize::MAX,
    ensures
        cur.line + 1 < line_count_of(c) ==> down_cursor(c, cur).line == cur.line + 1 && lands_at(
            line_text(c, cur.line + 1),
            cur.col as int,
            down_cursor(c, cur).col as int,
        ),
        cur.line + 1 >= line_count_of(c) ==> down_cursor(c, cur) == cur,
{
    lemma_newline_positions(c);
    if cur.line + 1 < line_count_of(c) {
        lemma_line_text(c, cur.line + 1);
        lemma_clamp_lands(line_text(c, cur.line + 1), cur.col as int);
    }
}

/// Home goes to the start of the cursor's line and End to its end.
pub proof fn law_home_and_end(c: Seq<u8>, cur: Cursor)
    requires
        valid_utf8(c),
        c.len() < usize::MAX,
    ensures
        home_cursor(cur).line == cur.line,
        home_cursor(cur).col == 0,
        end_cursor(c, cur).line == cur.line,
        end_cursor(c, cur).col == line_text(c, cur.line as int).len(),
{
    lemma_newline_positions(c);
    lemma_line_text(c, cur.line as int);
    assert(line_text(c, cur.line as int).len() <= c.len());
}

/// Right moves the cursor over one char of its line: to the next char
/// boundary after it. At the end of a line it goes to the start of the next
/// one, and at the end of the text it stays put.
pub proof fn law_right_moves_a_char(c: Seq<u8>, cur: Cursor)
    requires
        valid_utf8(c),
        c.len() < usize::MAX,
        valid_cursor(c, cur),
    ensures
        ({
            let s = line_text(c, cur.line as int);
            let r = right_cursor(c, cur);
            &&& cur.col < s.len() ==> {
                &&& r.line == cur.line
                &&& cur.col < r.col <= s.len()
                &&& is_char_boundary(s, r.col as int)
                &&& forall|j: int| cur.col < j < r.col ==> !is_char_boundary(s, j)
            }
            &&& cur.col >= s.len() && cur.line + 1 < line_count_of(c) ==> r == (Cursor {
                line: (cur.line + 1) as usize,
                col: 0,
            })
            &&& cur.col >= s.len() && cur.line + 1 >= line_count_of(c) ==> r == cur
        }),
{
    let s = line_text(c, cur.line as int);
    lemma_line_text(c, cur.line as int);
    lemma_newline_positions(c);
    if cur.col < s.len() {
        lemma_ceil_boundary(s, cur.col + 1);
        lemma_ceil_least(s, cur.col + 1);
    }
}

/// Left moves the cursor back over one char of its line: to the char
/// boundary before it. At the start of a line it goes to the end of the line
/// before, and at the start of the text it stays put.
pub proof fn law_left_moves_a_char(c: Seq<u8>, cur: Cursor)
    requires
        valid_utf8(c),
        c.len() < usize::MAX,
        valid_cursor(c, cur),
    ensures
        ({
            let s = line_text(c, cur.line as int);
            let r = left_cursor(c, cur);
            &&& cur.col > 0 ==> {
                &&& r.line == cur.line
                &&& 0 <= r.col < cur.col
                &&& is_char_boundary(s, r.col as int)
                &&& forall|j: int| r.col < j < cur.col ==> !is_char_boundary(s, j)
            }
            &&& cur.col == 0 && cur.line > 0 ==> r == (Cursor {
                line: (cur.line - 1) as usize,
                col: line_text(c, cur.line - 1).len() as usize,
            })
            &&& cur.col == 0 && cur.line == 0 ==> r == cur
        }),
{
    let s = line_text(c, cur.line as int);
    lemma_line_text(c, cur.line as int);
    if cur.col > 0 {
        lemma_floor_boundary(s, cur.col - 1);
        lemma_floor_greatest(s, cur.col - 1);
    }
}

/// Just left of a char boundary `col > 0`: the char boundary before it is
/// `col - 1` exactly when the byte there is a space.
proof fn lemma_space_before(s: Seq<u8>, col: int)
    requires
        valid_utf8(s),
        0 < col <= s.len(),
    ensures
        0 <= prev_boundary(s, col) < col,
        is_char_boundary(s, prev_boundary(s, col)),
        s[prev_boundary(s, col)] == 32u8 ==> prev_boundary(s, col) == col - 1,
        s[col - 1] == 32u8 ==> prev_boundary(s, col) == col - 1,
        forall|j: int| prev_boundary(s, col) < j < col ==> s[j] != 32u8,
{
    let prev = prev_boundary(s, col);
    lemma_floor_boundary(s, col - 1);
    lemma_floor_greatest(s, col - 1);
    if s[prev] == 32u8 {
        lemma_ascii_boundaries(s, prev);
    }
    if s[col - 1] == 32u8 {
        lemma_ascii_boundaries(s, col - 1);
    }
    assert forall|j: int| prev < j < col implies s[j] != 32u8 by {
        if s[j] == 32u8 {
            lemma_ascii_boundaries(s, j);
        }
    }
}

/// Just right of a char boundary `col < s.len()`: the char boundary after
/// it is `col + 1` when the byte at `col` is a space, and no byte between is
/// a space.
proof fn lemma_space_after(s: Seq<u8>, col: int)
    requires
        valid_utf8(s),
        0 <= col < s.len(),
    ensures
        col < next_boundary(s, col) <= s.len(),
        is_char_boundary(s, next_boundary(s, col)),
        s[col] == 32u8 ==> next_boundary(s, col) == col + 1,
        forall|j: int| col < j < next_boundary(s, col) ==> s[j] != 32u8,
{
    lemma_ceil_boundary(s, col + 1);
    lemma_ceil_least(s, col + 1);
    if s[col] == 32u8 {
        lemma_ascii_boundaries(s, col);
    }
    assert forall|j: int| col < j < next_boundary(s, col) implies s[j] != 32u8 by {
        if s[j] == 32u8 {
            lemma_ascii_boundaries(s, j);
        }
    }
}

/// What skipping left does: the bytes passed over are all spaces (or all
/// other bytes), and the byte before where it stops is not (or is) one.
proof fn lemma_skip_left_bytes(s: Seq<u8>, col: int, spaces: bool)
    requires
        valid_utf8(s),
        0 <= col <= s.len(),
        is_char_boundary(s, col),
    ensures
        forall|j: int| skip_left(s, col, spaces) <= j < col ==> (s[j] == 32u8) == spaces,
        skip_left(s, col, spaces) == 0 || (s[skip_left(s, col, spaces) - 1] == 32u8) != spaces,
    decreases col,
{
    lemma_skip_left(s, col, spaces);
    if col > 0 {
        lemma_space_before(s, col);
        let prev = prev_boundary(s, col);
        if (s[prev] == 32u8) == spaces {
            lemma_skip_left_bytes(s, prev, spaces);
        }
    }
}

/// What skipping right does: the bytes passed over are all spaces (or all
/// other bytes), and the byte where it stops, if any, is not (or is) one.
proof fn lemma_skip_right_bytes(s: Seq<u8>, col: int, spaces: bool)
    requires
        valid_utf8(s),
        0 <= col <= s.len(),
        is_char_boundary(s, col),
    ensures
        forall|j: int| col <= j < skip_right(s, col, spaces) ==> (s[j] == 32u8) == spaces,
        skip_right(s, col, spaces) == s.len() || (s[skip_right(s, col, spaces)] == 32u8)
            != spaces,
    decreases s.len() - col,
{
    lemma_skip_right(s, col, spaces);
    if col < s.len() && (s[col] == 32u8) == spaces {
        lemma_space_after(s, col);
        lemma_skip_right_bytes(s, next_boundary(s, col), spaces);
    }
}

/// The bytes of `s` from `a` up to `b` are a run of other bytes followed by
/// a run of spaces (either run may be empty).
pub open spec fn word_then_spaces(s: Seq<u8>, a: int, b: int) -> bool {
    forall|i: int, j: int|
        a <= i < j < b && #[trigger] s[i] == 32u8 ==> #[trigger] s[j] == 32u8
}

/// Ctrl+Left stays on the cursor's line and lands at the start of the word
/// before the cursor: between the new and the old column lie a word and
/// then spaces, and the new column is the start of the line, or the start of
/// a non-empty word that a space precedes.
pub proof fn law_word_left_skips_a_word(c: Seq<u8>, cur: Cursor)
    requires
        valid_utf8(c),
        valid_cursor(c, cur),
    ensures
        ({
            let s = line_text(c, cur.line as int);
            let r = word_left_cursor(c, cur);
            &&& r.line == cur.line
            &&& r.col <= cur.col
            &&& is_char_boundary(s, r.col as int)
            &&& word_then_spaces(s, r.col as int, cur.col as int)
            &&& r.col == 0 || (r.col < cur.col && s[r.col - 1] == 32u8 && s[r.col as int] != 32u8)
        }),
{
    let s = line_text(c, cur.line as int);
    lemma_line_text(c, cur.line as int);
    let col = cur.col as int;
    let m = skip_left(s, col, true);
    lemma_skip_left(s, col, true);
    lemma_skip_left_bytes(s, col, true);
    lemma_skip_left(s, m, false);
    lemma_skip_left_bytes(s, m, false);
    let r = skip_left(s, m, false);
    assert(r <= usize::MAX);
    assert(word_left_cursor(c, cur).col == r);
    assert forall|i: int, j: int| r <= i < j < col && #[trigger] s[i] == 32u8 implies #[trigger] s[j]
        == 32u8 by {
        assert(i >= m);
    }
}

/// Ctrl+Right moves forward over the rest of the word at the cursor and the
/// spaces after it: on the same line, to the next word (the bytes passed
/// over are a word and then spaces, and at least one space comes right
/// before the new column), or to the end of the line when no word follows
/// and the line is the last; otherwise from the end of the line on to the
/// start of the next line.
pub proof fn law_word_right_skips_a_word(c: Seq<u8>, cur: Cursor)
    requires
        valid_utf8(c),
        c.len() < usize::MAX,
        valid_cursor(c, cur),
    ensures
        ({
            let s = line_text(c, cur.line as int);
            let r = word_right_cursor(c, cur);
            &&& r.line == cur.line ==> {
                &&& cur.col <= r.col <= s.len()
                &&& word_then_spaces(s, cur.col as int, r.col as int)
                &&& r.col < s.len() ==> cur.col < r.col && s[r.col - 1] == 32u8 && s[r.col as int]
                    != 32u8
                &&& r.col == s.len() ==> cur.line + 1 >= line_count_of(c)
            }
            &&& r.line != cur.line ==> {
                &&& r == (Cursor { line: (cur.line + 1) as usize, col: 0 })
                &&& cur.line + 1 < line_count_of(c)
                &&& word_then_spaces(s, cur.col as int, s.len() as int)
            }
        }),
{
    let s = line_text(c, cur.line as int);
    lemma_line_text(c, cur.line as int);
    lemma_newline_positions(c);
    let col = cur.col as int;
    let m = skip_right(s, col, false);
    lemma_skip_right(s, col, false);
    lemma_skip_right_bytes(s, col, false);
    let n = skip_right(s, m, true);
    lemma_skip_right(s, m, true);
    lemma_skip_right_bytes(s, m, true);
    assert(s.len() <= c.len());
    assert forall|i: int, j: int| col <= i < j < n && #[trigger] s[i] == 32u8 implies #[trigger] s[j]
        == 32u8 by {
        assert(i >= m);
    }
}

/// The line-ending convention of loaded text is that of its first line
/// ending: `\r\n` when the first `'\n'` comes right after a `'\r'`, `\n`
/// otherwise, and `\n` for text without any `'\n'`.
pub proof fn law_line_ending_of_first_newline(text: Seq<u8>, i: int)
    requires
        0 <= i < text.len(),
        text[i] == 10u8,
        forall|j: int| 0 <= j < i ==> text[j] != 10u8,
    ensures
        detected_ending(text) == (if i > 0 && text[i - 1] == 13u8 {
            LineEnding::CrLf
        } else {
            LineEnding::Lf
        }),
{
    lemma_newline_positions(text);
    let p = newline_positions(text);
    let k = choose|k: int| 0 <= k < p.len() && #[trigger] p[k] == i;
    assert(p.len() > 0);
    if k > 0 {
        assert(p[0] < p[k]);
    }
    assert(p[0] == i);
}

/// Text without any `'\n'` is taken to use `\n` line endings.
pub proof fn law_no_newline_means_lf(text: Seq<u8>)
    requires
        forall|j: int| 0 <= j < text.len() ==> text[j] != 10u8,
    ensures
        detected_ending(text) == LineEnding::Lf,
{
    lemma_newline_positions(text);
    let p = newline_positions(text);
    if p.len() > 0 {
        assert(text[p[0]] == 10u8);
    }
}

/// A click `n` chars into a row lands on that row (the last line when the
/// row lies past it), on a char boundary of the line, with exactly the
/// line's first `n` chars (all of them for a shorter line) before it.
pub proof fn law_click_lands_after_n_chars(c: Seq<u8>, row: int, n: int)
    requires
        valid_utf8(c),
        c.len() < usize::MAX,
        0 <= row,
        0 <= n,
    ensures
        ({
            let r = click_cursor(c, row, n);
            let s = line_text(c, r.line as int);
            let chars = decode_utf8(s);
            &&& row < line_count_of(c) ==> r.line == row
            &&& row >= line_count_of(c) ==> r.line == last_line(c)
            &&& 0 <= r.col <= s.len()
            &&& is_char_boundary(s, r.col as int)
            &&& decode_utf8(s.subrange(0, r.col as int)) == chars.subrange(
                0,
                if n < chars.len() {
                    n
                } else {
                    chars.len() as int
                },
            )
        }),
{
    lemma_newline_positions(c);
    let l = landing_line(c, row);
    let s = line_text(c, l);
    lemma_line_text(c, l);
    let chars = decode_utf8(s);
    decode_utf8_encode_utf8(s);
    let k = if n < chars.len() {
        n
    } else {
        chars.len() as int
    };
    let a = chars.subrange(0, k);
    let b = chars.subrange(k, chars.len() as int);
    assert(chars =~= a + b);
    crate::text::lemma_encode_concat(a, b);
    encode_utf8_valid_utf8(a);
    encode_utf8_valid_utf8(b);
    encode_utf8_decode_utf8(a);
    is_char_boundary_start_end_of_seq(encode_utf8(a));
    lemma_concat_boundary(encode_utf8(a), encode_utf8(b), encode_utf8(a).len() as int);
    assert(s.subrange(0, encode_utf8(a).len() as int) =~= encode_utf8(a));
    if n >= chars.len() {
        assert(a =~= chars);
        assert(s.subrange(0, s.len() as int) =~= s);
    }
    assert(s.len() <= c.len());
}

/// A jump to line `l` lands on that line (the last line when `l` lies past
/// it), keeping the column as far as that line allows.
pub proof fn law_jump_lands_on_the_line(c: Seq<u8>, cur: Cursor, l: int)
    requires
        valid_utf8(c),
        c.len() < usize::MAX,
        0 <= l,
    ensures
        l < line_count_of(c) ==> landing_line(c, l) == l,
        l >= line_count_of(c) ==> landing_line(c, l) == last_line(c),
        lands_at(
            line_text(c, landing_line(c, l)),
            cur.col as int,
            clamped(Cursor { line: landing_line(c, l) as usize, col: cur.col }, c).col as int,
        ),
{
    lemma_newline_positions(c);
    let r = landing_line(c, l);
    lemma_line_text(c, r);
    lemma_clamp_lands(line_text(c, r), cur.col as int);
}

} // verus!
