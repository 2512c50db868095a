//! What the terminal editor draws, computed from its state: the line-number
//! labels and text of the visible rows, the status line, the command line
//! and the cell where the cursor goes. Styling and drawing are left to the
//! caller.
use vstd::prelude::*;
use vstd::string::*;
use vstd::utf8::*;

use crate::conversions::string_push;
use crate::display::{decimal_digits, gutter_width, lemma_digits_at_most_20};
use crate::document::cow_into_string;
use crate::text::{line_bytes, line_count_of};
use crate::cursor::Cursor;
use crate::tui::{App, AppView, Mode, ModeView};

verus! {

/* ── numbers and padding ─────────────────────────────────────────────────── */

/// The decimal digit `d` as a char.
pub open spec fn digit(d: nat) -> char {
    (48 + d) as char
}

/// The decimal representation of `n`.
pub open spec fn decimal(n: nat) -> Seq<char>
    decreases n,
{
    if n < 10 {
        seq![digit(n)]
    } else {
        decimal(n / 10).push(digit(n % 10))
    }
}

/// `n` spaces.
pub open spec fn spaces(n: nat) -> Seq<char> {
    Seq::new(n, |i: int| ' ')
}

/// `s` right-aligned in a field of `w` chars (never cut).
pub open spec fn right_aligned(s: Seq<char>, w: nat) -> Seq<char> {
    if s.len() >= w {
        s
    } else {
        spaces((w - s.len()) as nat) + s
    }
}

fn digit_char(d: usize) -> (r: char)
    requires
        d < 10,
    ensures
        r == digit(d as nat),
{
    let b: u8 = 48u8 + (d as u8);
    b as char
}

/// The decimal representation of `n`.
pub fn decimal_text(n: usize) -> (r: String)
    ensures
        r@ == decimal(n as nat),
        r@.len() == decimal_digits(n as nat),
    decreases n,
{
    if n < 10 {
        let mut s = String::new();
        string_push(&mut s, digit_char(n));
        proof {
            assert(s@ =~= seq![digit(n as nat)]);
        }
        s
    } else {
        let mut s = decimal_text(n / 10);
        string_push(&mut s, digit_char(n % 10));
        s
    }
}

/// `n` spaces.
fn space_text(n: usize) -> (r: String)
    ensures
        r@ == spaces(n as nat),
{
    let mut s = String::new();
    let mut i: usize = 0;
    while i < n
        invariant
            i <= n,
            s@ =~= spaces(i as nat),
        decreases n - i,
    {
        string_push(&mut s, ' ');
        i = i + 1;
    }
    s
}

/// `s` right-aligned in a field of `w` chars.
fn right_aligned_text(s: &str, w: usize) -> (r: String)
    ensures
        r@ == right_aligned(s@, w as nat),
{
    let n = s.unicode_len();
    if n >= w {
        s.to_owned()
    } else {
        let mut r = space_text(w - n);
        r.append(s);
        r
    }
}

/* ── the editor rows ─────────────────────────────────────────────────────── */

/// The gutter label of a line: its number right-aligned, then a space.
pub open spec fn number_label(number: nat, width: nat) -> Seq<char> {
    right_aligned(decimal(number), width) + seq![' ']
}

/// The gutter label of a row past the end of the text.
pub open spec fn tilde_label(width: nat) -> Seq<char> {
    right_aligned(seq!['~'], width) + seq![' ']
}

/// One row of the editor area: its gutter label and, for a line of the
/// text, that line.
pub struct Row {
    pub gutter: String,
    pub text: Option<String>,
}

/// `row` shows line `li` of `c` (or a `~` row past its end) with a gutter
/// of `w` digits.
pub open spec fn shows(c: Seq<u8>, w: nat, li: int, row: Row) -> bool {
    if li < line_count_of(c) {
        &&& row.gutter@ == number_label((li + 1) as nat, w)
        &&& row.text matches Some(t) && t@ == decode_utf8(line_bytes(c, li))
    } else {
        &&& row.gutter@ == tilde_label(w)
        &&& row.text is None
    }
}

/// The gutter width of text `c`: the digits of its line count (at least 1).
pub open spec fn gutter_digits(c: Seq<u8>) -> nat {
    decimal_digits(
        if line_count_of(c) >= 1 {
            line_count_of(c)
        } else {
            1
        },
    )
}

/// The rows of an editor area of `height` lines: from the first visible
/// line on, each line's number and text, then `~` rows past the end.
pub fn editor_rows(app: &App, height: usize) -> (rows: Vec<Row>)
    requires
        app.doc.wf(),
        app.scroll_top + height <= usize::MAX,
    ensures
        rows@.len() == height,
        forall|i: int|
            0 <= i < height ==> shows(
                app.doc@.content,
                gutter_digits(app.doc@.content),
                app.scroll_top + i,
                #[trigger] rows@[i],
            ),
{
    let lc = app.doc.line_count();
    let gutter_w = gutter_width(lc);
    let ghost c = app.doc@.content;
    let mut rows: Vec<Row> = Vec::new();
    let mut i: usize = 0;
    while i < height
        invariant
            app.doc.wf(),
            c == app.doc@.content,
            app.scroll_top + height <= usize::MAX,
            i <= height,
            rows@.len() == i,
            lc == line_count_of(c),
            gutter_w == gutter_digits(c),
            forall|j: int|
                0 <= j < i ==> shows(c, gutter_w as nat, app.scroll_top + j, #[trigger] rows@[j]),
        decreases height - i,
    {
        let li = app.scroll_top + i;
        let row = if li < lc {
            let num = decimal_text(li + 1);
            let mut gutter = right_aligned_text(num.as_str(), gutter_w);
            string_push(&mut gutter, ' ');
            proof {
                assert(gutter@ =~= number_label((li + 1) as nat, gutter_w as nat));
            }
            let text = match app.doc.line_at(li) {
                Some(t) => cow_into_string(t),
                None => String::new(),
            };
            Row { gutter, text: Some(text) }
        } else {
            proof {
                reveal_strlit("~");
            }
            let mut gutter = right_aligned_text("~", gutter_w);
            string_push(&mut gutter, ' ');
            proof {
                assert(gutter@ =~= tilde_label(gutter_w as nat));
            }
            Row { gutter, text: None }
        };
        rows.push(row);
        i = i + 1;
    }
    rows
}

/* ── the status line ─────────────────────────────────────────────────────── */

/// The label of a mode in the status line.
pub open spec fn mode_label(m: ModeView) -> Seq<char> {
    match m {
        ModeView::Normal => " NORMAL "@,
        ModeView::Insert => " INSERT "@,
        ModeView::Command(_) => " COMMAND"@,
    }
}

/// The unsaved-changes mark.
pub open spec fn dirty_mark(dirty: bool) -> Seq<char> {
    if dirty {
        " [+]"@
    } else {
        Seq::empty()
    }
}

/// The cursor position, 1-based, as ` line:col `.
pub open spec fn position_text(cur: Cursor) -> Seq<char> {
    seq![' '] + decimal((cur.line + 1) as nat) + seq![':'] + decimal((cur.col + 1) as nat) + seq![' ']
}

/// The filler between the name and the position: the width left over once
/// the other pieces are counted (that count taken modulo 2^16, as a terminal
/// width is), never below zero.
pub open spec fn filler_width(width: int, used: int) -> int {
    let u = used % 65536;
    if width > u {
        width - u
    } else {
        0
    }
}

/// The pieces of the status line, left to right.
pub struct StatusLine {
    pub mode: String,
    pub name: String,
    pub filler: String,
    pub position: String,
}

/// The status line of a terminal `width` cells wide, for a file named
/// `file_name`: the mode, the name with the unsaved-changes mark, a filler,
/// and the cursor position.
pub fn status_line(app: &App, file_name: &str, width: u16) -> (r: StatusLine)
    requires
        file_name.spec_bytes().len() + 64 <= usize::MAX,
        app.doc@.cursor.line < usize::MAX,
        app.doc@.cursor.col < usize::MAX,
    ensures
        r.mode@ == mode_label(app.mode@),
        r.name@ == seq![' ', ' '] + file_name@ + dirty_mark(app.doc@.dirty) + seq![' ', ' '],
        r.position@ == position_text(app.doc@.cursor),
        r.filler@ == spaces(
            filler_width(
                width as int,
                (mode_label(app.mode@).len() + file_name.spec_bytes().len() + dirty_mark(
                    app.doc@.dirty,
                ).len() + 4 + position_text(app.doc@.cursor).len()) as int,
            ) as nat,
        ),
{
    proof {
        reveal_strlit(" NORMAL ");
        reveal_strlit(" INSERT ");
        reveal_strlit(" COMMAND");
        reveal_strlit(" [+]");
        reveal_strlit("  ");
        reveal_strlit("");
    }
    let mode = match &app.mode {
        Mode::Normal => " NORMAL ",
        Mode::Insert => " INSERT ",
        Mode::Command(_) => " COMMAND",
    };
    let dirty = if app.doc.is_dirty() {
        " [+]"
    } else {
        ""
    };
    let cur = app.doc.cursor_position();
    let line_text = decimal_text(cur.line + 1);
    let col_text = decimal_text(cur.col + 1);
    let mut pos = String::new();
    string_push(&mut pos, ' ');
    pos.append(line_text.as_str());
    string_push(&mut pos, ':');
    pos.append(col_text.as_str());
    string_push(&mut pos, ' ');
    proof {
        assert(pos@ =~= position_text(cur));
        lemma_digits_at_most_20((cur.line + 1) as nat);
        lemma_digits_at_most_20((cur.col + 1) as nat);
    }
    let mut name = String::from_str("  ");
    name.append(file_name);
    name.append(dirty);
    name.append("  ");
    let used: usize = mode.unicode_len() + file_name.len() + dirty.unicode_len() + 4
        + pos.as_str().unicode_len();
    let u: u16 = (used % 65536) as u16;
    let filler = space_text(width.saturating_sub(u) as usize);
    proof {
        assert(name@ =~= seq![' ', ' '] + file_name@ + dirty_mark(app.doc@.dirty) + seq![' ', ' ']);
    }
    StatusLine { mode: mode.to_owned(), name, filler, position: pos }
}

/* ── the command line and the cursor ─────────────────────────────────────── */

/// The command line: the command being typed, after its `:`, or the
/// message.
pub open spec fn command_line(a: AppView) -> Seq<char> {
    match a.mode {
        ModeView::Command(cmd) => seq![':'] + cmd,
        _ => a.message,
    }
}

/// The text of the command line.
pub fn command_line_text(app: &App) -> (r: String)
    ensures
        r@ == command_line(app@),
{
    match &app.mode {
        Mode::Command(cmd) => {
            let mut s = String::new();
            string_push(&mut s, ':');
            s.append(cmd.as_str());
            proof {
                assert(s@ =~= seq![':'] + cmd@);
            }
            s
        },
        _ => app.message.clone(),
    }
}

/// A rectangle of terminal cells.
#[derive(Debug, Clone, Copy, PartialEq, Eq, Structural)]
pub struct Area {
    pub x: u16,
    pub y: u16,
    pub width: u16,
    pub height: u16,
}

/// The row of the editor area that holds the cursor's line (0 above it).
pub open spec fn cursor_row(a: AppView) -> int {
    if a.doc.cursor.line >= a.scroll_top {
        a.doc.cursor.line - a.scroll_top
    } else {
        0
    }
}

/// The cursor's column in the editor area, past the gutter and its space.
pub open spec fn cursor_column(a: AppView) -> int {
    gutter_digits(a.doc.content) + 1 + a.doc.cursor.col
}

/// Where the cursor is drawn: after the command being typed, after its `:`;
/// otherwise over the document's cursor in the editor area, held within the
/// area's last column, and nowhere when its row is out of view. Lengths and
/// columns are taken modulo 2^16, as cell coordinates are.
pub open spec fn cell_of_cursor(a: AppView, editor: Area, cmd_line: Area) -> Option<(int, int)> {
    match a.mode {
        ModeView::Command(cmd) => Some(
            (cmd_line.x + 1 + encode_utf8(cmd).len() % 65536, cmd_line.y as int),
        ),
        _ => {
            let row = cursor_row(a);
            if row >= editor.height {
                None
            } else {
                let right = if editor.x + editor.width <= 65535 {
                    editor.x + editor.width
                } else {
                    65535
                };
                let last = if right >= 1 {
                    right - 1
                } else {
                    0
                };
                let x = editor.x + cursor_column(a) % 65536;
                Some(
                    (
                        if x < last {
                            x
                        } else {
                            last
                        },
                        editor.y + row,
                    ),
                )
            }
        },
    }
}

/// The cell coordinates that `cell_of_cursor` adds up stay within 16 bits.
pub open spec fn cursor_cell_fits(a: AppView, editor: Area, cmd_line: Area) -> bool {
    match a.mode {
        ModeView::Command(cmd) => cmd_line.x + 1 + encode_utf8(cmd).len() % 65536 <= 65535,
        _ => cursor_row(a) < editor.height ==> {
            &&& cursor_column(a) <= usize::MAX
            &&& editor.x + cursor_column(a) % 65536 <= 65535
            &&& editor.y + cursor_row(a) <= 65535
        },
    }
}

/// The cell where the cursor is drawn, if any.
pub fn cursor_cell(app: &App, editor: Area, cmd_line: Area) -> (r: Option<(u16, u16)>)
    requires
        app.doc.wf(),
        cursor_cell_fits(app@, editor, cmd_line),
    ensures
        match r {
            Some((x, y)) => cell_of_cursor(app@, editor, cmd_line) == Some((x as int, y as int)),
            None => cell_of_cursor(app@, editor, cmd_line) is None,
        },
{
    match &app.mode {
        Mode::Command(cmd) => {
            let n = cmd.as_str().as_bytes().len();
            let x = cmd_line.x + 1 + ((n % 65536) as u16);
            Some((x, cmd_line.y))
        },
        _ => {
            let cur = app.doc.cursor_position();
            let row = cur.line.saturating_sub(app.scroll_top);
            if row >= editor.height as usize {
                return None;
            }
            let gutter_w = gutter_width(app.doc.line_count());
            let col = gutter_w + 1 + cur.col;
            let right = editor.x.saturating_add(editor.width);
            let last = right.saturating_sub(1);
            let x = editor.x + ((col % 65536) as u16);
            let x = if x < last {
                x
            } else {
                last
            };
            Some((x, editor.y + (row as u16)))
        },
    }
}

} // verus!
