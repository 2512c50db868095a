//! The terminal editor's state and its key handling: what each key does in
//! each mode, the colon commands, and the scrolling that keeps the cursor
//! on screen. Reading keys, drawing and writing files are left to the caller.
use vstd::prelude::*;
use vstd::string::*;
use vstd::utf8::*;

use crate::conversions::{string_pop, string_push};
use crate::cursor::Cursor;
use crate::document::{DocView, Document};
use crate::layout::{
    down_cursor, end_cursor, home_cursor, left_cursor, lemma_valid_cursor_offset, page_down_cursor,
    page_up_cursor, right_cursor, up_cursor, valid_cursor, word_left_cursor, word_right_cursor,
};
use crate::text::{lemma_encode_len, lemma_newline_positions};

verus! {

/// Editor operating mode.
#[derive(Debug, Clone, PartialEq, Eq)]
pub enum Mode {
    Normal,
    Insert,
    /// Accumulates a colon-command (e.g. `"w"`, `"q!"`, `"wq"`).
    Command(String),
}

/// The model of a mode.
pub enum ModeView {
    Normal,
    Insert,
    Command(Seq<char>),
}

impl View for Mode {
    type V = ModeView;

    open spec fn view(&self) -> ModeView {
        match self {
            Mode::Normal => ModeView::Normal,
            Mode::Insert => ModeView::Insert,
            Mode::Command(cmd) => ModeView::Command(cmd@),
        }
    }
}

/// Top-level application state.
pub struct App {
    pub doc: Document,
    pub mode: Mode,
    /// Index of the first visible line (scroll offset).
    pub scroll_top: usize,
    /// One-line message displayed in the command area (errors, hints).
    pub message: String,
    /// Set to `true` when the event loop should exit.
    pub should_quit: bool,
}

/// The model of the application state.
pub struct AppView {
    pub doc: DocView,
    pub mode: ModeView,
    pub scroll_top: int,
    pub message: Seq<char>,
    pub should_quit: bool,
}

impl View for App {
    type V = AppView;

    open spec fn view(&self) -> AppView {
        AppView {
            doc: self.doc@,
            mode: self.mode@,
            scroll_top: self.scroll_top as int,
            message: self.message@,
            should_quit: self.should_quit,
        }
    }
}

/// The first visible line after scrolling the least that shows `line` in a
/// window of `height` lines starting at `top` (no scrolling for a window of
/// no lines).
pub open spec fn scrolled(top: int, line: int, height: int) -> int {
    if height == 0 {
        top
    } else if line < top {
        line
    } else if line >= top + height {
        line - height + 1
    } else {
        top
    }
}

impl App {
    /// Create a new `App` wrapping `doc`, starting in Normal mode.
    pub fn new(doc: Document) -> (r: App)
        ensures
            r.doc == doc,
            r@ == (AppView {
                doc: doc@,
                mode: ModeView::Normal,
                scroll_top: 0,
                message: Seq::empty(),
                should_quit: false,
            }),
    {
        App { doc, mode: Mode::Normal, scroll_top: 0, message: String::new(), should_quit: false }
    }

    /// Ensure `scroll_top` keeps the cursor inside the visible editor area.
    pub fn scroll_to_cursor(&mut self, editor_height: usize)
        ensures
            final(self).doc == old(self).doc,
            final(self)@ == (AppView {
                scroll_top: scrolled(
                    old(self).scroll_top as int,
                    old(self).doc@.cursor.line as int,
                    editor_height as int,
                ),
                ..old(self)@
            }),
            editor_height > 0 ==> final(self).scroll_top <= final(self).doc@.cursor.line
                < final(self).scroll_top + editor_height,
    {
        if editor_height == 0 {
            return;
        }
        let line = self.doc.cursor_position().line;
        if line < self.scroll_top {
            self.scroll_top = line;
        } else if line - self.scroll_top >= editor_height {
            self.scroll_top = line - editor_height + 1;
        }
    }
}

/* ── keys ────────────────────────────────────────────────────────────────── */

/// The keys that the editor tells apart.
#[derive(Debug, Clone, Copy, PartialEq, Eq, Structural)]
pub enum KeyCode {
    Char(char),
    Enter,
    Tab,
    Backspace,
    Delete,
    Esc,
    Left,
    Right,
    Up,
    Down,
    Home,
    End,
    PageUp,
    PageDown,
    /// Any other key; it does nothing.
    Other,
}

/// A key press: the key, and whether Control was held.
#[derive(Debug, Clone, Copy, PartialEq, Eq, Structural)]
pub struct KeyPress {
    pub code: KeyCode,
    pub ctrl: bool,
}

/// What a key asks of the caller once it has been handled.
#[derive(Debug, Clone, Copy, PartialEq, Eq, Structural)]
pub enum Request {
    Nothing,
    /// Write the document to its file, then report with `App::record_save`.
    Save,
}

/* ── what each key does ──────────────────────────────────────────────────── */

/// Lines moved by Page Up / Page Down.
pub open spec fn spec_page_height() -> int {
    20
}

/// The hint shown when `q` is pressed with unsaved changes.
pub open spec fn dirty_quit_hint() -> Seq<char> {
    "Unsaved changes — use :w to save, :q! to discard"@
}

/// The hint shown when `:q` is entered with unsaved changes.
pub open spec fn dirty_quit_command_hint() -> Seq<char> {
    "Unsaved changes — use :w first, or :q! to discard"@
}

/// The cursor that a movement key leads to, if `key` is one; `normal` adds
/// the keys that only Normal mode knows (h/j/k/l, Page Up, Page Down).
pub open spec fn motion(d: DocView, key: KeyPress, normal: bool) -> Option<Cursor> {
    let c = d.content;
    let cur = d.cursor;
    let k = key.code;
    if k == KeyCode::Left && key.ctrl {
        Some(word_left_cursor(c, cur))
    } else if k == KeyCode::Right && key.ctrl {
        Some(word_right_cursor(c, cur))
    } else if k == KeyCode::Up || (normal && k == KeyCode::Char('k')) {
        Some(up_cursor(c, cur))
    } else if k == KeyCode::Down || (normal && k == KeyCode::Char('j')) {
        Some(down_cursor(c, cur))
    } else if k == KeyCode::Left || (normal && k == KeyCode::Char('h')) {
        Some(left_cursor(c, cur))
    } else if k == KeyCode::Right || (normal && k == KeyCode::Char('l')) {
        Some(right_cursor(c, cur))
    } else if k == KeyCode::Home {
        Some(home_cursor(cur))
    } else if k == KeyCode::End {
        Some(end_cursor(c, cur))
    } else if normal && k == KeyCode::PageUp {
        Some(page_up_cursor(c, cur, spec_page_height()))
    } else if normal && k == KeyCode::PageDown {
        Some(page_down_cursor(c, cur, spec_page_height()))
    } else {
        None
    }
}

/// The state with the document replaced.
pub open spec fn with_doc(a: AppView, d: DocView) -> AppView {
    AppView { doc: d, ..a }
}

/// A key in Normal mode.
pub open spec fn normal_step(a: AppView, key: KeyPress) -> (AppView, Request) {
    let k = key.code;
    if k == KeyCode::Char('q') || k == KeyCode::Char('Q') {
        if a.doc.dirty {
            (AppView { message: dirty_quit_hint(), ..a }, Request::Nothing)
        } else {
            (AppView { should_quit: true, ..a }, Request::Nothing)
        }
    } else if k == KeyCode::Char(':') {
        (AppView { mode: ModeView::Command(Seq::empty()), ..a }, Request::Nothing)
    } else if k == KeyCode::Char('i') {
        (AppView { mode: ModeView::Insert, ..a }, Request::Nothing)
    } else if k == KeyCode::Char('s') && key.ctrl {
        (a, Request::Save)
    } else {
        match motion(a.doc, key, true) {
            Some(cur) => (with_doc(a, a.doc.moved(cur)), Request::Nothing),
            None => (a, Request::Nothing),
        }
    }
}

/// A key in Insert mode.
pub open spec fn insert_step(a: AppView, key: KeyPress) -> AppView {
    let k = key.code;
    if k == KeyCode::Esc {
        AppView { mode: ModeView::Normal, ..a }
    } else if k == KeyCode::Enter {
        with_doc(a, a.doc.typed(seq!['\n']))
    } else if k == KeyCode::Tab {
        with_doc(a, a.doc.typed(seq!['\t']))
    } else if k == KeyCode::Backspace {
        with_doc(a, a.doc.backspaced())
    } else if k == KeyCode::Delete {
        with_doc(a, a.doc.deleted_forward())
    } else {
        match motion(a.doc, key, false) {
            Some(cur) => with_doc(a, a.doc.moved(cur)),
            None => match k {
                KeyCode::Char(ch) => with_doc(a, a.doc.typed(seq![ch])),
                _ => a,
            },
        }
    }
}

/// A key in Command mode, with `cmd` typed so far.
pub open spec fn command_step(a: AppView, key: KeyPress, cmd: Seq<char>) -> (AppView, Request) {
    let k = key.code;
    if k == KeyCode::Esc {
        (AppView { mode: ModeView::Normal, ..a }, Request::Nothing)
    } else if k == KeyCode::Backspace {
        (
            AppView {
                mode: ModeView::Command(
                    if cmd.len() > 0 {
                        cmd.drop_last()
                    } else {
                        cmd
                    },
                ),
                ..a
            },
            Request::Nothing,
        )
    } else if k == KeyCode::Enter {
        command_outcome(AppView { mode: ModeView::Normal, ..a }, cmd)
    } else {
        match k {
            KeyCode::Char(ch) => (
                AppView { mode: ModeView::Command(cmd.push(ch)), ..a },
                Request::Nothing,
            ),
            _ => (AppView { mode: ModeView::Command(cmd), ..a }, Request::Nothing),
        }
    }
}

/// Running the colon command `cmd` (surrounding whitespace ignored).
pub open spec fn command_outcome(a: AppView, cmd: Seq<char>) -> (AppView, Request) {
    let t = trimmed(cmd);
    if t == "w"@ || t == "write"@ {
        (a, Request::Save)
    } else if t == "q"@ || t == "quit"@ {
        if a.doc.dirty {
            (AppView { message: dirty_quit_command_hint(), ..a }, Request::Nothing)
        } else {
            (AppView { should_quit: true, ..a }, Request::Nothing)
        }
    } else if t == "q!"@ || t == "quit!"@ {
        (AppView { should_quit: true, ..a }, Request::Nothing)
    } else if t == "wq"@ || t == "x"@ {
        (AppView { should_quit: true, ..a }, Request::Save)
    } else {
        (AppView { message: "Unknown command: "@ + t, ..a }, Request::Nothing)
    }
}

/// A key in any mode; the message of the previous key is cleared first.
pub open spec fn key_step(a: AppView, key: KeyPress) -> (AppView, Request) {
    let a0 = AppView { message: Seq::empty(), ..a };
    match a.mode {
        ModeView::Normal => normal_step(a0, key),
        ModeView::Insert => (insert_step(a0, key), Request::Nothing),
        ModeView::Command(cmd) => command_step(a0, key, cmd),
    }
}

/// The colon commands that quit whatever the state of the document: `:q!`
/// and `:quit!` discard changes, `:wq` and `:x` ask for a save first.
pub open spec fn quits_regardless(t: Seq<char>) -> bool {
    t == "q!"@ || t == "quit!"@ || t == "wq"@ || t == "x"@
}

/// While the document has unsaved changes, no key makes the editor quit,
/// except Enter on one of the commands that quit regardless.
pub proof fn law_unsaved_changes_block_quit(a: AppView, key: KeyPress)
    requires
        a.doc.dirty,
        !a.should_quit,
        !(a.mode matches ModeView::Command(cmd) && key.code == KeyCode::Enter && quits_regardless(
            trimmed(cmd),
        )),
    ensures
        !key_step(a, key).0.should_quit,
{
}

/* ── command text ────────────────────────────────────────────────────────── */

/// Unicode `White_Space`: the characters that trimming removes.
pub open spec fn white_space(c: char) -> bool {
    let u = c as u32;
    ||| 0x09 <= u <= 0x0D
    ||| u == 0x20
    ||| u == 0x85
    ||| u == 0xA0
    ||| u == 0x1680
    ||| 0x2000 <= u <= 0x200A
    ||| u == 0x2028
    ||| u == 0x2029
    ||| u == 0x202F
    ||| u == 0x205F
    ||| u == 0x3000
}

/// `s` without its leading white space.
pub open spec fn trim_start(s: Seq<char>) -> Seq<char>
    decreases s.len(),
{
    if s.len() > 0 && white_space(s[0]) {
        trim_start(s.drop_first())
    } else {
        s
    }
}

/// `s` without its trailing white space.
pub open spec fn trim_end(s: Seq<char>) -> Seq<char>
    decreases s.len(),
{
    if s.len() > 0 && white_space(s.last()) {
        trim_end(s.drop_last())
    } else {
        s
    }
}

/// `s` without leading and trailing white space.
pub open spec fn trimmed(s: Seq<char>) -> Seq<char> {
    trim_end(trim_start(s))
}

fn is_white_space(c: char) -> (r: bool)
    ensures
        r == white_space(c),
{
    let u = c as u32;
    (0x09 <= u && u <= 0x0D) || u == 0x20 || u == 0x85 || u == 0xA0 || u == 0x1680 || (0x2000
        <= u && u <= 0x200A) || u == 0x2028 || u == 0x2029 || u == 0x202F || u == 0x205F || u
        == 0x3000
}

/// `s` with leading and trailing white space removed.
pub fn trim(s: &str) -> (r: &str)
    ensures
        r@ == trimmed(s@),
{
    let n = s.unicode_len();
    let ghost v = s@;
    let mut start: usize = 0;
    proof {
        assert(v.subrange(0, n as int) =~= v);
    }
    while start < n && is_white_space(s.get_char(start))
        invariant
            start <= n,
            n == v.len(),
            v == s@,
            trim_start(v) == trim_start(v.subrange(start as int, n as int)),
        decreases n - start,
    {
        proof {
            assert(v.subrange(start as int, n as int).drop_first() =~= v.subrange(
                start + 1,
                n as int,
            ));
        }
        start = start + 1;
    }
    let ghost front = v.subrange(start as int, n as int);
    assert(trim_start(v) == front);
    let mut end: usize = n;
    proof {
        assert(front.subrange(0, front.len() as int) =~= front);
    }
    while end > start && is_white_space(s.get_char(end - 1))
        invariant
            start <= end <= n,
            n == v.len(),
            v == s@,
            front == v.subrange(start as int, n as int),
            trim_end(front) == trim_end(v.subrange(start as int, end as int)),
        decreases end - start,
    {
        proof {
            assert(v.subrange(start as int, end as int).drop_last() =~= v.subrange(
                start as int,
                end - 1,
            ));
        }
        end = end - 1;
    }
    s.substring_char(start, end)
}

/// `true` when `a` and `b` hold the same characters.
pub fn same_text(a: &str, b: &str) -> (r: bool)
    ensures
        r == (a@ == b@),
{
    let x = a.as_bytes();
    let y = b.as_bytes();
    proof {
        encode_utf8_decode_utf8(a@);
        encode_utf8_decode_utf8(b@);
    }
    if x.len() != y.len() {
        return false;
    }
    let mut i: usize = 0;
    while i < x.len()
        invariant
            x@ == encode_utf8(a@),
            y@ == encode_utf8(b@),
            x@.len() == y@.len(),
            i <= x@.len(),
            forall|j: int| 0 <= j < i ==> x@[j] == y@[j],
        decreases x@.len() - i,
    {
        if x[i] != y[i] {
            return false;
        }
        i = i + 1;
    }
    proof {
        assert(x@ =~= y@);
    }
    true
}

/* ── handling keys ───────────────────────────────────────────────────────── */

/// What handling a key needs of the state: a well-formed document with a
/// valid cursor and room left for a few more bytes.
pub open spec fn ready(a: &App) -> bool {
    &&& a.doc.wf()
    &&& valid_cursor(a.doc@.content, a.doc@.cursor)
    &&& a.doc@.content.len() + 32 < usize::MAX
}

/// Lines moved by Page Up / Page Down.
pub fn page_height(app: &App) -> (r: usize)
    ensures
        r == spec_page_height(),
{
    let _ = app;
    20
}

/// Facts about a valid cursor that the document's operations ask for.
proof fn lemma_ready(a: &App)
    requires
        ready(a),
    ensures
        ({
            let d = a.doc@;
            &&& 0 <= d.offset() <= d.content.len()
            &&& is_char_boundary(d.content, d.offset())
            &&& d.cursor.line <= d.content.len()
        }),
{
    a.doc.lemma_wf_content();
    lemma_valid_cursor_offset(a.doc@.content, a.doc@.cursor);
    lemma_newline_positions(a.doc@.content);
}

/// Apply a movement key to the document, if `key` is one.
fn apply_motion(app: &mut App, key: KeyPress, normal: bool) -> (moved: bool)
    requires
        ready(old(app)),
    ensures
        ready(final(app)),
        moved == motion(old(app).doc@, key, normal) is Some,
        match motion(old(app).doc@, key, normal) {
            Some(cur) => final(app)@ == with_doc(old(app)@, old(app).doc@.moved(cur)),
            None => final(app)@ == old(app)@,
        },
{
    proof {
        lemma_ready(app);
    }
    let k = key.code;
    if k == KeyCode::Left && key.ctrl {
        app.doc.word_left();
    } else if k == KeyCode::Right && key.ctrl {
        app.doc.word_right();
    } else if k == KeyCode::Up || (normal && k == KeyCode::Char('k')) {
        app.doc.move_up();
    } else if k == KeyCode::Down || (normal && k == KeyCode::Char('j')) {
        app.doc.move_down();
    } else if k == KeyCode::Left || (normal && k == KeyCode::Char('h')) {
        app.doc.move_left();
    } else if k == KeyCode::Right || (normal && k == KeyCode::Char('l')) {
        app.doc.move_right();
    } else if k == KeyCode::Home {
        app.doc.move_home();
    } else if k == KeyCode::End {
        app.doc.move_end();
    } else if normal && k == KeyCode::PageUp {
        let ph = page_height(app);
        app.doc.page_up(ph);
    } else if normal && k == KeyCode::PageDown {
        let ph = page_height(app);
        app.doc.page_down(ph);
    } else {
        return false;
    }
    true
}

/// Type one char at the cursor.
fn type_char(app: &mut App, ch: char)
    requires
        ready(old(app)),
    ensures
        final(app).doc.wf(),
        valid_cursor(final(app).doc@.content, final(app).doc@.cursor),
        final(app)@ == with_doc(old(app)@, old(app).doc@.typed(seq![ch])),
{
    proof {
        lemma_ready(app);
        lemma_encode_len(seq![ch]);
    }
    let mut text = String::new();
    string_push(&mut text, ch);
    proof {
        assert(text@ =~= seq![ch]);
    }
    app.doc.insert_at_cursor(text.as_str());
}

/// A key in Normal mode: quit, change mode, ask for a save, or move.
fn handle_normal(app: &mut App, key: KeyPress) -> (r: Request)
    requires
        ready(old(app)),
    ensures
        final(app).doc.wf(),
        valid_cursor(final(app).doc@.content, final(app).doc@.cursor),
        (final(app)@, r) == normal_step(old(app)@, key),
{
    let k = key.code;
    if k == KeyCode::Char('q') || k == KeyCode::Char('Q') {
        if app.doc.is_dirty() {
            app.message = String::from_str("Unsaved changes — use :w to save, :q! to discard");
        } else {
            app.should_quit = true;
        }
    } else if k == KeyCode::Char(':') {
        app.mode = Mode::Command(String::new());
    } else if k == KeyCode::Char('i') {
        app.mode = Mode::Insert;
    } else if k == KeyCode::Char('s') && key.ctrl {
        return Request::Save;
    } else {
        apply_motion(app, key, true);
    }
    Request::Nothing
}

/// A key in Insert mode: leave it, edit, or move.
fn handle_insert(app: &mut App, key: KeyPress)
    requires
        ready(old(app)),
    ensures
        final(app).doc.wf(),
        valid_cursor(final(app).doc@.content, final(app).doc@.cursor),
        final(app)@ == insert_step(old(app)@, key),
{
    proof {
        lemma_ready(app);
    }
    let k = key.code;
    if k == KeyCode::Esc {
        app.mode = Mode::Normal;
    } else if k == KeyCode::Enter {
        type_char(app, '\n');
    } else if k == KeyCode::Tab {
        type_char(app, '\t');
    } else if k == KeyCode::Backspace {
        app.doc.backspace();
    } else if k == KeyCode::Delete {
        app.doc.delete_forward();
    } else if !apply_motion(app, key, false) {
        if let KeyCode::Char(ch) = k {
            type_char(app, ch);
        }
    }
}

/// A key in Command mode, with `cmd` typed so far: leave it, edit the
/// command, or run it.
fn handle_command(app: &mut App, key: KeyPress, cmd: String) -> (r: Request)
    requires
        ready(old(app)),
    ensures
        final(app).doc.wf(),
        valid_cursor(final(app).doc@.content, final(app).doc@.cursor),
        (final(app)@, r) == command_step(old(app)@, key, cmd@),
{
    let mut cmd = cmd;
    let k = key.code;
    if k == KeyCode::Esc {
        app.mode = Mode::Normal;
    } else if k == KeyCode::Backspace {
        string_pop(&mut cmd);
        app.mode = Mode::Command(cmd);
    } else if k == KeyCode::Enter {
        app.mode = Mode::Normal;
        return execute_command(app, cmd.as_str());
    } else if let KeyCode::Char(ch) = k {
        string_push(&mut cmd, ch);
        app.mode = Mode::Command(cmd);
    } else {
        app.mode = Mode::Command(cmd);
    }
    Request::Nothing
}

/// Run a colon command.
fn execute_command(app: &mut App, cmd: &str) -> (r: Request)
    requires
        ready(old(app)),
    ensures
        final(app).doc == old(app).doc,
        (final(app)@, r) == command_outcome(old(app)@, cmd@),
{
    let t = trim(cmd);
    if same_text(t, "w") || same_text(t, "write") {
        Request::Save
    } else if same_text(t, "q") || same_text(t, "quit") {
        if app.doc.is_dirty() {
            app.message = String::from_str("Unsaved changes — use :w first, or :q! to discard");
        } else {
            app.should_quit = true;
        }
        Request::Nothing
    } else if same_text(t, "q!") || same_text(t, "quit!") {
        app.should_quit = true;
        Request::Nothing
    } else if same_text(t, "wq") || same_text(t, "x") {
        app.should_quit = true;
        Request::Save
    } else {
        let mut m = String::from_str("Unknown command: ");
        m.append(t);
        app.message = m;
        Request::Nothing
    }
}

/// Handle one key press: what it does depends on the mode. A save that the
/// key asks for is left to the caller, who reports back with
/// `App::record_save`.
pub fn handle_key(app: &mut App, key: KeyPress) -> (r: Request)
    requires
        ready(old(app)),
    ensures
        final(app).doc.wf(),
        valid_cursor(final(app).doc@.content, final(app).doc@.cursor),
        (final(app)@, r) == key_step(old(app)@, key),
{
    app.message = String::new();
    let mut mode = Mode::Normal;
    std::mem::swap(&mut mode, &mut app.mode);
    match mode {
        Mode::Normal => handle_normal(app, key),
        Mode::Insert => {
            app.mode = Mode::Insert;
            handle_insert(app, key);
            Request::Nothing
        },
        Mode::Command(cmd) => handle_command(app, key, cmd),
    }
}

impl App {
    /// Report how writing the document out went: on success (`Ok` with the
    /// file's name) the document is marked saved and the message names the
    /// file; on failure the message carries the error and a quit that the
    /// save was to come before is called off, as the document still holds
    /// unsaved changes.
    pub fn record_save(&mut self, outcome: Result<String, String>)
        requires
            old(self).doc.wf(),
        ensures
            final(self).doc.wf(),
            match outcome {
                Ok(name) => final(self)@ == (AppView {
                    doc: DocView { dirty: false, ..old(self)@.doc },
                    message: "Saved "@ + name@,
                    ..old(self)@
                }),
                Err(e) => final(self)@ == (AppView {
                    message: "Save failed: "@ + e@,
                    should_quit: false,
                    ..old(self)@
                }),
            },
    {
        match outcome {
            Ok(name) => {
                self.doc.mark_saved();
                let mut m = String::from_str("Saved ");
                m.append(name.as_str());
                self.message = m;
            },
            Err(e) => {
                let mut m = String::from_str("Save failed: ");
                m.append(e.as_str());
                self.message = m;
                self.should_quit = false;
            },
        }
    }
}

/* ── the command line of the program ─────────────────────────────────────── */

/// The usage line, for a program invoked as `bin`.
pub open spec fn usage(bin: Seq<char>) -> Seq<char> {
    "usage: "@ + bin + " <PATH>"@
}

/// Read the program's arguments (the program's name first): exactly one
/// argument is the path of the file to open; otherwise the error is the
/// usage line.
pub fn parse_args(args: &Vec<String>) -> (r: Result<String, String>)
    ensures
        args@.len() == 2 ==> (r matches Ok(path) && path@ == args@[1]@),
        args@.len() != 2 && args@.len() >= 1 ==> (r matches Err(msg) && msg@ == usage(
            args@[0]@,
        )),
        args@.len() == 0 ==> (r matches Err(msg) && msg@ == usage("vasek-edit"@)),
{
    if args.len() == 2 {
        Ok(args[1].clone())
    } else if args.len() >= 1 {
        let mut m = String::from_str("usage: ");
        m.append(args[0].as_str());
        m.append(" <PATH>");
        Err(m)
    } else {
        let mut m = String::from_str("usage: ");
        m.append("vasek-edit");
        m.append(" <PATH>");
        Err(m)
    }
}

} // verus!
