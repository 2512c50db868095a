//! The graphical editor's keyboard and text input: what each input event
//! does to the document, and what it asks of the window (files, view
//! toggles, font size). Drawing, dialogs and the font itself are left to the
//! caller.
use vstd::prelude::*;
use vstd::string::*;
use vstd::utf8::*;

use crate::cursor::Cursor;
use crate::document::{DocView, Document, LineEnding};
use crate::screen::{decimal, decimal_text};
use crate::layout::{
    down_cursor, end_cursor, home_cursor, left_cursor, page_down_cursor, page_up_cursor,
    right_cursor, up_cursor, word_left_cursor, word_right_cursor,
};
use crate::undo_chain::{
    editable, law_backspace_keeps_origin, law_delete_keeps_origin, law_motion_keeps_origin,
    law_redo_chain_kept, law_redo_keeps_origin, law_typing_keeps_origin, law_undo_keeps_origin,
    origin, redo_chain, replays,
};

verus! {

/// The keys that the window tells apart.
#[derive(Debug, Clone, Copy, PartialEq, Eq, Structural)]
pub enum GuiKey {
    Enter,
    Tab,
    Backspace,
    Delete,
    ArrowLeft,
    ArrowRight,
    ArrowUp,
    ArrowDown,
    Home,
    End,
    PageUp,
    PageDown,
    Z,
    Y,
    S,
    O,
    N,
    F1,
    F2,
    Plus,
    Equals,
    Minus,
    Num0,
    /// Any other key; it does nothing.
    Other,
}

/// The modifier keys held.
#[derive(Debug, Clone, Copy, PartialEq, Eq, Structural)]
pub struct Modifiers {
    pub ctrl: bool,
    pub alt: bool,
    pub shift: bool,
    pub mac_cmd: bool,
}

/// An input event of the window.
pub enum InputEvent {
    /// Text typed.
    Text(String),
    /// Text pasted.
    Paste(String),
    /// A key pressed or released.
    Key { key: GuiKey, pressed: bool, modifiers: Modifiers },
    /// Any other event; it does nothing.
    Other,
}

/// The model of an input event.
pub enum InputView {
    Text(Seq<char>),
    Paste(Seq<char>),
    Key { key: GuiKey, pressed: bool, modifiers: Modifiers },
    Other,
}

impl View for InputEvent {
    type V = InputView;

    open spec fn view(&self) -> InputView {
        match self {
            InputEvent::Text(t) => InputView::Text(t@),
            InputEvent::Paste(t) => InputView::Paste(t@),
            InputEvent::Key { key, pressed, modifiers } => InputView::Key {
                key: *key,
                pressed: *pressed,
                modifiers: *modifiers,
            },
            InputEvent::Other => InputView::Other,
        }
    }
}

/// What an event asks of the window.
#[derive(Debug, Clone, Copy, PartialEq, Eq, Structural)]
pub enum WindowRequest {
    Nothing,
    Save,
    Open,
    New,
    ToggleLineNumbers,
    ToggleMinimap,
    FontLarger,
    FontSmaller,
    FontReset,
}

/// The outcome of an event: whether the document or its cursor changed (so
/// the view follows the cursor), and what the window is asked to do.
#[derive(Debug, Clone, Copy, PartialEq, Eq, Structural)]
pub struct InputOutcome {
    pub moved: bool,
    pub request: WindowRequest,
}

/// Lines moved by Page Up / Page Down.
pub open spec fn gui_page_height() -> int {
    20
}

/// The keys that move the cursor.
pub open spec fn is_motion(key: GuiKey) -> bool {
    key == GuiKey::ArrowLeft || key == GuiKey::ArrowRight || key == GuiKey::ArrowUp || key
        == GuiKey::ArrowDown || key == GuiKey::Home || key == GuiKey::End || key == GuiKey::PageUp
        || key == GuiKey::PageDown
}

/// The keys that change the document or its cursor.
pub open spec fn is_edit(key: GuiKey, m: Modifiers) -> bool {
    ||| key == GuiKey::Enter
    ||| key == GuiKey::Tab
    ||| key == GuiKey::Backspace
    ||| key == GuiKey::Delete
    ||| is_motion(key)
    ||| (key == GuiKey::Z || key == GuiKey::Y) && m.ctrl
}

/// Where a motion key moves the cursor (Control turns the left and right
/// arrows into word jumps).
pub open spec fn gui_motion(d: DocView, key: GuiKey, m: Modifiers) -> Cursor {
    let c = d.content;
    let cur = d.cursor;
    if key == GuiKey::ArrowLeft && m.ctrl {
        word_left_cursor(c, cur)
    } else if key == GuiKey::ArrowRight && m.ctrl {
        word_right_cursor(c, cur)
    } else if key == GuiKey::ArrowLeft {
        left_cursor(c, cur)
    } else if key == GuiKey::ArrowRight {
        right_cursor(c, cur)
    } else if key == GuiKey::ArrowUp {
        up_cursor(c, cur)
    } else if key == GuiKey::ArrowDown {
        down_cursor(c, cur)
    } else if key == GuiKey::Home {
        home_cursor(cur)
    } else if key == GuiKey::End {
        end_cursor(c, cur)
    } else if key == GuiKey::PageUp {
        page_up_cursor(c, cur, gui_page_height())
    } else {
        page_down_cursor(c, cur, gui_page_height())
    }
}

/// What an editing key does to the document: Enter and Tab type a newline
/// and four spaces, Control-Z undoes, Control-Y and Control-Shift-Z redo.
pub open spec fn edit_effect(d: DocView, key: GuiKey, m: Modifiers) -> DocView {
    if key == GuiKey::Enter {
        d.typed(seq!['\n'])
    } else if key == GuiKey::Tab {
        d.typed(seq![' ', ' ', ' ', ' '])
    } else if key == GuiKey::Backspace {
        d.backspaced()
    } else if key == GuiKey::Delete {
        d.deleted_forward()
    } else if is_motion(key) {
        d.moved(gui_motion(d, key, m))
    } else if key == GuiKey::Z && !m.shift {
        d.undone()
    } else {
        d.redone()
    }
}

/// What a key that leaves the document alone asks of the window.
pub open spec fn window_request(key: GuiKey, m: Modifiers) -> WindowRequest {
    if key == GuiKey::S && m.ctrl {
        WindowRequest::Save
    } else if key == GuiKey::O && m.ctrl {
        WindowRequest::Open
    } else if key == GuiKey::N && m.ctrl {
        WindowRequest::New
    } else if key == GuiKey::F1 {
        WindowRequest::ToggleLineNumbers
    } else if key == GuiKey::F2 {
        WindowRequest::ToggleMinimap
    } else if (key == GuiKey::Plus || key == GuiKey::Equals) && m.ctrl {
        WindowRequest::FontLarger
    } else if key == GuiKey::Minus && m.ctrl {
        WindowRequest::FontSmaller
    } else if key == GuiKey::Num0 && m.ctrl {
        WindowRequest::FontReset
    } else {
        WindowRequest::Nothing
    }
}

/// A pressed key: the document after it, and the outcome.
pub open spec fn key_outcome(d: DocView, key: GuiKey, m: Modifiers) -> (DocView, InputOutcome) {
    if is_edit(key, m) {
        (edit_effect(d, key, m), InputOutcome { moved: true, request: WindowRequest::Nothing })
    } else {
        (d, InputOutcome { moved: false, request: window_request(key, m) })
    }
}

/// An input event, with `frame` the modifiers held during the frame: typed
/// text goes in unless a command modifier is held or it holds a tab, pasted
/// text goes in, a pressed key does what `key_outcome` says.
pub open spec fn input_outcome(d: DocView, frame: Modifiers, ev: InputView) -> (
    DocView,
    InputOutcome,
) {
    let nothing = InputOutcome { moved: false, request: WindowRequest::Nothing };
    match ev {
        InputView::Text(t) => if !frame.ctrl && !frame.alt && !frame.mac_cmd && !t.contains('\t') {
            (d.typed(t), InputOutcome { moved: true, request: WindowRequest::Nothing })
        } else {
            (d, nothing)
        },
        InputView::Paste(t) => (
            d.typed(t),
            InputOutcome { moved: true, request: WindowRequest::Nothing },
        ),
        InputView::Key { key, pressed, modifiers } => if pressed {
            key_outcome(d, key, modifiers)
        } else {
            (d, nothing)
        },
        InputView::Other => (d, nothing),
    }
}

/// The event is one of the keys that redo.
pub open spec fn is_redo(ev: InputView) -> bool {
    ev matches InputView::Key { key, pressed, modifiers } && pressed && modifiers.ctrl && (key
        == GuiKey::Y || (key == GuiKey::Z && modifiers.shift))
}

/// What handling an event needs of the document: a well-formed document in
/// an editable state whose recorded edits can all be undone, room for the
/// text the event adds, and for redo an edit to redo (if any) that replays.
pub open spec fn accepts(doc: &Document, ev: InputView) -> bool {
    let d = doc@;
    &&& doc.wf()
    &&& editable(d)
    &&& origin(d) is Some
    &&& d.content.len() + 32 < usize::MAX
    &&& ev matches InputView::Text(t) ==> d.content.len() + encode_utf8(t).len() + 8 < usize::MAX
    &&& ev matches InputView::Paste(t) ==> d.content.len() + encode_utf8(t).len() + 8 < usize::MAX
    &&& is_redo(ev) ==> (d.history.next_redo() matches Some(op) ==> replays(op, d.content))
}

/// `true` when `s` holds a tab.
fn has_tab(s: &str) -> (r: bool)
    ensures
        r == s@.contains('\t'),
{
    let n = s.unicode_len();
    let mut i: usize = 0;
    while i < n
        invariant
            i <= n,
            n == s@.len(),
            forall|j: int| 0 <= j < i ==> s@[j] != '\t',
        decreases n - i,
    {
        if s.get_char(i) == '\t' {
            return true;
        }
        i = i + 1;
    }
    false
}

/// Type `text` at the cursor.
fn type_text(doc: &mut Document, text: &str)
    requires
        old(doc).wf(),
        editable(old(doc)@),
        origin(old(doc)@) is Some,
        old(doc)@.content.len() + encode_utf8(text@).len() < usize::MAX,
    ensures
        final(doc).wf(),
        editable(final(doc)@),
        origin(final(doc)@) is Some,
        final(doc)@ == old(doc)@.typed(text@),
        redo_chain(old(doc)@) ==> redo_chain(final(doc)@),
{
    proof {
        old(doc).lemma_wf_content();
        crate::layout::lemma_valid_cursor_offset(old(doc)@.content, old(doc)@.cursor);
        law_typing_keeps_origin(old(doc)@, text@);
        if redo_chain(old(doc)@) {
            law_redo_chain_kept(old(doc)@, old(doc)@.cursor, text@);
        }
    }
    doc.insert_at_cursor(text);
    proof {
        doc.lemma_wf_content();
    }
}

/// Move the cursor for a motion key.
fn apply_motion(doc: &mut Document, key: GuiKey, m: Modifiers)
    requires
        old(doc).wf(),
        editable(old(doc)@),
        origin(old(doc)@) is Some,
        old(doc)@.content.len() + 32 < usize::MAX,
        is_motion(key),
    ensures
        final(doc).wf(),
        editable(final(doc)@),
        origin(final(doc)@) is Some,
        final(doc)@ == old(doc)@.moved(gui_motion(old(doc)@, key, m)),
        redo_chain(old(doc)@) ==> redo_chain(final(doc)@),
{
    proof {
        doc.lemma_wf_content();
        crate::layout::lemma_valid_cursor_offset(doc@.content, doc@.cursor);
        crate::text::lemma_newline_positions(doc@.content);
        law_motion_keeps_origin(doc@, gui_motion(doc@, key, m));
        if redo_chain(doc@) {
            law_redo_chain_kept(doc@, gui_motion(doc@, key, m), Seq::empty());
        }
    }
    if key == GuiKey::ArrowLeft && m.ctrl {
        doc.word_left();
    } else if key == GuiKey::ArrowRight && m.ctrl {
        doc.word_right();
    } else if key == GuiKey::ArrowLeft {
        doc.move_left();
    } else if key == GuiKey::ArrowRight {
        doc.move_right();
    } else if key == GuiKey::ArrowUp {
        doc.move_up();
    } else if key == GuiKey::ArrowDown {
        doc.move_down();
    } else if key == GuiKey::Home {
        doc.move_home();
    } else if key == GuiKey::End {
        doc.move_end();
    } else if key == GuiKey::PageUp {
        doc.page_up(20);
    } else {
        doc.page_down(20);
    }
    proof {
        doc.lemma_wf_content();
    }
}

/// Apply an editing key to the document.
fn apply_edit(doc: &mut Document, key: GuiKey, m: Modifiers)
    requires
        old(doc).wf(),
        editable(old(doc)@),
        origin(old(doc)@) is Some,
        old(doc)@.content.len() + 32 < usize::MAX,
        is_edit(key, m),
        (key == GuiKey::Y || (key == GuiKey::Z && m.shift)) && m.ctrl ==> (
        old(doc)@.history.next_redo() matches Some(op) ==> replays(op, old(doc)@.content)),
    ensures
        final(doc).wf(),
        editable(final(doc)@),
        origin(final(doc)@) is Some,
        final(doc)@ == edit_effect(old(doc)@, key, m),
        redo_chain(old(doc)@) ==> redo_chain(final(doc)@),
{
    proof {
        doc.lemma_wf_content();
        crate::layout::lemma_valid_cursor_offset(doc@.content, doc@.cursor);
        if redo_chain(doc@) {
            law_redo_chain_kept(doc@, doc@.cursor, Seq::empty());
        }
    }
    if key == GuiKey::Enter {
        proof {
            reveal_strlit("\n");
            crate::text::lemma_encode_len("\n"@);
            assert("\n"@ =~= seq!['\n']);
        }
        type_text(doc, "\n");
    } else if key == GuiKey::Tab {
        proof {
            reveal_strlit("    ");
            crate::text::lemma_encode_len("    "@);
            assert("    "@ =~= seq![' ', ' ', ' ', ' ']);
        }
        type_text(doc, "    ");
    } else if key == GuiKey::Backspace {
        proof {
            law_backspace_keeps_origin(doc@);
        }
        doc.backspace();
    } else if key == GuiKey::Delete {
        proof {
            law_delete_keeps_origin(doc@);
        }
        doc.delete_forward();
    } else if key == GuiKey::ArrowLeft || key == GuiKey::ArrowRight || key == GuiKey::ArrowUp
        || key == GuiKey::ArrowDown || key == GuiKey::Home || key == GuiKey::End || key
        == GuiKey::PageUp || key == GuiKey::PageDown {
        apply_motion(doc, key, m);
    } else if key == GuiKey::Z && !m.shift {
        proof {
            law_undo_keeps_origin(doc@);
        }
        doc.undo();
    } else {
        proof {
            law_redo_keeps_origin(doc@);
        }
        doc.redo();
    }
    proof {
        doc.lemma_wf_content();
    }
}

/// What a key that leaves the document alone asks of the window.
fn window_request_of(key: GuiKey, m: Modifiers) -> (r: WindowRequest)
    ensures
        r == window_request(key, m),
{
    if key == GuiKey::S && m.ctrl {
        WindowRequest::Save
    } else if key == GuiKey::O && m.ctrl {
        WindowRequest::Open
    } else if key == GuiKey::N && m.ctrl {
        WindowRequest::New
    } else if key == GuiKey::F1 {
        WindowRequest::ToggleLineNumbers
    } else if key == GuiKey::F2 {
        WindowRequest::ToggleMinimap
    } else if (key == GuiKey::Plus || key == GuiKey::Equals) && m.ctrl {
        WindowRequest::FontLarger
    } else if key == GuiKey::Minus && m.ctrl {
        WindowRequest::FontSmaller
    } else if key == GuiKey::Num0 && m.ctrl {
        WindowRequest::FontReset
    } else {
        WindowRequest::Nothing
    }
}

/// Handle one input event of the window on the document.
pub fn handle_input_event(doc: &mut Document, frame: Modifiers, event: &InputEvent) -> (r:
    InputOutcome)
    requires
        accepts(old(doc), event@),
    ensures
        final(doc).wf(),
        editable(final(doc)@),
        origin(final(doc)@) is Some,
        redo_chain(old(doc)@) ==> redo_chain(final(doc)@),
        (final(doc)@, r) == input_outcome(old(doc)@, frame, event@),
{
    let nothing = InputOutcome { moved: false, request: WindowRequest::Nothing };
    match event {
        InputEvent::Text(text) => {
            if !frame.ctrl && !frame.alt && !frame.mac_cmd && !has_tab(text.as_str()) {
                type_text(doc, text.as_str());
                InputOutcome { moved: true, request: WindowRequest::Nothing }
            } else {
                nothing
            }
        },
        InputEvent::Paste(text) => {
            type_text(doc, text.as_str());
            InputOutcome { moved: true, request: WindowRequest::Nothing }
        },
        InputEvent::Key { key, pressed, modifiers } => {
            if !*pressed {
                nothing
            } else if *key == GuiKey::Enter || *key == GuiKey::Tab || *key == GuiKey::Backspace
                || *key == GuiKey::Delete || *key == GuiKey::ArrowLeft || *key
                == GuiKey::ArrowRight || *key == GuiKey::ArrowUp || *key == GuiKey::ArrowDown
                || *key == GuiKey::Home || *key == GuiKey::End || *key == GuiKey::PageUp || *key
                == GuiKey::PageDown || ((*key == GuiKey::Z || *key == GuiKey::Y)
                && modifiers.ctrl) {
                apply_edit(doc, *key, *modifiers);
                InputOutcome { moved: true, request: WindowRequest::Nothing }
            } else {
                InputOutcome { moved: false, request: window_request_of(*key, *modifiers) }
            }
        },
        InputEvent::Other => nothing,
    }
}

/* ── window texts ────────────────────────────────────────────────────────── */

/// The window title: the file's name, after a dot when there are unsaved
/// changes, then the program's name; just the program's name with no
/// document open.
pub open spec fn title(dirty: Option<bool>, name: Seq<char>) -> Seq<char> {
    match dirty {
        Some(d) => (if d {
            "• "@
        } else {
            Seq::empty()
        }) + name + " — vasek-edit"@,
        None => "vasek-edit"@,
    }
}

/// The window title for the document, if any, whose file is `file_name`.
pub fn window_title(doc: Option<&Document>, file_name: &str) -> (r: String)
    ensures
        r@ == title(
            match doc {
                Some(d) => Some(d@.dirty),
                None => None,
            },
            file_name@,
        ),
{
    match doc {
        Some(d) => {
            let mut t = if d.is_dirty() {
                String::from_str("• ")
            } else {
                String::new()
            };
            t.append(file_name);
            t.append(" — vasek-edit");
            t
        },
        None => String::from_str("vasek-edit"),
    }
}

/// The status bar's left text: the file's name with the unsaved-changes
/// mark, padded by two spaces on each side.
pub open spec fn status_name(dirty: bool, name: Seq<char>) -> Seq<char> {
    "  "@ + name + (if dirty {
        " [+]"@
    } else {
        Seq::empty()
    }) + "  "@
}

/// The status bar's right text: the encoding with the line-ending
/// convention, and the 1-based cursor position, padded by two spaces.
pub open spec fn status_info(ending: LineEnding, cur: Cursor) -> Seq<char> {
    "  "@ + (match ending {
        LineEnding::Lf => "UTF-8 LF"@,
        LineEnding::CrLf => "UTF-8 CRLF"@,
    }) + "  "@ + decimal((cur.line + 1) as nat) + ":"@ + decimal((cur.col + 1) as nat) + "  "@
}

/// The status bar's texts for the document, whose file is `file_name`.
pub fn status_texts(doc: &Document, file_name: &str) -> (r: (String, String))
    requires
        doc@.cursor.line < usize::MAX,
        doc@.cursor.col < usize::MAX,
    ensures
        r.0@ == status_name(doc@.dirty, file_name@),
        r.1@ == status_info(doc@.line_ending, doc@.cursor),
{
    let mut name = String::from_str("  ");
    name.append(file_name);
    if doc.is_dirty() {
        name.append(" [+]");
    }
    name.append("  ");
    proof {
        reveal_strlit("");
        assert(doc@.dirty ==> name@ =~= "  "@ + file_name@ + " [+]"@ + "  "@);
        assert(!doc@.dirty ==> name@ =~= "  "@ + file_name@ + Seq::<char>::empty() + "  "@);
    }
    let cur = doc.cursor_position();
    let mut info = String::from_str("  ");
    match doc.line_ending() {
        LineEnding::Lf => info.append("UTF-8 LF"),
        LineEnding::CrLf => info.append("UTF-8 CRLF"),
    }
    info.append("  ");
    info.append(decimal_text(cur.line + 1).as_str());
    info.append(":");
    info.append(decimal_text(cur.col + 1).as_str());
    info.append("  ");
    (name, info)
}

} // verus!
