use editor_core::gui::{
    handle_input_event, status_texts, window_title, GuiKey, InputEvent, InputOutcome, Modifiers,
    WindowRequest,
};
use editor_core::{Cursor, Document};
use std::path::PathBuf;

fn doc_with(content: &str) -> Document {
    Document::from_bytes(PathBuf::from("gui.txt"), content.as_bytes()).unwrap()
}

const NONE: Modifiers = Modifiers { ctrl: false, alt: false, shift: false, mac_cmd: false };
const CTRL: Modifiers = Modifiers { ctrl: true, alt: false, shift: false, mac_cmd: false };
const CTRL_SHIFT: Modifiers = Modifiers { ctrl: true, alt: false, shift: true, mac_cmd: false };

fn press(doc: &mut Document, key: GuiKey, modifiers: Modifiers) -> InputOutcome {
    handle_input_event(doc, NONE, &InputEvent::Key { key, pressed: true, modifiers })
}

fn moved() -> InputOutcome {
    InputOutcome { moved: true, request: WindowRequest::Nothing }
}

fn nothing() -> InputOutcome {
    InputOutcome { moved: false, request: WindowRequest::Nothing }
}

#[test]
fn typed_text_goes_in_unless_a_command_modifier_is_held() {
    let mut doc = doc_with("");
    let r = handle_input_event(&mut doc, NONE, &InputEvent::Text("hé".to_string()));
    assert_eq!(r, moved());
    assert_eq!(doc.to_string(), "hé");
    let r = handle_input_event(&mut doc, CTRL, &InputEvent::Text("x".to_string()));
    assert_eq!(r, nothing());
    let alt = Modifiers { alt: true, ..NONE };
    handle_input_event(&mut doc, alt, &InputEvent::Text("x".to_string()));
    let cmd = Modifiers { mac_cmd: true, ..NONE };
    handle_input_event(&mut doc, cmd, &InputEvent::Text("x".to_string()));
    let r = handle_input_event(&mut doc, NONE, &InputEvent::Text("a\tb".to_string()));
    assert_eq!(r, nothing());
    assert_eq!(doc.to_string(), "hé");
}

#[test]
fn paste_goes_in_whatever_is_held() {
    let mut doc = doc_with("end");
    let r = handle_input_event(&mut doc, CTRL, &InputEvent::Paste("a\tb\n".to_string()));
    assert_eq!(r, moved());
    assert_eq!(doc.to_string(), "a\tb\nend");
    assert_eq!(doc.cursor, Cursor { line: 1, col: 0 });
}

#[test]
fn enter_and_tab_type_newline_and_four_spaces() {
    let mut doc = doc_with("x");
    press(&mut doc, GuiKey::Tab, NONE);
    press(&mut doc, GuiKey::Enter, NONE);
    assert_eq!(doc.to_string(), "    \nx");
    assert_eq!(doc.cursor, Cursor { line: 1, col: 0 });
}

#[test]
fn released_keys_and_other_events_do_nothing() {
    let mut doc = doc_with("x");
    let r = handle_input_event(
        &mut doc,
        NONE,
        &InputEvent::Key { key: GuiKey::Enter, pressed: false, modifiers: NONE },
    );
    assert_eq!(r, nothing());
    assert_eq!(handle_input_event(&mut doc, NONE, &InputEvent::Other), nothing());
    assert_eq!(press(&mut doc, GuiKey::Other, NONE), nothing());
    assert_eq!(doc.to_string(), "x");
}

#[test]
fn undo_and_redo_keys() {
    let mut doc = doc_with("");
    handle_input_event(&mut doc, NONE, &InputEvent::Text("ab".to_string()));
    press(&mut doc, GuiKey::Z, CTRL);
    assert_eq!(doc.to_string(), "");
    press(&mut doc, GuiKey::Y, CTRL);
    assert_eq!(doc.to_string(), "ab");
    press(&mut doc, GuiKey::Z, CTRL);
    press(&mut doc, GuiKey::Z, CTRL_SHIFT);
    assert_eq!(doc.to_string(), "ab");
    assert_eq!(doc.cursor, Cursor { line: 0, col: 2 });
    press(&mut doc, GuiKey::Z, NONE);
    assert_eq!(doc.to_string(), "ab");
}

#[test]
fn redo_right_after_typing_does_nothing() {
    let mut doc = doc_with("");
    handle_input_event(&mut doc, NONE, &InputEvent::Text("a".to_string()));
    press(&mut doc, GuiKey::Z, CTRL);
    assert_eq!(doc.to_string(), "");
    handle_input_event(&mut doc, NONE, &InputEvent::Text("b".to_string()));
    press(&mut doc, GuiKey::Y, CTRL);
    assert_eq!(doc.to_string(), "b");
    press(&mut doc, GuiKey::Z, CTRL_SHIFT);
    assert_eq!(doc.to_string(), "b");
    press(&mut doc, GuiKey::Z, CTRL);
    assert_eq!(doc.to_string(), "");
}

#[test]
fn redo_keys_redo_several_edits_in_turn() {
    let mut doc = doc_with("");
    handle_input_event(&mut doc, NONE, &InputEvent::Paste("one".to_string()));
    press(&mut doc, GuiKey::Enter, NONE);
    handle_input_event(&mut doc, NONE, &InputEvent::Paste("two".to_string()));
    press(&mut doc, GuiKey::Z, CTRL);
    press(&mut doc, GuiKey::Z, CTRL);
    press(&mut doc, GuiKey::Z, CTRL);
    assert_eq!(doc.to_string(), "");
    press(&mut doc, GuiKey::Y, CTRL);
    press(&mut doc, GuiKey::Z, CTRL_SHIFT);
    assert_eq!(doc.to_string(), "one\n");
    press(&mut doc, GuiKey::Y, CTRL);
    assert_eq!(doc.to_string(), "one\ntwo");
}

#[test]
fn editing_and_motion_keys() {
    let mut doc = doc_with("one two\nthree");
    assert_eq!(press(&mut doc, GuiKey::ArrowRight, CTRL), moved());
    assert_eq!(doc.cursor, Cursor { line: 0, col: 4 });
    press(&mut doc, GuiKey::Delete, NONE);
    assert_eq!(doc.to_string(), "one wo\nthree");
    press(&mut doc, GuiKey::Backspace, NONE);
    assert_eq!(doc.to_string(), "onewo\nthree");
    press(&mut doc, GuiKey::PageDown, NONE);
    assert_eq!(doc.cursor, Cursor { line: 1, col: 3 });
    press(&mut doc, GuiKey::End, NONE);
    press(&mut doc, GuiKey::ArrowLeft, CTRL);
    assert_eq!(doc.cursor, Cursor { line: 1, col: 0 });
    press(&mut doc, GuiKey::ArrowUp, NONE);
    press(&mut doc, GuiKey::ArrowRight, NONE);
    assert_eq!(doc.cursor, Cursor { line: 0, col: 1 });
    press(&mut doc, GuiKey::ArrowDown, NONE);
    press(&mut doc, GuiKey::Home, NONE);
    assert_eq!(doc.cursor, Cursor { line: 1, col: 0 });
    press(&mut doc, GuiKey::PageUp, NONE);
    press(&mut doc, GuiKey::ArrowLeft, NONE);
    assert_eq!(doc.cursor, Cursor { line: 0, col: 0 });
}

#[test]
fn window_keys_ask_the_window() {
    let mut doc = doc_with("x");
    let ask = |r| InputOutcome { moved: false, request: r };
    assert_eq!(press(&mut doc, GuiKey::S, CTRL), ask(WindowRequest::Save));
    assert_eq!(press(&mut doc, GuiKey::O, CTRL), ask(WindowRequest::Open));
    assert_eq!(press(&mut doc, GuiKey::N, CTRL), ask(WindowRequest::New));
    assert_eq!(press(&mut doc, GuiKey::S, NONE), nothing());
    assert_eq!(press(&mut doc, GuiKey::F1, NONE), ask(WindowRequest::ToggleLineNumbers));
    assert_eq!(press(&mut doc, GuiKey::F2, CTRL), ask(WindowRequest::ToggleMinimap));
    assert_eq!(press(&mut doc, GuiKey::Plus, CTRL), ask(WindowRequest::FontLarger));
    assert_eq!(press(&mut doc, GuiKey::Equals, CTRL), ask(WindowRequest::FontLarger));
    assert_eq!(press(&mut doc, GuiKey::Minus, CTRL), ask(WindowRequest::FontSmaller));
    assert_eq!(press(&mut doc, GuiKey::Num0, CTRL), ask(WindowRequest::FontReset));
    assert_eq!(press(&mut doc, GuiKey::Num0, NONE), nothing());
    assert_eq!(doc.to_string(), "x");
}

#[test]
fn window_title_marks_unsaved_changes() {
    let mut doc = doc_with("x");
    assert_eq!(window_title(Some(&doc), "gui.txt"), "gui.txt — vasek-edit");
    handle_input_event(&mut doc, NONE, &InputEvent::Text("y".to_string()));
    assert_eq!(window_title(Some(&doc), "gui.txt"), "• gui.txt — vasek-edit");
    assert_eq!(window_title(None, "gui.txt"), "vasek-edit");
}

#[test]
fn status_texts_show_name_encoding_and_position() {
    let mut doc = doc_with("a\r\nbc");
    press(&mut doc, GuiKey::ArrowDown, NONE);
    press(&mut doc, GuiKey::End, NONE);
    let (name, info) = status_texts(&doc, "gui.txt");
    assert_eq!(name, "  gui.txt  ");
    assert_eq!(info, "  UTF-8 CRLF  2:3  ");
    handle_input_event(&mut doc, NONE, &InputEvent::Text("d".to_string()));
    let (name, _) = status_texts(&doc, "gui.txt");
    assert_eq!(name, "  gui.txt [+]  ");
    let lf = doc_with("x");
    assert_eq!(status_texts(&lf, "f").1, "  UTF-8 LF  1:1  ");
}
