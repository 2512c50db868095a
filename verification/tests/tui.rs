use editor_core::tui::{
    handle_key, page_height, parse_args, same_text, trim, App, KeyCode, KeyPress, Mode, Request,
};
use editor_core::{Cursor, Document};
use std::path::PathBuf;

fn app_with(content: &str) -> App {
    App::new(Document::from_bytes(PathBuf::from("notes.txt"), content.as_bytes()).unwrap())
}

fn key(code: KeyCode) -> KeyPress {
    KeyPress { code, ctrl: false }
}

fn ctrl(code: KeyCode) -> KeyPress {
    KeyPress { code, ctrl: true }
}

fn press_all(app: &mut App, keys: &[KeyPress]) -> Vec<Request> {
    keys.iter().map(|k| handle_key(app, *k)).collect()
}

fn type_command(app: &mut App, cmd: &str) -> Request {
    handle_key(app, key(KeyCode::Char(':')));
    for c in cmd.chars() {
        handle_key(app, key(KeyCode::Char(c)));
    }
    handle_key(app, key(KeyCode::Enter))
}

#[test]
fn new_app_starts_in_normal_mode() {
    let app = app_with("hello");
    assert_eq!(app.mode, Mode::Normal);
    assert_eq!(app.scroll_top, 0);
    assert!(app.message.is_empty());
    assert!(!app.should_quit);
}

#[test]
fn scroll_follows_cursor_down_and_up() {
    let mut app = app_with("0\n1\n2\n3\n4\n5\n6\n7\n8\n9");
    app.doc.cursor = Cursor { line: 7, col: 0 };
    app.scroll_to_cursor(3);
    assert_eq!(app.scroll_top, 5);
    app.scroll_to_cursor(3);
    assert_eq!(app.scroll_top, 5);
    app.doc.cursor = Cursor { line: 2, col: 0 };
    app.scroll_to_cursor(3);
    assert_eq!(app.scroll_top, 2);
    app.doc.cursor = Cursor { line: 3, col: 0 };
    app.scroll_to_cursor(3);
    assert_eq!(app.scroll_top, 2);
}

#[test]
fn scroll_ignores_empty_window() {
    let mut app = app_with("a\nb\nc");
    app.doc.cursor = Cursor { line: 2, col: 0 };
    app.scroll_top = 1;
    app.scroll_to_cursor(0);
    assert_eq!(app.scroll_top, 1);
}

#[test]
fn scroll_keeps_cursor_visible_for_many_positions() {
    let text: String = (0..50).map(|i| format!("line {i}\n")).collect();
    let mut app = app_with(&text);
    let mut seed: u64 = 7;
    for _ in 0..200 {
        seed = seed.wrapping_mul(6364136223846793005).wrapping_add(1442695040888963407);
        let line = (seed >> 33) as usize % 50;
        let height = 1 + (seed >> 20) as usize % 10;
        app.doc.cursor = Cursor { line, col: 0 };
        app.scroll_to_cursor(height);
        assert!(app.scroll_top <= line && line < app.scroll_top + height);
    }
}

#[test]
fn page_height_is_twenty() {
    let app = app_with("");
    assert_eq!(page_height(&app), 20);
}

#[test]
fn q_quits_a_clean_document() {
    let mut app = app_with("hello");
    assert_eq!(handle_key(&mut app, key(KeyCode::Char('q'))), Request::Nothing);
    assert!(app.should_quit);
    let mut app = app_with("hello");
    handle_key(&mut app, key(KeyCode::Char('Q')));
    assert!(app.should_quit);
}

#[test]
fn q_refuses_unsaved_changes() {
    let mut app = app_with("hello");
    press_all(&mut app, &[key(KeyCode::Char('i')), key(KeyCode::Char('x')), key(KeyCode::Esc)]);
    assert!(app.doc.is_dirty());
    handle_key(&mut app, key(KeyCode::Char('q')));
    assert!(!app.should_quit);
    assert_eq!(app.message, "Unsaved changes — use :w to save, :q! to discard");
    handle_key(&mut app, key(KeyCode::Char('l')));
    assert!(app.message.is_empty());
}

#[test]
fn insert_mode_edits_the_document() {
    let mut app = app_with("ab");
    press_all(
        &mut app,
        &[
            key(KeyCode::Char('i')),
            key(KeyCode::Char('x')),
            key(KeyCode::Enter),
            key(KeyCode::Tab),
            key(KeyCode::Char('é')),
        ],
    );
    assert_eq!(app.mode, Mode::Insert);
    assert_eq!(app.doc.to_string(), "x\n\téab");
    assert_eq!(app.doc.cursor, Cursor { line: 1, col: 3 });
    press_all(&mut app, &[key(KeyCode::Backspace), key(KeyCode::Delete)]);
    assert_eq!(app.doc.to_string(), "x\n\tb");
    handle_key(&mut app, key(KeyCode::Esc));
    assert_eq!(app.mode, Mode::Normal);
}

#[test]
fn insert_mode_ignores_vi_keys_as_motions() {
    let mut app = app_with("ab");
    press_all(&mut app, &[key(KeyCode::Char('i')), key(KeyCode::Char('l'))]);
    assert_eq!(app.doc.to_string(), "lab");
}

#[test]
fn normal_mode_motions() {
    let mut app = app_with("one two\nthree\nfour");
    handle_key(&mut app, key(KeyCode::Char('j')));
    assert_eq!(app.doc.cursor, Cursor { line: 1, col: 0 });
    handle_key(&mut app, key(KeyCode::End));
    assert_eq!(app.doc.cursor, Cursor { line: 1, col: 5 });
    handle_key(&mut app, key(KeyCode::Char('k')));
    assert_eq!(app.doc.cursor, Cursor { line: 0, col: 5 });
    handle_key(&mut app, key(KeyCode::Char('h')));
    assert_eq!(app.doc.cursor, Cursor { line: 0, col: 4 });
    handle_key(&mut app, ctrl(KeyCode::Right));
    assert_eq!(app.doc.cursor, Cursor { line: 1, col: 0 });
    handle_key(&mut app, key(KeyCode::PageDown));
    assert_eq!(app.doc.cursor, Cursor { line: 2, col: 0 });
    handle_key(&mut app, key(KeyCode::PageUp));
    assert_eq!(app.doc.cursor, Cursor { line: 0, col: 0 });
    handle_key(&mut app, key(KeyCode::Char('l')));
    assert_eq!(app.doc.cursor, Cursor { line: 0, col: 1 });
    handle_key(&mut app, key(KeyCode::Home));
    assert_eq!(app.doc.cursor, Cursor { line: 0, col: 0 });
    assert!(!app.doc.is_dirty());
}

#[test]
fn ctrl_s_asks_for_a_save() {
    let mut app = app_with("x");
    assert_eq!(handle_key(&mut app, ctrl(KeyCode::Char('s'))), Request::Save);
    assert_eq!(handle_key(&mut app, key(KeyCode::Char('s'))), Request::Nothing);
}

#[test]
fn command_mode_collects_and_edits_text() {
    let mut app = app_with("x");
    handle_key(&mut app, key(KeyCode::Char(':')));
    assert_eq!(app.mode, Mode::Command(String::new()));
    press_all(&mut app, &[key(KeyCode::Char('w')), key(KeyCode::Char('x'))]);
    assert_eq!(app.mode, Mode::Command("wx".to_string()));
    handle_key(&mut app, key(KeyCode::Backspace));
    assert_eq!(app.mode, Mode::Command("w".to_string()));
    handle_key(&mut app, key(KeyCode::Left));
    assert_eq!(app.mode, Mode::Command("w".to_string()));
    handle_key(&mut app, key(KeyCode::Backspace));
    handle_key(&mut app, key(KeyCode::Backspace));
    assert_eq!(app.mode, Mode::Command(String::new()));
    handle_key(&mut app, key(KeyCode::Esc));
    assert_eq!(app.mode, Mode::Normal);
}

#[test]
fn write_commands_ask_for_a_save() {
    let mut app = app_with("x");
    assert_eq!(type_command(&mut app, "w"), Request::Save);
    assert_eq!(app.mode, Mode::Normal);
    assert!(!app.should_quit);
    assert_eq!(type_command(&mut app, " write "), Request::Save);
    assert_eq!(type_command(&mut app, "wq"), Request::Save);
    assert!(app.should_quit);
    let mut app = app_with("x");
    assert_eq!(type_command(&mut app, "x"), Request::Save);
    assert!(app.should_quit);
}

#[test]
fn quit_commands() {
    let mut app = app_with("x");
    assert_eq!(type_command(&mut app, "quit"), Request::Nothing);
    assert!(app.should_quit);

    let mut app = app_with("x");
    press_all(&mut app, &[key(KeyCode::Char('i')), key(KeyCode::Char('y')), key(KeyCode::Esc)]);
    type_command(&mut app, "q");
    assert!(!app.should_quit);
    assert_eq!(app.message, "Unsaved changes — use :w first, or :q! to discard");
    type_command(&mut app, "q!");
    assert!(app.should_quit);

    let mut app = app_with("x");
    press_all(&mut app, &[key(KeyCode::Char('i')), key(KeyCode::Char('y')), key(KeyCode::Esc)]);
    type_command(&mut app, "quit!");
    assert!(app.should_quit);
}

#[test]
fn unknown_command_is_reported_trimmed() {
    let mut app = app_with("x");
    assert_eq!(type_command(&mut app, "  foo bar\t"), Request::Nothing);
    assert_eq!(app.message, "Unknown command: foo bar");
    assert!(!app.should_quit);
    type_command(&mut app, "");
    assert_eq!(app.message, "Unknown command: ");
}

#[test]
fn unsaved_changes_block_quitting_keys() {
    let mut app = app_with("x");
    press_all(&mut app, &[key(KeyCode::Char('i')), key(KeyCode::Char('y')), key(KeyCode::Esc)]);
    for cmd in ["q", "quit", "w", "write", "qq", " q ", "quit !"] {
        type_command(&mut app, cmd);
        assert!(!app.should_quit, "{cmd}");
    }
    for k in [KeyCode::Char('q'), KeyCode::Char('Q'), KeyCode::Esc, KeyCode::Enter] {
        handle_key(&mut app, key(k));
        assert!(!app.should_quit);
    }
}

#[test]
fn record_save_reports_the_outcome() {
    let mut app = app_with("x");
    press_all(&mut app, &[key(KeyCode::Char('i')), key(KeyCode::Char('y')), key(KeyCode::Esc)]);
    app.record_save(Err("disk full".to_string()));
    assert_eq!(app.message, "Save failed: disk full");
    assert!(app.doc.is_dirty());
    app.record_save(Ok("notes.txt".to_string()));
    assert_eq!(app.message, "Saved notes.txt");
    assert!(!app.doc.is_dirty());
}

#[test]
fn failed_save_after_wq_keeps_the_editor_open() {
    let mut app = app_with("x");
    press_all(&mut app, &[key(KeyCode::Char('i')), key(KeyCode::Char('y')), key(KeyCode::Esc)]);
    assert_eq!(type_command(&mut app, "wq"), Request::Save);
    assert!(app.should_quit);
    app.record_save(Err("read-only file system".to_string()));
    assert!(!app.should_quit);
    assert!(app.doc.is_dirty());
    assert_eq!(app.message, "Save failed: read-only file system");
    assert_eq!(type_command(&mut app, "x"), Request::Save);
    app.record_save(Ok("notes.txt".to_string()));
    assert!(app.should_quit);
    assert!(!app.doc.is_dirty());
}

#[test]
fn parse_args_takes_exactly_one_path() {
    let args = |v: &[&str]| v.iter().map(|s| s.to_string()).collect::<Vec<String>>();
    assert_eq!(parse_args(&args(&["edit", "a.txt"])), Ok("a.txt".to_string()));
    assert_eq!(parse_args(&args(&["edit"])), Err("usage: edit <PATH>".to_string()));
    assert_eq!(parse_args(&args(&["edit", "a", "b"])), Err("usage: edit <PATH>".to_string()));
    assert_eq!(parse_args(&args(&[])), Err("usage: vasek-edit <PATH>".to_string()));
}

#[test]
fn trim_removes_unicode_white_space() {
    assert_eq!(trim("  wq \t\n"), "wq");
    assert_eq!(trim("\u{3000}q!\u{00A0}"), "q!");
    assert_eq!(trim("   "), "");
    assert_eq!(trim("a b"), "a b");
    assert_eq!(trim("x\u{200B}"), "x\u{200B}");
}

#[test]
fn same_text_compares_chars() {
    assert!(same_text("wq", "wq"));
    assert!(!same_text("wq", "w"));
    assert!(!same_text("é", "e"));
    assert!(same_text("", ""));
}
