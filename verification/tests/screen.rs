use editor_core::screen::{
    command_line_text, cursor_cell, decimal_text, editor_rows, status_line, Area,
};
use editor_core::tui::{handle_key, App, KeyCode, KeyPress, Mode};
use editor_core::{Cursor, Document};
use std::path::PathBuf;

fn app_with(content: &str) -> App {
    App::new(Document::from_bytes(PathBuf::from("notes.txt"), content.as_bytes()).unwrap())
}

#[test]
fn decimal_text_values() {
    assert_eq!(decimal_text(0), "0");
    assert_eq!(decimal_text(7), "7");
    assert_eq!(decimal_text(10), "10");
    assert_eq!(decimal_text(12345), "12345");
    assert_eq!(decimal_text(usize::MAX), usize::MAX.to_string());
}

#[test]
fn rows_show_numbers_text_and_tildes() {
    let app = app_with("ab\ncd");
    let rows = editor_rows(&app, 4);
    assert_eq!(rows.len(), 4);
    assert_eq!(rows[0].gutter, "1 ");
    assert_eq!(rows[0].text.as_deref(), Some("ab"));
    assert_eq!(rows[1].gutter, "2 ");
    assert_eq!(rows[1].text.as_deref(), Some("cd"));
    assert_eq!(rows[2].gutter, "~ ");
    assert_eq!(rows[2].text, None);
    assert_eq!(rows[3].gutter, "~ ");
}

#[test]
fn rows_right_align_line_numbers() {
    let text: String = (0..12).map(|i| format!("l{i}\n")).collect();
    let mut app = app_with(&text);
    app.scroll_top = 8;
    let rows = editor_rows(&app, 3);
    assert_eq!(rows[0].gutter, " 9 ");
    assert_eq!(rows[0].text.as_deref(), Some("l8"));
    assert_eq!(rows[1].gutter, "10 ");
    assert_eq!(rows[2].gutter, "11 ");
}

#[test]
fn empty_document_shows_only_tildes() {
    let app = app_with("");
    let rows = editor_rows(&app, 2);
    assert_eq!(rows[0].gutter, "~ ");
    assert_eq!(rows[1].text, None);
}

#[test]
fn status_line_pieces() {
    let mut app = app_with("hello");
    let s = status_line(&app, "notes.txt", 80);
    assert_eq!(s.mode, " NORMAL ");
    assert_eq!(s.name, "  notes.txt  ");
    assert_eq!(s.position, " 1:1 ");
    assert_eq!(s.filler.len(), 80 - (8 + 9 + 0 + 4 + 5));
    assert!(s.filler.chars().all(|c| c == ' '));

    handle_key(&mut app, KeyPress { code: KeyCode::Char('i'), ctrl: false });
    handle_key(&mut app, KeyPress { code: KeyCode::Char('x'), ctrl: false });
    let s = status_line(&app, "notes.txt", 80);
    assert_eq!(s.mode, " INSERT ");
    assert_eq!(s.name, "  notes.txt [+]  ");
    assert_eq!(s.position, " 1:2 ");
    assert_eq!(s.filler.len(), 80 - (8 + 9 + 4 + 4 + 5));

    app.mode = Mode::Command("w".to_string());
    let s = status_line(&app, "notes.txt", 10);
    assert_eq!(s.mode, " COMMAND");
    assert_eq!(s.filler, "");
}

#[test]
fn command_line_shows_command_or_message() {
    let mut app = app_with("x");
    assert_eq!(command_line_text(&app), "");
    app.message = "Saved x".to_string();
    assert_eq!(command_line_text(&app), "Saved x");
    app.mode = Mode::Command("wq".to_string());
    assert_eq!(command_line_text(&app), ":wq");
}

#[test]
fn cursor_cell_in_editor_and_command_line() {
    let editor = Area { x: 0, y: 0, width: 40, height: 10 };
    let cmd_line = Area { x: 0, y: 11, width: 40, height: 1 };
    let mut app = app_with("hello\nworld");
    app.doc.cursor = Cursor { line: 1, col: 3 };
    assert_eq!(cursor_cell(&app, editor, cmd_line), Some((5, 1)));
    app.scroll_top = 1;
    assert_eq!(cursor_cell(&app, editor, cmd_line), Some((5, 0)));
    let narrow = Area { x: 2, y: 3, width: 4, height: 10 };
    assert_eq!(cursor_cell(&app, narrow, cmd_line), Some((5, 3)));
    let short = Area { x: 0, y: 0, width: 40, height: 1 };
    app.scroll_top = 0;
    assert_eq!(cursor_cell(&app, short, cmd_line), None);
    app.mode = Mode::Command("wé".to_string());
    assert_eq!(cursor_cell(&app, editor, cmd_line), Some((4, 11)));
}
