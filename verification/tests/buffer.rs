use editor_core::{Buffer, EditorError};
use std::path::PathBuf;

fn buf(content: &str) -> Buffer {
    Buffer::from_text(PathBuf::from("notes.txt"), content)
}

#[test]
fn load_simple_file() {
    let buf = buf("hello\nworld\n");
    assert_eq!(buf.line_count(), 2);
    assert_eq!(buf.lines()[0], "hello");
    assert_eq!(buf.lines()[1], "world");
}

#[test]
fn load_crlf_file() {
    let buf = buf("hello\r\nworld\r\n");
    assert_eq!(buf.line_count(), 2);
    assert_eq!(buf.lines()[0], "hello");
    assert_eq!(buf.lines()[1], "world");
}

#[test]
fn load_no_trailing_newline() {
    let buf = buf("a\nb");
    assert_eq!(buf.line_count(), 2);
    assert_eq!(buf.lines()[1], "b");
}

#[test]
fn load_empty_file() {
    let buf = buf("");
    assert_eq!(buf.line_count(), 0);
}

#[test]
fn path_is_preserved() {
    let path = PathBuf::from("some/dir/buf_path.txt");
    let buf = Buffer::from_text(path.clone(), "test");
    assert_eq!(buf.path(), path);
}

#[test]
fn lines_match_str_lines() {
    for text in ["", "\n", "\n\n", "a\r", "a\r\nb\rc\n", "x\r\r\n", "é\n€\r\n\n"] {
        let b = buf(text);
        let expected: Vec<&str> = text.lines().collect();
        assert_eq!(b.line_count(), expected.len(), "{text:?}");
        for (got, want) in b.lines().iter().zip(expected) {
            assert_eq!(got, want, "{text:?}");
        }
    }
}

#[test]
fn bytes_that_are_not_utf8_are_refused() {
    let r = Buffer::from_bytes(PathBuf::from("bad.txt"), b"ok\n\xff\xfe");
    assert!(matches!(r, Err(EditorError::NotUtf8(_))));
    let b = Buffer::from_bytes(PathBuf::from("good.txt"), "a\r\nb€".as_bytes()).unwrap();
    assert_eq!(b.line_count(), 2);
    assert_eq!(b.lines()[1], "b€");
}
