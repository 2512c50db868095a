use editor_core::{Document, EditorError, LineEnding};
use std::path::PathBuf;

fn doc_from(content: &[u8]) -> Document {
    Document::from_bytes(PathBuf::from("doc.txt"), content).unwrap()
}

#[test]
fn open_lf_lines() {
    let doc = doc_from(b"hello\nworld\n");
    assert_eq!(doc.line_count(), 3);
    assert_eq!(doc.line_at(0).unwrap().as_ref(), "hello");
    assert_eq!(doc.line_at(1).unwrap().as_ref(), "world");
}

#[test]
fn save_byte_identical_lf() {
    let orig = "hello\nworld\n";
    let mut doc = doc_from(orig.as_bytes());
    assert!(!doc.is_dirty());
    let out = doc.encoded_for_save();
    doc.mark_saved();
    assert_eq!(String::from_utf8(out).unwrap(), orig);
}

#[test]
fn save_byte_identical_crlf() {
    let orig = "hello\r\nworld\r\n";
    let mut doc = doc_from(orig.as_bytes());
    let out = doc.encoded_for_save();
    doc.mark_saved();
    assert_eq!(out, orig.as_bytes());
}

#[test]
fn bom_stripped() {
    let doc = doc_from(b"\xEF\xBB\xBFhello");
    assert_eq!(doc.line_at(0).unwrap().as_ref(), "hello");
}

#[test]
fn insert_sets_dirty_and_moves_cursor() {
    let mut doc = doc_from(b"");
    assert!(!doc.is_dirty());
    doc.insert_at_cursor("ab\ncd");
    assert!(doc.is_dirty());
    assert_eq!(doc.cursor.line, 1);
    assert_eq!(doc.cursor.col, 2);
}

#[test]
fn backspace_at_origin_is_noop() {
    let mut doc = doc_from(b"hi");
    doc.backspace();
    assert_eq!(doc.line_at(0).unwrap().as_ref(), "hi");
}

#[test]
fn save_clears_dirty() {
    let mut doc = doc_from(b"x");
    doc.insert_at_cursor("y");
    assert!(doc.is_dirty());
    let _ = doc.encoded_for_save();
    doc.mark_saved();
    assert!(!doc.is_dirty());
}

#[test]
fn undo_single_insert_restores_content() {
    let mut doc = doc_from(b"hello");
    doc.insert_at_cursor("!");
    assert_eq!(doc.to_string(), "!hello");
    doc.undo();
    assert_eq!(doc.to_string(), "hello");
}

#[test]
fn redo_reapplies_insert() {
    let mut doc = doc_from(b"a");
    doc.move_end();
    doc.insert_at_cursor("b");
    doc.undo();
    assert_eq!(doc.to_string(), "a");
    doc.redo();
    assert_eq!(doc.to_string(), "ab");
}

#[test]
fn undo_backspace_restores_content() {
    let mut doc = doc_from(b"hi");
    doc.move_end();
    doc.backspace();
    assert_eq!(doc.to_string(), "h");
    doc.undo();
    assert_eq!(doc.to_string(), "hi");
}

#[test]
fn coalesced_chars_undo_in_one_step() {
    let mut doc = doc_from(b"");
    for ch in "hello".chars() {
        let mut buf = [0u8; 4];
        doc.insert_at_cursor(ch.encode_utf8(&mut buf));
    }
    // All 5 chars should undo in a single step
    doc.undo();
    assert_eq!(doc.to_string(), "");
    assert!(!doc.undo()); // nothing left
}

/// A small deterministic generator, so the randomised check is reproducible.
struct Lcg(u64);

impl Lcg {
    fn next(&mut self) -> u64 {
        self.0 = self.0.wrapping_mul(6364136223846793005).wrapping_add(1442695040888963407);
        self.0 >> 33
    }
}

#[test]
fn undo_any_sequence_restores_initial() {
    let alphabet = b"ab \n";
    for seed in 0..300u64 {
        let mut rng = Lcg(seed);
        let len = (rng.next() % 41) as usize;
        let initial: Vec<u8> = (0..len)
            .map(|_| alphabet[(rng.next() % alphabet.len() as u64) as usize])
            .collect();
        let mut doc = doc_from(&initial);
        let initial_text = doc.to_string();
        let n_ops = (rng.next() % 30) as usize;
        for _ in 0..n_ops {
            if rng.next() % 2 == 0 {
                doc.insert_at_cursor("x");
            } else {
                doc.backspace();
            }
        }
        for _ in 0..n_ops + 1 {
            doc.undo();
        }
        assert_eq!(doc.to_string(), initial_text, "seed {seed}");
    }
}

// ── further cases ────────────────────────────────────────────────────────────

#[test]
fn invalid_utf8_is_refused() {
    let r = Document::from_bytes(PathBuf::from("bad.txt"), b"ok\xff");
    assert!(matches!(r, Err(EditorError::NotUtf8(_))));
}

#[test]
fn line_endings_detected() {
    assert_eq!(doc_from(b"a\nb").line_ending(), LineEnding::Lf);
    assert_eq!(doc_from(b"a\r\nb").line_ending(), LineEnding::CrLf);
    let doc = doc_from(b"a\r\nb\r\n");
    assert_eq!(doc.to_string(), "a\nb\n");
    assert_eq!(doc.line_count(), 3);
}

#[test]
fn path_kept() {
    let doc = Document::from_bytes(PathBuf::from("dir/file.txt"), b"").unwrap();
    assert_eq!(doc.path(), PathBuf::from("dir/file.txt"));
}

#[test]
fn cursor_movement() {
    let mut doc = doc_from("ab cd\né\n\nlong line".as_bytes());
    doc.move_right();
    assert_eq!((doc.cursor.line, doc.cursor.col), (0, 1));
    doc.move_end();
    assert_eq!(doc.cursor.col, 5);
    doc.move_right(); // wraps to the next line
    assert_eq!((doc.cursor.line, doc.cursor.col), (1, 0));
    doc.move_right(); // over a 2-byte char
    assert_eq!(doc.cursor.col, 2);
    doc.move_left();
    assert_eq!(doc.cursor.col, 0);
    doc.move_left(); // wraps to the end of the previous line
    assert_eq!((doc.cursor.line, doc.cursor.col), (0, 5));
    doc.move_down(); // column clamped to the shorter line
    assert_eq!((doc.cursor.line, doc.cursor.col), (1, 2));
    doc.move_down();
    assert_eq!((doc.cursor.line, doc.cursor.col), (2, 0));
    doc.page_down(20);
    assert_eq!(doc.cursor.line, 3);
    doc.page_up(2);
    assert_eq!(doc.cursor.line, 1);
    doc.move_up();
    doc.move_up();
    assert_eq!((doc.cursor.line, doc.cursor.col), (0, 0));
    doc.move_home();
    assert_eq!(doc.cursor.col, 0);
}

#[test]
fn word_jumps() {
    let mut doc = doc_from(b"foo  bar baz\nnext");
    doc.word_right();
    assert_eq!(doc.cursor.col, 5);
    doc.word_right();
    assert_eq!(doc.cursor.col, 9);
    doc.word_right(); // end of line, moves to the next line
    assert_eq!((doc.cursor.line, doc.cursor.col), (1, 0));
    doc.move_up();
    doc.move_end();
    doc.word_left();
    assert_eq!(doc.cursor.col, 9);
    doc.word_left();
    assert_eq!(doc.cursor.col, 5);
    doc.word_left();
    assert_eq!(doc.cursor.col, 0);
}

#[test]
fn delete_forward_and_join_lines() {
    let mut doc = doc_from("aé\nb".as_bytes());
    doc.move_right();
    doc.delete_forward(); // removes the 2-byte char
    assert_eq!(doc.to_string(), "a\nb");
    doc.delete_forward(); // removes the newline
    assert_eq!(doc.to_string(), "ab");
    assert_eq!((doc.cursor.line, doc.cursor.col), (0, 1));
    doc.move_end();
    doc.delete_forward(); // at the end: nothing happens
    assert_eq!(doc.to_string(), "ab");
    doc.undo();
    doc.undo();
    assert_eq!(doc.to_string(), "aé\nb");
}

#[test]
fn backspace_joins_lines() {
    let mut doc = doc_from(b"ab\ncd");
    doc.move_down();
    doc.backspace();
    assert_eq!(doc.to_string(), "abcd");
    // the cursor stays where the lines were joined
    assert_eq!((doc.cursor.line, doc.cursor.col), (0, 2));
    assert_eq!(doc.cursor_byte_offset(), 2);
    assert!(doc.is_dirty());
    doc.undo();
    assert_eq!(doc.to_string(), "ab\ncd");
    assert_eq!((doc.cursor.line, doc.cursor.col), (1, 0));
}

#[test]
fn cursor_byte_offset_counts_lines() {
    let mut doc = doc_from(b"ab\ncde\nf");
    doc.move_down();
    doc.move_down();
    assert_eq!(doc.cursor_byte_offset(), 7);
    doc.cursor.line = 5;
    doc.cursor.col = 1;
    // lines past the end count one byte each
    assert_eq!(doc.cursor_byte_offset(), 8 + 1 + 2 + 1);
}

#[test]
fn first_line_ending_decides() {
    let doc = doc_from(b"a\nb\r\n");
    assert_eq!(doc.line_ending(), LineEnding::Lf);
    assert_eq!(doc.encoded_for_save(), b"a\nb\r\n".to_vec());
    let doc = doc_from(b"a\r\nb\r\n");
    assert_eq!(doc.line_ending(), LineEnding::CrLf);
    assert_eq!(doc.line_count(), 3);
}

#[test]
fn redo_after_a_typed_char_does_nothing() {
    let mut doc = doc_from(b"");
    doc.insert_at_cursor("a");
    doc.undo();
    doc.insert_at_cursor("b");
    assert!(!doc.redo());
    assert_eq!(doc.to_string(), "b");
}

#[test]
fn delete_forward_before_a_wide_char_near_the_end() {
    let mut doc = doc_from("abcé".as_bytes());
    doc.move_end();
    doc.move_left();
    assert_eq!(doc.cursor_byte_offset(), 3);
    doc.delete_forward();
    assert_eq!(doc.to_string(), "abc");
    assert!(doc.is_dirty());
    let mut doc = doc_from("a€".as_bytes());
    doc.delete_forward();
    doc.delete_forward();
    assert_eq!(doc.to_string(), "");
}

#[test]
fn bom_written_back() {
    let doc = doc_from(b"\xEF\xBB\xBFhello");
    assert_eq!(doc.encoded_for_save(), b"\xEF\xBB\xBFhello".to_vec());
}

#[test]
fn flush_history_ends_a_unit() {
    let mut doc = doc_from(b"");
    doc.insert_at_cursor("a");
    doc.flush_history();
    doc.insert_at_cursor("b");
    assert!(doc.undo());
    assert_eq!(doc.to_string(), "a");
    assert!(doc.undo());
    assert_eq!(doc.to_string(), "");
    assert!(doc.redo());
    assert_eq!(doc.to_string(), "a");
}

#[test]
fn click_lands_on_a_char_of_an_existing_line() {
    let mut doc = doc_from("héllo\nab".as_bytes());
    doc.click_to(0, 2);
    assert_eq!((doc.cursor.line, doc.cursor.col), (0, 3));
    doc.click_to(5, 1);
    assert_eq!((doc.cursor.line, doc.cursor.col), (1, 1));
    doc.click_to(0, 99);
    assert_eq!((doc.cursor.line, doc.cursor.col), (0, 6));
    doc.click_to(1, 0);
    assert_eq!((doc.cursor.line, doc.cursor.col), (1, 0));
}

#[test]
fn click_commits_the_insert_being_typed() {
    let mut doc = doc_from(b"ab");
    doc.click_to(0, 2);
    doc.insert_at_cursor("x");
    doc.click_to(0, 0);
    doc.insert_at_cursor("y");
    assert_eq!(doc.to_string(), "yabx");
    doc.undo();
    assert_eq!(doc.to_string(), "abx");
    doc.undo();
    assert_eq!(doc.to_string(), "ab");
}

#[test]
fn jump_to_line_keeps_the_column_where_it_can() {
    let mut doc = doc_from("long line\nab\nxyz".as_bytes());
    doc.click_to(0, 8);
    assert_eq!(doc.jump_to_line(2), 2);
    assert_eq!((doc.cursor.line, doc.cursor.col), (2, 3));
    assert_eq!(doc.jump_to_line(40), 2);
    assert_eq!(doc.jump_to_line(1), 1);
    assert_eq!((doc.cursor.line, doc.cursor.col), (1, 2));
    let mut empty = doc_from(b"");
    assert_eq!(empty.jump_to_line(3), 0);
    assert_eq!((empty.cursor.line, empty.cursor.col), (0, 0));
}

#[test]
fn several_undone_edits_redo_one_after_another() {
    let mut doc = doc_from(b"x");
    doc.move_end();
    doc.insert_at_cursor("ab");
    doc.insert_at_cursor("\n");
    doc.backspace();
    assert_eq!(doc.to_string(), "xab");
    assert!(doc.undo());
    assert!(doc.undo());
    assert!(doc.undo());
    assert_eq!(doc.to_string(), "x");
    doc.move_home();
    assert!(doc.redo());
    assert_eq!(doc.to_string(), "xab");
    assert!(doc.redo());
    assert_eq!(doc.to_string(), "xab\n");
    assert!(doc.redo());
    assert_eq!(doc.to_string(), "xab");
    assert!(!doc.redo());
}
