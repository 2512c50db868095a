use editor_core::{Cursor, Document, History, PieceTable};
use std::path::PathBuf;

struct Rng(u64);

impl Rng {
    fn next(&mut self) -> u64 {
        self.0 = self.0.wrapping_mul(6364136223846793005).wrapping_add(1442695040888963407);
        self.0 >> 33
    }
}

fn doc_from(content: &[u8]) -> Document {
    Document::from_bytes(PathBuf::from("law.txt"), content).unwrap()
}

fn random_doc(rng: &mut Rng) -> Document {
    let alphabet = ["a", "b", " ", "\n", "é", "€"];
    let n = rng.next() % 12;
    let text: String = (0..n).map(|_| alphabet[(rng.next() % 6) as usize]).collect();
    let mut doc = doc_from(text.as_bytes());
    for _ in 0..rng.next() % 8 {
        match rng.next() % 4 {
            0 => doc.move_right(),
            1 => doc.move_down(),
            2 => doc.move_end(),
            _ => doc.move_left(),
        }
    }
    doc
}

#[test]
fn undo_right_after_an_edit_restores_content_and_cursor() {
    let mut rng = Rng(11);
    for round in 0..400 {
        let mut doc = random_doc(&mut rng);
        doc.flush_history();
        let before = doc.to_string();
        let cursor = doc.cursor;
        let at = doc.cursor_byte_offset();
        let len = before.len();
        match round % 4 {
            0 => doc.insert_at_cursor("x"),
            1 => doc.insert_at_cursor("é\nz"),
            2 if at > 0 => doc.backspace(),
            3 if at < len => doc.delete_forward(),
            _ => continue,
        }
        assert!(doc.undo());
        assert_eq!(doc.to_string(), before, "round {round}");
        assert_eq!(doc.cursor, cursor, "round {round}");
    }
}

#[test]
fn redo_right_after_undo_restores_content() {
    let mut rng = Rng(5);
    for round in 0..200 {
        let mut doc = random_doc(&mut rng);
        doc.insert_at_cursor("q");
        doc.insert_at_cursor("r");
        doc.backspace();
        let edited = doc.to_string();
        assert!(doc.undo());
        assert!(doc.redo());
        assert_eq!(doc.to_string(), edited, "round {round}");
    }
}

#[test]
fn a_typed_char_joins_the_pending_insert() {
    // The one exception to "undo restores the state before the edit": the
    // second char is undone together with the first.
    let mut doc = doc_from(b"");
    doc.insert_at_cursor("a");
    doc.insert_at_cursor("b");
    doc.undo();
    assert_eq!(doc.to_string(), "");
}

#[test]
fn edits_and_moves_then_undo_everything_gives_the_loaded_text() {
    let mut rng = Rng(3);
    for round in 0..200 {
        let mut doc = random_doc(&mut rng);
        let loaded = doc.to_string();
        for _ in 0..rng.next() % 25 {
            match rng.next() % 6 {
                0 => doc.insert_at_cursor("é"),
                1 => doc.insert_at_cursor("\n"),
                2 => doc.backspace(),
                3 => doc.delete_forward(),
                4 => doc.move_left(),
                _ => doc.move_down(),
            }
        }
        while doc.undo() {}
        assert_eq!(doc.to_string(), loaded, "round {round}");
    }
}

#[test]
fn k_edits_then_k_plus_one_undos_give_the_opened_text() {
    let mut doc = doc_from("one\ntwo".as_bytes());
    doc.move_down();
    doc.insert_at_cursor("x");
    doc.insert_at_cursor("y");
    doc.backspace();
    doc.move_up();
    doc.delete_forward();
    doc.insert_at_cursor("\n");
    assert_eq!(doc.to_string(), "o\ne\nxtwo");
    for _ in 0..7 {
        doc.undo();
    }
    assert_eq!(doc.to_string(), "one\ntwo");
}

#[test]
fn history_stays_within_its_bound() {
    for capacity in 0..4usize {
        let mut buf = PieceTable::load("");
        let mut h = History::new(capacity);
        let c = Cursor { line: 0, col: 0 };
        for i in 0..10usize {
            buf.insert(i, "x");
            if i % 3 == 0 {
                h.push_char(i, 'x', c, c);
            } else {
                h.push_insert(i, "x".to_string(), c, c);
            }
            assert!(h.undo_len() <= capacity);
            if i % 4 == 1 {
                h.undo(&mut buf);
                assert!(h.undo_len() <= capacity);
                h.redo(&mut buf);
                assert!(h.undo_len() <= capacity);
            }
        }
    }
}

#[test]
fn saving_right_after_loading_gives_the_loaded_bytes() {
    for text in [
        &b"plain\ntext\n"[..],
        b"dos\r\nlines\r\n",
        b"no newline",
        b"",
        b"a\rb\r\n",
        b"unix first\nthen\r\ndos",
        b"\xEF\xBB\xBFbom\r\n",
        b"\xEF\xBB\xBF",
    ] {
        let doc = doc_from(text);
        assert_eq!(doc.encoded_for_save(), text.to_vec());
    }
}
