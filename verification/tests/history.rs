use editor_core::{Cursor, History, PieceTable};

fn pt(s: &str) -> PieceTable {
    PieceTable::load(s)
}

fn cur(line: usize, col: usize) -> Cursor {
    Cursor { line, col }
}

#[test]
fn undo_single_insert() {
    let mut buf = pt("hello");
    let mut h = History::new(100);
    // Insert " world" at offset 5
    let cb = cur(0, 5);
    buf.insert(5, " world");
    let ca = cur(0, 11);
    h.push_insert(5, " world".to_owned(), cb, ca);

    let restored = h.undo(&mut buf).unwrap();
    assert_eq!(buf.to_string(), "hello");
    assert_eq!(restored, cb);
}

#[test]
fn undo_single_delete() {
    let mut buf = pt("hello world");
    let mut h = History::new(100);
    let cb = cur(0, 5);
    // Delete " world" (6 bytes at offset 5)
    h.push_delete(5, " world".to_owned(), cb, cur(0, 5));
    buf.delete(5..11);

    let restored = h.undo(&mut buf).unwrap();
    assert_eq!(buf.to_string(), "hello world");
    assert_eq!(restored, cb);
}

#[test]
fn redo_after_undo() {
    let mut buf = pt("ab");
    let mut h = History::new(100);
    let cb = cur(0, 2);
    buf.insert(2, "c");
    let ca = cur(0, 3);
    h.push_insert(2, "c".to_owned(), cb, ca);

    h.undo(&mut buf).unwrap();
    assert_eq!(buf.to_string(), "ab");

    let restored = h.redo(&mut buf).unwrap();
    assert_eq!(buf.to_string(), "abc");
    assert_eq!(restored, ca);
}

#[test]
fn coalesce_single_chars() {
    let mut buf = pt("");
    let mut h = History::new(100);
    for (i, ch) in "hello".chars().enumerate() {
        let cb = cur(0, i);
        buf.insert(i, &ch.to_string());
        h.push_char(i, ch, cb, cur(0, i + 1));
    }
    h.flush_pending();
    assert_eq!(h.undo_len(), 1);

    h.undo(&mut buf).unwrap();
    assert_eq!(buf.to_string(), "");
}

#[test]
fn new_edit_clears_redo() {
    let mut buf = pt("a");
    let mut h = History::new(100);
    buf.insert(1, "b");
    h.push_insert(1, "b".to_owned(), cur(0, 1), cur(0, 2));
    h.undo(&mut buf).unwrap();
    assert!(h.can_redo());
    // New insert should clear redo
    buf.insert(1, "c");
    h.push_insert(1, "c".to_owned(), cur(0, 1), cur(0, 2));
    assert!(!h.can_redo());
}

#[test]
fn capacity_evicts_oldest() {
    let mut buf = pt("");
    let mut h = History::new(3);
    for i in 0..5usize {
        let s = i.to_string();
        buf.insert(buf.len(), &s);
        h.push_insert(i, s.clone(), cur(0, i), cur(0, i + 1));
    }
    // Only last 3 ops survive
    assert_eq!(h.undo_len(), 3);
}

#[test]
fn undo_empty_returns_none() {
    let mut buf = pt("x");
    let mut h = History::new(10);
    assert!(h.undo(&mut buf).is_none());
}

// ── further cases ────────────────────────────────────────────────────────────

#[test]
fn non_consecutive_chars_start_a_new_unit() {
    let mut buf = pt("");
    let mut h = History::new(100);
    buf.insert(0, "a");
    h.push_char(0, 'a', cur(0, 0), cur(0, 1));
    buf.insert(0, "b");
    h.push_char(0, 'b', cur(0, 0), cur(0, 1));
    h.flush_pending();
    assert_eq!(h.undo_len(), 2);
    assert_eq!(buf.to_string(), "ba");
    assert_eq!(h.undo(&mut buf), Some(cur(0, 0)));
    assert_eq!(buf.to_string(), "a");
    assert_eq!(h.undo(&mut buf), Some(cur(0, 0)));
    assert_eq!(buf.to_string(), "");
    assert!(!h.can_undo());
}

#[test]
fn pending_counts_for_can_undo() {
    let mut buf = pt("");
    let mut h = History::new(100);
    assert!(!h.can_undo());
    buf.insert(0, "é");
    h.push_char(0, 'é', cur(0, 0), cur(0, 2));
    assert!(h.can_undo());
    assert_eq!(h.undo_len(), 0);
    // a character typed right after it (at byte 2) joins the same unit
    buf.insert(2, "x");
    h.push_char(2, 'x', cur(0, 2), cur(0, 3));
    assert_eq!(h.undo(&mut buf), Some(cur(0, 0)));
    assert_eq!(buf.to_string(), "");
    assert_eq!(h.redo(&mut buf), Some(cur(0, 3)));
    assert_eq!(buf.to_string(), "éx");
}

#[test]
fn redo_empty_returns_none() {
    let mut buf = pt("x");
    let mut h = History::new(10);
    assert!(h.redo(&mut buf).is_none());
    assert_eq!(buf.to_string(), "x");
}

#[test]
fn zero_capacity_keeps_nothing() {
    let mut buf = pt("");
    let mut h = History::new(0);
    for i in 0..3usize {
        buf.insert(i, "z");
        h.push_insert(i, "z".to_owned(), cur(0, i), cur(0, i + 1));
    }
    assert_eq!(h.undo_len(), 0);
    assert!(!h.can_undo());
    assert!(h.undo(&mut buf).is_none());
    assert_eq!(buf.to_string(), "zzz");
}

#[test]
fn typed_char_clears_redo() {
    let mut buf = pt("ab");
    let mut h = History::new(100);
    buf.insert(2, "c");
    h.push_insert(2, "c".into(), cur(0, 2), cur(0, 3));
    h.undo(&mut buf);
    assert!(h.can_redo());
    buf.insert(2, "d");
    h.push_char(2, 'd', cur(0, 2), cur(0, 3));
    assert!(!h.can_redo());
    assert!(h.redo(&mut buf).is_none());
    assert_eq!(buf.to_string(), "abd");
}
