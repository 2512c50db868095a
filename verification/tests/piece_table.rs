use editor_core::PieceTable;
use std::borrow::Cow;

#[test]
fn empty_table() {
    let t = PieceTable::new();
    assert_eq!(t.len(), 0);
    assert!(t.is_empty());
    assert_eq!(t.line_count(), 0);
}

#[test]
fn from_str_round_trips() {
    let t = PieceTable::load("hello\nworld");
    assert_eq!(t.to_string(), "hello\nworld");
    assert_eq!(t.len(), 11);
    assert_eq!(t.line_count(), 2);
}

#[test]
fn insert_at_end() {
    let mut t = PieceTable::load("hello");
    t.insert(5, " world");
    assert_eq!(t.to_string(), "hello world");
}

#[test]
fn insert_at_start() {
    let mut t = PieceTable::load("world");
    t.insert(0, "hello ");
    assert_eq!(t.to_string(), "hello world");
}

#[test]
fn insert_in_middle_splits_piece() {
    let mut t = PieceTable::load("helloworld");
    t.insert(5, " ");
    assert_eq!(t.to_string(), "hello world");
    assert_eq!(t.piece_count(), 3);
}

#[test]
fn delete_from_middle() {
    let mut t = PieceTable::load("hello world");
    t.delete(5..6);
    assert_eq!(t.to_string(), "helloworld");
}

#[test]
fn delete_entire_content() {
    let mut t = PieceTable::load("hello");
    t.delete(0..5);
    assert_eq!(t.to_string(), "");
    assert_eq!(t.len(), 0);
}

#[test]
fn delete_spans_pieces() {
    let mut t = PieceTable::new();
    t.insert(0, "hello");
    t.insert(5, " world");
    // Now: [Add:"hello", Add:" world"]
    assert_eq!(t.to_string(), "hello world");
    t.delete(3..8); // delete "lo wo"
    assert_eq!(t.to_string(), "helrld");
}

#[test]
fn slice_single_piece() {
    let t = PieceTable::load("hello world");
    let s = t.slice(6..11);
    assert!(matches!(s, Cow::Borrowed(_)));
    assert_eq!(s, "world");
}

#[test]
fn empty_and_single_piece_slices_are_borrowed() {
    let t = PieceTable::load("hello world");
    let s = t.slice(3..3);
    assert!(matches!(s, Cow::Borrowed("")));
    let s = t.slice(0..5);
    assert!(matches!(s, Cow::Borrowed("hello")));
    let mut t = PieceTable::load("hello");
    t.insert(5, " world");
    assert!(matches!(t.slice(7..11), Cow::Borrowed("orld")));
    assert!(matches!(t.slice(5..5), Cow::Borrowed("")));
}

#[test]
fn line_count_and_line_at() {
    let t = PieceTable::load("foo\nbar\nbaz");
    assert_eq!(t.line_count(), 3);
    assert_eq!(t.line_at(0).unwrap().as_ref(), "foo");
    assert_eq!(t.line_at(1).unwrap().as_ref(), "bar");
    assert_eq!(t.line_at(2).unwrap().as_ref(), "baz");
    assert!(t.line_at(3).is_none());
}

#[test]
fn trailing_newline_adds_empty_line() {
    let t = PieceTable::load("foo\n");
    assert_eq!(t.line_count(), 2);
    assert_eq!(t.line_at(1).unwrap().as_ref(), "");
}

#[test]
fn line_index_updated_on_insert() {
    let mut t = PieceTable::load("hello\nworld");
    t.insert(5, "\nmiddle");
    assert_eq!(t.to_string(), "hello\nmiddle\nworld");
    assert_eq!(t.line_count(), 3);
    assert_eq!(t.line_at(1).unwrap().as_ref(), "middle");
}

#[test]
fn line_index_updated_on_delete() {
    let mut t = PieceTable::load("foo\nbar\nbaz");
    t.delete(3..8); // delete "\nbar\n"  (positions 3-7 inclusive)
    assert_eq!(t.to_string(), "foobaz");
    assert_eq!(t.line_count(), 1);
}

#[test]
fn multiple_ops_agree_with_string() {
    let mut t = PieceTable::new();
    let mut s = String::new();
    let ops: &[(&str, usize, Option<usize>)] = &[
        ("hello", 0, None),
        (" world", 5, None),
        ("!", 11, None),
        ("", 0, Some(6)), // delete " world"
    ];
    for &(text, at, del_end) in ops {
        if let Some(end) = del_end {
            t.delete(at..end);
            s.drain(at..end);
        } else {
            t.insert(at, text);
            s.insert_str(at, text);
        }
        assert_eq!(t.to_string(), s, "mismatch after op");
        assert_eq!(t.len(), s.len());
    }
}

// ── further cases ────────────────────────────────────────────────────────────

fn ref_line_count(s: &str) -> usize {
    if s.is_empty() {
        0
    } else {
        s.matches('\n').count() + 1
    }
}

fn ref_line_at(s: &str, i: usize) -> Option<String> {
    if i >= ref_line_count(s) {
        return None;
    }
    s.split('\n').nth(i).map(|l| l.to_owned())
}

/// A small deterministic generator, so the randomised check is reproducible.
struct Lcg(u64);

impl Lcg {
    fn next(&mut self) -> u64 {
        self.0 = self.0.wrapping_mul(6364136223846793005).wrapping_add(1442695040888963407);
        self.0 >> 33
    }
}

#[test]
fn random_edits_agree_with_string() {
    let alphabet = ["a", "b", "\n", "xy", "q\nr", ""];
    for seed in 0..200u64 {
        let mut rng = Lcg(seed);
        let mut pt = PieceTable::new();
        let mut r = String::new();
        for _ in 0..40 {
            if rng.next() % 2 == 0 {
                let text = alphabet[(rng.next() % alphabet.len() as u64) as usize];
                let at = (rng.next() as usize) % (r.len() + 1);
                pt.insert(at, text);
                r.insert_str(at, text);
            } else if !r.is_empty() {
                let s = (rng.next() as usize) % r.len();
                let span = (rng.next() as usize) % (r.len() - s + 1);
                pt.delete(s..s + span);
                r.drain(s..s + span);
            }
            assert_eq!(pt.len(), r.len());
            assert_eq!(pt.to_string(), r);
        }
        let lc = ref_line_count(&r);
        assert_eq!(pt.line_count(), lc);
        for i in 0..=lc {
            assert_eq!(pt.line_at(i).map(|c| c.into_owned()), ref_line_at(&r, i));
        }
        if !r.is_empty() {
            assert_eq!(pt.slice(0..r.len()).as_ref(), r.as_str());
        }
    }
}

#[test]
fn offset_to_line_col_values() {
    let t = PieceTable::load("ab\ncd\n\nef");
    assert_eq!(t.offset_to_line_col(0), (0, 0));
    assert_eq!(t.offset_to_line_col(2), (0, 2));
    assert_eq!(t.offset_to_line_col(3), (1, 0));
    assert_eq!(t.offset_to_line_col(5), (1, 2));
    assert_eq!(t.offset_to_line_col(6), (2, 0));
    assert_eq!(t.offset_to_line_col(7), (3, 0));
    assert_eq!(t.offset_to_line_col(9), (3, 2));
    // clamped to the end of the content
    assert_eq!(t.offset_to_line_col(100), (3, 2));
}

#[test]
fn multibyte_text_round_trips() {
    let mut t = PieceTable::load("héllo");
    t.insert(3, "€");
    assert_eq!(t.to_string(), "hé€llo");
    assert_eq!(t.slice(1..6), "é€");
    t.delete(1..3);
    assert_eq!(t.to_string(), "h€llo");
}

#[test]
fn slice_across_pieces_is_owned() {
    let mut t = PieceTable::load("abc");
    t.insert(3, "def");
    let s = t.slice(1..5);
    assert!(matches!(s, Cow::Owned(_)));
    assert_eq!(s, "bcde");
    assert_eq!(t.slice(2..2), "");
}

#[test]
fn default_is_empty() {
    let t = PieceTable::default();
    assert!(t.is_empty());
    assert_eq!(t.to_string(), "");
}

#[test]
fn insert_at_a_piece_boundary_adds_one_piece() {
    let mut t = PieceTable::load("helloworld");
    t.insert(0, ">");
    assert_eq!(t.piece_count(), 2);
    t.insert(11, "<");
    assert_eq!(t.piece_count(), 3);
    t.insert(6, " ");
    assert_eq!(t.piece_count(), 5);
    t.insert(6, "_");
    assert_eq!(t.piece_count(), 6);
    assert_eq!(t.to_string(), ">hello_ world<");
    let mut e = PieceTable::new();
    e.insert(0, "x");
    assert_eq!(e.piece_count(), 1);
    e.insert(0, "");
    assert_eq!(e.piece_count(), 1);
}

#[test]
fn slice_spanning_pieces_is_owned() {
    let mut t = PieceTable::load("hello");
    t.insert(5, " world");
    assert!(matches!(t.slice(3..7), Cow::Owned(_)));
    assert_eq!(t.slice(3..7), "lo w");
    assert!(matches!(t.slice(0..11), Cow::Owned(_)));
    assert!(matches!(t.slice(0..5), Cow::Borrowed("hello")));
}
