use editor_core::display::{char_to_byte_col, gutter_width};

#[test]
fn gutter_width_values() {
    assert_eq!(gutter_width(0), 1);
    assert_eq!(gutter_width(9), 1);
    assert_eq!(gutter_width(10), 2);
    assert_eq!(gutter_width(100), 3);
}

#[test]
fn gutter_width_large() {
    assert_eq!(gutter_width(99_999), 5);
    assert_eq!(gutter_width(usize::MAX), usize::MAX.to_string().len());
}

#[test]
fn char_to_byte_col_values() {
    assert_eq!(char_to_byte_col("héllo", 0), 0);
    assert_eq!(char_to_byte_col("héllo", 2), 3);
    assert_eq!(char_to_byte_col("héllo", 5), 6);
    assert_eq!(char_to_byte_col("héllo", 99), 6);
    assert_eq!(char_to_byte_col("", 3), 0);
}
