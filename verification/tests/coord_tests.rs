use enso_text::Buffer;
use enso_text::Column;

#[test]
fn empty_buffer() {
    let b = Buffer::new();
    assert_eq!(b.len(), 0);
    assert_eq!(b.text_string(), "");
}

#[test]
fn from_text_round_trips() {
    let b = Buffer::from_text("ab\ncd\nef");
    assert_eq!(b.len(), 8);
    assert_eq!(b.text_string(), "ab\ncd\nef");
}

#[test]
fn offset_of_line_clamps() {
    let v = Buffer::from_text("ab\ncd\nef").view();
    assert_eq!(v.offset_of_line(0), 0);
    assert_eq!(v.offset_of_line(1), 3);
    assert_eq!(v.offset_of_line(2), 6);
    assert_eq!(v.offset_of_line(3), 8);
    assert_eq!(v.offset_of_line(99), 8);
}

#[test]
fn line_of_offset_counts_breaks() {
    let v = Buffer::from_text("ab\ncd\nef").view();
    assert_eq!(v.line_of_offset(0), 0);
    assert_eq!(v.line_of_offset(2), 0);
    assert_eq!(v.line_of_offset(3), 1);
    assert_eq!(v.line_of_offset(5), 1);
    assert_eq!(v.line_of_offset(6), 2);
    assert_eq!(v.line_of_offset(8), 2);
}

#[test]
fn offset_to_line_col_splits() {
    let v = Buffer::from_text("ab\ncd\nef").view();
    assert_eq!(v.offset_to_line_col(0), (0, 0));
    assert_eq!(v.offset_to_line_col(2), (0, 2));
    assert_eq!(v.offset_to_line_col(4), (1, 1));
    assert_eq!(v.offset_to_line_col(7), (2, 1));
}

#[test]
fn line_col_to_offset_basic() {
    let v = Buffer::from_text("ab\ncd\nef").view();
    assert_eq!(v.line_col_to_offset(1, Column(1)), 4);
    assert_eq!(v.line_col_to_offset(2, Column(0)), 6);
    // A column past the line's content clamps to just before its break.
    assert_eq!(v.line_col_to_offset(0, Column(5)), 2);
    // A position past the text end clamps to the end.
    assert_eq!(v.line_col_to_offset(2, Column(9)), 8);
}

#[test]
fn line_col_to_offset_snaps_to_grapheme_boundary() {
    // "aé": 'a' at offset 0, 'é' spans offsets 1..3.
    let v = Buffer::from_text("a\u{e9}x").view();
    assert_eq!(v.line_col_to_offset(0, Column(1)), 1);
    // Column 2 points into the middle of 'é' and snaps back to 1.
    assert_eq!(v.line_col_to_offset(0, Column(2)), 1);
    assert_eq!(v.line_col_to_offset(0, Column(3)), 3);
}

#[test]
fn coordinate_round_trip() {
    // For every offset inside a line, going to (line, column) and back
    // returns the same offset (every offset of this text is a boundary).
    let v = Buffer::from_text("ab\ncd\nef").view();
    for o in 0..8 {
        let (line, col) = v.offset_to_line_col(o);
        assert_eq!(v.line_col_to_offset(line, Column(col)), o);
    }
}

#[test]
fn coordinate_round_trip_multibyte() {
    // Character boundaries of a multi-byte text round-trip unchanged.
    let v = Buffer::from_text("a\u{e9}x\ny").view();
    for o in [0, 1, 3, 4, 5, 6] {
        let (line, col) = v.offset_to_line_col(o);
        assert_eq!(v.line_col_to_offset(line, Column(col)), o);
    }
}
