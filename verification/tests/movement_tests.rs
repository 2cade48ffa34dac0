use enso_text::Buffer;
use enso_text::Column;
use enso_text::Movement;
use enso_text::Selection;
use enso_text::SelectionGroup;
use enso_text::View;

fn view_with_caret(text: &str, offset: usize) -> View {
    let mut v = Buffer::from_text(text).view();
    let mut g = SelectionGroup::new();
    g.add_region(Selection::new(offset, offset));
    v.set_selection(g);
    v
}

fn caret_at(v: &View) -> usize {
    let rs = v.sel_regions();
    assert_eq!(rs.len(), 1);
    assert!(rs[0].is_caret());
    rs[0].end
}

#[test]
fn down_down_end_of_document() {
    // Buffer "ab\ncd\nef": offsets 0-2 line 0, 3-5 line 1, 6-7 line 2.
    let mut v = view_with_caret("ab\ncd\nef", 1);
    v.move_selection(Movement::Down, false);
    assert_eq!(caret_at(&v), 4);
    assert_eq!(v.sel_regions()[0].column, Some(Column(1)));
    v.move_selection(Movement::Down, false);
    assert_eq!(caret_at(&v), 7);
    assert_eq!(v.sel_regions()[0].column, Some(Column(1)));
    v.move_selection(Movement::EndOfDocument, false);
    assert_eq!(caret_at(&v), 8);
    assert_eq!(v.sel_regions()[0].column, None);
}

#[test]
fn vertical_motion_column_memory() {
    // Lines of lengths [10, 2, 10] (the last without a trailing break):
    // a caret at column 8 of line 0 goes down twice and up twice, and
    // returns to column 8 of line 0, keeping the column through the short
    // middle line.
    let mut v = view_with_caret("abcdefghi\nz\nabcdefghi", 8);
    v.move_selection(Movement::Down, false);
    assert_eq!(caret_at(&v), 11);
    assert_eq!(v.sel_regions()[0].column, Some(Column(8)));
    v.move_selection(Movement::Down, false);
    assert_eq!(caret_at(&v), 20);
    assert_eq!(v.sel_regions()[0].column, Some(Column(8)));
    v.move_selection(Movement::Up, false);
    assert_eq!(caret_at(&v), 11);
    v.move_selection(Movement::Up, false);
    assert_eq!(caret_at(&v), 8);
    assert_eq!(v.sel_regions()[0].column, Some(Column(8)));
}

#[test]
fn boundary_clamp() {
    // Moving up from line 0 returns offset 0; moving down from the last
    // line returns the buffer length.
    let mut v = view_with_caret("ab\ncd\nef", 1);
    v.move_selection(Movement::Up, false);
    assert_eq!(caret_at(&v), 0);

    let mut v2 = view_with_caret("ab\ncd\nef", 7);
    v2.move_selection(Movement::Down, false);
    assert_eq!(caret_at(&v2), 8);
}

#[test]
fn page_movement_clamps() {
    let mut v = view_with_caret("ab\ncd\nef", 4);
    v.move_selection(Movement::DownPage, false);
    assert_eq!(caret_at(&v), 8);
    v.move_selection(Movement::UpPage, false);
    assert_eq!(caret_at(&v), 0);
}

#[test]
fn left_right_step_one_grapheme() {
    let mut v = view_with_caret("ab\ncd", 1);
    v.move_selection(Movement::Right, false);
    assert_eq!(caret_at(&v), 2);
    v.move_selection(Movement::Left, false);
    assert_eq!(caret_at(&v), 1);
    // At the document edges the caret stays put.
    let mut v2 = view_with_caret("ab", 0);
    v2.move_selection(Movement::Left, false);
    assert_eq!(caret_at(&v2), 0);
    let mut v3 = view_with_caret("ab", 2);
    v3.move_selection(Movement::Right, false);
    assert_eq!(caret_at(&v3), 2);
}

#[test]
fn left_right_over_multibyte_character() {
    // "aéx": 'é' spans offsets 1..3; horizontal motion never lands inside.
    let mut v = view_with_caret("a\u{e9}x", 0);
    v.move_selection(Movement::Right, false);
    assert_eq!(caret_at(&v), 1);
    v.move_selection(Movement::Right, false);
    assert_eq!(caret_at(&v), 3);
    v.move_selection(Movement::Left, false);
    assert_eq!(caret_at(&v), 1);
}

#[test]
fn left_right_collapse_selection() {
    let mut v = Buffer::from_text("abcdef").view();
    let mut g = SelectionGroup::new();
    g.add_region(Selection::new(1, 4));
    v.set_selection(g);
    v.move_selection(Movement::Right, false);
    assert_eq!(caret_at(&v), 4);

    let mut v2 = Buffer::from_text("abcdef").view();
    let mut g2 = SelectionGroup::new();
    g2.add_region(Selection::new(1, 4));
    v2.set_selection(g2);
    v2.move_selection(Movement::Left, false);
    assert_eq!(caret_at(&v2), 1);
}

#[test]
fn modify_extends_selection() {
    let mut v = view_with_caret("abc", 0);
    v.move_selection(Movement::Right, true);
    let r = v.sel_regions()[0];
    assert_eq!((r.start, r.end), (0, 1));
    v.move_selection(Movement::Right, true);
    let r2 = v.sel_regions()[0];
    assert_eq!((r2.start, r2.end), (0, 2));
}

#[test]
fn left_of_line_and_right_of_line() {
    let mut v = view_with_caret("ab\ncd\nef", 4);
    v.move_selection(Movement::LeftOfLine, false);
    assert_eq!(caret_at(&v), 3);
    v.move_selection(Movement::RightOfLine, false);
    assert_eq!(caret_at(&v), 5);
    // On the last line, RightOfLine targets the end of the text.
    let mut v2 = view_with_caret("ab\ncd\nef", 6);
    v2.move_selection(Movement::RightOfLine, false);
    assert_eq!(caret_at(&v2), 8);
}

#[test]
fn paragraph_boundaries() {
    let mut v = view_with_caret("ab\ncd\nef", 4);
    v.move_selection(Movement::EndOfParagraph, false);
    assert_eq!(caret_at(&v), 5);
    v.move_selection(Movement::StartOfParagraph, false);
    assert_eq!(caret_at(&v), 3);
    // From a line start, StartOfParagraph jumps to the previous boundary.
    v.move_selection(Movement::StartOfParagraph, false);
    assert_eq!(caret_at(&v), 0);
    // In the last line, EndOfParagraph targets the end of the text.
    let mut v2 = view_with_caret("ab\ncd\nef", 7);
    v2.move_selection(Movement::EndOfParagraph, false);
    assert_eq!(caret_at(&v2), 8);
}

#[test]
fn end_of_paragraph_kill() {
    // Away from the line end it stops before the break.
    let mut v = view_with_caret("ab\ncd\nef", 4);
    v.move_selection(Movement::EndOfParagraphKill, false);
    assert_eq!(caret_at(&v), 5);
    // Already at the line end, it consumes the break.
    v.move_selection(Movement::EndOfParagraphKill, false);
    assert_eq!(caret_at(&v), 6);
    // In the last line it stays put.
    let mut v2 = view_with_caret("ab\ncd\nef", 7);
    v2.move_selection(Movement::EndOfParagraphKill, false);
    assert_eq!(caret_at(&v2), 7);
}

#[test]
fn exact_position_skips_short_lines() {
    let mut v = view_with_caret("abcdefghi\nz\nabcdefghi", 8);
    v.move_selection(Movement::DownExactPosition, false);
    assert_eq!(caret_at(&v), 20);
    v.move_selection(Movement::UpExactPosition, false);
    assert_eq!(caret_at(&v), 8);
}

#[test]
fn exact_position_stops_at_boundary() {
    // No long-enough line below: the caret returns to its own line.
    let mut v = view_with_caret("abcdefghi\nz\ny", 8);
    v.move_selection(Movement::DownExactPosition, false);
    assert_eq!(v.line_of_offset(caret_at(&v)), 0);
}

#[test]
fn moved_regions_remerge() {
    // Two carets that move onto the same offset merge into one.
    let mut v = Buffer::from_text("ab").view();
    let mut g = SelectionGroup::new();
    g.add_region(Selection::new(1, 1));
    g.add_region(Selection::new(2, 2));
    v.set_selection(g);
    v.move_selection(Movement::Right, false);
    assert_eq!(v.sel_regions().len(), 1);
    assert_eq!(caret_at(&v), 2);
}

#[test]
fn start_of_document() {
    let mut v = view_with_caret("ab\ncd", 4);
    v.move_selection(Movement::StartOfDocument, false);
    assert_eq!(caret_at(&v), 0);
}
