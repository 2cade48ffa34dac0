use enso_text::Buffer;
use enso_text::Movement;
use enso_text::Selection;
use enso_text::SelectionGroup;
use enso_text::View;

fn view_with_regions(text: &str, regions: &[(usize, usize)]) -> View {
    let mut v = Buffer::from_text(text).view();
    let mut g = SelectionGroup::new();
    for &(s, e) in regions {
        g.add_region(Selection::new(s, e));
    }
    v.set_selection(g);
    v
}

fn carets(v: &View) -> Vec<usize> {
    v.sel_regions()
        .iter()
        .map(|r| {
            assert!(r.is_caret());
            r.end
        })
        .collect()
}

#[test]
fn multi_cursor_write_distributes_lines() {
    // Two carets at offsets 0 and 3 in "ab\ncd"; writing "X\nY" hands "X"
    // to the first cursor and "Y" to the second, each collapsing to a caret
    // after its insertion, the second shifted by the first's length change.
    let mut v = view_with_regions("ab\ncd", &[(0, 0), (3, 3)]);
    v.write("X\nY");
    assert_eq!(v.text_string(), "Xab\nYcd");
    assert_eq!(carets(&v), vec![1, 5]);
}

#[test]
fn write_inserts_at_single_caret() {
    let mut v = view_with_regions("ab", &[(1, 1)]);
    v.write("X");
    assert_eq!(v.text_string(), "aXb");
    assert_eq!(carets(&v), vec![2]);
}

#[test]
fn write_replaces_selection() {
    let mut v = view_with_regions("abcd", &[(1, 3)]);
    v.write("ZZ");
    assert_eq!(v.text_string(), "aZZd");
    assert_eq!(carets(&v), vec![3]);
}

#[test]
fn write_empty_removes_selections() {
    let mut v = view_with_regions("abcdef", &[(1, 3), (4, 5)]);
    v.write("");
    assert_eq!(v.text_string(), "adf");
    assert_eq!(carets(&v), vec![1, 2]);
}

#[test]
fn write_trims_trailing_breaks_for_distribution() {
    let mut v = view_with_regions("ab\ncd", &[(0, 0), (3, 3)]);
    v.write("X\nY\n\n");
    assert_eq!(v.text_string(), "Xab\nYcd");
    assert_eq!(carets(&v), vec![1, 5]);
}

#[test]
fn write_single_cursor_keeps_whole_text() {
    // One cursor receives a multi-line paste whole, trailing breaks and all.
    let mut v = view_with_regions("ab", &[(0, 0)]);
    v.write("1\n2");
    assert_eq!(v.text_string(), "1\n2ab");
    assert_eq!(carets(&v), vec![3]);
}

#[test]
fn write_with_fewer_lines_than_cursors() {
    // Only the first cursors receive pieces; the rest keep their regions.
    let mut v = view_with_regions("ab\ncd\nef", &[(0, 0), (3, 3), (6, 6)]);
    v.write("1\n2");
    assert_eq!(v.text_string(), "1ab\n2cd\nef");
    let rs = v.sel_regions();
    assert_eq!(rs.len(), 3);
    assert_eq!((rs[0].start, rs[0].end), (1, 1));
    assert_eq!((rs[1].start, rs[1].end), (5, 5));
    assert_eq!((rs[2].start, rs[2].end), (6, 6));
}

#[test]
fn write_shifts_later_cursors_after_removal() {
    // An earlier replacement that shrinks the text shifts later cursors left.
    let mut v = view_with_regions("abcdef", &[(0, 3), (4, 6)]);
    v.write("x");
    assert_eq!(v.text_string(), "xdx");
    assert_eq!(carets(&v), vec![1, 3]);
}

#[test]
fn delete_step_right_removes_next_character() {
    let mut v = view_with_regions("ab", &[(0, 0)]);
    v.do_delete_operation(Movement::Right);
    assert_eq!(v.text_string(), "b");
    assert_eq!(carets(&v), vec![0]);
}

#[test]
fn delete_step_left_removes_previous_character() {
    let mut v = view_with_regions("ab", &[(1, 1)]);
    v.do_delete_operation(Movement::Left);
    assert_eq!(v.text_string(), "b");
    assert_eq!(carets(&v), vec![0]);
}

#[test]
fn delete_keeps_existing_selection_extent() {
    // A cursor that already has a selection deletes just that selection.
    let mut v = view_with_regions("abcd", &[(1, 3)]);
    v.do_delete_operation(Movement::Right);
    assert_eq!(v.text_string(), "ad");
    assert_eq!(carets(&v), vec![1]);
}

#[test]
fn delete_multi_cursor() {
    let mut v = view_with_regions("ab\ncd", &[(0, 0), (3, 3)]);
    v.do_delete_operation(Movement::Right);
    assert_eq!(v.text_string(), "b\nd");
    assert_eq!(carets(&v), vec![0, 2]);
}

#[test]
fn apply_change_leaves_selection_alone() {
    let mut v = view_with_regions("ab\ncd", &[(4, 4)]);
    v.apply_change(0, 2, "xyz");
    assert_eq!(v.text_string(), "xyz\ncd");
    let rs = v.sel_regions();
    assert_eq!((rs[0].start, rs[0].end), (4, 4));
}

#[test]
fn write_over_multibyte_selection() {
    // "aéx": replacing the two-byte 'é' keeps the surrounding characters.
    let mut v = view_with_regions("a\u{e9}x", &[(1, 3)]);
    v.write("o");
    assert_eq!(v.text_string(), "aox");
    assert_eq!(carets(&v), vec![2]);
}
