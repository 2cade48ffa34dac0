use enso_text::Column;
use enso_text::Selection;
use enso_text::SelectionGroup;
use enso_text::remove_n_at;

fn group_invariant_holds(g: &SelectionGroup) -> bool {
    let rs = &g.regions;
    for i in 1..rs.len() {
        let a = rs[i - 1];
        let b = rs[i];
        if a.max() > b.min() {
            return false;
        }
        if (a.is_caret() || b.is_caret()) && a.max() == b.min() {
            return false;
        }
    }
    true
}

#[test]
fn selection_basics() {
    let s = Selection::new(3, 7);
    assert_eq!(s.min(), 3);
    assert_eq!(s.max(), 7);
    assert!(!s.is_caret());
    assert_eq!(s.column, None);

    let rev = Selection::new(7, 3);
    assert_eq!(rev.min(), 3);
    assert_eq!(rev.max(), 7);

    let caret = Selection::new(5, 5);
    assert!(caret.is_caret());

    let with_col = s.with_column(Some(Column(4)));
    assert_eq!(with_col.column, Some(Column(4)));
    assert_eq!(with_col.start, 3);
    assert_eq!(with_col.end, 7);
}

#[test]
fn should_merge_rules() {
    // Genuine overlap always merges.
    assert!(Selection::new(1, 4).should_merge(Selection::new(3, 6)));
    // Two ranges that merely touch do not merge.
    assert!(!Selection::new(1, 4).should_merge(Selection::new(4, 6)));
    // A caret touching a range's edge merges.
    assert!(Selection::new(1, 4).should_merge(Selection::new(4, 4)));
    assert!(Selection::new(4, 4).should_merge(Selection::new(4, 6)));
    // Two carets at the same offset merge.
    assert!(Selection::new(4, 4).should_merge(Selection::new(4, 4)));
    // Disjoint regions do not merge.
    assert!(!Selection::new(1, 2).should_merge(Selection::new(5, 6)));
}

#[test]
fn merge_with_keeps_direction() {
    let forward = Selection::new(1, 4).merge_with(Selection::new(3, 6));
    assert_eq!((forward.start, forward.end), (1, 6));
    let reversed = Selection::new(4, 1).merge_with(Selection::new(3, 6));
    assert_eq!((reversed.start, reversed.end), (6, 1));
    // The cached column is not preserved through a merge.
    let with_col = Selection::new(1, 4).with_column(Some(Column(2)));
    assert_eq!(with_col.merge_with(Selection::new(3, 6)).column, None);
}

#[test]
fn caret_touching_range_merges() {
    // Adding a caret at offset 5 to a group holding the range [3, 5) must
    // merge them into the single region [3, 5).
    let mut g = SelectionGroup::new();
    g.add_region(Selection::new(3, 5));
    g.add_region(Selection::new(5, 5));
    assert_eq!(g.regions.len(), 1);
    assert_eq!(g.regions[0].min(), 3);
    assert_eq!(g.regions[0].max(), 5);
}

#[test]
fn touching_ranges_do_not_merge() {
    // Adding the range [5, 7) to a group holding [3, 5) keeps two regions.
    let mut g = SelectionGroup::new();
    g.add_region(Selection::new(3, 5));
    g.add_region(Selection::new(5, 7));
    assert_eq!(g.regions.len(), 2);
    assert_eq!((g.regions[0].min(), g.regions[0].max()), (3, 5));
    assert_eq!((g.regions[1].min(), g.regions[1].max()), (5, 7));
}

#[test]
fn add_region_is_idempotent() {
    let mut once = SelectionGroup::new();
    once.add_region(Selection::new(2, 6));
    let mut twice = SelectionGroup::new();
    twice.add_region(Selection::new(2, 6));
    twice.add_region(Selection::new(2, 6));
    assert_eq!(twice.regions.len(), 1);
    assert_eq!(
        (twice.regions[0].start, twice.regions[0].end),
        (once.regions[0].start, once.regions[0].end)
    );

    // The same with a pre-existing neighbour and a reversed duplicate.
    let mut g = SelectionGroup::new();
    g.add_region(Selection::new(0, 1));
    g.add_region(Selection::new(8, 3));
    g.add_region(Selection::new(8, 3));
    assert_eq!(g.regions.len(), 2);
    assert_eq!((g.regions[1].start, g.regions[1].end), (8, 3));
}

#[test]
fn add_region_merges_several() {
    let mut g = SelectionGroup::new();
    g.add_region(Selection::new(1, 3));
    g.add_region(Selection::new(4, 6));
    g.add_region(Selection::new(8, 9));
    g.add_region(Selection::new(2, 5));
    assert_eq!(g.regions.len(), 2);
    assert_eq!((g.regions[0].min(), g.regions[0].max()), (1, 6));
    assert_eq!((g.regions[1].min(), g.regions[1].max()), (8, 9));
    assert!(group_invariant_holds(&g));
}

#[test]
fn add_region_out_of_order_sorts() {
    let mut g = SelectionGroup::new();
    g.add_region(Selection::new(10, 12));
    g.add_region(Selection::new(0, 2));
    g.add_region(Selection::new(5, 7));
    assert_eq!(g.regions.len(), 3);
    assert_eq!(g.regions[0].min(), 0);
    assert_eq!(g.regions[1].min(), 5);
    assert_eq!(g.regions[2].min(), 10);
    assert!(group_invariant_holds(&g));
}

#[test]
fn add_region_invariant_random_walk() {
    // The group invariant holds for every state reached through add_region.
    let spans = [
        (4, 9),
        (0, 0),
        (12, 10),
        (9, 9),
        (3, 5),
        (20, 20),
        (19, 25),
        (7, 7),
        (1, 30),
    ];
    let mut g = SelectionGroup::new();
    for (s, e) in spans {
        g.add_region(Selection::new(s, e));
        assert!(group_invariant_holds(&g));
    }
}

#[test]
fn search_finds_first_reaching_region() {
    let mut g = SelectionGroup::new();
    g.add_region(Selection::new(1, 3));
    g.add_region(Selection::new(5, 8));
    assert_eq!(g.search(0), 0);
    assert_eq!(g.search(3), 0);
    assert_eq!(g.search(4), 1);
    assert_eq!(g.search(8), 1);
    assert_eq!(g.search(9), 2);
    let empty = SelectionGroup::new();
    assert_eq!(empty.search(0), 0);
}

#[test]
fn remove_n_at_variants() {
    let mut v = vec![0, 1, 2, 3, 4, 5];
    remove_n_at(&mut v, 1, 2);
    assert_eq!(v, vec![0, 3, 4, 5]);
    remove_n_at(&mut v, 2, 0);
    assert_eq!(v, vec![0, 3, 4, 5]);
    remove_n_at(&mut v, 3, 1);
    assert_eq!(v, vec![0, 3, 4]);
    remove_n_at(&mut v, 0, 3);
    assert_eq!(v, Vec::<i32>::new());
}
