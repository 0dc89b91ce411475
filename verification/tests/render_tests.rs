use ftg::buffer::Buffer;
use ftg::position::Position;
use ftg::region::Region;
use ftg::render::{build_rows, build_tab_bar};
use ftg::selection::Selection;

fn spans_of(text: &str, regions: &[(usize, usize)], width: u16) -> Vec<(String, bool)> {
    let buffer = Buffer::from_text(1, text);
    let mut sel = Selection::new();
    for (b, l) in regions {
        sel.insert(Region::ii(*b, *l));
    }
    let rows = build_rows(&buffer, &Position { x: 0, y: 0 }, sel.iter(), width, 1);
    rows[0]
        .spans
        .iter()
        .map(|s| (s.text.iter().collect::<String>(), s.selected))
        .collect()
}

#[test]
fn selection_splits_a_row_into_alternating_spans() {
    let spans = spans_of("abcdefgh", &[(2, 4)], 8);
    assert_eq!(
        spans,
        vec![
            ("ab".to_string(), false),
            ("cde".to_string(), true),
            ("fgh".to_string(), false)
        ]
    );
}

#[test]
fn selection_at_the_edges_of_a_row() {
    let spans = spans_of("abcd", &[(0, 0), (3, 3)], 8);
    assert_eq!(
        spans,
        vec![
            ("a".to_string(), true),
            ("bc".to_string(), false),
            ("d".to_string(), true)
        ]
    );
}

#[test]
fn unselected_row_is_one_span() {
    let spans = spans_of("abcd", &[], 8);
    assert_eq!(spans, vec![("abcd".to_string(), false)]);
}

#[test]
fn fully_selected_row_is_one_selected_span() {
    let spans = spans_of("ab", &[(0, 5)], 8);
    assert_eq!(spans, vec![("ab".to_string(), true)]);
}

#[test]
fn rows_carry_the_selection_flag() {
    let buffer = Buffer::from_text(1, "one\ntwo\nthree");
    let mut sel = Selection::new();
    sel.insert(Region::ii(5, 6));
    let rows = build_rows(&buffer, &Position { x: 0, y: 0 }, sel.iter(), 10, 3);
    assert_eq!(rows.len(), 3);
    assert!(!rows[0].has_selection);
    assert!(rows[1].has_selection);
    assert!(!rows[2].has_selection);
}

#[test]
fn selection_spans_continue_across_rows() {
    let buffer = Buffer::from_text(1, "abc\ndef");
    let mut sel = Selection::new();
    sel.insert(Region::ii(2, 5));
    let rows = build_rows(&buffer, &Position { x: 0, y: 0 }, sel.iter(), 10, 2);
    let row0: Vec<(String, bool)> = rows[0]
        .spans
        .iter()
        .map(|s| (s.text.iter().collect::<String>(), s.selected))
        .collect();
    let row1: Vec<(String, bool)> = rows[1]
        .spans
        .iter()
        .map(|s| (s.text.iter().collect::<String>(), s.selected))
        .collect();
    assert_eq!(row0, vec![("ab".to_string(), false), ("c\n".to_string(), true)]);
    assert_eq!(row1, vec![("de".to_string(), true), ("f".to_string(), false)]);
}

#[test]
fn tab_bar_marks_the_active_tab() {
    let names = vec!["a".to_string(), "b".to_string(), "c".to_string()];
    // width 55 leaves room for 3 tabs
    let bar = build_tab_bar(&names, 1, 55);
    assert_eq!(bar.tabs.len(), 3);
    assert_eq!(bar.tabs[0].name, "a");
    assert!(!bar.tabs[0].active);
    assert!(bar.tabs[1].active);
    assert!(!bar.tabs[2].active);
    assert!(bar.at_left_edge);
    assert!(bar.at_right_edge);
}

#[test]
fn tab_bar_windows_onto_many_views() {
    let names: Vec<String> = (0..10).map(|i| format!("tab{}", i)).collect();
    // width 40 leaves room for 2 tabs
    let bar = build_tab_bar(&names, 0, 40);
    assert_eq!(bar.tabs.len(), 2);
    assert_eq!(bar.tabs[0].name, "tab0");
    assert!(bar.at_left_edge);
    assert!(!bar.at_right_edge);

    let bar = build_tab_bar(&names, 9, 40);
    assert_eq!(bar.tabs.len(), 2);
    assert_eq!(bar.tabs[0].name, "tab8");
    assert!(bar.tabs[1].active);
    assert!(!bar.at_left_edge);
    assert!(bar.at_right_edge);

    // in the middle, the visible window ends at the active tab
    let bar = build_tab_bar(&names, 5, 40);
    assert_eq!(bar.tabs.len(), 2);
    assert_eq!(bar.tabs[0].name, "tab4");
    assert!(bar.tabs[1].active);
    assert!(!bar.at_left_edge);
    assert!(!bar.at_right_edge);
}

#[test]
fn narrow_terminal_shows_no_tabs() {
    let names = vec!["a".to_string()];
    let bar = build_tab_bar(&names, 0, 8);
    assert_eq!(bar.tabs.len(), 0);
}
