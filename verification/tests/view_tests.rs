use ftg::buffer::Buffer;
use ftg::keymap::Context;
use ftg::region::Region;
use ftg::selection::Selection;
use ftg::view::View;

fn cursors(view: &View) -> Vec<(usize, usize)> {
    view.selection_set.primary().iter().iter().map(|r| (r.begin, r.last)).collect()
}

fn with_primary(view: &mut View, begins: &[usize]) {
    let mut sel = Selection::new();
    for b in begins {
        sel.insert(Region::unit(*b));
    }
    view.selection_set.set_primary(sel);
}

#[test]
fn multi_cursor_insert_shifts_later_cursors() {
    // primary selection: unit regions at offsets {2, 7}
    let mut buffer = Buffer::from_text(1, "abcdefghij");
    let mut view = View::new(10, 1, None);
    with_primary(&mut view, &[2, 7]);
    view.insert_char(&mut buffer, 'x');
    // cursors land one past each insertion point: {3, 9}
    assert_eq!(cursors(&view), vec![(3, 3), (9, 9)]);
    // both characters landed, everything else is unmodified
    assert_eq!(buffer.content(), "abxcdefgxhij");
}

#[test]
fn insert_at_single_cursor() {
    let mut buffer = Buffer::from_text(1, "hello");
    let mut view = View::new(10, 1, None);
    view.insert_char(&mut buffer, 'X');
    assert_eq!(buffer.content(), "Xhello");
    assert_eq!(cursors(&view), vec![(1, 1)]);
}

#[test]
fn move_forward_and_backward_translate_cursors() {
    let mut view = View::new(10, 1, None);
    with_primary(&mut view, &[2, 7]);
    view.move_forward();
    assert_eq!(cursors(&view), vec![(3, 3), (8, 8)]);
    view.move_backward();
    assert_eq!(cursors(&view), vec![(2, 2), (7, 7)]);
}

#[test]
fn move_backward_saturates_at_zero() {
    let mut view = View::new(10, 1, None);
    view.move_backward();
    assert_eq!(cursors(&view), vec![(0, 0)]);
}

#[test]
fn move_down_keeps_column_and_clamps() {
    let buffer = Buffer::from_text(1, "aaaaa\n\nbbb");
    let mut view = View::new(10, 1, None);
    with_primary(&mut view, &[3]);
    view.move_down(&buffer);
    // column 3 on the empty line clamps to its only offset
    assert_eq!(cursors(&view), vec![(6, 6)]);
    view.move_down(&buffer);
    // column 0 of the last line
    assert_eq!(cursors(&view), vec![(7, 7)]);
    view.move_up(&buffer);
    view.move_up(&buffer);
    assert_eq!(cursors(&view), vec![(0, 0)]);
}

#[test]
fn search_mode_round_trip() {
    let buffer = Buffer::from_text(1, "aaa");
    let mut view = View::new(10, 1, None);
    assert!(matches!(view.context, Context::Buffer));
    view.begin_search();
    assert!(matches!(view.context, Context::Search));
    view.push_search('a');
    view.push_search('a');
    view.submit_search(&buffer);
    assert!(matches!(view.context, Context::Buffer));
    assert_eq!(view.search.query.len(), 0);
    // both overlapping matches merge into one region over all of "aaa"
    assert_eq!(cursors(&view), vec![(0, 2)]);
}

#[test]
fn submit_search_without_matches_clears_the_selection() {
    let buffer = Buffer::from_text(1, "abc");
    let mut view = View::new(10, 1, None);
    view.begin_search();
    view.push_search('z');
    view.submit_search(&buffer);
    assert_eq!(cursors(&view), vec![]);
}

#[test]
fn close_search_keeps_selection_and_mode_returns() {
    let mut view = View::new(10, 1, None);
    view.begin_search();
    view.push_search('q');
    view.close_search();
    assert!(matches!(view.context, Context::Buffer));
    assert_eq!(cursors(&view), vec![(0, 0)]);
}

#[test]
fn scrolls_clamp_at_their_edges() {
    let buffer = Buffer::from_text(1, "a\nb\nc\nd");
    let mut view = View::new(10, 1, None);
    view.scroll_down(&buffer, 10);
    // stops two lines before the end
    assert_eq!(view.position.y, 2);
    view.scroll_up(1);
    assert_eq!(view.position.y, 1);
    view.scroll_up(5);
    assert_eq!(view.position.y, 0);
    view.scroll_right(4);
    assert_eq!(view.position.x, 4);
    view.scroll_left(9);
    assert_eq!(view.position.x, 0);
}

#[test]
fn save_pairs_path_with_content() {
    let buffer = Buffer::from_text(1, "body");
    let named = View::new(
        10,
        1,
        Some(ftg::path::Path::new("/tmp/doc.txt".to_string(), false)),
    );
    let s = named.save(&buffer).unwrap();
    assert_eq!(s.path, "/tmp/doc.txt");
    assert_eq!(s.content, "body");

    let untitled = View::new(11, 1, None);
    assert!(untitled.save(&buffer).is_none());
}
