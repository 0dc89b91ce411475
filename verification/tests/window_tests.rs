use ftg::project::Project;
use ftg::view::View;
use ftg::window::{Window, WindowArgs};

fn window_with_views(n: usize) -> Window {
    let mut views = Vec::new();
    for i in 0..n {
        views.push(View::new(i as u128, 100 + i as u128, None));
    }
    Window::new(1, Project::new(), views, (80, 24))
}

#[test]
fn next_view_cycles_back_after_view_count_steps() {
    let mut w = window_with_views(3);
    assert_eq!(w.active_view_index, 0);
    let start = w.active_view_index;
    for _ in 0..3 {
        w.next_view();
    }
    assert_eq!(w.active_view_index, start);
}

#[test]
fn next_view_cycles_from_any_start() {
    let mut w = window_with_views(4);
    w.next_view();
    let start = w.active_view_index;
    assert_eq!(start, 1);
    for _ in 0..4 {
        w.next_view();
    }
    assert_eq!(w.active_view_index, start);
}

#[test]
fn previous_view_wraps_before_the_first() {
    let mut w = window_with_views(3);
    w.previous_view();
    assert_eq!(w.active_view_index, 2);
    w.previous_view();
    assert_eq!(w.active_view_index, 1);
}

#[test]
fn previous_undoes_next() {
    let mut w = window_with_views(5);
    w.next_view();
    w.next_view();
    let here = w.active_view_index;
    w.next_view();
    w.previous_view();
    assert_eq!(w.active_view_index, here);
}

#[test]
fn single_view_window_cycles_in_place() {
    let mut w = window_with_views(1);
    w.next_view();
    assert_eq!(w.active_view_index, 0);
    w.previous_view();
    assert_eq!(w.active_view_index, 0);
}

#[test]
fn resize_records_the_new_size() {
    let mut w = window_with_views(2);
    w.resize(120, 40);
    assert_eq!(w.size, (120, 40));
}

#[test]
fn active_view_returns_the_indexed_view() {
    let mut w = window_with_views(3);
    w.next_view();
    assert_eq!(w.active_view().id, 1);
}

#[test]
fn window_args_carry_shape_and_paths() {
    let args = WindowArgs::new(
        (80, 24),
        vec![ftg::path::Path::new("/a".to_string(), true)],
    );
    assert_eq!(*args.terminal_shape(), (80, 24));
    let paths = args.into_paths();
    assert_eq!(paths.len(), 1);
    assert_eq!(paths[0].as_str(), "/a");
    assert!(paths[0].is_dir());
}
