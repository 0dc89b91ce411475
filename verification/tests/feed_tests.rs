use ftg::editor::{Editor, FileSource};
use ftg::keymap::{Command, Context, InputEvent, KeyBinding, KeyCode, KeyInput};
use ftg::path::Path;
use ftg::window::WindowArgs;

fn key_input(code: KeyCode, ctrl: bool) -> InputEvent {
    InputEvent::Key(KeyInput { code, ctrl, shift: false, alt: false })
}

fn bindings() -> Vec<KeyBinding> {
    vec![
        KeyBinding {
            events: vec![key_input(KeyCode::Tab, false)],
            command: Command::NextView,
            contexts: vec![Context::Buffer],
        },
        KeyBinding {
            events: vec![key_input(KeyCode::Backspace, false)],
            command: Command::PreviousView,
            contexts: vec![Context::Buffer],
        },
        KeyBinding {
            events: vec![key_input(KeyCode::Down, false)],
            command: Command::ScrollDown { count: 2 },
            contexts: vec![Context::Buffer],
        },
        KeyBinding {
            events: vec![key_input(KeyCode::Up, false)],
            command: Command::ScrollUp { count: 1 },
            contexts: vec![Context::Buffer],
        },
        KeyBinding {
            events: vec![key_input(KeyCode::Char('f'), true)],
            command: Command::Search,
            contexts: vec![Context::Buffer],
        },
        KeyBinding {
            events: vec![key_input(KeyCode::Esc, false)],
            command: Command::Close,
            contexts: vec![Context::Search],
        },
    ]
}

fn two_file_window(editor: &mut Editor) -> u128 {
    let args = WindowArgs::new(
        (80, 24),
        vec![
            Path::new("/tmp/one.txt".to_string(), false),
            Path::new("/tmp/two.txt".to_string(), false),
        ],
    );
    let files = vec![
        Some(FileSource { id: 1, text: "first".to_string() }),
        Some(FileSource { id: 2, text: "second".to_string() }),
    ];
    editor.new_window(args, files)
}

#[test]
fn next_view_switches_the_rendered_buffer() {
    let mut editor = Editor::new(bindings());
    let wid = two_file_window(&mut editor);
    let frame = editor.render(wid).unwrap();
    assert_eq!(frame.title, "/tmp/one.txt");
    assert_eq!(frame.tab_bar.tabs.len(), 2);
    assert!(frame.tab_bar.tabs[0].active);

    editor.feed(wid, key_input(KeyCode::Tab, false)).unwrap();
    let frame = editor.render(wid).unwrap();
    assert_eq!(frame.title, "/tmp/two.txt");
    assert!(frame.tab_bar.tabs[1].active);

    // cycling once more wraps back to the first view
    editor.feed(wid, key_input(KeyCode::Tab, false)).unwrap();
    let frame = editor.render(wid).unwrap();
    assert_eq!(frame.title, "/tmp/one.txt");
}

#[test]
fn previous_view_wraps_backwards() {
    let mut editor = Editor::new(bindings());
    let wid = two_file_window(&mut editor);
    editor.feed(wid, key_input(KeyCode::Backspace, false)).unwrap();
    let frame = editor.render(wid).unwrap();
    assert_eq!(frame.title, "/tmp/two.txt");
}

fn top_row(editor: &Editor, wid: u128) -> String {
    let frame = editor.render(wid).unwrap();
    frame.rows[0].spans.iter().flat_map(|s| s.text.iter()).collect()
}

#[test]
fn scroll_commands_move_the_viewport() {
    let mut editor = Editor::new(bindings());
    let args = WindowArgs::new((80, 3), vec![Path::new("/tmp/many.txt".to_string(), false)]);
    let files = vec![Some(FileSource { id: 5, text: "a\nb\nc\nd\ne\nf".to_string() })];
    let wid = editor.new_window(args, files);

    assert_eq!(top_row(&editor, wid), "a\n");

    editor.feed(wid, key_input(KeyCode::Down, false)).unwrap();
    assert_eq!(top_row(&editor, wid), "c\n");

    editor.feed(wid, key_input(KeyCode::Up, false)).unwrap();
    assert_eq!(top_row(&editor, wid), "b\n");
}

#[test]
fn mouse_scroll_falls_through_without_a_binding() {
    let mut editor = Editor::new(bindings());
    let args = WindowArgs::new((80, 3), vec![Path::new("/tmp/many.txt".to_string(), false)]);
    let files = vec![Some(FileSource { id: 5, text: "a\nb\nc\nd\ne\nf".to_string() })];
    let wid = editor.new_window(args, files);

    editor.feed(wid, InputEvent::ScrollDown).unwrap();
    assert_eq!(top_row(&editor, wid), "b\n");
}

#[test]
fn close_leaves_search_mode_without_searching() {
    let mut editor = Editor::new(bindings());
    let wid = two_file_window(&mut editor);
    editor.feed(wid, key_input(KeyCode::Char('f'), true)).unwrap();
    // in search-entry mode, typed characters accumulate instead of editing
    editor.feed(wid, key_input(KeyCode::Char('z'), false)).unwrap();
    editor.feed(wid, key_input(KeyCode::Esc, false)).unwrap();
    // back in editing mode, the buffer was never touched and typing edits again
    editor.feed(wid, key_input(KeyCode::Char('!'), false)).unwrap();
    let frame = editor.render(wid).unwrap();
    let row: String = frame.rows[0].spans.iter().flat_map(|s| s.text.iter()).collect();
    assert_eq!(row, "!first");
}

#[test]
fn search_commands_do_not_fire_in_the_wrong_context() {
    let mut editor = Editor::new(bindings());
    let wid = two_file_window(&mut editor);
    // Esc is bound only in search-entry mode; in editing mode it is ignored
    editor.feed(wid, key_input(KeyCode::Esc, false)).unwrap();
    let frame = editor.render(wid).unwrap();
    assert_eq!(frame.title, "/tmp/one.txt");
}

#[test]
fn directories_title_the_project_and_open_no_view() {
    let mut editor = Editor::new(bindings());
    let args = WindowArgs::new(
        (80, 24),
        vec![
            Path::new("/srv/projects/alpha".to_string(), true),
            Path::new("/tmp/one.txt".to_string(), false),
        ],
    );
    let files = vec![None, Some(FileSource { id: 1, text: "first".to_string() })];
    let wid = editor.new_window(args, files);
    let frame = editor.render(wid).unwrap();
    // the directory contributes no tab; only the file is shown
    assert_eq!(frame.tab_bar.tabs.len(), 1);
    assert_eq!(frame.title, "/tmp/one.txt");
}
