use ftg::editor::{Editor, FileSource};
use ftg::error::Error;
use ftg::keymap::{Command, Context, InputEvent, KeyBinding, KeyCode, KeyInput};
use ftg::path::Path;
use ftg::window::WindowArgs;

fn key(c: char) -> InputEvent {
    InputEvent::Key(KeyInput { code: KeyCode::Char(c), ctrl: false, shift: false, alt: false })
}

fn ctrl_key(c: char) -> InputEvent {
    InputEvent::Key(KeyInput { code: KeyCode::Char(c), ctrl: true, shift: false, alt: false })
}

fn binding(ev: InputEvent, command: Command, contexts: Vec<Context>) -> KeyBinding {
    KeyBinding { events: vec![ev], command, contexts }
}

fn test_bindings() -> Vec<KeyBinding> {
    vec![
        binding(ctrl_key('q'), Command::Quit, vec![Context::Buffer, Context::Search]),
        binding(ctrl_key('s'), Command::Save, vec![Context::Buffer]),
        binding(ctrl_key('f'), Command::Search, vec![Context::Buffer]),
        binding(
            InputEvent::Key(KeyInput {
                code: KeyCode::Enter,
                ctrl: false,
                shift: false,
                alt: false,
            }),
            Command::Submit,
            vec![Context::Search],
        ),
        binding(ctrl_key('n'), Command::NextView, vec![Context::Buffer]),
    ]
}

fn open_file(editor: &mut Editor, path: &str, id: u128, text: &str) -> u128 {
    let args = WindowArgs::new((80, 24), vec![Path::new(path.to_string(), false)]);
    let files = vec![Some(FileSource { id, text: text.to_string() })];
    editor.new_window(args, files)
}

#[test]
fn lookup_of_unregistered_window_fails_without_abort() {
    let mut editor = Editor::new(test_bindings());
    match editor.feed(424242, key('x')) {
        Err(Error::UnknownItem { container, id }) => {
            assert_eq!(container, "windows");
            assert_eq!(id, 424242);
        }
        _ => panic!("expected a lookup error"),
    }
    match editor.render(424242) {
        Err(Error::UnknownItem { container, id }) => {
            assert_eq!(container, "windows");
            assert_eq!(id, 424242);
        }
        _ => panic!("expected a lookup error"),
    }
}

#[test]
fn feed_inserts_plain_characters() {
    let mut editor = Editor::new(test_bindings());
    let wid = open_file(&mut editor, "/tmp/a.txt", 7, "ello");
    let out = editor.feed(wid, key('h')).unwrap();
    assert!(!out.quit);
    assert!(out.save.is_none());
    let out = editor.feed(wid, ctrl_key('s')).unwrap();
    let save = out.save.unwrap();
    assert_eq!(save.path, "/tmp/a.txt");
    assert_eq!(save.content, "hello");
}

#[test]
fn session_round_trip_insert_then_save() {
    // what a connected client does: open a window on a file, type one
    // character, save — the save request carries the updated contents
    let mut editor = Editor::new(test_bindings());
    let wid = open_file(&mut editor, "/home/user/notes.txt", 99, "abc");
    let out = editor.feed(wid, key('x')).unwrap();
    assert!(!out.quit);
    let out = editor.feed(wid, ctrl_key('s')).unwrap();
    assert!(!out.quit);
    let save = out.save.unwrap();
    assert_eq!(save.path, "/home/user/notes.txt");
    assert_eq!(save.content, "xabc");
}

#[test]
fn quit_command_ends_the_session() {
    let mut editor = Editor::new(test_bindings());
    let wid = open_file(&mut editor, "/tmp/a.txt", 7, "text");
    let out = editor.feed(wid, ctrl_key('q')).unwrap();
    assert!(out.quit);
}

#[test]
fn unmatched_input_is_ignored() {
    let mut editor = Editor::new(test_bindings());
    let wid = open_file(&mut editor, "/tmp/a.txt", 7, "text");
    // a ctrl chord with no binding resolves to nothing and is not inserted
    let out = editor.feed(wid, ctrl_key('z')).unwrap();
    assert!(!out.quit);
    let out = editor.feed(wid, ctrl_key('s')).unwrap();
    assert_eq!(out.save.unwrap().content, "text");
}

#[test]
fn search_submit_selects_matches() {
    let mut editor = Editor::new(test_bindings());
    let wid = open_file(&mut editor, "/tmp/a.txt", 7, "abcabc");
    editor.feed(wid, ctrl_key('f')).unwrap();
    editor.feed(wid, key('b')).unwrap();
    let enter = InputEvent::Key(KeyInput {
        code: KeyCode::Enter,
        ctrl: false,
        shift: false,
        alt: false,
    });
    editor.feed(wid, enter).unwrap();
    // back in editing mode, both occurrences of "b" are selected: the next
    // typed character lands at both, shifted by earlier insertions
    let out = editor.feed(wid, key('X')).unwrap();
    assert!(!out.quit);
    let out = editor.feed(wid, ctrl_key('s')).unwrap();
    assert_eq!(out.save.unwrap().content, "aXbcaXbc");
}

#[test]
fn buffers_are_shared_by_file_identity() {
    let mut editor = Editor::new(test_bindings());
    let w1 = open_file(&mut editor, "/tmp/a.txt", 7, "shared");
    editor.feed(w1, key('x')).unwrap();
    // a second window opening the same file identity sees the edited text,
    // not the text re-read from disk
    let w2 = open_file(&mut editor, "/tmp/hardlink.txt", 7, "shared");
    let out = editor.feed(w2, ctrl_key('s')).unwrap();
    assert_eq!(out.save.unwrap().content, "xshared");
}

#[test]
fn untitled_window_has_no_save_target() {
    let mut editor = Editor::new(test_bindings());
    let wid = editor.new_window(WindowArgs::new((80, 24), vec![]), vec![]);
    editor.feed(wid, key('a')).unwrap();
    let out = editor.feed(wid, ctrl_key('s')).unwrap();
    assert!(out.save.is_none());
}

#[test]
fn untitled_window_starts_empty() {
    let mut editor = Editor::new(test_bindings());
    let wid = editor.new_window(WindowArgs::new((80, 24), vec![]), vec![]);
    let frame = editor.render(wid).unwrap();
    assert_eq!(frame.title, "Untitled");
    assert_eq!(frame.rows.len(), 1);
    assert!(frame.rows[0].spans.is_empty());
}

#[test]
fn opened_file_shows_its_contents() {
    let mut editor = Editor::new(test_bindings());
    let wid = open_file(&mut editor, "/tmp/fresh.txt", 31, "fresh text");
    let out = editor.feed(wid, ctrl_key('s')).unwrap();
    assert_eq!(out.save.unwrap().content, "fresh text");
}

#[test]
fn resize_reaches_the_window() {
    let mut editor = Editor::new(test_bindings());
    let wid = open_file(&mut editor, "/tmp/a.txt", 7, "text");
    let out = editor.feed(wid, InputEvent::Resize(100, 50)).unwrap();
    assert!(!out.quit);
    let frame = editor.render(wid).unwrap();
    // more rows fit after the resize (one per line, capped by the height)
    assert_eq!(frame.rows.len(), 1);
}

#[test]
fn render_shows_title_and_content() {
    let mut editor = Editor::new(test_bindings());
    let wid = open_file(&mut editor, "/tmp/dir/file.txt", 7, "hi");
    let frame = editor.render(wid).unwrap();
    assert_eq!(frame.title, "/tmp/dir/file.txt");
    assert_eq!(frame.tab_bar.tabs.len(), 1);
    assert_eq!(frame.tab_bar.tabs[0].name, "file.txt");
    assert!(frame.tab_bar.tabs[0].active);
    assert_eq!(frame.rows.len(), 1);
    let row_text: String = frame.rows[0]
        .spans
        .iter()
        .flat_map(|s| s.text.iter())
        .collect();
    assert_eq!(row_text, "hi");
}
