use ftg::keymap::{Command, Context, InputEvent, KeyBinding, KeyCode, KeyInput, Keymap};

fn key(code: KeyCode, ctrl: bool, shift: bool, alt: bool) -> KeyInput {
    KeyInput { code, ctrl, shift, alt }
}

#[test]
fn bound_key_resolves_in_its_context() {
    let k = key(KeyCode::Char('q'), true, false, false);
    let map = Keymap::new(vec![KeyBinding {
        events: vec![InputEvent::Key(k)],
        command: Command::Quit,
        contexts: vec![Context::Buffer],
    }]);
    assert_eq!(map.get(Context::Buffer, &InputEvent::Key(k)), Some(Command::Quit));
    assert_eq!(map.get(Context::Search, &InputEvent::Key(k)), None);
}

#[test]
fn modifiers_distinguish_bindings() {
    let plain = key(KeyCode::Char('s'), false, false, false);
    let ctrl = key(KeyCode::Char('s'), true, false, false);
    let map = Keymap::new(vec![KeyBinding {
        events: vec![InputEvent::Key(ctrl)],
        command: Command::Save,
        contexts: vec![Context::Buffer],
    }]);
    assert_eq!(map.get(Context::Buffer, &InputEvent::Key(ctrl)), Some(Command::Save));
    assert_eq!(map.get(Context::Buffer, &InputEvent::Key(plain)), None);
}

#[test]
fn later_bindings_shadow_earlier_ones() {
    let k = key(KeyCode::Esc, false, false, false);
    let map = Keymap::new(vec![
        KeyBinding {
            events: vec![InputEvent::Key(k)],
            command: Command::Quit,
            contexts: vec![Context::Search],
        },
        KeyBinding {
            events: vec![InputEvent::Key(k)],
            command: Command::Close,
            contexts: vec![Context::Search],
        },
    ]);
    assert_eq!(map.get(Context::Search, &InputEvent::Key(k)), Some(Command::Close));
}

#[test]
fn multi_key_bindings_never_fire() {
    let a = key(KeyCode::Char('a'), false, false, false);
    let b = key(KeyCode::Char('b'), false, false, false);
    let map = Keymap::new(vec![KeyBinding {
        events: vec![InputEvent::Key(a), InputEvent::Key(b)],
        command: Command::Quit,
        contexts: vec![Context::Buffer],
    }]);
    assert_eq!(map.get(Context::Buffer, &InputEvent::Key(a)), None);
    assert_eq!(map.get(Context::Buffer, &InputEvent::Key(b)), None);
}

#[test]
fn non_key_events_resolve_to_nothing() {
    let map = Keymap::new(vec![]);
    assert_eq!(map.get(Context::Buffer, &InputEvent::Resize(80, 24)), None);
    assert_eq!(map.get(Context::Buffer, &InputEvent::ScrollUp), None);
}

#[test]
fn named_keys_and_characters_do_not_collide() {
    let esc = key(KeyCode::Esc, false, false, false);
    let map = Keymap::new(vec![KeyBinding {
        events: vec![InputEvent::Key(esc)],
        command: Command::Close,
        contexts: vec![Context::Search],
    }]);
    // no character key resolves to the Esc binding
    let c = key(KeyCode::Char('\u{1b}'), false, false, false);
    assert_eq!(map.get(Context::Search, &InputEvent::Key(c)), None);
    assert_eq!(map.get(Context::Search, &InputEvent::Key(esc)), Some(Command::Close));
}

#[test]
fn commands_with_arguments_round_trip() {
    let k = key(KeyCode::Down, false, false, false);
    let map = Keymap::new(vec![KeyBinding {
        events: vec![InputEvent::Key(k)],
        command: Command::ScrollDown { count: 3 },
        contexts: vec![Context::Buffer],
    }]);
    assert_eq!(
        map.get(Context::Buffer, &InputEvent::Key(k)),
        Some(Command::ScrollDown { count: 3 })
    );
}
