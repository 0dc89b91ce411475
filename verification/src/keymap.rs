use vstd::prelude::*;
use std::collections::HashMap;

verus! {

broadcast use vstd::std_specs::hash::group_hash_axioms;

/// A view's interaction mode; it scopes which bindings apply.
#[derive(Clone, Copy, Debug, PartialEq, Eq, Structural)]
pub enum Context {
    Buffer,
    Search,
}

/// The non-modifier part of a key press.
#[derive(Clone, Copy, Debug, PartialEq, Eq, Structural)]
pub enum KeyCode {
    Backspace,
    Enter,
    Left,
    Right,
    Up,
    Down,
    Home,
    Tab,
    Delete,
    Esc,
    Char(char),
}

/// One key press: a key code with its modifiers.
#[derive(Clone, Copy, Debug, PartialEq, Eq, Structural)]
pub struct KeyInput {
    pub code: KeyCode,
    pub ctrl: bool,
    pub shift: bool,
    pub alt: bool,
}

/// One decoded terminal input event.
#[derive(Clone, Copy, Debug, PartialEq, Eq, Structural)]
pub enum InputEvent {
    Key(KeyInput),
    ScrollUp,
    ScrollDown,
    ScrollLeft,
    ScrollRight,
    Resize(u16, u16),
}

/// The closed set of commands bindings can resolve to.
#[derive(Clone, Copy, Debug, PartialEq, Eq, Structural)]
pub enum Command {
    Close,
    MoveBackward,
    MoveDown,
    MoveForward,
    MoveUp,
    NextView,
    PreviousView,
    Quit,
    Save,
    ScrollDown { count: usize },
    ScrollLeft { count: usize },
    ScrollRight { count: usize },
    ScrollUp { count: usize },
    Search,
    Submit,
}

/// A canonical number for a key code: the character's code point, or a value
/// past every code point for the named keys.
pub open spec fn code_value(c: KeyCode) -> int {
    match c {
        KeyCode::Char(ch) => ch as int,
        KeyCode::Backspace => 0x110000,
        KeyCode::Enter => 0x110001,
        KeyCode::Left => 0x110002,
        KeyCode::Right => 0x110003,
        KeyCode::Up => 0x110004,
        KeyCode::Down => 0x110005,
        KeyCode::Home => 0x110006,
        KeyCode::Tab => 0x110007,
        KeyCode::Delete => 0x110008,
        KeyCode::Esc => 0x110009,
    }
}

/// The canonical table key of a (context, key press) pair: modifiers and
/// context in the high bits, the code value in the low ones.  Unlike a hash,
/// this encoding is injective, so distinct pairs never collide.
pub open spec fn key_value(k: KeyInput, ctx: Context) -> int {
    let mods = (if k.ctrl {
        4int
    } else {
        0int
    }) + (if k.shift {
        2int
    } else {
        0int
    }) + (if k.alt {
        1int
    } else {
        0int
    });
    let ctx_n = if ctx is Buffer {
        0int
    } else {
        1int
    };
    (ctx_n * 8 + mods) * 0x200000 + code_value(k.code)
}

/// The canonical key fits in a `u64` and decodes uniquely: equal keys mean
/// equal (context, key press) pairs.
pub proof fn lemma_key_value_injective(k1: KeyInput, ctx1: Context, k2: KeyInput, ctx2: Context)
    requires
        key_value(k1, ctx1) == key_value(k2, ctx2),
    ensures
        k1 == k2,
        ctx1 == ctx2,
{
    assert(0 <= code_value(k1.code) < 0x200000);
    assert(0 <= code_value(k2.code) < 0x200000);
    assert(code_value(k1.code) == code_value(k2.code)) by (nonlinear_arith)
        requires
            key_value(k1, ctx1) == key_value(k2, ctx2),
            0 <= code_value(k1.code) < 0x200000,
            0 <= code_value(k2.code) < 0x200000,
    {
    }
    if k1.code is Char && k2.code is Char {
        assert(k1.code->Char_0 as int == k2.code->Char_0 as int);
        assert(k1.code->Char_0 == k2.code->Char_0);
    }
}

fn code_value_exec(c: KeyCode) -> (r: u64)
    ensures
        r == code_value(c),
{
    match c {
        KeyCode::Char(ch) => ch as u64,
        KeyCode::Backspace => 0x110000,
        KeyCode::Enter => 0x110001,
        KeyCode::Left => 0x110002,
        KeyCode::Right => 0x110003,
        KeyCode::Up => 0x110004,
        KeyCode::Down => 0x110005,
        KeyCode::Home => 0x110006,
        KeyCode::Tab => 0x110007,
        KeyCode::Delete => 0x110008,
        KeyCode::Esc => 0x110009,
    }
}

fn key_value_exec(k: &KeyInput, ctx: Context) -> (r: u64)
    ensures
        r == key_value(*k, ctx),
{
    let mods: u64 = (if k.ctrl {
        4
    } else {
        0
    }) + (if k.shift {
        2
    } else {
        0
    }) + (if k.alt {
        1
    } else {
        0
    });
    let ctx_n: u64 = match ctx {
        Context::Buffer => 0,
        Context::Search => 1,
    };
    (ctx_n * 8 + mods) * 0x200000 + code_value_exec(k.code)
}

/// One configured binding: the event sequence it fires on, the command it
/// resolves to, and the contexts it applies in.
#[derive(Debug)]
pub struct KeyBinding {
    pub events: Vec<InputEvent>,
    pub command: Command,
    pub contexts: Vec<Context>,
}

/// The binding fires on exactly this (context, key press) pair.  Only
/// bindings of a single key event can ever fire, since resolution always
/// looks one event up.
pub open spec fn binding_matches(b: KeyBinding, ctx: Context, key: KeyInput) -> bool {
    &&& b.events@.len() == 1
    &&& b.events@[0] == InputEvent::Key(key)
    &&& b.contexts@.contains(ctx)
}

/// The command of the last binding in the list that fires on the pair.
pub open spec fn bindings_lookup(bs: Seq<KeyBinding>, ctx: Context, key: KeyInput) -> Option<
    Command,
>
    decreases bs.len(),
{
    if bs.len() == 0 {
        None
    } else if binding_matches(bs.last(), ctx, key) {
        Some(bs.last().command)
    } else {
        bindings_lookup(bs.drop_last(), ctx, key)
    }
}

/// Exact-match lookup table from canonicalized (context, key press) pairs to
/// commands.
pub struct Keymap {
    pub value: HashMap<u64, Command>,
}

impl Keymap {
    /// The command the table resolves the pair to, if any.
    pub open spec fn lookup(self, ctx: Context, ev: InputEvent) -> Option<Command> {
        match ev {
            InputEvent::Key(k) => if self.value@.contains_key(key_value(k, ctx) as u64) {
                Some(self.value@[key_value(k, ctx) as u64])
            } else {
                None
            },
            _ => None,
        }
    }

    /// Build the table from the configured bindings: later bindings shadow
    /// earlier ones for the same (context, key press) pair; bindings of more
    /// or fewer than one key event are dropped, since they can never fire.
    pub fn new(key_bindings: Vec<KeyBinding>) -> (r: Keymap)
        ensures
            forall|ctx: Context, key: KeyInput|
                #[trigger] r.lookup(ctx, InputEvent::Key(key)) == bindings_lookup(
                    key_bindings@,
                    ctx,
                    key,
                ),
    {
        let mut value: HashMap<u64, Command> = HashMap::new();
        let n: usize = key_bindings.len();
        let mut i: usize = 0;

        while i < n
            invariant
                i <= n == key_bindings@.len(),
                vstd::std_specs::hash::obeys_key_model::<u64>(),
                forall|ctx: Context, key: KeyInput|
                    #[trigger] map_lookup(value@, ctx, key) == bindings_lookup(
                        key_bindings@.subrange(0, i as int),
                        ctx,
                        key,
                    ),
            decreases n - i,
        {
            let b: &KeyBinding = &key_bindings[i];
            let ghost prefix = key_bindings@.subrange(0, i as int);
            if b.events.len() == 1 {
                if let InputEvent::Key(k) = b.events[0] {
                    let m: usize = b.contexts.len();
                    let mut j: usize = 0;
                    while j < m
                        invariant
                            j <= m == b.contexts@.len(),
                            b == key_bindings@[i as int],
                            i < n == key_bindings@.len(),
                            prefix == key_bindings@.subrange(0, i as int),
                            b.events@.len() == 1,
                            b.events@[0] == InputEvent::Key(k),
                            vstd::std_specs::hash::obeys_key_model::<u64>(),
                            forall|ctx: Context, key: KeyInput|
                                #[trigger] map_lookup(value@, ctx, key) == (if key == k
                                    && b.contexts@.subrange(0, j as int).contains(ctx) {
                                    Some(b.command)
                                } else {
                                    bindings_lookup(prefix, ctx, key)
                                }),
                        decreases m - j,
                    {
                        let ctx_j: Context = b.contexts[j];
                        let ghost old_map = value@;
                        let kv: u64 = key_value_exec(&k, ctx_j);
                        value.insert(kv, b.command);
                        proof {
                            assert forall|ctx: Context, key: KeyInput|
                                #[trigger] map_lookup(value@, ctx, key) == (if key == k
                                    && b.contexts@.subrange(0, j + 1).contains(ctx) {
                                    Some(b.command)
                                } else {
                                    bindings_lookup(prefix, ctx, key)
                                }) by {
                                if key_value(key, ctx) == key_value(k, ctx_j) {
                                    lemma_key_value_injective(key, ctx, k, ctx_j);
                                    assert(b.contexts@.subrange(0, j + 1)[j as int] == ctx_j);
                                } else {
                                    assert(map_lookup(value@, ctx, key) == map_lookup(
                                        old_map,
                                        ctx,
                                        key,
                                    ));
                                    if b.contexts@.subrange(0, j + 1).contains(ctx) && key == k
                                        && !b.contexts@.subrange(0, j as int).contains(ctx) {
                                        let jj = choose|jj: int|
                                            0 <= jj < j + 1 && (#[trigger] b.contexts@.subrange(
                                                0,
                                                j + 1,
                                            )[jj]) == ctx;
                                        assert(jj == j as int);
                                        assert(false);
                                    }
                                }
                            }
                        }
                        j = j + 1;
                    }
                    proof {
                        assert(b.contexts@.subrange(0, m as int) =~= b.contexts@);
                        lemma_lookup_extend(key_bindings@, i as int);
                    }
                } else {
                    proof {
                        lemma_lookup_extend_unmatched(key_bindings@, i as int);
                    }
                }
            } else {
                proof {
                    lemma_lookup_extend_unmatched(key_bindings@, i as int);
                }
            }
            i = i + 1;
        }
        let r = Keymap { value };
        proof {
            assert(key_bindings@.subrange(0, n as int) =~= key_bindings@);
            assert forall|ctx: Context, key: KeyInput|
                #[trigger] r.lookup(ctx, InputEvent::Key(key)) == bindings_lookup(
                    key_bindings@,
                    ctx,
                    key,
                ) by {
                assert(map_lookup(r.value@, ctx, key) == bindings_lookup(
                    key_bindings@.subrange(0, n as int),
                    ctx,
                    key,
                ));
            }
        }
        r
    }

    /// Resolve a (context, event) pair to its bound command, or `None` when
    /// no binding fires (non-key events never resolve through the table).
    pub fn get(&self, context: Context, event: &InputEvent) -> (r: Option<Command>)
        ensures
            r == self.lookup(context, *event),
    {
        match event {
            InputEvent::Key(k) => {
                let kv: u64 = key_value_exec(k, context);
                match self.value.get(&kv) {
                    Some(cmd) => Some(*cmd),
                    None => None,
                }
            },
            _ => None,
        }
    }
}

/// What a raw map holds for a (context, key press) pair.
pub open spec fn map_lookup(m: Map<u64, Command>, ctx: Context, key: KeyInput) -> Option<Command> {
    if m.contains_key(key_value(key, ctx) as u64) {
        Some(m[key_value(key, ctx) as u64])
    } else {
        None
    }
}

/// Appending a binding that can fire makes it shadow the earlier ones on the
/// pairs it fires on.
proof fn lemma_lookup_extend(bs: Seq<KeyBinding>, i: int)
    requires
        0 <= i < bs.len(),
    ensures
        forall|ctx: Context, key: KeyInput|
            #[trigger] bindings_lookup(bs.subrange(0, i + 1), ctx, key) == (if binding_matches(
                bs[i],
                ctx,
                key,
            ) {
                Some(bs[i].command)
            } else {
                bindings_lookup(bs.subrange(0, i), ctx, key)
            }),
{
    assert forall|ctx: Context, key: KeyInput|
        #[trigger] bindings_lookup(bs.subrange(0, i + 1), ctx, key) == (if binding_matches(
            bs[i],
            ctx,
            key,
        ) {
            Some(bs[i].command)
        } else {
            bindings_lookup(bs.subrange(0, i), ctx, key)
        }) by {
        assert(bs.subrange(0, i + 1).last() == bs[i]);
        assert(bs.subrange(0, i + 1).drop_last() =~= bs.subrange(0, i));
    }
}

/// Appending a binding that can never fire changes no lookup.
proof fn lemma_lookup_extend_unmatched(bs: Seq<KeyBinding>, i: int)
    requires
        0 <= i < bs.len(),
        forall|ctx: Context, key: KeyInput| !(#[trigger] binding_matches(bs[i], ctx, key)),
    ensures
        forall|ctx: Context, key: KeyInput|
            #[trigger] bindings_lookup(bs.subrange(0, i + 1), ctx, key) == bindings_lookup(
                bs.subrange(0, i),
                ctx,
                key,
            ),
{
    lemma_lookup_extend(bs, i);
}

} // verus!
