use vstd::prelude::*;
use vstd::view::View as _;
use std::collections::HashMap;
use crate::buffer::{mint_id, Buffer};
use crate::error::Error;
use crate::keymap::{Command, Context, InputEvent, KeyBinding, Keymap};
use crate::path::Path;
use crate::project::Project;
use crate::region::clamp_shift;
use crate::render::{frame_matches, window_frame, Frame};
use crate::search::in_some_match;
use crate::view::{insert_targets, multi_insert, row_shift_spec, SaveFile, View};
use crate::window::{next_index, previous_index, Window, WindowArgs};

verus! {

broadcast use vstd::std_specs::hash::group_hash_axioms;

/// Anything a registry can own: it names itself by a stable id.
pub trait Identifiable: Sized {
    spec fn id_spec(&self) -> u128;

    fn id(&self) -> (r: u128)
        ensures
            r == self.id_spec(),
    ;
}

impl Identifiable for Buffer {
    open spec fn id_spec(&self) -> u128 {
        self.id
    }

    fn id(&self) -> (r: u128)
        ensures
            r == self.id_spec(),
    {
        self.id
    }
}

impl Identifiable for Window {
    open spec fn id_spec(&self) -> u128 {
        self.id
    }

    fn id(&self) -> (r: u128)
        ensures
            r == self.id_spec(),
    {
        self.id
    }
}

/// An owning, id-keyed registry.  Every access is an explicit, failable
/// lookup; an id not present yields a typed lookup error, never an abort.
pub struct Container<T> {
    pub name: String,
    pub values: HashMap<u128, T>,
}

impl<T: Identifiable> Container<T> {
    /// Every stored value sits under its own id.
    pub open spec fn wf(self) -> bool {
        forall|k: u128|
            self.values@.contains_key(k) ==> (#[trigger] self.values@[k]).id_spec() == k
    }

    pub fn new(name: String) -> (r: Container<T>)
        ensures
            r.wf(),
            r.name == name,
            r.values@ =~= Map::<u128, T>::empty(),
    {
        Container { name, values: HashMap::new() }
    }

    /// Store a value under its own id, replacing what was there.
    pub fn insert(&mut self, value: T)
        requires
            old(self).wf(),
        ensures
            final(self).wf(),
            final(self).name == old(self).name,
            final(self).values@ == old(self).values@.insert(value.id_spec(), value),
    {
        let id: u128 = value.id();
        self.values.insert(id, value);
    }

    pub fn contains(&self, id: u128) -> (r: bool)
        ensures
            r == self.values@.contains_key(id),
    {
        self.values.contains_key(&id)
    }

    /// Borrow the value under `id`, or fail with a lookup error naming this
    /// registry when no such id is stored.
    pub fn get(&self, id: u128) -> (r: Result<&T, Error>)
        ensures
            match r {
                Ok(v) => self.values@.contains_key(id) && *v == self.values@[id],
                Err(e) => {
                    &&& !self.values@.contains_key(id)
                    &&& e.is_unknown_item()
                    &&& e->UnknownItem_container == self.name
                    &&& e->UnknownItem_id == id
                },
            },
    {
        match self.values.get(&id) {
            Some(v) => Ok(v),
            None => Err(Error::UnknownItem { container: self.name.clone(), id }),
        }
    }

    /// Take the value under `id` out of the registry, or fail with a lookup
    /// error; the caller puts the (possibly updated) value back.
    pub fn take(&mut self, id: u128) -> (r: Result<T, Error>)
        requires
            old(self).wf(),
        ensures
            final(self).wf(),
            final(self).name == old(self).name,
            match r {
                Ok(v) => {
                    &&& old(self).values@.contains_key(id)
                    &&& v == old(self).values@[id]
                    &&& final(self).values@ == old(self).values@.remove(id)
                },
                Err(e) => {
                    &&& !old(self).values@.contains_key(id)
                    &&& e.is_unknown_item()
                    &&& e->UnknownItem_container == old(self).name
                    &&& e->UnknownItem_id == id
                    &&& final(self).values@ == old(self).values@
                },
            },
    {
        match self.values.remove(&id) {
            Some(v) => Ok(v),
            None => Err(Error::UnknownItem { container: self.name.clone(), id }),
        }
    }
}

/// The contents a non-directory path resolved to: the id derived from its
/// file identity and the text read from it.
#[derive(Debug)]
pub struct FileSource {
    pub id: u128,
    pub text: String,
}

/// What one feed asks the session to do afterwards: end the session, and/or
/// write a file out.
#[derive(Debug)]
pub struct FeedOutcome {
    pub quit: bool,
    pub save: Option<SaveFile>,
}

/// Number of non-directory paths.
pub open spec fn count_files(ps: Seq<Path>) -> int
    decreases ps.len(),
{
    if ps.len() == 0 {
        0
    } else {
        count_files(ps.drop_last()) + (if ps.last().dir {
            0int
        } else {
            1int
        })
    }
}

proof fn lemma_count_files_nonneg(ps: Seq<Path>)
    ensures
        count_files(ps) >= 0,
    decreases ps.len(),
{
    if ps.len() > 0 {
        lemma_count_files_nonneg(ps.drop_last());
    }
}

/// A path list with no file paths holds only directories.
proof fn lemma_count_files_zero(ps: Seq<Path>)
    requires
        count_files(ps) == 0,
    ensures
        forall|j: int| 0 <= j < ps.len() ==> (#[trigger] ps[j]).dir,
    decreases ps.len(),
{
    if ps.len() > 0 {
        lemma_count_files_nonneg(ps.drop_last());
        lemma_count_files_zero(ps.drop_last());
        assert forall|j: int| 0 <= j < ps.len() implies (#[trigger] ps[j]).dir by {
            if j < ps.len() - 1 {
                assert(ps.drop_last()[j] == ps[j]);
            }
        }
    }
}

/// The view opened for the non-directory path at index `k`: it sits at the
/// view index given by the number of non-directory paths before `k` (so
/// views come one per file path, in argument order), carries that path as
/// its header, and names the buffer of that path's file identity.
pub open spec fn view_for_path(
    paths: Seq<Path>,
    files: Seq<Option<FileSource>>,
    views: Seq<View>,
    k: int,
) -> bool {
    let j = count_files(paths.subrange(0, k));
    &&& 0 <= j < views.len()
    &&& views[j].header.filepath is Some
    &&& views[j].header.filepath->Some_0.text@ == paths[k].text@
    &&& !views[j].header.filepath->Some_0.dir
    &&& views[j].buffer_id == files[k]->Some_0.id
}

/// No earlier file path carries the same id as the one at index `k`, so the
/// source at `k` is the one that creates the id's buffer when the id is new.
#[verifier::opaque]
pub open spec fn first_source_for_id(
    paths: Seq<Path>,
    files: Seq<Option<FileSource>>,
    k: int,
) -> bool {
    forall|k2: int|
        0 <= k2 < k && !(#[trigger] paths[k2]).dir ==> files[k2]->Some_0.id != files[k]->Some_0.id
}

/// How opening paths changes the buffer registry: registered buffers stay
/// registered; a file id that was already open keeps its buffer unchanged
/// (shared by file identity); nothing but the handed-in file ids joins the
/// registry; and a file id seen for the first time gets a buffer holding the
/// text of the first source carrying it.
#[verifier::opaque]
pub open spec fn buffers_evolved(
    old_map: Map<u128, Buffer>,
    new_map: Map<u128, Buffer>,
    paths: Seq<Path>,
    files: Seq<Option<FileSource>>,
    upto: int,
) -> bool {
    &&& (forall|bid: u128|
        old_map.contains_key(bid) ==> #[trigger] new_map.contains_key(bid))
    &&& (forall|j: int|
        0 <= j < files.len() && !(#[trigger] paths[j]).dir && old_map.contains_key(
            files[j]->Some_0.id,
        ) ==> new_map[files[j]->Some_0.id] == old_map[files[j]->Some_0.id])
    &&& (forall|bid: u128|
        #[trigger] new_map.contains_key(bid) ==> old_map.contains_key(bid) || (exists|kk: int|
            0 <= kk < upto && !paths[kk].dir && (#[trigger] files[kk])->Some_0.id == bid))
    &&& (forall|kk: int|
        0 <= kk < upto && !(#[trigger] paths[kk]).dir && !old_map.contains_key(
            files[kk]->Some_0.id,
        ) && first_source_for_id(paths, files, kk) ==> new_map[files[kk]->Some_0.id].text()
            == files[kk]->Some_0.text@)
    &&& (forall|kk: int|
        0 <= kk < upto && !(#[trigger] paths[kk]).dir ==> new_map.contains_key(
            files[kk]->Some_0.id,
        ))
}

/// An unchanged registry satisfies the evolution predicate with nothing
/// processed yet.
proof fn lemma_buffers_evolved_refl(
    m: Map<u128, Buffer>,
    paths: Seq<Path>,
    files: Seq<Option<FileSource>>,
)
    ensures
        buffers_evolved(m, m, paths, files, 0),
{
    reveal(buffers_evolved);
}

/// Appending the view for the file path at `k` keeps every earlier path's
/// view in place and puts the new one at the next view index.
#[verifier::rlimit(100)]
proof fn lemma_view_for_path_extend(
    paths: Seq<Path>,
    files: Seq<Option<FileSource>>,
    views: Seq<View>,
    view: View,
    k: int,
)
    requires
        0 <= k < paths.len(),
        !paths[k].dir,
        views.len() == count_files(paths.subrange(0, k)) + 1,
        views[views.len() - 1] == view,
        forall|kk: int|
            0 <= kk < k && !(#[trigger] paths[kk]).dir ==> view_for_path(
                paths,
                files,
                views.drop_last(),
                kk,
            ),
        view.header.filepath is Some,
        view.header.filepath->Some_0.text@ == paths[k].text@,
        !view.header.filepath->Some_0.dir,
        view.buffer_id == files[k]->Some_0.id,
    ensures
        forall|kk: int|
            0 <= kk < k + 1 && !(#[trigger] paths[kk]).dir ==> view_for_path(
                paths,
                files,
                views,
                kk,
            ),
{
    lemma_count_files_nonneg(paths.subrange(0, k));
    assert forall|kk: int|
        0 <= kk < k + 1 && !(#[trigger] paths[kk]).dir implies view_for_path(
        paths,
        files,
        views,
        kk,
    ) by {
        if kk == k {
            assert(count_files(paths.subrange(0, kk)) == views.len() - 1);
        } else {
            assert(view_for_path(paths, files, views.drop_last(), kk));
            let j = count_files(paths.subrange(0, kk));
            assert(0 <= j < views.len() - 1);
            assert(views[j] == views.drop_last()[j]);
        }
    }
}

/// A directory path leaves the buffer registry as it was: the evolution
/// predicate extends over it unchanged.
proof fn lemma_buffers_evolved_skip(
    old_map: Map<u128, Buffer>,
    new_map: Map<u128, Buffer>,
    paths: Seq<Path>,
    files: Seq<Option<FileSource>>,
    k: int,
)
    requires
        buffers_evolved(old_map, new_map, paths, files, k),
        0 <= k < paths.len(),
        paths[k].dir,
    ensures
        buffers_evolved(old_map, new_map, paths, files, k + 1),
{
    reveal(buffers_evolved);
}

/// Processing the file path at `k` — reusing its buffer when the id is open,
/// creating one holding its text otherwise — extends the evolution
/// predicate by one path.
proof fn lemma_buffers_evolved_file(
    old_map: Map<u128, Buffer>,
    mid: Map<u128, Buffer>,
    new_map: Map<u128, Buffer>,
    paths: Seq<Path>,
    files: Seq<Option<FileSource>>,
    k: int,
)
    requires
        buffers_evolved(old_map, mid, paths, files, k),
        0 <= k < paths.len(),
        !paths[k].dir,
        files[k] is Some,
        new_map.contains_key(files[k]->Some_0.id),
        mid.contains_key(files[k]->Some_0.id) ==> new_map == mid,
        !mid.contains_key(files[k]->Some_0.id) ==> {
            &&& new_map == mid.insert(files[k]->Some_0.id, new_map[files[k]->Some_0.id])
            &&& new_map[files[k]->Some_0.id].text() == files[k]->Some_0.text@
        },
    ensures
        buffers_evolved(old_map, new_map, paths, files, k + 1),
{
    reveal(buffers_evolved);
    reveal(first_source_for_id);
    let id = files[k]->Some_0.id;
    assert forall|kk: int|
        0 <= kk < k + 1 && !(#[trigger] paths[kk]).dir && !old_map.contains_key(
            files[kk]->Some_0.id,
        ) && first_source_for_id(paths, files, kk) implies new_map[files[kk]->Some_0.id].text()
        == files[kk]->Some_0.text@ by {
        if kk < k {
            // the id at kk was registered when it was processed, so this
            // step cannot have created it anew
            assert(mid.contains_key(files[kk]->Some_0.id));
        } else {
            // no earlier path carries this id, so it was not registered and
            // this step created its buffer with this source's text
            if mid.contains_key(id) {
                let kp = choose|kp: int|
                    0 <= kp < k && !paths[kp].dir && (#[trigger] files[kp])->Some_0.id == id;
                assert(false);
            }
        }
    }
}

/// The event is a bare printable key press: a character with at most the
/// shift modifier (so unmatched plain text falls through to insertion).
pub open spec fn plain_char(ev: InputEvent) -> bool {
    &&& ev is Key
    &&& ev->Key_0.code is Char
    &&& !ev->Key_0.ctrl
    &&& !ev->Key_0.alt
}

pub open spec fn event_char(ev: InputEvent) -> char {
    ev->Key_0.code->Char_0
}

/// How one resolved input transforms the looked-up window and buffer and
/// what it asks of the session.  `w`/`b` are the states before, `w2`/`b2`
/// after; `resolved` is what the keymap made of the event in the active
/// view's context.
pub open spec fn feed_step(
    w: Window,
    b: Buffer,
    resolved: Option<Command>,
    ctx: Context,
    ev: InputEvent,
    w2: Window,
    b2: Buffer,
    out: FeedOutcome,
) -> bool {
    let idx = w.active_view_index as int;
    let v = w.views@[idx];
    let v2 = w2.views@[idx];
    let view_updated = {
        &&& w2.views@ =~= w.views@.update(idx, v2)
        &&& w2.id == w.id
        &&& w2.active_view_index == w.active_view_index
        &&& w2.size == w.size
        &&& w2.project == w.project
    };
    let quiet = !out.quit && out.save is None;
    match resolved {
        Some(cmd) => match cmd {
            Command::Quit => w2 == w && b2 == b && out.quit && out.save is None,
            Command::Save => if ctx is Buffer {
                &&& view_updated
                &&& v2 == v
                &&& b2 == b
                &&& !out.quit
                &&& (match out.save {
                    Some(s) => v.header.filepath is Some && s.path@
                        == v.header.filepath->Some_0.text@ && s.content@ == b.text(),
                    None => v.header.filepath is None,
                })
            } else {
                w2 == w && b2 == b && quiet
            },
            Command::NextView => if ctx is Buffer {
                &&& w2.active_view_index == next_index(idx, w.views@.len() as int)
                &&& w2 == (Window { active_view_index: w2.active_view_index, ..w })
                &&& b2 == b
                &&& quiet
            } else {
                w2 == w && b2 == b && quiet
            },
            Command::PreviousView => if ctx is Buffer {
                &&& w2.active_view_index == previous_index(idx, w.views@.len() as int)
                &&& w2 == (Window { active_view_index: w2.active_view_index, ..w })
                &&& b2 == b
                &&& quiet
            } else {
                w2 == w && b2 == b && quiet
            },
            Command::MoveBackward => if ctx is Buffer {
                &&& view_updated
                &&& v2.wf() && v2.same_except_selection(v)
                &&& (forall|o: int|
                    v2.covers(o) <==> (exists|k: int|
                        0 <= k < v.primary().len() && (#[trigger] v.primary()[k]).translate_spec(
                            -1,
                        ).covers(o)))
                &&& b2 == b
                &&& quiet
            } else {
                w2 == w && b2 == b && quiet
            },
            Command::MoveForward => if ctx is Buffer {
                &&& view_updated
                &&& v2.wf() && v2.same_except_selection(v)
                &&& (forall|o: int|
                    v2.covers(o) <==> (exists|k: int|
                        0 <= k < v.primary().len() && (#[trigger] v.primary()[k]).translate_spec(
                            1,
                        ).covers(o)))
                &&& b2 == b
                &&& quiet
            } else {
                w2 == w && b2 == b && quiet
            },
            Command::MoveDown => if ctx is Buffer {
                &&& view_updated
                &&& v2.wf() && v2.same_except_selection(v)
                &&& (forall|o: int|
                    v2.covers(o) <==> (exists|k: int|
                        0 <= k < v.primary().len() && row_shift_spec(
                            b.text(),
                            #[trigger] v.primary()[k],
                            1,
                        ).covers(o)))
                &&& b2 == b
                &&& quiet
            } else {
                w2 == w && b2 == b && quiet
            },
            Command::MoveUp => if ctx is Buffer {
                &&& view_updated
                &&& v2.wf() && v2.same_except_selection(v)
                &&& (forall|o: int|
                    v2.covers(o) <==> (exists|k: int|
                        0 <= k < v.primary().len() && row_shift_spec(
                            b.text(),
                            #[trigger] v.primary()[k],
                            -1,
                        ).covers(o)))
                &&& b2 == b
                &&& quiet
            } else {
                w2 == w && b2 == b && quiet
            },
            Command::ScrollUp { count } => if ctx is Buffer {
                view_updated && scrolled_up(v, v2, count as int) && b2 == b && quiet
            } else {
                w2 == w && b2 == b && quiet
            },
            Command::ScrollDown { count } => if ctx is Buffer {
                view_updated && scrolled_down(v, v2, b.text(), count as int) && b2 == b && quiet
            } else {
                w2 == w && b2 == b && quiet
            },
            Command::ScrollLeft { count } => if ctx is Buffer {
                view_updated && scrolled_left(v, v2, count as int) && b2 == b && quiet
            } else {
                w2 == w && b2 == b && quiet
            },
            Command::ScrollRight { count } => if ctx is Buffer {
                view_updated && scrolled_right(v, v2, count as int) && b2 == b && quiet
            } else {
                w2 == w && b2 == b && quiet
            },
            Command::Search => if ctx is Buffer {
                view_updated && v2 == (View { context: Context::Search, ..v }) && b2 == b && quiet
            } else {
                w2 == w && b2 == b && quiet
            },
            Command::Submit => if ctx is Search {
                &&& view_updated
                &&& v2.wf()
                &&& v2.context is Buffer
                &&& v2.search.query@ =~= Seq::<char>::empty()
                &&& v2.id == v.id && v2.buffer_id == v.buffer_id && v2.position == v.position
                    && v2.header == v.header
                &&& (forall|o: int|
                    v2.covers(o) <==> in_some_match(b.text(), v.search.query@, o))
                &&& b2 == b
                &&& quiet
            } else {
                w2 == w && b2 == b && quiet
            },
            Command::Close => if ctx is Search {
                view_updated && v2 == (View { context: Context::Buffer, ..v }) && b2 == b && quiet
            } else {
                w2 == w && b2 == b && quiet
            },
        },
        None => if ev is Resize {
            &&& w2 == (Window { size: (ev->Resize_0, ev->Resize_1), ..w })
            &&& b2 == b
            &&& quiet
        } else if ev is ScrollUp {
            view_updated && scrolled_up(v, v2, 1) && b2 == b && quiet
        } else if ev is ScrollDown {
            view_updated && scrolled_down(v, v2, b.text(), 1) && b2 == b && quiet
        } else if ev is ScrollLeft {
            view_updated && scrolled_left(v, v2, 1) && b2 == b && quiet
        } else if ev is ScrollRight {
            view_updated && scrolled_right(v, v2, 1) && b2 == b && quiet
        } else if plain_char(ev) && ctx is Buffer {
            &&& view_updated
            &&& v2.wf() && v2.same_except_selection(v)
            &&& b2.id == b.id
            &&& b2.text() == multi_insert(b.text(), insert_targets(v.primary()), event_char(ev))
            &&& (forall|o: int|
                v2.covers(o) <==> (exists|k: int|
                    0 <= k < v.primary().len() && o == clamp_shift(
                        #[trigger] insert_targets(v.primary())[k],
                        1,
                    )))
            &&& quiet
        } else if plain_char(ev) && ctx is Search {
            &&& view_updated
            &&& v2 == (View { search: v2.search, ..v })
            &&& v2.search.query@ == v.search.query@.push(event_char(ev))
            &&& b2 == b
            &&& quiet
        } else {
            w2 == w && b2 == b && quiet
        },
    }
}

/// The viewport after scrolling up by `count` rows.
pub open spec fn scrolled_up(v: View, v2: View, count: int) -> bool {
    &&& v2.position.y == (if v.position.y >= count {
        v.position.y - count
    } else {
        0
    })
    &&& v2.position.x == v.position.x
    &&& v2 == (View { position: v2.position, ..v })
}

/// The viewport after scrolling down by `count` rows, stopping so the last
/// line stays in reach.
pub open spec fn scrolled_down(v: View, v2: View, t: Seq<char>, count: int) -> bool {
    let max_y = if crate::text::line_count(t) >= 2 {
        crate::text::line_count(t) - 2
    } else {
        0
    };
    let shifted = clamp_shift(v.position.y as int, count);
    &&& v2.position.y == (if shifted <= max_y {
        shifted
    } else {
        max_y
    })
    &&& v2.position.x == v.position.x
    &&& v2 == (View { position: v2.position, ..v })
}

/// The viewport after scrolling left by `count` columns.
pub open spec fn scrolled_left(v: View, v2: View, count: int) -> bool {
    &&& v2.position.x == (if v.position.x >= count {
        v.position.x - count
    } else {
        0
    })
    &&& v2.position.y == v.position.y
    &&& v2 == (View { position: v2.position, ..v })
}

/// The viewport after scrolling right by `count` columns.
pub open spec fn scrolled_right(v: View, v2: View, count: int) -> bool {
    &&& v2.position.x == clamp_shift(v.position.x as int, count)
    &&& v2.position.y == v.position.y
    &&& v2 == (View { position: v2.position, ..v })
}

/// The editing state one server process owns: the buffer and window
/// registries and the key binding table.  Input events and render requests
/// reach it only through `feed` and `render`.
pub struct Editor {
    pub buffers: Container<Buffer>,
    pub windows: Container<Window>,
    pub keymap: Keymap,
}

impl Editor {
    pub open spec fn wf(self) -> bool {
        &&& self.buffers.wf()
        &&& self.windows.wf()
        &&& forall|k: u128|
            self.windows.values@.contains_key(k) ==> (#[trigger] self.windows.values@[k]).wf()
    }

    /// Fresh editor with no buffers and no windows, resolving inputs through
    /// the given bindings.
    pub fn new(key_bindings: Vec<KeyBinding>) -> (r: Editor)
        ensures
            r.wf(),
            r.buffers.name@ == "buffers"@,
            r.windows.name@ == "windows"@,
            r.buffers.values@ =~= Map::<u128, Buffer>::empty(),
            r.windows.values@ =~= Map::<u128, Window>::empty(),
            forall|ctx: Context, key: crate::keymap::KeyInput|
                #[trigger] r.keymap.lookup(ctx, InputEvent::Key(key))
                    == crate::keymap::bindings_lookup(key_bindings@, ctx, key),
    {
        Editor {
            buffers: Container::new(String::from_str("buffers")),
            windows: Container::new(String::from_str("windows")),
            keymap: Keymap::new(key_bindings),
        }
    }

    /// Make sure a buffer for the given file identity exists: an id already
    /// open keeps its buffer (two paths naming one file share state), a new
    /// id gets a buffer holding the file's text.
    fn ensure_buffer(&mut self, id: u128, text: &str)
        requires
            old(self).wf(),
        ensures
            final(self).wf(),
            final(self).windows == old(self).windows,
            final(self).keymap == old(self).keymap,
            final(self).buffers.name == old(self).buffers.name,
            final(self).buffers.values@.contains_key(id),
            old(self).buffers.values@.contains_key(id)
                ==> final(self).buffers.values@ == old(self).buffers.values@,
            !old(self).buffers.values@.contains_key(id) ==> {
                &&& final(self).buffers.values@ == old(self).buffers.values@.insert(
                    id,
                    final(self).buffers.values@[id],
                )
                &&& final(self).buffers.values@[id].id == id
                &&& final(self).buffers.values@[id].text() == text@
            },
    {
        if !self.buffers.contains(id) {
            self.buffers.insert(Buffer::from_text(id, text));
        }
    }

    /// Walk the requested paths: directories join the project, every other
    /// path gets a buffer (shared by file identity) and a fresh view, in
    /// argument order.
    #[verifier::loop_isolation(false)]
    #[verifier::rlimit(100)]
    fn new_window_helper(&mut self, paths: Vec<Path>, files: &Vec<Option<FileSource>>) -> (r: (
        Project,
        Vec<View>,
    ))
        requires
            old(self).wf(),
            files@.len() == paths@.len(),
            forall|k: int|
                0 <= k < paths@.len() && !(#[trigger] paths@[k]).dir ==> files@[k] is Some,
        ensures
            final(self).wf(),
            final(self).keymap == old(self).keymap,
            final(self).windows == old(self).windows,
            final(self).buffers.name == old(self).buffers.name,
            ({
                let views = r.1;
                &&& views@.len() == count_files(paths@)
                &&& (forall|j: int|
                    0 <= j < views@.len() ==> final(self).buffers.values@.contains_key(
                        (#[trigger] views@[j]).buffer_id,
                    ))
                &&& (forall|j: int|
                    0 <= j < views@.len() ==> (#[trigger] views@[j]).wf() && views@[j].context
                        is Buffer && views@[j].position.x == 0 && views@[j].position.y == 0)
                &&& (forall|k: int|
                    0 <= k < paths@.len() && !(#[trigger] paths@[k]).dir ==> view_for_path(
                        paths@,
                        files@,
                        views@,
                        k,
                    ))
            }),
            buffers_evolved(
                old(self).buffers.values@,
                final(self).buffers.values@,
                paths@,
                files@,
                paths@.len() as int,
            ),
            count_files(paths@) == 0 ==> final(self).buffers.values@ == old(
                self,
            ).buffers.values@,
    {
        proof {
            lemma_buffers_evolved_refl(old(self).buffers.values@, paths@, files@);
        }
        let mut project: Project = Project::new();
        let mut views: Vec<View> = Vec::new();
        let n: usize = paths.len();
        let mut k: usize = 0;

        while k < n
            invariant
                k <= n == paths@.len(),
                self.wf(),
                self.keymap == old(self).keymap,
                self.windows == old(self).windows,
                self.buffers.name == old(self).buffers.name,
                views@.len() == count_files(paths@.subrange(0, k as int)),
                views@.len() == 0 ==> self.buffers.values@ == old(self).buffers.values@,
                forall|j: int|
                    0 <= j < views@.len() ==> self.buffers.values@.contains_key(
                        (#[trigger] views@[j]).buffer_id,
                    ),
                forall|j: int|
                    0 <= j < views@.len() ==> (#[trigger] views@[j]).wf() && views@[j].context
                        is Buffer && views@[j].position.x == 0 && views@[j].position.y == 0,
                forall|kk: int|
                    0 <= kk < k && !(#[trigger] paths@[kk]).dir ==> view_for_path(
                        paths@,
                        files@,
                        views@,
                        kk,
                    ),
                buffers_evolved(
                    old(self).buffers.values@,
                    self.buffers.values@,
                    paths@,
                    files@,
                    k as int,
                ),
            decreases n - k,
        {
            proof {
                assert(paths@.subrange(0, k + 1).drop_last() =~= paths@.subrange(0, k as int));
            }
            let path: &Path = &paths[k];
            if path.is_dir() {
                let owned = Path::new(String::from_str(path.as_str()), true);
                project.add_dirpath(owned);
                proof {
                    lemma_buffers_evolved_skip(
                        old(self).buffers.values@,
                        self.buffers.values@,
                        paths@,
                        files@,
                        k as int,
                    );
                }
            } else {
                let src: &FileSource = files[k].as_ref().unwrap();
                let ghost mid = self.buffers.values@;
                self.ensure_buffer(src.id, src.text.as_str());
                proof {
                    lemma_buffers_evolved_file(
                        old(self).buffers.values@,
                        mid,
                        self.buffers.values@,
                        paths@,
                        files@,
                        k as int,
                    );
                }
                let vid: u128 = mint_id();
                let owned = Path::new(String::from_str(path.as_str()), false);
                let view = View::new(vid, src.id, Some(owned));
                let ghost pre_views = views@;
                views.push(view);
                proof {
                    assert(views@.drop_last() =~= pre_views);
                    lemma_view_for_path_extend(paths@, files@, views@, view, k as int);
                }
            }
            k += 1;
        }
        proof {
            assert(paths@.subrange(0, n as int) =~= paths@);
        }
        (project, views)
    }

    /// Open a window: one view per non-directory path, in argument order
    /// (directories join the window's project), sharing buffers by file
    /// identity; with no file to show, one untitled view over a fresh empty
    /// buffer.  Returns the new window's id, under which the window is
    /// registered.
    pub fn new_window(&mut self, args: WindowArgs, files: Vec<Option<FileSource>>) -> (r: u128)
        requires
            old(self).wf(),
            files@.len() == args.paths@.len(),
            forall|k: int|
                0 <= k < args.paths@.len() && !(#[trigger] args.paths@[k]).dir ==> files@[k] is Some,
        ensures
            final(self).wf(),
            final(self).keymap == old(self).keymap,
            final(self).windows.values@ == old(self).windows.values@.insert(
                r,
                final(self).windows.values@[r],
            ),
            ({
                let w = final(self).windows.values@[r];
                &&& w.wf()
                &&& w.id == r
                &&& w.size == args.terminal_shape
                &&& w.active_view_index == 0
                &&& w.views@.len() == (if count_files(args.paths@) == 0 {
                    1int
                } else {
                    count_files(args.paths@)
                })
                &&& (forall|j: int|
                    0 <= j < w.views@.len() ==> final(self).buffers.values@.contains_key(
                        (#[trigger] w.views@[j]).buffer_id,
                    ))
                &&& (forall|j: int|
                    0 <= j < w.views@.len() ==> (#[trigger] w.views@[j]).context is Buffer
                        && w.views@[j].position.x == 0 && w.views@[j].position.y == 0)
                &&& (forall|k: int|
                    0 <= k < args.paths@.len() && !(#[trigger] args.paths@[k]).dir ==> files@[k]
                        is Some && view_for_path(args.paths@, files@, w.views@, k))
                &&& (count_files(args.paths@) == 0 ==> {
                    &&& w.views@[0].header.filepath is None
                    &&& final(self).buffers.values@ == old(self).buffers.values@.insert(
                        w.views@[0].buffer_id,
                        final(self).buffers.values@[w.views@[0].buffer_id],
                    )
                    &&& final(self).buffers.values@[w.views@[0].buffer_id].text()
                        =~= Seq::<char>::empty()
                })
            }),
            count_files(args.paths@) > 0 ==> buffers_evolved(
                old(self).buffers.values@,
                final(self).buffers.values@,
                args.paths@,
                files@,
                args.paths@.len() as int,
            ),
    {
        let terminal_shape: (u16, u16) = args.terminal_shape;
        let ghost arg_paths = args.paths@;
        let paths: Vec<Path> = args.into_paths();
        let (project, mut views) = self.new_window_helper(paths, &files);

        if views.len() == 0 {
            proof {
                lemma_count_files_zero(arg_paths);
            }
            let bid: u128 = mint_id();
            self.buffers.insert(Buffer::new_empty(bid));
            let vid: u128 = mint_id();
            let view = View::new(vid, bid, None);
            views.push(view);
        }
        let wid: u128 = mint_id();
        let window = Window::new(wid, project, views, terminal_shape);
        self.windows.insert(window);
        wid
    }

    /// Assemble the frame the given window currently shows, or fail with a
    /// lookup error when the window id, or the buffer id its active view
    /// names, is not registered.
    pub fn render(&self, window_id: u128) -> (r: Result<Frame, Error>)
        requires
            self.wf(),
        ensures
            ({
                let has_window = self.windows.values@.contains_key(window_id);
                let w = self.windows.values@[window_id];
                let bid = w.views@[w.active_view_index as int].buffer_id;
                match r {
                    Ok(frame) => {
                        &&& has_window
                        &&& self.buffers.values@.contains_key(bid)
                        &&& frame_matches(frame, w, self.buffers.values@[bid])
                    },
                    Err(e) => {
                        &&& e.is_unknown_item()
                        &&& !has_window || !self.buffers.values@.contains_key(bid)
                        &&& e->UnknownItem_container == (if !has_window {
                            self.windows.name
                        } else {
                            self.buffers.name
                        })
                        &&& e->UnknownItem_id == (if !has_window {
                            window_id
                        } else {
                            bid
                        })
                    },
                }
            }),
    {
        let window: &Window = match self.windows.get(window_id) {
            Ok(w) => w,
            Err(e) => {
                return Err(e);
            },
        };
        let idx: usize = window.active_view_index;
        let bid: u128 = window.views[idx].buffer_id;
        let buffer: &Buffer = match self.buffers.get(bid) {
            Ok(b) => b,
            Err(e) => {
                return Err(e);
            },
        };
        Ok(window_frame(window, buffer))
    }

    /// Apply one input event to the window's active view: look the window,
    /// view and buffer up (failing with a lookup error if any is absent),
    /// resolve the event through the key bindings in the view's context, and
    /// perform the resolved command — or the raw fallback for plain text,
    /// scrolling and resizes.  Unmatched input is ignored.  Returns whether
    /// the session should end and what should be written out.
    #[verifier::rlimit(100)]
    pub fn feed(&mut self, window_id: u128, event: InputEvent) -> (r: Result<FeedOutcome, Error>)
        requires
            old(self).wf(),
        ensures
            final(self).wf(),
            final(self).keymap == old(self).keymap,
            final(self).buffers.name == old(self).buffers.name,
            final(self).windows.name == old(self).windows.name,
            ({
                let has_window = old(self).windows.values@.contains_key(window_id);
                let w = old(self).windows.values@[window_id];
                let bid = w.views@[w.active_view_index as int].buffer_id;
                let has_buffer = old(self).buffers.values@.contains_key(bid);
                match r {
                    Err(e) => {
                        &&& e.is_unknown_item()
                        &&& (!has_window || !has_buffer)
                        &&& e->UnknownItem_container == (if !has_window {
                            old(self).windows.name
                        } else {
                            old(self).buffers.name
                        })
                        &&& e->UnknownItem_id == (if !has_window {
                            window_id
                        } else {
                            bid
                        })
                        &&& final(self).windows.values@ == old(self).windows.values@
                        &&& final(self).buffers.values@ == old(self).buffers.values@
                    },
                    Ok(out) => {
                        &&& has_window
                        &&& has_buffer
                        &&& final(self).windows.values@ == old(self).windows.values@.insert(
                            window_id,
                            final(self).windows.values@[window_id],
                        )
                        &&& final(self).buffers.values@ == old(self).buffers.values@.insert(
                            bid,
                            final(self).buffers.values@[bid],
                        )
                        &&& feed_step(
                            w,
                            old(self).buffers.values@[bid],
                            old(self).keymap.lookup(
                                w.views@[w.active_view_index as int].context,
                                event,
                            ),
                            w.views@[w.active_view_index as int].context,
                            event,
                            final(self).windows.values@[window_id],
                            final(self).buffers.values@[bid],
                            out,
                        )
                    },
                }
            }),
    {
        let mut window: Window = match self.windows.take(window_id) {
            Ok(w) => w,
            Err(e) => {
                return Err(e);
            },
        };
        let idx: usize = window.active_view_index;
        let context: Context = window.views[idx].context;
        let bid: u128 = window.views[idx].buffer_id;
        let mut buffer: Buffer = match self.buffers.take(bid) {
            Ok(b) => b,
            Err(e) => {
                self.windows.insert(window);
                proof {
                    assert(self.windows.values@ =~= old(self).windows.values@);
                }
                return Err(e);
            },
        };

        let resolved: Option<Command> = self.keymap.get(context, &event);
        let mut quit: bool = false;
        let mut save: Option<SaveFile> = None;

        match (resolved, context) {
            (Some(Command::Quit), _) => {
                quit = true;
            },
            (Some(Command::Save), Context::Buffer) => {
                let view = window.active_view();
                save = view.save(&buffer);
            },
            (Some(Command::NextView), Context::Buffer) => {
                window.next_view();
            },
            (Some(Command::PreviousView), Context::Buffer) => {
                window.previous_view();
            },
            (Some(Command::MoveBackward), Context::Buffer) => {
                window.active_view().move_backward();
            },
            (Some(Command::MoveForward), Context::Buffer) => {
                window.active_view().move_forward();
            },
            (Some(Command::MoveDown), Context::Buffer) => {
                window.active_view().move_down(&buffer);
            },
            (Some(Command::MoveUp), Context::Buffer) => {
                window.active_view().move_up(&buffer);
            },
            (Some(Command::ScrollUp { count }), Context::Buffer) => {
                window.active_view().scroll_up(count);
            },
            (Some(Command::ScrollDown { count }), Context::Buffer) => {
                window.active_view().scroll_down(&buffer, count);
            },
            (Some(Command::ScrollLeft { count }), Context::Buffer) => {
                window.active_view().scroll_left(count);
            },
            (Some(Command::ScrollRight { count }), Context::Buffer) => {
                window.active_view().scroll_right(count);
            },
            (Some(Command::Search), Context::Buffer) => {
                window.active_view().begin_search();
            },
            (Some(Command::Submit), Context::Search) => {
                window.active_view().submit_search(&buffer);
            },
            (Some(Command::Close), Context::Search) => {
                window.active_view().close_search();
            },
            (None, _) => {
                match event {
                    InputEvent::Resize(a, b) => {
                        window.resize(a, b);
                    },
                    InputEvent::ScrollUp => {
                        window.active_view().scroll_up(1);
                    },
                    InputEvent::ScrollDown => {
                        window.active_view().scroll_down(&buffer, 1);
                    },
                    InputEvent::ScrollLeft => {
                        window.active_view().scroll_left(1);
                    },
                    InputEvent::ScrollRight => {
                        window.active_view().scroll_right(1);
                    },
                    InputEvent::Key(k) => {
                        if let crate::keymap::KeyCode::Char(c) = k.code {
                            if !k.ctrl && !k.alt {
                                match context {
                                    Context::Buffer => {
                                        window.active_view().insert_char(&mut buffer, c);
                                    },
                                    Context::Search => {
                                        window.active_view().push_search(c);
                                    },
                                }
                            }
                        }
                    },
                }
            },
            _ => {},
        }

        self.buffers.insert(buffer);
        self.windows.insert(window);
        Ok(FeedOutcome { quit, save })
    }
}

} // verus!
