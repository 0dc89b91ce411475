use vstd::prelude::*;
use crate::buffer::Buffer;
use crate::path::Path;
use crate::project::Project;
use crate::render::{frame_matches, window_frame, Frame};

verus! {

/// What a client asks a fresh window to show: its terminal size in cells and
/// the paths to open (already resolved against the client's working
/// directory).
#[derive(Debug)]
pub struct WindowArgs {
    pub terminal_shape: (u16, u16),
    pub paths: Vec<Path>,
}

impl WindowArgs {
    pub fn new(terminal_shape: (u16, u16), paths: Vec<Path>) -> (r: WindowArgs)
        ensures
            r.terminal_shape == terminal_shape,
            r.paths == paths,
    {
        WindowArgs { terminal_shape, paths }
    }

    pub fn terminal_shape(&self) -> (r: &(u16, u16))
        ensures
            *r == self.terminal_shape,
    {
        &self.terminal_shape
    }

    pub fn into_paths(self) -> (r: Vec<Path>)
        ensures
            r == self.paths,
    {
        self.paths
    }
}

/// The active-view index after one forward cyclic step among `n` views.
pub open spec fn next_index(i: int, n: int) -> int {
    if i + 1 == n {
        0
    } else {
        i + 1
    }
}

/// The active-view index after one backward cyclic step among `n` views.
pub open spec fn previous_index(i: int, n: int) -> int {
    if i == 0 {
        n - 1
    } else {
        i - 1
    }
}

/// The active-view index after `k` forward cyclic steps.
pub open spec fn iter_next_index(i: int, k: nat, n: int) -> int
    decreases k,
{
    if k == 0 {
        i
    } else {
        next_index(iter_next_index(i, (k - 1) as nat, n), n)
    }
}

/// Stepping forward `k <= n` times lands on `i + k`, wrapped once past the
/// end.
proof fn lemma_iter_next_unrolled(i: int, k: nat, n: int)
    requires
        0 <= i < n,
        k <= n,
    ensures
        iter_next_index(i, k, n) == if i + k < n {
            i + k
        } else {
            i + k - n
        },
    decreases k,
{
    if k > 0 {
        lemma_iter_next_unrolled(i, (k - 1) as nat, n);
    }
}

/// Cycling forward through all views returns the active index to its
/// starting value: `next_view` applied as many times as there are views is
/// the identity on the index.
pub proof fn lemma_next_view_cycle(i: int, n: int)
    requires
        0 <= i < n,
    ensures
        iter_next_index(i, n as nat, n) == i,
{
    lemma_iter_next_unrolled(i, n as nat, n);
}

/// One backward step undoes one forward step.
pub proof fn lemma_previous_undoes_next(i: int, n: int)
    requires
        0 <= i < n,
    ensures
        previous_index(next_index(i, n), n) == i,
        next_index(previous_index(i, n), n) == i,
{
}

/// The tabbed collection of views one connected client sees: an ordered,
/// never-empty list of views, the index of the active one (always in
/// bounds, changed cyclically), the terminal size, and the project the
/// window was opened on.
#[derive(Debug)]
pub struct Window {
    pub id: u128,
    pub views: Vec<crate::view::View>,
    pub active_view_index: usize,
    pub size: (u16, u16),
    pub project: Project,
}

impl Window {
    pub open spec fn wf(self) -> bool {
        &&& self.views@.len() > 0
        &&& self.active_view_index < self.views@.len()
        &&& forall|i: int| 0 <= i < self.views@.len() ==> (#[trigger] self.views@[i]).wf()
    }

    /// New window over the given views; the first view is active.
    pub fn new(id: u128, project: Project, views: Vec<crate::view::View>, size: (u16, u16)) -> (r: Window)
        requires
            views@.len() > 0,
            forall|i: int| 0 <= i < views@.len() ==> (#[trigger] views@[i]).wf(),
        ensures
            r.wf(),
            r.id == id,
            r.views == views,
            r.active_view_index == 0,
            r.size == size,
            r.project == project,
    {
        Window { id, views, active_view_index: 0, size, project }
    }

    pub fn id(&self) -> (r: u128)
        ensures
            r == self.id,
    {
        self.id
    }

    /// Record the terminal's new size.
    pub fn resize(&mut self, width: u16, height: u16)
        ensures
            *final(self) == (Window { size: (width, height), ..*old(self) }),
    {
        self.size = (width, height);
    }

    /// Mutable access to the active view; every other part of the window
    /// stays as it was.
    pub fn active_view(&mut self) -> (v: &mut crate::view::View)
        requires
            old(self).wf(),
        ensures
            *v == old(self).views@[old(self).active_view_index as int],
            final(self).views@ == old(self).views@.update(
                old(self).active_view_index as int,
                *final(v),
            ),
            final(self).id == old(self).id,
            final(self).active_view_index == old(self).active_view_index,
            final(self).size == old(self).size,
            final(self).project == old(self).project,
    {
        let idx: usize = self.active_view_index;
        &mut self.views[idx]
    }

    /// The frame this window currently shows, assembled over the active
    /// view's buffer.
    pub fn render(&self, buffer: &Buffer) -> (r: Frame)
        requires
            self.wf(),
        ensures
            frame_matches(r, *self, *buffer),
    {
        window_frame(self, buffer)
    }

    /// Make the next view active, wrapping past the last one.
    pub fn next_view(&mut self)
        requires
            old(self).wf(),
        ensures
            final(self).active_view_index == next_index(
                old(self).active_view_index as int,
                old(self).views@.len() as int,
            ),
            *final(self) == (Window {
                active_view_index: final(self).active_view_index,
                ..*old(self)
            }),
            final(self).wf(),
    {
        let n: usize = self.views.len();
        self.active_view_index = if self.active_view_index + 1 == n {
            0
        } else {
            self.active_view_index + 1
        };
    }

    /// Make the previous view active, wrapping before the first one.
    pub fn previous_view(&mut self)
        requires
            old(self).wf(),
        ensures
            final(self).active_view_index == previous_index(
                old(self).active_view_index as int,
                old(self).views@.len() as int,
            ),
            *final(self) == (Window {
                active_view_index: final(self).active_view_index,
                ..*old(self)
            }),
            final(self).wf(),
    {
        let n: usize = self.views.len();
        self.active_view_index = if self.active_view_index == 0 {
            n - 1
        } else {
            self.active_view_index - 1
        };
    }
}

} // verus!
