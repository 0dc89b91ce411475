//! Assembly of a styled frame: the title row, the tab row, and the buffer
//! rows, each buffer row split into alternating unselected/selected spans by
//! walking the visible sub-lines and the sorted selection regions in
//! lockstep.  Turning the frame into terminal escape sequences is delegated
//! to the rendering backend outside the core.

use vstd::prelude::*;
use vstd::string::StrSliceExecFns;
use crate::buffer::{lemma_visible_monotone, visible_range, Buffer, SubLine};
use crate::position::Position;
use crate::region::Region;
use crate::selection::{lemma_regions_separated, regions_cover, regions_wf};
use crate::text::line_count;
use crate::window::Window;

verus! {

/// A run of characters drawn with one style: selected or not.
#[derive(Debug)]
pub struct Span {
    pub text: Vec<char>,
    pub selected: bool,
}

/// One rendered buffer row: its spans, and whether any of its characters lie
/// in a selection (rows with a selection are highlighted as a whole).
#[derive(Debug)]
pub struct FrameRow {
    pub spans: Vec<Span>,
    pub has_selection: bool,
}

/// One tab of the tab bar.
#[derive(Debug)]
pub struct Tab {
    pub name: String,
    pub active: bool,
}

/// The tab bar: the visible tabs and whether the visible window of tabs
/// reaches the left/right end of the view list (when not, dots are drawn).
#[derive(Debug)]
pub struct TabBar {
    pub tabs: Vec<Tab>,
    pub at_left_edge: bool,
    pub at_right_edge: bool,
}

/// One assembled frame: what the terminal shows for a window, up to colors
/// and escape sequences.
#[derive(Debug)]
pub struct Frame {
    pub title: String,
    pub tab_bar: TabBar,
    pub rows: Vec<FrameRow>,
}

/// The characters of a span, each tagged with the span's style.
pub open spec fn tag_span(s: Span) -> Seq<(char, bool)> {
    Seq::new(s.text@.len(), |i: int| (s.text@[i], s.selected))
}

/// The characters of a span list in order, each tagged with its span's
/// style.
pub open spec fn expand_spans(spans: Seq<Span>) -> Seq<(char, bool)>
    decreases spans.len(),
{
    if spans.len() == 0 {
        Seq::empty()
    } else {
        expand_spans(spans.drop_last()) + tag_span(spans.last())
    }
}

/// The characters of `t` in `[a, b)`, each tagged with whether its offset
/// lies in a stored selection region.
pub open spec fn flags_of(t: Seq<char>, regions: Seq<Region>, a: int, b: int) -> Seq<(char, bool)> {
    Seq::new((b - a) as nat, |j: int| (t[a + j], regions_cover(regions, a + j)))
}

/// Spans are well formed for display when none is empty and adjacent spans
/// alternate styles (so the splitting is canonical).
pub open spec fn spans_canonical(spans: Seq<Span>) -> bool {
    &&& (forall|i: int| 0 <= i < spans.len() ==> (#[trigger] spans[i]).text@.len() > 0)
    &&& (forall|i: int|
        0 <= i < spans.len() - 1 ==> (#[trigger] spans[i]).selected != spans[i + 1].selected)
}

/// Number of tabs the bar has room for, at 15 cells per tab between two
/// 5-cell dot markers.
pub open spec fn tab_capacity(width: int) -> int {
    if width >= 10 {
        (width - 10) / 15
    } else {
        0
    }
}

/// Index of the first view whose tab is shown: the window of tabs starts at
/// the left edge when the active view fits there, ends at the right edge
/// when the active view sits among the last tabs, and otherwise ends at the
/// active view.
pub open spec fn first_shown_tab(n_views: int, active: int, cap: int) -> int {
    if active < cap {
        0
    } else if active >= n_views - cap {
        if n_views >= cap {
            n_views - cap
        } else {
            0
        }
    } else {
        active + 1 - cap
    }
}

/// Advance the lockstep region pointer past every region that ends before
/// `o`; with sorted, separated regions, coverage of `o` then depends only on
/// the region at the pointer.
fn advance_pointer(regions: &Vec<Region>, ridx: usize, o: usize) -> (r: usize)
    requires
        regions_wf(regions@),
        ridx <= regions@.len(),
        forall|k: int| 0 <= k < ridx ==> (#[trigger] regions@[k]).last < o,
    ensures
        ridx <= r <= regions@.len(),
        forall|k: int| 0 <= k < r ==> (#[trigger] regions@[k]).last < o,
        r < regions@.len() ==> regions@[r as int].last >= o,
    decreases regions@.len() - ridx,
{
    if ridx < regions.len() && regions[ridx].last < o {
        advance_pointer(regions, ridx + 1, o)
    } else {
        ridx
    }
}

/// With every region before the pointer ended before `o` and the pointer's
/// region (if any) ending at or past `o`, the pointer's region alone decides
/// whether `o` is covered.
proof fn lemma_pointer_covers(regions: Seq<Region>, ridx: int, o: int)
    requires
        regions_wf(regions),
        0 <= ridx <= regions.len(),
        forall|k: int| 0 <= k < ridx ==> (#[trigger] regions[k]).last < o,
        ridx < regions.len() ==> regions[ridx].last >= o,
    ensures
        regions_cover(regions, o) == (ridx < regions.len() && regions[ridx].begin <= o
            <= regions[ridx].last),
{
    if ridx < regions.len() && regions[ridx].begin <= o <= regions[ridx].last {
        assert(regions_cover(regions, o));
    } else {
        if regions_cover(regions, o) {
            let k = choose|k: int| 0 <= k < regions.len() && (#[trigger] regions[k]).covers(o);
            if k < ridx {
                assert(regions[k].last < o);
            } else if k > ridx {
                lemma_regions_separated(regions, ridx, k);
            }
            assert(false);
        }
    }
}

/// Append one styled character to a span list, extending the last span when
/// the style continues and opening a new span when it changes.
fn push_flagged(spans: &mut Vec<Span>, c: char, f: bool)
    requires
        spans_canonical(old(spans)@),
    ensures
        spans_canonical(final(spans)@),
        expand_spans(final(spans)@) == expand_spans(old(spans)@).push((c, f)),
        final(spans)@.len() > 0,
{
    let n: usize = spans.len();
    if n > 0 {
        let same: bool = spans[n - 1].selected == f;
        if same {
            let mut last: Span = spans.pop().unwrap();
            let ghost old_last = last;
            last.text.push(c);
            proof {
                assert(tag_span(last) =~= tag_span(old_last).push((c, f)));
            }
            spans.push(last);
            proof {
                assert(final(spans)@.drop_last() =~= old(spans)@.drop_last());
                assert(expand_spans(final(spans)@) =~= expand_spans(old(spans)@).push((c, f)));
            }
            return ;
        }
    }
    let mut text: Vec<char> = Vec::new();
    text.push(c);
    let span = Span { text, selected: f };
    proof {
        assert(tag_span(span) =~= Seq::<(char, bool)>::empty().push((c, f)));
    }
    spans.push(span);
    proof {
        assert(final(spans)@.drop_last() =~= old(spans)@);
        assert(expand_spans(final(spans)@) =~= expand_spans(old(spans)@).push((c, f)));
    }
}

/// Split one visible sub-line into alternating unselected/selected spans by
/// continuing the lockstep walk of the selection regions from `ridx`.
/// Returns the spans, whether any character was selected, and the advanced
/// pointer.
#[verifier::loop_isolation(false)]
fn build_row(text: &String, a: usize, b: usize, regions: &Vec<Region>, ridx: usize) -> (r: (
    Vec<Span>,
    bool,
    usize,
))
    requires
        regions_wf(regions@),
        ridx <= regions@.len(),
        a <= b,
        text@.len() == b - a,
        forall|k: int| 0 <= k < ridx ==> (#[trigger] regions@[k]).last < a,
    ensures
        ({
            let (spans, has_sel, r2) = r;
            &&& spans_canonical(spans@)
            &&& expand_spans(spans@) == Seq::new(
                (b - a) as nat,
                |j: int| (text@[j], regions_cover(regions@, a + j)),
            )
            &&& has_sel == (exists|o: int| a <= o < b && regions_cover(regions@, o))
            &&& ridx <= r2 <= regions@.len()
            &&& forall|k: int| 0 <= k < r2 ==> (#[trigger] regions@[k]).last < b
        }),
{
    let mut spans: Vec<Span> = Vec::new();
    let mut has_sel: bool = false;
    let mut rp: usize = ridx;
    let mut j: usize = 0;
    let n: usize = b - a;

    while j < n
        invariant
            j <= n,
            ridx <= rp <= regions@.len(),
            forall|k: int| 0 <= k < rp ==> (#[trigger] regions@[k]).last < a + j,
            spans_canonical(spans@),
            expand_spans(spans@) =~= Seq::new(
                j as nat,
                |jj: int| (text@[jj], regions_cover(regions@, a + jj)),
            ),
            has_sel == (exists|o: int| a <= o < a + j && regions_cover(regions@, o)),
        decreases n - j,
    {
        let o: usize = a + j;
        let c: char = text.as_str().get_char(j);
        rp = advance_pointer(regions, rp, o);
        let f: bool = rp < regions.len() && regions[rp].begin <= o;
        proof {
            lemma_pointer_covers(regions@, rp as int, o as int);
            assert(f == regions_cover(regions@, o as int));
        }
        let ghost old_spans = spans@;
        push_flagged(&mut spans, c, f);
        if f {
            has_sel = true;
        }
        proof {
            assert(expand_spans(spans@) =~= Seq::new(
                (j + 1) as nat,
                |jj: int| (text@[jj], regions_cover(regions@, a + jj)),
            ));
            if !f {
                assert forall|o2: int| a <= o2 < a + j + 1 && regions_cover(
                    regions@,
                    o2,
                ) implies (a <= o2 < a + j && regions_cover(regions@, o2)) by {}
            }
        }
        j += 1;
    }
    let rp2: usize = advance_pointer(regions, rp, b);
    proof {
        assert forall|k: int| 0 <= k < rp2 implies (#[trigger] regions@[k]).last < b by {}
    }
    (spans, has_sel, rp2)
}

/// One buffer row of a frame matches the visible sub-range of its line: its
/// spans expand, character by character, to the visible characters each
/// tagged with whether its offset lies in a selection region.
pub open spec fn row_matches(
    row: FrameRow,
    t: Seq<char>,
    regions: Seq<Region>,
    a: int,
    b: int,
) -> bool {
    &&& spans_canonical(row.spans@)
    &&& expand_spans(row.spans@) == flags_of(t, regions, a, b)
    &&& row.has_selection == (exists|o: int| a <= o < b && regions_cover(regions, o))
}

/// The number of buffer rows a viewport anchored at row `y` shows, given
/// `height` cells.
pub open spec fn shown_rows(t: Seq<char>, y: int, height: int) -> int {
    if y < line_count(t) {
        if line_count(t) - y <= height {
            line_count(t) - y
        } else {
            height
        }
    } else {
        0
    }
}

/// The buffer rows of a frame: one per visible sub-line, each split into
/// alternating spans by the selection regions.
#[verifier::loop_isolation(false)]
pub fn build_rows(
    buffer: &Buffer,
    position: &Position,
    regions: &Vec<Region>,
    width: u16,
    height: u16,
) -> (r: Vec<FrameRow>)
    requires
        regions_wf(regions@),
    ensures
        r@.len() == shown_rows(buffer.text(), position.y as int, height as int),
        forall|k: int|
            0 <= k < r@.len() ==> {
                let (a, b) = visible_range(
                    buffer.text(),
                    position.y + k,
                    position.x as int,
                    width as int,
                );
                row_matches(#[trigger] r@[k], buffer.text(), regions@, a, b)
            },
{
    let subs: Vec<SubLine> = buffer.sub_lines(position, width, height);
    let mut rows: Vec<FrameRow> = Vec::new();
    let mut rp: usize = 0;
    let mut k: usize = 0;
    let n: usize = subs.len();

    while k < n
        invariant
            k <= n == subs@.len(),
            rows@.len() == k,
            rp <= regions@.len(),
            k < n ==> (forall|j: int|
                0 <= j < rp ==> (#[trigger] regions@[j]).last < subs@[k as int].begin),
            forall|kk: int|
                0 <= kk < k ==> {
                    let (a, b) = visible_range(
                        buffer.text(),
                        position.y + kk,
                        position.x as int,
                        width as int,
                    );
                    row_matches(#[trigger] rows@[kk], buffer.text(), regions@, a, b)
                },
        decreases n - k,
    {
        proof {
            let ghost text_k = subs@[k as int].text@;
            crate::text::lemma_line_start_bounds(buffer.text(), position.y + k);
            crate::text::lemma_line_start_bounds(buffer.text(), position.y + k + 1);
            crate::text::lemma_line_start_monotone(
                buffer.text(),
                position.y + k,
                position.y + k + 1,
            );
        }
        let sub: &SubLine = &subs[k];
        let (spans, has_sel, rp2) = build_row(&sub.text, sub.begin, sub.end, regions, rp);
        proof {
            assert(Seq::new(
                (sub.end - sub.begin) as nat,
                |j: int| (sub.text@[j], regions_cover(regions@, sub.begin + j)),
            ) =~= flags_of(buffer.text(), regions@, sub.begin as int, sub.end as int));
        }
        rows.push(FrameRow { spans, has_selection: has_sel });
        proof {
            if k + 1 < n {
                let ghost text_k1 = subs@[k + 1].text@;
                lemma_visible_monotone(
                    buffer.text(),
                    position.y + k,
                    position.x as int,
                    width as int,
                );
            }
        }
        rp = rp2;
        k += 1;
    }
    rows
}

/// Copy a string.
fn copy_string(s: &String) -> (r: String)
    ensures
        r@ == s@,
{
    String::from_str(s.as_str())
}

/// The tab bar over the given view names: the window of at most
/// `tab_capacity` tabs positioned so the active one is visible, with edge
/// flags saying whether tabs are cut off on either side.
#[verifier::loop_isolation(false)]
pub fn build_tab_bar(names: &Vec<String>, active: usize, width: u16) -> (r: TabBar)
    requires
        active < names@.len(),
    ensures
        ({
            let cap = tab_capacity(width as int);
            let first = first_shown_tab(names@.len() as int, active as int, cap);
            let count = if cap <= names@.len() - first {
                cap
            } else {
                names@.len() - first
            };
            &&& r.at_left_edge == ((active as int) < cap)
            &&& r.at_right_edge == (active as int >= names@.len() - cap)
            &&& r.tabs@.len() == count
            &&& forall|j: int|
                0 <= j < count ==> (#[trigger] r.tabs@[j]).name@ == names@[first + j]@
                    && r.tabs@[j].active == (first + j == active)
        }),
{
    let n: usize = names.len();
    let cap: usize = if width >= 10 {
        ((width - 10) / 15) as usize
    } else {
        0
    };
    let at_left_edge: bool = active < cap;
    let at_right_edge: bool = n - active <= cap;
    let first: usize = if at_left_edge {
        0
    } else if at_right_edge {
        if n >= cap {
            n - cap
        } else {
            0
        }
    } else {
        active + 1 - cap
    };
    let count: usize = if cap <= n - first {
        cap
    } else {
        n - first
    };
    let mut tabs: Vec<Tab> = Vec::new();
    let mut j: usize = 0;
    while j < count
        invariant
            j <= count,
            first + count <= n == names@.len(),
            tabs@.len() == j,
            forall|jj: int|
                0 <= jj < j ==> (#[trigger] tabs@[jj]).name@ == names@[first + jj]@
                    && tabs@[jj].active == (first + jj == active),
        decreases count - j,
    {
        let name: String = copy_string(&names[first + j]);
        tabs.push(Tab { name, active: first + j == active });
        j += 1;
    }
    TabBar { tabs, at_left_edge, at_right_edge }
}

/// The display name of a view's tab: its file name, or the placeholder.
pub open spec fn tab_name(v: crate::view::View) -> Seq<char> {
    match v.header.filepath {
        Some(p) => match crate::path::name_spec(p.text@) {
            Some(n) => n,
            None => crate::header::default_title(),
        },
        None => crate::header::default_title(),
    }
}

/// The frame shows the window faithfully: the active view's title, the tab
/// bar over all views' names with the active one marked, and one row per
/// visible sub-line of the active view's buffer, styled by the primary
/// selection.  Two rows of the terminal go to the title and the tab bar; the
/// rest show the buffer.
pub open spec fn frame_matches(f: Frame, w: Window, b: Buffer) -> bool {
    let v = w.views@[w.active_view_index as int];
    let height = if w.size.1 >= 2 {
        w.size.1 - 2
    } else {
        0
    };
    let cap = tab_capacity(w.size.0 as int);
    let first = first_shown_tab(w.views@.len() as int, w.active_view_index as int, cap);
    &&& f.title@ == (match v.header.filepath {
        Some(p) => p.text@,
        None => crate::header::default_title(),
    })
    &&& f.tab_bar.at_left_edge == ((w.active_view_index as int) < cap)
    &&& f.tab_bar.at_right_edge == (w.active_view_index as int >= w.views@.len() - cap)
    &&& f.tab_bar.tabs@.len() == (if cap <= w.views@.len() - first {
        cap
    } else {
        w.views@.len() - first
    })
    &&& (forall|j: int|
        0 <= j < f.tab_bar.tabs@.len() ==> {
            &&& (#[trigger] f.tab_bar.tabs@[j]).active == (first + j == w.active_view_index)
            &&& f.tab_bar.tabs@[j].name@ == tab_name(w.views@[first + j])
        })
    &&& f.rows@.len() == shown_rows(b.text(), v.position.y as int, height as int)
    &&& (forall|k: int|
        0 <= k < f.rows@.len() ==> {
            let (a, bb) = visible_range(
                b.text(),
                v.position.y + k,
                v.position.x as int,
                w.size.0 as int,
            );
            row_matches(#[trigger] f.rows@[k], b.text(), v.primary(), a, bb)
        })
}

/// Assemble the frame for a window over its active view's buffer.
#[verifier::loop_isolation(false)]
pub fn window_frame(window: &Window, buffer: &Buffer) -> (r: Frame)
    requires
        window.wf(),
    ensures
        frame_matches(r, *window, *buffer),
{
    let idx: usize = window.active_view_index;
    let view = &window.views[idx];
    let title: String = view.header().title();

    let mut names: Vec<String> = Vec::new();
    let n: usize = window.views.len();
    let mut j: usize = 0;
    while j < n
        invariant
            j <= n == window.views@.len(),
            names@.len() == j,
            forall|jj: int|
                0 <= jj < j ==> (#[trigger] names@[jj])@ == tab_name(window.views@[jj]),
        decreases n - j,
    {
        let name: String = window.views[j].header().name();
        names.push(name);
        j += 1;
    }

    let tab_bar: TabBar = build_tab_bar(&names, idx, window.size.0);
    let height: u16 = if window.size.1 >= 2 {
        window.size.1 - 2
    } else {
        0
    };
    let regions: &Vec<Region> = view.selection_set().primary().iter();
    let rows: Vec<FrameRow> = build_rows(buffer, view.position(), regions, window.size.0, height);
    Frame { title, tab_bar, rows }
}

} // verus!
