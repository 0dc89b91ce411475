use vstd::prelude::*;
use vstd::string::StringExecFns;
use vstd::view::View as _;
use crate::buffer::{char_idx_last, char_idx_query, Buffer};
use crate::header::Header;
use crate::keymap::Context;
use crate::position::Position;
use crate::region::{clamp_shift, saturating_shift, Region};
use crate::search::{in_some_match, is_match};
use crate::selection::{regions_cover, Selection};
use crate::selection_set::SelectionSet;
use crate::text::{line_of, line_start, line_count};

verus! {

/// The query string a view accumulates while in search-entry mode.
#[derive(Debug)]
pub struct Search {
    pub query: Vec<char>,
}

impl Search {
    pub fn new() -> (r: Search)
        ensures
            r.query@ =~= Seq::<char>::empty(),
    {
        Search { query: Vec::new() }
    }

    pub fn query(&self) -> (r: &Vec<char>)
        ensures
            r@ == self.query@,
    {
        &self.query
    }

    pub fn push(&mut self, chr: char)
        ensures
            final(self).query@ == old(self).query@.push(chr),
    {
        self.query.push(chr);
    }

    pub fn clear(&mut self)
        ensures
            final(self).query@ =~= Seq::<char>::empty(),
    {
        self.query.clear();
    }
}

/// Where a file's contents would be written on a save: the path and the
/// buffer's full contents at that moment.
#[derive(Debug)]
pub struct SaveFile {
    pub path: String,
    pub content: String,
}

/// A region after a whole-line vertical move by `count` rows: its begin is
/// re-resolved at the same column of the shifted row (row and column each
/// clamped into range), and the region keeps its length as far as the
/// destination line allows.
pub open spec fn row_shift_spec(t: Seq<char>, r: Region, count: int) -> Region {
    let b = if r.begin <= t.len() {
        r.begin as int
    } else {
        t.len() as int
    };
    let row = line_of(t, b);
    let col = b - line_start(t, row);
    let row2 = clamp_shift(row, count);
    let q = char_idx_query(t, row2, col);
    let l = char_idx_last(t, row2);
    let want = r.last - r.begin;
    let new_last = if q + want <= l {
        q + want
    } else {
        l
    };
    Region { begin: q as usize, last: new_last as usize, reversed: false }
}

/// Insert position for text, clamped at the end of the offset range.
pub open spec fn insert_targets(rs: Seq<Region>) -> Seq<int> {
    Seq::new(rs.len(), |k: int| clamp_shift(rs[k].begin as int, k))
}

/// Insert `c` at offset `o` of `t`, leaving `t` unchanged when `o` is out of
/// bounds (a failed insertion is skipped, not clamped).
pub open spec fn insert_at(t: Seq<char>, o: int, c: char) -> Seq<char> {
    if 0 <= o <= t.len() {
        t.insert(o, c)
    } else {
        t
    }
}

/// The text after inserting `c` at each offset in turn, earlier insertions
/// shifting later offsets.
pub open spec fn multi_insert(t: Seq<char>, begins: Seq<int>, c: char) -> Seq<char>
    decreases begins.len(),
{
    if begins.len() == 0 {
        t
    } else {
        multi_insert(insert_at(t, begins[0], c), begins.drop_first(), c)
    }
}

proof fn lemma_multi_insert_push(t: Seq<char>, s: Seq<int>, x: int, c: char)
    ensures
        multi_insert(t, s.push(x), c) == insert_at(multi_insert(t, s, c), x, c),
    decreases s.len(),
{
    if s.len() == 0 {
        assert(s.push(x).drop_first() =~= Seq::<int>::empty());
        assert(s.push(x)[0] == x);
        assert(multi_insert(t, s.push(x), c) == multi_insert(
            insert_at(t, x, c),
            s.push(x).drop_first(),
            c,
        ));
        assert(multi_insert(t, s, c) == t);
    } else {
        assert(s.push(x).drop_first() =~= s.drop_first().push(x));
        assert(s.push(x)[0] == s[0]);
        lemma_multi_insert_push(insert_at(t, s[0], c), s.drop_first(), x, c);
    }
}

fn copy_regions(rs: &Vec<Region>) -> (r: Vec<Region>)
    ensures
        r@ == rs@,
{
    let mut out: Vec<Region> = Vec::new();
    let n: usize = rs.len();
    let mut i: usize = 0;
    while i < n
        invariant
            i <= n == rs@.len(),
            out@ =~= rs@.subrange(0, i as int),
        decreases n - i,
    {
        out.push(rs[i]);
        i += 1;
    }
    proof {
        assert(rs@.subrange(0, n as int) =~= rs@);
    }
    out
}

/// Insert `chr` at each region's begin in order, earlier insertions
/// shifting later targets by one; an out-of-bounds target is skipped.  The
/// returned selection holds one bare cursor just past each insertion point.
#[verifier::loop_isolation(false)]
#[verifier::rlimit(100)]
fn insert_at_cursors(buffer: &mut Buffer, regions: &Vec<Region>, chr: char) -> (r: Selection)
    ensures
        final(buffer).id == old(buffer).id,
        final(buffer).text() == multi_insert(
            old(buffer).text(),
            insert_targets(regions@),
            chr,
        ),
        r.wf(),
        forall|o: int|
            r.covers(o) <==> (exists|k: int|
                0 <= k < regions@.len() && o == clamp_shift(
                    #[trigger] insert_targets(regions@)[k],
                    1,
                )),
{
    let ghost t0 = buffer.text();
    let ghost targets = insert_targets(regions@);
    let mut sel: Selection = Selection::new();
    let n: usize = regions.len();
    let mut i: usize = 0;
    while i < n
        invariant
            i <= n == regions@.len(),
            targets == insert_targets(regions@),
            sel.wf(),
            buffer.id == old(buffer).id,
            buffer.text() == multi_insert(t0, targets.subrange(0, i as int), chr),
            forall|o: int|
                sel.covers(o) <==> (exists|k: int|
                    0 <= k < i && o == clamp_shift(#[trigger] targets[k], 1)),
        decreases n - i,
    {
        let region: Region = regions[i];
        let insert_idx: usize = if region.begin <= usize::MAX - i {
            region.begin + i
        } else {
            usize::MAX
        };
        proof {
            assert(targets[i as int] == clamp_shift(region.begin as int, i as int));
            assert(targets.subrange(0, i + 1) =~= targets.subrange(0, i as int).push(
                targets[i as int],
            ));
            lemma_multi_insert_push(t0, targets.subrange(0, i as int), targets[i as int], chr);
        }
        let _ignored = buffer.insert_char(insert_idx, chr);
        let cursor: usize = if insert_idx < usize::MAX {
            insert_idx + 1
        } else {
            usize::MAX
        };
        let unit: Region = Region::unit(cursor);
        let ghost presel = sel;
        sel.insert(unit);
        proof {
            assert(cursor == clamp_shift(targets[i as int], 1));
            assert forall|o: int|
                sel.covers(o) implies (exists|k: int|
                0 <= k < i + 1 && o == clamp_shift(#[trigger] targets[k], 1)) by {
                if presel.covers(o) {
                    let k = choose|k: int|
                        0 <= k < i && o == clamp_shift(#[trigger] targets[k], 1);
                    assert(o == clamp_shift(targets[k], 1));
                } else {
                    assert(unit.covers(o));
                    assert(o == clamp_shift(targets[i as int], 1));
                }
            }
            assert forall|o: int|
                (exists|k: int|
                    0 <= k < i + 1 && o == clamp_shift(#[trigger] targets[k], 1)) implies sel.covers(
                o,
            ) by {
                let k = choose|k: int|
                    0 <= k < i + 1 && o == clamp_shift(#[trigger] targets[k], 1);
                if k == i as int {
                    assert(unit.covers(o));
                } else {
                    assert(presel.covers(o));
                }
            }
        }
        i += 1;
    }
    proof {
        assert(targets.subrange(0, n as int) =~= targets);
    }
    sel
}

/// One buffer as one client sees it: a reference to the buffer by id, a
/// scroll position, a header title, the cursor selections, the interaction
/// mode, and the search query being typed.
#[derive(Debug)]
pub struct View {
    pub id: u128,
    pub buffer_id: u128,
    pub position: Position,
    pub header: Header,
    pub selection_set: SelectionSet,
    pub context: Context,
    pub search: Search,
}

impl View {
    pub open spec fn wf(self) -> bool {
        self.selection_set.wf()
    }

    /// The stored regions of the primary selection.
    pub open spec fn primary(self) -> Seq<Region> {
        self.selection_set.primary_regions()
    }

    /// The primary selection covers offset `o`.
    pub open spec fn covers(self, o: int) -> bool {
        regions_cover(self.primary(), o)
    }

    /// Everything but the selections and the mode state is as in `other`.
    pub open spec fn same_except_selection(self, other: View) -> bool {
        &&& self.id == other.id
        &&& self.buffer_id == other.buffer_id
        &&& self.position == other.position
        &&& self.header == other.header
        &&& self.context == other.context
        &&& self.search.query@ == other.search.query@
    }

    /// Fresh view of a buffer: one bare cursor at offset 0, editing mode, an
    /// empty search query, scrolled to the top-left corner.
    pub fn new(id: u128, buffer_id: u128, filepath: Option<crate::path::Path>) -> (r: View)
        ensures
            r.wf(),
            r.id == id,
            r.buffer_id == buffer_id,
            r.position.x == 0 && r.position.y == 0,
            r.header.filepath == filepath,
            r.context is Buffer,
            r.search.query@ =~= Seq::<char>::empty(),
            r.selection_set.selections@.len() == 1,
            r.primary() =~= seq![Region { begin: 0, last: 0, reversed: false }],
    {
        View {
            id,
            buffer_id,
            position: Position::zero(),
            header: Header::new(filepath),
            selection_set: SelectionSet::from_region(Region::unit(0)),
            context: Context::Buffer,
            search: Search::new(),
        }
    }

    pub fn id(&self) -> (r: u128)
        ensures
            r == self.id,
    {
        self.id
    }

    pub fn buffer_id(&self) -> (r: u128)
        ensures
            r == self.buffer_id,
    {
        self.buffer_id
    }

    pub fn header(&self) -> (r: &Header)
        ensures
            r == &self.header,
    {
        &self.header
    }

    pub fn position(&self) -> (r: &Position)
        ensures
            r == &self.position,
    {
        &self.position
    }

    pub fn selection_set(&self) -> (r: &SelectionSet)
        ensures
            r == &self.selection_set,
    {
        &self.selection_set
    }

    pub fn context(&self) -> (r: Context)
        ensures
            r == self.context,
    {
        self.context
    }

    /// Shift every region of the primary selection by `count` offsets,
    /// saturating at the ends of the offset range and re-merging regions
    /// that come to touch.
    #[verifier::loop_isolation(false)]
    pub fn translate_by(&mut self, count: isize)
        requires
            old(self).wf(),
        ensures
            final(self).wf(),
            final(self).same_except_selection(*old(self)),
            forall|o: int|
                final(self).covers(o) <==> (exists|k: int|
                    0 <= k < old(self).primary().len() && (#[trigger] old(self).primary()[k]).translate_spec(
                        count as int,
                    ).covers(o)),
    {
        let regions: Vec<Region> = copy_regions(self.selection_set.primary().iter());
        let mut sel: Selection = Selection::new();
        let n: usize = regions.len();
        let mut i: usize = 0;
        while i < n
            invariant
                i <= n == regions@.len(),
                regions@ == old(self).primary(),
                old(self).wf(),
                sel.wf(),
                forall|o: int|
                    sel.covers(o) <==> (exists|k: int|
                        0 <= k < i && (#[trigger] regions@[k]).translate_spec(count as int).covers(
                            o,
                        )),
            decreases n - i,
        {
            proof {
                assert(regions@[i as int].wf());
            }
            let moved: Region = regions[i].translate_by(count);
            let ghost presel = sel;
            sel.insert(moved);
            proof {
                assert forall|o: int|
                    sel.covers(o) implies (exists|k: int|
                    0 <= k < i + 1 && (#[trigger] regions@[k]).translate_spec(count as int).covers(
                        o,
                    )) by {
                    if presel.covers(o) {
                        let k = choose|k: int|
                            0 <= k < i && (#[trigger] regions@[k]).translate_spec(
                                count as int,
                            ).covers(o);
                        assert(regions@[k].translate_spec(count as int).covers(o));
                    } else {
                        assert(moved.covers(o));
                        assert(regions@[i as int].translate_spec(count as int).covers(o));
                    }
                }
                assert forall|o: int|
                    (exists|k: int|
                        0 <= k < i + 1 && (#[trigger] regions@[k]).translate_spec(
                            count as int,
                        ).covers(o)) implies sel.covers(o) by {
                    let k = choose|k: int|
                        0 <= k < i + 1 && (#[trigger] regions@[k]).translate_spec(
                            count as int,
                        ).covers(o);
                    if k == i as int {
                        assert(moved.covers(o));
                    } else {
                        assert(presel.covers(o));
                    }
                }
            }
            i += 1;
        }
        let ghost gsel = sel;
        self.selection_set.set_primary(sel);
        proof {
            assert forall|o: int|
                self.covers(o) <==> (exists|k: int|
                    0 <= k < old(self).primary().len() && (#[trigger] old(self).primary()[k]).translate_spec(
                        count as int,
                    ).covers(o)) by {
                assert(self.covers(o) == gsel.covers(o));
            }
        }
    }

    /// Move every region of the primary selection `count` rows down (or up,
    /// for negative counts), keeping its column and its length as far as the
    /// destination line allows.
    #[verifier::loop_isolation(false)]
    pub fn translate_by_line(&mut self, buffer: &Buffer, count: isize)
        requires
            old(self).wf(),
        ensures
            final(self).wf(),
            final(self).same_except_selection(*old(self)),
            forall|o: int|
                final(self).covers(o) <==> (exists|k: int|
                    0 <= k < old(self).primary().len() && row_shift_spec(
                        buffer.text(),
                        #[trigger] old(self).primary()[k],
                        count as int,
                    ).covers(o)),
    {
        let regions: Vec<Region> = copy_regions(self.selection_set.primary().iter());
        let mut sel: Selection = Selection::new();
        let n: usize = regions.len();
        let mut i: usize = 0;
        while i < n
            invariant
                i <= n == regions@.len(),
                regions@ == old(self).primary(),
                old(self).wf(),
                sel.wf(),
                forall|o: int|
                    sel.covers(o) <==> (exists|k: int|
                        0 <= k < i && row_shift_spec(
                            buffer.text(),
                            #[trigger] regions@[k],
                            count as int,
                        ).covers(o)),
            decreases n - i,
        {
            proof {
                assert(regions@[i as int].wf());
            }
            let region: Region = regions[i];
            let len: usize = buffer.len_chars();
            let b: usize = if region.begin <= len {
                region.begin
            } else {
                len
            };
            let (row, col) = buffer.row_col(b);
            let row2: usize = saturating_shift(row, count);
            let lci = buffer.char_idx(row2, col);
            let want: usize = region.last - region.begin;
            let new_last: usize = if want <= lci.last - lci.query {
                lci.query + want
            } else {
                lci.last
            };
            let moved: Region = Region::ii(lci.query, new_last);
            proof {
                assert(moved == row_shift_spec(buffer.text(), region, count as int));
            }
            let ghost presel = sel;
            sel.insert(moved);
            proof {
                assert forall|o: int|
                    sel.covers(o) implies (exists|k: int|
                    0 <= k < i + 1 && row_shift_spec(
                        buffer.text(),
                        #[trigger] regions@[k],
                        count as int,
                    ).covers(o)) by {
                    if presel.covers(o) {
                        let k = choose|k: int|
                            0 <= k < i && row_shift_spec(
                                buffer.text(),
                                #[trigger] regions@[k],
                                count as int,
                            ).covers(o);
                        assert(row_shift_spec(buffer.text(), regions@[k], count as int).covers(o));
                    } else {
                        assert(moved.covers(o));
                        assert(row_shift_spec(
                            buffer.text(),
                            regions@[i as int],
                            count as int,
                        ).covers(o));
                    }
                }
                assert forall|o: int|
                    (exists|k: int|
                        0 <= k < i + 1 && row_shift_spec(
                            buffer.text(),
                            #[trigger] regions@[k],
                            count as int,
                        ).covers(o)) implies sel.covers(o) by {
                    let k = choose|k: int|
                        0 <= k < i + 1 && row_shift_spec(
                            buffer.text(),
                            #[trigger] regions@[k],
                            count as int,
                        ).covers(o);
                    if k == i as int {
                        assert(moved.covers(o));
                    } else {
                        assert(presel.covers(o));
                    }
                }
            }
            i += 1;
        }
        let ghost gsel = sel;
        self.selection_set.set_primary(sel);
        proof {
            assert forall|o: int|
                self.covers(o) <==> (exists|k: int|
                    0 <= k < old(self).primary().len() && row_shift_spec(
                        buffer.text(),
                        #[trigger] old(self).primary()[k],
                        count as int,
                    ).covers(o)) by {
                assert(self.covers(o) == gsel.covers(o));
            }
        }
    }

    pub fn move_backward(&mut self)
        requires
            old(self).wf(),
        ensures
            final(self).wf(),
            final(self).same_except_selection(*old(self)),
            forall|o: int|
                final(self).covers(o) <==> (exists|k: int|
                    0 <= k < old(self).primary().len() && (#[trigger] old(self).primary()[k]).translate_spec(
                        -1,
                    ).covers(o)),
    {
        self.translate_by(-1);
    }

    pub fn move_forward(&mut self)
        requires
            old(self).wf(),
        ensures
            final(self).wf(),
            final(self).same_except_selection(*old(self)),
            forall|o: int|
                final(self).covers(o) <==> (exists|k: int|
                    0 <= k < old(self).primary().len() && (#[trigger] old(self).primary()[k]).translate_spec(
                        1,
                    ).covers(o)),
    {
        self.translate_by(1);
    }

    pub fn move_down(&mut self, buffer: &Buffer)
        requires
            old(self).wf(),
        ensures
            final(self).wf(),
            final(self).same_except_selection(*old(self)),
            forall|o: int|
                final(self).covers(o) <==> (exists|k: int|
                    0 <= k < old(self).primary().len() && row_shift_spec(
                        buffer.text(),
                        #[trigger] old(self).primary()[k],
                        1,
                    ).covers(o)),
    {
        self.translate_by_line(buffer, 1);
    }

    pub fn move_up(&mut self, buffer: &Buffer)
        requires
            old(self).wf(),
        ensures
            final(self).wf(),
            final(self).same_except_selection(*old(self)),
            forall|o: int|
                final(self).covers(o) <==> (exists|k: int|
                    0 <= k < old(self).primary().len() && row_shift_spec(
                        buffer.text(),
                        #[trigger] old(self).primary()[k],
                        -1,
                    ).covers(o)),
    {
        self.translate_by_line(buffer, -1);
    }

    /// Scroll down by `count` rows, stopping so that the viewport keeps at
    /// least the last line in reach.
    pub fn scroll_down(&mut self, buffer: &Buffer, count: usize)
        ensures
            ({
                let max_y = if line_count(buffer.text()) >= 2 {
                    line_count(buffer.text()) - 2
                } else {
                    0
                };
                let shifted = clamp_shift(old(self).position.y as int, count as int);
                &&& final(self).position.y == (if shifted <= max_y {
                    shifted
                } else {
                    max_y
                })
                &&& final(self).position.x == old(self).position.x
                &&& *final(self) == (View {
                    position: final(self).position,
                    ..*old(self)
                })
            }),
    {
        let len_lines: usize = buffer.len_lines();
        let max_y: usize = if len_lines >= 2 {
            len_lines - 2
        } else {
            0
        };
        let shifted: usize = if self.position.y <= usize::MAX - count {
            self.position.y + count
        } else {
            usize::MAX
        };
        self.position.y = if shifted <= max_y {
            shifted
        } else {
            max_y
        };
    }

    pub fn scroll_up(&mut self, count: usize)
        ensures
            final(self).position.y == (if old(self).position.y >= count {
                old(self).position.y - count
            } else {
                0
            }),
            final(self).position.x == old(self).position.x,
            *final(self) == (View { position: final(self).position, ..*old(self) }),
    {
        self.position.y = if self.position.y >= count {
            self.position.y - count
        } else {
            0
        };
    }

    pub fn scroll_left(&mut self, count: usize)
        ensures
            final(self).position.x == (if old(self).position.x >= count {
                old(self).position.x - count
            } else {
                0
            }),
            final(self).position.y == old(self).position.y,
            *final(self) == (View { position: final(self).position, ..*old(self) }),
    {
        self.position.x = if self.position.x >= count {
            self.position.x - count
        } else {
            0
        };
    }

    pub fn scroll_right(&mut self, count: usize)
        ensures
            final(self).position.x == clamp_shift(old(self).position.x as int, count as int),
            final(self).position.y == old(self).position.y,
            *final(self) == (View { position: final(self).position, ..*old(self) }),
    {
        self.position.x = if self.position.x <= usize::MAX - count {
            self.position.x + count
        } else {
            usize::MAX
        };
    }

    /// Enter search-entry mode.
    pub fn begin_search(&mut self)
        ensures
            final(self).context is Search,
            *final(self) == (View { context: Context::Search, ..*old(self) }),
    {
        self.context = Context::Search;
    }

    /// Append one character to the query being typed.
    pub fn push_search(&mut self, chr: char)
        ensures
            final(self).search.query@ == old(self).search.query@.push(chr),
            *final(self) == (View { search: final(self).search, ..*old(self) }),
    {
        self.search.push(chr);
    }

    /// Leave search-entry mode without touching the selections.
    pub fn close_search(&mut self)
        ensures
            final(self).context is Buffer,
            *final(self) == (View { context: Context::Buffer, ..*old(self) }),
    {
        self.context = Context::Buffer;
    }

    /// Run the accumulated query over the buffer: the primary selection
    /// becomes exactly the offsets lying inside some occurrence of the query
    /// (overlapping occurrences merged), the query is cleared, and the view
    /// returns to editing mode.
    #[verifier::loop_isolation(false)]
    pub fn submit_search(&mut self, buffer: &Buffer)
        requires
            old(self).wf(),
        ensures
            final(self).wf(),
            final(self).context is Buffer,
            final(self).search.query@ =~= Seq::<char>::empty(),
            final(self).selection_set.selections@.len() == 1,
            final(self).id == old(self).id,
            final(self).buffer_id == old(self).buffer_id,
            final(self).position == old(self).position,
            final(self).header == old(self).header,
            forall|o: int|
                final(self).covers(o) <==> in_some_match(
                    buffer.text(),
                    old(self).search.query@,
                    o,
                ),
    {
        let ghost q = self.search.query@;
        let it = buffer.search(&self.search.query);
        let ms: Vec<Region> = it.collect_all();
        let mut sel: Selection = Selection::new();
        let n: usize = ms.len();
        let mut i: usize = 0;
        while i < n
            invariant
                i <= n == ms@.len(),
                sel.wf(),
                forall|k: int|
                    0 <= k < n ==> {
                        let reg = (#[trigger] ms@[k]);
                        &&& is_match(buffer.text(), q, reg.begin as int)
                        &&& reg.last == reg.begin + q.len() - 1
                    },
                forall|b: int|
                    is_match(buffer.text(), q, b) ==> exists|k: int|
                        0 <= k < n && ms@[k].begin == b,
                forall|o: int|
                    sel.covers(o) <==> (exists|k: int|
                        0 <= k < i && (#[trigger] ms@[k]).covers(o)),
            decreases n - i,
        {
            let reg: Region = ms[i];
            proof {
                assert(reg.wf());
            }
            let ghost presel = sel;
            sel.insert(reg);
            proof {
                assert forall|o: int|
                    sel.covers(o) implies (exists|k: int|
                    0 <= k < i + 1 && (#[trigger] ms@[k]).covers(o)) by {
                    if presel.covers(o) {
                        let k = choose|k: int| 0 <= k < i && (#[trigger] ms@[k]).covers(o);
                        assert(ms@[k].covers(o));
                    } else {
                        assert(reg.covers(o));
                        assert(ms@[i as int].covers(o));
                    }
                }
                assert forall|o: int|
                    (exists|k: int| 0 <= k < i + 1 && (#[trigger] ms@[k]).covers(o)) implies sel.covers(
                    o,
                ) by {
                    let k = choose|k: int| 0 <= k < i + 1 && (#[trigger] ms@[k]).covers(o);
                    if k == i as int {
                        assert(reg.covers(o));
                    } else {
                        assert(presel.covers(o));
                    }
                }
            }
            i += 1;
        }
        proof {
            assert forall|o: int| in_some_match(buffer.text(), q, o) implies (exists|k: int|
                0 <= k < n && (#[trigger] ms@[k]).covers(o)) by {
                let b = choose|b: int|
                    is_match(buffer.text(), q, b) && b <= o < b + q.len();
                let k = choose|k: int| 0 <= k < n && ms@[k].begin == b;
                assert(ms@[k].covers(o));
            }
            assert forall|k: int, o: int|
                0 <= k < n && #[trigger] ms@[k].covers(o) implies in_some_match(
                buffer.text(),
                q,
                o,
            ) by {
                assert(is_match(buffer.text(), q, ms@[k].begin as int));
                assert(ms@[k].begin <= o < ms@[k].begin + q.len());
            }
        }
        let ghost gsel = sel;
        let mut selections: Vec<Selection> = Vec::new();
        selections.push(sel);
        self.selection_set = SelectionSet { selections };
        self.close_search();
        self.search.clear();
        proof {
            assert(self.primary() == gsel.regions@);
            assert forall|o: int|
                self.covers(o) <==> in_some_match(buffer.text(), q, o) by {
                assert(self.covers(o) == gsel.covers(o));
                if gsel.covers(o) {
                    let k = choose|k: int| 0 <= k < n && (#[trigger] ms@[k]).covers(o);
                    assert(in_some_match(buffer.text(), q, o));
                }
                if in_some_match(buffer.text(), q, o) {
                    assert(exists|k: int| 0 <= k < n && (#[trigger] ms@[k]).covers(o));
                }
            }
        }
    }

    /// Simultaneous multi-cursor typing: for the primary selection's regions
    /// in order, region `k`'s character lands at its begin plus `k` (each
    /// earlier insertion having shifted the rest by one); an out-of-bounds
    /// target is skipped.  Each region collapses to a bare cursor one
    /// position past its insertion point.
    pub fn insert_char(&mut self, buffer: &mut Buffer, chr: char)
        requires
            old(self).wf(),
        ensures
            final(self).wf(),
            final(self).same_except_selection(*old(self)),
            final(buffer).id == old(buffer).id,
            final(buffer).text() == multi_insert(
                old(buffer).text(),
                insert_targets(old(self).primary()),
                chr,
            ),
            forall|o: int|
                final(self).covers(o) <==> (exists|k: int|
                    0 <= k < old(self).primary().len() && o == clamp_shift(
                        #[trigger] insert_targets(old(self).primary())[k],
                        1,
                    )),
    {
        let regions: Vec<Region> = copy_regions(self.selection_set.primary().iter());
        let sel: Selection = insert_at_cursors(buffer, &regions, chr);
        let ghost gsel = sel;
        self.selection_set.set_primary(sel);
        proof {
            assert(regions@ == old(self).primary());
            assert forall|o: int|
                self.covers(o) <==> (exists|k: int|
                    0 <= k < old(self).primary().len() && o == clamp_shift(
                        #[trigger] insert_targets(old(self).primary())[k],
                        1,
                    )) by {
                assert(self.covers(o) == gsel.covers(o));
                assert(gsel.covers(o) <==> (exists|k: int|
                    0 <= k < regions@.len() && o == clamp_shift(
                        #[trigger] insert_targets(regions@)[k],
                        1,
                    )));
            }
        }
    }

    /// What a save would write: the header's path with the buffer's whole
    /// contents, or nothing for an untitled view.
    pub fn save(&self, buffer: &Buffer) -> (r: Option<SaveFile>)
        ensures
            match r {
                Some(s) => {
                    &&& self.header.filepath is Some
                    &&& s.path@ == self.header.filepath->Some_0.text@
                    &&& s.content@ == buffer.text()
                },
                None => self.header.filepath is None,
            },
    {
        match self.header.path() {
            Some(p) => Some(
                SaveFile { path: String::from_str(p.as_str()), content: buffer.content() },
            ),
            None => None,
        }
    }
}

} // verus!
