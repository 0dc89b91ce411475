use vstd::prelude::*;
use crate::error::Error;
use crate::position::Position;
use crate::region::Region;
use crate::text::{
    line_count, line_len, line_of, line_start, lemma_line_of_monotone, lemma_line_start_bounds,
    lemma_line_start_le, lemma_line_start_monotone, rope_char_to_line, rope_from_str,
    rope_insert_char, rope_len_chars, rope_len_lines, rope_line_len, rope_line_to_char, rope_new,
    rope_slice_string, rope_string, rope_text,
};

verus! {

/// The resolved offsets of a row/column lookup: the bounds `[begin, last]` of
/// the clamped row's line, and `query`, the offset of the clamped column
/// within it.  Callers use the bounds to clamp dependent operations without a
/// second lookup.
#[derive(Debug, PartialEq, Eq, Structural)]
pub struct LineCharIndices {
    pub begin: usize,
    pub last: usize,
    pub query: usize,
}

/// One visible row of a windowed slice: the clipped characters of a line,
/// the buffer sub-range `[begin, end)` they came from, and the same range as
/// a region (`None` when the range is empty).
#[derive(Debug)]
pub struct SubLine {
    pub text: String,
    pub begin: usize,
    pub end: usize,
    pub region: Option<Region>,
}

/// The character range of line `row` visible through a viewport scrolled to
/// column `x` with `width` columns: the line clipped to `[x, x + width)`,
/// as absolute begin and end offsets.
pub open spec fn visible_range(t: Seq<char>, row: int, x: int, width: int) -> (int, int) {
    let ls = line_start(t, row);
    let ll = line_len(t, row);
    let e = if x + width < ll {
        x + width
    } else {
        ll
    };
    let b = if x < e {
        x
    } else {
        e
    };
    (ls + b, ls + e)
}

/// The row actually addressed when `row` is asked for: clamped into
/// `[0, line_count - 1]`.
pub open spec fn clamped_row(t: Seq<char>, row: int) -> int {
    if row <= line_count(t) - 1 {
        row
    } else {
        line_count(t) - 1
    }
}

/// The highest column addressable on line `row` (0 on an empty line).
pub open spec fn line_max_col(t: Seq<char>, row: int) -> int {
    let ll = line_len(t, row);
    if ll > 0 {
        ll - 1
    } else {
        0
    }
}

/// The offset a (row, col) lookup resolves to: the clamped row's start plus
/// the clamped column.
pub open spec fn char_idx_query(t: Seq<char>, row: int, col: int) -> int {
    let rc = clamped_row(t, row);
    let mc = line_max_col(t, rc);
    line_start(t, rc) + (if col <= mc {
        col
    } else {
        mc
    })
}

/// The last offset of the clamped row's line bounds.
pub open spec fn char_idx_last(t: Seq<char>, row: int) -> int {
    let rc = clamped_row(t, row);
    line_start(t, rc) + line_max_col(t, rc)
}

/// Relies on `ulid::Ulid::new` to mint identifiers.  Freshness is
/// probabilistic (random bits plus the clock), so nothing is assumed of the
/// returned value; every contract downstream holds for any id.
#[verifier::external_body]
pub(crate) fn mint_id() -> (r: u128)
{
    ulid::Ulid::new().0
}

/// One rope-backed document with a stable id.  Mutated only by
/// offset-addressed insertion; addressed by row/column lookups that clamp
/// instead of failing.
#[derive(Debug)]
pub struct Buffer {
    pub id: u128,
    pub rope: ropey::Rope,
}

impl Default for Buffer {
    /// Empty buffer under a freshly minted id.
    fn default() -> (r: Buffer)
        ensures
            r.text() =~= Seq::<char>::empty(),
    {
        Buffer::new_empty(mint_id())
    }
}

impl Buffer {
    /// The characters the buffer holds.
    pub open spec fn text(self) -> Seq<char> {
        rope_text(self.rope)
    }

    /// Empty buffer under the given id.
    pub fn new_empty(id: u128) -> (r: Buffer)
        ensures
            r.id == id,
            r.text() =~= Seq::<char>::empty(),
    {
        Buffer { id, rope: rope_new() }
    }

    /// Buffer holding the characters of `s`, under the given id.
    pub fn from_text(id: u128, s: &str) -> (r: Buffer)
        ensures
            r.id == id,
            r.text() == s@,
    {
        Buffer { id, rope: rope_from_str(s) }
    }

    pub fn id(&self) -> (r: u128)
        ensures
            r == self.id,
    {
        self.id
    }

    pub fn len_chars(&self) -> (r: usize)
        ensures
            r == self.text().len(),
    {
        rope_len_chars(&self.rope)
    }

    /// Number of lines, the final line counted even when empty.
    pub fn len_lines(&self) -> (r: usize)
        ensures
            r == line_count(self.text()),
    {
        rope_len_lines(&self.rope)
    }

    /// The whole contents as a string (what a save writes out).
    pub fn content(&self) -> (r: String)
        ensures
            r@ == self.text(),
    {
        rope_string(&self.rope)
    }

    /// Insert `c` at char offset `o`.  Fails — it does not clamp — when `o`
    /// is out of bounds; this is deliberately stricter than the clamping
    /// row/column lookups.
    pub fn insert_char(&mut self, o: usize, c: char) -> (r: Result<(), Error>)
        ensures
            final(self).id == old(self).id,
            o <= old(self).text().len() ==> r is Ok && final(self).text() == old(
                self,
            ).text().insert(o as int, c),
            o > old(self).text().len() ==> r is Err && r->Err_0.is_out_of_bounds() && *final(self)
                == *old(self),
    {
        let len: usize = rope_len_chars(&self.rope);
        if o > len {
            Err(Error::OutOfBounds { offset: o, len })
        } else {
            rope_insert_char(&mut self.rope, o, c);
            Ok(())
        }
    }

    /// The row an offset lies on and the column within that row.
    pub fn row_col(&self, o: usize) -> (rc: (usize, usize))
        requires
            o <= self.text().len(),
        ensures
            rc.0 == line_of(self.text(), o as int),
            rc.1 == o - line_start(self.text(), line_of(self.text(), o as int)),
    {
        proof {
            lemma_line_of_monotone(self.text(), o as int, self.text().len() as int);
            lemma_line_start_le(self.text(), o as int);
        }
        let row: usize = rope_char_to_line(&self.rope, o);
        let begin: usize = rope_line_to_char(&self.rope, row);
        (row, o - begin)
    }

    /// Resolve (row, col) to an absolute offset, clamping the row into
    /// `[0, len_lines - 1]` and the column into the clamped row's bounds —
    /// saturating, never out of range.  Returns the resolved offset together
    /// with that line's `[begin, last]` offsets.
    pub fn char_idx(&self, row: usize, col: usize) -> (r: LineCharIndices)
        ensures
            ({
                let t = self.text();
                let row_c = clamped_row(t, row as int);
                &&& r.begin == line_start(t, row_c)
                &&& r.last == char_idx_last(t, row as int)
                &&& r.query == char_idx_query(t, row as int, col as int)
                &&& r.begin <= r.query <= r.last
                &&& line_of(t, r.query as int) == row_c
            }),
    {
        proof {
            crate::text::lemma_line_of_nonneg(self.text(), self.text().len() as int);
        }
        // reading the length establishes that the text fits the offset range
        let _len: usize = rope_len_chars(&self.rope);
        let len_lines: usize = rope_len_lines(&self.rope);
        let max_row: usize = len_lines - 1;
        let row_c: usize = if row <= max_row {
            row
        } else {
            max_row
        };
        proof {
            lemma_line_start_bounds(self.text(), row_c as int);
            lemma_line_start_monotone(self.text(), row_c as int + 1, line_count(self.text()));
            lemma_line_start_bounds(self.text(), line_count(self.text()));
            crate::text::lemma_line_of_line_start(self.text(), row_c as int);
            crate::text::lemma_query_line(self.text(), row_c as int);
        }
        let begin: usize = rope_line_to_char(&self.rope, row_c);
        let ll: usize = rope_line_len(&self.rope, row_c);
        proof {
            assert(begin + ll == line_start(self.text(), row_c as int + 1));
        }
        let max_col: usize = if ll > 0 {
            ll - 1
        } else {
            0
        };
        let col_c: usize = if col <= max_col {
            col
        } else {
            max_col
        };
        LineCharIndices { begin, last: begin + max_col, query: begin + col_c }
    }

    /// Lazy streaming search for `query` over the buffer's characters.
    pub fn search<'q, 'r>(&'r self, query: &'q Vec<char>) -> (r: crate::search::SearchIter<'q, 'r>)
        ensures
            r.wf(),
            r.text() == self.text(),
            r.q() == query@,
            r.pos == 0,
    {
        crate::search::SearchIter::new(&self.rope, query)
    }

    /// The rows visible through a viewport anchored at `position`, at most
    /// `height` of them, each clipped to the viewport's `width` columns and
    /// paired with the buffer sub-range it came from.  A running offset
    /// tracks the rows, so no row needs a second lookup.
    #[verifier::loop_isolation(false)]
    pub fn sub_lines(&self, position: &Position, width: u16, height: u16) -> (r: Vec<SubLine>)
        ensures
            ({
                let t = self.text();
                let shown = if (position.y as int) < line_count(t) {
                    if line_count(t) - position.y <= height as int {
                        line_count(t) - position.y
                    } else {
                        height as int
                    }
                } else {
                    0
                };
                &&& r@.len() == shown
                &&& forall|k: int|
                    0 <= k < shown ==> {
                        let (a, b) = visible_range(t, position.y + k, position.x as int, width as int);
                        &&& (#[trigger] r@[k]).text@ == t.subrange(a, b)
                        &&& r@[k].begin == a
                        &&& r@[k].end == b
                        &&& r@[k].region == (if a < b {
                            Some(Region { begin: a as usize, last: (b - 1) as usize, reversed: false })
                        } else {
                            None::<Region>
                        })
                    }
            }),
    {
        let mut result: Vec<SubLine> = Vec::new();
        // reading the length establishes that the text fits the offset range
        let _len: usize = rope_len_chars(&self.rope);
        let len_lines: usize = rope_len_lines(&self.rope);
        let y: usize = position.y;
        let x: usize = position.x;
        if y >= len_lines {
            return result;
        }
        let end_row: usize = if len_lines - y <= height as usize {
            len_lines
        } else {
            y + height as usize
        };
        proof {
            lemma_line_start_bounds(self.text(), y as int);
        }
        let mut line_char_idx: usize = rope_line_to_char(&self.rope, y);
        let mut row: usize = y;

        while row < end_row
            invariant
                y <= row <= end_row,
                line_char_idx == line_start(self.text(), row as int),
                result@.len() == row - y,
                forall|k: int|
                    0 <= k < row - y ==> {
                        let (a, b) = visible_range(
                            self.text(),
                            y + k,
                            x as int,
                            width as int,
                        );
                        &&& (#[trigger] result@[k]).text@ == self.text().subrange(a, b)
                        &&& result@[k].begin == a
                        &&& result@[k].end == b
                        &&& result@[k].region == (if a < b {
                            Some(Region { begin: a as usize, last: (b - 1) as usize, reversed: false })
                        } else {
                            None::<Region>
                        })
                    },
            decreases end_row - row,
        {
            proof {
                lemma_line_start_bounds(self.text(), row as int + 1);
                lemma_line_start_monotone(self.text(), row as int, row as int + 1);
                assert(line_char_idx + line_len(self.text(), row as int) == line_start(
                    self.text(),
                    row as int + 1,
                ));
            }
            let ll: usize = rope_line_len(&self.rope, row);
            let e: usize = if x < ll && ll - x > width as usize {
                x + width as usize
            } else {
                ll
            };
            let b: usize = if x < e {
                x
            } else {
                e
            };
            let a_abs: usize = line_char_idx + b;
            let b_abs: usize = line_char_idx + e;
            let text = rope_slice_string(&self.rope, a_abs, b_abs);
            let region = Region::try_ie(a_abs, b_abs);
            result.push(SubLine { text, begin: a_abs, end: b_abs, region });
            line_char_idx = line_char_idx + ll;
            row = row + 1;
        }
        result
    }
}

/// Consecutive visible rows cover non-overlapping, ordered offset ranges.
pub proof fn lemma_visible_monotone(t: Seq<char>, row: int, x: int, width: int)
    requires
        0 <= x,
        0 <= width,
        0 <= row,
    ensures
        ({
            let (a, b) = visible_range(t, row, x, width);
            let (a2, b2) = visible_range(t, row + 1, x, width);
            a <= b && b <= a2
        }),
{
    crate::text::lemma_line_start_monotone(t, row, row + 1);
    crate::text::lemma_line_start_monotone(t, row + 1, row + 2);
}

} // verus!
