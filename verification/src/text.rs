//! Mathematical model of a text as a sequence of characters with `'\n'` line
//! breaks, and the trusted boundary to the rope that stores it.

use vstd::prelude::*;

verus! {

/// The characters a rope holds, in order.  This is the single name through
/// which every contract speaks of a rope's contents.
pub uninterp spec fn rope_text(rope: ropey::Rope) -> Seq<char>;

#[verifier::external_type_specification]
#[verifier::external_body]
pub struct ExRope(ropey::Rope);

/// Number of lines the offset `o` is past: the count of `'\n'` characters
/// among the first `o` characters of `t`.  This is the line an offset lies on
/// (a `'\n'` lies on the line it ends).
pub open spec fn line_of(t: Seq<char>, o: int) -> int
    decreases t.len(),
{
    if o <= 0 || t.len() == 0 {
        0
    } else {
        (if t[0] == '\n' {
            1int
        } else {
            0int
        }) + line_of(t.drop_first(), o - 1)
    }
}

/// Number of `'\n'` characters in `t`.
pub open spec fn newline_count(t: Seq<char>) -> int {
    line_of(t, t.len() as int)
}

/// Number of lines of `t`: one more than the number of line breaks, so the
/// final line (after the last `'\n'`) counts even when empty.
pub open spec fn line_count(t: Seq<char>) -> int {
    newline_count(t) + 1
}

/// Offset of the first character of line `row`: the position just past the
/// `row`-th `'\n'`.  For `row == 0` this is `0`; for any `row` past the last
/// line it is `t.len()`.
pub open spec fn line_start(t: Seq<char>, row: int) -> int
    decreases t.len(),
{
    if row <= 0 || t.len() == 0 {
        0
    } else if t[0] == '\n' {
        1 + line_start(t.drop_first(), row - 1)
    } else {
        1 + line_start(t.drop_first(), row)
    }
}

/// Number of characters of line `row`, the terminating `'\n'` included (the
/// final line has none).
pub open spec fn line_len(t: Seq<char>, row: int) -> int {
    line_start(t, row + 1) - line_start(t, row)
}

/// `line_of` never decreases along the text.
pub proof fn lemma_line_of_monotone(t: Seq<char>, o1: int, o2: int)
    requires
        o1 <= o2,
    ensures
        line_of(t, o1) <= line_of(t, o2),
    decreases t.len(),
{
    if o1 > 0 && t.len() > 0 {
        lemma_line_of_monotone(t.drop_first(), o1 - 1, o2 - 1);
    } else if t.len() > 0 && o2 > 0 {
        lemma_line_of_nonneg(t.drop_first(), o2 - 1);
    }
}

pub proof fn lemma_line_of_nonneg(t: Seq<char>, o: int)
    ensures
        line_of(t, o) >= 0,
    decreases t.len(),
{
    if o > 0 && t.len() > 0 {
        lemma_line_of_nonneg(t.drop_first(), o - 1);
    }
}

/// A line's start offset lies within the text.
pub proof fn lemma_line_start_bounds(t: Seq<char>, row: int)
    ensures
        0 <= line_start(t, row) <= t.len(),
    decreases t.len(),
{
    if row > 0 && t.len() > 0 {
        lemma_line_start_bounds(t.drop_first(), row - 1);
        lemma_line_start_bounds(t.drop_first(), row);
    }
}

/// Later lines start no earlier.
pub proof fn lemma_line_start_monotone(t: Seq<char>, r1: int, r2: int)
    requires
        r1 <= r2,
    ensures
        line_start(t, r1) <= line_start(t, r2),
    decreases t.len(),
{
    if t.len() > 0 {
        if r1 > 0 {
            if t[0] == '\n' {
                lemma_line_start_monotone(t.drop_first(), r1 - 1, r2 - 1);
            } else {
                lemma_line_start_monotone(t.drop_first(), r1, r2);
            }
        } else {
            lemma_line_start_bounds(t, r2);
        }
    }
}

/// An offset lies at or past the start of the line it is on.
pub proof fn lemma_line_start_le(t: Seq<char>, o: int)
    requires
        0 <= o <= t.len(),
    ensures
        line_start(t, line_of(t, o)) <= o,
    decreases t.len(),
{
    if o > 0 && t.len() > 0 {
        lemma_line_of_nonneg(t.drop_first(), o - 1);
        lemma_line_start_le(t.drop_first(), o - 1);
    }
}

/// An offset lies strictly before the start of the next line.
pub proof fn lemma_line_start_next(t: Seq<char>, o: int)
    requires
        0 <= o < t.len(),
    ensures
        o < line_start(t, line_of(t, o) + 1),
    decreases t.len(),
{
    let tr = t.drop_first();
    if o > 0 {
        lemma_line_of_nonneg(tr, o - 1);
        lemma_line_start_next(tr, o - 1);
        if t[0] == '\n' {
            assert(line_of(t, o) == 1 + line_of(tr, o - 1));
            assert(line_start(t, line_of(t, o) + 1) == 1 + line_start(
                tr,
                line_of(tr, o - 1) + 1,
            ));
        } else {
            assert(line_of(t, o) == line_of(tr, o - 1));
            assert(line_start(t, line_of(t, o) + 1) == 1 + line_start(
                tr,
                line_of(tr, o - 1) + 1,
            ));
        }
    } else {
        lemma_line_start_bounds(tr, 1);
        assert(line_of(t, 0) == 0);
        if t[0] == '\n' {
            assert(line_start(t, 1) == 1 + line_start(tr, 0));
        } else {
            assert(line_start(t, 1) == 1 + line_start(tr, 1));
        }
    }
}

/// The line of a line's start offset is the line itself, for every line the
/// text has.
pub proof fn lemma_line_of_line_start(t: Seq<char>, row: int)
    requires
        0 <= row <= newline_count(t),
    ensures
        line_of(t, line_start(t, row)) == row,
    decreases t.len(),
{
    if t.len() > 0 {
        if row > 0 {
            if t[0] == '\n' {
                lemma_line_of_line_start(t.drop_first(), row - 1);
            } else {
                lemma_line_of_line_start(t.drop_first(), row);
            }
        }
    }
}

/// Every offset within a line — at the line's start, or anywhere before the
/// next line's start — lies on that line.
pub proof fn lemma_query_line(t: Seq<char>, row: int)
    requires
        0 <= row <= newline_count(t),
    ensures
        forall|o: int|
            line_start(t, row) <= o <= t.len() && (o < line_start(t, row + 1) || o == line_start(
                t,
                row,
            )) ==> line_of(t, o) == row,
{
    lemma_line_of_line_start(t, row);
    assert forall|o: int|
        line_start(t, row) <= o <= t.len() && (o < line_start(t, row + 1) || o == line_start(
            t,
            row,
        )) implies line_of(t, o) == row by {
        lemma_line_of_monotone(t, line_start(t, row), o);
        if o > line_start(t, row) {
            if line_of(t, o) > row {
                lemma_line_start_le(t, o);
                lemma_line_start_monotone(t, row + 1, line_of(t, o));
            }
        }
    }
}

/// Relies on `ropey::Rope::new`: a fresh rope holds no characters.
#[verifier::external_body]
pub(crate) fn rope_new() -> (r: ropey::Rope)
    ensures
        rope_text(r) =~= Seq::<char>::empty(),
{
    ropey::Rope::new()
}

/// Relies on `ropey::Rope::from_str`: the rope holds exactly the characters
/// of the string.
#[verifier::external_body]
pub(crate) fn rope_from_str(s: &str) -> (r: ropey::Rope)
    ensures
        rope_text(r) == s@,
{
    ropey::Rope::from_str(s)
}

/// Relies on `ropey::Rope::len_chars`: the total character count.
#[verifier::external_body]
pub(crate) fn rope_len_chars(rope: &ropey::Rope) -> (r: usize)
    ensures
        r == rope_text(*rope).len(),
{
    rope.len_chars()
}

/// Relies on `ropey::Rope::len_lines` (built without Unicode line breaks, so
/// only `'\n'` ends a line): one more than the number of line breaks.
#[verifier::external_body]
pub(crate) fn rope_len_lines(rope: &ropey::Rope) -> (r: usize)
    ensures
        r == line_count(rope_text(*rope)),
{
    rope.len_lines()
}

/// Relies on `ropey::Rope::line_to_char`: the char index of the first
/// character of the given line; one-past-the-end rows give the text length.
#[verifier::external_body]
pub(crate) fn rope_line_to_char(rope: &ropey::Rope, row: usize) -> (r: usize)
    requires
        row < line_count(rope_text(*rope)) + 1,
    ensures
        r == line_start(rope_text(*rope), row as int),
{
    rope.line_to_char(row)
}

/// Relies on `ropey::Rope::char_to_line`: the line the given char offset lies
/// on (the one-past-the-end offset lies on the last line).
#[verifier::external_body]
pub(crate) fn rope_char_to_line(rope: &ropey::Rope, o: usize) -> (r: usize)
    requires
        o <= rope_text(*rope).len(),
    ensures
        r == line_of(rope_text(*rope), o as int),
{
    rope.char_to_line(o)
}

/// Relies on `ropey::Rope::line` and `ropey::RopeSlice::len_chars`: the
/// character count of the given line, its `'\n'` included.
#[verifier::external_body]
pub(crate) fn rope_line_len(rope: &ropey::Rope, row: usize) -> (r: usize)
    requires
        row < line_count(rope_text(*rope)),
    ensures
        r == line_len(rope_text(*rope), row as int),
{
    rope.line(row).len_chars()
}

/// Relies on `ropey::Rope::char`: the character at the given offset.
#[verifier::external_body]
pub(crate) fn rope_char_at(rope: &ropey::Rope, o: usize) -> (r: char)
    requires
        o < rope_text(*rope).len(),
    ensures
        r == rope_text(*rope)[o as int],
{
    rope.char(o)
}

/// Relies on `ropey::Rope::insert_char`: inserts the character at the given
/// char offset.
#[verifier::external_body]
pub(crate) fn rope_insert_char(rope: &mut ropey::Rope, o: usize, c: char)
    requires
        o <= rope_text(*old(rope)).len(),
    ensures
        rope_text(*final(rope)) == rope_text(*old(rope)).insert(o as int, c),
{
    rope.insert_char(o, c);
}

/// Relies on `ropey::Rope::slice` and the `Display` impl of
/// `ropey::RopeSlice`: the characters of the char range `[a, b)` as a string.
#[verifier::external_body]
pub(crate) fn rope_slice_string(rope: &ropey::Rope, a: usize, b: usize) -> (r: String)
    requires
        a <= b <= rope_text(*rope).len(),
    ensures
        r@ == rope_text(*rope).subrange(a as int, b as int),
{
    rope.slice(a..b).to_string()
}

/// Relies on the `Display` impl of `ropey::Rope`: the whole contents as a
/// string.
#[verifier::external_body]
pub(crate) fn rope_string(rope: &ropey::Rope) -> (r: String)
    ensures
        r@ == rope_text(*rope),
{
    rope.to_string()
}

} // verus!
