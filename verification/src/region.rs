use vstd::prelude::*;

verus! {

/// Shift `x` by `d` and clamp the result into the `usize` range, as
/// `usize::saturating_add_signed` does.
pub open spec fn clamp_shift(x: int, d: int) -> int {
    if x + d < 0 {
        0
    } else if x + d > usize::MAX {
        usize::MAX as int
    } else {
        x + d
    }
}

/// An inclusive interval `[begin, last]` of character offsets together with a
/// flag recording the anchor direction.  A unit region (`begin == last`)
/// represents a bare cursor.
#[derive(Clone, Copy, Debug, PartialEq, Eq, Structural)]
pub struct Region {
    pub begin: usize,
    pub last: usize,
    pub reversed: bool,
}

impl Region {
    /// A region is well formed when its endpoints are ordered.
    pub open spec fn wf(self) -> bool {
        self.begin <= self.last
    }

    /// The offset `o` lies inside the region.
    pub open spec fn covers(self, o: int) -> bool {
        self.begin <= o <= self.last
    }

    /// Number of offsets covered, as a mathematical integer.
    pub open spec fn spec_len(self) -> int {
        self.last - self.begin + 1
    }

    /// Two regions touch or overlap when no offset separates them.
    pub open spec fn touches(self, other: Region) -> bool {
        self.begin <= other.last + 1 && other.begin <= self.last + 1
    }

    /// The result of shifting both endpoints by `d`, saturating into the
    /// `usize` range.
    pub open spec fn translate_spec(self, d: int) -> Region {
        Region {
            begin: clamp_shift(self.begin as int, d) as usize,
            last: clamp_shift(self.last as int, d) as usize,
            reversed: self.reversed,
        }
    }

    /// Forward (left-to-right) region over `[begin, last]`.
    pub fn ii(begin: usize, last: usize) -> (r: Region)
        requires
            begin <= last,
        ensures
            r == (Region { begin, last, reversed: false }),
    {
        Region { begin, last, reversed: false }
    }

    /// Forward region over `[begin, last]`; rejects inverted endpoint pairs.
    pub fn try_ii(begin: usize, last: usize) -> (r: Option<Region>)
        ensures
            begin <= last ==> r == Some(Region { begin, last, reversed: false }),
            begin > last ==> r is None,
    {
        if begin <= last {
            Some(Region { begin, last, reversed: false })
        } else {
            None
        }
    }

    /// Bare cursor at `begin`.
    pub fn unit(begin: usize) -> (r: Region)
        ensures
            r == (Region { begin, last: begin, reversed: false }),
    {
        Region { begin, last: begin, reversed: false }
    }

    /// Forward region over `[begin, end)`, the end exclusive; rejects every
    /// empty or inverted range, so a region always covers at least one
    /// offset.
    pub fn try_ie(begin: usize, end: usize) -> (r: Option<Region>)
        ensures
            begin < end ==> r == Some(
                Region { begin, last: (end - 1) as usize, reversed: false },
            ),
            begin >= end ==> r is None,
    {
        if begin < end {
            Some(Region { begin, last: end - 1, reversed: false })
        } else {
            None
        }
    }

    pub fn begin(&self) -> (r: usize)
        ensures
            r == self.begin,
    {
        self.begin
    }

    pub fn last(&self) -> (r: usize)
        ensures
            r == self.last,
    {
        self.last
    }

    pub fn reversed(&self) -> (r: bool)
        ensures
            r == self.reversed,
    {
        self.reversed
    }

    /// One past the last covered offset, saturating at `usize::MAX`.
    pub fn end_exclusive(&self) -> (r: usize)
        ensures
            r == clamp_shift(self.last as int, 1),
    {
        if self.last < usize::MAX {
            self.last + 1
        } else {
            usize::MAX
        }
    }

    /// Number of covered offsets: `last - begin + 1`, saturating at
    /// `usize::MAX` when the interval covers the whole offset range.
    pub fn len(&self) -> (r: usize)
        requires
            self.wf(),
        ensures
            self.last < usize::MAX ==> r == self.spec_len(),
            self.last == usize::MAX ==> r == usize::MAX - self.begin,
    {
        let end: usize = self.end_exclusive();
        end - self.begin
    }

    /// Largest region covered by both, or `None` if the two are disjoint.
    pub fn intersect(&self, other: &Region) -> (r: Option<Region>)
        ensures
            ({
                let begin = if self.begin >= other.begin { self.begin } else { other.begin };
                let last = if self.last <= other.last { self.last } else { other.last };
                if begin <= last {
                    r == Some(Region { begin: begin as usize, last: last as usize, reversed: false })
                } else {
                    r is None
                }
            }),
            r is Some ==> (forall|o: int| r->Some_0.covers(o) <==> self.covers(o) && other.covers(o)),
            r is None ==> (forall|o: int| !(self.covers(o) && other.covers(o))),
    {
        let begin: usize = if self.begin >= other.begin { self.begin } else { other.begin };
        let last: usize = if self.last <= other.last { self.last } else { other.last };
        Region::try_ii(begin, last)
    }

    /// The same region with its begin moved to `begin`; rejects a begin past
    /// `last`.
    pub fn try_with_begin(&self, begin: usize) -> (r: Option<Region>)
        ensures
            begin <= self.last ==> r == Some(
                Region { begin, last: self.last, reversed: self.reversed },
            ),
            begin > self.last ==> r is None,
    {
        if begin <= self.last {
            Some(Region { begin, last: self.last, reversed: self.reversed })
        } else {
            None
        }
    }

    /// Shift both endpoints by `count`, saturating at the ends of the `usize`
    /// range; the result is always a valid region.
    pub fn translate_by(&self, count: isize) -> (r: Region)
        requires
            self.wf(),
        ensures
            r == self.translate_spec(count as int),
            r.wf(),
    {
        let begin: usize = saturating_shift(self.begin, count);
        let last: usize = saturating_shift(self.last, count);
        Region { begin, last, reversed: self.reversed }
    }
}

/// `x` shifted by `d`, saturating at both ends of the `usize` range.
pub fn saturating_shift(x: usize, d: isize) -> (r: usize)
    ensures
        r == clamp_shift(x as int, d as int),
{
    if d >= 0 {
        let delta: usize = d as usize;
        if x <= usize::MAX - delta {
            x + delta
        } else {
            usize::MAX
        }
    } else {
        let mag: usize = ((-(d + 1)) as usize) + 1;
        if x >= mag {
            x - mag
        } else {
            0
        }
    }
}

/// Translating by `d` and then by `-d` restores the original region, provided
/// neither shift saturates at an end of the offset range.
pub proof fn lemma_translate_round_trip(r: Region, d: int)
    requires
        r.wf(),
        0 <= r.begin + d,
        r.last + d <= usize::MAX,
    ensures
        r.translate_spec(d).translate_spec(-d) == r,
{
}

/// A region's length counts every covered offset: for ordered endpoints it is
/// exactly `last - begin + 1`.
pub proof fn lemma_region_len(r: Region)
    requires
        r.wf(),
    ensures
        r.spec_len() == r.last - r.begin + 1,
        r.spec_len() >= 1,
{
}

} // verus!
