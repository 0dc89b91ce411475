use vstd::prelude::*;
use crate::region::Region;

verus! {

/// Well-formed stored regions: each region is valid, and consecutive regions
/// are separated by at least one uncovered offset (so none touch or overlap,
/// and they are sorted by begin).
pub open spec fn regions_wf(rs: Seq<Region>) -> bool {
    &&& (forall|i: int| 0 <= i < rs.len() ==> (#[trigger] rs[i]).wf())
    &&& (forall|i: int| 0 <= i < rs.len() - 1 ==> (#[trigger] rs[i]).last + 1 < rs[i + 1].begin)
}

/// Some stored region covers the offset `o`.
pub open spec fn regions_cover(rs: Seq<Region>, o: int) -> bool {
    exists|i: int| 0 <= i < rs.len() && (#[trigger] rs[i]).covers(o)
}

/// In a well-formed region list, any earlier region ends at least two offsets
/// before a later one begins: no two stored regions touch or overlap.
pub proof fn lemma_regions_separated(rs: Seq<Region>, i: int, j: int)
    requires
        regions_wf(rs),
        0 <= i < j < rs.len(),
    ensures
        rs[i].last + 1 < rs[j].begin,
        !rs[i].touches(rs[j]),
    decreases j - i,
{
    if i + 1 < j {
        lemma_regions_separated(rs, i + 1, j);
    }
}

/// A normalized set of cursor/selection regions: pairwise disjoint,
/// non-touching, and sorted.  Insertion re-merges, so the invariant is
/// maintained by every mutation.
#[derive(Debug)]
pub struct Selection {
    pub regions: Vec<Region>,
}

/// `a` and `b` touch or overlap (no offset separates them).
fn touches_exec(a: &Region, b: &Region) -> (r: bool)
    ensures
        r == a.touches(*b),
{
    let a_left: bool = b.begin > 0 && a.last < b.begin - 1;
    let b_left: bool = a.begin > 0 && b.last < a.begin - 1;
    !a_left && !b_left
}

/// `a` ends strictly before `b` begins, with at least one offset between.
fn strictly_left(a: &Region, b: &Region) -> (r: bool)
    ensures
        r == (a.last + 1 < b.begin),
{
    b.begin > 0 && a.last < b.begin - 1
}

impl Selection {
    pub open spec fn wf(self) -> bool {
        regions_wf(self.regions@)
    }

    pub open spec fn covers(self, o: int) -> bool {
        regions_cover(self.regions@, o)
    }

    /// Selection with no regions.
    pub fn new() -> (r: Selection)
        ensures
            r.wf(),
            r.regions@ =~= Seq::<Region>::empty(),
    {
        Selection { regions: Vec::new() }
    }

    /// Selection holding exactly `region`.
    pub fn from_region(region: Region) -> (r: Selection)
        requires
            region.wf(),
        ensures
            r.wf(),
            r.regions@ =~= seq![region],
    {
        let mut regions: Vec<Region> = Vec::new();
        regions.push(region);
        Selection { regions }
    }

    /// The stored regions, sorted by begin.
    pub fn iter(&self) -> (r: &Vec<Region>)
        ensures
            r@ == self.regions@,
    {
        &self.regions
    }

    /// Insert `region`, merging it with every stored region it touches or
    /// overlaps, so that stored regions stay pairwise disjoint and
    /// non-touching.  The covered offsets afterwards are exactly the offsets
    /// covered before plus those of `region`; regions that touch nothing are
    /// kept unchanged, and a region inserted without a merge partner is kept
    /// exactly as given (a merged region loses the reversed flag).
    #[verifier::rlimit(100)]
    #[verifier::loop_isolation(false)]
    pub fn insert(&mut self, region: Region)
        requires
            old(self).wf(),
            region.wf(),
        ensures
            final(self).wf(),
            forall|o: int|
                #![trigger final(self).covers(o)]
                #![trigger old(self).covers(o)]
                #![trigger region.covers(o)]
                final(self).covers(o) <==> old(self).covers(o) || region.covers(o),
            (forall|i: int|
                0 <= i < old(self).regions@.len() && !(#[trigger] old(self).regions@[i]).touches(
                    region,
                ) ==> final(self).regions@.contains(old(self).regions@[i])),
            (forall|i: int|
                0 <= i < old(self).regions@.len() ==> !(#[trigger] old(
                    self,
                ).regions@[i]).touches(region)) ==> final(self).regions@.contains(region),
    {
        let n: usize = self.regions.len();
        let mut result: Vec<Region> = Vec::new();
        let mut i: usize = 0;

        // Stored regions strictly to the left of `region` are kept as they are.
        while i < n && strictly_left(&self.regions[i], &region)
            invariant
                0 <= i <= n,
                result@ =~= self.regions@.subrange(0, i as int),
                forall|k: int| 0 <= k < i ==> (#[trigger] self.regions@[k]).last + 1 < region.begin,
            decreases n - i,
        {
            let r = self.regions[i];
            result.push(r);
            i += 1;
        }

        let ghost i1: int = i as int;
        let mut merged: Region = region;

        // Absorb the run of stored regions that touch or overlap `region`,
        // growing `merged` to their convex hull (which equals their union,
        // since each absorbed region touches `region`).
        while i < n && touches_exec(&self.regions[i], &region)
            invariant
                merged.wf(),
                i1 <= i <= n,
                forall|k: int| i1 <= k < i ==> (#[trigger] self.regions@[k]).touches(region),
                forall|o: int|
                    merged.covers(o) <==> region.covers(o) || (exists|k: int|
                        i1 <= k < i && (#[trigger] self.regions@[k]).covers(o)),
                merged.begin <= region.begin,
                merged.last >= region.last,
                i as int == i1 ==> merged == region,
                i as int > i1 ==> merged.reversed == false,
            decreases n - i,
        {
            let r = self.regions[i];
            let ghost old_merged = merged;
            let new_begin: usize = if r.begin < merged.begin {
                r.begin
            } else {
                merged.begin
            };
            let new_last: usize = if r.last > merged.last {
                r.last
            } else {
                merged.last
            };
            merged = Region { begin: new_begin, last: new_last, reversed: false };

            proof {
                lemma_absorb(self.regions@, region, old_merged, merged, i1, i as int);
            }
            i += 1;
        }

        let ghost i2: int = i as int;
        result.push(merged);

        proof {
            lemma_after_run(self.regions@, region, merged, i1, i2);
        }

        // The remaining stored regions are kept as they are.
        while i < n
            invariant
                i2 <= i <= n,
                result@ =~= self.regions@.subrange(0, i1).push(merged) + self.regions@.subrange(
                    i2,
                    i as int,
                ),
            decreases n - i,
        {
            let r = self.regions[i];
            result.push(r);
            i += 1;
        }

        let ghost old_regions: Seq<Region> = self.regions@;
        self.regions = result;

        proof {
            lemma_insert_rebuilt(self.regions@, old_regions, region, merged, i1, i2);
        }
    }
}

/// At the end of the absorbing run: every stored region before it ends
/// strictly before the merged region begins, and every stored region after it
/// begins strictly after the merged region ends.
#[verifier::rlimit(60)]
proof fn lemma_after_run(rs: Seq<Region>, region: Region, merged: Region, i1: int, i2: int)
    requires
        regions_wf(rs),
        region.wf(),
        merged.wf(),
        0 <= i1 <= i2 <= rs.len(),
        forall|k: int| 0 <= k < i1 ==> (#[trigger] rs[k]).last + 1 < region.begin,
        i1 < rs.len() ==> rs[i1].last + 1 >= region.begin,
        forall|k: int| i1 <= k < i2 ==> (#[trigger] rs[k]).touches(region),
        i2 < rs.len() ==> !rs[i2].touches(region),
        forall|o: int|
            merged.covers(o) <==> region.covers(o) || (exists|k: int|
                i1 <= k < i2 && (#[trigger] rs[k]).covers(o)),
        merged.begin <= region.begin,
        merged.last >= region.last,
    ensures
        forall|k: int| 0 <= k < i1 ==> (#[trigger] rs[k]).last + 1 < merged.begin,
        forall|k: int| i2 <= k < rs.len() ==> merged.last + 1 < (#[trigger] rs[k]).begin,
{
    let n = rs.len() as int;

    // The merged region begins at region.begin or at the begin of the first
    // absorbed region, both of which are past every region before the run.
    assert(merged.covers(merged.begin as int));
    assert forall|k: int| 0 <= k < i1 implies (#[trigger] rs[k]).last + 1 < merged.begin by {
        if !region.covers(merged.begin as int) {
            let k0 = choose|k0: int|
                i1 <= k0 < i2 && (#[trigger] rs[k0]).covers(merged.begin as int);
            if k < k0 {
                lemma_regions_separated(rs, k, k0);
            }
        }
    }

    if i2 < n {
        assert(!rs[i2].touches(region));
        if i1 < i2 {
            lemma_regions_separated(rs, i1, i2);
        }
        // rs[i2] is not strictly left of region (the run's first region
        // already reaches region, and later regions end no earlier), so it is
        // strictly right of it
        assert(region.last + 1 < rs[i2].begin);
        // merged.last is the last offset of region or of an absorbed region,
        // each of which ends before rs[i2] begins
        assert(merged.covers(merged.last as int));
        if !region.covers(merged.last as int) {
            let k = choose|k: int| i1 <= k < i2 && (#[trigger] rs[k]).covers(merged.last as int);
            if k < i2 - 1 {
                lemma_regions_separated(rs, k, i2 - 1);
            }
            lemma_regions_separated(rs, i2 - 1, i2);
        }
        assert(merged.last + 1 < rs[i2].begin);
    }
    assert forall|k: int| i2 <= k < n implies merged.last + 1 < (#[trigger] rs[k]).begin by {
        if i2 < k {
            lemma_regions_separated(rs, i2, k);
        }
    }
}

/// Growing the merged region to the convex hull of itself and the next
/// touching stored region covers exactly the union of the two: the absorbed
/// region touches `region`, which lies inside the old merged region, so no
/// gap separates them on either side.
#[verifier::rlimit(60)]
proof fn lemma_absorb(
    rs: Seq<Region>,
    region: Region,
    old_merged: Region,
    merged: Region,
    i1: int,
    ip: int,
)
    requires
        regions_wf(rs),
        region.wf(),
        old_merged.wf(),
        0 <= i1 <= ip < rs.len(),
        rs[ip].touches(region),
        forall|o: int|
            old_merged.covers(o) <==> region.covers(o) || (exists|k: int|
                i1 <= k < ip && (#[trigger] rs[k]).covers(o)),
        old_merged.begin <= region.begin,
        old_merged.last >= region.last,
        merged == (Region {
            begin: if rs[ip].begin < old_merged.begin {
                rs[ip].begin
            } else {
                old_merged.begin
            },
            last: if rs[ip].last > old_merged.last {
                rs[ip].last
            } else {
                old_merged.last
            },
            reversed: false,
        }),
    ensures
        merged.wf(),
        merged.begin <= region.begin,
        merged.last >= region.last,
        forall|o: int|
            merged.covers(o) <==> region.covers(o) || (exists|k: int|
                i1 <= k < ip + 1 && (#[trigger] rs[k]).covers(o)),
{
    let r = rs[ip];
    assert forall|o: int| merged.covers(o) implies old_merged.covers(o) || r.covers(o) by {
        if !old_merged.covers(o) && !r.covers(o) {
            if o < old_merged.begin {
                assert(o >= r.begin);
                assert(o > r.last);
            } else {
                assert(o > old_merged.last);
                assert(o <= r.last);
                assert(o < r.begin);
                assert(r.begin <= region.last + 1);
            }
        }
    }
    assert forall|o: int| merged.covers(o) implies region.covers(o) || (exists|k: int|
        i1 <= k < ip + 1 && (#[trigger] rs[k]).covers(o)) by {
        if old_merged.covers(o) {
            if !region.covers(o) {
                let k = choose|k: int| i1 <= k < ip && (#[trigger] rs[k]).covers(o);
                assert(rs[k].covers(o));
            }
        } else {
            assert(r.covers(o));
            assert(rs[ip].covers(o));
        }
    }
    assert forall|o: int|
        region.covers(o) || (exists|k: int|
            i1 <= k < ip + 1 && (#[trigger] rs[k]).covers(o)) implies merged.covers(o) by {
        if region.covers(o) {
            assert(old_merged.covers(o));
        } else {
            let k = choose|k: int| i1 <= k < ip + 1 && (#[trigger] rs[k]).covers(o);
            if k < ip {
                assert(old_merged.covers(o));
            } else {
                assert(r.covers(o));
            }
        }
    }
}

/// The region list rebuilt by an insert — the untouched prefix, the merged
/// region, the untouched suffix — is well formed and covers exactly the old
/// offsets plus the inserted region's.
#[verifier::rlimit(60)]
proof fn lemma_insert_rebuilt(
    rs: Seq<Region>,
    old_regions: Seq<Region>,
    region: Region,
    merged: Region,
    i1: int,
    i2: int,
)
    requires
        regions_wf(old_regions),
        region.wf(),
        merged.wf(),
        0 <= i1 <= i2 <= old_regions.len(),
        rs =~= old_regions.subrange(0, i1).push(merged) + old_regions.subrange(
            i2,
            old_regions.len() as int,
        ),
        forall|k: int| 0 <= k < i1 ==> (#[trigger] old_regions[k]).last + 1 < merged.begin,
        forall|k: int| i2 <= k < old_regions.len() ==> merged.last + 1 < (#[trigger] old_regions[k]).begin,
        forall|o: int|
            merged.covers(o) <==> region.covers(o) || (exists|k: int|
                i1 <= k < i2 && (#[trigger] old_regions[k]).covers(o)),
        forall|k: int| i1 <= k < i2 ==> (#[trigger] old_regions[k]).touches(region),
        i1 == i2 ==> merged == region,
    ensures
        regions_wf(rs),
        forall|o: int|
            regions_cover(rs, o) <==> regions_cover(old_regions, o) || region.covers(o),
        forall|k: int|
            0 <= k < old_regions.len() && !(#[trigger] old_regions[k]).touches(region)
                ==> rs.contains(old_regions[k]),
        (forall|k: int|
            0 <= k < old_regions.len() ==> !(#[trigger] old_regions[k]).touches(region))
            ==> rs.contains(region),
{
    let n = old_regions.len() as int;

    assert forall|i: int| 0 <= i < rs.len() implies (#[trigger] rs[i]).wf() by {
        if i < i1 {
            assert(rs[i] == old_regions[i]);
        } else if i == i1 {
            assert(rs[i] == merged);
        } else {
            assert(rs[i] == old_regions[i - i1 - 1 + i2]);
        }
    }
    assert forall|i: int| 0 <= i < rs.len() - 1 implies (#[trigger] rs[i]).last + 1 < rs[i
        + 1].begin by {
        if i + 1 < i1 {
            assert(rs[i] == old_regions[i]);
            assert(rs[i + 1] == old_regions[i + 1]);
        } else if i + 1 == i1 {
            assert(rs[i] == old_regions[i]);
            assert(rs[i + 1] == merged);
        } else if i == i1 {
            assert(rs[i] == merged);
            assert(rs[i + 1] == old_regions[i2]);
        } else {
            assert(rs[i] == old_regions[i - i1 - 1 + i2]);
            assert(rs[i + 1] == old_regions[i - i1 + i2]);
            lemma_regions_separated(old_regions, i - i1 - 1 + i2, i - i1 + i2);
        }
    }

    assert forall|o: int| regions_cover(rs, o) implies regions_cover(old_regions, o)
        || region.covers(o) by {
        let i = choose|i: int| 0 <= i < rs.len() && (#[trigger] rs[i]).covers(o);
        if i < i1 {
            assert(old_regions[i].covers(o));
        } else if i == i1 {
            if !region.covers(o) {
                let k = choose|k: int| i1 <= k < i2 && (#[trigger] old_regions[k]).covers(o);
                assert(old_regions[k].covers(o));
            }
        } else {
            assert(old_regions[i - i1 - 1 + i2].covers(o));
        }
    }
    assert forall|o: int| regions_cover(old_regions, o) || region.covers(o) implies regions_cover(
        rs,
        o,
    ) by {
        if region.covers(o) {
            assert(rs[i1] == merged);
            assert(rs[i1].covers(o));
        } else {
            let i = choose|i: int| 0 <= i < n && (#[trigger] old_regions[i]).covers(o);
            if i < i1 {
                assert(rs[i].covers(o));
            } else if i < i2 {
                assert(rs[i1].covers(o));
            } else {
                assert(rs[i - i2 + i1 + 1] == old_regions[i]);
                assert(rs[i - i2 + i1 + 1].covers(o));
            }
        }
    }

    assert forall|k: int|
        0 <= k < n && !(#[trigger] old_regions[k]).touches(region) implies rs.contains(
        old_regions[k],
    ) by {
        if k < i1 {
            assert(rs[k] == old_regions[k]);
        } else {
            assert(k >= i2);
            assert(rs[k - i2 + i1 + 1] == old_regions[k]);
        }
    }
    if forall|k: int| 0 <= k < n ==> !(#[trigger] old_regions[k]).touches(region) {
        if i1 < i2 {
            assert(old_regions[i1].touches(region));
        }
        assert(rs[i1] == region);
    }
}

} // verus!
