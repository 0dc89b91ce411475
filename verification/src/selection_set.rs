use vstd::prelude::*;
use vstd::pervasive::VecAdditionalExecFns;
use crate::region::Region;
use crate::selection::Selection;

verus! {

/// Ordered collection of selections; index 0 is the primary one.  The
/// collection is never empty.
#[derive(Debug)]
pub struct SelectionSet {
    pub selections: Vec<Selection>,
}

impl SelectionSet {
    pub open spec fn wf(self) -> bool {
        &&& self.selections@.len() > 0
        &&& forall|i: int|
            0 <= i < self.selections@.len() ==> (#[trigger] self.selections@[i]).wf()
    }

    /// The primary selection's stored regions.
    pub open spec fn primary_regions(self) -> Seq<Region> {
        self.selections@[0].regions@
    }

    /// Selection set holding one selection with the single region `region`.
    pub fn from_region(region: Region) -> (r: SelectionSet)
        requires
            region.wf(),
        ensures
            r.wf(),
            r.selections@.len() == 1,
            r.primary_regions() =~= seq![region],
    {
        let mut selections: Vec<Selection> = Vec::new();
        selections.push(Selection::from_region(region));
        SelectionSet { selections }
    }

    pub fn primary(&self) -> (r: &Selection)
        requires
            self.wf(),
        ensures
            r == self.selections@[0],
    {
        &self.selections[0]
    }

    /// Replace the primary selection.
    pub fn set_primary(&mut self, selection: Selection)
        requires
            old(self).wf(),
            selection.wf(),
        ensures
            final(self).wf(),
            final(self).selections@ =~= old(self).selections@.update(0, selection),
            final(self).primary_regions() == selection.regions@,
    {
        self.selections.set(0, selection);
    }
}

} // verus!
