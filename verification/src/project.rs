use vstd::prelude::*;
use vstd::string::StringExecFns;
use crate::path::{name_spec, Path};

verus! {

/// The display part a directory contributes to a project title: its file
/// name, or its whole text when it has no usable file name.
pub open spec fn dir_label(t: Seq<char>) -> Seq<char> {
    match name_spec(t) {
        Some(n) => n,
        None => t,
    }
}

/// The labels of the given directory paths joined with `", "`.
pub open spec fn joined_labels(paths: Seq<Seq<char>>) -> Seq<char>
    decreases paths.len(),
{
    if paths.len() == 0 {
        Seq::empty()
    } else if paths.len() == 1 {
        dir_label(paths[0])
    } else {
        joined_labels(paths.drop_last()) + ", "@ + dir_label(paths.last())
    }
}

/// The directories a window was opened on; they title the window's project.
#[derive(Debug)]
pub struct Project {
    pub dirpaths: Vec<Path>,
}

impl Project {
    /// Project over no directories.
    pub fn new() -> (r: Project)
        ensures
            r.dirpaths@.len() == 0,
    {
        Project { dirpaths: Vec::new() }
    }

    /// Record a directory path.  A directory already recorded (same text,
    /// same kind) is not recorded twice: re-adding leaves the project
    /// unchanged.
    pub fn add_dirpath(&mut self, dirpath: Path)
        ensures
            (exists|i: int|
                0 <= i < old(self).dirpaths@.len()
                    && (#[trigger] old(self).dirpaths@[i]).text@ == dirpath.text@
                    && old(self).dirpaths@[i].dir == dirpath.dir) ==> final(self).dirpaths@
                == old(self).dirpaths@,
            !(exists|i: int|
                0 <= i < old(self).dirpaths@.len()
                    && (#[trigger] old(self).dirpaths@[i]).text@ == dirpath.text@
                    && old(self).dirpaths@[i].dir == dirpath.dir) ==> final(self).dirpaths@
                == old(self).dirpaths@.push(dirpath),
    {
        let n: usize = self.dirpaths.len();
        let mut i: usize = 0;
        while i < n
            invariant
                i <= n == self.dirpaths@.len(),
                self.dirpaths@ == old(self).dirpaths@,
                forall|j: int|
                    0 <= j < i ==> !((#[trigger] self.dirpaths@[j]).text@ == dirpath.text@
                        && self.dirpaths@[j].dir == dirpath.dir),
            decreases n - i,
        {
            let p: &Path = &self.dirpaths[i];
            if p.text == dirpath.text && p.dir == dirpath.dir {
                return ;
            }
            i += 1;
        }
        self.dirpaths.push(dirpath);
    }

    /// The project title: the directories' labels joined with `", "`, or
    /// `None` when the project has no directories.
    pub fn title(&self) -> (r: Option<String>)
        ensures
            ({
                let labels = self.dirpaths@.map_values(|p: Path| p.text@);
                match r {
                    Some(s) => self.dirpaths@.len() > 0 && s@ == joined_labels(labels),
                    None => self.dirpaths@.len() == 0,
                }
            }),
    {
        let ghost labels = self.dirpaths@.map_values(|p: Path| p.text@);
        let n: usize = self.dirpaths.len();
        if n == 0 {
            return None;
        }
        let mut acc: String = String::new();
        let mut i: usize = 0;
        while i < n
            invariant
                0 < n == self.dirpaths@.len(),
                i <= n,
                labels == self.dirpaths@.map_values(|p: Path| p.text@),
                acc@ == joined_labels(labels.subrange(0, i as int)),
            decreases n - i,
        {
            if i > 0 {
                acc.append(", ");
            }
            let p: &Path = &self.dirpaths[i];
            match p.name() {
                Some(nm) => acc.append(nm.as_str()),
                None => acc.append(p.as_str()),
            }
            proof {
                assert(labels.subrange(0, i + 1).drop_last() =~= labels.subrange(0, i as int));
                assert(labels.subrange(0, i + 1).last() == labels[i as int]);
                assert(labels[i as int] == self.dirpaths@[i as int].text@);
            }
            i = i + 1;
        }
        proof {
            assert(labels.subrange(0, n as int) =~= labels);
        }
        Some(acc)
    }
}

} // verus!
