use vstd::prelude::*;
use vstd::string::StringExecFns;
use crate::path::{name_spec, Path};

verus! {

/// What a view shows above its buffer: derived from the file path the view
/// was opened on, or a fixed placeholder for an untitled document.
#[derive(Debug)]
pub struct Header {
    pub filepath: Option<Path>,
}

/// The placeholder title of a view with no backing file.
pub open spec fn default_title() -> Seq<char> {
    "Untitled"@
}

impl Header {
    pub fn new(filepath: Option<Path>) -> (r: Header)
        ensures
            r.filepath == filepath,
    {
        Header { filepath }
    }

    pub fn path(&self) -> (r: Option<&Path>)
        ensures
            match r {
                Some(p) => self.filepath == Some(*p),
                None => self.filepath is None,
            },
    {
        self.filepath.as_ref()
    }

    /// The short name: the path's file name, or the placeholder when there
    /// is no path or the path has no usable file name.
    pub fn name(&self) -> (r: String)
        ensures
            r@ == (match self.filepath {
                Some(p) => match name_spec(p.text@) {
                    Some(n) => n,
                    None => default_title(),
                },
                None => default_title(),
            }),
    {
        match &self.filepath {
            Some(p) => match p.name() {
                Some(n) => n,
                None => String::from_str("Untitled"),
            },
            None => String::from_str("Untitled"),
        }
    }

    /// The long title: the whole path, or the placeholder when there is no
    /// path.
    pub fn title(&self) -> (r: String)
        ensures
            r@ == (match self.filepath {
                Some(p) => p.text@,
                None => default_title(),
            }),
    {
        match &self.filepath {
            Some(p) => String::from_str(p.as_str()),
            None => String::from_str("Untitled"),
        }
    }
}

} // verus!
