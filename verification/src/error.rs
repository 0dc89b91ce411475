use vstd::prelude::*;
use vstd::string::StringExecFns;

verus! {

/// Failures the editing core reports to its callers.
#[derive(Debug)]
pub enum Error {
    /// An id was looked up in a registry that does not hold it.
    UnknownItem { container: String, id: u128 },
    /// A character offset lay past the end of a buffer.
    OutOfBounds { offset: usize, len: usize },
}

impl Error {
    pub open spec fn is_unknown_item(self) -> bool {
        self is UnknownItem
    }

    pub open spec fn is_out_of_bounds(self) -> bool {
        self is OutOfBounds
    }

    /// A short description of the failure, for reporting outside the core.
    pub fn message(&self) -> (r: String)
        ensures
            self.is_unknown_item() ==> r@ == "unknown id in registry "@ + self->UnknownItem_container@,
            self.is_out_of_bounds() ==> r@ == "character offset out of bounds"@,
    {
        match self {
            Error::UnknownItem { container, .. } => {
                let mut m = String::from_str("unknown id in registry ");
                m.append(container.as_str());
                m
            },
            Error::OutOfBounds { .. } => String::from_str("character offset out of bounds"),
        }
    }
}

} // verus!
