use vstd::prelude::*;

verus! {

/// Scroll anchor of a viewport: `x` is the leftmost visible column, `y` the
/// topmost visible row.  Independent of the cursor selections.
#[derive(Clone, Copy, Debug, PartialEq, Eq, Structural)]
pub struct Position {
    pub x: usize,
    pub y: usize,
}

impl Position {
    pub fn zero() -> (r: Position)
        ensures
            r.x == 0,
            r.y == 0,
    {
        Position { x: 0, y: 0 }
    }
}

} // verus!
