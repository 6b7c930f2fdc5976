//! The content of one grid cell.

use vstd::prelude::*;

verus! {

/// One cell of the grid: empty, an immovable blocker, or a movable,
/// matchable piece carrying a color code.
#[derive(Clone, Copy, Debug, PartialEq, Eq, Structural)]
pub enum Tile {
    Empty,
    Blocker,
    Regular(u32),
}

impl Tile {
    /// True for a movable, matchable piece.
    pub open spec fn spec_is_regular(&self) -> bool {
        self is Regular
    }

    /// Executable variant test, usable in specifications as well.
    #[verifier::when_used_as_spec(spec_is_regular)]
    pub fn is_regular(&self) -> (r: bool)
        ensures
            r == self.spec_is_regular(),
    {
        match self {
            Tile::Regular(_) => true,
            _ => false,
        }
    }
}

} // verus!
